//! OAuth 1.0a `Authorization` header generation with HMAC-SHA1 signatures.
//!
//! Parameters are percent-encoded with the strict RFC 3986 unreserved set,
//! collected into a canonical query string, signed together with the method
//! and URI, and rendered as `OAuth name="value", ...`.

pub mod authorize;
pub mod encode;
pub mod header;
pub mod order;
pub mod params;
pub mod query;
pub mod sign;

pub use authorize::{authorize, authorize_with, NONCE_LEN};
pub use encode::encode;
pub use params::Token;
pub use query::to_query;
pub use sign::{base_string, gen_signature, signing_key};
