//! HMAC-SHA1 signatures over the signature base string.

use vstd::prelude::*;
use vstd::utf8::encode_utf8;
use crate::encode::{encode, encoded, lemma_encoded_has_no_separator, lemma_encoded_injective, lemma_split_at};

verus! {

/// The HMAC-SHA1 tag of `message` under `key`.
pub uninterp spec fn hmac_sha1_of(key: Seq<u8>, message: Seq<u8>) -> Seq<u8>;

/// The standard Base64 encoding, with padding, of `bytes`.
pub uninterp spec fn base64_of(bytes: Seq<u8>) -> Seq<char>;

/// Relies on ring::hmac::Key::new with HMAC_SHA1_FOR_LEGACY_USE_ONLY and
/// ring::hmac::sign: the HMAC-SHA1 tag of the bytes of `message` under the
/// bytes of `key`.
#[verifier::external_body]
fn hmac_sha1(key: &str, message: &str) -> (r: Vec<u8>)
    ensures
        r@ == hmac_sha1_of(encode_utf8(key@), encode_utf8(message@)),
{
    let k = ring::hmac::Key::new(ring::hmac::HMAC_SHA1_FOR_LEGACY_USE_ONLY, key.as_bytes());
    ring::hmac::sign(&k, message.as_bytes()).as_ref().to_vec()
}

/// Relies on base64::encode: the standard Base64 alphabet, with padding.
#[verifier::external_body]
fn base64_encode(bytes: &Vec<u8>) -> (r: String)
    ensures
        r@ == base64_of(bytes@),
{
    base64::encode(bytes)
}

/// The secret of an optional credential, empty when there is none.
pub open spec fn secret_or_empty(secret: Option<Seq<char>>) -> Seq<char> {
    match secret {
        Some(s) => s,
        None => Seq::empty(),
    }
}

/// The HMAC key: `encode(consumer_secret)&encode(token_secret or "")`.
pub open spec fn signing_key_of(consumer_secret: Seq<char>, token_secret: Option<Seq<char>>) -> Seq<char> {
    encoded(consumer_secret) + seq!['&'] + encoded(secret_or_empty(token_secret))
}

/// The signature base string: `encode(method)&encode(uri)&encode(query)`.
pub open spec fn base_string_of(method: Seq<char>, uri: Seq<char>, query: Seq<char>) -> Seq<char> {
    encoded(method) + seq!['&'] + encoded(uri) + seq!['&'] + encoded(query)
}

/// The signature: Base64 of the HMAC-SHA1 of the base string under the signing key.
pub open spec fn signature_of(
    method: Seq<char>,
    uri: Seq<char>,
    query: Seq<char>,
    consumer_secret: Seq<char>,
    token_secret: Option<Seq<char>>,
) -> Seq<char> {
    base64_of(
        hmac_sha1_of(
            encode_utf8(signing_key_of(consumer_secret, token_secret)),
            encode_utf8(base_string_of(method, uri, query)),
        ),
    )
}

/// The view of an optional string.
pub open spec fn opt_view(s: Option<&str>) -> Option<Seq<char>> {
    match s {
        Some(t) => Some(t@),
        None => None,
    }
}

/// Builds the HMAC key from the consumer secret and the optional token secret.
pub fn signing_key(consumer_secret: &str, token_secret: Option<&str>) -> (r: String)
    ensures
        r@ == signing_key_of(consumer_secret@, opt_view(token_secret)),
{
    let mut key = encode(consumer_secret);
    key.append("&");
    let t = match token_secret {
        Some(t) => encode(t),
        None => encode(""),
    };
    key.append(t.as_str());
    proof {
        reveal_strlit("&");
        reveal_strlit("");
        assert(""@ =~= Seq::<char>::empty());
    }
    key
}

/// Builds the signature base string from the method (taken as given, with no
/// change of case), the request URI and the canonical query string.
pub fn base_string(method: &str, uri: &str, query: &str) -> (r: String)
    ensures
        r@ == base_string_of(method@, uri@, query@),
{
    let mut base = encode(method);
    base.append("&");
    let u = encode(uri);
    base.append(u.as_str());
    base.append("&");
    let q = encode(query);
    base.append(q.as_str());
    proof {
        reveal_strlit("&");
    }
    base
}

/// Computes the request signature. The result is determined by the arguments:
/// the same method, URI, query and secrets always give the same signature.
pub fn gen_signature(
    method: &str,
    uri: &str,
    query: &str,
    consumer_secret: &str,
    token_secret: Option<&str>,
) -> (r: String)
    ensures
        r@ == signature_of(method@, uri@, query@, consumer_secret@, opt_view(token_secret)),
{
    let base = base_string(method, uri, query);
    let key = signing_key(consumer_secret, token_secret);
    let tag = hmac_sha1(key.as_str(), base.as_str());
    base64_encode(&tag)
}

/// The message and the key given to HMAC-SHA1 determine the method, the URI,
/// the query string and both secrets (an absent token secret counting as
/// empty): a change to any of them changes the message or the key.
pub proof fn lemma_signature_inputs_distinct(
    method1: Seq<char>,
    uri1: Seq<char>,
    query1: Seq<char>,
    consumer_secret1: Seq<char>,
    token_secret1: Option<Seq<char>>,
    method2: Seq<char>,
    uri2: Seq<char>,
    query2: Seq<char>,
    consumer_secret2: Seq<char>,
    token_secret2: Option<Seq<char>>,
)
    requires
        encode_utf8(base_string_of(method1, uri1, query1)) == encode_utf8(base_string_of(method2, uri2, query2)),
        encode_utf8(signing_key_of(consumer_secret1, token_secret1)) == encode_utf8(signing_key_of(consumer_secret2, token_secret2)),
    ensures
        method1 == method2,
        uri1 == uri2,
        query1 == query2,
        consumer_secret1 == consumer_secret2,
        secret_or_empty(token_secret1) == secret_or_empty(token_secret2),
{
    vstd::utf8::encode_utf8_decode_utf8(base_string_of(method1, uri1, query1));
    vstd::utf8::encode_utf8_decode_utf8(base_string_of(method2, uri2, query2));
    vstd::utf8::encode_utf8_decode_utf8(signing_key_of(consumer_secret1, token_secret1));
    vstd::utf8::encode_utf8_decode_utf8(signing_key_of(consumer_secret2, token_secret2));
    lemma_encoded_has_no_separator(method1);
    lemma_encoded_has_no_separator(method2);
    lemma_encoded_has_no_separator(uri1);
    lemma_encoded_has_no_separator(uri2);
    lemma_encoded_has_no_separator(consumer_secret1);
    lemma_encoded_has_no_separator(consumer_secret2);
    let a = seq!['&'];
    assert(base_string_of(method1, uri1, query1) =~= encoded(method1) + a + (encoded(uri1) + a + encoded(query1)));
    assert(base_string_of(method2, uri2, query2) =~= encoded(method2) + a + (encoded(uri2) + a + encoded(query2)));
    lemma_split_at('&', encoded(method1), encoded(uri1) + a + encoded(query1), encoded(method2), encoded(uri2) + a + encoded(query2));
    lemma_split_at('&', encoded(uri1), encoded(query1), encoded(uri2), encoded(query2));
    lemma_split_at(
        '&',
        encoded(consumer_secret1),
        encoded(secret_or_empty(token_secret1)),
        encoded(consumer_secret2),
        encoded(secret_or_empty(token_secret2)),
    );
    lemma_encoded_injective(method1, method2);
    lemma_encoded_injective(uri1, uri2);
    lemma_encoded_injective(query1, query2);
    lemma_encoded_injective(consumer_secret1, consumer_secret2);
    lemma_encoded_injective(secret_or_empty(token_secret1), secret_or_empty(token_secret2));
}

} // verus!
