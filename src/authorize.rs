//! Assembly of the signed parameter set and of the final header.

use vstd::prelude::*;
use rand::distributions::Distribution;
use crate::header::{decimal, decimal_string, header_of, is_oauth_name, lemma_realm_first, realm_item, render_header};
use crate::params::{names_distinct, param_insert, param_insert_all, set_param, Token};
use crate::query::{canonical_query, lemma_query_determines_pairs, pair_views, to_query};
use crate::sign::{base_string_of, gen_signature, lemma_signature_inputs_distinct, secret_or_empty, signature_of, signing_key_of};
use vstd::utf8::encode_utf8;

verus! {

/// Length of the nonce that `authorize` draws.
pub const NONCE_LEN: usize = 32;

/// An ASCII letter or digit.
pub open spec fn is_alphanumeric(c: char) -> bool {
    ('A' <= c && c <= 'Z') || ('a' <= c && c <= 'z') || ('0' <= c && c <= '9')
}

/// Relies on rand's Alphanumeric distribution sampled from rand::thread_rng:
/// `len` characters, each drawn from `A-Z a-z 0-9`.
#[verifier::external_body]
fn random_alphanumeric(len: usize) -> (r: String)
    ensures
        r@.len() == len,
        forall|i: int| 0 <= i < r@.len() ==> is_alphanumeric(#[trigger] r@[i]),
{
    rand::distributions::Alphanumeric.sample_iter(rand::thread_rng()).take(len).map(char::from).collect()
}

/// Relies on std's SystemTime::now and SystemTime::duration_since: the whole
/// seconds since the Unix epoch, or `None` when the clock is set before it.
#[verifier::external_body]
fn unix_seconds() -> (r: Option<u64>) {
    std::time::SystemTime::now().duration_since(std::time::UNIX_EPOCH).ok().map(|d| d.as_secs())
}

/// The key of an optional credential.
pub open spec fn key_of(t: Option<&Token>) -> Option<Seq<char>> {
    match t {
        Some(t) => Some(t.key@),
        None => None,
    }
}

/// The secret of an optional credential.
pub open spec fn secret_of(t: Option<&Token>) -> Option<Seq<char>> {
    match t {
        Some(t) => Some(t.secret@),
        None => None,
    }
}

/// The caller's extra parameters, none when absent.
pub open spec fn extra_of(params: Option<Vec<(String, String)>>) -> Seq<(Seq<char>, Seq<char>)> {
    match params {
        Some(v) => pair_views(v@),
        None => Seq::empty(),
    }
}

/// The signed parameter set: the caller's parameters (a later pair with the
/// same name replaces an earlier one), then the protocol parameters, which
/// replace any caller parameter of the same name.
pub open spec fn signed_params(
    consumer_key: Seq<char>,
    token_key: Option<Seq<char>>,
    extra: Seq<(Seq<char>, Seq<char>)>,
    nonce: Seq<char>,
    timestamp: nat,
) -> Seq<(Seq<char>, Seq<char>)> {
    let s0 = param_insert_all(Seq::empty(), extra);
    let s1 = param_insert(s0, "oauth_consumer_key"@, consumer_key);
    let s2 = param_insert(s1, "oauth_nonce"@, nonce);
    let s3 = param_insert(s2, "oauth_signature_method"@, "HMAC-SHA1"@);
    let s4 = param_insert(s3, "oauth_timestamp"@, decimal(timestamp));
    let s5 = param_insert(s4, "oauth_version"@, "1.0"@);
    match token_key {
        Some(k) => param_insert(s5, "oauth_token"@, k),
        None => s5,
    }
}

/// The header for a request: the signature is computed over the signed
/// parameter set (never over the realm), added as `oauth_signature`, and the
/// result rendered with the optional realm in front.
pub open spec fn authorization(
    method: Seq<char>,
    uri: Seq<char>,
    consumer_key: Seq<char>,
    consumer_secret: Seq<char>,
    token_key: Option<Seq<char>>,
    token_secret: Option<Seq<char>>,
    extra: Seq<(Seq<char>, Seq<char>)>,
    realm: Option<Seq<char>>,
    nonce: Seq<char>,
    timestamp: nat,
) -> Seq<char> {
    let signed = signed_params(consumer_key, token_key, extra, nonce, timestamp);
    let sig = signature_of(method, uri, canonical_query(signed), consumer_secret, token_secret);
    header_of(param_insert(signed, "oauth_signature"@, sig), realm)
}

/// Builds the `Authorization` header value with the given nonce and timestamp
/// (Unix seconds). The method is signed as given, with no change of case.
pub fn authorize_with(
    method: &str,
    uri: &str,
    consumer: &Token,
    token: Option<&Token>,
    params: Option<Vec<(String, String)>>,
    realm: Option<&str>,
    nonce: &str,
    timestamp: u64,
) -> (r: String)
    ensures
        r@ == authorization(
            method@,
            uri@,
            consumer.key@,
            consumer.secret@,
            key_of(token),
            secret_of(token),
            extra_of(params),
            crate::sign::opt_view(realm),
            nonce@,
            timestamp as nat,
        ),
{
    let ghost extra = extra_of(params);
    let mut all: Vec<(String, String)> = Vec::new();
    match params {
        Some(v) => {
            let mut i: usize = 0;
            while i < v.len()
                invariant
                    0 <= i <= v@.len(),
                    extra == pair_views(v@),
                    names_distinct(pair_views(all@)),
                    pair_views(all@) == param_insert_all(Seq::empty(), extra.take(i as int)),
                decreases v@.len() - i,
            {
                proof {
                    assert(extra.take(i as int + 1).drop_last() =~= extra.take(i as int));
                }
                set_param(&mut all, v[i].0.clone(), v[i].1.clone());
                i = i + 1;
            }
            proof {
                assert(extra.take(i as int) =~= extra);
            }
        },
        None => {
            proof {
                assert(pair_views(all@) =~= Seq::<(Seq<char>, Seq<char>)>::empty());
            }
        },
    }
    set_param(&mut all, "oauth_consumer_key".to_string(), consumer.key.clone());
    set_param(&mut all, "oauth_nonce".to_string(), nonce.to_string());
    set_param(&mut all, "oauth_signature_method".to_string(), "HMAC-SHA1".to_string());
    set_param(&mut all, "oauth_timestamp".to_string(), decimal_string(timestamp));
    set_param(&mut all, "oauth_version".to_string(), "1.0".to_string());
    let token_secret: Option<&str> = match token {
        Some(t) => {
            set_param(&mut all, "oauth_token".to_string(), t.key.clone());
            Some(t.secret.as_str())
        },
        None => None,
    };
    let query = to_query(&all);
    let sig = gen_signature(method, uri, query.as_str(), consumer.secret.as_str(), token_secret);
    set_param(&mut all, "oauth_signature".to_string(), sig);
    render_header(&all, realm)
}

/// Builds the `Authorization` header value for a request, with a fresh
/// random nonce of `NONCE_LEN` letters and digits and the current Unix time
/// (0 when the clock is set before the epoch).
pub fn authorize(
    method: &str,
    uri: &str,
    consumer: &Token,
    token: Option<&Token>,
    params: Option<Vec<(String, String)>>,
    realm: Option<&str>,
) -> (r: String)
    ensures
        exists|nonce: Seq<char>, timestamp: u64|
            nonce.len() == NONCE_LEN && (forall|i: int| 0 <= i < nonce.len() ==> is_alphanumeric(#[trigger] nonce[i]))
                && r@ == #[trigger] authorization(
                method@,
                uri@,
                consumer.key@,
                consumer.secret@,
                key_of(token),
                secret_of(token),
                extra_of(params),
                crate::sign::opt_view(realm),
                nonce,
                timestamp as nat,
            ),
{
    let timestamp = match unix_seconds() {
        Some(t) => t,
        None => 0,
    };
    let nonce = random_alphanumeric(NONCE_LEN);
    let ghost extra = extra_of(params);
    let r = authorize_with(method, uri, consumer, token, params, realm, nonce.as_str(), timestamp);
    assert(r@ == authorization(method@, uri@, consumer.key@, consumer.secret@, key_of(token), secret_of(token), extra, crate::sign::opt_view(realm), nonce@, timestamp as nat));
    r
}

/// A set in which `name` has been set holds a pair with that name.
proof fn lemma_insert_holds(s: Seq<(Seq<char>, Seq<char>)>, name: Seq<char>, value: Seq<char>) -> (k: int)
    ensures
        0 <= k < param_insert(s, name, value).len(),
        param_insert(s, name, value)[k].0 == name,
{
    if exists|i: int| 0 <= i < s.len() && s[i].0 == name {
        choose|i: int| 0 <= i < s.len() && s[i].0 == name
    } else {
        s.len() as int
    }
}

/// The realm, when given, leads the header, and everything after it is the
/// header for the same request without a realm: the signature does not cover it.
pub proof fn lemma_realm_leads(
    method: Seq<char>,
    uri: Seq<char>,
    consumer_key: Seq<char>,
    consumer_secret: Seq<char>,
    token_key: Option<Seq<char>>,
    token_secret: Option<Seq<char>>,
    extra: Seq<(Seq<char>, Seq<char>)>,
    realm: Seq<char>,
    nonce: Seq<char>,
    timestamp: nat,
)
    ensures
        authorization(method, uri, consumer_key, consumer_secret, token_key, token_secret, extra, Some(realm), nonce, timestamp)
            == "OAuth "@ + realm_item(realm) + ", "@ + authorization(
            method,
            uri,
            consumer_key,
            consumer_secret,
            token_key,
            token_secret,
            extra,
            None,
            nonce,
            timestamp,
        ).skip(6),
{
    let signed = signed_params(consumer_key, token_key, extra, nonce, timestamp);
    let sig = signature_of(method, uri, canonical_query(signed), consumer_secret, token_secret);
    let all = param_insert(signed, "oauth_signature"@, sig);
    let k = lemma_insert_holds(signed, "oauth_signature"@, sig);
    reveal_strlit("oauth_signature");
    reveal_strlit("oauth_");
    assert(all[k].0.take(6) =~= "oauth_"@);
    assert(is_oauth_name(all[k].0));
    lemma_realm_first(all, realm, k);
}

/// Two requests whose HMAC-SHA1 inputs (message and key) coincide agree on
/// the method, the URI, the signed parameters (as a multiset of pairs) and
/// both secrets: changing any one of them changes what is signed.
pub proof fn lemma_signed_inputs_determine_request(
    method1: Seq<char>,
    uri1: Seq<char>,
    params1: Seq<(Seq<char>, Seq<char>)>,
    consumer_secret1: Seq<char>,
    token_secret1: Option<Seq<char>>,
    method2: Seq<char>,
    uri2: Seq<char>,
    params2: Seq<(Seq<char>, Seq<char>)>,
    consumer_secret2: Seq<char>,
    token_secret2: Option<Seq<char>>,
)
    requires
        encode_utf8(base_string_of(method1, uri1, canonical_query(params1))) == encode_utf8(
            base_string_of(method2, uri2, canonical_query(params2)),
        ),
        encode_utf8(signing_key_of(consumer_secret1, token_secret1)) == encode_utf8(
            signing_key_of(consumer_secret2, token_secret2),
        ),
    ensures
        method1 == method2,
        uri1 == uri2,
        params1.to_multiset() == params2.to_multiset(),
        consumer_secret1 == consumer_secret2,
        secret_or_empty(token_secret1) == secret_or_empty(token_secret2),
{
    lemma_signature_inputs_distinct(
        method1,
        uri1,
        canonical_query(params1),
        consumer_secret1,
        token_secret1,
        method2,
        uri2,
        canonical_query(params2),
        consumer_secret2,
        token_secret2,
    );
    lemma_query_determines_pairs(params1, params2);
}

} // verus!
