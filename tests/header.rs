use oauth1_header::header::decimal_string;
use oauth1_header::{
    authorize, authorize_with, base_string, encode, gen_signature, signing_key, to_query, Token,
    NONCE_LEN,
};

fn pairs(items: &[(&str, &str)]) -> Vec<(String, String)> {
    items.iter().map(|(k, v)| (k.to_string(), v.to_string())).collect()
}

fn hmac_base64(key: &str, message: &str) -> String {
    let k = ring::hmac::Key::new(ring::hmac::HMAC_SHA1_FOR_LEGACY_USE_ONLY, key.as_bytes());
    base64::encode(ring::hmac::sign(&k, message.as_bytes()).as_ref())
}

fn percent_decode(s: &str) -> Vec<u8> {
    let b = s.as_bytes();
    let mut out = Vec::new();
    let mut i = 0;
    while i < b.len() {
        if b[i] == b'%' {
            let h = std::str::from_utf8(&b[i + 1..i + 3]).unwrap();
            out.push(u8::from_str_radix(h, 16).unwrap());
            i += 3;
        } else {
            out.push(b[i]);
            i += 1;
        }
    }
    out
}

/// The header's items after `OAuth `, each split into name and quoted value.
fn parse_header(h: &str) -> Vec<(String, String)> {
    assert!(h.starts_with("OAuth "));
    h["OAuth ".len()..]
        .split(", ")
        .map(|item| {
            let eq = item.find("=\"").unwrap();
            assert!(item.ends_with('"'));
            (item[..eq].to_string(), item[eq + 2..item.len() - 1].to_string())
        })
        .collect()
}

fn value_of(h: &str, name: &str) -> String {
    parse_header(h).into_iter().find(|(k, _)| k == name).unwrap().1
}

#[test]
fn token_new_keeps_key_and_secret() {
    let t = Token::new("ck", "cs");
    assert_eq!(t.key, "ck");
    assert_eq!(t.secret, "cs");
}

#[test]
fn encode_leaves_unreserved() {
    assert_eq!(encode("AZaz09-._~"), "AZaz09-._~");
    assert_eq!(encode("a"), "a");
    assert_eq!(encode(""), "");
}

#[test]
fn encode_escapes_reserved_with_uppercase_hex() {
    assert_eq!(encode(" "), "%20");
    assert_eq!(encode("/*+=&\""), "%2F%2A%2B%3D%26%22");
    assert_eq!(encode("http://example.com/resource"), "http%3A%2F%2Fexample.com%2Fresource");
    assert_eq!(encode("\u{e9}"), "%C3%A9");
    assert_eq!(encode("%"), "%25");
}

#[test]
fn encode_output_charset_and_round_trip() {
    for s in ["", "plain", "a b&c=d", "\u{e9}\u{1F600}\"\\", "~-._%25"] {
        let e = encode(s);
        assert!(e.chars().all(|c| c.is_ascii_alphanumeric() || "-._~%".contains(c)));
        assert_eq!(percent_decode(&e), s.as_bytes());
    }
}

#[test]
fn to_query_empty() {
    assert_eq!(to_query(&Vec::new()), "");
}

#[test]
fn to_query_sorts_encoded_pairs() {
    let q = to_query(&pairs(&[("b", "2"), ("a b", "x/y"), ("a", "3")]));
    assert_eq!(q, "a%20b=x%2Fy&a=3&b=2");
}

#[test]
fn to_query_same_name_sorted_by_value() {
    let q = to_query(&pairs(&[("a", "2"), ("a", "10"), ("a", "1")]));
    assert_eq!(q, "a=1&a=10&a=2");
}

#[test]
fn to_query_ignores_order() {
    let x = pairs(&[("c", "3"), ("a", "1"), ("b", "2"), ("a", "0")]);
    let mut y = x.clone();
    y.reverse();
    let mut z = x.clone();
    z.rotate_left(2);
    assert_eq!(to_query(&x), to_query(&y));
    assert_eq!(to_query(&x), to_query(&z));
    assert_eq!(to_query(&x), "a=0&a=1&b=2&c=3");
}

#[test]
fn signing_key_empty_secrets() {
    assert_eq!(signing_key("", None), "&");
    assert_eq!(signing_key("", Some("")), "&");
}

#[test]
fn signing_key_encodes_both_secrets() {
    assert_eq!(signing_key("c s", Some("t&s")), "c%20s&t%26s");
    assert_eq!(signing_key("cs", None), "cs&");
}

#[test]
fn base_string_encodes_each_part() {
    assert_eq!(
        base_string("GET", "http://a.b/c", "x=1&y=2"),
        "GET&http%3A%2F%2Fa.b%2Fc&x%3D1%26y%3D2"
    );
}

#[test]
fn gen_signature_matches_hmac_sha1_base64() {
    let sig = gen_signature("GET", "http://a.b/c", "x=1", "cs", Some("ts"));
    assert_eq!(sig, hmac_base64("cs&ts", "GET&http%3A%2F%2Fa.b%2Fc&x%3D1"));
    assert_ne!(sig, "GET&http%3A%2F%2Fa.b%2Fc&x%3D1");
}

#[test]
fn gen_signature_is_deterministic() {
    let a = gen_signature("POST", "http://x/y", "a=1", "cs", None);
    let b = gen_signature("POST", "http://x/y", "a=1", "cs", None);
    assert_eq!(a, b);
}

#[test]
fn gen_signature_changes_with_any_input() {
    let base = gen_signature("POST", "http://x/y", "a=1", "cs", Some("ts"));
    assert_ne!(base, gen_signature("POSU", "http://x/y", "a=1", "cs", Some("ts")));
    assert_ne!(base, gen_signature("POST", "http://x/z", "a=1", "cs", Some("ts")));
    assert_ne!(base, gen_signature("POST", "http://x/y", "a=2", "cs", Some("ts")));
    assert_ne!(base, gen_signature("POST", "http://x/y", "a=1", "cr", Some("ts")));
    assert_ne!(base, gen_signature("POST", "http://x/y", "a=1", "cs", Some("tt")));
}

#[test]
fn decimal_string_values() {
    assert_eq!(decimal_string(0), "0");
    assert_eq!(decimal_string(137131200), "137131200");
    assert_eq!(decimal_string(u64::MAX), u64::MAX.to_string());
}

#[test]
fn scenario_post_without_token() {
    let consumer = Token::new("ck", "cs");
    let h = authorize_with(
        "POST",
        "http://example.com/resource",
        &consumer,
        None,
        None,
        None,
        "nonceABC",
        137131200,
    );
    let base = "POST&http%3A%2F%2Fexample.com%2Fresource&\
                oauth_consumer_key%3Dck%26oauth_nonce%3DnonceABC%26\
                oauth_signature_method%3DHMAC-SHA1%26oauth_timestamp%3D137131200%26\
                oauth_version%3D1.0";
    let expected_sig = hmac_base64("cs&", base);
    assert_eq!(value_of(&h, "oauth_signature"), encode(&expected_sig));
    let expected = format!(
        "OAuth oauth_consumer_key=\"ck\", oauth_nonce=\"nonceABC\", oauth_signature=\"{}\", \
         oauth_signature_method=\"HMAC-SHA1\", oauth_timestamp=\"137131200\", oauth_version=\"1.0\"",
        encode(&expected_sig)
    );
    assert_eq!(h, expected);
}

#[test]
fn scenario_with_token_signs_token_key_and_secret() {
    let consumer = Token::new("ck", "cs");
    let token = Token::new("tk", "ts");
    let h = authorize_with("GET", "http://e.com/r", &consumer, Some(&token), None, None, "n", 1);
    let base = "GET&http%3A%2F%2Fe.com%2Fr&\
                oauth_consumer_key%3Dck%26oauth_nonce%3Dn%26\
                oauth_signature_method%3DHMAC-SHA1%26oauth_timestamp%3D1%26\
                oauth_token%3Dtk%26oauth_version%3D1.0";
    assert_eq!(value_of(&h, "oauth_signature"), encode(&hmac_base64("cs&ts", base)));
    assert_eq!(value_of(&h, "oauth_token"), "tk");
}

#[test]
fn scenario_empty_consumer_secret_key_is_ampersand() {
    let consumer = Token::new("ck", "");
    let h = authorize_with("GET", "http://e.com/", &consumer, None, None, None, "n", 5);
    let base = "GET&http%3A%2F%2Fe.com%2F&\
                oauth_consumer_key%3Dck%26oauth_nonce%3Dn%26\
                oauth_signature_method%3DHMAC-SHA1%26oauth_timestamp%3D5%26oauth_version%3D1.0";
    assert_eq!(value_of(&h, "oauth_signature"), encode(&hmac_base64("&", base)));
}

#[test]
fn scenario_quote_and_space_are_percent_encoded() {
    let consumer = Token::new("ck", "cs");
    let extra = pairs(&[("oauth_callback", "say \"hi\"")]);
    let h = authorize_with("GET", "http://e.com/", &consumer, None, Some(extra), None, "n", 5);
    assert!(h.contains("oauth_callback=\"say%20%22hi%22\""));
    assert!(!h.contains('\\'));
}

#[test]
fn extra_params_are_signed_but_only_oauth_ones_rendered() {
    let consumer = Token::new("ck", "cs");
    let extra = pairs(&[("status", "hello world"), ("oauth_callback", "oob")]);
    let h = authorize_with("POST", "http://e.com/u", &consumer, None, Some(extra), None, "n", 7);
    assert!(!h.contains("status"));
    assert_eq!(value_of(&h, "oauth_callback"), "oob");
    let base = "POST&http%3A%2F%2Fe.com%2Fu&\
                oauth_callback%3Doob%26oauth_consumer_key%3Dck%26oauth_nonce%3Dn%26\
                oauth_signature_method%3DHMAC-SHA1%26oauth_timestamp%3D7%26oauth_version%3D1.0%26\
                status%3Dhello%2520world";
    assert_eq!(value_of(&h, "oauth_signature"), encode(&hmac_base64("cs&", base)));
}

#[test]
fn duplicate_names_last_write_wins() {
    let consumer = Token::new("ck", "cs");
    let extra = pairs(&[("oauth_x", "1"), ("oauth_x", "2"), ("oauth_nonce", "mine")]);
    let h = authorize_with("GET", "http://e.com/", &consumer, None, Some(extra), None, "n", 5);
    let items = parse_header(&h);
    assert_eq!(items.iter().filter(|(k, _)| k == "oauth_x").count(), 1);
    assert_eq!(value_of(&h, "oauth_x"), "2");
    assert_eq!(value_of(&h, "oauth_nonce"), "n");
}

#[test]
fn header_parses_into_sorted_quoted_pairs() {
    let consumer = Token::new("ck", "c s");
    let token = Token::new("t k", "ts");
    let h = authorize_with("GET", "http://e.com/", &consumer, Some(&token), None, None, "n", 5);
    let items = parse_header(&h);
    assert_eq!(items.len(), 7);
    let rendered: Vec<String> = h["OAuth ".len()..].split(", ").map(|s| s.to_string()).collect();
    let mut sorted = rendered.clone();
    sorted.sort();
    assert_eq!(rendered, sorted);
    assert_eq!(value_of(&h, "oauth_token"), "t%20k");
    for (_, v) in items {
        assert!(v.chars().all(|c| c.is_ascii_alphanumeric() || "-._~%".contains(c)));
    }
}

#[test]
fn realm_leads_and_is_not_signed() {
    let consumer = Token::new("ck", "cs");
    let with = authorize_with("GET", "http://e.com/", &consumer, None, None, Some("My Realm"), "n", 5);
    let without = authorize_with("GET", "http://e.com/", &consumer, None, None, None, "n", 5);
    assert!(with.starts_with("OAuth realm=\"My%20Realm\", oauth_"));
    assert_eq!(&with["OAuth realm=\"My%20Realm\", ".len()..], &without["OAuth ".len()..]);
    assert_eq!(value_of(&with, "oauth_signature"), value_of(&without, "oauth_signature"));
}

#[test]
fn authorize_draws_nonce_and_timestamp() {
    let consumer = Token::new("ck", "cs");
    let h = authorize("GET", "http://e.com/", &consumer, None, None, None);
    assert!(h.starts_with("OAuth "));
    let nonce = value_of(&h, "oauth_nonce");
    assert_eq!(nonce.len(), NONCE_LEN);
    assert!(nonce.chars().all(|c| c.is_ascii_alphanumeric()));
    let ts: u64 = value_of(&h, "oauth_timestamp").parse().unwrap();
    assert!(ts > 1_500_000_000);
    let again = authorize("GET", "http://e.com/", &consumer, None, None, None);
    assert_ne!(value_of(&again, "oauth_nonce"), nonce);
}

#[test]
fn to_query_differs_for_different_pairs() {
    let a = to_query(&pairs(&[("a", "1"), ("b", "2")]));
    assert_ne!(a, to_query(&pairs(&[("a", "1"), ("b", "3")])));
    assert_ne!(a, to_query(&pairs(&[("a", "1"), ("c", "2")])));
    assert_ne!(a, to_query(&pairs(&[("a", "1"), ("b", "2"), ("b", "2")])));
}

#[test]
fn signature_changes_with_a_parameter_value() {
    let consumer = Token::new("ck", "cs");
    let one = authorize_with("GET", "http://e.com/", &consumer, None, Some(pairs(&[("q", "a")])), None, "n", 5);
    let two = authorize_with("GET", "http://e.com/", &consumer, None, Some(pairs(&[("q", "b")])), None, "n", 5);
    assert_ne!(value_of(&one, "oauth_signature"), value_of(&two, "oauth_signature"));
}
