//! Strict percent-encoding: every byte outside the RFC 3986 unreserved set
//! `A-Z a-z 0-9 - . _ ~` becomes `%XX` with uppercase hex digits.

use vstd::prelude::*;
use vstd::utf8::encode_utf8;

verus! {

/// The RFC 3986 unreserved bytes, which pass through unescaped.
pub open spec fn is_unreserved(b: u8) -> bool {
    ||| 0x41 <= b <= 0x5A
    ||| 0x61 <= b <= 0x7A
    ||| 0x30 <= b <= 0x39
    ||| b == 0x2D
    ||| b == 0x2E
    ||| b == 0x5F
    ||| b == 0x7E
}

/// Uppercase hexadecimal digit for a value below 16.
pub open spec fn hex_digit(n: int) -> char {
    if n < 10 {
        (n + 0x30) as u8 as char
    } else {
        (n + 0x37) as u8 as char
    }
}

/// The escape `%XX` of one byte.
pub open spec fn escape_of(b: u8) -> Seq<char> {
    seq!['%', hex_digit(b as int / 16), hex_digit(b as int % 16)]
}

/// What one byte becomes in the output.
pub open spec fn encode_byte(b: u8) -> Seq<char> {
    if is_unreserved(b) {
        seq![b as char]
    } else {
        escape_of(b)
    }
}

/// The strict percent-encoding of a byte sequence.
pub open spec fn percent_encoded(bs: Seq<u8>) -> Seq<char>
    decreases bs.len(),
{
    if bs.len() == 0 {
        Seq::empty()
    } else {
        encode_byte(bs[0]) + percent_encoded(bs.drop_first())
    }
}

/// The strict percent-encoding of the UTF-8 form of a string.
pub open spec fn encoded(s: Seq<char>) -> Seq<char> {
    percent_encoded(encode_utf8(s))
}

/// Relies on percent_encoding::percent_encode_byte: the three characters `%XX`
/// of a byte, with uppercase hex digits.
#[verifier::external_body]
fn escape_byte(b: u8) -> (r: &'static str)
    ensures
        r@ == escape_of(b),
{
    percent_encoding::percent_encode_byte(b)
}

/// Relies on String::push: appends one character.
#[verifier::external_body]
pub(crate) fn push_char(s: &mut String, c: char)
    ensures
        final(s)@ == old(s)@.push(c),
{
    s.push(c)
}

fn is_unreserved_byte(b: u8) -> (r: bool)
    ensures
        r == is_unreserved(b),
{
    (0x41 <= b && b <= 0x5A) || (0x61 <= b && b <= 0x7A) || (0x30 <= b && b <= 0x39) || b == 0x2D
        || b == 0x2E || b == 0x5F || b == 0x7E
}

proof fn lemma_percent_encoded_push(bs: Seq<u8>, b: u8)
    ensures
        percent_encoded(bs.push(b)) == percent_encoded(bs) + encode_byte(b),
    decreases bs.len(),
{
    if bs.len() == 0 {
        assert(bs.push(b).drop_first() =~= Seq::<u8>::empty());
        assert(percent_encoded(Seq::<u8>::empty()) == Seq::<char>::empty());
        assert(percent_encoded(bs.push(b)) =~= encode_byte(b));
    } else {
        assert(bs.push(b).drop_first() =~= bs.drop_first().push(b));
        lemma_percent_encoded_push(bs.drop_first(), b);
        assert(percent_encoded(bs.push(b)) =~= percent_encoded(bs) + encode_byte(b));
    }
}

/// Percent-encodes the UTF-8 bytes of `s`, leaving only unreserved bytes as they are.
pub fn encode(s: &str) -> (r: String)
    ensures
        r@ == encoded(s@),
{
    let bytes = s.as_bytes();
    let mut out = String::new();
    let mut i: usize = 0;
    while i < bytes.len()
        invariant
            0 <= i <= bytes@.len(),
            bytes@ == encode_utf8(s@),
            out@ == percent_encoded(bytes@.take(i as int)),
        decreases bytes@.len() - i,
    {
        let b = bytes[i];
        proof {
            assert(bytes@.take(i as int + 1) =~= bytes@.take(i as int).push(b));
            lemma_percent_encoded_push(bytes@.take(i as int), b);
        }
        if is_unreserved_byte(b) {
            push_char(&mut out, b as char);
        } else {
            let e = escape_byte(b);
            out.append(e);
        }
        i = i + 1;
    }
    assert(bytes@.take(i as int) =~= bytes@);
    out
}

/// A character that can occur in an encoded string: an unreserved one, or `%`.
pub open spec fn is_encoded_char(c: char) -> bool {
    c == '%' || ((c as u32) < 0x80 && is_unreserved(c as u32 as u8))
}

/// Value of an uppercase hexadecimal digit.
pub open spec fn hex_value(c: char) -> int {
    if (c as u32) < 0x3A {
        c as u32 - 0x30
    } else {
        c as u32 - 0x37
    }
}

/// Percent-decoding: `%XX` becomes the byte it names, any other character its own code.
pub open spec fn percent_decoded(cs: Seq<char>) -> Seq<u8>
    decreases cs.len(),
{
    if cs.len() == 0 {
        Seq::empty()
    } else if cs[0] == '%' && cs.len() >= 3 {
        seq![(hex_value(cs[1]) * 16 + hex_value(cs[2])) as u8] + percent_decoded(cs.skip(3))
    } else {
        seq![cs[0] as u32 as u8] + percent_decoded(cs.drop_first())
    }
}

/// Every character of an encoding is unreserved or `%`.
pub proof fn lemma_encoded_chars(bs: Seq<u8>)
    ensures
        forall|i: int| 0 <= i < percent_encoded(bs).len() ==> is_encoded_char(#[trigger] percent_encoded(bs)[i]),
    decreases bs.len(),
{
    if bs.len() > 0 {
        lemma_encoded_chars(bs.drop_first());
        let e = encode_byte(bs[0]);
        let rest = percent_encoded(bs.drop_first());
        assert forall|i: int| 0 <= i < e.len() implies is_encoded_char(#[trigger] e[i]) by {
            let b = bs[0];
            if !is_unreserved(b) {
                assert(is_unreserved(hex_digit(b as int / 16) as u32 as u8));
                assert(is_unreserved(hex_digit(b as int % 16) as u32 as u8));
            }
        }
        assert forall|i: int| 0 <= i < (e + rest).len() implies is_encoded_char(#[trigger] (e + rest)[i]) by {
            if i >= e.len() {
                assert((e + rest)[i] == rest[i - e.len()]);
            }
        }
    }
}

/// Decoding an encoding gives back the bytes that were encoded.
pub proof fn lemma_decode_encoded(bs: Seq<u8>)
    ensures
        percent_decoded(percent_encoded(bs)) == bs,
    decreases bs.len(),
{
    if bs.len() == 0 {
        assert(percent_encoded(bs) =~= Seq::<char>::empty());
    } else {
        let b = bs[0];
        let e = encode_byte(b);
        let rest = percent_encoded(bs.drop_first());
        lemma_decode_encoded(bs.drop_first());
        let all = e + rest;
        if is_unreserved(b) {
            assert(all.drop_first() =~= rest);
            assert(all[0] == b as char);
        } else {
            assert(all.skip(3) =~= rest);
            assert(all[1] == hex_digit(b as int / 16));
            assert(all[2] == hex_digit(b as int % 16));
            assert(hex_value(all[1]) == b as int / 16);
            assert(hex_value(all[2]) == b as int % 16);
        }
        assert(percent_decoded(all) =~= bs);
    }
}

/// The encoding of a string holds only unreserved characters and `%`, and
/// decoding it gives back the string's UTF-8 bytes.
pub proof fn lemma_encode_round_trip(s: Seq<char>)
    ensures
        forall|i: int| 0 <= i < encoded(s).len() ==> is_encoded_char(#[trigger] encoded(s)[i]),
        percent_decoded(encoded(s)) == encode_utf8(s),
{
    lemma_encoded_chars(encode_utf8(s));
    lemma_decode_encoded(encode_utf8(s));
}

/// Different strings have different encodings.
pub proof fn lemma_encoded_injective(a: Seq<char>, b: Seq<char>)
    requires
        encoded(a) == encoded(b),
    ensures
        a == b,
{
    lemma_decode_encoded(encode_utf8(a));
    lemma_decode_encoded(encode_utf8(b));
    vstd::utf8::encode_utf8_decode_utf8(a);
    vstd::utf8::encode_utf8_decode_utf8(b);
}

/// Splitting `x c y` at the separator `c` is unique when `x` holds no `c`.
pub proof fn lemma_split_at(c: char, x1: Seq<char>, y1: Seq<char>, x2: Seq<char>, y2: Seq<char>)
    requires
        x1 + seq![c] + y1 == x2 + seq![c] + y2,
        forall|i: int| 0 <= i < x1.len() ==> x1[i] != c,
        forall|i: int| 0 <= i < x2.len() ==> x2[i] != c,
    ensures
        x1 == x2,
        y1 == y2,
{
    let w = x1 + seq![c] + y1;
    assert(w[x1.len() as int] == c);
    assert(w == x2 + seq![c] + y2);
    if x1.len() < x2.len() {
        assert(x2[x1.len() as int] == w[x1.len() as int]);
    } else if x2.len() < x1.len() {
        assert(x1[x2.len() as int] == w[x2.len() as int]);
    }
    assert(x1 =~= w.take(x1.len() as int));
    assert(x2 =~= w.take(x2.len() as int));
    assert(y1 =~= w.skip(x1.len() as int + 1));
    assert(y2 =~= w.skip(x2.len() as int + 1));
}

/// An encoding holds no `&` and no `=`.
pub proof fn lemma_encoded_has_no_separator(s: Seq<char>)
    ensures
        forall|i: int| 0 <= i < encoded(s).len() ==> encoded(s)[i] != '&' && encoded(s)[i] != '=',
{
    lemma_encoded_chars(encode_utf8(s));
    assert forall|i: int| 0 <= i < encoded(s).len() implies encoded(s)[i] != '&' && encoded(s)[i] != '=' by {
        assert(is_encoded_char(encoded(s)[i]));
    }
}

} // verus!
