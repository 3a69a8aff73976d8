//! Rendering of the `Authorization` header value:
//! `OAuth name1="value1", name2="value2", ...`.

use vstd::prelude::*;
use crate::encode::{encode, encoded, hex_digit, is_encoded_char, lemma_encode_round_trip};
use crate::order::{lex_order, lemma_lex_total, sort_strings, sorted_strings, views};
use crate::query::{join, joined, lemma_joined_front, pair_views};

verus! {

/// The decimal digits of `n`, with no leading zero.
pub open spec fn decimal(n: nat) -> Seq<char>
    decreases n,
{
    if n < 10 {
        seq![hex_digit(n as int)]
    } else {
        decimal(n / 10).push(hex_digit((n % 10) as int))
    }
}

/// The protocol parameters are those whose names start with `oauth_`.
pub open spec fn is_oauth_name(name: Seq<char>) -> bool {
    name.len() >= 6 && name.take(6) == "oauth_"@
}

/// One rendered parameter: `name="encode(value)"`.
pub open spec fn rendered_pair(p: (Seq<char>, Seq<char>)) -> Seq<char> {
    p.0 + seq!['=', '"'] + encoded(p.1) + seq!['"']
}

/// Whether a pair is a protocol parameter.
pub open spec fn is_oauth_pair() -> spec_fn((Seq<char>, Seq<char>)) -> bool {
    |p: (Seq<char>, Seq<char>)| is_oauth_name(p.0)
}

/// The rendered protocol parameters of a set, in the set's order.
pub open spec fn rendered_items(s: Seq<(Seq<char>, Seq<char>)>) -> Seq<Seq<char>> {
    s.filter(is_oauth_pair()).map_values(|p: (Seq<char>, Seq<char>)| rendered_pair(p))
}

/// The rendered realm: `realm="encode(realm)"`.
pub open spec fn realm_item(realm: Seq<char>) -> Seq<char> {
    rendered_pair(("realm"@, realm))
}

/// The items of the header: the realm if there is one, then the rendered
/// protocol parameters in ascending order.
pub open spec fn header_items(s: Seq<(Seq<char>, Seq<char>)>, realm: Option<Seq<char>>) -> Seq<Seq<char>> {
    match realm {
        Some(r) => seq![realm_item(r)] + sorted_strings(rendered_items(s)),
        None => sorted_strings(rendered_items(s)),
    }
}

/// The header value for the parameter set `s` and the optional realm.
pub open spec fn header_of(s: Seq<(Seq<char>, Seq<char>)>, realm: Option<Seq<char>>) -> Seq<char> {
    "OAuth "@ + joined(header_items(s, realm), ", "@)
}

fn digit_char(d: u64) -> (c: char)
    requires
        d < 10,
    ensures
        c == hex_digit(d as int),
{
    ((d as u8) + 0x30) as char
}

/// The decimal digits of `n`.
pub fn decimal_string(n: u64) -> (r: String)
    ensures
        r@ == decimal(n as nat),
    decreases n,
{
    if n < 10 {
        let mut s = String::new();
        crate::encode::push_char(&mut s, digit_char(n));
        proof {
            assert(s@ =~= decimal(n as nat));
        }
        s
    } else {
        let mut s = decimal_string(n / 10);
        crate::encode::push_char(&mut s, digit_char(n % 10));
        s
    }
}

/// Whether `name` starts with `oauth_`.
pub fn is_oauth_name_exec(name: &str) -> (r: bool)
    ensures
        r == is_oauth_name(name@),
{
    let prefix = "oauth_";
    proof {
        reveal_strlit("oauth_");
    }
    if name.unicode_len() < 6 {
        return false;
    }
    let mut i: usize = 0;
    while i < 6
        invariant
            0 <= i <= 6,
            name@.len() >= 6,
            prefix@ == "oauth_"@,
            prefix@.len() == 6,
            forall|j: int| 0 <= j < i ==> name@[j] == prefix@[j],
        decreases 6 - i,
    {
        if name.get_char(i) != prefix.get_char(i) {
            assert(name@.take(6)[i as int] != prefix@[i as int]);
            assert(name@.take(6) != prefix@);
            return false;
        }
        i = i + 1;
    }
    assert(name@.take(6) =~= prefix@);
    true
}

/// Renders one parameter as `name="encode(value)"`.
pub fn render_pair(name: &str, value: &str) -> (r: String)
    ensures
        r@ == rendered_pair((name@, value@)),
{
    let mut out = name.to_string();
    out.append("=\"");
    let v = encode(value);
    out.append(v.as_str());
    out.append("\"");
    proof {
        reveal_strlit("=\"");
        reveal_strlit("\"");
        assert(out@ =~= rendered_pair((name@, value@)));
    }
    out
}

/// Renders the header value: `OAuth ` followed by the realm, if given, and
/// then the parameters whose names start with `oauth_`, each as
/// `name="encode(value)"` and in ascending order, joined by `, `.
pub fn render_header(params: &Vec<(String, String)>, realm: Option<&str>) -> (r: String)
    ensures
        r@ == header_of(pair_views(params@), crate::sign::opt_view(realm)),
{
    let ghost s = pair_views(params@);
    let mut items: Vec<String> = Vec::new();
    let mut i: usize = 0;
    while i < params.len()
        invariant
            0 <= i <= params@.len(),
            s == pair_views(params@),
            views(items@) == rendered_items(s.take(i as int)),
        decreases params@.len() - i,
    {
        let ghost before = items@;
        proof {
            reveal(Seq::filter);
            let t = s.take(i as int + 1);
            assert(t.drop_last() =~= s.take(i as int));
            assert(t.last() == s[i as int]);
            assert(t.filter(is_oauth_pair()) == if is_oauth_name(s[i as int].0) {
                s.take(i as int).filter(is_oauth_pair()).push(s[i as int])
            } else {
                s.take(i as int).filter(is_oauth_pair())
            });
        }
        if is_oauth_name_exec(params[i].0.as_str()) {
            let item = render_pair(params[i].0.as_str(), params[i].1.as_str());
            items.push(item);
            proof {
                assert(views(items@) =~= views(before).push(item@));
                assert(views(items@) =~= rendered_items(s.take(i as int + 1)));
            }
        } else {
            proof {
                assert(views(items@) =~= rendered_items(s.take(i as int + 1)));
            }
        }
        i = i + 1;
    }
    proof {
        assert(s.take(i as int) =~= s);
    }
    let mut all = sort_strings(&items);
    match realm {
        Some(r) => {
            let ghost before = all@;
            let item = render_pair("realm", r);
            all.insert(0, item);
            proof {
                assert(views(all@) =~= seq![item@] + views(before));
            }
        },
        None => {},
    }
    let body = join(&all, ", ");
    let mut out = "OAuth ".to_string();
    out.append(body.as_str());
    out
}

/// `item` reads `name="value"` with a value made only of unreserved characters and `%`.
pub open spec fn is_quoted_param(item: Seq<char>, name: Seq<char>, value: Seq<char>) -> bool {
    &&& item == name + seq!['=', '"'] + value + seq!['"']
    &&& forall|i: int| 0 <= i < value.len() ==> is_encoded_char(#[trigger] value[i])
}

/// `item` reads `name="value"` for some name and some percent-encoded value.
pub open spec fn is_quoted_item(item: Seq<char>) -> bool {
    exists|name: Seq<char>, value: Seq<char>| is_quoted_param(item, name, value)
}

proof fn lemma_rendered_is_quoted(p: (Seq<char>, Seq<char>))
    ensures
        is_quoted_param(rendered_pair(p), p.0, encoded(p.1)),
{
    lemma_encode_round_trip(p.1);
}

proof fn lemma_sorted_item_quoted(s: Seq<(Seq<char>, Seq<char>)>, j: int) -> (nv: (Seq<char>, Seq<char>))
    requires
        0 <= j < sorted_strings(rendered_items(s)).len(),
    ensures
        is_quoted_param(sorted_strings(rendered_items(s))[j], nv.0, nv.1),
{
    let r = rendered_items(s);
    let f = s.filter(is_oauth_pair());
    lemma_lex_total();
    r.lemma_sort_by_ensures(lex_order());
    let sorted = sorted_strings(r);
    assert(sorted.contains(sorted[j]));
    assert(r.contains(sorted[j]));
    let k = choose|k: int| 0 <= k < r.len() && r[k] == sorted[j];
    lemma_rendered_is_quoted(f[k]);
    (f[k].0, encoded(f[k].1))
}

/// Every header starts with `OAuth `, followed by its items separated by
/// `, `, each of which reads `name="value"` with the value percent-encoded (so
/// holding no quote, space or backslash).
pub proof fn lemma_header_shape(s: Seq<(Seq<char>, Seq<char>)>, realm: Option<Seq<char>>)
    ensures
        header_of(s, realm).take(6) == "OAuth "@,
        header_of(s, realm) == "OAuth "@ + joined(header_items(s, realm), ", "@),
        forall|i: int|
            0 <= i < header_items(s, realm).len() ==> is_quoted_item(#[trigger] header_items(s, realm)[i]),
{
    reveal_strlit("OAuth ");
    assert(header_of(s, realm).take(6) =~= "OAuth "@);
    let sorted = sorted_strings(rendered_items(s));
    let items = header_items(s, realm);
    assert forall|i: int| 0 <= i < items.len() implies is_quoted_item(#[trigger] items[i]) by {
        match realm {
            Some(rl) => {
                if i == 0 {
                    lemma_rendered_is_quoted(("realm"@, rl));
                    assert(is_quoted_param(items[i], "realm"@, encoded(rl)));
                } else {
                    assert(items[i] == sorted[i - 1]);
                    let nv = lemma_sorted_item_quoted(s, i - 1);
                    assert(is_quoted_param(items[i], nv.0, nv.1));
                }
            },
            None => {
                let nv = lemma_sorted_item_quoted(s, i);
                assert(is_quoted_param(items[i], nv.0, nv.1));
            },
        }
    }
}

/// The header lists at least one protocol parameter when the set holds one.
proof fn lemma_items_nonempty(s: Seq<(Seq<char>, Seq<char>)>, k: int)
    requires
        0 <= k < s.len(),
        is_oauth_name(s[k].0),
    ensures
        sorted_strings(rendered_items(s)).len() > 0,
{
    broadcast use vstd::seq_lib::group_to_multiset_ensures;
    broadcast use vstd::seq_lib::group_filter_ensures;
    assert(s.filter(is_oauth_pair()).contains(s[k]));
    assert(rendered_items(s).len() > 0);
    lemma_lex_total();
    rendered_items(s).lemma_sort_by_ensures(lex_order());
    assert(rendered_items(s).to_multiset().len() > 0);
}

/// With a realm, the header is the realm's item followed by the header that
/// the same parameter set gives without one.
pub proof fn lemma_realm_first(s: Seq<(Seq<char>, Seq<char>)>, realm: Seq<char>, k: int)
    requires
        0 <= k < s.len(),
        is_oauth_name(s[k].0),
    ensures
        header_of(s, Some(realm)) == "OAuth "@ + realm_item(realm) + ", "@ + header_of(s, None).skip(6),
{
    reveal_strlit("OAuth ");
    lemma_items_nonempty(s, k);
    let items = sorted_strings(rendered_items(s));
    lemma_joined_front(realm_item(realm), items, ", "@);
    assert(header_of(s, None).skip(6) =~= joined(items, ", "@));
    assert(header_of(s, Some(realm)) =~= "OAuth "@ + realm_item(realm) + ", "@ + header_of(s, None).skip(6));
}

} // verus!
