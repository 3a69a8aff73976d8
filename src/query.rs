//! Canonical query strings: each pair encoded as `name=value`, the pairs sorted
//! as whole strings and joined with `&`.

use vstd::prelude::*;
use crate::encode::{encode, encoded, lemma_encoded_has_no_separator, lemma_encoded_injective, lemma_split_at};
use crate::order::{lemma_lex_total, lemma_sorted_is_sort, sort_strings, sorted_strings, views, lex_order};

verus! {

broadcast use vstd::seq_lib::group_to_multiset_ensures;

/// The items joined with `sep` between each two.
pub open spec fn joined(items: Seq<Seq<char>>, sep: Seq<char>) -> Seq<char>
    decreases items.len(),
{
    if items.len() == 0 {
        Seq::empty()
    } else if items.len() == 1 {
        items[0]
    } else {
        joined(items.drop_last(), sep) + sep + items.last()
    }
}

/// The views of a sequence of name/value pairs.
pub open spec fn pair_views(v: Seq<(String, String)>) -> Seq<(Seq<char>, Seq<char>)> {
    v.map_values(|p: (String, String)| (p.0@, p.1@))
}

/// One pair of the query: `encode(name)=encode(value)`.
pub open spec fn pair_item(p: (Seq<char>, Seq<char>)) -> Seq<char> {
    encoded(p.0) + seq!['='] + encoded(p.1)
}

/// The encoded items of a sequence of pairs, in the order given.
pub open spec fn pair_items(ps: Seq<(Seq<char>, Seq<char>)>) -> Seq<Seq<char>> {
    ps.map_values(|p: (Seq<char>, Seq<char>)| pair_item(p))
}

/// The canonical query string of a sequence of pairs.
pub open spec fn canonical_query(ps: Seq<(Seq<char>, Seq<char>)>) -> Seq<char> {
    joined(sorted_strings(pair_items(ps)), seq!['&'])
}

/// Joins strings with `sep` between each two.
pub fn join(items: &Vec<String>, sep: &str) -> (r: String)
    ensures
        r@ == joined(views(items@), sep@),
{
    let mut out = String::new();
    let mut i: usize = 0;
    while i < items.len()
        invariant
            0 <= i <= items@.len(),
            out@ == joined(views(items@).take(i as int), sep@),
        decreases items@.len() - i,
    {
        let ghost w = views(items@);
        proof {
            assert(w.take(i as int + 1).drop_last() =~= w.take(i as int));
            if i == 0 {
                assert(w.take(0) =~= Seq::<Seq<char>>::empty());
            }
        }
        if i > 0 {
            out.append(sep);
        }
        out.append(items[i].as_str());
        i = i + 1;
    }
    assert(views(items@).take(i as int) =~= views(items@));
    out
}

/// Builds the canonical query string of the pairs: each name and value
/// percent-encoded and joined by `=`, the results sorted and joined by `&`.
pub fn to_query(params: &Vec<(String, String)>) -> (r: String)
    ensures
        r@ == canonical_query(pair_views(params@)),
{
    let mut items: Vec<String> = Vec::new();
    let mut i: usize = 0;
    while i < params.len()
        invariant
            0 <= i <= params@.len(),
            views(items@) == pair_items(pair_views(params@)).take(i as int),
        decreases params@.len() - i,
    {
        let (k, v) = (&params[i].0, &params[i].1);
        let mut item = encode(k.as_str());
        item.append("=");
        let ev = encode(v.as_str());
        item.append(ev.as_str());
        proof {
            reveal_strlit("=");
            assert(item@ == pair_item(pair_views(params@)[i as int]));
        }
        let ghost before = items@;
        items.push(item);
        proof {
            let all = pair_items(pair_views(params@));
            assert(views(items@) =~= views(before).push(item@));
            assert(all.take(i as int + 1) =~= all.take(i as int).push(all[i as int]));
        }
        i = i + 1;
    }
    proof {
        assert(pair_items(pair_views(params@)).take(i as int) =~= pair_items(pair_views(params@)));
    }
    let sorted = sort_strings(&items);
    proof {
        reveal_strlit("&");
        assert("&"@ =~= seq!['&']);
    }
    let r = join(&sorted, "&");
    assert(views(items@) == pair_items(pair_views(params@)));
    assert(views(sorted@) == sorted_strings(pair_items(pair_views(params@))));
    r
}

proof fn lemma_map_same_multiset<A, B>(a: Seq<A>, b: Seq<A>, f: spec_fn(A) -> B)
    requires
        a.to_multiset() == b.to_multiset(),
    ensures
        a.map_values(f).to_multiset() == b.map_values(f).to_multiset(),
    decreases a.len(),
{
    broadcast use vstd::multiset::group_multiset_axioms;
    if a.len() == 0 {
        assert(a.to_multiset().len() == 0);
        assert(b.to_multiset().len() == 0);
        assert(a.map_values(f) =~= Seq::<B>::empty());
        assert(b.map_values(f) =~= Seq::<B>::empty());
    } else {
        let x = a.last();
        assert(a =~= a.drop_last().push(x));
        assert(a.to_multiset() == a.drop_last().to_multiset().insert(x));
        assert(b.to_multiset().count(x) > 0);
        assert(b.contains(x));
        let k = choose|k: int| 0 <= k < b.len() && b[k] == x;
        let b2 = b.remove(k);
        assert(b2.to_multiset() == b.to_multiset().remove(x));
        assert(a.drop_last().to_multiset() =~= b2.to_multiset());
        lemma_map_same_multiset(a.drop_last(), b2, f);
        assert(a.map_values(f) =~= a.drop_last().map_values(f).push(f(x)));
        assert(b2.map_values(f) =~= b.map_values(f).remove(k));
        let mb = b.map_values(f);
        assert(mb.remove(k).to_multiset() == mb.to_multiset().remove(mb[k]));
        assert(mb.to_multiset().count(f(x)) > 0);
        assert(mb.to_multiset() =~= mb.to_multiset().remove(f(x)).insert(f(x)));
    }
}

/// The canonical query depends only on which pairs are given, with their
/// multiplicities, and not on their order.
pub proof fn lemma_query_order_independent(
    a: Seq<(Seq<char>, Seq<char>)>,
    b: Seq<(Seq<char>, Seq<char>)>,
)
    requires
        a.to_multiset() == b.to_multiset(),
    ensures
        canonical_query(a) == canonical_query(b),
{
    lemma_map_same_multiset(a, b, |p: (Seq<char>, Seq<char>)| pair_item(p));
    lemma_lex_total();
    pair_items(a).lemma_sort_by_ensures(lex_order());
    lemma_sorted_is_sort(pair_items(b), sorted_strings(pair_items(a)));
}

/// Joining an item in front of a non-empty list puts it and one separator
/// ahead of the joined list.
pub proof fn lemma_joined_front(x: Seq<char>, items: Seq<Seq<char>>, sep: Seq<char>)
    requires
        items.len() > 0,
    ensures
        joined(seq![x] + items, sep) == x + sep + joined(items, sep),
    decreases items.len(),
{
    let all = seq![x] + items;
    if items.len() == 1 {
        assert(all.drop_last() =~= seq![x]);
        assert(joined(seq![x], sep) == x);
    } else {
        assert(all.drop_last() =~= seq![x] + items.drop_last());
        lemma_joined_front(x, items.drop_last(), sep);
        assert(joined(all, sep) =~= x + sep + joined(items, sep));
    }
}

/// Splitting `x c y` at the separator `c` is unique when `y` holds no `c`.
proof fn lemma_split_at_last(c: char, x1: Seq<char>, y1: Seq<char>, x2: Seq<char>, y2: Seq<char>)
    requires
        x1 + seq![c] + y1 == x2 + seq![c] + y2,
        forall|i: int| 0 <= i < y1.len() ==> y1[i] != c,
        forall|i: int| 0 <= i < y2.len() ==> y2[i] != c,
    ensures
        x1 == x2,
        y1 == y2,
{
    let w = x1 + seq![c] + y1;
    let n = w.len() as int;
    assert(w == x2 + seq![c] + y2);
    assert(w[n - y1.len() - 1] == c);
    assert(w[n - y2.len() - 1] == c);
    if y1.len() < y2.len() {
        assert(y2[y2.len() - y1.len() - 1] == w[n - y1.len() - 1]);
    } else if y2.len() < y1.len() {
        assert(y1[y1.len() - y2.len() - 1] == w[n - y2.len() - 1]);
    }
    assert(x1 =~= w.take(n - y1.len() - 1));
    assert(x2 =~= w.take(n - y2.len() - 1));
    assert(y1 =~= w.skip(n - y1.len()));
    assert(y2 =~= w.skip(n - y2.len()));
}

/// Items that are non-empty and hold no `c` can be read back from their join.
proof fn lemma_joined_injective(a: Seq<Seq<char>>, b: Seq<Seq<char>>, c: char)
    requires
        joined(a, seq![c]) == joined(b, seq![c]),
        forall|i: int| 0 <= i < a.len() ==> (#[trigger] a[i]).len() > 0,
        forall|i: int| 0 <= i < b.len() ==> (#[trigger] b[i]).len() > 0,
        forall|i: int, j: int| 0 <= i < a.len() && 0 <= j < a[i].len() ==> #[trigger] a[i][j] != c,
        forall|i: int, j: int| 0 <= i < b.len() && 0 <= j < b[i].len() ==> #[trigger] b[i][j] != c,
    ensures
        a == b,
    decreases a.len() + b.len(),
{
    let sep = seq![c];
    if a.len() == 0 && b.len() == 0 {
        assert(a =~= b);
    } else if a.len() == 0 || b.len() == 0 {
        let (x, y) = if a.len() == 0 { (a, b) } else { (b, a) };
        assert(joined(y, sep).len() >= y.last().len()) by {
            if y.len() > 1 {
                assert(joined(y, sep) == joined(y.drop_last(), sep) + sep + y.last());
            }
        }
        assert(y[y.len() - 1].len() > 0);
    } else if a.len() == 1 && b.len() == 1 {
        assert(a =~= b);
    } else if a.len() == 1 || b.len() == 1 {
        let (x, y) = if a.len() == 1 { (a, b) } else { (b, a) };
        let pre = joined(y.drop_last(), sep);
        assert(joined(y, sep) == pre + sep + y.last());
        assert((pre + sep + y.last())[pre.len() as int] == c);
        assert(x[0][pre.len() as int] == c);
    } else {
        lemma_split_at_last(c, joined(a.drop_last(), sep), a.last(), joined(b.drop_last(), sep), b.last());
        lemma_joined_injective(a.drop_last(), b.drop_last(), c);
        assert(a =~= a.drop_last().push(a.last()));
        assert(b =~= b.drop_last().push(b.last()));
    }
}

proof fn lemma_pair_item_facts(p: (Seq<char>, Seq<char>))
    ensures
        pair_item(p).len() > 0,
        forall|j: int| 0 <= j < pair_item(p).len() ==> #[trigger] pair_item(p)[j] != '&',
{
    lemma_encoded_has_no_separator(p.0);
    lemma_encoded_has_no_separator(p.1);
    let n = encoded(p.0).len() as int;
    assert forall|j: int| 0 <= j < pair_item(p).len() implies #[trigger] pair_item(p)[j] != '&' by {
        if j > n {
            assert(pair_item(p)[j] == encoded(p.1)[j - n - 1]);
        }
    }
}

proof fn lemma_pair_item_injective(p: (Seq<char>, Seq<char>), q: (Seq<char>, Seq<char>))
    requires
        pair_item(p) == pair_item(q),
    ensures
        p == q,
{
    lemma_encoded_has_no_separator(p.0);
    lemma_encoded_has_no_separator(q.0);
    lemma_split_at('=', encoded(p.0), encoded(p.1), encoded(q.0), encoded(q.1));
    lemma_encoded_injective(p.0, q.0);
    lemma_encoded_injective(p.1, q.1);
}

proof fn lemma_item_count(a: Seq<(Seq<char>, Seq<char>)>, x: (Seq<char>, Seq<char>))
    ensures
        pair_items(a).to_multiset().count(pair_item(x)) == a.to_multiset().count(x),
    decreases a.len(),
{
    broadcast use vstd::multiset::group_multiset_axioms;
    if a.len() == 0 {
        assert(pair_items(a) =~= Seq::<Seq<char>>::empty());
        assert(a =~= Seq::<(Seq<char>, Seq<char>)>::empty());
    } else {
        let l = a.last();
        lemma_item_count(a.drop_last(), x);
        assert(a =~= a.drop_last().push(l));
        assert(pair_items(a) =~= pair_items(a.drop_last()).push(pair_item(l)));
        if pair_item(l) == pair_item(x) {
            lemma_pair_item_injective(l, x);
        }
    }
}

/// The canonical query determines the pairs it was built from, with their
/// multiplicities: different parameter sets give different query strings.
pub proof fn lemma_query_determines_pairs(
    a: Seq<(Seq<char>, Seq<char>)>,
    b: Seq<(Seq<char>, Seq<char>)>,
)
    requires
        canonical_query(a) == canonical_query(b),
    ensures
        a.to_multiset() == b.to_multiset(),
{
    lemma_lex_total();
    pair_items(a).lemma_sort_by_ensures(lex_order());
    pair_items(b).lemma_sort_by_ensures(lex_order());
    let sa = sorted_strings(pair_items(a));
    let sb = sorted_strings(pair_items(b));
    assert forall|i: int| 0 <= i < sa.len() implies (#[trigger] sa[i]).len() > 0 && (forall|j: int|
        0 <= j < sa[i].len() ==> sa[i][j] != '&') by {
        assert(sa.contains(sa[i]));
        assert(pair_items(a).contains(sa[i]));
        let k = choose|k: int| 0 <= k < pair_items(a).len() && pair_items(a)[k] == sa[i];
        lemma_pair_item_facts(a[k]);
    }
    assert forall|i: int| 0 <= i < sb.len() implies (#[trigger] sb[i]).len() > 0 && (forall|j: int|
        0 <= j < sb[i].len() ==> sb[i][j] != '&') by {
        assert(sb.contains(sb[i]));
        assert(pair_items(b).contains(sb[i]));
        let k = choose|k: int| 0 <= k < pair_items(b).len() && pair_items(b)[k] == sb[i];
        lemma_pair_item_facts(b[k]);
    }
    lemma_joined_injective(sa, sb, '&');
    assert forall|x: (Seq<char>, Seq<char>)| a.to_multiset().count(x) == b.to_multiset().count(x) by {
        lemma_item_count(a, x);
        lemma_item_count(b, x);
    }
    assert(a.to_multiset() =~= b.to_multiset());
}

} // verus!
