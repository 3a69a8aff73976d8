//! Lexicographic order on strings, compared character by character by code
//! point (the same order as comparing their UTF-8 bytes), and sorting by it.

use vstd::prelude::*;
use vstd::relations::{sorted_by, total_ordering};

verus! {

broadcast use vstd::seq_lib::group_to_multiset_ensures;

/// `a` comes no later than `b`.
pub open spec fn lex_le(a: Seq<char>, b: Seq<char>) -> bool
    decreases a.len(),
{
    if a.len() == 0 {
        true
    } else if b.len() == 0 {
        false
    } else if a[0] != b[0] {
        (a[0] as int) < (b[0] as int)
    } else {
        lex_le(a.drop_first(), b.drop_first())
    }
}

/// The order as a relation, for sorting.
pub open spec fn lex_order() -> spec_fn(Seq<char>, Seq<char>) -> bool {
    |a: Seq<char>, b: Seq<char>| lex_le(a, b)
}

/// The views of a sequence of strings.
pub open spec fn views(v: Seq<String>) -> Seq<Seq<char>> {
    v.map_values(|s: String| s@)
}

/// A sequence of strings in ascending order.
pub open spec fn sorted_strings(s: Seq<Seq<char>>) -> Seq<Seq<char>> {
    s.sort_by(lex_order())
}

proof fn lemma_lex_reflexive(a: Seq<char>)
    ensures
        lex_le(a, a),
    decreases a.len(),
{
    if a.len() > 0 {
        lemma_lex_reflexive(a.drop_first());
    }
}

proof fn lemma_lex_antisymmetric(a: Seq<char>, b: Seq<char>)
    requires
        lex_le(a, b),
        lex_le(b, a),
    ensures
        a == b,
    decreases a.len(),
{
    if a.len() > 0 && b.len() > 0 && a[0] == b[0] {
        lemma_lex_antisymmetric(a.drop_first(), b.drop_first());
        assert(a =~= seq![a[0]] + a.drop_first());
        assert(b =~= seq![b[0]] + b.drop_first());
    } else if a.len() == 0 && b.len() == 0 {
        assert(a =~= b);
    }
}

proof fn lemma_lex_transitive(a: Seq<char>, b: Seq<char>, c: Seq<char>)
    requires
        lex_le(a, b),
        lex_le(b, c),
    ensures
        lex_le(a, c),
    decreases a.len(),
{
    if a.len() > 0 && b.len() > 0 && c.len() > 0 && a[0] == b[0] && b[0] == c[0] {
        lemma_lex_transitive(a.drop_first(), b.drop_first(), c.drop_first());
    }
}

proof fn lemma_lex_connected(a: Seq<char>, b: Seq<char>)
    ensures
        lex_le(a, b) || lex_le(b, a),
    decreases a.len(),
{
    if a.len() > 0 && b.len() > 0 && a[0] == b[0] {
        lemma_lex_connected(a.drop_first(), b.drop_first());
    } else if a.len() > 0 && b.len() > 0 {
        assert(a[0] as int != b[0] as int);
    }
}

/// The lexicographic order is a total order.
pub proof fn lemma_lex_total()
    ensures
        total_ordering(lex_order()),
{
    assert forall|a: Seq<char>| #[trigger] lex_order()(a, a) by {
        lemma_lex_reflexive(a);
    }
    assert forall|a: Seq<char>, b: Seq<char>|
        #[trigger] lex_order()(a, b) && #[trigger] lex_order()(b, a) implies a == b by {
        lemma_lex_antisymmetric(a, b);
    }
    assert forall|a: Seq<char>, b: Seq<char>, c: Seq<char>|
        #[trigger] lex_order()(a, b) && #[trigger] lex_order()(b, c) implies lex_order()(a, c) by {
        lemma_lex_transitive(a, b, c);
    }
    assert forall|a: Seq<char>, b: Seq<char>|
        #[trigger] lex_order()(a, b) || #[trigger] lex_order()(b, a) by {
        lemma_lex_connected(a, b);
    }
}

/// A sorted sequence with the same elements as `s` is `s` sorted.
pub proof fn lemma_sorted_is_sort(s: Seq<Seq<char>>, t: Seq<Seq<char>>)
    requires
        sorted_by(t, lex_order()),
        t.to_multiset() == s.to_multiset(),
    ensures
        t == sorted_strings(s),
{
    lemma_lex_total();
    s.lemma_sort_by_ensures(lex_order());
    vstd::seq_lib::lemma_sorted_unique(t, sorted_strings(s), lex_order());
}

/// Whether `a` comes no later than `b`.
pub fn lex_le_exec(a: &str, b: &str) -> (r: bool)
    ensures
        r == lex_le(a@, b@),
{
    let la = a.unicode_len();
    let lb = b.unicode_len();
    let mut i: usize = 0;
    assert(a@.skip(0) =~= a@);
    assert(b@.skip(0) =~= b@);
    while i < la && i < lb
        invariant
            la == a@.len(),
            lb == b@.len(),
            0 <= i <= la,
            i <= lb,
            lex_le(a@, b@) == lex_le(a@.skip(i as int), b@.skip(i as int)),
        decreases la - i,
    {
        let ca = a.get_char(i);
        let cb = b.get_char(i);
        if ca != cb {
            return (ca as u32) < (cb as u32);
        }
        assert(a@.skip(i as int).drop_first() =~= a@.skip(i as int + 1));
        assert(b@.skip(i as int).drop_first() =~= b@.skip(i as int + 1));
        i = i + 1;
    }
    i == la
}

/// Sorts strings into ascending lexicographic order.
pub fn sort_strings(v: &Vec<String>) -> (r: Vec<String>)
    ensures
        views(r@) == sorted_strings(views(v@)),
{
    proof {
        lemma_lex_total();
    }
    let ghost leq = lex_order();
    let mut out: Vec<String> = Vec::new();
    let mut i: usize = 0;
    while i < v.len()
        invariant
            0 <= i <= v@.len(),
            leq == lex_order(),
            total_ordering(leq),
            sorted_by(views(out@), leq),
            views(out@).to_multiset() == views(v@).take(i as int).to_multiset(),
        decreases v@.len() - i,
    {
        let s = v[i].clone();
        let mut p: usize = 0;
        while p < out.len() && lex_le_exec(out[p].as_str(), s.as_str())
            invariant
                0 <= p <= out@.len(),
                leq == lex_order(),
                forall|j: int| 0 <= j < p ==> leq(#[trigger] views(out@)[j], s@),
            decreases out@.len() - p,
        {
            p = p + 1;
        }
        proof {
            let w = views(out@);
            if p < out@.len() {
                assert(w[p as int] == out@[p as int]@);
                lemma_lex_connected(w[p as int], s@);
                assert forall|j: int| p <= j < w.len() implies leq(s@, #[trigger] w[j]) by {
                    if j > p {
                        assert(leq(w[p as int], w[j]));
                        lemma_lex_transitive(s@, w[p as int], w[j]);
                    }
                }
            }
            assert(views(out@.insert(p as int, s)) =~= w.insert(p as int, s@));
            assert(views(v@).take(i as int + 1) =~= views(v@).take(i as int).push(s@));
        }
        out.insert(p, s);
        proof {
            let w2 = views(out@);
            assert forall|a: int, b: int| 0 <= a < b < w2.len() implies leq(#[trigger] w2[a], #[trigger] w2[b]) by {
                if b < p || a > p {
                } else if a == p {
                } else if b == p {
                } else {
                    assert(leq(w2[a], s@));
                    assert(leq(s@, w2[b]));
                }
            }
        }
        i = i + 1;
    }
    proof {
        assert(views(v@).take(i as int) =~= views(v@));
        lemma_sorted_is_sort(views(v@), views(out@));
    }
    out
}

} // verus!
