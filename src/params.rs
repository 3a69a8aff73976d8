//! Credentials and parameter sets. A parameter set is a list of name/value
//! pairs with distinct names; setting a name that is already there replaces
//! its value in place (the last write wins).

use vstd::prelude::*;
use crate::query::pair_views;

verus! {

/// A key/secret pair: the consumer's own credential, or a user's access credential.
#[derive(Clone, Debug)]
pub struct Token {
    pub key: String,
    pub secret: String,
}

impl Token {
    /// A credential with the given key and secret.
    pub fn new(key: &str, secret: &str) -> (r: Token)
        ensures
            r.key@ == key@,
            r.secret@ == secret@,
    {
        Token { key: key.to_string(), secret: secret.to_string() }
    }
}

/// No name occurs twice.
pub open spec fn names_distinct(s: Seq<(Seq<char>, Seq<char>)>) -> bool {
    forall|i: int, j: int| 0 <= i < j < s.len() ==> s[i].0 != s[j].0
}

/// The set `s` with `name` set to `value`: the pair holding `name` gets the
/// new value, or a new pair is added at the end.
pub open spec fn param_insert(
    s: Seq<(Seq<char>, Seq<char>)>,
    name: Seq<char>,
    value: Seq<char>,
) -> Seq<(Seq<char>, Seq<char>)> {
    if exists|i: int| 0 <= i < s.len() && s[i].0 == name {
        s.update(choose|i: int| 0 <= i < s.len() && s[i].0 == name, (name, value))
    } else {
        s.push((name, value))
    }
}

/// The set `s` with each pair of `ps` set in turn.
pub open spec fn param_insert_all(
    s: Seq<(Seq<char>, Seq<char>)>,
    ps: Seq<(Seq<char>, Seq<char>)>,
) -> Seq<(Seq<char>, Seq<char>)>
    decreases ps.len(),
{
    if ps.len() == 0 {
        s
    } else {
        let p = ps.last();
        param_insert(param_insert_all(s, ps.drop_last()), p.0, p.1)
    }
}

/// Sets `name` to `value` in the parameter set.
pub fn set_param(params: &mut Vec<(String, String)>, name: String, value: String)
    requires
        names_distinct(pair_views(old(params)@)),
    ensures
        pair_views(final(params)@) == param_insert(pair_views(old(params)@), name@, value@),
        names_distinct(pair_views(final(params)@)),
{
    let ghost s = pair_views(params@);
    let mut i: usize = 0;
    while i < params.len()
        invariant
            0 <= i <= params@.len(),
            s == pair_views(params@),
            params@ == old(params)@,
            names_distinct(s),
            forall|j: int| 0 <= j < i ==> s[j].0 != name@,
        decreases params@.len() - i,
    {
        if params[i].0 == name {
            proof {
                assert(s[i as int].0 == name@);
                let c = choose|k: int| 0 <= k < s.len() && s[k].0 == name@;
                if c != i {
                    assert(s[c].0 == s[i as int].0);
                }
            }
            params.set(i, (name, value));
            proof {
                assert(pair_views(params@) =~= param_insert(s, name@, value@));
            }
            return;
        }
        i = i + 1;
    }
    params.push((name, value));
    proof {
        assert(pair_views(params@) =~= param_insert(s, name@, value@));
    }
}

} // verus!
