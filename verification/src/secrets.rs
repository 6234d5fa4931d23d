//! Configuration values, looked up by name.
//!
//! The process environment is read outside this library; the pairs are
//! handed in as plain values, later entries overriding earlier ones with
//! the same name, and looked up here.

use vstd::prelude::*;

verus! {

/// The value of the last pair carrying this key.
pub open spec fn lookup(pairs: Seq<(String, String)>, key: Seq<char>) -> Option<Seq<char>>
    decreases pairs.len(),
{
    if pairs.len() == 0 {
        None
    } else if pairs.last().0@ == key {
        Some(pairs.last().1@)
    } else {
        lookup(pairs.drop_last(), key)
    }
}

/// A set of named configuration values.
#[derive(Debug, Clone)]
pub struct Secrets {
    pairs: Vec<(String, String)>,
}

impl Secrets {
    /// The stored pairs, as a spec value.
    pub closed spec fn view_pairs(&self) -> Seq<(String, String)> {
        self.pairs@
    }

    /// Build from key-value pairs; later pairs override earlier ones.
    pub fn from_pairs(pairs: Vec<(String, String)>) -> (r: Secrets)
        ensures
            r.view_pairs() == pairs@,
    {
        Secrets { pairs }
    }

    /// Look a value up by key.
    pub fn get(&self, key: &str) -> (r: Option<String>)
        ensures
            match r {
                Some(v) => lookup(self.view_pairs(), key@) == Some(v@),
                None => lookup(self.view_pairs(), key@) is None,
            },
    {
        let n = self.pairs.len();
        let mut k: usize = n;
        proof {
            assert(self.pairs@.take(n as int) =~= self.pairs@);
        }
        while k > 0
            invariant
                n == self.pairs@.len(),
                k <= n,
                lookup(self.pairs@, key@) == lookup(self.pairs@.take(k as int), key@),
            decreases k,
        {
            proof {
                lemma_lookup_prefix(self.pairs@, key@, k as int);
            }
            let row = &self.pairs[k - 1];
            if crate::engine::str_eq(row.0.as_str(), key) {
                proof {
                    assert(self.pairs@.take(k as int).last() == self.pairs@[k as int - 1]);
                }
                return Some(row.1.clone());
            }
            k = k - 1;
        }
        proof {
            assert(self.pairs@.take(0) =~= Seq::<(String, String)>::empty());
        }
        None
    }
}

proof fn lemma_lookup_prefix(pairs: Seq<(String, String)>, key: Seq<char>, k: int)
    requires
        1 <= k <= pairs.len(),
    ensures
        pairs[k - 1].0@ == key ==> lookup(pairs.take(k), key) == Some(pairs[k - 1].1@),
        pairs[k - 1].0@ != key ==> lookup(pairs.take(k), key) == lookup(pairs.take(k - 1), key),
{
    let t = pairs.take(k);
    assert(t.last() == pairs[k - 1]);
    assert(t.drop_last() =~= pairs.take(k - 1));
}

} // verus!
