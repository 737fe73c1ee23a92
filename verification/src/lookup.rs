//! Ordered association lists.
//!
//! Maps in the core are kept as ordered lists of key/value pairs, so that
//! iteration order is always the insertion order; it is user-visible in every
//! derived structure. A lookup finds the first entry whose key matches.

use vstd::prelude::*;

verus! {

/// The value under the first entry of `s` whose key reads as `key`.
pub open spec fn sfind<V>(s: Seq<(String, V)>, key: Seq<char>) -> Option<V>
    decreases s.len(),
{
    if s.len() == 0 {
        None
    } else if s[0].0@ == key {
        Some(s[0].1)
    } else {
        sfind(s.drop_first(), key)
    }
}

/// When the first `i` keys all differ from `key` and entry `i` matches, the
/// lookup returns entry `i`.
pub proof fn lemma_sfind_hit<V>(s: Seq<(String, V)>, key: Seq<char>, i: int)
    requires
        0 <= i < s.len(),
        s[i].0@ == key,
        forall|j: int| 0 <= j < i ==> s[j].0@ != key,
    ensures
        sfind(s, key) == Some(s[i].1),
    decreases i,
{
    if i > 0 {
        lemma_sfind_hit(s.drop_first(), key, i - 1);
    }
}

/// When no key matches, the lookup returns nothing.
pub proof fn lemma_sfind_none<V>(s: Seq<(String, V)>, key: Seq<char>)
    requires
        forall|j: int| 0 <= j < s.len() ==> s[j].0@ != key,
    ensures
        sfind(s, key) is None,
    decreases s.len(),
{
    if s.len() > 0 {
        lemma_sfind_none(s.drop_first(), key);
    }
}

/// The value under the first entry of a ghost association list whose key is
/// `key`.
pub open spec fn gfind<V>(s: Seq<(Seq<char>, V)>, key: Seq<char>) -> Option<V>
    decreases s.len(),
{
    if s.len() == 0 {
        None
    } else if s[0].0 == key {
        Some(s[0].1)
    } else {
        gfind(s.drop_first(), key)
    }
}

/// The index of the first entry of `entries` whose key equals `key`, if any.
pub fn assoc_index<V>(entries: &Vec<(String, V)>, key: &String) -> (r: Option<usize>)
    ensures
        match r {
            Some(i) => {
                &&& i < entries@.len()
                &&& entries@[i as int].0@ == key@
                &&& forall|j: int| 0 <= j < i ==> entries@[j].0@ != key@
                &&& sfind(entries@, key@) == Some(entries@[i as int].1)
            },
            None => sfind(entries@, key@) is None,
        },
{
    let mut i: usize = 0;
    while i < entries.len()
        invariant
            i <= entries@.len(),
            forall|j: int| 0 <= j < i ==> entries@[j].0@ != key@,
        decreases entries@.len() - i,
    {
        if entries[i].0 == *key {
            proof {
                lemma_sfind_hit(entries@, key@, i as int);
            }
            return Some(i);
        }
        i = i + 1;
    }
    proof {
        lemma_sfind_none(entries@, key@);
    }
    None
}

} // verus!
