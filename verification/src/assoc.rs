//! Association lists keyed by strings: the later entry for a key wins.

use vstd::prelude::*;

use crate::text::{chars_eq, to_chars};

verus! {

/// The value of the last entry whose key is `k`.
pub open spec fn assoc_lookup<V>(s: Seq<(Seq<char>, V)>, k: Seq<char>) -> Option<V>
    decreases s.len(),
{
    if s.len() == 0 {
        None
    } else if s.last().0 == k {
        Some(s.last().1)
    } else {
        assoc_lookup(s.drop_last(), k)
    }
}

/// The map that an association list stands for.
pub open spec fn assoc_map<V>(s: Seq<(Seq<char>, V)>) -> Map<Seq<char>, V> {
    Map::new(|k: Seq<char>| assoc_lookup(s, k) is Some, |k: Seq<char>| assoc_lookup(s, k)->0)
}

/// The entries whose key is not `key`, in order.
pub open spec fn assoc_without<V>(s: Seq<(Seq<char>, V)>, key: Seq<char>) -> Seq<(Seq<char>, V)>
    decreases s.len(),
{
    if s.len() == 0 {
        s
    } else if s.last().0 == key {
        assoc_without(s.drop_last(), key)
    } else {
        assoc_without(s.drop_last(), key).push(s.last())
    }
}

/// Keys viewed as character sequences.
pub open spec fn keyed<V>(s: Seq<(String, V)>) -> Seq<(Seq<char>, V)> {
    s.map_values(|e: (String, V)| (e.0@, e.1))
}

pub proof fn lemma_lookup_last<V>(s: Seq<(Seq<char>, V)>, k: Seq<char>, i: int)
    requires
        0 <= i < s.len(),
        s[i].0 == k,
        forall|j: int| i < j < s.len() ==> s[j].0 != k,
    ensures
        assoc_lookup(s, k) == Some(s[i].1),
    decreases s.len(),
{
    if i < s.len() - 1 {
        lemma_lookup_last(s.drop_last(), k, i);
    }
}

pub proof fn lemma_lookup_none<V>(s: Seq<(Seq<char>, V)>, k: Seq<char>)
    requires
        forall|j: int| 0 <= j < s.len() ==> s[j].0 != k,
    ensures
        assoc_lookup(s, k) is None,
    decreases s.len(),
{
    if s.len() > 0 {
        lemma_lookup_none(s.drop_last(), k);
    }
}

pub proof fn lemma_lookup_push<V>(s: Seq<(Seq<char>, V)>, k: Seq<char>, v: V, q: Seq<char>)
    ensures
        assoc_lookup(s.push((k, v)), q) == (if q == k {
            Some(v)
        } else {
            assoc_lookup(s, q)
        }),
{
    assert(s.push((k, v)).drop_last() =~= s);
}

pub proof fn lemma_map_push<V>(s: Seq<(Seq<char>, V)>, k: Seq<char>, v: V)
    ensures
        assoc_map(s.push((k, v))) == assoc_map(s).insert(k, v),
{
    assert forall|q: Seq<char>| #[trigger] assoc_lookup(s.push((k, v)), q) == (if q == k {
        Some(v)
    } else {
        assoc_lookup(s, q)
    }) by {
        lemma_lookup_push(s, k, v, q);
    }
    assert(assoc_map(s.push((k, v))) =~= assoc_map(s).insert(k, v));
}

pub proof fn lemma_lookup_without<V>(s: Seq<(Seq<char>, V)>, key: Seq<char>, q: Seq<char>)
    ensures
        assoc_lookup(assoc_without(s, key), q) == (if q == key {
            None
        } else {
            assoc_lookup(s, q)
        }),
    decreases s.len(),
{
    if s.len() > 0 {
        lemma_lookup_without(s.drop_last(), key, q);
        if s.last().0 != key {
            lemma_lookup_push(assoc_without(s.drop_last(), key), s.last().0, s.last().1, q);
        }
    }
}

pub proof fn lemma_map_without<V>(s: Seq<(Seq<char>, V)>, key: Seq<char>)
    ensures
        assoc_map(assoc_without(s, key)) == assoc_map(s).remove(key),
{
    assert forall|q: Seq<char>| #[trigger] assoc_lookup(assoc_without(s, key), q) == (if q
        == key {
        None
    } else {
        assoc_lookup(s, q)
    }) by {
        lemma_lookup_without(s, key, q);
    }
    assert(assoc_map(assoc_without(s, key)) =~= assoc_map(s).remove(key));
}

/// Index of the last entry whose key is `key`.
pub fn find_last<V>(entries: &Vec<(String, V)>, key: &[char]) -> (r: Option<usize>)
    ensures
        r matches Some(i) ==> i < entries@.len() && entries@[i as int].0@ == key@
            && assoc_lookup(keyed(entries@), key@) == Some(entries@[i as int].1),
        r is None ==> assoc_lookup(keyed(entries@), key@) is None,
{
    let ghost ks = keyed(entries@);
    let mut i: usize = entries.len();
    while i > 0
        invariant
            i <= entries@.len(),
            ks == keyed(entries@),
            forall|j: int| i <= j < entries@.len() ==> ks[j].0 != key@,
        decreases i,
    {
        let k = to_chars(entries[i - 1].0.as_str());
        if chars_eq(k.as_slice(), key) {
            proof {
                lemma_lookup_last(ks, key@, i - 1);
            }
            return Some(i - 1);
        }
        i = i - 1;
    }
    proof {
        lemma_lookup_none(ks, key@);
    }
    None
}

} // verus!
