//! Values by name, kept in the order they were added; no name occurs twice.

use vstd::prelude::*;

use crate::assoc::{assoc_lookup, assoc_map, keyed, lemma_lookup_last, lemma_lookup_none};
use crate::text::{chars_eq, to_chars};

verus! {

/// No name occurs twice among the entries.
pub open spec fn names_distinct<V>(s: Seq<(Seq<char>, V)>) -> bool {
    forall|i: int, j: int| 0 <= i < j < s.len() ==> #[trigger] s[i].0 != #[trigger] s[j].0
}

/// The names of the entries, in order.
pub open spec fn names_of<V>(s: Seq<(Seq<char>, V)>) -> Seq<Seq<char>> {
    s.map_values(|e: (Seq<char>, V)| e.0)
}

/// The names that inserting entries under `keys` one after the other leaves,
/// in order: each name where it was first inserted.
pub open spec fn inserted_names(keys: Seq<Seq<char>>) -> Seq<Seq<char>>
    decreases keys.len(),
{
    if keys.len() == 0 {
        seq![]
    } else {
        let rest = inserted_names(keys.drop_last());
        if rest.contains(keys.last()) {
            rest
        } else {
            rest.push(keys.last())
        }
    }
}

/// Values by name, in insertion order.
pub struct NamedMap<V> {
    entries: Vec<(String, V)>,
}

impl<V> NamedMap<V> {
    #[verifier::type_invariant]
    spec fn distinct(&self) -> bool {
        names_distinct(keyed(self.entries@))
    }

    /// The entries, names viewed as character sequences.
    pub closed spec fn pairs(&self) -> Seq<(Seq<char>, V)> {
        keyed(self.entries@)
    }

    /// The entries as a map from name to value.
    pub open spec fn as_map(&self) -> Map<Seq<char>, V> {
        assoc_map(self.pairs())
    }

    /// The names, in order.
    pub open spec fn names(&self) -> Seq<Seq<char>> {
        names_of(self.pairs())
    }

    /// Nothing yet.
    pub fn new() -> (r: Self)
        ensures
            r.pairs() == Seq::<(Seq<char>, V)>::empty(),
    {
        let r = NamedMap { entries: Vec::new() };
        assert(r.pairs() =~= Seq::<(Seq<char>, V)>::empty());
        r
    }

    /// The entries of `entries` inserted one after the other: a later entry
    /// for a name replaces an earlier one.
    pub fn from_pairs(entries: Vec<(String, V)>) -> (r: Self)
        ensures
            r.as_map() == assoc_map(keyed(entries@)),
            r.names() == inserted_names(names_of(keyed(entries@))),
    {
        let ghost all = keyed(entries@);
        assert(all.len() == entries.len());
        let mut rest = entries;
        let mut r: Self = NamedMap::new();
        let mut i: usize = 0;
        proof {
            assert(r.as_map() =~= assoc_map(all.take(0)));
            assert(names_of(all.take(0)) =~= Seq::<Seq<char>>::empty());
            assert(r.names() =~= Seq::<Seq<char>>::empty());
            assert(keyed(rest@) =~= all.skip(0));
        }
        while rest.len() > 0
            invariant
                i <= all.len(),
                all.len() <= usize::MAX,
                keyed(rest@) == all.skip(i as int),
                r.as_map() == assoc_map(all.take(i as int)),
                r.names() == inserted_names(names_of(all.take(i as int))),
            decreases rest.len(),
        {
            proof {
                assert(keyed(rest@).len() == rest@.len());
            }
            let ghost before_rest = rest@;
            let (name, value) = rest.remove(0);
            let ghost k = name@;
            proof {
                assert(keyed(before_rest)[0] == all.skip(i as int)[0]);
                assert(all[i as int] == (k, value));
                assert(keyed(rest@) =~= keyed(before_rest).skip(1));
            }
            r.insert(name, value);
            proof {
                assert(all.take(i + 1) =~= all.take(i as int).push((k, value)));
                crate::assoc::lemma_map_push(all.take(i as int), k, value);
                assert(names_of(all.take(i + 1)) =~= names_of(all.take(i as int)).push(k));
                assert(names_of(all.take(i + 1)).drop_last() =~= names_of(all.take(i as int)));
                assert(keyed(rest@) =~= all.skip(i + 1));
            }
            i = i + 1;
        }
        proof {
            assert(all.take(i as int) =~= all);
        }
        r
    }

    /// No name occurs twice (a fact for proofs; does nothing at run time).
    pub fn distinct_names(&self)
        ensures
            names_distinct(self.pairs()),
    {
        proof {
            use_type_invariant(self);
        }
    }

    /// The number of entries.
    pub fn len(&self) -> (r: usize)
        ensures
            r == self.pairs().len(),
    {
        self.entries.len()
    }

    /// Whether there are no entries.
    pub fn is_empty(&self) -> (r: bool)
        ensures
            r == (self.pairs().len() == 0),
    {
        self.entries.len() == 0
    }

    /// Where `name` stands.
    pub fn position(&self, name: &str) -> (r: Option<usize>)
        ensures
            r matches Some(i) ==> i < self.pairs().len() && self.pairs()[i as int].0 == name@,
            r is None ==> forall|j: int| 0 <= j < self.pairs().len() ==> #[trigger] self.pairs()[j].0 != name@,
    {
        let k = to_chars(name);
        let mut i: usize = 0;
        while i < self.entries.len()
            invariant
                i <= self.entries@.len(),
                k@ == name@,
                forall|j: int| 0 <= j < i ==> #[trigger] keyed(self.entries@)[j].0 != name@,
            decreases self.entries@.len() - i,
        {
            let n = to_chars(self.entries[i].0.as_str());
            if chars_eq(n.as_slice(), k.as_slice()) {
                return Some(i);
            }
            i = i + 1;
        }
        None
    }

    /// Whether some entry is named `name`.
    pub fn contains_key(&self, name: &str) -> (r: bool)
        ensures
            r == self.as_map().contains_key(name@),
            r == self.names().contains(name@),
    {
        let p = self.position(name);
        proof {
            use_type_invariant(self);
            match p {
                Some(i) => {
                    self.lemma_lookup_at(i as int);
                    assert(self.names()[i as int] == name@);
                },
                None => {
                    lemma_lookup_none(self.pairs(), name@);
                    assert forall|j: int| 0 <= j < self.names().len() implies self.names()[j]
                        != name@ by {
                        assert(self.pairs()[j].0 != name@);
                    }
                },
            }
        }
        p.is_some()
    }

    /// The value named `name`.
    pub fn get(&self, name: &str) -> (r: Option<&V>)
        ensures
            r is Some == self.as_map().contains_key(name@),
            r matches Some(v) ==> *v == self.as_map()[name@],
    {
        match self.position(name) {
            Some(i) => {
                proof {
                    use_type_invariant(self);
                    self.lemma_lookup_at(i as int);
                }
                Some(&self.entries[i].1)
            },
            None => {
                proof {
                    lemma_lookup_none(self.pairs(), name@);
                }
                None
            },
        }
    }

    /// The name of entry `i`.
    pub fn name_at(&self, i: usize) -> (r: &String)
        requires
            i < self.pairs().len(),
        ensures
            r@ == self.pairs()[i as int].0,
    {
        &self.entries[i].0
    }

    /// The value of entry `i`.
    pub fn value_at(&self, i: usize) -> (r: &V)
        requires
            i < self.pairs().len(),
        ensures
            *r == self.pairs()[i as int].1,
    {
        &self.entries[i].1
    }

    /// Entry `i`'s value is what the map gives for its name.
    pub proof fn lemma_lookup_at(&self, i: int)
        requires
            0 <= i < self.pairs().len(),
            names_distinct(self.pairs()),
        ensures
            self.as_map().contains_key(self.pairs()[i].0),
            self.as_map()[self.pairs()[i].0] == self.pairs()[i].1,
    {
        lemma_lookup_last(self.pairs(), self.pairs()[i].0, i);
    }

    /// Adds `value` under `name`; an entry of that name is replaced where it
    /// stands, a new name goes last.
    pub fn insert(&mut self, name: String, value: V)
        ensures
            final(self).as_map() == old(self).as_map().insert(name@, value),
            old(self).names().contains(name@) ==> final(self).names() == old(self).names(),
            !old(self).names().contains(name@) ==> final(self).names() == old(self).names().push(
                name@,
            ),
    {
        proof {
            use_type_invariant(&*self);
        }
        let ghost old_pairs = self.pairs();
        let pos = self.position(name.as_str());
        let mut es: Vec<(String, V)> = Vec::new();
        std::mem::swap(&mut es, &mut self.entries);
        let ghost new_pairs: Seq<(Seq<char>, V)>;
        match pos {
            Some(i) => {
                let ghost k = name@;
                es.remove(i);
                es.insert(i, (name, value));
                proof {
                    new_pairs = old_pairs.update(i as int, (k, value));
                    assert(keyed(es@) =~= new_pairs);
                    assert(names_of(new_pairs) =~= names_of(old_pairs));
                    assert(assoc_map(new_pairs) =~= assoc_map(old_pairs).insert(k, value)) by {
                        assert forall|q: Seq<char>| #[trigger] assoc_lookup(new_pairs, q) == (if q
                            == k {
                            Some(value)
                        } else {
                            assoc_lookup(old_pairs, q)
                        }) by {
                            lemma_lookup_update(old_pairs, i as int, value, q);
                        }
                    }
                    assert(old_pairs[i as int].0 == k);
                    assert(names_of(old_pairs)[i as int] == k);
                }
            },
            None => {
                let ghost k = name@;
                es.push((name, value));
                proof {
                    new_pairs = old_pairs.push((k, value));
                    assert(keyed(es@) =~= new_pairs);
                    assert(names_of(new_pairs) =~= names_of(old_pairs).push(k));
                    crate::assoc::lemma_map_push(old_pairs, k, value);
                    assert(!names_of(old_pairs).contains(k)) by {
                        if names_of(old_pairs).contains(k) {
                            let j = choose|j: int| 0 <= j < names_of(old_pairs).len() && names_of(old_pairs)[j] == k;
                            assert(old_pairs[j].0 == k);
                        }
                    }
                }
            },
        }
        proof {
            assert(names_distinct(keyed(es@)));
        }
        self.entries = es;
    }

    /// Removes entry `i` and hands it out.
    pub fn take_at(&mut self, i: usize) -> (r: (String, V))
        requires
            i < old(self).pairs().len(),
        ensures
            final(self).pairs() == old(self).pairs().remove(i as int),
            (r.0@, r.1) == old(self).pairs()[i as int],
    {
        proof {
            use_type_invariant(&*self);
        }
        let ghost old_pairs = self.pairs();
        let mut es: Vec<(String, V)> = Vec::new();
        std::mem::swap(&mut es, &mut self.entries);
        let r = es.remove(i);
        proof {
            assert(keyed(es@) =~= old_pairs.remove(i as int));
            assert(names_distinct(keyed(es@))) by {
                assert forall|a: int, b: int| 0 <= a < b < keyed(es@).len() implies #[trigger] keyed(
                    es@,
                )[a].0 != #[trigger] keyed(es@)[b].0 by {
                    let a2 = if a < i { a } else { a + 1 };
                    let b2 = if b < i { b } else { b + 1 };
                    assert(keyed(es@)[a] == old_pairs[a2]);
                    assert(keyed(es@)[b] == old_pairs[b2]);
                }
            }
        }
        self.entries = es;
        r
    }

    /// Puts `value` back under `name` at position `i`.
    pub fn put_at(&mut self, i: usize, name: String, value: V)
        requires
            i <= old(self).pairs().len(),
            !old(self).names().contains(name@),
        ensures
            final(self).pairs() == old(self).pairs().insert(i as int, (name@, value)),
    {
        proof {
            use_type_invariant(&*self);
        }
        let ghost old_pairs = self.pairs();
        let ghost k = name@;
        let mut es: Vec<(String, V)> = Vec::new();
        std::mem::swap(&mut es, &mut self.entries);
        es.insert(i, (name, value));
        proof {
            let np = old_pairs.insert(i as int, (k, value));
            assert(keyed(es@) =~= np);
            assert(names_distinct(keyed(es@))) by {
                assert forall|a: int, b: int| 0 <= a < b < np.len() implies #[trigger] np[a].0
                    != #[trigger] np[b].0 by {
                    if a == i as int {
                        assert(np[b] == old_pairs[b - 1]);
                        assert(names_of(old_pairs)[b - 1] == old_pairs[b - 1].0);
                    } else if b == i as int {
                        assert(np[a] == old_pairs[a]);
                        assert(names_of(old_pairs)[a] == old_pairs[a].0);
                    } else {
                        let a2 = if a < i { a } else { a - 1 };
                        let b2 = if b < i { b } else { b - 1 };
                        assert(np[a] == old_pairs[a2]);
                        assert(np[b] == old_pairs[b2]);
                    }
                }
            }
        }
        self.entries = es;
    }
}

proof fn lemma_lookup_update<V>(s: Seq<(Seq<char>, V)>, i: int, v: V, q: Seq<char>)
    requires
        0 <= i < s.len(),
        names_distinct(s),
    ensures
        assoc_lookup(s.update(i, (s[i].0, v)), q) == (if q == s[i].0 {
            Some(v)
        } else {
            assoc_lookup(s, q)
        }),
    decreases s.len(),
{
    let t = s.update(i, (s[i].0, v));
    if i == s.len() - 1 {
        assert(t.drop_last() =~= s.drop_last());
        if q != s[i].0 {
        } else {
            assert(t.last().0 == q);
        }
    } else {
        assert(t.drop_last() =~= s.drop_last().update(i, (s[i].0, v)));
        lemma_lookup_update(s.drop_last(), i, v, q);
        if q == s[i].0 {
            assert(s.last().0 != q);
        }
    }
}

} // verus!
