//! Commit message trailers, kept sorted by key.

use vstd::prelude::*;

use crate::assoc::{assoc_lookup, assoc_map, lemma_lookup_last, lemma_lookup_none};
use crate::text::to_chars;

verus! {

/// `a` sorts before `b`: lexicographic by code point, a proper prefix first
/// (the order of `String`).
pub open spec fn seq_lt(a: Seq<char>, b: Seq<char>) -> bool
    decreases a.len(),
{
    if a.len() == 0 {
        b.len() > 0
    } else if b.len() == 0 {
        false
    } else if (a[0] as u32) < (b[0] as u32) {
        true
    } else if a[0] == b[0] {
        seq_lt(a.drop_first(), b.drop_first())
    } else {
        false
    }
}

pub proof fn lemma_lt_irreflexive(a: Seq<char>)
    ensures
        !seq_lt(a, a),
    decreases a.len(),
{
    if a.len() > 0 {
        lemma_lt_irreflexive(a.drop_first());
    }
}

pub proof fn lemma_lt_total(a: Seq<char>, b: Seq<char>)
    ensures
        a == b || seq_lt(a, b) || seq_lt(b, a),
    decreases a.len(),
{
    if a.len() > 0 && b.len() > 0 {
        if a[0] == b[0] {
            lemma_lt_total(a.drop_first(), b.drop_first());
            if a.drop_first() == b.drop_first() {
                assert(a =~= seq![a[0]] + a.drop_first());
                assert(b =~= seq![b[0]] + b.drop_first());
            }
        } else {
            if (a[0] as u32) == (b[0] as u32) {
                vstd::utf8::char_u32_cast(a[0], a[0] as u32);
                vstd::utf8::char_u32_cast(b[0], b[0] as u32);
            }
        }
    } else if a.len() == 0 && b.len() == 0 {
        assert(a =~= b);
    }
}

pub proof fn lemma_lt_asymmetric(a: Seq<char>, b: Seq<char>)
    ensures
        !(seq_lt(a, b) && seq_lt(b, a)),
    decreases a.len(),
{
    if a.len() > 0 && b.len() > 0 && a[0] == b[0] {
        lemma_lt_asymmetric(a.drop_first(), b.drop_first());
    }
}

pub proof fn lemma_lt_transitive(a: Seq<char>, b: Seq<char>, c: Seq<char>)
    requires
        seq_lt(a, b),
        seq_lt(b, c),
    ensures
        seq_lt(a, c),
    decreases a.len(),
{
    if a.len() > 0 && b.len() > 0 && c.len() > 0 {
        if a[0] == b[0] && b[0] == c[0] {
            lemma_lt_transitive(a.drop_first(), b.drop_first(), c.drop_first());
        }
    }
}

/// Whether `a` sorts before `b`.
pub fn chars_lt(a: &[char], b: &[char]) -> (r: bool)
    ensures
        r == seq_lt(a@, b@),
{
    let mut i: usize = 0;
    assert(a@.skip(0) =~= a@);
    assert(b@.skip(0) =~= b@);
    while i < a.len() && i < b.len() && a[i] == b[i]
        invariant
            i <= a@.len(),
            i <= b@.len(),
            seq_lt(a@, b@) == seq_lt(a@.skip(i as int), b@.skip(i as int)),
        decreases a@.len() - i,
    {
        assert(a@.skip(i as int).drop_first() =~= a@.skip(i + 1));
        assert(b@.skip(i as int).drop_first() =~= b@.skip(i + 1));
        i = i + 1;
    }
    if i == a.len() {
        i < b.len()
    } else if i == b.len() {
        false
    } else {
        assert(a@.skip(i as int)[0] == a@[i as int]);
        assert(b@.skip(i as int)[0] == b@[i as int]);
        (a[i] as u32) < (b[i] as u32)
    }
}

/// The trailers of a commit message: a map from key to value, walked in
/// ascending key order.
pub struct TrailerMap {
    entries: Vec<(String, String)>,
}

/// Keys in strictly ascending order.
pub open spec fn sorted_keys(s: Seq<(Seq<char>, Seq<char>)>) -> bool {
    forall|i: int, j: int| 0 <= i < j < s.len() ==> seq_lt(#[trigger] s[i].0, #[trigger] s[j].0)
}

proof fn lemma_lookup_insert(
    s: Seq<(Seq<char>, Seq<char>)>,
    p: int,
    e: (Seq<char>, Seq<char>),
    q: Seq<char>,
)
    requires
        0 <= p <= s.len(),
        e.0 != q,
    ensures
        assoc_lookup(s.insert(p, e), q) == assoc_lookup(s, q),
    decreases s.len(),
{
    if p < s.len() {
        assert(s.insert(p, e).drop_last() =~= s.drop_last().insert(p, e));
        lemma_lookup_insert(s.drop_last(), p, e, q);
    } else {
        assert(s.insert(p, e).drop_last() =~= s);
    }
}

proof fn lemma_lookup_update(
    s: Seq<(Seq<char>, Seq<char>)>,
    p: int,
    e: (Seq<char>, Seq<char>),
    q: Seq<char>,
)
    requires
        0 <= p < s.len(),
        s[p].0 == e.0,
        e.0 != q,
    ensures
        assoc_lookup(s.update(p, e), q) == assoc_lookup(s, q),
    decreases s.len(),
{
    if p < s.len() - 1 {
        assert(s.update(p, e).drop_last() =~= s.drop_last().update(p, e));
        lemma_lookup_update(s.drop_last(), p, e, q);
    } else {
        assert(s.update(p, e).drop_last() =~= s.drop_last());
    }
}

impl TrailerMap {
    /// The entries in key order.
    pub closed spec fn ordered(&self) -> Seq<(Seq<char>, Seq<char>)> {
        self.entries@.map_values(|e: (String, String)| (e.0@, e.1@))
    }

    #[verifier::type_invariant]
    spec fn well_formed(&self) -> bool {
        sorted_keys(self.ordered())
    }

    /// The keys are in ascending order: the entries list the map.
    pub fn sorted_invariant(&self)
        ensures
            sorted_keys(self.ordered()),
            is_listing(self.ordered(), self@),
    {
        proof {
            use_type_invariant(self);
        }
    }

    /// No trailers.
    pub fn new() -> (r: Self)
        ensures
            r@ == Map::<Seq<char>, Seq<char>>::empty(),
            r.ordered().len() == 0,
    {
        let r = TrailerMap { entries: Vec::new() };
        assert(r@ =~= Map::<Seq<char>, Seq<char>>::empty());
        r
    }

    /// Number of trailers.
    pub fn len(&self) -> (r: usize)
        ensures
            r == self.ordered().len(),
    {
        self.entries.len()
    }

    /// The `i`-th trailer in key order.
    pub fn entry(&self, i: usize) -> (r: (&String, &String))
        requires
            i < self.ordered().len(),
        ensures
            (r.0@, r.1@) == self.ordered()[i as int],
    {
        (&self.entries[i].0, &self.entries[i].1)
    }

    /// Moves the entries out, leaving none.
    fn take_entries(&mut self) -> (r: Vec<(String, String)>)
        ensures
            r@ == old(self).entries@,
            final(self).ordered().len() == 0,
    {
        let mut entries = Vec::new();
        std::mem::swap(&mut entries, &mut self.entries);
        entries
    }

    /// Index of the first entry whose key does not sort before `key`.
    fn position(&self, key: &[char]) -> (r: usize)
        ensures
            r <= self.ordered().len(),
            forall|i: int| 0 <= i < r ==> seq_lt(#[trigger] self.ordered()[i].0, key@),
            r < self.ordered().len() ==> !seq_lt(self.ordered()[r as int].0, key@),
    {
        let mut i: usize = 0;
        while i < self.entries.len()
            invariant
                i <= self.ordered().len(),
                forall|j: int| 0 <= j < i ==> seq_lt(#[trigger] self.ordered()[j].0, key@),
            decreases self.ordered().len() - i,
        {
            let k = to_chars(self.entries[i].0.as_str());
            assert(self.ordered()[i as int].0 == k@);
            if !chars_lt(k.as_slice(), key) {
                return i;
            }
            i = i + 1;
        }
        i
    }

    /// The value of `key`.
    pub fn get(&self, key: &str) -> (r: Option<&String>)
        ensures
            r is Some <==> self@.contains_key(key@),
            r matches Some(v) ==> v@ == self@[key@],
    {
        self.sorted_invariant();
        let k = to_chars(key);
        let p = self.position(k.as_slice());
        let ghost s = self.ordered();
        if p < self.entries.len() {
            let ek = to_chars(self.entries[p].0.as_str());
            if crate::text::chars_eq(ek.as_slice(), k.as_slice()) {
                proof {
                    assert forall|j: int| p < j < s.len() implies s[j].0 != key@ by {
                        lemma_lt_irreflexive(key@);
                    }
                    lemma_lookup_last(s, key@, p as int);
                }
                return Some(&self.entries[p].1);
            }
            proof {
                lemma_lt_total(s[p as int].0, key@);
                assert forall|j: int| 0 <= j < s.len() implies s[j].0 != key@ by {
                    if j < p {
                        lemma_lt_irreflexive(key@);
                    } else if j > p {
                        lemma_lt_transitive(key@, s[p as int].0, s[j].0);
                        lemma_lt_irreflexive(key@);
                    }
                }
                lemma_lookup_none(s, key@);
            }
        } else {
            proof {
                assert forall|j: int| 0 <= j < s.len() implies s[j].0 != key@ by {
                    lemma_lt_irreflexive(key@);
                }
                lemma_lookup_none(s, key@);
            }
        }
        None
    }

    /// Whether `key` has a value.
    pub fn contains_key(&self, key: &str) -> (r: bool)
        ensures
            r == self@.contains_key(key@),
    {
        self.get(key).is_some()
    }

    /// Sets `key` to `value`, replacing an earlier value.
    pub fn insert(&mut self, key: String, value: String)
        ensures
            final(self)@ == old(self)@.insert(key@, value@),
    {
        self.sorted_invariant();
        let k = to_chars(key.as_str());
        let p = self.position(k.as_slice());
        let ghost s = self.ordered();
        let ghost e = (key@, value@);
        let mut replace = false;
        if p < self.entries.len() {
            let ek = to_chars(self.entries[p].0.as_str());
            replace = crate::text::chars_eq(ek.as_slice(), k.as_slice());
        }
        if replace {
            let mut entries = self.take_entries();
            entries.set(p, (key, value));
            proof {
                assert(entries@.map_values(|e: (String, String)| (e.0@, e.1@)) =~= s.update(p as int, e));
            }
            self.entries = entries;
            proof {
                let t = s.update(p as int, e);
                assert forall|q: Seq<char>| #[trigger] assoc_lookup(t, q) == (if q == key@ {
                    Some(value@)
                } else {
                    assoc_lookup(s, q)
                }) by {
                    if q == key@ {
                        assert forall|j: int| p < j < t.len() implies t[j].0 != key@ by {
                            lemma_lt_irreflexive(key@);
                        }
                        lemma_lookup_last(t, key@, p as int);
                    } else {
                        lemma_lookup_update(s, p as int, e, q);
                    }
                }
                assert(self@ =~= old(self)@.insert(key@, value@));
            }
        } else {
            proof {
                if p < s.len() {
                    lemma_lt_total(s[p as int].0, key@);
                }
            }
            let mut entries = self.take_entries();
            entries.insert(p, (key, value));
            proof {
                let t = s.insert(p as int, e);
                assert(entries@.map_values(|e: (String, String)| (e.0@, e.1@)) =~= t);
                assert forall|i: int, j: int| 0 <= i < j < t.len() implies seq_lt(
                    #[trigger] t[i].0,
                    #[trigger] t[j].0,
                ) by {
                    if j < p {
                    } else if j == p {
                    } else if i < p {
                        if p < s.len() {
                            lemma_lt_transitive(t[i].0, key@, s[p as int].0);
                            if j - 1 > p {
                                lemma_lt_transitive(t[i].0, s[p as int].0, s[j - 1].0);
                            }
                        }
                    } else if i == p {
                        if j - 1 > p {
                            lemma_lt_transitive(key@, s[p as int].0, s[j - 1].0);
                        }
                    } else {
                    }
                }
            }
            self.entries = entries;
            proof {
                let t = s.insert(p as int, e);
                assert forall|q: Seq<char>| #[trigger] assoc_lookup(t, q) == (if q == key@ {
                    Some(value@)
                } else {
                    assoc_lookup(s, q)
                }) by {
                    if q == key@ {
                        assert forall|j: int| p < j < t.len() implies t[j].0 != key@ by {
                            lemma_lt_irreflexive(key@);
                        }
                        lemma_lookup_last(t, key@, p as int);
                    } else {
                        lemma_lookup_insert(s, p as int, e, q);
                    }
                }
                assert(self@ =~= old(self)@.insert(key@, value@));
            }
        }
    }
}

impl View for TrailerMap {
    type V = Map<Seq<char>, Seq<char>>;

    open spec fn view(&self) -> Map<Seq<char>, Seq<char>> {
        assoc_map(self.ordered())
    }
}

/// `o` lists the entries of `m` in strictly ascending key order.
pub open spec fn is_listing(o: Seq<(Seq<char>, Seq<char>)>, m: Map<Seq<char>, Seq<char>>) -> bool {
    sorted_keys(o) && assoc_map(o) == m
}

/// A map has one listing at most: trailers come out in key order, whatever
/// order they were set in.
pub proof fn law_listing_unique(
    a: Seq<(Seq<char>, Seq<char>)>,
    b: Seq<(Seq<char>, Seq<char>)>,
    m: Map<Seq<char>, Seq<char>>,
)
    requires
        is_listing(a, m),
        is_listing(b, m),
    ensures
        a == b,
    decreases a.len() + b.len(),
{
    if a.len() == 0 || b.len() == 0 {
        if a.len() > 0 {
            lemma_sorted_lookup_last(a);
            lemma_lookup_none(b, a.last().0);
            assert(false);
        }
        if b.len() > 0 {
            lemma_sorted_lookup_last(b);
            lemma_lookup_none(a, b.last().0);
            assert(false);
        }
        assert(a =~= b);
    } else {
        let ka = a.last().0;
        let kb = b.last().0;
        lemma_sorted_lookup_last(a);
        lemma_sorted_lookup_last(b);
        // both last keys are keys of m, so each is a key of the other list
        let i = lemma_key_in(b, ka);
        let j = lemma_key_in(a, kb);
        if ka != kb {
            assert(i < b.len() - 1);
            assert(seq_lt(b[i].0, b[b.len() - 1].0));
            assert(j < a.len() - 1);
            assert(seq_lt(a[j].0, a[a.len() - 1].0));
            lemma_lt_asymmetric(ka, kb);
            assert(false);
        }
        assert(m[ka] == a.last().1);
        assert(m[kb] == b.last().1);
        let m2 = m.remove(ka);
        lemma_drop_last_listing(a, m);
        lemma_drop_last_listing(b, m);
        law_listing_unique(a.drop_last(), b.drop_last(), m2);
        assert(a =~= a.drop_last().push(a.last()));
        assert(b =~= b.drop_last().push(b.last()));
    }
}

/// In a sorted list the last entry is what the map gives for its key.
proof fn lemma_sorted_lookup_last(a: Seq<(Seq<char>, Seq<char>)>)
    requires
        a.len() > 0,
    ensures
        assoc_map(a).contains_key(a.last().0),
        assoc_map(a)[a.last().0] == a.last().1,
{
    lemma_lookup_last(a, a.last().0, a.len() - 1);
    assert(assoc_lookup(a, a.last().0) == Some(a.last().1));
}

/// A key of the map a list stands for is the key of one of its entries.
proof fn lemma_key_in(s: Seq<(Seq<char>, Seq<char>)>, k: Seq<char>) -> (i: int)
    requires
        assoc_lookup(s, k) is Some,
    ensures
        0 <= i < s.len(),
        s[i].0 == k,
    decreases s.len(),
{
    if s.last().0 == k {
        s.len() - 1
    } else {
        lemma_key_in(s.drop_last(), k)
    }
}

/// Without its last entry a listing lists the map without the last key.
proof fn lemma_drop_last_listing(a: Seq<(Seq<char>, Seq<char>)>, m: Map<Seq<char>, Seq<char>>)
    requires
        is_listing(a, m),
        a.len() > 0,
    ensures
        is_listing(a.drop_last(), m.remove(a.last().0)),
{
    let k = a.last().0;
    let d = a.drop_last();
    assert(sorted_keys(d)) by {
        assert forall|i: int, j: int| 0 <= i < j < d.len() implies seq_lt(#[trigger] d[i].0, #[trigger] d[j].0) by {
            assert(d[i] == a[i] && d[j] == a[j]);
        }
    }
    assert forall|q: Seq<char>| #[trigger] assoc_lookup(d, q) == (if q == k {
        None
    } else {
        assoc_lookup(a, q)
    }) by {
        if q == k {
            assert forall|j: int| 0 <= j < d.len() implies d[j].0 != k by {
                assert(seq_lt(a[j].0, a[a.len() - 1].0));
                lemma_lt_irreflexive(k);
            }
            lemma_lookup_none(d, k);
        } else {
            assert(a.drop_last() == d);
        }
    }
    assert(assoc_map(d) =~= m.remove(k));
}

} // verus!
