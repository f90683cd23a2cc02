//! Per-action configuration persisted in a key/value store such as git config.

use vstd::prelude::*;

use crate::assoc::{
    assoc_lookup, assoc_map, assoc_without, find_last, keyed, lemma_map_push, lemma_map_without,
};
use crate::error::HookError;
use crate::text::{extend_str, from_chars, to_chars, chars_eq};

verus! {

/// Configuration entries of one action, persisted in the store of the current
/// git work dir.
pub trait GitConfig {
    /// The entries, by key.
    spec fn entries(&self) -> Map<Seq<char>, Seq<char>>;

    /// Whether every write is taken (a store on disk may refuse one).
    spec fn accepts_writes(&self) -> bool;

    /// What storing `value` for `key` answers.
    spec fn set_result(&self, key: Seq<char>, value: Seq<char>) -> Result<(), HookError>;

    /// What removing `key` answers.
    spec fn remove_result(&self, key: Seq<char>) -> Result<(), HookError>;

    /// The value for `key`, or `default` where there is none.
    fn get_or_default(&self, key: &str, default: &str) -> (r: String)
        ensures
            r@ == config_value(self.entries(), key@, default@),
    ;

    /// Stores `value` for `key`; only a refused write fails, and then
    /// nothing changes.
    fn set(&mut self, key: &str, value: &str) -> (r: Result<(), HookError>)
        ensures
            r == old(self).set_result(key@, value@),
            r is Ok ==> final(self).entries() == old(self).entries().insert(key@, value@),
            r is Err ==> final(self).entries() == old(self).entries(),
            old(self).accepts_writes() ==> r is Ok,
            final(self).accepts_writes() == old(self).accepts_writes(),
    ;

    /// Removes `key`; only a refused write fails, and then nothing changes.
    fn remove(&mut self, key: &str) -> (r: Result<(), HookError>)
        ensures
            r == old(self).remove_result(key@),
            r is Ok ==> final(self).entries() == old(self).entries().remove(key@),
            r is Err ==> final(self).entries() == old(self).entries(),
            old(self).accepts_writes() ==> r is Ok,
            final(self).accepts_writes() == old(self).accepts_writes(),
    ;
}

/// Creates configuration sections for `<category_id>.<action_id>.<key> = <value>`
/// entries.
pub trait GitConfigManager {
    /// The configuration type handed out.
    type Config: GitConfig + 'static;

    /// The entries that the configuration of `action_id` in `category_id`
    /// holds.
    spec fn entries_for(&self, category_id: Seq<char>, action_id: Seq<char>) -> Map<
        Seq<char>,
        Seq<char>,
    >;

    /// The configuration of one action of one category.
    fn get_config_for(&self, category_id: &str, action_id: &str) -> (r: Self::Config)
        ensures
            r.entries() == self.entries_for(category_id@, action_id@),
    ;
}

/// The value of `key` in `entries`, or `default` where there is none.
pub open spec fn config_value(
    entries: Map<Seq<char>, Seq<char>>,
    key: Seq<char>,
    default: Seq<char>,
) -> Seq<char> {
    if entries.contains_key(key) {
        entries[key]
    } else {
        default
    }
}

/// A key/value configuration store (git config, or one kept in memory).
pub trait ConfigTrait: Sized {
    /// The entries of the store, by full key.
    spec fn store(&self) -> Map<Seq<char>, Seq<char>>;

    /// Whether the store takes every write (one kept in memory does; one on
    /// disk may refuse a write).
    spec fn accepts_writes(&self) -> bool;

    /// What writing `val` under `key` answers.
    spec fn set_key_result(&self, key: Seq<char>, val: Seq<char>) -> Result<(), HookError>;

    /// What removing `key`, where it has a value, answers.
    spec fn remove_key_result(&self, key: Seq<char>) -> Result<(), HookError>;

    /// Whether `key` has a value.
    fn has_key(&self, key: &str) -> (r: bool)
        ensures
            r == self.store().contains_key(key@),
    ;

    /// The value of `key`; an error where it has none.
    fn get_key(&self, key: &str) -> (r: Result<String, HookError>)
        ensures
            r is Ok <==> self.store().contains_key(key@),
            r matches Ok(v) ==> v@ == self.store()[key@],
    ;

    /// Sets `key` to `val`; a refused write changes nothing.
    fn set_key(&mut self, key: &str, val: &str) -> (r: Result<(), HookError>)
        ensures
            r == old(self).set_key_result(key@, val@),
            r is Ok ==> final(self).store() == old(self).store().insert(key@, val@),
            r is Err ==> final(self).store() == old(self).store(),
            old(self).accepts_writes() ==> r is Ok,
            final(self).accepts_writes() == old(self).accepts_writes(),
    ;

    /// Removes `key`; an error (no such key, or a refused write) changes
    /// nothing.
    fn remove_key(&mut self, key: &str) -> (r: Result<(), HookError>)
        ensures
            old(self).store().contains_key(key@) ==> r == old(self).remove_key_result(key@),
            r is Ok ==> final(self).store() == old(self).store().remove(key@),
            r is Err ==> final(self).store() == old(self).store(),
            old(self).accepts_writes() && old(self).store().contains_key(key@) ==> r is Ok,
            final(self).accepts_writes() == old(self).accepts_writes(),
    ;

    /// Another handle on the same store.
    fn duplicate(&self) -> (r: Self)
        ensures
            r.store() == self.store(),
            r.accepts_writes() == self.accepts_writes(),
    ;
}

/// A configuration store kept in memory, with the list of the writes made
/// through it (so that they can be carried over to a store on disk).
pub struct MemoryConfig {
    entries: Vec<(String, String)>,
    journal: Vec<(String, Option<String>)>,
}

/// A write viewed as values: the key, and the value set (`None` for a
/// removal).
pub open spec fn write_view(w: (String, Option<String>)) -> (Seq<char>, Option<Seq<char>>) {
    (
        w.0@,
        match w.1 {
            Some(v) => Some(v@),
            None => None,
        },
    )
}

impl MemoryConfig {
    /// An empty store.
    pub fn new() -> (r: Self)
        ensures
            r.store() == Map::<Seq<char>, Seq<char>>::empty(),
            r.writes() == Seq::<(Seq<char>, Option<Seq<char>>)>::empty(),
    {
        let r = MemoryConfig { entries: Vec::new(), journal: Vec::new() };
        assert(r.store() =~= Map::<Seq<char>, Seq<char>>::empty());
        assert(r.writes() =~= Seq::<(Seq<char>, Option<Seq<char>>)>::empty());
        r
    }

    /// A store holding `entries` (a later entry for a key wins), with no
    /// writes yet.
    pub fn from_entries(entries: Vec<(String, String)>) -> (r: Self)
        ensures
            r.store() == assoc_map(entries@.map_values(|e: (String, String)| (e.0@, e.1@))),
            r.writes() == Seq::<(Seq<char>, Option<Seq<char>>)>::empty(),
    {
        let r = MemoryConfig { entries, journal: Vec::new() };
        assert(r.writes() =~= Seq::<(Seq<char>, Option<Seq<char>>)>::empty());
        r
    }

    /// The writes made through this handle, in order.
    pub closed spec fn writes(&self) -> Seq<(Seq<char>, Option<Seq<char>>)> {
        self.journal@.map_values(|w: (String, Option<String>)| write_view(w))
    }

    /// The writes made through this handle, in order.
    pub fn journal(&self) -> (r: &Vec<(String, Option<String>)>)
        ensures
            r@.map_values(|w: (String, Option<String>)| write_view(w)) == self.writes(),
    {
        &self.journal
    }

    spec fn pairs(&self) -> Seq<(Seq<char>, Seq<char>)> {
        self.entries@.map_values(|e: (String, String)| (e.0@, e.1@))
    }

    proof fn lemma_pairs_keyed(&self)
        ensures
            forall|k: Seq<char>| #[trigger] assoc_lookup(self.pairs(), k) == match assoc_lookup(
                keyed(self.entries@),
                k,
            ) {
                Some(v) => Some(v@),
                None => None,
            },
    {
        assert forall|k: Seq<char>| #[trigger] assoc_lookup(self.pairs(), k) == match assoc_lookup(
            keyed(self.entries@),
            k,
        ) {
            Some(v) => Some(v@),
            None => None,
        } by {
            lemma_lookup_view(self.entries@, k);
        }
    }
}

proof fn lemma_lookup_view(s: Seq<(String, String)>, k: Seq<char>)
    ensures
        assoc_lookup(s.map_values(|e: (String, String)| (e.0@, e.1@)), k) == match assoc_lookup(
            keyed(s),
            k,
        ) {
            Some(v) => Some(v@),
            None => None,
        },
    decreases s.len(),
{
    if s.len() > 0 {
        lemma_lookup_view(s.drop_last(), k);
        assert(s.map_values(|e: (String, String)| (e.0@, e.1@)).drop_last() =~= s.drop_last().map_values(
            |e: (String, String)| (e.0@, e.1@),
        ));
        assert(keyed(s).drop_last() =~= keyed(s.drop_last()));
    }
}

impl ConfigTrait for MemoryConfig {
    closed spec fn store(&self) -> Map<Seq<char>, Seq<char>> {
        assoc_map(self.pairs())
    }

    open spec fn accepts_writes(&self) -> bool {
        true
    }

    open spec fn set_key_result(&self, key: Seq<char>, val: Seq<char>) -> Result<(), HookError> {
        Ok(())
    }

    open spec fn remove_key_result(&self, key: Seq<char>) -> Result<(), HookError> {
        Ok(())
    }

    fn has_key(&self, key: &str) -> (r: bool) {
        let k = to_chars(key);
        proof {
            self.lemma_pairs_keyed();
        }
        find_last(&self.entries, k.as_slice()).is_some()
    }

    fn get_key(&self, key: &str) -> (r: Result<String, HookError>) {
        let k = to_chars(key);
        proof {
            self.lemma_pairs_keyed();
        }
        match find_last(&self.entries, k.as_slice()) {
            Some(i) => Ok(self.entries[i].1.clone()),
            None => Err(HookError::Config(key.to_owned())),
        }
    }

    fn set_key(&mut self, key: &str, val: &str) -> (r: Result<(), HookError>)
        ensures
            r is Ok,
            final(self).writes() == old(self).writes().push((key@, Some(val@))),
    {
        let ghost before = self.pairs();
        let ghost w0 = self.writes();
        self.entries.push((key.to_owned(), val.to_owned()));
        self.journal.push((key.to_owned(), Some(val.to_owned())));
        proof {
            assert(self.pairs() =~= before.push((key@, val@)));
            lemma_map_push(before, key@, val@);
            assert(self.writes() =~= w0.push((key@, Some(val@))));
        }
        Ok(())
    }

    fn remove_key(&mut self, key: &str) -> (r: Result<(), HookError>)
        ensures
            r is Ok <==> old(self).store().contains_key(key@),
            r matches Err(HookError::Config(k)) && k@ == key@ || r is Ok,
            r is Err ==> final(self).store() == old(self).store(),
            r is Ok ==> final(self).writes() == old(self).writes().push((key@, None)),
            r is Err ==> final(self).writes() == old(self).writes(),
    {
        let k = to_chars(key);
        proof {
            self.lemma_pairs_keyed();
        }
        if find_last(&self.entries, k.as_slice()).is_none() {
            return Err(HookError::Config(key.to_owned()));
        }
        let ghost before = self.pairs();
        let mut kept: Vec<(String, String)> = Vec::new();
        let mut i: usize = 0;
        while i < self.entries.len()
            invariant
                i <= self.entries@.len(),
                k@ == key@,
                before == self.entries@.map_values(|e: (String, String)| (e.0@, e.1@)),
                kept@.map_values(|e: (String, String)| (e.0@, e.1@)) == assoc_without(
                    before.take(i as int),
                    key@,
                ),
            decreases self.entries@.len() - i,
        {
            let ek = to_chars(self.entries[i].0.as_str());
            assert(before.take(i + 1).drop_last() =~= before.take(i as int));
            assert(before.take(i + 1).last() == before[i as int]);
            assert(before[i as int] == (self.entries@[i as int].0@, self.entries@[i as int].1@));
            if !chars_eq(ek.as_slice(), k.as_slice()) {
                let ghost kv = kept@.map_values(|e: (String, String)| (e.0@, e.1@));
                let e = (self.entries[i].0.clone(), self.entries[i].1.clone());
                kept.push(e);
                assert(kept@.map_values(|e: (String, String)| (e.0@, e.1@)) =~= kv.push(
                    before[i as int],
                ));
                assert(before[i as int].0 != key@);
                assert(assoc_without(before.take(i + 1), key@) == assoc_without(before.take(i as int), key@).push(before[i as int]));
            } else {
                assert(before[i as int].0 == key@);
                assert(assoc_without(before.take(i + 1), key@) == assoc_without(before.take(i as int), key@));
            }
            i = i + 1;
        }
        assert(before.take(i as int) =~= before);
        self.entries = kept;
        let ghost w0 = self.writes();
        self.journal.push((key.to_owned(), None));
        proof {
            lemma_map_without(before, key@);
            assert(self.writes() =~= w0.push((key@, None)));
        }
        Ok(())
    }

    fn duplicate(&self) -> (r: Self) {
        let mut entries: Vec<(String, String)> = Vec::new();
        let mut i: usize = 0;
        while i < self.entries.len()
            invariant
                i <= self.entries@.len(),
                entries@.map_values(|e: (String, String)| (e.0@, e.1@)) == self.pairs().take(
                    i as int,
                ),
            decreases self.entries@.len() - i,
        {
            let ghost ev = entries@.map_values(|e: (String, String)| (e.0@, e.1@));
            entries.push((self.entries[i].0.clone(), self.entries[i].1.clone()));
            assert(entries@.map_values(|e: (String, String)| (e.0@, e.1@)) =~= ev.push(
                self.pairs()[i as int],
            ));
            assert(self.pairs().take(i + 1) =~= self.pairs().take(i as int).push(
                self.pairs()[i as int],
            ));
            i = i + 1;
        }
        let r = MemoryConfig { entries, journal: Vec::new() };
        assert(r.pairs() =~= self.pairs());
        r
    }
}

/// `<section>.<hook>.<key>`: the store key of `key` in an action's section.
pub open spec fn full_key(section: Seq<char>, hook: Seq<char>, key: Seq<char>) -> Seq<char> {
    section + seq!['.'] + hook + seq!['.'] + key
}

/// The entries of `store` under the section of one action, by short key.
pub open spec fn section_entries(
    store: Map<Seq<char>, Seq<char>>,
    section: Seq<char>,
    hook: Seq<char>,
) -> Map<Seq<char>, Seq<char>> {
    Map::new(
        |k: Seq<char>| store.contains_key(full_key(section, hook, k)),
        |k: Seq<char>| store[full_key(section, hook, k)],
    )
}

/// Creates the configuration of each action over one shared store.
pub struct GitConfigManagerImpl<S> {
    config: S,
}

/// The configuration of one action, stored in `config` under
/// `<section>.<hook>.`.
pub struct GitConfigImpl<S> {
    config: S,
    section: String,
    hook: String,
}

impl<S: ConfigTrait + 'static> GitConfigManagerImpl<S> {
    /// A manager over the store `config`.
    pub fn from_config(config: S) -> (r: Self)
        ensures
            r.store() == config.store(),
            r.accepts_writes() == config.accepts_writes(),
    {
        GitConfigManagerImpl { config }
    }

    /// The store's entries.
    pub closed spec fn store(&self) -> Map<Seq<char>, Seq<char>> {
        self.config.store()
    }

    /// Whether the store takes every write.
    pub closed spec fn accepts_writes(&self) -> bool {
        self.config.accepts_writes()
    }

    /// The configuration of `hook_id` in `category_id`, as its concrete type.
    pub fn config_for(&self, category_id: &str, hook_id: &str) -> (r: GitConfigImpl<S>)
        ensures
            r.section() == category_id@,
            r.hook() == hook_id@,
            r.store() == self.store(),
            r.accepts_writes() == self.accepts_writes(),
    {
        GitConfigImpl {
            config: self.config.duplicate(),
            section: category_id.to_owned(),
            hook: hook_id.to_owned(),
        }
    }
}

impl<S: ConfigTrait + 'static> GitConfigManager for GitConfigManagerImpl<S> {
    type Config = GitConfigImpl<S>;

    open spec fn entries_for(&self, category_id: Seq<char>, action_id: Seq<char>) -> Map<
        Seq<char>,
        Seq<char>,
    > {
        section_entries(self.store(), category_id, action_id)
    }

    fn get_config_for(&self, category_id: &str, hook_id: &str) -> (r: GitConfigImpl<S>) {
        self.config_for(category_id, hook_id)
    }
}

impl<S: ConfigTrait> GitConfigImpl<S> {
    /// The category (section) of the action.
    pub closed spec fn section(&self) -> Seq<char> {
        self.section@
    }

    /// The action's identifier within the category.
    pub closed spec fn hook(&self) -> Seq<char> {
        self.hook@
    }

    /// The whole store.
    pub closed spec fn store(&self) -> Map<Seq<char>, Seq<char>> {
        self.config.store()
    }

    /// The store this configuration reads and writes.
    pub fn config_store(&self) -> (r: &S)
        ensures
            r.store() == self.store(),
    {
        &self.config
    }

    /// The store key of `key`.
    fn full_key(&self, key: &str) -> (r: String)
        ensures
            r@ == full_key(self.section(), self.hook(), key@),
    {
        let mut v: Vec<char> = Vec::new();
        extend_str(&mut v, self.section.as_str());
        v.push('.');
        extend_str(&mut v, self.hook.as_str());
        v.push('.');
        extend_str(&mut v, key);
        let r = from_chars(v.as_slice());
        assert(r@ =~= full_key(self.section(), self.hook(), key@));
        r
    }
}

proof fn lemma_full_key_injective(section: Seq<char>, hook: Seq<char>, a: Seq<char>, b: Seq<char>)
    requires
        full_key(section, hook, a) == full_key(section, hook, b),
    ensures
        a == b,
{
    let p = section + seq!['.'] + hook + seq!['.'];
    assert(full_key(section, hook, a) =~= p + a);
    assert(full_key(section, hook, b) =~= p + b);
    assert((p + a).skip(p.len() as int) =~= a);
    assert((p + b).skip(p.len() as int) =~= b);
}

impl<S: ConfigTrait> GitConfig for GitConfigImpl<S> {
    closed spec fn entries(&self) -> Map<Seq<char>, Seq<char>> {
        section_entries(self.config.store(), self.section@, self.hook@)
    }

    closed spec fn accepts_writes(&self) -> bool {
        self.config.accepts_writes()
    }

    /// What the store answers to the write under the action's full key.
    closed spec fn set_result(&self, key: Seq<char>, value: Seq<char>) -> Result<(), HookError> {
        self.config.set_key_result(full_key(self.section@, self.hook@, key), value)
    }

    /// Success where the action has no such key; else what the store
    /// answers to the removal of the full key.
    closed spec fn remove_result(&self, key: Seq<char>) -> Result<(), HookError> {
        if self.entries().contains_key(key) {
            self.config.remove_key_result(full_key(self.section@, self.hook@, key))
        } else {
            Ok(())
        }
    }

    fn get_or_default(&self, key: &str, default: &str) -> (r: String) {
        let full = self.full_key(key);
        match self.config.get_key(full.as_str()) {
            Ok(v) => v,
            Err(_) => default.to_owned(),
        }
    }

    /// Stores `value` under the action's `key`; only a store that refuses
    /// the write makes it fail, and then nothing changes.
    fn set(&mut self, key: &str, value: &str) -> (r: Result<(), HookError>)
        ensures
            r is Ok ==> final(self).store() == old(self).store().insert(
                full_key(old(self).section(), old(self).hook(), key@),
                value@,
            ),
            r is Err ==> final(self).store() == old(self).store(),
            final(self).section() == old(self).section(),
            final(self).hook() == old(self).hook(),
            final(self).accepts_writes() == old(self).accepts_writes(),
    {
        let full = self.full_key(key);
        let ghost before = self.config.store();
        let r = self.config.set_key(full.as_str(), value);
        proof {
            if r is Ok {
                assert forall|k: Seq<char>| #[trigger] full_key(self.section@, self.hook@, k)
                    == full@ implies k == key@ by {
                    lemma_full_key_injective(self.section@, self.hook@, k, key@);
                }
                assert(self.entries() =~= old(self).entries().insert(key@, value@));
            }
        }
        r
    }

    /// Removes the action's `key`: nothing to do (and success) where it is
    /// not set; otherwise only a store that refuses the write makes it
    /// fail, and then nothing changes.
    fn remove(&mut self, key: &str) -> (r: Result<(), HookError>)
        ensures
            !old(self).entries().contains_key(key@) ==> r is Ok && final(self).store() == old(
                self,
            ).store(),
            r is Ok ==> final(self).store() == old(self).store().remove(
                full_key(old(self).section(), old(self).hook(), key@),
            ),
            r is Err ==> final(self).store() == old(self).store(),
            final(self).section() == old(self).section(),
            final(self).hook() == old(self).hook(),
            final(self).accepts_writes() == old(self).accepts_writes(),
    {
        let full = self.full_key(key);
        if self.config.has_key(full.as_str()) {
            let r = self.config.remove_key(full.as_str());
            proof {
                if r is Ok {
                    assert forall|k: Seq<char>| #[trigger] full_key(self.section@, self.hook@, k)
                        == full@ implies k == key@ by {
                        lemma_full_key_injective(self.section@, self.hook@, k, key@);
                    }
                    assert(self.entries() =~= old(self).entries().remove(key@));
                }
            }
            r
        } else {
            assert(self.entries() =~= old(self).entries().remove(key@));
            Ok(())
        }
    }
}

/// What a read gives back of a write: after a write of `value` under `key`
/// the key reads `value`; after its removal it reads the default; every
/// other key reads as before.
pub proof fn law_read_after_write(
    entries: Map<Seq<char>, Seq<char>>,
    key: Seq<char>,
    value: Seq<char>,
    other: Seq<char>,
    default: Seq<char>,
)
    ensures
        config_value(entries.insert(key, value), key, default) == value,
        config_value(entries.remove(key), key, default) == default,
        other != key ==> config_value(entries.insert(key, value), other, default) == config_value(
            entries,
            other,
            default,
        ),
        other != key ==> config_value(entries.remove(key), other, default) == config_value(
            entries,
            other,
            default,
        ),
{
}

/// The position of the first `.` in `s` is `i` when `s[..i]` holds none
/// and `s[i]` is one.
proof fn lemma_split_at_dot(x: Seq<char>, y: Seq<char>, p: Seq<char>, q: Seq<char>)
    requires
        !x.contains('.'),
        !y.contains('.'),
        x + seq!['.'] + p == y + seq!['.'] + q,
    ensures
        x == y,
        p == q,
{
    let l = x + seq!['.'] + p;
    let r = y + seq!['.'] + q;
    if x.len() < y.len() {
        assert(l[x.len() as int] == '.');
        assert(r[x.len() as int] == y[x.len() as int]);
        assert(y.contains(y[x.len() as int]));
        assert(false);
    }
    if y.len() < x.len() {
        assert(r[y.len() as int] == '.');
        assert(l[y.len() as int] == x[y.len() as int]);
        assert(x.contains(x[y.len() as int]));
        assert(false);
    }
    assert(x =~= l.take(x.len() as int));
    assert(y =~= r.take(y.len() as int));
    assert(p =~= l.skip(x.len() as int + 1));
    assert(q =~= r.skip(y.len() as int + 1));
}

/// Actions do not see each other's settings: writing or removing a key of
/// one action leaves the entries of every other action as they were, when
/// the category and action identifiers hold no `.`.
pub proof fn law_sections_isolated(
    store: Map<Seq<char>, Seq<char>>,
    c1: Seq<char>,
    a1: Seq<char>,
    c2: Seq<char>,
    a2: Seq<char>,
    key: Seq<char>,
    value: Seq<char>,
)
    requires
        !c1.contains('.'),
        !a1.contains('.'),
        !c2.contains('.'),
        !a2.contains('.'),
        c1 != c2 || a1 != a2,
    ensures
        section_entries(store.insert(full_key(c1, a1, key), value), c2, a2) == section_entries(
            store,
            c2,
            a2,
        ),
        section_entries(store.remove(full_key(c1, a1, key)), c2, a2) == section_entries(
            store,
            c2,
            a2,
        ),
{
    assert forall|k: Seq<char>| full_key(c2, a2, k) != full_key(c1, a1, key) by {
        if full_key(c2, a2, k) == full_key(c1, a1, key) {
            assert(full_key(c2, a2, k) =~= c2 + seq!['.'] + (a2 + seq!['.'] + k));
            assert(full_key(c1, a1, key) =~= c1 + seq!['.'] + (a1 + seq!['.'] + key));
            lemma_split_at_dot(c2, c1, a2 + seq!['.'] + k, a1 + seq!['.'] + key);
            lemma_split_at_dot(a2, a1, k, key);
        }
    }
    assert(section_entries(store.insert(full_key(c1, a1, key), value), c2, a2) =~= section_entries(
        store,
        c2,
        a2,
    ));
    assert(section_entries(store.remove(full_key(c1, a1, key)), c2, a2) =~= section_entries(
        store,
        c2,
        a2,
    ));
}

} // verus!
