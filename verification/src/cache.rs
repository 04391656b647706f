//! What is remembered of each key from one run to the next.
use vstd::prelude::*;
use vstd::string::*;

use crate::keys::{lists_keys, KeyMap};
use crate::text::join;

verus! {

/// The version that is written into a cache file.
pub const CACHE_VERSION: u32 = 1;

/// What is remembered of a key: the checksum and modification time of the local file, and the
/// entity tag and modification time of the object.
#[derive(Clone)]
pub struct CacheEntry {
    pub md5: String,
    pub mtime: i64,
    pub etag: String,
    pub last_modified: String,
}

/// What a [`CacheEntry`] says.
#[verifier::ext_equal]
pub struct EntryView {
    pub md5: Seq<char>,
    pub mtime: i64,
    pub etag: Seq<char>,
    pub last_modified: Seq<char>,
}

impl View for CacheEntry {
    type V = EntryView;

    open spec fn view(&self) -> EntryView {
        EntryView {
            md5: self.md5@,
            mtime: self.mtime,
            etag: self.etag@,
            last_modified: self.last_modified@,
        }
    }
}

/// What is said by an entry that may be missing.
pub open spec fn entry_view(entry: Option<&CacheEntry>) -> Option<EntryView> {
    match entry {
        Some(e) => Some(e@),
        None => None,
    }
}

impl CacheEntry {
    /// Another entry that says the same.
    pub fn copied(&self) -> (entry: CacheEntry)
        ensures
            entry@ == self@,
    {
        CacheEntry {
            md5: self.md5.clone(),
            mtime: self.mtime,
            etag: self.etag.clone(),
            last_modified: self.last_modified.clone(),
        }
    }
}

/// What is remembered of the keys.
pub type Memory = Map<Seq<char>, EntryView>;

/// What a [`Cache`] holds: its entries, and whether they changed since they were last stored.
#[verifier::ext_equal]
pub struct CacheView {
    pub entries: Memory,
    pub dirty: bool,
}

impl CacheView {
    /// What is remembered of `key`.
    pub open spec fn recall(self, key: Seq<char>) -> Option<EntryView> {
        if self.entries.contains_key(key) {
            Some(self.entries[key])
        } else {
            None
        }
    }

    /// The cache once `entry` is remembered for `key`.
    pub open spec fn set(self, key: Seq<char>, entry: EntryView) -> CacheView {
        CacheView { entries: self.entries.insert(key, entry), dirty: true }
    }

    /// The cache once `key` is forgotten.
    pub open spec fn remove(self, key: Seq<char>) -> CacheView {
        CacheView { entries: self.entries.remove(key), dirty: true }
    }
}

/// What a list of entries says, a later one taking the place of an earlier one for its key.
pub open spec fn memory_of(stored: Seq<(String, CacheEntry)>) -> Memory
    decreases stored.len(),
{
    if stored.len() == 0 {
        Map::empty()
    } else {
        memory_of(stored.drop_last()).insert(stored.last().0@, stored.last().1@)
    }
}

/// What a cache starts out with, given what was stored.
pub open spec fn loaded(stored: Option<Seq<(String, CacheEntry)>>) -> Memory {
    match stored {
        Some(list) => memory_of(list),
        None => Map::empty(),
    }
}

/// The entries of a profile, and whether they changed since they were last stored.
pub struct Cache {
    entries: KeyMap<CacheEntry>,
    dirty: bool,
}

impl View for Cache {
    type V = CacheView;

    closed spec fn view(&self) -> CacheView {
        CacheView { entries: self.entries@, dirty: self.dirty }
    }
}

/// The name of the cache file of a profile.
pub fn cache_file_name(profile: &str) -> (name: String)
    ensures
        name@ == profile@ + ".json"@,
{
    join(profile, ".json")
}

impl Cache {
    /// The cache that the stored entries make up; an empty one where there are none.
    pub fn load(stored: Option<Vec<(String, CacheEntry)>>) -> (cache: Cache)
        ensures
            cache@.entries == loaded(
                match stored {
                    Some(list) => Some(list@),
                    None => None,
                },
            ),
            !cache@.dirty,
    {
        let mut entries: KeyMap<CacheEntry> = KeyMap::new();
        match stored {
            Some(list) => {
                let mut i: usize = 0;
                while i < list.len()
                    invariant
                        i <= list@.len(),
                        entries@ == memory_of(list@.take(i as int)),
                    decreases list@.len() - i,
                {
                    proof {
                        assert(list@.take(i + 1).drop_last() =~= list@.take(i as int));
                    }
                    entries.insert(list[i].0.clone(), list[i].1.copied());
                    i = i + 1;
                }
                assert(list@.take(list@.len() as int) =~= list@);
            },
            None => {},
        }
        Cache { entries, dirty: false }
    }

    /// What is remembered of `key`.
    pub fn get(&self, key: &str) -> (entry: Option<&CacheEntry>)
        ensures
            entry_view(entry) == self@.recall(key@),
    {
        self.entries.get(key)
    }

    /// Remembers `entry` for `key`.
    pub fn set(&mut self, key: String, entry: CacheEntry)
        ensures
            final(self)@ == old(self)@.set(key@, entry@),
    {
        self.entries.insert(key, entry);
        self.dirty = true;
    }

    /// Forgets `key`.
    pub fn remove(&mut self, key: &str)
        ensures
            final(self)@ == old(self)@.remove(key@),
    {
        self.entries.remove(key);
        self.dirty = true;
    }

    /// The entries to store, if they changed since they were last stored. From then on they
    /// count as stored.
    pub fn save(&mut self) -> (stored: Option<Vec<(String, CacheEntry)>>)
        ensures
            stored is Some <==> old(self)@.dirty,
            stored matches Some(list) ==> loaded(Some(list@)) == old(self)@.entries,
            final(self)@ == (CacheView { dirty: false, ..old(self)@ }),
    {
        if !self.dirty {
            return None;
        }
        let mut list: Vec<(String, CacheEntry)> = Vec::new();
        let n: usize = self.entries.len();
        let ghost keys = self.entries.key_seq();
        let mut i: usize = 0;
        while i < n
            invariant
                i <= n,
                n == keys.len(),
                keys == self.entries.key_seq(),
                lists_keys(keys, self.entries@),
                memory_of(list@) == self.entries@.restrict(keys.take(i as int).to_set()),
            decreases n - i,
        {
            let ghost before = list@;
            list.push((self.entries.key_at(i).clone(), self.entries.value_at(i).copied()));
            proof {
                assert(list@.drop_last() =~= before);
                assert(keys.take(i + 1) =~= keys.take(i as int).push(keys[i as int]));
                let seen = keys.take(i as int);
                assert(seen.push(keys[i as int]).to_set() =~= seen.to_set().insert(keys[i as int]))
                    by {
                    assert forall|k: Seq<char>| #[trigger]
                        seen.push(keys[i as int]).contains(k) <==> seen.to_set().insert(
                            keys[i as int],
                        ).contains(k) by {
                        if seen.to_set().contains(k) {
                            let j = seen.index_of(k);
                            assert(seen.push(keys[i as int])[j] == k);
                        }
                        assert(seen.push(keys[i as int])[i as int] == keys[i as int]);
                    }
                }
                assert(memory_of(list@) =~= self.entries@.restrict(keys.take(i + 1).to_set()));
            }
            i = i + 1;
        }
        proof {
            assert(keys.take(n as int) =~= keys);
            assert(self.entries@.restrict(keys.to_set()) =~= self.entries@);
        }
        self.dirty = false;
        Some(list)
    }
}

/// A read gives back what was last written for its key, and a write for another key, or its
/// removal, does not touch it.
pub proof fn law_read_after_write(
    cache: CacheView,
    key: Seq<char>,
    entry: EntryView,
    other: Seq<char>,
)
    requires
        other != key,
    ensures
        cache.set(key, entry).recall(key) == Some(entry),
        cache.set(key, entry).recall(other) == cache.recall(other),
        cache.remove(key).recall(key) is None,
        cache.remove(key).recall(other) == cache.recall(other),
{
}

/// Whatever is remembered or forgotten makes the cache differ from what is stored.
pub proof fn law_every_write_is_to_be_stored(cache: CacheView, key: Seq<char>, entry: EntryView)
    ensures
        cache.set(key, entry).dirty,
        cache.remove(key).dirty,
{
}

/// A cache holds what was stored: for each key the last entry that was stored for it, and
/// nothing for a key without one.
pub proof fn law_loaded_is_what_was_stored(stored: Seq<(String, CacheEntry)>, key: Seq<char>, at: int)
    ensures
        loaded(None) == Map::<Seq<char>, EntryView>::empty(),
        0 <= at < stored.len() && stored[at].0@ == key && (forall|j: int|
            at < j < stored.len() ==> (#[trigger] stored[j]).0@ != key) ==> loaded(
            Some(stored),
        ).contains_key(key) && loaded(Some(stored))[key] == stored[at].1@,
        (forall|j: int| 0 <= j < stored.len() ==> (#[trigger] stored[j]).0@ != key) ==> !loaded(
            Some(stored),
        ).contains_key(key),
    decreases stored.len(),
{
    if stored.len() > 0 {
        let rest = stored.drop_last();
        let last = stored.len() - 1;
        law_loaded_is_what_was_stored(rest, key, at);
        assert(stored[last] == stored.last());
        if 0 <= at < last {
            assert((forall|j: int| at < j < stored.len() ==> (#[trigger] stored[j]).0@ != key) ==> (
            forall|j: int| at < j < rest.len() ==> (#[trigger] rest[j]).0@ != key)) by {
                assert(forall|j: int| 0 <= j < rest.len() ==> #[trigger] rest[j] == stored[j]);
            }
        }
        assert(forall|j: int| 0 <= j < rest.len() ==> #[trigger] rest[j] == stored[j]);
    }
}

} // verus!
