//! Maps and sets of object keys, kept in the order of their text.
use vstd::prelude::*;

use crate::text::{lemma_less_asymmetric, parts_below, side_of, text_less, Side};

verus! {

/// The texts stand in strictly ascending order, so none occurs twice.
pub open spec fn ascending(s: Seq<Seq<char>>) -> bool {
    forall|i: int, j: int| 0 <= i < j < s.len() ==> text_less(#[trigger] s[i], #[trigger] s[j])
}

/// `s` lists exactly the keys of `m`, in ascending order.
pub open spec fn lists_keys<W>(s: Seq<Seq<char>>, m: Map<Seq<char>, W>) -> bool {
    &&& ascending(s)
    &&& forall|i: int| 0 <= i < s.len() ==> m.contains_key(#[trigger] s[i])
    &&& forall|k: Seq<char>| #[trigger] m.contains_key(k) ==> s.contains(k)
}

/// The keys of a finite set, in ascending order.
pub open spec fn in_order(keys: Set<Seq<char>>) -> Seq<Seq<char>> {
    choose|s: Seq<Seq<char>>| #[trigger] ascending(s) && s.to_set() == keys
}

/// There is only one ascending listing of a set.
pub proof fn lemma_in_order_unique(s: Seq<Seq<char>>)
    requires
        ascending(s),
    ensures
        in_order(s.to_set()) == s,
{
    let t = in_order(s.to_set());
    assert(ascending(t) && t.to_set() == s.to_set());
    lemma_same_listing(s, t);
}

proof fn lemma_same_listing(s: Seq<Seq<char>>, t: Seq<Seq<char>>)
    requires
        ascending(s),
        ascending(t),
        s.to_set() == t.to_set(),
    ensures
        s == t,
    decreases s.len(),
{
    if s.len() == 0 {
        if t.len() > 0 {
            assert(t.to_set().contains(t[0]));
            assert(s.contains(t[0]));
        }
        assert(s =~= t);
    } else {
        assert(s.to_set().contains(s.last()));
        assert(t.contains(s.last()));
        assert(t.to_set().contains(t.last()));
        assert(s.contains(t.last()));
        let i = t.index_of(s.last());
        let j = s.index_of(t.last());
        if i < t.len() - 1 {
            assert(text_less(t[i], t.last()));
            if j < s.len() - 1 {
                assert(text_less(s[j], s.last()));
                crate::text::lemma_less_asymmetric(s[j], s.last());
            }
            crate::text::lemma_less_asymmetric(t[i], t.last());
        }
        assert(s.last() == t.last());
        let a = s.drop_last();
        let b = t.drop_last();
        assert forall|k: Seq<char>| a.contains(k) <==> b.contains(k) by {
            if a.contains(k) {
                let n = a.index_of(k);
                assert(s[n] == k);
                assert(s.to_set().contains(k));
                assert(t.contains(k));
                let m = t.index_of(k);
                assert(text_less(s[n], s.last()));
                crate::text::lemma_less_asymmetric(s[n], s.last());
                assert(b[m] == k);
            }
            if b.contains(k) {
                let n = b.index_of(k);
                assert(t[n] == k);
                assert(t.to_set().contains(k));
                assert(s.contains(k));
                let m = s.index_of(k);
                assert(text_less(t[n], t.last()));
                crate::text::lemma_less_asymmetric(t[n], t.last());
                assert(a[m] == k);
            }
        }
        assert(a.to_set() =~= b.to_set());
        lemma_same_listing(a, b);
        assert(s =~= a.push(s.last()));
        assert(t =~= b.push(t.last()));
    }
}

/// Of two different texts one is below the other.
proof fn lemma_less_total(a: Seq<char>, b: Seq<char>, n: int)
    requires
        a != b,
        0 <= n <= a.len(),
        n <= b.len(),
        forall|i: int| 0 <= i < n ==> a[i] == b[i],
    ensures
        text_less(a, b) || text_less(b, a),
    decreases a.len() - n,
{
    if n == a.len() {
        if n == b.len() {
            assert(a =~= b);
        }
        assert(parts_below(a, b, n));
    } else if n == b.len() {
        assert(parts_below(b, a, n));
    } else if a[n] == b[n] {
        lemma_less_total(a, b, n + 1);
    } else {
        vstd::utf8::char_u32_cast(a[n], a[n] as u32);
        vstd::utf8::char_u32_cast(b[n], b[n] as u32);
        if (a[n] as u32) < (b[n] as u32) {
            assert(parts_below(a, b, n));
        } else {
            assert(parts_below(b, a, n));
        }
    }
}

/// An ascending listing with one key more.
proof fn lemma_listing_with(s: Seq<Seq<char>>, key: Seq<char>) -> (t: Seq<Seq<char>>)
    requires
        ascending(s),
        !s.contains(key),
    ensures
        ascending(t),
        forall|k: Seq<char>| #[trigger] t.contains(k) <==> s.contains(k) || k == key,
    decreases s.len(),
{
    if s.len() == 0 {
        let t = seq![key];
        assert(t[0] == key);
        t
    } else {
        let last = s.last();
        let rest = s.drop_last();
        assert(s =~= rest.push(last));
        assert(s[s.len() - 1] == last);
        lemma_less_total(last, key, 0);
        if text_less(last, key) {
            let t = s.push(key);
            assert forall|i: int, j: int| 0 <= i < j < t.len() implies text_less(
                #[trigger] t[i],
                #[trigger] t[j],
            ) by {
                if j == s.len() && i < s.len() - 1 {
                    crate::text::lemma_less_transitive(s[i], last, key);
                }
            }
            assert forall|k: Seq<char>| #[trigger] t.contains(k) <==> s.contains(k) || k == key by {
                if s.contains(k) {
                    assert(t[s.index_of(k)] == k);
                }
                assert(t[s.len() as int] == key);
            }
            t
        } else {
            assert forall|k: Seq<char>| #[trigger] s.contains(k) <==> rest.contains(k) || k
                == last by {
                if rest.contains(k) {
                    assert(s[rest.index_of(k)] == k);
                }
            }
            let part = lemma_listing_with(rest, key);
            let t = part.push(last);
            assert forall|i: int, j: int| 0 <= i < j < t.len() implies text_less(
                #[trigger] t[i],
                #[trigger] t[j],
            ) by {
                if j == part.len() {
                    assert(part.contains(part[i]));
                    if rest.contains(part[i]) {
                        assert(text_less(s[rest.index_of(part[i])], s[s.len() - 1]));
                    }
                } else {
                    assert(text_less(part[i], part[j]));
                }
            }
            assert forall|k: Seq<char>| #[trigger] t.contains(k) <==> s.contains(k) || k == key by {
                if part.contains(k) {
                    assert(t[part.index_of(k)] == k);
                }
                assert(t[part.len() as int] == last);
            }
            t
        }
    }
}

/// Every finite set of keys has an ascending listing.
proof fn lemma_listing_exists(keys: Set<Seq<char>>) -> (t: Seq<Seq<char>>)
    requires
        keys.finite(),
    ensures
        ascending(t),
        t.to_set() == keys,
    decreases keys.len(),
{
    if keys.len() == 0 {
        let t = Seq::<Seq<char>>::empty();
        assert(t.to_set() =~= keys);
        t
    } else {
        let key = keys.choose();
        let s = lemma_listing_exists(keys.remove(key));
        assert(!s.to_set().contains(key));
        let t = lemma_listing_with(s, key);
        assert forall|k: Seq<char>| #[trigger] t.to_set().contains(k) <==> keys.contains(k) by {
            assert(s.to_set().contains(k) <==> keys.remove(key).contains(k));
            assert(t.contains(k) <==> s.contains(k) || k == key);
        }
        assert(t.to_set() =~= keys);
        t
    }
}

/// A finite set of keys, in order, is listed in full and without repetition.
pub proof fn lemma_in_order(keys: Set<Seq<char>>)
    requires
        keys.finite(),
    ensures
        ascending(in_order(keys)),
        in_order(keys).to_set() == keys,
{
    let t = lemma_listing_exists(keys);
    assert(ascending(t) && t.to_set() == keys);
}

/// A map from keys to values, ordered by key.
pub struct KeyMap<V: View> {
    entries: Vec<(String, V)>,
}

spec fn keys_of<V>(entries: Seq<(String, V)>) -> Seq<Seq<char>> {
    Seq::new(entries.len(), |i: int| entries[i].0@)
}

spec fn map_of<V: View>(entries: Seq<(String, V)>) -> Map<Seq<char>, V::V> {
    Map::new(
        |k: Seq<char>| keys_of(entries).contains(k),
        |k: Seq<char>| entries[keys_of(entries).index_of(k)].1@,
    )
}

proof fn lemma_at<V: View>(entries: Seq<(String, V)>, i: int)
    requires
        ascending(keys_of(entries)),
        0 <= i < entries.len(),
    ensures
        map_of(entries).contains_key(entries[i].0@),
        map_of(entries)[entries[i].0@] == entries[i].1@,
{
    let keys = keys_of(entries);
    let k = entries[i].0@;
    assert(keys[i] == k);
    let j = keys.index_of(k);
    assert(0 <= j < keys.len() && keys[j] == k);
    if i < j {
        assert(text_less(keys[i], keys[j]));
        crate::text::lemma_less_irreflexive(k);
    } else if j < i {
        assert(text_less(keys[j], keys[i]));
        crate::text::lemma_less_irreflexive(k);
    }
}

proof fn lemma_lists<V: View>(entries: Seq<(String, V)>)
    requires
        ascending(keys_of(entries)),
    ensures
        lists_keys(keys_of(entries), map_of(entries)),
{
    assert forall|i: int| 0 <= i < keys_of(entries).len() implies map_of(entries).contains_key(
        #[trigger] keys_of(entries)[i],
    ) by {
        lemma_at(entries, i);
    }
}

impl<V: View> View for KeyMap<V> {
    type V = Map<Seq<char>, V::V>;

    closed spec fn view(&self) -> Map<Seq<char>, V::V> {
        map_of(self.entries@)
    }
}

impl<V: View> KeyMap<V> {
    #[verifier::type_invariant]
    spec fn ordered(self) -> bool {
        ascending(keys_of(self.entries@))
    }

    /// The keys, in order.
    pub closed spec fn key_seq(&self) -> Seq<Seq<char>> {
        keys_of(self.entries@)
    }

    /// An empty map.
    pub fn new() -> (m: Self)
        ensures
            m@ == Map::<Seq<char>, V::V>::empty(),
            m.key_seq() == Seq::<Seq<char>>::empty(),
    {
        let m = KeyMap { entries: Vec::new() };
        assert(m@ =~= Map::<Seq<char>, V::V>::empty());
        m
    }

    /// How many keys there are.
    pub fn len(&self) -> (n: usize)
        ensures
            n == self.key_seq().len(),
            self.key_seq() == in_order(self@.dom()),
            lists_keys(self.key_seq(), self@),
    {
        proof {
            use_type_invariant(self);
            lemma_lists(self.entries@);
            lemma_in_order_unique(self.key_seq());
            assert(self.key_seq().to_set() =~= self@.dom());
        }
        self.entries.len()
    }

    /// The `i`-th key.
    pub fn key_at(&self, i: usize) -> (key: &String)
        requires
            i < self.key_seq().len(),
        ensures
            key@ == self.key_seq()[i as int],
    {
        &self.entries[i].0
    }

    /// The value of the `i`-th key.
    pub fn value_at(&self, i: usize) -> (value: &V)
        requires
            i < self.key_seq().len(),
        ensures
            value@ == self@[self.key_seq()[i as int]],
    {
        proof {
            use_type_invariant(self);
            lemma_at(self.entries@, i as int);
        }
        &self.entries[i].1
    }

    /// The first place whose key is not below `key`, and whether it holds `key`.
    fn seek(&self, key: &str) -> (place: (usize, bool))
        ensures
            place.0 <= self.entries@.len(),
            forall|i: int|
                0 <= i < place.0 ==> text_less(#[trigger] keys_of(self.entries@)[i], key@),
            place.1 ==> place.0 < self.entries@.len() && keys_of(self.entries@)[place.0 as int]
                == key@,
            !place.1 ==> forall|i: int|
                place.0 <= i < self.entries@.len() ==> text_less(
                    key@,
                    #[trigger] keys_of(self.entries@)[i],
                ),
            place.1 <==> self@.contains_key(key@),
    {
        proof {
            use_type_invariant(self);
        }
        let ghost keys = keys_of(self.entries@);
        let mut low: usize = 0;
        let mut high: usize = self.entries.len();
        while low < high
            invariant
                keys == keys_of(self.entries@),
                ascending(keys),
                low <= high <= self.entries@.len(),
                forall|i: int| 0 <= i < low ==> text_less(#[trigger] keys[i], key@),
                forall|i: int| high <= i < keys.len() ==> text_less(key@, #[trigger] keys[i]),
            decreases high - low,
        {
            let mid: usize = low + (high - low) / 2;
            assert(keys[mid as int] == self.entries@[mid as int].0@);
            match side_of(self.entries[mid].0.as_str(), key) {
                Side::Before => {
                    proof {
                        assert forall|i: int| 0 <= i < mid + 1 implies text_less(
                            #[trigger] keys[i],
                            key@,
                        ) by {
                            if i < mid {
                                crate::text::lemma_less_transitive(keys[i], keys[mid as int], key@);
                            }
                        }
                    }
                    low = mid + 1;
                },
                Side::Same => {
                    assert(keys.contains(key@));
                    return (mid, true);
                },
                Side::After => {
                    proof {
                        assert forall|i: int| mid <= i < keys.len() implies text_less(
                            key@,
                            #[trigger] keys[i],
                        ) by {
                            if mid < i {
                                crate::text::lemma_less_transitive(key@, keys[mid as int], keys[i]);
                            }
                        }
                    }
                    high = mid;
                },
            }
        }
        proof {
            if keys.contains(key@) {
                crate::text::lemma_less_irreflexive(key@);
                let j = keys.index_of(key@);
                assert(keys[j] == key@);
            }
        }
        (low, false)
    }

    /// Whether `key` is in the map.
    pub fn contains(&self, key: &str) -> (found: bool)
        ensures
            found == self@.contains_key(key@),
    {
        self.seek(key).1
    }

    /// The value of `key`, if it has one.
    pub fn get(&self, key: &str) -> (value: Option<&V>)
        ensures
            value is Some <==> self@.contains_key(key@),
            value matches Some(v) ==> v@ == self@[key@],
    {
        let (at, found) = self.seek(key);
        if found {
            proof {
                use_type_invariant(self);
                lemma_at(self.entries@, at as int);
                assert(keys_of(self.entries@)[at as int] == self.entries@[at as int].0@);
            }
            Some(&self.entries[at].1)
        } else {
            None
        }
    }

    /// Gives `key` the value `value`, in place of any that it had.
    pub fn insert(&mut self, key: String, value: V)
        ensures
            final(self)@ == old(self)@.insert(key@, value@),
    {
        let (at, found) = self.seek(key.as_str());
        proof {
            use_type_invariant(&*self);
        }
        let ghost before = self.entries@;
        let ghost entry = (key, value);
        let mut entries: Vec<(String, V)> = Vec::new();
        std::mem::swap(&mut entries, &mut self.entries);
        if found {
            entries.set(at, (key, value));
            proof {
                assert(keys_of(before)[at as int] == key@);
                assert(keys_of(entries@) =~= keys_of(before));
                lemma_replaced(before, at as int, entry);
            }
        } else {
            entries.insert(at, (key, value));
            proof {
                assert(entries@ == before.insert(at as int, entry));
                lemma_inserted(before, at as int, entry);
            }
        }
        self.entries = entries;
    }

    /// Takes `key` out of the map.
    pub fn remove(&mut self, key: &str)
        ensures
            final(self)@ == old(self)@.remove(key@),
    {
        let (at, found) = self.seek(key);
        proof {
            use_type_invariant(&*self);
        }
        if found {
            let ghost before = self.entries@;
            let mut entries: Vec<(String, V)> = Vec::new();
            std::mem::swap(&mut entries, &mut self.entries);
            let _gone = entries.remove(at);
            proof {
                assert(entries@ == before.remove(at as int));
                assert(keys_of(before)[at as int] == key@);
                lemma_removed(before, at as int);
            }
            self.entries = entries;
        } else {
            assert(self@ =~= self@.remove(key@));
        }
    }
}

proof fn lemma_replaced<V: View>(before: Seq<(String, V)>, at: int, entry: (String, V))
    requires
        ascending(keys_of(before)),
        0 <= at < before.len(),
        keys_of(before)[at] == entry.0@,
    ensures
        ascending(keys_of(before.update(at, entry))),
        map_of(before.update(at, entry)) == map_of(before).insert(entry.0@, entry.1@),
{
    let after = before.update(at, entry);
    assert(keys_of(after) =~= keys_of(before));
    assert forall|k: Seq<char>| map_of(after).contains_key(k) implies #[trigger] map_of(after)[k]
        == map_of(before).insert(entry.0@, entry.1@)[k] by {
        let j = keys_of(after).index_of(k);
        assert(keys_of(after)[j] == k);
        lemma_at(after, j);
        lemma_at(before, j);
        if k == entry.0@ {
            lemma_at(after, at);
        } else {
            assert(j != at);
        }
    }
    lemma_at(before, at);
    assert(map_of(after) =~= map_of(before).insert(entry.0@, entry.1@));
}

proof fn lemma_inserted<V: View>(before: Seq<(String, V)>, at: int, entry: (String, V))
    requires
        ascending(keys_of(before)),
        0 <= at <= before.len(),
        forall|i: int| 0 <= i < at ==> text_less(#[trigger] keys_of(before)[i], entry.0@),
        forall|i: int|
            at <= i < before.len() ==> text_less(entry.0@, #[trigger] keys_of(before)[i]),
    ensures
        ascending(keys_of(before.insert(at, entry))),
        map_of(before.insert(at, entry)) == map_of(before).insert(entry.0@, entry.1@),
{
    let after = before.insert(at, entry);
    let old_keys = keys_of(before);
    let new_keys = keys_of(after);
    assert(new_keys =~= old_keys.insert(at, entry.0@));
    assert forall|i: int, j: int| 0 <= i < j < new_keys.len() implies text_less(
        #[trigger] new_keys[i],
        #[trigger] new_keys[j],
    ) by {
        let a = if i < at {
            i
        } else {
            i - 1
        };
        let b = if j < at {
            j
        } else {
            j - 1
        };
        if i != at && j != at {
            assert(text_less(old_keys[a], old_keys[b]));
        } else if i == at {
            assert(text_less(entry.0@, old_keys[b]));
        } else {
            assert(text_less(old_keys[a], entry.0@));
        }
    }
    let want = map_of(before).insert(entry.0@, entry.1@);
    assert forall|k: Seq<char>| map_of(after).contains_key(k) <==> want.contains_key(k) by {
        if map_of(after).contains_key(k) {
            let j = new_keys.index_of(k);
            assert(new_keys[j] == k);
            if j != at {
                let b = if j < at {
                    j
                } else {
                    j - 1
                };
                assert(old_keys[b] == k);
            }
        }
        if want.contains_key(k) {
            if k == entry.0@ {
                assert(new_keys[at] == k);
            } else {
                let b = old_keys.index_of(k);
                assert(old_keys[b] == k);
                let j = if b < at {
                    b
                } else {
                    b + 1
                };
                assert(new_keys[j] == k);
            }
        }
    }
    assert forall|k: Seq<char>| map_of(after).contains_key(k) implies #[trigger] map_of(after)[k]
        == want[k] by {
        let j = new_keys.index_of(k);
        assert(new_keys[j] == k);
        lemma_at(after, j);
        if j == at {
            assert(k == entry.0@);
        } else {
            let b = if j < at {
                j
            } else {
                j - 1
            };
            lemma_at(before, b);
            crate::text::lemma_less_irreflexive(entry.0@);
            assert(old_keys[b] == k);
            assert(k != entry.0@);
        }
    }
    assert(map_of(after) =~= want);
}

proof fn lemma_removed<V: View>(before: Seq<(String, V)>, at: int)
    requires
        ascending(keys_of(before)),
        0 <= at < before.len(),
    ensures
        ascending(keys_of(before.remove(at))),
        map_of(before.remove(at)) == map_of(before).remove(keys_of(before)[at]),
{
    let after = before.remove(at);
    let old_keys = keys_of(before);
    let new_keys = keys_of(after);
    let gone = old_keys[at];
    assert(new_keys =~= old_keys.remove(at));
    assert forall|i: int, j: int| 0 <= i < j < new_keys.len() implies text_less(
        #[trigger] new_keys[i],
        #[trigger] new_keys[j],
    ) by {
        let a = if i < at {
            i
        } else {
            i + 1
        };
        let b = if j < at {
            j
        } else {
            j + 1
        };
        assert(text_less(old_keys[a], old_keys[b]));
    }
    let want = map_of(before).remove(gone);
    assert forall|k: Seq<char>| map_of(after).contains_key(k) <==> want.contains_key(k) by {
        if map_of(after).contains_key(k) {
            let j = new_keys.index_of(k);
            assert(new_keys[j] == k);
            let b = if j < at {
                j
            } else {
                j + 1
            };
            assert(old_keys[b] == k);
            crate::text::lemma_less_irreflexive(k);
            if b < at {
                assert(text_less(old_keys[b], old_keys[at]));
            } else {
                assert(text_less(old_keys[at], old_keys[b]));
            }
        }
        if want.contains_key(k) {
            let b = old_keys.index_of(k);
            assert(old_keys[b] == k);
            let j = if b < at {
                b
            } else {
                b - 1
            };
            assert(new_keys[j] == k);
        }
    }
    assert forall|k: Seq<char>| map_of(after).contains_key(k) implies #[trigger] map_of(after)[k]
        == want[k] by {
        let j = new_keys.index_of(k);
        assert(new_keys[j] == k);
        lemma_at(after, j);
        let b = if j < at {
            j
        } else {
            j + 1
        };
        lemma_at(before, b);
    }
    assert(map_of(after) =~= want);
}

/// A set of keys, ordered.
pub struct KeySet {
    members: KeyMap<bool>,
}

impl View for KeySet {
    type V = Set<Seq<char>>;

    closed spec fn view(&self) -> Set<Seq<char>> {
        self.members@.dom()
    }
}

impl KeySet {
    /// The keys, in order.
    pub closed spec fn key_seq(&self) -> Seq<Seq<char>> {
        self.members.key_seq()
    }

    /// An empty set.
    pub fn new() -> (s: Self)
        ensures
            s@ == Set::<Seq<char>>::empty(),
    {
        let s = KeySet { members: KeyMap::new() };
        assert(s@ =~= Set::<Seq<char>>::empty());
        s
    }

    /// How many keys there are.
    pub fn len(&self) -> (n: usize)
        ensures
            n == self.key_seq().len(),
            self.key_seq() == in_order(self@),
            ascending(self.key_seq()),
            self.key_seq().to_set() == self@,
    {
        let n: usize = self.members.len();
        assert(self.key_seq().to_set() =~= self@);
        n
    }

    /// The `i`-th key.
    pub fn key_at(&self, i: usize) -> (key: &String)
        requires
            i < self.key_seq().len(),
        ensures
            key@ == self.key_seq()[i as int],
    {
        self.members.key_at(i)
    }

    /// Whether `key` is in the set.
    pub fn contains(&self, key: &str) -> (found: bool)
        ensures
            found == self@.contains(key@),
    {
        self.members.contains(key)
    }

    /// Puts `key` into the set.
    pub fn insert(&mut self, key: String)
        ensures
            final(self)@ == old(self)@.insert(key@),
    {
        self.members.insert(key, true);
        assert(self@ =~= old(self)@.insert(key@));
    }
}

/// The keys of a finite set are listed once each, in the order of their characters.
pub proof fn law_keys_are_listed_in_order(keys: Set<Seq<char>>, key: Seq<char>, i: int, j: int)
    requires
        keys.finite(),
    ensures
        in_order(keys).contains(key) <==> keys.contains(key),
        0 <= i < j < in_order(keys).len() ==> text_less(in_order(keys)[i], in_order(keys)[j])
            && in_order(keys)[i] != in_order(keys)[j],
{
    lemma_in_order(keys);
    assert(in_order(keys).to_set().contains(key) <==> keys.contains(key));
    if 0 <= i < j < in_order(keys).len() {
        assert(text_less(in_order(keys)[i], in_order(keys)[j]));
        lemma_less_asymmetric(in_order(keys)[i], in_order(keys)[j]);
    }
}

} // verus!
