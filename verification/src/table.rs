//! Keyed collections that keep insertion order until an entry is removed.
//!
//! A [`Table`] keeps its entries in a vector and finds them through a hash
//! index from key to position, so lookups are hashed while a walk over the
//! entries does not depend on the hash order.

use bevy_platform::collections::HashMap;
use vstd::prelude::*;

verus! {

/// The hasher that `bevy_platform`'s collections use unless told otherwise.
#[verifier::external_type_specification]
#[verifier::external_body]
pub struct ExFixedHasher(bevy_platform::hash::FixedHasher);

/// `bevy_platform`'s hash map.
#[verifier::external_type_specification]
#[verifier::external_body]
#[verifier::reject_recursive_types(K)]
#[verifier::reject_recursive_types(V)]
#[verifier::reject_recursive_types(S)]
pub struct ExHashMap<K, V, S>(bevy_platform::collections::HashMap<K, V, S>);

/// What a hash map from names to numbers holds.
pub uninterp spec fn name_entries(map: HashMap<String, u64>) -> Map<Seq<char>, u64>;

/// What a hash map from numbers to numbers holds.
pub uninterp spec fn id_entries(map: HashMap<u64, u64>) -> Map<u64, u64>;

/// What a hash map from pairs of a number and a name to numbers holds.
pub uninterp spec fn pair_entries(map: HashMap<(u64, String), u64>) -> Map<(u64, Seq<char>), u64>;

/// The value of `key` in `entries`, if it has one.
pub open spec fn entry_of<K>(entries: Map<K, u64>, key: K) -> Option<u64> {
    if entries.contains_key(key) {
        Some(entries[key])
    } else {
        None
    }
}

/// `HashMap::new`: the map holds nothing.
#[verifier::external_body]
fn name_map_new() -> (map: HashMap<String, u64>)
    ensures
        name_entries(map).is_empty(),
{
    HashMap::new()
}

/// `HashMap::get`: the value stored under `key`, if there is one.
#[verifier::external_body]
fn name_map_get(map: &HashMap<String, u64>, key: &str) -> (value: Option<u64>)
    ensures
        value == entry_of(name_entries(*map), key@),
{
    map.get(key).copied()
}

/// `HashMap::insert`: `value` is stored under `key`, in place of what was
/// there; the other entries stay.
#[verifier::external_body]
fn name_map_insert(map: &mut HashMap<String, u64>, key: String, value: u64)
    ensures
        name_entries(*final(map)) == name_entries(*old(map)).insert(key@, value),
{
    map.insert(key, value);
}

/// `HashMap::remove`: nothing is stored under `key` any more; the other
/// entries stay.
#[verifier::external_body]
fn name_map_remove(map: &mut HashMap<String, u64>, key: &str)
    ensures
        name_entries(*final(map)) == name_entries(*old(map)).remove(key@),
{
    map.remove(key);
}

/// `HashMap::clone`: the copy holds what the map holds.
#[verifier::external_body]
fn name_map_clone(map: &HashMap<String, u64>) -> (copy: HashMap<String, u64>)
    ensures
        name_entries(copy) == name_entries(*map),
{
    map.clone()
}

/// `HashMap::new`: the map holds nothing.
#[verifier::external_body]
fn id_map_new() -> (map: HashMap<u64, u64>)
    ensures
        id_entries(map).is_empty(),
{
    HashMap::new()
}

/// `HashMap::get`: the value stored under `key`, if there is one.
#[verifier::external_body]
fn id_map_get(map: &HashMap<u64, u64>, key: u64) -> (value: Option<u64>)
    ensures
        value == entry_of(id_entries(*map), key),
{
    map.get(&key).copied()
}

/// `HashMap::insert`: `value` is stored under `key`, in place of what was
/// there; the other entries stay.
#[verifier::external_body]
fn id_map_insert(map: &mut HashMap<u64, u64>, key: u64, value: u64)
    ensures
        id_entries(*final(map)) == id_entries(*old(map)).insert(key, value),
{
    map.insert(key, value);
}

/// `HashMap::remove`: nothing is stored under `key` any more; the other
/// entries stay.
#[verifier::external_body]
fn id_map_remove(map: &mut HashMap<u64, u64>, key: u64)
    ensures
        id_entries(*final(map)) == id_entries(*old(map)).remove(key),
{
    map.remove(&key);
}

/// `HashMap::new`: the map holds nothing.
#[verifier::external_body]
fn pair_map_new() -> (map: HashMap<(u64, String), u64>)
    ensures
        pair_entries(map).is_empty(),
{
    HashMap::new()
}

/// `HashMap::get`: the value stored under `key`, if there is one.
#[verifier::external_body]
fn pair_map_get(map: &HashMap<(u64, String), u64>, key: &(u64, String)) -> (value: Option<u64>)
    ensures
        value == entry_of(pair_entries(*map), key@),
{
    map.get(key).copied()
}

/// `HashMap::insert`: `value` is stored under `key`, in place of what was
/// there; the other entries stay.
#[verifier::external_body]
fn pair_map_insert(map: &mut HashMap<(u64, String), u64>, key: (u64, String), value: u64)
    ensures
        pair_entries(*final(map)) == pair_entries(*old(map)).insert(key@, value),
{
    map.insert(key, value);
}

/// `HashMap::remove`: nothing is stored under `key` any more; the other
/// entries stay.
#[verifier::external_body]
fn pair_map_remove(map: &mut HashMap<(u64, String), u64>, key: &(u64, String))
    ensures
        pair_entries(*final(map)) == pair_entries(*old(map)).remove(key@),
{
    map.remove(key);
}

/// A hash index from keys to positions.
pub trait Index: Sized {
    /// The key type.
    type Key: View;

    /// The positions the index holds, by key.
    spec fn slots(&self) -> Map<<Self::Key as View>::V, u64>;

    /// An index that holds nothing.
    fn empty() -> (index: Self)
        ensures
            index.slots() == Map::<<Self::Key as View>::V, u64>::empty(),
    ;

    /// A key equal to `key`.
    fn copy_key(key: &Self::Key) -> (copy: Self::Key)
        ensures
            copy@ == key@,
    ;

    /// The position held for `key`, if any.
    fn find(&self, key: &Self::Key) -> (slot: Option<u64>)
        ensures
            slot == entry_of(self.slots(), key@),
    ;

    /// Holds `slot` for `key`.
    fn put(&mut self, key: &Self::Key, slot: u64)
        ensures
            final(self).slots() == old(self).slots().insert(key@, slot),
    ;

    /// Holds nothing for `key`.
    fn erase(&mut self, key: &Self::Key)
        ensures
            final(self).slots() == old(self).slots().remove(key@),
    ;
}

/// An index by name.
#[derive(Debug)]
pub struct NameIndex {
    map: HashMap<String, u64>,
}

impl Index for NameIndex {
    type Key = String;

    closed spec fn slots(&self) -> Map<Seq<char>, u64> {
        name_entries(self.map)
    }

    fn empty() -> (index: Self) {
        let index = NameIndex { map: name_map_new() };
        assert(index.slots() =~= Map::<Seq<char>, u64>::empty());
        index
    }

    fn copy_key(key: &String) -> (copy: String) {
        key.clone()
    }

    fn find(&self, key: &String) -> (slot: Option<u64>) {
        name_map_get(&self.map, key.as_str())
    }

    fn put(&mut self, key: &String, slot: u64) {
        name_map_insert(&mut self.map, key.clone(), slot);
    }

    fn erase(&mut self, key: &String) {
        name_map_remove(&mut self.map, key.as_str());
    }
}

impl Clone for NameIndex {
    fn clone(&self) -> (copy: NameIndex)
        ensures
            copy.slots() == self.slots(),
    {
        NameIndex { map: name_map_clone(&self.map) }
    }
}

/// An index by number.
#[derive(Debug)]
pub struct IdIndex {
    map: HashMap<u64, u64>,
}

impl Index for IdIndex {
    type Key = u64;

    closed spec fn slots(&self) -> Map<u64, u64> {
        id_entries(self.map)
    }

    fn empty() -> (index: Self) {
        let index = IdIndex { map: id_map_new() };
        assert(index.slots() =~= Map::<u64, u64>::empty());
        index
    }

    fn copy_key(key: &u64) -> (copy: u64) {
        *key
    }

    fn find(&self, key: &u64) -> (slot: Option<u64>) {
        id_map_get(&self.map, *key)
    }

    fn put(&mut self, key: &u64, slot: u64) {
        id_map_insert(&mut self.map, *key, slot);
    }

    fn erase(&mut self, key: &u64) {
        id_map_remove(&mut self.map, *key);
    }
}

/// An index by pairs of a number and a name.
#[derive(Debug)]
pub struct PairIndex {
    map: HashMap<(u64, String), u64>,
}

impl Index for PairIndex {
    type Key = (u64, String);

    closed spec fn slots(&self) -> Map<(u64, Seq<char>), u64> {
        pair_entries(self.map)
    }

    fn empty() -> (index: Self) {
        let index = PairIndex { map: pair_map_new() };
        assert(index.slots() =~= Map::<(u64, Seq<char>), u64>::empty());
        index
    }

    fn copy_key(key: &(u64, String)) -> (copy: (u64, String)) {
        (key.0, key.1.clone())
    }

    fn find(&self, key: &(u64, String)) -> (slot: Option<u64>) {
        pair_map_get(&self.map, key)
    }

    fn put(&mut self, key: &(u64, String), slot: u64) {
        pair_map_insert(&mut self.map, (key.0, key.1.clone()), slot);
    }

    fn erase(&mut self, key: &(u64, String)) {
        pair_map_remove(&mut self.map, key);
    }
}

/// The list without its entry at `i`, whose place the last one takes.
pub open spec fn last_moved<K>(list: Seq<K>, i: int) -> Seq<K> {
    list.update(i, list.last()).drop_last()
}

/// Entries found by key, in insertion order until one is removed: the last one
/// then takes its place.
#[derive(Debug)]
pub struct Table<I: Index, V> {
    index: I,
    items: Vec<(I::Key, V)>,
}

/// A table by name.
pub type NameTable<V> = Table<NameIndex, V>;

/// A table by number.
pub type IdTable<V> = Table<IdIndex, V>;

/// A table by pairs of a number and a name.
pub type PairTable<V> = Table<PairIndex, V>;

impl<I: Index, V> Table<I, V> {
    /// The index and the entries agree: each entry is found at its position,
    /// and the index leads nowhere else.
    pub closed spec fn wf(&self) -> bool {
        &&& forall|i: int|
            0 <= i < self.items@.len() ==> {
                &&& self.index.slots().contains_key((#[trigger] self.items@[i]).0@)
                &&& self.index.slots()[self.items@[i].0@] == i
            }
        &&& forall|k: <I::Key as View>::V| #[trigger]
            self.index.slots().contains_key(k) ==> {
                &&& (self.index.slots()[k] as int) < self.items@.len()
                &&& self.items@[self.index.slots()[k] as int].0@ == k
            }
    }

    /// The entries, by key.
    pub closed spec fn view(&self) -> Map<<I::Key as View>::V, V> {
        Map::new(
            |k: <I::Key as View>::V| self.index.slots().contains_key(k),
            |k: <I::Key as View>::V| self.items@[self.index.slots()[k] as int].1,
        )
    }

    /// The keys, in the order in which a walk meets them.
    pub closed spec fn keys(&self) -> Seq<<I::Key as View>::V> {
        self.items@.map_values(|item: (I::Key, V)| item.0@)
    }

    /// The walk meets every key once, and the table is finite.
    pub proof fn lemma_keys(&self)
        requires
            self.wf(),
        ensures
            self.keys().no_duplicates(),
            self.keys().to_set() == self@.dom(),
            self@.dom().finite(),
            forall|k: <I::Key as View>::V| self@.contains_key(k) <==> #[trigger] self.keys().contains(k),
    {
        assert forall|k: <I::Key as View>::V| self@.contains_key(k) implies #[trigger] self.keys().contains(k) by {
            let i = self.index.slots()[k] as int;
            assert(self.index.slots().contains_key(k));
            assert(self.keys()[i] == k);
        }
        assert forall|k: <I::Key as View>::V| #[trigger] self.keys().contains(k) implies self@.contains_key(k) by {
            let i = choose|i: int| 0 <= i < self.keys().len() && self.keys()[i] == k;
            assert(self.items@[i].0@ == k);
        }
        assert(self.keys().to_set() =~= self@.dom());
        vstd::seq_lib::seq_to_set_is_finite(self.keys());
        assert forall|i: int, j: int| 0 <= i < self.keys().len() && 0 <= j < self.keys().len() && i != j implies
            self.keys()[i] != self.keys()[j] by {
            assert(self.items@[i].0@ == self.keys()[i]);
            assert(self.items@[j].0@ == self.keys()[j]);
        }
    }

    /// A table without entries.
    pub fn new() -> (table: Self)
        ensures
            table.wf(),
            table@ == Map::<<I::Key as View>::V, V>::empty(),
            table.keys() == Seq::<<I::Key as View>::V>::empty(),
    {
        let table = Table { index: I::empty(), items: Vec::new() };
        assert(table@ =~= Map::<<I::Key as View>::V, V>::empty());
        assert(table.keys() =~= Seq::<<I::Key as View>::V>::empty());
        table
    }

    /// The number of entries.
    pub fn len(&self) -> (n: usize)
        ensures
            n == self.keys().len(),
    {
        self.items.len()
    }

    /// The key that a walk meets at position `i`.
    pub fn key_at(&self, i: usize) -> (key: &I::Key)
        requires
            i < self.keys().len(),
        ensures
            key@ == self.keys()[i as int],
    {
        &self.items[i].0
    }

    /// The value that a walk meets at position `i`.
    pub fn value_at(&self, i: usize) -> (value: &V)
        requires
            self.wf(),
            i < self.keys().len(),
        ensures
            self@.contains_key(self.keys()[i as int]),
            *value == self@[self.keys()[i as int]],
    {
        assert(self.items@[i as int].0@ == self.keys()[i as int]);
        &self.items[i].1
    }

    /// The position at which a walk meets `key`.
    pub fn position(&self, key: &I::Key) -> (i: Option<usize>)
        requires
            self.wf(),
        ensures
            match i {
                Some(i) => i < self.keys().len() && self.keys()[i as int] == key@,
                None => !self@.contains_key(key@),
            },
    {
        let n: usize = self.items.len();
        match self.index.find(key) {
            Some(i) => {
                assert(self.index.slots().contains_key(key@));
                assert(i < n);
                assert(self.keys()[i as int] == key@);
                Some(i as usize)
            },
            None => None,
        }
    }

    /// Whether there is an entry under `key`.
    pub fn contains(&self, key: &I::Key) -> (r: bool)
        ensures
            r == self@.contains_key(key@),
    {
        self.index.find(key).is_some()
    }

    /// The value under `key`.
    pub fn get(&self, key: &I::Key) -> (value: Option<&V>)
        requires
            self.wf(),
        ensures
            match value {
                Some(v) => self@.contains_key(key@) && *v == self@[key@],
                None => !self@.contains_key(key@),
            },
    {
        let n: usize = self.items.len();
        match self.index.find(key) {
            Some(i) => {
                assert(self.index.slots().contains_key(key@));
                assert(i < n);
                Some(&self.items[i as usize].1)
            },
            None => None,
        }
    }

    /// The value under `key`, for writing.
    pub fn get_mut(&mut self, key: &I::Key) -> (value: Option<&mut V>)
        requires
            old(self).wf(),
        ensures
            match value {
                Some(v) => {
                    &&& old(self)@.contains_key(key@)
                    &&& *v == old(self)@[key@]
                    &&& final(self).wf()
                    &&& final(self)@ == old(self)@.insert(key@, *final(v))
                    &&& final(self).keys() == old(self).keys()
                },
                None => !old(self)@.contains_key(key@) && *final(self) == *old(self),
            },
    {
        let n: usize = self.items.len();
        match self.index.find(key) {
            Some(i) => {
                assert(self.index.slots().contains_key(key@));
                assert(i < n);
                Some(&mut self.items[i as usize].1)
            },
            None => None,
        }
    }

    /// Stores `value` under `key`, in place of what was there.
    pub fn insert(&mut self, key: I::Key, value: V)
        requires
            old(self).wf(),
        ensures
            final(self).wf(),
            final(self)@ == old(self)@.insert(key@, value),
            final(self).keys() == (if old(self)@.contains_key(key@) {
                old(self).keys()
            } else {
                old(self).keys().push(key@)
            }),
    {
        let n: usize = self.items.len();
        match self.index.find(&key) {
            Some(i) => {
                assert(self.index.slots().contains_key(key@));
                assert(i < n);
                self.items[i as usize].1 = value;
                assert(self@ =~= old(self)@.insert(key@, value));
                assert(self.keys() =~= old(self).keys());
            },
            None => {
                let copy = I::copy_key(&key);
                self.index.put(&copy, n as u64);
                self.items.push((key, value));
                assert forall|i: int| 0 <= i < self.items@.len() implies {
                    &&& self.index.slots().contains_key((#[trigger] self.items@[i]).0@)
                    &&& self.index.slots()[self.items@[i].0@] == i
                } by {
                    if i < n {
                        assert(self.items@[i] == old(self).items@[i]);
                    }
                }
                assert(self@ =~= old(self)@.insert(key@, value));
                assert(self.keys() =~= old(self).keys().push(key@));
            },
        }
    }

    /// Takes the entry under `key` out. The last entry of the walk moves to
    /// its place.
    pub fn remove(&mut self, key: &I::Key) -> (value: Option<V>)
        requires
            old(self).wf(),
        ensures
            final(self).wf(),
            final(self)@ == old(self)@.remove(key@),
            match value {
                Some(v) => {
                    &&& old(self)@.contains_key(key@)
                    &&& v == old(self)@[key@]
                    &&& forall|i: int|
                        0 <= i < old(self).keys().len() && #[trigger] old(self).keys()[i] == key@ ==> final(self).keys()
                            == last_moved(old(self).keys(), i)
                },
                None => !old(self)@.contains_key(key@) && final(self).keys() == old(self).keys(),
            },
    {
        let n: usize = self.items.len();
        match self.index.find(key) {
            Some(i) => {
                assert(self.index.slots().contains_key(key@));
                assert(i < n);
                let at: usize = i as usize;
                self.index.erase(key);
                let removed = self.items.swap_remove(at);
                if at < self.items.len() {
                    let moved = I::copy_key(&self.items[at].0);
                    assert(old(self).items@[n - 1].0@ == moved@);
                    self.index.put(&moved, i);
                }
                assert forall|j: int| 0 <= j < self.items@.len() implies {
                    &&& self.index.slots().contains_key((#[trigger] self.items@[j]).0@)
                    &&& self.index.slots()[self.items@[j].0@] == j
                } by {
                    if j != at {
                        assert(self.items@[j] == old(self).items@[j]);
                        assert(old(self).items@[j].0@ != old(self).items@[at as int].0@);
                    } else {
                        assert(self.items@[j] == old(self).items@[n - 1]);
                    }
                }
                assert forall|k: <I::Key as View>::V| #[trigger] self.index.slots().contains_key(k) implies {
                    &&& (self.index.slots()[k] as int) < self.items@.len()
                    &&& self.items@[self.index.slots()[k] as int].0@ == k
                } by {
                    assert(old(self).index.slots().contains_key(k));
                    let j = old(self).index.slots()[k] as int;
                    assert(old(self).items@[j].0@ == k);
                    if j == n - 1 {
                        if at == n - 1 {
                            assert(k == key@);
                        }
                    } else {
                        assert(j != at);
                        assert(self.items@[j] == old(self).items@[j]);
                        assert(old(self).items@[n - 1].0@ != k);
                    }
                }
                assert forall|k: <I::Key as View>::V| #[trigger] old(self)@.contains_key(k) && k != key@ implies
                    self@.contains_key(k) && self@[k] == old(self)@[k] by {
                    let j = old(self).index.slots()[k] as int;
                    assert(old(self).index.slots().contains_key(k));
                    assert(old(self).items@[j].0@ == k);
                    if j != n - 1 {
                        assert(old(self).items@[n - 1].0@ != k);
                        assert(self.items@[j] == old(self).items@[j]);
                    }
                }
                assert(self@ =~= old(self)@.remove(key@));
                assert forall|j: int|
                    0 <= j < old(self).keys().len() && #[trigger] old(self).keys()[j] == key@ implies self.keys()
                    == last_moved(old(self).keys(), j) by {
                    assert(old(self).items@[j].0@ == key@);
                    assert(j == at);
                    assert(self.keys() =~= last_moved(old(self).keys(), j));
                }
                Some(removed.1)
            },
            None => {
                assert(self@ =~= old(self)@.remove(key@));
                None
            },
        }
    }
}

} // verus!
