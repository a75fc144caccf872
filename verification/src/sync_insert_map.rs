//! A hash map on top of a table that elements are only added to.

pub mod laws;

use crate::contents;
use crate::raw::table::TableRef;
use crate::sync_insert_table::{self as raw, RawIter, SyncInsertTable};
use crate::util::{make_insert_hash, HashBuilder};
use vstd::prelude::*;
use vstd::set_lib;

verus! {

/// A hash map that keys are only added to.
pub struct SyncInsertMap<K, V, S> {
    table: SyncInsertTable<(K, V), S>,
}

/// The map after the value of a key has been set. A key that equals it is kept in its place.
pub open spec fn set_value<K: Eq, V>(map: Map<K, V>, key: K, value: V) -> Map<K, V> {
    if contents::has_key(map, key) {
        map.insert(the_key(map, key), value)
    } else {
        map.insert(key, value)
    }
}

/// The key of the map that equals `key`.
pub open spec fn the_key<K: Eq, V>(map: Map<K, V>, key: K) -> K {
    choose|k: K| #[trigger] map.contains_key(k) && contents::same_key(key, k)
}

/// The map after the values of the pairs have been set one after the other.
pub open spec fn set_all<K: Eq, V>(map: Map<K, V>, pairs: Seq<(K, V)>) -> Map<K, V>
    decreases pairs.len(),
{
    if pairs.len() == 0 {
        map
    } else {
        let before = set_all(map, pairs.drop_last());
        set_value(before, pairs.last().0, pairs.last().1)
    }
}

/// Whether a map is the same as another, or one of clones of its keys and values.
pub open spec fn same_or_cloned<K: Clone, V: Clone>(map: Map<K, V>, other: Map<K, V>) -> bool {
    map == other || contents::cloned_map(map, other)
}

/// Whether the values of the pairs have been set one after the other, with the map possibly being
/// cloned before each of them.
pub open spec fn set_all_cloning<K: Eq + Clone, V: Clone>(
    map: Map<K, V>,
    pairs: Seq<(K, V)>,
    after: Map<K, V>,
) -> bool
    decreases pairs.len(),
{
    if pairs.len() == 0 {
        same_or_cloned(map, after)
    } else {
        exists|before: Map<K, V>, copy: Map<K, V>|
            {
                &&& #[trigger] same_or_cloned(before, copy)
                &&& set_all_cloning(map, pairs.drop_last(), before)
                &&& after == set_value(copy, pairs.last().0, pairs.last().1)
            }
    }
}

/// If clones are the same as what they are clones of, the values of the pairs have simply been set
/// one after the other.
pub proof fn exact_clones_set_all<K: Eq + Clone, V: Clone>(
    map: Map<K, V>,
    pairs: Seq<(K, V)>,
    after: Map<K, V>,
)
    requires
        set_all_cloning(map, pairs, after),
        forall|a: K, b: K| #[trigger] cloned::<K>(a, b) ==> a == b,
        forall|a: V, b: V| #[trigger] cloned::<V>(a, b) ==> a == b,
    ensures
        after == set_all(map, pairs),
    decreases pairs.len(),
{
    if pairs.len() == 0 {
        if map != after {
            contents::exact_clones_make_the_same_map(map, after);
        }
    } else {
        let (before, copy) = choose|before: Map<K, V>, copy: Map<K, V>|
            {
                &&& #[trigger] same_or_cloned(before, copy)
                &&& set_all_cloning(map, pairs.drop_last(), before)
                &&& after == set_value(copy, pairs.last().0, pairs.last().1)
            };
        exact_clones_set_all(map, pairs.drop_last(), before);
        if before != copy {
            contents::exact_clones_make_the_same_map(before, copy);
        }
    }
}

impl<K: Eq, V, S: HashBuilder<K>> SyncInsertMap<K, V, S> {
    /// The keys and values in the map.
    pub closed spec fn view(self) -> Map<K, V> {
        self.table.map()
    }

    /// Whether the map is consistent.
    pub closed spec fn wf(self) -> bool {
        self.table.map_wf()
    }

    /// The map's hasher.
    pub closed spec fn builder(self) -> S {
        self.table.builder()
    }

    /// The table that holds the pairs.
    pub closed spec fn table(self) -> TableRef<(K, V)> {
        self.table.table()
    }

    /// The number of pairs that can be added without another table.
    pub open spec fn room(self) -> usize {
        self.table().info.growth_left
    }

    /// What a consistent map says of its keys.
    pub proof fn lemma_wf(self)
        requires
            self.wf(),
        ensures
            contents::lawful::<K, S>(self.builder()),
            self@.dom().finite(),
            self@.len() == self.table().len(),
            self@.len() <= usize::MAX,
            self@.len() + self.room() == raw::capacity_of(self.table().n()),
            forall|key: K, k: K|
                #![trigger contents::same_key(key, k)]
                self@.contains_key(k) && contents::same_key(key, k) ==> the_key(self@, key) == k,
    {
        self.table.lemma_map();
        assert forall|key: K, k: K|
            #![trigger contents::same_key(key, k)]
            self@.contains_key(k) && contents::same_key(key, k) implies the_key(self@, key)
            == k by {
            let other = the_key(self@, key);
            assert(self@.contains_key(other) && contents::same_key(key, other));
            let i = contents::lemma_entry_of_key(self.table.table().items(), k);
            let j = contents::lemma_entry_of_key(self.table.table().items(), other);
            assert(contents::same_key(k, key));
            assert(contents::same_key(k, other));
            if i != j {
                assert(!contents::same_key(
                    self.table.table().items()[i].0,
                    self.table.table().items()[j].0,
                ));
            }
        }
    }

    /// Creates an empty map which will use the given hash builder to hash keys.
    ///
    /// The map is initially created with a capacity of 0, so it will not allocate until it is first
    /// inserted into.
    pub fn with_hasher(hash_builder: S) -> (r: Self)
        requires
            contents::lawful::<K, S>(hash_builder),
        ensures
            r.wf(),
            r@ == Map::<K, V>::empty(),
            r.builder() == hash_builder,
            r.table().n() == 1,
    {
        Self::with_capacity_and_hasher(0, hash_builder)
    }

    /// Creates an empty map with the specified capacity, using `hash_builder` to hash the keys.
    ///
    /// The map will be able to hold at least `capacity` elements without
    /// reallocating. If `capacity` is 0, the map will not allocate.
    pub fn with_capacity_and_hasher(capacity: usize, hash_builder: S) -> (r: Self)
        requires
            contents::lawful::<K, S>(hash_builder),
            capacity > 0 ==> raw::can_allocate::<(K, V)>(capacity as int),
        ensures
            r.wf(),
            r@ == Map::<K, V>::empty(),
            r.builder() == hash_builder,
            r.room() >= capacity,
            capacity == 0 ==> r.table().n() == 1,
            capacity > 0 ==> raw::buckets_for(capacity as int, r.table().n()),
    {
        let table = SyncInsertTable::new_with(hash_builder, capacity);
        proof {
            table.lemma_empty_map();
        }
        SyncInsertMap { table }
    }

    /// Creates an empty map.
    pub fn new() -> (r: Self) where S: Default
        requires
            forall|s: S| call_ensures(S::default, (), s) ==> contents::lawful::<K, S>(s),
        ensures
            r.wf(),
            r@ == Map::<K, V>::empty(),
            call_ensures(S::default, (), r.builder()),
            r.table().n() == 1,
    {
        Self::with_hasher(S::default())
    }

    /// Creates an empty map with the specified capacity.
    pub fn with_capacity(capacity: usize) -> (r: Self) where S: Default
        requires
            forall|s: S| call_ensures(S::default, (), s) ==> contents::lawful::<K, S>(s),
            capacity > 0 ==> raw::can_allocate::<(K, V)>(capacity as int),
        ensures
            r.wf(),
            r@ == Map::<K, V>::empty(),
            call_ensures(S::default, (), r.builder()),
            r.room() >= capacity,
            capacity == 0 ==> r.table().n() == 1,
            capacity > 0 ==> raw::buckets_for(capacity as int, r.table().n()),
    {
        Self::with_capacity_and_hasher(capacity, S::default())
    }

    /// Returns a reference to the map's hasher.
    pub fn hasher(&self) -> (r: &S)
        ensures
            *r == self.builder(),
    {
        self.table.get_hasher()
    }

    /// Returns the number of elements the map can hold without reallocating.
    pub fn capacity(&self) -> (r: usize)
        requires
            self.wf(),
        ensures
            r == self@.len() + self.room(),
    {
        proof {
            self.lemma_wf();
        }
        self.table.capacity()
    }

    /// Returns the number of buckets of the map.
    pub fn raw_capacity(&self) -> (r: usize)
        requires
            self.wf(),
        ensures
            r == self.table().n(),
    {
        self.table.buckets()
    }

    /// Returns the number of elements in the map.
    pub fn len(&self) -> (r: usize)
        requires
            self.wf(),
        ensures
            r == self@.len(),
    {
        proof {
            self.lemma_wf();
        }
        self.table.len()
    }

    /// Returns `true` if the map contains no elements.
    pub fn is_empty(&self) -> (r: bool)
        requires
            self.wf(),
        ensures
            r == (self@ == Map::<K, V>::empty()),
    {
        proof {
            self.lemma_wf();
            if self@.len() == 0 {
                self@.dom().lemma_len0_is_empty();
                assert(self@ =~= Map::<K, V>::empty());
            }
        }
        self.len() == 0
    }

    /// An iterator visiting all key-value pairs in arbitrary order.
    pub fn iter(&self) -> (r: Iter<'_, K, V>)
        requires
            self.wf(),
        ensures
            r.wf(),
            contents::distinct(contents::entries_of(r.rest())),
            contents::contents(contents::entries_of(r.rest())) == self@,
            r.rest().len() == self@.len(),
    {
        proof {
            contents::lemma_pairs(self.table.table());
        }
        let r = Iter { inner: self.table.iter() };
        assert(r.rest() =~= contents::pairs(self.table.table()));
        r
    }

    fn get_inner(&self, k: &K) -> (r: Option<&(K, V)>)
        requires
            self.wf(),
        ensures
            match r {
                Some(pair) => {
                    &&& self@.contains_key(pair.0)
                    &&& self@[pair.0] == pair.1
                    &&& contents::same_key(*k, pair.0)
                },
                None => !contents::has_key(self@, *k),
            },
    {
        let hash: u64 = make_insert_hash(self.table.get_hasher(), k);
        match self.table.map_find(k, hash) {
            Some(bucket) => Some(self.table.map_pair(bucket)),
            None => None,
        }
    }

    /// Returns a reference to the value corresponding to the key.
    pub fn get(&self, k: &K) -> (r: Option<&V>)
        requires
            self.wf(),
        ensures
            match r {
                Some(v) => contents::has_key(self@, *k) && *v == self@[the_key(self@, *k)],
                None => !contents::has_key(self@, *k),
            },
    {
        proof {
            self.lemma_wf();
        }
        match self.get_inner(k) {
            Some(pair) => Some(&pair.1),
            None => None,
        }
    }

    /// Returns the key-value pair corresponding to the supplied key.
    pub fn get_key_value(&self, k: &K) -> (r: Option<(&K, &V)>)
        requires
            self.wf(),
        ensures
            match r {
                Some((key, v)) => {
                    &&& self@.contains_key(*key)
                    &&& self@[*key] == *v
                    &&& contents::same_key(*k, *key)
                },
                None => !contents::has_key(self@, *k),
            },
    {
        match self.get_inner(k) {
            Some(pair) => Some((&pair.0, &pair.1)),
            None => None,
        }
    }

    /// Returns `true` if the map contains a value for the specified key.
    pub fn contains_key(&self, k: &K) -> (r: bool)
        requires
            self.wf(),
        ensures
            r == contents::has_key(self@, *k),
    {
        self.get_inner(k).is_some()
    }
}

impl<K: Eq + Clone, V: Clone, S: HashBuilder<K>> SyncInsertMap<K, V, S> {
    /// Whether this is `before` after room for `additional` more elements has been made, if there was
    /// not enough.
    pub open spec fn reserved(self, before: Self, additional: int) -> bool {
        if before.room() >= additional {
            self == before
        } else {
            &&& self.builder() == before.builder()
            &&& contents::cloned_map(before@, self@)
            &&& raw::buckets_for(before@.len() + additional, self.table().n())
            &&& self.room() >= additional
        }
    }

    /// Whether room for `additional` more elements can be made, if it has to be.
    pub open spec fn can_reserve(self, additional: int) -> bool {
        &&& self@.len() + additional <= usize::MAX
        &&& self.room() < additional ==> raw::can_allocate::<(K, V)>(self@.len() + additional)
    }

    /// Whether room for `additional` more elements can be made, if it has to be.
    pub fn may_reserve(&self, additional: usize) -> (r: bool)
        requires
            self.wf(),
        ensures
            r == self.can_reserve(additional as int),
    {
        proof {
            self.lemma_wf();
        }
        match self.len().checked_add(additional) {
            Some(total) => self.capacity() - self.len() >= additional || SyncInsertTable::<
                (K, V),
                S,
            >::can_allocate(total),
            None => false,
        }
    }

    /// Reserves capacity for at least `additional` more elements to be inserted.
    pub fn reserve(&mut self, additional: usize)
        requires
            old(self).wf(),
            old(self).room() < additional ==> contents::clones_keep_keys::<K>(),
            old(self).can_reserve(additional as int),
        ensures
            final(self).wf(),
            final(self).reserved(*old(self), additional as int),
            final(self)@.len() == old(self)@.len(),
            final(self).room() >= additional,
    {
        proof {
            self.lemma_wf();
        }
        self.table.map_reserve(additional);
        proof {
            self.lemma_wf();
        }
    }

    /// Inserts a key-value pair into the map.
    ///
    /// If the map did not have this key present, `None` is returned. If the map did have this key
    /// present, the value is updated, and the old value is returned. The key is not updated.
    pub fn insert(&mut self, k: K, v: V) -> (r: Option<V>)
        requires
            old(self).wf(),
            old(self).room() == 0 && !contents::has_key(old(self)@, k) ==> {
                &&& contents::clones_keep_keys::<K>()
                &&& raw::can_allocate::<(K, V)>(old(self)@.len() as int + 1)
            },
        ensures
            final(self).wf(),
            final(self).builder() == old(self).builder(),
            match r {
                Some(value) => {
                    &&& contents::has_key(old(self)@, k)
                    &&& value == old(self)@[the_key(old(self)@, k)]
                    &&& final(self)@ == set_value(old(self)@, k, v)
                    &&& final(self).table().info == old(self).table().info
                },
                None => {
                    &&& !contents::has_key(old(self)@, k)
                    &&& exists|reserved: Self| #[trigger]
                        reserved.reserved(*old(self), 1) && final(self)@ == reserved@.insert(k, v)
                            && final(self).room() == reserved.room() - 1
                            && final(self).table().n() == reserved.table().n()
                },
            },
    {
        let hash: u64 = make_insert_hash(self.table.get_hasher(), &k);
        proof {
            self.lemma_wf();
        }
        match self.table.map_find(&k, hash) {
            Some(bucket) => {
                let old_value = self.table.map_replace(bucket, v);
                Some(old_value)
            },
            None => {
                self.reserve(1);
                let ghost reserved = *self;
                proof {
                    if old(self).room() == 0 {
                        contents::lemma_cloned_has_key::<K, V, S>(
                            self.builder(),
                            old(self)@,
                            reserved@,
                            k,
                        );
                    }
                }
                self.table.map_add(k, v, hash);
                None
            },
        }
    }
}

impl<K: Eq + Clone, V: Clone, S: HashBuilder<K>> SyncInsertMap<K, V, S> {
    /// Whether this is `before` after the values of the pairs have been set one after the other. If there
    /// was room for all of them, nothing has been cloned and the same table holds them. The capacity has
    /// not become less.
    pub open spec fn all_set(self, before: Self, pairs: Seq<(K, V)>) -> bool {
        &&& self.builder() == before.builder()
        &&& set_all_cloning(before@, pairs, self@)
        &&& before.room() >= pairs.len() ==> {
            &&& self@ == set_all(before@, pairs)
            &&& self.table().n() == before.table().n()
        }
        &&& self@.len() + self.room() >= before@.len() + before.room()
    }

    /// Sets the values of the pairs one after the other.
    fn insert_all(&mut self, items: Vec<(K, V)>)
        requires
            old(self).wf(),
            old(self).room() < items@.len() ==> {
                &&& contents::clones_keep_keys::<K>()
                &&& raw::can_hold::<K, V>(old(self)@.len() + items@.len())
            },
        ensures
            final(self).wf(),
            final(self).all_set(*old(self), items@),
    {
        let ghost pairs = items@;
        assert(pairs.subrange(0, 0) =~= Seq::empty());
        for item in iter: items
            invariant
                iter.seq() == pairs,
                old(self).wf(),
                old(self).room() < pairs.len() ==> {
                    &&& contents::clones_keep_keys::<K>()
                    &&& raw::can_hold::<K, V>(old(self)@.len() + pairs.len())
                },
                self.wf(),
                self@.len() <= old(self)@.len() + iter.index(),
                self.all_set(*old(self), pairs.subrange(0, iter.index() as int)),
                old(self).room() >= pairs.len() ==> self.room() >= old(self).room() - iter.index(),
        {
            let ghost done = iter.index() as int;
            assert(item == pairs[done]);
            let ghost before = *self;
            proof {
                self.lemma_wf();
                if old(self).room() < pairs.len() {
                    assert(raw::can_allocate::<(K, V)>(self@.len() as int + 1));
                }
            }
            let (key, value) = item;
            let r = self.insert(key, value);
            proof {
                let upto = pairs.subrange(0, done + 1);
                assert(upto.drop_last() =~= pairs.subrange(0, done));
                assert(upto.last() == pairs[done]);
                let copy = if r is Some {
                    assert(same_or_cloned(before@, before@));
                    before@
                } else {
                    let reserved = choose|reserved: Self| #[trigger]
                        reserved.reserved(before, 1) && self@ == reserved@.insert(key, value)
                            && self.room() == reserved.room() - 1 && self.table().n()
                            == reserved.table().n();
                    if before.room() == 0 {
                        contents::lemma_cloned_has_key::<K, V, S>(
                            before.builder(),
                            before@,
                            reserved@,
                            key,
                        );
                    }
                    assert(same_or_cloned(before@, reserved@));
                    reserved@
                };
                assert(self@ == set_value(copy, key, value));
                self.lemma_wf();
                set_lib::lemma_len_subset(copy.dom(), self@.dom());
                lemma_set_value_len(copy, key, value);
            }
        }
        assert(pairs.subrange(0, pairs.len() as int) =~= pairs);
    }

    /// Creates a map from the pairs. Of those with the same key the last value is taken.
    ///
    /// Room for all pairs is made first, so that none of them is cloned.
    pub fn from_iter(items: Vec<(K, V)>) -> (r: Self) where S: Default
        requires
            forall|s: S| call_ensures(S::default, (), s) ==> contents::lawful::<K, S>(s),
            items@.len() > 0 ==> raw::can_allocate::<(K, V)>(items@.len() as int),
        ensures
            r.wf(),
            call_ensures(S::default, (), r.builder()),
            r@ == set_all(Map::empty(), items@),
            laws::has_the_last_of_each_key(Map::empty(), items@, r@),
            items@.len() == 0 ==> r.table().n() == 1,
            items@.len() > 0 ==> raw::buckets_for(items@.len() as int, r.table().n()),
    {
        let mut map = Self::with_capacity_and_hasher(items.len(), S::default());
        let ghost pairs = items@;
        map.insert_all(items);
        proof {
            laws::keys_are_unique(map);
            laws::setting_values_takes_the_last_of_each_key(Map::<K, V>::empty(), pairs);
        }
        map
    }

    /// How many of `count` pairs room is made for before they are added to the map.
    pub open spec fn extend_reserve(self, count: int) -> int {
        if self@ == Map::<K, V>::empty() {
            count
        } else {
            (count + 1) / 2
        }
    }

    /// Adds the pairs to the map. The value of a key that is there already is replaced.
    pub fn extend(&mut self, items: Vec<(K, V)>)
        requires
            old(self).wf(),
            contents::clones_keep_keys::<K>(),
            old(self)@.len() + items@.len() <= usize::MAX,
            raw::can_hold::<K, V>(old(self)@.len() + items@.len()),
        ensures
            final(self).wf(),
            exists|reserved: Self| #[trigger]
                final(self).all_set(reserved, items@) && reserved.reserved(
                    *old(self),
                    old(self).extend_reserve(items@.len() as int),
                ),
            final(self)@.len() + final(self).room() >= old(self)@.len() + old(
                self,
            ).extend_reserve(items@.len() as int),
    {
        // Keys may be already present or show multiple times in the pairs.
        // Reserve the entire length if the map is empty.
        // Otherwise reserve half the length (rounded up), so the map
        // will only resize twice in the worst case.
        let len: usize = items.len();
        let reserve: usize = if self.is_empty() {
            len
        } else {
            len / 2 + len % 2
        };
        proof {
            self.lemma_wf();
            if self.room() < reserve {
                assert(raw::can_allocate::<(K, V)>(self@.len() + reserve));
            }
        }
        self.reserve(reserve);
        let ghost reserved = *self;
        self.insert_all(items);
        assert(self.all_set(reserved, items@));
    }
}

/// Setting a value adds at most one key.
proof fn lemma_set_value_len<K: Eq, V>(map: Map<K, V>, key: K, value: V)
    requires
        map.dom().finite(),
    ensures
        set_value(map, key, value).len() <= map.len() + 1,
{
}

/// An iterator over the entries of a [SyncInsertMap].
///
/// This `struct` is created by the [SyncInsertMap::iter] method.
pub struct Iter<'a, K, V> {
    inner: RawIter<'a, (K, V)>,
}

impl<'a, K, V> Iter<'a, K, V> {
    /// Whether the iterator is consistent.
    pub closed spec fn wf(self) -> bool {
        self.inner.wf()
    }

    /// The entries that are left.
    pub closed spec fn rest(self) -> Seq<(K, V)> {
        self.inner.rest().map_values(|i: int| self.inner.table().item(i))
    }

    /// Takes the next entry.
    pub fn next(&mut self) -> (r: Option<(&'a K, &'a V)>)
        requires
            old(self).wf(),
        ensures
            final(self).wf(),
            match r {
                Some((k, v)) => {
                    &&& old(self).rest().len() > 0
                    &&& (*k, *v) == old(self).rest()[0]
                    &&& final(self).rest() == old(self).rest().drop_first()
                },
                None => old(self).rest().len() == 0 && final(self).rest().len() == 0,
            },
    {
        let table = self.inner.get_table();
        match self.inner.next() {
            Some(bucket) => {
                let pair = bucket.as_ref(table);
                assert(self.rest() =~= old(self).rest().drop_first());
                Some((&pair.0, &pair.1))
            },
            None => None,
        }
    }

    /// Returns the number of entries that are left.
    pub fn len(&self) -> (r: usize)
        requires
            self.wf(),
        ensures
            r == self.rest().len(),
    {
        self.inner.size_hint().0
    }
}

} // verus!
