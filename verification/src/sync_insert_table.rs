//! A hash table that elements are only added to.
//!
//! Its elements are of any type, and are found by a hash and an equality function.

use crate::contents;
use crate::hash_map::hasher;
use crate::raw::group::WIDTH;
use crate::raw::table::{self, max_usize, Bucket, RawIterRange, TableInfo, TableRef};
use crate::sync_table::capacity::{self, next_power_of_two};
use crate::util::{make_insert_hash, HashBuilder, Layout};
use vstd::arithmetic::power2;
use vstd::layout;
use vstd::prelude::*;

verus! {

/// The maximum number of elements in a table with `n` buckets.
pub open spec fn capacity_of(n: int) -> int {
    if n <= 16 {
        n - 1
    } else {
        n / 8 * 7
    }
}

/// Returns the maximum effective capacity for the given bucket mask, taking
/// the maximum load factor into account.
pub fn bucket_mask_to_capacity(bucket_mask: usize) -> (r: usize)
    requires
        bucket_mask < usize::MAX,
    ensures
        r == capacity_of(bucket_mask + 1),
        r <= bucket_mask,
{
    if bucket_mask < 16 {
        // For small tables, we always reserve one empty slot.
        // Keep in mind that the bucket mask is one less than the bucket count.
        bucket_mask
    } else {
        // For larger tables we reserve 12.5% of the slots as empty.
        ((bucket_mask + 1) / 8) * 7
    }
}

/// Whether `n` is the number of buckets of a table with room for `cap` elements.
pub open spec fn buckets_for(cap: int, n: int) -> bool {
    if cap < 4 {
        n == 4
    } else if cap < 16 {
        n == 16
    } else {
        &&& power2::is_pow2(n)
        &&& n >= 32
        &&& capacity_of(n) >= cap
        &&& capacity_of(n / 2) < cap
    }
}

/// Returns the number of buckets needed to hold the given number of items,
/// taking the maximum load factor into account.
///
/// Returns `None` if an overflow occurs.
pub fn capacity_to_buckets(cap: usize) -> (r: Option<usize>)
    requires
        cap != 0,
    ensures
        r is Some <==> cap < 16 || cap * 8 <= usize::MAX,
        r matches Some(n) ==> {
            &&& buckets_for(cap as int, n as int)
            &&& power2::is_pow2(n as int)
            &&& n >= 4
            &&& capacity_of(n as int) >= cap
        },
{
    proof {
        reveal_with_fuel(power2::is_pow2, 6);
    }
    // For small tables we require at least 1 empty bucket so that lookups are
    // guaranteed to terminate if an element doesn't exist in the table.
    if cap < 16 {
        // We don't bother with a table size of 2 buckets since that can only
        // hold a single element. Instead we skip directly to a 4 bucket table
        // which can hold 3 elements.
        return Some(
            if cap < 4 {
                4
            } else {
                16
            },
        );
    }
    // Otherwise require 1/8 buckets to be empty (87.5% load)
    let adjusted_cap: usize = match cap.checked_mul(8) {
        Some(scaled) => scaled / 7,
        None => return None,
    };
    // Any overflows will have been caught by the checked_mul. Also, any
    // rounding errors from the division above will be cleaned up by
    // next_power_of_two (which can't overflow because of the previous division).
    let n: usize = next_power_of_two(adjusted_cap);
    proof {
        crate::raw::ctrl::lemma_groups_fill(n as int);
        if n < 16 {
            crate::raw::ctrl::lemma_small_pow2(n as int);
        }
        assert(n as int % 16 == 0);
    }
    Some(n)
}

/// There is only one number of buckets for a capacity.
proof fn lemma_buckets_for(cap: int, n: int)
    requires
        buckets_for(cap, n),
    ensures
        forall|other: int| #[trigger] buckets_for(cap, other) ==> other == n,
{
    assert forall|other: int| #[trigger] buckets_for(cap, other) implies other == n by {
        if cap >= 16 {
            if other < n {
                capacity::lemma_pow2_gap(other, n);
            } else if n < other {
                capacity::lemma_pow2_gap(n, other);
            }
        }
    }
}

/// The size of the counters of a table, and how they are aligned.
pub open spec fn header() -> Layout {
    Layout {
        size: layout::size_of::<TableInfo>() as usize,
        align: layout::align_of::<TableInfo>() as usize,
    }
}

/// Whether there is a memory layout for a table with `bucket_count` buckets.
pub open spec fn has_layout<T>(bucket_count: int) -> bool {
    TableRef::<T>::fits(bucket_count, header())
}

/// Returns the memory layout of a table with `bucket_count` buckets, and where in it the counters are.
pub fn layout<T>(bucket_count: usize) -> (r: Option<(Layout, usize)>)
    ensures
        r is Some <==> has_layout::<T>(bucket_count as int),
        r matches Some((layout, offset)) ==> {
            &&& layout.size == TableRef::<T>::layout_size(bucket_count as int, header())
            &&& layout.align == TableRef::<T>::layout_align(header())
            &&& offset == TableRef::<T>::header_offset(bucket_count as int, header())
            &&& bucket_count + WIDTH <= isize::MAX
        },
{
    layout::layout_for_type_is_valid::<TableInfo>();
    let header = Layout {
        size: core::mem::size_of::<TableInfo>(),
        align: core::mem::align_of::<TableInfo>(),
    };
    TableRef::<T>::layout_with(bucket_count, header)
}

/// Whether a table with room for `cap` elements can be allocated: the number of buckets must not
/// overflow, and there must be a memory layout.
pub open spec fn can_allocate<T>(cap: int) -> bool {
    &&& cap < 16 || cap * 8 <= usize::MAX
    &&& forall|n: int| #[trigger] buckets_for(cap, n) ==> has_layout::<T>(n)
}

/// The number of elements that a table gets room for when `additional` elements are to be added to
/// the `len` elements of a table with `n` buckets.
pub open spec fn expanded_capacity(len: int, n: int, additional: int) -> int {
    table::max_int(len + additional, capacity_of(n) + 1)
}

/// A hash table that elements are only added to.
pub struct SyncInsertTable<T, S> {
    hash_builder: S,
    current: TableRef<T>,
    /// The tables that have been replaced. They are kept as long as the table is.
    old: Vec<TableRef<T>>,
}

impl<T, S> SyncInsertTable<T, S> {
    /// The table in use.
    pub closed spec fn table(self) -> TableRef<T> {
        self.current
    }

    /// The tables that have been replaced.
    pub closed spec fn replaced(self) -> Seq<TableRef<T>> {
        self.old@
    }

    /// The hasher.
    pub closed spec fn builder(self) -> S {
        self.hash_builder
    }

    /// Whether the table is consistent.
    pub open spec fn wf(self) -> bool {
        &&& self.table().wf()
        &&& self.table().info.tombstones == 0
        &&& self.table().capacity() == capacity_of(self.table().n())
    }

    /// The number of elements that can be added before the table is replaced by another.
    pub open spec fn room(self) -> usize {
        self.table().info.growth_left
    }

    /// Whether a table can be allocated that has room for `additional` more elements, and more room than
    /// this one.
    pub open spec fn can_reserve(self, additional: int) -> bool {
        &&& self.table().len() + additional <= usize::MAX
        &&& can_allocate::<T>(
            expanded_capacity(self.table().len() as int, self.table().n(), additional),
        )
    }

    /// Whether a table with room for `capacity` elements can be allocated.
    pub fn can_allocate(capacity: usize) -> (r: bool)
        requires
            capacity > 0,
        ensures
            r == can_allocate::<T>(capacity as int),
    {
        match capacity_to_buckets(capacity) {
            Some(n) => {
                proof {
                    lemma_buckets_for(capacity as int, n as int);
                }
                layout::<T>(n).is_some()
            },
            None => false,
        }
    }

    /// Whether there is room for one more element, or it can be made.
    pub fn may_insert(&self) -> (r: bool)
        requires
            self.wf(),
        ensures
            r == (self.room() > 0 || self.can_reserve(1)),
    {
        if self.current.info.growth_left > 0 {
            return true;
        }
        let full_capacity: usize = bucket_mask_to_capacity(self.current.info.bucket_mask);
        let new_items: usize = self.len() + 1;
        Self::can_allocate(max_usize(new_items, full_capacity + 1))
    }

    /// Creates an empty table with the specified capacity. If `capacity` is 0, it does not allocate.
    pub fn new_with(hash_builder: S, capacity: usize) -> (r: Self)
        requires
            capacity > 0 ==> can_allocate::<T>(capacity as int),
        ensures
            r.wf(),
            r.table().items() == Map::<int, T>::empty(),
            r.table().len() == 0,
            r.builder() == hash_builder,
            r.replaced().len() == 0,
            capacity == 0 ==> r.table().n() == 1,
            capacity > 0 ==> buckets_for(capacity as int, r.table().n()),
            r.room() >= capacity,
    {
        let current = if capacity > 0 {
            let buckets: usize = capacity_to_buckets(capacity).unwrap();
            let _layout = layout::<T>(buckets).unwrap();
            TableRef::with_buckets(buckets, bucket_mask_to_capacity(buckets - 1))
        } else {
            TableRef::empty()
        };
        SyncInsertTable { hash_builder, current, old: Vec::new() }
    }

    /// Creates an empty table.
    pub fn new() -> (r: Self) where S: Default
        ensures
            r.wf(),
            r.table().items() == Map::<int, T>::empty(),
            r.table().len() == 0,
            call_ensures(S::default, (), r.builder()),
            r.replaced().len() == 0,
            r.table().n() == 1,
    {
        SyncInsertTable::new_with(S::default(), 0)
    }

    /// Returns a reference to the hasher.
    pub(crate) fn get_hasher(&self) -> (r: &S)
        ensures
            *r == self.builder(),
    {
        &self.hash_builder
    }

    /// Searches for an element in the table.
    fn find<F: Fn(&T) -> bool>(&self, hash: u64, eq: F) -> (r: Option<Bucket<T>>)
        requires
            self.wf(),
            forall|value: &T| call_requires(eq, (value,)),
        ensures
            match r {
                Some(bucket) => {
                    &&& self.table().holds(bucket.index())
                    &&& self.table().ctrl@[bucket.index()] == table::tag(hash)
                    &&& call_ensures(eq, (&self.table().item(bucket.index()),), true)
                },
                None => forall|i: int| #[trigger]
                    self.table().holds(i) && self.table().hashes@[i] == hash ==> call_ensures(
                        eq,
                        (&self.table().item(i),),
                        false,
                    ),
            },
    {
        self.current.find(hash, eq)
    }

    /// Gets a reference to an element in the table.
    pub fn get<F: Fn(&T) -> bool>(&self, hash: u64, eq: F) -> (r: Option<&T>)
        requires
            self.wf(),
            forall|value: &T| call_requires(eq, (value,)),
        ensures
            match r {
                Some(value) => {
                    &&& call_ensures(eq, (value,), true)
                    &&& exists|i: int| #[trigger]
                        self.table().holds(i) && self.table().item(i) == *value
                            && self.table().ctrl@[i] == table::tag(hash)
                },
                None => forall|i: int| #[trigger]
                    self.table().holds(i) && self.table().hashes@[i] == hash ==> call_ensures(
                        eq,
                        (&self.table().item(i),),
                        false,
                    ),
            },
    {
        match self.find(hash, eq) {
            Some(bucket) => Some(bucket.as_ref(&self.current)),
            None => None,
        }
    }

    /// Gets a mutable reference to an element in the table.
    pub fn get_mut<F: Fn(&T) -> bool>(&mut self, hash: u64, eq: F) -> (r: Option<&mut T>)
        requires
            old(self).wf(),
            forall|value: &T| call_requires(eq, (value,)),
        ensures
            final(self).wf(),
            final(self).builder() == old(self).builder(),
            final(self).replaced() == old(self).replaced(),
            match r {
                Some(value) => {
                    &&& call_ensures(eq, (&*value,), true)
                    &&& final(self).table().info == old(self).table().info
                    &&& final(self).table().hashes == old(self).table().hashes
                    &&& exists|i: int|
                        {
                            &&& #[trigger] old(self).table().holds(i)
                            &&& old(self).table().item(i) == *value
                            &&& old(self).table().ctrl@[i] == table::tag(hash)
                            &&& final(self).table().items() == old(self).table().items().insert(
                                i,
                                *final(value),
                            )
                        }
                },
                None => {
                    &&& final(self).table() == old(self).table()
                    &&& forall|i: int| #[trigger]
                        old(self).table().holds(i) && old(self).table().hashes@[i] == hash
                            ==> call_ensures(eq, (&old(self).table().item(i),), false)
                },
            },
    {
        match self.find(hash, eq) {
            Some(bucket) => Some(bucket.as_mut(&mut self.current)),
            None => None,
        }
    }

    /// Returns the number of elements the table can hold without reallocating.
    ///
    /// This number is a lower bound; the table might be able to hold
    /// more, but is guaranteed to be able to hold at least this many.
    pub fn capacity(&self) -> (r: usize)
        requires
            self.wf(),
        ensures
            r == self.table().len() + self.room(),
            r == capacity_of(self.table().n()),
    {
        self.len() + self.current.info.growth_left
    }

    /// Returns the number of elements in the table.
    pub fn len(&self) -> (r: usize)
        requires
            self.wf(),
        ensures
            r == self.table().len(),
    {
        bucket_mask_to_capacity(self.current.info.bucket_mask) - self.current.info.growth_left
    }

    /// Returns the number of buckets in the table.
    pub fn buckets(&self) -> (r: usize)
        requires
            self.wf(),
        ensures
            r == self.table().n(),
    {
        self.current.info.buckets()
    }

    /// Returns an iterator over the buckets of the table.
    pub fn iter(&self) -> (r: RawIter<'_, T>)
        requires
            self.wf(),
        ensures
            r.wf(),
            *r.table() == self.table(),
            r.rest() == self.table().full(),
    {
        proof {
            self.current.lemma_full();
        }
        RawIter { iter: self.current.iter(), items: self.len() }
    }

    /// Creates a handle with write access.
    pub fn lock(&mut self) -> (r: Locked<'_, T, S>)
        ensures
            *r.table == *old(self),
            *final(r.table) == *final(self),
    {
        Locked { table: self }
    }

    /// Whether this is `before` with another table in use.
    pub open spec fn replaces(self, before: Self) -> bool {
        &&& self.builder() == before.builder()
        &&& self.replaced() == before.replaced().push(before.table())
    }

    /// Puts another table into use, and keeps the old one.
    fn replace_table(&mut self, table: TableRef<T>)
        ensures
            final(self).table() == table,
            final(self).replaces(*old(self)),
    {
        let mut table = table;
        core::mem::swap(&mut self.current, &mut table);
        self.old.push(table);
    }
}

/// A handle to a [SyncInsertTable] with write access.
pub struct Locked<'a, T, S> {
    /// The table that is written to.
    pub table: &'a mut SyncInsertTable<T, S>,
}

impl<'a, T: Clone, S> Locked<'a, T, S> {
    /// Whether `after` is `before` after room for `additional` more elements has been made.
    pub open spec fn grown<H: Fn(&T) -> u64>(
        before: SyncInsertTable<T, S>,
        after: SyncInsertTable<T, S>,
        additional: int,
        hasher: H,
    ) -> bool {
        &&& after.replaces(before)
        &&& table::rehashed(before.table(), after.table(), hasher)
        &&& after.table().len() == before.table().len()
        &&& buckets_for(
            expanded_capacity(before.table().len() as int, before.table().n(), additional),
            after.table().n(),
        )
        &&& after.room() >= additional
    }

    /// Inserts a new element into the table, and returns its bucket.
    ///
    /// This does not check if the given element already exists in the table.
    pub fn insert_new<H: Fn(&T) -> u64>(&mut self, hash: u64, value: T, hasher: H) -> (r: Bucket<T>)
        requires
            old(self).table.wf(),
            old(self).table.room() == 0 ==> old(self).table.can_reserve(1),
            forall|value: &T| call_requires(hasher, (value,)),
        ensures
            final(self).table.wf(),
            exists|reserved: SyncInsertTable<T, S>|
                {
                    &&& #[trigger] added(reserved, *final(self).table, r.index(), value, hash)
                    &&& if old(self).table.room() > 0 {
                        reserved == *old(self).table
                    } else {
                        Self::grown(*old(self).table, reserved, 1, hasher)
                    }
                },
            *final(final(self).table) == *final(old(self).table),
    {
        if self.table.current.info.growth_left == 0 {
            self.reserve(1, &hasher);
        }
        let ghost reserved = *self.table;
        let index: usize = self.table.current.find_insert_slot(hash);
        self.table.current.insert_at(index, value, hash);
        let bucket = Bucket::new(index);
        assert(added(reserved, *self.table, bucket.index(), value, hash));
        bucket
    }

    /// Makes room for `additional` more elements.
    fn reserve<H: Fn(&T) -> u64>(&mut self, additional: usize, hasher: &H)
        requires
            old(self).table.wf(),
            additional > 0,
            old(self).table.can_reserve(additional as int),
            forall|value: &T| call_requires(*hasher, (value,)),
        ensures
            final(self).table.wf(),
            Self::grown(*old(self).table, *final(self).table, additional as int, *hasher),
            *final(final(self).table) == *final(old(self).table),
    {
        let new_items: usize = self.table.len() + additional;
        let full_capacity: usize = bucket_mask_to_capacity(self.table.current.info.bucket_mask);
        let new_capacity: usize = max_usize(new_items, full_capacity + 1);
        let buckets: usize = capacity_to_buckets(new_capacity).unwrap();
        self.resize(buckets, hasher);
    }

    /// Allocates a new table of a different size and clones the contents of the
    /// current table into it.
    fn resize<H: Fn(&T) -> u64>(&mut self, buckets: usize, hasher: &H)
        requires
            old(self).table.wf(),
            power2::is_pow2(buckets as int),
            buckets >= 4,
            has_layout::<T>(buckets as int),
            old(self).table.table().len() <= capacity_of(buckets as int),
            forall|value: &T| call_requires(*hasher, (value,)),
        ensures
            final(self).table.wf(),
            final(self).table.replaces(*old(self).table),
            table::rehashed(old(self).table.table(), final(self).table.table(), *hasher),
            final(self).table.table().len() == old(self).table.table().len(),
            final(self).table.table().n() == buckets,
            *final(final(self).table) == *final(old(self).table),
    {
        let _layout = layout::<T>(buckets).unwrap();
        let new_table = self.table.current.resize(
            buckets,
            bucket_mask_to_capacity(buckets - 1),
            hasher,
        );
        self.table.replace_table(new_table);
    }
}

/// Whether `after` is `before` after the element has been put into the bucket `index`.
pub open spec fn added<T, S>(
    before: SyncInsertTable<T, S>,
    after: SyncInsertTable<T, S>,
    index: int,
    value: T,
    hash: u64,
) -> bool {
    &&& after.builder() == before.builder()
    &&& after.replaced() == before.replaced()
    &&& after.table().n() == before.table().n()
    &&& !before.table().holds(index)
    &&& after.table().items() == before.table().items().insert(index, value)
    &&& after.table().hashes@ == before.table().hashes@.update(index, hash)
    &&& after.table().len() == before.table().len() + 1
    &&& after.room() == before.room() - 1
}

/// Iterator which returns every full bucket in the table.
pub struct RawIter<'a, T> {
    iter: RawIterRange<'a, T>,
    items: usize,
}

impl<'a, T> RawIter<'a, T> {
    /// The table that is iterated over.
    pub closed spec fn table(self) -> &'a TableRef<T> {
        self.iter.table()
    }

    /// The buckets that are left.
    pub closed spec fn rest(self) -> Seq<int> {
        self.iter.rest()
    }

    /// Whether the iterator is consistent.
    pub closed spec fn wf(self) -> bool {
        self.iter.wf() && self.items == self.iter.rest().len()
    }

    /// Takes the next full bucket.
    pub fn next(&mut self) -> (r: Option<Bucket<T>>)
        requires
            old(self).wf(),
        ensures
            final(self).wf(),
            final(self).table() == old(self).table(),
            match r {
                Some(bucket) => {
                    &&& old(self).rest().len() > 0
                    &&& bucket.index() == old(self).rest()[0]
                    &&& final(self).rest() == old(self).rest().drop_first()
                    &&& final(self).table().holds(bucket.index())
                },
                None => old(self).rest().len() == 0 && final(self).rest().len() == 0,
            },
    {
        match self.iter.next() {
            Some(index) => {
                self.items = self.items - 1;
                Some(Bucket::new(index))
            },
            None => None,
        }
    }

    /// Returns the table that is iterated over.
    pub fn get_table(&self) -> (r: &'a TableRef<T>)
        requires
            self.wf(),
        ensures
            r == self.table(),
            r.wf(),
    {
        self.iter.get_table()
    }

    /// Returns how many buckets are left, as a lower and an upper bound.
    pub fn size_hint(&self) -> (r: (usize, Option<usize>))
        requires
            self.wf(),
        ensures
            r.0 == self.rest().len(),
            r.1 == Some(r.0),
    {
        (self.items, Some(self.items))
    }
}

impl<K: Eq, V, S: HashBuilder<K>> SyncInsertTable<(K, V), S> {
    /// The keys and values in a table of pairs.
    pub open spec fn map(self) -> Map<K, V> {
        contents::contents(self.table().items())
    }

    /// Whether a table of pairs is consistent as a map: every pair is where the hash of its key puts
    /// it, and no key is there twice.
    pub open spec fn map_wf(self) -> bool {
        &&& self.wf()
        &&& contents::lawful::<K, S>(self.builder())
        &&& forall|i: int| #[trigger]
            self.table().holds(i) ==> self.table().hashes@[i] == self.builder().hash_of(
                self.table().item(i).0,
            )
        &&& contents::distinct(self.table().items())
    }

    /// A table without elements is consistent as a map.
    pub proof fn lemma_empty_map(self)
        requires
            self.wf(),
            contents::lawful::<K, S>(self.builder()),
            self.table().items() == Map::<int, (K, V)>::empty(),
        ensures
            self.map_wf(),
            self.map() == Map::<K, V>::empty(),
    {
        assert forall|i: int| !self.table().holds(i) by {
            assert(self.table().items().contains_key(i) == self.table().holds(i));
        }
        assert(self.map() =~= Map::<K, V>::empty());
    }

    /// What the elements of the table say of the map.
    pub proof fn lemma_map(self)
        requires
            self.map_wf(),
        ensures
            self.map().dom().finite(),
            self.map().len() == self.table().len(),
            forall|i: int| #[trigger]
                self.table().holds(i) ==> self.map().contains_key(self.table().item(i).0)
                    && self.map()[self.table().item(i).0] == self.table().item(i).1,
    {
        contents::lemma_pairs(self.table());
        assert forall|i: int| #[trigger] self.table().holds(i) implies self.map().contains_key(
            self.table().item(i).0,
        ) && self.map()[self.table().item(i).0] == self.table().item(i).1 by {
            assert(self.table().items().contains_key(i));
            assert(self.table().items()[i] == self.table().item(i));
            contents::lemma_entry(self.table().items(), i);
        }
    }

    /// Searches for the pair with the key.
    pub(crate) fn map_find(&self, key: &K, hash: u64) -> (r: Option<Bucket<(K, V)>>)
        requires
            self.map_wf(),
            hash == self.builder().hash_of(*key),
        ensures
            match r {
                Some(bucket) => {
                    &&& self.table().holds(bucket.index())
                    &&& contents::same_key(*key, self.table().item(bucket.index()).0)
                    &&& self.map().contains_key(self.table().item(bucket.index()).0)
                    &&& self.map()[self.table().item(bucket.index()).0] == self.table().item(
                        bucket.index(),
                    ).1
                },
                None => !contents::has_key(self.map(), *key),
            },
    {
        let eq = |pair: &(K, V)| -> (b: bool)
            ensures
                b == contents::same_key(*key, pair.0),
        {
            *key == pair.0
        };
        let r = self.find(hash, eq);
        proof {
            self.lemma_map();
            if r is None && contents::has_key(self.map(), *key) {
                let k = choose|k: K| #[trigger]
                    self.map().contains_key(k) && contents::same_key(*key, k);
                let i = contents::lemma_entry_of_key(self.table().items(), k);
                assert(self.table().holds(i));
                assert(self.table().items()[i] == self.table().item(i));
            }
        }
        r
    }

    /// Returns the pair in the bucket.
    pub(crate) fn map_pair(&self, bucket: Bucket<(K, V)>) -> (r: &(K, V))
        requires
            self.map_wf(),
            self.table().holds(bucket.index()),
        ensures
            *r == self.table().item(bucket.index()),
    {
        bucket.as_ref(&self.current)
    }

    /// Gets a reference to the value of a key.
    pub fn map_get(&self, k: &K) -> (r: Option<&V>)
        requires
            self.map_wf(),
        ensures
            match r {
                Some(v) => exists|key: K| #[trigger]
                    self.map().contains_key(key) && contents::same_key(*k, key) && self.map()[key]
                        == *v,
                None => !contents::has_key(self.map(), *k),
            },
    {
        let hash: u64 = make_insert_hash(&self.hash_builder, k);
        match self.map_find(k, hash) {
            Some(bucket) => {
                let pair = bucket.as_ref(&self.current);
                Some(&pair.1)
            },
            None => None,
        }
    }

    /// Replaces the value of the pair in the bucket, and returns the old one.
    pub(crate) fn map_replace(&mut self, bucket: Bucket<(K, V)>, value: V) -> (r: V)
        requires
            old(self).map_wf(),
            old(self).table().holds(bucket.index()),
        ensures
            final(self).map_wf(),
            r == old(self).table().item(bucket.index()).1,
            final(self).map() == old(self).map().insert(
                old(self).table().item(bucket.index()).0,
                value,
            ),
            final(self).builder() == old(self).builder(),
            final(self).replaced() == old(self).replaced(),
            final(self).table().info == old(self).table().info,
    {
        let ghost before = *self;
        let ghost i = bucket.index();
        let mut value = value;
        let ghost new_value = value;
        let pair = bucket.as_mut(&mut self.current);
        core::mem::swap(&mut pair.1, &mut value);
        proof {
            assert(before.table().items().contains_key(i));
            assert(before.table().items()[i] == before.table().item(i));
            contents::lemma_change(before.table().items(), i, new_value);
            let after = self.current;
            assert(after.items() =~= before.table().items().insert(
                i,
                (before.table().item(i).0, new_value),
            ));
            assert forall|j: int| #[trigger] after.holds(j) implies after.hashes@[j]
                == self.hash_builder.hash_of(after.item(j).0) by {
                assert(before.table().holds(j));
                assert(after.items().contains_key(j));
                assert(after.items()[j] == after.item(j));
                assert(before.table().items()[j] == before.table().item(j));
            }
        }
        value
    }

    /// Adds a pair with a new key, for which there is room.
    pub(crate) fn map_add(&mut self, key: K, value: V, hash: u64)
        requires
            old(self).map_wf(),
            old(self).room() > 0,
            hash == old(self).builder().hash_of(key),
            !contents::has_key(old(self).map(), key),
        ensures
            final(self).map_wf(),
            final(self).map() == old(self).map().insert(key, value),
            final(self).builder() == old(self).builder(),
            final(self).replaced() == old(self).replaced(),
            final(self).table().n() == old(self).table().n(),
            final(self).table().len() == old(self).table().len() + 1,
            final(self).room() == old(self).room() - 1,
    {
        let ghost before = self.current;
        let index: usize = self.current.find_insert_slot(hash);
        proof {
            assert(before.items().contains_key(index as int) == before.holds(index as int));
            contents::lemma_add::<K, V, S>(
                self.hash_builder,
                before.items(),
                index as int,
                key,
                value,
            );
        }
        self.current.insert_at(index, (key, value), hash);
        proof {
            let after = self.current;
            assert forall|i: int| #[trigger] after.holds(i) implies after.hashes@[i]
                == self.hash_builder.hash_of(after.item(i).0) by {
                assert(after.items().contains_key(i));
                assert(after.items()[i] == after.item(i));
                if i != index {
                    assert(before.items().contains_key(i));
                    assert(before.holds(i));
                    assert(before.items()[i] == before.item(i));
                }
            }
        }
    }
}

/// Whether room for any number of pairs up to `total` can be allocated.
pub open spec fn can_hold<K, V>(total: nat) -> bool {
    forall|cap: int| 0 < cap <= total ==> #[trigger] can_allocate::<(K, V)>(cap)
}

impl<K: Eq + Clone, V: Clone, S: HashBuilder<K>> SyncInsertTable<(K, V), S> {
    /// Whether this is `before` after its pairs have been cloned to a table with room for
    /// `additional` more.
    pub open spec fn map_grown(self, before: Self, additional: int) -> bool {
        &&& self.replaces(before)
        &&& contents::cloned_map(before.map(), self.map())
        &&& self.table().len() == before.table().len()
        &&& buckets_for(
            expanded_capacity(before.table().len() as int, before.table().n(), additional),
            self.table().n(),
        )
        &&& self.room() >= additional
    }

    /// Makes room for `additional` more pairs, by cloning those that there are.
    pub(crate) fn map_grow(&mut self, additional: usize)
        requires
            old(self).map_wf(),
            contents::clones_keep_keys::<K>(),
            additional > 0,
            old(self).can_reserve(additional as int),
        ensures
            final(self).map_wf(),
            final(self).map_grown(*old(self), additional as int),
    {
        let new_items: usize = self.len() + additional;
        let full_capacity: usize = bucket_mask_to_capacity(self.current.info.bucket_mask);
        let new_capacity: usize = max_usize(new_items, full_capacity + 1);
        let buckets: usize = capacity_to_buckets(new_capacity).unwrap();
        let _layout = layout::<(K, V)>(buckets).unwrap();
        let clones = self.current.clone_pairs();
        let ghost pairs = clones@;
        let hash_builder = &self.hash_builder;
        let hash_pair = |pair: &(K, V)| -> (h: u64)
            ensures
                h == hash_builder.hash_of(pair.0),
        {
            hasher(hash_builder, pair)
        };
        let empty = TableRef::with_buckets(buckets, bucket_mask_to_capacity(buckets - 1));
        let (table, Ghost(places)) = empty.fill(clones, hash_pair);
        proof {
            contents::lemma_pairs(self.current);
            contents::lemma_cloned(contents::pairs(self.current), pairs);
            contents::lemma_filled(table, pairs, places);
            assert forall|i: int| #[trigger] table.holds(i) implies table.hashes@[i]
                == self.hash_builder.hash_of(table.item(i).0) by {
                assert(places.contains(i));
                let j = choose|j: int| 0 <= j < places.len() && places[j] == i;
                assert(table.hashes@[places[j]] == self.hash_builder.hash_of(pairs[j].0));
            }
        }
        self.replace_table(table);
    }

    /// Makes room for at least `additional` more pairs, unless there is.
    pub(crate) fn map_reserve(&mut self, additional: usize)
        requires
            old(self).map_wf(),
            old(self).room() < additional ==> contents::clones_keep_keys::<K>(),
            old(self).table().len() + additional <= usize::MAX,
            old(self).room() < additional ==> can_allocate::<(K, V)>(
                old(self).table().len() + additional,
            ),
        ensures
            final(self).map_wf(),
            if old(self).room() >= additional {
                *final(self) == *old(self)
            } else {
                final(self).map_grown(*old(self), additional as int)
            },
    {
        if self.current.info.growth_left < additional {
            self.map_grow(additional);
        }
    }

    /// Adds a pair. If the key is there already, nothing changes and the pair is returned.
    pub fn map_insert(&mut self, k: K, v: V) -> (r: Option<(K, V)>)
        requires
            old(self).map_wf(),
            contents::clones_keep_keys::<K>(),
            old(self).room() == 0 && !contents::has_key(old(self).map(), k) ==> can_allocate::<
                (K, V),
            >(old(self).table().len() as int + 1),
        ensures
            final(self).map_wf(),
            match r {
                Some(pair) => {
                    &&& pair == (k, v)
                    &&& contents::has_key(old(self).map(), k)
                    &&& *final(self) == *old(self)
                },
                None => {
                    &&& !contents::has_key(old(self).map(), k)
                    &&& exists|reserved: Self|
                        {
                            &&& #[trigger] final(self).map_added(reserved, k, v)
                            &&& if old(self).room() > 0 {
                                reserved == *old(self)
                            } else {
                                reserved.map_grown(*old(self), 1)
                            }
                        }
                },
            },
    {
        let hash: u64 = make_insert_hash(&self.hash_builder, &k);
        if self.map_find(&k, hash).is_some() {
            Some((k, v))
        } else {
            self.map_reserve(1);
            let ghost reserved = *self;
            proof {
                if old(self).room() == 0 {
                    contents::lemma_cloned_has_key::<K, V, S>(
                        self.builder(),
                        old(self).map(),
                        reserved.map(),
                        k,
                    );
                }
            }
            self.map_add(k, v, hash);
            assert(self.map_added(reserved, k, v));
            None
        }
    }

    /// Whether this is `before` after a pair with a new key has been added.
    pub open spec fn map_added(self, before: Self, key: K, value: V) -> bool {
        &&& self.builder() == before.builder()
        &&& self.replaced() == before.replaced()
        &&& self.table().n() == before.table().n()
        &&& self.map() == before.map().insert(key, value)
        &&& self.table().len() == before.table().len() + 1
        &&& self.room() == before.room() - 1
    }
}

/// A table with more buckets than a group holds as many elements as seven eighths of its buckets, and a
/// smaller one all but one of its buckets.
pub proof fn the_load_factor_is_seven_eighths(n: int)
    requires
        n >= 1,
        power2::is_pow2(n),
    ensures
        n <= 16 ==> capacity_of(n) == n - 1,
        n > 16 ==> 8 * capacity_of(n) == 7 * n,
        0 <= capacity_of(n) < n,
{
    crate::raw::ctrl::lemma_groups_fill(n);
}

/// A table gets 4 buckets, 16 or the least larger power of two, so that there is room for the elements.
pub proof fn a_table_gets_no_more_buckets_than_it_needs(cap: int, n: int, other: int)
    requires
        buckets_for(cap, n),
        power2::is_pow2(other),
        other == 4 || other >= 16,
        cap <= capacity_of(other),
    ensures
        cap <= capacity_of(n),
        power2::is_pow2(n),
        n == 4 || n >= 16,
        n <= other,
{
    reveal_with_fuel(power2::is_pow2, 6);
    the_load_factor_is_seven_eighths(n);
    if cap >= 16 {
        the_load_factor_is_seven_eighths(other);
        if other < n {
            capacity::lemma_pow2_gap(other, n);
            assert(other >= 32);
            assert(capacity_of(n / 2) >= capacity_of(other));
        }
    }
}

/// Making room leaves enough of it, in a table that is larger than before.
pub proof fn making_room_grows_the_table(len: int, n: int, additional: int, new_n: int)
    requires
        0 <= len <= capacity_of(n),
        additional > 0,
        n >= 1,
        power2::is_pow2(n),
        buckets_for(expanded_capacity(len, n, additional), new_n),
    ensures
        len + additional <= capacity_of(new_n),
        n < new_n,
        power2::is_pow2(new_n),
        new_n > 16 && len + additional <= capacity_of(n) + 1 ==> new_n == 2 * n,
{
    let cap = expanded_capacity(len, n, additional);
    assert(power2::is_pow2(new_n)) by {
        reveal_with_fuel(power2::is_pow2, 6);
    }
    the_load_factor_is_seven_eighths(n);
    the_load_factor_is_seven_eighths(new_n);
    if new_n > 16 && len + additional <= capacity_of(n) + 1 {
        assert(power2::is_pow2(2 * n)) by {
            reveal_with_fuel(power2::is_pow2, 2);
        }
        the_load_factor_is_seven_eighths(2 * n);
        capacity::lemma_pow2_gap(n, new_n);
        if n < 16 {
            crate::raw::ctrl::lemma_small_pow2(n);
        } else if new_n != 2 * n {
            capacity::lemma_pow2_gap(2 * n, new_n);
            assert(new_n / 2 >= 2 * n);
            assert(capacity_of(new_n / 2) >= capacity_of(2 * n));
        }
    }
}

/// A new element is in the bucket that is returned, under its hash, and all other elements stay where
/// they are.
pub proof fn a_new_element_goes_to_a_bucket_of_its_own<T, S>(
    before: SyncInsertTable<T, S>,
    after: SyncInsertTable<T, S>,
    index: int,
    value: T,
    hash: u64,
)
    requires
        before.wf(),
        after.wf(),
        added(before, after, index, value, hash),
    ensures
        !before.table().holds(index),
        after.table().holds(index),
        after.table().item(index) == value,
        after.table().hashes@[index] == hash,
        forall|i: int|
            i != index ==> {
                &&& #[trigger] after.table().holds(i) == before.table().holds(i)
                &&& before.table().holds(i) ==> after.table().item(i) == before.table().item(i)
                    && after.table().hashes@[i] == before.table().hashes@[i]
            },
        after.table().len() == before.table().len() + 1,
{
    let items = after.table().items();
    assert(items.contains_key(index) && items[index] == value);
    assert forall|i: int| i != index implies {
        &&& #[trigger] after.table().holds(i) == before.table().holds(i)
        &&& before.table().holds(i) ==> after.table().item(i) == before.table().item(i)
            && after.table().hashes@[i] == before.table().hashes@[i]
    } by {
        assert(items.contains_key(i) == after.table().holds(i));
        assert(before.table().items().contains_key(i) == before.table().holds(i));
        if before.table().holds(i) {
            assert(items[i] == before.table().items()[i]);
        }
    }
}

/// A table can be allocated for a number of elements exactly if the number of buckets does not overflow
/// and the memory for these buckets can be addressed.
pub proof fn a_table_can_be_allocated_if_its_memory_can_be_addressed<T>(cap: int, n: int)
    requires
        buckets_for(cap, n),
    ensures
        can_allocate::<T>(cap) <==> (cap < 16 || cap * 8 <= usize::MAX) && TableRef::<T>::fits(
            n,
            header(),
        ),
{
    lemma_buckets_for(cap, n);
}

} // verus!
