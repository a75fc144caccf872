//! The hash table, used by one or more threads in turn.

use horde::collect::{self, Collector, Data, State};
use horde::hash_builder::{DefaultHashBuilder, IdentityHashBuilder};
use horde::intern;
use horde::raw::table::TableRef;
use horde::sync_table::{capacity, shard_index_by_hash, Iter, Read, SyncTable};
use horde::util::HashBuilder;
use std::collections::hash_map::{DefaultHasher, RandomState};
use std::collections::HashMap;
use std::hash::{BuildHasher, Hash, Hasher};
use std::sync::atomic::{AtomicUsize, Ordering};
use std::sync::Arc;

/// Hashes with std's randomly seeded hash function.
#[derive(Clone, Default)]
struct Random(RandomState);

impl<K: Hash> HashBuilder<K> for Random {
    fn hash_of(&self, _: K) -> u64 {
        unreachable!()
    }

    fn hash_one(&self, key: &K) -> u64 {
        self.0.hash_one(key)
    }
}

/// A hash builder whose clone deliberately hashes differently from the one it is made of.
struct ShiftingHashBuilder(u64);

impl Clone for ShiftingHashBuilder {
    fn clone(&self) -> Self {
        ShiftingHashBuilder(self.0 + 1)
    }
}

impl HashBuilder<u64> for ShiftingHashBuilder {
    fn hash_of(&self, _: u64) -> u64 {
        unreachable!()
    }

    fn hash_one(&self, key: &u64) -> u64 {
        self.0
            .wrapping_mul(0x9E37_79B9_7F4A_7C15)
            .wrapping_add(*key)
    }
}

/// A thread and the collector that it uses.
struct World {
    collector: Collector<()>,
    thread: Data,
}

impl World {
    fn new() -> Self {
        World {
            collector: Collector::new(),
            thread: Data::new(0),
        }
    }

    fn collect(&mut self) {
        if let Some(batch) = collect::collect(&mut self.thread, &mut self.collector) {
            self.thread.restore(batch.old_state);
        }
    }

    fn release(&mut self) {
        collect::release(&mut self.thread, &mut self.collector);
    }
}

type Table<K, V> = SyncTable<K, V, Random>;

fn insert<K: Eq + Clone, V: Clone, S: HashBuilder<K>>(
    table: &mut SyncTable<K, V, S>,
    world: &mut World,
    key: K,
    value: V,
) -> bool {
    table
        .lock(&mut world.collector)
        .write()
        .insert(key, value, None)
}

fn get<K: Eq, V: Clone, S: HashBuilder<K>>(
    table: &mut SyncTable<K, V, S>,
    world: &mut World,
    key: &K,
) -> Option<V> {
    table
        .lock(&mut world.collector)
        .read()
        .get(key, None)
        .map(|(_, value)| value.clone())
}

fn len<K: Eq, V, S: HashBuilder<K>>(table: &mut SyncTable<K, V, S>, world: &mut World) -> usize {
    table.lock(&mut world.collector).read().len()
}

fn room<K: Eq, V, S: HashBuilder<K>>(table: &mut SyncTable<K, V, S>, world: &mut World) -> usize {
    table.lock(&mut world.collector).read().capacity()
}

fn buckets<K: Eq, V, S: HashBuilder<K>>(
    table: &mut SyncTable<K, V, S>,
    world: &mut World,
) -> usize {
    table.lock(&mut world.collector).read().dump().len()
}

fn entries<K: Eq + Clone, V: Clone, S: HashBuilder<K>>(read: Read<'_, K, V, S>) -> Vec<(K, V)> {
    let mut iter: Iter<'_, K, V> = read.iter();
    let mut all = Vec::new();
    while let Some((key, value)) = iter.next() {
        all.push((key.clone(), value.clone()));
    }
    all
}

/// A value that counts how often it has been dropped.
#[derive(Clone)]
struct Counted {
    // A heap allocation, so that a value dropped too early would be missing.
    name: String,
    drops: Arc<AtomicUsize>,
}

impl Drop for Counted {
    fn drop(&mut self) {
        self.drops.fetch_add(1, Ordering::SeqCst);
    }
}

#[test]
fn layout_rejects_bucket_storage_above_isize_max_bytes() {
    let bucket_count = isize::MAX as usize / std::mem::size_of::<u16>() + 1;

    assert!(TableRef::<u16>::layout(bucket_count).is_none());
}

#[test]
fn layout_rejects_control_bytes_above_isize_max() {
    assert!(TableRef::<()>::layout(isize::MAX as usize).is_none());
}

#[test]
fn tests_high_align() {
    #[derive(Clone, Eq, PartialEq, Hash)]
    struct A(u64, u128);

    let mut world = World::new();
    let mut table: Table<A, i32> = SyncTable::new();

    assert!(table.get_mut(&A(1, 0), None).is_none());

    table
        .lock(&mut world.collector)
        .write()
        .insert_new(A(1, 0), 1, None);

    assert_eq!(table.get_mut(&A(1, 0), None).map(|(_, v)| *v), Some(1));

    world.release();
}

#[test]
fn low_align_with_padding_before_table_info() {
    let mut world = World::new();
    let mut m: Table<u8, ()> = SyncTable::new();

    assert!(insert(&mut m, &mut world, 1, ()));
    assert!(insert(&mut m, &mut world, 2, ()));
    assert!(insert(&mut m, &mut world, 3, ()));

    let write = m.lock(&mut world.collector);
    let read = write.read();
    assert!(read.get(&1, None).is_some());
    assert!(read.get(&2, None).is_some());
    assert!(read.get(&3, None).is_some());
    assert_eq!(entries(read).len(), 3);
}

#[test]
fn tests_test_create_capacity_zero() {
    let mut world = World::new();
    let mut m: Table<i32, i32> = SyncTable::new_with(Random::default(), 0);

    assert!(insert(&mut m, &mut world, 1, 1));

    assert!(get(&mut m, &mut world, &1).is_some());
    assert!(get(&mut m, &mut world, &0).is_none());

    world.release();
}

#[test]
fn clone_empty_reuses_static_table() {
    let mut world = World::new();
    let mut m: Table<i32, i32> = SyncTable::new();
    let mut cloned = m.clone(&mut world.thread, &mut world.collector);

    // Neither has storage of its own: there is one bucket, and it never holds anything.
    assert_eq!(buckets(&mut m, &mut world), 1);
    assert_eq!(buckets(&mut cloned, &mut world), 1);
    assert_eq!(room(&mut cloned, &mut world), 0);

    world.release();
}

#[test]
fn clone_rehashes_a_non_empty_table() {
    const KEYS: u64 = 100;

    let mut world = World::new();
    let mut m: Table<u64, String> = SyncTable::new();
    for i in 0..KEYS {
        assert!(insert(&mut m, &mut world, i, format!("v{i}")));
    }

    let mut cloned = m.clone(&mut world.thread, &mut world.collector);

    assert_eq!(room(&mut cloned, &mut world), room(&mut m, &mut world));
    assert_eq!(len(&mut cloned, &mut world), KEYS as usize);

    for i in 0..KEYS {
        assert_eq!(get(&mut cloned, &mut world, &i), Some(format!("v{i}")));
    }
    assert_eq!(get(&mut cloned, &mut world, &KEYS), None);

    // The two tables are independent.
    assert!(insert(&mut cloned, &mut world, KEYS, "extra".to_owned()));
    assert_eq!(get(&mut m, &mut world, &KEYS), None);

    cloned.drop_impl(&mut world.collector);

    for i in 0..KEYS {
        assert_eq!(get(&mut m, &mut world, &i), Some(format!("v{i}")));
    }
}

#[test]
fn clone_rehashes_with_the_clones_own_hasher() {
    const KEYS: u64 = 40;

    let mut world = World::new();
    let mut m: SyncTable<u64, u64, ShiftingHashBuilder> =
        SyncTable::new_with(ShiftingHashBuilder(0), KEYS as usize);

    for i in 0..KEYS {
        assert!(insert(&mut m, &mut world, i, i));
    }

    let mut cloned = m.clone(&mut world.thread, &mut world.collector);

    // Placed by the clone's hashes, so found by them too.
    for i in 0..KEYS {
        assert_eq!(get(&mut cloned, &mut world, &i), Some(i));
    }

    // The first table still finds its elements under its own hashes.
    for i in 0..KEYS {
        assert_eq!(get(&mut m, &mut world, &i), Some(i));
    }
}

#[test]
fn tests_test_replace() {
    let mut world = World::new();
    let mut m: Table<i32, i32> = SyncTable::new();
    insert(&mut m, &mut world, 2, 7);
    insert(&mut m, &mut world, 5, 3);
    m.lock(&mut world.collector)
        .write()
        .replace(vec![(3, 4)], 0);
    assert_eq!(get(&mut m, &mut world, &3), Some(4));
    assert_eq!(get(&mut m, &mut world, &2), None);
    assert_eq!(get(&mut m, &mut world, &5), None);
    m.lock(&mut world.collector).write().replace(vec![], 0);
    assert_eq!(get(&mut m, &mut world, &3), None);
    assert_eq!(get(&mut m, &mut world, &2), None);
    assert_eq!(get(&mut m, &mut world, &5), None);
    world.release();
}

#[test]
fn replace_empty_preserves_requested_capacity() {
    let mut world = World::new();
    let mut m: Table<i32, i32> = SyncTable::new();

    m.lock(&mut world.collector)
        .write()
        .replace(Vec::new(), 100);

    collect::pin(&mut world.thread, &mut world.collector, |pin, _, _| {
        assert_eq!(m.read(pin).len(), 0);
        assert!(m.read(pin).capacity() >= 100);
    });

    world.release();
}

#[test]
fn replace_then_forget_leaks_retired_values() {
    #[derive(Clone)]
    struct DropCounter(Arc<AtomicUsize>);

    impl Drop for DropCounter {
        fn drop(&mut self) {
            self.0.fetch_add(1, Ordering::SeqCst);
        }
    }

    let mut world = World::new();
    let drops = Arc::new(AtomicUsize::new(0));
    let mut table: Table<usize, DropCounter> = SyncTable::new_with(Random::default(), 1);

    assert!(insert(&mut table, &mut world, 1, DropCounter(drops.clone())));
    table
        .lock(&mut world.collector)
        .write()
        .replace(Vec::new(), 0);

    std::mem::forget(table);

    world.collect();

    assert_eq!(drops.load(Ordering::SeqCst), 0);
}

#[test]
fn test_remove() {
    let mut world = World::new();
    let mut m: Table<i32, i32> = SyncTable::new();
    insert(&mut m, &mut world, 2, 7);
    insert(&mut m, &mut world, 5, 3);
    m.lock(&mut world.collector).write().remove(&2, None);
    m.lock(&mut world.collector).write().remove(&5, None);
    assert_eq!(get(&mut m, &mut world, &2), None);
    assert_eq!(get(&mut m, &mut world, &5), None);
    assert_eq!(len(&mut m, &mut world), 0);
    world.release();
}

#[test]
fn remove_drops_values_after_reclamation() {
    let mut world = World::new();
    let drops = Arc::new(AtomicUsize::new(0));
    let mut table: Table<usize, Counted> = SyncTable::new();

    assert!(insert(
        &mut table,
        &mut world,
        1,
        Counted {
            name: "one".to_owned(),
            drops: drops.clone(),
        },
    ));

    {
        let mut lock = table.lock(&mut world.collector);
        let (key, value) = lock
            .write()
            .remove(&1, None)
            .expect("the key was inserted");

        // The value must stay alive until the table holding it is reclaimed.
        assert_eq!(drops.load(Ordering::SeqCst), 0);
        assert_eq!(*key, 1);
        assert_eq!(value.name, "one");
    }

    table
        .lock(&mut world.collector)
        .write()
        .replace(Vec::new(), 0);
    for _ in 0..4 {
        world.release();
        world.collect();
    }

    table.write(&mut world.collector).prune();

    assert_eq!(drops.load(Ordering::SeqCst), 1);
}

#[test]
fn tests_test_insert() {
    let mut world = World::new();
    let mut m: Table<i32, i32> = SyncTable::new();
    assert_eq!(len(&mut m, &mut world), 0);
    assert!(insert(&mut m, &mut world, 1, 2));
    assert_eq!(len(&mut m, &mut world), 1);
    assert!(insert(&mut m, &mut world, 2, 4));
    assert_eq!(len(&mut m, &mut world), 2);
    assert_eq!(get(&mut m, &mut world, &1), Some(2));
    assert_eq!(get(&mut m, &mut world, &2), Some(4));

    world.release();
}

/// A pinned reader keeps the table it reads from alive, however often a writer replaces it.
#[test]
fn concurrent_read_across_a_table_retirement() {
    // Exactly the capacity of the first allocation, so the writer below grows the table
    // the reader is pinned on straight away.
    const KEYS: usize = 14;
    const EXTRA: usize = 42;

    let mut world = World::new();
    let mut reader = Data::new(1);
    let drops = Arc::new(AtomicUsize::new(0));
    let value = |i: usize| Counted {
        name: format!("v{i}"),
        drops: drops.clone(),
    };

    let mut table: Table<usize, Counted> = SyncTable::new();
    for i in 0..KEYS {
        assert!(insert(&mut table, &mut world, i, value(i)));
    }

    collect::pin_cold(&mut reader, &mut world.collector);
    let old_state = reader.enter();

    {
        let mut lock = table.lock_no_prune(&mut world.collector);

        // Grow the table several times over, retiring the reader's table on the way.
        for i in KEYS..KEYS + EXTRA {
            assert!(lock.write().insert(i, value(i), None));
        }
    }

    // Give the collector every chance to hand the retired tables back.
    for _ in 0..4 {
        world.collect();
    }
    table.write(&mut world.collector).prune();

    assert!(table.retired_len() > 0, "no table was retired");
    assert_eq!(drops.load(Ordering::SeqCst), 0);

    reader.restore(old_state);
    collect::release(&mut reader, &mut world.collector);

    // With the reader unpinned and gone, the retired tables can go too.
    for _ in 0..4 {
        world.release();
        world.collect();
    }

    table.write(&mut world.collector).prune();

    assert_eq!(table.retired_len(), 0);
    assert!(drops.load(Ordering::SeqCst) > 0);

    // The elements the retired tables held were copies; the current table still has its own.
    for i in 0..KEYS + EXTRA {
        assert_eq!(
            table
                .write(&mut world.collector)
                .read()
                .get(&i, None)
                .map(|(_, value)| value.name.clone()),
            Some(format!("v{i}"))
        );
    }
}

#[test]
fn tests_test_iter() {
    let mut world = World::new();
    let mut m: Table<i32, i32> = SyncTable::new();
    assert!(insert(&mut m, &mut world, 1, 2));
    assert!(insert(&mut m, &mut world, 5, 3));
    assert!(insert(&mut m, &mut world, 2, 4));
    assert!(insert(&mut m, &mut world, 9, 4));

    collect::pin(&mut world.thread, &mut world.collector, |pin, _, _| {
        let mut v: Vec<(i32, i32)> = entries(m.read(pin));
        v.sort_by_key(|k| k.0);

        assert_eq!(v, vec![(1, 2), (2, 4), (5, 3), (9, 4)]);
    });

    world.release();
}

#[test]
fn tests_test_insert_conflicts() {
    let mut world = World::new();
    let mut m: Table<i32, i32> = SyncTable::new_with(Random::default(), 4);
    assert!(insert(&mut m, &mut world, 1, 2));
    assert!(insert(&mut m, &mut world, 5, 3));
    assert!(insert(&mut m, &mut world, 9, 4));
    assert_eq!(get(&mut m, &mut world, &9), Some(4));
    assert_eq!(get(&mut m, &mut world, &5), Some(3));
    assert_eq!(get(&mut m, &mut world, &1), Some(2));

    world.release();
}

#[test]
fn tests_test_expand() {
    let mut world = World::new();
    let mut m: Table<usize, usize> = SyncTable::new();

    assert_eq!(len(&mut m, &mut world), 0);

    // Take the bucket count after the first insert: a new table has no storage.
    insert(&mut m, &mut world, 0, 0);
    let old_raw_cap = buckets(&mut m, &mut world);

    let mut i = 1;
    while old_raw_cap == buckets(&mut m, &mut world) {
        insert(&mut m, &mut world, i, i);
        i += 1;
    }

    assert!(buckets(&mut m, &mut world) > old_raw_cap);
    assert_eq!(len(&mut m, &mut world), i);

    // Everything the rehash moved must still be there.
    for key in 0..i {
        assert_eq!(get(&mut m, &mut world, &key), Some(key));
    }

    world.release();
}

#[test]
fn tests_test_find() {
    let mut world = World::new();
    let mut m: Table<i32, i32> = SyncTable::new();
    assert!(get(&mut m, &mut world, &1).is_none());
    insert(&mut m, &mut world, 1, 2);
    match get(&mut m, &mut world, &1) {
        None => panic!(),
        Some(v) => assert_eq!(v, 2),
    }

    world.release();
}

#[test]
fn tests_test_capacity_not_less_than_len() {
    let mut world = World::new();
    let mut a: Table<i32, i32> = SyncTable::new();
    let mut item = 0;

    for _ in 0..116 {
        insert(&mut a, &mut world, item, 0);
        item += 1;
    }

    assert!(room(&mut a, &mut world) > len(&mut a, &mut world));

    let free = room(&mut a, &mut world) - len(&mut a, &mut world);
    for _ in 0..free {
        insert(&mut a, &mut world, item, 0);
        item += 1;
    }

    assert_eq!(len(&mut a, &mut world), room(&mut a, &mut world));

    // Insert at capacity should cause allocation.
    insert(&mut a, &mut world, item, 0);
    assert!(room(&mut a, &mut world) > len(&mut a, &mut world));

    world.release();
}

#[test]
fn tests_rehash() {
    let mut world = World::new();
    let mut table: Table<i32, ()> = SyncTable::new();
    for i in 0..100 {
        table
            .lock(&mut world.collector)
            .write()
            .insert_new(i, (), None);
    }

    collect::pin(&mut world.thread, &mut world.collector, |pin, _, _| {
        for i in 0..100 {
            assert_eq!(table.read(pin).get(&i, None).map(|b| *b.0), Some(i));
            assert!(table.read(pin).get(&(i + 100), None).is_none());
        }
    });

    world.release();
}

const INTERN_SIZE: u64 = 26334;
const HIT_RATE: u64 = 84;

fn assert_equal(a: &mut Table<u64, u64>, world: &mut World, b: &HashMap<u64, u64>) {
    let mut ca: Vec<_> = b.iter().map(|v| (*v.0, *v.1)).collect();
    ca.sort();
    let mut cb: Vec<_> = entries(a.write(&mut world.collector).read());
    cb.sort();
    assert_eq!(ca, cb);
}

fn test_interning(intern: impl Fn(&mut Table<u64, u64>, &mut World, u64, u64) -> bool) {
    let mut world = World::new();
    let mut control = HashMap::new();
    let mut test: Table<u64, u64> = SyncTable::new();

    for i in 0..INTERN_SIZE {
        let mut s = DefaultHasher::new();
        s.write_u64(i);
        let s = s.finish();
        if s % 100 > (100 - HIT_RATE) {
            insert(&mut test, &mut world, i, i * 2);
            control.insert(i, i * 2);
        }
    }

    assert_equal(&mut test, &mut world, &control);

    for i in 0..INTERN_SIZE {
        assert_eq!(
            intern(&mut test, &mut world, i, i * 2),
            control.insert(i, i * 2).is_some()
        )
    }

    assert_equal(&mut test, &mut world, &control);

    world.release();
}

#[test]
fn tests_intern_potential() {
    fn intern(table: &mut Table<u64, u64>, world: &mut World, k: u64, v: u64) -> bool {
        let hash = table.hash_key(&k);
        let found = collect::pin(&mut world.thread, &mut world.collector, |pin, _, _| {
            table.read(pin).get_potential(&k, Some(hash)).map(|_| ())
        });
        let p = match found {
            Ok(_) => return true,
            Err(p) => p,
        };

        let mut lock = table.lock(&mut world.collector);
        match p.get(lock.read(), &k, Some(hash)) {
            Some(v) => {
                let _ = v.1;
                true
            }
            None => {
                p.insert_new(lock.write(), k, v, Some(hash));
                false
            }
        }
    }

    test_interning(intern);
}

#[test]
fn tests_intern_get_insert() {
    fn intern(table: &mut Table<u64, u64>, world: &mut World, k: u64, v: u64) -> bool {
        let hash = table.hash_key(&k);
        let found = collect::pin(&mut world.thread, &mut world.collector, |pin, _, _| {
            table.read(pin).get(&k, Some(hash)).is_some()
        });
        if found {
            return true;
        }

        let mut lock = table.lock(&mut world.collector);
        let write = lock.write();
        match write.read().get(&k, Some(hash)) {
            Some(_) => return true,
            None => (),
        }
        write.insert_new(k, v, Some(hash));
        false
    }

    test_interning(intern);
}

/// Removed elements leave tombstones. Reclaiming them must not require a bigger table, otherwise
/// insert/remove churn grows the table without bound.
#[test]
fn insert_remove_churn_does_not_grow_the_table() {
    let mut world = World::new();
    let mut m: Table<u64, u64> = SyncTable::new();

    assert!(insert(&mut m, &mut world, 0, 0));
    assert!(m
        .lock(&mut world.collector)
        .write()
        .remove(&0, None)
        .is_some());

    let before = buckets(&mut m, &mut world);

    for i in 1..2000 {
        assert!(insert(&mut m, &mut world, i, i));
        assert!(m
            .lock(&mut world.collector)
            .write()
            .remove(&i, None)
            .is_some());
    }

    assert_eq!(len(&mut m, &mut world), 0);
    assert_eq!(buckets(&mut m, &mut world), before);

    world.release();
}

/// A table which is mostly tombstones is rehashed into a smaller one, so churn on a table
/// which once was large does not keep its memory around forever.
#[test]
fn insert_remove_churn_shrinks_a_mostly_empty_table() {
    let mut world = World::new();
    let mut m: Table<u64, u64> = SyncTable::new();

    for i in 0..2000 {
        assert!(insert(&mut m, &mut world, i, i));
    }

    let grown = buckets(&mut m, &mut world);

    for i in 0..1990 {
        assert!(m
            .lock(&mut world.collector)
            .write()
            .remove(&i, None)
            .is_some());
    }

    // The removals only leave tombstones behind, so the table is still fully grown.
    assert_eq!(buckets(&mut m, &mut world), grown);

    // Churn until the tombstones exhaust the room and force a rehash.
    for i in 2000..4000 {
        assert!(insert(&mut m, &mut world, i, i));
        assert!(m
            .lock(&mut world.collector)
            .write()
            .remove(&i, None)
            .is_some());
    }

    let shrunk = buckets(&mut m, &mut world);
    assert!(
        shrunk < grown,
        "{shrunk} buckets is not smaller than {grown}"
    );

    let lock = m.lock(&mut world.collector);
    let read = lock.read();
    assert_eq!(read.len(), 10);
    for i in 1990..2000 {
        assert_eq!(read.get(&i, None), Some((&i, &i)));
    }
}

#[test]
fn tests_replace_sizes_by_the_actual_iterator_length() {
    let mut world = World::new();
    let mut m: Table<i32, i32> = SyncTable::new();

    m.write(&mut world.collector).replace(
        (0..1000i32).filter(|x| *x < 3).map(|x| (x, x)).collect(),
        0,
    );

    let write = m.write(&mut world.collector);
    let read = write.read();
    assert_eq!(read.len(), 3);
    assert!(read.capacity() < 1000);
}

/// Lookups stop only on a bucket that was never used, so a key whose probe sequence starts on a
/// tombstone must still be found.
#[test]
fn lookup_probes_past_a_tombstone() {
    // Hashes are the keys themselves. Every key is a multiple of the bucket count, so they
    // all start their probe sequence at bucket 0, and their top bits are all zero, so they
    // share a control byte too. They fill consecutive buckets from there.
    const STRIDE: u64 = 1024;
    const KEYS: u64 = 32;

    let mut world = World::new();
    let mut m: SyncTable<u64, u64, IdentityHashBuilder> =
        SyncTable::new_with(IdentityHashBuilder, KEYS as usize);

    for i in 0..KEYS {
        assert!(insert(&mut m, &mut world, i * STRIDE, i * 10));
    }

    // Tombstone the first bucket of the probe sequence all of them share. The keys past the
    // first group now sit behind a full group which starts on that tombstone.
    assert_eq!(
        m.lock(&mut world.collector)
            .write()
            .remove(&0, None)
            .map(|(key, _)| *key),
        Some(0)
    );

    for i in 1..KEYS {
        assert_eq!(
            get(&mut m, &mut world, &(i * STRIDE)),
            Some(i * 10),
            "the lookup for key {} did not probe past the tombstone",
            i * STRIDE
        );
    }

    // Tombstones are never reused, so this takes a bucket past all of the above and has to
    // be found through the tombstone it left behind.
    assert!(insert(&mut m, &mut world, 0, 1));
    assert_eq!(get(&mut m, &mut world, &0), Some(1));

    // A missing key sharing the same probe sequence must still stop, at the first empty
    // bucket after all of them.
    assert_eq!(get(&mut m, &mut world, &(KEYS * STRIDE)), None);
}

#[test]
fn a_dump_shows_tombstones_and_their_elements() {
    let mut world = World::new();
    let mut m: SyncTable<u64, u64, IdentityHashBuilder> = SyncTable::new();
    assert_eq!(m.lock(&mut world.collector).read().dump(), vec![(255, None)]);

    assert!(insert(&mut m, &mut world, 3, 30));
    assert!(insert(&mut m, &mut world, 5, 50));
    m.lock(&mut world.collector).write().remove(&3, None);

    let lock = m.lock(&mut world.collector);
    let rows = lock.read().dump();
    assert_eq!(rows.len(), 16);
    for (i, row) in rows.iter().enumerate() {
        match i {
            3 => assert_eq!(*row, (128, Some((&3, &30)))),
            5 => assert_eq!(*row, (0, Some((&5, &50)))),
            _ => assert_eq!(*row, (255, None)),
        }
    }
}

#[test]
fn an_expansion_retires_the_table_once() {
    let mut world = World::new();
    let mut m: SyncTable<u64, u64, DefaultHashBuilder> = SyncTable::new();
    for i in 0..14 {
        assert!(insert(&mut m, &mut world, i, i));
    }
    assert_eq!(buckets(&mut m, &mut world), 16);
    assert_eq!(room(&mut m, &mut world), 14);
    assert_eq!(m.retired_len(), 0);
    m.lock(&mut world.collector).write().reserve_one();
    assert_eq!(buckets(&mut m, &mut world), 32);
    assert_eq!(room(&mut m, &mut world), 28);
    assert_eq!(m.retired_len(), 1);
    // There is room now.
    m.lock(&mut world.collector).write().reserve_one();
    assert_eq!(m.retired_len(), 1);
    world.collect();
    m.lock(&mut world.collector);
    assert_eq!(m.retired_len(), 0);
}

#[test]
fn a_slot_survives_other_insertions_and_an_expansion() {
    let mut world = World::new();
    let mut m: SyncTable<u64, u64, DefaultHashBuilder> = SyncTable::new();
    let slot = collect::pin(&mut world.thread, &mut world.collector, |pin, _, _| {
        m.read(pin).get_potential(&7, None).map(|_| ())
    })
    .expect_err("the table is empty");
    for i in 100..140 {
        assert!(insert(&mut m, &mut world, i, i));
    }
    assert!(slot
        .get(m.lock(&mut world.collector).read(), &7, None)
        .is_none());
    let mut lock = m.lock(&mut world.collector);
    assert_eq!(
        slot.insert_new(lock.write(), 7, 70, None),
        (&7, &70)
    );
    // The slot is taken now.
    assert_eq!(
        slot.get(lock.read(), &7, None),
        Some((&7, &70))
    );
    assert_eq!(
        slot.refresh(lock.read(), &7, None).ok(),
        Some((&7, &70))
    );
    assert_eq!(lock.read().len(), 41);
}

#[test]
fn a_value_can_be_changed_in_place() {
    let mut world = World::new();
    let mut m: SyncTable<u64, u64, DefaultHashBuilder> = SyncTable::new();
    assert!(insert(&mut m, &mut world, 1, 10));
    assert!(!insert(&mut m, &mut world, 1, 11));
    assert_eq!(get(&mut m, &mut world, &1), Some(10));
    let (key, value) = m.get_mut(&1, None).expect("the key was inserted");
    assert_eq!((*key, *value), (1, 10));
    *value = 12;
    assert_eq!(get(&mut m, &mut world, &1), Some(12));
    assert!(m.get_mut(&2, None).is_none());
}

#[test]
fn lookups_by_hash_use_the_given_match() {
    let mut world = World::new();
    let mut m: SyncTable<u64, u64, IdentityHashBuilder> = SyncTable::new();
    assert!(insert(&mut m, &mut world, 3, 30));
    let lock = m.lock(&mut world.collector);
    let read = lock.read();
    assert_eq!(read.hash_key(&3), 3);
    assert_eq!(read.get_from_hash(3, |k| *k == 3), Some((&3, &30)));
    assert_eq!(read.get_from_hash(3, |k| *k == 4), None);
    assert_eq!(read.get_with_eq(3, |_, v| *v == 30), Some((&3, &30)));
    assert_eq!(read.get_with_eq(3, |_, v| *v == 31), None);
}

#[test]
fn from_iter_takes_the_first_of_equal_keys() {
    let mut world = World::new();
    let mut m: SyncTable<u64, u64, DefaultHashBuilder> =
        SyncTable::from_iter(vec![(1, 10), (2, 20), (1, 11)], &mut world.collector);
    assert_eq!(len(&mut m, &mut world), 2);
    assert_eq!(get(&mut m, &mut world, &1), Some(10));
    assert_eq!(get(&mut m, &mut world, &2), Some(20));
}

#[test]
fn all_ways_of_interning_agree() {
    let mut world = World::new();
    let mut a: SyncTable<u64, u64, DefaultHashBuilder> = SyncTable::new();
    let mut b: SyncTable<u64, u64, DefaultHashBuilder> = SyncTable::new();
    let mut c: SyncTable<u64, u64, DefaultHashBuilder> = SyncTable::new();
    for i in 0..200 {
        let key = i % 60;
        collect::pin(
            &mut world.thread,
            &mut world.collector,
            |pin, _, collector| {
                assert_eq!(intern::intern_triple(&mut a, collector, key, i, pin), key);
                assert_eq!(intern::intern(&mut b, collector, key, i, pin), key);
                let hash = c.hash_key(&key);
                assert_eq!(
                    intern::intern_refresh(&mut c, collector, key, i, hash, pin),
                    key
                );
            },
        );
    }
    for table in [&mut a, &mut b, &mut c] {
        assert_eq!(len(table, &mut world), 60);
    }
}

#[test]
fn capacities_follow_the_load_factor() {
    assert_eq!(capacity::bucket_mask_to_capacity(0), 0);
    assert_eq!(capacity::bucket_mask_to_capacity(15), 14);
    assert_eq!(capacity::bucket_mask_to_capacity(31), 28);
    assert_eq!(capacity::capacity_to_buckets(1), Some(16));
    assert_eq!(capacity::capacity_to_buckets(14), Some(16));
    assert_eq!(capacity::capacity_to_buckets(15), Some(32));
    assert_eq!(capacity::capacity_to_buckets(29), Some(64));
    assert_eq!(capacity::capacity_to_buckets(usize::MAX), None);
    assert_eq!(capacity::next_power_of_two(17), 32);
    assert!(SyncTable::<u64, u64, DefaultHashBuilder>::can_allocate(1000));
    assert!(!SyncTable::<u64, u64, DefaultHashBuilder>::can_allocate(
        usize::MAX
    ));
}

#[test]
fn hash_builders_hash() {
    assert_eq!(IdentityHashBuilder.hash_one(&77), 77);
    let mut expected = DefaultHasher::new();
    expected.write(&5u64.to_le_bytes());
    expected.write(&77u64.to_le_bytes());
    assert_eq!(
        DefaultHashBuilder { seed: 5 }.hash_one(&77),
        expected.finish()
    );
    // The seed is random.
    assert_ne!(
        DefaultHashBuilder::default().seed,
        DefaultHashBuilder::default().seed
    );
}

#[test]
fn shards_are_picked_by_high_bits() {
    assert_eq!(shard_index_by_hash(u64::MAX, 1), 0);
    assert_eq!(shard_index_by_hash(u64::MAX, 32), 31);
    assert_eq!(shard_index_by_hash(0x0123_4567_89ab_cdef, 4), 2);
    assert_eq!(shard_index_by_hash(0x0123_4567_89ab_cdef, 32), 18);
    // The top 7 bits are ignored.
    assert_eq!(shard_index_by_hash(0xfe00_0000_0000_0000, 32), 0);
}

#[test]
fn what_is_possible_can_be_asked() {
    let mut world = World::new();
    let mut m: SyncTable<u64, u64, DefaultHashBuilder> = SyncTable::new();
    assert!(m.may_insert(&world.collector));
    assert!(m.may_replace(&world.collector, 3, 100));
    assert!(!m.may_replace(&world.collector, 3, usize::MAX));
    for i in 0..14 {
        assert!(insert(&mut m, &mut world, i, i));
    }
    assert!(m.may_insert(&world.collector));
    assert!(world.collector.has_ids());
}

#[test]
fn concurrent_get_and_insert() {
    let mut world = World::new();
    let mut reader = Data::new(1);
    let mut table: Table<i32, i32> = SyncTable::new();

    for turn in 0..8 {
        let found = collect::pin(&mut reader, &mut world.collector, |pin, _, _| {
            table.read(pin).get(&1, None).map(|(_, value)| *value)
        });
        assert_eq!(found, if turn < 4 { None } else { Some(2) });
        if turn == 3 {
            assert!(insert(&mut table, &mut world, 1, 2));
        }
    }
    collect::release(&mut reader, &mut world.collector);
    world.release();
}

#[test]
fn concurrent_get_and_remove() {
    let mut world = World::new();
    let mut reader = Data::new(1);
    let mut table: Table<i32, i32> = SyncTable::new();

    assert!(insert(&mut table, &mut world, 1, 2));

    for turn in 0..8 {
        let found = collect::pin(&mut reader, &mut world.collector, |pin, _, _| {
            table.read(pin).get(&1, None).map(|(_, value)| *value)
        });
        assert_eq!(found, if turn < 4 { Some(2) } else { None });
        if turn == 3 {
            assert_eq!(
                table
                    .lock(&mut world.collector)
                    .write()
                    .remove(&1, None)
                    .map(|(_, value)| *value),
                Some(2)
            );
        }
    }
    collect::release(&mut reader, &mut world.collector);
    world.release();
}

#[test]
fn concurrent_insert_remove_and_get() {
    let mut world = World::new();
    let mut reader = Data::new(1);
    let mut table: Table<i32, i32> = SyncTable::new();

    let mut look = |table: &Table<i32, i32>, world: &mut World| {
        collect::pin(&mut reader, &mut world.collector, |pin, _, _| {
            let read = table.read(pin);
            (
                read.get(&1, None).map(|(_, value)| *value),
                read.get(&2, None).map(|(_, value)| *value),
            )
        })
    };

    assert_eq!(look(&table, &mut world), (None, None));
    assert!(insert(&mut table, &mut world, 1, 2));
    assert_eq!(look(&table, &mut world), (Some(2), None));
    assert_eq!(
        table
            .lock(&mut world.collector)
            .write()
            .remove(&1, None)
            .map(|(_, value)| *value),
        Some(2)
    );
    assert_eq!(look(&table, &mut world), (None, None));
    assert!(insert(&mut table, &mut world, 2, 4));
    assert_eq!(look(&table, &mut world), (None, Some(4)));
}

#[test]
fn cloning_registers_the_thread() {
    let mut world = World::new();
    let mut m: Table<u64, u64> = SyncTable::new();
    assert!(insert(&mut m, &mut world, 1, 2));
    assert_eq!(world.thread.state(), State::Unregistered);

    let mut cloned = m.clone(&mut world.thread, &mut world.collector);
    assert_eq!(world.thread.state(), State::Registered);
    assert_eq!(world.collector.thread_count(), 1);
    assert_eq!(get(&mut cloned, &mut world, &1), Some(2));

    // A pinned thread stays pinned.
    let old_state = world.thread.enter();
    let mut cloned = m.clone(&mut world.thread, &mut world.collector);
    assert_eq!(world.thread.state(), State::Pinned);
    world.thread.restore(old_state);
    assert_eq!(get(&mut cloned, &mut world, &1), Some(2));

    world.release();
}

#[test]
fn interning_keeps_what_it_does_not_need() {
    let mut world = World::new();
    let mut m: SyncTable<u64, u64, DefaultHashBuilder> = SyncTable::new();
    collect::pin_cold(&mut world.thread, &mut world.collector);
    let old_state = world.thread.enter();
    let seed = m.hasher().seed;
    for key in 0..15 {
        let hash = m.hash_key(&key);
        let pin = world.thread.pinned();
        assert_eq!(intern::intern_refresh(&mut m, &mut world.collector, key, key, hash, pin), key);
    }
    // The table has been replaced once, and is kept because of the pin.
    assert_eq!(m.retired_len(), 1);
    assert_eq!(m.hasher().seed, seed);

    // A key that is there changes nothing.
    let events = world.collector.events();
    let pin = world.thread.pinned();
    assert_eq!(intern::intern(&mut m, &mut world.collector, 3, 9, pin), 3);
    assert_eq!(intern::intern_triple(&mut m, &mut world.collector, 4, 9, pin), 4);
    assert_eq!(m.retired_len(), 1);
    assert_eq!(world.collector.events(), events);
    world.thread.restore(old_state);
}
