//! The insert-only table and map, and the table that may not have been allocated yet.

use horde::atomic::RawTable;
use horde::hash_builder::DefaultHashBuilder;
use horde::hash_map;
use horde::sync_insert_map::SyncInsertMap;
use horde::sync_insert_table::{self, SyncInsertTable};
use horde::util::{self, HashBuilder};
use std::collections::hash_map::{DefaultHasher, RandomState};
use std::collections::HashMap;
use std::hash::{BuildHasher, Hash, Hasher};

/// Hashes with std's randomly seeded hash function.
#[derive(Clone, Default)]
struct Random(RandomState);

impl<K: Hash> HashBuilder<K> for Random {
    fn hash_of(&self, _: K) -> u64 {
        unreachable!()
    }

    fn hash_one(&self, key: &K) -> u64 {
        self.0.hash_one(key)
    }
}

type Table<T> = SyncInsertTable<T, Random>;
type InsertMap<K, V> = SyncInsertMap<K, V, Random>;

#[test]
fn high_align() {
    #[derive(Clone, PartialEq)]
    struct A(u64, u128);

    let mut table: Table<A> = SyncInsertTable::new();

    assert!(table.get(1, |a| a == &A(1, 0)).is_none());

    table.lock().insert_new(1, A(1, 0), |a| a.0);

    assert!(table.get(1, |a| a == &A(1, 0)).is_some());
}

#[test]
fn test_create_capacity_zero() {
    let mut m: Table<(i32, i32)> = SyncInsertTable::new_with(Random::default(), 0);

    assert!(m.map_insert(1, 1).is_none());

    assert!(m.map_get(&1).is_some());
    assert!(m.map_get(&0).is_none());
}

#[test]
fn test_insert() {
    let mut m: Table<(i32, i32)> = SyncInsertTable::new();
    assert_eq!(m.len(), 0);
    assert!(m.map_insert(1, 2).is_none());
    assert_eq!(m.len(), 1);
    assert!(m.map_insert(2, 4).is_none());
    assert_eq!(m.len(), 2);
    assert_eq!(*m.map_get(&1).unwrap(), 2);
    assert_eq!(*m.map_get(&2).unwrap(), 4);
}

#[test]
fn test_iter() {
    let mut m: Table<(i32, i32)> = SyncInsertTable::new();
    assert!(m.map_insert(1, 2).is_none());
    assert!(m.map_insert(5, 3).is_none());
    assert!(m.map_insert(2, 4).is_none());
    assert!(m.map_insert(9, 4).is_none());

    let mut iter = m.iter();
    assert_eq!(iter.size_hint(), (4, Some(4)));
    let mut v: Vec<(i32, i32)> = Vec::new();
    while let Some(bucket) = iter.next() {
        v.push(*bucket.as_ref(iter.get_table()));
    }
    v.sort_by_key(|k| k.0);

    assert_eq!(v, vec![(1, 2), (2, 4), (5, 3), (9, 4)]);
}

#[test]
fn test_insert_conflicts() {
    let mut m: Table<(i32, i32)> = SyncInsertTable::new_with(Random::default(), 4);
    assert!(m.map_insert(1, 2).is_none());
    assert!(m.map_insert(5, 3).is_none());
    assert!(m.map_insert(9, 4).is_none());
    assert_eq!(*m.map_get(&9).unwrap(), 4);
    assert_eq!(*m.map_get(&5).unwrap(), 3);
    assert_eq!(*m.map_get(&1).unwrap(), 2);
}

#[test]
fn sync_insert_table_tests_test_expand() {
    let mut m: Table<(usize, usize)> = SyncInsertTable::new();

    assert_eq!(m.len(), 0);

    let mut i = 0;
    let old_raw_cap = m.buckets();
    while old_raw_cap == m.buckets() {
        m.map_insert(i, i);
        i += 1;
    }

    assert_eq!(m.len(), i);
}

#[test]
fn test_find() {
    let mut m: Table<(i32, i32)> = SyncInsertTable::new();
    assert!(m.map_get(&1).is_none());
    m.map_insert(1, 2);
    match m.map_get(&1) {
        None => panic!(),
        Some(v) => assert_eq!(*v, 2),
    }
}

#[test]
fn test_capacity_not_less_than_len() {
    let mut a: Table<(i32, i32)> = SyncInsertTable::new();
    let mut item = 0;

    for _ in 0..116 {
        a.map_insert(item, 0);
        item += 1;
    }

    assert!(a.capacity() > a.len());

    let free = a.capacity() - a.len();
    for _ in 0..free {
        a.map_insert(item, 0);
        item += 1;
    }

    assert_eq!(a.len(), a.capacity());

    // Insert at capacity should cause allocation.
    a.map_insert(item, 0);
    assert!(a.capacity() > a.len());
}

#[test]
fn rehash() {
    let builder = Random::default();
    let mut table: Table<i32> = SyncInsertTable::new_with(builder.clone(), 0);
    for i in 0..100 {
        let builder = builder.clone();
        table
            .lock()
            .insert_new(builder.hash_one(&i), i, |value| builder.hash_one(value));
    }

    for i in 0..100 {
        assert_eq!(
            table.get(builder.hash_one(&i), |x| *x == i).copied(),
            Some(i)
        );
        assert!(table
            .get(builder.hash_one(&(i + 100)), |x| *x == i + 100)
            .is_none());
    }
}

const INTERN_SIZE: u64 = 26334;
const HIT_RATE: u64 = 84;

fn assert_equal(a: &Table<(u64, u64)>, b: &HashMap<u64, u64>) {
    let mut ca: Vec<_> = b.iter().map(|v| (*v.0, *v.1)).collect();
    ca.sort();
    let mut cb = Vec::new();
    let mut iter = a.iter();
    while let Some(bucket) = iter.next() {
        cb.push(*bucket.as_ref(iter.get_table()));
    }
    cb.sort();
    assert_eq!(ca, cb);
}

#[test]
fn intern_get_insert() {
    let builder = Random::default();
    let mut control = HashMap::new();
    let mut test: Table<(u64, u64)> = SyncInsertTable::new_with(builder.clone(), 0);

    for i in 0..INTERN_SIZE {
        let mut s = DefaultHasher::new();
        s.write_u64(i);
        let s = s.finish();
        if s % 100 > (100 - HIT_RATE) {
            test.map_insert(i, i * 2);
            control.insert(i, i * 2);
        }
    }

    assert_equal(&test, &control);

    for i in 0..INTERN_SIZE {
        let hash = builder.hash_one(&i);
        let found = test.get(hash, |v| v.0 == i).is_some();
        if !found {
            test.lock()
                .insert_new(hash, (i, i * 2), |v| hash_map::hasher(&builder, v));
        }
        assert_eq!(found, control.insert(i, i * 2).is_some());
    }

    assert_equal(&test, &control);
}

#[test]
fn an_inserted_element_can_be_changed() {
    let mut table: Table<(u64, u64)> = SyncInsertTable::new();
    table.lock().insert_new(9, (1, 10), |v| v.0);
    assert!(table.get_mut(8, |v| v.0 == 2).is_none());
    table.get_mut(9, |v| v.0 == 1).expect("it is there").1 = 11;
    assert_eq!(table.get(9, |v| v.0 == 1), Some(&(1, 11)));
}

#[test]
fn map_insert_returns_a_pair_that_was_there() {
    let mut m: Table<(i32, i32)> = SyncInsertTable::new();
    assert_eq!(m.map_insert(1, 2), None);
    assert_eq!(m.map_insert(1, 3), Some((1, 3)));
    assert_eq!(m.len(), 1);
    assert_eq!(m.map_get(&1), Some(&2));
}

#[test]
fn small_capacities_have_few_buckets() {
    assert_eq!(sync_insert_table::bucket_mask_to_capacity(3), 3);
    assert_eq!(sync_insert_table::bucket_mask_to_capacity(15), 15);
    assert_eq!(sync_insert_table::bucket_mask_to_capacity(31), 28);
    assert_eq!(sync_insert_table::capacity_to_buckets(3), Some(4));
    assert_eq!(sync_insert_table::capacity_to_buckets(4), Some(16));
    assert_eq!(sync_insert_table::capacity_to_buckets(15), Some(16));
    assert_eq!(sync_insert_table::capacity_to_buckets(16), Some(32));
    assert_eq!(sync_insert_table::capacity_to_buckets(usize::MAX), None);
}

#[test]
fn sync_insert_map_test_create_capacity_zero() {
    let mut m: InsertMap<i32, i32> = SyncInsertMap::with_capacity(0);

    assert!(m.insert(1, 1).is_none());

    assert!(m.contains_key(&1));
    assert!(!m.contains_key(&0));
}

#[test]
fn sync_insert_map_test_insert() {
    let mut m: InsertMap<i32, i32> = SyncInsertMap::new();
    assert_eq!(m.len(), 0);
    assert!(m.insert(1, 2).is_none());
    assert_eq!(m.len(), 1);
    assert!(m.insert(2, 4).is_none());
    assert_eq!(m.len(), 2);
    assert_eq!(*m.get(&1).unwrap(), 2);
    assert_eq!(*m.get(&2).unwrap(), 4);
}

#[test]
fn test_insert_overwrite() {
    let mut m: InsertMap<i32, i32> = SyncInsertMap::new();
    assert!(m.insert(1, 2).is_none());
    assert_eq!(*m.get(&1).unwrap(), 2);
    assert!(!m.insert(1, 3).is_none());
    assert_eq!(*m.get(&1).unwrap(), 3);
}

#[test]
fn sync_insert_map_test_insert_conflicts() {
    let mut m: InsertMap<i32, i32> = SyncInsertMap::with_capacity(4);
    assert!(m.insert(1, 2).is_none());
    assert!(m.insert(5, 3).is_none());
    assert!(m.insert(9, 4).is_none());
    assert_eq!(*m.get(&9).unwrap(), 4);
    assert_eq!(*m.get(&5).unwrap(), 3);
    assert_eq!(*m.get(&1).unwrap(), 2);
}

#[test]
fn sync_insert_map_test_find() {
    let mut m: InsertMap<i32, i32> = SyncInsertMap::new();
    assert!(m.get(&1).is_none());
    m.insert(1, 2);
    match m.get(&1) {
        None => panic!(),
        Some(v) => assert_eq!(*v, 2),
    }
}

#[test]
fn sync_insert_map_test_expand() {
    let mut m: InsertMap<usize, usize> = SyncInsertMap::new();

    assert_eq!(m.len(), 0);
    assert!(m.is_empty());

    let mut i = 0;
    let old_raw_cap = m.raw_capacity();
    while old_raw_cap == m.raw_capacity() {
        m.insert(i, i);
        i += 1;
    }

    assert_eq!(m.len(), i);
    assert!(!m.is_empty());
}

#[test]
fn sync_insert_map_test_capacity_not_less_than_len() {
    let mut a: InsertMap<i32, i32> = SyncInsertMap::new();
    let mut item = 0;

    for _ in 0..116 {
        a.insert(item, 0);
        item += 1;
    }

    assert!(a.capacity() > a.len());

    let free = a.capacity() - a.len();
    for _ in 0..free {
        a.insert(item, 0);
        item += 1;
    }

    assert_eq!(a.len(), a.capacity());

    // Insert at capacity should cause allocation.
    a.insert(item, 0);
    assert!(a.capacity() > a.len());
}

#[test]
fn a_map_can_be_made_of_pairs_and_extended() {
    let mut m: InsertMap<i32, i32> = SyncInsertMap::from_iter(vec![(1, 10), (2, 20), (1, 11)]);
    assert_eq!(m.len(), 2);
    assert_eq!(m.raw_capacity(), 4);
    // The last of equal keys decides.
    assert_eq!(m.get_key_value(&1), Some((&1, &11)));
    m.extend(vec![(2, 21), (3, 30)]);
    assert_eq!(m.len(), 3);
    assert_eq!(m.get(&2), Some(&21));
    assert_eq!(m.get(&3), Some(&30));

    let mut iter = m.iter();
    assert_eq!(iter.len(), 3);
    let mut all = Vec::new();
    while let Some((k, v)) = iter.next() {
        all.push((*k, *v));
    }
    all.sort();
    assert_eq!(all, vec![(1, 11), (2, 21), (3, 30)]);
}

#[test]
fn reserving_makes_room() {
    let mut m: SyncInsertMap<u64, u64, DefaultHashBuilder> =
        SyncInsertMap::with_capacity_and_hasher(0, DefaultHashBuilder { seed: 3 });
    assert_eq!(m.hasher().seed, 3);
    m.reserve(50);
    let room = m.capacity();
    assert!(room >= 50);
    for i in 0..50 {
        m.insert(i, i);
    }
    assert_eq!(m.capacity(), room);
    let other: SyncInsertMap<u64, u64, DefaultHashBuilder> =
        SyncInsertMap::with_hasher(DefaultHashBuilder { seed: 4 });
    assert!(other.is_empty());
}

#[test]
fn nothing_is_found_in_a_table_that_was_never_allocated() {
    let table: RawTable<usize> = RawTable::new();
    assert!(table.find(5, |a| *a == 5).is_none());
}

#[test]
fn pairs_are_hashed_and_compared_by_their_keys() {
    let builder = DefaultHashBuilder { seed: 1 };
    assert_eq!(hash_map::hasher(&builder, &(7, "x")), builder.hash_one(&7));
    assert_eq!(util::make_insert_hash(&builder, &7), builder.hash_one(&7));
    let is_seven = hash_map::eq(&7u64);
    assert!(is_seven(&(7, 'a')));
    assert!(!is_seven(&(8, 'a')));
}

#[test]
fn what_is_possible_can_be_asked_of_a_map() {
    let mut m: InsertMap<u64, u64> = SyncInsertMap::new();
    m.insert(1, 1);
    assert!(m.may_reserve(10));
    assert!(!m.may_reserve(usize::MAX));
    let table: Table<u64> = SyncInsertTable::new();
    assert!(table.may_insert());
    assert!(Table::<u64>::can_allocate(10));
    assert!(!Table::<u64>::can_allocate(usize::MAX));
}

#[test]
fn pairs_are_not_cloned_when_a_map_is_made_of_them() {
    /// Cannot be cloned.
    #[derive(Debug, PartialEq)]
    struct Unique(i32);

    impl Clone for Unique {
        fn clone(&self) -> Self {
            panic!("it is cloned")
        }
    }

    let m: InsertMap<i32, Unique> =
        SyncInsertMap::from_iter((0..100).map(|i| (i, Unique(i))).collect());
    assert_eq!(m.len(), 100);
    assert_eq!(m.raw_capacity(), 128);
    assert_eq!(m.get(&77), Some(&Unique(77)));
}

#[test]
fn room_is_made_before_a_map_is_extended() {
    let pairs: Vec<(i32, i32)> = vec![(1, 1); 100];
    let mut m: InsertMap<i32, i32> = SyncInsertMap::with_capacity(0);
    assert_eq!(m.raw_capacity(), 1);
    m.extend(pairs.clone());
    assert_eq!(m.len(), 1);
    // Room for all pairs if the map is empty, and for half of them if it is not.
    assert_eq!(m.raw_capacity(), 128);
    let mut m: InsertMap<i32, i32> = SyncInsertMap::from_iter(vec![(0, 0)]);
    m.extend(pairs);
    assert_eq!(m.len(), 2);
    assert_eq!(m.raw_capacity(), 64);
}
