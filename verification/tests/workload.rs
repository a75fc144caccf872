//! The workloads, on integers and on values that count how many of them are alive.

use horde::collect::{Collector, Data};
use horde::hash_builder::DefaultHashBuilder;
use horde::sync_table::SyncTable;
use horde::util::HashBuilder;
use horde::workload::drop::{self, fuzz_sync_table_drop};
use horde::workload::fuzz::{self, fuzz_sync_table};
use horde::workload::ops::Op;
use horde::workload::steps::{self, fuzz_sync_table_concurrent, Step};
use horde::workload::{self, ByteValue, Input, Model};
use std::sync::atomic::{AtomicUsize, Ordering};

/// Hashes bytes.
#[derive(Clone, Default)]
struct Bytes(DefaultHashBuilder);

impl HashBuilder<u8> for Bytes {
    fn hash_of(&self, _: u8) -> u64 {
        unreachable!()
    }

    fn hash_one(&self, key: &u8) -> u64 {
        self.0.hash_one(&u64::from(*key))
    }
}

/// Gives all bytes few hashes.
#[derive(Clone, Default)]
struct Colliding;

impl HashBuilder<u8> for Colliding {
    fn hash_of(&self, _: u8) -> u64 {
        unreachable!()
    }

    fn hash_one(&self, key: &u8) -> u64 {
        u64::from(*key % 3)
    }
}

/// Bytes that look random.
fn noise(seed: u64, len: usize) -> Vec<u8> {
    let mut state = seed.wrapping_mul(0x9E37_79B9_7F4A_7C15) | 1;
    (0..len)
        .map(|_| {
            state ^= state << 13;
            state ^= state >> 7;
            state ^= state << 17;
            (state >> 24) as u8
        })
        .collect()
}

fn values(model: &Model) -> Vec<(u8, u8)> {
    workload::model_snapshot(model)
}

fn model_of(pairs: &[(u8, u8)]) -> Model {
    let mut model = workload::empty_model();
    for (key, value) in pairs {
        model[*key as usize] = Some(*value);
    }
    model
}

#[test]
fn input_runs_out() {
    let data = [3, 4];
    let mut input = Input::new(&data);
    assert!(input.next_bool());
    assert_eq!(input.next(), Some(4));
    assert_eq!(input.next(), None);
    assert_eq!(input.next_or(9), 9);
    assert!(!input.next_bool());
}

#[test]
fn single_operations_follow_the_model() {
    let data = [
        0, 1, 10, 1, // insert 1 => 10
        0, 1, 11, 0, // 1 is there already
        1, 2, 20, 0, // insert 2 => 20
        2, 1, 0, 1, // remove 1
        5, 3, 30, 0b1111, // insert 3 => 30 by way of a slot
        6, 2, 21, 1, // change the value of 2
        4, 2, 0, 0, // look up 2
        7, 0, 0, // clone
        8, 0, 0, // make room
    ];
    let (model, ok) = fuzz_sync_table::<u8, Bytes>(&data).expect("tables of bytes fit");
    assert!(ok);
    assert_eq!(values(&model), vec![(2, 21), (3, 30)]);
}

#[test]
fn replacing_takes_the_last_of_equal_keys() {
    let data = [
        0, 1, 10, 1, // insert 1 => 10
        3, 0, 0, 3, 100, 5, 50, 6, 60, 5, 51, // replace with three pairs
    ];
    let (model, ok) = fuzz_sync_table::<u8, Bytes>(&data).expect("tables of bytes fit");
    assert!(ok);
    assert_eq!(values(&model), vec![(5, 51), (6, 60)]);
}

#[test]
fn random_operations_follow_the_model() {
    for seed in 0..40 {
        let data = noise(seed, 300);
        let (_, ok) = fuzz_sync_table::<u8, Bytes>(&data).expect("tables of bytes fit");
        assert!(ok);
        let (_, ok) = fuzz_sync_table::<u8, Colliding>(&data).expect("tables of bytes fit");
        assert!(ok);
    }
}

/// The number of values that have been created but not yet dropped.
static LIVE: AtomicUsize = AtomicUsize::new(0);

/// Counts how many of its kind are alive.
struct Value {
    byte: u8,
    // Over-aligned relative to the key, so that the table needs padding.
    _padding: u128,
}

impl Value {
    fn new(byte: u8) -> Self {
        LIVE.fetch_add(1, Ordering::Relaxed);
        Value { byte, _padding: 0 }
    }
}

impl Clone for Value {
    fn clone(&self) -> Self {
        Value::new(self.byte)
    }
}

impl Drop for Value {
    fn drop(&mut self) {
        LIVE.fetch_sub(1, Ordering::Relaxed);
    }
}

impl ByteValue for Value {
    fn as_byte(self) -> u8 {
        unreachable!()
    }

    fn from_byte(byte: u8) -> Self {
        Value::new(byte)
    }

    fn byte(&self) -> u8 {
        self.byte
    }

    fn lemma_clone(_: Self, _: Self) {
        unreachable!()
    }
}

/// Dropping a table must drop every value it ever owned, including the ones in retired tables.
#[test]
fn every_value_is_dropped() {
    for seed in 0..40 {
        let data = noise(seed + 100, 300);
        let (_, ok) = fuzz_sync_table_drop::<Value, Bytes>(&data).expect("the tables fit");
        assert!(ok);
        assert_eq!(LIVE.load(Ordering::Relaxed), 0);
        let (_, ok) = fuzz_sync_table::<Value, Bytes>(&data).expect("the tables fit");
        assert!(ok);
        assert_eq!(LIVE.load(Ordering::Relaxed), 0);
        let (_, ok) =
            fuzz_sync_table_concurrent::<Value, Bytes>(&data).expect("the tables fit");
        assert!(ok);
        assert_eq!(LIVE.load(Ordering::Relaxed), 0);
    }
}

#[test]
fn operations_on_values_follow_the_model() {
    let data = [
        0, 1, 10, // insert 1 => 10
        1, 1, 11, // 1 is there already
        1, 2, 20, // insert 2 => 20
        2, 1, 0, // remove 1
        4, 0, 0, // clone
        5, 0, 0, // make room
    ];
    let (model, ok) = fuzz_sync_table_drop::<u8, Bytes>(&data).expect("tables of bytes fit");
    assert!(ok);
    assert_eq!(values(&model), vec![(2, 20)]);
    let data = [3, 0, 0, 17, 0, 8, 80];
    let (model, ok) = fuzz_sync_table_drop::<u8, Bytes>(&data).expect("tables of bytes fit");
    assert!(ok);
    assert_eq!(values(&model), vec![(8, 80)]);
}

#[test]
fn steps_are_built_from_bytes() {
    let data = [
        5, 1, 2, 0b1010, 7, 70, 1, // insert 7 => 70, with a hash
        2, 9, 8, 3, 7, 0, // remove 7
        3, 4, // replace with the default of everything else
    ];
    let steps = steps::build_steps(&data);
    assert_eq!(steps.len(), 3);

    let first: &Step = &steps[0];
    assert!(matches!(
        first.op,
        Op::Insert {
            key: 7,
            value: 70,
            use_hash: true
        }
    ));
    assert_eq!((first.focus, first.probe, first.loops), (1, 2, 3));
    assert!(first.potential);
    assert_eq!(values(&first.before), vec![]);
    assert_eq!(values(&first.after), vec![(7, 70)]);
    assert_eq!(steps::primary_key(first), 7);
    assert_eq!(steps::interesting_keys(first), [7, 1, 2]);

    let second = &steps[1];
    assert!(matches!(
        second.op,
        Op::Remove {
            key: 7,
            use_hash: false
        }
    ));
    assert_eq!(second.loops, 4);
    assert!(!second.potential);
    assert_eq!(values(&second.before), vec![(7, 70)]);
    assert_eq!(values(&second.after), vec![]);

    let third = &steps[2];
    assert!(matches!(&third.op, Op::Replace { items, capacity: 0 } if items.is_empty()));
    assert_eq!((third.focus, third.probe, third.loops), (4, 5, 1));
    assert_eq!(steps::primary_key(third), 4);

    let possible = steps::possible_values(&steps);
    assert!(possible[7][70]);
    assert!(!possible[7][71]);
    assert!(!possible[70][7]);
}

#[test]
fn at_most_32_steps_are_built() {
    assert_eq!(steps::build_steps(&[4; 1000]).len(), 32);
    assert_eq!(steps::build_steps(&[]).len(), 0);
}

#[test]
fn threads_agree_with_the_model() {
    let mut even = vec![0, 1, 2, 8, 7, 70, 1];
    even.push(4);
    let (model, ok) = fuzz_sync_table_concurrent::<u8, Bytes>(&even).expect("tables of bytes fit");
    assert!(ok);
    assert_eq!(values(&model), vec![(7, 70)]);
    for seed in 0..40 {
        let data = noise(seed + 200, 300);
        let (_, ok) =
            fuzz_sync_table_concurrent::<u8, Colliding>(&data).expect("tables of bytes fit");
        assert!(ok);
    }
}

#[test]
fn models_are_compared_key_by_key() {
    let a = model_of(&[(1, 10), (255, 3)]);
    let b = model_of(&[(255, 3), (1, 10)]);
    assert!(workload::same_model(&a, &b));
    assert!(!workload::same_model(&a, &model_of(&[(1, 10), (255, 4)])));
    assert_eq!(values(&a), vec![(1, 10), (255, 3)]);
}

#[test]
fn a_table_follows_the_model_through_several_plays() {
    let mut collector: Collector<()> = Collector::new();
    let mut thread = Data::new(0);
    let mut table: SyncTable<u8, u8, Bytes> = SyncTable::new();
    let mut model = workload::empty_model();
    for seed in 0..10 {
        let bytes = noise(seed, 200);
        assert!(fuzz::play(&mut table, &mut collector, &mut thread, &mut model, &bytes));
        assert!(drop::play(&mut table, &mut collector, &mut thread, &mut model, &bytes));
        let write = table.write(&mut collector);
        assert!(workload::assert_table_matches(write.read(), &model));
    }
    assert!(values(&model).len() > 0);
}
