//! The vector.

use horde::collect::{self, Collector, Data};
use horde::sync_push_vec::{SyncPushVec, TableRef};
use std::mem;
use std::sync::atomic::{AtomicUsize, Ordering};
use std::sync::Arc;

fn new_collector() -> Collector<()> {
    Collector::new()
}

fn contents<T: Clone>(vector: &mut SyncPushVec<T>, collector: &mut Collector<()>) -> Vec<T> {
    vector.write(collector).read().as_slice().to_vec()
}

#[test]
fn test_layout_rejects_capacities_above_isize_max_bytes() {
    let capacity = (isize::MAX as usize / mem::size_of::<u16>()) + 1;

    assert!(TableRef::<u16>::layout(capacity).is_none());
    assert!(TableRef::<u16>::layout(100).is_some());
}

#[test]
fn test_push_appends_in_order() {
    let mut collector = new_collector();
    let mut m = SyncPushVec::new();
    m.write(&mut collector).push(1);
    m.write(&mut collector).push(2);
    assert_eq!(contents(&mut m, &mut collector), vec![1, 2]);
}

#[test]
fn test_high_align() {
    #[derive(Clone)]
    struct A(u8, u128);

    let mut collector = new_collector();
    let mut m = SyncPushVec::<A>::new();
    assert!(m.write(&mut collector).read().as_slice().is_empty());
    m.write(&mut collector).push(A(1, 2));
    for a in m.write(&mut collector).read().as_slice() {
        assert_eq!((a.0, a.1), (1, 2));
    }
}

#[test]
fn test_low_align() {
    let mut collector = new_collector();
    let mut m = SyncPushVec::<u8>::with_capacity(1);
    m.write(&mut collector).push(1);
}

#[test]
fn test_low_align_iteration_with_padding_before_info() {
    let mut collector = new_collector();
    let mut m = SyncPushVec::<u8>::with_capacity(3);
    m.write(&mut collector).push(1);
    m.write(&mut collector).push(2);
    m.write(&mut collector).push(3);

    assert_eq!(m.write(&mut collector).read().as_slice(), [1, 2, 3]);
}

#[test]
fn test_low_align_replace_and_expand_keep_values() {
    let mut collector = new_collector();
    let mut m = SyncPushVec::<u8>::with_capacity(3);
    m.write(&mut collector).replace(vec![1, 2, 3], 3);
    assert_eq!(m.write(&mut collector).read().as_slice(), [1, 2, 3]);

    m.write(&mut collector).push(4);
    assert_eq!(m.write(&mut collector).read().as_slice(), [1, 2, 3, 4]);
}

#[test]
fn sync_push_vec_tests_test_insert() {
    let mut collector = new_collector();
    let mut m = SyncPushVec::new();
    assert_eq!(m.write(&mut collector).read().len(), 0);
    m.write(&mut collector).push(2);
    assert_eq!(m.write(&mut collector).read().len(), 1);
    m.write(&mut collector).push(5);
    assert_eq!(m.write(&mut collector).read().len(), 2);
    assert_eq!(m.write(&mut collector).read().as_slice()[0], 2);
    assert_eq!(m.write(&mut collector).read().as_slice()[1], 5);
}

#[test]
fn test_replace() {
    let mut collector = new_collector();
    let mut m = SyncPushVec::new();
    m.write(&mut collector).push(2);
    m.write(&mut collector).push(5);
    assert_eq!(contents(&mut m, &mut collector), [2, 5]);
    m.write(&mut collector).replace(vec![3], 0);
    assert_eq!(contents(&mut m, &mut collector), [3]);
    m.write(&mut collector).replace(vec![], 0);
    assert_eq!(contents(&mut m, &mut collector), []);
}

#[test]
fn test_replace_empty_preserves_requested_capacity() {
    let mut collector = new_collector();
    let mut m = SyncPushVec::new();
    m.write(&mut collector).replace(Vec::<i32>::new(), 8);
    assert_eq!(contents(&mut m, &mut collector), []);
    assert_eq!(m.write(&mut collector).read().capacity(), 8);
}

#[test]
fn replace_then_forget_leaks_retired_elements() {
    #[derive(Clone)]
    struct DropCounter(Arc<AtomicUsize>);

    impl Drop for DropCounter {
        fn drop(&mut self) {
            self.0.fetch_add(1, Ordering::SeqCst);
        }
    }

    let mut collector = new_collector();
    let mut thread = Data::new(0);
    let drops = Arc::new(AtomicUsize::new(0));
    let mut vector = SyncPushVec::with_capacity(1);

    vector.write(&mut collector).push(DropCounter(drops.clone()));
    vector.write(&mut collector).replace(Vec::new(), 0);

    mem::forget(vector);

    assert!(collect::collect(&mut thread, &mut collector).is_some());

    assert_eq!(drops.load(Ordering::SeqCst), 0);
}

#[test]
fn test_expand() {
    let mut collector = new_collector();
    let mut m = SyncPushVec::new();

    assert_eq!(m.write(&mut collector).read().len(), 0);

    // Take the capacity after the first push: a new vector has no allocation at all.
    m.write(&mut collector).push(0);
    let old_raw_cap = m.write(&mut collector).read().capacity();

    let mut i = 1;
    while old_raw_cap == m.write(&mut collector).read().capacity() {
        m.write(&mut collector).push(i);
        i += 1;
    }

    assert!(m.write(&mut collector).read().capacity() > old_raw_cap);
    assert_eq!(m.write(&mut collector).read().len(), i);

    // Everything the copy into the bigger table moved must still be there, in order.
    assert_eq!(contents(&mut m, &mut collector), (0..i).collect::<Vec<_>>());
}

#[test]
fn zst_repro_expand_overflow() {
    let mut collector = new_collector();
    let mut v = SyncPushVec::<()>::with_capacity(usize::MAX - 1);
    let mut w = v.write(&mut collector);
    w.reserve(usize::MAX);
    assert_eq!(w.read().as_slice().len(), 0);
    w.push(());
    assert_eq!(w.read().as_slice().len(), 1);
}

#[test]
fn replace_sizes_by_the_actual_iterator_length() {
    let mut collector = new_collector();
    let mut m = SyncPushVec::new();

    m.write(&mut collector)
        .replace((0..1000u32).filter(|x| *x < 3).collect(), 0);

    let write = m.write(&mut collector);
    let read = write.read();
    assert_eq!(read.as_slice(), &[0, 1, 2]);
    assert_eq!(read.len(), 3);
    assert_eq!(read.capacity(), 3);
}

#[test]
fn dropping_the_vector_drops_every_element_exactly_once() {
    struct Counts {
        constructed: AtomicUsize,
        dropped: AtomicUsize,
    }

    struct Counted(String, Arc<Counts>);

    impl Counted {
        fn new(name: String, counts: &Arc<Counts>) -> Self {
            counts.constructed.fetch_add(1, Ordering::SeqCst);
            Counted(name, counts.clone())
        }
    }

    impl Clone for Counted {
        fn clone(&self) -> Self {
            Counted::new(self.0.clone(), &self.1)
        }
    }

    impl Drop for Counted {
        fn drop(&mut self) {
            self.1.dropped.fetch_add(1, Ordering::SeqCst);
        }
    }

    const PUSHES: usize = 40;

    let counts = Arc::new(Counts {
        constructed: AtomicUsize::new(0),
        dropped: AtomicUsize::new(0),
    });
    let mut collector = new_collector();
    let mut vector = SyncPushVec::new();
    {
        let mut write = vector.write(&mut collector);
        for i in 0..PUSHES {
            write.push(Counted::new(format!("v{i}"), &counts));
        }
    }

    let constructed = counts.constructed.load(Ordering::SeqCst);

    // The vector expanded on the way, so the tables it retired hold clones of their own.
    assert!(constructed > PUSHES);
    assert_eq!(counts.dropped.load(Ordering::SeqCst), 0);

    // The elements the current table holds are still the ones that were pushed.
    assert_eq!(
        vector
            .as_mut_slice()
            .iter()
            .map(|value| value.0.clone())
            .collect::<Vec<_>>(),
        (0..PUSHES).map(|i| format!("v{i}")).collect::<Vec<_>>()
    );

    vector.drop_impl(&mut collector);

    assert_eq!(counts.dropped.load(Ordering::SeqCst), constructed);
}

#[test]
fn push_returns_the_index_of_the_new_element() {
    let mut collector = new_collector();
    let mut m = SyncPushVec::new();
    let mut write = m.write(&mut collector);

    // Enough pushes that the vector expands several times on the way.
    for i in 0..40u32 {
        let (value, index) = write.push(i);
        assert_eq!(*value, i);
        assert_eq!(index, i as usize);
    }

    let read = write.read();
    for i in 0..40u32 {
        assert_eq!(read.as_slice()[i as usize], i);
    }
}

#[test]
fn from_iter_and_extend_take_every_element() {
    let mut collector = new_collector();
    let mut m: SyncPushVec<u32> = SyncPushVec::from_iter((0..8).collect());
    assert_eq!(contents(&mut m, &mut collector), (0..8).collect::<Vec<_>>());

    m.write(&mut collector)
        .extend((8..1000u32).filter(|i| *i < 24).collect());
    assert_eq!(contents(&mut m, &mut collector), (0..24).collect::<Vec<_>>());
}

#[test]
fn reserve_grows_the_allocation_once() {
    let mut collector = new_collector();
    let mut m = SyncPushVec::<u32>::new();
    m.write(&mut collector).push(1);

    let before = m.write(&mut collector).read().capacity();
    m.write(&mut collector).reserve(100);

    let grown = m.write(&mut collector).read().capacity();
    assert!(grown > before);
    assert!(grown >= 101);

    // The room is already there, so this must not reallocate.
    m.write(&mut collector).reserve(1);
    assert_eq!(m.write(&mut collector).read().capacity(), grown);

    assert_eq!(m.write(&mut collector).read().as_slice(), [1]);
}

#[test]
fn elements_can_be_changed_in_place() {
    let mut collector = new_collector();
    let mut m = SyncPushVec::from_iter(vec![1, 2, 3]);
    m.as_mut_slice()[1] = 20;
    assert_eq!(contents(&mut m, &mut collector), [1, 20, 3]);
}

#[test]
fn retired_storage_outlives_a_pin() {
    let drops = Arc::new(AtomicUsize::new(0));

    #[derive(Clone)]
    struct DropCounter(Arc<AtomicUsize>);

    impl Drop for DropCounter {
        fn drop(&mut self) {
            self.0.fetch_add(1, Ordering::SeqCst);
        }
    }

    let mut collector = new_collector();
    let mut reader = Data::new(0);
    let mut other = Data::new(1);
    let mut vector = SyncPushVec::from_iter(vec![DropCounter(drops.clone())]);

    collect::pin_cold(&mut reader, &mut collector);
    let old_state = reader.enter();
    vector.write(&mut collector).replace(Vec::new(), 0);
    if let Some(batch) = collect::collect(&mut other, &mut collector) {
        other.restore(batch.old_state);
    }
    vector.write(&mut collector);
    assert_eq!(drops.load(Ordering::SeqCst), 0);

    reader.restore(old_state);
    collect::release(&mut reader, &mut collector);
    if let Some(batch) = collect::collect(&mut other, &mut collector) {
        other.restore(batch.old_state);
    }
    vector.write(&mut collector);
    assert_eq!(drops.load(Ordering::SeqCst), 1);
}

#[test]
fn what_is_possible_can_be_asked_of_a_vector() {
    let mut collector = new_collector();
    let mut m = SyncPushVec::<u32>::new();
    m.write(&mut collector).push(1);
    assert!(m.may_reserve(&collector, 100));
    // The request overflows.
    assert!(!m.may_reserve(&collector, usize::MAX));
    assert!(m.may_replace(&collector, 3, 10));
    assert!(!m.may_replace(&collector, 3, usize::MAX));
}
