//! The collector, driven as threads drive it: each thread has its own state, and they take turns.

use horde::collect::{self, Collector, Data, Misuse, State};
use horde::hash_builder::DefaultHashBuilder;
use horde::sync_table::SyncTable;
use std::cell::RefCell;
use std::rc::Rc;

/// A callback that may call back into the collector.
struct Callback(Box<dyn FnOnce(&mut Collector<Callback>)>);

fn callback(f: impl FnOnce(&mut Collector<Callback>) + 'static) -> Callback {
    Callback(Box::new(f))
}

/// Collects, and runs what is handed out.
fn collect_and_run(data: &mut Data, collector: &mut Collector<Callback>) {
    if let Some(batch) = collect::collect(data, collector) {
        for callback in batch.callbacks {
            (callback.0)(collector);
        }
        data.restore(batch.old_state);
    }
}

/// Enters a pinned region, and leaves it.
fn pin(data: &mut Data, collector: &mut Collector<Callback>) {
    collect::pin(data, collector, |_, _, _| ());
}

/// Defers a callback that counts how often it runs.
fn defer_count(collector: &mut Collector<Callback>) -> Rc<RefCell<usize>> {
    let calls = Rc::new(RefCell::new(0));
    let calls2 = calls.clone();
    collect::defer(collector, callback(move |_| *calls2.borrow_mut() += 1));
    calls
}

fn check_free_single_thread() {
    let mut collector = Collector::new();
    let mut data = Data::new(0);

    // Test unregistered free
    let free = defer_count(&mut collector);
    collect_and_run(&mut data, &mut collector);
    assert_eq!(*free.borrow(), 1);

    // Test registered free
    pin(&mut data, &mut collector);
    let free = defer_count(&mut collector);
    collect_and_run(&mut data, &mut collector);
    assert_eq!(*free.borrow(), 1);
}

#[test]
fn tests_free_single_thread() {
    check_free_single_thread();
}

#[test]
fn collect_free_single_thread() {
    check_free_single_thread();
}

fn check_collects_after_registered_thread_exits() {
    let mut collector = Collector::new();
    let mut data = Data::new(0);
    let mut other = Data::new(1);

    pin(&mut other, &mut collector);
    // A thread is released when it exits.
    collect::release(&mut other, &mut collector);

    let free = defer_count(&mut collector);

    collect_and_run(&mut data, &mut collector);
    assert_eq!(*free.borrow(), 1);
}

#[test]
fn tests_collects_after_registered_thread_exits() {
    check_collects_after_registered_thread_exits();
}

#[test]
fn collect_collects_after_registered_thread_exits() {
    check_collects_after_registered_thread_exits();
}

fn check_collects_after_busy_thread_releases() {
    let mut collector = Collector::new();
    let mut data = Data::new(0);

    pin(&mut data, &mut collector);

    let free = defer_count(&mut collector);

    collect::release(&mut data, &mut collector);
    collect_and_run(&mut data, &mut collector);
    assert_eq!(*free.borrow(), 1);
}

#[test]
fn tests_collects_after_busy_thread_releases() {
    check_collects_after_busy_thread_releases();
}

#[test]
fn collect_collects_after_busy_thread_releases() {
    check_collects_after_busy_thread_releases();
}

#[test]
fn collects_after_last_quiet_thread_releases() {
    let mut collector = Collector::new();
    let mut data = Data::new(0);
    let mut quiet = Data::new(1);
    let mut busy = Data::new(2);

    pin(&mut quiet, &mut collector);
    pin(&mut busy, &mut collector);
    collect_and_run(&mut quiet, &mut collector);

    let free = defer_count(&mut collector);

    collect_and_run(&mut data, &mut collector);
    assert_eq!(*free.borrow(), 0);

    collect::release(&mut busy, &mut collector);

    collect_and_run(&mut data, &mut collector);
    assert_eq!(*free.borrow(), 0);

    collect::release(&mut quiet, &mut collector);

    collect_and_run(&mut data, &mut collector);

    assert_eq!(*free.borrow(), 1);
}

#[test]
fn a_pinned_thread_may_not_collect() {
    let mut collector: Collector<Callback> = Collector::new();
    let mut data = Data::new(0);
    assert!(collect::assert_collect_state(&data).is_none());
    let misuse = collect::pin(&mut data, &mut collector, |_, data, _| {
        collect::assert_collect_state(data)
    });
    assert_eq!(
        misuse.map(Misuse::message),
        Some("Cannot call `collect` while pinned")
    );
}

#[test]
fn a_nested_pin_restores_the_outer_pinned_state() {
    let mut collector: Collector<Callback> = Collector::new();
    let mut data = Data::new(0);
    let misuse = collect::pin(&mut data, &mut collector, |_, data, collector| {
        pin(data, collector);
        collect::assert_collect_state(data)
    });
    assert_eq!(
        misuse.map(Misuse::message),
        Some("Cannot call `collect` while pinned")
    );
    assert!(collect::assert_collect_state(&data).is_none());
}

#[test]
fn invalid_collect_does_not_consume_pending_event() {
    let mut collector = Collector::new();
    let mut data = Data::new(0);

    let calls = defer_count(&mut collector);

    // A collection is refused in a pinned region.
    let misuse = collect::pin(&mut data, &mut collector, |_, data, _| {
        collect::assert_collect_state(data)
    });
    assert!(misuse.is_some());
    assert_eq!(*calls.borrow(), 0);

    collect_and_run(&mut data, &mut collector);
    assert_eq!(*calls.borrow(), 1);
}

#[test]
fn a_callback_may_neither_pin_nor_release_nor_collect() {
    let mut collector = Collector::new();
    let mut data = Data::new(0);
    defer_count(&mut collector);

    let batch = collect::collect(&mut data, &mut collector).expect("a callback is held");
    assert_eq!(data.state(), State::Collecting);
    assert_eq!(
        collect::pin_error(&data).map(Misuse::message),
        Some("Deferred callbacks cannot call `pin`")
    );
    assert_eq!(
        collect::release_error(&data).map(Misuse::message),
        Some("Deferred callbacks cannot call `release`")
    );
    assert_eq!(
        collect::assert_collect_state(&data).map(Misuse::message),
        Some("Deferred callbacks cannot call `collect`")
    );
    data.restore(batch.old_state);
    assert!(collect::pin_error(&data).is_none());
    assert!(collect::release_error(&data).is_none());
    assert!(collect::assert_collect_state(&data).is_none());
}

#[test]
fn a_pinned_thread_may_not_release() {
    let mut collector: Collector<Callback> = Collector::new();
    let mut data = Data::new(0);
    let misuse = collect::pin(&mut data, &mut collector, |_, data, _| {
        collect::release_error(data)
    });
    assert_eq!(
        misuse.map(Misuse::message),
        Some("Cannot call `release` while pinned")
    );
}

#[test]
fn callback_panic_does_not_drop_remaining_callbacks() {
    let calls = RefCell::new(0);
    let failed = collect::run_callbacks(
        vec![false, true],
        |succeeds| {
            if succeeds {
                *calls.borrow_mut() += 1;
                Ok(())
            } else {
                Err("boom")
            }
        },
        |_| (),
    );
    assert_eq!(failed, Some("boom"));
    assert_eq!(*calls.borrow(), 1);
}

#[test]
fn the_first_panic_payload_is_the_one_re_raised() {
    let calls = RefCell::new(0);
    let discarded = RefCell::new(Vec::new());
    let failed = collect::run_callbacks(
        vec![Err("first"), Err("second"), Ok(())],
        |outcome| {
            if outcome.is_ok() {
                *calls.borrow_mut() += 1;
            }
            outcome
        },
        |payload| discarded.borrow_mut().push(payload),
    );

    assert_eq!(failed, Some("first"));
    assert_eq!(*discarded.borrow(), vec!["second"]);
    assert_eq!(*calls.borrow(), 1);
}

#[test]
fn concurrent_collect_stress() {
    const THREADS: usize = 6;
    const ITERS: usize = 200;

    let mut collector = Collector::new();
    let mut main = Data::new(0);
    let mut threads: Vec<Data> = (1..=THREADS as u64).map(Data::new).collect();
    let executed = Rc::new(RefCell::new(0));

    // Each thread is in the middle of its loop when the next takes its turn.
    for i in 0..ITERS * 4 {
        for (offset, data) in threads.iter_mut().enumerate() {
            match (i + offset) % 4 {
                0 => {
                    pin(data, &mut collector);
                    let executed = executed.clone();
                    collect::defer(
                        &mut collector,
                        callback(move |_| *executed.borrow_mut() += 1),
                    );
                }
                1 => collect_and_run(data, &mut collector),
                2 => collect::release(data, &mut collector),
                _ => collect_and_run(data, &mut collector),
            }
        }
    }

    for data in &mut threads {
        collect::release(data, &mut collector);
    }
    for _ in 0..THREADS {
        collect_and_run(&mut main, &mut collector);
    }

    assert_eq!(*executed.borrow(), THREADS * ITERS);
}

#[test]
fn collect_after_epoch_completion_without_new_defers_runs_pending_callbacks() {
    let mut collector = Collector::new();
    let mut main = Data::new(0);
    let mut other = Data::new(1);

    pin(&mut other, &mut collector);
    pin(&mut main, &mut collector);
    collect_and_run(&mut main, &mut collector);

    let calls = defer_count(&mut collector);

    collect_and_run(&mut main, &mut collector);
    assert_eq!(*calls.borrow(), 0);

    collect::release(&mut other, &mut collector);

    collect_and_run(&mut main, &mut collector);
    assert_eq!(*calls.borrow(), 1);
}

#[test]
fn cancel_by_id_prevents_matching_callbacks() {
    let mut collector: Collector<Callback> = Collector::new();
    let mut data = Data::new(0);

    let first = collect::defer_by_id(&mut collector);
    let second = collect::defer_by_id(&mut collector);

    collect::cancel_by_ids(&mut collector, &vec![first]);
    collect_and_run(&mut data, &mut collector);

    assert!(!collector.is_ready(first));
    assert!(collector.is_ready(second));
}

#[test]
fn cancel_by_id_removes_pending_callbacks() {
    let mut collector: Collector<Callback> = Collector::new();
    let mut main = Data::new(0);
    let mut other = Data::new(1);

    pin(&mut other, &mut collector);
    pin(&mut main, &mut collector);
    collect_and_run(&mut main, &mut collector);

    let flag = collect::defer_by_id(&mut collector);

    collect_and_run(&mut main, &mut collector);
    assert!(!collector.is_ready(flag));

    collect::release(&mut other, &mut collector);

    collect::cancel_by_ids(&mut collector, &vec![flag]);
    collect_and_run(&mut main, &mut collector);
    assert!(!collector.is_ready(flag));
}

/// A thread that registers when it has already seen the latest event must still be able to report a
/// quiescent state.
#[test]
fn register_does_not_stall_reclamation() {
    let mut collector = Collector::new();
    let mut main = Data::new(0);
    let mut worker = Data::new(1);

    // The main thread becomes a registered, busy participant.
    pin(&mut main, &mut collector);

    let free = defer_count(&mut collector);

    // See the latest event while still unregistered.
    collect_and_run(&mut worker, &mut collector);
    // Register without having missed an event.
    pin(&mut worker, &mut collector);

    collect_and_run(&mut main, &mut collector);
    collect_and_run(&mut worker, &mut collector);
    collect_and_run(&mut main, &mut collector);

    assert_eq!(*free.borrow(), 1);

    collect::release(&mut worker, &mut collector);
}

/// A thread that registers while the collector is empty is not nudged, so it must still be
/// woken by a later callback that another thread defers.
#[test]
fn register_into_empty_collector_still_collects_later() {
    let mut collector = Collector::new();
    let mut main = Data::new(0);
    let mut worker = Data::new(1);

    // The main thread becomes a registered, busy participant while nothing is deferred.
    pin(&mut main, &mut collector);

    collect_and_run(&mut worker, &mut collector);
    pin(&mut worker, &mut collector);

    let free = defer_count(&mut collector);

    collect_and_run(&mut main, &mut collector);
    // This thread is the one completing the epoch.
    collect_and_run(&mut worker, &mut collector);
    collect_and_run(&mut main, &mut collector);

    assert_eq!(*free.borrow(), 1);

    collect::release(&mut worker, &mut collector);
}

#[test]
fn defer_runs_a_static_callback() {
    let mut collector: Collector<Callback> = Collector::new();
    let mut data = Data::new(0);

    let calls = Rc::new(RefCell::new(0));

    let calls2 = calls.clone();
    collect::defer(&mut collector, callback(move |_| *calls2.borrow_mut() += 1));

    assert_eq!(*calls.borrow(), 0);

    collect_and_run(&mut data, &mut collector);

    assert_eq!(*calls.borrow(), 1);
}

#[test]
fn a_callback_may_call_back_into_the_collector() {
    let mut collector: Collector<Callback> = Collector::new();
    let mut data = Data::new(0);

    let mut table: SyncTable<u64, u64, DefaultHashBuilder> = SyncTable::new();
    for i in 0..64 {
        assert!(table.lock(&mut collector).write().insert(i, i, None));
    }

    let reentrant = Rc::new(RefCell::new(0));
    let reentrant2 = reentrant.clone();

    collect::defer(
        &mut collector,
        callback(move |collector| {
            // Grow the table from inside the callback, so it retires tables which are registered
            // with the collector after this batch of callbacks was taken from it.
            for i in 64..1024 {
                assert!(table.lock(collector).write().insert(i, i, None));
            }

            table.drop_impl(collector);

            let reentrant3 = reentrant2.clone();
            collect::defer(
                collector,
                callback(move |_| *reentrant3.borrow_mut() += 1),
            );
        }),
    );

    collect_and_run(&mut data, &mut collector);
    assert_eq!(*reentrant.borrow(), 0);

    collect_and_run(&mut data, &mut collector);
    assert_eq!(*reentrant.borrow(), 1);
}

#[test]
fn a_callback_may_defer() {
    let mut collector: Collector<Callback> = Collector::new();
    let mut data = Data::new(0);

    let ran = Rc::new(RefCell::new(0));
    let ran2 = ran.clone();

    collect::defer(
        &mut collector,
        callback(move |collector| {
            collect::defer(collector, callback(move |_| *ran2.borrow_mut() += 1));
        }),
    );

    // The inner callback is deferred while this collection is running, so it is only eligible
    // for the next one.
    collect_and_run(&mut data, &mut collector);
    assert_eq!(*ran.borrow(), 0);

    collect_and_run(&mut data, &mut collector);
    assert_eq!(*ran.borrow(), 1);
}

#[test]
fn a_callback_may_defer_by_id() {
    let mut collector: Collector<Callback> = Collector::new();
    let mut data = Data::new(0);

    let id = Rc::new(RefCell::new(None));
    let id2 = id.clone();

    collect::defer(
        &mut collector,
        callback(move |collector| *id2.borrow_mut() = Some(collect::defer_by_id(collector))),
    );

    collect_and_run(&mut data, &mut collector);
    let id = id.borrow().expect("the callback ran");
    assert!(!collector.is_ready(id));

    collect_and_run(&mut data, &mut collector);
    assert!(collector.is_ready(id));
}

#[test]
fn a_callback_may_cancel_by_ids() {
    let mut collector: Collector<Callback> = Collector::new();
    let mut data = Data::new(0);

    let ids = Rc::new(RefCell::new(None));
    let ids2 = ids.clone();

    collect::defer(
        &mut collector,
        callback(move |collector| {
            let cancelled = collect::defer_by_id(collector);
            let kept = collect::defer_by_id(collector);
            collect::cancel_by_ids(collector, &vec![cancelled]);
            *ids2.borrow_mut() = Some((cancelled, kept));
        }),
    );

    collect_and_run(&mut data, &mut collector);
    collect_and_run(&mut data, &mut collector);

    let (cancelled, kept) = ids.borrow().expect("the callback ran");
    assert!(!collector.is_ready(cancelled));
    assert!(collector.is_ready(kept));
}

/// A thread is released when it exits, and a release runs no callbacks. Garbage deferred before
/// the last participating thread exited therefore waits for a collection by someone else.
#[test]
fn garbage_from_an_exited_thread_waits_for_a_collect_call() {
    let mut collector = Collector::new();
    let mut main = Data::new(0);
    let mut other = Data::new(1);

    pin(&mut other, &mut collector);
    let freed = defer_count(&mut collector);
    collect::release(&mut other, &mut collector);

    // The collector has no registered threads left, but nothing ran the callback.
    assert_eq!(collector.thread_count(), 0);
    assert_eq!(*freed.borrow(), 0);

    collect_and_run(&mut main, &mut collector);
    assert_eq!(*freed.borrow(), 1);
}

#[test]
fn a_pinned_thread_is_registered_afterwards() {
    let mut collector: Collector<Callback> = Collector::new();
    let mut data = Data::new(7);
    assert_eq!(data.thread_id(), 7);
    let seen = collect::pin(&mut data, &mut collector, |_, data, _| data.state());
    assert_eq!(seen, State::Pinned);
    assert_eq!(data.state(), State::Registered);
    assert_eq!(collector.thread_count(), 1);
    collect::release(&mut data, &mut collector);
    assert_eq!(data.state(), State::Unregistered);
    assert_eq!(collector.thread_count(), 0);
}

#[test]
fn callbacks_run_once_and_in_order() {
    let mut collector: Collector<Callback> = Collector::new();
    let mut data = Data::new(0);
    let order = Rc::new(RefCell::new(Vec::new()));
    for i in 0..5 {
        let order = order.clone();
        collect::defer(&mut collector, callback(move |_| order.borrow_mut().push(i)));
    }
    for _ in 0..3 {
        collect_and_run(&mut data, &mut collector);
    }
    assert_eq!(*order.borrow(), vec![0, 1, 2, 3, 4]);
}

#[test]
fn a_pin_holds_off_callbacks_and_flags() {
    let mut collector = Collector::new();
    let mut pinned = Data::new(0);
    let mut other = Data::new(1);

    pin(&mut pinned, &mut collector);
    let old_state = pinned.enter();
    let calls = defer_count(&mut collector);
    let flag = collect::defer_by_id(&mut collector);
    for _ in 0..5 {
        pin(&mut other, &mut collector);
        collect_and_run(&mut other, &mut collector);
        collect::release(&mut other, &mut collector);
        collect_and_run(&mut other, &mut collector);
    }
    assert_eq!(*calls.borrow(), 0);
    assert!(!collector.is_ready(flag));

    pinned.restore(old_state);
    collect_and_run(&mut pinned, &mut collector);
    assert_eq!(*calls.borrow(), 1);
    assert!(collector.is_ready(flag));
}

#[test]
fn a_busy_thread_is_signalled_by_a_new_callback() {
    let mut collector = Collector::new();
    let mut data = Data::new(0);
    pin(&mut data, &mut collector);
    collect_and_run(&mut data, &mut collector);
    let seen = collector.events();
    // Nothing has happened, so there is nothing to do.
    assert!(collect::collect(&mut data, &mut collector).is_none());
    defer_count(&mut collector);
    assert_ne!(collector.events(), seen);
    assert!(collect::collect(&mut data, &mut collector).is_some());
}

#[test]
fn releasing_keeps_every_callback_in_order() {
    let mut collector: Collector<u32> = Collector::new();
    let mut threads = [Data::new(0), Data::new(1), Data::new(2)];
    for data in threads.iter_mut() {
        collect::pin(data, &mut collector, |_, _, _| ());
        collect::defer(&mut collector, data.thread_id() as u32);
    }
    assert_eq!(collector.thread_count(), 3);

    // One thread is quiet, and the others leave without having been.
    let batch = collect::collect(&mut threads[0], &mut collector).expect("something was deferred");
    assert_eq!(batch.callbacks, Vec::<u32>::new());
    threads[0].restore(batch.old_state);
    collect::release(&mut threads[1], &mut collector);
    assert_eq!(collector.thread_count(), 2);
    collect::release(&mut threads[2], &mut collector);
    collect::defer(&mut collector, 3);
    collect::release(&mut threads[0], &mut collector);
    assert_eq!(collector.thread_count(), 0);

    let batch = collect::collect(&mut threads[1], &mut collector).expect("something was deferred");
    assert_eq!(batch.callbacks, vec![0, 1, 2, 3]);
}
