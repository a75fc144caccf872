//! Reclamation by epochs.

use horde::qsbr::{self, Data, Deferred, Init};
use std::sync::atomic::{AtomicUsize, Ordering};
use std::sync::Arc;

#[test]
fn a_thread_keeps_its_guard_until_it_is_released() {
    let mut data = Data::new();
    assert!(!data.is_guarded());
    assert_eq!(qsbr::pin(&mut data, |_, data| data.is_guarded()), true);
    assert!(data.is_guarded());
    assert!(!data.is_pinned());
    qsbr::release(&mut data);
    assert!(!data.is_guarded());
}

#[test]
fn initialization_gives_a_guard() {
    let mut data = Data::new();
    let init = Init::new(&mut data);
    assert!(data.is_guarded());
    assert_eq!(init.pin(&mut data, |_, _| 5), 5);
}

#[test]
fn collecting_takes_a_new_guard_only_after_a_deferral() {
    let mut data = Data::new();
    let mut deferred = Deferred::new();
    qsbr::collect(&mut data, &deferred);
    assert!(!data.is_guarded());
    qsbr::pin(&mut data, |pin, data| {
        pin.defer_unchecked(data, &mut deferred, || ());
    });
    qsbr::release(&mut data);
    qsbr::collect(&mut data, &deferred);
    assert!(data.is_guarded());
    qsbr::release(&mut data);
    qsbr::collect(&mut data, &deferred);
    assert!(!data.is_guarded());
}

#[test]
fn a_deferred_function_is_called_once_the_epoch_is_over() {
    let calls = Arc::new(AtomicUsize::new(0));
    let mut data = Data::new();
    let mut deferred = Deferred::new();
    let calls2 = calls.clone();
    qsbr::pin(&mut data, |pin, data| {
        pin.defer_unchecked(data, &mut deferred, move || {
            calls2.fetch_add(1, Ordering::SeqCst);
        });
    });
    assert_eq!(calls.load(Ordering::SeqCst), 0);
    qsbr::release(&mut data);
    // Other guards push the epoch on.
    for _ in 0..1000 {
        crossbeam_epoch::pin().flush();
        if calls.load(Ordering::SeqCst) == 1 {
            break;
        }
    }
    assert_eq!(calls.load(Ordering::SeqCst), 1);
}

#[test]
fn a_guard_that_is_held_stays_and_holds_back_deferred_functions() {
    let calls = Arc::new(AtomicUsize::new(0));
    let mut data = Data::new();
    let mut deferred = Deferred::new();
    let calls2 = calls.clone();
    qsbr::pin(&mut data, |pin, data| {
        pin.defer_unchecked(data, &mut deferred, move || {
            calls2.fetch_add(1, Ordering::SeqCst);
        });
    });
    for _ in 0..1000 {
        qsbr::pin(&mut data, |_, _| ());
        Init::new(&mut data).pin(&mut data, |_, _| ());
        crossbeam_epoch::pin().flush();
    }
    assert_eq!(calls.load(Ordering::SeqCst), 0);
}

#[test]
fn collecting_lets_deferred_functions_run() {
    let calls = Arc::new(AtomicUsize::new(0));
    let mut data = Data::new();
    let mut deferred = Deferred::new();
    let calls2 = calls.clone();
    qsbr::pin(&mut data, |pin, data| {
        pin.defer_unchecked(data, &mut deferred, move || {
            calls2.fetch_add(1, Ordering::SeqCst);
        });
    });
    // Each collection takes a guard of a later epoch, so that the thread is never without one.
    for _ in 0..1000 {
        qsbr::pin(&mut data, |pin, data| {
            pin.defer_unchecked(data, &mut deferred, || ());
        });
        crossbeam_epoch::pin().flush();
        qsbr::collect(&mut data, &deferred);
        assert!(data.is_guarded());
        if calls.load(Ordering::SeqCst) == 1 {
            break;
        }
    }
    assert_eq!(calls.load(Ordering::SeqCst), 1);
}
