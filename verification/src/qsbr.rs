//! Quiescent state based reclamation on top of the epochs of `crossbeam_epoch`.
//!
//! A thread holds a guard of the current epoch until it reports a quiescent state with [collect],
//! which gives it a new one.

use crossbeam_epoch::Guard;
use vstd::prelude::*;

verus! {

/// [crossbeam_epoch::Guard] keeps a thread in an epoch until it is dropped. Nothing is claimed of what is
/// inside it.
#[verifier::external_type_specification]
#[verifier::external_body]
pub struct ExGuard(crossbeam_epoch::Guard);

/// [crossbeam_epoch::pin] returns a guard of the current epoch. It may call functions that were stored
/// with [Guard::defer] before, on this thread. Which epoch it is, and which functions are called,
/// depends on all threads, and nothing is claimed of it.
pub assume_specification[ crossbeam_epoch::pin ]() -> (guard: Guard)
;

/// [Guard::defer] stores a function, to be called once all threads that are pinned now are not any
/// more. Nothing is claimed of when that is.
pub assume_specification<F, R>[ Guard::defer::<F, R> ](guard: &Guard, f: F) where
    F: FnOnce() -> R,
    F: Send + 'static,

    requires
        call_requires(f, ()),
;

/// The state of a thread.
#[verifier::ext_equal]
pub struct DataView {
    /// Whether the thread is marked as pinned.
    pub pinned: bool,
    /// The guard that the thread holds, if any.
    pub guard: Option<Guard>,
    /// The number of functions that had been deferred when the thread last collected.
    pub seen_deferred: u64,
}

impl DataView {
    /// Whether this is `before` with a guard that a call of [crossbeam_epoch::pin] has returned.
    pub open spec fn newly_guarded(self, before: Self) -> bool {
        &&& self == (DataView { guard: self.guard, ..before })
        &&& self.guard matches Some(guard) && call_ensures(crossbeam_epoch::pin, (), guard)
    }

    /// Whether this is `before` with a guard: the one that it has, or a new one if it has none.
    pub open spec fn initialized(self, before: Self) -> bool {
        if before.guard is Some {
            self == before
        } else {
            self.newly_guarded(before)
        }
    }
}

/// Per-thread state.
pub struct Data {
    pinned: bool,
    guard: Option<Guard>,
    seen_deferred: u64,
}

impl Data {
    /// The state of the thread.
    pub closed spec fn view(self) -> DataView {
        DataView {
            pinned: self.pinned,
            guard: self.guard,
            seen_deferred: self.seen_deferred,
        }
    }

    /// The state of a thread that has not been pinned yet.
    pub fn new() -> (r: Self)
        ensures
            r@ == (DataView { pinned: false, guard: None, seen_deferred: 0 }),
    {
        Data { pinned: false, guard: None, seen_deferred: 0 }
    }

    /// Whether the thread is marked as pinned. Such a thread must neither release itself nor collect.
    pub fn is_pinned(&self) -> (r: bool)
        ensures
            r == self@.pinned,
    {
        self.pinned
    }

    /// Whether the thread holds a guard.
    pub fn is_guarded(&self) -> (r: bool)
        ensures
            r == (self@.guard is Some),
    {
        self.guard.is_some()
    }

    fn get_guard(&mut self)
        ensures
            final(self)@.newly_guarded(old(self)@),
    {
        self.guard = Some(crossbeam_epoch::pin());
    }

    /// Gives the thread a guard if it has none.
    fn init(&mut self)
        ensures
            final(self)@.initialized(old(self)@),
    {
        if self.guard.is_none() {
            self.get_guard();
        }
    }
}

/// Counts the functions that have been deferred by all threads.
pub struct Deferred {
    count: u64,
}

impl Deferred {
    /// The number of functions that have been deferred.
    pub closed spec fn view(self) -> u64 {
        self.count
    }

    /// Starts counting.
    pub fn new() -> (r: Self)
        ensures
            r@ == 0,
    {
        Deferred { count: 0 }
    }
}

/// Proof that the guard is initialized on this thread.
#[derive(Clone, Copy)]
pub struct Init {
    _private: (),
}

impl Init {
    /// Gives the thread a guard if it has none.
    pub fn new(data: &mut Data) -> (r: Self)
        ensures
            final(data)@.initialized(old(data)@),
    {
        data.init();
        Init { _private: () }
    }

    /// Calls `f` with a proof that the thread is pinned, without looking for a guard.
    pub fn pin<R, F: FnOnce(&Pin, &mut Data) -> R>(&self, data: &mut Data, f: F) -> (r: R)
        requires
            forall|pin: &Pin, d: &mut Data| (*d)@ == old(data)@ ==> #[trigger] call_requires(
                f,
                (pin, d),
            ),
        ensures
            exists|pin: &Pin, d: &mut Data| #[trigger]
                call_ensures(f, (pin, d), r) && (*d)@ == old(data)@ && *final(d) == *final(data),
    {
        call_pinned(data, f)
    }
}

/// A proof that a thread is pinned.
pub struct Pin {
    _private: (),
}

impl Pin {
    /// Defers `f` until no thread is pinned that is pinned now: it is handed to the guard of the thread.
    pub fn defer_unchecked<F, R>(&self, data: &Data, deferred: &mut Deferred, f: F) where
        F: FnOnce() -> R,
        F: Send + 'static,

        requires
            data@.guard is Some,
            old(deferred)@ < u64::MAX,
            call_requires(f, ()),
        ensures
            final(deferred)@ == old(deferred)@ + 1,
            data@.guard matches Some(guard) && call_ensures(
                Guard::defer::<F, R>,
                (&guard, f),
                (),
            ),
    {
        deferred.count = deferred.count + 1;
        if let Some(guard) = &data.guard {
            guard.defer(f);
        }
    }
}

/// Marks the thread as pinned, takes the mark back, and calls `f`: the guard is what keeps the thread
/// in its epoch.
fn call_pinned<R, F: FnOnce(&Pin, &mut Data) -> R>(data: &mut Data, f: F) -> (r: R)
    requires
        forall|pin: &Pin, d: &mut Data| (*d)@ == old(data)@ ==> #[trigger] call_requires(
            f,
            (pin, d),
        ),
    ensures
        exists|pin: &Pin, d: &mut Data| #[trigger]
            call_ensures(f, (pin, d), r) && (*d)@ == old(data)@ && *final(d) == *final(data),
{
    let old_pinned: bool = data.pinned;
    data.pinned = true;
    data.pinned = old_pinned;
    f(&Pin { _private: () }, data)
}

/// Calls `f` with a proof that the thread is pinned. The thread is given a guard if it has none, and
/// keeps it.
pub fn pin<R, F: FnOnce(&Pin, &mut Data) -> R>(data: &mut Data, f: F) -> (r: R)
    requires
        forall|pin: &Pin, d: &mut Data|
            (*d)@.initialized(old(data)@) ==> #[trigger] call_requires(f, (pin, d)),
    ensures
        exists|pin: &Pin, d: &mut Data| #[trigger]
            call_ensures(f, (pin, d), r) && (*d)@.initialized(old(data)@)
                && *final(d) == *final(data),
{
    data.init();
    call_pinned(data, f)
}

/// Lets go of the thread's guard.
pub fn release(data: &mut Data)
    requires
        !old(data)@.pinned,
    ensures
        final(data)@ == (DataView { guard: None, ..old(data)@ }),
{
    data.guard = None;
}

/// Gives the thread a new guard if functions have been deferred since it last collected.
pub fn collect(data: &mut Data, deferred: &Deferred)
    requires
        !old(data)@.pinned,
    ensures
        if deferred@ != old(data)@.seen_deferred {
            final(data)@.newly_guarded((DataView { seen_deferred: deferred@, ..old(data)@ }))
        } else {
            final(data)@ == old(data)@
        },
{
    let new: u64 = deferred.count;
    if new != data.seen_deferred {
        data.seen_deferred = new;
        data.guard = None;
        data.guard = Some(crossbeam_epoch::pin());
    }
}

/// A thread that is given a new guard holds one that [crossbeam_epoch::pin] has returned, and is otherwise
/// as it was.
pub proof fn a_new_guard_comes_from_a_pin(before: DataView, after: DataView)
    requires
        after.newly_guarded(before),
    ensures
        after.guard is Some,
        call_ensures(crossbeam_epoch::pin, (), after.guard->Some_0),
        after.pinned == before.pinned,
        after.seen_deferred == before.seen_deferred,
{
}

/// A thread that holds a guard keeps it when it pins, and one that holds none is given one that
/// [crossbeam_epoch::pin] has returned. Nothing else changes.
pub proof fn a_pin_keeps_the_guard_that_is_held(before: DataView, after: DataView)
    requires
        after.initialized(before),
    ensures
        after.guard is Some,
        before.guard is Some ==> after.guard == before.guard,
        before.guard is None ==> call_ensures(crossbeam_epoch::pin, (), after.guard->Some_0),
        after.pinned == before.pinned,
        after.seen_deferred == before.seen_deferred,
{
}

} // verus!
