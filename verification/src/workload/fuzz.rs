//! A workload of single operations on a table of bytes, made from any input.

use crate::collect::laws::Step as CollectorStep;
use crate::collect::model::CollectorView;
use crate::collect::{self, Collector, Data, State};
use crate::contents;
use crate::sync_table::{PotentialSlot, SyncTable};
use crate::util::HashBuilder;
use crate::workload::ops;
use crate::workload::{self, ByteValue, Input, Model};
use vstd::prelude::*;

verus! {

/// Whether the thread is in no pinned region and runs no callbacks, and the collector knows whether
/// it is registered.
pub open spec fn idle<C>(data: Data, collector: CollectorView<C>) -> bool {
    &&& data@.state == State::Registered || data@.state == State::Unregistered
    &&& data@.attached_to(collector)
}

/// Whether every other thread is still attached to the collector if it was.
pub open spec fn keeps_others<C>(
    before: CollectorView<C>,
    after: CollectorView<C>,
    thread: u64,
) -> bool {
    forall|other: u64|
        other != thread ==> (#[trigger] after.threads.contains_key(other)
            == before.threads.contains_key(other))
}

/// A table stays attached to a collector that changes in none of the flags.
proof fn lemma_attached<V, S, C>(
    table: SyncTable<u8, V, S>,
    collector: CollectorView<C>,
    step: CollectorStep<C>,
)
    requires
        collector.wf(),
        collector.allows(step),
        table.attached_to(collector),
        step is Register || step is Unregister || step is Collect,
    ensures
        table.attached_to(collector.after(step)),
        collector.after(step).next_id == collector.next_id,
{
    crate::sync_table::laws::a_table_stays_attached(table, collector, step);
}

/// The collector after an idle thread has left it and has collected, if anything has happened that it
/// has not seen.
pub open spec fn settled<C>(data: Data, collector: CollectorView<C>) -> CollectorView<C> {
    let left = if data@.state == State::Registered {
        collector.after(CollectorStep::Unregister(data@.thread_id))
    } else {
        collector
    };
    if left.events != data@.seen_events {
        left.after(CollectorStep::Collect(None))
    } else {
        left
    }
}

/// Leaves the collector, and collects. Callbacks that may run are dropped.
pub fn settle<C>(data: &mut Data, collector: &mut Collector<C>)
    requires
        old(collector).wf(),
        idle(*old(data), old(collector)@),
    ensures
        final(collector).wf(),
        keeps_others(old(collector)@, final(collector)@, old(data)@.thread_id),
        final(data)@.thread_id == old(data)@.thread_id,
        final(collector)@ == settled(*old(data), old(collector)@),
        idle(*final(data), final(collector)@),
        final(data)@.state == State::Unregistered,
{
    proof {
        collector.lemma_wf();
    }
    collect::release(data, collector);
    proof {
        collector.lemma_wf();
    }
    if let Some(batch) = collect::collect(data, collector) {
        data.restore(batch.old_state);
    }
}

/// Leaves the collector that the table is attached to.
pub fn leave<V, S, C>(table: &SyncTable<u8, V, S>, data: &mut Data, collector: &mut Collector<C>)
    requires
        old(collector).wf(),
        table.attached_to(old(collector)@),
        idle(*old(data), old(collector)@),
    ensures
        final(collector).wf(),
        keeps_others(old(collector)@, final(collector)@, old(data)@.thread_id),
        table.attached_to(final(collector)@),
        final(data)@ == old(data)@.in_state(State::Unregistered),
        idle(*final(data), final(collector)@),
        final(collector)@ == if old(data)@.state == State::Registered {
            old(collector)@.unregistered(old(data)@.thread_id)
        } else {
            old(collector)@
        },
        final(collector)@.next_id == old(collector)@.next_id,
{
    proof {
        collector.lemma_wf();
        if data@.state == State::Registered {
            lemma_attached(*table, collector@, CollectorStep::Unregister(data@.thread_id));
        }
    }
    collect::release(data, collector);
}

/// Leaves the collector that the table is attached to, and collects.
pub fn quiesce<V, S, C>(table: &SyncTable<u8, V, S>, data: &mut Data, collector: &mut Collector<C>)
    requires
        old(collector).wf(),
        table.attached_to(old(collector)@),
        idle(*old(data), old(collector)@),
    ensures
        final(collector).wf(),
        keeps_others(old(collector)@, final(collector)@, old(data)@.thread_id),
        final(data)@.thread_id == old(data)@.thread_id,
        table.attached_to(final(collector)@),
        idle(*final(data), final(collector)@),
        final(collector)@ == settled(*old(data), old(collector)@),
        final(collector)@.next_id == old(collector)@.next_id,
        final(data)@.state == State::Unregistered,
{
    proof {
        collector.lemma_wf();
        if data@.state == State::Registered {
            let step = CollectorStep::Unregister(data@.thread_id);
            lemma_attached(*table, collector@, step);
            collector@.lemma_step(step);
            lemma_attached(*table, collector@.after(step), CollectorStep::Collect(None));
        } else {
            lemma_attached(*table, collector@, CollectorStep::Collect(None));
        }
    }
    settle(data, collector);
}

/// Clones the table, which registers the thread.
pub fn copy<V: ByteValue, S: HashBuilder<u8> + Clone, C>(
    table: &SyncTable<u8, V, S>,
    data: &mut Data,
    collector: &mut Collector<C>,
) -> (r: SyncTable<u8, V, S>)
    requires
        table.wf(),
        old(collector).wf(),
        table.attached_to(old(collector)@),
        old(data)@.state != State::Collecting,
        old(data)@.attached_to(old(collector)@),
    ensures
        r.wf(),
        r.is_clone_of(*table),
        workload::bytes_of(r@) == workload::bytes_of(table@),
        final(collector).wf(),
        keeps_others(old(collector)@, final(collector)@, old(data)@.thread_id),
        table.attached_to(final(collector)@),
        final(data)@ == old(data)@.prepared(old(collector)@),
        final(data)@.attached_to(final(collector)@),
        final(collector)@ == old(data)@.prepared_collector(old(collector)@),
        final(collector)@.next_id == old(collector)@.next_id,
{
    proof {
        workload::lemma_byte_keys::<S>();
        collector.lemma_wf();
        if data@.state == State::Unregistered {
            lemma_attached(*table, collector@, CollectorStep::Register(data@.thread_id));
        }
    }
    let r = table.clone(data, collector);
    proof {
        workload::lemma_cloned_bytes(table@, r@);
    }
    r
}

/// Enters a pinned region. Returns the state to be restored at its end.
pub fn enter<V, S, C>(
    table: &SyncTable<u8, V, S>,
    data: &mut Data,
    collector: &mut Collector<C>,
) -> (old_state: State)
    requires
        old(collector).wf(),
        table.attached_to(old(collector)@),
        old(data)@.state != State::Collecting,
        old(data)@.attached_to(old(collector)@),
    ensures
        final(collector).wf(),
        keeps_others(old(collector)@, final(collector)@, old(data)@.thread_id),
        final(data)@.thread_id == old(data)@.thread_id,
        table.attached_to(final(collector)@),
        final(data)@.state == State::Pinned,
        final(data)@.attached_to(final(collector)@),
        final(collector)@.next_id == old(collector)@.next_id,
        old_state == if old(data)@.state == State::Pinned {
            State::Pinned
        } else {
            State::Registered
        },
{
    if !data.may_enter() {
        proof {
            collector.lemma_wf();
            lemma_attached(*table, collector@, CollectorStep::Register(data@.thread_id));
        }
        collect::pin_cold(data, collector);
    }
    data.enter()
}

/// Checks in a pinned region that a table contains what the model says.
pub fn check_pinned<V: ByteValue, S: HashBuilder<u8>, C>(
    table: &SyncTable<u8, V, S>,
    model: &Model,
    data: &mut Data,
    collector: &mut Collector<C>,
) -> (r: bool)
    requires
        table.wf(),
        old(collector).wf(),
        table.attached_to(old(collector)@),
        idle(*old(data), old(collector)@),
    ensures
        r == (workload::bytes_of(table@) == workload::model_map(model@)),
        final(collector).wf(),
        keeps_others(old(collector)@, final(collector)@, old(data)@.thread_id),
        final(data)@.thread_id == old(data)@.thread_id,
        table.attached_to(final(collector)@),
        idle(*final(data), final(collector)@),
        final(data)@.state == State::Registered,
        final(collector)@.next_id == old(collector)@.next_id,
{
    let old_state = enter(table, data, collector);
    let r: bool = workload::assert_table_matches(table.read(data.pinned()), model);
    data.restore(old_state);
    r
}

/// Inserts a pair by way of a slot, in one of the ways that the bits of `mode` ask for. Returns
/// whether the table answered as the model says.
pub fn apply_potential_insert<V: ByteValue, S: HashBuilder<u8>, C>(
    table: &mut SyncTable<u8, V, S>,
    collector: &mut Collector<C>,
    data: &mut Data,
    model: &mut Model,
    key: u8,
    value: u8,
    mode: u8,
) -> (r: bool)
    requires
        ops::holds(*old(table), *old(collector), old(model)@),
        ops::ids_left(*old(table), old(collector)@),
        ops::tables_fit::<V>(),
        idle(*old(data), old(collector)@),
    ensures
        ops::holds(*final(table), *final(collector), final(model)@),
        final(model)@ == ops::after_insert(old(model)@, key, value),
        final(table).generation() <= old(table).generation() + 1,
        final(collector)@.next_id <= old(collector)@.next_id + 1,
        final(table).builder() == old(table).builder(),
        idle(*final(data), final(collector)@),
        r,
{
    let index: usize = key as usize;
    let hash = ops::maybe_hash(table, key, mode % 2 == 1);
    let ghost before = model@;
    proof {
        workload::lemma_byte_keys::<S>();
        workload::lemma_has_byte(table@, key);
        workload::lemma_value_of(table@, before, key);
    }
    let old_state = enter(table, data, collector);
    let found: Result<bool, PotentialSlot> = match table.read(data.pinned()).get_potential(
        &key,
        hash,
    ) {
        Ok((found_key, found_value)) => Ok(
            *found_key == key && model[index] == Some(found_value.byte()),
        ),
        Err(slot) => Err(slot),
    };
    match found {
        Ok(ok) => {
            data.restore(old_state);
            ok
        },
        Err(slot) => {
            let mut ok: bool = model[index].is_none();
            if (mode / 2) % 2 == 1 {
                ok = slot.get(table.read(data.pinned()), &key, hash).is_none() && ok;
            }
            let slot = if (mode / 4) % 2 == 1 {
                refreshed(table, data, key, hash, slot)
            } else {
                slot
            };
            let slot = if (mode / 8) % 2 == 1 {
                ops::reserve_one(table, collector, model);
                proof {
                    workload::lemma_has_byte(table@, key);
                    workload::lemma_value_of(table@, before, key);
                }
                refreshed(table, data, key, hash, slot)
            } else {
                slot
            };
            let inserted = ops::insert_in_slot(table, collector, slot, key, value, hash, model);
            model[index] = Some(value);
            data.restore(old_state);
            inserted && ok
        },
    }
}

/// Brings a slot up to date, for a key that is still missing.
fn refreshed<V: ByteValue, S: HashBuilder<u8>>(
    table: &SyncTable<u8, V, S>,
    data: &Data,
    key: u8,
    hash: Option<u64>,
    slot: PotentialSlot,
) -> (r: PotentialSlot)
    requires
        table.wf(),
        data@.state == State::Pinned,
        slot.is_for(*table, key),
        !contents::has_key(table@, key),
        hash matches Some(h) ==> h == table.builder().hash_of(key),
    ensures
        r.is_for(*table, key),
        r.is_current(*table),
{
    match slot.refresh(table.read(data.pinned()), &key, hash) {
        Ok(_) => slot,
        Err(slot) => slot,
    }
}

/// The model that `len` pairs of bytes make up, added to `model`. A later pair replaces an earlier one
/// with the same key, and bytes that are missing are 0.
pub open spec fn pairs_model(bytes: Seq<u8>, len: nat, model: Seq<Option<u8>>) -> Seq<Option<u8>>
    decreases len,
{
    if len == 0 {
        model
    } else {
        let key = workload::first_or(bytes, 0);
        let value = workload::first_or(workload::after_first(bytes), 0);
        pairs_model(
            workload::after_first(workload::after_first(bytes)),
            (len - 1) as nat,
            workload::with_value(model, key, Some(value)),
        )
    }
}

/// The bytes after `len` pairs of them.
pub open spec fn after_pairs(bytes: Seq<u8>, len: nat) -> Seq<u8>
    decreases len,
{
    if len == 0 {
        bytes
    } else {
        after_pairs(workload::after_first(workload::after_first(bytes)), (len - 1) as nat)
    }
}

/// A model without keys.
pub open spec fn no_model() -> Seq<Option<u8>> {
    Seq::new(256, |i: int| None)
}

/// Reads a model that is made up of `len` pairs.
pub fn read_pairs(input: &mut Input<'_>, len: usize) -> (r: Model)
    requires
        old(input).wf(),
    ensures
        final(input).wf(),
        r@ == pairs_model(old(input).rest(), len as nat, no_model()),
        final(input).rest() == after_pairs(old(input).rest(), len as nat),
{
    let mut r: Model = workload::empty_model();
    let mut left: usize = len;
    assert(r@ =~= no_model());
    while left > 0
        invariant
            input.wf(),
            pairs_model(input.rest(), left as nat, r@) == pairs_model(
                old(input).rest(),
                len as nat,
                no_model(),
            ),
            after_pairs(input.rest(), left as nat) == after_pairs(old(input).rest(), len as nat),
        decreases left,
    {
        let key: u8 = input.next_or(0);
        let value: u8 = input.next_or(0);
        let ghost before = r@;
        r[key as usize] = Some(value);
        assert(r@ =~= workload::with_value(before, key, Some(value)));
        left = left - 1;
    }
    r
}

/// The byte modulo `m`, or 0 if there is none.
pub open spec fn first_mod(bytes: Seq<u8>, m: int) -> int {
    if bytes.len() > 0 {
        bytes[0] as int % m
    } else {
        0
    }
}

/// What one operation, taken from the bytes, does to the model, and the bytes that are left.
pub open spec fn turn(bytes: Seq<u8>, model: Seq<Option<u8>>) -> (Seq<u8>, Seq<Option<u8>>) {
    let op = workload::first_or(bytes, 0) as int % 9;
    let bytes = workload::after_first(bytes);
    let key = workload::first_or(bytes, 0);
    let bytes = workload::after_first(bytes);
    let value = workload::first_or(bytes, 0);
    let bytes = workload::after_first(bytes);
    if op == 0 || op == 1 || op == 5 {
        // Insert, insert a new element, or insert by way of a slot.
        (workload::after_first(bytes), ops::after_insert(model, key, value))
    } else if op == 2 {
        // Remove.
        (workload::after_first(bytes), workload::with_value(model, key, None))
    } else if op == 3 {
        // Replace the contents.
        let len = first_mod(bytes, 16) as nat;
        let bytes = workload::after_first(workload::after_first(bytes));
        (after_pairs(bytes, len), pairs_model(bytes, len, no_model()))
    } else if op == 4 {
        // Look up.
        (workload::after_first(bytes), model)
    } else if op == 6 {
        // Change the value.
        (
            workload::after_first(bytes),
            if model[key as int] is Some {
                workload::with_value(model, key, Some(value))
            } else {
                model
            },
        )
    } else {
        // Clone the table, or make room.
        (bytes, model)
    }
}

/// The model after at most `steps` operations taken from the bytes.
pub open spec fn played(bytes: Seq<u8>, model: Seq<Option<u8>>, steps: nat) -> Seq<Option<u8>>
    decreases steps,
{
    if steps == 0 || bytes.len() == 0 {
        model
    } else {
        let (bytes, model) = turn(bytes, model);
        played(bytes, model, (steps - 1) as nat)
    }
}

/// Looks a key up in a pinned region. Returns the byte of its value.
fn lookup<V: ByteValue, S: HashBuilder<u8>, C>(
    table: &SyncTable<u8, V, S>,
    collector: &mut Collector<C>,
    data: &mut Data,
    key: u8,
    hash: Option<u64>,
) -> (r: Option<u8>)
    requires
        table.wf(),
        old(collector).wf(),
        table.attached_to(old(collector)@),
        idle(*old(data), old(collector)@),
        hash matches Some(h) ==> h == table.builder().hash_of(key),
    ensures
        final(collector).wf(),
        table.attached_to(final(collector)@),
        idle(*final(data), final(collector)@),
        final(collector)@.next_id == old(collector)@.next_id,
        r == workload::value_of(table@, key),
{
    proof {
        workload::lemma_byte_keys::<S>();
        workload::lemma_has_byte(table@, key);
    }
    let old_state = enter(table, data, collector);
    let r = match table.read(data.pinned()).get(&key, hash) {
        Some((_, value)) => Some(value.byte()),
        None => None,
    };
    data.restore(old_state);
    r
}

/// Changes the value of a key if it has one. Returns whether the table answered as the model says.
fn change<V: ByteValue, S: HashBuilder<u8>, C>(
    table: &mut SyncTable<u8, V, S>,
    collector: &Collector<C>,
    key: u8,
    value: u8,
    hash: Option<u64>,
    model: &mut Model,
) -> (r: bool)
    requires
        ops::holds(*old(table), *collector, old(model)@),
        hash matches Some(h) ==> h == old(table).builder().hash_of(key),
    ensures
        ops::holds(*final(table), *collector, final(model)@),
        final(table).generation() == old(table).generation(),
        final(table).builder() == old(table).builder(),
        final(model)@ == if old(model)@[key as int] is Some {
            workload::with_value(old(model)@, key, Some(value))
        } else {
            old(model)@
        },
        r,
{
    let ghost before = *table;
    proof {
        workload::lemma_byte_keys::<S>();
        workload::lemma_has_byte(before@, key);
        workload::lemma_value_of(before@, model@, key);
        workload::lemma_with_value(model@, key, Some(value));
        before.lemma_wf();
    }
    let expected: Option<u8> = model[key as usize];
    let item = V::from_byte(value);
    let ghost changed = item;
    proof {
        assert(workload::bytes_of(before@.insert(key, changed)) =~= workload::bytes_of(
            before@,
        ).insert(key, value));
    }
    let r: bool = match table.get_mut(&key, hash) {
        Some((found_key, found_value)) => {
            let ok: bool = *found_key == key && expected == Some(found_value.byte());
            *found_value = item;
            model[key as usize] = Some(value);
            ok
        },
        None => expected.is_none(),
    };
    proof {
        if before@.contains_key(key) {
            assert(before@.insert(key, changed).dom() =~= before@.dom());
        }
    }
    r
}

/// Runs up to 64 operations, taken from the bytes, on the table, which contains what the model says.
/// Afterwards it contains what the model says then. Returns whether the table always answered and
/// contained what it should.
pub fn play<V: ByteValue, S: HashBuilder<u8> + Clone, C>(
    table: &mut SyncTable<u8, V, S>,
    collector: &mut Collector<C>,
    thread: &mut Data,
    model: &mut Model,
    data: &[u8],
) -> (r: bool)
    requires
        ops::tables_fit::<V>(),
        ops::holds(*old(table), *old(collector), old(model)@),
        old(table).generation() + 64 < u64::MAX,
        old(collector)@.next_id + 64 < u64::MAX,
        idle(*old(thread), old(collector)@),
    ensures
        ops::holds(*final(table), *final(collector), final(model)@),
        final(table).generation() <= old(table).generation() + 64,
        final(collector)@.next_id <= old(collector)@.next_id + 64,
        idle(*final(thread), final(collector)@),
        final(model)@ == played(data@, old(model)@, 64),
        r,
{
    let mut input = Input::new(data);
    let mut ok: bool = true;
    let mut step: usize = 0;
    while step < 64
        invariant
            step <= 64,
            input.wf(),
            ops::tables_fit::<V>(),
            ops::holds(*table, *collector, model@),
            table.generation() <= old(table).generation() + step,
            collector@.next_id <= old(collector)@.next_id + step,
            idle(*thread, collector@),
            old(table).generation() + 64 < u64::MAX,
            old(collector)@.next_id + 64 < u64::MAX,
            ok,
            played(input.rest(), model@, (64 - step) as nat) == played(data@, old(model)@, 64),
        ensures
            ops::holds(*table, *collector, model@),
            table.generation() <= old(table).generation() + 64,
            collector@.next_id <= old(collector)@.next_id + 64,
            idle(*thread, collector@),
            model@ == played(data@, old(model)@, 64),
            ok,
        decreases 64 - step,
    {
        let ghost bytes = input.rest();
        let ghost before = model@;
        proof {
            workload::lemma_byte_keys::<S>();
        }
        let op: u8 = match input.next() {
            Some(op) => op,
            None => break,
        };
        let key: u8 = input.next_or(0);
        let value: u8 = input.next_or(0);
        let index: usize = key as usize;
        let passed: bool = match op % 9 {
            0 => {
                let hash = ops::maybe_hash(table, key, input.next_bool());
                let inserted = ops::insert(table, collector, key, value, hash, model);
                let expected = model[index].is_none();
                if expected {
                    model[index] = Some(value);
                }
                inserted == expected
            },
            1 => {
                let hash = ops::maybe_hash(table, key, input.next_bool());
                if model[index].is_none() {
                    let inserted = ops::insert_new(
                        table,
                        collector,
                        key,
                        value,
                        hash,
                        model,
                    );
                    model[index] = Some(value);
                    inserted
                } else {
                    proof {
                        workload::lemma_value_of(table@, model@, key);
                    }
                    let current = lookup(table, collector, thread, key, hash);
                    current == model[index]
                }
            },
            2 => {
                let hash = ops::maybe_hash(table, key, input.next_bool());
                let removed = ops::remove(table, collector, key, hash, model);
                let expected: Option<u8> = model[index];
                model[index] = None;
                match (removed, expected) {
                    (Some((found_key, found_value)), Some(byte)) => found_key == key && found_value
                        == byte,
                    (None, None) => true,
                    _ => false,
                }
            },
            3 => {
                let len: usize = match input.next() {
                    Some(byte) => (byte % 16) as usize,
                    None => 0,
                };
                let capacity: usize = match input.next() {
                    Some(byte) => byte as usize,
                    None => 0,
                };
                let replacement = read_pairs(&mut input, len);
                let items = workload::model_snapshot(&replacement);
                let roomy = ops::replace(
                    table,
                    collector,
                    &items,
                    capacity,
                    &replacement,
                );
                *model = replacement;
                roomy
            },
            4 => {
                let hash = ops::maybe_hash(table, key, input.next_bool());
                proof {
                    workload::lemma_value_of(table@, model@, key);
                }
                let current = lookup(table, collector, thread, key, hash);
                current == model[index]
            },
            5 => {
                let mode: u8 = input.next_or(0);
                apply_potential_insert(
                    table,
                    collector,
                    thread,
                    model,
                    key,
                    value,
                    mode,
                )
            },
            6 => {
                let hash = ops::maybe_hash(table, key, input.next_bool());
                change(table, collector, key, value, hash, model)
            },
            7 => {
                let copy = copy(table, thread, collector);
                let old_state = enter(table, thread, collector);
                let matches = workload::assert_table_matches(copy.read(thread.pinned()), model);
                thread.restore(old_state);
                matches
            },
            _ => {
                ops::reserve_one(table, collector, model);
                true
            },
        };
        let matches: bool = check_pinned(table, model, thread, collector);
        ok = passed && matches && ok;
        if step % 8 == 0 {
            quiesce(table, thread, collector);
        }
        proof {
            let (rest, after) = turn(bytes, before);
            assert(input.rest() == rest);
            assert(model@ =~= after);
        }
        step = step + 1;
    }
    ok
}

/// Runs up to 64 operations, taken from the bytes, on a table. Returns the model of what the table
/// should contain at the end, and whether the table always answered and contained what it should.
/// Returns `None` if there is no memory layout for the tables.
pub fn fuzz_sync_table<V: ByteValue, S: HashBuilder<u8> + Default + Clone>(data: &[u8]) -> (r:
    Option<(Model, bool)>)
    ensures
        r is Some <==> ops::tables_fit::<V>(),
        r matches Some((model, ok)) ==> {
            &&& model@ == played(data@, no_model(), 64)
            &&& ok
        },
{
    if !ops::do_tables_fit::<V, S>() {
        return None;
    }
    let mut collector: Collector<()> = Collector::new();
    let mut thread = Data::new(0);
    settle(&mut thread, &mut collector);
    proof {
        workload::lemma_byte_keys::<S>();
    }
    let mut table: SyncTable<u8, V, S> = SyncTable::new();
    let mut model: Model = workload::empty_model();
    proof {
        assert(model@ =~= no_model());
        assert(workload::bytes_of(table@) =~= Map::<u8, u8>::empty());
    }
    let ok: bool = play(&mut table, &mut collector, &mut thread, &mut model, data);
    table.drop_impl(&mut collector);
    settle(&mut thread, &mut collector);
    settle(&mut thread, &mut collector);
    settle(&mut thread, &mut collector);
    Some((model, ok))
}

} // verus!
