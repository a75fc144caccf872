//! A workload for tables whose values own something.

use crate::collect::{Collector, Data};
use crate::sync_table::SyncTable;
use crate::util::HashBuilder;
use crate::workload::fuzz;
use crate::workload::ops;
use crate::workload::{self, ByteValue, Input, Model};
use vstd::prelude::*;

verus! {

/// What one operation, taken from the bytes, does to the model, and the bytes that are left.
pub open spec fn turn(bytes: Seq<u8>, model: Seq<Option<u8>>) -> (Seq<u8>, Seq<Option<u8>>) {
    let op = workload::first_or(bytes, 0) as int % 6;
    let bytes = workload::after_first(bytes);
    let key = workload::first_or(bytes, 0);
    let bytes = workload::after_first(bytes);
    let byte = workload::first_or(bytes, 0);
    let bytes = workload::after_first(bytes);
    if op == 0 || op == 1 {
        // Insert, or insert a new element.
        (bytes, ops::after_insert(model, key, byte))
    } else if op == 2 {
        // Remove.
        (bytes, workload::with_value(model, key, None))
    } else if op == 3 {
        // Replace the contents.
        let len = fuzz::first_mod(bytes, 16) as nat;
        let bytes = workload::after_first(workload::after_first(bytes));
        (fuzz::after_pairs(bytes, len), fuzz::pairs_model(bytes, len, fuzz::no_model()))
    } else {
        // Clone the table, or make room.
        (bytes, model)
    }
}

/// The model after at most `steps` operations taken from the bytes.
pub open spec fn played(bytes: Seq<u8>, model: Seq<Option<u8>>, steps: nat) -> Seq<Option<u8>>
    decreases steps,
{
    if steps == 0 || bytes.len() == 0 {
        model
    } else {
        let (bytes, model) = turn(bytes, model);
        played(bytes, model, (steps - 1) as nat)
    }
}

/// Runs up to 64 operations, taken from the bytes, on the table, which contains what the model says.
/// Afterwards it contains what the model says then. Returns whether the table always answered and
/// contained what it should.
pub fn play<V: ByteValue, S: HashBuilder<u8> + Clone, C>(
    table: &mut SyncTable<u8, V, S>,
    collector: &mut Collector<C>,
    thread: &mut Data,
    model: &mut Model,
    data: &[u8],
) -> (r: bool)
    requires
        ops::tables_fit::<V>(),
        ops::holds(*old(table), *old(collector), old(model)@),
        old(table).generation() + 64 < u64::MAX,
        old(collector)@.next_id + 64 < u64::MAX,
        fuzz::idle(*old(thread), old(collector)@),
    ensures
        ops::holds(*final(table), *final(collector), final(model)@),
        final(table).generation() <= old(table).generation() + 64,
        final(collector)@.next_id <= old(collector)@.next_id + 64,
        fuzz::idle(*final(thread), final(collector)@),
        final(model)@ == played(data@, old(model)@, 64),
        r,
{
    let mut input = Input::new(data);
    let mut ok: bool = true;
    let mut step: usize = 0;
    while step < 64
        invariant
            step <= 64,
            input.wf(),
            ops::tables_fit::<V>(),
            ops::holds(*table, *collector, model@),
            table.generation() <= old(table).generation() + step,
            collector@.next_id <= old(collector)@.next_id + step,
            fuzz::idle(*thread, collector@),
            old(table).generation() + 64 < u64::MAX,
            old(collector)@.next_id + 64 < u64::MAX,
            ok,
            played(input.rest(), model@, (64 - step) as nat) == played(data@, old(model)@, 64),
        ensures
            ops::holds(*table, *collector, model@),
            table.generation() <= old(table).generation() + 64,
            collector@.next_id <= old(collector)@.next_id + 64,
            fuzz::idle(*thread, collector@),
            model@ == played(data@, old(model)@, 64),
            ok,
        decreases 64 - step,
    {
        let ghost bytes = input.rest();
        let ghost before = model@;
        proof {
            workload::lemma_byte_keys::<S>();
        }
        let op: u8 = match input.next() {
            Some(op) => op,
            None => break,
        };
        let key: u8 = input.next_or(0);
        let byte: u8 = input.next_or(0);
        let index: usize = key as usize;
        let passed: bool = match op % 6 {
            0 => {
                let inserted = ops::insert(table, collector, key, byte, None, model);
                let expected = model[index].is_none();
                if inserted {
                    model[index] = Some(byte);
                }
                inserted == expected
            },
            1 => {
                if model[index].is_none() {
                    let inserted = ops::insert_new(
                        table,
                        collector,
                        key,
                        byte,
                        None,
                        model,
                    );
                    model[index] = Some(byte);
                    inserted
                } else {
                    true
                }
            },
            2 => {
                let removed = ops::remove(table, collector, key, None, model);
                let expected: Option<u8> = model[index];
                model[index] = None;
                match (removed, expected) {
                    (Some((found_key, found_byte)), Some(byte)) => found_key == key && found_byte
                        == byte,
                    (None, None) => true,
                    _ => false,
                }
            },
            3 => {
                let len: usize = match input.next() {
                    Some(byte) => (byte % 16) as usize,
                    None => 0,
                };
                let capacity: usize = match input.next() {
                    Some(byte) => byte as usize,
                    None => 0,
                };
                let replacement = fuzz::read_pairs(&mut input, len);
                let items = workload::model_snapshot(&replacement);
                let roomy = ops::replace(
                    table,
                    collector,
                    &items,
                    capacity,
                    &replacement,
                );
                *model = replacement;
                roomy
            },
            4 => {
                let copy = fuzz::copy(table, thread, collector);
                let old_state = fuzz::enter(table, thread, collector);
                let matches = workload::assert_table_matches(copy.read(thread.pinned()), model);
                thread.restore(old_state);
                matches
            },
            _ => {
                ops::reserve_one(table, collector, model);
                true
            },
        };
        let matches: bool = fuzz::check_pinned(table, model, thread, collector);
        ok = passed && matches && ok;
        if step % 8 == 0 {
            fuzz::quiesce(table, thread, collector);
        }
        proof {
            let (rest, after) = turn(bytes, before);
            assert(input.rest() == rest);
            assert(model@ =~= after);
        }
        step = step + 1;
    }
    ok
}

/// Runs up to 64 operations, taken from the bytes, on a table whose values may own something.
/// Returns the model of what the table should contain at the end, and whether the table always
/// answered and contained what it should. The table and all that it ever contained are dropped.
/// Returns `None` if there is no memory layout for the tables.
pub fn fuzz_sync_table_drop<V: ByteValue, S: HashBuilder<u8> + Default + Clone>(data: &[u8]) -> (r:
    Option<(Model, bool)>)
    ensures
        r is Some <==> ops::tables_fit::<V>(),
        r matches Some((model, ok)) ==> {
            &&& model@ == played(data@, fuzz::no_model(), 64)
            &&& ok
        },
{
    if !ops::do_tables_fit::<V, S>() {
        return None;
    }
    let mut collector: Collector<()> = Collector::new();
    let mut thread = Data::new(0);
    fuzz::settle(&mut thread, &mut collector);
    proof {
        workload::lemma_byte_keys::<S>();
    }
    let mut table: SyncTable<u8, V, S> = SyncTable::new();
    let mut model: Model = workload::empty_model();
    proof {
        assert(model@ =~= fuzz::no_model());
        assert(workload::bytes_of(table@) =~= Map::<u8, u8>::empty());
    }
    let ok: bool = play(&mut table, &mut collector, &mut thread, &mut model, data);
    table.drop_impl(&mut collector);
    fuzz::settle(&mut thread, &mut collector);
    fuzz::settle(&mut thread, &mut collector);
    fuzz::settle(&mut thread, &mut collector);
    Some((model, ok))
}

} // verus!
