//! A workload of steps that several threads take together on a table of bytes.

use crate::collect::model::CollectorView;
use crate::collect::{Collector, Data, State};
use crate::sync_table::{PotentialSlot, Read, SyncTable};
use crate::util::HashBuilder;
use crate::workload::fuzz;
use crate::workload::ops::{self, Op};
use crate::workload::{self, ByteValue, Input, Model};
use vstd::prelude::*;

verus! {

/// What an operation is.
pub enum OpView {
    Insert { key: u8, value: u8, use_hash: bool },
    InsertNew { key: u8, value: u8, use_hash: bool },
    Remove { key: u8, use_hash: bool },
    Replace { items: Seq<(u8, u8)>, capacity: nat },
    ReserveOne,
}

impl View for Op {
    type V = OpView;

    open spec fn view(&self) -> OpView {
        match *self {
            Op::Insert { key, value, use_hash } => OpView::Insert { key, value, use_hash },
            Op::InsertNew { key, value, use_hash } => OpView::InsertNew { key, value, use_hash },
            Op::Remove { key, use_hash } => OpView::Remove { key, use_hash },
            Op::Replace { items, capacity } => OpView::Replace {
                items: items@,
                capacity: capacity as nat,
            },
            Op::ReserveOne => OpView::ReserveOne,
        }
    }
}

/// An operation, and what the table contains before and after it.
pub struct Step {
    pub op: Op,
    pub before: Model,
    pub after: Model,
    /// A key to be looked at.
    pub focus: u8,
    /// Another key to be looked at.
    pub probe: u8,
    /// How often the readers look at the table while it is written to.
    pub loops: usize,
    /// Whether the readers hold a slot while the table is written to. Kept separate from `loops` so
    /// that it does not decide when they collect.
    pub potential: bool,
}

/// What a step is.
pub struct StepView {
    pub op: OpView,
    pub before: Seq<Option<u8>>,
    pub after: Seq<Option<u8>>,
    pub focus: u8,
    pub probe: u8,
    pub loops: nat,
    pub potential: bool,
}

impl View for Step {
    type V = StepView;

    open spec fn view(&self) -> StepView {
        StepView {
            op: self.op@,
            before: self.before@,
            after: self.after@,
            focus: self.focus,
            probe: self.probe,
            loops: self.loops as nat,
            potential: self.potential,
        }
    }
}

/// The operation that the bytes make up, the model after it, and the bytes that are left.
pub open spec fn op_of(
    tag: u8,
    focus: u8,
    probe: u8,
    bytes: Seq<u8>,
    model: Seq<Option<u8>>,
) -> (OpView, Seq<Option<u8>>, Seq<u8>) {
    let key = workload::first_or(bytes, focus);
    let after_key = workload::after_first(bytes);
    let value = workload::first_or(after_key, probe);
    let after_value = workload::after_first(after_key);
    if tag % 5 == 0 {
        let use_hash = workload::first_is_odd(after_value);
        (
            OpView::Insert { key, value, use_hash },
            ops::after_insert(model, key, value),
            workload::after_first(after_value),
        )
    } else if tag % 5 == 1 {
        let use_hash = workload::first_is_odd(after_value);
        (
            OpView::InsertNew { key, value, use_hash },
            ops::after_insert(model, key, value),
            workload::after_first(after_value),
        )
    } else if tag % 5 == 2 {
        let use_hash = workload::first_is_odd(after_key);
        (
            OpView::Remove { key, use_hash },
            workload::with_value(model, key, None),
            workload::after_first(after_key),
        )
    } else if tag % 5 == 3 {
        let len = fuzz::first_mod(bytes, 24) as nat;
        let capacity = workload::first_or(after_key, 0) as nat;
        let replacement = fuzz::pairs_model(after_value, len, fuzz::no_model());
        (
            OpView::Replace { items: workload::snapshot(replacement, 0), capacity },
            replacement,
            fuzz::after_pairs(after_value, len),
        )
    } else {
        (OpView::ReserveOne, model, bytes)
    }
}

/// The step that the bytes make up, and the bytes that are left.
pub open spec fn step_of(bytes: Seq<u8>, model: Seq<Option<u8>>) -> (StepView, Seq<u8>) {
    let tag = workload::first_or(bytes, 0);
    let bytes = workload::after_first(bytes);
    let focus = workload::first_or(bytes, tag);
    let bytes = workload::after_first(bytes);
    let probe = workload::first_or(bytes, ((focus + 1) % 256) as u8);
    let bytes = workload::after_first(bytes);
    let control = workload::first_or(bytes, 0);
    let bytes = workload::after_first(bytes);
    let (op, after, rest) = op_of(tag, focus, probe, bytes, model);
    (
        StepView {
            op,
            before: model,
            after,
            focus,
            probe,
            loops: (control % 8 + 1) as nat,
            potential: (control / 8) % 2 == 1,
        },
        rest,
    )
}

/// At most `count` steps that the bytes make up.
pub open spec fn steps_of(bytes: Seq<u8>, model: Seq<Option<u8>>, count: nat) -> Seq<StepView>
    decreases count,
{
    if count == 0 || bytes.len() == 0 {
        Seq::empty()
    } else {
        let (step, rest) = step_of(bytes, model);
        seq![step] + steps_of(rest, step.after, (count - 1) as nat)
    }
}

/// What the steps are.
pub open spec fn views(steps: Seq<Step>) -> Seq<StepView> {
    Seq::new(steps.len(), |i: int| steps[i]@)
}

/// What the table contains before the step `i`, or after all steps.
pub open spec fn model_before(
    steps: Seq<Step>,
    model: Seq<Option<u8>>,
    i: int,
) -> Seq<Option<u8>> {
    if i <= 0 {
        model
    } else {
        steps[i - 1].after@
    }
}

/// Whether each step starts where the one before it ended, and says rightly where it leads to.
pub open spec fn consecutive(steps: Seq<Step>, model: Seq<Option<u8>>) -> bool {
    forall|i: int|
        0 <= i < steps.len() ==> {
            &&& (#[trigger] steps[i]).before@ == model_before(steps, model, i)
            &&& steps[i].op.leads_to(steps[i].before@, steps[i].after@)
            &&& steps[i].op.is_small()
            &&& 1 <= steps[i].loops <= 8
        }
}

/// Reads an operation, and applies it to the model.
fn read_op(input: &mut Input<'_>, tag: u8, focus: u8, probe: u8, model: &mut Model) -> (r: Op)
    requires
        old(input).wf(),
    ensures
        final(input).wf(),
        (r@, final(model)@, final(input).rest()) == op_of(
            tag,
            focus,
            probe,
            old(input).rest(),
            old(model)@,
        ),
        r.leads_to(old(model)@, final(model)@),
        r.is_small(),
{
    let ghost before = model@;
    match tag % 5 {
        0 => {
            let key: u8 = input.next_or(focus);
            let value: u8 = input.next_or(probe);
            let use_hash = input.next_bool();
            if model[key as usize].is_none() {
                model[key as usize] = Some(value);
            }
            assert(model@ =~= ops::after_insert(before, key, value));
            Op::Insert { key, value, use_hash }
        },
        1 => {
            let key: u8 = input.next_or(focus);
            let value: u8 = input.next_or(probe);
            let use_hash = input.next_bool();
            if model[key as usize].is_none() {
                model[key as usize] = Some(value);
            }
            assert(model@ =~= ops::after_insert(before, key, value));
            Op::InsertNew { key, value, use_hash }
        },
        2 => {
            let key: u8 = input.next_or(focus);
            let use_hash = input.next_bool();
            model[key as usize] = None;
            assert(model@ =~= workload::with_value(before, key, None));
            Op::Remove { key, use_hash }
        },
        3 => {
            let len: usize = match input.next() {
                Some(byte) => (byte % 24) as usize,
                None => 0,
            };
            let capacity: usize = input.next_or(0) as usize;
            let replacement = fuzz::read_pairs(input, len);
            let items = workload::model_snapshot(&replacement);
            *model = replacement;
            Op::Replace { items, capacity }
        },
        _ => Op::ReserveOne,
    }
}

/// Reads up to 32 steps from the bytes. The table is empty before the first.
pub fn build_steps(data: &[u8]) -> (r: Vec<Step>)
    ensures
        views(r@) == steps_of(data@, fuzz::no_model(), 32),
        r@.len() <= 32,
        consecutive(r@, fuzz::no_model()),
{
    let mut input = Input::new(data);
    let mut model: Model = workload::empty_model();
    let mut steps: Vec<Step> = Vec::new();
    proof {
        assert(model@ =~= fuzz::no_model());
        assert(views(steps@) + steps_of(data@, fuzz::no_model(), 32) =~= steps_of(
            data@,
            fuzz::no_model(),
            32,
        ));
    }
    while steps.len() < 32
        invariant
            input.wf(),
            steps@.len() <= 32,
            consecutive(steps@, fuzz::no_model()),
            model@ == model_before(steps@, fuzz::no_model(), steps@.len() as int),
            views(steps@) + steps_of(input.rest(), model@, (32 - steps@.len()) as nat) == steps_of(
                data@,
                fuzz::no_model(),
                32,
            ),
        ensures
            views(steps@) == steps_of(data@, fuzz::no_model(), 32),
            steps@.len() <= 32,
            consecutive(steps@, fuzz::no_model()),
        decreases 32 - steps@.len(),
    {
        let ghost bytes = input.rest();
        let ghost old_steps = steps@;
        let tag: u8 = match input.next() {
            Some(tag) => tag,
            None => {
                assert(views(steps@) + Seq::<StepView>::empty() =~= views(steps@));
                break;
            },
        };
        let before: Model = model;
        let focus: u8 = input.next_or(tag);
        let probe: u8 = input.next_or(focus.wrapping_add(1));
        let control: u8 = input.next_or(0);
        let loops: usize = (control % 8 + 1) as usize;
        let potential: bool = (control / 8) % 2 == 1;
        let op = read_op(&mut input, tag, focus, probe, &mut model);
        steps.push(Step { op, before, after: model, focus, probe, loops, potential });
        proof {
            let (step, rest) = step_of(bytes, before@);
            let new = steps@[old_steps.len() as int];
            assert(new@ == step);
            assert(input.rest() == rest);
            assert forall|i: int| 0 <= i <= old_steps.len() implies model_before(
                steps@,
                fuzz::no_model(),
                i,
            ) == #[trigger] model_before(old_steps, fuzz::no_model(), i) by {}
            assert forall|i: int| 0 <= i < steps@.len() implies {
                &&& (#[trigger] steps@[i]).before@ == model_before(steps@, fuzz::no_model(), i)
                &&& steps@[i].op.leads_to(steps@[i].before@, steps@[i].after@)
                &&& steps@[i].op.is_small()
                &&& 1 <= steps@[i].loops <= 8
            } by {
                if i < old_steps.len() {
                    assert(steps@[i] == old_steps[i]);
                    assert(model_before(old_steps, fuzz::no_model(), i) == model_before(
                        steps@,
                        fuzz::no_model(),
                        i,
                    ));
                } else {
                    assert(model_before(old_steps, fuzz::no_model(), i) == model_before(
                        steps@,
                        fuzz::no_model(),
                        i,
                    ));
                }
            }
            let later = steps_of(rest, model@, (32 - steps@.len()) as nat);
            assert(views(old_steps) + (seq![step] + later) =~= views(steps@) + later);
        }
    }
    steps
}

/// The key that the step's operation acts on, or `focus` for those that act on the whole table.
pub open spec fn primary_key_of(step: StepView) -> u8 {
    match step.op {
        OpView::Insert { key, .. } => key,
        OpView::InsertNew { key, .. } => key,
        OpView::Remove { key, .. } => key,
        OpView::Replace { .. } => step.focus,
        OpView::ReserveOne => step.focus,
    }
}

/// The key that the step's operation acts on, or `focus` for those that act on the whole table.
pub fn primary_key(step: &Step) -> (r: u8)
    ensures
        r == primary_key_of(step@),
{
    match &step.op {
        Op::Insert { key, .. } => *key,
        Op::InsertNew { key, .. } => *key,
        Op::Remove { key, .. } => *key,
        Op::Replace { .. } => step.focus,
        Op::ReserveOne => step.focus,
    }
}

/// The keys to be looked at while the step is taken.
pub fn interesting_keys(step: &Step) -> (r: [u8; 3])
    ensures
        r@ == seq![primary_key_of(step@), step.focus, step.probe],
{
    let r: [u8; 3] = [primary_key(step), step.focus, step.probe];
    assert(r@ =~= seq![primary_key_of(step@), step.focus, step.probe]);
    r
}

/// Whether the key has the value before or after any of the steps.
pub open spec fn is_possible(steps: Seq<Step>, key: int, value: u8) -> bool {
    exists|i: int|
        0 <= i < steps.len() && ((#[trigger] steps[i]).before@[key] == Some(value)
            || steps[i].after@[key] == Some(value))
}

/// Marks the value of each key in the model as possible.
fn note_values(possible: &mut Vec<[bool; 256]>, model: &Model)
    requires
        old(possible)@.len() == 256,
    ensures
        final(possible)@.len() == 256,
        forall|key: int, value: u8|
            0 <= key < 256 ==> #[trigger] final(possible)@[key]@[value as int] == (
            old(possible)@[key]@[value as int] || model@[key] == Some(value)),
{
    let ghost before = possible@;
    let mut key: usize = 0;
    while key < 256
        invariant
            key <= 256,
            possible@.len() == 256,
            before.len() == 256,
            forall|k: int, value: u8|
                0 <= k < key ==> #[trigger] possible@[k]@[value as int] == (
                before[k]@[value as int] || model@[k] == Some(value)),
            forall|k: int| key <= k < 256 ==> #[trigger] possible@[k] == before[k],
        decreases 256 - key,
    {
        if let Some(value) = model[key] {
            let mut row: [bool; 256] = possible[key];
            row[value as usize] = true;
            possible.set(key, row);
        }
        key = key + 1;
    }
}

/// Every value that each key ever has in any step, for those who cannot know which step is being
/// taken.
pub fn possible_values(steps: &Vec<Step>) -> (r: Vec<[bool; 256]>)
    ensures
        r@.len() == 256,
        forall|key: int, value: u8|
            0 <= key < 256 ==> #[trigger] r@[key]@[value as int] == is_possible(
                steps@,
                key,
                value,
            ),
{
    let mut possible: Vec<[bool; 256]> = Vec::new();
    while possible.len() < 256
        invariant
            possible@.len() <= 256,
            forall|key: int, value: u8|
                0 <= key < possible@.len() ==> !#[trigger] possible@[key]@[value as int],
        decreases 256 - possible@.len(),
    {
        possible.push([false;256]);
    }
    let mut i: usize = 0;
    while i < steps.len()
        invariant
            i <= steps@.len(),
            possible@.len() == 256,
            forall|key: int, value: u8|
                0 <= key < 256 ==> #[trigger] possible@[key]@[value as int] == is_possible(
                    steps@.take(i as int),
                    key,
                    value,
                ),
        decreases steps@.len() - i,
    {
        let ghost old_possible = possible@;
        note_values(&mut possible, &steps[i].before);
        let ghost mid = possible@;
        note_values(&mut possible, &steps[i].after);
        proof {
            let old_taken = steps@.take(i as int);
            let taken = steps@.take(i + 1);
            assert forall|key: int, value: u8| 0 <= key < 256 implies #[trigger] possible@[key]@[
                value as int] == is_possible(taken, key, value) by {
                assert(mid[key]@[value as int] == (old_possible[key]@[value as int]
                    || steps@[i as int].before@[key] == Some(value)));
                assert(taken[i as int] == steps@[i as int]);
                if is_possible(old_taken, key, value) {
                    let j = choose|j: int|
                        0 <= j < old_taken.len() && ((#[trigger] old_taken[j]).before@[key] == Some(
                            value,
                        ) || old_taken[j].after@[key] == Some(value));
                    assert(taken[j] == old_taken[j]);
                }
                if is_possible(taken, key, value) {
                    let j = choose|j: int|
                        0 <= j < taken.len() && ((#[trigger] taken[j]).before@[key] == Some(value)
                            || taken[j].after@[key] == Some(value));
                    if j < i {
                        assert(taken[j] == old_taken[j]);
                    }
                }
            }
        }
        i = i + 1;
    }
    assert(steps@.take(i as int) =~= steps@);
    possible
}

/// Whether the value of the key is the one before or after the step.
pub open spec fn is_racy_value(step: StepView, key: u8, value: Option<u8>) -> bool {
    value == step.before[key as int] || value == step.after[key as int]
}

/// Whether the contents may be seen while the step is taken: every element is there before or after
/// it, and the keys that are looked at have the values from before or after it.
pub open spec fn may_be_seen<V: ByteValue>(step: StepView, map: Map<u8, V>) -> bool {
    &&& forall|key: u8| #[trigger]
        map.contains_key(key) ==> is_racy_value(step, key, workload::value_of(map, key))
    &&& is_racy_value(
        step,
        primary_key_of(step),
        workload::value_of(map, primary_key_of(step)),
    )
    &&& is_racy_value(step, step.focus, workload::value_of(map, step.focus))
    &&& is_racy_value(step, step.probe, workload::value_of(map, step.probe))
}

/// Looks at a table while the step is taken. Returns whether all that is seen is from before or
/// after it.
pub fn assert_racy_reads<V: ByteValue, S: HashBuilder<u8>>(
    read: Read<'_, u8, V, S>,
    step: &Step,
) -> (r: bool)
    requires
        read.table().wf(),
    ensures
        r == may_be_seen(step@, read.table()@),
{
    let keys: [u8; 3] = interesting_keys(step);
    let mut i: usize = 0;
    while i < 3
        invariant
            i <= 3,
            read.table().wf(),
            keys@ == seq![primary_key_of(step@), step.focus, step.probe],
            forall|j: int|
                0 <= j < i ==> is_racy_value(
                    step@,
                    #[trigger] keys@[j],
                    workload::value_of(read.table()@, keys@[j]),
                ),
        decreases 3 - i,
    {
        let key: u8 = keys[i];
        let before: Option<u8> = step.before[key as usize];
        let after: Option<u8> = step.after[key as usize];
        if !workload::lookups_agree(read, key, before, after) {
            assert(!is_racy_value(step@, keys@[i as int], workload::value_of(read.table()@, key)));
            return false;
        }
        i = i + 1;
    }
    assert(keys@[0] == primary_key_of(step@) && keys@[1] == step.focus && keys@[2] == step.probe);
    let (actual, unique) = workload::read_model(read);
    if !unique {
        return false;
    }
    let ghost map = read.table()@;
    let mut key: usize = 0;
    while key < 256
        invariant
            key <= 256,
            map == read.table()@,
            workload::bytes_of(map) == workload::model_map(actual@),
            forall|k: u8| #[trigger]
                map.contains_key(k) && k < key ==> is_racy_value(
                    step@,
                    k,
                    workload::value_of(map, k),
                ),
        decreases 256 - key,
    {
        let current: Option<u8> = actual[key];
        proof {
            workload::lemma_value_of(map, actual@, key as u8);
        }
        if current.is_some() && current != step.before[key] && current != step.after[key] {
            assert(map.contains_key(key as u8));
            return false;
        }
        key = key + 1;
    }
    true
}

/// Whether every value in the table is possible.
pub open spec fn all_possible<V: ByteValue>(
    possible: Seq<[bool; 256]>,
    map: Map<u8, V>,
) -> bool {
    forall|key: u8| #[trigger]
        map.contains_key(key) ==> possible[key as int]@[map[key].as_byte() as int]
}

/// Looks at a table while any step is taken. Returns whether what holds of all of them holds: no key
/// is there twice, and every value was written at some point.
pub fn assert_monotone_reads<V: ByteValue, S: HashBuilder<u8>>(
    read: Read<'_, u8, V, S>,
    possible: &Vec<[bool; 256]>,
) -> (r: bool)
    requires
        read.table().wf(),
        possible@.len() == 256,
    ensures
        r == all_possible(possible@, read.table()@),
{
    let (actual, unique) = workload::read_model(read);
    if !unique {
        return false;
    }
    let ghost map = read.table()@;
    let mut key: usize = 0;
    while key < 256
        invariant
            key <= 256,
            possible@.len() == 256,
            read.table().wf(),
            map == read.table()@,
            workload::bytes_of(map) == workload::model_map(actual@),
            forall|k: u8| #[trigger]
                map.contains_key(k) && k < key
                    ==> possible@[k as int]@[map[k].as_byte() as int],
        decreases 256 - key,
    {
        proof {
            workload::lemma_byte_keys::<S>();
            workload::lemma_has_byte(map, key as u8);
            workload::lemma_value_of(map, actual@, key as u8);
        }
        if let Some(value) = actual[key] {
            if !possible[key][value as usize] {
                assert(map.contains_key(key as u8));
                return false;
            }
        }
        let hash: u64 = read.hash_key(&(key as u8));
        if let Some((found_key, value)) = read.get(&(key as u8), Some(hash)) {
            if *found_key != key as u8 || !possible[key][value.byte() as usize] {
                return false;
            }
        }
        key = key + 1;
    }
    true
}

/// Takes the step. Returns whether the table answered as the step says.
pub fn apply_step<V: ByteValue, S: HashBuilder<u8>, C>(
    table: &mut SyncTable<u8, V, S>,
    collector: &mut Collector<C>,
    step: &Step,
) -> (r: bool)
    requires
        ops::holds(*old(table), *old(collector), step.before@),
        ops::ids_left(*old(table), old(collector)@),
        ops::tables_fit::<V>(),
        step.op.is_small(),
        step.op.leads_to(step.before@, step.after@),
    ensures
        ops::holds(*final(table), *final(collector), step.after@),
        ops::one_table_later(*old(table), *final(table), old(collector)@, final(collector)@),
        final(table).builder() == old(table).builder(),
        final(table).keeps_slots(*old(table)),
        r,
{
    ops::apply_op(table, collector, &step.op, &step.before, &step.after)
}

/// What a reader holds while a step is taken.
pub enum Held {
    Nothing,
    /// The element with the key that the step acts on.
    Element { key: u8, value: u8 },
    /// The slot for an element with that key.
    Slot(PotentialSlot),
}

impl Held {
    /// Whether this is what a reader holds of a table in which the key has the value `before`.
    pub open spec fn is_of<V: ByteValue, S: HashBuilder<u8>>(
        self,
        table: SyncTable<u8, V, S>,
        key: u8,
        before: Option<u8>,
    ) -> bool {
        match self {
            Held::Nothing => true,
            Held::Element { key: found_key, value } => found_key == key && before == Some(value),
            Held::Slot(slot) => before is None && slot.is_for(table, key),
        }
    }
}

/// Looks for an element with the key, or for the slot of one.
pub fn hold<V: ByteValue, S: HashBuilder<u8>>(read: Read<'_, u8, V, S>, key: u8) -> (r: Held)
    requires
        read.table().wf(),
    ensures
        r !is Nothing,
        r.is_of(*read.table(), key, workload::value_of(read.table()@, key)),
{
    let hash: u64 = read.hash_key(&key);
    proof {
        workload::lemma_byte_keys::<S>();
        workload::lemma_has_byte(read.table()@, key);
    }
    match read.get_potential(&key, Some(hash)) {
        Ok((found_key, value)) => Held::Element { key: *found_key, value: value.byte() },
        Err(slot) => Held::Slot(slot),
    }
}

/// Checks what was held while a step was taken against the values of the key before and after it.
pub fn held_agrees<V: ByteValue, S: HashBuilder<u8>>(
    read: Read<'_, u8, V, S>,
    held: Held,
    key: u8,
    before: Option<u8>,
    after: Option<u8>,
) -> (r: bool)
    requires
        read.table().wf(),
        held matches Held::Slot(slot) ==> slot.is_for(*read.table(), key),
    ensures
        r == match held {
            Held::Nothing => true,
            Held::Element { key: found_key, value } => found_key == key && before == Some(value),
            Held::Slot(_) => before is None && workload::value_of(read.table()@, key) == after,
        },
{
    let hash: u64 = read.hash_key(&key);
    proof {
        workload::lemma_byte_keys::<S>();
        workload::lemma_has_byte(read.table()@, key);
    }
    match held {
        Held::Nothing => true,
        Held::Element { key: found_key, value } => found_key == key && before == Some(value),
        Held::Slot(slot) => {
            let current: Option<u8> = match slot.get(read, &key, Some(hash)) {
                Some((_, value)) => Some(value.byte()),
                None => None,
            };
            let refreshed: bool = match slot.refresh(read, &key, Some(hash)) {
                Ok((found_key, value)) => *found_key == key && after == Some(value.byte()),
                Err(_) => after.is_none(),
            };
            before.is_none() && current == after && refreshed
        },
    }
}

/// Whether the thread runs no callbacks, and the collector knows whether it is registered.
pub open spec fn ready<C>(data: Data, collector: Collector<C>) -> bool {
    data@.state != State::Collecting && data@.attached_to(collector@)
}

/// What a reader does before a step is taken: it checks the contents, and holds an element or a slot
/// if the step asks for it. In that case it stays in a pinned region.
pub fn reader_before<V: ByteValue, S: HashBuilder<u8>, C>(
    table: &SyncTable<u8, V, S>,
    collector: &mut Collector<C>,
    data: &mut Data,
    step: &Step,
) -> (r: (bool, Held))
    requires
        ops::holds(*table, *old(collector), step.before@),
        fuzz::idle(*old(data), old(collector)@),
    ensures
        ops::holds(*table, *final(collector), step.before@),
        fuzz::keeps_others(old(collector)@, final(collector)@, old(data)@.thread_id),
        final(collector)@.next_id == old(collector)@.next_id,
        final(data)@.thread_id == old(data)@.thread_id,
        final(data)@.attached_to(final(collector)@),
        final(data)@.state == if step.potential {
            State::Pinned
        } else {
            State::Registered
        },
        r.0,
        r.1.is_of(*table, primary_key_of(step@), step.before@[primary_key_of(step@) as int]),
        step.potential == (r.1 !is Nothing),
{
    let ok: bool = fuzz::check_pinned(table, &step.before, data, collector);
    let old_state = fuzz::enter(table, data, collector);
    if step.potential {
        let key: u8 = primary_key(step);
        proof {
            workload::lemma_value_of(table@, step.before@, key);
        }
        (ok, hold(table.read(data.pinned()), key))
    } else {
        data.restore(old_state);
        (ok, Held::Nothing)
    }
}

/// What a reader does while a step is taken: it looks at the table again and again.
pub fn reader_during<V: ByteValue, S: HashBuilder<u8>, C>(
    table: &SyncTable<u8, V, S>,
    collector: &mut Collector<C>,
    data: &mut Data,
    step: &Step,
) -> (r: bool)
    requires
        table.wf(),
        old(collector).wf(),
        table.attached_to(old(collector)@),
        ready(*old(data), *old(collector)),
        step.loops > 0,
    ensures
        final(collector).wf(),
        table.attached_to(final(collector)@),
        fuzz::keeps_others(old(collector)@, final(collector)@, old(data)@.thread_id),
        final(collector)@.next_id == old(collector)@.next_id,
        final(data)@.thread_id == old(data)@.thread_id,
        final(data)@.attached_to(final(collector)@),
        final(data)@.state == if old(data)@.state == State::Pinned {
            State::Pinned
        } else {
            State::Registered
        },
        r == may_be_seen(step@, table@),
{
    let mut i: usize = 0;
    let mut ok: bool = true;
    while i < step.loops
        invariant
            i <= step.loops,
            table.wf(),
            collector.wf(),
            table.attached_to(collector@),
            ready(*data, *collector),
            fuzz::keeps_others(old(collector)@, collector@, old(data)@.thread_id),
            collector@.next_id == old(collector)@.next_id,
            data@.thread_id == old(data)@.thread_id,
            old(data)@.state != State::Collecting,
            i > 0 ==> data@.state != State::Unregistered,
            data@.state == State::Pinned <==> old(data)@.state == State::Pinned,
            ok == (i > 0 ==> may_be_seen(step@, table@)),
        decreases step.loops - i,
    {
        let old_state = fuzz::enter(table, data, collector);
        ok = assert_racy_reads(table.read(data.pinned()), step) && ok;
        data.restore(old_state);
        i = i + 1;
    }
    ok
}

/// What a reader does after a step has been taken: it checks what it held, and the contents of the
/// table and, after some steps, of a clone of it.
pub fn reader_after<V: ByteValue, S: HashBuilder<u8> + Clone, C>(
    table: &SyncTable<u8, V, S>,
    collector: &mut Collector<C>,
    data: &mut Data,
    step: &Step,
    held: Held,
) -> (r: bool)
    requires
        ops::holds(*table, *old(collector), step.after@),
        old(data)@.state != State::Collecting,
        old(data)@.attached_to(old(collector)@),
        held.is_of(*table, primary_key_of(step@), step.before@[primary_key_of(step@) as int]),
    ensures
        ops::holds(*table, *final(collector), step.after@),
        fuzz::keeps_others(old(collector)@, final(collector)@, old(data)@.thread_id),
        final(collector)@.next_id == old(collector)@.next_id,
        final(data)@.thread_id == old(data)@.thread_id,
        final(data)@.attached_to(final(collector)@),
        final(data)@.state == State::Registered,
        r,
{
    let key: u8 = primary_key(step);
    let before: Option<u8> = step.before[key as usize];
    let after: Option<u8> = step.after[key as usize];
    proof {
        workload::lemma_value_of(table@, step.after@, key);
    }
    let _ = fuzz::enter(table, data, collector);
    let agrees: bool = held_agrees(table.read(data.pinned()), held, key, before, after);
    data.restore(State::Registered);
    let mut ok: bool = fuzz::check_pinned(table, &step.after, data, collector) && agrees;
    if step.loops % 2 == 0 {
        let copy = fuzz::copy(table, data, collector);
        let old_state = fuzz::enter(table, data, collector);
        ok = workload::assert_table_matches(copy.read(data.pinned()), &step.after) && ok;
        data.restore(old_state);
    }
    ok
}

/// Whether the threads are distinct and idle, and the table contains what the model says.
pub open spec fn all_idle<V: ByteValue, S: HashBuilder<u8>, C>(
    table: SyncTable<u8, V, S>,
    collector: Collector<C>,
    threads: (Data, Data, Data),
    model: Seq<Option<u8>>,
) -> bool {
    &&& ops::holds(table, collector, model)
    &&& fuzz::idle(threads.0, collector@)
    &&& fuzz::idle(threads.1, collector@)
    &&& fuzz::idle(threads.2, collector@)
    &&& threads.0@.thread_id != threads.1@.thread_id
    &&& threads.0@.thread_id != threads.2@.thread_id
    &&& threads.1@.thread_id != threads.2@.thread_id
}

/// Whether the threads are those from before, and every other thread is still attached to the
/// collector if it was.
pub open spec fn only_these<C>(
    threads_before: (Data, Data, Data),
    threads: (Data, Data, Data),
    before: CollectorView<C>,
    after: CollectorView<C>,
) -> bool {
    &&& threads.0@.thread_id == threads_before.0@.thread_id
    &&& threads.1@.thread_id == threads_before.1@.thread_id
    &&& threads.2@.thread_id == threads_before.2@.thread_id
    &&& forall|other: u64|
        other != threads.0@.thread_id && other != threads.1@.thread_id && other
            != threads.2@.thread_id ==> (#[trigger] after.threads.contains_key(other)
            == before.threads.contains_key(other))
}

/// Takes all steps in lockstep with two readers, which check what they see between the steps against
/// the exact model. While a step is taken the first reader is ahead of the writer and the second is
/// behind it. Returns whether all checks passed.
pub fn run_barriered<V: ByteValue, S: HashBuilder<u8> + Clone, C>(
    table: &mut SyncTable<u8, V, S>,
    collector: &mut Collector<C>,
    threads: &mut (Data, Data, Data),
    steps: &Vec<Step>,
) -> (r: bool)
    requires
        all_idle(*old(table), *old(collector), *old(threads), fuzz::no_model()),
        old(table).generation() + steps@.len() < u64::MAX,
        old(collector)@.next_id + steps@.len() < u64::MAX,
        ops::tables_fit::<V>(),
        consecutive(steps@, fuzz::no_model()),
    ensures
        all_idle(
            *final(table),
            *final(collector),
            *final(threads),
            model_before(steps@, fuzz::no_model(), steps@.len() as int),
        ),
        only_these(*old(threads), *final(threads), old(collector)@, final(collector)@),
        final(threads).0@.state == State::Unregistered,
        final(threads).1@.state == State::Unregistered,
        final(threads).2@.state == State::Unregistered,
        r,
{
    let mut ok: bool = true;
    let mut i: usize = 0;
    while i < steps.len()
        invariant
            i <= steps@.len(),
            all_idle(
                *table,
                *collector,
                *threads,
                model_before(steps@, fuzz::no_model(), i as int),
            ),
            only_these(*old(threads), *threads, old(collector)@, collector@),
            table.generation() <= old(table).generation() + i,
            collector@.next_id <= old(collector)@.next_id + i,
            old(table).generation() + steps@.len() < u64::MAX,
            old(collector)@.next_id + steps@.len() < u64::MAX,
            ops::tables_fit::<V>(),
            consecutive(steps@, fuzz::no_model()),
            ok,
        decreases steps@.len() - i,
    {
        let step: &Step = &steps[i];
        let key: u8 = primary_key(step);
        let (first_ok, first_held) = reader_before(table, collector, &mut threads.0, step);
        let (second_ok, second_held) = reader_before(table, collector, &mut threads.1, step);
        ok = ok && first_ok && second_ok;
        proof {
            lemma_may_be_seen(step@, table@, step.before@);
        }
        let first_ok = reader_during(table, collector, &mut threads.0, step);
        let ghost before = *table;
        let applied = apply_step(table, collector, step);
        proof {
            lemma_may_be_seen(step@, table@, step.after@);
            assert(first_held.is_of(*table, key, step.before@[key as int]));
            assert(second_held.is_of(*table, key, step.before@[key as int]));
        }
        let second_ok = reader_during(table, collector, &mut threads.1, step);
        ok = ok && applied && first_ok && second_ok;
        if !step.potential && step.loops % 3 == 0 {
            fuzz::quiesce(table, &mut threads.0, collector);
            fuzz::quiesce(table, &mut threads.1, collector);
        }
        if step.loops % 5 == 0 {
            fuzz::quiesce(table, &mut threads.2, collector);
        }
        let first_ok = reader_after(table, collector, &mut threads.0, step, first_held);
        let second_ok = reader_after(table, collector, &mut threads.1, step, second_held);
        ok = ok && first_ok && second_ok;
        i = i + 1;
    }
    release_all(table, collector, threads);
    ok
}

/// Lets all threads leave the collector.
fn release_all<V: ByteValue, S: HashBuilder<u8>, C>(
    table: &SyncTable<u8, V, S>,
    collector: &mut Collector<C>,
    threads: &mut (Data, Data, Data),
)
    requires
        table.wf(),
        old(collector).wf(),
        table.attached_to(old(collector)@),
        fuzz::idle(old(threads).0, old(collector)@),
        fuzz::idle(old(threads).1, old(collector)@),
        fuzz::idle(old(threads).2, old(collector)@),
        old(threads).0@.thread_id != old(threads).1@.thread_id,
        old(threads).0@.thread_id != old(threads).2@.thread_id,
        old(threads).1@.thread_id != old(threads).2@.thread_id,
    ensures
        final(collector).wf(),
        table.attached_to(final(collector)@),
        fuzz::idle(final(threads).0, final(collector)@),
        fuzz::idle(final(threads).1, final(collector)@),
        fuzz::idle(final(threads).2, final(collector)@),
        only_these(*old(threads), *final(threads), old(collector)@, final(collector)@),
        final(threads).0@.state == State::Unregistered,
        final(threads).1@.state == State::Unregistered,
        final(threads).2@.state == State::Unregistered,
{
    fuzz::leave(table, &mut threads.0, collector);
    fuzz::leave(table, &mut threads.1, collector);
    fuzz::leave(table, &mut threads.2, collector);
}

/// What the model before or after the step says may be seen while it is taken.
proof fn lemma_may_be_seen<V: ByteValue>(step: StepView, map: Map<u8, V>, model: Seq<Option<u8>>)
    requires
        workload::bytes_of(map) == workload::model_map(model),
        model == step.before || model == step.after,
    ensures
        may_be_seen(step, map),
{
    assert forall|key: u8| is_racy_value(step, key, #[trigger] workload::value_of(map, key)) by {
        workload::lemma_value_of(map, model, key);
    }
}

/// What the model before or after any of the steps says is possible.
proof fn lemma_all_possible<V: ByteValue>(
    steps: Seq<Step>,
    possible: Seq<[bool; 256]>,
    map: Map<u8, V>,
    model: Seq<Option<u8>>,
    i: int,
)
    requires
        0 <= i < steps.len(),
        model == steps[i].before@ || model == steps[i].after@,
        workload::bytes_of(map) == workload::model_map(model),
        forall|key: int, value: u8|
            0 <= key < 256 ==> #[trigger] possible[key]@[value as int] == is_possible(
                steps,
                key,
                value,
            ),
    ensures
        all_possible(possible, map),
{
    assert forall|key: u8| #[trigger] map.contains_key(key) implies possible[key as int]@[
        map[key].as_byte() as int] by {
        workload::lemma_value_of(map, model, key);
        let value = map[key].as_byte();
        assert(is_possible(steps, key as int, value));
        assert(possible[key as int]@[value as int]);
    }
}

/// What a reader does that does not know which step is being taken: it looks at the table again and
/// again, and collects after some steps.
pub fn reader_apart<V: ByteValue, S: HashBuilder<u8>, C>(
    table: &SyncTable<u8, V, S>,
    collector: &mut Collector<C>,
    data: &mut Data,
    loops: usize,
    possible: &Vec<[bool; 256]>,
) -> (r: bool)
    requires
        table.wf(),
        old(collector).wf(),
        table.attached_to(old(collector)@),
        fuzz::idle(*old(data), old(collector)@),
        possible@.len() == 256,
    ensures
        final(collector).wf(),
        table.attached_to(final(collector)@),
        fuzz::keeps_others(old(collector)@, final(collector)@, old(data)@.thread_id),
        final(collector)@.next_id == old(collector)@.next_id,
        final(data)@.thread_id == old(data)@.thread_id,
        fuzz::idle(*final(data), final(collector)@),
        r == (loops > 0 ==> all_possible(possible@, table@)),
{
    let mut i: usize = 0;
    let mut ok: bool = true;
    while i < loops
        invariant
            i <= loops,
            table.wf(),
            collector.wf(),
            table.attached_to(collector@),
            fuzz::idle(*data, collector@),
            fuzz::keeps_others(old(collector)@, collector@, old(data)@.thread_id),
            collector@.next_id == old(collector)@.next_id,
            data@.thread_id == old(data)@.thread_id,
            possible@.len() == 256,
            ok == (i > 0 ==> all_possible(possible@, table@)),
        decreases loops - i,
    {
        let old_state = fuzz::enter(table, data, collector);
        ok = assert_monotone_reads(table.read(data.pinned()), possible) && ok;
        data.restore(old_state);
        i = i + 1;
    }
    if loops % 3 == 0 {
        fuzz::quiesce(table, data, collector);
    }
    ok
}

/// Takes all steps while two readers look at the table, which only check what holds of every step:
/// the first before each step is taken, and the second after it. Returns whether all checks passed,
/// and whether the table contains what it should at the end.
pub fn run_unbarriered<V: ByteValue, S: HashBuilder<u8> + Clone, C>(
    table: &mut SyncTable<u8, V, S>,
    collector: &mut Collector<C>,
    threads: &mut (Data, Data, Data),
    steps: &Vec<Step>,
) -> (r: bool)
    requires
        all_idle(*old(table), *old(collector), *old(threads), fuzz::no_model()),
        old(table).generation() + steps@.len() < u64::MAX,
        old(collector)@.next_id + steps@.len() < u64::MAX,
        ops::tables_fit::<V>(),
        consecutive(steps@, fuzz::no_model()),
    ensures
        all_idle(
            *final(table),
            *final(collector),
            *final(threads),
            model_before(steps@, fuzz::no_model(), steps@.len() as int),
        ),
        only_these(*old(threads), *final(threads), old(collector)@, final(collector)@),
        final(threads).0@.state == State::Unregistered,
        final(threads).1@.state == State::Unregistered,
        steps@.len() == 0 ==> final(threads).2@.state == State::Unregistered,
        r,
{
    let possible = possible_values(steps);
    let mut ok: bool = true;
    let mut i: usize = 0;
    while i < steps.len()
        invariant
            i <= steps@.len(),
            all_idle(
                *table,
                *collector,
                *threads,
                model_before(steps@, fuzz::no_model(), i as int),
            ),
            only_these(*old(threads), *threads, old(collector)@, collector@),
            table.generation() <= old(table).generation() + i,
            collector@.next_id <= old(collector)@.next_id + i,
            old(table).generation() + steps@.len() < u64::MAX,
            old(collector)@.next_id + steps@.len() < u64::MAX,
            ops::tables_fit::<V>(),
            consecutive(steps@, fuzz::no_model()),
            possible@.len() == 256,
            forall|key: int, value: u8|
                0 <= key < 256 ==> #[trigger] possible@[key]@[value as int] == is_possible(
                    steps@,
                    key,
                    value,
                ),
            ok,
        decreases steps@.len() - i,
    {
        let step: &Step = &steps[i];
        proof {
            lemma_all_possible(steps@, possible@, table@, step.before@, i as int);
        }
        let first_ok = reader_apart(table, collector, &mut threads.0, step.loops, &possible);
        let applied = apply_step(table, collector, step);
        proof {
            lemma_all_possible(steps@, possible@, table@, step.after@, i as int);
        }
        let second_ok = reader_apart(table, collector, &mut threads.1, step.loops, &possible);
        if step.loops % 5 == 0 {
            fuzz::quiesce(table, &mut threads.2, collector);
        }
        ok = ok && first_ok && applied && second_ok;
        i = i + 1;
    }
    release_all(table, collector, threads);
    if steps.len() > 0 {
        let last: &Step = &steps[steps.len() - 1];
        let matches: bool = fuzz::check_pinned(table, &last.after, &mut threads.2, collector);
        ok = ok && matches;
    }
    ok
}

/// What the table contains after the steps that the bytes make up.
pub open spec fn played(bytes: Seq<u8>) -> Seq<Option<u8>> {
    let steps = steps_of(bytes, fuzz::no_model(), 32);
    if steps.len() == 0 {
        fuzz::no_model()
    } else {
        steps.last().after
    }
}

/// Takes the steps that the bytes make up, together with two readers: in lockstep if the last byte is
/// even. Returns what the table should contain at the end, and whether all checks passed.
/// Returns `None` if there is no memory layout for the tables.
pub fn fuzz_sync_table_concurrent<V: ByteValue, S: HashBuilder<u8> + Default + Clone>(
    data: &[u8],
) -> (r: Option<(Model, bool)>)
    ensures
        r is Some <==> ops::tables_fit::<V>(),
        r matches Some((model, ok)) ==> {
            &&& model@ == played(data@)
            &&& ok
        },
{
    if !ops::do_tables_fit::<V, S>() {
        return None;
    }
    let mut collector: Collector<()> = Collector::new();
    let mut main = Data::new(0);
    fuzz::settle(&mut main, &mut collector);
    let steps = build_steps(data);
    proof {
        workload::lemma_byte_keys::<S>();
    }
    let mut table: SyncTable<u8, V, S> = SyncTable::new();
    let mut threads: (Data, Data, Data) = (Data::new(1), Data::new(2), Data::new(3));
    proof {
        assert(workload::bytes_of(table@) =~= Map::<u8, u8>::empty());
        assert(workload::model_map(fuzz::no_model()) =~= Map::<u8, u8>::empty());
    }
    let apart: bool = data.len() > 0 && data[data.len() - 1] % 2 == 1;
    let ok: bool = if apart {
        run_unbarriered(&mut table, &mut collector, &mut threads, &steps)
    } else {
        run_barriered(&mut table, &mut collector, &mut threads, &steps)
    };
    table.drop_impl(&mut collector);
    fuzz::settle(&mut main, &mut collector);
    fuzz::settle(&mut main, &mut collector);
    fuzz::settle(&mut main, &mut collector);
    let model: Model = if steps.len() == 0 {
        workload::empty_model()
    } else {
        steps[steps.len() - 1].after
    };
    proof {
        if steps@.len() == 0 {
            assert(model@ =~= fuzz::no_model());
        } else {
            assert(views(steps@).last() == steps@.last()@);
        }
    }
    Some((model, ok))
}

} // verus!
