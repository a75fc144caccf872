//! The arrays of control bytes that the tables are searched by.
//!
//! A table with `n` buckets has `n + WIDTH` control bytes. The first `n` of them tell the state of
//! each bucket. The bytes of the first buckets are repeated at the end of the array, so that a
//! group can be loaded at any bucket without wrapping around. In a table with fewer buckets than a
//! group has bytes, the bytes between the buckets and their copies are always `EMPTY`.

use crate::raw::group::{self, DELETED, EMPTY};
use crate::raw::probe;
use vstd::arithmetic::{div_mod, power2};
use vstd::prelude::*;

verus! {

/// Where the copy of the control byte of bucket `index` is held. For all but the first buckets of
/// a large table, this is `index` itself.
pub open spec fn replica(n: int, index: int) -> int {
    if n < 16 {
        16 + index
    } else if index < 16 {
        n + index
    } else {
        index
    }
}

/// Whether a control byte has one of the values that a bucket can have.
pub open spec fn valid_byte(byte: u8) -> bool {
    group::full_byte(byte) || byte == EMPTY || byte == DELETED
}

/// Whether `ctrl` is an array of control bytes for `n` buckets.
pub open spec fn well_formed(ctrl: Seq<u8>, n: int) -> bool {
    &&& power2::is_pow2(n)
    &&& n >= 1
    &&& ctrl.len() == n + 16
    &&& forall|i: int| 0 <= i < n ==> valid_byte(#[trigger] ctrl[i])
    &&& forall|i: int| 0 <= i < n ==> ctrl[#[trigger] replica(n, i)] == ctrl[i]
    &&& forall|i: int| n <= i < 16 ==> ctrl[i] == EMPTY
}

/// The number of buckets among the first `upto` that are full.
pub open spec fn count_full(ctrl: Seq<u8>, upto: int) -> nat
    decreases upto,
{
    if upto <= 0 {
        0
    } else if group::full_byte(ctrl[upto - 1]) {
        count_full(ctrl, upto - 1) + 1
    } else {
        count_full(ctrl, upto - 1)
    }
}

/// The number of buckets among the first `upto` that hold no element that could be found, but did.
pub open spec fn count_deleted(ctrl: Seq<u8>, upto: int) -> nat
    decreases upto,
{
    if upto <= 0 {
        0
    } else if ctrl[upto - 1] == DELETED {
        count_deleted(ctrl, upto - 1) + 1
    } else {
        count_deleted(ctrl, upto - 1)
    }
}

/// The number of groups that a probe sequence runs through before it starts over.
pub open spec fn steps(n: int) -> int {
    if n < 16 {
        1
    } else {
        n / 16
    }
}

/// The bucket that the probe sequence of `hash` starts from.
pub open spec fn start(hash: u64, n: int) -> int {
    hash as usize as int % n
}

/// The start of group `step` in the probe sequence of `hash`.
pub open spec fn group_pos(hash: u64, n: int, step: int) -> int {
    probe::probe_pos(start(hash, n), n, step)
}

/// The offset at which the group at `pos` holds the control byte of bucket `index`. The group does
/// not hold it if this is no offset into a group.
pub open spec fn offset_in_group(pos: int, n: int, index: int) -> int {
    if n >= 16 {
        (index - pos) % n
    } else if index >= pos {
        index - pos
    } else {
        16 + index - pos
    }
}

/// Whether group `step` of the probe sequence of `hash` holds the control byte of bucket `index`.
pub open spec fn in_group(hash: u64, n: int, step: int, index: int) -> bool {
    offset_in_group(group_pos(hash, n, step), n, index) < 16
}

/// Whether the group at `pos` has an `EMPTY` byte.
pub open spec fn group_has_empty(ctrl: Seq<u8>, pos: int) -> bool {
    exists|offset: int| 0 <= offset < 16 && #[trigger] ctrl[pos + offset] == EMPTY
}

/// Whether the groups before `step` in the probe sequence of `hash` have no `EMPTY` bytes, so that
/// a search for `hash` gets as far as group `step`.
pub open spec fn search_gets_to(ctrl: Seq<u8>, n: int, hash: u64, step: int) -> bool {
    &&& 0 <= step < steps(n)
    &&& forall|before: int|
        0 <= before < step ==> !group_has_empty(ctrl, #[trigger] group_pos(hash, n, before))
}

/// Whether a search for `hash` looks at bucket `index`.
pub open spec fn reachable(ctrl: Seq<u8>, n: int, hash: u64, index: int) -> bool {
    exists|step: int| search_gets_to(ctrl, n, hash, step) && #[trigger] in_group(hash, n, step, index)
}

/// Whether the first `EMPTY` byte that a search for `hash` meets is at `offset` in group `step`.
pub open spec fn first_empty_at(ctrl: Seq<u8>, n: int, hash: u64, step: int, offset: int) -> bool {
    &&& search_gets_to(ctrl, n, hash, step)
    &&& 0 <= offset < 16
    &&& ctrl[group_pos(hash, n, step) + offset] == EMPTY
    &&& forall|before: int|
        0 <= before < offset ==> ctrl[#[trigger] (group_pos(hash, n, step) + before)] != EMPTY
}

/// Whether `index` is the first `EMPTY` bucket that a search for `hash` meets, which is the one
/// that a new element with this hash goes to.
pub open spec fn insert_slot(ctrl: Seq<u8>, n: int, hash: u64, index: int) -> bool {
    exists|step: int, offset: int|
        #[trigger] first_empty_at(ctrl, n, hash, step, offset) && index == probe::bucket_at(
            group_pos(hash, n, step),
            offset,
            n,
        )
}

/// The array after the control byte of bucket `index`, and its copy, are set to `byte`.
pub open spec fn set(ctrl: Seq<u8>, n: int, index: int, byte: u8) -> Seq<u8> {
    ctrl.update(index, byte).update(replica(n, index), byte)
}

pub proof fn lemma_group_pos_bound(hash: u64, n: int, step: int)
    requires
        n >= 1,
    ensures
        0 <= group_pos(hash, n, step) < n,
        0 <= start(hash, n) < n,
{
    div_mod::lemma_mod_bound(start(hash, n) + 8 * (step * (step + 1)), n);
    div_mod::lemma_mod_bound(hash as usize as int, n);
}

/// A power of two below the width of a group divides it.
pub proof fn lemma_small_pow2(n: int)
    requires
        power2::is_pow2(n),
        n < 16,
    ensures
        n == 1 || n == 2 || n == 4 || n == 8,
{
    reveal(power2::is_pow2);
    reveal_with_fuel(power2::is_pow2, 5);
}

/// A table of at least one group is made of whole groups.
pub proof fn lemma_groups_fill(n: int)
    requires
        power2::is_pow2(n),
    ensures
        n >= 16 ==> n % 16 == 0,
{
    if n >= 16 {
        reveal(power2::is_pow2);
        reveal_with_fuel(power2::is_pow2, 5);
    }
}

/// What the bytes of a group stand for.
pub proof fn lemma_group_byte(ctrl: Seq<u8>, n: int, pos: int, offset: int)
    requires
        well_formed(ctrl, n),
        0 <= pos < n,
        0 <= offset < 16,
    ensures
        0 <= probe::bucket_at(pos, offset, n) < n,
        ctrl[pos + offset] != EMPTY ==> {
            &&& ctrl[pos + offset] == ctrl[probe::bucket_at(pos, offset, n)]
            &&& offset_in_group(pos, n, probe::bucket_at(pos, offset, n)) == offset
        },
        n >= 16 ==> {
            &&& ctrl[pos + offset] == ctrl[probe::bucket_at(pos, offset, n)]
            &&& offset_in_group(pos, n, probe::bucket_at(pos, offset, n)) == offset
        },
{
    let j = pos + offset;
    let i = probe::bucket_at(pos, offset, n);
    div_mod::lemma_mod_bound(j, n);
    if n >= 16 {
        if j < n {
            div_mod::lemma_small_mod(j as nat, n as nat);
            div_mod::lemma_small_mod(offset as nat, n as nat);
        } else {
            div_mod::lemma_fundamental_div_mod_converse(j, n, 1, j - n);
            assert(replica(n, i) == j);
            div_mod::lemma_fundamental_div_mod_converse(i - pos, n, -1, offset);
        }
    } else {
        lemma_small_pow2(n);
        if j < n {
            div_mod::lemma_small_mod(j as nat, n as nat);
        } else if j < 16 {
        } else {
            assert(j % n == j - 16);
            assert(replica(n, i) == j);
        }
    }
}

/// A group holds the control byte of a bucket at its offset.
pub proof fn lemma_bucket_in_group(ctrl: Seq<u8>, n: int, pos: int, index: int)
    requires
        well_formed(ctrl, n),
        0 <= pos < n,
        0 <= index < n,
        offset_in_group(pos, n, index) < 16,
    ensures
        0 <= offset_in_group(pos, n, index),
        ctrl[pos + offset_in_group(pos, n, index)] == ctrl[index],
        probe::bucket_at(pos, offset_in_group(pos, n, index), n) == index,
{
    let offset = offset_in_group(pos, n, index);
    if n >= 16 {
        div_mod::lemma_mod_bound(index - pos, n);
        div_mod::lemma_add_mod_noop_right(pos, index - pos, n);
        div_mod::lemma_small_mod(index as nat, n as nat);
        let j = pos + offset;
        if j < n {
            div_mod::lemma_small_mod(j as nat, n as nat);
        } else {
            div_mod::lemma_fundamental_div_mod_converse(j, n, 1, j - n);
            assert(replica(n, index) == j);
        }
    } else {
        lemma_small_pow2(n);
        if index >= pos {
            div_mod::lemma_small_mod(index as nat, n as nat);
        } else {
            assert((16 + index) % n == index);
            assert(replica(n, index) == 16 + index);
        }
    }
}

/// Some group of each probe sequence holds the control byte of any given bucket.
pub proof fn lemma_some_group_holds(hash: u64, n: int, index: int) -> (step: int)
    requires
        power2::is_pow2(n),
        n >= 1,
        0 <= index < n,
    ensures
        0 <= step < steps(n),
        in_group(hash, n, step, index),
{
    if n >= 16 {
        lemma_group_pos_bound(hash, n, 0);
        let step = probe::lemma_probe_covers(start(hash, n), n, index);
        let pos = group_pos(hash, n, step);
        lemma_group_pos_bound(hash, n, step);
        let offset = choose|offset: int|
            0 <= offset < 16 && #[trigger] probe::bucket_at(pos, offset, n) == index;
        if pos + offset < n {
            div_mod::lemma_small_mod((pos + offset) as nat, n as nat);
            div_mod::lemma_small_mod(offset as nat, n as nat);
        } else {
            div_mod::lemma_fundamental_div_mod_converse(pos + offset, n, 1, pos + offset - n);
            div_mod::lemma_fundamental_div_mod_converse(index - pos, n, -1, offset);
        }
        step
    } else {
        lemma_group_pos_bound(hash, n, 0);
        0
    }
}

/// A search that has met no `EMPTY` byte has groups left to look at, if there is an `EMPTY` bucket.
pub proof fn lemma_search_ends(ctrl: Seq<u8>, n: int, hash: u64, step: int, empty: int)
    requires
        well_formed(ctrl, n),
        0 <= empty < n,
        ctrl[empty] == EMPTY,
        0 <= step < steps(n),
        forall|k: int| 0 <= k <= step ==> !group_has_empty(ctrl, #[trigger] group_pos(hash, n, k)),
    ensures
        step + 1 < steps(n),
        n >= 16,
{
    let k = lemma_some_group_holds(hash, n, empty);
    let pos = group_pos(hash, n, k);
    lemma_group_pos_bound(hash, n, k);
    lemma_bucket_in_group(ctrl, n, pos, empty);
    assert(group_has_empty(ctrl, pos));
    if n < 16 {
        assert(k == 0 && step == 0);
    }
}

/// Each bucket is full, deleted or empty, and there is an empty one unless the other two kinds
/// make up all of them.
pub proof fn lemma_some_empty(ctrl: Seq<u8>, upto: int) -> (index: int)
    requires
        0 <= upto <= ctrl.len(),
        forall|i: int| 0 <= i < upto ==> valid_byte(#[trigger] ctrl[i]),
        count_full(ctrl, upto) + count_deleted(ctrl, upto) < upto,
    ensures
        0 <= index < upto,
        ctrl[index] == EMPTY,
    decreases upto,
{
    if ctrl[upto - 1] == EMPTY {
        upto - 1
    } else {
        assert(valid_byte(ctrl[upto - 1]));
        lemma_some_empty(ctrl, upto - 1)
    }
}

pub proof fn lemma_counts_bound(ctrl: Seq<u8>, upto: int)
    requires
        0 <= upto,
    ensures
        count_full(ctrl, upto) + count_deleted(ctrl, upto) <= upto,
    decreases upto,
{
    if upto > 0 {
        lemma_counts_bound(ctrl, upto - 1);
    }
}

pub proof fn lemma_counts_zero(ctrl: Seq<u8>, upto: int)
    requires
        0 <= upto <= ctrl.len(),
        forall|i: int| 0 <= i < upto ==> ctrl[i] == EMPTY,
    ensures
        count_full(ctrl, upto) == 0,
        count_deleted(ctrl, upto) == 0,
    decreases upto,
{
    if upto > 0 {
        lemma_counts_zero(ctrl, upto - 1);
    }
}

/// The counts of two arrays that agree on a range are the same for it.
pub proof fn lemma_counts_same(a: Seq<u8>, b: Seq<u8>, upto: int)
    requires
        0 <= upto,
        forall|i: int| 0 <= i < upto ==> a[i] == b[i],
    ensures
        count_full(a, upto) == count_full(b, upto),
        count_deleted(a, upto) == count_deleted(b, upto),
    decreases upto,
{
    if upto > 0 {
        lemma_counts_same(a, b, upto - 1);
    }
}

/// How the counts change with one control byte.
pub proof fn lemma_counts_change(a: Seq<u8>, b: Seq<u8>, upto: int, index: int)
    requires
        0 <= index < upto,
        forall|i: int| 0 <= i < upto && i != index ==> a[i] == b[i],
    ensures
        count_full(b, upto) == count_full(a, upto) + (if group::full_byte(b[index]) {
            1int
        } else {
            0
        }) - (if group::full_byte(a[index]) {
            1int
        } else {
            0
        }),
        count_deleted(b, upto) == count_deleted(a, upto) + (if b[index] == DELETED {
            1int
        } else {
            0
        }) - (if a[index] == DELETED {
            1int
        } else {
            0
        }),
    decreases upto,
{
    if upto - 1 == index {
        lemma_counts_same(a, b, upto - 1);
    } else {
        lemma_counts_change(a, b, upto - 1, index);
    }
}

/// Setting a control byte keeps the array well-formed and changes no other bucket.
pub proof fn lemma_set(ctrl: Seq<u8>, n: int, index: int, byte: u8)
    requires
        well_formed(ctrl, n),
        0 <= index < n,
        valid_byte(byte),
    ensures
        well_formed(set(ctrl, n, index, byte), n),
        set(ctrl, n, index, byte)[index] == byte,
        forall|i: int| 0 <= i < n && i != index ==> set(ctrl, n, index, byte)[i] == ctrl[i],
        forall|j: int|
            0 <= j < n + 16 && j != index && j != replica(n, index) ==> set(
                ctrl,
                n,
                index,
                byte,
            )[j] == ctrl[j],
{
    let after = set(ctrl, n, index, byte);
    if n < 16 {
        lemma_small_pow2(n);
    }
    assert forall|i: int| 0 <= i < n implies after[#[trigger] replica(n, i)] == after[i] by {
        assert(ctrl[replica(n, i)] == ctrl[i]);
    }
}

/// Setting a control byte to anything but `EMPTY` keeps every bucket reachable that was.
pub proof fn lemma_set_keeps_reachable(
    ctrl: Seq<u8>,
    n: int,
    index: int,
    byte: u8,
    hash: u64,
    other: int,
)
    requires
        well_formed(ctrl, n),
        0 <= index < n,
        valid_byte(byte),
        byte != EMPTY,
        reachable(ctrl, n, hash, other),
    ensures
        reachable(set(ctrl, n, index, byte), n, hash, other),
{
    let after = set(ctrl, n, index, byte);
    let step = choose|step: int|
        search_gets_to(ctrl, n, hash, step) && #[trigger] in_group(hash, n, step, other);
    assert forall|before: int| 0 <= before < step implies !group_has_empty(
        after,
        #[trigger] group_pos(hash, n, before),
    ) by {
        let pos = group_pos(hash, n, before);
        lemma_group_pos_bound(hash, n, before);
        assert(!group_has_empty(ctrl, pos));
        assert forall|offset: int| 0 <= offset < 16 implies #[trigger] after[pos + offset]
            != EMPTY by {
            assert(ctrl[pos + offset] != EMPTY);
        }
    }
    assert(search_gets_to(after, n, hash, step));
}

/// A slot that a search meets first is reachable, in a table of at least one group.
pub proof fn lemma_insert_slot(ctrl: Seq<u8>, n: int, hash: u64, index: int)
    requires
        well_formed(ctrl, n),
        n >= 16,
        insert_slot(ctrl, n, hash, index),
    ensures
        0 <= index < n,
        ctrl[index] == EMPTY,
        reachable(ctrl, n, hash, index),
{
    let (step, offset) = choose|step: int, offset: int|
        #[trigger] first_empty_at(ctrl, n, hash, step, offset) && index == probe::bucket_at(
            group_pos(hash, n, step),
            offset,
            n,
        );
    let pos = group_pos(hash, n, step);
    lemma_group_pos_bound(hash, n, step);
    lemma_group_byte(ctrl, n, pos, offset);
    assert(in_group(hash, n, step, index));
}

/// The first `EMPTY` bucket that a search meets stays the first while it is `EMPTY`, whatever
/// other buckets are filled.
pub proof fn lemma_set_keeps_insert_slot(
    ctrl: Seq<u8>,
    n: int,
    index: int,
    byte: u8,
    hash: u64,
    slot: int,
)
    requires
        well_formed(ctrl, n),
        n >= 16,
        0 <= index < n,
        valid_byte(byte),
        byte != EMPTY,
        insert_slot(ctrl, n, hash, slot),
        slot != index,
    ensures
        insert_slot(set(ctrl, n, index, byte), n, hash, slot),
{
    let after = set(ctrl, n, index, byte);
    lemma_set(ctrl, n, index, byte);
    let (step, offset) = choose|step: int, offset: int|
        #[trigger] first_empty_at(ctrl, n, hash, step, offset) && slot == probe::bucket_at(
            group_pos(hash, n, step),
            offset,
            n,
        );
    let pos = group_pos(hash, n, step);
    lemma_group_pos_bound(hash, n, step);
    lemma_group_byte(ctrl, n, pos, offset);
    lemma_group_byte(after, n, pos, offset);
    assert forall|before: int| 0 <= before < step implies !group_has_empty(
        after,
        #[trigger] group_pos(hash, n, before),
    ) by {
        let p = group_pos(hash, n, before);
        lemma_group_pos_bound(hash, n, before);
        assert(!group_has_empty(ctrl, p));
        assert forall|o: int| 0 <= o < 16 implies #[trigger] after[p + o] != EMPTY by {
            assert(ctrl[p + o] != EMPTY);
        }
    }
    assert(first_empty_at(after, n, hash, step, offset));
}

/// There is only one bucket that a search for `hash` meets first.
pub proof fn lemma_insert_slot_unique(ctrl: Seq<u8>, n: int, hash: u64, a: int, b: int)
    requires
        insert_slot(ctrl, n, hash, a),
        insert_slot(ctrl, n, hash, b),
    ensures
        a == b,
{
    let (sa, oa) = choose|step: int, offset: int|
        #[trigger] first_empty_at(ctrl, n, hash, step, offset) && a == probe::bucket_at(
            group_pos(hash, n, step),
            offset,
            n,
        );
    let (sb, ob) = choose|step: int, offset: int|
        #[trigger] first_empty_at(ctrl, n, hash, step, offset) && b == probe::bucket_at(
            group_pos(hash, n, step),
            offset,
            n,
        );
    assert(ctrl[group_pos(hash, n, sa) + oa] == EMPTY);
    assert(ctrl[group_pos(hash, n, sb) + ob] == EMPTY);
    assert(group_has_empty(ctrl, group_pos(hash, n, sa)));
    assert(group_has_empty(ctrl, group_pos(hash, n, sb)));
    assert(sa == sb);
    if oa < ob {
        assert(ctrl[group_pos(hash, n, sb) + oa] != EMPTY);
    } else if ob < oa {
        assert(ctrl[group_pos(hash, n, sa) + ob] != EMPTY);
    }
}

} // verus!
