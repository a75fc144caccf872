//! Groups of control bytes, which are matched all at once.

use crate::raw::bitmask::{self, BitMask};
use vstd::prelude::*;

verus! {

/// Control byte value for an empty bucket.
pub const EMPTY: u8 = 0b1111_1111;

/// Control byte value for a bucket whose element was removed.
pub const DELETED: u8 = 0b1000_0000;

/// The number of control bytes in a group.
pub const WIDTH: usize = 16;

/// A group of control bytes.
#[derive(Copy, Clone)]
pub struct Group {
    bytes: [u8; 16],
}

/// Whether a control byte represents a full bucket (top bit is clear).
pub open spec fn full_byte(ctrl: u8) -> bool {
    ctrl < 0x80
}

/// Checks whether a control byte represents a full bucket (top bit is clear).
pub fn is_full(ctrl: u8) -> (r: bool)
    ensures
        r == full_byte(ctrl),
{
    assert((ctrl & 0x80 == 0) == (ctrl < 0x80)) by (bit_vector);
    ctrl & 0x80 == 0
}

impl Group {
    /// The bytes of the group, lowest address first.
    pub closed spec fn view(self) -> Seq<u8> {
        self.bytes@
    }

    /// Loads the group that starts at `pos`.
    pub fn load(ctrl: &Vec<u8>, pos: usize) -> (r: Group)
        requires
            pos + WIDTH <= ctrl@.len(),
        ensures
            r@ == ctrl@.subrange(pos as int, pos + WIDTH),
    {
        let _len: usize = ctrl.len();
        let r = Group {
            bytes: [
                ctrl[pos],
                ctrl[pos + 1],
                ctrl[pos + 2],
                ctrl[pos + 3],
                ctrl[pos + 4],
                ctrl[pos + 5],
                ctrl[pos + 6],
                ctrl[pos + 7],
                ctrl[pos + 8],
                ctrl[pos + 9],
                ctrl[pos + 10],
                ctrl[pos + 11],
                ctrl[pos + 12],
                ctrl[pos + 13],
                ctrl[pos + 14],
                ctrl[pos + 15],
            ],
        };
        assert(r@ =~= ctrl@.subrange(pos as int, pos + WIDTH));
        r
    }

    /// Returns a mask of the bytes that are equal to `byte`.
    pub fn match_byte(&self, byte: u8) -> (r: BitMask)
        ensures
            forall|i: int| 0 <= i < WIDTH ==> (#[trigger] r.has(i) <==> self@[i] == byte),
    {
        let mut word: u16 = 0;
        let mut i: u16 = 0;
        assert forall|j: int| 0 <= j < 16 implies !#[trigger] bitmask::word_bit(word, j) by {
            let k: u16 = j as u16;
            assert((0u16 >> k) & 1u16 == 0u16) by (bit_vector);
        }
        while i < 16
            invariant
                i <= 16,
                self@.len() == 16,
                forall|j: int|
                    0 <= j < 16 ==> (#[trigger] bitmask::word_bit(word, j) <==> j < i && self@[j] == byte),
            decreases 16 - i,
        {
            let before: u16 = word;
            if self.bytes[i as usize] == byte {
                word = word | (1u16 << i);
                assert forall|j: int| 0 <= j < 16 implies (#[trigger] bitmask::word_bit(word, j) <==> j < i
                    + 1 && self@[j] == byte) by {
                    bitmask::lemma_set_bit(before, i, j as u16);
                    assert(bitmask::word_bit(before, j) <==> j < i && self@[j] == byte);
                }
            }
            i = i + 1;
        }
        BitMask(word)
    }

    /// Returns a mask of the bytes which are `EMPTY`.
    pub fn match_empty(&self) -> (r: BitMask)
        ensures
            forall|i: int| 0 <= i < WIDTH ==> (#[trigger] r.has(i) <==> self@[i] == EMPTY),
    {
        self.match_byte(EMPTY)
    }

    /// Returns a mask of the bytes which are `EMPTY` or `DELETED`.
    pub fn match_empty_or_deleted(&self) -> (r: BitMask)
        ensures
            forall|i: int| 0 <= i < WIDTH ==> (#[trigger] r.has(i) <==> !full_byte(self@[i])),
    {
        let mut word: u16 = 0;
        let mut i: u16 = 0;
        assert forall|j: int| 0 <= j < 16 implies !#[trigger] bitmask::word_bit(word, j) by {
            let k: u16 = j as u16;
            assert((0u16 >> k) & 1u16 == 0u16) by (bit_vector);
        }
        while i < 16
            invariant
                i <= 16,
                self@.len() == 16,
                forall|j: int|
                    0 <= j < 16 ==> (#[trigger] bitmask::word_bit(word, j) <==> j < i && !full_byte(
                        self@[j],
                    )),
            decreases 16 - i,
        {
            let before: u16 = word;
            if !is_full(self.bytes[i as usize]) {
                word = word | (1u16 << i);
                assert forall|j: int| 0 <= j < 16 implies (#[trigger] bitmask::word_bit(word, j) <==> j < i
                    + 1 && !full_byte(self@[j])) by {
                    bitmask::lemma_set_bit(before, i, j as u16);
                    assert(bitmask::word_bit(before, j) <==> j < i && !full_byte(self@[j]));
                }
            }
            i = i + 1;
        }
        BitMask(word)
    }

    /// Returns a mask of the bytes which belong to full buckets.
    pub fn match_full(&self) -> (r: BitMask)
        ensures
            forall|i: int| 0 <= i < WIDTH ==> (#[trigger] r.has(i) <==> full_byte(self@[i])),
    {
        self.match_empty_or_deleted().invert()
    }
}

} // verus!
