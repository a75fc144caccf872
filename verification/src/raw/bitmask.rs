//! Bit masks over the bytes of a group.

use vstd::prelude::*;
use vstd::std_specs::bits;

verus! {

/// The word that a mask is held in: one bit for each byte of a group.
pub type BitMaskWord = u16;

/// The number of bits in a mask for each byte of a group.
pub const BITMASK_STRIDE: usize = 1;

/// The bits of a mask that are in use.
pub const BITMASK_MASK: u16 = 0xffff;

/// A bit mask which contains the result of a match on a group of control bytes.
///
/// Bit `i` stands for the byte at offset `i` of the group.
#[derive(Copy, Clone)]
pub struct BitMask(pub BitMaskWord);

/// Whether bit `i` is set in `word`.
pub open spec fn word_bit(word: u16, i: int) -> bool {
    (word >> (i as u16)) & 1u16 == 1u16
}

impl BitMask {
    /// Whether the byte at offset `i` of the group was matched.
    pub open spec fn has(self, i: int) -> bool {
        0 <= i < 16 && word_bit(self.0, i)
    }

    /// Whether `i` is the lowest offset that was matched.
    pub open spec fn lowest_is(self, i: int) -> bool {
        self.has(i) && forall|j: int| 0 <= j < i ==> !self.has(j)
    }

    /// Returns a new `BitMask` with the actually-used bits inverted.
    #[must_use]
    pub fn invert(self) -> (r: Self)
        ensures
            forall|i: int| 0 <= i < 16 ==> r.has(i) == !self.has(i),
    {
        let word: u16 = self.0;
        let r = BitMask(word ^ BITMASK_MASK);
        proof {
            assert forall|i: int| 0 <= i < 16 implies r.has(i) == !self.has(i) by {
                lemma_invert(word, i as u16);
            }
        }
        r
    }

    /// Returns a new `BitMask` with the lowest set bit removed.
    ///
    /// Returns an empty mask if there is no set bit.
    #[must_use]
    pub fn remove_lowest_bit(self) -> (r: Self)
        ensures
            forall|i: int| r.has(i) == (self.has(i) && !self.lowest_is(i)),
    {
        let word: u16 = self.0;
        let r = BitMask(word & word.wrapping_sub(1));
        proof {
            if word == 0 {
                lemma_zero(word);
                assert forall|i: int| r.has(i) == (self.has(i) && !self.lowest_is(i)) by {
                    if 0 <= i < 16 {
                        lemma_remove_from_empty(word, i as u16);
                    }
                }
            } else {
                bits::axiom_u16_trailing_zeros(word);
                let low: u16 = bits::u16_trailing_zeros(word) as u16;
                assert(self.lowest_is(low as int));
                assert forall|i: int| r.has(i) == (self.has(i) && !self.lowest_is(i)) by {
                    if 0 <= i < 16 {
                        lemma_remove_lowest(word, low, i as u16);
                        if self.lowest_is(i) {
                            assert(i == low);
                        }
                    }
                }
            }
        }
        r
    }

    /// Returns whether the `BitMask` has at least one set bit.
    pub fn any_bit_set(self) -> (r: bool)
        ensures
            r == exists|i: int| self.has(i),
    {
        proof {
            let word: u16 = self.0;
            if word == 0 {
                lemma_zero(word);
                assert forall|i: int| !self.has(i) by {
                    if 0 <= i < 16 {
                        lemma_remove_from_empty(word, i as u16);
                    }
                }
            } else {
                bits::axiom_u16_trailing_zeros(word);
                assert(self.has(bits::u16_trailing_zeros(word) as int));
            }
        }
        self.0 != 0
    }

    /// Returns the index of the lowest matched byte in the group, if there is one.
    pub fn lowest_set_bit(self) -> (r: Option<usize>)
        ensures
            match r {
                Some(i) => self.lowest_is(i as int),
                None => forall|i: int| !self.has(i),
            },
    {
        if !self.any_bit_set() {
            return None;
        }
        proof {
            let word: u16 = self.0;
            if word == 0 {
                assert forall|i: int| !self.has(i) by {
                    if 0 <= i < 16 {
                        lemma_remove_from_empty(word, i as u16);
                    }
                }
            }
            bits::axiom_u16_trailing_zeros(word);
        }
        Some(self.0.trailing_zeros() as usize / BITMASK_STRIDE)
    }

    /// Iterates over the offsets of the matched bytes, lowest first.
    pub fn into_iter(self) -> (r: BitMaskIter)
        ensures
            r.mask() == self,
    {
        BitMaskIter(self)
    }
}

/// Iterator over the contents of a `BitMask`, returning the index of each matched
/// byte in the group as [BitMask::lowest_set_bit] does.
pub struct BitMaskIter(BitMask);

impl BitMaskIter {
    /// The offsets that have not been returned yet.
    pub closed spec fn mask(self) -> BitMask {
        self.0
    }

    /// The number of offsets that have not been returned yet.
    pub closed spec fn left(self) -> nat {
        count_bits(self.0, 16)
    }

    /// Takes the lowest offset that is left.
    pub fn next(&mut self) -> (r: Option<usize>)
        ensures
            match r {
                Some(i) => {
                    &&& old(self).mask().lowest_is(i as int)
                    &&& forall|j: int|
                        final(self).mask().has(j) == (old(self).mask().has(j) && j != i)
                    &&& final(self).left() == old(self).left() - 1
                },
                None => {
                    &&& forall|i: int| !old(self).mask().has(i)
                    &&& final(self).mask() == old(self).mask()
                    &&& old(self).left() == 0
                    &&& final(self).left() == 0
                },
            },
    {
        match self.0.lowest_set_bit() {
            Some(bit) => {
                self.0 = self.0.remove_lowest_bit();
                proof {
                    lemma_count_one_less(old(self).0, self.0, bit as int, 16);
                }
                Some(bit)
            },
            None => {
                proof {
                    lemma_count_none(self.0, 16);
                }
                None
            },
        }
    }
}

/// The number of the first `upto` offsets that were matched.
pub open spec fn count_bits(mask: BitMask, upto: int) -> nat
    decreases upto,
{
    if upto <= 0 {
        0
    } else if mask.has(upto - 1) {
        count_bits(mask, upto - 1) + 1
    } else {
        count_bits(mask, upto - 1)
    }
}

proof fn lemma_count_none(mask: BitMask, upto: int)
    requires
        forall|i: int| !mask.has(i),
    ensures
        count_bits(mask, upto) == 0,
    decreases upto,
{
    if upto > 0 {
        lemma_count_none(mask, upto - 1);
    }
}

proof fn lemma_count_one_less(before: BitMask, after: BitMask, gone: int, upto: int)
    requires
        before.has(gone),
        forall|j: int| after.has(j) == (before.has(j) && j != gone),
    ensures
        count_bits(after, upto) == count_bits(before, upto) - (if gone < upto {
            1int
        } else {
            0
        }),
    decreases upto,
{
    if upto > 0 {
        lemma_count_one_less(before, after, gone, upto - 1);
    }
}

proof fn lemma_invert(word: u16, i: u16)
    by (bit_vector)
    requires
        i < 16,
    ensures
        ((word ^ 0xffffu16) >> i) & 1u16 == 1u16 <==> (word >> i) & 1u16 != 1u16,
{
}

proof fn lemma_zero(word: u16)
    by (bit_vector)
    requires
        word == 0,
    ensures
        word & 0xffffu16 == 0,
{
}

proof fn lemma_remove_from_empty(word: u16, i: u16)
    by (bit_vector)
    requires
        word == 0,
        i < 16,
    ensures
        (word >> i) & 1u16 == 0,
        ((word & 0xffffu16) >> i) & 1u16 == 0,
{
}

proof fn lemma_remove_lowest(word: u16, low: u16, i: u16)
    by (bit_vector)
    requires
        low < 16,
        i < 16,
        word != 0,
        (word >> low) & 1u16 == 1u16,
        (word << ((16 - low) as u16)) == 0,
    ensures
        ((word & ((word - 1) as u16)) >> i) & 1u16 == 1u16 <==> ((word >> i) & 1u16 == 1u16 && i
            != low),
{
}

/// Setting bit `i` of a word changes no other bit.
pub proof fn lemma_set_bit(word: u16, i: u16, j: u16)
    by (bit_vector)
    requires
        i < 16,
        j < 16,
    ensures
        ((word | (1u16 << i)) >> j) & 1u16 == 1u16 <==> (i == j || (word >> j) & 1u16 == 1u16),
{
}

} // verus!
