//! Helpers for branch hints, hashing and memory layouts.

use vstd::arithmetic::{div_mod, power2};
use vstd::layout;
use vstd::prelude::*;

verus! {

/// Marks a condition that is expected to hold.
pub fn likely(value: bool) -> (r: bool)
    ensures
        r == value,
{
    value
}

/// Marks a condition that is not expected to hold.
pub fn unlikely(value: bool) -> (r: bool)
    ensures
        r == value,
{
    value
}

/// Calls `f`, which is not expected to be needed often.
pub fn cold_path<F: FnOnce() -> R, R>(f: F) -> (r: R)
    requires
        call_requires(f, ()),
    ensures
        call_ensures(f, (), r),
{
    f()
}

/// A source of hashes for keys of the type `K`.
///
/// Two hashes that a builder makes of one key are the same.
pub trait HashBuilder<K> {
    /// The hash of `key`.
    spec fn hash_of(&self, key: K) -> u64;

    /// Hashes a key.
    fn hash_one(&self, key: &K) -> (r: u64)
        ensures
            r == self.hash_of(*key),
    ;
}

/// Hashes `val` with `hash_builder`.
pub fn make_insert_hash<K, S: HashBuilder<K>>(hash_builder: &S, val: &K) -> (r: u64)
    ensures
        r == hash_builder.hash_of(*val),
{
    hash_builder.hash_one(val)
}

/// The least multiple of `align` that is not below `value`.
pub open spec fn round_up(value: int, align: int) -> int {
    (value + align - 1) / align * align
}

/// Rounds `value` up to a multiple of `align`, unless that is out of range.
pub fn align_up(value: usize, align: usize) -> (r: Option<usize>)
    requires
        power2::is_pow2(align as int),
    ensures
        match r {
            Some(rounded) => rounded == round_up(value as int, align as int),
            None => round_up(value as int, align as int) > usize::MAX,
        },
{
    proof {
        lemma_round_up(value as int, align as int);
    }
    match value.checked_add(align - 1) {
        Some(sum) => {
            let mask: usize = align - 1;
            proof {
                crate::raw::probe::lemma_mask_is_mod(sum, mask);
                assert(sum & !mask == sum - (sum & mask)) by (bit_vector);
                div_mod::lemma_fundamental_div_mod(sum as int, align as int);
                assert(align * (sum as int / align as int) == (sum as int / align as int) * align)
                    by (nonlinear_arith);
            }
            Some(sum & !mask)
        },
        None => {
            proof {
                lemma_round_up_overflows(value as int, align as int);
            }
            None
        },
    }
}

/// Rounding up moves a value by less than the alignment, to a multiple of it.
pub proof fn lemma_round_up(value: int, align: int)
    requires
        power2::is_pow2(align),
    ensures
        align >= 1,
        value <= round_up(value, align) < value + align,
        round_up(value, align) % align == 0,
{
    reveal(power2::is_pow2);
    let sum = value + align - 1;
    div_mod::lemma_fundamental_div_mod(sum, align);
    div_mod::lemma_mod_bound(sum, align);
    assert(align * (sum / align) == (sum / align) * align) by (nonlinear_arith);
    div_mod::lemma_mod_multiples_basic(sum / align, align);
}

proof fn lemma_round_up_overflows(value: int, align: int)
    requires
        power2::is_pow2(align),
        align <= usize::MAX,
        value + align - 1 > usize::MAX,
    ensures
        round_up(value, align) > usize::MAX,
{
    lemma_round_up(value, align);
    crate::raw::probe::lemma_pow2_divides_range(align);
    let top = usize::MAX + 1;
    let rounded = round_up(value, align);
    let q = top / align;
    let p = (value + align - 1) / align;
    div_mod::lemma_fundamental_div_mod(top, align);
    if rounded < top {
        assert(p < q) by (nonlinear_arith)
            requires
                p * align < align * q,
                align >= 1,
        ;
        assert(rounded + align <= top) by (nonlinear_arith)
            requires
                p + 1 <= q,
                rounded == p * align,
                top == align * q,
                align >= 1,
        ;
    }
}

/// The size and alignment of a block of memory.
#[derive(Copy, Clone, Debug, PartialEq, Eq, Structural)]
pub struct Layout {
    pub size: usize,
    pub align: usize,
}

impl Layout {
    /// Creates a `Layout`. Returns `None` if `size`, when rounded up to the nearest multiple of
    /// `align`, overflows `isize`.
    pub fn from_size_align(size: usize, align: usize) -> (r: Option<Self>)
        requires
            power2::is_pow2(align as int),
        ensures
            match r {
                Some(layout) => {
                    &&& layout::valid_layout(size, align)
                    &&& layout == (Layout { size, align })
                },
                None => !layout::valid_layout(size, align),
            },
    {
        proof {
            lemma_round_up(size as int, align as int);
            div_mod::lemma_mod_decreases(isize::MAX as nat, align as nat);
        }
        let top: usize = isize::MAX as usize;
        if size <= top - top % align {
            Some(Layout { size, align })
        } else {
            None
        }
    }
}

/// A size that is rounded up to a multiple of the alignment fits below a limit exactly if the size is not
/// above the last such multiple.
pub proof fn rounding_up_stays_below_a_limit(size: int, align: int, limit: int)
    requires
        power2::is_pow2(align),
        0 <= size,
        0 <= limit,
    ensures
        round_up(size, align) <= limit <==> size <= limit - limit % align,
{
    lemma_round_up(size, align);
    let rounded = round_up(size, align);
    let last = limit - limit % align;
    div_mod::lemma_fundamental_div_mod(limit, align);
    div_mod::lemma_mod_bound(limit, align);
    div_mod::lemma_fundamental_div_mod(rounded, align);
    let p = rounded / align;
    let q = limit / align;
    assert(rounded == align * p);
    assert(last == align * q);
    if rounded <= limit {
        assert(p <= q) by (nonlinear_arith)
            requires
                align * p <= align * q + limit % align,
                limit % align < align,
                align >= 1,
        ;
        assert(align * p <= align * q) by (nonlinear_arith)
            requires
                p <= q,
                align >= 1,
        ;
    }
    if size <= last {
        assert(p <= q) by (nonlinear_arith)
            requires
                align * p < size + align,
                size <= align * q,
                align >= 1,
        ;
        assert(align * p <= align * q) by (nonlinear_arith)
            requires
                p <= q,
                align >= 1,
        ;
    }
}

} // verus!
