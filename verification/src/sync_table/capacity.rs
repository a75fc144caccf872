//! How many buckets a table has, and how many elements it has room for.

use crate::raw::ctrl;
use crate::raw::group::WIDTH;
use crate::raw::table::max_usize;
use vstd::arithmetic::power2;
use vstd::prelude::*;

verus! {

/// The maximum number of elements in a table with `n` buckets.
pub open spec fn capacity_of(n: int) -> int {
    if n <= 8 {
        n - 1
    } else {
        n / 8 * 7
    }
}

/// Returns the maximum effective capacity for the given bucket mask, taking
/// the maximum load factor into account.
pub fn bucket_mask_to_capacity(bucket_mask: usize) -> (r: usize)
    requires
        bucket_mask < usize::MAX,
    ensures
        r == capacity_of(bucket_mask + 1),
        r <= bucket_mask,
{
    if bucket_mask < 8 {
        // For tables with 1/2/4/8 buckets, we always reserve one empty slot.
        // Keep in mind that the bucket mask is one less than the bucket count.
        bucket_mask
    } else {
        // For larger tables we reserve 12.5% of the slots as empty.
        ((bucket_mask + 1) / 8) * 7
    }
}

/// Whether `n` is the least number of buckets that a table with room for `cap` elements can have.
pub open spec fn buckets_for(cap: int, n: int) -> bool {
    &&& power2::is_pow2(n)
    &&& n >= 16
    &&& capacity_of(n) >= cap
    &&& n > 16 ==> capacity_of(n / 2) < cap
}

/// Returns the least power of two that is not below `value`.
pub fn next_power_of_two(value: usize) -> (r: usize)
    requires
        value <= usize::MAX / 2,
    ensures
        power2::is_pow2(r as int),
        value <= r,
        r > 1 ==> r / 2 < value,
{
    let mut r: usize = 1;
    proof {
        reveal(power2::is_pow2);
    }
    while r < value
        invariant
            power2::is_pow2(r as int),
            value <= usize::MAX / 2,
            r > 1 ==> r / 2 < value,
            1 <= r,
            r <= 2 * value || r == 1,
        decreases 2 * value - r,
    {
        proof {
            reveal_with_fuel(power2::is_pow2, 2);
            assert((2 * r) / 2 == r);
        }
        r = 2 * r;
    }
    r
}

/// Returns the number of buckets needed to hold the given number of items,
/// taking the maximum load factor into account.
///
/// Returns `None` if an overflow occurs.
pub fn capacity_to_buckets(cap: usize) -> (r: Option<usize>)
    requires
        cap != 0,
    ensures
        r is Some <==> cap < 8 || cap * 8 <= usize::MAX,
        r matches Some(n) ==> buckets_for(cap as int, n as int) && n <= cap * 16 + 16,
{
    // For small tables we require at least 1 empty bucket so that lookups are
    // guaranteed to terminate if an element doesn't exist in the table.
    let result: usize = if cap < 8 {
        // We don't bother with a table size of 2 buckets since that can only
        // hold a single element. Instead we skip directly to a 4 bucket table
        // which can hold 3 elements.
        if cap < 4 {
            4
        } else {
            8
        }
    } else {
        // Otherwise require 1/8 buckets to be empty (87.5% load)
        let adjusted_cap: usize = match cap.checked_mul(8) {
            Some(scaled) => scaled / 7,
            None => return None,
        };
        // Any overflows will have been caught by the checked_mul. Also, any
        // rounding errors from the division above will be cleaned up by
        // next_power_of_two (which can't overflow because of the previous division).
        let r: usize = next_power_of_two(adjusted_cap);
        proof {
            ctrl::lemma_groups_fill(r as int);
            if r < 16 {
                ctrl::lemma_small_pow2(r as int);
            }
        }
        r
    };
    // Have at least the number of buckets required to fill a group.
    // This avoids logic to deal with control bytes not associated with a bucket
    // when batch processing a group.
    let n: usize = max_usize(result, WIDTH);
    proof {
        if n == 16 {
            reveal_with_fuel(power2::is_pow2, 6);
        } else {
            ctrl::lemma_groups_fill(n as int);
        }
    }
    Some(n)
}

/// The next larger power of two is twice as large.
pub proof fn lemma_pow2_gap(m: int, n: int)
    requires
        power2::is_pow2(m),
        power2::is_pow2(n),
        m < n,
    ensures
        2 * m <= n,
    decreases n,
{
    reveal_with_fuel(power2::is_pow2, 2);
    if m > 1 {
        lemma_pow2_gap(m / 2, n / 2);
    }
}

/// There is only one least number of buckets.
pub proof fn lemma_buckets_for(cap: int, n: int)
    requires
        buckets_for(cap, n),
    ensures
        forall|m: int| #[trigger] buckets_for(cap, m) ==> m == n,
{
    assert forall|m: int| #[trigger] buckets_for(cap, m) implies m == n by {
        if m < n {
            lemma_pow2_gap(m, n);
        } else if n < m {
            lemma_pow2_gap(n, m);
        }
    }
}

} // verus!
