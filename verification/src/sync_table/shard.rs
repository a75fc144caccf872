//! How hashes are spread over shards.

use crate::raw::table;
use vstd::arithmetic::{div_mod, power2};
use vstd::prelude::*;
use vstd::std_specs::bits;

verus! {

/// The index of the shard that a hash goes to, of `pow2(bits)` shards: the highest bits of the hash
/// but for the top 7. If there are not that many, the lowest.
pub open spec fn shard_of(hash: u64, bits: nat) -> int {
    let shift = table::max_int(usize::BITS - 7 - bits, 0) as nat;
    hash as int / power2::pow2(shift) as int % power2::pow2(bits) as int
}

/// Get a suitable shard index from a hash when sharding the hash table.
///
/// `shards` must be a power of 2.
pub fn shard_index_by_hash(hash: u64, shards: usize) -> (r: usize)
    requires
        power2::is_pow2(shards as int),
    ensures
        r < shards,
        forall|bits: nat| #[trigger] power2::pow2(bits) == shards ==> r == shard_of(hash, bits),
{
    let shard_bits: usize = (shards as u64).trailing_zeros() as usize;
    let ghost bits: nat = lemma_log2(shards);

    // Ignore the top 7 bits as we use these for bucket hashes and get the next `shard_bits`
    // highest bits. The lowest bits are used too, so we can't use those.
    let shift: usize = (usize::BITS as usize - 7).saturating_sub(shard_bits);
    let shifted: u64 = hash >> (shift as u64);
    let mask: usize = shards - 1;
    proof {
        vstd::bits::lemma_u64_shr_is_div(hash, shift as u64);
        vstd::bits::lemma_u64_low_bits_mask_is_mod(shifted, bits);
        assert(((shifted as usize) & mask) as u64 == shifted & (mask as u64)) by (bit_vector);
        assert(mask as u64 == vstd::bits::low_bits_mask(bits) as u64);
        div_mod::lemma_mod_bound(shifted as int, shards as int);
        assert forall|other: nat| #[trigger] power2::pow2(other) == shards implies other == bits by {
            if other < bits {
                power2::lemma_pow2_strictly_increases(other, bits);
            } else if bits < other {
                power2::lemma_pow2_strictly_increases(bits, other);
            }
        }
    }
    #[verifier::truncate]
    let index: usize = shifted as usize;
    index & mask
}

/// The binary logarithm of a power of two is the number of its trailing zeros.
proof fn lemma_log2(shards: usize) -> (bits: nat)
    requires
        power2::is_pow2(shards as int),
    ensures
        power2::pow2(bits) == shards,
        bits < usize::BITS,
        bits == (shards as u64).trailing_zeros(),
{
    power2::is_pow2_equiv(shards as int);
    let bits: nat = choose|i: nat| vstd::arithmetic::power::pow(2, i) == shards as int;
    power2::lemma_pow2(bits);
    power2::lemma2_to64();
    power2::lemma2_to64_rest();
    if bits >= usize::BITS {
        if bits > usize::BITS {
            power2::lemma_pow2_strictly_increases(usize::BITS as nat, bits);
        }
    }
    let value = shards as u64;
    let shift = bits as u64;
    vstd::bits::lemma_u64_shl_is_mul(1, shift);
    assert(value == 1u64 << shift);
    bits::axiom_u64_trailing_zeros(value);
    let zeros = value.trailing_zeros() as u64;
    assert(zeros == shift) by (bit_vector)
        requires
            value == 1u64 << shift,
            shift < 64,
            zeros < 64,
            (value >> zeros) & 1u64 == 1u64,
    ;
    bits
}

/// Every hash goes to one of the shards, and to which one depends on the bits below the top 7 only: as many
/// of them as it takes to tell the shards apart.
pub proof fn hashes_are_spread_by_the_bits_below_the_top(hash: u64, other: u64, bits: nat)
    requires
        bits <= usize::BITS - 7,
    ensures
        0 <= shard_of(hash, bits) < power2::pow2(bits),
        shard_of(hash, bits) == shard_of(other, bits) <==> hash as int / power2::pow2(
            (usize::BITS - 7 - bits) as nat,
        ) as int % power2::pow2(bits) as int == other as int / power2::pow2(
            (usize::BITS - 7 - bits) as nat,
        ) as int % power2::pow2(bits) as int,
{
    power2::lemma_pow2_pos(bits);
    power2::lemma_pow2_pos((usize::BITS - 7 - bits) as nat);
    div_mod::lemma_mod_bound(
        hash as int / power2::pow2((usize::BITS - 7 - bits) as nat) as int,
        power2::pow2(bits) as int,
    );
}

} // verus!
