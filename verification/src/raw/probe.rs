//! Probe sequences.

use crate::raw::group::WIDTH;
use vstd::arithmetic::{div_mod, power2};
use vstd::prelude::*;

verus! {

/// The start of group `step` in a probe sequence over `n` buckets that starts at `start`.
///
/// Each step jumps one group further than the one before it, so group `step` lies
/// `WIDTH * (1 + 2 + .. + step)` past the start.
pub open spec fn probe_pos(start: int, n: int, step: int) -> int {
    (start + 8 * (step * (step + 1))) % n
}

/// The bucket that byte `offset` of the group at `pos` stands for.
pub open spec fn bucket_at(pos: int, offset: int, n: int) -> int {
    (pos + offset) % n
}

/// The number of groups in a table with `n` buckets.
pub open spec fn group_count(n: int) -> int {
    n / 16
}

/// Whether group `step` of the probe sequence covers bucket `index`.
pub open spec fn covers(start: int, n: int, step: int, index: int) -> bool {
    exists|offset: int|
        0 <= offset < 16 && #[trigger] bucket_at(probe_pos(start, n, step), offset, n) == index
}

/// Masking by one less than a power of two is taking the remainder.
pub proof fn lemma_mask_is_mod(x: usize, mask: usize)
    requires
        power2::is_pow2(mask + 1),
    ensures
        x & mask == x as int % (mask + 1),
        0 <= x & mask <= mask,
{
    power2::is_pow2_equiv(mask + 1);
    let m = choose|i: nat| vstd::arithmetic::power::pow(2, i) == mask + 1;
    power2::lemma_pow2(m);
    let x64 = x as u64;
    let mask64 = mask as u64;
    assert(x & mask == x64 & mask64);
    if m < 64 {
        vstd::bits::lemma_u64_low_bits_mask_is_mod(x64, m);
        vstd::bits::lemma_u64_pow2_no_overflow(m);
        assert(vstd::bits::low_bits_mask(m) == mask);
    } else {
        power2::lemma2_to64();
        power2::lemma2_to64_rest();
        if m > 64 {
            power2::lemma_pow2_strictly_increases(64, m);
        }
        assert(mask64 == 0xffff_ffff_ffff_ffffu64);
        assert(x64 & 0xffff_ffff_ffff_ffffu64 == x64) by (bit_vector);
        div_mod::lemma_small_mod(x as nat, (mask + 1) as nat);
    }
}

/// Twice a power of two that a `usize` holds is out of range by one at most.
pub proof fn lemma_pow2_doubles(n: int)
    requires
        power2::is_pow2(n),
        n <= usize::MAX,
    ensures
        2 * n <= usize::MAX + 1,
{
    power2::is_pow2_equiv(n);
    let e = choose|i: nat| vstd::arithmetic::power::pow(2, i) == n;
    power2::lemma_pow2(e);
    power2::lemma2_to64();
    power2::lemma2_to64_rest();
    power2::lemma_pow2_unfold(e + 1);
    let top: nat = if usize::BITS == 32 {
        32
    } else {
        64
    };
    assert(power2::pow2(top) == usize::MAX + 1);
    if e >= top {
        if e > top {
            power2::lemma_pow2_strictly_increases(top, e);
        }
    } else if e + 1 < top {
        power2::lemma_pow2_strictly_increases(e + 1, top);
    }
}

/// A power of two that a `usize` holds divides the number of values of a `usize`.
pub proof fn lemma_pow2_divides_range(n: int)
    requires
        power2::is_pow2(n),
        n <= usize::MAX,
    ensures
        (usize::MAX + 1) % n == 0,
{
    power2::is_pow2_equiv(n);
    let e = choose|i: nat| vstd::arithmetic::power::pow(2, i) == n;
    power2::lemma_pow2(e);
    power2::lemma2_to64();
    power2::lemma2_to64_rest();
    let top: nat = if usize::BITS == 32 {
        32
    } else {
        64
    };
    assert(power2::pow2(top) == usize::MAX + 1);
    if e >= top {
        if e > top {
            power2::lemma_pow2_strictly_increases(top, e);
        }
    } else {
        power2::lemma_pow2_adds(e, (top - e) as nat);
        let q = power2::pow2((top - e) as nat) as int;
        assert(n * q == q * n) by (nonlinear_arith);
        div_mod::lemma_fundamental_div_mod_converse(usize::MAX + 1, n, q, 0);
    }
}

/// Every residue of a power of two is that of a triangular number below the power.
proof fn lemma_triangular_reaches(m: nat, q: int) -> (k: int)
    requires
        0 <= q < power2::pow2(m),
    ensures
        0 <= k < power2::pow2(m),
        (k * (k + 1) - 2 * q) % (2 * power2::pow2(m) as int) == 0,
    decreases m,
{
    if m == 0 {
        power2::lemma2_to64();
        0
    } else {
        let half = (m - 1) as nat;
        let h = power2::pow2(half) as int;
        power2::lemma_pow2_unfold(m);
        power2::lemma_pow2_pos(half);
        let e: int = if q < h {
            0
        } else {
            1
        };
        let q0 = q - e * h;
        let k = lemma_triangular_reaches(half, q0);
        let c = (k * (k + 1) - 2 * q0) / (2 * h);
        div_mod::lemma_fundamental_div_mod(k * (k + 1) - 2 * q0, 2 * h);
        assert(k * (k + 1) == 2 * q0 + 2 * h * c);
        assert(k * (k + 1) - 2 * q == 2 * h * (c - e)) by (nonlinear_arith)
            requires
                k * (k + 1) == 2 * q0 + 2 * h * c,
                q0 == q - e * h,
        ;
        if (c - e) % 2 == 0 {
            let d = (c - e) / 2;
            assert(2 * h * (c - e) == d * (4 * h)) by (nonlinear_arith)
                requires
                    c - e == 2 * d,
            ;
            div_mod::lemma_fundamental_div_mod_converse(k * (k + 1) - 2 * q, 4 * h, d, 0);
            k
        } else {
            let d = (c - e - 1) / 2;
            let k2 = 2 * h - 1 - k;
            assert(k2 * (k2 + 1) - 2 * q == (h - k + d) * (4 * h)) by (nonlinear_arith)
                requires
                    k2 == 2 * h - 1 - k,
                    k * (k + 1) - 2 * q == 2 * h * (c - e),
                    c - e == 2 * d + 1,
            ;
            div_mod::lemma_fundamental_div_mod_converse(k2 * (k2 + 1) - 2 * q, 4 * h, h - k + d, 0);
            k2
        }
    }
}

/// The probe sequence covers every bucket of the table before it has run through as many groups
/// as the table holds.
pub proof fn lemma_probe_covers(start: int, n: int, index: int) -> (step: int)
    requires
        power2::is_pow2(n),
        n >= 16,
        0 <= start < n,
        0 <= index < n,
    ensures
        0 <= step < group_count(n),
        covers(start, n, step, index),
{
    let m = lemma_groups_are_pow2(n);
    let g = power2::pow2(m) as int;
    let d = (index - start) % n;
    let q = d / 16;
    let r = d % 16;
    assert(q < g);
    let k = lemma_triangular_reaches(m, q);
    let c = (k * (k + 1) - 2 * q) / (2 * g);
    div_mod::lemma_fundamental_div_mod(k * (k + 1) - 2 * q, 2 * g);
    assert(8 * (k * (k + 1)) == 16 * q + n * c) by (nonlinear_arith)
        requires
            k * (k + 1) - 2 * q == 2 * g * c,
            n == 16 * g,
    ;
    let pos = probe_pos(start, n, k);
    div_mod::lemma_mod_multiples_vanish(c, start + 16 * q, n);
    assert(n * c + (start + 16 * q) == start + 8 * (k * (k + 1)));
    assert(pos == (start + 16 * q) % n);
    div_mod::lemma_add_mod_noop(start + 16 * q, r, n);
    div_mod::lemma_small_mod(r as nat, n as nat);
    assert((pos + r) % n == (start + d) % n);
    div_mod::lemma_add_mod_noop_right(start, index - start, n);
    div_mod::lemma_small_mod(index as nat, n as nat);
    assert(bucket_at(pos, r, n) == index);
    k
}

/// Group `step + 1` of a probe sequence starts `WIDTH * (step + 1)` past group `step`.
pub proof fn lemma_probe_step(start: int, n: int, step: int)
    requires
        n > 0,
    ensures
        (probe_pos(start, n, step) + 16 * (step + 1)) % n == probe_pos(start, n, step + 1),
{
    let x = start + 8 * (step * (step + 1));
    div_mod::lemma_add_mod_noop(x, 16 * (step + 1), n);
    div_mod::lemma_add_mod_noop(x % n, 16 * (step + 1), n);
    div_mod::lemma_mod_twice(x, n);
    assert((step + 1) * (step + 2) == step * (step + 1) + 2 * (step + 1)) by (nonlinear_arith);
}

/// A table of at least one group holds a power of two of groups.
proof fn lemma_groups_are_pow2(n: int) -> (m: nat)
    requires
        power2::is_pow2(n),
        n >= 16,
    ensures
        n == 16 * power2::pow2(m),
{
    power2::is_pow2_equiv(n);
    let e = choose|i: nat| vstd::arithmetic::power::pow(2, i) == n;
    power2::lemma_pow2(e);
    power2::lemma2_to64();
    if e < 4 {
        assert(e == 0 || e == 1 || e == 2 || e == 3);
        assert(false);
    }
    let m = (e - 4) as nat;
    power2::lemma_pow2_adds(4, m);
    m
}

/// A power of two that divides a product with an odd factor divides the other factor.
proof fn lemma_odd_factor(e: nat, a: int, b: int)
    requires
        a % 2 == 1,
        (a * b) % (power2::pow2(e) as int) == 0,
    ensures
        b % (power2::pow2(e) as int) == 0,
    decreases e,
{
    power2::lemma_pow2_pos(e);
    if e == 0 {
        power2::lemma2_to64();
    } else {
        let half = power2::pow2((e - 1) as nat) as int;
        power2::lemma_pow2_pos((e - 1) as nat);
        power2::lemma_pow2_unfold(e);
        let c = (a * b) / (2 * half);
        div_mod::lemma_fundamental_div_mod(a * b, 2 * half);
        assert(a * b == 2 * (half * c)) by (nonlinear_arith)
            requires
                a * b == 2 * half * c,
        ;
        assert(b % 2 == 0) by {
            if b % 2 == 1 {
                let x = a / 2;
                let y = b / 2;
                assert(a * b == 2 * (2 * (x * y) + x + y) + 1) by (nonlinear_arith)
                    requires
                        a == 2 * x + 1,
                        b == 2 * y + 1,
                ;
                assert(false);
            }
        }
        let b2 = b / 2;
        assert(a * b2 == half * c) by (nonlinear_arith)
            requires
                a * b == 2 * (half * c),
                b == 2 * b2,
        ;
        assert(a * b2 == c * half) by (nonlinear_arith)
            requires
                a * b2 == half * c,
        ;
        div_mod::lemma_fundamental_div_mod_converse(a * b2, half, c, 0);
        lemma_odd_factor((e - 1) as nat, a, b2);
        let d = b2 / half;
        div_mod::lemma_fundamental_div_mod(b2, half);
        assert(b == d * (2 * half)) by (nonlinear_arith)
            requires
                b == 2 * b2,
                b2 == half * d,
        ;
        div_mod::lemma_fundamental_div_mod_converse(b, 2 * half, d, 0);
    }
}

/// The probe sequence is guaranteed to visit each bucket exactly once while it runs through as
/// many groups as the table holds.
pub proof fn probe_visits_each_bucket_once(start: int, n: int, index: int)
    requires
        power2::is_pow2(n),
        n >= 16,
        0 <= start < n,
        0 <= index < n,
    ensures
        exists|step: int| 0 <= step < group_count(n) && #[trigger] covers(start, n, step, index),
        forall|a: int, b: int|
            0 <= a < group_count(n) && 0 <= b < group_count(n) && #[trigger] covers(
                start,
                n,
                a,
                index,
            ) && #[trigger] covers(start, n, b, index) ==> a == b,
{
    let step = lemma_probe_covers(start, n, index);
    assert forall|a: int, b: int|
        0 <= a < group_count(n) && 0 <= b < group_count(n) && #[trigger] covers(start, n, a, index)
            && #[trigger] covers(start, n, b, index) implies a == b by {
        if a <= b {
            lemma_probe_does_not_return(start, n, index, a, b);
        } else {
            lemma_probe_does_not_return(start, n, index, b, a);
        }
    }
}

proof fn lemma_probe_does_not_return(start: int, n: int, index: int, a: int, b: int)
    requires
        power2::is_pow2(n),
        n >= 16,
        0 <= start < n,
        0 <= index < n,
        0 <= a <= b < group_count(n),
        covers(start, n, a, index),
        covers(start, n, b, index),
    ensures
        a == b,
{
    let m = lemma_groups_are_pow2(n);
    let g = power2::pow2(m) as int;
    let ra = choose|offset: int|
        0 <= offset < 16 && #[trigger] bucket_at(probe_pos(start, n, a), offset, n) == index;
    let rb = choose|offset: int|
        0 <= offset < 16 && #[trigger] bucket_at(probe_pos(start, n, b), offset, n) == index;
    let xa = start + 8 * (a * (a + 1));
    let xb = start + 8 * (b * (b + 1));
    div_mod::lemma_fundamental_div_mod(xa, n);
    div_mod::lemma_fundamental_div_mod(xb, n);
    div_mod::lemma_fundamental_div_mod(xa % n + ra, n);
    div_mod::lemma_fundamental_div_mod(xb % n + rb, n);
    let qa = xa / n + (xa % n + ra) / n;
    let qb = xb / n + (xb % n + rb) / n;
    assert(n * (xa / n) + n * ((xa % n + ra) / n) == n * qa) by (nonlinear_arith)
        requires
            qa == xa / n + (xa % n + ra) / n,
    ;
    assert(n * (xb / n) + n * ((xb % n + rb) / n) == n * qb) by (nonlinear_arith)
        requires
            qb == xb / n + (xb % n + rb) / n,
    ;
    assert(xa + ra == n * qa + index);
    assert(xb + rb == n * qb + index);
    let p = b - a;
    let s = a + b + 1;
    assert(b * (b + 1) - a * (a + 1) == p * s) by (nonlinear_arith)
        requires
            p == b - a,
            s == a + b + 1,
    ;
    assert(n * qb - n * qa == 16 * (g * (qb - qa))) by (nonlinear_arith)
        requires
            n == 16 * g,
    ;
    assert((p * s) % 2 == 0) by {
        let u = p / 2;
        let v = s / 2;
        if p % 2 == 0 {
            assert(p * s == 2 * (u * s)) by (nonlinear_arith)
                requires
                    p == 2 * u,
            ;
        } else {
            assert(s % 2 == 0);
            assert(p * s == 2 * (p * v)) by (nonlinear_arith)
                requires
                    s == 2 * v,
            ;
        }
    }
    assert(ra == rb);
    assert(p * s == 2 * (g * (qb - qa)));
    assert(p * s == (qb - qa) * (2 * g)) by (nonlinear_arith)
        requires
            p * s == 2 * (g * (qb - qa)),
    ;
    power2::lemma_pow2_pos(m);
    div_mod::lemma_fundamental_div_mod_converse(p * s, 2 * g, qb - qa, 0);
    power2::lemma_pow2_unfold(m + 1);
    if p % 2 == 1 {
        lemma_odd_factor(m + 1, p, s);
        div_mod::lemma_small_mod(s as nat, (2 * g) as nat);
    } else {
        assert(s % 2 == 1);
        assert(s * p == p * s) by (nonlinear_arith);
        lemma_odd_factor(m + 1, s, p);
        if p > 0 {
            div_mod::lemma_small_mod(p as nat, (2 * g) as nat);
        }
    }
}

/// Probe sequence based on triangular numbers, which is guaranteed (since our
/// table size is a power of two) to visit every group of elements exactly once.
///
/// A triangular probe has us jump by 1 more group every time. So first we
/// jump by 1 group (meaning we just continue our linear scan), then 2 groups
/// (skipping over 1 group), then 3 groups (skipping over 2 groups), and so on.
pub struct ProbeSeq {
    pub pos: usize,
    pub stride: usize,
}

impl ProbeSeq {
    /// Whether this is step `step` of a probe sequence over `n` buckets that starts at `start`.
    pub open spec fn is_at(self, start: int, n: int, step: int) -> bool {
        &&& 0 <= start < n
        &&& step >= 0
        &&& self.stride == 16 * step
        &&& self.pos == probe_pos(start, n, step)
    }

    /// Moves on to the next group.
    pub fn move_next(&mut self, bucket_mask: usize)
        requires
            power2::is_pow2(bucket_mask + 1),
            bucket_mask < usize::MAX,
            old(self).pos <= bucket_mask,
            old(self).stride + WIDTH <= bucket_mask + 1,
        ensures
            final(self).stride == old(self).stride + WIDTH,
            final(self).pos == (old(self).pos + old(self).stride + WIDTH) % (bucket_mask + 1),
    {
        proof {
            lemma_pow2_doubles(bucket_mask + 1);
        }
        self.stride = self.stride + WIDTH;
        let sum: usize = self.pos + self.stride;
        proof {
            lemma_mask_is_mod(sum, bucket_mask);
        }
        self.pos = sum & bucket_mask;
    }
}

} // verus!
