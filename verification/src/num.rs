//! Integer helpers for the fixed-point UCB score: floor of the base-2
//! logarithm, floor of the square root, and the floor of a scaled mean.

use vstd::prelude::*;
use vstd::arithmetic::div_mod::{
    lemma_div_nonincreasing,
    lemma_fundamental_div_mod,
    lemma_fundamental_div_mod_converse,
    lemma_mod_pos_bound,
};

verus! {

/// Fixed-point value of `ln 2`, scaled by [`crate::SCALE`].
pub const LN2_FP: u64 = 693_147;

/// Powers of two over the mathematical integers.
pub open spec fn pow2_int(k: int) -> int
    decreases k,
{
    if k <= 0 {
        1
    } else {
        2 * pow2_int(k - 1)
    }
}

/// Floor of the base-2 logarithm; 0 for inputs below 2.
pub open spec fn log2_floor(m: int) -> int
    decreases m,
{
    if m < 2 {
        0
    } else {
        1 + log2_floor(m / 2)
    }
}

pub proof fn lemma_log2_floor_nonneg(m: int)
    ensures
        0 <= log2_floor(m),
    decreases m,
{
    if m >= 2 {
        lemma_log2_floor_nonneg(m / 2);
    }
}

/// An input below `2^k` has floor logarithm at most `k`.
pub proof fn lemma_log2_floor_below(m: int, k: int)
    requires
        0 <= m,
        0 <= k,
        m < pow2_int(k),
    ensures
        log2_floor(m) <= k,
    decreases m,
{
    if m < 2 {
        assert(log2_floor(m) == 0);
    } else {
        assert(pow2_int(k) == 2 * pow2_int(k - 1));
        assert(m / 2 < pow2_int(k - 1));
        lemma_log2_floor_below(m / 2, k - 1);
    }
}

/// Inputs below `2^34` have floor logarithm at most 34.
pub proof fn lemma_log2_floor_34(m: int)
    requires
        0 <= m < 0x4_0000_0000,
    ensures
        log2_floor(m) <= 34,
{
    assert(pow2_int(34) == 0x4_0000_0000) by {
        reveal_with_fuel(pow2_int, 36);
    }
    lemma_log2_floor_below(m, 34);
}

/// Floor of the base-2 logarithm of a visit count.
pub fn log2_floor_u64(m: u64) -> (r: u64)
    requires
        m < 0x4_0000_0000,
    ensures
        r == log2_floor(m as int),
        r <= 34,
{
    let mut v: u64 = m;
    let mut r: u64 = 0;
    proof {
        lemma_log2_floor_nonneg(m as int);
        lemma_log2_floor_34(m as int);
    }
    while v >= 2
        invariant
            log2_floor(m as int) == r + log2_floor(v as int),
            log2_floor(m as int) <= 34,
            0 <= log2_floor(v as int),
            r <= log2_floor(m as int),
        decreases v,
    {
        proof {
            assert(log2_floor(v as int) == 1 + log2_floor(v as int / 2));
            lemma_log2_floor_nonneg(v as int / 2);
        }
        v = v / 2;
        r = r + 1;
    }
    r
}

/// Floor of the square root.
pub open spec fn sqrt_floor(x: int) -> int
    decreases x,
{
    if x <= 0 {
        0
    } else {
        let r = sqrt_floor(x - 1);
        if (r + 1) * (r + 1) <= x {
            r + 1
        } else {
            r
        }
    }
}

pub proof fn lemma_sqrt_floor_props(x: int)
    requires
        0 <= x,
    ensures
        0 <= sqrt_floor(x),
        sqrt_floor(x) * sqrt_floor(x) <= x,
        x < (sqrt_floor(x) + 1) * (sqrt_floor(x) + 1),
    decreases x,
{
    if x > 0 {
        lemma_sqrt_floor_props(x - 1);
        let r = sqrt_floor(x - 1);
        if (r + 1) * (r + 1) <= x {
            // x - 1 < (r + 1)^2 <= x forces x == (r + 1)^2.
            assert(x < (r + 2) * (r + 2)) by (nonlinear_arith)
                requires
                    0 <= r,
                    x <= (r + 1) * (r + 1),
            ;
        }
    }
}

/// Any value bracketed like the square root is the square root.
proof fn lemma_sqrt_floor_unique(x: int, r: int)
    requires
        0 <= x,
        0 <= r,
        r * r <= x,
        x < (r + 1) * (r + 1),
    ensures
        r == sqrt_floor(x),
{
    let s = sqrt_floor(x);
    lemma_sqrt_floor_props(x);
    if r < s {
        assert((r + 1) * (r + 1) <= s * s) by (nonlinear_arith)
            requires
                0 <= r,
                r + 1 <= s,
            ;
    }
    if s < r {
        assert((s + 1) * (s + 1) <= r * r) by (nonlinear_arith)
            requires
                0 <= s,
                s + 1 <= r,
            ;
    }
}

/// Floor of the square root, by binary search.
pub fn isqrt(x: u64) -> (r: u64)
    requires
        x < 0x1_0000_0000_0000,
    ensures
        r == sqrt_floor(x as int),
        r < 0x100_0000,
{
    let mut lo: u64 = 0;
    let mut hi: u64 = 0x100_0000;
    assert(x < hi * hi) by (nonlinear_arith)
        requires
            x < 0x1_0000_0000_0000,
            hi == 0x100_0000,
        ;
    while lo + 1 < hi
        invariant
            lo < hi <= 0x100_0000,
            lo * lo <= x,
            x < hi * hi,
        decreases hi - lo,
    {
        let mid = lo + (hi - lo) / 2;
        assert(lo < mid < hi);
        assert(mid * mid < 0x1_0000_0000_0000_0000) by (nonlinear_arith)
            requires
                mid <= 0x100_0000,
        ;
        if mid * mid <= x {
            lo = mid;
        } else {
            hi = mid;
        }
    }
    proof {
        lemma_sqrt_floor_unique(x as int, lo as int);
    }
    lo
}

/// Fixed-point mean `⌊rs · SCALE / n⌋`; 0 while there is no visit.
pub open spec fn q_fp_spec(rs: int, n: int) -> int {
    if n <= 0 {
        0
    } else {
        (rs * crate::SCALE) / n
    }
}

/// Fixed-point mean of a reward sum over a visit count.
pub fn mean_fp(rs: i64, n: u64) -> (r: i64)
    requires
        1 <= n <= 0x2_0000_0000,
        -(n as int) <= rs as int <= n as int,
    ensures
        r == q_fp_spec(rs as int, n as int),
{
    if rs >= 0 {
        assert((rs as u64) * crate::SCALE <= 0x2_0000_0000u64 * crate::SCALE) by (nonlinear_arith)
            requires
                rs as u64 <= 0x2_0000_0000u64,
        ;
        let num: u64 = (rs as u64) * crate::SCALE;
        let q: u64 = num / n;
        proof {
            lemma_div_nonincreasing(num as int, n as int);
        }
        q as i64
    } else {
        let a: u64 = (-rs) as u64;
        assert(a * crate::SCALE <= 0x2_0000_0000u64 * crate::SCALE) by (nonlinear_arith)
            requires
                a <= 0x2_0000_0000u64,
        ;
        let num: u64 = a * crate::SCALE;
        let d: u64 = (num + n - 1) / n;
        proof {
            lemma_ceil_div_is_neg_floor(num as int, n as int);
            lemma_div_nonincreasing(num as int + n - 1, n as int);
        }
        -(d as i64)
    }
}

/// Euclidean division of `-a` by positive `n` is the negated ceiling
/// division of `a` by `n`.
proof fn lemma_ceil_div_is_neg_floor(a: int, n: int)
    requires
        0 <= a,
        1 <= n,
    ensures
        (-a) / n == -((a + n - 1) / n),
{
    let q = a / n;
    let r = a % n;
    lemma_fundamental_div_mod(a, n);
    lemma_mod_pos_bound(a, n);
    if r == 0 {
        assert(-a == (-q) * n + 0) by (nonlinear_arith)
            requires
                a == n * q + r && r == 0,
        ;
        lemma_fundamental_div_mod_converse(-a, n, -q, 0);
        assert(a + n - 1 == q * n + (n - 1)) by (nonlinear_arith)
            requires
                a == n * q + r && r == 0,
        ;
        lemma_fundamental_div_mod_converse(a + n - 1, n, q, n - 1);
    } else {
        assert(-a == (-q - 1) * n + (n - r)) by (nonlinear_arith)
            requires
                a == n * q + r,
        ;
        lemma_fundamental_div_mod_converse(-a, n, -q - 1, n - r);
        assert(a + n - 1 == (q + 1) * n + (r - 1)) by (nonlinear_arith)
            requires
                a == n * q + r,
        ;
        lemma_fundamental_div_mod_converse(a + n - 1, n, q + 1, r - 1);
    }
}

} // verus!
