//! Exact integer roots: floor(x^(1/2)), floor(x^(1/3)), floor(x^(1/4)).
use vstd::prelude::*;

verus! {

/// `r` is the floor of the square root of `x`.
pub open spec fn is_floor_sqrt(x: int, r: int) -> bool {
    r >= 0 && r * r <= x < (r + 1) * (r + 1)
}

/// `r` is the floor of the cube root of `x`.
pub open spec fn is_floor_cbrt(x: int, r: int) -> bool {
    r >= 0 && r * r * r <= x < (r + 1) * (r + 1) * (r + 1)
}

/// `r` is the floor of the fourth root of `x`.
pub open spec fn is_floor_root4(x: int, r: int) -> bool {
    r >= 0 && r * r * r * r <= x < (r + 1) * (r + 1) * (r + 1) * (r + 1)
}

/// The floor square root of `x >= 0`.
pub open spec fn floor_sqrt(x: int) -> int {
    choose|r: int| is_floor_sqrt(x, r)
}

/// The floor cube root of `x >= 0`.
pub open spec fn floor_cbrt(x: int) -> int {
    choose|r: int| is_floor_cbrt(x, r)
}

/// The floor fourth root of `x >= 0`.
pub open spec fn floor_root4(x: int) -> int {
    choose|r: int| is_floor_root4(x, r)
}

/// floor(sqrt(x)).
pub fn isqrt(x: u64) -> (r: u64)
    ensures
        is_floor_sqrt(x as int, r as int),
        r == floor_sqrt(x as int),
{
    let mut lo: u64 = 0;
    let mut hi: u64 = 0x1_0000_0000;
    assert(0x1_0000_0000u64 * 0x1_0000_0000u64 > u64::MAX) by (nonlinear_arith);
    while hi - lo > 1
        invariant
            lo < hi <= 0x1_0000_0000,
            lo * lo <= x,
            x < hi * hi,
        decreases hi - lo,
    {
        let mid = lo + (hi - lo) / 2;
        assert(mid * mid <= 0xffff_ffffu64 * 0xffff_ffffu64) by (nonlinear_arith)
            requires
                mid < 0x1_0000_0000,
        ;
        if mid * mid <= x {
            lo = mid;
        } else {
            hi = mid;
        }
    }
    proof {
        lemma_floor_sqrt_unique(x as int, lo as int, floor_sqrt(x as int));
    }
    lo
}

/// floor(cbrt(x)).
pub fn icbrt(x: u64) -> (r: u64)
    ensures
        is_floor_cbrt(x as int, r as int),
        r == floor_cbrt(x as int),
{
    let mut lo: u128 = 0;
    let mut hi: u128 = 0x40_0000;
    assert(0x40_0000 * 0x40_0000 * 0x40_0000 > u64::MAX) by (nonlinear_arith);
    while hi - lo > 1
        invariant
            lo < hi <= 0x40_0000,
            lo * lo * lo <= x,
            x < hi * hi * hi,
        decreases hi - lo,
    {
        let mid = lo + (hi - lo) / 2;
        assert(mid * mid <= 0x40_0000 * 0x40_0000 && mid * mid * mid <= 0x40_0000 * 0x40_0000 * 0x40_0000) by (nonlinear_arith)
            requires
                mid < 0x40_0000,
        ;
        if mid * mid * mid <= x as u128 {
            lo = mid;
        } else {
            hi = mid;
        }
    }
    proof {
        lemma_floor_cbrt_unique(x as int, lo as int, floor_cbrt(x as int));
    }
    lo as u64
}

/// floor(x^(1/4)).
pub fn iroot4(x: u64) -> (r: u64)
    ensures
        is_floor_root4(x as int, r as int),
        r == floor_root4(x as int),
{
    let mut lo: u128 = 0;
    let mut hi: u128 = 0x1_0000;
    assert(0x1_0000 * 0x1_0000 * 0x1_0000 * 0x1_0000 > u64::MAX) by (nonlinear_arith);
    while hi - lo > 1
        invariant
            lo < hi <= 0x1_0000,
            lo * lo * lo * lo <= x,
            x < hi * hi * hi * hi,
        decreases hi - lo,
    {
        let mid = lo + (hi - lo) / 2;
        assert(mid * mid <= 0x1_0000 * 0x1_0000 && mid * mid * mid <= 0x1_0000 * 0x1_0000 * 0x1_0000
            && mid * mid * mid * mid <= 0x1_0000 * 0x1_0000 * 0x1_0000 * 0x1_0000) by (nonlinear_arith)
            requires
                mid < 0x1_0000,
        ;
        if mid * mid * mid * mid <= x as u128 {
            lo = mid;
        } else {
            hi = mid;
        }
    }
    proof {
        assert(is_floor_root4(x as int, lo as int));
        lemma_floor_root4_unique(x as int, lo as int, floor_root4(x as int));
    }
    lo as u64
}

/// The floor fourth root is unique.
pub proof fn lemma_floor_root4_unique(x: int, r: int, s: int)
    requires
        is_floor_root4(x, r),
        is_floor_root4(x, s),
    ensures
        r == s,
{
    if r < s {
        assert((r + 1) * (r + 1) * (r + 1) * (r + 1) <= s * s * s * s) by (nonlinear_arith)
            requires
                0 <= r < s,
        ;
    }
    if s < r {
        assert((s + 1) * (s + 1) * (s + 1) * (s + 1) <= r * r * r * r) by (nonlinear_arith)
            requires
                0 <= s < r,
        ;
    }
}

/// The floor square root is unique.
pub proof fn lemma_floor_sqrt_unique(x: int, r: int, s: int)
    requires
        is_floor_sqrt(x, r),
        is_floor_sqrt(x, s),
    ensures
        r == s,
{
    if r < s {
        assert((r + 1) * (r + 1) <= s * s) by (nonlinear_arith)
            requires
                0 <= r < s,
        ;
    }
    if s < r {
        assert((s + 1) * (s + 1) <= r * r) by (nonlinear_arith)
            requires
                0 <= s < r,
        ;
    }
}

/// The floor cube root is unique.
pub proof fn lemma_floor_cbrt_unique(x: int, r: int, s: int)
    requires
        is_floor_cbrt(x, r),
        is_floor_cbrt(x, s),
    ensures
        r == s,
{
    if r < s {
        assert((r + 1) * (r + 1) * (r + 1) <= s * s * s) by (nonlinear_arith)
            requires
                0 <= r < s,
        ;
    }
    if s < r {
        assert((s + 1) * (s + 1) * (s + 1) <= r * r * r) by (nonlinear_arith)
            requires
                0 <= s < r,
        ;
    }
}

/// x / p is antitone in p.
pub proof fn lemma_div_antitone(x: int, p: int, q: int)
    requires
        x >= 0,
        1 <= p <= q,
    ensures
        x / p >= x / q,
{
    vstd::arithmetic::div_mod::lemma_div_is_ordered_by_denominator(x, p, q);
}

/// Square root is monotone: a <= b implies isqrt(a) <= isqrt(b).
pub proof fn lemma_floor_sqrt_monotone(a: int, ra: int, b: int, rb: int)
    requires
        a <= b,
        is_floor_sqrt(a, ra),
        is_floor_sqrt(b, rb),
    ensures
        ra <= rb,
{
    if ra > rb {
        assert((rb + 1) * (rb + 1) <= ra * ra) by (nonlinear_arith)
            requires
                0 <= rb < ra,
        ;
    }
}


/// A floor square root exists for every x >= 0.
proof fn sqrt_witness(x: int) -> (r: int)
    requires
        x >= 0,
    ensures
        is_floor_sqrt(x, r),
    decreases x,
{
    if x == 0 {
        assert(is_floor_sqrt(0, 0)) by (nonlinear_arith);
        0
    } else {
        let r = sqrt_witness(x - 1);
        if (r + 1) * (r + 1) <= x {
            assert(is_floor_sqrt(x, r + 1)) by (nonlinear_arith)
                requires
                    x - 1 < (r + 1) * (r + 1),
                    (r + 1) * (r + 1) <= x,
                    r >= 0,
            ;
            r + 1
        } else {
            assert(is_floor_sqrt(x, r)) by (nonlinear_arith)
                requires
                    is_floor_sqrt(x - 1, r),
                    x < (r + 1) * (r + 1),
            ;
            r
        }
    }
}

/// A floor cube root exists for every x >= 0.
proof fn cbrt_witness(x: int) -> (r: int)
    requires
        x >= 0,
    ensures
        is_floor_cbrt(x, r),
    decreases x,
{
    if x == 0 {
        assert(is_floor_cbrt(0, 0)) by (nonlinear_arith);
        0
    } else {
        let r = cbrt_witness(x - 1);
        if (r + 1) * (r + 1) * (r + 1) <= x {
            assert(is_floor_cbrt(x, r + 1)) by (nonlinear_arith)
                requires
                    x - 1 < (r + 1) * (r + 1) * (r + 1),
                    (r + 1) * (r + 1) * (r + 1) <= x,
                    r >= 0,
            ;
            r + 1
        } else {
            assert(is_floor_cbrt(x, r)) by (nonlinear_arith)
                requires
                    is_floor_cbrt(x - 1, r),
                    x < (r + 1) * (r + 1) * (r + 1),
            ;
            r
        }
    }
}

/// A floor fourth root exists for every x >= 0.
proof fn root4_witness(x: int) -> (r: int)
    requires
        x >= 0,
    ensures
        is_floor_root4(x, r),
    decreases x,
{
    if x == 0 {
        assert(is_floor_root4(0, 0)) by (nonlinear_arith);
        0
    } else {
        let r = root4_witness(x - 1);
        if (r + 1) * (r + 1) * (r + 1) * (r + 1) <= x {
            assert(is_floor_root4(x, r + 1)) by (nonlinear_arith)
                requires
                    x - 1 < (r + 1) * (r + 1) * (r + 1) * (r + 1),
                    (r + 1) * (r + 1) * (r + 1) * (r + 1) <= x,
                    r >= 0,
            ;
            r + 1
        } else {
            assert(is_floor_root4(x, r)) by (nonlinear_arith)
                requires
                    is_floor_root4(x - 1, r),
                    x < (r + 1) * (r + 1) * (r + 1) * (r + 1),
            ;
            r
        }
    }
}

/// floor_sqrt, floor_cbrt and floor_root4 meet their definitions on x >= 0.
pub proof fn lemma_floor_roots_exist(x: int)
    requires
        x >= 0,
    ensures
        is_floor_sqrt(x, floor_sqrt(x)),
        is_floor_cbrt(x, floor_cbrt(x)),
        is_floor_root4(x, floor_root4(x)),
{
    let r2 = sqrt_witness(x);
    let r3 = cbrt_witness(x);
    let r4 = root4_witness(x);
    assert(is_floor_sqrt(x, r2));
    assert(is_floor_cbrt(x, r3));
    assert(is_floor_root4(x, r4));
}

} // verus!
