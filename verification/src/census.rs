//! Counting the walker's run-cells: for a prime p_j, the quotients
//! x / (p_j e) over 1 <= e <= x / p_j^2 come in runs of equal value, and
//! the walker visits one cell per run.
use vstd::prelude::*;
use vstd::arithmetic::div_mod::{lemma_div_denominator, lemma_fundamental_div_mod, lemma_div_is_ordered_by_denominator};

verus! {

/// `e` opens a run of equal quotients n / e.
pub open spec fn run_start(n: int, e: int) -> bool {
    e == 1 || n / (e - 1) != n / e
}

/// Number of e in [1, hi] that open a run of equal quotients n / e.
pub open spec fn run_count(n: int, hi: int) -> nat
    decreases hi,
{
    if hi < 1 {
        0
    } else {
        run_count(n, hi - 1) + if run_start(n, hi) { 1nat } else { 0nat }
    }
}

/// The quotient v = n / e is at least 1 and e lies in its run [.., n / v].
pub proof fn lemma_quotient_start(n: int, e: int)
    requires
        n >= 1,
        1 <= e <= n,
    ensures
        n / e >= 1,
        e <= n / (n / e),
{
    let v = n / e;
    lemma_fundamental_div_mod(n, e);
    assert(v >= 1) by (nonlinear_arith)
        requires
            n == e * v + n % e,
            0 <= n % e < e,
            e <= n,
    ;
    lemma_fundamental_div_mod(n, v);
    assert(e * v <= n) by (nonlinear_arith)
        requires
            n == e * v + n % e,
            0 <= n % e,
    ;
    lemma_div_is_ordered_by_denominator(n, v, v);
    vstd::arithmetic::div_mod::lemma_div_is_ordered(e * v, n, v);
    vstd::arithmetic::mul::lemma_mul_is_commutative(e, v);
    vstd::arithmetic::div_mod::lemma_div_multiples_vanish(e, v);
}

/// From e to n / (n / e) every quotient equals n / e, and the next one is
/// smaller.
pub proof fn lemma_quotient_run(n: int, e: int, e2: int)
    requires
        n >= 1,
        1 <= e <= n,
        e <= e2 <= n / (n / e) + 1,
    ensures
        n / e >= 1,
        e2 <= n / (n / e) ==> n / e2 == n / e,
        e2 == n / (n / e) + 1 ==> n / e2 < n / e,
{
    lemma_quotient_start(n, e);
    let v = n / e;
    lemma_fundamental_div_mod(n, v);
    lemma_fundamental_div_mod(n, e2);
    let q = n / v;
    let r = n % v;
    if e2 <= q {
        lemma_div_is_ordered_by_denominator(n, e, e2);
        assert(e2 * v <= n) by (nonlinear_arith)
            requires
                e2 <= q,
                v >= 1,
                n == v * q + r,
                0 <= r,
        ;
        vstd::arithmetic::div_mod::lemma_div_is_ordered(e2 * v, n, e2);
        vstd::arithmetic::div_mod::lemma_div_multiples_vanish(v, e2);
    }
    if e2 == q + 1 {
        assert(n < e2 * v) by (nonlinear_arith)
            requires
                e2 == q + 1,
                n == v * q + r,
                r < v,
        ;
        let t = n / e2;
        assert(e2 * t <= n) by (nonlinear_arith)
            requires
                n == e2 * t + n % e2,
                0 <= n % e2,
        ;
        assert(t < v) by (nonlinear_arith)
            requires
                e2 * t <= n,
                n < e2 * v,
                e2 >= 1,
        ;
    }
}

/// The number of runs of equal quotients x / (p_j e) over
/// 1 <= e <= x / p_j^2: run_count(x / p_j, x / p_j^2).
pub fn count_walker_cells_for_j(x: u64, p_j: u64) -> (cells: u64)
    requires
        p_j >= 1,
        p_j * p_j <= u64::MAX,
        p_j == 1 ==> x < u64::MAX,
    ensures
        cells == run_count(x as int / p_j as int, x as int / (p_j * p_j) as int),
{
    let ghost n = x as int / p_j as int;
    let e_lo: u64 = 1;
    assert(p_j * p_j >= 1) by (nonlinear_arith)
        requires
            p_j >= 1,
    ;
    let e_hi = x / (p_j * p_j);
    proof {
        lemma_div_denominator(x as int, p_j as int, p_j as int);
        assert(e_hi == n / p_j as int);
        lemma_div_is_ordered_by_denominator(n, 1, p_j as int);
        if p_j >= 2 {
            lemma_div_is_ordered_by_denominator(x as int, 2, p_j as int);
        }
    }
    if e_hi < e_lo {
        return 0;
    }
    let mut cells: u64 = 0;
    let mut e = e_lo;
    while e <= e_hi
        invariant
            n == x as int / p_j as int,
            n < u64::MAX,
            p_j >= 1,
            e_hi == n / p_j as int,
            1 <= e_hi <= n,
            1 <= e <= e_hi + 1,
            e <= e_hi ==> run_start(n, e as int),
            cells == run_count(n, e - 1),
            cells <= e - 1,
        decreases e_hi + 1 - e,
    {
        proof {
            lemma_div_denominator(x as int, p_j as int, e as int);
            lemma_fundamental_div_mod(x as int, p_j as int);
            lemma_fundamental_div_mod(n, p_j as int);
            assert(p_j * e <= x) by (nonlinear_arith)
                requires
                    e <= e_hi,
                    e_hi == n / p_j as int,
                    n == p_j * (n / p_j as int) + n % (p_j as int),
                    0 <= n % (p_j as int),
                    n == x as int / p_j as int,
                    x as int == p_j * n + x as int % p_j as int,
                    0 <= x as int % p_j as int,
                    p_j >= 1,
            ;
            lemma_fundamental_div_mod(x as int, p_j as int);
        }
        let v = x / (p_j * e);
        proof {
            lemma_quotient_start(n, e as int);
            lemma_div_denominator(x as int, p_j as int, v as int);
            lemma_div_is_ordered_by_denominator(n, e as int, n);
            assert(p_j * v <= x) by (nonlinear_arith)
                requires
                    v <= n,
                    n == x as int / p_j as int,
                    x as int == p_j * n + x as int % p_j as int,
                    0 <= x as int % p_j as int,
                    p_j >= 1,
            ;
        }
        proof {
            lemma_div_is_ordered_by_denominator(n, 1, v as int);
        }
        let next_e = (x / (p_j * v)) + 1;
        let run_end = if next_e - 1 < e_hi {
            next_e - 1
        } else {
            e_hi
        };
        proof {
            assert(run_end >= e) by {
                lemma_quotient_start(n, e as int);
            }
            // No e' in (e, run_end] opens a run.
            assert forall|k: int| e < k <= run_end implies !#[trigger] run_start(n, k) by {
                lemma_quotient_run(n, e as int, k);
                lemma_quotient_run(n, e as int, k - 1);
            }
            lemma_run_count_flat(n, e as int, run_end as int);
            if run_end < e_hi {
                lemma_quotient_run(n, e as int, run_end + 1);
                lemma_quotient_run(n, e as int, run_end as int);
            }
        }
        cells += 1;
        e = run_end + 1;
    }
    cells
}

/// No run opens in (e, r]: the count stays that of e.
proof fn lemma_run_count_flat(n: int, e: int, r: int)
    requires
        1 <= e <= r,
        forall|k: int| e < k <= r ==> !#[trigger] run_start(n, k),
    ensures
        run_count(n, r) == run_count(n, e),
    decreases r - e,
{
    if r > e {
        assert(!run_start(n, r));
        lemma_run_count_flat(n, e, r - 1);
    }
}

} // verus!
