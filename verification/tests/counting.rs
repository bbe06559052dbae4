use titan_count::ac_term::compute_ac_fused_chunk;
use titan_count::anchors::expected_pi;
use titan_count::arena25::Arena25Engine;
use titan_count::mertens_struct::MertensStructure;
use titan_count::assembly::{compute_t, LehmerCounter};
use titan_count::b_term::compute_b_monotone;
use titan_count::b_term_parallel::sweep_range;
use titan_count::census::count_walker_cells_for_j;
use titan_count::factor_table::CompressedFactorTable;
use titan_count::magic_reciprocal::FastDiv64;
use titan_count::p2_sweep::compute_p2;
use titan_count::p3::compute_p3;
use titan_count::phi::PhiEngine;
use titan_count::pi_table::{generate_primes, PiTable};
use titan_count::roots::{icbrt, iroot4, isqrt};
use titan_count::sampled_index::SampledPrimeIndex;

fn with_sentinel(base: &[u64]) -> Vec<u64> {
    let mut primes = vec![0u64];
    primes.extend_from_slice(base);
    primes
}

/// pi(v) for every v <= n by a plain sieve.
fn sieve_pi(n: usize) -> Vec<u64> {
    let mut is_p = vec![true; n + 1];
    is_p[0] = false;
    if n >= 1 {
        is_p[1] = false;
    }
    let mut i = 2;
    while i * i <= n {
        if is_p[i] {
            let mut j = i * i;
            while j <= n {
                is_p[j] = false;
                j += i;
            }
        }
        i += 1;
    }
    let mut out = Vec::with_capacity(n + 1);
    let mut run = 0u64;
    for v in 0..=n {
        if is_p[v] {
            run += 1;
        }
        out.push(run);
    }
    out
}

/// Number of k in [1, x] divisible by none of the given primes.
fn phi_direct(x: u64, ps: &[u64]) -> u64 {
    (1..=x).filter(|k| ps.iter().all(|&p| k % p != 0)).count() as u64
}

#[test]
fn count_below_31_from_the_small_list() {
    let pi = sieve_pi(30);
    let mut c = LehmerCounter::new();
    for x in 0..=30u64 {
        assert_eq!(c.count(x), pi[x as usize], "x = {}", x);
    }
}

#[test]
fn count_matches_a_sieve() {
    let pi = sieve_pi(20_000);
    let mut c = LehmerCounter::new();
    let mut x = 31u64;
    while x <= 20_000 {
        assert_eq!(c.count(x), pi[x as usize], "x = {}", x);
        x += 37;
    }
    assert_eq!(c.count(20_000), pi[20_000]);
}

#[test]
fn count_powers_of_ten() {
    let expected = [4u64, 25, 168, 1_229, 9_592, 78_498, 664_579];
    let mut c = LehmerCounter::new();
    let mut x = 10u64;
    for &e in expected.iter() {
        assert_eq!(c.count(x), e, "x = {}", x);
        x *= 10;
    }
}

#[test]
fn count_agrees_with_the_anchors() {
    let mut c = LehmerCounter::new();
    assert_eq!(expected_pi(1_000_000), Some(c.count(1_000_000)));
    assert_eq!(expected_pi(10_000_000), Some(c.count(10_000_000)));
    assert_eq!(expected_pi(1_000_000_000_000), Some(37_607_912_018));
    assert_eq!(expected_pi(12_345), None);
    assert_eq!(expected_pi(100_000), None);
}

#[test]
fn count_with_a_at_the_cube_root() {
    let mut c = LehmerCounter::new();
    // a = pi(x^(1/3)): pi(100) = 25 for x = 10^6, pi(3) = 2 for x = 31.
    assert_eq!(c.count_with_a(1_000_000, 25), 78_498);
    assert_eq!(c.count_with_a(31, 2), 11);
    assert_eq!(c.count_with_a(1_000, 4), 168);
    // Below 31 the chosen a plays no part.
    assert_eq!(c.count_with_a(20, 0), 8);
}

#[test]
fn lehmer_terms_add_up_to_pi() {
    let x = 100_000u64;
    let base = generate_primes(isqrt(x) + 100);
    let primes = with_sentinel(&base);
    let a = base.iter().filter(|&&p| p <= iroot4(x)).count();
    let b = base.iter().filter(|&&p| p <= isqrt(x)).count();
    let c = base.iter().filter(|&&p| p <= icbrt(x)).count();
    let table = PiTable::new(x / primes[a + 1] + 30);
    let phi = PhiEngine::new().eval(x, a, &primes, &table) as i128;
    let t = compute_t(a, b) as i128;
    let p2 = compute_p2(x, a, b, &primes, &table) as i128;
    let p3 = compute_p3(x, a, c, &primes, &table) as i128;
    assert_eq!(phi + t - p2 - p3, 9_592);
}

#[test]
fn phi_engine_matches_direct_count() {
    let base = generate_primes(200);
    let primes = with_sentinel(&base);
    let table = PiTable::new(2_000);
    let mut engine = PhiEngine::new();
    assert_eq!(engine.eval(1_000, 3, &primes, &table), 266);
    for &x in &[0u64, 1, 2, 29, 30, 31, 500, 997, 1_000, 4_321] {
        for a in 0..8usize {
            assert_eq!(engine.eval(x, a, &primes, &table), phi_direct(x, &base[..a]), "phi({}, {})", x, a);
        }
    }
}

#[test]
fn compute_t_closed_form() {
    assert_eq!(compute_t(3, 10), 44);
    assert_eq!(compute_t(2, 2), 1);
    assert_eq!(compute_t(5, 4), 0);
    // The sum of i - 1 over a <= i <= b.
    let (a, b) = (7usize, 40usize);
    let direct: u128 = (a..=b).map(|i| (i - 1) as u128).sum();
    assert_eq!(compute_t(a, b), direct);
}

#[test]
fn p2_and_p3_match_their_sums() {
    let x = 1_000_000u64;
    let base = generate_primes(2_000);
    let primes = with_sentinel(&base);
    let pi = sieve_pi(40_000);
    let table = PiTable::new(40_000);
    let (a, b, c) = (25usize, 168usize, 25usize);
    let direct_p2: u128 = ((a + 1)..=b).map(|i| pi[(x / primes[i]) as usize] as u128).sum();
    assert_eq!(compute_p2(x, a, b, &primes, &table), direct_p2);
    assert_eq!(compute_p2(x, b, b, &primes, &table), 0);
    // With a = 10 the P3 terms are those of p_11 ..= p_25.
    let a3 = 10usize;
    let mut direct_p3: u128 = 0;
    for i in (a3 + 1)..=c {
        let xi = x / primes[i];
        let bi = pi[isqrt(xi) as usize] as usize;
        for j in i..=bi {
            direct_p3 += pi[(xi / primes[j]) as usize] as u128 - (j as u128 - 1);
        }
    }
    assert_eq!(compute_p3(x, a3, c, &primes, &table), direct_p3);
    assert_eq!(compute_p3(x, c, c, &primes, &table), 0);
}

#[test]
fn walker_cells_count_quotient_runs() {
    for &(x, p) in &[(1_000_000u64, 2u64), (1_000_000, 7), (123_456_789, 31), (10_000, 101), (50, 3)] {
        let hi = x / (p * p);
        let n = x / p;
        let mut runs = 0u64;
        let mut prev = u64::MAX;
        for e in 1..=hi {
            let v = n / e;
            if v != prev {
                runs += 1;
                prev = v;
            }
        }
        assert_eq!(count_walker_cells_for_j(x, p), runs, "x = {}, p = {}", x, p);
    }
}

#[test]
fn factor_table_gives_greatest_prime_factors() {
    let t = CompressedFactorTable::new(5_000);
    assert_eq!(t.gpf(1), 1);
    assert_eq!(t.gpf(2), 2);
    assert_eq!(t.gpf(4_096), 2);
    assert_eq!(t.gpf(4_997), 263);
    for m in 2..=5_000u64 {
        let mut n = m;
        let mut g = 1;
        let mut d = 2;
        while d * d <= n {
            while n % d == 0 {
                g = d;
                n /= d;
            }
            d += 1;
        }
        if n > 1 {
            g = n;
        }
        assert_eq!(t.gpf(m), g, "m = {}", m);
    }
}

/// mu(m) for m <= n.
fn mobius(n: usize) -> Vec<i8> {
    let mut mu = vec![1i8; n + 1];
    mu[0] = 0;
    for m in 2..=n {
        let mut k = m;
        let mut sign = 1i8;
        let mut d = 2;
        let mut square = false;
        while d * d <= k {
            if k % d == 0 {
                k /= d;
                if k % d == 0 {
                    square = true;
                }
                sign = -sign;
            }
            d += 1;
        }
        if k > 1 {
            sign = -sign;
        }
        mu[m] = if square { 0 } else { sign };
    }
    mu
}

#[test]
fn fused_chunk_matches_direct_leaves() {
    let (x, y, z) = (100_000u64, 100u64, 200u64);
    let base = generate_primes(2_000);
    let primes = with_sentinel(&base);
    let table = PiTable::new(1_000);
    let idx = SampledPrimeIndex::build(&base);
    let divs: Vec<FastDiv64> = primes.iter().map(|&p| FastDiv64::new(p.max(2), x)).collect();
    let ft = CompressedFactorTable::new(y as usize);
    let mu = mobius(y as usize);
    let pi = sieve_pi(1_000);
    let mut expected = 0i64;
    for m in 1..=y {
        if mu[m as usize] == 0 {
            continue;
        }
        let xm = x / m;
        let lo = (xm / z).max(ft.gpf(m));
        let hi = isqrt(xm);
        let mut leaves = 0i64;
        for (k, &p) in base.iter().enumerate() {
            if p > lo && p <= hi {
                leaves += pi[(xm / p) as usize] as i64 - (k as i64 + 1) + 1;
            }
        }
        expected += mu[m as usize] as i64 * leaves;
    }
    let whole = compute_ac_fused_chunk(1, y + 1, x, z, &primes, &divs, &table, &idx, &base, &ft, &mu);
    assert_eq!(whole, expected);
    assert!(whole != 0);
    let left = compute_ac_fused_chunk(1, 51, x, z, &primes, &divs, &table, &idx, &base, &ft, &mu);
    let right = compute_ac_fused_chunk(51, y + 1, x, z, &primes, &divs, &table, &idx, &base, &ft, &mu);
    assert_eq!(left + right, whole);
}

#[test]
fn sweep_shares_add_up_to_b() {
    let x = 10_000_000u64;
    let x_sqrt = isqrt(x);
    let y = icbrt(x);
    let base = generate_primes(x_sqrt + 100);
    let primes = with_sentinel(&base);
    let table = PiTable::new(x_sqrt + 30);
    let idx = SampledPrimeIndex::build(&base);
    let expected = compute_b_monotone(x, y, &primes, &table);
    let p_start = idx.pi(&base, y) as usize + 1;
    let p_end = idx.pi(&base, x_sqrt) as usize + 1;
    let split = p_start + (p_end - p_start) * 38 / 100;
    let low = sweep_range(x, p_start, split, &primes, &table, &idx, &base);
    let high = sweep_range(x, split, p_end, &primes, &table, &idx, &base);
    assert_eq!(low + high, expected);
    assert_eq!(sweep_range(x, p_start, p_end, &primes, &table, &idx, &base), expected);
    assert_eq!(sweep_range(x, p_end, p_end, &primes, &table, &idx, &base), 0);
    // One leaf by hand: pi(x / p) - i + 1 at i = p_start.
    let p = primes[p_start];
    let v = x / p;
    let pi_v = if v <= x_sqrt + 30 { table.pi(v) } else { idx.pi(&base, v) };
    assert_eq!(
        sweep_range(x, p_start, p_start + 1, &primes, &table, &idx, &base),
        pi_v as i64 - p_start as i64 + 1
    );
}

#[test]
fn arena_range_matches_direct_leaves() {
    let x = 10_000u64;
    let base = generate_primes(500);
    let primes = with_sentinel(&base);
    let table = PiTable::new(500);
    let mu = mobius(1_000);
    let mertens = MertensStructure::from_mu(&mu);
    assert_eq!(mertens.mertens(1), 1);
    assert_eq!(mertens.mertens(10), -1);
    let pi = sieve_pi(500);
    let direct = |lo: usize, hi: usize| -> i64 {
        let mut sum = 0i64;
        for j in lo..=hi {
            let p = primes[j];
            let e_hi = x / (p * p);
            let mut e = p;
            while e <= e_hi {
                let v = x / (p * e);
                sum += mu[e as usize] as i64 * (pi[v as usize] as i64 - j as i64 + 1);
                e += 1;
            }
        }
        sum
    };
    let whole = Arena25Engine::evaluate_special_leaves_range(x, 3, 8, &primes, &table, &mertens);
    assert_eq!(whole, direct(3, 8));
    let low = Arena25Engine::evaluate_special_leaves_range(x, 3, 5, &primes, &table, &mertens);
    let high = Arena25Engine::evaluate_special_leaves_range(x, 6, 8, &primes, &table, &mertens);
    assert_eq!(low + high, whole);
    assert_eq!(Arena25Engine::evaluate_special_leaves_range(x, 8, 7, &primes, &table, &mertens), 0);
}

#[test]
fn phi_follows_legendre_recursion() {
    let base = generate_primes(200);
    let primes = with_sentinel(&base);
    let table = PiTable::new(2_000);
    let mut engine = PhiEngine::new();
    for &x in &[1_000u64, 4_321, 9_999, 30_030] {
        for a in 1..10usize {
            let lhs = engine.eval(x, a, &primes, &table);
            let rhs = engine.eval(x, a - 1, &primes, &table) - engine.eval(x / primes[a], a - 1, &primes, &table);
            assert_eq!(lhs, rhs, "x = {}, a = {}", x, a);
        }
    }
    // With every prime up to sqrt(x) taken out only 1 and the larger primes stay.
    let x = 10_000u64;
    let pi = sieve_pi(10_000);
    let b = pi[isqrt(x) as usize] as usize;
    assert_eq!(engine.eval(x, b, &primes, &table), 1 + pi[x as usize] - b as u64);
}

#[test]
fn compute_pi_exact_counts() {
    assert_eq!(titan_count::assembly::compute_pi_exact(1_000_000, 8), 78_498);
    assert_eq!(titan_count::assembly::compute_pi_exact(30, 1), 10);
    assert_eq!(titan_count::assembly::compute_pi_exact(0, 1), 0);
}
