use titan_count::ac_parallel_v2::{
    compute_a_formula, compute_a_single_b, compute_a_single_b_fast, compute_ac_native, compute_c1_native,
    compute_c2_clustered, compute_c2_formula, compute_c2_single_b, compute_c2_single_b_fast,
};
use titan_count::a_window::a_window_leaves;
use titan_count::ac_parallel_v2::SEGMENT_Q;
use titan_count::magic_reciprocal::{FastDiv64, FastDivTable};
use titan_count::pi_table::{generate_primes, PiTable};
use titan_count::roots::{icbrt, isqrt};
use titan_count::sigma_l1::get_x_star_gourdon;

const X: u64 = 1_000_000_000;
const Y: u64 = 2_000;
const Z: u64 = 5_000;

fn with_sentinel(base: &[u64]) -> Vec<u64> {
    let mut primes = vec![0u64];
    primes.extend_from_slice(base);
    primes
}

/// A leaves straight from their definition.
fn direct_a(x: u64, y: u64, s: &[u64], t: &PiTable) -> i64 {
    let x_star = get_x_star_gourdon(x, y);
    let cbrt = icbrt(x);
    let mut sum = 0i64;
    for &p in s {
        if p <= x_star || p > cbrt {
            continue;
        }
        let xp = x / p;
        for &q in s {
            if q > p && q <= isqrt(xp) {
                let w = if q <= xp / y { 1 } else { 2 };
                sum += w * t.pi(xp / q) as i64;
            }
        }
    }
    sum
}

/// C2 leaves straight from their definition.
fn direct_c2(x: u64, y: u64, z: u64, s: &[u64], t: &PiTable) -> i64 {
    let x_star = get_x_star_gourdon(x, y);
    let sqrt_x = isqrt(x);
    let mut sum = 0i64;
    for (b, &p) in s.iter().enumerate() {
        if p <= isqrt(z) || p > x_star {
            continue;
        }
        let xp = x / p;
        let min_q = p.max(xp / p / p).max(sqrt_x / p);
        let max_q = (xp / p).min(y);
        for &q in s {
            if q > min_q && q <= max_q {
                sum += t.pi(xp / q) as i64 - (b as i64 + 1) + 2;
            }
        }
    }
    sum
}

/// mu(m) with every prime factor of m in (lo, hi], else 0.
fn mu_with_factors_in(m: u64, lo: u64, hi: u64, s: &[u64]) -> i64 {
    let mut n = m;
    let mut mu = 1i64;
    for &q in s {
        if q * q > n {
            break;
        }
        if n % q == 0 {
            n /= q;
            if n % q == 0 || q <= lo || q > hi {
                return 0;
            }
            mu = -mu;
        }
    }
    if n > 1 {
        if n <= lo || n > hi {
            return 0;
        }
        mu = -mu;
    }
    mu
}

/// C1 leaves straight from their definition.
fn direct_c1(x: u64, y: u64, z: u64, k: usize, s: &[u64], t: &PiTable) -> i64 {
    let b_start = k.max(t.pi(icbrt(x / z)) as usize) + 1;
    let b_end = t.pi(isqrt(z)) as usize;
    let mut total = 0i64;
    for j in (b_start - 1)..b_end.min(s.len()) {
        let p = s[j];
        let xp = x / p;
        let max_m = (xp / p).min(z);
        let min_m = (xp / p / p).max(z / p).min(max_m);
        for m in (min_m + 1)..=max_m {
            let mu = mu_with_factors_in(m, p, y, s);
            if mu != 0 {
                total += mu * (t.pi(xp / m) as i64 - (j as i64 + 1) + 2);
            }
        }
    }
    total
}

#[test]
fn x_star_follows_its_definition() {
    // max(iroot4(1e9) = 177, ceil(1e9 / 2000^2) = 250) = 250, below y and sqrt(x / y).
    assert_eq!(get_x_star_gourdon(X, Y), 250);
    // ceil(1e12 / 1e8) = 10000 is cut to sqrt(1e12 / 1e4) = 10000 and y = 10000.
    assert_eq!(get_x_star_gourdon(1_000_000_000_000, 10_000), 10_000);
    // y = 0 counts as 1; the result is at least 1.
    assert_eq!(get_x_star_gourdon(100, 0), 1);
    assert_eq!(get_x_star_gourdon(0, 5), 1);
}

#[test]
fn a_formula_matches_its_definition() {
    let base = generate_primes(40_000);
    let primes = with_sentinel(&base);
    let table = PiTable::new(200_000);
    let a = compute_a_formula(X, Y, &primes, &table);
    assert_eq!(a, direct_a(X, Y, &base, &table));
    assert!(a > 0);
    // Without the sentinel the same primes give the same A.
    assert_eq!(compute_a_formula(X, Y, &base, &table), a);
}

#[test]
fn a_single_b_division_forms_agree() {
    let base = generate_primes(40_000);
    let table = PiTable::new(200_000);
    let rec: Vec<FastDiv64> = base.iter().map(|&p| FastDiv64::new(p, X)).collect();
    let mut total = 0i64;
    // Primes 251..997 (indices 53..168): every quotient stays within the table.
    for b in 53..168 {
        let plain = compute_a_single_b(X, Y, &base, b, &table);
        assert_eq!(compute_a_single_b_fast(X, Y, &base, &rec, b, &table), plain);
        total += plain;
    }
    assert_eq!(total, direct_a(X, Y, &base, &table));
    // p = 997: no prime lies in (997, sqrt(1e9 / 997)] = (997, 1001].
    assert_eq!(compute_a_single_b(X, Y, &base, 167, &table), 0);
}

#[test]
fn c2_scalar_and_clustered_agree() {
    let base = generate_primes(40_000);
    let primes = with_sentinel(&base);
    let table = PiTable::new(200_000);
    let scalar = compute_c2_formula(X, Y, Z, &primes, &table);
    let clustered = compute_c2_clustered(X, Y, Z, &primes, &table);
    assert_eq!(scalar, direct_c2(X, Y, Z, &base, &table));
    assert_eq!(clustered, scalar);
    assert!(scalar > 0);
    // y < 2 or z < 2: no clustered C2 leaves.
    assert_eq!(compute_c2_clustered(X, 1, Z, &primes, &table), 0);
    assert_eq!(compute_c2_clustered(X, Y, 1, &primes, &table), 0);
}

#[test]
fn c2_single_b_forms_agree_per_b() {
    let base = generate_primes(40_000);
    let table = PiTable::new(200_000);
    let rec: Vec<FastDiv64> = base.iter().map(|&p| FastDiv64::new(p, X)).collect();
    let sqrt_x = isqrt(X);
    for b in 19..53 {
        let clustered = compute_c2_single_b(X, Y, &base, b, &table, sqrt_x);
        assert_eq!(compute_c2_single_b_fast(X, Y, &base, &rec, b, &table, sqrt_x), clustered, "b = {}", b);
    }
}

#[test]
fn c1_matches_its_definition() {
    let base = generate_primes(40_000);
    let primes = with_sentinel(&base);
    let table = PiTable::new(200_000);
    for &k in &[0usize, 8, 17, 30] {
        let c1 = compute_c1_native(X, Y, Z, k, &primes, &table);
        assert_eq!(c1, direct_c1(X, Y, Z, k, &base, &table), "k = {}", k);
    }
    assert_eq!(compute_c1_native(X, 1, Z, 8, &primes, &table), 0);
}

#[test]
fn ac_native_is_a_minus_c1_plus_c2() {
    let base = generate_primes(40_000);
    let primes = with_sentinel(&base);
    let table = PiTable::new(200_000);
    let a = compute_a_formula(X, Y, &primes, &table);
    let c1 = compute_c1_native(X, Y, Z, 8, &primes, &table);
    let c2 = compute_c2_clustered(X, Y, Z, &primes, &table);
    assert_eq!(compute_ac_native(X, Y, Z, 8, &primes, &table), a - c1 + c2);
}

#[test]
fn a_windows_add_up_to_a() {
    let (x, y) = (10_000_000_000u64, 5_000u64);
    let base = generate_primes(y);
    let primes = with_sentinel(&base);
    let x_star = get_x_star_gourdon(x, y);
    let qmax = x / (x_star * x_star);
    let table = PiTable::new(x_star * x_star + 30);
    let rec = FastDivTable::build(&base, x);
    let sieve_end = base.iter().filter(|&&p| p <= isqrt(qmax) + 1).count();
    let mut total = 0i64;
    let mut windows = 0;
    let mut low = 1u64;
    while low < qmax {
        let high = (low + SEGMENT_Q).min(qmax + 1);
        total += a_window_leaves(x, y, low, high, &base, &base[..sieve_end], rec.as_slice(), &table);
        windows += 1;
        low += SEGMENT_Q;
    }
    assert!(windows > 1);
    let scalar = compute_a_formula(x, y, &primes, &table);
    assert!(scalar > 0);
    assert_eq!(total, scalar);
    // A window holding no quotient of the A range contributes nothing.
    assert_eq!(a_window_leaves(x, y, qmax + 1, qmax + 3, &base, &base[..sieve_end], rec.as_slice(), &table), 0);
}

#[test]
fn test_a_formula_e13() {
    let x = 10_000_000_000_000u64;
    let y = 103_411u64;
    let max_v = x / y;
    let base_primes = generate_primes(max_v.min(10_000_000));
    let primes = with_sentinel(&base_primes);
    let pi_table = PiTable::new(max_v);
    let a_val = compute_a_formula(x, y, &primes, &pi_table);
    println!("Computed A(1e13) = {}", a_val);
    assert!(a_val > 0, "A(1e13) must be positive");
    let z = 170_628u64;
    let c2_val = compute_c2_formula(x, y, z, &primes, &pi_table);
    println!("Computed C2(1e13) = {}", c2_val);
}

#[test]
fn test_c2_clustered_parity() {
    for &x in &[1_000_000_000u64, 100_000_000_000, 1_000_000_000_000] {
        // y = 2 x^(1/3) and z = 4 y.
        let y = 2 * icbrt(x);
        let z = 4 * y;
        let base = generate_primes(y);
        let primes = with_sentinel(&base);
        let x_star = get_x_star_gourdon(x, y);
        let pi_table = PiTable::new((x_star * x_star).max(x / z).max(z) + 30);
        let scalar = compute_c2_formula(x, y, z, &primes, &pi_table);
        let clustered = compute_c2_clustered(x, y, z, &primes, &pi_table);
        assert!(scalar > 0, "C2 scalar must be positive at x = {}", x);
        assert_eq!(clustered, scalar, "C2 clustered diverged from scalar at x = {}", x);
    }
}

#[test]
fn test_fastdiv_exactness_ac_domain() {
    let x = 1_000_000_000_000u64;
    // The primes up to y = 2 x^(1/3).
    let y = 2 * icbrt(x);
    let base = generate_primes(y);
    let table = FastDivTable::build(&base, x);
    let rec = table.as_slice();
    assert_eq!(rec.len(), base.len());
    let mut state = 0x9E3779B97F4A7C15u64;
    let mut next_rand = || {
        state ^= state << 13;
        state ^= state >> 7;
        state ^= state << 17;
        state
    };
    for _ in 0..20_000 {
        let qi = (next_rand() as usize) % base.len();
        let q = base[qi];
        let n = match next_rand() % 4 {
            0 => next_rand() % (x + 1),
            1 => next_rand() % y,
            2 => x / q.saturating_sub(next_rand() % 1000).max(1),
            _ => x - next_rand() % 1_000_000,
        };
        assert_eq!(rec[qi].div(n.min(x)), n.min(x) / q, "n = {}, q = {}", n, q);
    }
    for (qi, &q) in base.iter().enumerate().step_by(977) {
        for &n in &[0u64, 1, q - 1, q, q + 1, x - 1, x] {
            assert_eq!(rec[qi].div(n), n / q, "edge n = {}, q = {}", n, q);
        }
    }
}
