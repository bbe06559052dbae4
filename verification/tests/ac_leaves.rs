use titan_count::ac_clustered::compute_ac_clustered_m;
use titan_count::ac_hyperbola_ilp4::process_ac_leaves_ilp4;
use titan_count::ac_monotone::{compute_ac_monotone_m, PiTableOps};
use titan_count::ac_parallel::compute_ac_chunk;
use titan_count::ac_parallel_v2::compute_ac_range_ilp4;
use titan_count::magic_reciprocal::FastDiv64;
use titan_count::pi_table::generate_primes;
use titan_count::roots::isqrt;
use titan_count::segmented_pi::{CompactPiTable, SegmentedPiTable};

/// Leaves p_min < p <= p_max one at a time, with pi from `table`.
fn direct_leaves<T: PiTableOps>(x_div_m: u64, p_min: u64, p_max: u64, primes: &[u64], table: &T) -> i64 {
    let mut sum = 0i64;
    for (idx, &p) in primes.iter().enumerate() {
        if p > p_min && p <= p_max {
            sum += table.pi(x_div_m / p) as i64 - (idx as i64 + 1) + 1;
        }
    }
    sum
}

/// Mobius function on [0, n] (mu(0) = 0).
fn mobius(n: usize) -> Vec<i8> {
    let mut mu = vec![1i8; n + 1];
    mu[0] = 0;
    let mut is_comp = vec![false; n + 1];
    for p in 2..=n {
        if !is_comp[p] {
            let mut k = p;
            while k <= n {
                if k > p {
                    is_comp[k] = true;
                }
                mu[k] = -mu[k];
                k += p;
            }
            let pp = p * p;
            let mut k = pp;
            while k <= n {
                mu[k] = 0;
                k += pp;
            }
        }
    }
    mu
}

#[test]
fn test_ilp4_basic() {
    let primes = [2, 3, 5, 7, 11, 13, 17, 19];
    let table = SegmentedPiTable::new(0, 100, &primes);
    let mut acc = 0i64;
    let recips = vec![
        FastDiv64::new(2, 100),
        FastDiv64::new(3, 100),
        FastDiv64::new(5, 100),
        FastDiv64::new(7, 100),
    ];
    let next_idx = process_ac_leaves_ilp4(100, 0, 4, &recips, &table, &mut acc);
    assert_eq!(next_idx, 4);
}

#[test]
fn ilp4_sums_whole_blocks_only() {
    let primes = [2u64, 3, 5, 7, 11, 13, 17, 19];
    let table = SegmentedPiTable::new(0, 100, &primes);
    let recips: Vec<FastDiv64> = primes.iter().map(|&p| FastDiv64::new(p, 100)).collect();
    let mut acc = 5i64;
    let next = process_ac_leaves_ilp4(100, 1, 7, &recips, &table, &mut acc);
    assert_eq!(next, 5);
    // The table knows the eight listed primes only. Leaves at indices 1..5:
    // pi(33)-1, pi(20)-2, pi(14)-3, pi(9)-4 = 7, 6, 3, 0.
    assert_eq!(acc, 5 + 7 + 6 + 3 + 0);
}

#[test]
fn monotone_matches_direct_leaves() {
    let primes = generate_primes(60_000);
    let table = CompactPiTable::new(0, 2_000_000, &primes);
    let recips: Vec<FastDiv64> = primes.iter().map(|&p| FastDiv64::new(p, 100_000_000)).collect();
    for &x_div_m in &[1_000_000u64, 5_000_000, 10_000_000, 20_000_000] {
        let p_max = isqrt(x_div_m);
        let got = compute_ac_monotone_m(x_div_m, 10, p_max, &primes, &recips, &table);
        assert_eq!(got, direct_leaves(x_div_m, 10, p_max, &primes, &table), "x_div_m = {}", x_div_m);
    }
    // Primes far above sqrt(x_div_m): the grouped descent does the work.
    let got = compute_ac_monotone_m(100_000, 10, 50_000, &primes, &recips, &table);
    assert_eq!(got, direct_leaves(100_000, 10, 50_000, &primes, &table));
    // Fewer than 64 primes: one by one.
    let got = compute_ac_monotone_m(100_000, 100, 200, &primes, &recips, &table);
    assert_eq!(got, direct_leaves(100_000, 100, 200, &primes, &table));
    assert_eq!(compute_ac_monotone_m(100_000, 200, 200, &primes, &recips, &table), 0);
}

#[test]
fn clustered_matches_direct_leaves() {
    let primes = generate_primes(20_000);
    let table = SegmentedPiTable::new(0, 2_000_000, &primes);
    let recips: Vec<FastDiv64> = primes.iter().map(|&p| FastDiv64::new(p, 100_000_000)).collect();
    for &x_div_m in &[1_000u64, 100_000, 1_000_000, 5_000_000, 20_000_000] {
        let p_max = isqrt(x_div_m);
        let got = compute_ac_clustered_m(x_div_m, 10, p_max, &primes, &recips, &table);
        assert_eq!(got, direct_leaves(x_div_m, 10, p_max, &primes, &table), "x_div_m = {}", x_div_m);
    }
    // x_div_m = 1 << 20: 2 cbrt(x) is 202, below sqrt(x) = 1024.
    let got = compute_ac_clustered_m(1 << 20, 0, 1024, &primes, &recips, &table);
    assert_eq!(got, direct_leaves(1 << 20, 0, 1024, &primes, &table));
}

#[test]
fn ac_chunk_matches_direct_sum() {
    let x = 10_000_000u64;
    let z = 1_000u64;
    let y = 300u64;
    let primes = generate_primes(4_000);
    let table = SegmentedPiTable::new(0, 100_000, &primes);
    let recips: Vec<FastDiv64> = primes.iter().map(|&p| FastDiv64::new(p, x)).collect();
    let mu = mobius(y as usize);
    let mut expected = 0i64;
    for m in 1..=y {
        let mu_m = mu[m as usize] as i64;
        if mu_m == 0 {
            continue;
        }
        let x_div_m = x / m;
        let p_min = x / (m * z);
        let p_max = isqrt(x_div_m);
        if p_min < p_max {
            expected += mu_m * direct_leaves(x_div_m, p_min, p_max, &primes, &table);
        }
    }
    assert_eq!(compute_ac_chunk(1, y + 1, x, z, &mu, &primes, &recips, &table), expected);
    assert_eq!(compute_ac_range_ilp4(1, y + 1, x, z, &mu, &primes, &recips, &table), expected);
    // Split chunks add up; m past the Mobius table counts as 0.
    let a = compute_ac_chunk(1, 150, x, z, &mu, &primes, &recips, &table);
    let b = compute_ac_chunk(150, y + 1, x, z, &mu, &primes, &recips, &table);
    assert_eq!(a + b, expected);
    assert_eq!(compute_ac_chunk(y + 1, y + 50, x, z, &mu, &primes, &recips, &table), 0);
}

#[test]
fn test_clustered_parity_against_oracle() {
    let primes = generate_primes(200_000);
    let max_prime = *primes.last().unwrap();
    let table = SegmentedPiTable::new(0, 500_000, &primes);
    let max_x = 10_000_000_000u64;
    let reciprocals: Vec<FastDiv64> = primes.iter().map(|&p| FastDiv64::new(p, max_x)).collect();
    for &x_div_m in &[1_000_000u64, 5_000_000, 10_000_000, 50_000_000, 100_000_000, 500_000_000] {
        let p_min_bound = 10u64;
        let p_max = isqrt(x_div_m).min(max_prime);
        let p_start_idx = primes.partition_point(|&p| p <= p_min_bound);
        let p_end_idx = primes.partition_point(|&p| p <= p_max);
        let mut expected_sum: i64 = 0;
        for idx in p_start_idx..p_end_idx {
            let v = x_div_m / primes[idx];
            let pi_v = table.pi(v);
            let pi_p = (idx + 1) as u64;
            expected_sum += (pi_v as i64) - (pi_p as i64) + 1;
        }
        let clustered_sum = compute_ac_clustered_m(x_div_m, p_min_bound, p_max, &primes, &reciprocals, &table);
        assert_eq!(
            clustered_sum, expected_sum,
            "Mismatch at x_div_m = {}: clustered = {}, expected = {}",
            x_div_m, clustered_sum, expected_sum
        );
    }
}

#[test]
fn test_monotone_parity_against_oracle() {
    let primes = generate_primes(200_000);
    let max_prime = *primes.last().unwrap();
    let table = CompactPiTable::new(0, 500_000, &primes);
    let max_x = 10_000_000_000u64;
    let reciprocals: Vec<FastDiv64> = primes.iter().map(|&p| FastDiv64::new(p, max_x)).collect();
    for &x_div_m in &[1_000_000u64, 5_000_000, 10_000_000, 50_000_000, 100_000_000, 500_000_000] {
        let p_min_bound = 10u64;
        let p_max = isqrt(x_div_m).min(max_prime);
        let p_start_idx = primes.partition_point(|&p| p <= p_min_bound);
        let p_end_idx = primes.partition_point(|&p| p <= p_max);
        let mut expected_sum: i64 = 0;
        for idx in p_start_idx..p_end_idx {
            let v = x_div_m / primes[idx];
            let pi_v = table.pi(v);
            let pi_p = (idx + 1) as u64;
            expected_sum += (pi_v as i64) - (pi_p as i64) + 1;
        }
        let monotone_sum = compute_ac_monotone_m(x_div_m, p_min_bound, p_max, &primes, &reciprocals, &table);
        assert_eq!(
            monotone_sum, expected_sum,
            "Mismatch at x_div_m = {}: monotone = {}, expected = {}",
            x_div_m, monotone_sum, expected_sum
        );
    }
}

#[test]
fn window_tables_answer_above_their_top_with_the_count_there() {
    let primes = generate_primes(1_000);
    let seg = SegmentedPiTable::new(100, 500, &primes);
    let compact = CompactPiTable::new(100, 500, &primes);
    assert_eq!(seg.pi(100), 25);
    assert_eq!(seg.pi(500), 95);
    assert_eq!(seg.pi(997), 95);
    assert_eq!(compact.pi(500), 95);
    assert_eq!(compact.pi(10_000), 95);
    assert_eq!(compact.pi(101), 26);
}
