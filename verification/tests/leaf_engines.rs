use titan_count::ac_parallel_v2::{QuotientWindow, SEGMENT_Q};
use titan_count::ac_hyperbola::{evaluate_ac_hyperbola_m, evaluate_ac_hyperbola_m_sampled};
use titan_count::ac_hyperbola_picache::evaluate_ac_hyperbola_chained;
use titan_count::assembly::compute_t;
use titan_count::b_term::{
    compute_b_decoupled, compute_b_monotone as b_term_monotone, compute_b_streaming, compute_b_term, compute_b_term_mt,
    StreamingReciprocalBuffer, RECIPROCAL_BLOCK_SIZE,
};
use titan_count::b_monotone::compute_b_monotone;
use titan_count::b_walker::{binary_search_stream, compute_b_monotone_walker, compute_b_monotone_walker_delta};
use titan_count::delta_prime_stream::DeltaPrimeStream;
use titan_count::magic_reciprocal::FastDiv64;
use titan_count::pi_table::{generate_primes, PiTable};
use titan_count::picache::PiCache;
use titan_count::roots::{icbrt, iroot4, isqrt};
use titan_count::sampled_index::SampledPrimeIndex;

fn with_sentinel(base: &[u64]) -> Vec<u64> {
    let mut primes = vec![0u64];
    primes.extend_from_slice(base);
    primes
}

/// pi(v) by trial division, independent of the library.
fn naive_pi(v: u64) -> u64 {
    let mut c = 0;
    for n in 2..=v {
        let mut prime = true;
        let mut d = 2;
        while d * d <= n {
            if n % d == 0 {
                prime = false;
                break;
            }
            d += 1;
        }
        if prime {
            c += 1;
        }
    }
    c
}

#[test]
fn test_ac_hyperbola_exactness() {
    let x = 10_000_000u64;
    let x_sqrt = isqrt(x);
    let base_primes = generate_primes(x_sqrt + 100);
    let primes = with_sentinel(&base_primes);
    let pi_table = PiTable::new(x_sqrt + 30);

    for m in [100u64, 200, 300, 500, 700] {
        let x_div_m = x / m;
        let p_min = 10;
        let p_max = isqrt(x_div_m);
        if p_min >= p_max {
            continue;
        }

        // Naive reference
        let mut expected = 0i64;
        let p_start_idx = primes[1..].partition_point(|&p| p <= p_min) + 1;
        let p_end_idx = primes[1..].partition_point(|&p| p <= p_max) + 1;
        for i in p_start_idx..p_end_idx {
            let p = primes[i];
            let v = x_div_m / p;
            let pi_v = if v <= pi_table.max_y {
                pi_table.pi(v) as i64
            } else {
                primes[1..].partition_point(|&pr| pr <= v) as i64
            };
            let pi_p = i as i64;
            expected += pi_v - pi_p + 1;
        }

        let actual = evaluate_ac_hyperbola_m(x_div_m, p_min, p_max, &primes, &pi_table);
        assert_eq!(actual, expected, "Hyperbola mismatch for m = {}: expected {}, got {}", m, expected, actual);
    }
}

#[test]
fn hyperbola_small_exact_value() {
    // primes in (2, 10]: 3, 5, 7; x_div_m = 100:
    // (pi(33) - 2 + 1) + (pi(20) - 3 + 1) + (pi(14) - 4 + 1) = 10 + 6 + 3 = 19
    let primes = with_sentinel(&generate_primes(100));
    let pi_table = PiTable::new(100);
    assert_eq!(evaluate_ac_hyperbola_m(100, 2, 10, &primes, &pi_table), 19);
    let idx = SampledPrimeIndex::build(&primes[1..]);
    assert_eq!(evaluate_ac_hyperbola_m_sampled(100, 2, 10, &primes, &pi_table, &idx), 19);
    // empty range
    assert_eq!(evaluate_ac_hyperbola_m(100, 10, 10, &primes, &pi_table), 0);
}

#[test]
fn test_chained_hyperbola_exactness() {
    let x = 10_000_000u64;
    let m = 30u64;
    let x_div_m = x / m;
    let p_min = 20u64;
    let p_max = 500u64;

    let base_primes = generate_primes(100_000);
    let pi_table = PiTable::new(10_000);
    let picache = PiCache::build(x_div_m, &base_primes);

    let expected = evaluate_ac_hyperbola_m(x_div_m, p_min, p_max, &base_primes, &pi_table);
    let actual = evaluate_ac_hyperbola_chained(x_div_m, p_min, p_max, &pi_table, &picache);

    assert_eq!(actual, expected, "Chained hyperbola mismatch: got {}, expected {}", actual, expected);
}

#[test]
fn chained_hyperbola_small_exact_value() {
    let base = generate_primes(100);
    let pi_table = PiTable::new(10);
    let picache = PiCache::build(100, &base);
    assert_eq!(evaluate_ac_hyperbola_chained(100, 2, 10, &pi_table, &picache), 19);
}

#[test]
fn test_b_monotone_exactness() {
    let x = 1_000_000u64;
    let x_sqrt = isqrt(x);
    let y = icbrt(x);

    let primes = with_sentinel(&generate_primes(x_sqrt + 100));
    let pi_table = PiTable::new(x_sqrt + 30);
    let b_val = compute_b_monotone(x, y, &primes, &pi_table);
    assert!(b_val > 0);
}

#[test]
fn test_b_monotone_sbrb() {
    let x = 100_000u64;
    let y = 100u64;
    let x_sqrt = isqrt(x);

    let primes = with_sentinel(&generate_primes(x_sqrt + 100));
    let pi_table = PiTable::new(x_sqrt + 30);
    let b_mon = b_term_monotone(x, y, &primes, &pi_table);
    assert!(b_mon > 0);
}

#[test]
fn b_monotone_matches_definition() {
    // B(x, y) = sum over primes y < p <= sqrt(x) of pi(x/p) - pi(p) + 1
    let x = 100_000u64;
    let y = 20u64;
    let primes = with_sentinel(&generate_primes(x / (y + 1) + 10));
    let pi_table = PiTable::new(x);
    let mut expected = 0i64;
    for p in 2..=isqrt(x) {
        if p > y && naive_pi(p) > naive_pi(p - 1) {
            expected += naive_pi(x / p) as i64 - naive_pi(p) as i64 + 1;
        }
    }
    assert_eq!(compute_b_monotone(x, y, &primes, &pi_table), expected);
    assert_eq!(compute_b_monotone(x, isqrt(x), &primes, &pi_table), 0);
}

#[test]
fn test_b_decoupled_ground_truth() {
    let x = 10_000u64;
    let y = 20u64;
    let max_prime = x / (y + 1) + 100;
    let primes = generate_primes(max_prime);
    let recips: Vec<FastDiv64> = primes.iter().map(|&p| FastDiv64::new(p, x)).collect();

    let b_dec = compute_b_decoupled(x, y, &primes, &recips);
    assert!(b_dec > 0);
}

#[test]
fn b_decoupled_matches_b_monotone() {
    let x = 10_000u64;
    let y = 20u64;
    let primes = generate_primes(x / (y + 1) + 100);
    let recips: Vec<FastDiv64> = primes.iter().map(|&p| FastDiv64::new(p, x)).collect();
    let with0 = with_sentinel(&primes);
    let pi_table = PiTable::new(x / (y + 1) + 50);
    assert_eq!(compute_b_decoupled(x, y, &primes, &recips), compute_b_monotone(x, y, &with0, &pi_table));
}

#[test]
fn test_b_walker_matches_b_monotone() {
    let x = 10_000_000u64;
    let y = 1_000u64;
    let base_primes = generate_primes(100_000);

    let pi_table = PiTable::new(y);
    let picache = PiCache::build(x / y, &base_primes);

    let expected = b_term_monotone(x, y, &base_primes, &pi_table);
    let actual_st = compute_b_monotone_walker(x, y, &base_primes, &picache);

    assert_eq!(actual_st, expected, "Single-threaded walker mismatch");
}

#[test]
fn b_walker_delta_matches_walker() {
    let x = 10_000_000u64;
    let y = 1_000u64;
    let base_primes = generate_primes(100_000);
    let picache = PiCache::build(x / y, &base_primes);
    let stream = DeltaPrimeStream::encode_from_slice(&base_primes);
    assert_eq!(
        compute_b_monotone_walker_delta(x, y, &stream, &picache),
        compute_b_monotone_walker(x, y, &base_primes, &picache)
    );
}

#[test]
fn binary_search_stream_counts() {
    let stream = DeltaPrimeStream::encode_from_slice(&[2, 3, 5, 7, 11, 13, 17, 19, 23, 29, 31]);
    assert_eq!(binary_search_stream(&stream, 10), 4);
    assert_eq!(binary_search_stream(&stream, 1), 0);
    assert_eq!(binary_search_stream(&stream, 31), 11);
    assert_eq!(binary_search_stream(&stream, 100), 11);
}

#[test]
fn reciprocal_buffer_fill() {
    let mut sbrb = StreamingReciprocalBuffer::new();
    assert_eq!(sbrb.table.len(), RECIPROCAL_BLOCK_SIZE);
    sbrb.fill_block(&[7, 11], 1000);
    assert_eq!(sbrb.table[0].div(1000), 142);
    assert_eq!(sbrb.table[1].div(1000), 90);
    assert_eq!(sbrb.table[2].divisor, 0);
}

#[test]
fn pi_table_and_primes() {
    let t = PiTable::new(100);
    assert_eq!(t.pi(100), 25);
    assert_eq!(t.pi(1), 0);
    assert_eq!(t.pi(2), 1);
    assert_eq!(generate_primes(30), vec![2, 3, 5, 7, 11, 13, 17, 19, 23, 29]);
    assert_eq!(PiTable::new(1_000_000).pi(1_000_000), 78_498);
}

#[test]
fn integer_roots() {
    assert_eq!(isqrt(99), 9);
    assert_eq!(isqrt(100), 10);
    assert_eq!(isqrt(u64::MAX), 4_294_967_295);
    assert_eq!(icbrt(26), 2);
    assert_eq!(icbrt(27), 3);
    assert_eq!(icbrt(u64::MAX), 2_642_245);
    assert_eq!(iroot4(80), 2);
    assert_eq!(iroot4(81), 3);
    assert_eq!(iroot4(u64::MAX), 65_535);
}

#[test]
fn t_term_values() {
    // T(a, b) = sum of i - 1 for a <= i <= b
    assert_eq!(compute_t(3, 2), 0);
    assert_eq!(compute_t(2, 5), 1 + 2 + 3 + 4);
    assert_eq!(compute_t(1, 1), 0);
    assert_eq!(compute_t(4, 10), (3..=9).sum::<u128>());
}

#[test]
fn test_quotient_window_exactness() {
    let base = generate_primes(10_000);
    // Window [1, 16385) checked against a ground-truth sieve.
    let w = QuotientWindow::sieve(1, SEGMENT_Q + 1, &base, 0);
    let mut sieve = vec![true; (SEGMENT_Q + 1) as usize];
    sieve[0] = false;
    sieve[1] = false;
    let mut p = 2usize;
    while p * p <= SEGMENT_Q as usize {
        if sieve[p] {
            let mut m = p * p;
            while m <= SEGMENT_Q as usize {
                sieve[m] = false;
                m += p;
            }
        }
        p += 1;
    }
    let mut run = 0u64;
    for v in 1..=SEGMENT_Q {
        if sieve[v as usize] {
            run += 1;
        }
        assert_eq!(w.pi(v), run, "window pi({}) wrong", v);
    }
}

#[test]
fn quotient_window_above_one_uses_its_base() {
    let base = generate_primes(200);
    // [1001, 2001): pi(1000) = 168.
    let w = QuotientWindow::sieve(1001, 2001, &base, 168);
    assert_eq!(w.pi(1001), 168);
    assert_eq!(w.pi(1009), 169);
    assert_eq!(w.pi(2000), 303);
    for v in 1001..2001u64 {
        assert_eq!(w.pi(v), naive_pi(v));
    }
}

#[test]
fn test_b_term_basic() {
    let x = 1_000_000u64;
    let x_sqrt = isqrt(x);
    let y = icbrt(x);
    let base_primes = generate_primes(x_sqrt + 100);
    let primes = with_sentinel(&base_primes);
    let pi_table = PiTable::new(x_sqrt + 30);
    let b_val = compute_b_term(x, y, &primes, &pi_table);
    assert!(b_val > 0, "B term should be positive");
}

#[test]
fn test_b_term_matches_definition() {
    let x = 10_000u64;
    let x_sqrt = isqrt(x);
    let y = 20u64;
    let base_primes = generate_primes(x_sqrt + 100);
    let primes = with_sentinel(&base_primes);
    let pi_table = PiTable::new(x / (y + 1) + 50);
    let mut expected = 0u64;
    for p in primes[1..].iter().copied() {
        if p > y && p <= x_sqrt {
            expected += pi_table.pi(x / p);
        }
    }
    let b_val = compute_b_term(x, y, &primes, &pi_table);
    assert_eq!(b_val as u64, expected, "B term must match definition");
}

#[test]
fn b_term_sieves_above_a_small_table() {
    // The table only reaches 40: every quotient above it is counted by sieving.
    let x = 1_000_000u64;
    let y = 100u64;
    let primes = with_sentinel(&generate_primes(1_100));
    let small = PiTable::new(40);
    let big = PiTable::new(x / (y + 1) + 10);
    let mut expected = 0u128;
    for &p in &primes[1..] {
        if p > y && p <= 1000 {
            expected += big.pi(x / p) as u128;
        }
    }
    assert_eq!(compute_b_term(x, y, &primes, &small), expected);
    assert_eq!(compute_b_term_mt(x, y, &primes, &small, 8), expected);
    assert_eq!(compute_b_term(x, y, &primes, &big), expected);
    // y at sqrt(x) leaves no primes; x < 4 gives 0.
    assert_eq!(compute_b_term(x, 1000, &primes, &small), 0);
    assert_eq!(compute_b_term(3, 0, &primes, &small), 0);
}

#[test]
fn test_b_streaming_ground_truth_e13() {
    let x = 10_000_000_000_000u64;
    let y = 103_411u64;
    let x_sqrt = isqrt(x);
    let base_primes = generate_primes(x_sqrt.max(y) + 1000);
    let primes = with_sentinel(&base_primes);
    let b = compute_b_streaming(x, y, &primes);
    println!("Computed B(1e13) = {}", b);
    assert_eq!(b, 165_984_853_753, "B(1e13) must match its known value");
}

#[test]
fn b_streaming_matches_b_term() {
    for &(x, y) in &[(1_000_000u64, 100u64), (10_000, 20), (50_000_000, 368), (100, 3)] {
        let primes = with_sentinel(&generate_primes(isqrt(x) + 100));
        let table = PiTable::new(isqrt(x) + 1);
        let streamed = compute_b_streaming(x, y, &primes);
        let termed = compute_b_term(x, y, &primes, &table);
        assert_eq!(streamed as u128, termed, "x = {}, y = {}", x, y);
        // Without the sentinel the same primes give the same sum.
        let bare = generate_primes(isqrt(x) + 100);
        assert_eq!(compute_b_streaming(x, y, &bare), streamed);
    }
}
