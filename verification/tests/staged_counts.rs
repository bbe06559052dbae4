use titan_count::a_term::OrdinaryLeavesA;
use titan_count::ac_parallel_v2::c1_rec;
use titan_count::assembly::LehmerCounter;
use titan_count::b_monotone::compute_b_monotone;
use titan_count::b_walker::compute_b_monotone_walker;
use titan_count::census::count_walker_cells_for_j;
use titan_count::magic_reciprocal::FastDiv64;
use titan_count::marathon::{marathon_finish, marathon_prepare, marathon_step, MarathonStage, MarathonState};
use titan_count::pi_table::{generate_primes, PiTable};
use titan_count::picache::PiCache;

fn with_sentinel(base: &[u64]) -> Vec<u64> {
    let mut primes = vec![0u64];
    primes.extend_from_slice(base);
    primes
}

#[test]
fn b_monotone_same_with_and_without_sentinel() {
    let x = 10_000u64;
    let y = 20u64;
    let bare = generate_primes(97);
    let led = with_sentinel(&bare);
    let table = PiTable::new(526);
    assert_eq!(compute_b_monotone(x, y, &bare, &table), 489);
    assert_eq!(compute_b_monotone(x, y, &led, &table), 489);
}

#[test]
fn b_monotone_small_case_counts_from_one() {
    // Only p = 11 lies in (7, sqrt(130)]: pi(11) - pi(11) + 1.
    let table = PiTable::new(20);
    assert_eq!(compute_b_monotone(130, 7, &[2, 3, 5, 7, 11], &table), 1);
    let cache = PiCache::build(20, &[2, 3, 5, 7, 11, 13, 17, 19]);
    assert_eq!(compute_b_monotone_walker(130, 7, &[2, 3, 5, 7, 11], &cache), 1);
}

#[test]
fn walker_b_matches_definition() {
    let x = 10_000u64;
    let y = 20u64;
    let base = generate_primes(600);
    let cache = PiCache::build(x / (y + 1), &base);
    assert_eq!(compute_b_monotone_walker(x, y, &base, &cache), 489);
}

#[test]
fn count_with_a_over_the_whole_range() {
    let mut c = LehmerCounter::new();
    // pi(10^8) with a = pi(100) (fourth root) and a = pi(464) (cube root).
    assert_eq!(c.count_with_a(100_000_000, 25), 5_761_455);
    assert_eq!(c.count_with_a(100_000_000, 90), 5_761_455);
    assert_eq!(c.count_with_a(100_000_000, 50), 5_761_455);
}

#[test]
fn marathon_runs_through_every_stage() {
    let x = 1_000_000u64;
    let setup = marathon_prepare(x);
    let mut st = MarathonState::new(x);
    let order = [
        MarathonStage::TableReady,
        MarathonStage::P3Done,
        MarathonStage::PhiDone,
        MarathonStage::P2Done,
        MarathonStage::Complete,
    ];
    for stage in order.iter() {
        st = marathon_step(st, &setup.primes, &setup.pi_table, setup.a, setup.b, setup.c);
        assert_eq!(st.stage, *stage);
    }
    assert_eq!(st.final_pi, 78_498);
}

#[test]
fn marathon_resumes_from_any_stage() {
    let x = 10_000_000u64;
    let setup = marathon_prepare(x);
    for stop_after in 0..5 {
        let mut st = MarathonState::new(x);
        for _ in 0..stop_after {
            st = marathon_step(st, &setup.primes, &setup.pi_table, setup.a, setup.b, setup.c);
        }
        let saved = st;
        let done = marathon_finish(saved, &setup.primes, &setup.pi_table, setup.a, setup.b, setup.c);
        assert_eq!(done.stage, MarathonStage::Complete);
        assert_eq!(done.final_pi, 664_579);
    }
}

#[test]
fn fastdiv_matches_division() {
    let numerators = [0u64, 1, 2, 99, 100, 12_345_678_901, u64::MAX - 1, u64::MAX];
    let divisors = [1u64, 2, 3, 7, 1_000_003, 4_294_967_311, u64::MAX / 3, u64::MAX];
    for &d in divisors.iter() {
        let f = FastDiv64::new(d, u64::MAX);
        assert_eq!(f.mul, u64::MAX / d);
        for &n in numerators.iter() {
            assert_eq!(f.div(n), n / d);
        }
    }
    assert_eq!(FastDiv64::new(7, 100).div(100), 14);
}

#[test]
fn ordinary_leaves_exact_values() {
    let base = generate_primes(10_000);
    let primes = with_sentinel(&base);
    let table = PiTable::new(10_000);
    assert_eq!(OrdinaryLeavesA::compute(100_000, 30, 6, &primes, &table), -3_376);
    assert_eq!(OrdinaryLeavesA::compute(1_000_000, 100, 2, &primes, &table), -178_037);
    assert_eq!(OrdinaryLeavesA::compute(1_000, 60, 0, &primes, &table), -272);
    assert_eq!(OrdinaryLeavesA::compute_mt(1_000_000, 100, 2, &primes, &table, 4), -178_037);
    // y below P[k + 1]: no leaves.
    assert_eq!(OrdinaryLeavesA::compute(100_000, 16, 6, &primes, &table), 0);
}

#[test]
fn test_ordinary_leaves_small() {
    let base_primes = generate_primes(10_000);
    let primes = with_sentinel(&base_primes);
    let pi_table = PiTable::new(10_000);
    let a_val = OrdinaryLeavesA::compute(100_000, 30, 6, &primes, &pi_table);
    assert!(a_val != 0);
}

#[test]
fn walker_cells_for_unit_prime() {
    assert_eq!(count_walker_cells_for_j(100, 1), 19);
    assert_eq!(count_walker_cells_for_j(100, 2), 12);
    assert_eq!(count_walker_cells_for_j(1_000_000, 1), 1_999);
    assert_eq!(count_walker_cells_for_j(1_000_000, 7), 748);
}

#[test]
fn c1_rec_scales_with_its_sign() {
    let base = generate_primes(1_000);
    let table = PiTable::new(100_000);
    let xp = 1_000_000u64 / 7;
    let one = c1_rec(xp, 5, 5, 40, 1, 10, 10_000, &base, &table, 1);
    let three = c1_rec(xp, 5, 5, 40, 1, 10, 10_000, &base, &table, 3);
    let minus = c1_rec(xp, 5, 5, 40, 1, 10, 10_000, &base, &table, -1);
    assert!(one != 0);
    assert_eq!(three, 3 * one);
    assert_eq!(minus, -one);
    // A negative b1 is accepted: every leaf gains b1's distance from 0.
    let shifted = c1_rec(xp, -5, 5, 40, 1, 10, 10_000, &base, &table, 1);
    assert!(shifted != one);
}
