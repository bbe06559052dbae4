//! A resumable count of pi(x) in stages: the table is set up, then P3, Phi
//! and P2 are evaluated one stage at a time, and Lehmer's identity
//! assembles them. Each step takes the recorded state and returns the
//! next one, so that a run that stopped after any stage resumes from the
//! state it recorded last.
use vstd::prelude::*;
use crate::assembly::{compute_t, lemma_lehmer_identity, lemma_lehmer_ranges, lemma_roots_ordered, with_sentinel};
use crate::intmath::{max_u64, max_spec};
use crate::p2_sweep::{compute_p2, p2_sum};
use crate::p3::{compute_p3, p3_sum};
use crate::phi::{phi_count, PhiEngine};
use crate::pi_table::{PiTable, generate_primes};
use crate::primality::{
    prime_count, sentinel_prime_list, sorted, lemma_prime_count_monotone, lemma_prime_list_count,
    lemma_prime_list_sorted, lemma_prime_count_bound,
};
use crate::roots::{floor_sqrt, floor_cbrt, floor_root4, lemma_floor_roots_exist, isqrt, icbrt, iroot4};
use crate::sampled_index::partition_point_le;

verus! {

/// The stage a run has reached.
#[derive(Clone, Copy, Debug, PartialEq, Eq, Structural)]
pub enum MarathonStage {
    Init,
    TableReady,
    P3Done,
    PhiDone,
    P2Done,
    Complete,
}

/// Position of a stage in the run, from 0 (Init) to 5 (Complete).
pub open spec fn stage_rank(s: MarathonStage) -> int {
    match s {
        MarathonStage::Init => 0,
        MarathonStage::TableReady => 1,
        MarathonStage::P3Done => 2,
        MarathonStage::PhiDone => 3,
        MarathonStage::P2Done => 4,
        MarathonStage::Complete => 5,
    }
}

/// The stage that follows `s`; Complete is the last.
pub open spec fn next_stage(s: MarathonStage) -> MarathonStage {
    match s {
        MarathonStage::Init => MarathonStage::TableReady,
        MarathonStage::TableReady => MarathonStage::P3Done,
        MarathonStage::P3Done => MarathonStage::PhiDone,
        MarathonStage::PhiDone => MarathonStage::P2Done,
        MarathonStage::P2Done => MarathonStage::Complete,
        MarathonStage::Complete => MarathonStage::Complete,
    }
}

/// What a run records after each stage.
#[derive(Clone, Copy, Debug)]
pub struct MarathonState {
    pub x: u64,
    pub stage: MarathonStage,
    pub p3_val: u128,
    pub phi_val: u64,
    pub phi_completed_subtrees: u64,
    pub p2_val: u128,
    pub final_pi: u64,
}

/// The prime list and table a run works over, with a, b, c the prime
/// counts of the fourth, square and cube roots of x.
pub struct MarathonSetup {
    pub primes: Vec<u64>,
    pub a: usize,
    pub b: usize,
    pub c: usize,
    pub pi_table: PiTable,
}

/// Largest argument the table of a run must answer: x / P[a + 1] + 30 (and
/// at least sqrt(x)) when the list holds P[a + 1], else sqrt(x) + 30.
pub open spec fn marathon_table_limit(x: int, primes: Seq<u64>, a: int) -> int {
    if a + 1 < primes.len() {
        max_spec(x / (primes[a + 1] as int) + 30, floor_sqrt(x))
    } else {
        floor_sqrt(x) + 30
    }
}

/// The list is [0, the primes up to max(sqrt(x) + 100, 100)], a, b, c are
/// the prime counts of the fourth, square and cube roots of x, and the
/// table reaches `marathon_table_limit`.
pub open spec fn marathon_ready(x: int, primes: Seq<u64>, max_y: int, a: int, b: int, c: int) -> bool {
    &&& 31 <= x < usize::MAX / 4
    &&& sentinel_prime_list(primes)
    &&& primes.len() == prime_count(max_spec(floor_sqrt(x) + 100, 100)) + 1
    &&& a == prime_count(floor_root4(x))
    &&& b == prime_count(floor_sqrt(x))
    &&& c == prime_count(floor_cbrt(x))
    &&& max_y == marathon_table_limit(x, primes, a)
}

/// Every value a state records for a stage it has passed is the value of
/// that stage's term.
pub open spec fn marathon_consistent(st: MarathonState, primes: Seq<u64>, a: int, b: int, c: int) -> bool {
    let x = st.x as int;
    &&& stage_rank(st.stage) >= 2 ==> st.p3_val == p3_sum(x, a, c, primes)
    &&& stage_rank(st.stage) >= 3 ==> st.phi_val == phi_count(x, a, primes)
    &&& stage_rank(st.stage) >= 4 ==> st.p2_val == p2_sum(x, a, b, primes)
    &&& stage_rank(st.stage) >= 5 ==> st.final_pi == prime_count(x)
}

impl MarathonState {
    /// A run of x that has done nothing yet.
    pub fn new(x: u64) -> (st: Self)
        ensures
            st.x == x,
            st.stage == MarathonStage::Init,
            st.p3_val == 0 && st.phi_val == 0 && st.phi_completed_subtrees == 0,
            st.p2_val == 0 && st.final_pi == 0,
    {
        MarathonState {
            x,
            stage: MarathonStage::Init,
            p3_val: 0,
            phi_val: 0,
            phi_completed_subtrees: 0,
            p2_val: 0,
            final_pi: 0,
        }
    }
}

/// The prime list, the indices a, b, c and the table of a run of x.
pub fn marathon_prepare(x: u64) -> (s: MarathonSetup)
    requires
        31 <= x < usize::MAX / 4,
    ensures
        s.pi_table.valid(),
        marathon_ready(x as int, s.primes@, s.pi_table.max_y as int, s.a as int, s.b as int, s.c as int),
{
    let x_root4 = iroot4(x);
    let x_cbrt = icbrt(x);
    let x_sqrt = isqrt(x);
    proof {
        lemma_roots_ordered(x as int, x_sqrt as int, x_cbrt as int, x_root4 as int);
    }
    let max_prime_needed = max_u64(x_sqrt + 100, 100);
    let base_primes = generate_primes(max_prime_needed);
    let primes = with_sentinel(&base_primes);
    let ghost ps = primes@;
    let ghost limit = max_prime_needed as int;
    proof {
        lemma_prime_count_monotone(x_root4 as int, x_cbrt as int);
        lemma_prime_count_monotone(x_cbrt as int, x_sqrt as int);
        lemma_prime_count_monotone(x_sqrt as int, limit);
        lemma_prime_list_count(base_primes@, x_root4 as int);
        lemma_prime_list_count(base_primes@, x_cbrt as int);
        lemma_prime_list_count(base_primes@, x_sqrt as int);
        lemma_prime_list_count(base_primes@, limit);
        lemma_prime_list_sorted(base_primes@);
        assert(ps.subrange(1, ps.len() as int) == base_primes@);
        assert(sorted(base_primes@)) by {
            assert forall|i: int, j: int| 0 <= i <= j < base_primes@.len() implies #[trigger] base_primes@[i]
                <= #[trigger] base_primes@[j] by {
                if i < j {
                    assert(base_primes@[i] < base_primes@[j]);
                }
            }
        }
    }
    let a = partition_point_le(base_primes.as_slice(), x_root4);
    let b = partition_point_le(base_primes.as_slice(), x_sqrt);
    let c = partition_point_le(base_primes.as_slice(), x_cbrt);
    let plen = primes.len();
    assert(a < plen);
    let max_table = if a + 1 < plen {
        max_u64(x / primes[a + 1] + 30, x_sqrt)
    } else {
        x_sqrt + 30
    };
    proof {
        lemma_lehmer_ranges(
            x as int,
            x_sqrt as int,
            x_cbrt as int,
            x_root4 as int,
            a as int,
            b as int,
            c as int,
            limit,
            ps,
            max_table as int,
        );
    }
    let pi_table = PiTable::new(max_table);
    MarathonSetup { primes, a, b, c, pi_table }
}

/// One stage of a run: Init -> TableReady; TableReady -> P3Done with
/// P3(x, a, c); P3Done -> PhiDone with phi(x, a); PhiDone -> P2Done with
/// P2(x, a, b); P2Done -> Complete with pi(x) = phi + T(a, b) - P2 - P3
/// assembled from the recorded values. Every other field is carried over.
pub fn marathon_step(state: MarathonState, primes: &[u64], pi_table: &PiTable, a: usize, b: usize, c: usize) -> (next:
    MarathonState)
    requires
        state.stage != MarathonStage::Complete,
        pi_table.valid(),
        marathon_ready(state.x as int, primes@, pi_table.max_y as int, a as int, b as int, c as int),
        marathon_consistent(state, primes@, a as int, b as int, c as int),
    ensures
        next.x == state.x,
        next.stage == next_stage(state.stage),
        next.phi_completed_subtrees == state.phi_completed_subtrees,
        next.p3_val == if state.stage == MarathonStage::TableReady {
            p3_sum(state.x as int, a as int, c as int, primes@) as u128
        } else {
            state.p3_val
        },
        next.phi_val == if state.stage == MarathonStage::P3Done {
            phi_count(state.x as int, a as int, primes@) as u64
        } else {
            state.phi_val
        },
        next.p2_val == if state.stage == MarathonStage::PhiDone {
            p2_sum(state.x as int, a as int, b as int, primes@) as u128
        } else {
            state.p2_val
        },
        next.final_pi == if state.stage == MarathonStage::P2Done {
            prime_count(state.x as int) as u64
        } else {
            state.final_pi
        },
        marathon_consistent(next, primes@, a as int, b as int, c as int),
        next.stage == MarathonStage::Complete ==> next.final_pi == prime_count(state.x as int),
{
    let x = state.x;
    let ghost ps = primes@;
    proof {
        lemma_floor_roots_exist(x as int);
        lemma_roots_ordered(x as int, floor_sqrt(x as int), floor_cbrt(x as int), floor_root4(x as int));
        lemma_prime_count_monotone(floor_root4(x as int), floor_cbrt(x as int));
        lemma_lehmer_ranges(
            x as int,
            floor_sqrt(x as int),
            floor_cbrt(x as int),
            floor_root4(x as int),
            a as int,
            b as int,
            c as int,
            max_spec(floor_sqrt(x as int) + 100, 100),
            ps,
            pi_table.max_y as int,
        );
    }
    let mut next = state;
    match state.stage {
        MarathonStage::Init => {
            next.stage = MarathonStage::TableReady;
        },
        MarathonStage::TableReady => {
            next.p3_val = compute_p3(x, a, c, primes, pi_table);
            next.stage = MarathonStage::P3Done;
        },
        MarathonStage::P3Done => {
            let mut engine = PhiEngine::new();
            next.phi_val = engine.eval(x, a, primes, pi_table);
            next.stage = MarathonStage::PhiDone;
        },
        MarathonStage::PhiDone => {
            next.p2_val = compute_p2(x, a, b, primes, pi_table);
            next.stage = MarathonStage::P2Done;
        },
        _ => {
            let t_val = compute_t(a, b);
            proof {
                lemma_prime_count_monotone(floor_root4(x as int), floor_sqrt(x as int));
                lemma_prime_count_monotone(floor_sqrt(x as int), max_spec(floor_sqrt(x as int) + 100, 100));
                lemma_lehmer_identity(x as int, a as int, ps);
                lemma_prime_count_bound(x as int);
                assert(t_val <= 0x1_0000_0000_0000_0000);
                assert(state.p2_val + state.p3_val <= state.phi_val + t_val);
            }
            let ans = (state.phi_val as i128) + (t_val as i128) - (state.p2_val as i128) - (state.p3_val as i128);
            next.final_pi = ans as u64;
            next.stage = MarathonStage::Complete;
        },
    }
    next
}

/// Runs the remaining stages of a recorded state to the end: pi(x),
/// whichever stage the run resumes from.
pub fn marathon_finish(state: MarathonState, primes: &[u64], pi_table: &PiTable, a: usize, b: usize, c: usize) -> (r:
    MarathonState)
    requires
        pi_table.valid(),
        marathon_ready(state.x as int, primes@, pi_table.max_y as int, a as int, b as int, c as int),
        marathon_consistent(state, primes@, a as int, b as int, c as int),
    ensures
        r.x == state.x,
        r.stage == MarathonStage::Complete,
        r.final_pi == prime_count(state.x as int),
{
    let mut st = state;
    while st.stage != MarathonStage::Complete
        invariant
            st.x == state.x,
            pi_table.valid(),
            marathon_ready(st.x as int, primes@, pi_table.max_y as int, a as int, b as int, c as int),
            marathon_consistent(st, primes@, a as int, b as int, c as int),
        decreases 5 - stage_rank(st.stage),
    {
        st = marathon_step(st, primes, pi_table, a, b, c);
    }
    st
}

} // verus!
