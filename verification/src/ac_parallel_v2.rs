//! Analytical AC leaves: the A, C1 and C2 leaf families of Gourdon's
//! decomposition, the sieved quotient windows, and the guided m-dispenser.
use vstd::prelude::*;
use crate::ac_parallel::{ac_chunk_domain, ac_chunk_prefixes_fit, ac_chunk_sum, compute_ac_chunk};
use crate::ac_monotone::model_of;
use crate::magic_reciprocal::FastDiv64;
use crate::segmented_pi::SegmentedPiTable;
use crate::intmath::{clamp_spec, clamp_u64};
use crate::ac_parallel::guided_chunk_end;
use crate::primality::{
    is_prime, prime_count, prime_list, sorted, count_le, strip_sentinel, lemma_small_prime_factor,
    lemma_prime_list_sorted, lemma_prime_list_index, lemma_prime_list_count_min, lemma_prime_count_bound,
    lemma_prime_count_monotone,
};
use crate::leaf_sums::{
    range_sum, abs_of, lemma_range_sum_nonneg_bound, lemma_range_sum_abs_bound, lemma_range_sum_dominated,
    lemma_range_sum_split, lemma_range_sum_const,
};
use crate::pi_table::PiTable;
use crate::roots::{isqrt, icbrt, floor_sqrt, floor_cbrt};
use crate::sampled_index::{partition_point_le, strip_sentinel_slice};
use crate::intmath::{min_u64, max_u64, min_usize, max_usize, clamp_usize, min_spec, max_spec};
use crate::sigma_l1::{get_x_star_gourdon, x_star_spec};
use vstd::arithmetic::div_mod::{lemma_fundamental_div_mod, lemma_mod_multiples_basic};

verus! {

/// Hands out consecutive chunks `[start, end)` of m-values covering `[1, y]`.
pub struct AcWorkQueue {
    current_m: u64,
    y: u64,
}

impl AcWorkQueue {
    /// The next m-value to hand out.
    pub closed spec fn cursor(&self) -> int {
        self.current_m as int
    }

    /// The last m-value to hand out.
    pub closed spec fn limit(&self) -> int {
        self.y as int
    }

    /// A queue whose first chunk starts at m = 1.
    pub fn new(y: u64) -> (q: Self)
        ensures
            q.cursor() == 1,
            q.limit() == y,
    {
        Self { current_m: 1, y }
    }

    /// Claims the next chunk; `None` once every m in `[1, y]` was handed out.
    pub fn claim_chunk(&mut self) -> (r: Option<(u64, u64)>)
        requires
            old(self).limit() < u64::MAX,
            old(self).cursor() <= old(self).limit() ==> old(self).cursor() + clamp_spec(
                (old(self).limit() - old(self).cursor() + 1) / 64,
                16,
                4096,
            ) <= u64::MAX,
        ensures
            final(self).limit() == old(self).limit(),
            match r {
                None => old(self).cursor() > old(self).limit() && final(self).cursor() == old(self).cursor(),
                Some((start, end)) => {
                    &&& old(self).cursor() <= old(self).limit()
                    &&& start == old(self).cursor()
                    &&& end == guided_chunk_end(start as int, old(self).limit())
                    &&& start < end <= old(self).limit() + 1
                    &&& final(self).cursor() == end
                },
            },
    {
        let curr = self.current_m;
        if curr > self.y {
            return None;
        }
        let remaining = self.y - curr + 1;
        let step = clamp_u64(remaining / 64, 16, 4096);
        let next = if curr + step < self.y + 1 {
            curr + step
        } else {
            self.y + 1
        };
        self.current_m = next;
        Some((curr, next))
    }
}

/// sum over m in [m_start, m_end) of mu(m) times the AC leaves of m, four
/// leaves at a time; the same evaluation as `compute_ac_chunk`.
pub fn compute_ac_range_ilp4(
    m_start: u64,
    m_end: u64,
    x: u64,
    z: u64,
    mu: &[i8],
    primes: &[u64],
    reciprocals: &[FastDiv64],
    pi_table: &SegmentedPiTable,
) -> (r: i64)
    requires
        sorted(primes@),
        m_start <= m_end,
        forall|m: int| m_start <= m < m_end ==> #[trigger] ac_chunk_domain(
            pi_table,
            x as int,
            z as int,
            mu@,
            primes@,
            reciprocals@,
            m,
        ),
        ac_chunk_prefixes_fit(x as int, z as int, mu@, primes@, model_of(pi_table), m_start as int, m_end as int),
    ensures
        r == ac_chunk_sum(x as int, z as int, mu@, primes@, model_of(pi_table), m_start as int, m_end as int),
{
    compute_ac_chunk(m_start, m_end, x, z, mu, primes, reciprocals, pi_table)
}

/// w * pi(xp / s[i]).
pub open spec fn weighted_quotient_pi(xp: int, s: Seq<u64>, w: int) -> spec_fn(int) -> int {
    |i: int| w * prime_count(xp / (s[i] as int))
}

/// The A leaves of the prime p = s[b]: over the listed primes q with
/// p < q <= sqrt(x / p), pi(x / (p q)) once while q <= x / (p y), twice
/// above.
pub open spec fn a_single_b_sum(x: int, y: int, s: Seq<u64>, b: int) -> int {
    let p = s[b] as int;
    let xp = x / p;
    let sq = floor_sqrt(xp);
    if p < 2 || p >= sq {
        0
    } else {
        let i0 = count_le(s, p) as int;
        let m1 = count_le(s, min_spec(xp / y, sq)) as int;
        let m2 = count_le(s, sq) as int;
        range_sum(i0, m1, weighted_quotient_pi(xp, s, 1)) + range_sum(
            max_spec(i0, m1),
            m2,
            weighted_quotient_pi(xp, s, 2),
        )
    }
}

/// The A leaves of b only read the table up to `max_y`.
pub open spec fn a_b_domain(x: int, y: int, s: Seq<u64>, b: int, max_y: int) -> bool {
    let p = s[b] as int;
    let xp = x / p;
    let sq = floor_sqrt(xp);
    &&& 0 <= b < s.len()
    &&& y >= 1
    &&& p >= 2 && p < sq ==> forall|i: int|
        count_le(s, p) <= i < count_le(s, sq) ==> xp / (#[trigger] s[i] as int) <= max_y
}

/// Every quotient of the A leaves of b has a prepared divisor.
pub open spec fn a_b_reciprocals(x: int, s: Seq<u64>, rec: Seq<FastDiv64>, b: int) -> bool {
    let p = s[b] as int;
    let xp = x / p;
    let sq = floor_sqrt(xp);
    p >= 2 && p < sq ==> forall|i: int|
        count_le(s, p) <= i < count_le(s, sq) ==> i < rec.len() && (#[trigger] rec[i]).divisor == s[i]
            && rec[i].max_n >= xp
}

/// A sum of nonnegative weighted counts is nonnegative.
proof fn lemma_a_single_b_nonneg(x: int, y: int, s: Seq<u64>, b: int)
    ensures
        a_single_b_sum(x, y, s, b) >= 0,
{
    let p = s[b] as int;
    let xp = x / p;
    let sq = floor_sqrt(xp);
    if !(p < 2 || p >= sq) {
        let i0 = count_le(s, p) as int;
        let m1 = count_le(s, min_spec(xp / y, sq)) as int;
        let m2 = count_le(s, sq) as int;
        if i0 <= m1 {
            lemma_range_sum_nonneg_bound(i0, m1, m1, weighted_quotient_pi(xp, s, 1));
        }
        if max_spec(i0, m1) <= m2 {
            lemma_range_sum_nonneg_bound(max_spec(i0, m1), m2, m2, weighted_quotient_pi(xp, s, 2));
        }
    }
}

/// The A leaves of the prime s[b], with one hardware division per leaf.
pub fn compute_a_single_b(x: u64, y: u64, s: &[u64], b: usize, pi_table: &PiTable) -> (r: i64)
    requires
        sorted(s@),
        pi_table.valid(),
        a_b_domain(x as int, y as int, s@, b as int, pi_table.max_y as int),
        a_single_b_sum(x as int, y as int, s@, b as int) <= i64::MAX,
    ensures
        r == a_single_b_sum(x as int, y as int, s@, b as int),
{
    let rec: Vec<FastDiv64> = Vec::new();
    a_single_b_leaves(x, y, s, &rec, false, b, pi_table)
}

/// The A leaves of the prime s[b], each division by q taken with the
/// prepared divisor `rec[index of q]`.
pub fn compute_a_single_b_fast(x: u64, y: u64, s: &[u64], rec: &[FastDiv64], b: usize, pi_table: &PiTable) -> (r: i64)
    requires
        sorted(s@),
        pi_table.valid(),
        a_b_domain(x as int, y as int, s@, b as int, pi_table.max_y as int),
        a_b_reciprocals(x as int, s@, rec@, b as int),
        a_single_b_sum(x as int, y as int, s@, b as int) <= i64::MAX,
    ensures
        r == a_single_b_sum(x as int, y as int, s@, b as int),
{
    a_single_b_leaves(x, y, s, rec, true, b, pi_table)
}

/// The leaves of b, dividing with `rec` when `use_rec` holds.
fn a_single_b_leaves(
    x: u64,
    y: u64,
    s: &[u64],
    rec: &[FastDiv64],
    use_rec: bool,
    b: usize,
    pi_table: &PiTable,
) -> (r: i64)
    requires
        sorted(s@),
        pi_table.valid(),
        a_b_domain(x as int, y as int, s@, b as int, pi_table.max_y as int),
        use_rec ==> a_b_reciprocals(x as int, s@, rec@, b as int),
        a_single_b_sum(x as int, y as int, s@, b as int) <= i64::MAX,
    ensures
        r == a_single_b_sum(x as int, y as int, s@, b as int),
{
    let ghost ss = s@;
    let prime = s[b];
    if prime < 2 {
        return 0;
    }
    let xp = x / prime;
    let sqrt_xp = isqrt(xp);
    if prime >= sqrt_xp {
        return 0;
    }
    let ghost w1 = weighted_quotient_pi(xp as int, ss, 1);
    let ghost w2 = weighted_quotient_pi(xp as int, ss, 2);
    let mut i = partition_point_le(s, prime);
    let max_i1 = partition_point_le(s, min_u64(xp / y, sqrt_xp));
    let max_i2 = partition_point_le(s, sqrt_xp);
    let ghost i0 = i as int;
    proof {
        if max_i1 > max_i2 {
            assert(ss[max_i2 as int] <= min_spec(xp as int / y as int, sqrt_xp as int));
        }
        assert forall|k: int| i0 <= k < ss.len() implies #[trigger] ss[k] > prime by {}
        if max_spec(i0, max_i1 as int) <= max_i2 {
            lemma_range_sum_nonneg_bound(max_spec(i0, max_i1 as int), max_i2 as int, max_i2 as int, w2);
        }
        if i0 <= max_i1 {
            lemma_range_sum_nonneg_bound(i0, max_i1 as int, max_i1 as int, w1);
        }
        assert forall|k: int| i0 <= k <= max_i1 implies range_sum(i0, k, w1) <= #[trigger] range_sum(
            i0,
            max_i1 as int,
            w1,
        ) && 0 <= range_sum(i0, k, w1) by {
            lemma_range_sum_nonneg_bound(i0, k, max_i1 as int, w1);
        }
    }
    let mut sum: i64 = 0;
    while i < max_i1
        invariant
            ss == s@,
            pi_table.valid(),
            a_b_domain(x as int, y as int, ss, b as int, pi_table.max_y as int),
            use_rec ==> a_b_reciprocals(x as int, ss, rec@, b as int),
            prime == ss[b as int],
            2 <= prime < sqrt_xp,
            xp == x / prime,
            sqrt_xp == floor_sqrt(xp as int),
            max_i1 <= max_i2,
            i0 == count_le(ss, prime as int),
            max_i2 == count_le(ss, sqrt_xp as int),
            max_i2 <= ss.len(),
            w1 == weighted_quotient_pi(xp as int, ss, 1),
            forall|k: int| i0 <= k < ss.len() ==> #[trigger] ss[k] > prime,
            i0 <= i <= max_spec(i0, max_i1 as int),
            0 <= range_sum(i0, max_i1 as int, w1) <= i64::MAX,
            range_sum(i0, max_i1 as int, w1) <= a_single_b_sum(x as int, y as int, ss, b as int),
            sum == range_sum(i0, i as int, w1),
            forall|k: int| i0 <= k <= max_i1 ==> range_sum(i0, k, w1) <= #[trigger] range_sum(i0, max_i1 as int, w1)
                && 0 <= range_sum(i0, k, w1),
        decreases max_i1 - i,
    {
        let q = s[i];
        let xpq = if use_rec {
            assert(rec@[i as int].divisor == ss[i as int]);
            rec[i].div(xp)
        } else {
            xp / q
        };
        proof {
            assert(ss[i as int] > prime);
            assert(xp as int / (ss[i as int] as int) <= pi_table.max_y);
            assert(range_sum(i0, i + 1, w1) <= range_sum(i0, max_i1 as int, w1));
        }
        sum = sum + pi_table.pi(xpq) as i64;
        i += 1;
    }
    let ghost j0 = i as int;
    proof {
        assert(j0 == max_spec(i0, max_i1 as int));
        assert forall|k: int| j0 <= k <= max_i2 implies range_sum(j0, k, w2) <= #[trigger] range_sum(
            j0,
            max_i2 as int,
            w2,
        ) && 0 <= range_sum(j0, k, w2) by {
            lemma_range_sum_nonneg_bound(j0, k, max_i2 as int, w2);
        }
        if max_i1 < i0 {
            assert(range_sum(i0, max_i1 as int, w1) == 0);
        }
    }
    while i < max_i2
        invariant
            ss == s@,
            pi_table.valid(),
            a_b_domain(x as int, y as int, ss, b as int, pi_table.max_y as int),
            use_rec ==> a_b_reciprocals(x as int, ss, rec@, b as int),
            prime == ss[b as int],
            2 <= prime < sqrt_xp,
            xp == x / prime,
            sqrt_xp == floor_sqrt(xp as int),
            i0 == count_le(ss, prime as int),
            max_i2 == count_le(ss, sqrt_xp as int),
            max_i2 <= ss.len(),
            w2 == weighted_quotient_pi(xp as int, ss, 2),
            forall|k: int| i0 <= k < ss.len() ==> #[trigger] ss[k] > prime,
            i0 <= j0 <= i,
            j0 <= max_i2 ==> i <= max_i2,
            j0 > max_i2 ==> i == j0,
            0 <= range_sum(i0, max_i1 as int, w1),
            range_sum(i0, max_i1 as int, w1) + range_sum(j0, max_i2 as int, w2) == a_single_b_sum(
                x as int,
                y as int,
                ss,
                b as int,
            ),
            a_single_b_sum(x as int, y as int, ss, b as int) <= i64::MAX,
            forall|k: int| j0 <= k <= max_i2 ==> range_sum(j0, k, w2) <= #[trigger] range_sum(j0, max_i2 as int, w2)
                && 0 <= range_sum(j0, k, w2),
            sum == range_sum(i0, max_i1 as int, w1) + range_sum(j0, i as int, w2),
        decreases max_i2 - i,
    {
        let q = s[i];
        let xpq = if use_rec {
            assert(rec@[i as int].divisor == ss[i as int]);
            rec[i].div(xp)
        } else {
            xp / q
        };
        proof {
            assert(ss[i as int] > prime);
            assert(xp as int / (ss[i as int] as int) <= pi_table.max_y);
            assert(range_sum(j0, i + 1, w2) <= range_sum(j0, max_i2 as int, w2));
        }
        sum = sum + (pi_table.pi(xpq) as i64) * 2;
        i += 1;
    }
    proof {
        if j0 > max_i2 {
            assert(range_sum(j0, max_i2 as int, w2) == 0);
        }
    }
    sum
}

/// A(x, y): the A leaves of every prime x_star < p <= cbrt(x) of the list
/// (a leading 0 is skipped).
pub open spec fn a_formula_sum(x: int, y: int, primes: Seq<u64>) -> int {
    let s = strip_sentinel(primes);
    range_sum(
        count_le(s, x_star_spec(x, y)) as int,
        count_le(s, floor_cbrt(x)) as int,
        |b: int| a_single_b_sum(x, y, s, b),
    )
}

/// The A leaves read the table only within its reach, for every b of the
/// A range.
pub open spec fn a_formula_domain(x: int, y: int, primes: Seq<u64>, max_y: int) -> bool {
    let s = strip_sentinel(primes);
    forall|b: int|
        count_le(s, x_star_spec(x, y)) <= b < count_le(s, floor_cbrt(x)) ==> #[trigger] a_b_domain(
            x,
            y,
            s,
            b,
            max_y,
        )
}

/// A(x, y) = sum over the primes x_star < p <= cbrt(x) of their A leaves.
pub fn compute_a_formula(x: u64, y: u64, primes: &[u64], pi_table: &PiTable) -> (r: i64)
    requires
        sorted(primes@),
        pi_table.valid(),
        a_formula_domain(x as int, y as int, primes@, pi_table.max_y as int),
        a_formula_sum(x as int, y as int, primes@) <= i64::MAX,
    ensures
        r == a_formula_sum(x as int, y as int, primes@),
{
    let x_cbrt = icbrt(x);
    let x_star = get_x_star_gourdon(x, y);
    let prime_slice = strip_sentinel_slice(primes);
    let ghost s = prime_slice@;
    proof {
        crate::sampled_index::lemma_strip_sorted(primes@);
    }
    let min_b = partition_point_le(prime_slice, x_star);
    let max_b = partition_point_le(prime_slice, x_cbrt);
    let ghost f = |b: int| a_single_b_sum(x as int, y as int, s, b);
    if min_b >= max_b {
        return 0;
    }
    proof {
        assert forall|b: int| min_b <= b < max_b implies #[trigger] f(b) >= 0 by {
            lemma_a_single_b_nonneg(x as int, y as int, s, b);
        }
    }
    let mut sum: i64 = 0;
    let mut b = min_b;
    while b < max_b
        invariant
            s == prime_slice@,
            sorted(s),
            pi_table.valid(),
            f == (|b: int| a_single_b_sum(x as int, y as int, s, b)),
            min_b == count_le(s, x_star as int),
            max_b == count_le(s, x_cbrt as int),
            x_star == x_star_spec(x as int, y as int),
            x_cbrt == floor_cbrt(x as int),
            a_formula_domain(x as int, y as int, primes@, pi_table.max_y as int),
            s == strip_sentinel(primes@),
            range_sum(min_b as int, max_b as int, f) <= i64::MAX,
            forall|k: int| min_b <= k < max_b ==> #[trigger] f(k) >= 0,
            min_b <= b <= max_b,
            sum == range_sum(min_b as int, b as int, f),
        decreases max_b - b,
    {
        proof {
            assert(a_b_domain(x as int, y as int, s, b as int, pi_table.max_y as int));
            lemma_range_sum_nonneg_bound(min_b as int, b + 1, max_b as int, f);
            lemma_range_sum_nonneg_bound(min_b as int, b as int, max_b as int, f);
            lemma_a_single_b_nonneg(x as int, y as int, s, b as int);
        }
        sum = sum + compute_a_single_b(x, y, prime_slice, b, pi_table);
        b += 1;
    }
    sum
}

/// The lower end (exclusive) of the C2 window of q for the prime s[b]:
/// max(p, x / p^3, sqrt_x / p).
pub open spec fn c2_min_q(x: int, s: Seq<u64>, b: int, sqrt_x: int) -> int {
    let p = s[b] as int;
    max_spec(max_spec(p, ((x / p) / p) / p), sqrt_x / p)
}

/// The upper end (inclusive) of the C2 window of q: min(x / p^2, y).
pub open spec fn c2_max_q(x: int, y: int, s: Seq<u64>, b: int) -> int {
    let p = s[b] as int;
    min_spec((x / p) / p, y)
}

/// The C2 leaf at index i for the prime s[b]: pi(xp / s[i]) - (b + 1) + 2.
pub open spec fn c2_term(xp: int, s: Seq<u64>, b: int) -> spec_fn(int) -> int {
    |i: int| prime_count(xp / (s[i] as int)) - (b + 1) + 2
}

/// The C2 leaves of the prime p = s[b]: over the listed primes q in the
/// window (c2_min_q, c2_max_q], pi(x / (p q)) - (b + 1) + 2.
pub open spec fn c2_single_b_sum(x: int, y: int, s: Seq<u64>, b: int, sqrt_x: int) -> int {
    let p = s[b] as int;
    let mn = c2_min_q(x, s, b, sqrt_x);
    let mx = c2_max_q(x, y, s, b);
    if p < 2 || mn >= mx {
        0
    } else {
        range_sum(count_le(s, mn) as int, count_le(s, mx) as int, c2_term(x / p, s, b))
    }
}

/// The same leaves taken in absolute value.
pub open spec fn c2_single_b_abs(x: int, y: int, s: Seq<u64>, b: int, sqrt_x: int) -> int {
    let p = s[b] as int;
    let mn = c2_min_q(x, s, b, sqrt_x);
    let mx = c2_max_q(x, y, s, b);
    if p < 2 || mn >= mx {
        0
    } else {
        range_sum(count_le(s, mn) as int, count_le(s, mx) as int, abs_of(c2_term(x / p, s, b)))
    }
}

/// The C2 leaves of b read the table only within its reach.
pub open spec fn c2_b_domain(x: int, y: int, s: Seq<u64>, b: int, sqrt_x: int, max_y: int) -> bool {
    let p = s[b] as int;
    let mn = c2_min_q(x, s, b, sqrt_x);
    let mx = c2_max_q(x, y, s, b);
    &&& 0 <= b < s.len()
    &&& b < i64::MAX
    &&& p >= 2 && mn < mx ==> mx <= max_y && (x / p) / (mn + 1) <= max_y
}

/// Every divisor the clustered C2 leaves of b take is prepared.
pub open spec fn c2_b_reciprocals(x: int, s: Seq<u64>, rec: Seq<FastDiv64>, b: int) -> bool {
    let p = s[b] as int;
    s.len() <= rec.len() && forall|i: int| 0 <= i < s.len() ==> (#[trigger] rec[i]).divisor == s[i]
        && rec[i].max_n >= x / p
}

proof fn lemma_c2_abs_nonneg(x: int, y: int, s: Seq<u64>, b: int, sqrt_x: int)
    ensures
        c2_single_b_abs(x, y, s, b, sqrt_x) >= 0,
        -c2_single_b_abs(x, y, s, b, sqrt_x) <= c2_single_b_sum(x, y, s, b, sqrt_x) <= c2_single_b_abs(
            x,
            y,
            s,
            b,
            sqrt_x,
        ),
{
    let p = s[b] as int;
    let mn = c2_min_q(x, s, b, sqrt_x);
    let mx = c2_max_q(x, y, s, b);
    if !(p < 2 || mn >= mx) {
        let lo = count_le(s, mn) as int;
        let hi = count_le(s, mx) as int;
        if lo <= hi {
            lemma_range_sum_abs_bound(lo, hi, hi, c2_term(x / p, s, b));
        }
    }
}

/// The C2 leaves of b, one division per leaf.
fn c2_scalar_b(x: u64, y: u64, s: &[u64], b: usize, pi_table: &PiTable, sqrt_x: u64) -> (r: i64)
    requires
        sorted(s@),
        pi_table.valid(),
        c2_b_domain(x as int, y as int, s@, b as int, sqrt_x as int, pi_table.max_y as int),
        c2_single_b_abs(x as int, y as int, s@, b as int, sqrt_x as int) <= i64::MAX,
    ensures
        r == c2_single_b_sum(x as int, y as int, s@, b as int, sqrt_x as int),
{
    let ghost ss = s@;
    let prime = s[b];
    if prime < 2 {
        return 0;
    }
    let xp = x / prime;
    let xp_div_p = xp / prime;
    let min_q = max_u64(max_u64(prime, xp_div_p / prime), sqrt_x / prime);
    let max_q = min_u64(xp_div_p, y);
    if min_q >= max_q {
        return 0;
    }
    let ghost f = c2_term(xp as int, ss, b as int);
    let ghost g = abs_of(f);
    let mut i = partition_point_le(s, min_q);
    let max_i = partition_point_le(s, max_q);
    let ghost i0 = i as int;
    let ghost total = c2_single_b_abs(x as int, y as int, ss, b as int, sqrt_x as int);
    let b_1based = (b + 1) as i64;
    let mut sum: i64 = 0;
    proof {
        assert forall|k: int| i0 <= k < ss.len() implies #[trigger] ss[k] > min_q by {}
        if i0 > max_i {
            assert(range_sum(i0, max_i as int, f) == 0);
        }
    }
    while i < max_i
        invariant
            ss == s@,
            pi_table.valid(),
            prime == ss[b as int],
            prime >= 2,
            xp == x / prime,
            min_q == c2_min_q(x as int, ss, b as int, sqrt_x as int),
            max_q == c2_max_q(x as int, y as int, ss, b as int),
            min_q < max_q,
            max_q <= pi_table.max_y,
            xp as int / (min_q + 1) <= pi_table.max_y,
            f == c2_term(xp as int, ss, b as int),
            g == abs_of(f),
            i0 == count_le(ss, min_q as int),
            max_i == count_le(ss, max_q as int),
            max_i <= ss.len(),
            b_1based == b + 1,
            b < ss.len(),
            forall|k: int| i0 <= k < ss.len() ==> #[trigger] ss[k] > min_q,
            i0 <= i <= max_spec(i0, max_i as int),
            total == range_sum(i0, max_i as int, g),
            total <= i64::MAX,
            sum == range_sum(i0, i as int, f),
        decreases max_i - i,
    {
        let q = s[i];
        let xpq = xp / q;
        proof {
            vstd::arithmetic::div_mod::lemma_div_is_ordered_by_denominator(xp as int, min_q + 1, q as int);
            assert forall|k: int| i0 <= k < max_i implies -#[trigger] g(k) <= f(k) <= g(k) by {}
            lemma_range_sum_dominated(i0, i + 1, max_i as int, f, g);
            lemma_prime_count_bound(xpq as int);
        }
        let phi_xpq = (pi_table.pi(xpq) as i64) - b_1based + 2;
        sum = sum + phi_xpq;
        i += 1;
    }
    proof {
        if max_i < i0 {
            assert(range_sum(i0, max_i as int, f) == 0);
        }
    }
    sum
}

/// The clustered C2 leaves of b: quotients x / (p q) with q above
/// isqrt(x / p) are shared by runs of consecutive primes q, each run taken
/// with one division and two lookups. Equal to the leaf-by-leaf sum over a
/// list of the primes in order.
pub fn compute_c2_single_b(x: u64, y: u64, s: &[u64], b: usize, pi_table: &PiTable, sqrt_x: u64) -> (r: i64)
    requires
        prime_list(s@),
        pi_table.valid(),
        c2_b_domain(x as int, y as int, s@, b as int, sqrt_x as int, pi_table.max_y as int),
        c2_single_b_abs(x as int, y as int, s@, b as int, sqrt_x as int) <= i64::MAX,
    ensures
        r == c2_single_b_sum(x as int, y as int, s@, b as int, sqrt_x as int),
{
    let rec: Vec<FastDiv64> = Vec::new();
    c2_clustered_b(x, y, s, &rec, false, b, pi_table, sqrt_x)
}

/// `compute_c2_single_b` with every division by a listed prime taken with
/// its prepared divisor.
pub fn compute_c2_single_b_fast(
    x: u64,
    y: u64,
    s: &[u64],
    rec: &[FastDiv64],
    b: usize,
    pi_table: &PiTable,
    sqrt_x: u64,
) -> (r: i64)
    requires
        prime_list(s@),
        pi_table.valid(),
        c2_b_domain(x as int, y as int, s@, b as int, sqrt_x as int, pi_table.max_y as int),
        c2_b_reciprocals(x as int, s@, rec@, b as int),
        c2_single_b_abs(x as int, y as int, s@, b as int, sqrt_x as int) <= i64::MAX,
    ensures
        r == c2_single_b_sum(x as int, y as int, s@, b as int, sqrt_x as int),
{
    c2_clustered_b(x, y, s, rec, true, b, pi_table, sqrt_x)
}

/// Runs of the descent: the primes at indices [imin, i_count) all give the
/// count of the quotient of the prime at i_count - 1.
proof fn lemma_c2_run(s: Seq<u64>, xp: int, i_count: int, k: int, w: int, imin: int, j: int)
    requires
        prime_list(s),
        xp >= 0,
        1 <= i_count <= s.len(),
        k == prime_count(xp / (s[i_count - 1] as int)),
        0 <= k < s.len(),
        w >= xp / (s[k] as int),
        imin == i_count - 1 || imin == prime_count(w),
        imin <= j < i_count,
    ensures
        prime_count(xp / (s[j] as int)) == k,
{
    lemma_prime_list_sorted(s);
    let q = s[i_count - 1] as int;
    let t = s[j] as int;
    let pp = s[k] as int;
    assert(is_prime(q) && is_prime(t) && is_prime(pp));
    assert(t <= q);
    vstd::arithmetic::div_mod::lemma_div_is_ordered_by_denominator(xp, t, q);
    lemma_prime_count_monotone(xp / q, xp / t);
    if imin != i_count - 1 {
        lemma_prime_list_index(s, j, w);
        assert(t > w);
        // t > xp / P: the quotient xp / t lies below the next prime P.
        vstd::arithmetic::div_mod::lemma_fundamental_div_mod(xp, pp);
        vstd::arithmetic::div_mod::lemma_fundamental_div_mod(xp, t);
        assert(xp / t < pp) by (nonlinear_arith)
            requires
                t >= xp / pp + 1,
                pp > 0,
                t > 0,
                xp == pp * (xp / pp) + xp % pp,
                xp % pp < pp,
                xp == t * (xp / t) + xp % t,
                0 <= xp % t,
        ;
        lemma_prime_list_index(s, k, pp - 1);
        lemma_prime_count_monotone(xp / t, pp - 1);
    }
}

fn c2_clustered_b(
    x: u64,
    y: u64,
    s: &[u64],
    rec: &[FastDiv64],
    use_rec: bool,
    b: usize,
    pi_table: &PiTable,
    sqrt_x: u64,
) -> (r: i64)
    requires
        prime_list(s@),
        pi_table.valid(),
        c2_b_domain(x as int, y as int, s@, b as int, sqrt_x as int, pi_table.max_y as int),
        use_rec ==> c2_b_reciprocals(x as int, s@, rec@, b as int),
        c2_single_b_abs(x as int, y as int, s@, b as int, sqrt_x as int) <= i64::MAX,
    ensures
        r == c2_single_b_sum(x as int, y as int, s@, b as int, sqrt_x as int),
{
    let ghost ss = s@;
    proof {
        lemma_prime_list_sorted(ss);
    }
    let prime = s[b];
    if prime < 2 {
        return 0;
    }
    let xp = x / prime;
    let xp_div_p = xp / prime;
    let min_q = max_u64(max_u64(prime, xp_div_p / prime), sqrt_x / prime);
    let max_q = min_u64(xp_div_p, y);
    if min_q >= max_q {
        return 0;
    }
    let len = s.len();
    let ghost f = c2_term(xp as int, ss, b as int);
    let ghost g = abs_of(f);
    let j_lo = pi_table.pi(min_q) as usize;
    let mut j_hi = pi_table.pi(max_q) as usize;
    if j_hi > len {
        j_hi = len;
    }
    proof {
        lemma_prime_list_count_min(ss, min_q as int);
        lemma_prime_list_count_min(ss, max_q as int);
        lemma_prime_count_bound(max_q as int);
        lemma_prime_count_bound(min_q as int);
    }
    if j_lo >= j_hi {
        return 0;
    }
    let ghost total = c2_single_b_abs(x as int, y as int, ss, b as int, sqrt_x as int);
    assert(total == range_sum(j_lo as int, j_hi as int, g));
    // Cluster threshold: q above isqrt(xp) share quotients.
    let clustered_q = clamp_u64(isqrt(xp), min_q, max_q);
    let pc_cq = pi_table.pi(clustered_q) as usize;
    proof {
        lemma_prime_count_monotone(min_q as int, clustered_q as int);
        lemma_prime_count_bound(clustered_q as int);
    }
    let j_split = clamp_usize(pc_cq, j_lo, j_hi);
    let b1 = (b + 1) as i64;
    let mut b_sum: i64 = 0;
    proof {
        assert forall|k: int| j_lo <= k < j_hi implies -#[trigger] g(k) <= f(k) <= g(k) by {}
        assert forall|k: int| j_lo <= k < len implies #[trigger] ss[k] > min_q by {
            lemma_prime_list_index(ss, k, min_q as int);
        }
        assert forall|k: int| 0 <= k < j_hi implies #[trigger] ss[k] <= max_q by {
            lemma_prime_list_index(ss, k, max_q as int);
        }
    }
    // 1. Sparse region: one leaf at a time.
    let mut j = j_lo;
    while j < j_split
        invariant
            ss == s@,
            prime_list(ss),
            sorted(ss),
            pi_table.valid(),
            use_rec ==> c2_b_reciprocals(x as int, ss, rec@, b as int),
            prime == ss[b as int],
            prime >= 2,
            xp == x / prime,
            min_q < max_q,
            max_q <= pi_table.max_y,
            xp as int / (min_q + 1) <= pi_table.max_y,
            f == c2_term(xp as int, ss, b as int),
            g == abs_of(f),
            b1 == b + 1,
            len == ss.len(),
            j_lo <= j_split <= j_hi <= len,
            forall|k: int| j_lo <= k < len ==> #[trigger] ss[k] > min_q,
            forall|k: int| j_lo <= k < j_hi ==> -#[trigger] g(k) <= f(k) <= g(k),
            total == range_sum(j_lo as int, j_hi as int, g),
            total <= i64::MAX,
            j_lo <= j <= j_split,
            b_sum == range_sum(j_lo as int, j as int, f),
        decreases j_split - j,
    {
        let xpq = if use_rec {
            assert(rec@[j as int].divisor == ss[j as int]);
            rec[j].div(xp)
        } else {
            xp / s[j]
        };
        proof {
            vstd::arithmetic::div_mod::lemma_div_is_ordered_by_denominator(xp as int, min_q + 1, ss[j as int] as int);
            lemma_range_sum_dominated(j_lo as int, j + 1, j_hi as int, f, g);
            lemma_prime_count_bound(xpq as int);
        }
        b_sum = b_sum + (pi_table.pi(xpq) as i64 - b1 + 2);
        j += 1;
    }
    // 2. Clustered descent: one run of equal counts at a time.
    let mut i_count = j_hi;
    proof {
        assert(range_sum(j_hi as int, j_hi as int, f) == 0);
    }
    while i_count > j_split
        invariant
            ss == s@,
            prime_list(ss),
            sorted(ss),
            pi_table.valid(),
            use_rec ==> c2_b_reciprocals(x as int, ss, rec@, b as int),
            prime == ss[b as int],
            prime >= 2,
            xp == x / prime,
            min_q < max_q,
            max_q <= pi_table.max_y,
            xp as int / (min_q + 1) <= pi_table.max_y,
            f == c2_term(xp as int, ss, b as int),
            g == abs_of(f),
            b1 == b + 1,
            b < len,
            len == ss.len(),
            j_lo <= j_split <= i_count <= j_hi <= len,
            j_hi <= pi_table.max_y,
            j_split < j_hi ==> j_split == pc_cq,
            pc_cq == prime_count(clustered_q as int),
            clustered_q <= max_q,
            forall|k: int| j_lo <= k < len ==> #[trigger] ss[k] > min_q,
            forall|k: int| 0 <= k < j_hi ==> #[trigger] ss[k] <= max_q,
            forall|k: int| j_lo <= k < j_hi ==> -#[trigger] g(k) <= f(k) <= g(k),
            total == range_sum(j_lo as int, j_hi as int, g),
            total <= i64::MAX,
            b_sum == range_sum(j_lo as int, j_split as int, f) + range_sum(i_count as int, j_hi as int, f),
        decreases i_count,
    {
        let q = s[i_count - 1];
        let xpq = if use_rec {
            assert(rec@[i_count - 1].divisor == ss[i_count - 1]);
            rec[i_count - 1].div(xp)
        } else {
            xp / max_u64(q, 1)
        };
        proof {
            vstd::arithmetic::div_mod::lemma_div_is_ordered_by_denominator(xp as int, min_q + 1, q as int);
            lemma_prime_count_bound(xpq as int);
        }
        let pi_xpq = pi_table.pi(xpq) as usize;
        let phi = pi_xpq as i64 - b1 + 2;
        proof {
            // The pieces summed so far stay within the total of |leaves|.
            lemma_range_sum_split(j_lo as int, j_split as int, j_hi as int, g);
            lemma_range_sum_split(j_split as int, i_count - 1, j_hi as int, g);
            lemma_range_sum_split(j_split as int, i_count - 1, j_hi as int, f);
        }
        if pi_xpq >= len {
            proof {
                lemma_range_sum_split(i_count - 1, i_count as int, j_hi as int, f);
                lemma_range_sum_split(i_count - 1, i_count as int, j_hi as int, g);
                lemma_range_sum_dominated(j_lo as int, j_split as int, j_split as int, f, g);
                lemma_range_sum_dominated(i_count - 1, i_count - 1, j_hi as int, f, g);
                lemma_range_sum_dominated(i_count - 1, j_hi as int, j_hi as int, f, g);
                lemma_range_sum_dominated(j_split as int, i_count - 1, i_count - 1, f, g);
                lemma_range_sum_dominated(j_lo as int, j_split as int, j_split as int, f, g);
            }
            b_sum = b_sum + phi;
            i_count -= 1;
        } else {
            let next_p = s[pi_xpq];
            let xpq2 = if use_rec {
                assert(rec@[pi_xpq as int].divisor == ss[pi_xpq as int]);
                rec[pi_xpq].div(xp)
            } else {
                xp / max_u64(next_p, 1)
            };
            proof {
                // xpq2 lies below q: the table answers at it.
                lemma_prime_list_index(ss, pi_xpq as int, xpq as int);
                vstd::arithmetic::div_mod::lemma_fundamental_div_mod(xp as int, q as int);
                vstd::arithmetic::div_mod::lemma_fundamental_div_mod(xp as int, next_p as int);
                assert(xpq2 < q) by (nonlinear_arith)
                    requires
                        next_p >= xpq + 1,
                        q > 0,
                        xp == q * xpq + xp as int % (q as int),
                        xp as int % (q as int) < q,
                        xp == next_p * xpq2 + xp as int % (next_p as int),
                        0 <= xp as int % (next_p as int),
                ;
            }
            let w = max_u64(xpq2, clustered_q);
            proof {
                lemma_prime_count_bound(w as int);
            }
            let pc_w = pi_table.pi(w) as usize;
            let imin = min_usize(pc_w, i_count - 1);
            proof {
                lemma_prime_count_monotone(clustered_q as int, w as int);
                assert(imin >= j_split);
                assert forall|jj: int| imin <= jj < i_count implies #[trigger] f(jj) == phi by {
                    lemma_c2_run(ss, xp as int, i_count as int, pi_xpq as int, w as int, imin as int, jj);
                }
                assert forall|jj: int| imin <= jj < i_count implies #[trigger] g(jj) == if phi < 0 {
                    -phi
                } else {
                    phi as int
                } by {
                    lemma_c2_run(ss, xp as int, i_count as int, pi_xpq as int, w as int, imin as int, jj);
                }
                lemma_range_sum_const(imin as int, i_count as int, f, phi as int);
                lemma_range_sum_const(imin as int, i_count as int, g, if phi < 0 { -phi } else { phi as int });
                lemma_range_sum_split(imin as int, i_count as int, j_hi as int, f);
                lemma_range_sum_split(imin as int, i_count as int, j_hi as int, g);
                lemma_range_sum_split(j_split as int, imin as int, j_hi as int, g);
                lemma_range_sum_dominated(j_lo as int, j_split as int, j_split as int, f, g);
                lemma_range_sum_dominated(i_count as int, j_hi as int, j_hi as int, f, g);
                lemma_range_sum_dominated(j_split as int, imin as int, imin as int, f, g);
                lemma_range_sum_dominated(imin as int, imin as int, j_hi as int, f, g);
                lemma_range_sum_dominated(imin as int, j_hi as int, j_hi as int, f, g);
                assert((i_count - imin) * (if phi < 0 { -phi } else { phi as int }) == if phi * (i_count
                    - imin) < 0 {
                    -(phi * (i_count - imin))
                } else {
                    phi * (i_count - imin)
                }) by (nonlinear_arith)
                    requires
                        i_count - imin >= 0,
                ;
                assert(phi * (i_count - imin) == (i_count - imin) * phi) by (nonlinear_arith);
            }
            b_sum = b_sum + phi * (i_count - imin) as i64;
            i_count = imin;
        }
    }
    proof {
        assert(range_sum(j_lo as int, j_hi as int, f) == range_sum(j_lo as int, j_split as int, f) + range_sum(
            j_split as int,
            j_hi as int,
            f,
        )) by {
            lemma_range_sum_split(j_lo as int, j_split as int, j_hi as int, f);
        }
    }
    b_sum
}

/// C2(x, y, z) as the clustered evaluation gives it: 0 when y < 2 or z < 2.
pub open spec fn c2_clustered_sum(x: int, y: int, z: int, primes: Seq<u64>) -> int {
    if y < 2 || z < 2 {
        0
    } else {
        c2_formula_sum(x, y, z, primes)
    }
}

/// The two forms of C2 agree: wherever y >= 2 and z >= 2, the clustered
/// C2 is the scalar C2.
pub proof fn lemma_c2_forms_agree(x: int, y: int, z: int, primes: Seq<u64>)
    requires
        y >= 2,
        z >= 2,
    ensures
        c2_clustered_sum(x, y, z, primes) == c2_formula_sum(x, y, z, primes),
{
}

/// Clustered C2(x, y, z) over a list of the primes in order (a leading 0 is
/// skipped); 0 when y < 2 or z < 2.
pub fn compute_c2_clustered(x: u64, y: u64, z: u64, primes: &[u64], pi_table: &PiTable) -> (r: i64)
    requires
        prime_list(strip_sentinel(primes@)),
        pi_table.valid(),
        c2_formula_domain(x as int, y as int, z as int, primes@, pi_table.max_y as int),
        c2_formula_abs(x as int, y as int, z as int, primes@) <= i64::MAX,
    ensures
        r == c2_clustered_sum(x as int, y as int, z as int, primes@),
{
    if y < 2 || z < 2 {
        return 0;
    }
    let x_star = get_x_star_gourdon(x, y);
    let sqrt_z = isqrt(z);
    let sqrt_x = isqrt(x);
    let s = strip_sentinel_slice(primes);
    if s.len() == 0 {
        return 0;
    }
    proof {
        lemma_prime_list_sorted(s@);
    }
    let min_b = partition_point_le(s, sqrt_z);
    let max_b = partition_point_le(s, x_star);
    c2_sum_over_b(x, y, s, min_b, max_b, pi_table, sqrt_x, true)
}

/// C2(x, y, z): the C2 leaves of every prime sqrt(z) < p <= x_star of the
/// list (a leading 0 is skipped), with the window bound sqrt(x) / p.
pub open spec fn c2_formula_sum(x: int, y: int, z: int, primes: Seq<u64>) -> int {
    let s = strip_sentinel(primes);
    range_sum(
        count_le(s, floor_sqrt(z)) as int,
        count_le(s, x_star_spec(x, y)) as int,
        |b: int| c2_single_b_sum(x, y, s, b, floor_sqrt(x)),
    )
}

/// Sum over the C2 range of b of the leaves in absolute value.
pub open spec fn c2_formula_abs(x: int, y: int, z: int, primes: Seq<u64>) -> int {
    let s = strip_sentinel(primes);
    range_sum(
        count_le(s, floor_sqrt(z)) as int,
        count_le(s, x_star_spec(x, y)) as int,
        |b: int| c2_single_b_abs(x, y, s, b, floor_sqrt(x)),
    )
}

/// Every b of the C2 range reads the table within its reach.
pub open spec fn c2_formula_domain(x: int, y: int, z: int, primes: Seq<u64>, max_y: int) -> bool {
    let s = strip_sentinel(primes);
    forall|b: int|
        count_le(s, floor_sqrt(z)) <= b < count_le(s, x_star_spec(x, y)) ==> #[trigger] c2_b_domain(
            x,
            y,
            s,
            b,
            floor_sqrt(x),
            max_y,
        )
}

/// C2 leaves for b in (pi(sqrt(z)), pi(x_star)], one division and one
/// lookup per leaf.
pub fn compute_c2_formula(x: u64, y: u64, z: u64, primes: &[u64], pi_table: &PiTable) -> (r: i64)
    requires
        sorted(primes@),
        pi_table.valid(),
        c2_formula_domain(x as int, y as int, z as int, primes@, pi_table.max_y as int),
        c2_formula_abs(x as int, y as int, z as int, primes@) <= i64::MAX,
    ensures
        r == c2_formula_sum(x as int, y as int, z as int, primes@),
{
    let x_star = get_x_star_gourdon(x, y);
    let sqrt_z = isqrt(z);
    let sqrt_x = isqrt(x);
    let prime_slice = strip_sentinel_slice(primes);
    proof {
        crate::sampled_index::lemma_strip_sorted(primes@);
    }
    let min_b = partition_point_le(prime_slice, sqrt_z);
    let max_b = partition_point_le(prime_slice, x_star);
    c2_sum_over_b(x, y, prime_slice, min_b, max_b, pi_table, sqrt_x, false)
}

/// sum over b in [min_b, max_b) of the C2 leaves of b, scalar or clustered.
fn c2_sum_over_b(
    x: u64,
    y: u64,
    s: &[u64],
    min_b: usize,
    max_b: usize,
    pi_table: &PiTable,
    sqrt_x: u64,
    clustered: bool,
) -> (r: i64)
    requires
        sorted(s@),
        clustered ==> prime_list(s@),
        pi_table.valid(),
        forall|b: int| min_b <= b < max_b ==> #[trigger] c2_b_domain(
            x as int,
            y as int,
            s@,
            b,
            sqrt_x as int,
            pi_table.max_y as int,
        ),
        min_b < max_b ==> range_sum(
            min_b as int,
            max_b as int,
            |b: int| c2_single_b_abs(x as int, y as int, s@, b, sqrt_x as int),
        ) <= i64::MAX,
    ensures
        r == range_sum(
            min_b as int,
            max_b as int,
            |b: int| c2_single_b_sum(x as int, y as int, s@, b, sqrt_x as int),
        ),
{
    let ghost f = |b: int| c2_single_b_sum(x as int, y as int, s@, b, sqrt_x as int);
    let ghost g = |b: int| c2_single_b_abs(x as int, y as int, s@, b, sqrt_x as int);
    if min_b >= max_b {
        return 0;
    }
    proof {
        assert forall|b: int| min_b <= b < max_b implies -#[trigger] g(b) <= f(b) <= g(b) by {
            lemma_c2_abs_nonneg(x as int, y as int, s@, b, sqrt_x as int);
        }
    }
    let mut sum: i64 = 0;
    let mut b = min_b;
    while b < max_b
        invariant
            sorted(s@),
            clustered ==> prime_list(s@),
            pi_table.valid(),
            f == (|b: int| c2_single_b_sum(x as int, y as int, s@, b, sqrt_x as int)),
            g == (|b: int| c2_single_b_abs(x as int, y as int, s@, b, sqrt_x as int)),
            forall|k: int| min_b <= k < max_b ==> #[trigger] c2_b_domain(
                x as int,
                y as int,
                s@,
                k,
                sqrt_x as int,
                pi_table.max_y as int,
            ),
            forall|k: int| min_b <= k < max_b ==> -#[trigger] g(k) <= f(k) <= g(k),
            range_sum(min_b as int, max_b as int, g) <= i64::MAX,
            min_b <= b <= max_b,
            sum == range_sum(min_b as int, b as int, f),
        decreases max_b - b,
    {
        proof {
            assert(c2_b_domain(x as int, y as int, s@, b as int, sqrt_x as int, pi_table.max_y as int));
            lemma_range_sum_dominated(min_b as int, b + 1, max_b as int, f, g);
            lemma_range_sum_dominated(min_b as int, b as int, max_b as int, f, g);
            lemma_range_sum_dominated(min_b as int, b + 1, b + 1, f, g);
            assert(g(b as int) <= range_sum(min_b as int, b + 1, g));
            lemma_c2_abs_nonneg(x as int, y as int, s@, b as int, sqrt_x as int);
        }
        let t = if clustered {
            compute_c2_single_b(x, y, s, b, pi_table, sqrt_x)
        } else {
            c2_scalar_b(x, y, s, b, pi_table, sqrt_x)
        };
        sum = sum + t;
        b += 1;
    }
    sum
}

/// The C1 sum below a node: for the listed primes p_i, i >= i (1-based,
/// i <= pi_y), while m * p_i stays within u64 and max_m, the leaf
/// sign * (pi(xp / (m p_i)) - b1 + 2) when m p_i > min_m, the products
/// extended further with the sign flipped, and the remaining primes.
pub open spec fn c1_spec(
    xp: int,
    b1: int,
    i: int,
    pi_y: int,
    m: int,
    min_m: int,
    max_m: int,
    s: Seq<u64>,
    sign: int,
) -> int
    decreases pi_y + 1 - i,
{
    if i < 1 || i > pi_y || i - 1 >= s.len() {
        0
    } else {
        let mn = m * (s[i - 1] as int);
        if mn > u64::MAX || mn > max_m {
            0
        } else {
            (if mn > min_m { sign * (prime_count(xp / mn) - b1 + 2) } else { 0 }) + c1_spec(
                xp,
                b1,
                i + 1,
                pi_y,
                mn,
                min_m,
                max_m,
                s,
                -sign,
            ) + c1_spec(xp, b1, i + 1, pi_y, m, min_m, max_m, s, sign)
        }
    }
}

/// The same sum with every leaf taken in absolute value.
pub open spec fn c1_abs(xp: int, b1: int, i: int, pi_y: int, m: int, min_m: int, max_m: int, s: Seq<u64>) -> int
    decreases pi_y + 1 - i,
{
    if i < 1 || i > pi_y || i - 1 >= s.len() {
        0
    } else {
        let mn = m * (s[i - 1] as int);
        if mn > u64::MAX || mn > max_m {
            0
        } else {
            (if mn > min_m {
                let t = prime_count(xp / mn) - b1 + 2;
                if t < 0 {
                    -t
                } else {
                    t
                }
            } else {
                0
            }) + c1_abs(xp, b1, i + 1, pi_y, mn, min_m, max_m, s) + c1_abs(
                xp,
                b1,
                i + 1,
                pi_y,
                m,
                min_m,
                max_m,
                s,
            )
        }
    }
}

/// |sign|.
pub open spec fn sign_abs(sign: int) -> int {
    if sign < 0 {
        -sign
    } else {
        sign
    }
}

/// |C1 sum| <= |sign| times its sum of absolute values.
proof fn lemma_c1_abs_bound(
    xp: int,
    b1: int,
    i: int,
    pi_y: int,
    m: int,
    min_m: int,
    max_m: int,
    s: Seq<u64>,
    sign: int,
)
    ensures
        0 <= c1_abs(xp, b1, i, pi_y, m, min_m, max_m, s),
        -(sign_abs(sign) * c1_abs(xp, b1, i, pi_y, m, min_m, max_m, s)) <= c1_spec(
            xp,
            b1,
            i,
            pi_y,
            m,
            min_m,
            max_m,
            s,
            sign,
        ) <= sign_abs(sign) * c1_abs(xp, b1, i, pi_y, m, min_m, max_m, s),
    decreases pi_y + 1 - i,
{
    let w = sign_abs(sign);
    if i < 1 || i > pi_y || i - 1 >= s.len() {
        assert(w * 0 == 0) by (nonlinear_arith);
    } else {
        let mn = m * (s[i - 1] as int);
        if mn > u64::MAX || mn > max_m {
            assert(w * 0 == 0) by (nonlinear_arith);
        } else {
            lemma_c1_abs_bound(xp, b1, i + 1, pi_y, mn, min_m, max_m, s, -sign);
            lemma_c1_abs_bound(xp, b1, i + 1, pi_y, m, min_m, max_m, s, sign);
            assert(sign_abs(-sign) == w);
            let ca = c1_abs(xp, b1, i + 1, pi_y, mn, min_m, max_m, s);
            let ra = c1_abs(xp, b1, i + 1, pi_y, m, min_m, max_m, s);
            let t = prime_count(xp / mn) - b1 + 2;
            let ta = if mn > min_m { if t < 0 { -t } else { t } } else { 0 };
            let ts = if mn > min_m { sign * t } else { 0 };
            assert(-(w * ta) <= ts <= w * ta) by (nonlinear_arith)
                requires
                    w == if sign < 0 { -sign } else { sign },
                    ta == if mn > min_m { if t < 0 { -t } else { t } } else { 0 },
                    ts == if mn > min_m { sign * t } else { 0 },
            ;
            assert(w * (ta + ca + ra) == w * ta + w * ca + w * ra) by (nonlinear_arith);
        }
    }
}

/// Recursive C1 kernel: squarefree m built from the listed primes, each
/// leaf weighted by `mu_sign` times (-1) per factor taken after m.
pub fn c1_rec(
    xp: u64,
    b1: i64,
    i: usize,
    pi_y: usize,
    m: u64,
    min_m: u64,
    max_m: u64,
    s: &[u64],
    pi_table: &PiTable,
    mu_sign: i64,
) -> (r: i64)
    requires
        i >= 1,
        pi_y < usize::MAX,
        mu_sign != i64::MIN,
        pi_table.valid(),
        xp as int / (min_m + 1) <= pi_table.max_y,
        sign_abs(mu_sign as int) * c1_abs(
            xp as int,
            b1 as int,
            i as int,
            pi_y as int,
            m as int,
            min_m as int,
            max_m as int,
            s@,
        ) <= i64::MAX,
    ensures
        r == c1_spec(
            xp as int,
            b1 as int,
            i as int,
            pi_y as int,
            m as int,
            min_m as int,
            max_m as int,
            s@,
            mu_sign as int,
        ),
    decreases pi_y + 1 - i,
{
    let ghost i0 = i as int;
    let ghost w = sign_abs(mu_sign as int);
    let ghost total = c1_abs(xp as int, b1 as int, i0, pi_y as int, m as int, min_m as int, max_m as int, s@);
    let ghost whole = c1_spec(
        xp as int,
        b1 as int,
        i0,
        pi_y as int,
        m as int,
        min_m as int,
        max_m as int,
        s@,
        mu_sign as int,
    );
    let mut sum: i64 = 0;
    let mut idx = i;
    let ghost mut done: int = 0;
    proof {
        lemma_c1_abs_bound(xp as int, b1 as int, i0, pi_y as int, m as int, min_m as int, max_m as int, s@, mu_sign as int);
        assert(w >= 0);
        assert(w * 0 == 0) by (nonlinear_arith);
    }
    while idx <= pi_y
        invariant
            i0 == i,
            i0 >= 1,
            i0 <= idx,
            pi_y < usize::MAX,
            mu_sign != i64::MIN,
            w == sign_abs(mu_sign as int),
            w >= 0,
            pi_table.valid(),
            xp as int / (min_m + 1) <= pi_table.max_y,
            total == c1_abs(xp as int, b1 as int, i0, pi_y as int, m as int, min_m as int, max_m as int, s@),
            w * total <= i64::MAX,
            whole == c1_spec(
                xp as int,
                b1 as int,
                i0,
                pi_y as int,
                m as int,
                min_m as int,
                max_m as int,
                s@,
                mu_sign as int,
            ),
            sum + c1_spec(
                xp as int,
                b1 as int,
                idx as int,
                pi_y as int,
                m as int,
                min_m as int,
                max_m as int,
                s@,
                mu_sign as int,
            ) == whole,
            0 <= done,
            -(w * done) <= sum <= w * done,
            done + c1_abs(
                xp as int,
                b1 as int,
                idx as int,
                pi_y as int,
                m as int,
                min_m as int,
                max_m as int,
                s@,
            ) == total,
        ensures
            sum == whole,
        decreases pi_y + 1 - idx,
    {
        if idx - 1 >= s.len() {
            assert(c1_spec(
                xp as int,
                b1 as int,
                idx as int,
                pi_y as int,
                m as int,
                min_m as int,
                max_m as int,
                s@,
                mu_sign as int,
            ) == 0);
            assert(sum == whole);
            return sum;
        }
        let p = s[idx - 1];
        let m_next = match m.checked_mul(p) {
            Some(v) => v,
            None => {
                return sum;
            },
        };
        if m_next > max_m {
            return sum;
        }
        let ghost rest = c1_abs(xp as int, b1 as int, idx + 1, pi_y as int, m as int, min_m as int, max_m as int, s@);
        let ghost child = c1_abs(
            xp as int,
            b1 as int,
            idx + 1,
            pi_y as int,
            m_next as int,
            min_m as int,
            max_m as int,
            s@,
        );
        proof {
            lemma_c1_abs_bound(xp as int, b1 as int, idx + 1, pi_y as int, m_next as int, min_m as int, max_m as int, s@, -mu_sign);
            lemma_c1_abs_bound(xp as int, b1 as int, idx + 1, pi_y as int, m as int, min_m as int, max_m as int, s@, mu_sign as int);
            assert(sign_abs(-mu_sign) == w);
        }
        let ghost mut leaf_abs: int = 0;
        if m_next > min_m {
            let xpm = xp / max_u64(m_next, 1);
            proof {
                vstd::arithmetic::div_mod::lemma_div_is_ordered_by_denominator(xp as int, min_m + 1, m_next as int);
                lemma_prime_count_bound(xpm as int);
                let t = prime_count(xpm as int) - b1 + 2;
                leaf_abs = if t < 0 { -t } else { t };
                assert(-(w * leaf_abs) <= mu_sign * t <= w * leaf_abs) by (nonlinear_arith)
                    requires
                        w == if mu_sign < 0 { -mu_sign } else { mu_sign as int },
                        leaf_abs == if t < 0 { -t } else { t },
                ;
                assert(w * (done + leaf_abs + child + rest) == w * done + w * leaf_abs + w * child + w * rest)
                    by (nonlinear_arith);
                assert(w * child >= 0 && w * rest >= 0 && w * done >= 0) by (nonlinear_arith)
                    requires
                        w >= 0,
                        child >= 0,
                        rest >= 0,
                        done >= 0,
                ;
            }
            let t = pi_table.pi(xpm) as i128 - b1 as i128 + 2;
            sum = (sum as i128 + (mu_sign as i128) * t) as i64;
        }
        proof {
            assert(done + leaf_abs + child + rest == total);
            assert(w * child <= w * total) by (nonlinear_arith)
                requires
                    w >= 0,
                    0 <= child <= total,
            ;
        }
        let sub = c1_rec(xp, b1, idx + 1, pi_y, m_next, min_m, max_m, s, pi_table, -mu_sign);
        proof {
            assert(w * (done + leaf_abs + child + rest) == w * done + w * leaf_abs + w * child + w * rest)
                by (nonlinear_arith);
            assert(w * leaf_abs >= 0 && w * rest >= 0 && w * done >= 0) by (nonlinear_arith)
                requires
                    w >= 0,
                    leaf_abs >= 0,
                    rest >= 0,
                    done >= 0,
            ;
        }
        sum = sum + sub;
        idx += 1;
        proof {
            assert(done + leaf_abs + child + rest == total);
            assert(w * (done + leaf_abs + child) == w * done + w * leaf_abs + w * child) by (nonlinear_arith);
            done = done + leaf_abs + child;
        }
    }
    sum
}

/// The C1 leaves of the prime s[j] (b = j + 1): the C1 sum from the next
/// prime on, started at m = 1 with a negative sign, over m in
/// (max(x / p^3, z / p), min(x / p^2, z)].
pub open spec fn c1_b_sum(x: int, z: int, j: int, pi_y: int, s: Seq<u64>) -> int {
    let p = s[j] as int;
    let xp = x / p;
    let xpp = xp / p;
    let max_m = min_spec(xpp, z);
    let min_m = min_spec(max_spec(xpp / p, z / p), max_m);
    if p < 2 {
        0
    } else {
        c1_spec(xp, j + 1, j + 2, pi_y, 1, min_m, max_m, s, -1)
    }
}

/// The same in absolute value.
pub open spec fn c1_b_abs(x: int, z: int, j: int, pi_y: int, s: Seq<u64>) -> int {
    let p = s[j] as int;
    let xp = x / p;
    let xpp = xp / p;
    let max_m = min_spec(xpp, z);
    let min_m = min_spec(max_spec(xpp / p, z / p), max_m);
    if p < 2 {
        0
    } else {
        c1_abs(xp, j + 1, j + 2, pi_y, 1, min_m, max_m, s)
    }
}

/// The b range of C1: (max(k, pi(cbrt(x / z))), pi(sqrt(z))], 0-based.
pub open spec fn c1_range(x: int, z: int, k: int, s: Seq<u64>) -> (int, int) {
    let b_start = max_spec(k, prime_count(floor_cbrt(x / z)) as int) + 1;
    let b_end = prime_count(floor_sqrt(z)) as int;
    (b_start - 1, min_spec(b_end, s.len() as int))
}

/// C1(x, y, z): the C1 leaves of every b of its range (a leading 0 of the
/// list is skipped); 0 when y < 2, z < 2 or the list is empty.
pub open spec fn c1_native_sum(x: int, y: int, z: int, k: int, primes: Seq<u64>) -> int {
    let s = strip_sentinel(primes);
    let (lo, hi) = c1_range(x, z, k, s);
    if y < 2 || z < 2 || s.len() == 0 {
        0
    } else {
        range_sum(lo, hi, |j: int| c1_b_sum(x, z, j, prime_count(y) as int, s))
    }
}

/// Sum of |C1 leaves| over the C1 range.
pub open spec fn c1_native_abs(x: int, y: int, z: int, k: int, primes: Seq<u64>) -> int {
    let s = strip_sentinel(primes);
    let (lo, hi) = c1_range(x, z, k, s);
    if y < 2 || z < 2 || s.len() == 0 {
        0
    } else {
        range_sum(lo, hi, |j: int| c1_b_abs(x, z, j, prime_count(y) as int, s))
    }
}

/// The C1 leaves of s[j] read the table within its reach.
pub open spec fn c1_b_domain(x: int, z: int, j: int, s: Seq<u64>, max_y: int) -> bool {
    let p = s[j] as int;
    let xp = x / p;
    let xpp = xp / p;
    let max_m = min_spec(xpp, z);
    let min_m = min_spec(max_spec(xpp / p, z / p), max_m);
    p >= 2 ==> xp / (min_m + 1) <= max_y && j + 2 < i64::MAX && j + 2 < usize::MAX
}

/// The table reaches cbrt(x / z), sqrt(z), y and every C1 quotient.
pub open spec fn c1_native_domain(x: int, y: int, z: int, k: int, primes: Seq<u64>, max_y: int) -> bool {
    let s = strip_sentinel(primes);
    let (lo, hi) = c1_range(x, z, k, s);
    (y >= 2 && z >= 2 && s.len() > 0) ==> {
        &&& floor_cbrt(x / z) <= max_y
        &&& floor_sqrt(z) <= max_y
        &&& y <= max_y
        &&& k < usize::MAX
        &&& forall|j: int| lo <= j < hi ==> #[trigger] c1_b_domain(x, z, j, s, max_y)
    }
}

/// C1 leaves for b in (max(k, pi(cbrt(x / z))), pi(sqrt(z))].
pub fn compute_c1_native(x: u64, y: u64, z: u64, k: usize, primes: &[u64], pi_table: &PiTable) -> (r: i64)
    requires
        pi_table.valid(),
        c1_native_domain(x as int, y as int, z as int, k as int, primes@, pi_table.max_y as int),
        c1_native_abs(x as int, y as int, z as int, k as int, primes@) <= i64::MAX,
    ensures
        r == c1_native_sum(x as int, y as int, z as int, k as int, primes@),
{
    if y < 2 || z < 2 {
        return 0;
    }
    let s = strip_sentinel_slice(primes);
    if s.len() == 0 {
        return 0;
    }
    let ghost ss = s@;
    let cbrt_x_div_z = icbrt(x / z);
    let sqrt_z = isqrt(z);
    proof {
        lemma_prime_count_bound(cbrt_x_div_z as int);
        lemma_prime_count_bound(sqrt_z as int);
        lemma_prime_count_bound(y as int);
    }
    let pi_cbrt = pi_table.pi(cbrt_x_div_z) as usize;
    let b_start = max_usize(k, pi_cbrt) + 1;
    let b_end = pi_table.pi(sqrt_z) as usize;
    if b_start > b_end {
        return 0;
    }
    let pi_y = pi_table.pi(y) as usize;
    let ghost f = |j: int| c1_b_sum(x as int, z as int, j, pi_y as int, ss);
    let ghost g = |j: int| c1_b_abs(x as int, z as int, j, pi_y as int, ss);
    let hi = min_usize(b_end, s.len());
    let mut total: i64 = 0;
    let mut j = b_start - 1;
    proof {
        assert forall|jj: int| b_start - 1 <= jj < hi implies -#[trigger] g(jj) <= f(jj) <= g(jj) by {
            let p = ss[jj] as int;
            let xp = x as int / p;
            let xpp = xp / p;
            let max_m = min_spec(xpp, z as int);
            let min_m = min_spec(max_spec(xpp / p, z as int / p), max_m);
            if p >= 2 {
                lemma_c1_abs_bound(xp, jj + 1, jj + 2, pi_y as int, 1, min_m, max_m, ss, -1);
            }
        }
    }
    while j < hi
        invariant
            ss == s@,
            ss == strip_sentinel(primes@),
            pi_table.valid(),
            f == (|j: int| c1_b_sum(x as int, z as int, j, pi_y as int, ss)),
            g == (|j: int| c1_b_abs(x as int, z as int, j, pi_y as int, ss)),
            pi_y == prime_count(y as int),
            pi_y <= y,
            y <= pi_table.max_y,
            y >= 2,
            z >= 2,
            ss.len() > 0,
            c1_native_domain(x as int, y as int, z as int, k as int, primes@, pi_table.max_y as int),
            c1_range(x as int, z as int, k as int, ss) == (b_start - 1, hi as int),
            forall|jj: int| b_start - 1 <= jj < hi ==> -#[trigger] g(jj) <= f(jj) <= g(jj),
            range_sum(b_start - 1, hi as int, g) <= i64::MAX,
            b_start - 1 <= j <= max_spec(b_start - 1, hi as int),
            hi <= ss.len(),
            total == range_sum(b_start - 1, j as int, f),
        decreases hi - j,
    {
        let prime = s[j];
        proof {
            lemma_range_sum_dominated(b_start - 1, j + 1, hi as int, f, g);
            lemma_range_sum_dominated(b_start - 1, j as int, hi as int, f, g);
            lemma_range_sum_dominated(b_start - 1, j + 1, j + 1, f, g);
        }
        if prime >= 2 {
            let xp = x / prime;
            let xp_div_p = xp / prime;
            let max_m = min_u64(xp_div_p, z);
            let min_m128 = max_u64(xp_div_p / prime, z / prime);
            let min_m = min_u64(min_m128, max_m);
            let b1 = (j + 1) as i64;
            proof {
                assert(c1_b_domain(x as int, z as int, j as int, ss, pi_table.max_y as int));
                assert(xp as int / (min_m + 1) <= pi_table.max_y && j + 2 < i64::MAX);
                assert(g(j as int) <= range_sum(b_start - 1, j + 1, g));
            }
            total = total + c1_rec(xp, b1, j + 2, pi_y, 1, min_m, max_m, s, pi_table, -1);
        }
        j += 1;
    }
    proof {
        if hi < b_start - 1 {
            assert(range_sum(b_start - 1, hi as int, f) == 0);
        }
    }
    total
}

/// A >= 0, and C1 and C2 lie within their sums of absolute values; a list
/// whose strip is a prime list is ascending.
proof fn ac_native_bounds(x: int, y: int, z: int, k: int, primes: Seq<u64>)
    requires
        prime_list(strip_sentinel(primes)),
    ensures
        sorted(primes),
        a_formula_sum(x, y, primes) >= 0,
        -c1_native_abs(x, y, z, k, primes) <= c1_native_sum(x, y, z, k, primes) <= c1_native_abs(
            x,
            y,
            z,
            k,
            primes,
        ),
        -c2_formula_abs(x, y, z, primes) <= c2_formula_sum(x, y, z, primes) <= c2_formula_abs(x, y, z, primes),
{
    let s = strip_sentinel(primes);
    lemma_prime_list_sorted(s);
    assert(sorted(primes)) by {
        assert forall|i: int, j: int| 0 <= i <= j < primes.len() implies #[trigger] primes[i] <= #[trigger] primes[j] by {
            if primes.len() >= 1 && primes[0] == 0 {
                if i >= 1 {
                    assert(primes[i] == s[i - 1] && primes[j] == s[j - 1]);
                }
            } else {
                assert(primes[i] == s[i] && primes[j] == s[j]);
            }
        }
    }
    // A
    let alo = count_le(s, x_star_spec(x, y)) as int;
    let ahi = count_le(s, floor_cbrt(x)) as int;
    let fa = |b: int| a_single_b_sum(x, y, s, b);
    if alo <= ahi {
        assert forall|b: int| alo <= b < ahi implies #[trigger] fa(b) >= 0 by {
            lemma_a_single_b_nonneg(x, y, s, b);
        }
        lemma_range_sum_nonneg_bound(alo, ahi, ahi, fa);
    }
    // C2
    let clo = count_le(s, floor_sqrt(z)) as int;
    let chi = count_le(s, x_star_spec(x, y)) as int;
    let f2 = |b: int| c2_single_b_sum(x, y, s, b, floor_sqrt(x));
    let g2 = |b: int| c2_single_b_abs(x, y, s, b, floor_sqrt(x));
    if clo <= chi {
        assert forall|b: int| clo <= b < chi implies -#[trigger] g2(b) <= f2(b) <= g2(b) by {
            lemma_c2_abs_nonneg(x, y, s, b, floor_sqrt(x));
        }
        lemma_range_sum_dominated(clo, chi, chi, f2, g2);
    }
    // C1
    if !(y < 2 || z < 2 || s.len() == 0) {
        let (lo, hi) = c1_range(x, z, k, s);
        let f1 = |j: int| c1_b_sum(x, z, j, prime_count(y) as int, s);
        let g1 = |j: int| c1_b_abs(x, z, j, prime_count(y) as int, s);
        if lo <= hi {
            assert forall|j: int| lo <= j < hi implies -#[trigger] g1(j) <= f1(j) <= g1(j) by {
                let p = s[j] as int;
                let xp = x / p;
                let xpp = xp / p;
                let max_m = min_spec(xpp, z);
                let min_m = min_spec(max_spec(xpp / p, z / p), max_m);
                if p >= 2 {
                    lemma_c1_abs_bound(xp, j + 1, j + 2, prime_count(y) as int, 1, min_m, max_m, s, -1);
                }
            }
            lemma_range_sum_dominated(lo, hi, hi, f1, g1);
        }
    }
}

/// AC(x, y, z): the value `compute_ac_native` gives.
pub open spec fn ac_native_sum(x: int, y: int, z: int, k: int, primes: Seq<u64>) -> int {
    a_formula_sum(x, y, primes) - c1_native_sum(x, y, z, k, primes) + if y < 2 || z < 2 {
        0
    } else {
        c2_formula_sum(x, y, z, primes)
    }
}

/// AC = A - C1 + C2: the native AC total is the A sum, less the C1 sum,
/// plus the clustered C2 sum, the three that `compute_a_formula`,
/// `compute_c1_native` and `compute_c2_clustered` give.
pub proof fn lemma_ac_is_a_minus_c1_plus_c2(x: int, y: int, z: int, k: int, primes: Seq<u64>)
    ensures
        ac_native_sum(x, y, z, k, primes) == a_formula_sum(x, y, primes) - c1_native_sum(x, y, z, k, primes)
            + c2_clustered_sum(x, y, z, primes),
{
}

/// AC(x, y, z) = A(x, y) - C1(x, y, z) + C2(x, y, z), with C2 clustered.
pub fn compute_ac_native(x: u64, y: u64, z: u64, k: usize, primes: &[u64], pi_table: &PiTable) -> (r: i64)
    requires
        pi_table.valid(),
        prime_list(strip_sentinel(primes@)),
        a_formula_domain(x as int, y as int, primes@, pi_table.max_y as int),
        c1_native_domain(x as int, y as int, z as int, k as int, primes@, pi_table.max_y as int),
        c2_formula_domain(x as int, y as int, z as int, primes@, pi_table.max_y as int),
        a_formula_sum(x as int, y as int, primes@) + c1_native_abs(x as int, y as int, z as int, k as int, primes@)
            + c2_formula_abs(x as int, y as int, z as int, primes@) <= i64::MAX,
    ensures
        r == ac_native_sum(x as int, y as int, z as int, k as int, primes@),
{
    proof {
        ac_native_bounds(x as int, y as int, z as int, k as int, primes@);
    }
    let a = compute_a_formula(x, y, primes, pi_table);
    let c1 = compute_c1_native(x, y, z, k, primes, pi_table);
    let c2 = compute_c2_clustered(x, y, z, primes, pi_table);
    a - c1 + c2
}

/// Length of a quotient window in integers.
pub const SEGMENT_Q: u64 = 16384;

/// Base prime `p` crosses `n` out in a window ending before `high`.
pub open spec fn crosses(p: int, n: int, high: int) -> bool {
    p >= 3 && p * p < high && n % p == 0 && n >= p * p
}

/// `n` survives the sieve of a window ending before `high` run with `bp`.
pub open spec fn survives(n: int, high: int, bp: Seq<u64>) -> bool {
    n != 1 && !(exists|j: int| 0 <= j < bp.len() && #[trigger] crosses(bp[j] as int, n, high))
}

/// Number of surviving odd integers in [lo, v].
pub open spec fn odd_survivors(lo: int, v: int, high: int, bp: Seq<u64>) -> nat
    decreases v - lo + 1,
{
    if v < lo {
        0
    } else {
        odd_survivors(lo, v - 1, high, bp) + if v % 2 == 1 && survives(v, high, bp) {
            1nat
        } else {
            0nat
        }
    }
}

/// What a window answers for `v`: the count below the window, the odd
/// survivors up to `v`, and the prime 2 when the window starts at 1.
pub open spec fn window_pi(low: int, base: int, v: int, high: int, bp: Seq<u64>) -> int {
    base + odd_survivors(low, v, high, bp) + if v >= 2 && low <= 2 { 1int } else { 0int }
}

/// First odd multiple of `p` at or above max(p * p, low).
pub open spec fn window_start(p: int, low: int) -> int {
    let c = ((low + p - 1) / p) * p;
    let m0 = if p * p >= c { p * p } else { c };
    if m0 % 2 == 0 {
        m0 + p
    } else {
        m0
    }
}

/// `n` is an odd multiple of `p` at or above max(p * p, low).
pub open spec fn odd_multiple_reaching(n: int, p: int, low: int) -> bool {
    n % 2 == 1 && n % p == 0 && n >= p * p && n >= low
}

proof fn lemma_odd_product(a: int, p: int)
    requires
        p % 2 == 1,
        (a * p) % 2 == 1,
    ensures
        a % 2 == 1,
{
    lemma_fundamental_div_mod(a, 2);
    let k = a / 2;
    if a % 2 == 0 {
        assert(a * p == (k * p) * 2) by (nonlinear_arith)
            requires
                a == 2 * k + 0,
        ;
        lemma_mod_multiples_basic(k * p, 2);
    }
}

/// window_start is an odd multiple of p, at least p * p and low, and no odd
/// multiple of p at least p * p and low lies below it.
proof fn lemma_window_start(p: int, low: int)
    requires
        p >= 3,
        p % 2 == 1,
        low >= 1,
    ensures
        window_start(p, low) % p == 0,
        window_start(p, low) % 2 == 1,
        window_start(p, low) >= p * p,
        window_start(p, low) >= low,
        forall|n: int| #[trigger] odd_multiple_reaching(n, p, low) ==> n >= window_start(p, low),
{
    let q = (low + p - 1) / p;
    let c = q * p;
    lemma_fundamental_div_mod(low + p - 1, p);
    assert(c >= low) by (nonlinear_arith)
        requires
            low + p - 1 == p * q + (low + p - 1) % p,
            (low + p - 1) % p < p,
            c == q * p,
    ;
    lemma_mod_multiples_basic(q, p);
    lemma_mod_multiples_basic(p, p);
    let m0 = if p * p >= c { p * p } else { c };
    let b0 = if p * p >= c { p } else { q };
    assert(m0 == b0 * p);
    assert(b0 >= 1) by (nonlinear_arith)
        requires
            m0 == b0 * p,
            m0 >= low,
            low >= 1,
            p >= 3,
    ;
    if m0 % 2 == 0 {
        assert(m0 + p == (b0 + 1) * p) by (nonlinear_arith)
            requires
                m0 == b0 * p,
        ;
        lemma_mod_multiples_basic(b0 + 1, p);
        lemma_fundamental_div_mod(m0, 2);
        assert((m0 + p) % 2 == 1) by {
            vstd::arithmetic::div_mod::lemma_mod_adds(m0, p, 2);
        }
    }
    assert forall|n: int| #[trigger] odd_multiple_reaching(n, p, low) implies n >= window_start(p, low) by {
        lemma_fundamental_div_mod(n, p);
        let a = n / p;
        assert(n == a * p) by (nonlinear_arith)
            requires
                n == p * a + n % p,
                n % p == 0,
        ;
        // every multiple a * p >= low has a >= q
        assert(a >= q) by {
            assert((low + p - 1) / p <= (a * p + p - 1) / p) by {
                vstd::arithmetic::div_mod::lemma_div_is_ordered(low + p - 1, a * p + p - 1, p);
            }
            assert((a * p + p - 1) / p == a) by {
                vstd::arithmetic::div_mod::lemma_fundamental_div_mod_converse_div(
                    a * p + p - 1,
                    p,
                    a,
                    p - 1,
                );
            }
        }
        assert(a >= p) by (nonlinear_arith)
            requires
                n == a * p,
                n >= p * p,
                p >= 3,
        ;
        assert(a >= b0);
        if m0 % 2 == 0 {
            lemma_odd_product(a, p);
            if a == b0 {
                assert(n == m0);
            }
            assert(a >= b0 + 1);
            assert(n >= (b0 + 1) * p) by (nonlinear_arith)
                requires
                    n == a * p,
                    a >= b0 + 1,
                    p >= 0,
            ;
            assert(m0 + p == (b0 + 1) * p) by (nonlinear_arith)
                requires
                    m0 == b0 * p,
            ;
        } else {
            assert(n >= b0 * p) by (nonlinear_arith)
                requires
                    n == a * p,
                    a >= b0,
                    p >= 0,
            ;
        }
    }
}

/// The odd integers `low + 2 i` that p crosses out are exactly the indices
/// reached from `lo_idx` in steps of p.
proof fn lemma_cross_index(p: int, low: int, high: int, lo_idx: int, i: int)
    requires
        p >= 3,
        p % 2 == 1,
        low >= 1,
        low % 2 == 1,
        p * p < high,
        low + 2 * lo_idx == window_start(p, low),
        i >= 0,
    ensures
        crosses(p, low + 2 * i, high) <==> (i >= lo_idx && (i - lo_idx) % p == 0),
{
    lemma_window_start(p, low);
    let n = low + 2 * i;
    let st = window_start(p, low);
    assert(n % 2 == 1) by {
        lemma_mod_multiples_basic(i, 2);
        vstd::arithmetic::div_mod::lemma_mod_adds(low, 2 * i, 2);
    }
    if i >= lo_idx && (i - lo_idx) % p == 0 {
        lemma_fundamental_div_mod(i - lo_idx, p);
        let k = (i - lo_idx) / p;
        lemma_fundamental_div_mod(st, p);
        let b = st / p;
        assert(n == (b + 2 * k) * p) by (nonlinear_arith)
            requires
                n == low + 2 * i,
                st == low + 2 * lo_idx,
                i - lo_idx == p * k,
                st == p * b + st % p,
                st % p == 0,
        ;
        lemma_mod_multiples_basic(b + 2 * k, p);
    }
    if crosses(p, n, high) {
        assert(odd_multiple_reaching(n, p, low));
        assert(n >= st);
        lemma_fundamental_div_mod(n, p);
        lemma_fundamental_div_mod(st, p);
        let a = n / p;
        let b = st / p;
        assert(n == a * p && st == b * p);
        lemma_odd_product(a, p);
        lemma_odd_product(b, p);
        lemma_fundamental_div_mod(a, 2);
        lemma_fundamental_div_mod(b, 2);
        let t = (a - b) / 2;
        assert(a - b == 2 * t) by {
            assert(a == 2 * (a / 2) + 1 && b == 2 * (b / 2) + 1);
            lemma_fundamental_div_mod(a - b, 2);
            assert((a - b) % 2 == 0) by {
                assert(a - b == 2 * (a / 2 - b / 2));
                lemma_mod_multiples_basic(a / 2 - b / 2, 2);
            }
        }
        assert(i - lo_idx == t * p) by (nonlinear_arith)
            requires
                n == a * p,
                st == b * p,
                a - b == 2 * t,
                n == low + 2 * i,
                st == low + 2 * lo_idx,
        ;
        lemma_mod_multiples_basic(t, p);
    }
}

/// Some base prime among the first `t` crosses `n` out.
pub open spec fn crossed_by_prefix(n: int, high: int, bp: Seq<u64>, t: int) -> bool {
    exists|j: int| 0 <= j < t && #[trigger] crosses(bp[j] as int, n, high)
}

/// A sieved window over quotient space [low, high): odd integers only, with
/// running survivor counts so that every query is one lookup.
pub struct QuotientWindow {
    pub low: u64,
    pub high: u64,
    /// Absolute prime count of integers strictly below `low`.
    pub base: u64,
    /// `bits[i]`: the odd integer `low + 2 i` survived the sieve.
    pub bits: Vec<bool>,
    /// `prefix[i]`: survivors among `low, low + 2, ..., low + 2 i`.
    pub prefix: Vec<u64>,
    /// The base primes the window was sieved with.
    pub sieved_with: Ghost<Seq<u64>>,
}

proof fn lemma_odd_survivors_step(lo: int, v: int, high: int, bp: Seq<u64>)
    requires
        lo <= v,
        v % 2 == 1,
    ensures
        odd_survivors(lo, v + 2, high, bp) == odd_survivors(lo, v, high, bp) + if survives(
            v + 2,
            high,
            bp,
        ) {
            1nat
        } else {
            0nat
        },
        odd_survivors(lo, v + 1, high, bp) == odd_survivors(lo, v, high, bp),
{
    assert((v + 1) % 2 == 0);
    assert((v + 2) % 2 == 1);
    assert(odd_survivors(lo, v + 1, high, bp) == odd_survivors(lo, v, high, bp));
    assert(odd_survivors(lo, v + 2, high, bp) == odd_survivors(lo, v + 1, high, bp) + if survives(
        v + 2,
        high,
        bp,
    ) {
        1nat
    } else {
        0nat
    });
}

impl QuotientWindow {
    /// The window holds one survivor bit and one running count per odd integer of [low, high).
    pub open spec fn valid(&self) -> bool {
        &&& self.low % 2 == 1
        &&& self.low < self.high <= u64::MAX / 2
        &&& self.base + self.high <= u64::MAX
        &&& self.bits@.len() == (self.high - self.low + 1) / 2
        &&& self.prefix@.len() == self.bits@.len()
        &&& forall|i: int|
            0 <= i < self.bits@.len() ==> (#[trigger] self.bits@[i] <==> survives(
                self.low + 2 * i,
                self.high as int,
                self.sieved_with@,
            ))
        &&& forall|i: int|
            0 <= i < self.prefix@.len() ==> #[trigger] self.prefix@[i] == odd_survivors(
                self.low as int,
                self.low + 2 * i,
                self.high as int,
                self.sieved_with@,
            )
    }

    /// Sieves the odd integers of `[low, high)` with `base_primes` (which
    /// must reach sqrt(high - 1) for the counts to be pi); `base_pi_below_low`
    /// is pi(low - 1).
    pub fn sieve(low: u64, high: u64, base_primes: &[u64], base_pi_below_low: u64) -> (w: Self)
        requires
            high > low,
            low % 2 == 1,
            high <= u64::MAX / 2,
            high - low < usize::MAX,
            base_pi_below_low + high <= u64::MAX,
            sorted(base_primes@),
        ensures
            w.valid(),
            w.low == low,
            w.high == high,
            w.base == base_pi_below_low,
            w.sieved_with@ == base_primes@,
    {
        let ghost bp = base_primes@;
        let first_odd = low | 1;
        assert(low % 2 == 1 ==> (low | 1) == low) by (bit_vector);
        let n_odds = (high - first_odd + 1) / 2;
        let n = n_odds as usize;
        let mut bits: Vec<bool> = Vec::new();
        let mut k: usize = 0;
        while k < n
            invariant
                k <= n,
                bits@.len() == k,
                forall|i: int| 0 <= i < k ==> #[trigger] bits@[i],
            decreases n - k,
        {
            bits.push(true);
            k += 1;
        }
        // 1 is not prime.
        if first_odd == 1 {
            bits.set(0, false);
        }
        let mut t: usize = 0;
        let mut done = false;
        while t < base_primes.len() && !done
            invariant
                first_odd == low,
                low % 2 == 1,
                low < high <= u64::MAX / 2,
                n == n_odds,
                n_odds == (high - low + 1) / 2,
                bits@.len() == n,
                bp == base_primes@,
                sorted(bp),
                t <= bp.len(),
                done ==> t < bp.len() && bp[t as int] * bp[t as int] >= high,
                forall|i: int|
                    0 <= i < n ==> (#[trigger] bits@[i] <==> (low + 2 * i != 1 && !crossed_by_prefix(
                        low + 2 * i,
                        high as int,
                        bp,
                        t as int,
                    ))),
            decreases bp.len() - t, if done { 0int } else { 1int },
        {
            let p = base_primes[t];
            if p < 0x1_0000_0000 {
                assert(p * p < 0x1_0000_0000_0000_0000) by (nonlinear_arith)
                    requires
                        p < 0x1_0000_0000,
                ;
            }
            if p < 3 {
                assert forall|i: int| 0 <= i < n implies (#[trigger] bits@[i] <==> (low + 2 * i != 1
                    && !crossed_by_prefix(low + 2 * i, high as int, bp, t + 1))) by {
                    if crossed_by_prefix(low + 2 * i, high as int, bp, t + 1) {
                        let j = choose|j: int| 0 <= j < t + 1 && #[trigger] crosses(bp[j] as int, low + 2 * i, high as int);
                        assert(j != t);
                    }
                }
                t += 1;
            } else if p >= 0x1_0000_0000 {
                assert(p * p >= high) by (nonlinear_arith)
                    requires
                        p >= 0x1_0000_0000,
                        high <= u64::MAX / 2,
                ;
                done = true;
            } else if p * p >= high {
                done = true;
            } else if p % 2 == 0 {
                // An even base entry >= 3 is not prime; the window keeps odd
                // integers only, so it crosses nothing out.
                assert forall|i: int| 0 <= i < n implies (#[trigger] bits@[i] <==> (low + 2 * i != 1
                    && !crossed_by_prefix(low + 2 * i, high as int, bp, t + 1))) by {
                    if crossed_by_prefix(low + 2 * i, high as int, bp, t + 1) {
                        let j = choose|j: int| 0 <= j < t + 1 && #[trigger] crosses(bp[j] as int, low + 2 * i, high as int);
                        if j == t {
                            let m = low + 2 * i;
                            assert(m % 2 == 1) by {
                                lemma_mod_multiples_basic(i, 2);
                                vstd::arithmetic::div_mod::lemma_mod_adds(low as int, 2 * i, 2);
                            }
                            crate::primality::lemma_divides_trans(2, p as int, m);
                        }
                    }
                }
                t += 1;
            } else {
                proof {
                    lemma_window_start(p as int, low as int);
                }
                let pp = p * p;
                let num = low + p - 1;
                let q = num / p;
                proof {
                    lemma_fundamental_div_mod(num as int, p as int);
                }
                assert(q * p <= num) by (nonlinear_arith)
                    requires
                        num == p * q + num % p,
                        num % p >= 0,
                ;
                let c = q * p;
                let mut start = if pp >= c {
                    pp
                } else {
                    c
                };
                if start % 2 == 0 {
                    start += p;
                }
                assert(start == window_start(p as int, low as int));
                let ghost old_bits = bits@;
                if start >= high {
                    assert forall|i: int| 0 <= i < n implies (#[trigger] bits@[i] <==> (low + 2 * i
                        != 1 && !crossed_by_prefix(low + 2 * i, high as int, bp, t + 1))) by {
                        if crossed_by_prefix(low + 2 * i, high as int, bp, t + 1) {
                            let j = choose|j: int| 0 <= j < t + 1 && #[trigger] crosses(bp[j] as int, low + 2 * i, high as int);
                            if j == t {
                                let m = low + 2 * i;
                                assert(m % 2 == 1) by {
                                    lemma_mod_multiples_basic(i, 2);
                                    vstd::arithmetic::div_mod::lemma_mod_adds(low as int, 2 * i, 2);
                                }
                                assert(odd_multiple_reaching(m, p as int, low as int));
                                assert(m >= start);
                            }
                        }
                    }
                } else {
                    let lo_idx = (start - first_odd) / 2;
                    assert(low + 2 * lo_idx == start) by {
                        assert((start - low) % 2 == 0) by {
                            vstd::arithmetic::div_mod::lemma_sub_mod_noop(start as int, low as int, 2);
                        }
                        lemma_fundamental_div_mod(start - low, 2);
                    }
                    let mut idx: u64 = lo_idx;
                    let ghost mut kk: int = 0;
                    while idx < n_odds
                        invariant
                            first_odd == low,
                            low % 2 == 1,
                            low < high <= u64::MAX / 2,
                            n == n_odds,
                            n_odds == (high - low + 1) / 2,
                            bits@.len() == n,
                            old_bits.len() == n,
                            3 <= p < 0x1_0000_0000,
                            idx == lo_idx + kk * p,
                            kk >= 0,
                            idx <= n_odds + p,
                            forall|i: int|
                                0 <= i < n ==> (#[trigger] bits@[i] <==> (old_bits[i] && !(lo_idx <= i
                                    < idx && (i - lo_idx) % (p as int) == 0))),
                        decreases n_odds + p - idx,
                    {
                        let ghost prev = bits@;
                        bits.set(idx as usize, false);
                        proof {
                            assert((kk * p) % (p as int) == 0) by {
                                lemma_mod_multiples_basic(kk, p as int);
                            }
                            assert forall|i: int|
                                0 <= i < n implies (#[trigger] bits@[i] <==> (old_bits[i] && !(lo_idx
                                <= i < idx + p && (i - lo_idx) % (p as int) == 0))) by {
                                if i != idx {
                                    assert(bits@[i] == prev[i]);
                                    if idx < i < idx + p {
                                        crate::pi_table::lemma_no_multiple_between(
                                            i - lo_idx,
                                            kk * p,
                                            p as int,
                                            kk,
                                        );
                                    }
                                }
                            }
                        }
                        idx = idx + p;
                        proof {
                            kk = kk + 1;
                            assert(idx == lo_idx + kk * p) by (nonlinear_arith)
                                requires
                                    idx == lo_idx + (kk - 1) * p + p,
                            ;
                        }
                    }
                    assert forall|i: int| 0 <= i < n implies (#[trigger] bits@[i] <==> (low + 2 * i
                        != 1 && !crossed_by_prefix(low + 2 * i, high as int, bp, t + 1))) by {
                        lemma_cross_index(p as int, low as int, high as int, lo_idx as int, i);
                        if crossed_by_prefix(low + 2 * i, high as int, bp, t + 1) {
                            let j = choose|j: int| 0 <= j < t + 1 && #[trigger] crosses(bp[j] as int, low + 2 * i, high as int);
                            if j < t {
                                assert(crossed_by_prefix(low + 2 * i, high as int, bp, t as int));
                            }
                        } else {
                            assert(!crosses(bp[t as int] as int, low + 2 * i, high as int));
                        }
                        if crossed_by_prefix(low + 2 * i, high as int, bp, t as int) {
                            let j = choose|j: int| 0 <= j < t && #[trigger] crosses(bp[j] as int, low + 2 * i, high as int);
                            assert(crossed_by_prefix(low + 2 * i, high as int, bp, t + 1));
                        }
                    }
                }
                t += 1;
            }
        }
        // Entries past the stop can cross nothing out: their squares reach high.
        assert forall|i: int| 0 <= i < n implies (#[trigger] bits@[i] <==> survives(
            low + 2 * i,
            high as int,
            bp,
        )) by {
            if crossed_by_prefix(low + 2 * i, high as int, bp, bp.len() as int) {
                let j = choose|j: int| 0 <= j < bp.len() && #[trigger] crosses(bp[j] as int, low + 2 * i, high as int);
                if j >= t {
                    assert(bp[t as int] <= bp[j]);
                    assert(bp[t as int] * bp[t as int] <= bp[j] * bp[j]) by (nonlinear_arith)
                        requires
                            0 <= bp[t as int] <= bp[j],
                    ;
                } else {
                    assert(crossed_by_prefix(low + 2 * i, high as int, bp, t as int));
                }
            }
            if crossed_by_prefix(low + 2 * i, high as int, bp, t as int) {
                let j = choose|j: int| 0 <= j < t && #[trigger] crosses(bp[j] as int, low + 2 * i, high as int);
                assert(crossed_by_prefix(low + 2 * i, high as int, bp, bp.len() as int));
            }
        }

        // Running survivor counts.
        let mut prefix: Vec<u64> = Vec::new();
        let mut run: u64 = 0;
        let mut i: usize = 0;
        while i < n
            invariant
                low % 2 == 1,
                low < high <= u64::MAX / 2,
                n == (high - low + 1) / 2,
                bits@.len() == n,
                forall|j: int| 0 <= j < n ==> (#[trigger] bits@[j] <==> survives(low + 2 * j, high as int, bp)),
                i <= n,
                prefix@.len() == i,
                run <= i,
                i > 0 ==> run == odd_survivors(low as int, low + 2 * (i - 1), high as int, bp),
                i == 0 ==> run == 0,
                forall|j: int|
                    0 <= j < i ==> #[trigger] prefix@[j] == odd_survivors(low as int, low + 2 * j, high as int, bp),
            decreases n - i,
        {
            proof {
                if i > 0 {
                    lemma_odd_survivors_step(low as int, low + 2 * (i - 1), high as int, bp);
                    assert((low + 2 * (i - 1)) % 2 == 1) by {
                        lemma_mod_multiples_basic(i - 1, 2);
                        vstd::arithmetic::div_mod::lemma_mod_adds(low as int, 2 * (i - 1), 2);
                    }
                    lemma_odd_survivors_step(low as int, low + 2 * (i - 1), high as int, bp);
                } else {
                    assert(odd_survivors(low as int, low - 1, high as int, bp) == 0);
                }
            }
            if bits[i] {
                run = run + 1;
            }
            prefix.push(run);
            i += 1;
        }
        QuotientWindow {
            low,
            high,
            base: base_pi_below_low,
            bits,
            prefix,
            sieved_with: Ghost(base_primes@),
        }
    }

    /// The window's count for `v` in `[low, high)`: base + odd survivors up to
    /// `v` (+1 for the prime 2 when the window starts at 1).
    pub fn pi(&self, v: u64) -> (r: u64)
        requires
            self.valid(),
            self.low <= v < self.high,
        ensures
            r == window_pi(self.low as int, self.base as int, v as int, self.high as int, self.sieved_with@),
    {
        let low = self.low;
        let first_odd = low | 1;
        assert(low % 2 == 1 ==> (low | 1) == low) by (bit_vector);
        let mut count = self.base;
        let d: u64 = v - first_odd;
        let nb = self.bits.len();
        proof {
            lemma_fundamental_div_mod(d as int, 2);
            assert(d / 2 < nb);
        }
        let odd_idx = (d / 2) as usize;
        proof {
            assert(odd_idx as int == d / 2);
            let bp = self.sieved_with@;
            let lo = self.low as int;
            let i = odd_idx as int;
            assert(lo + 2 * i == v || lo + 2 * i + 1 == v);
            assert((lo + 2 * i) % 2 == 1) by {
                lemma_mod_multiples_basic(i, 2);
                vstd::arithmetic::div_mod::lemma_mod_adds(lo, 2 * i, 2);
            }
            if lo + 2 * i + 1 == v {
                lemma_odd_survivors_step(lo, lo + 2 * i, self.high as int, bp);
            }
            lemma_odd_survivors_bound(lo, lo + 2 * i, self.high as int, bp);
        }
        count = count + self.prefix[odd_idx];
        if v >= 2 && self.low <= 2 {
            count = count + 1;
        }
        count
    }
}

/// At most one survivor per odd integer.
proof fn lemma_odd_survivors_bound(lo: int, v: int, high: int, bp: Seq<u64>)
    ensures
        odd_survivors(lo, v, high, bp) <= if v >= lo { v - lo + 1 } else { 0 },
    decreases v - lo + 1,
{
    if v >= lo {
        lemma_odd_survivors_bound(lo, v - 1, high, bp);
    }
}

/// Sieving with every prime whose square is below `high`.
pub open spec fn covers_window(bp: Seq<u64>, high: int) -> bool {
    &&& prime_list(bp)
    &&& forall|q: int| #[trigger] is_prime(q) && q * q < high ==> prime_count(q) <= bp.len()
}

/// In a window sieved with all primes whose square is below `high`, the odd
/// survivors are exactly the odd primes.
pub proof fn lemma_survivor_is_prime(n: int, high: int, bp: Seq<u64>)
    requires
        covers_window(bp, high),
        1 <= n < high,
        n % 2 == 1,
    ensures
        survives(n, high, bp) <==> is_prime(n),
{
    if is_prime(n) {
        if exists|j: int| 0 <= j < bp.len() && #[trigger] crosses(bp[j] as int, n, high) {
            let j = choose|j: int| 0 <= j < bp.len() && #[trigger] crosses(bp[j] as int, n, high);
            let p = bp[j] as int;
            assert(p < n) by (nonlinear_arith)
                requires
                    p >= 3,
                    n >= p * p,
            ;
            assert(n % p != 0);
        }
    } else if n != 1 {
        let q = lemma_small_prime_factor(n);
        if q == 2 {
            assert(n % 2 == 0);
        }
        assert(q * q < high);
        let i = prime_count(q) - 1;
        assert(0 <= i < bp.len());
        assert(is_prime(bp[i] as int) && prime_count(bp[i] as int) == i + 1);
        crate::leaf_sums::lemma_primes_equal_by_count(bp[i] as int, q);
        assert(crosses(bp[i] as int, n, high));
    }
}

/// A window based at pi(low - 1) and sieved with all primes whose square is
/// below `high` answers pi(v) on [low, high).
pub proof fn lemma_window_pi_is_prime_count(low: int, high: int, base: int, bp: Seq<u64>, v: int)
    requires
        covers_window(bp, high),
        low % 2 == 1,
        1 <= low <= v < high,
        base == prime_count(low - 1),
    ensures
        window_pi(low, base, v, high, bp) == prime_count(v),
    decreases v - low,
{
    if v == low {
        lemma_survivor_is_prime(v, high, bp);
        crate::primality::lemma_prime_count_step(v);
        assert(odd_survivors(low, v - 1, high, bp) == 0);
    } else {
        lemma_window_pi_is_prime_count(low, high, base, bp, v - 1);
        crate::primality::lemma_prime_count_step(v);
        if v % 2 == 1 {
            lemma_survivor_is_prime(v, high, bp);
        } else {
            if v > 2 {
                assert(v % 2 == 0);
                assert(!is_prime(v));
            }
        }
    }
}

} // verus!
