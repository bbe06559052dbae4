//! Dense prime-counting table over [0, max_y], built by a sieve, and the
//! ordered prime list generator that the leaf engines index into.
use vstd::prelude::*;
use crate::primality::{
    is_prime, prime_count, prime_list, primes_up_to, lemma_prime_count_step, lemma_small_prime_factor,
    lemma_divides_trans,
};
use vstd::arithmetic::div_mod::{lemma_fundamental_div_mod, lemma_mod_multiples_basic};

verus! {

/// `k` has a divisor `d` with `2 <= d < bound` and `d < k`.
pub open spec fn has_divisor_below(k: int, bound: int) -> bool {
    exists|d: int| 2 <= d < bound && d < k && #[trigger] (k % d) == 0
}

pub(crate) proof fn lemma_no_multiple_between(k: int, j: int, i: int, t: int)
    requires
        i > 0,
        j == t * i,
        j < k < j + i,
    ensures
        k % i != 0,
{
    if k % i == 0 {
        lemma_fundamental_div_mod(k, i);
        let a = k / i;
        assert(k == i * a);
        assert(false) by (nonlinear_arith)
            requires
                i > 0,
                t * i < i * a,
                i * a < t * i + i,
        ;
    }
}

/// `k` has a divisor `d` with `2 <= d < bound` and `d * d <= k`.
pub open spec fn has_small_divisor(k: int, bound: int) -> bool {
    exists|d: int| 2 <= d < bound && d * d <= k && #[trigger] (k % d) == 0
}

/// Below `bound * bound`, a small divisor under `bound` exists exactly when
/// any proper divisor does.
proof fn lemma_small_divisor_complete(k: int, bound: int)
    requires
        0 <= k < bound * bound,
        bound >= 2,
    ensures
        has_small_divisor(k, bound) <==> has_divisor_below(k, k),
{
    if has_small_divisor(k, bound) {
        let d = choose|d: int| 2 <= d < bound && d * d <= k && #[trigger] (k % d) == 0;
        assert(d < k) by (nonlinear_arith)
            requires
                d >= 2,
                d * d <= k,
        ;
        assert(has_divisor_below(k, k));
    }
    if has_divisor_below(k, k) {
        let d = choose|d: int| 2 <= d < k && d < k && #[trigger] (k % d) == 0;
        assert(!is_prime(k));
        let q = lemma_small_prime_factor(k);
        assert(q < bound) by (nonlinear_arith)
            requires
                q >= 2,
                q * q <= k,
                k < bound * bound,
                bound >= 2,
        ;
        assert(has_small_divisor(k, bound));
    }
}

/// Marks every `k <= n` that has a divisor strictly between 1 and `k`.
fn composite_marks(n: usize) -> (marks: Vec<bool>)
    requires
        n < usize::MAX / 2,
    ensures
        marks@.len() == n + 1,
        forall|k: int| 0 <= k <= n ==> (#[trigger] marks@[k] <==> has_divisor_below(k, k)),
{
    let mut marks: Vec<bool> = Vec::with_capacity(n + 1);
    let mut t: usize = 0;
    while t <= n
        invariant
            t <= n + 1,
            n < usize::MAX / 2,
            marks@.len() == t,
            forall|k: int| 0 <= k < t ==> !(#[trigger] marks@[k]),
        decreases n + 1 - t,
    {
        marks.push(false);
        t += 1;
    }
    let mut i: usize = 2;
    while i <= n / i
        invariant
            2 <= i <= n + 2,
            n < usize::MAX / 2,
            marks@.len() == n + 1,
            forall|k: int| 0 <= k <= n ==> (#[trigger] marks@[k] <==> has_small_divisor(k, i as int)),
        decreases n + 2 - i,
    {
        assert(i * i <= n && i <= n) by (nonlinear_arith)
            requires
                i >= 2,
                i <= n / i,
        ;
        if !marks[i] {
            let mut j: usize = i * i;
            let ghost mut tt: int = i as int;
            while j <= n
                invariant
                    2 <= i <= n,
                    i * i <= n,
                    n < usize::MAX / 2,
                    marks@.len() == n + 1,
                    j == tt * i,
                    tt >= i,
                    i * i <= j,
                    j <= n + i,
                    forall|k: int|
                        0 <= k <= n ==> (#[trigger] marks@[k] <==> (has_small_divisor(k, i as int)
                            || (k % (i as int) == 0 && i * i <= k < j))),
                decreases n + i - j,
            {
                assert((tt * i) % (i as int) == 0) by {
                    lemma_mod_multiples_basic(tt, i as int);
                }
                assert forall|k: int| j < k < j + i implies #[trigger] (k % (i as int)) != 0 by {
                    lemma_no_multiple_between(k, j as int, i as int, tt);
                }
                let ghost old_marks = marks@;
                marks.set(j, true);
                assert forall|k: int| 0 <= k <= n implies (#[trigger] marks@[k] <==> (
                has_small_divisor(k, i as int) || (k % (i as int) == 0 && i * i <= k < j + i))) by {
                    if k != j {
                        assert(marks@[k] == old_marks[k]);
                        if j < k < j + i {
                            assert(k % (i as int) != 0);
                        }
                    }
                }
                j = j + i;
                proof {
                    tt = tt + 1;
                    assert(j == tt * i) by (nonlinear_arith)
                        requires
                            j == (tt - 1) * i + i,
                    ;
                }
            }
            assert forall|k: int| 0 <= k <= n implies (#[trigger] marks@[k] <==> has_small_divisor(
                k,
                i + 1,
            )) by {
                if k % (i as int) == 0 && i * i <= k {
                    assert(has_small_divisor(k, i + 1));
                }
                if has_small_divisor(k, i + 1) && !has_small_divisor(k, i as int) {
                    let d = choose|d: int| 2 <= d < i + 1 && d * d <= k && #[trigger] (k % d) == 0;
                    assert(d == i);
                }
            }
        } else {
            assert(has_small_divisor(i as int, i as int));
            let ghost d = choose|d: int| 2 <= d < i && d * d <= i && #[trigger] ((i as int) % d) == 0;
            assert forall|k: int| 0 <= k <= n implies (#[trigger] marks@[k] <==> has_small_divisor(
                k,
                i + 1,
            )) by {
                if k % (i as int) == 0 && i * i <= k {
                    lemma_divides_trans(d, i as int, k);
                    assert(d * d <= k) by (nonlinear_arith)
                        requires
                            d * d <= i,
                            i >= 2,
                            i * i <= k,
                    ;
                    assert(has_small_divisor(k, i as int));
                }
                if has_small_divisor(k, i + 1) && !has_small_divisor(k, i as int) {
                    let e = choose|e: int| 2 <= e < i + 1 && e * e <= k && #[trigger] (k % e) == 0;
                    assert(e == i);
                    lemma_divides_trans(d, i as int, k);
                    assert(d * d <= k) by (nonlinear_arith)
                        requires
                            d * d <= i,
                            i >= 2,
                            i * i <= k,
                    ;
                }
            }
        }
        i += 1;
    }
    assert(n < i * i) by (nonlinear_arith)
        requires
            i >= 2,
            i > n / i,
    ;
    assert forall|k: int| 0 <= k <= n implies (#[trigger] marks@[k] <==> has_divisor_below(k, k)) by {
        lemma_small_divisor_complete(k, i as int);
    }
    marks
}

/// Prime-counting table: `pi(v)` for every `v <= max_y`.
pub struct PiTable {
    /// Largest argument the table answers.
    pub max_y: u64,
    /// `counts[v]` is pi(v).
    pub counts: Vec<u64>,
}

impl PiTable {
    /// The table answers pi exactly on [0, max_y].
    pub open spec fn valid(&self) -> bool {
        &&& self.max_y < usize::MAX / 2
        &&& self.counts@.len() == self.max_y + 1
        &&& forall|v: int| 0 <= v <= self.max_y ==> #[trigger] self.counts@[v] == prime_count(v)
    }

    /// Sieves [0, max_y] and records the running prime count.
    pub fn new(max_y: u64) -> (t: PiTable)
        requires
            max_y < usize::MAX / 2,
        ensures
            t.valid(),
            t.max_y == max_y,
    {
        let n = max_y as usize;
        let marks = composite_marks(n);
        let mut counts: Vec<u64> = Vec::with_capacity(n + 1);
        let mut c: u64 = 0;
        let mut v: usize = 0;
        while v <= n
            invariant
                n == max_y,
                max_y < usize::MAX / 2,
                marks@.len() == n + 1,
                forall|k: int| 0 <= k <= n ==> (#[trigger] marks@[k] <==> has_divisor_below(k, k)),
                v <= n + 1,
                counts@.len() == v,
                c <= v,
                v >= 1 ==> c == prime_count(v - 1),
                v == 0 ==> c == 0,
                forall|w: int| 0 <= w < v ==> #[trigger] counts@[w] == prime_count(w),
            decreases n + 1 - v,
        {
            proof {
                if v >= 1 {
                    lemma_prime_count_step(v as int);
                }
                assert(is_prime(v as int) <==> (v >= 2 && !marks@[v as int]));
            }
            if v >= 2 && !marks[v] {
                c = c + 1;
            }
            counts.push(c);
            v += 1;
        }
        PiTable { max_y, counts }
    }

    /// pi(v) for `v <= max_y`.
    pub fn pi(&self, v: u64) -> (r: u64)
        requires
            self.valid(),
            v <= self.max_y,
        ensures
            r == prime_count(v as int),
    {
        let len = self.counts.len();
        assert(v < len);
        self.counts[v as usize]
    }
}

/// All primes `<= limit`, ascending.
pub fn generate_primes(limit: u64) -> (primes: Vec<u64>)
    requires
        limit < usize::MAX / 2,
    ensures
        primes_up_to(primes@, limit as int),
{
    let n = limit as usize;
    let marks = composite_marks(n);
    let mut primes: Vec<u64> = Vec::new();
    let mut k: usize = 0;
    while k <= n
        invariant
            n == limit,
            marks@.len() == n + 1,
            forall|j: int| 0 <= j <= n ==> (#[trigger] marks@[j] <==> has_divisor_below(j, j)),
            k <= n + 1,
            n < usize::MAX / 2,
            prime_list(primes@),
            k >= 1 ==> primes@.len() == prime_count(k - 1),
            k == 0 ==> primes@.len() == 0,
        decreases n + 1 - k,
    {
        proof {
            if k >= 1 {
                lemma_prime_count_step(k as int);
            }
            assert(is_prime(k as int) <==> (k >= 2 && !marks@[k as int]));
        }
        if k >= 2 && !marks[k] {
            let ghost old_primes = primes@;
            primes.push(k as u64);
            assert forall|i: int| 0 <= i < primes@.len() implies is_prime(#[trigger] primes@[i] as int)
                && prime_count(primes@[i] as int) == i + 1 by {
                if i < old_primes.len() {
                    assert(primes@[i] == old_primes[i]);
                }
            }
        }
        k += 1;
    }
    primes
}

} // verus!
