//! Mathematical model: primality, the prime-counting function, and the
//! properties of ordered prime lists that every lookup structure relies on.
use vstd::prelude::*;
use vstd::arithmetic::div_mod::{lemma_fundamental_div_mod, lemma_mod_multiples_basic};

verus! {

/// `n` is prime: at least 2 and without a divisor strictly between 1 and `n`.
pub open spec fn is_prime(n: int) -> bool {
    n >= 2 && forall|d: int| 2 <= d < n ==> #[trigger] (n % d) != 0
}

/// pi(n): the number of primes `p` with `p <= n`.
pub open spec fn prime_count(n: int) -> nat
    decreases n,
{
    if n < 2 {
        0
    } else {
        prime_count(n - 1) + if is_prime(n) { 1nat } else { 0nat }
    }
}

/// `s[i]` is the `(i + 1)`-th prime for every index `i`.
pub open spec fn prime_list(s: Seq<u64>) -> bool {
    forall|i: int| 0 <= i < s.len() ==> is_prime(#[trigger] s[i] as int) && prime_count(s[i] as int) == i + 1
}

/// `s` lists every prime up to `limit`, in order, and nothing else.
pub open spec fn primes_up_to(s: Seq<u64>, limit: int) -> bool {
    &&& prime_list(s)
    &&& s.len() == prime_count(limit)
}

/// Prime list carrying a leading 0 so that `s[i]` is the `i`-th prime.
pub open spec fn sentinel_prime_list(s: Seq<u64>) -> bool {
    s.len() >= 1 && s[0] == 0 && prime_list(s.subrange(1, s.len() as int))
}

/// The strip of a list: the list itself, or what follows a leading 0.
pub open spec fn strip_sentinel(s: Seq<u64>) -> Seq<u64> {
    if s.len() >= 1 && s[0] == 0 {
        s.subrange(1, s.len() as int)
    } else {
        s
    }
}

/// Number of entries of `s` that are `<= v`.
pub open spec fn count_le(s: Seq<u64>, v: int) -> nat
    decreases s.len(),
{
    if s.len() == 0 {
        0
    } else {
        count_le(s.drop_last(), v) + if s.last() as int <= v { 1nat } else { 0nat }
    }
}

/// Entries strictly increase.
pub open spec fn strictly_sorted(s: Seq<u64>) -> bool {
    forall|i: int, j: int| 0 <= i < j < s.len() ==> #[trigger] s[i] < #[trigger] s[j]
}

/// Entries never decrease.
pub open spec fn sorted(s: Seq<u64>) -> bool {
    forall|i: int, j: int| 0 <= i <= j < s.len() ==> #[trigger] s[i] <= #[trigger] s[j]
}

/// `r` splits `s` into a prefix of entries `<= v` and a suffix of entries `> v`.
pub open spec fn is_partition_point(s: Seq<u64>, v: int, r: int) -> bool {
    &&& 0 <= r <= s.len()
    &&& forall|i: int| 0 <= i < r ==> #[trigger] s[i] as int <= v
    &&& forall|i: int| r <= i < s.len() ==> #[trigger] s[i] as int > v
}

/// Divisibility is transitive.
pub proof fn lemma_divides_trans(q: int, m: int, n: int)
    requires
        q > 0,
        m > 0,
        m % q == 0,
        n % m == 0,
    ensures
        n % q == 0,
{
    lemma_fundamental_div_mod(m, q);
    lemma_fundamental_div_mod(n, m);
    let b = m / q;
    let a = n / m;
    assert(n == (b * a) * q) by (nonlinear_arith)
        requires
            m == q * b,
            n == m * a,
    ;
    lemma_mod_multiples_basic(b * a, q);
}

/// A number >= 2 that is not prime has a prime factor q with q * q <= n.
pub proof fn lemma_small_prime_factor(n: int) -> (q: int)
    requires
        n >= 2,
        !is_prime(n),
    ensures
        is_prime(q),
        n % q == 0,
        q * q <= n,
    decreases n,
{
    let d = choose|d: int| 2 <= d < n && #[trigger] (n % d) == 0;
    lemma_fundamental_div_mod(n, d);
    let e = n / d;
    assert(n == d * e);
    assert(e >= 2) by (nonlinear_arith)
        requires
            n == d * e,
            2 <= d < n,
    ;
    assert(n % e == 0) by {
        lemma_mod_multiples_basic(d, e);
        assert(n == d * e);
    }
    let m = if d <= e { d } else { e };
    assert(m * m <= n) by (nonlinear_arith)
        requires
            n == d * e,
            m == d || m == e,
            m <= d,
            m <= e,
            d >= 2,
            e >= 2,
    ;
    assert(n % m == 0);
    assert(m < n) by (nonlinear_arith)
        requires
            m * m <= n,
            m >= 2,
    ;
    if is_prime(m) {
        m
    } else {
        let q = lemma_small_prime_factor(m);
        lemma_divides_trans(q, m, n);
        q
    }
}

/// pi(n) = pi(n - 1) + [n is prime].
pub proof fn lemma_prime_count_step(n: int)
    requires
        n >= 1,
    ensures
        prime_count(n) == prime_count(n - 1) + if is_prime(n) { 1int } else { 0int },
{
    if n < 2 {
        assert(!is_prime(n));
    }
}

/// pi is monotone.
pub proof fn lemma_prime_count_monotone(a: int, b: int)
    requires
        a <= b,
    ensures
        prime_count(a) <= prime_count(b),
    decreases b - a,
{
    if a < b {
        lemma_prime_count_monotone(a, b - 1);
        if b >= 1 {
            lemma_prime_count_step(b);
        }
    }
}

/// pi(n) <= n for n >= 0, and pi(n) < n for n >= 1.
pub proof fn lemma_prime_count_bound(n: int)
    ensures
        n >= 0 ==> prime_count(n) <= n,
        n >= 1 ==> prime_count(n) < n,
    decreases n,
{
    if n >= 2 {
        lemma_prime_count_bound(n - 1);
    }
}

/// A prime list is strictly increasing.
pub proof fn lemma_prime_list_sorted(s: Seq<u64>)
    requires
        prime_list(s),
    ensures
        strictly_sorted(s),
{
    assert forall|i: int, j: int| 0 <= i < j < s.len() implies #[trigger] s[i] < #[trigger] s[j] by {
        if s[j] <= s[i] {
            lemma_prime_count_monotone(s[j] as int, s[i] as int);
        }
    }
}

/// Counting entries `<= v` of a sorted list is the partition point.
pub proof fn lemma_count_le_partition(s: Seq<u64>, v: int, r: int)
    requires
        is_partition_point(s, v, r),
    ensures
        count_le(s, v) == r,
    decreases s.len(),
{
    if s.len() > 0 {
        let t = s.drop_last();
        if r == s.len() {
            assert(is_partition_point(t, v, r - 1));
            lemma_count_le_partition(t, v, r - 1);
        } else {
            assert(is_partition_point(t, v, r));
            lemma_count_le_partition(t, v, r);
        }
    }
}

/// Entries at or after the count of entries `<= v` of a sorted list are `> v`.
pub proof fn lemma_count_le_partition_converse(s: Seq<u64>, v: int, i: int)
    requires
        sorted(s),
        count_le(s, v) <= i < s.len(),
    ensures
        s[i] as int > v,
{
    let r = lemma_partition_exists(s, v);
    lemma_count_le_partition(s, v, r);
}

/// count_le never exceeds the length.
pub proof fn lemma_count_le_bound(s: Seq<u64>, v: int)
    ensures
        count_le(s, v) <= s.len(),
    decreases s.len(),
{
    if s.len() > 0 {
        lemma_count_le_bound(s.drop_last(), v);
    }
}

/// In a prime list, the partition point of `v` is pi(v) as long as the list
/// reaches far enough (pi(v) entries at least).
pub proof fn lemma_prime_list_partition(s: Seq<u64>, v: int, r: int)
    requires
        prime_list(s),
        is_partition_point(s, v, r),
        prime_count(v) <= s.len(),
    ensures
        r == prime_count(v),
{
    if r > 0 {
        let q = s[r - 1] as int;
        lemma_prime_count_monotone(q, v);
    } else {
        if v >= 2 {
            lemma_prime_count_monotone(v, v);
        }
    }
    if r < s.len() {
        let q = s[r] as int;
        assert(is_prime(q));
        lemma_prime_count_step(q);
        lemma_prime_count_monotone(v, q - 1);
        if r == 0 {
            // pi(v) <= pi(q - 1) == 0
        }
    } else {
        // r == len >= pi(v)
    }
    if r > 0 {
        let q = s[r - 1] as int;
        assert(prime_count(q) == r);
    } else {
        if v >= 2 && r < s.len() {
        }
        if r == s.len() {
            assert(prime_count(v) <= 0);
        }
    }
}

/// pi(v) counted through a prime list that reaches far enough.
pub proof fn lemma_prime_list_count(s: Seq<u64>, v: int)
    requires
        prime_list(s),
        prime_count(v) <= s.len(),
    ensures
        count_le(s, v) == prime_count(v),
{
    lemma_prime_list_sorted(s);
    let r = choose_partition(s, v);
    lemma_prime_list_partition(s, v, r);
    lemma_count_le_partition(s, v, r);
}

/// Every sorted list has a partition point for every value.
pub proof fn lemma_partition_exists(s: Seq<u64>, v: int) -> (r: int)
    requires
        sorted(s),
    ensures
        is_partition_point(s, v, r),
    decreases s.len(),
{
    if s.len() == 0 {
        0
    } else {
        let t = s.drop_last();
        assert(sorted(t));
        let r0 = lemma_partition_exists(t, v);
        if s.last() as int <= v {
            assert forall|i: int| 0 <= i < s.len() implies #[trigger] s[i] as int <= v by {
                if i < s.len() - 1 {
                    assert(s[i] <= s[s.len() - 1]);
                }
            }
            s.len() as int
        } else {
            assert forall|i: int| r0 <= i < s.len() implies #[trigger] s[i] as int > v by {
                if i < s.len() - 1 {
                    assert(t[i] == s[i]);
                }
            }
            assert forall|i: int| 0 <= i < r0 implies #[trigger] s[i] as int <= v by {
                assert(t[i] == s[i]);
            }
            r0
        }
    }
}

proof fn choose_partition(s: Seq<u64>, v: int) -> (r: int)
    requires
        strictly_sorted(s),
    ensures
        is_partition_point(s, v, r),
{
    assert(sorted(s)) by {
        assert forall|i: int, j: int| 0 <= i <= j < s.len() implies #[trigger] s[i] <= #[trigger] s[j] by {
            if i < j {
                assert(s[i] < s[j]);
            }
        }
    }
    lemma_partition_exists(s, v)
}

/// In a prime list, entry j lies above w exactly when pi(w) <= j.
pub proof fn lemma_prime_list_index(s: Seq<u64>, j: int, w: int)
    requires
        prime_list(s),
        0 <= j < s.len(),
    ensures
        s[j] > w <==> prime_count(w) <= j,
{
    let q = s[j] as int;
    assert(is_prime(q) && prime_count(q) == j + 1);
    if q <= w {
        lemma_prime_count_monotone(q, w);
    } else {
        lemma_prime_count_step(q);
        lemma_prime_count_monotone(w, q - 1);
    }
}

/// A prime list counts min(pi(v), its length) entries up to v.
pub proof fn lemma_prime_list_count_min(s: Seq<u64>, v: int)
    requires
        prime_list(s),
    ensures
        count_le(s, v) == if prime_count(v) <= s.len() { prime_count(v) } else { s.len() },
{
    if prime_count(v) <= s.len() {
        lemma_prime_list_count(s, v);
    } else {
        lemma_prime_list_sorted(s);
        assert forall|i: int| 0 <= i < s.len() implies #[trigger] s[i] as int <= v by {
            lemma_prime_list_index(s, i, v);
        }
        assert(is_partition_point(s, v, s.len() as int));
        lemma_count_le_partition(s, v, s.len() as int);
    }
}

} // verus!
