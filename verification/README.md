# titan_count

Exact prime counting pi(x) by the combinatorial methods of Lehmer and
Gourdon, with every evaluation proved in Verus against a mathematical
model of primes, prime counts and leaf sums.

## Layout

- `src/` — the verified library.
  - Model: `primality` (primes, pi, ordered prime lists), `roots`
    (floor square, cube and fourth roots), `leaf_sums` (the sums that the
    leaf evaluators return), `intmath`.
  - Tables: `pi_table` (exact pi up to a bound, prime generation),
    `segmented_pi` (pi over a window), `picache`, `sampled_index`,
    `magic_reciprocal` (prepared divisors), `factor_table` (greatest prime
    factors), `mertens_struct` (Mertens prefix sums), `delta_prime_stream`.
  - Lehmer: `phi` (Legendre's phi with its recursion and Buchstab's
    identity), `p2_sweep`, `p3`, `assembly` (Lehmer's identity and the
    counter whose result is pi(x)), `marathon` (the same count in stages
    that a run records and resumes from).
  - Gourdon leaves: `b_term`, `b_monotone`, `b_walker`, `b_term_parallel`
    (B), `ac_hyperbola*`, `ac_monotone`, `ac_clustered`, `ac_parallel`,
    `ac_parallel_v2`, `a_window`, `ac_term` (A and C), `a_term` (ordinary
    leaves), `arena25`
    (special leaves by Mertens runs), `sigma_l1` (x_star), `census`,
    `threshold_count`.
  - Work queues: `asymmetric_handoff*` and the dispensers of `ac_parallel`
    and `ac_term`, whose claims tile their ranges.
  - `anchors`: published values of pi(10^k).
- `tests/` — runs of the library on concrete values.
- `app/` — the thread-level drivers that hand chunks of the verified
  evaluations to worker threads and add up the results, and the
  checkpoint files of the staged count.
