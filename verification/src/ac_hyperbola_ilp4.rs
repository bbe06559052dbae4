//! AC leaves four at a time: four reciprocal divisions and four table
//! lookups per step.
use vstd::prelude::*;
use crate::ac_monotone::{PiTableOps, leaf_domain, model_of};
use crate::leaf_sums::index_leaf_sum;
use crate::magic_reciprocal::FastDiv64;
use crate::segmented_pi::SegmentedPiTable;

verus! {

/// The divisors of a run of prepared reciprocals.
pub open spec fn divisors_of(t: Seq<FastDiv64>) -> Seq<u64> {
    t.map_values(|r: FastDiv64| r.divisor)
}

/// Adds the leaves at indices idx, idx + 1, ... in blocks of four while a
/// whole block fits below `p_end_idx`, and returns the first index left
/// over. The leaf at index i is pi(x_div_m / d_i) - (i + 1) + 1, with d_i
/// the divisor of `reciprocals[i]`; the accumulator must hold every running
/// total up to `p_end_idx`.
pub fn process_ac_leaves_ilp4(
    x_div_m: u64,
    idx: usize,
    p_end_idx: usize,
    reciprocals: &[FastDiv64],
    pi_table: &SegmentedPiTable,
    leaf_acc: &mut i64,
) -> (next: usize)
    requires
        idx <= p_end_idx,
        leaf_domain(
            pi_table,
            x_div_m as int,
            divisors_of(reciprocals@),
            reciprocals@,
            idx as int,
            p_end_idx as int,
        ),
        forall|k: int|
            idx <= k <= p_end_idx ==> i64::MIN <= *old(leaf_acc) + #[trigger] index_leaf_sum(
                x_div_m as int,
                divisors_of(reciprocals@),
                idx as int,
                k,
                model_of(pi_table),
                1,
            ) <= i64::MAX,
    ensures
        next == idx + 4 * ((p_end_idx - idx) / 4),
        *final(leaf_acc) == *old(leaf_acc) + index_leaf_sum(
            x_div_m as int,
            divisors_of(reciprocals@),
            idx as int,
            next as int,
            model_of(pi_table),
            1,
        ),
{
    let ghost s = divisors_of(reciprocals@);
    let ghost piv = model_of(pi_table);
    let ghost xm = x_div_m as int;
    let ghost start = idx as int;
    let ghost acc0 = *leaf_acc;
    let mut idx = idx;
    while p_end_idx - idx >= 4
        invariant
            s == divisors_of(reciprocals@),
            piv == model_of(pi_table),
            xm == x_div_m,
            start <= idx <= p_end_idx,
            (idx - start) % 4 == 0,
            leaf_domain(pi_table, xm, s, reciprocals@, start, p_end_idx as int),
            forall|k: int|
                start <= k <= p_end_idx ==> i64::MIN <= acc0 + #[trigger] index_leaf_sum(xm, s, start, k, piv, 1)
                    <= i64::MAX,
            *leaf_acc == acc0 + index_leaf_sum(xm, s, start, idx as int, piv, 1),
        decreases p_end_idx - idx,
    {
        let r0 = reciprocals[idx];
        let r1 = reciprocals[idx + 1];
        let r2 = reciprocals[idx + 2];
        let r3 = reciprocals[idx + 3];
        // Four reciprocal divisions, then four lookups.
        let v0 = r0.div(x_div_m);
        let v1 = r1.div(x_div_m);
        let v2 = r2.div(x_div_m);
        let v3 = r3.div(x_div_m);
        let pi_v0 = PiTableOps::pi(pi_table, v0);
        let pi_v1 = PiTableOps::pi(pi_table, v1);
        let pi_v2 = PiTableOps::pi(pi_table, v2);
        let pi_v3 = PiTableOps::pi(pi_table, v3);
        proof {
            let i = idx as int;
            assert(s[i] == r0.divisor && s[i + 1] == r1.divisor && s[i + 2] == r2.divisor && s[i + 3]
                == r3.divisor);
            assert(v0 == xm / (s[i] as int) && v1 == xm / (s[i + 1] as int) && v2 == xm / (s[i + 2] as int)
                && v3 == xm / (s[i + 3] as int));
            assert(index_leaf_sum(xm, s, start, i + 1, piv, 1) == index_leaf_sum(xm, s, start, i, piv, 1)
                + piv(v0 as int) - i);
            assert(index_leaf_sum(xm, s, start, i + 2, piv, 1) == index_leaf_sum(xm, s, start, i + 1, piv, 1)
                + piv(v1 as int) - (i + 1));
            assert(index_leaf_sum(xm, s, start, i + 3, piv, 1) == index_leaf_sum(xm, s, start, i + 2, piv, 1)
                + piv(v2 as int) - (i + 2));
            assert(index_leaf_sum(xm, s, start, i + 4, piv, 1) == index_leaf_sum(xm, s, start, i + 3, piv, 1)
                + piv(v3 as int) - (i + 3));
            assert(i64::MIN <= acc0 + index_leaf_sum(xm, s, start, i + 4, piv, 1) <= i64::MAX);
        }
        let base_pi_p = (idx + 1) as i128;
        let block = ((pi_v0 as i128) - base_pi_p + 1) + ((pi_v1 as i128) - (base_pi_p + 1) + 1) + ((
        pi_v2 as i128) - (base_pi_p + 2) + 1) + ((pi_v3 as i128) - (base_pi_p + 3) + 1);
        *leaf_acc = (*leaf_acc as i128 + block) as i64;
        idx += 4;
    }
    proof {
        assert((idx - start) / 4 == (p_end_idx - start) / 4);
    }
    idx
}

} // verus!
