//! Published values of pi(10^k), 6 <= k <= 18, that runs are checked
//! against.
use vstd::prelude::*;

verus! {

/// pi(10^k) for 6 <= k <= 18; no anchor elsewhere.
pub open spec fn pi_anchor(x: int) -> Option<int> {
    if x == 1_000_000 {
        Some(78_498)
    } else if x == 10_000_000 {
        Some(664_579)
    } else if x == 100_000_000 {
        Some(5_761_455)
    } else if x == 1_000_000_000 {
        Some(50_847_534)
    } else if x == 10_000_000_000 {
        Some(455_052_511)
    } else if x == 100_000_000_000 {
        Some(4_118_054_813)
    } else if x == 1_000_000_000_000 {
        Some(37_607_912_018)
    } else if x == 10_000_000_000_000 {
        Some(346_065_536_839)
    } else if x == 100_000_000_000_000 {
        Some(3_204_941_750_802)
    } else if x == 1_000_000_000_000_000 {
        Some(29_844_570_422_669)
    } else if x == 10_000_000_000_000_000 {
        Some(279_238_341_033_925)
    } else if x == 100_000_000_000_000_000 {
        Some(2_623_557_157_654_233)
    } else if x == 1_000_000_000_000_000_000 {
        Some(24_739_954_287_740_860)
    } else {
        None
    }
}

/// The anchor for x, if x is one of the anchored powers of ten.
pub fn expected_pi(x: u64) -> (r: Option<u64>)
    ensures
        match r {
            Some(v) => pi_anchor(x as int) == Some(v as int),
            None => pi_anchor(x as int) is None,
        },
{
    match x {
        1_000_000 => Some(78_498),
        10_000_000 => Some(664_579),
        100_000_000 => Some(5_761_455),
        1_000_000_000 => Some(50_847_534),
        10_000_000_000 => Some(455_052_511),
        100_000_000_000 => Some(4_118_054_813),
        1_000_000_000_000 => Some(37_607_912_018),
        10_000_000_000_000 => Some(346_065_536_839),
        100_000_000_000_000 => Some(3_204_941_750_802),
        1_000_000_000_000_000 => Some(29_844_570_422_669),
        10_000_000_000_000_000 => Some(279_238_341_033_925),
        100_000_000_000_000_000 => Some(2_623_557_157_654_233),
        1_000_000_000_000_000_000 => Some(24_739_954_287_740_860),
        _ => None,
    }
}

} // verus!
