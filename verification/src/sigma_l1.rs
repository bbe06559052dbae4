//! The split point x_star of Gourdon's A/C decomposition.
use vstd::prelude::*;
use crate::roots::{iroot4, isqrt, floor_root4, floor_sqrt};
use crate::intmath::{max_spec, min_spec};

verus! {

/// x_star(x, y) = max(1, min(max(floor(x^(1/4)), ceil(x / y^2)), y,
/// floor(sqrt(x / y)))), with y taken as at least 1.
pub open spec fn x_star_spec(x: int, y: int) -> int {
    let y1 = max_spec(y, 1);
    let c = (x + y1 * y1 - 1) / (y1 * y1);
    let s0 = max_spec(floor_root4(x), c);
    max_spec(min_spec(min_spec(s0, y1), floor_sqrt(x / y1)), 1)
}

/// The ceiling term of the split point is the least c with c * y^2 >= x
/// (y taken as at least 1), for every x >= 0.
pub proof fn lemma_x_star_ceiling(x: int, y: int, c: int)
    requires
        x >= 0,
        c * (max_spec(y, 1) * max_spec(y, 1)) >= x,
        (c - 1) * (max_spec(y, 1) * max_spec(y, 1)) < x,
    ensures
        (x + max_spec(y, 1) * max_spec(y, 1) - 1) / (max_spec(y, 1) * max_spec(y, 1)) == c,
{
    let y1 = max_spec(y, 1);
    let d = y1 * y1;
    assert(d >= 1) by (nonlinear_arith)
        requires
            y1 >= 1,
            d == y1 * y1,
    ;
    assert(c * d - d == (c - 1) * d) by (nonlinear_arith);
    vstd::arithmetic::div_mod::lemma_fundamental_div_mod_converse(x + d - 1, d, c, x + d - 1 - c * d);
}

/// The split point as a function of x and y: for the least c with
/// c * y^2 >= x (y taken as at least 1), x_star is
/// max(1, min(max(floor(x^(1/4)), c), y, floor(sqrt(x / y)))).
pub proof fn lemma_x_star_is_least_cover(x: int, y: int, c: int)
    requires
        x >= 0,
        c * (max_spec(y, 1) * max_spec(y, 1)) >= x,
        (c - 1) * (max_spec(y, 1) * max_spec(y, 1)) < x,
    ensures
        x_star_spec(x, y) == max_spec(
            min_spec(min_spec(max_spec(floor_root4(x), c), max_spec(y, 1)), floor_sqrt(x / max_spec(y, 1))),
            1,
        ),
{
    lemma_x_star_ceiling(x, y, c);
}

/// Where none of floor(x^(1/4)), y, floor(sqrt(x / y)) and 1 cuts it, the
/// split point r is the least integer with r * y^2 >= x: r * y^2 >= x and
/// (r - 1) * y^2 < x (y taken as at least 1).
pub proof fn lemma_x_star_covers_x(x: int, y: int)
    requires
        x >= 0,
        x_star_spec(x, y) > floor_root4(x),
        x_star_spec(x, y) < max_spec(y, 1),
        x_star_spec(x, y) < floor_sqrt(x / max_spec(y, 1)),
        x_star_spec(x, y) > 1,
    ensures
        x_star_spec(x, y) * (max_spec(y, 1) * max_spec(y, 1)) >= x,
        (x_star_spec(x, y) - 1) * (max_spec(y, 1) * max_spec(y, 1)) < x,
{
    let y1 = max_spec(y, 1);
    let d = y1 * y1;
    assert(d >= 1) by (nonlinear_arith)
        requires
            y1 >= 1,
            d == y1 * y1,
    ;
    let c = (x + d - 1) / d;
    let r = x_star_spec(x, y);
    assert(r == c);
    vstd::arithmetic::div_mod::lemma_fundamental_div_mod(x + d - 1, d);
    let rem = (x + d - 1) % d;
    assert(c * d >= x && (c - 1) * d < x) by (nonlinear_arith)
        requires
            x + d - 1 == d * c + rem,
            0 <= rem < d,
    ;
}

/// The split point between the A leaves (p > x_star) and the C leaves.
pub fn get_x_star_gourdon(x: u64, y: u64) -> (r: u64)
    ensures
        r == x_star_spec(x as int, y as int),
        1 <= r,
        r <= if y >= 1 { y as int } else { 1 },
        r > floor_root4(x as int) && r < max_spec(y as int, 1) && r < floor_sqrt(x as int / max_spec(y as int, 1))
            && r > 1 ==> r * (max_spec(y as int, 1) * max_spec(y as int, 1)) >= x && (r - 1) * (max_spec(y as int, 1)
            * max_spec(y as int, 1)) < x,
{
    proof {
        let r = x_star_spec(x as int, y as int);
        if r > floor_root4(x as int) && r < max_spec(y as int, 1) && r < floor_sqrt(x as int / max_spec(y as int, 1))
            && r > 1 {
            lemma_x_star_covers_x(x as int, y as int);
        }
    }
    let y1: u64 = if y >= 1 {
        y
    } else {
        1
    };
    let y1w = y1 as u128;
    assert(1 <= y1w * y1w <= 0xffff_ffff_ffff_fffe_0000_0000_0000_0001) by (nonlinear_arith)
        requires
            1 <= y1w <= u64::MAX,
    ;
    let yy: u128 = y1w * y1w;
    let x_div_yy: u128 = (x as u128 + yy - 1) / yy;
    let r4 = iroot4(x);
    let mut x_star: u128 = if (r4 as u128) >= x_div_yy {
        r4 as u128
    } else {
        x_div_yy
    };
    let sqrt_xy = isqrt(x / y1);
    if x_star > y1 as u128 {
        x_star = y1 as u128;
    }
    if x_star > sqrt_xy as u128 {
        x_star = sqrt_xy as u128;
    }
    if x_star < 1 {
        x_star = 1;
    }
    x_star as u64
}

} // verus!
