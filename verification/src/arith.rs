//! Integer arithmetic helpers shared by the whole crate: truncating division,
//! an integer square root, and a few bound lemmas.

use vstd::prelude::*;

verus! {

use vstd::arithmetic::div_mod::{
    lemma_div_is_ordered,
    lemma_div_multiples_vanish,
    lemma_div_nonincreasing,
    lemma_div_pos_is_pos,
    lemma_fundamental_div_mod,
    lemma_fundamental_div_mod_converse_mod,
    lemma_mod_division_less_than_divisor,
};

/// Truncating (round-toward-zero) division of `x` by a positive divisor `d`.
/// This is the rounding rule every fixed-point operation of the crate uses.
pub open spec fn div_trunc(x: int, d: int) -> int
    recommends
        d >= 1,
{
    if x >= 0 {
        x / d
    } else {
        -((-x) / d)
    }
}

/// A product of values bounded in magnitude is bounded by the product of the
/// bounds.
pub proof fn lemma_mul_bound(a: int, b: int, ba: int, bb: int)
    requires
        -ba <= a <= ba,
        -bb <= b <= bb,
        0 <= ba,
        0 <= bb,
    ensures
        -(ba * bb) <= a * b <= ba * bb,
{
    assert(-(ba * bb) <= a * b <= ba * bb) by (nonlinear_arith)
        requires
            -ba <= a <= ba,
            -bb <= b <= bb,
            0 <= ba,
            0 <= bb,
    ;
}

/// Truncating division keeps a quotient bound: if `|x| <= d * b` then
/// `|div_trunc(x, d)| <= b`.
pub proof fn lemma_div_trunc_bound(x: int, d: int, b: int)
    requires
        d >= 1,
        b >= 0,
        -(d * b) <= x <= d * b,
    ensures
        -b <= div_trunc(x, d) <= b,
{
    lemma_div_multiples_vanish(b, d);
    if x >= 0 {
        lemma_div_pos_is_pos(x, d);
        lemma_div_is_ordered(x, d * b, d);
    } else {
        lemma_div_pos_is_pos(-x, d);
        lemma_div_is_ordered(-x, d * b, d);
    }
}

/// Euclidean remainder of a negated non-negative value.
pub proof fn lemma_mod_neg(a: int, d: int)
    requires
        d >= 1,
        a >= 0,
    ensures
        (-a) % d == (if a % d == 0 {
            0int
        } else {
            d - (a % d)
        }),
{
    let q = a / d;
    let r = a % d;
    lemma_fundamental_div_mod(a, d);
    lemma_mod_division_less_than_divisor(a, d);
    if r == 0 {
        assert(-a == (-q) * d + 0) by (nonlinear_arith)
            requires
                a == q * d + r,
                r == 0,
        ;
        lemma_fundamental_div_mod_converse_mod(-a, d, -q, 0);
    } else {
        assert(-a == (-q - 1) * d + (d - r)) by (nonlinear_arith)
            requires
                a == q * d + r,
        ;
        lemma_fundamental_div_mod_converse_mod(-a, d, -q - 1, d - r);
    }
}

/// Exec truncating division on `i128` by a positive divisor.
pub fn div_trunc_i128(x: i128, d: i128) -> (r: i128)
    requires
        d >= 1,
        x > i128::MIN,
    ensures
        r == div_trunc(x as int, d as int),
{
    if x >= 0 {
        let q = (x as u128) / (d as u128);
        proof {
            lemma_div_nonincreasing(x as int, d as int);
        }
        q as i128
    } else {
        let q = ((-x) as u128) / (d as u128);
        proof {
            lemma_div_nonincreasing(-(x as int), d as int);
        }
        -(q as i128)
    }
}

/// Integer square root: the greatest `r` with `r * r <= x`.
pub fn isqrt_u128(x: u128) -> (r: u128)
    ensures
        (r as int) * (r as int) <= x as int,
        (r as int + 1) * (r as int + 1) > x as int,
{
    let mut lo: u128 = 0;
    let mut hi: u128 = 0x1_0000_0000_0000_0000;
    proof {
        assert((hi as int) * (hi as int) > x as int) by (nonlinear_arith)
            requires
                hi == 0x1_0000_0000_0000_0000u128,
                x <= u128::MAX,
        ;
    }
    while lo + 1 < hi
        invariant
            lo < hi,
            hi <= 0x1_0000_0000_0000_0000,
            (lo as int) * (lo as int) <= x as int,
            (hi as int) * (hi as int) > x as int,
        decreases hi - lo,
    {
        let mid = lo + (hi - lo) / 2;
        proof {
            assert((mid as int) * (mid as int) <= (u64::MAX as int) * (u64::MAX as int))
                by (nonlinear_arith)
                requires
                    mid <= u64::MAX as u128,
            ;
        }
        if mid * mid <= x {
            lo = mid;
        } else {
            hi = mid;
        }
    }
    lo
}

} // verus!
