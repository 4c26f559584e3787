//! A 2D point treated as a complex number, in fixed-point coordinates, with
//! exact contracts for every operation.

use vstd::prelude::*;

verus! {

use crate::arith::{
    div_trunc, div_trunc_i128, isqrt_u128, lemma_div_trunc_bound, lemma_mul_bound,
};

/// One fixed-point unit: scalars carry sixteen fractional bits.
pub const FP_ONE: i128 = 65536;

/// Largest magnitude the product routines accept; products of two such values
/// and their two-term sums stay inside `i128`.
pub const OP_BOUND: i128 = 0x4000_0000_0000_0000;

/// Largest magnitude the sum routines accept.
pub const ADD_BOUND: i128 = 0x3FFF_FFFF_FFFF_FFFF_FFFF_FFFF_FFFF_FFFF;

/// A 2D vector treated as a complex number. Coordinates are fixed-point:
/// `re` and `im` count steps of `1 / FP_ONE`.
#[derive(Clone, Copy, PartialEq, Eq, Structural, Debug)]
pub struct Complex {
    pub re: i128,
    pub im: i128,
}

/// The mathematical model of a `Complex`: a pair of unbounded integers.
pub struct CNum {
    pub re: int,
    pub im: int,
}

impl View for Complex {
    type V = CNum;

    open spec fn view(&self) -> CNum {
        CNum { re: self.re as int, im: self.im as int }
    }
}

pub open spec fn c_zero() -> CNum {
    CNum { re: 0, im: 0 }
}

/// Component-wise sum.
pub open spec fn c_add(a: CNum, b: CNum) -> CNum {
    CNum { re: a.re + b.re, im: a.im + b.im }
}

/// Component-wise difference.
pub open spec fn c_sub(a: CNum, b: CNum) -> CNum {
    CNum { re: a.re - b.re, im: a.im - b.im }
}

/// Scaling by a fixed-point scalar, with truncating rescale.
pub open spec fn c_scale(a: CNum, s: int) -> CNum {
    CNum {
        re: div_trunc(a.re * s, FP_ONE as int),
        im: div_trunc(a.im * s, FP_ONE as int),
    }
}

/// The complex product `(re1*re2 - im1*im2, re1*im2 + im1*re2)`, rescaled by
/// truncating division so the result is again fixed-point.
pub open spec fn c_mul(a: CNum, b: CNum) -> CNum {
    CNum {
        re: div_trunc(a.re * b.re - a.im * b.im, FP_ONE as int),
        im: div_trunc(a.re * b.im + a.im * b.re, FP_ONE as int),
    }
}

/// Component-wise truncating division by a positive integer.
pub open spec fn c_div_int(a: CNum, d: int) -> CNum {
    CNum { re: div_trunc(a.re, d), im: div_trunc(a.im, d) }
}

/// The squared Euclidean norm, exact (carries 32 fractional bits).
pub open spec fn c_mag_sq(a: CNum) -> int {
    a.re * a.re + a.im * a.im
}

/// Both coordinates bounded in magnitude by `b`.
pub open spec fn c_bounded(a: CNum, b: int) -> bool {
    -b <= a.re <= b && -b <= a.im <= b
}

/// Bound propagation through the complex product.
pub proof fn lemma_c_mul_bound(a: CNum, b: CNum, ba: int, bb: int)
    requires
        c_bounded(a, ba),
        c_bounded(b, bb),
        0 <= ba,
        0 <= bb,
    ensures
        c_bounded(c_mul(a, b), 2 * ba * bb),
{
    let big = 2 * ba * bb;
    assert(big >= 0 && -(FP_ONE as int * big) <= a.re * b.re - a.im * b.im <= FP_ONE as int * big
        && -(FP_ONE as int * big) <= a.re * b.im + a.im * b.re <= FP_ONE as int * big)
        by (nonlinear_arith)
        requires
            c_bounded(a, ba),
            c_bounded(b, bb),
            0 <= ba,
            0 <= bb,
            big == 2 * ba * bb,
    ;
    lemma_div_trunc_bound(a.re * b.re - a.im * b.im, FP_ONE as int, big);
    lemma_div_trunc_bound(a.re * b.im + a.im * b.re, FP_ONE as int, big);
}

impl Complex {
    /// Builds the value with the given fixed-point coordinates.
    pub fn new(re: i128, im: i128) -> (r: Complex)
        ensures
            r@ == (CNum { re: re as int, im: im as int }),
    {
        Complex { re, im }
    }

    /// Component-wise sum; exact.
    pub fn add(&self, other: &Complex) -> (r: Complex)
        requires
            c_bounded(self@, ADD_BOUND as int),
            c_bounded(other@, ADD_BOUND as int),
        ensures
            r@ == c_add(self@, other@),
    {
        Complex { re: self.re + other.re, im: self.im + other.im }
    }

    /// Component-wise difference; exact.
    pub fn sub(&self, other: &Complex) -> (r: Complex)
        requires
            c_bounded(self@, ADD_BOUND as int),
            c_bounded(other@, ADD_BOUND as int),
        ensures
            r@ == c_sub(self@, other@),
    {
        Complex { re: self.re - other.re, im: self.im - other.im }
    }

    /// Scaling by a fixed-point scalar (truncating).
    pub fn scale(&self, s: i128) -> (r: Complex)
        requires
            c_bounded(self@, OP_BOUND as int),
            -OP_BOUND <= s <= OP_BOUND,
        ensures
            r@ == c_scale(self@, s as int),
    {
        proof {
            lemma_mul_bound(self.re as int, s as int, OP_BOUND as int, OP_BOUND as int);
            lemma_mul_bound(self.im as int, s as int, OP_BOUND as int, OP_BOUND as int);
        }
        Complex {
            re: div_trunc_i128(self.re * s, FP_ONE),
            im: div_trunc_i128(self.im * s, FP_ONE),
        }
    }

    /// The standard complex product, rescaled to fixed-point.
    pub fn multiply(&self, other: &Complex) -> (r: Complex)
        requires
            c_bounded(self@, OP_BOUND as int),
            c_bounded(other@, OP_BOUND as int),
        ensures
            r@ == c_mul(self@, other@),
    {
        proof {
            lemma_mul_bound(self.re as int, other.re as int, OP_BOUND as int, OP_BOUND as int);
            lemma_mul_bound(self.im as int, other.im as int, OP_BOUND as int, OP_BOUND as int);
            lemma_mul_bound(self.re as int, other.im as int, OP_BOUND as int, OP_BOUND as int);
            lemma_mul_bound(self.im as int, other.re as int, OP_BOUND as int, OP_BOUND as int);
        }
        let rr = self.re * other.re;
        let ii = self.im * other.im;
        let ri = self.re * other.im;
        let ir = self.im * other.re;
        Complex { re: div_trunc_i128(rr - ii, FP_ONE), im: div_trunc_i128(ri + ir, FP_ONE) }
    }

    /// Rotation by the angle whose cosine and sine the unit vector `unit`
    /// carries: exactly the complex product with `unit`. Callers obtain
    /// `unit` from a precomputed table of points on the unit circle.
    pub fn rotate_by(&self, unit: &Complex) -> (r: Complex)
        requires
            c_bounded(self@, OP_BOUND as int),
            c_bounded(unit@, OP_BOUND as int),
        ensures
            r@ == c_mul(self@, unit@),
    {
        self.multiply(unit)
    }

    /// Component-wise truncating division by a positive integer.
    pub fn div_int(&self, d: i128) -> (r: Complex)
        requires
            d >= 1,
            self.re > i128::MIN,
            self.im > i128::MIN,
        ensures
            r@ == c_div_int(self@, d as int),
    {
        Complex { re: div_trunc_i128(self.re, d), im: div_trunc_i128(self.im, d) }
    }

    /// The squared Euclidean norm; exact.
    pub fn magnitude_sq(&self) -> (m: i128)
        requires
            c_bounded(self@, OP_BOUND as int),
        ensures
            m == c_mag_sq(self@),
            m >= 0,
    {
        proof {
            lemma_mul_bound(self.re as int, self.re as int, OP_BOUND as int, OP_BOUND as int);
            lemma_mul_bound(self.im as int, self.im as int, OP_BOUND as int, OP_BOUND as int);
            assert(self.re as int * self.re as int >= 0) by (nonlinear_arith);
            assert(self.im as int * self.im as int >= 0) by (nonlinear_arith);
        }
        self.re * self.re + self.im * self.im
    }

    /// The Euclidean norm, rounded down to the nearest integer of the squared
    /// scale: the greatest `m` with `m * m <= re * re + im * im`.
    pub fn magnitude(&self) -> (m: u128)
        requires
            c_bounded(self@, OP_BOUND as int),
        ensures
            (m as int) * (m as int) <= c_mag_sq(self@),
            (m as int + 1) * (m as int + 1) > c_mag_sq(self@),
    {
        let sq = self.magnitude_sq();
        isqrt_u128(sq as u128)
    }
}

} // verus!
