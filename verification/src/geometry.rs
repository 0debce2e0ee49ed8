//! The raster geometry and the pixel-to-plane coordinate mapping.
//!
//! A pixel `(column, row)` inside a `width` by `height` raster maps to the
//! complex-plane point reached by interpolating from the viewport's upper
//! left corner toward its lower right corner: the real part moves left to
//! right with the column, and the imaginary part moves downward with the row
//! — rows grow downward while the imaginary axis points up, so the row
//! interpolation runs from the upper left's imaginary part down to the lower
//! right's. The mapping is exact: the result is a rational number, never a
//! rounded one.

use crate::complex::Complex;
use crate::dec::{dec_lt, dec_lt_spec, pow10, pow10_u64, Dec, MAX_FRAC};
use vstd::prelude::*;

verus! {

/// Largest raster dimension the mapper accepts; keeps every intermediate
/// product inside a 128-bit word.
pub const DIM_LIMIT: usize = 1000000;

/// Largest corner mantissa the mapper accepts, for the same reason.
pub const MANT_LIMIT: u64 = 1000000000000;

/// The pixel raster: both dimensions positive and bounded.
#[derive(Clone, Copy, Debug, PartialEq, Eq, Structural)]
pub struct Bounds {
    pub width: usize,
    pub height: usize,
}

impl Bounds {
    pub open spec fn wf(self) -> bool {
        0 < self.width <= DIM_LIMIT && 0 < self.height <= DIM_LIMIT
    }

    /// The raster only if both dimensions are positive and bounded.
    pub fn new(width: usize, height: usize) -> (r: Option<Bounds>)
        ensures
            r.is_some() == (0 < width <= DIM_LIMIT && 0 < height <= DIM_LIMIT),
            r.is_some() ==> r.unwrap() == (Bounds { width, height }) && r.unwrap().wf(),
    {
        if 0 < width && width <= DIM_LIMIT && 0 < height && height <= DIM_LIMIT {
            Some(Bounds { width, height })
        } else {
            None
        }
    }

    /// Number of pixels in the raster.
    pub fn area(&self) -> (r: usize)
        requires
            self.wf(),
            self.width * self.height <= usize::MAX,
        ensures
            r == self.width * self.height,
    {
        self.width * self.height
    }
}

/// The viewed rectangle of the complex plane: upper left and lower right
/// corners, correctly oriented and non-degenerate.
#[derive(Clone, Copy, Debug, PartialEq, Eq, Structural)]
pub struct Viewport {
    pub upper_left: Complex,
    pub lower_right: Complex,
}

impl Viewport {
    pub open spec fn wf(self) -> bool {
        self.upper_left.re.wf() && self.upper_left.im.wf() && self.lower_right.re.wf()
            && self.lower_right.im.wf() && dec_lt_spec(self.upper_left.re, self.lower_right.re)
            && dec_lt_spec(self.lower_right.im, self.upper_left.im)
    }

    pub fn is_valid(&self) -> (r: bool)
        ensures
            r == self.wf(),
    {
        self.upper_left.re.check_wf() && self.upper_left.im.check_wf()
            && self.lower_right.re.check_wf() && self.lower_right.im.check_wf() && dec_lt(
            &self.upper_left.re,
            &self.lower_right.re,
        ) && dec_lt(&self.lower_right.im, &self.upper_left.im)
    }

    /// Small enough for the exact mapper.
    pub open spec fn within_limits(self) -> bool {
        self.upper_left.re.mant <= MANT_LIMIT && self.upper_left.im.mant <= MANT_LIMIT
            && self.lower_right.re.mant <= MANT_LIMIT && self.lower_right.im.mant <= MANT_LIMIT
    }

    pub fn check_limits(&self) -> (r: bool)
        ensures
            r == self.within_limits(),
    {
        self.upper_left.re.mant <= MANT_LIMIT && self.upper_left.im.mant <= MANT_LIMIT
            && self.lower_right.re.mant <= MANT_LIMIT && self.lower_right.im.mant <= MANT_LIMIT
    }
}

/// An exact rational coordinate in the complex plane.
#[derive(Clone, Copy, Debug, PartialEq, Eq, Structural)]
pub struct Rat {
    pub num: i128,
    pub den: i128,
}

/// Value equality of two rationals, by cross-multiplication.
pub fn rat_eq(a: &Rat, b: &Rat) -> (r: bool)
    requires
        a.den > 0,
        b.den > 0,
        -85070591730234615865843651857942052864 < a.num * b.den
            < 85070591730234615865843651857942052864,
        -85070591730234615865843651857942052864 < b.num * a.den
            < 85070591730234615865843651857942052864,
    ensures
        r == (a.num * b.den == b.num * a.den),
{
    a.num * b.den == b.num * a.den
}

/// The larger of the two fraction counts: the common scale.
pub open spec fn frac_max(a: Dec, b: Dec) -> nat {
    if a.frac >= b.frac {
        a.frac as nat
    } else {
        b.frac as nat
    }
}

/// Numerator of `d` rescaled to `f` fraction digits.
pub open spec fn aligned_num(d: Dec, f: nat) -> int {
    d.num() * pow10((f - d.frac) as nat)
}

/// Numerator of the interpolated coordinate `from + off * (to - from) / dim`
/// over the common denominator `interp_den`.
pub open spec fn interp_num(from_d: Dec, to_d: Dec, dim: int, off: int) -> int {
    let f = frac_max(from_d, to_d);
    aligned_num(from_d, f) * dim + off * (aligned_num(to_d, f) - aligned_num(from_d, f))
}

pub open spec fn interp_den(from_d: Dec, to_d: Dec, dim: int) -> int {
    pow10(frac_max(from_d, to_d)) * dim
}

pub proof fn lemma_pow10_add(a: nat, b: nat)
    ensures
        pow10(a + b) == pow10(a) * pow10(b),
    decreases b,
{
    if b == 0 {
        assert(pow10(a) * 1 == pow10(a)) by (nonlinear_arith);
    } else {
        lemma_pow10_add(a, (b - 1) as nat);
        assert(10 * (pow10(a) * pow10((b - 1) as nat)) == pow10(a) * (10 * pow10(
            (b - 1) as nat,
        ))) by (nonlinear_arith);
    }
}

/// One axis of the mapping, exactly.
pub fn interp(from_d: &Dec, to_d: &Dec, dim: usize, off: usize) -> (r: Rat)
    requires
        from_d.wf(),
        to_d.wf(),
        from_d.mant <= MANT_LIMIT,
        to_d.mant <= MANT_LIMIT,
        0 < dim <= DIM_LIMIT,
        off <= dim,
    ensures
        r.num == interp_num(*from_d, *to_d, dim as int, off as int),
        r.den == interp_den(*from_d, *to_d, dim as int),
        r.den > 0,
{
    let f: u32 = if from_d.frac >= to_d.frac {
        from_d.frac
    } else {
        to_d.frac
    };
    let sa: u64 = pow10_u64(f - from_d.frac);
    let sb: u64 = pow10_u64(f - to_d.frac);
    proof {
        assert(0 <= (from_d.mant as i128) * (sa as i128) <= 1000000000000000000000000000000i128)
            by (nonlinear_arith)
            requires
                0 <= from_d.mant as i128 <= 1000000000000i128,
                0 <= sa as i128 <= 1000000000000000000i128,
        ;
        assert(0 <= (to_d.mant as i128) * (sb as i128) <= 1000000000000000000000000000000i128)
            by (nonlinear_arith)
            requires
                0 <= to_d.mant as i128 <= 1000000000000i128,
                0 <= sb as i128 <= 1000000000000000000i128,
        ;
    }
    let scaled_from: i128 = (from_d.mant as i128) * (sa as i128);
    let scaled_to: i128 = (to_d.mant as i128) * (sb as i128);
    let a: i128 = if from_d.neg {
        -scaled_from
    } else {
        scaled_from
    };
    let b: i128 = if to_d.neg {
        -scaled_to
    } else {
        scaled_to
    };
    proof {
        assert((-(from_d.mant as int)) * (sa as int) == -((from_d.mant as int) * (sa as int)))
            by (nonlinear_arith);
        assert((-(to_d.mant as int)) * (sb as int) == -((to_d.mant as int) * (sb as int)))
            by (nonlinear_arith);
        assert(a == aligned_num(*from_d, f as nat));
        assert(b == aligned_num(*to_d, f as nat));
        assert(-2000000000000000000000000000000000000i128 <= a * (dim as i128)
            <= 2000000000000000000000000000000000000i128) by (nonlinear_arith)
            requires
                -1000000000000000000000000000000i128 <= a <= 1000000000000000000000000000000i128,
                0 < dim as i128 <= 1000000i128,
        ;
        assert(-2000000000000000000000000000000000000i128 <= (off as i128) * (b - a)
            <= 2000000000000000000000000000000000000i128) by (nonlinear_arith)
            requires
                -2000000000000000000000000000000i128 <= b - a
                    <= 2000000000000000000000000000000i128,
                0 <= off as i128 <= 1000000i128,
        ;
    }
    let num: i128 = a * (dim as i128) + (off as i128) * (b - a);
    let p: u64 = pow10_u64(f);
    proof {
        assert((p as i128) * (dim as i128) <= 1000000000000000000000000i128
            && 0 < (p as i128) * (dim as i128)) by (nonlinear_arith)
            requires
                0 < p as i128 <= 1000000000000000000i128,
                0 < dim as i128 <= 1000000i128,
        ;
    }
    let den: i128 = (p as i128) * (dim as i128);
    Rat { num, den }
}

/// The mapping law: over the common denominator, the mapped coordinate's
/// value is exactly `from + off * (to - from) / dim` — the cross-multiplied
/// form of the linear interpolation, with no rounding anywhere.
pub proof fn lemma_interp_value(from_d: Dec, to_d: Dec, dim: int, off: int)
    requires
        dim > 0,
    ensures
        interp_num(from_d, to_d, dim, off) * (from_d.den() * to_d.den() * dim) == (from_d.num()
            * to_d.den() * dim + off * (to_d.num() * from_d.den() - from_d.num() * to_d.den()))
            * interp_den(from_d, to_d, dim),
{
    let f = frac_max(from_d, to_d);
    let p1 = pow10((f - from_d.frac) as nat) as int;
    let p2 = pow10((f - to_d.frac) as nat) as int;
    let d1 = from_d.den();
    let d2 = to_d.den();
    let whole = pow10(f) as int;
    lemma_pow10_add((f - from_d.frac) as nat, from_d.frac as nat);
    lemma_pow10_add((f - to_d.frac) as nat, to_d.frac as nat);
    assert(p1 * d1 == whole);
    assert(p2 * d2 == whole);
    let n1 = from_d.num();
    let n2 = to_d.num();
    assert((n1 * p1) * (d1 * d2 * dim) == (n1 * d2) * (whole * dim)) by (nonlinear_arith)
        requires
            p1 * d1 == whole,
    ;
    assert((n2 * p2) * (d1 * d2 * dim) == (n2 * d1) * (whole * dim)) by (nonlinear_arith)
        requires
            p2 * d2 == whole,
    ;
    assert(((n1 * p1) * dim + off * ((n2 * p2) - (n1 * p1))) * (d1 * d2 * dim) == dim * ((n1 * p1)
        * (d1 * d2 * dim)) + off * ((n2 * p2) * (d1 * d2 * dim)) - off * ((n1 * p1) * (d1 * d2
        * dim))) by (nonlinear_arith);
    assert((n1 * d2 * dim + off * (n2 * d1 - n1 * d2)) * (whole * dim) == dim * ((n1 * d2) * (whole
        * dim)) + off * ((n2 * d1) * (whole * dim)) - off * ((n1 * d2) * (whole * dim)))
        by (nonlinear_arith);
    assert(interp_num(from_d, to_d, dim, off) == (n1 * p1) * dim + off * ((n2 * p2) - (n1 * p1)));
}

/// Map a pixel to its point of the complex plane: the column interpolates
/// the real part from the upper left corner rightward, the row interpolates
/// the imaginary part from the upper left corner downward.
pub fn pixel_to_point(bounds: &Bounds, pixel: (usize, usize), viewport: &Viewport) -> (p: (
    Rat,
    Rat,
))
    requires
        bounds.wf(),
        viewport.wf(),
        viewport.within_limits(),
        pixel.0 <= bounds.width,
        pixel.1 <= bounds.height,
    ensures
        p.0.num == interp_num(
            viewport.upper_left.re,
            viewport.lower_right.re,
            bounds.width as int,
            pixel.0 as int,
        ),
        p.0.den == interp_den(viewport.upper_left.re, viewport.lower_right.re, bounds.width as int),
        p.1.num == interp_num(
            viewport.upper_left.im,
            viewport.lower_right.im,
            bounds.height as int,
            pixel.1 as int,
        ),
        p.1.den == interp_den(
            viewport.upper_left.im,
            viewport.lower_right.im,
            bounds.height as int,
        ),
        p.0.den > 0,
        p.1.den > 0,
{
    let re = interp(&viewport.upper_left.re, &viewport.lower_right.re, bounds.width, pixel.0);
    let im = interp(&viewport.upper_left.im, &viewport.lower_right.im, bounds.height, pixel.1);
    (re, im)
}

} // verus!
