//! Where the chains of steps put points, once numbers have values.
//!
//! The values are left open: whatever real numbers the numbers of a document stand
//! for, a chain maps points as its steps say.

use crate::machine::GlyphModel;
use crate::matrix::{Scalar, Step, Transform};
use crate::number::Number;
use vstd::prelude::*;

verus! {

/// What a scalar comes to.
pub open spec fn scalar_value(val: spec_fn(Number) -> real, s: Scalar) -> real {
    match s {
        Scalar::Plain(n) => val(n),
        Scalar::Negated(n) => 0real - val(n),
        Scalar::Percent(n) => val(n) / 100real,
    }
}

/// Where a step takes a point.
pub open spec fn stepped_to(val: spec_fn(Number) -> real, step: Step, p: (real, real)) -> (real, real) {
    match step {
        Step::Matrix(m) => (
            val(m.a) * p.0 + val(m.c) * p.1 + val(m.e),
            val(m.b) * p.0 + val(m.d) * p.1 + val(m.f),
        ),
        Step::Origin(l, b) => (p.0 - val(Number::Real(l)), p.1 - val(Number::Real(b))),
        Step::Shift(x, y) => (p.0 + val(x), p.1 + val(y)),
        Step::Down(leading) => (p.0, p.1 - scalar_value(val, leading)),
        Step::Kern { adjust, size, scale } => (
            p.0 - val(adjust) / 1000real * val(size) * scalar_value(val, scale),
            p.1,
        ),
        Step::Advance { width, size, spacing, word, scale } => (
            p.0 + (val(width) / 1000real * val(size) + val(spacing) + (match word {
                Some(w) => val(w),
                None => 0real,
            })) * scalar_value(val, scale),
            p.1,
        ),
    }
}

/// Where a matrix takes a point.
pub open spec fn placed_at(val: spec_fn(Number) -> real, t: Transform, p: (real, real)) -> (real, real)
    decreases t,
{
    match t {
        Transform::Identity => p,
        Transform::Only(step) => stepped_to(val, step, p),
        Transform::Before(step, rest) => placed_at(val, *rest, stepped_to(val, step, p)),
    }
}

/// Where a point of a glyph, in units of an em, stands on the page.
pub open spec fn glyph_point(val: spec_fn(Number) -> real, g: GlyphModel, p: (real, real)) -> (real, real) {
    placed_at(
        val,
        g.ctm,
        placed_at(
            val,
            g.tm,
            (p.0 * val(g.size) * scalar_value(val, g.scale), p.1 * val(g.size) + val(g.rise)),
        ),
    )
}

} // verus!
