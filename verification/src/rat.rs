//! Exact sample values and the linear range remap.
//!
//! Raw parsed values are integer counts of millionths of a unit. Remapping
//! `v` from input range `[a, b]` to output range `[c, d]` computes
//! `(v - a) / (b - a) * (d - c) + c` exactly, as the rational number
//! `((v - a) * (d - c) + c * (b - a)) / ((b - a) * 1_000_000)`.

use crate::parse::VALUE_LIMIT;
use vstd::prelude::*;

verus! {

/// One sample value, exactly: the rational `num / den` with `den > 0`.
#[derive(PartialEq, Eq, Structural, Clone, Copy, Debug)]
pub struct Rat {
    pub num: i128,
    pub den: i128,
}

impl Rat {
    pub open spec fn wf(&self) -> bool {
        self.den > 0
    }

    /// Whether two representations stand for the same rational value.
    pub open spec fn same_value(&self, other: Rat) -> bool {
        self.num * other.den == other.num * self.den
    }
}

/// A raw value of `m` millionths, embedded as a rational.
pub open spec fn rat_of_micros(m: int) -> Rat {
    Rat { num: m as i128, den: 1_000_000i128 }
}

/// Numerator of the remapped value, over denominator `remap_den(a, b)`.
pub open spec fn remap_num(v: int, a: int, b: int, c: int, d: int) -> int {
    (v - a) * (d - c) + c * (b - a)
}

pub open spec fn remap_den(a: int, b: int) -> int {
    (b - a) * 1_000_000
}

/// The remapped value as a rational; meaningful under the bounds of
/// `lemma_remap_in_range`, which keep the casts exact.
pub open spec fn remap_rat(v: int, a: int, b: int, c: int, d: int) -> Rat {
    Rat { num: remap_num(v, a, b, c, d) as i128, den: remap_den(a, b) as i128 }
}

/// For bounded arguments the remap numerator and denominator stay far
/// inside `i128`, and the denominator is positive.
pub proof fn lemma_remap_in_range(v: int, a: int, b: int, c: int, d: int)
    requires
        -(VALUE_LIMIT as int) <= v <= VALUE_LIMIT as int,
        -(VALUE_LIMIT as int) <= a <= VALUE_LIMIT as int,
        -(VALUE_LIMIT as int) <= b <= VALUE_LIMIT as int,
        -(VALUE_LIMIT as int) <= c <= VALUE_LIMIT as int,
        -(VALUE_LIMIT as int) <= d <= VALUE_LIMIT as int,
        a < b,
    ensures
        0 < remap_den(a, b) <= 2_000_000_000_000_000_000_000,
        -4_000_000_000_000_000_000_000_000_000_000 <= (v - a) * (d - c)
            <= 4_000_000_000_000_000_000_000_000_000_000,
        -2_000_000_000_000_000_000_000_000_000_000 <= c * (b - a)
            <= 2_000_000_000_000_000_000_000_000_000_000,
        -7_000_000_000_000_000_000_000_000_000_000 <= remap_num(v, a, b, c, d)
            <= 7_000_000_000_000_000_000_000_000_000_000,
{
    assert((v - a) * (d - c) <= 4_000_000_000_000_000_000_000_000_000_000 && (v - a) * (d - c)
        >= -4_000_000_000_000_000_000_000_000_000_000) by (nonlinear_arith)
        requires
            -2_000_000_000_000_000 <= v - a <= 2_000_000_000_000_000,
            -2_000_000_000_000_000 <= d - c <= 2_000_000_000_000_000,
    ;
    assert(c * (b - a) <= 2_000_000_000_000_000_000_000_000_000_000 && c * (b - a)
        >= -2_000_000_000_000_000_000_000_000_000_000) by (nonlinear_arith)
        requires
            -1_000_000_000_000_000 <= c <= 1_000_000_000_000_000,
            0 < b - a <= 2_000_000_000_000_000,
    ;
}

/// Remaps `v` from `[a, b]` to `[c, d]`, exactly.
pub fn remap(v: i64, a: i64, b: i64, c: i64, d: i64) -> (r: Rat)
    requires
        -VALUE_LIMIT <= v <= VALUE_LIMIT,
        -VALUE_LIMIT <= a <= VALUE_LIMIT,
        -VALUE_LIMIT <= b <= VALUE_LIMIT,
        -VALUE_LIMIT <= c <= VALUE_LIMIT,
        -VALUE_LIMIT <= d <= VALUE_LIMIT,
        a < b,
    ensures
        r.num == remap_num(v as int, a as int, b as int, c as int, d as int),
        r.den == remap_den(a as int, b as int),
        r == remap_rat(v as int, a as int, b as int, c as int, d as int),
        r.wf(),
{
    proof {
        lemma_remap_in_range(v as int, a as int, b as int, c as int, d as int);
    }
    let p = (v as i128) - (a as i128);
    let q = (d as i128) - (c as i128);
    let w = (b as i128) - (a as i128);
    let num = p * q + (c as i128) * w;
    let den = w * 1_000_000;
    Rat { num, den }
}

/// A raw value of `m` millionths, as a sample.
pub fn from_micros(m: i64) -> (r: Rat)
    ensures
        r == rat_of_micros(m as int),
        r.wf(),
{
    Rat { num: m as i128, den: 1_000_000 }
}

/// The remap is affine: the input range's endpoints land exactly on the
/// output range's endpoints, `remap(a) = c` and `remap(b) = d` as rational
/// values over the positive denominator `remap_den(a, b)`.
pub proof fn lemma_remap_endpoints(a: int, b: int, c: int, d: int)
    requires
        a < b,
    ensures
        remap_num(a, a, b, c, d) * 1_000_000 == c * remap_den(a, b),
        remap_num(b, a, b, c, d) * 1_000_000 == d * remap_den(a, b),
        remap_den(a, b) > 0,
{
    assert((a - a) * (d - c) == 0);
    assert(((b - a) * (d - c) + c * (b - a)) * 1_000_000 == d * ((b - a) * 1_000_000))
        by (nonlinear_arith);
    assert((c * (b - a)) * 1_000_000 == c * ((b - a) * 1_000_000)) by (nonlinear_arith);
}

/// The remap is monotonic in `v` when the output range rises with the
/// input range: over the common positive denominator, a larger input never
/// yields a smaller numerator.
pub proof fn lemma_remap_monotone(v1: int, v2: int, a: int, b: int, c: int, d: int)
    requires
        a < b,
        c <= d,
        v1 <= v2,
    ensures
        remap_num(v1, a, b, c, d) <= remap_num(v2, a, b, c, d),
        remap_den(a, b) > 0,
{
    assert((v1 - a) * (d - c) <= (v2 - a) * (d - c)) by (nonlinear_arith)
        requires
            v1 <= v2,
            c <= d,
    ;
}

/// The remap is antitonic in `v` when the output range falls as the input
/// range rises.
pub proof fn lemma_remap_antitone(v1: int, v2: int, a: int, b: int, c: int, d: int)
    requires
        a < b,
        d <= c,
        v1 <= v2,
    ensures
        remap_num(v1, a, b, c, d) >= remap_num(v2, a, b, c, d),
        remap_den(a, b) > 0,
{
    assert((v1 - a) * (d - c) >= (v2 - a) * (d - c)) by (nonlinear_arith)
        requires
            v1 <= v2,
            d <= c,
    ;
}

} // verus!
