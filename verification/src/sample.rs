//! The shared pixel-sample type, the squared-distance metric, and clamping.

use vstd::prelude::*;

verus! {

/// One pixel observation: three color channels (8-bit intensities held in a
/// wider integer type so arithmetic has room) plus the originating
/// coordinate. The position plays no role in distance computation; it is
/// carried only so a sample can be written back to where it came from.
#[derive(Clone, Copy, PartialEq, Eq, Structural, Debug)]
pub struct Sample {
    pub r: i32,
    pub g: i32,
    pub b: i32,
    pub x: i32,
    pub y: i32,
}

/// Each color channel is an 8-bit intensity.
pub open spec fn channels_valid(s: Sample) -> bool {
    &&& 0 <= s.r <= 255
    &&& 0 <= s.g <= 255
    &&& 0 <= s.b <= 255
}

/// Every element of a sample sequence has valid channels.
pub open spec fn all_channels_valid(s: Seq<Sample>) -> bool {
    forall|i: int| 0 <= i < s.len() ==> channels_valid(#[trigger] s[i])
}

/// Squared Euclidean distance over the three color channels; positions are
/// ignored. Only relative order matters to the callers, so no root is taken.
pub open spec fn distance_spec(a: Sample, b: Sample) -> int {
    (a.r - b.r) * (a.r - b.r) + (a.g - b.g) * (a.g - b.g) + (a.b - b.b) * (a.b - b.b)
}

/// The same color with the position cleared, as centroids carry no location.
pub open spec fn zero_pos(s: Sample) -> Sample {
    Sample { r: s.r, g: s.g, b: s.b, x: 0, y: 0 }
}

/// Two samples agree on all three color channels (positions may differ).
pub open spec fn same_color(a: Sample, b: Sample) -> bool {
    a.r == b.r && a.g == b.g && a.b == b.b
}

/// The distance metric is symmetric, non-negative, and zero from a point to
/// itself.
pub proof fn lemma_distance_metric(a: Sample, b: Sample)
    ensures
        distance_spec(a, b) == distance_spec(b, a),
        distance_spec(a, b) >= 0,
        distance_spec(a, a) == 0,
{
    assert((a.r - b.r) * (a.r - b.r) == (b.r - a.r) * (b.r - a.r)) by (nonlinear_arith);
    assert((a.g - b.g) * (a.g - b.g) == (b.g - a.g) * (b.g - a.g)) by (nonlinear_arith);
    assert((a.b - b.b) * (a.b - b.b) == (b.b - a.b) * (b.b - a.b)) by (nonlinear_arith);
    assert((a.r - b.r) * (a.r - b.r) >= 0) by (nonlinear_arith);
    assert((a.g - b.g) * (a.g - b.g) >= 0) by (nonlinear_arith);
    assert((a.b - b.b) * (a.b - b.b) >= 0) by (nonlinear_arith);
}

/// Squared Euclidean color distance between two samples.
pub fn distance_heuristic(p1: &Sample, p2: &Sample) -> (d: i32)
    requires
        channels_valid(*p1),
        channels_valid(*p2),
    ensures
        d == distance_spec(*p1, *p2),
        d >= 0,
{
    let dr = p1.r - p2.r;
    let dg = p1.g - p2.g;
    let db = p1.b - p2.b;
    proof {
        assert(0 <= dr * dr <= 255 * 255) by (nonlinear_arith)
            requires
                -255 <= dr <= 255,
        ;
        assert(0 <= dg * dg <= 255 * 255) by (nonlinear_arith)
            requires
                -255 <= dg <= 255,
        ;
        assert(0 <= db * db <= 255 * 255) by (nonlinear_arith)
            requires
                -255 <= db <= 255,
        ;
    }
    dr * dr + dg * dg + db * db
}

/// What `value` becomes when restricted to `[min, max]`.
pub open spec fn clamp_spec(value: int, min: int, max: int) -> int {
    if value < min {
        min
    } else if value > max {
        max
    } else {
        value
    }
}

/// Restrict `value` to the interval `[min, max]`.
pub fn clamp(value: i32, min: i32, max: i32) -> (r: i32)
    ensures
        r == clamp_spec(value as int, min as int, max as int),
{
    if value < min {
        min
    } else if value > max {
        max
    } else {
        value
    }
}

} // verus!
