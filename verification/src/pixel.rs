//! The atomic colored sample and the channel-selection enum.

use vstd::prelude::*;
use vstd::std_specs::cmp::PartialEqSpec;

verus! {

/// A colored sample: three color channels and the source coordinates.
///
/// The channels are logically constrained to `[0, 255]`; producers enforce
/// the constraint, expressed here as [`rgb_ok`]. The coordinates identify the
/// sample's origin and are excluded from equality.
#[derive(Clone, Debug, Copy, Eq)]
pub struct Pixel {
    pub r: i64,
    pub g: i64,
    pub b: i64,
    pub x: i64,
    pub y: i64,
}

/// What `==` on [`Pixel`] means: the color channels agree; coordinates are
/// ignored.
pub open spec fn same_rgb(p: Pixel, q: Pixel) -> bool {
    p.r == q.r && p.g == q.g && p.b == q.b
}

impl PartialEq for Pixel {
    fn eq(&self, other: &Self) -> (r: bool) {
        self.r == other.r && self.g == other.g && self.b == other.b
    }
}

impl vstd::std_specs::cmp::PartialEqSpecImpl for Pixel {
    open spec fn obeys_eq_spec() -> bool {
        true
    }

    open spec fn eq_spec(&self, other: &Pixel) -> bool {
        same_rgb(*self, *other)
    }
}

/// Two pixels with the same channels compare equal whatever their
/// coordinates: equality is defined purely on (r, g, b).
pub proof fn lemma_eq_ignores_coords(p: Pixel, q: Pixel)
    requires
        p.r == q.r,
        p.g == q.g,
        p.b == q.b,
    ensures
        p.eq_spec(&q),
        q.eq_spec(&p),
{
}

/// One of the three color channels, in the fixed precedence order red,
/// green, blue.
#[derive(Clone, Debug, Copy, PartialEq, Eq, Structural)]
pub enum Color {
    RED,
    GREEN,
    BLUE,
}

/// The value of channel `c` in pixel `p`.
pub open spec fn chan(p: Pixel, c: Color) -> int {
    match c {
        Color::RED => p.r as int,
        Color::GREEN => p.g as int,
        Color::BLUE => p.b as int,
    }
}

/// Perceptual luminance of a pixel, scaled by 10000 to stay in integers:
/// the ITU-R BT.709-derived weighted sum `0.2126*r + 0.7152*g + 0.0722*b`
/// times 10000. Scaling every summand by the same positive factor keeps the
/// order between any two pixels, which is all the library compares.
pub open spec fn luminance(p: Pixel) -> int {
    2126 * p.r + 7152 * p.g + 722 * p.b
}

/// All three channels lie in the producer-enforced range `[0, 255]`.
pub open spec fn rgb_ok(p: Pixel) -> bool {
    0 <= p.r <= 255 && 0 <= p.g <= 255 && 0 <= p.b <= 255
}

/// Every pixel of the sequence satisfies [`rgb_ok`].
pub open spec fn all_rgb_ok(s: Seq<Pixel>) -> bool {
    forall|i: int| 0 <= i < s.len() ==> rgb_ok(#[trigger] s[i])
}

/// Clamp `v` into the interval `[a, b]`: the nearest value to `v` that is at
/// least `a` and, failing that, at most `b` (for `a <= b` the result lies in
/// the interval).
pub fn clamp(v: i64, a: i64, b: i64) -> (r: i64)
    ensures
        r == clamp_spec(v as int, a as int, b as int),
{
    let lo: i64 = if v >= a {
        v
    } else {
        a
    };
    if lo <= b {
        lo
    } else {
        b
    }
}

/// The clamped value: `min(b, max(a, v))`.
pub open spec fn clamp_spec(v: int, a: int, b: int) -> int {
    let lo = if v >= a {
        v
    } else {
        a
    };
    if lo <= b {
        lo
    } else {
        b
    }
}

} // verus!
