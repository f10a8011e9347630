//! Selection of the most variant color: the pixel whose channels spread the
//! widest.

use vstd::prelude::*;

use crate::pixel::{all_rgb_ok, rgb_ok, Pixel};

verus! {

/// The chroma spread of one pixel: its largest channel minus its smallest.
pub open spec fn spread(p: Pixel) -> int {
    let hi = if p.r >= p.g && p.r >= p.b {
        p.r
    } else if p.g >= p.b {
        p.g
    } else {
        p.b
    };
    let lo = if p.r <= p.g && p.r <= p.b {
        p.r
    } else if p.g <= p.b {
        p.g
    } else {
        p.b
    };
    hi - lo
}

/// The index a linear scan that only updates on strictly greater spreads
/// settles on: the first pixel attaining the maximum spread.
pub open spec fn most_variant_idx(s: Seq<Pixel>) -> int
    decreases s.len(),
{
    if s.len() <= 1 {
        0
    } else {
        let j = most_variant_idx(s.drop_last());
        if spread(s.last()) > spread(s[j]) {
            s.len() - 1
        } else {
            j
        }
    }
}

/// The chroma spread of one pixel.
fn spread_exec(p: &Pixel) -> (r: i64)
    requires
        rgb_ok(*p),
    ensures
        r as int == spread(*p),
{
    let hi: i64 = if p.r >= p.g && p.r >= p.b {
        p.r
    } else if p.g >= p.b {
        p.g
    } else {
        p.b
    };
    let lo: i64 = if p.r <= p.g && p.r <= p.b {
        p.r
    } else if p.g <= p.b {
        p.g
    } else {
        p.b
    };
    hi - lo
}

/// Find the most variant color among the given pixels: the one maximizing
/// the spread between its largest and smallest channel, the first such
/// pixel in input order winning ties.
pub fn most_variant_color(pixels: &Vec<Pixel>) -> (result: Pixel)
    requires
        pixels@.len() > 0,
        all_rgb_ok(pixels@),
    ensures
        0 <= most_variant_idx(pixels@) < pixels@.len(),
        result == pixels@[most_variant_idx(pixels@)],
        forall|j: int| 0 <= j < pixels@.len() ==> spread(#[trigger] pixels@[j]) <= spread(result),
        forall|j: int| 0 <= j < most_variant_idx(pixels@) ==> spread(#[trigger] pixels@[j])
            < spread(result),
{
    let ghost s = pixels@;
    let mut hi: usize = 0;
    let mut best: i64 = spread_exec(&pixels[0]);
    let mut i: usize = 1;
    proof {
        assert(s.take(1) =~= seq![s[0]]);
        assert(most_variant_idx(s.take(1)) == 0);
    }
    while i < pixels.len()
        invariant
            1 <= i <= s.len(),
            s == pixels@,
            s.len() > 0,
            all_rgb_ok(s),
            0 <= hi < i,
            hi as int == most_variant_idx(s.take(i as int)),
            best as int == spread(s[hi as int]),
            forall|t: int| 0 <= t < i ==> spread(#[trigger] s[t]) <= spread(s[hi as int]),
            forall|t: int| 0 <= t < hi ==> spread(#[trigger] s[t]) < spread(s[hi as int]),
        decreases s.len() - i,
    {
        let v = spread_exec(&pixels[i]);
        proof {
            assert(s.take(i + 1).drop_last() =~= s.take(i as int));
            assert(s.take(i + 1).last() == s[i as int]);
            assert(s.take(i + 1)[most_variant_idx(s.take(i as int))] == s.take(i as int)[
                most_variant_idx(s.take(i as int))]);
        }
        if v > best {
            hi = i;
            best = v;
        }
        i += 1;
    }
    proof {
        assert(s.take(s.len() as int) =~= s);
    }
    pixels[hi]
}

} // verus!
