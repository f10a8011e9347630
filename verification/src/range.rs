//! Channel-range computation: which color channel has the widest value
//! spread across a pixel collection.

use vstd::prelude::*;

use crate::pixel::{all_rgb_ok, chan, Color, Pixel};
use crate::stats::{max_chan, min_chan};

verus! {

/// The spread of channel `c`: its largest value minus its smallest.
pub open spec fn range_chan(s: Seq<Pixel>, c: Color) -> int {
    max_chan(s, c) - min_chan(s, c)
}

/// The channel a bucket is split on: the one with the largest range, ties
/// resolved by the fixed precedence red, then green, then blue.
pub open spec fn chosen_channel(s: Seq<Pixel>) -> Color {
    let rr = range_chan(s, Color::RED);
    let gr = range_chan(s, Color::GREEN);
    let br = range_chan(s, Color::BLUE);
    if rr >= gr && rr >= br {
        Color::RED
    } else if gr >= br {
        Color::GREEN
    } else {
        Color::BLUE
    }
}

/// A channel whose range is strictly larger than both others' is the one
/// selected.
pub proof fn lemma_strict_max_channel(s: Seq<Pixel>, c: Color)
    requires
        forall|c2: Color| c2 != c ==> range_chan(s, c) > #[trigger] range_chan(s, c2),
    ensures
        chosen_channel(s) == c,
{
    match c {
        Color::RED => {
            assert(range_chan(s, c) > range_chan(s, Color::GREEN));
            assert(range_chan(s, c) > range_chan(s, Color::BLUE));
        },
        Color::GREEN => {
            assert(range_chan(s, c) > range_chan(s, Color::RED));
            assert(range_chan(s, c) > range_chan(s, Color::BLUE));
        },
        Color::BLUE => {
            assert(range_chan(s, c) > range_chan(s, Color::RED));
            assert(range_chan(s, c) > range_chan(s, Color::GREEN));
        },
    }
}

/// When the red and green ranges tie and beat the blue range, the fixed
/// precedence order selects red.
pub proof fn lemma_tie_prefers_red(s: Seq<Pixel>)
    requires
        range_chan(s, Color::RED) == range_chan(s, Color::GREEN),
        range_chan(s, Color::GREEN) > range_chan(s, Color::BLUE),
    ensures
        chosen_channel(s) == Color::RED,
{
}

/// Find the color channel with the biggest range over the given pixels:
/// red, green or blue as the red, green or blue values spread the widest,
/// with ties resolved in that precedence order.
pub fn find_biggest_range(pixels: &Vec<Pixel>) -> (result: Color)
    requires
        pixels@.len() > 0,
        all_rgb_ok(pixels@),
    ensures
        result == chosen_channel(pixels@),
{
    let ghost s = pixels@;
    let p0 = pixels[0];
    let mut r_min: i64 = p0.r;
    let mut r_max: i64 = p0.r;
    let mut g_min: i64 = p0.g;
    let mut g_max: i64 = p0.g;
    let mut b_min: i64 = p0.b;
    let mut b_max: i64 = p0.b;
    let mut i: usize = 1;
    while i < pixels.len()
        invariant
            1 <= i <= s.len(),
            s == pixels@,
            s.len() > 0,
            all_rgb_ok(s),
            r_min as int == min_chan(s.take(i as int), Color::RED),
            r_max as int == max_chan(s.take(i as int), Color::RED),
            g_min as int == min_chan(s.take(i as int), Color::GREEN),
            g_max as int == max_chan(s.take(i as int), Color::GREEN),
            b_min as int == min_chan(s.take(i as int), Color::BLUE),
            b_max as int == max_chan(s.take(i as int), Color::BLUE),
            0 <= r_min <= 255 && 0 <= r_max <= 255,
            0 <= g_min <= 255 && 0 <= g_max <= 255,
            0 <= b_min <= 255 && 0 <= b_max <= 255,
        decreases s.len() - i,
    {
        let p = pixels[i];
        proof {
            assert(s.take(i + 1).drop_last() =~= s.take(i as int));
            assert(s.take(i + 1).last() == s[i as int]);
        }
        if p.r < r_min {
            r_min = p.r;
        }
        if p.r > r_max {
            r_max = p.r;
        }
        if p.g < g_min {
            g_min = p.g;
        }
        if p.g > g_max {
            g_max = p.g;
        }
        if p.b < b_min {
            b_min = p.b;
        }
        if p.b > b_max {
            b_max = p.b;
        }
        i += 1;
    }
    proof {
        assert(s.take(s.len() as int) =~= s);
    }
    let r_range = r_max - r_min;
    let g_range = g_max - g_min;
    let b_range = b_max - b_min;

    let mut biggest = r_range;
    if g_range > biggest {
        biggest = g_range;
    }
    if b_range > biggest {
        biggest = b_range;
    }

    if biggest == r_range {
        Color::RED
    } else if biggest == g_range {
        Color::GREEN
    } else {
        Color::BLUE
    }
}

} // verus!
