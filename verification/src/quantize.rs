//! The median-cut partitioner: recursively split a pixel collection by the
//! widest color channel, average each leaf bucket, and repaint every source
//! coordinate with its bucket's mean color.

use vstd::prelude::*;

use crate::pixel::{all_rgb_ok, chan, rgb_ok, same_rgb, Color, Pixel};
use crate::range::{chosen_channel, find_biggest_range};
use crate::raster::{canvas_dims, canvas_pixels, Canvas};
use crate::sorting::{sort_pixels, sorted_by_key, SortKey};
use crate::stats::{
    lemma_bounds_contained, lemma_bounds_multiset, lemma_min_max_chan, lemma_multiset_all,
    lemma_multiset_contained, lemma_sum_within, max_chan, min_chan, sum_chan,
};

verus! {

broadcast use vstd::seq_lib::group_to_multiset_ensures;

/// Two to the `d`-th power: how many leaf buckets a recursion of depth `d`
/// produces.
pub open spec fn pow2(d: nat) -> nat
    decreases d,
{
    if d == 0 {
        1nat
    } else {
        2 * pow2((d - 1) as nat)
    }
}

pub proof fn lemma_pow2_pos(d: nat)
    ensures
        pow2(d) >= 1,
    decreases d,
{
    if d > 0 {
        lemma_pow2_pos((d - 1) as nat);
    }
}

/// The arithmetic mean of a bucket, channel by channel, with truncating
/// division; the coordinates of a mean pixel are zero.
pub open spec fn mean_pixel(s: Seq<Pixel>) -> Pixel {
    Pixel {
        r: (sum_chan(s, Color::RED) / (s.len() as int)) as i64,
        g: (sum_chan(s, Color::GREEN) / (s.len() as int)) as i64,
        b: (sum_chan(s, Color::BLUE) / (s.len() as int)) as i64,
        x: 0,
        y: 0,
    }
}

/// Some pixel of the sequence carries the source coordinate `(x, y)`.
pub open spec fn covers(s: Seq<Pixel>, x: int, y: int) -> bool {
    exists|i: int| 0 <= i < s.len() && (#[trigger] s[i]).x == x && s[i].y == y
}

/// Every pixel's coordinates are non-negative and lie inside `dims`.
pub open spec fn coords_in(s: Seq<Pixel>, dims: (int, int)) -> bool {
    forall|i: int|
        0 <= i < s.len() ==> 0 <= (#[trigger] s[i]).x < dims.0 && 0 <= s[i].y < dims.1
}

/// The median-cut relation: `output` is a possible result of quantizing
/// `input` at the given depth. At depth zero the output is the single mean
/// of the bucket; otherwise some reordering `perm` of the bucket, sorted on
/// the chosen channel, splits at the midpoint `len / 2`, both halves
/// recurse one level lower, and the output is their concatenation, left
/// half first. Only the relative order of pixels whose sort keys tie is
/// left open; everything else is fixed.
pub open spec fn quantize_rel(input: Seq<Pixel>, depth: nat, output: Seq<Pixel>) -> bool
    decreases depth,
{
    if depth == 0 {
        output == seq![mean_pixel(input)]
    } else {
        exists|perm: Seq<Pixel>, left: Seq<Pixel>, right: Seq<Pixel>|
            #![trigger perm.to_multiset(), left + right]
            {
                let mid = perm.len() as int / 2;
                &&& perm.to_multiset() == input.to_multiset()
                &&& sorted_by_key(SortKey::Channel(chosen_channel(input)), perm)
                &&& output == left + right
                &&& quantize_rel(perm.take(mid), (depth - 1) as nat, left)
                &&& quantize_rel(perm.skip(mid), (depth - 1) as nat, right)
            }
    }
}

/// One verified step establishes the relation.
pub proof fn lemma_rel_intro(
    input: Seq<Pixel>,
    depth: nat,
    output: Seq<Pixel>,
    perm: Seq<Pixel>,
    left: Seq<Pixel>,
    right: Seq<Pixel>,
)
    requires
        depth > 0,
        perm.to_multiset() == input.to_multiset(),
        sorted_by_key(SortKey::Channel(chosen_channel(input)), perm),
        output == left + right,
        quantize_rel(perm.take(perm.len() as int / 2), (depth - 1) as nat, left),
        quantize_rel(perm.skip(perm.len() as int / 2), (depth - 1) as nat, right),
    ensures
        quantize_rel(input, depth, output),
{
}

/// Leaf count: any output the median-cut relation admits for depth `d`
/// holds exactly `2^d` pixels, whatever order the splits took.
pub proof fn lemma_rel_leaf_count(input: Seq<Pixel>, depth: nat, output: Seq<Pixel>)
    requires
        quantize_rel(input, depth, output),
    ensures
        output.len() == pow2(depth),
    decreases depth,
{
    if depth > 0 {
        let (perm, left, right) = choose|perm: Seq<Pixel>, left: Seq<Pixel>, right: Seq<Pixel>|
            #![trigger perm.to_multiset(), left + right]
            {
                let mid = perm.len() as int / 2;
                &&& perm.to_multiset() == input.to_multiset()
                &&& sorted_by_key(SortKey::Channel(chosen_channel(input)), perm)
                &&& output == left + right
                &&& quantize_rel(perm.take(mid), (depth - 1) as nat, left)
                &&& quantize_rel(perm.skip(mid), (depth - 1) as nat, right)
            };
        let mid = perm.len() as int / 2;
        lemma_rel_leaf_count(perm.take(mid), (depth - 1) as nat, left);
        lemma_rel_leaf_count(perm.skip(mid), (depth - 1) as nat, right);
    }
}

/// Any output the median-cut relation admits stays inside the input's
/// per-channel bounds: a palette never invents a channel value outside
/// what the bucket held.
pub proof fn lemma_rel_bounds(input: Seq<Pixel>, depth: nat, output: Seq<Pixel>, c: Color)
    requires
        quantize_rel(input, depth, output),
        input.len() >= pow2(depth),
        all_rgb_ok(input),
    ensures
        forall|j: int|
            0 <= j < output.len() ==> min_chan(input, c) <= #[trigger] chan(output[j], c)
                <= max_chan(input, c),
    decreases depth,
{
    lemma_pow2_pos(depth);
    if depth == 0 {
        lemma_min_max_chan(input, c);
        lemma_sum_within(input, c);
        let i0 = choose|i0: int|
            0 <= i0 < input.len() && chan(input[i0], c) == min_chan(input, c);
        let i1 = choose|i1: int|
            0 <= i1 < input.len() && chan(input[i1], c) == max_chan(input, c);
        assert(rgb_ok(input[i0]) && rgb_ok(input[i1]));
        lemma_mean_bounds(input, c);
        assert(chan(output[0], c) == chan(mean_pixel(input), c));
    } else {
        let (perm, left, right) = choose|perm: Seq<Pixel>, left: Seq<Pixel>, right: Seq<Pixel>|
            #![trigger perm.to_multiset(), left + right]
            {
                let mid = perm.len() as int / 2;
                &&& perm.to_multiset() == input.to_multiset()
                &&& sorted_by_key(SortKey::Channel(chosen_channel(input)), perm)
                &&& output == left + right
                &&& quantize_rel(perm.take(mid), (depth - 1) as nat, left)
                &&& quantize_rel(perm.skip(mid), (depth - 1) as nat, right)
            };
        let mid = perm.len() as int / 2;
        lemma_multiset_contained(input, perm);
        lemma_multiset_contained(perm, input);
        lemma_multiset_all(input, perm, |p: Pixel| rgb_ok(p));
        assert(all_rgb_ok(perm));
        let half = pow2((depth - 1) as nat);
        lemma_pow2_pos((depth - 1) as nat);
        vstd::arithmetic::div_mod::lemma_div_is_ordered(2 * (half as int), perm.len() as int, 2);
        vstd::arithmetic::div_mod::lemma_div_by_multiple(half as int, 2);
        lemma_split_asymmetry(perm.len() as int);
        assert(mid >= half && perm.len() - mid >= half);
        assert(all_rgb_ok(perm.take(mid))) by {
            assert forall|t: int| 0 <= t < perm.take(mid).len() implies rgb_ok(
                #[trigger] perm.take(mid)[t],
            ) by {
                assert(perm.take(mid)[t] == perm[t]);
            }
        }
        assert(all_rgb_ok(perm.skip(mid))) by {
            assert forall|t: int| 0 <= t < perm.skip(mid).len() implies rgb_ok(
                #[trigger] perm.skip(mid)[t],
            ) by {
                assert(perm.skip(mid)[t] == perm[t + mid]);
            }
        }
        lemma_rel_bounds(perm.take(mid), (depth - 1) as nat, left, c);
        lemma_rel_bounds(perm.skip(mid), (depth - 1) as nat, right, c);
        lemma_bounds_multiset(input, perm, c);
        assert forall|t: int| 0 <= t < perm.take(mid).len() implies perm.contains(
            #[trigger] perm.take(mid)[t],
        ) by {
            assert(perm.take(mid)[t] == perm[t]);
        }
        assert forall|t: int| 0 <= t < perm.skip(mid).len() implies perm.contains(
            #[trigger] perm.skip(mid)[t],
        ) by {
            assert(perm.skip(mid)[t] == perm[t + mid]);
        }
        lemma_bounds_contained(perm.take(mid), perm, c);
        lemma_bounds_contained(perm.skip(mid), perm, c);
        assert forall|j: int| 0 <= j < output.len() implies min_chan(input, c) <= #[trigger] chan(
            output[j],
            c,
        ) <= max_chan(input, c) by {
            if j < left.len() {
                assert(output[j] == left[j]);
            } else {
                assert(output[j] == right[j - left.len()]);
            }
        }
    }
}

/// Round trip: when every pixel of the bucket carries one same color, any
/// palette the median-cut relation admits is that color repeated.
pub proof fn lemma_rel_round_trip(input: Seq<Pixel>, depth: nat, output: Seq<Pixel>)
    requires
        quantize_rel(input, depth, output),
        input.len() >= pow2(depth),
        all_rgb_ok(input),
        forall|i: int| 0 <= i < input.len() ==> same_rgb(#[trigger] input[i], input[0]),
    ensures
        output.len() == pow2(depth),
        forall|j: int| 0 <= j < output.len() ==> same_rgb(#[trigger] output[j], input[0]),
{
    lemma_pow2_pos(depth);
    lemma_rel_leaf_count(input, depth, output);
    lemma_rel_bounds(input, depth, output, Color::RED);
    lemma_rel_bounds(input, depth, output, Color::GREEN);
    lemma_rel_bounds(input, depth, output, Color::BLUE);
    lemma_uniform_bounds(input, Color::RED);
    lemma_uniform_bounds(input, Color::GREEN);
    lemma_uniform_bounds(input, Color::BLUE);
    assert forall|j: int| 0 <= j < output.len() implies same_rgb(#[trigger] output[j], input[0])
        by {
        assert(min_chan(input, Color::RED) <= chan(output[j], Color::RED) <= max_chan(
            input,
            Color::RED,
        ));
        assert(min_chan(input, Color::GREEN) <= chan(output[j], Color::GREEN) <= max_chan(
            input,
            Color::GREEN,
        ));
        assert(min_chan(input, Color::BLUE) <= chan(output[j], Color::BLUE) <= max_chan(
            input,
            Color::BLUE,
        ));
    }
}

/// Splitting a bucket at the midpoint by floor division gives the left
/// half the smaller share: the two halves always make up the whole, and an
/// odd-sized bucket leaves the right half exactly one element larger.
pub proof fn lemma_split_asymmetry(n: int)
    requires
        0 <= n,
    ensures
        n / 2 + (n - n / 2) == n,
        n / 2 <= n - n / 2,
        n % 2 == 1 ==> n - n / 2 == n / 2 + 1,
{
}

/// Whether a coordinate is covered is a property of the multiset of
/// pixels alone.
pub proof fn lemma_covers_multiset(s1: Seq<Pixel>, s2: Seq<Pixel>, x: int, y: int)
    requires
        s1.to_multiset() == s2.to_multiset(),
        covers(s1, x, y),
    ensures
        covers(s2, x, y),
{
    let i = choose|i: int| 0 <= i < s1.len() && (#[trigger] s1[i]).x == x && s1[i].y == y;
    lemma_multiset_contained(s1, s2);
    assert(s2.contains(s1[i]));
    let j = choose|j: int| 0 <= j < s2.len() && s2[j] == s1[i];
    assert(s2[j].x == x && s2[j].y == y);
}

/// A sequence covers a coordinate exactly when one of its two halves does.
pub proof fn lemma_covers_split(s: Seq<Pixel>, m: int, x: int, y: int)
    requires
        0 <= m <= s.len(),
    ensures
        covers(s, x, y) <==> (covers(s.take(m), x, y) || covers(s.skip(m), x, y)),
{
    if covers(s, x, y) {
        let i = choose|i: int| 0 <= i < s.len() && (#[trigger] s[i]).x == x && s[i].y == y;
        if i < m {
            assert(s.take(m)[i] == s[i]);
        } else {
            assert(s.skip(m)[i - m] == s[i]);
        }
    }
    if covers(s.take(m), x, y) {
        let i = choose|i: int|
            0 <= i < s.take(m).len() && (#[trigger] s.take(m)[i]).x == x && s.take(m)[i].y == y;
        assert(s[i] == s.take(m)[i]);
    }
    if covers(s.skip(m), x, y) {
        let i = choose|i: int|
            0 <= i < s.skip(m).len() && (#[trigger] s.skip(m)[i]).x == x && s.skip(m)[i].y == y;
        assert(s[i + m] == s.skip(m)[i]);
    }
}

/// In a bucket of pixels that all share one color, every channel's minimum
/// and maximum equal that color's channel value.
pub proof fn lemma_uniform_bounds(s: Seq<Pixel>, c: Color)
    requires
        s.len() > 0,
        forall|i: int| 0 <= i < s.len() ==> same_rgb(#[trigger] s[i], s[0]),
    ensures
        min_chan(s, c) == chan(s[0], c),
        max_chan(s, c) == chan(s[0], c),
{
    lemma_min_max_chan(s, c);
    let i = choose|i: int| 0 <= i < s.len() && chan(s[i], c) == min_chan(s, c);
    assert(same_rgb(s[i], s[0]));
    let j = choose|j: int| 0 <= j < s.len() && chan(s[j], c) == max_chan(s, c);
    assert(same_rgb(s[j], s[0]));
    assert(min_chan(s, c) <= chan(s[0], c) <= max_chan(s, c));
}

/// Quantize (reduce the RGB color space to a small number of dominant
/// colors) the given pixels with the median-cut algorithm: the buffer is
/// recursively split into `2^depth` buckets along the channel with the
/// biggest range, and each bucket is averaged into one representative
/// pixel. Every source coordinate of the input is repainted on `img_buf`
/// with its bucket's mean color.
///
/// The returned palette has exactly `2^depth` entries, concatenated left
/// half before right half at every level; each entry's channels stay
/// within the input's channel bounds, so a one-colored input comes back as
/// that exact color repeated. The precise shape of the result is pinned by
/// [`quantize_rel`]. The input buffer itself is merely reordered.
pub fn quantize(pixels: &mut Vec<Pixel>, depth: usize, img_buf: &mut Canvas) -> (result: Vec<
    Pixel,
>)
    requires
        all_rgb_ok(old(pixels)@),
        old(pixels)@.len() >= pow2(depth as nat),
        255 * old(pixels)@.len() <= i64::MAX,
        coords_in(old(pixels)@, canvas_dims(*old(img_buf))),
        canvas_dims(*old(img_buf)).0 <= u32::MAX,
        canvas_dims(*old(img_buf)).1 <= u32::MAX,
    ensures
        result@.len() == pow2(depth as nat),
        all_rgb_ok(result@),
        quantize_rel(old(pixels)@, depth as nat, result@),
        forall|j: int, c: Color|
            0 <= j < result@.len() ==> min_chan(old(pixels)@, c) <= #[trigger] chan(
                result@[j],
                c,
            ) <= max_chan(old(pixels)@, c),
        (forall|i: int|
            0 <= i < old(pixels)@.len() ==> same_rgb(#[trigger] old(pixels)@[i], old(pixels)@[0]))
            ==> (forall|j: int|
            0 <= j < result@.len() ==> same_rgb(#[trigger] result@[j], old(pixels)@[0])),
        final(pixels)@.len() == old(pixels)@.len(),
        final(pixels)@.to_multiset() == old(pixels)@.to_multiset(),
        all_rgb_ok(final(pixels)@),
        canvas_dims(*final(img_buf)) == canvas_dims(*old(img_buf)),
        forall|x: int, y: int|
            #![trigger covers(old(pixels)@, x, y)]
            !covers(old(pixels)@, x, y) ==> (canvas_pixels(*final(img_buf)).dom().contains(
                (x, y),
            ) == canvas_pixels(*old(img_buf)).dom().contains((x, y)) && canvas_pixels(
                *final(img_buf),
            )[(x, y)] == canvas_pixels(*old(img_buf))[(x, y)]),
        forall|x: int, y: int|
            #![trigger covers(old(pixels)@, x, y)]
            covers(old(pixels)@, x, y) ==> (canvas_pixels(*final(img_buf)).dom().contains((x, y))
                && min_chan(old(pixels)@, Color::RED) <= canvas_pixels(*final(img_buf))[
                (x, y)].0 as int <= max_chan(old(pixels)@, Color::RED) && min_chan(
                old(pixels)@,
                Color::GREEN,
            ) <= canvas_pixels(*final(img_buf))[(x, y)].1 as int <= max_chan(
                old(pixels)@,
                Color::GREEN,
            ) && min_chan(old(pixels)@, Color::BLUE) <= canvas_pixels(*final(img_buf))[
                (x, y)].2 as int <= max_chan(old(pixels)@, Color::BLUE)),
        depth == 0 ==> forall|x: int, y: int|
            #![trigger covers(old(pixels)@, x, y)]
            covers(old(pixels)@, x, y) ==> canvas_pixels(*final(img_buf))[(x, y)] == (
            mean_pixel(old(pixels)@).r as u8,
            mean_pixel(old(pixels)@).g as u8,
            mean_pixel(old(pixels)@).b as u8,
            ),
    decreases depth,
{
    let ghost input = pixels@;
    let ghost dims = canvas_dims(*img_buf);
    proof {
        lemma_pow2_pos(depth as nat);
    }
    if depth == 0 {
        let n_usize = pixels.len();
        let mut sr: u64 = 0;
        let mut sg: u64 = 0;
        let mut sb: u64 = 0;
        let mut i: usize = 0;
        while i < n_usize
            invariant
                input == pixels@,
                n_usize == input.len(),
                input.len() >= 1,
                255 * input.len() <= i64::MAX,
                0 <= i <= input.len(),
                all_rgb_ok(input),
                sr as int == sum_chan(input.take(i as int), Color::RED),
                sg as int == sum_chan(input.take(i as int), Color::GREEN),
                sb as int == sum_chan(input.take(i as int), Color::BLUE),
                sr as int <= 255 * (i as int),
                sg as int <= 255 * (i as int),
                sb as int <= 255 * (i as int),
            decreases input.len() - i,
        {
            let p = pixels[i];
            proof {
                assert(input.take(i + 1).drop_last() =~= input.take(i as int));
                assert(input.take(i + 1).last() == input[i as int]);
            }
            sr = sr + (p.r as u64);
            sg = sg + (p.g as u64);
            sb = sb + (p.b as u64);
            i += 1;
        }
        proof {
            assert(input.take(input.len() as int) =~= input);
        }
        let n = n_usize as u64;
        let mr = sr / n;
        let mg = sg / n;
        let mb = sb / n;
        proof {
            lemma_min_max_chan(input, Color::RED);
            lemma_min_max_chan(input, Color::GREEN);
            lemma_min_max_chan(input, Color::BLUE);
            lemma_sum_within(input, Color::RED);
            lemma_sum_within(input, Color::GREEN);
            lemma_sum_within(input, Color::BLUE);
            assert(0 <= min_chan(input, Color::RED) && max_chan(input, Color::RED) <= 255) by {
                let i0 = choose|i0: int|
                    0 <= i0 < input.len() && chan(input[i0], Color::RED) == min_chan(
                        input,
                        Color::RED,
                    );
                let i1 = choose|i1: int|
                    0 <= i1 < input.len() && chan(input[i1], Color::RED) == max_chan(
                        input,
                        Color::RED,
                    );
                assert(rgb_ok(input[i0]) && rgb_ok(input[i1]));
            }
            assert(0 <= min_chan(input, Color::GREEN) && max_chan(input, Color::GREEN) <= 255)
                by {
                let i0 = choose|i0: int|
                    0 <= i0 < input.len() && chan(input[i0], Color::GREEN) == min_chan(
                        input,
                        Color::GREEN,
                    );
                let i1 = choose|i1: int|
                    0 <= i1 < input.len() && chan(input[i1], Color::GREEN) == max_chan(
                        input,
                        Color::GREEN,
                    );
                assert(rgb_ok(input[i0]) && rgb_ok(input[i1]));
            }
            assert(0 <= min_chan(input, Color::BLUE) && max_chan(input, Color::BLUE) <= 255) by {
                let i0 = choose|i0: int|
                    0 <= i0 < input.len() && chan(input[i0], Color::BLUE) == min_chan(
                        input,
                        Color::BLUE,
                    );
                let i1 = choose|i1: int|
                    0 <= i1 < input.len() && chan(input[i1], Color::BLUE) == max_chan(
                        input,
                        Color::BLUE,
                    );
                assert(rgb_ok(input[i1]) && rgb_ok(input[i0]));
            }
            lemma_mean_bounds(input, Color::RED);
            lemma_mean_bounds(input, Color::GREEN);
            lemma_mean_bounds(input, Color::BLUE);
        }
        let mean = Pixel { r: mr as i64, g: mg as i64, b: mb as i64, x: 0, y: 0 };
        proof {
            assert(mean == mean_pixel(input));
        }
        let ghost m0 = canvas_pixels(*img_buf);
        let ghost mt = (mean.r as u8, mean.g as u8, mean.b as u8);
        let mut i: usize = 0;
        while i < n_usize
            invariant
                input == pixels@,
                n_usize == input.len(),
                0 <= i <= input.len(),
                coords_in(input, dims),
                dims.0 <= u32::MAX,
                dims.1 <= u32::MAX,
                canvas_dims(*img_buf) == dims,
                0 <= mean.r <= 255 && 0 <= mean.g <= 255 && 0 <= mean.b <= 255,
                mt == (mean.r as u8, mean.g as u8, mean.b as u8),
                forall|x: int, y: int|
                    #![trigger covers(input.take(i as int), x, y)]
                    covers(input.take(i as int), x, y) ==> (canvas_pixels(
                        *img_buf,
                    ).dom().contains((x, y)) && canvas_pixels(*img_buf)[(x, y)] == mt),
                forall|x: int, y: int|
                    #![trigger covers(input.take(i as int), x, y)]
                    !covers(input.take(i as int), x, y) ==> (canvas_pixels(
                        *img_buf,
                    ).dom().contains((x, y)) == m0.dom().contains((x, y)) && canvas_pixels(
                        *img_buf,
                    )[(x, y)] == m0[(x, y)]),
            decreases input.len() - i,
        {
            let p = pixels[i];
            img_buf.put_pixel(p.x as u32, p.y as u32, mean.r as u8, mean.g as u8, mean.b as u8);
            proof {
                let px = p.x as int;
                let py = p.y as int;
                assert(input.take(i + 1)[i as int] == input[i as int]);
                assert forall|x: int, y: int|
                    #![trigger covers(input.take(i + 1), x, y)]
                    covers(input.take(i + 1), x, y) implies (canvas_pixels(
                    *img_buf,
                ).dom().contains((x, y)) && canvas_pixels(*img_buf)[(x, y)] == mt) by {
                    if x == px && y == py {
                    } else {
                        let t = choose|t: int|
                            0 <= t < input.take(i + 1).len() && (#[trigger] input.take(i + 1)[
                            t]).x == x && input.take(i + 1)[t].y == y;
                        assert(input.take(i + 1)[t] == input[t]);
                        assert(t != i);
                        assert(input.take(i as int)[t] == input[t]);
                        assert(covers(input.take(i as int), x, y));
                    }
                }
                assert forall|x: int, y: int|
                    #![trigger covers(input.take(i + 1), x, y)]
                    !covers(input.take(i + 1), x, y) implies (canvas_pixels(
                    *img_buf,
                ).dom().contains((x, y)) == m0.dom().contains((x, y)) && canvas_pixels(*img_buf)[
                    (x, y)] == m0[(x, y)]) by {
                    assert(!(x == px && y == py)) by {
                        if x == px && y == py {
                            assert(input.take(i + 1)[i as int].x == x && input.take(i + 1)[
                                i as int].y == y);
                        }
                    }
                    assert(!covers(input.take(i as int), x, y)) by {
                        if covers(input.take(i as int), x, y) {
                            let t = choose|t: int|
                                0 <= t < input.take(i as int).len() && (#[trigger] input.take(
                                    i as int,
                                )[t]).x == x && input.take(i as int)[t].y == y;
                            assert(input.take(i + 1)[t] == input.take(i as int)[t]);
                        }
                    }
                }
            }
            i += 1;
        }
        let mut out: Vec<Pixel> = Vec::new();
        out.push(mean);
        proof {
            assert(input.take(input.len() as int) =~= input);
            assert(out@ =~= seq![mean_pixel(input)]);
            assert forall|j: int, c: Color| 0 <= j < out@.len() implies min_chan(input, c) <= #[
                trigger] chan(out@[j], c) <= max_chan(input, c) by {
                match c {
                    Color::RED => {},
                    Color::GREEN => {},
                    Color::BLUE => {},
                }
            }
            if forall|i2: int| 0 <= i2 < input.len() ==> same_rgb(#[trigger] input[i2], input[0]) {
                lemma_uniform_bounds(input, Color::RED);
                lemma_uniform_bounds(input, Color::GREEN);
                lemma_uniform_bounds(input, Color::BLUE);
                assert(same_rgb(mean, input[0]));
            }
        }
        return out;
    }
    let chan_choice = find_biggest_range(pixels);
    sort_pixels(pixels, SortKey::Channel(chan_choice));
    let ghost perm = pixels@;
    proof {
        lemma_multiset_contained(perm, input);
        lemma_multiset_contained(input, perm);
        lemma_multiset_all(
            input,
            perm,
            |p: Pixel| 0 <= p.x < dims.0 && 0 <= p.y < dims.1,
        );
        assert(coords_in(perm, dims));
    }
    let mid = pixels.len() / 2;
    let mut left_v: Vec<Pixel> = Vec::new();
    let mut i: usize = 0;
    while i < mid
        invariant
            perm == pixels@,
            0 <= i <= mid <= perm.len(),
            left_v@ == perm.take(i as int),
        decreases mid - i,
    {
        proof {
            assert(perm.take(i + 1) =~= perm.take(i as int).push(perm[i as int]));
        }
        left_v.push(pixels[i]);
        i += 1;
    }
    let mut right_v: Vec<Pixel> = Vec::new();
    while i < pixels.len()
        invariant
            perm == pixels@,
            mid <= i <= perm.len(),
            right_v@ == perm.subrange(mid as int, i as int),
        decreases perm.len() - i,
    {
        proof {
            assert(perm.subrange(mid as int, i + 1) =~= perm.subrange(mid as int, i as int).push(
                perm[i as int],
            ));
        }
        right_v.push(pixels[i]);
        i += 1;
    }
    let ghost half = pow2((depth - 1) as nat);
    proof {
        assert(left_v@ =~= perm.take(mid as int));
        assert(right_v@ =~= perm.skip(mid as int));
        lemma_pow2_pos((depth - 1) as nat);
        assert(pow2(depth as nat) == 2 * half);
        vstd::arithmetic::div_mod::lemma_div_is_ordered(
            2 * (half as int),
            perm.len() as int,
            2,
        );
        vstd::arithmetic::div_mod::lemma_div_by_multiple(half as int, 2);
        assert(mid as int == perm.len() as int / 2);
        assert(mid >= half);
        lemma_split_asymmetry(perm.len() as int);
        assert(perm.len() - mid >= half);
        assert forall|t: int| 0 <= t < left_v@.len() implies perm.contains(#[trigger] left_v@[t])
            by {
            assert(left_v@[t] == perm[t]);
        }
        assert forall|t: int| 0 <= t < right_v@.len() implies perm.contains(
            #[trigger] right_v@[t],
        ) by {
            assert(right_v@[t] == perm[t + mid]);
        }
    }
    let ghost m0 = canvas_pixels(*img_buf);
    let left_res = quantize(&mut left_v, depth - 1, img_buf);
    let right_res = quantize(&mut right_v, depth - 1, img_buf);
    let ghost m2 = canvas_pixels(*img_buf);
    let mut v: Vec<Pixel> = Vec::new();
    let mut lr = left_res;
    let mut rr = right_res;
    let ghost lrs = lr@;
    let ghost rrs = rr@;
    proof {
        assert(lrs.len() + rrs.len() == 2 * half);
    }
    v.append(&mut lr);
    v.append(&mut rr);
    proof {
        assert(v@ =~= lrs + rrs);
        assert(v@.len() == pow2(depth as nat));
        // the relation
        lemma_rel_intro(input, depth as nat, v@, perm, lrs, rrs);
        // channel bounds of the palette
        assert forall|j: int, c: Color| 0 <= j < v@.len() implies min_chan(input, c) <= #[trigger]
            chan(v@[j], c) <= max_chan(input, c) by {
            lemma_bounds_multiset(input, perm, c);
            lemma_bounds_contained(perm.take(mid as int), perm, c);
            lemma_bounds_contained(perm.skip(mid as int), perm, c);
            if j < lrs.len() {
                assert(v@[j] == lrs[j]);
                assert(min_chan(perm.take(mid as int), c) <= chan(lrs[j], c) <= max_chan(
                    perm.take(mid as int),
                    c,
                ));
            } else {
                assert(v@[j] == rrs[j - lrs.len()]);
                assert(min_chan(perm.skip(mid as int), c) <= chan(rrs[j - lrs.len()], c)
                    <= max_chan(perm.skip(mid as int), c));
            }
        }
        // a one-colored input comes back unchanged
        if forall|i2: int| 0 <= i2 < input.len() ==> same_rgb(#[trigger] input[i2], input[0]) {
            lemma_uniform_bounds(input, Color::RED);
            lemma_uniform_bounds(input, Color::GREEN);
            lemma_uniform_bounds(input, Color::BLUE);
            assert forall|j: int| 0 <= j < v@.len() implies same_rgb(
                #[trigger] v@[j],
                input[0],
            ) by {
                assert(min_chan(input, Color::RED) <= chan(v@[j], Color::RED) <= max_chan(
                    input,
                    Color::RED,
                ));
                assert(min_chan(input, Color::GREEN) <= chan(v@[j], Color::GREEN) <= max_chan(
                    input,
                    Color::GREEN,
                ));
                assert(min_chan(input, Color::BLUE) <= chan(v@[j], Color::BLUE) <= max_chan(
                    input,
                    Color::BLUE,
                ));
            }
        }
        // untouched coordinates
        assert forall|x: int, y: int|
            #![trigger covers(input, x, y)]
            !covers(input, x, y) implies (m2.dom().contains((x, y)) == m0.dom().contains((x, y))
            && m2[(x, y)] == m0[(x, y)]) by {
            assert(!covers(perm, x, y)) by {
                if covers(perm, x, y) {
                    lemma_covers_multiset(perm, input, x, y);
                }
            }
            lemma_covers_split(perm, mid as int, x, y);
            assert(!covers(perm.take(mid as int), x, y));
            assert(!covers(perm.skip(mid as int), x, y));
        }
        // covered coordinates hold a bucket mean within the input's bounds
        assert forall|x: int, y: int|
            #![trigger covers(input, x, y)]
            covers(input, x, y) implies (m2.dom().contains((x, y)) && min_chan(input, Color::RED)
            <= m2[(x, y)].0 as int <= max_chan(input, Color::RED) && min_chan(
            input,
            Color::GREEN,
        ) <= m2[(x, y)].1 as int <= max_chan(input, Color::GREEN) && min_chan(
            input,
            Color::BLUE,
        ) <= m2[(x, y)].2 as int <= max_chan(input, Color::BLUE)) by {
            lemma_covers_multiset(input, perm, x, y);
            lemma_covers_split(perm, mid as int, x, y);
            lemma_bounds_multiset(input, perm, Color::RED);
            lemma_bounds_multiset(input, perm, Color::GREEN);
            lemma_bounds_multiset(input, perm, Color::BLUE);
            lemma_bounds_contained(perm.take(mid as int), perm, Color::RED);
            lemma_bounds_contained(perm.take(mid as int), perm, Color::GREEN);
            lemma_bounds_contained(perm.take(mid as int), perm, Color::BLUE);
            lemma_bounds_contained(perm.skip(mid as int), perm, Color::RED);
            lemma_bounds_contained(perm.skip(mid as int), perm, Color::GREEN);
            lemma_bounds_contained(perm.skip(mid as int), perm, Color::BLUE);
            if covers(perm.skip(mid as int), x, y) {
            } else {
                assert(covers(perm.take(mid as int), x, y));
            }
        }
    }
    v
}

/// The truncated mean of a channel lies between the channel's minimum and
/// maximum.
proof fn lemma_mean_bounds(s: Seq<Pixel>, c: Color)
    requires
        s.len() > 0,
        0 <= min_chan(s, c),
        min_chan(s, c) * s.len() <= sum_chan(s, c) <= max_chan(s, c) * s.len(),
    ensures
        min_chan(s, c) <= sum_chan(s, c) / (s.len() as int) <= max_chan(s, c),
{
    let len = s.len() as int;
    let lo = min_chan(s, c);
    let hi = max_chan(s, c);
    vstd::arithmetic::div_mod::lemma_div_is_ordered(lo * len, sum_chan(s, c), len);
    vstd::arithmetic::div_mod::lemma_div_is_ordered(sum_chan(s, c), hi * len, len);
    vstd::arithmetic::div_mod::lemma_div_by_multiple(lo, len);
    vstd::arithmetic::div_mod::lemma_div_by_multiple(hi, len);
}

} // verus!
