//! A verified in-place sort of pixel buffers, parameterized by the key the
//! algorithm orders on: a single color channel (ascending) or perceptual
//! luminance (descending).

use vstd::prelude::*;
use vstd::multiset::Multiset;

use crate::pixel::{all_rgb_ok, chan, luminance, rgb_ok, Color, Pixel};

verus! {

broadcast use vstd::seq_lib::group_to_multiset_ensures;

/// The key a pixel buffer is ordered on.
#[derive(Clone, Copy, Debug)]
pub enum SortKey {
    /// Ascending by the value of one color channel.
    Channel(Color),
    /// Descending by perceptual luminance (brightest first).
    LumaDesc,
}

/// The total order belonging to a sort key: `a` may stand before `b`.
pub open spec fn key_le(k: SortKey, a: Pixel, b: Pixel) -> bool {
    match k {
        SortKey::Channel(c) => chan(a, c) <= chan(b, c),
        SortKey::LumaDesc => luminance(a) >= luminance(b),
    }
}

/// The sequence is ordered under the key's total order.
pub open spec fn sorted_by_key(k: SortKey, s: Seq<Pixel>) -> bool {
    forall|i: int, j: int| 0 <= i < j < s.len() ==> key_le(k, s[i], s[j])
}

/// Whether `a` may stand before `b` under key `k`.
fn key_le_exec(k: SortKey, a: &Pixel, b: &Pixel) -> (r: bool)
    requires
        rgb_ok(*a),
        rgb_ok(*b),
    ensures
        r == key_le(k, *a, *b),
{
    match k {
        SortKey::Channel(c) => match c {
            Color::RED => a.r <= b.r,
            Color::GREEN => a.g <= b.g,
            Color::BLUE => a.b <= b.b,
        },
        SortKey::LumaDesc => {
            let la: i64 = 2126 * a.r + 7152 * a.g + 722 * a.b;
            let lb: i64 = 2126 * b.r + 7152 * b.g + 722 * b.b;
            la >= lb
        },
    }
}

/// Sort the buffer in place under the key's total order.
///
/// The result holds the same multiset of pixels as the input; pixels that
/// compare equal under the key may end up in any relative order.
pub fn sort_pixels(v: &mut Vec<Pixel>, k: SortKey)
    requires
        all_rgb_ok(old(v)@),
    ensures
        final(v)@.len() == old(v)@.len(),
        final(v)@.to_multiset() == old(v)@.to_multiset(),
        sorted_by_key(k, final(v)@),
        all_rgb_ok(final(v)@),
{
    let ghost orig = v@;
    let mut out: Vec<Pixel> = Vec::new();
    proof {
        assert(out@.to_multiset().add(v@.to_multiset()) =~= orig.to_multiset());
    }
    while v.len() > 0
        invariant
            out@.to_multiset().add(v@.to_multiset()) == orig.to_multiset(),
            out@.len() + v@.len() == orig.len(),
            sorted_by_key(k, out@),
            forall|i: int, j: int|
                0 <= i < out@.len() && 0 <= j < v@.len() ==> key_le(k, out@[i], v@[j]),
            all_rgb_ok(out@),
            all_rgb_ok(v@),
        decreases v.len(),
    {
        let mut mi: usize = 0;
        let mut j: usize = 1;
        while j < v.len()
            invariant
                0 <= mi < v@.len(),
                1 <= j <= v@.len(),
                v@.len() > 0,
                all_rgb_ok(v@),
                forall|t: int| 0 <= t < j ==> key_le(k, v@[mi as int], #[trigger] v@[t]),
            decreases v@.len() - j,
        {
            if !key_le_exec(k, &v[mi], &v[j]) {
                mi = j;
            }
            j += 1;
        }
        let ghost pre = v@;
        let x = v.remove(mi);
        proof {
            assert(pre.remove(mi as int).to_multiset() =~= pre.to_multiset().remove(x));
            assert(out@.push(x).to_multiset() =~= out@.to_multiset().insert(x));
            assert(pre.to_multiset().count(x) > 0) by {
                assert(pre.contains(x));
            }
            assert(out@.push(x).to_multiset().add(v@.to_multiset()) =~= orig.to_multiset());
            assert forall|i: int, jj: int|
                0 <= i < out@.push(x).len() && 0 <= jj < v@.len() implies key_le(
                k,
                out@.push(x)[i],
                v@[jj],
            ) by {
                let y = v@[jj];
                assert(y == if jj < mi as int {
                    pre[jj]
                } else {
                    pre[jj + 1]
                });
                if i < out@.len() {
                    assert(key_le(k, out@[i], y));
                } else {
                    assert(key_le(k, pre[mi as int], y));
                }
            }
            assert(sorted_by_key(k, out@.push(x))) by {
                assert forall|i: int, jj: int|
                    0 <= i < jj < out@.push(x).len() implies key_le(
                    k,
                    out@.push(x)[i],
                    out@.push(x)[jj],
                ) by {
                    if jj < out@.len() {
                        assert(key_le(k, out@[i], out@[jj]));
                    } else {
                        assert(key_le(k, out@[i], x));
                    }
                }
            }
        }
        out.push(x);
    }
    proof {
        assert(v@.to_multiset() =~= Multiset::<Pixel>::empty());
        assert(out@.to_multiset().add(Multiset::<Pixel>::empty()) =~= out@.to_multiset());
    }
    *v = out;
}

} // verus!
