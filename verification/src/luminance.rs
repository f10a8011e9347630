//! Ordering a palette by perceptual luminance.

use vstd::prelude::*;

use crate::pixel::{all_rgb_ok, luminance, Pixel};
use crate::sorting::{sort_pixels, SortKey};

verus! {

/// Order the given pixels by their luminance in descending order, i.e. from
/// the lightest to the darkest color.
///
/// The buffer afterwards holds the same multiset of pixels; pixels of equal
/// luminance may appear in either relative order.
pub fn order_by_luminance(pixels: &mut Vec<Pixel>)
    requires
        all_rgb_ok(old(pixels)@),
    ensures
        final(pixels)@.len() == old(pixels)@.len(),
        final(pixels)@.to_multiset() == old(pixels)@.to_multiset(),
        forall|i: int, j: int|
            0 <= i < j < final(pixels)@.len() ==> luminance(final(pixels)@[i]) >= luminance(
                final(pixels)@[j],
            ),
        all_rgb_ok(final(pixels)@),
{
    sort_pixels(pixels, SortKey::LumaDesc);
    proof {
        assert forall|i: int, j: int| 0 <= i < j < pixels@.len() implies luminance(pixels@[i])
            >= luminance(pixels@[j]) by {
            assert(crate::sorting::key_le(SortKey::LumaDesc, pixels@[i], pixels@[j]));
        }
    }
}

} // verus!
