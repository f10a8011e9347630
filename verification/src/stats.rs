//! Per-channel statistics over a pixel sequence: minimum, maximum and sum,
//! with the lemmas that relate them to membership, reordering and
//! sub-buckets.

use vstd::prelude::*;

use crate::pixel::{chan, Color, Pixel};

verus! {

broadcast use vstd::seq_lib::group_to_multiset_ensures;

/// The smallest value of channel `c` over a non-empty sequence.
pub open spec fn min_chan(s: Seq<Pixel>, c: Color) -> int
    decreases s.len(),
{
    if s.len() <= 1 {
        chan(s[0], c)
    } else {
        let m = min_chan(s.drop_last(), c);
        if chan(s.last(), c) < m {
            chan(s.last(), c)
        } else {
            m
        }
    }
}

/// The largest value of channel `c` over a non-empty sequence.
pub open spec fn max_chan(s: Seq<Pixel>, c: Color) -> int
    decreases s.len(),
{
    if s.len() <= 1 {
        chan(s[0], c)
    } else {
        let m = max_chan(s.drop_last(), c);
        if chan(s.last(), c) > m {
            chan(s.last(), c)
        } else {
            m
        }
    }
}

/// The sum of channel `c` over a sequence.
pub open spec fn sum_chan(s: Seq<Pixel>, c: Color) -> int
    decreases s.len(),
{
    if s.len() == 0 {
        0
    } else {
        sum_chan(s.drop_last(), c) + chan(s.last(), c)
    }
}

/// The minimum and maximum are attained by an element and bound every
/// element.
pub proof fn lemma_min_max_chan(s: Seq<Pixel>, c: Color)
    requires
        s.len() > 0,
    ensures
        exists|i: int| 0 <= i < s.len() && chan(s[i], c) == min_chan(s, c),
        forall|i: int| 0 <= i < s.len() ==> min_chan(s, c) <= #[trigger] chan(s[i], c),
        exists|i: int| 0 <= i < s.len() && chan(s[i], c) == max_chan(s, c),
        forall|i: int| 0 <= i < s.len() ==> #[trigger] chan(s[i], c) <= max_chan(s, c),
    decreases s.len(),
{
    if s.len() == 1 {
        assert(chan(s[0], c) == min_chan(s, c));
        assert(chan(s[0], c) == max_chan(s, c));
    }
    if s.len() > 1 {
        lemma_min_max_chan(s.drop_last(), c);
        let t = s.drop_last();
        if chan(s.last(), c) < min_chan(t, c) {
            assert(chan(s[s.len() - 1], c) == min_chan(s, c));
        } else {
            let i = choose|i: int| 0 <= i < t.len() && chan(t[i], c) == min_chan(t, c);
            assert(chan(s[i], c) == min_chan(s, c));
        }
        if chan(s.last(), c) > max_chan(t, c) {
            assert(chan(s[s.len() - 1], c) == max_chan(s, c));
        } else {
            let i = choose|i: int| 0 <= i < t.len() && chan(t[i], c) == max_chan(t, c);
            assert(chan(s[i], c) == max_chan(s, c));
        }
        assert forall|i: int| 0 <= i < s.len() implies min_chan(s, c) <= #[trigger] chan(s[i], c)
            && chan(s[i], c) <= max_chan(s, c) by {
            if i < s.len() - 1 {
                assert(t[i] == s[i]);
                assert(min_chan(t, c) <= chan(t[i], c));
                assert(chan(t[i], c) <= max_chan(t, c));
            }
        }
    }
}

/// A sequence drawn from the elements of another stays within that other
/// sequence's channel bounds.
pub proof fn lemma_bounds_contained(sub: Seq<Pixel>, sup: Seq<Pixel>, c: Color)
    requires
        sub.len() > 0,
        sup.len() > 0,
        forall|i: int| 0 <= i < sub.len() ==> sup.contains(#[trigger] sub[i]),
    ensures
        min_chan(sub, c) >= min_chan(sup, c),
        max_chan(sub, c) <= max_chan(sup, c),
{
    lemma_min_max_chan(sub, c);
    lemma_min_max_chan(sup, c);
    let i = choose|i: int| 0 <= i < sub.len() && chan(sub[i], c) == min_chan(sub, c);
    let j = choose|j: int| 0 <= j < sup.len() && sup[j] == sub[i];
    assert(min_chan(sup, c) <= chan(sup[j], c));
    let i2 = choose|i2: int| 0 <= i2 < sub.len() && chan(sub[i2], c) == max_chan(sub, c);
    let j2 = choose|j2: int| 0 <= j2 < sup.len() && sup[j2] == sub[i2];
    assert(chan(sup[j2], c) <= max_chan(sup, c));
}

/// Every element of `s1` is an element of `s2` when the two hold the same
/// multiset of pixels.
pub proof fn lemma_multiset_contained(s1: Seq<Pixel>, s2: Seq<Pixel>)
    requires
        s1.to_multiset() == s2.to_multiset(),
    ensures
        forall|i: int| 0 <= i < s1.len() ==> s2.contains(#[trigger] s1[i]),
        s1.len() == s2.len(),
{
    s1.to_multiset_ensures();
    s2.to_multiset_ensures();
    assert forall|i: int| 0 <= i < s1.len() implies s2.contains(#[trigger] s1[i]) by {
        assert(s1.contains(s1[i]));
        assert(s1.to_multiset().count(s1[i]) > 0);
    }
}

/// Reordering a sequence leaves the channel bounds unchanged.
pub proof fn lemma_bounds_multiset(s1: Seq<Pixel>, s2: Seq<Pixel>, c: Color)
    requires
        s1.len() > 0,
        s1.to_multiset() == s2.to_multiset(),
    ensures
        min_chan(s1, c) == min_chan(s2, c),
        max_chan(s1, c) == max_chan(s2, c),
{
    lemma_multiset_contained(s1, s2);
    lemma_multiset_contained(s2, s1);
    lemma_bounds_contained(s1, s2, c);
    lemma_bounds_contained(s2, s1, c);
}

/// A property that holds of every element survives any reordering.
pub proof fn lemma_multiset_all(s1: Seq<Pixel>, s2: Seq<Pixel>, p: spec_fn(Pixel) -> bool)
    requires
        s1.to_multiset() == s2.to_multiset(),
        forall|i: int| 0 <= i < s1.len() ==> p(#[trigger] s1[i]),
    ensures
        forall|i: int| 0 <= i < s2.len() ==> p(#[trigger] s2[i]),
{
    lemma_multiset_contained(s2, s1);
    assert forall|i: int| 0 <= i < s2.len() implies p(#[trigger] s2[i]) by {
        let j = choose|j: int| 0 <= j < s1.len() && s1[j] == s2[i];
        assert(p(s1[j]));
    }
}

/// The channel sum of a non-empty bucket lies between the bucket's length
/// times its channel minimum and times its channel maximum.
pub proof fn lemma_sum_within(s: Seq<Pixel>, c: Color)
    requires
        s.len() > 0,
    ensures
        min_chan(s, c) * s.len() <= sum_chan(s, c) <= max_chan(s, c) * s.len(),
    decreases s.len(),
{
    if s.len() == 1 {
        assert(sum_chan(s, c) == sum_chan(s.drop_last(), c) + chan(s.last(), c));
        assert(sum_chan(s.drop_last(), c) == 0);
    } else {
        let t = s.drop_last();
        lemma_sum_within(t, c);
        assert(min_chan(s, c) <= min_chan(t, c) && min_chan(s, c) <= chan(s.last(), c));
        assert(max_chan(s, c) >= max_chan(t, c) && max_chan(s, c) >= chan(s.last(), c));
        assert(min_chan(s, c) * t.len() <= min_chan(t, c) * t.len()) by (nonlinear_arith)
            requires
                min_chan(s, c) <= min_chan(t, c),
                t.len() >= 0,
        ;
        assert(max_chan(s, c) * t.len() >= max_chan(t, c) * t.len()) by (nonlinear_arith)
            requires
                max_chan(s, c) >= max_chan(t, c),
                t.len() >= 0,
        ;
        assert(min_chan(s, c) * s.len() == min_chan(s, c) * t.len() + min_chan(s, c))
            by (nonlinear_arith)
            requires
                s.len() == t.len() + 1,
        ;
        assert(max_chan(s, c) * s.len() == max_chan(s, c) * t.len() + max_chan(s, c))
            by (nonlinear_arith)
            requires
                s.len() == t.len() + 1,
        ;
    }
}

} // verus!
