//! Ordering a stretch of pixels by one channel, in place.

use crate::colour::{channel_value, Channel, Colour, ColourTrait};
use crate::stats::same_colours;
use vstd::multiset::{lemma_multiset_empty_len, Multiset};
use vstd::prelude::*;
use vstd::seq_lib::{lemma_multiset_commutative, to_multiset_build, to_multiset_len};

verus! {

/// Whether the colours of `s` at the positions from `start` up to, not
/// including, `end` stand in ascending order of their `ch` component.
pub open spec fn ascending_between(s: Seq<Colour>, ch: Channel, start: int, end: int) -> bool {
    forall|i: int, j: int|
        #![trigger s[i], s[j]]
        start <= i <= j < end ==> channel_value(s[i], ch) <= channel_value(s[j], ch)
}

/// Whether the colours of `s` stand in ascending order of their `ch`
/// component.
pub open spec fn ascending(s: Seq<Colour>, ch: Channel) -> bool {
    ascending_between(s, ch, 0, s.len() as int)
}

/// Whether `after` differs from `before` at most at the positions from
/// `start` up to, not including, `end`, where it holds the same colours in
/// some order.
pub open spec fn rearranged_between(
    before: Seq<Colour>,
    after: Seq<Colour>,
    start: int,
    end: int,
) -> bool {
    &&& after.len() == before.len()
    &&& forall|k: int| 0 <= k < start || end <= k < before.len() ==> after[k] == before[k]
    &&& same_colours(after.subrange(start, end), before.subrange(start, end))
}

/// A stretch inside an ascending stretch, taken by itself, is ascending.
pub proof fn lemma_stretch_ascending(
    s: Seq<Colour>,
    ch: Channel,
    outer_start: int,
    outer_end: int,
    start: int,
    end: int,
)
    requires
        0 <= outer_start <= start <= end <= outer_end <= s.len(),
        ascending_between(s, ch, outer_start, outer_end),
    ensures
        ascending(s.subrange(start, end), ch),
{
    let inner = s.subrange(start, end);
    assert forall|i: int, j: int|
        #![trigger inner[i], inner[j]]
        0 <= i <= j < inner.len() implies channel_value(inner[i], ch) <= channel_value(
        inner[j],
        ch,
    ) by {
        assert(inner[i] == s[start + i] && inner[j] == s[start + j]);
    }
}

/// An empty stretch holds no colours.
pub proof fn lemma_colours_of_nothing(s: Seq<Colour>)
    requires
        s.len() == 0,
    ensures
        s.to_multiset() == Multiset::<Colour>::empty(),
{
    to_multiset_len(s);
    lemma_multiset_empty_len(s.to_multiset());
}

/// A stretch made of two neighbouring stretches holds the colours of both.
pub proof fn lemma_colours_of_neighbours(s: Seq<Colour>, start: int, mid: int, end: int)
    requires
        0 <= start <= mid <= end <= s.len(),
    ensures
        s.subrange(start, end).to_multiset() == s.subrange(start, mid).to_multiset().add(
            s.subrange(mid, end).to_multiset(),
        ),
{
    lemma_multiset_commutative(s.subrange(start, mid), s.subrange(mid, end));
    assert(s.subrange(start, mid) + s.subrange(mid, end) =~= s.subrange(start, end));
}

/// Rearranging a stretch rearranges every stretch that contains it.
pub proof fn lemma_rearranged_widen(
    before: Seq<Colour>,
    after: Seq<Colour>,
    start: int,
    end: int,
    outer_start: int,
    outer_end: int,
)
    requires
        0 <= outer_start <= start <= end <= outer_end <= before.len(),
        rearranged_between(before, after, start, end),
    ensures
        rearranged_between(before, after, outer_start, outer_end),
{
    lemma_colours_of_neighbours(before, outer_start, start, outer_end);
    lemma_colours_of_neighbours(before, start, end, outer_end);
    lemma_colours_of_neighbours(after, outer_start, start, outer_end);
    lemma_colours_of_neighbours(after, start, end, outer_end);
    assert(after.subrange(outer_start, start) =~= before.subrange(outer_start, start));
    assert(after.subrange(end, outer_end) =~= before.subrange(end, outer_end));
}

/// Rearranging a stretch of a buffer keeps the colours of the whole buffer.
pub proof fn lemma_rearranged_whole(before: Seq<Colour>, after: Seq<Colour>, start: int, end: int)
    requires
        0 <= start <= end <= before.len(),
        rearranged_between(before, after, start, end),
    ensures
        same_colours(after, before),
{
    lemma_rearranged_widen(before, after, start, end, 0, before.len() as int);
    assert(before.subrange(0, before.len() as int) =~= before);
    assert(after.subrange(0, after.len() as int) =~= after);
}

/// Merges two neighbouring ascending stretches into one ascending stretch.
fn merge_runs(pixels: &mut Vec<Colour>, start: usize, mid: usize, end: usize, channel: &Channel)
    requires
        start <= mid <= end <= old(pixels)@.len(),
        ascending_between(old(pixels)@, *channel, start as int, mid as int),
        ascending_between(old(pixels)@, *channel, mid as int, end as int),
    ensures
        rearranged_between(old(pixels)@, final(pixels)@, start as int, end as int),
        ascending_between(final(pixels)@, *channel, start as int, end as int),
{
    let mut merged: Vec<Colour> = Vec::with_capacity(end - start);
    let mut i: usize = start;
    let mut j: usize = mid;
    proof {
        lemma_colours_of_nothing(merged@);
        lemma_colours_of_nothing(pixels@.subrange(start as int, i as int));
        lemma_colours_of_nothing(pixels@.subrange(mid as int, j as int));
        assert(merged@.to_multiset() =~= pixels@.subrange(
            start as int,
            i as int,
        ).to_multiset().add(pixels@.subrange(mid as int, j as int).to_multiset()));
    }
    while i < mid || j < end
        invariant
            start <= i <= mid <= j <= end <= pixels@.len(),
            pixels@ == old(pixels)@,
            ascending_between(pixels@, *channel, start as int, mid as int),
            ascending_between(pixels@, *channel, mid as int, end as int),
            merged@.len() == (i - start) + (j - mid),
            merged@.to_multiset() == pixels@.subrange(start as int, i as int).to_multiset().add(
                pixels@.subrange(mid as int, j as int).to_multiset(),
            ),
            ascending_between(merged@, *channel, 0, merged@.len() as int),
            forall|k: int|
                #![trigger merged@[k]]
                0 <= k < merged@.len() && i < mid ==> channel_value(merged@[k], *channel)
                    <= channel_value(pixels@[i as int], *channel),
            forall|k: int|
                #![trigger merged@[k]]
                0 <= k < merged@.len() && j < end ==> channel_value(merged@[k], *channel)
                    <= channel_value(pixels@[j as int], *channel),
        decreases (mid - i) + (end - j),
    {
        let from_left: bool = if j >= end {
            true
        } else if i >= mid {
            false
        } else {
            pixels[i].get_channel_value(channel) <= pixels[j].get_channel_value(channel)
        };
        let ghost before = merged@;
        if from_left {
            let next: Colour = pixels[i];
            proof {
                to_multiset_build(before, next);
                to_multiset_build(pixels@.subrange(start as int, i as int), next);
                assert(pixels@.subrange(start as int, i + 1) =~= pixels@.subrange(
                    start as int,
                    i as int,
                ).push(next));
            }
            merged.push(next);
            i = i + 1;
        } else {
            let next: Colour = pixels[j];
            proof {
                to_multiset_build(before, next);
                to_multiset_build(pixels@.subrange(mid as int, j as int), next);
                assert(pixels@.subrange(mid as int, j + 1) =~= pixels@.subrange(
                    mid as int,
                    j as int,
                ).push(next));
            }
            merged.push(next);
            j = j + 1;
        }
        proof {
            assert(merged@.to_multiset() =~= pixels@.subrange(
                start as int,
                i as int,
            ).to_multiset().add(pixels@.subrange(mid as int, j as int).to_multiset()));
            assert forall|a: int, b: int|
                #![trigger merged@[a], merged@[b]]
                0 <= a <= b < merged@.len() implies channel_value(merged@[a], *channel)
                <= channel_value(merged@[b], *channel) by {
                if b < before.len() {
                    assert(merged@[a] == before[a] && merged@[b] == before[b]);
                } else if a < before.len() {
                    assert(merged@[a] == before[a]);
                }
            }
            assert forall|k: int|
                #![trigger merged@[k]]
                0 <= k < merged@.len() && i < mid implies channel_value(merged@[k], *channel)
                <= channel_value(pixels@[i as int], *channel) by {
                if k < before.len() {
                    assert(merged@[k] == before[k]);
                }
                if from_left {
                    assert(channel_value(pixels@[i - 1], *channel) <= channel_value(
                        pixels@[i as int],
                        *channel,
                    ));
                }
            }
            assert forall|k: int|
                #![trigger merged@[k]]
                0 <= k < merged@.len() && j < end implies channel_value(merged@[k], *channel)
                <= channel_value(pixels@[j as int], *channel) by {
                if k < before.len() {
                    assert(merged@[k] == before[k]);
                }
                if !from_left {
                    assert(channel_value(pixels@[j - 1], *channel) <= channel_value(
                        pixels@[j as int],
                        *channel,
                    ));
                }
            }
        }
    }
    proof {
        lemma_colours_of_neighbours(pixels@, start as int, mid as int, end as int);
    }
    let mut k: usize = 0;
    while k < end - start
        invariant
            start <= end <= pixels@.len(),
            pixels@.len() == old(pixels)@.len(),
            merged@.len() == end - start,
            k <= end - start,
            forall|m: int| 0 <= m < k ==> pixels@[start + m] == merged@[m],
            forall|m: int|
                0 <= m < start || start + k <= m < pixels@.len() ==> pixels@[m] == old(pixels)@[m],
        decreases end - start - k,
    {
        pixels[start + k] = merged[k];
        k = k + 1;
    }
    proof {
        assert(pixels@.subrange(start as int, end as int) =~= merged@);
        assert forall|a: int, b: int|
            #![trigger pixels@[a], pixels@[b]]
            start <= a <= b < end implies channel_value(pixels@[a], *channel) <= channel_value(
            pixels@[b],
            *channel,
        ) by {
            assert(pixels@[a] == merged@[a - start] && pixels@[b] == merged@[b - start]);
        }
    }
}

/// Orders the pixels at the positions from `start` up to, not including,
/// `end` by ascending value of `channel`. Pixels of equal value may end up in
/// either order; the pixels outside the stretch stay where they are.
pub fn sort_by_channel(pixels: &mut Vec<Colour>, start: usize, end: usize, channel: &Channel)
    requires
        start <= end <= old(pixels)@.len(),
    ensures
        rearranged_between(old(pixels)@, final(pixels)@, start as int, end as int),
        ascending_between(final(pixels)@, *channel, start as int, end as int),
    decreases end - start,
{
    if end - start < 2 {
        return ;
    }
    let mid: usize = start + (end - start) / 2;
    sort_by_channel(pixels, start, mid, channel);
    let ghost left_done = pixels@;
    sort_by_channel(pixels, mid, end, channel);
    proof {
        let both_done = pixels@;
        let (first, half, last) = (start as int, mid as int, end as int);
        lemma_rearranged_widen(old(pixels)@, left_done, first, half, first, last);
        lemma_rearranged_widen(left_done, both_done, half, last, first, last);
        assert forall|i: int, j: int|
            #![trigger both_done[i], both_done[j]]
            start <= i <= j < mid implies channel_value(both_done[i], *channel) <= channel_value(
            both_done[j],
            *channel,
        ) by {
            assert(both_done[i] == left_done[i] && both_done[j] == left_done[j]);
        }
    }
    merge_runs(pixels, start, mid, end, channel);
}

} // verus!
