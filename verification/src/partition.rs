//! Cutting one bucket in two along its widest channel, near the mean.
//!
//! As a model, a bucket is the sequence of its colours. The cut keeps in the
//! lower part every colour whose value on the pivot channel is at most the
//! pivot, and puts the others in the upper part. A bucket in which no colour
//! exceeds the pivot cannot be cut: all its colours are equal.

use crate::colour::{channel_value, dominant_channel, Channel, Colour, ColourTrait};
use crate::sorting::{
    ascending_between, lemma_colours_of_nothing, rearranged_between, sort_by_channel,
};
use crate::stats::{
    channel_mean, channel_range, get_channel_mean, get_channel_ranges, highest,
    lemma_channel_mean_bounds, lemma_extremes_attained, lemma_extremes_bound,
    lemma_statistics_permutation, lowest, same_colours, uniform,
};
use vstd::multiset::{axiom_filter_count, Multiset};
use vstd::prelude::*;
use vstd::seq_lib::{to_multiset_build, to_multiset_len};
use vstd::slice::slice_subrange;

verus! {

/// The channel along which the bucket `s` is cut: the one with the widest
/// spread.
pub open spec fn pivot_channel(s: Seq<Colour>) -> Channel {
    dominant_channel(channel_range(s))
}

/// The value at which the bucket `s` is cut: the mean, rounded down, of its
/// pivot channel.
pub open spec fn pivot_value(s: Seq<Colour>) -> int {
    channel_mean(s, pivot_channel(s))
}

/// The colours whose `ch` component is at most `limit`.
pub open spec fn at_most(ch: Channel, limit: int) -> spec_fn(Colour) -> bool {
    |c: Colour| channel_value(c, ch) <= limit
}

/// The colours whose `ch` component exceeds `limit`.
pub open spec fn above(ch: Channel, limit: int) -> spec_fn(Colour) -> bool {
    |c: Colour| channel_value(c, ch) > limit
}

/// The colours of `s` that do not exceed the pivot, in the order of `s`.
pub open spec fn lower_part(s: Seq<Colour>) -> Seq<Colour> {
    s.filter(at_most(pivot_channel(s), pivot_value(s)))
}

/// The colours of `s` that exceed the pivot, in the order of `s`.
pub open spec fn upper_part(s: Seq<Colour>) -> Seq<Colour> {
    s.filter(above(pivot_channel(s), pivot_value(s)))
}

/// Whether the bucket `s` can be cut in two: some colour exceeds the pivot.
pub open spec fn splittable(s: Seq<Colour>) -> bool {
    upper_part(s).len() > 0
}

/// What one round makes of the bucket `s`: its two parts, or `s` itself
/// where it cannot be cut.
pub open spec fn split_once(s: Seq<Colour>) -> Seq<Seq<Colour>> {
    if splittable(s) {
        seq![lower_part(s), upper_part(s)]
    } else {
        seq![s]
    }
}

/// Whether `cut` is where the bucket `before`, once its pixels stand as in
/// `after`, is cut.
///
/// Where the bucket can be cut, `cut` is the position of the first pixel
/// that exceeds the pivot; no part is empty, the pixels before `cut` are the
/// lower part of the bucket and the others its upper part, in some order.
/// Where it cannot, `cut` is 0.
pub open spec fn cut_at(before: Seq<Colour>, after: Seq<Colour>, cut: int) -> bool {
    let ch = pivot_channel(before);
    let limit = pivot_value(before);
    if splittable(before) {
        &&& 0 < cut < after.len()
        &&& forall|k: int| 0 <= k < cut ==> channel_value(#[trigger] after[k], ch) <= limit
        &&& forall|k: int| cut <= k < after.len() ==> channel_value(#[trigger] after[k], ch) > limit
        &&& same_colours(after.subrange(0, cut), lower_part(before))
        &&& same_colours(after.subrange(cut, after.len() as int), upper_part(before))
    } else {
        cut == 0
    }
}

/// A filter keeps each colour that passes it as often as the colour occurs.
pub proof fn lemma_filter_colours(s: Seq<Colour>, pred: spec_fn(Colour) -> bool)
    ensures
        s.filter(pred).to_multiset() == s.to_multiset().filter(pred),
    decreases s.len(),
{
    if s.len() == 0 {
        reveal(Seq::filter);
        lemma_colours_of_nothing(s);
        assert forall|c: Colour| Multiset::<Colour>::empty().filter(pred).count(c) == 0 by {
            axiom_filter_count(Multiset::<Colour>::empty(), pred, c);
        }
        assert(s.filter(pred).to_multiset() =~= s.to_multiset().filter(pred));
    } else {
        let init = s.drop_last();
        let x = s.last();
        lemma_filter_colours(init, pred);
        assert(init.push(x) =~= s);
        init.lemma_filter_push(x, pred);
        to_multiset_build(init, x);
        to_multiset_build(init.filter(pred), x);
        assert forall|c: Colour|
            s.filter(pred).to_multiset().count(c) == s.to_multiset().filter(pred).count(c) by {
            axiom_filter_count(s.to_multiset(), pred, c);
            axiom_filter_count(init.to_multiset(), pred, c);
        }
        assert(s.filter(pred).to_multiset() =~= s.to_multiset().filter(pred));
    }
}

/// Filtering two arrangements of the same colours gives two arrangements of
/// the same colours.
pub proof fn lemma_filter_permutation(
    a: Seq<Colour>,
    b: Seq<Colour>,
    pred: spec_fn(Colour) -> bool,
)
    requires
        same_colours(a, b),
    ensures
        same_colours(a.filter(pred), b.filter(pred)),
{
    lemma_filter_colours(a, pred);
    lemma_filter_colours(b, pred);
}

/// A filter that every colour of `s` passes keeps `s` as it is.
pub proof fn lemma_filter_keeps_all(s: Seq<Colour>, pred: spec_fn(Colour) -> bool)
    requires
        forall|i: int| 0 <= i < s.len() ==> pred(#[trigger] s[i]),
    ensures
        s.filter(pred) == s,
    decreases s.len(),
{
    reveal(Seq::filter);
    if s.len() > 0 {
        lemma_filter_keeps_all(s.drop_last(), pred);
        assert(s.drop_last().push(s.last()) =~= s);
    }
}

/// A filter that no colour of `s` passes keeps nothing.
pub proof fn lemma_filter_drops_all(s: Seq<Colour>, pred: spec_fn(Colour) -> bool)
    requires
        forall|i: int| 0 <= i < s.len() ==> !pred(#[trigger] s[i]),
    ensures
        s.filter(pred).len() == 0,
    decreases s.len(),
{
    reveal(Seq::filter);
    if s.len() > 0 {
        lemma_filter_drops_all(s.drop_last(), pred);
    }
}

/// Where the colours of `t` up to `cut` are at most `limit` on `ch` and the
/// others exceed it, the two filters give the two sides of the cut.
pub proof fn lemma_cut_is_filter(t: Seq<Colour>, ch: Channel, limit: int, cut: int)
    requires
        0 <= cut <= t.len(),
        forall|k: int| 0 <= k < cut ==> channel_value(#[trigger] t[k], ch) <= limit,
        forall|k: int| cut <= k < t.len() ==> channel_value(#[trigger] t[k], ch) > limit,
    ensures
        t.filter(at_most(ch, limit)) == t.subrange(0, cut),
        t.filter(above(ch, limit)) == t.subrange(cut, t.len() as int),
{
    let low = t.subrange(0, cut);
    let high = t.subrange(cut, t.len() as int);
    assert(low + high =~= t);
    Seq::filter_distributes_over_add(low, high, at_most(ch, limit));
    Seq::filter_distributes_over_add(low, high, above(ch, limit));
    lemma_filter_keeps_all(low, at_most(ch, limit));
    lemma_filter_drops_all(high, at_most(ch, limit));
    lemma_filter_drops_all(low, above(ch, limit));
    lemma_filter_keeps_all(high, above(ch, limit));
    assert(low + high.filter(at_most(ch, limit)) =~= low);
    assert(low.filter(above(ch, limit)) + high =~= high);
}

/// The two parts of a bucket hold its colours, each exactly once.
pub proof fn lemma_parts_cover(s: Seq<Colour>)
    ensures
        lower_part(s).to_multiset().add(upper_part(s).to_multiset()) == s.to_multiset(),
        lower_part(s).len() + upper_part(s).len() == s.len(),
{
    let ch = pivot_channel(s);
    let limit = pivot_value(s);
    lemma_filter_colours(s, at_most(ch, limit));
    lemma_filter_colours(s, above(ch, limit));
    let both = lower_part(s).to_multiset().add(upper_part(s).to_multiset());
    assert forall|c: Colour| both.count(c) == s.to_multiset().count(c) by {
        axiom_filter_count(s.to_multiset(), at_most(ch, limit), c);
        axiom_filter_count(s.to_multiset(), above(ch, limit), c);
    }
    assert(both =~= s.to_multiset());
    to_multiset_len(s);
    to_multiset_len(lower_part(s));
    to_multiset_len(upper_part(s));
}

/// The lower part of a bucket that holds a colour holds one too: the
/// smallest value of a channel never exceeds its mean.
pub proof fn lemma_lower_part_holds_some(s: Seq<Colour>)
    requires
        s.len() > 0,
    ensures
        lower_part(s).len() > 0,
{
    let ch = pivot_channel(s);
    let limit = pivot_value(s);
    let at = lemma_extremes_attained(s, ch);
    lemma_channel_mean_bounds(s, ch);
    assert(at_most(ch, limit)(s[at.0]));
    s.lemma_filter_contains(at_most(ch, limit), at.0);
}

/// The cut of a bucket does not depend on the order of its colours.
pub proof fn lemma_split_permutation(a: Seq<Colour>, b: Seq<Colour>)
    requires
        same_colours(a, b),
    ensures
        a.len() == b.len(),
        pivot_channel(a) == pivot_channel(b),
        pivot_value(a) == pivot_value(b),
        same_colours(lower_part(a), lower_part(b)),
        same_colours(upper_part(a), upper_part(b)),
        splittable(a) == splittable(b),
{
    lemma_statistics_permutation(a, b);
    let ch = pivot_channel(a);
    let limit = pivot_value(a);
    lemma_filter_permutation(a, b, at_most(ch, limit));
    lemma_filter_permutation(a, b, above(ch, limit));
    to_multiset_len(upper_part(a));
    to_multiset_len(upper_part(b));
}

/// A bucket can be cut exactly when it holds two different colours.
pub proof fn lemma_splittable_iff_mixed(s: Seq<Colour>)
    requires
        s.len() > 0,
    ensures
        splittable(s) <==> !uniform(s),
{
    let ch = pivot_channel(s);
    let limit = pivot_value(s);
    lemma_channel_mean_bounds(s, ch);
    let at = lemma_extremes_attained(s, ch);
    if uniform(s) {
        assert forall|i: int| 0 <= i < s.len() implies !above(ch, limit)(#[trigger] s[i]) by {
            assert(s[i] == s[at.0]);
        }
        lemma_filter_drops_all(s, above(ch, limit));
    } else {
        let (i, j) = choose|i: int, j: int| 0 <= i < s.len() && 0 <= j < s.len() && s[i] != s[j];
        let other = if s[i][0] != s[j][0] {
            Channel::Red
        } else if s[i][1] != s[j][1] {
            Channel::Green
        } else {
            Channel::Blue
        };
        assert(channel_value(s[i], other) != channel_value(s[j], other)) by {
            if s[i][0] == s[j][0] && s[i][1] == s[j][1] && s[i][2] == s[j][2] {
                assert(s[i] =~= s[j]);
            }
        }
        lemma_extremes_bound(s, i, other);
        lemma_extremes_bound(s, j, other);
        assert(channel_value(channel_range(s), other) > 0);
        crate::colour::lemma_dominant_channel_is_largest(channel_range(s), other);
        assert(channel_value(lowest(s), ch) < channel_value(highest(s), ch));
        lemma_mean_below_highest(s, ch);
        assert(above(ch, limit)(s[at.1]));
        s.lemma_filter_contains(above(ch, limit), at.1);
    }
}

/// Where a channel takes two different values in `s`, its mean, rounded
/// down, is below the largest of them.
pub proof fn lemma_mean_below_highest(s: Seq<Colour>, ch: Channel)
    requires
        s.len() > 0,
        channel_value(lowest(s), ch) < channel_value(highest(s), ch),
    ensures
        channel_mean(s, ch) < channel_value(highest(s), ch),
{
    let top = channel_value(highest(s), ch) as int;
    let at = lemma_extremes_attained(s, ch);
    lemma_sum_below_top(s, ch, at.0);
    let n = s.len() as int;
    let total = crate::stats::channel_sum(s, ch);
    assert(total / n < top) by (nonlinear_arith)
        requires
            n > 0,
            total < top * n,
    ;
}

/// Where some colour of `s` is below the largest value of a channel, the sum
/// of the channel is below `s.len()` times that value.
proof fn lemma_sum_below_top(s: Seq<Colour>, ch: Channel, i: int)
    requires
        0 <= i < s.len(),
        channel_value(s[i], ch) < channel_value(highest(s), ch),
    ensures
        crate::stats::channel_sum(s, ch) < channel_value(highest(s), ch) * s.len(),
{
    let top = channel_value(highest(s), ch) as int;
    let rest = s.remove(i);
    crate::stats::lemma_channel_sum_remove(s, ch, i);
    crate::stats::lemma_channel_sum_bounds(rest, ch);
    let rest_top = channel_value(highest(rest), ch) as int;
    if rest.len() > 0 {
        let at = lemma_extremes_attained(rest, ch);
        let back = if at.1 < i {
            at.1
        } else {
            at.1 + 1
        };
        assert(rest[at.1] == s[back]);
        lemma_extremes_bound(s, back, ch);
    }
    let m = rest.len() as int;
    assert(rest_top * m <= top * m) by (nonlinear_arith)
        requires
            rest.len() > 0 ==> rest_top <= top,
            m == rest.len(),
            m >= 0,
    ;
    assert(top * (m + 1) == top * m + top) by (nonlinear_arith);
}

/// Cuts the bucket that holds the pixels from `start` up to, not including,
/// `end`.
///
/// The pixels of the bucket are put in ascending order of the bucket's widest
/// channel. The result is the position of the first pixel whose value on that
/// channel exceeds the mean: the lower part ends there and the upper part
/// begins. Where no pixel exceeds the mean the bucket cannot be cut, and the
/// result is `start`.
pub fn split_bucket(pixels: &mut Vec<Colour>, start: usize, end: usize) -> (cut: usize)
    requires
        start < end <= old(pixels)@.len(),
    ensures
        rearranged_between(old(pixels)@, final(pixels)@, start as int, end as int),
        ascending_between(
            final(pixels)@,
            pivot_channel(old(pixels)@.subrange(start as int, end as int)),
            start as int,
            end as int,
        ),
        cut_at(
            old(pixels)@.subrange(start as int, end as int),
            final(pixels)@.subrange(start as int, end as int),
            cut - start,
        ),
{
    let ghost bucket = pixels@.subrange(start as int, end as int);
    let ranges: Colour = get_channel_ranges(slice_subrange(pixels.as_slice(), start, end));
    let channel: Channel = ranges.get_highest_channel();
    let mean: u8 = get_channel_mean(slice_subrange(pixels.as_slice(), start, end), &channel);
    sort_by_channel(pixels, start, end, &channel);
    let ghost sorted = pixels@.subrange(start as int, end as int);
    let mut cut: usize = start;
    while cut < end && pixels[cut].get_channel_value(&channel) <= mean
        invariant
            start <= cut <= end <= pixels@.len(),
            forall|k: int|
                start <= k < cut ==> channel_value(#[trigger] pixels@[k], channel) <= mean,
        decreases end - cut,
    {
        cut = cut + 1;
    }
    proof {
        lemma_split_permutation(sorted, bucket);
        let found = cut - start;
        assert forall|k: int| 0 <= k < found implies channel_value(#[trigger] sorted[k], channel)
            <= mean by {
            assert(sorted[k] == pixels@[start + k]);
        }
        assert forall|k: int| found <= k < sorted.len() implies channel_value(
            #[trigger] sorted[k],
            channel,
        ) > mean by {
            assert(sorted[k] == pixels@[start + k]);
            assert(channel_value(pixels@[cut as int], channel) <= channel_value(
                pixels@[start + k],
                channel,
            ));
        }
        lemma_cut_is_filter(sorted, channel, mean as int, found);
        lemma_lower_part_holds_some(sorted);
    }
    if cut == end {
        start
    } else {
        cut
    }
}

} // verus!
