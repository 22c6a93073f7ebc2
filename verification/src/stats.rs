//! Statistics of a bucket of colours: the spread of each channel and the
//! mean of one channel or of all three.
//!
//! Every statistic depends only on which colours the bucket holds and how
//! often, never on their order.

use crate::colour::{
    channel_value, componentwise_max, componentwise_min, Channel, Colour, ColourTrait,
};
use vstd::prelude::*;
use vstd::seq_lib::{to_multiset_contains, to_multiset_len, to_multiset_remove};

verus! {

/// The sum of the `ch` components of the colours in `s`.
pub open spec fn channel_sum(s: Seq<Colour>, ch: Channel) -> int
    decreases s.len(),
{
    if s.len() == 0 {
        0
    } else {
        channel_sum(s.drop_last(), ch) + channel_value(s.last(), ch)
    }
}

/// The mean of the `ch` components of the colours in `s`, rounded down.
pub open spec fn channel_mean(s: Seq<Colour>, ch: Channel) -> int
    recommends
        s.len() > 0,
{
    channel_sum(s, ch) / (s.len() as int)
}

/// The component-wise minimum of all the colours in `s`.
pub open spec fn lowest(s: Seq<Colour>) -> Colour
    decreases s.len(),
{
    if s.len() == 0 {
        [255u8, 255u8, 255u8]
    } else {
        componentwise_min(lowest(s.drop_last()), s.last())
    }
}

/// The component-wise maximum of all the colours in `s`.
pub open spec fn highest(s: Seq<Colour>) -> Colour
    decreases s.len(),
{
    if s.len() == 0 {
        [0u8, 0u8, 0u8]
    } else {
        componentwise_max(highest(s.drop_last()), s.last())
    }
}

/// For each channel, the distance between the largest and the smallest value
/// that the channel takes in `s`.
pub open spec fn channel_range(s: Seq<Colour>) -> Colour
    recommends
        s.len() > 0,
{
    let lo = lowest(s);
    let hi = highest(s);
    [(hi[0] - lo[0]) as u8, (hi[1] - lo[1]) as u8, (hi[2] - lo[2]) as u8]
}

/// The colour whose every component is the mean of that channel over `s`,
/// rounded down.
pub open spec fn colour_mean(s: Seq<Colour>) -> Colour
    recommends
        s.len() > 0,
{
    [
        channel_mean(s, Channel::Red) as u8,
        channel_mean(s, Channel::Green) as u8,
        channel_mean(s, Channel::Blue) as u8,
    ]
}

/// Whether `a` and `b` hold the same colours, each as often, in any order.
pub open spec fn same_colours(a: Seq<Colour>, b: Seq<Colour>) -> bool {
    a.to_multiset() == b.to_multiset()
}

/// Whether all the colours of `s` are equal.
pub open spec fn uniform(s: Seq<Colour>) -> bool {
    forall|i: int, j: int| 0 <= i < s.len() && 0 <= j < s.len() ==> s[i] == s[j]
}

/// The extremes of a single colour are that colour.
pub proof fn lemma_extremes_of_one(s: Seq<Colour>)
    requires
        s.len() == 1,
    ensures
        lowest(s) == s[0],
        highest(s) == s[0],
{
    assert(s.drop_last().len() == 0);
    assert(lowest(s.drop_last()) == [255u8, 255u8, 255u8]);
    assert(highest(s.drop_last()) == [0u8, 0u8, 0u8]);
    assert(lowest(s) =~= s[0]);
    assert(highest(s) =~= s[0]);
}

/// Every colour of `s` lies between `lowest(s)` and `highest(s)` on every
/// channel.
pub proof fn lemma_extremes_bound(s: Seq<Colour>, i: int, ch: Channel)
    requires
        0 <= i < s.len(),
    ensures
        channel_value(lowest(s), ch) <= channel_value(s[i], ch) <= channel_value(highest(s), ch),
    decreases s.len(),
{
    if i < s.len() - 1 {
        lemma_extremes_bound(s.drop_last(), i, ch);
    }
}

/// On every channel, some colour of a non-empty `s` takes the value of
/// `lowest(s)`, and some colour takes the value of `highest(s)`.
pub proof fn lemma_extremes_attained(s: Seq<Colour>, ch: Channel) -> (at: (int, int))
    requires
        s.len() > 0,
    ensures
        0 <= at.0 < s.len(),
        0 <= at.1 < s.len(),
        channel_value(s[at.0], ch) == channel_value(lowest(s), ch),
        channel_value(s[at.1], ch) == channel_value(highest(s), ch),
    decreases s.len(),
{
    let last = s.len() - 1;
    if s.len() == 1 {
        lemma_extremes_of_one(s);
        (last, last)
    } else {
        let before = lemma_extremes_attained(s.drop_last(), ch);
        let low = if channel_value(s[last], ch) <= channel_value(lowest(s.drop_last()), ch) {
            last
        } else {
            before.0
        };
        let high = if channel_value(s[last], ch) >= channel_value(highest(s.drop_last()), ch) {
            last
        } else {
            before.1
        };
        (low, high)
    }
}

/// On every channel the sum over `s` lies between `s.len()` times the
/// smallest value and `s.len()` times the largest.
pub proof fn lemma_channel_sum_bounds(s: Seq<Colour>, ch: Channel)
    ensures
        channel_value(lowest(s), ch) * s.len() <= channel_sum(s, ch),
        channel_sum(s, ch) <= channel_value(highest(s), ch) * s.len(),
        0 <= channel_sum(s, ch) <= 255 * s.len(),
    decreases s.len(),
{
    if s.len() > 0 {
        let init = s.drop_last();
        lemma_channel_sum_bounds(init, ch);
        let lo = channel_value(lowest(s), ch) as int;
        let lo_init = channel_value(lowest(init), ch) as int;
        let hi = channel_value(highest(s), ch) as int;
        let hi_init = channel_value(highest(init), ch) as int;
        let n = init.len() as int;
        assert(lo * n <= lo_init * n) by (nonlinear_arith)
            requires
                lo <= lo_init,
                0 <= n,
        ;
        assert(hi_init * n <= hi * n) by (nonlinear_arith)
            requires
                hi_init <= hi,
                0 <= n,
        ;
        assert(lo * (n + 1) == lo * n + lo) by (nonlinear_arith);
        assert(hi * (n + 1) == hi * n + hi) by (nonlinear_arith);
    }
}

/// The mean of a channel over a non-empty `s` lies between the smallest and
/// the largest value that the channel takes in `s`.
pub proof fn lemma_channel_mean_bounds(s: Seq<Colour>, ch: Channel)
    requires
        s.len() > 0,
    ensures
        channel_value(lowest(s), ch) <= channel_mean(s, ch) <= channel_value(highest(s), ch),
        0 <= channel_mean(s, ch) <= 255,
{
    lemma_channel_sum_bounds(s, ch);
    let lo = channel_value(lowest(s), ch) as int;
    let hi = channel_value(highest(s), ch) as int;
    let n = s.len() as int;
    let total = channel_sum(s, ch);
    assert(lo <= total / n <= hi) by (nonlinear_arith)
        requires
            n > 0,
            lo * n <= total,
            total <= hi * n,
    ;
}

/// Taking one colour out of `s` lowers the sum of a channel by that colour's
/// value.
pub proof fn lemma_channel_sum_remove(s: Seq<Colour>, ch: Channel, i: int)
    requires
        0 <= i < s.len(),
    ensures
        channel_sum(s, ch) == channel_sum(s.remove(i), ch) + channel_value(s[i], ch),
    decreases s.len(),
{
    if i == s.len() - 1 {
        assert(s.remove(i) =~= s.drop_last());
    } else {
        lemma_channel_sum_remove(s.drop_last(), ch, i);
        assert(s.remove(i).drop_last() =~= s.drop_last().remove(i));
        assert(s.remove(i).last() == s.last());
    }
}

/// The sum of a channel does not depend on the order of the colours.
pub proof fn lemma_channel_sum_permutation(a: Seq<Colour>, b: Seq<Colour>, ch: Channel)
    requires
        same_colours(a, b),
    ensures
        channel_sum(a, ch) == channel_sum(b, ch),
    decreases a.len(),
{
    to_multiset_len(a);
    to_multiset_len(b);
    if a.len() > 0 {
        let last = a.len() - 1;
        let x = a.last();
        to_multiset_contains(a, x);
        to_multiset_contains(b, x);
        assert(a.contains(x));
        let i = choose|i: int| 0 <= i < b.len() && b[i] == x;
        to_multiset_remove(a, last);
        to_multiset_remove(b, i);
        assert(a.remove(last) =~= a.drop_last());
        lemma_channel_sum_permutation(a.drop_last(), b.remove(i), ch);
        lemma_channel_sum_remove(b, ch, i);
    }
}

/// On each channel, the extremes do not depend on the order of the colours.
pub proof fn lemma_extremes_permutation_on(a: Seq<Colour>, b: Seq<Colour>, ch: Channel)
    requires
        same_colours(a, b),
        a.len() > 0,
    ensures
        channel_value(lowest(a), ch) == channel_value(lowest(b), ch),
        channel_value(highest(a), ch) == channel_value(highest(b), ch),
{
    to_multiset_len(a);
    to_multiset_len(b);
    let in_a = lemma_extremes_attained(a, ch);
    let in_b = lemma_extremes_attained(b, ch);
    lemma_same_colours_index(a, b, in_a.0);
    lemma_same_colours_index(a, b, in_a.1);
    lemma_same_colours_index(b, a, in_b.0);
    lemma_same_colours_index(b, a, in_b.1);
    let low_in_b = choose|j: int| 0 <= j < b.len() && b[j] == a[in_a.0];
    let high_in_b = choose|j: int| 0 <= j < b.len() && b[j] == a[in_a.1];
    let low_in_a = choose|j: int| 0 <= j < a.len() && a[j] == b[in_b.0];
    let high_in_a = choose|j: int| 0 <= j < a.len() && a[j] == b[in_b.1];
    lemma_extremes_bound(b, low_in_b, ch);
    lemma_extremes_bound(b, high_in_b, ch);
    lemma_extremes_bound(a, low_in_a, ch);
    lemma_extremes_bound(a, high_in_a, ch);
}

/// The component-wise extremes do not depend on the order of the colours.
pub proof fn lemma_extremes_permutation(a: Seq<Colour>, b: Seq<Colour>)
    requires
        same_colours(a, b),
    ensures
        lowest(a) == lowest(b),
        highest(a) == highest(b),
{
    to_multiset_len(a);
    to_multiset_len(b);
    if a.len() > 0 {
        lemma_extremes_permutation_on(a, b, Channel::Red);
        lemma_extremes_permutation_on(a, b, Channel::Green);
        lemma_extremes_permutation_on(a, b, Channel::Blue);
        assert(lowest(a) =~= lowest(b));
        assert(highest(a) =~= highest(b));
    } else {
        assert(a =~= b);
    }
}

/// A colour found in `a` is found in every rearrangement of `a`.
pub proof fn lemma_same_colours_index(a: Seq<Colour>, b: Seq<Colour>, i: int)
    requires
        same_colours(a, b),
        0 <= i < a.len(),
    ensures
        exists|j: int| 0 <= j < b.len() && b[j] == a[i],
{
    to_multiset_contains(a, a[i]);
    to_multiset_contains(b, a[i]);
    assert(a.contains(a[i]));
}

/// The statistics of a bucket do not depend on the order of its colours.
pub proof fn lemma_statistics_permutation(a: Seq<Colour>, b: Seq<Colour>)
    requires
        same_colours(a, b),
    ensures
        a.len() == b.len(),
        channel_range(a) == channel_range(b),
        colour_mean(a) == colour_mean(b),
        forall|ch: Channel| channel_mean(a, ch) == channel_mean(b, ch),
{
    to_multiset_len(a);
    to_multiset_len(b);
    lemma_extremes_permutation(a, b);
    assert forall|ch: Channel| channel_mean(a, ch) == channel_mean(b, ch) by {
        lemma_channel_sum_permutation(a, b, ch);
    }
}

/// The mean of a single colour is that colour.
pub proof fn lemma_mean_of_one(c: Colour)
    ensures
        colour_mean(seq![c]) == c,
{
    let s = seq![c];
    assert(s.drop_last().len() == 0);
    assert forall|ch: Channel| channel_mean(s, ch) == channel_value(c, ch) by {
        assert(channel_sum(s.drop_last(), ch) == 0);
        assert(channel_sum(s, ch) == channel_value(c, ch));
    }
    assert(channel_mean(s, Channel::Red) == c[0]);
    assert(channel_mean(s, Channel::Green) == c[1]);
    assert(channel_mean(s, Channel::Blue) == c[2]);
}

/// The sum of a channel over equal colours.
pub proof fn lemma_channel_sum_uniform(s: Seq<Colour>, ch: Channel)
    requires
        s.len() > 0,
        uniform(s),
    ensures
        channel_sum(s, ch) == s.len() * channel_value(s[0], ch),
    decreases s.len(),
{
    let v = channel_value(s[0], ch) as int;
    let n = s.len() as int;
    assert(s.last() == s[0]);
    if s.len() == 1 {
        assert(channel_sum(s.drop_last(), ch) == 0);
    } else {
        let init = s.drop_last();
        assert(init[0] == s[0]);
        assert forall|i: int, j: int| 0 <= i < init.len() && 0 <= j < init.len() implies init[i]
            == init[j] by {
            assert(init[i] == s[i] && init[j] == s[j]);
        }
        lemma_channel_sum_uniform(init, ch);
    }
    assert(n * v == (n - 1) * v + v) by (nonlinear_arith);
}

/// The mean of equal colours is that colour.
pub proof fn lemma_mean_of_uniform(s: Seq<Colour>)
    requires
        s.len() > 0,
        uniform(s),
    ensures
        colour_mean(s) == s[0],
{
    let n = s.len() as int;
    assert forall|ch: Channel| channel_mean(s, ch) == channel_value(s[0], ch) by {
        lemma_channel_sum_uniform(s, ch);
        let v = channel_value(s[0], ch) as int;
        assert((n * v) / n == v) by (nonlinear_arith)
            requires
                n > 0,
        ;
    }
    assert(channel_mean(s, Channel::Red) == s[0][0]);
    assert(channel_mean(s, Channel::Green) == s[0][1]);
    assert(channel_mean(s, Channel::Blue) == s[0][2]);
    assert(colour_mean(s) =~= s[0]);
}

/// The mean, rounded down, of one channel over a non-empty bucket.
pub fn get_channel_mean(pixels: &[Colour], channel: &Channel) -> (mean: u8)
    requires
        pixels@.len() > 0,
    ensures
        mean == channel_mean(pixels@, *channel),
{
    let n: usize = pixels.len();
    let mut sum: u128 = 0;
    let mut i: usize = 0;
    while i < n
        invariant
            i <= n,
            n == pixels@.len(),
            sum == channel_sum(pixels@.take(i as int), *channel),
            sum <= 255 * i,
        decreases n - i,
    {
        proof {
            assert(pixels@.take(i + 1).drop_last() =~= pixels@.take(i as int));
        }
        sum = sum + pixels[i].get_channel_value(channel) as u128;
        i = i + 1;
    }
    proof {
        assert(pixels@.take(n as int) =~= pixels@);
        lemma_channel_mean_bounds(pixels@, *channel);
    }
    (sum / (n as u128)) as u8
}

/// For each channel, the largest value in a non-empty bucket minus the
/// smallest.
pub fn get_channel_ranges(pixels: &[Colour]) -> (ranges: Colour)
    requires
        pixels@.len() > 0,
    ensures
        ranges == channel_range(pixels@),
{
    let n: usize = pixels.len();
    let mut min: Colour = pixels[0];
    let mut max: Colour = pixels[0];
    proof {
        lemma_extremes_of_one(pixels@.take(1));
    }
    let mut i: usize = 1;
    while i < n
        invariant
            1 <= i <= n,
            n == pixels@.len(),
            min == lowest(pixels@.take(i as int)),
            max == highest(pixels@.take(i as int)),
        decreases n - i,
    {
        proof {
            assert(pixels@.take(i + 1).drop_last() =~= pixels@.take(i as int));
        }
        min = min.min_by_component(&pixels[i]);
        max = max.max_by_component(&pixels[i]);
        i = i + 1;
    }
    proof {
        assert(pixels@.take(n as int) =~= pixels@);
        lemma_extremes_bound(pixels@, 0, Channel::Red);
        lemma_extremes_bound(pixels@, 0, Channel::Green);
        lemma_extremes_bound(pixels@, 0, Channel::Blue);
    }
    Colour::new(max[0] - min[0], max[1] - min[1], max[2] - min[2])
}

/// The colour whose every component is the mean, rounded down, of that
/// channel over a non-empty bucket.
pub fn get_mean(pixels: &[Colour]) -> (mean: Colour)
    requires
        pixels@.len() > 0,
    ensures
        mean == colour_mean(pixels@),
        pixels@.len() == 1 ==> mean == pixels@[0],
{
    let n: usize = pixels.len();
    let mut red: u128 = 0;
    let mut green: u128 = 0;
    let mut blue: u128 = 0;
    let mut i: usize = 0;
    while i < n
        invariant
            i <= n,
            n == pixels@.len(),
            red == channel_sum(pixels@.take(i as int), Channel::Red),
            green == channel_sum(pixels@.take(i as int), Channel::Green),
            blue == channel_sum(pixels@.take(i as int), Channel::Blue),
            red <= 255 * i,
            green <= 255 * i,
            blue <= 255 * i,
        decreases n - i,
    {
        proof {
            assert(pixels@.take(i + 1).drop_last() =~= pixels@.take(i as int));
        }
        red = red + pixels[i][0] as u128;
        green = green + pixels[i][1] as u128;
        blue = blue + pixels[i][2] as u128;
        i = i + 1;
    }
    proof {
        assert(pixels@.take(n as int) =~= pixels@);
        lemma_channel_mean_bounds(pixels@, Channel::Red);
        lemma_channel_mean_bounds(pixels@, Channel::Green);
        lemma_channel_mean_bounds(pixels@, Channel::Blue);
        if n == 1 {
            lemma_mean_of_one(pixels@[0]);
            assert(pixels@ =~= seq![pixels@[0]]);
        }
    }
    let count: u128 = n as u128;
    Colour::new((red / count) as u8, (green / count) as u8, (blue / count) as u8)
}

} // verus!
