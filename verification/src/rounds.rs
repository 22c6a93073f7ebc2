//! The working set as a model: an ordered sequence of buckets, each the
//! sequence of its colours, and what rounds of cutting make of it.
//!
//! A round replaces every bucket that can be cut by its two parts, in place,
//! and keeps the others. Rounds go on until the working set has reached the
//! wanted size or no bucket can be cut any more.

use crate::colour::Colour;
use crate::partition::{
    lemma_lower_part_holds_some, lemma_parts_cover, lemma_split_permutation, lower_part,
    pivot_channel, split_once, splittable, upper_part,
};
use crate::sorting::ascending;
use crate::stats::{colour_mean, lemma_statistics_permutation, same_colours};
use vstd::prelude::*;
use vstd::seq_lib::lemma_multiset_commutative;

verus! {

/// What one round makes of the working set `buckets`.
pub open spec fn split_round(buckets: Seq<Seq<Colour>>) -> Seq<Seq<Colour>>
    decreases buckets.len(),
{
    if buckets.len() == 0 {
        Seq::empty()
    } else {
        split_round(buckets.drop_last()) + split_once(buckets.last())
    }
}

/// The working set after `count` rounds, started from `buckets`.
pub open spec fn after_rounds(buckets: Seq<Seq<Colour>>, count: nat) -> Seq<Seq<Colour>>
    decreases count,
{
    if count == 0 {
        buckets
    } else {
        split_round(after_rounds(buckets, (count - 1) as nat))
    }
}

/// Whether a round would add no bucket to `buckets`.
pub open spec fn stuck(buckets: Seq<Seq<Colour>>) -> bool {
    split_round(buckets).len() <= buckets.len()
}

/// The working set that the rounds end with, started from `buckets` and
/// asked for `target` buckets: rounds are made while there are fewer than
/// `target` buckets and a round still adds one.
pub open spec fn refine(buckets: Seq<Seq<Colour>>, target: nat) -> Seq<Seq<Colour>>
    decreases
        (if buckets.len() < target {
            target - buckets.len()
        } else {
            0
        }),
{
    if buckets.len() >= target || stuck(buckets) {
        buckets
    } else {
        refine(split_round(buckets), target)
    }
}

/// All the colours of the working set, bucket after bucket.
pub open spec fn all_colours(buckets: Seq<Seq<Colour>>) -> Seq<Colour>
    decreases buckets.len(),
{
    if buckets.len() == 0 {
        Seq::empty()
    } else {
        all_colours(buckets.drop_last()) + buckets.last()
    }
}

/// Whether every bucket of the working set holds a colour.
pub open spec fn none_empty(buckets: Seq<Seq<Colour>>) -> bool {
    forall|i: int| 0 <= i < buckets.len() ==> (#[trigger] buckets[i]).len() > 0
}

/// Whether two working sets have as many buckets, and bucket for bucket the
/// same colours in some order.
pub open spec fn alike(xs: Seq<Seq<Colour>>, ys: Seq<Seq<Colour>>) -> bool {
    &&& xs.len() == ys.len()
    &&& forall|i: int| 0 <= i < xs.len() ==> same_colours(#[trigger] xs[i], ys[i])
}

/// Whether in `after`, which a round made of `before`, the colours of every
/// bucket stand in ascending order of the channel along which the bucket
/// that it came from was, or would have been, cut.
pub open spec fn parts_in_order(before: Seq<Seq<Colour>>, after: Seq<Seq<Colour>>) -> bool
    decreases before.len(),
{
    before.len() == 0 || {
        let parent = before.last();
        let kept = after.len() - split_once(parent).len();
        &&& kept >= 0
        &&& parts_in_order(before.drop_last(), after.take(kept))
        &&& forall|k: int|
            kept <= k < after.len() ==> ascending(#[trigger] after[k], pivot_channel(parent))
    }
}

/// The mean colour of each bucket of a working set, bucket after bucket.
pub open spec fn means_of(buckets: Seq<Seq<Colour>>) -> Seq<Colour> {
    Seq::new(buckets.len(), |i: int| colour_mean(buckets[i]))
}

/// The means of a working set do not depend on the order of the colours
/// inside its buckets.
pub proof fn lemma_means_alike(xs: Seq<Seq<Colour>>, ys: Seq<Seq<Colour>>)
    requires
        alike(xs, ys),
    ensures
        means_of(xs) == means_of(ys),
{
    assert forall|i: int| 0 <= i < xs.len() implies colour_mean(xs[i]) == colour_mean(ys[i]) by {
        lemma_statistics_permutation(xs[i], ys[i]);
    }
    assert(means_of(xs) =~= means_of(ys));
}

/// Working sets that are alike bucket for bucket stay alike when buckets that
/// are alike are added to both.
pub proof fn lemma_alike_append(
    xs: Seq<Seq<Colour>>,
    ys: Seq<Seq<Colour>>,
    xt: Seq<Seq<Colour>>,
    yt: Seq<Seq<Colour>>,
)
    requires
        alike(xs, ys),
        alike(xt, yt),
    ensures
        alike(xs + xt, ys + yt),
{
    assert forall|i: int| 0 <= i < (xs + xt).len() implies same_colours(
        #[trigger] (xs + xt)[i],
        (ys + yt)[i],
    ) by {
        if i < xs.len() {
            assert((xs + xt)[i] == xs[i]);
        } else {
            assert((xs + xt)[i] == xt[i - xs.len()]);
        }
    }
}

/// Buckets in order stay in order when the parts of one more bucket, in
/// order too, are added.
pub proof fn lemma_parts_in_order_push(
    before: Seq<Seq<Colour>>,
    after: Seq<Seq<Colour>>,
    parent: Seq<Colour>,
    parts: Seq<Seq<Colour>>,
)
    requires
        parts_in_order(before, after),
        parts.len() == split_once(parent).len(),
        forall|k: int|
            0 <= k < parts.len() ==> ascending(#[trigger] parts[k], pivot_channel(parent)),
    ensures
        parts_in_order(before.push(parent), after + parts),
{
    let all = after + parts;
    assert(before.push(parent).drop_last() =~= before);
    assert(all.take(all.len() - parts.len()) =~= after);
    assert forall|k: int| after.len() <= k < all.len() implies ascending(
        #[trigger] all[k],
        pivot_channel(parent),
    ) by {
        assert(all[k] == parts[k - after.len()]);
    }
}

/// A round deals with the buckets one by one.
pub proof fn lemma_round_push(buckets: Seq<Seq<Colour>>, s: Seq<Colour>)
    ensures
        split_round(buckets.push(s)) == split_round(buckets) + split_once(s),
{
    assert(buckets.push(s).drop_last() =~= buckets);
}

/// The colours of two working sets, one after the other.
pub proof fn lemma_all_colours_concat(xs: Seq<Seq<Colour>>, ys: Seq<Seq<Colour>>)
    ensures
        all_colours(xs + ys) == all_colours(xs) + all_colours(ys),
    decreases ys.len(),
{
    if ys.len() == 0 {
        assert(xs + ys =~= xs);
        assert(all_colours(xs) + all_colours(ys) =~= all_colours(xs));
    } else {
        lemma_all_colours_concat(xs, ys.drop_last());
        assert((xs + ys).drop_last() =~= xs + ys.drop_last());
        assert((all_colours(xs) + all_colours(ys.drop_last())) + ys.last() =~= all_colours(xs) + (
        all_colours(ys.drop_last()) + ys.last()));
    }
}

/// The colours of a working set of one bucket are those of the bucket.
pub proof fn lemma_all_colours_of_one(s: Seq<Colour>)
    ensures
        all_colours(seq![s]) == s,
{
    assert(seq![s].drop_last() =~= Seq::<Seq<Colour>>::empty());
    assert(all_colours(Seq::<Seq<Colour>>::empty()) =~= Seq::<Colour>::empty());
    assert(all_colours(seq![s]) =~= s);
}

/// What a round makes of one bucket holds the colours of that bucket, each
/// exactly once.
pub proof fn lemma_split_once_keeps_colours(s: Seq<Colour>)
    ensures
        same_colours(all_colours(split_once(s)), s),
{
    let pieces = split_once(s);
    if splittable(s) {
        assert(pieces.drop_last() =~= seq![lower_part(s)]);
        lemma_all_colours_of_one(lower_part(s));
        assert(all_colours(pieces) == lower_part(s) + upper_part(s));
        lemma_multiset_commutative(lower_part(s), upper_part(s));
        lemma_parts_cover(s);
    } else {
        lemma_all_colours_of_one(s);
    }
}

/// Completeness of the partition: a round neither drops nor repeats a
/// colour.
pub proof fn lemma_round_keeps_colours(buckets: Seq<Seq<Colour>>)
    ensures
        same_colours(all_colours(split_round(buckets)), all_colours(buckets)),
    decreases buckets.len(),
{
    if buckets.len() > 0 {
        let init = buckets.drop_last();
        let last = buckets.last();
        lemma_round_keeps_colours(init);
        lemma_split_once_keeps_colours(last);
        lemma_all_colours_concat(split_round(init), split_once(last));
        lemma_multiset_commutative(all_colours(split_round(init)), all_colours(split_once(last)));
        lemma_multiset_commutative(all_colours(init), last);
    }
}

/// A round never lowers the number of buckets, and at most doubles it.
pub proof fn lemma_round_size(buckets: Seq<Seq<Colour>>)
    ensures
        buckets.len() <= split_round(buckets).len() <= 2 * buckets.len(),
    decreases buckets.len(),
{
    if buckets.len() > 0 {
        lemma_round_size(buckets.drop_last());
    }
}

/// A round on buckets that all hold a colour gives buckets that all hold a
/// colour.
pub proof fn lemma_round_none_empty(buckets: Seq<Seq<Colour>>)
    requires
        none_empty(buckets),
    ensures
        none_empty(split_round(buckets)),
    decreases buckets.len(),
{
    if buckets.len() > 0 {
        let init = buckets.drop_last();
        let last = buckets.last();
        assert forall|i: int| 0 <= i < init.len() implies (#[trigger] init[i]).len() > 0 by {
            assert(init[i] == buckets[i]);
        }
        lemma_round_none_empty(init);
        assert(last == buckets[buckets.len() - 1]);
        lemma_lower_part_holds_some(last);
        let before = split_round(init);
        let after = split_round(buckets);
        assert forall|i: int| 0 <= i < after.len() implies (#[trigger] after[i]).len() > 0 by {
            if i < before.len() {
                assert(after[i] == before[i]);
            } else {
                assert(after[i] == split_once(last)[i - before.len()]);
            }
        }
    }
}

/// A working set whose buckets all hold a colour has at most as many buckets
/// as colours.
pub proof fn lemma_buckets_at_most_colours(buckets: Seq<Seq<Colour>>)
    requires
        none_empty(buckets),
    ensures
        buckets.len() <= all_colours(buckets).len(),
    decreases buckets.len(),
{
    if buckets.len() > 0 {
        let init = buckets.drop_last();
        assert forall|i: int| 0 <= i < init.len() implies (#[trigger] init[i]).len() > 0 by {
            assert(init[i] == buckets[i]);
        }
        lemma_buckets_at_most_colours(init);
        assert(buckets.last() == buckets[buckets.len() - 1]);
    }
}

/// A round does not depend on the order of the colours inside the buckets.
pub proof fn lemma_round_alike(xs: Seq<Seq<Colour>>, ys: Seq<Seq<Colour>>)
    requires
        alike(xs, ys),
    ensures
        alike(split_round(xs), split_round(ys)),
    decreases xs.len(),
{
    if xs.len() > 0 {
        let xi = xs.drop_last();
        let yi = ys.drop_last();
        assert forall|i: int| 0 <= i < xi.len() implies same_colours(#[trigger] xi[i], yi[i]) by {
            assert(xi[i] == xs[i] && yi[i] == ys[i]);
        }
        lemma_round_alike(xi, yi);
        assert(same_colours(xs[xs.len() - 1], ys[xs.len() - 1]));
        lemma_split_permutation(xs.last(), ys.last());
        let xr = split_round(xs);
        let yr = split_round(ys);
        let before = split_round(xi).len();
        assert forall|i: int| 0 <= i < xr.len() implies same_colours(#[trigger] xr[i], yr[i]) by {
            if i < before {
                assert(xr[i] == split_round(xi)[i] && yr[i] == split_round(yi)[i]);
            } else {
                assert(xr[i] == split_once(xs.last())[i - before]);
                assert(yr[i] == split_once(ys.last())[i - before]);
            }
        }
    }
}

/// A round adds no bucket exactly when no bucket can be cut, and it then
/// leaves the working set as it is.
pub proof fn lemma_stuck(buckets: Seq<Seq<Colour>>)
    ensures
        stuck(buckets) <==> forall|i: int|
            0 <= i < buckets.len() ==> !splittable(#[trigger] buckets[i]),
        stuck(buckets) ==> split_round(buckets) == buckets,
    decreases buckets.len(),
{
    if buckets.len() > 0 {
        let init = buckets.drop_last();
        let last = buckets.last();
        lemma_stuck(init);
        lemma_round_size(init);
        assert(last == buckets[buckets.len() - 1]);
        if stuck(buckets) {
            assert(stuck(init) && !splittable(last));
            assert forall|i: int| 0 <= i < buckets.len() implies !splittable(
                #[trigger] buckets[i],
            ) by {
                if i < init.len() {
                    assert(buckets[i] == init[i]);
                }
            }
            assert(split_round(buckets) =~= buckets);
        }
        if forall|i: int| 0 <= i < buckets.len() ==> !splittable(#[trigger] buckets[i]) {
            assert forall|i: int| 0 <= i < init.len() implies !splittable(#[trigger] init[i]) by {
                assert(init[i] == buckets[i]);
            }
        }
    } else {
        assert(split_round(buckets) =~= buckets);
    }
}

/// Completeness of the partition, round after round: after any number of
/// rounds the buckets hold the colours of the first working set, each exactly
/// once.
pub proof fn lemma_rounds_keep_colours(buckets: Seq<Seq<Colour>>, count: nat)
    ensures
        same_colours(all_colours(after_rounds(buckets, count)), all_colours(buckets)),
    decreases count,
{
    if count > 0 {
        lemma_rounds_keep_colours(buckets, (count - 1) as nat);
        lemma_round_keeps_colours(after_rounds(buckets, (count - 1) as nat));
    }
}

/// The number of buckets never goes down from one round to a later one.
pub proof fn lemma_rounds_never_shrink(buckets: Seq<Seq<Colour>>, earlier: nat, later: nat)
    requires
        earlier <= later,
    ensures
        after_rounds(buckets, earlier).len() <= after_rounds(buckets, later).len(),
    decreases later,
{
    if earlier < later {
        lemma_rounds_never_shrink(buckets, earlier, (later - 1) as nat);
        lemma_round_size(after_rounds(buckets, (later - 1) as nat));
    }
}

/// No round ever makes an empty bucket out of buckets that hold a colour.
pub proof fn lemma_rounds_none_empty(buckets: Seq<Seq<Colour>>, count: nat)
    requires
        none_empty(buckets),
    ensures
        none_empty(after_rounds(buckets, count)),
    decreases count,
{
    if count > 0 {
        lemma_rounds_none_empty(buckets, (count - 1) as nat);
        lemma_round_none_empty(after_rounds(buckets, (count - 1) as nat));
    }
}

/// Making one round first and `count` rounds then is making `count + 1`
/// rounds.
pub proof fn lemma_rounds_shift(buckets: Seq<Seq<Colour>>, count: nat)
    ensures
        after_rounds(split_round(buckets), count) == after_rounds(buckets, count + 1),
    decreases count,
{
    if count > 0 {
        lemma_rounds_shift(buckets, (count - 1) as nat);
    } else {
        assert(after_rounds(buckets, 1) == split_round(after_rounds(buckets, 0)));
    }
}

/// The working set that the rounds end with is reached by a whole number of
/// rounds.
pub proof fn lemma_refine_is_rounds(buckets: Seq<Seq<Colour>>, target: nat) -> (count: nat)
    ensures
        refine(buckets, target) == after_rounds(buckets, count),
    decreases
        (if buckets.len() < target {
            target - buckets.len()
        } else {
            0
        }),
{
    if buckets.len() >= target || stuck(buckets) {
        0
    } else {
        lemma_round_size(buckets);
        let rest = lemma_refine_is_rounds(split_round(buckets), target);
        lemma_rounds_shift(buckets, rest);
        rest + 1
    }
}

/// Whatever the number of rounds: the working set that they end with holds
/// the colours of the first one, each exactly once; it has at least as many
/// buckets; its buckets all hold a colour where those of the first did; and
/// it has reached the wanted size unless no bucket can be cut any more.
pub proof fn lemma_refine(buckets: Seq<Seq<Colour>>, target: nat)
    ensures
        same_colours(all_colours(refine(buckets, target)), all_colours(buckets)),
        buckets.len() <= refine(buckets, target).len(),
        none_empty(buckets) ==> none_empty(refine(buckets, target)),
        refine(buckets, target).len() >= target || stuck(refine(buckets, target)),
        buckets.len() < target ==> refine(buckets, target).len() <= 2 * (target - 1),
    decreases
        (if buckets.len() < target {
            target - buckets.len()
        } else {
            0
        }),
{
    if buckets.len() >= target || stuck(buckets) {
    } else {
        lemma_refine(split_round(buckets), target);
        lemma_round_keeps_colours(buckets);
        lemma_round_size(buckets);
        if none_empty(buckets) {
            lemma_round_none_empty(buckets);
        }
    }
}

/// The rounds do not depend on the order of the colours inside the buckets.
pub proof fn lemma_refine_alike(xs: Seq<Seq<Colour>>, ys: Seq<Seq<Colour>>, target: nat)
    requires
        alike(xs, ys),
    ensures
        alike(refine(xs, target), refine(ys, target)),
    decreases
        (if xs.len() < target {
            target - xs.len()
        } else {
            0
        }),
{
    lemma_round_alike(xs, ys);
    if xs.len() >= target || stuck(xs) {
    } else {
        lemma_refine_alike(split_round(xs), split_round(ys), target);
    }
}

} // verus!
