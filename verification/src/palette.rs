//! The palette builder: rounds of cutting until the working set has the
//! wanted number of buckets, then one mean colour for each bucket.

use crate::colour::Colour;
use crate::partition::{lemma_splittable_iff_mixed, splittable};
use crate::rounds::{
    alike, all_colours, lemma_all_colours_of_one, lemma_buckets_at_most_colours,
    lemma_means_alike, lemma_refine, lemma_refine_alike, lemma_round_alike,
    lemma_round_keeps_colours, lemma_round_none_empty, lemma_round_size, lemma_stuck, means_of,
    none_empty, refine, split_round, stuck,
};
use crate::stats::{colour_mean, lemma_mean_of_uniform, same_colours, uniform};
use crate::working_set::WorkingSet;
use vstd::prelude::*;
use vstd::seq_lib::to_multiset_len;

verus! {

/// The palette of `image` for a wanted size of `target`: the mean colour of
/// each bucket that the rounds end with, started from the whole image as one
/// bucket.
///
/// A round cuts every bucket that can be cut, so the palette may hold more
/// colours than `target`, though fewer than twice as many; it holds fewer
/// where the buckets can no longer be cut. A `target` of 0 or 1 gives the
/// mean of the whole image.
pub open spec fn palette_of(image: Seq<Colour>, target: nat) -> Seq<Colour> {
    means_of(refine(seq![image], target))
}

/// For a wanted size of 0 or 1 the palette is the mean of the whole image.
pub proof fn lemma_palette_of_one(image: Seq<Colour>, target: nat)
    requires
        target <= 1,
    ensures
        palette_of(image, target) == seq![colour_mean(image)],
{
    assert(palette_of(image, target) =~= seq![colour_mean(image)]);
}

/// The palette of an image of equal colours holds that colour and nothing
/// else, whatever size is wanted.
pub proof fn lemma_palette_of_uniform(image: Seq<Colour>, target: nat)
    requires
        image.len() > 0,
        uniform(image),
    ensures
        palette_of(image, target) == seq![image[0]],
{
    let whole = seq![image];
    lemma_splittable_iff_mixed(image);
    assert forall|i: int| 0 <= i < whole.len() implies !splittable(#[trigger] whole[i]) by {}
    lemma_stuck(whole);
    lemma_mean_of_uniform(image);
    assert(palette_of(image, target) =~= seq![image[0]]);
}

/// The palette of an image does not depend on the order of its pixels.
pub proof fn lemma_palette_ignores_order(image: Seq<Colour>, other: Seq<Colour>, target: nat)
    requires
        same_colours(image, other),
    ensures
        palette_of(image, target) == palette_of(other, target),
{
    assert(alike(seq![image], seq![other]));
    lemma_refine_alike(seq![image], seq![other], target);
    lemma_means_alike(refine(seq![image], target), refine(seq![other], target));
}

/// The buckets that the rounds end with hold the colours of the image, each
/// exactly once, and none of them is empty.
pub proof fn lemma_palette_partition(image: Seq<Colour>, target: nat)
    requires
        image.len() > 0,
    ensures
        same_colours(all_colours(refine(seq![image], target)), image),
        none_empty(refine(seq![image], target)),
{
    lemma_all_colours_of_one(image);
    lemma_refine(seq![image], target);
}

/// The palette of an image holds at least one colour and at most one for
/// each pixel; where more than one is wanted, it holds fewer than twice as
/// many as wanted; and it holds as many as wanted unless no bucket can be
/// cut any more.
pub proof fn lemma_palette_size(image: Seq<Colour>, target: nat)
    requires
        image.len() > 0,
    ensures
        1 <= palette_of(image, target).len() <= image.len(),
        target >= 2 ==> palette_of(image, target).len() <= 2 * (target - 1),
        palette_of(image, target).len() >= target || stuck(refine(seq![image], target)),
{
    let last = refine(seq![image], target);
    lemma_palette_partition(image, target);
    lemma_refine(seq![image], target);
    lemma_buckets_at_most_colours(last);
    to_multiset_len(all_colours(last));
    to_multiset_len(image);
}

/// Reduces an image to a palette of about `num_colours` colours.
///
/// The pixels start as one bucket. While there are fewer buckets than
/// colours wanted, a round cuts every bucket along its widest channel, near
/// the mean; a bucket of equal colours is kept whole. The palette holds the
/// mean colour of each bucket, in the order of the buckets.
pub fn generate_palette(image: Vec<Colour>, num_colours: u8) -> (palette: Vec<Colour>)
    requires
        image@.len() > 0,
    ensures
        palette@ == palette_of(image@, num_colours as nat),
        1 <= palette@.len() <= image@.len(),
        num_colours <= 1 ==> palette@ == seq![colour_mean(image@)],
        uniform(image@) ==> palette@ == seq![image@[0]],
{
    let ghost start = image@;
    let target: usize = num_colours as usize;
    let mut working = WorkingSet::new(image);
    let ghost mut model: Seq<Seq<Colour>> = seq![start];
    let mut growing: bool = true;
    proof {
        lemma_all_colours_of_one(start);
    }
    while growing && working.len() < target
        invariant
            working.wf(),
            alike(working@, model),
            refine(model, target as nat) == refine(seq![start], target as nat),
            !growing ==> stuck(model),
            none_empty(model),
            same_colours(all_colours(model), start),
            model.len() <= start.len(),
        decreases (start.len() - model.len()) + (if growing {
            1int
        } else {
            0int
        }),
    {
        let before: usize = working.len();
        let ghost contents_before = working@;
        working.split_all();
        growing = working.len() > before;
        proof {
            lemma_round_alike(contents_before, model);
            lemma_round_size(model);
            lemma_stuck(model);
            if growing {
                lemma_round_keeps_colours(model);
                lemma_round_none_empty(model);
                model = split_round(model);
                lemma_buckets_at_most_colours(model);
                to_multiset_len(all_colours(model));
                to_multiset_len(start);
            }
        }
    }
    proof {
        lemma_means_alike(working@, model);
        lemma_palette_size(start, target as nat);
        if target <= 1 {
            lemma_palette_of_one(start, target as nat);
        }
        if uniform(start) {
            lemma_palette_of_uniform(start, target as nat);
        }
    }
    working.means()
}

} // verus!
