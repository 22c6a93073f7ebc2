//! The working set: the pixels, owned in one buffer, and the buckets that
//! divide them, each a stretch of the buffer.

use crate::colour::Colour;
use crate::partition::{
    lemma_split_permutation, lemma_splittable_iff_mixed, lower_part, pivot_channel, split_bucket,
    split_once, splittable, upper_part,
};
use crate::rounds::{
    alike, all_colours, lemma_alike_append, lemma_parts_in_order_push, lemma_round_push,
    lemma_round_size, means_of, none_empty, parts_in_order, split_round,
};
use crate::sorting::{
    ascending, ascending_between, lemma_rearranged_whole, lemma_stretch_ascending,
    rearranged_between,
};
use crate::stats::{colour_mean, get_mean, same_colours};
use vstd::prelude::*;
use vstd::slice::slice_subrange;

verus! {

/// A bucket: the pixels from `start` up to, not including, `end`.
#[derive(Clone, Copy, Debug)]
pub struct Bucket {
    pub start: usize,
    pub end: usize,
    /// Set once the bucket was found to hold a single colour: it is then kept
    /// whole and no round looks at it again.
    pub settled: bool,
}

impl Bucket {
    /// The colours of this bucket, in the order of the buffer.
    pub open spec fn colours(self, pixels: Seq<Colour>) -> Seq<Colour> {
        pixels.subrange(self.start as int, self.end as int)
    }
}

/// The colours of each bucket, bucket after bucket.
pub open spec fn contents(pixels: Seq<Colour>, buckets: Seq<Bucket>) -> Seq<Seq<Colour>> {
    Seq::new(buckets.len(), |i: int| buckets[i].colours(pixels))
}

/// Whether the buckets divide the first `end` pixels among them: each holds
/// a pixel, the first starts at the first pixel, each begins where the one
/// before it ends, and the last ends at `end`.
pub open spec fn tiles(buckets: Seq<Bucket>, end: int) -> bool {
    &&& forall|i: int| 0 <= i < buckets.len() ==> (#[trigger] buckets[i]).start < buckets[i].end
    &&& forall|i: int, j: int|
        #![trigger buckets[i], buckets[j]]
        0 <= i && j == i + 1 && j < buckets.len() ==> buckets[i].end == buckets[j].start
    &&& if buckets.len() == 0 {
        end == 0
    } else {
        buckets[0].start == 0 && buckets[buckets.len() - 1].end == end
    }
}

/// Whether every bucket marked as settled indeed cannot be cut.
pub open spec fn settled_rightly(pixels: Seq<Colour>, buckets: Seq<Bucket>) -> bool {
    forall|i: int|
        0 <= i < buckets.len() && (#[trigger] buckets[i]).settled ==> !splittable(
            buckets[i].colours(pixels),
        )
}

/// No bucket of a tiling reaches beyond its end.
pub proof fn lemma_tiles_within(buckets: Seq<Bucket>, end: int, i: int)
    requires
        tiles(buckets, end),
        0 <= i < buckets.len(),
    ensures
        buckets[i].end <= end,
    decreases buckets.len() - i,
{
    if i < buckets.len() - 1 {
        lemma_tiles_within(buckets, end, i + 1);
        assert(buckets[i].end == buckets[i + 1].start);
    }
}

/// The pixels of an image and the buckets that divide them.
///
/// Seen from outside, a working set is the sequence of its buckets, each the
/// sequence of its colours.
pub struct WorkingSet {
    pixels: Vec<Colour>,
    buckets: Vec<Bucket>,
}

impl View for WorkingSet {
    type V = Seq<Seq<Colour>>;

    closed spec fn view(&self) -> Seq<Seq<Colour>> {
        contents(self.pixels@, self.buckets@)
    }
}

impl WorkingSet {
    /// The invariant of a working set: its buckets divide all its pixels
    /// among them, and those marked as settled cannot be cut.
    pub closed spec fn wf(&self) -> bool {
        &&& tiles(self.buckets@, self.pixels@.len() as int)
        &&& settled_rightly(self.pixels@, self.buckets@)
    }

    /// The pixels that the working set owns, in their present order.
    pub closed spec fn pixels(&self) -> Seq<Colour> {
        self.pixels@
    }

    /// In a working set, every bucket holds a colour, and all the buckets
    /// together hold one colour for each pixel.
    pub proof fn lemma_wf(&self)
        requires
            self.wf(),
        ensures
            none_empty(self@),
            self.pixels().len() > 0 ==> self@.len() > 0,
            all_colours(self@) == self.pixels(),
    {
        let pixels = self.pixels@;
        let buckets = self.buckets@;
        assert forall|i: int| 0 <= i < self@.len() implies (#[trigger] self@[i]).len() > 0 by {
            lemma_tiles_within(buckets, pixels.len() as int, i);
            assert(buckets[i].start < buckets[i].end);
        }
        lemma_contents_in_a_row(pixels, buckets, buckets.len() as int);
        assert(buckets.take(buckets.len() as int) =~= buckets);
        if buckets.len() > 0 {
            assert(pixels.subrange(0, pixels.len() as int) =~= pixels);
        } else {
            assert(pixels =~= Seq::<Colour>::empty());
        }
    }

    /// The working set of a whole image: one bucket that holds every pixel.
    pub fn new(image: Vec<Colour>) -> (working: Self)
        requires
            image@.len() > 0,
        ensures
            working.wf(),
            working@ == seq![image@],
            working.pixels() == image@,
    {
        let whole = Bucket { start: 0, end: image.len(), settled: false };
        let mut buckets: Vec<Bucket> = Vec::new();
        buckets.push(whole);
        let working = WorkingSet { pixels: image, buckets };
        proof {
            assert(image@.subrange(0, image@.len() as int) =~= image@);
            assert(working@ =~= seq![image@]);
        }
        working
    }

    /// The number of buckets.
    pub fn len(&self) -> (count: usize)
        ensures
            count == self@.len(),
    {
        self.buckets.len()
    }

    /// The pixels of the bucket at position `index`, in their present order.
    pub fn bucket(&self, index: usize) -> (colours: &[Colour])
        requires
            self.wf(),
            index < self@.len(),
        ensures
            colours@ == self@[index as int],
    {
        let b: Bucket = self.buckets[index];
        proof {
            lemma_tiles_within(self.buckets@, self.pixels@.len() as int, index as int);
        }
        slice_subrange(self.pixels.as_slice(), b.start, b.end)
    }

    /// One round: every bucket that can be cut is replaced, in place, by its
    /// lower and its upper part; the others are kept whole and marked as
    /// settled. The pixels of a bucket are put in ascending order of the
    /// channel along which it is cut; none moves from one bucket of before
    /// the round to another.
    pub fn split_all(&mut self)
        requires
            old(self).wf(),
        ensures
            final(self).wf(),
            alike(final(self)@, split_round(old(self)@)),
            parts_in_order(old(self)@, final(self)@),
            same_colours(final(self).pixels(), old(self).pixels()),
            old(self)@.len() <= final(self)@.len() <= 2 * old(self)@.len(),
    {
        let count: usize = self.buckets.len();
        let ghost before_pixels = self.pixels@;
        let ghost before = self.buckets@;
        let mut next: Vec<Bucket> = Vec::new();
        let ghost mut done: int = 0;
        let mut i: usize = 0;
        proof {
            assert(before.take(0) =~= Seq::<Bucket>::empty());
            assert(contents(before_pixels, before.take(0)) =~= Seq::<Seq<Colour>>::empty());
            assert(contents(self.pixels@, next@) =~= Seq::<Seq<Colour>>::empty());
        }
        while i < count
            invariant
                i <= count,
                count == before.len(),
                self.buckets@ == before,
                self.pixels@.len() == before_pixels.len(),
                same_colours(self.pixels@, before_pixels),
                tiles(before, before_pixels.len() as int),
                settled_rightly(before_pixels, before),
                tiles(next@, done),
                done == (if i == 0 {
                    0
                } else {
                    before[i - 1].end as int
                }),
                forall|k: int|
                    done <= k < before_pixels.len() ==> self.pixels@[k] == before_pixels[k],
                settled_rightly(self.pixels@, next@),
                alike(
                    contents(self.pixels@, next@),
                    split_round(contents(before_pixels, before.take(i as int))),
                ),
                parts_in_order(
                    contents(before_pixels, before.take(i as int)),
                    contents(self.pixels@, next@),
                ),
            decreases count - i,
        {
            let b: Bucket = self.buckets[i];
            let ghost pixels_then = self.pixels@;
            let ghost next_then = next@;
            let ghost bucket = b.colours(before_pixels);
            proof {
                lemma_tiles_within(before, before_pixels.len() as int, i as int);
                if i > 0 {
                    assert(before[i - 1].end == before[i as int].start);
                }
                assert(b.colours(pixels_then) =~= bucket);
                assert(before.take(i + 1) =~= before.take(i as int).push(b));
                assert(contents(before_pixels, before.take(i + 1)) =~= contents(
                    before_pixels,
                    before.take(i as int),
                ).push(bucket));
                lemma_round_push(contents(before_pixels, before.take(i as int)), bucket);
            }
            if b.settled {
                next.push(b);
                proof {
                    lemma_step_kept(pixels_then, pixels_then, next_then, b, b);
                }
            } else {
                let cut: usize = split_bucket(&mut self.pixels, b.start, b.end);
                proof {
                    lemma_rearranged_whole(pixels_then, self.pixels@, b.start as int, b.end as int);
                    let sorted = b.colours(self.pixels@);
                    assert(sorted.subrange(0, cut - b.start) =~= self.pixels@.subrange(
                        b.start as int,
                        cut as int,
                    ));
                    assert(sorted.subrange(cut - b.start, sorted.len() as int)
                        =~= self.pixels@.subrange(cut as int, b.end as int));
                }
                if cut == b.start {
                    let whole = Bucket { start: b.start, end: b.end, settled: true };
                    next.push(whole);
                    proof {
                        lemma_step_kept(pixels_then, self.pixels@, next_then, b, whole);
                    }
                } else {
                    let low = Bucket { start: b.start, end: cut, settled: false };
                    let high = Bucket { start: cut, end: b.end, settled: false };
                    next.push(low);
                    next.push(high);
                    proof {
                        lemma_step_cut(pixels_then, self.pixels@, next_then, b, cut as int);
                        assert(next@ =~= next_then.push(low).push(high));
                    }
                }
            }
            proof {
                lemma_alike_append(
                    contents(pixels_then, next_then),
                    split_round(contents(before_pixels, before.take(i as int))),
                    contents(self.pixels@, next@).subrange(
                        next_then.len() as int,
                        next@.len() as int,
                    ),
                    split_once(bucket),
                );
                assert(contents(self.pixels@, next@) =~= contents(pixels_then, next_then)
                    + contents(self.pixels@, next@).subrange(
                    next_then.len() as int,
                    next@.len() as int,
                ));
                lemma_parts_in_order_push(
                    contents(before_pixels, before.take(i as int)),
                    contents(pixels_then, next_then),
                    bucket,
                    contents(self.pixels@, next@).subrange(
                        next_then.len() as int,
                        next@.len() as int,
                    ),
                );
                done = b.end as int;
            }
            i = i + 1;
        }
        proof {
            assert(before.take(count as int) =~= before);
            if count > 0 {
                assert(done == before_pixels.len());
            }
            lemma_round_size(contents(before_pixels, before));
        }
        self.buckets = next;
    }

    /// The mean colour of each bucket, bucket after bucket.
    pub fn means(&self) -> (palette: Vec<Colour>)
        requires
            self.wf(),
        ensures
            palette@ == means_of(self@),
    {
        let count: usize = self.buckets.len();
        let mut palette: Vec<Colour> = Vec::with_capacity(count);
        let mut i: usize = 0;
        while i < count
            invariant
                i <= count,
                count == self.buckets@.len(),
                self.wf(),
                palette@.len() == i,
                forall|k: int| 0 <= k < i ==> palette@[k] == colour_mean(#[trigger] self@[k]),
            decreases count - i,
        {
            let b: Bucket = self.buckets[i];
            proof {
                lemma_tiles_within(self.buckets@, self.pixels@.len() as int, i as int);
            }
            let mean: Colour = get_mean(slice_subrange(self.pixels.as_slice(), b.start, b.end));
            palette.push(mean);
            i = i + 1;
        }
        proof {
            assert(palette@ =~= means_of(self@));
        }
        palette
    }
}

/// The colours of the first `count` buckets of a tiling, in a row, are the
/// pixels up to the end of the last of them.
proof fn lemma_contents_in_a_row(pixels: Seq<Colour>, buckets: Seq<Bucket>, count: int)
    requires
        tiles(buckets, pixels.len() as int),
        0 <= count <= buckets.len(),
    ensures
        all_colours(contents(pixels, buckets.take(count))) == pixels.subrange(
            0,
            if count == 0 {
                0
            } else {
                buckets[count - 1].end as int
            },
        ),
    decreases count,
{
    let row = contents(pixels, buckets.take(count));
    if count == 0 {
        assert(row =~= Seq::<Seq<Colour>>::empty());
        assert(all_colours(row) =~= pixels.subrange(0, 0));
    } else {
        lemma_contents_in_a_row(pixels, buckets, count - 1);
        lemma_tiles_within(buckets, pixels.len() as int, count - 1);
        let b = buckets[count - 1];
        assert(row.drop_last() =~= contents(pixels, buckets.take(count - 1)));
        assert(row.last() == b.colours(pixels));
        if count > 1 {
            assert(buckets[count - 2].end == buckets[count - 1].start);
        }
        assert(pixels.subrange(0, b.start as int) + b.colours(pixels) =~= pixels.subrange(
            0,
            b.end as int,
        ));
    }
}

/// One step of a round on a bucket that is kept whole: the new bucket `kept`
/// covers the stretch of `b`, whose pixels were at most rearranged.
proof fn lemma_step_kept(
    then: Seq<Colour>,
    now: Seq<Colour>,
    next: Seq<Bucket>,
    b: Bucket,
    kept: Bucket,
)
    requires
        b.start < b.end <= then.len(),
        rearranged_between(then, now, b.start as int, b.end as int),
        tiles(next, b.start as int),
        settled_rightly(then, next),
        !splittable(b.colours(then)),
        kept.start == b.start,
        kept.end == b.end,
    ensures
        tiles(next.push(kept), b.end as int),
        settled_rightly(now, next.push(kept)),
        contents(now, next.push(kept)) == contents(then, next).push(kept.colours(now)),
        alike(seq![kept.colours(now)], split_once(b.colours(then))),
        ascending(kept.colours(now), pivot_channel(b.colours(then))),
{
    let after = next.push(kept);
    lemma_untouched(then, now, next, b);
    lemma_split_permutation(kept.colours(now), b.colours(then));
    lemma_splittable_iff_mixed(kept.colours(now));
    assert(tiles(after, b.end as int)) by {
        if next.len() > 0 {
            assert(after[0] == next[0]);
            assert(after[next.len() - 1] == next[next.len() - 1]);
        }
        assert forall|i: int, j: int|
            #![trigger after[i], after[j]]
            0 <= i && j == i + 1 && j < after.len() implies after[i].end == after[j].start by {
            if j < next.len() {
                assert(after[i] == next[i] && after[j] == next[j]);
            } else {
                assert(after[i] == next[next.len() - 1]);
            }
        }
    }
    assert(contents(now, after) =~= contents(then, next).push(kept.colours(now)));
    assert forall|i: int| 0 <= i < after.len() && (#[trigger] after[i]).settled implies !splittable(
        after[i].colours(now),
    ) by {
        if i < next.len() {
            assert(after[i] == next[i]);
            assert(next[i].colours(now) == next[i].colours(then));
        }
    }
}

/// One step of a round on a bucket that is cut at `cut`: two new buckets
/// cover the stretch of `b`, whose pixels were sorted into a lower and an
/// upper part.
proof fn lemma_step_cut(then: Seq<Colour>, now: Seq<Colour>, next: Seq<Bucket>, b: Bucket, cut: int)
    requires
        b.start < cut < b.end <= then.len(),
        rearranged_between(then, now, b.start as int, b.end as int),
        tiles(next, b.start as int),
        settled_rightly(then, next),
        splittable(b.colours(then)),
        same_colours(now.subrange(b.start as int, cut), lower_part(b.colours(then))),
        same_colours(now.subrange(cut, b.end as int), upper_part(b.colours(then))),
        ascending_between(now, pivot_channel(b.colours(then)), b.start as int, b.end as int),
    ensures
        ({
            let low = Bucket { start: b.start, end: cut as usize, settled: false };
            let high = Bucket { start: cut as usize, end: b.end, settled: false };
            let after = next.push(low).push(high);
            &&& tiles(after, b.end as int)
            &&& settled_rightly(now, after)
            &&& contents(now, after) == contents(then, next) + seq![
                low.colours(now),
                high.colours(now),
            ]
            &&& alike(seq![low.colours(now), high.colours(now)], split_once(b.colours(then)))
            &&& ascending(low.colours(now), pivot_channel(b.colours(then)))
            &&& ascending(high.colours(now), pivot_channel(b.colours(then)))
        }),
{
    let low = Bucket { start: b.start, end: cut as usize, settled: false };
    let high = Bucket { start: cut as usize, end: b.end, settled: false };
    let after = next.push(low).push(high);
    lemma_untouched(then, now, next, b);
    let ch = pivot_channel(b.colours(then));
    lemma_stretch_ascending(now, ch, b.start as int, b.end as int, b.start as int, cut);
    lemma_stretch_ascending(now, ch, b.start as int, b.end as int, cut, b.end as int);
    assert(tiles(after, b.end as int)) by {
        if next.len() > 0 {
            assert(after[0] == next[0]);
        }
        assert forall|i: int, j: int|
            #![trigger after[i], after[j]]
            0 <= i && j == i + 1 && j < after.len() implies after[i].end == after[j].start by {
            if j < next.len() {
                assert(after[i] == next[i] && after[j] == next[j]);
            } else if j == next.len() {
                assert(after[i] == next[next.len() - 1]);
            }
        }
    }
    assert(contents(now, after) =~= contents(then, next) + seq![
        low.colours(now),
        high.colours(now),
    ]);
    assert forall|i: int| 0 <= i < after.len() && (#[trigger] after[i]).settled implies !splittable(
        after[i].colours(now),
    ) by {
        if i < next.len() {
            assert(after[i] == next[i]);
            assert(next[i].colours(now) == next[i].colours(then));
        }
    }
}

/// Rearranging the stretch of `b` leaves the buckets before it as they were.
proof fn lemma_untouched(then: Seq<Colour>, now: Seq<Colour>, next: Seq<Bucket>, b: Bucket)
    requires
        b.start <= b.end <= then.len(),
        rearranged_between(then, now, b.start as int, b.end as int),
        tiles(next, b.start as int),
    ensures
        forall|i: int|
            0 <= i < next.len() ==> (#[trigger] next[i]).colours(now) == next[i].colours(then),
{
    assert forall|i: int| 0 <= i < next.len() implies (#[trigger] next[i]).colours(now)
        == next[i].colours(then) by {
        lemma_tiles_within(next, b.start as int, i);
        assert(next[i].colours(now) =~= next[i].colours(then));
    }
}

} // verus!
