use median_cut::{split_bucket, Colour};

#[test]
fn split_of_four_reds_cuts_after_the_mean() {
    // widest channel red, mean 15: the first value above it is 20, at position 2
    let mut pixels: Vec<Colour> = vec![[30, 0, 0], [0, 0, 0], [20, 0, 0], [10, 0, 0]];
    let cut = split_bucket(&mut pixels, 0, 4);
    assert_eq!(cut, 2);
    assert_eq!(pixels, vec![[0, 0, 0], [10, 0, 0], [20, 0, 0], [30, 0, 0]]);
}

#[test]
fn split_of_equal_colours_gives_the_start() {
    let mut pixels: Vec<Colour> = vec![[5, 5, 5]; 4];
    assert_eq!(split_bucket(&mut pixels, 0, 4), 0);
    assert_eq!(pixels, vec![[5, 5, 5]; 4]);
    assert_eq!(split_bucket(&mut pixels, 1, 3), 1);
    assert_eq!(split_bucket(&mut pixels, 3, 4), 3);
}

#[test]
fn split_goes_along_the_widest_channel() {
    // ranges are [188, 240, 2]: green; its mean is 102
    let mut pixels: Vec<Colour> =
        vec![[12, 40, 7], [200, 90, 7], [90, 10, 9], [13, 250, 8], [14, 120, 7]];
    let cut = split_bucket(&mut pixels, 0, 5);
    assert_eq!(cut, 3);
    assert_eq!(
        pixels,
        vec![[90, 10, 9], [12, 40, 7], [200, 90, 7], [14, 120, 7], [13, 250, 8]]
    );
}

#[test]
fn split_of_an_inner_bucket_leaves_the_others_alone() {
    let mut pixels: Vec<Colour> =
        vec![[250, 0, 0], [9, 9, 40], [9, 9, 10], [9, 9, 30], [9, 9, 20], [0, 250, 0]];
    // the bucket from 1 to 5 varies in blue only: mean 25
    let cut = split_bucket(&mut pixels, 1, 5);
    assert_eq!(cut, 3);
    assert_eq!(
        pixels,
        vec![[250, 0, 0], [9, 9, 10], [9, 9, 20], [9, 9, 30], [9, 9, 40], [0, 250, 0]]
    );
}

#[test]
fn split_with_a_mean_that_rounds_down_to_the_smallest_value() {
    // reds 3, 3, 3, 9: mean 4, the only value above it is the last
    let mut pixels: Vec<Colour> = vec![[3, 0, 0], [9, 0, 0], [3, 0, 0], [3, 0, 0]];
    let cut = split_bucket(&mut pixels, 0, 4);
    assert_eq!(cut, 3);
    assert_eq!(pixels, vec![[3, 0, 0], [3, 0, 0], [3, 0, 0], [9, 0, 0]]);
}

#[test]
fn split_of_two_neighbouring_values() {
    // blues 0 and 1: mean 0, so the cut falls between them
    let mut pixels: Vec<Colour> = vec![[0, 0, 1], [0, 0, 0]];
    assert_eq!(split_bucket(&mut pixels, 0, 2), 1);
    assert_eq!(pixels, vec![[0, 0, 0], [0, 0, 1]]);
}

#[test]
fn split_on_a_tie_of_ranges_prefers_blue() {
    // red and blue both range over 10, green over 0: blue is taken
    let mut pixels: Vec<Colour> = vec![[10, 0, 0], [0, 0, 10], [5, 0, 4]];
    let cut = split_bucket(&mut pixels, 0, 3);
    // blue values 0, 10, 4: mean 4; sorted by blue
    assert_eq!(cut, 2);
    assert_eq!(pixels, vec![[10, 0, 0], [5, 0, 4], [0, 0, 10]]);
}
