use median_cut::{Colour, WorkingSet};

fn gathered(working: &WorkingSet) -> Vec<Colour> {
    let mut all: Vec<Colour> = Vec::new();
    for k in 0..working.len() {
        all.extend_from_slice(working.bucket(k));
    }
    all
}

fn in_order(mut colours: Vec<Colour>) -> Vec<Colour> {
    colours.sort();
    colours
}

fn mixed_image() -> Vec<Colour> {
    let mut image: Vec<Colour> = Vec::new();
    for y in 0..16u32 {
        for x in 0..16u32 {
            image.push([(x * 16) as u8, (y * 16) as u8, ((x * y) % 256) as u8]);
        }
    }
    image
}

#[test]
fn a_new_working_set_is_one_bucket_of_all_pixels() {
    let image: Vec<Colour> = vec![[3, 2, 1], [1, 2, 3], [2, 2, 2]];
    let working = WorkingSet::new(image.clone());
    assert_eq!(working.len(), 1);
    assert_eq!(working.bucket(0), &image[..]);
    assert_eq!(working.means(), vec![[2, 2, 2]]);
}

#[test]
fn a_round_cuts_every_bucket_in_place() {
    let image: Vec<Colour> =
        vec![[1, 1, 1], [50, 60, 70], [2, 2, 2], [90, 10, 20], [1, 1, 1], [50, 60, 70]];
    let mut working = WorkingSet::new(image);
    working.split_all();
    assert_eq!(working.len(), 2);
    assert_eq!(in_order(working.bucket(0).to_vec()), vec![[1, 1, 1], [1, 1, 1], [2, 2, 2]]);
    assert_eq!(
        in_order(working.bucket(1).to_vec()),
        vec![[50, 60, 70], [50, 60, 70], [90, 10, 20]]
    );
    working.split_all();
    assert_eq!(working.len(), 4);
    assert_eq!(working.bucket(0), &[[1, 1, 1], [1, 1, 1]][..]);
    assert_eq!(working.bucket(1), &[[2, 2, 2]][..]);
    assert_eq!(working.bucket(2), &[[90, 10, 20]][..]);
    assert_eq!(working.bucket(3), &[[50, 60, 70], [50, 60, 70]][..]);
    assert_eq!(working.means(), vec![[1, 1, 1], [2, 2, 2], [90, 10, 20], [50, 60, 70]]);
}

#[test]
fn rounds_neither_drop_nor_repeat_a_colour() {
    let image = mixed_image();
    let expected = in_order(image.clone());
    let mut working = WorkingSet::new(image);
    for _ in 0..12 {
        working.split_all();
        assert_eq!(in_order(gathered(&working)), expected);
    }
}

#[test]
fn the_number_of_buckets_never_goes_down() {
    let mut working = WorkingSet::new(mixed_image());
    let mut before = working.len();
    assert_eq!(before, 1);
    for _ in 0..12 {
        working.split_all();
        let after = working.len();
        assert!(after >= before);
        assert!(after <= 2 * before);
        before = after;
    }
}

#[test]
fn no_bucket_is_ever_empty() {
    let mut working = WorkingSet::new(mixed_image());
    for _ in 0..12 {
        working.split_all();
        for k in 0..working.len() {
            assert!(!working.bucket(k).is_empty());
        }
        assert!(working.len() <= 256);
    }
}

#[test]
fn rounds_end_with_one_bucket_for_each_different_colour() {
    let image: Vec<Colour> = vec![[0, 0, 0], [10, 0, 0], [0, 0, 0], [20, 0, 0], [10, 0, 0]];
    let mut working = WorkingSet::new(image);
    for _ in 0..5 {
        working.split_all();
    }
    assert_eq!(working.len(), 3);
    assert_eq!(working.bucket(0), &[[0, 0, 0], [0, 0, 0]][..]);
    assert_eq!(working.bucket(1), &[[10, 0, 0], [10, 0, 0]][..]);
    assert_eq!(working.bucket(2), &[[20, 0, 0]][..]);
    let settled = working.means();
    working.split_all();
    assert_eq!(working.len(), 3);
    assert_eq!(working.means(), settled);
}

#[test]
fn a_bucket_of_equal_colours_is_kept_whole() {
    let mut working = WorkingSet::new(vec![[5, 5, 5]; 4]);
    for _ in 0..3 {
        working.split_all();
        assert_eq!(working.len(), 1);
        assert_eq!(working.bucket(0), &[[5, 5, 5]; 4][..]);
    }
}

#[test]
fn a_round_leaves_each_part_in_ascending_order() {
    // green is the widest channel, its mean is 102
    let image: Vec<Colour> =
        vec![[12, 40, 7], [200, 90, 7], [90, 10, 9], [13, 250, 8], [14, 120, 7]];
    let mut working = WorkingSet::new(image);
    working.split_all();
    assert_eq!(working.len(), 2);
    assert_eq!(working.bucket(0), &[[90, 10, 9], [12, 40, 7], [200, 90, 7]][..]);
    assert_eq!(working.bucket(1), &[[14, 120, 7], [13, 250, 8]][..]);
    assert_eq!(working.means(), vec![[100, 46, 7], [13, 185, 7]]);
}
