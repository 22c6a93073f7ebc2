use median_cut::{get_channel_mean, get_channel_ranges, get_mean, Channel, Colour};

#[test]
fn channel_ranges_are_taken_channel_by_channel() {
    let pixels: Vec<Colour> = vec![[10, 200, 30], [40, 100, 35], [20, 150, 0]];
    assert_eq!(get_channel_ranges(&pixels), [30, 100, 35]);
}

#[test]
fn channel_ranges_of_one_pixel_are_zero() {
    let pixels: Vec<Colour> = vec![[12, 34, 56]];
    assert_eq!(get_channel_ranges(&pixels), [0, 0, 0]);
}

#[test]
fn channel_ranges_reach_the_full_width() {
    let pixels: Vec<Colour> = vec![[0, 255, 7], [255, 0, 7], [100, 100, 7]];
    assert_eq!(get_channel_ranges(&pixels), [255, 255, 0]);
}

#[test]
fn channel_ranges_see_extremes_anywhere_in_the_bucket() {
    // the smallest and the largest values are neither first nor last
    let pixels: Vec<Colour> = vec![[50, 50, 50], [1, 90, 50], [99, 2, 50], [50, 50, 50]];
    assert_eq!(get_channel_ranges(&pixels), [98, 88, 0]);
}

#[test]
fn channel_mean_rounds_down() {
    let pixels: Vec<Colour> = vec![[1, 0, 0], [2, 0, 0]];
    assert_eq!(get_channel_mean(&pixels, &Channel::Red), 1);
    let pixels: Vec<Colour> = vec![[0, 0, 0], [10, 0, 0], [20, 0, 0], [30, 0, 0]];
    assert_eq!(get_channel_mean(&pixels, &Channel::Red), 15);
    assert_eq!(get_channel_mean(&pixels, &Channel::Green), 0);
    let pixels: Vec<Colour> = vec![[0, 0, 255], [0, 0, 255], [0, 0, 254]];
    assert_eq!(get_channel_mean(&pixels, &Channel::Blue), 254);
}

#[test]
fn channel_mean_reads_only_its_channel() {
    let pixels: Vec<Colour> =
        vec![[12, 40, 7], [200, 90, 7], [90, 10, 9], [13, 250, 8], [14, 120, 7]];
    assert_eq!(get_channel_mean(&pixels, &Channel::Red), 65);
    assert_eq!(get_channel_mean(&pixels, &Channel::Green), 102);
    assert_eq!(get_channel_mean(&pixels, &Channel::Blue), 7);
}

#[test]
fn channel_mean_of_many_bright_pixels_does_not_wrap() {
    let pixels: Vec<Colour> = vec![[255, 255, 255]; 70_000];
    assert_eq!(get_channel_mean(&pixels, &Channel::Red), 255);
    assert_eq!(get_channel_mean(&pixels, &Channel::Green), 255);
    assert_eq!(get_mean(&pixels), [255, 255, 255]);
}

#[test]
fn mean_is_taken_channel_by_channel_and_rounded_down() {
    let pixels: Vec<Colour> = vec![[1, 2, 3], [4, 5, 6], [7, 9, 11]];
    assert_eq!(get_mean(&pixels), [4, 5, 6]);
}

#[test]
fn mean_of_one_colour_is_that_colour() {
    let samples: Vec<Colour> = vec![[9, 8, 7], [0, 0, 0], [255, 255, 255], [1, 254, 128]];
    for c in samples {
        assert_eq!(get_mean(&[c]), c);
    }
}

#[test]
fn mean_of_equal_colours_is_that_colour() {
    let pixels: Vec<Colour> = vec![[5, 5, 5]; 4];
    assert_eq!(get_mean(&pixels), [5, 5, 5]);
    let pixels: Vec<Colour> = vec![[7, 200, 31]; 13];
    assert_eq!(get_mean(&pixels), [7, 200, 31]);
}

#[test]
fn mean_agrees_with_channel_mean() {
    let pixels: Vec<Colour> =
        vec![[12, 40, 7], [200, 90, 7], [90, 10, 9], [13, 250, 8], [14, 120, 7]];
    let mean = get_mean(&pixels);
    assert_eq!(mean[0], get_channel_mean(&pixels, &Channel::Red));
    assert_eq!(mean[1], get_channel_mean(&pixels, &Channel::Green));
    assert_eq!(mean[2], get_channel_mean(&pixels, &Channel::Blue));
    assert_eq!(mean, [65, 102, 7]);
}

#[test]
fn statistics_do_not_depend_on_the_order() {
    let pixels: Vec<Colour> =
        vec![[12, 40, 7], [200, 90, 7], [90, 10, 9], [13, 250, 8], [14, 120, 7]];
    let mut turned = pixels.clone();
    turned.reverse();
    assert_eq!(get_mean(&pixels), get_mean(&turned));
    assert_eq!(get_channel_ranges(&pixels), get_channel_ranges(&turned));
    assert_eq!(get_channel_ranges(&pixels), [188, 240, 2]);
}
