use median_cut::{generate_palette, get_mean, Colour, ColourTrait};

fn gradient_image() -> Vec<Colour> {
    let mut image = Vec::new();
    for y in 0..64u32 {
        for x in 0..64u32 {
            let r = ((x * 4) % 256) as u8;
            let g = ((y * 4) % 256) as u8;
            let b = (((x + y) * 2) % 256) as u8;
            image.push(Colour::new(r, g, b));
        }
    }
    image
}

#[test]
fn test_image() {
    let image = gradient_image();
    let palette = generate_palette(image, 16);

    for color in &palette {
        println!("{:?}", color);
    }
    let expected: Vec<Colour> = vec![
        [26, 42, 34],
        [80, 42, 61],
        [134, 42, 88],
        [193, 29, 111],
        [34, 114, 74],
        [106, 110, 108],
        [45, 160, 103],
        [22, 206, 114],
        [228, 52, 140],
        [205, 97, 151],
        [145, 145, 145],
        [218, 142, 180],
        [59, 224, 142],
        [118, 212, 165],
        [174, 212, 193],
        [228, 212, 220],
    ];
    assert_eq!(palette, expected);
}

#[test]
fn one_colour_wanted_gives_the_mean_of_the_image() {
    let image: Vec<Colour> = vec![[1, 2, 3], [4, 5, 6], [7, 9, 11]];
    assert_eq!(generate_palette(image, 1), vec![[4, 5, 6]]);
    let image = gradient_image();
    let mean = get_mean(&image);
    assert_eq!(generate_palette(image, 1), vec![mean]);
}

#[test]
fn no_colour_wanted_gives_the_mean_of_the_image() {
    let image: Vec<Colour> = vec![[1, 2, 3], [4, 5, 6], [7, 9, 11]];
    assert_eq!(generate_palette(image, 0), vec![[4, 5, 6]]);
    let image: Vec<Colour> =
        vec![[1, 1, 1], [1, 1, 1], [2, 2, 2], [50, 60, 70], [50, 60, 70], [90, 10, 20]];
    assert_eq!(generate_palette(image, 0), vec![[32, 22, 27]]);
}

#[test]
fn equal_colours_give_that_colour_whatever_is_wanted() {
    for target in 0..=255u8 {
        let palette = generate_palette(vec![[7, 200, 31]; 9], target);
        assert!(!palette.is_empty());
        for colour in &palette {
            assert_eq!(*colour, [7, 200, 31]);
        }
        assert_eq!(palette, vec![[7, 200, 31]]);
    }
}

#[test]
fn a_single_pixel_is_its_own_palette() {
    for target in [0u8, 1, 2, 16, 255] {
        assert_eq!(generate_palette(vec![[9, 8, 7]], target), vec![[9, 8, 7]]);
    }
}

#[test]
fn four_reds_and_two_colours_wanted() {
    // widest channel red (range 30), mean 15: the cut falls before 20
    let image: Vec<Colour> = vec![[0, 0, 0], [10, 0, 0], [20, 0, 0], [30, 0, 0]];
    assert_eq!(generate_palette(image, 2), vec![[5, 0, 0], [25, 0, 0]]);
}

#[test]
fn four_equal_colours_and_four_wanted() {
    let image: Vec<Colour> = vec![[5, 5, 5]; 4];
    assert_eq!(generate_palette(image, 4), vec![[5, 5, 5]]);
}

#[test]
fn more_colours_wanted_than_pixels() {
    let image: Vec<Colour> = vec![[0, 0, 0], [10, 0, 0], [20, 0, 0]];
    let palette = generate_palette(image, 200);
    assert!(palette.len() <= 3);
    assert_eq!(palette, vec![[0, 0, 0], [10, 0, 0], [20, 0, 0]]);
    let image: Vec<Colour> = vec![[0, 0, 0], [255, 255, 255]];
    assert_eq!(generate_palette(image, 2), vec![[0, 0, 0], [255, 255, 255]]);
    let image: Vec<Colour> = vec![[3, 0, 0], [3, 0, 0], [3, 0, 0], [9, 0, 0]];
    assert_eq!(generate_palette(image, 4), vec![[3, 0, 0], [9, 0, 0]]);
}

#[test]
fn palette_is_never_longer_than_the_image() {
    for target in 0..=255u8 {
        let image: Vec<Colour> =
            vec![[1, 1, 1], [1, 1, 1], [2, 2, 2], [50, 60, 70], [50, 60, 70], [90, 10, 20]];
        let palette = generate_palette(image, target);
        assert!(!palette.is_empty());
        assert!(palette.len() <= 6);
    }
}

#[test]
fn rounds_overshoot_to_the_next_doubling() {
    let mut image: Vec<Colour> = Vec::new();
    for k in 0..16u8 {
        image.push([k * 10, 0, 0]);
    }
    let palette = generate_palette(image.clone(), 10);
    assert_eq!(palette.len(), 16);
    assert_eq!(palette, image);
    assert_eq!(generate_palette(image.clone(), 8).len(), 8);
    assert_eq!(generate_palette(image.clone(), 9).len(), 16);
    assert_eq!(generate_palette(image.clone(), 3).len(), 4);
    assert_eq!(
        generate_palette(image, 3),
        vec![[15, 0, 0], [55, 0, 0], [95, 0, 0], [135, 0, 0]]
    );
}

#[test]
fn palette_follows_the_order_of_the_buckets() {
    let image: Vec<Colour> =
        vec![[1, 1, 1], [1, 1, 1], [2, 2, 2], [50, 60, 70], [50, 60, 70], [90, 10, 20]];
    assert_eq!(generate_palette(image.clone(), 2), vec![[1, 1, 1], [63, 43, 53]]);
    assert_eq!(
        generate_palette(image.clone(), 3),
        vec![[1, 1, 1], [2, 2, 2], [90, 10, 20], [50, 60, 70]]
    );
    assert_eq!(
        generate_palette(image, 255),
        vec![[1, 1, 1], [2, 2, 2], [90, 10, 20], [50, 60, 70]]
    );
}

#[test]
fn eight_corner_colours() {
    let image: Vec<Colour> = vec![
        [200, 10, 10],
        [10, 200, 10],
        [10, 10, 200],
        [200, 200, 10],
        [10, 200, 200],
        [200, 10, 200],
        [0, 0, 0],
        [255, 255, 255],
    ];
    assert_eq!(generate_palette(image.clone(), 1), vec![[110, 110, 110]]);
    assert_eq!(generate_palette(image.clone(), 2), vec![[102, 102, 7], [118, 118, 213]]);
    assert_eq!(
        generate_palette(image.clone(), 3),
        vec![[100, 5, 5], [105, 200, 10], [105, 10, 200], [132, 227, 227]]
    );
    assert_eq!(
        generate_palette(image, 5),
        vec![
            [0, 0, 0],
            [200, 10, 10],
            [10, 200, 10],
            [200, 200, 10],
            [10, 10, 200],
            [200, 10, 200],
            [10, 200, 200],
            [255, 255, 255],
        ]
    );
}

#[test]
fn palette_does_not_depend_on_the_order_of_the_pixels() {
    let image = gradient_image();
    let mut turned = image.clone();
    turned.reverse();
    for target in [2u8, 5, 16, 40] {
        let straight = generate_palette(image.clone(), target);
        assert_eq!(straight, generate_palette(turned.clone(), target));
    }
}

fn plain_mean(bucket: &[Colour]) -> Colour {
    let mut sums = [0u64; 3];
    for c in bucket {
        for k in 0..3 {
            sums[k] += c[k] as u64;
        }
    }
    let n = bucket.len() as u64;
    [(sums[0] / n) as u8, (sums[1] / n) as u8, (sums[2] / n) as u8]
}

fn plain_cut(bucket: &[Colour]) -> Vec<Vec<Colour>> {
    let mut spread = [0u8; 3];
    for k in 0..3 {
        let low = bucket.iter().map(|c| c[k]).min().unwrap();
        let high = bucket.iter().map(|c| c[k]).max().unwrap();
        spread[k] = high - low;
    }
    let channel = if spread[0] > spread[1] && spread[0] > spread[2] {
        0
    } else if spread[1] > spread[2] {
        1
    } else {
        2
    };
    let pivot = plain_mean(bucket)[channel];
    let lower: Vec<Colour> = bucket.iter().copied().filter(|c| c[channel] <= pivot).collect();
    let upper: Vec<Colour> = bucket.iter().copied().filter(|c| c[channel] > pivot).collect();
    if upper.is_empty() {
        vec![bucket.to_vec()]
    } else {
        vec![lower, upper]
    }
}

fn plain_palette(image: &[Colour], target: usize) -> Vec<Colour> {
    let mut buckets: Vec<Vec<Colour>> = vec![image.to_vec()];
    while buckets.len() < target {
        let mut next: Vec<Vec<Colour>> = Vec::new();
        for bucket in &buckets {
            next.extend(plain_cut(bucket));
        }
        if next.len() == buckets.len() {
            break;
        }
        buckets = next;
    }
    buckets.iter().map(|bucket| plain_mean(bucket)).collect()
}

#[test]
fn palette_matches_a_direct_computation() {
    let mut seed: u32 = 2024;
    let mut draw = move |limit: u32| -> u32 {
        seed = seed.wrapping_mul(1_664_525).wrapping_add(1_013_904_223);
        (seed >> 8) % limit
    };
    for round in 0..300 {
        let size = 1 + draw(60) as usize;
        // few different values in some images, so that equal colours and ties occur
        let width = if round % 3 == 0 { 4 } else { 256 };
        let mut image: Vec<Colour> = Vec::new();
        for _ in 0..size {
            image.push([draw(width) as u8, draw(width) as u8, draw(width) as u8]);
        }
        let target = draw(40) as u8;
        let palette = generate_palette(image.clone(), target);
        assert_eq!(palette, plain_palette(&image, target as usize));
        assert!(!palette.is_empty() && palette.len() <= image.len());
        if target >= 2 {
            assert!(palette.len() <= 2 * (target as usize - 1));
        }
    }
}
