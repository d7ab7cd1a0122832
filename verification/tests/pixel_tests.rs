use mmcompare::pixels::{compute_y_histogram, luma_bucket_exec, region_sums, rotate_rgba_90_cw};

fn f32_bucket(r: u8, g: u8, b: u8) -> usize {
    let y = 0.299f32 * r as f32 + 0.587f32 * g as f32 + 0.114f32 * b as f32;
    (y as usize).min(255)
}

#[test]
fn luma_bucket_matches_f32_for_every_colour() {
    for r in 0..=255u8 {
        for g in 0..=255u8 {
            for b in 0..=255u8 {
                assert_eq!(luma_bucket_exec(r, g, b), f32_bucket(r, g, b), "colour {r} {g} {b}");
            }
        }
    }
}

#[test]
fn luma_bucket_known_values() {
    assert_eq!(luma_bucket_exec(0, 0, 0), 0);
    assert_eq!(luma_bucket_exec(255, 255, 255), 255);
    assert_eq!(luma_bucket_exec(255, 0, 0), 76);
    assert_eq!(luma_bucket_exec(0, 255, 0), 149);
    assert_eq!(luma_bucket_exec(0, 0, 255), 29);
}

#[test]
fn rotation_turns_clockwise() {
    // 2 wide, 1 high: pixels A B  ->  1 wide, 2 high: A over B
    let rgba = vec![1, 2, 3, 4, 5, 6, 7, 8];
    let (out, size) = rotate_rgba_90_cw(&rgba, 2, 1);
    assert_eq!(size, [1, 2]);
    assert_eq!(out, vec![1, 2, 3, 4, 5, 6, 7, 8]);
    // 2x2: A B / C D -> C A / D B
    let rgba: Vec<u8> = (0..16).collect();
    let (out, size) = rotate_rgba_90_cw(&rgba, 2, 2);
    assert_eq!(size, [2, 2]);
    assert_eq!(out, vec![8, 9, 10, 11, 0, 1, 2, 3, 12, 13, 14, 15, 4, 5, 6, 7]);
}

#[test]
fn four_rotations_give_back_the_image() {
    let rgba: Vec<u8> = (0..(3 * 2 * 4)).map(|v| v as u8).collect();
    let (a, s) = rotate_rgba_90_cw(&rgba, 3, 2);
    let (b, s) = rotate_rgba_90_cw(&a, s[0], s[1]);
    let (c, s) = rotate_rgba_90_cw(&b, s[0], s[1]);
    let (d, s) = rotate_rgba_90_cw(&c, s[0], s[1]);
    assert_eq!(s, [3, 2]);
    assert_eq!(d, rgba);
}

#[test]
fn histogram_counts_each_pixel_once() {
    let rgba = vec![0, 0, 0, 255, 255, 255, 255, 255, 255, 0, 0, 255, 0, 0, 0, 0];
    let hist = compute_y_histogram(&rgba);
    assert_eq!(hist[0], 2);
    assert_eq!(hist[255], 1);
    assert_eq!(hist[76], 1);
    assert_eq!(hist.iter().sum::<u32>(), 4);
    assert_eq!(compute_y_histogram(&[]).iter().sum::<u32>(), 0);
}

#[test]
fn histogram_reads_a_trailing_partial_pixel() {
    let hist = compute_y_histogram(&[255, 255, 255]);
    assert_eq!(hist[255], 1);
}

#[test]
fn region_sums_adds_channels_inside_the_rectangle() {
    // 3x2 image; pixel (x, y) has r = 10x + y, g = 1, b = 100, a = 7
    let mut rgba = Vec::new();
    for y in 0..2u8 {
        for x in 0..3u8 {
            rgba.extend_from_slice(&[10 * x + y, 1, 100, 7]);
        }
    }
    // columns 1..=2, rows 0..=1: r = 10+20+11+21
    assert_eq!(region_sums(&rgba, 3, 1, 0, 2, 1), (62, 4, 400, 4));
    // a single pixel
    assert_eq!(region_sums(&rgba, 3, 0, 1, 0, 1), (1, 1, 100, 1));
    // the whole image
    assert_eq!(region_sums(&rgba, 3, 0, 0, 2, 1), (63, 6, 600, 6));
}

#[test]
fn rotation_keeps_the_histogram() {
    let (w, h) = (5usize, 3usize);
    let rgba: Vec<u8> = (0..w * h * 4).map(|i| (i * 37 % 256) as u8).collect();
    let (turned, size) = rotate_rgba_90_cw(&rgba, w, h);
    assert_eq!(size, [h, w]);
    assert_eq!(compute_y_histogram(&turned), compute_y_histogram(&rgba));
}
