use breach_protocol::img::bitmap::Rgb;
use breach_protocol::img::score::ErrorScore;
use breach_protocol::img::{image_sides, into_image, pixel_count_fits, sides_fit, GrayImage};

fn into_img(data: Vec<u8>, w: u32, h: u32) -> GrayImage {
    assert_eq!((w * h) as usize, data.len());
    GrayImage::from_pixels(data, w, h).unwrap()
}

fn error_of(score: ErrorScore) -> f64 {
    score.mismatches as f64 / score.area as f64
}

#[test]
fn test_filter() {
    let mut img = bmp::Image::new(4, 4);
    img.set_pixel(0, 0, bmp::Pixel::new(0, 10, 20));
    img.set_pixel(1, 0, bmp::Pixel::new(10, 20, 30));
    img.set_pixel(0, 1, bmp::Pixel::new(15, 25, 35));
    img.set_pixel(1, 1, bmp::Pixel::new(20, 30, 40));

    let filtered = GrayImage::filter(&img, &Rgb::new(10, 20, 30), 5, 0, 0, 2, 2);
    assert_eq!(filtered.width(), 2);
    assert_eq!(filtered.height(), 2);
    assert_eq!(filtered.pixel(0, 0), 0);
    assert_eq!(filtered.pixel(1, 0), 255);
    assert_eq!(filtered.pixel(0, 1), 255);
    assert_eq!(filtered.pixel(1, 1), 0);
}

#[test]
fn test_rfind_rect() {
    let pixels = vec![
        255, 255, 000,
        255, 255, 000,
    ];

    let filtered = into_img(pixels, 3, 2);
    assert_eq!(None, filtered.rfind_rect(10, 10));
    assert_eq!(None, filtered.rfind_rect(3, 2));
    assert_eq!(None, filtered.rfind_rect(3, 1));
    assert_eq!(Some((0, 1)), filtered.rfind_rect(2, 1));
    assert_eq!(Some((0, 0)), filtered.rfind_rect(2, 2));
}

#[test]
fn test_columns_usage() {
    let pixels = vec![
        255, 000, 000,
        000, 000, 255,
    ];

    let filtered = into_img(pixels, 3, 2);
    let usage = filtered.columns_usage();
    assert_eq!(vec![true, false, true], usage);
    assert_eq!(3, usage.capacity());
}

#[test]
fn test_rows_usage() {
    let pixels = vec![
        255, 000,
        000, 000,
        000, 255,
    ];

    let filtered = into_img(pixels, 2, 3);
    let usage = filtered.rows_usage();
    assert_eq!(vec![true, false, true], usage);
    assert_eq!(3, usage.capacity());
}

#[test]
fn test_rect_hull() {
    let pixels = vec![
        000, 000, 000, 000, 000,
        000, 255, 255, 255, 255,
        000, 255, 000, 000, 255,
        000, 255, 255, 000, 255,
        000, 255, 255, 255, 255,
    ];

    let img = into_img(pixels, 5, 5);
    assert_eq!(Some((1, 1, 4, 4)), img.rect_hull(0, 0, 4, 4));
    assert_eq!(Some((2, 3, 2, 3)), img.rect_hull(2, 2, 3, 3));
    assert_eq!(None, img.rect_hull(2, 2, 3, 2));
}

#[test]
fn test_template_match_error_score() {
    let template_pixels = vec![
        000, 000, 000, 000,
        000, 000, 000, 000,
        000, 000, 255, 255,
        000, 000, 255, 255,
    ];
    let template = into_img(template_pixels, 4, 4);

    let exact_match = vec![
        255, 255, 255, 255, 255, 255,
        255, 000, 000, 000, 000, 255,
        255, 000, 000, 000, 000, 255,
        255, 000, 000, 255, 255, 255,
        255, 000, 000, 255, 255, 255,
        255, 255, 255, 255, 255, 255,
    ];
    assert_eq!(0f64, error_of(into_img(exact_match, 6, 6).template_match_error_score(1, 1, 4, 4, &template)));

    let exact_small_match = vec![
        255, 255, 255, 255,
        255, 000, 000, 255,
        255, 000, 255, 255,
        255, 255, 255, 255,
    ];
    assert_eq!(0f64, error_of(into_img(exact_small_match, 4, 4).template_match_error_score(1, 1, 2, 2, &template)));

    let exact_big_match = vec![
        255, 255, 255, 255, 255, 255, 255, 255, 255, 255,
        255, 000, 000, 000, 000, 000, 000, 000, 000, 255,
        255, 000, 000, 000, 000, 000, 000, 000, 000, 255,
        255, 000, 000, 000, 000, 000, 000, 000, 000, 255,
        255, 000, 000, 000, 000, 000, 000, 000, 000, 255,
        255, 000, 000, 000, 000, 255, 255, 255, 255, 255,
        255, 000, 000, 000, 000, 255, 255, 255, 255, 255,
        255, 000, 000, 000, 000, 255, 255, 255, 255, 255,
        255, 000, 000, 000, 000, 255, 255, 255, 255, 255,
        255, 255, 255, 255, 255, 255, 255, 255, 255, 255,
    ];
    assert_eq!(0f64, error_of(into_img(exact_big_match, 10, 10).template_match_error_score(1, 1, 8, 8, &template)));

    let full_unmatch = vec![
        255, 255, 255, 255,
        255, 255, 255, 255,
        255, 255, 000, 000,
        255, 255, 000, 000,
    ];
    assert_eq!(1f64, error_of(into_img(full_unmatch, 4, 4).template_match_error_score(0, 0, 3, 3, &template)));

    let half_match = vec![
        255, 255, 000, 000,
        255, 255, 000, 000,
        000, 000, 000, 000,
        000, 000, 000, 000,
    ];
    let half_error = error_of(into_img(half_match, 4, 4).template_match_error_score(0, 0, 3, 3, &template));
    assert!(0.43 < half_error);
    assert!(0.58 > half_error);
}

#[test]
fn test_into_image() {
    let pixels = vec![
        255, 000,
        000, 255,
    ];

    let bmp: bmp::Image = into_image(&into_img(pixels, 2, 2)).unwrap();
    assert_eq!(bmp.get_width(), 2);
    assert_eq!(bmp.get_height(), 2);
    assert_eq!(bmp::Pixel::new(255, 255, 255), bmp.get_pixel(0, 0));
    assert_eq!(bmp::Pixel::new(000, 000, 000), bmp.get_pixel(1, 0));
    assert_eq!(bmp::Pixel::new(000, 000, 000), bmp.get_pixel(0, 1));
    assert_eq!(bmp::Pixel::new(255, 255, 255), bmp.get_pixel(1, 1));
}

#[test]
fn from_pixels_wants_a_byte_for_each_pixel() {
    assert!(GrayImage::from_pixels(vec![0, 0, 0], 2, 2).is_none());
    assert!(GrayImage::from_pixels(vec![], 0, 7).is_some());
    let img = GrayImage::from_pixels(vec![1, 2, 3, 4, 5, 6], 3, 2).unwrap();
    assert_eq!(3, img.width());
    assert_eq!(2, img.height());
    assert_eq!(6, img.pixel(2, 1));
    assert_eq!(4, img.pixel(0, 1));
}

#[test]
fn filter_marks_exactly_the_pixels_within_the_tolerance() {
    let mut img = bmp::Image::new(3, 2);
    img.set_pixel(0, 0, bmp::Pixel::new(100, 100, 100));
    img.set_pixel(1, 0, bmp::Pixel::new(110, 90, 100));
    img.set_pixel(2, 0, bmp::Pixel::new(111, 100, 100));
    img.set_pixel(0, 1, bmp::Pixel::new(100, 89, 100));
    img.set_pixel(1, 1, bmp::Pixel::new(100, 100, 111));
    img.set_pixel(2, 1, bmp::Pixel::new(90, 110, 90));
    let mask = GrayImage::filter(&img, &Rgb::new(100, 100, 100), 10, 0, 0, 3, 2);
    let expected = [[255u8, 255, 0], [0, 0, 255]];
    for y in 0..2u32 {
        for x in 0..3u32 {
            let v = mask.pixel(x, y);
            assert!(v == 0 || v == 255);
            assert_eq!(expected[y as usize][x as usize], v);
        }
    }
}

#[test]
fn filter_clamps_the_tolerance_at_the_ends_of_the_channel() {
    let mut img = bmp::Image::new(2, 1);
    img.set_pixel(0, 0, bmp::Pixel::new(0, 255, 3));
    img.set_pixel(1, 0, bmp::Pixel::new(10, 246, 3));
    let mask = GrayImage::filter(&img, &Rgb::new(4, 250, 0), 5, 0, 0, 2, 1);
    assert_eq!(255, mask.pixel(0, 0));
    assert_eq!(0, mask.pixel(1, 0));
}

#[test]
fn filter_reads_the_rectangle_that_is_asked_for() {
    let mut img = bmp::Image::new(4, 3);
    img.set_pixel(3, 2, bmp::Pixel::new(7, 7, 7));
    img.set_pixel(2, 1, bmp::Pixel::new(7, 7, 7));
    let mask = GrayImage::filter(&img, &Rgb::new(7, 7, 7), 0, 2, 1, 4, 3);
    assert_eq!(2, mask.width());
    assert_eq!(2, mask.height());
    assert_eq!(255, mask.pixel(0, 0));
    assert_eq!(0, mask.pixel(1, 0));
    assert_eq!(0, mask.pixel(0, 1));
    assert_eq!(255, mask.pixel(1, 1));
}

#[test]
fn rfind_rect_returns_the_lowest_then_rightmost_filled_rectangle() {
    let pixels = vec![
        255, 255, 255, 255,
        255, 255, 255, 255,
        255, 255, 000, 255,
    ];
    let img = into_img(pixels, 4, 3);
    // two rows high: rows 1-2 hold it only in columns 0-1
    assert_eq!(Some((0, 1)), img.rfind_rect(2, 2));
    // one pixel: the lowest row, the rightmost column
    assert_eq!(Some((3, 2)), img.rfind_rect(1, 1));
    // three wide: rows 0 and 1
    assert_eq!(Some((1, 1)), img.rfind_rect(3, 1));
    assert_eq!(None, img.rfind_rect(0, 1));
    assert_eq!(None, img.rfind_rect(1, 0));
    assert_eq!(None, img.rfind_rect(5, 1));
}

#[test]
fn rect_hull_is_tight_on_every_side() {
    let pixels = vec![
        000, 000, 000, 000,
        000, 000, 255, 000,
        255, 000, 000, 000,
        000, 000, 000, 255,
    ];
    let img = into_img(pixels, 4, 4);
    assert_eq!(Some((0, 1, 3, 3)), img.rect_hull(0, 0, 3, 3));
    assert_eq!(Some((2, 1, 2, 1)), img.rect_hull(1, 0, 3, 2));
    assert_eq!(None, img.rect_hull(0, 0, 1, 1));
}

#[test]
fn a_part_of_a_mask_matches_itself() {
    let pixels = vec![
        000, 255, 000, 255, 000,
        255, 255, 000, 000, 000,
        000, 000, 255, 000, 255,
        255, 000, 255, 255, 000,
    ];
    let img = into_img(pixels, 5, 4);
    // the part from (1, 0), three columns and three rows
    let part = into_img(vec![255, 000, 255, 255, 000, 000, 000, 255, 000], 3, 3);
    let score = img.template_match_error_score(1, 0, 4, 3, &part);
    assert_eq!(0, score.mismatches);
    assert_eq!(9, score.area);
}

#[test]
fn the_score_counts_the_pixels_that_differ() {
    let img = into_img(vec![255, 000, 255, 000, 255, 000, 000, 000, 000], 3, 3);
    // a template of one white pixel, stretched over two by two pixels
    let white = into_img(vec![255], 1, 1);
    let score = img.template_match_error_score(0, 0, 2, 2, &white);
    assert_eq!(ErrorScore { mismatches: 2, area: 4 }, score);
    // samples of a template of four columns over a part of three: columns 0, 1 and 2
    let wide = into_img(vec![255, 000, 000, 255], 4, 1);
    let score = img.template_match_error_score(0, 0, 3, 1, &wide);
    assert_eq!(ErrorScore { mismatches: 1, area: 3 }, score);
    // a part without columns has nothing to compare
    let score = img.template_match_error_score(1, 0, 1, 2, &white);
    assert_eq!(ErrorScore { mismatches: 0, area: 0 }, score);
}

#[test]
fn into_image_refuses_sides_that_are_too_large() {
    assert!(sides_fit(0xFFFF, 1));
    assert!(!sides_fit(0x1_0000, 1));
    assert!(!sides_fit(0xFFFF, 0xFFFF));
    assert!(sides_fit(20_000, 20_000));
    let empty = GrayImage::from_pixels(vec![], 0x1_0000, 0).unwrap();
    assert!(into_image(&empty).is_none());
}

#[test]
fn into_image_keeps_every_pixel_in_its_place() {
    let img = into_img(vec![1, 2, 3, 4, 5, 6], 3, 2);
    let bmp = into_image(&img).unwrap();
    assert_eq!(3, bmp.get_width());
    assert_eq!(2, bmp.get_height());
    for y in 0..2u32 {
        for x in 0..3u32 {
            let v = img.pixel(x, y);
            assert_eq!(bmp::Pixel::new(v, v, v), bmp.get_pixel(x, y));
        }
    }
}

#[test]
fn image_sides_are_width_and_height() {
    assert_eq!((7, 3), image_sides(&bmp::Image::new(7, 3)));
    assert_eq!((0, 5), image_sides(&bmp::Image::new(0, 5)));
}

#[test]
fn the_pixel_count_must_fit_32_bits() {
    assert!(pixel_count_fits(0, 0));
    assert!(pixel_count_fits(1920, 1080));
    // 65535 * 65537 is the largest number of 32 bits
    assert!(pixel_count_fits(65535, 65537));
    assert!(!pixel_count_fits(65536, 65536));
    assert!(!pixel_count_fits(0xFFFF_FFFF, 2));
    assert!(pixel_count_fits(0xFFFF_FFFF, 1));
}
