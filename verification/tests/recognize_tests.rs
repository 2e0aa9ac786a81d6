use breach_protocol::img::GrayImage;
use breach_protocol::recognize::{
    buffer_color, buffer_slots, condition_border_color, condition_color, condition_frame,
    find_buffer_size, find_condition_area, find_matrix_area, matrix_color, matrix_frame,
};

fn paint(img: &mut bmp::Image, x: u32, y: u32, c: breach_protocol::img::bitmap::Rgb) {
    img.set_pixel(x, y, bmp::Pixel::new(c.r, c.g, c.b));
}

#[test]
fn test_find_matrix_area_not_found() {
    let img = bmp::Image::new(2, 2);
    let area = find_matrix_area(&img);
    assert_eq!(None, area);
}

#[test]
fn test_find_condition_area_not_found() {
    let img = bmp::Image::new(2, 2);
    let area = find_condition_area(&img, &(0, 0, 1, 1));
    assert_eq!(None, area);
}

#[test]
fn test_find_buffer_size_not_found() {
    let img = bmp::Image::new(6, 6);
    let count = find_buffer_size(&img, &(4, 4, 6, 6));
    assert_eq!(None, count);
}

#[test]
fn the_colors_are_those_of_the_game() {
    assert_eq!((0xD0, 0xED, 0x57), (matrix_color().r, matrix_color().g, matrix_color().b));
    assert_eq!(
        (0x81, 0x96, 0x38),
        (condition_border_color().r, condition_border_color().g, condition_border_color().b)
    );
    assert_eq!((0xF0, 0xF0, 0xF0), (condition_color().r, condition_color().g, condition_color().b));
    assert_eq!((0x4F, 0x5A, 0x25), (buffer_color().r, buffer_color().g, buffer_color().b));
}

/// A screen of 640 by 120 pixels with a caption bar from (10, 0) to (309, 4), a right wall
/// down column 309 to row 110, and `run` pixels of frame color in row 109 to the left of
/// column 10.
fn matrix_screen(run: u32) -> bmp::Image {
    let mut img = bmp::Image::new(640, 120);
    for y in 0..5 {
        for x in 10..310 {
            paint(&mut img, x, y, matrix_color());
        }
    }
    for y in 5..=110 {
        paint(&mut img, 309, y, matrix_color());
    }
    for i in 0..run {
        paint(&mut img, 9 - i, 109, matrix_color());
    }
    img
}

#[test]
fn find_matrix_area_follows_the_frame() {
    // the wall ends in row 110: 106 rows below the bar; row 109 is zero at column 9
    assert_eq!(Some((10, 5, 308, 109)), find_matrix_area(&matrix_screen(0)));
    // two more pixels to the left are not zero
    assert_eq!(Some((8, 5, 308, 109)), find_matrix_area(&matrix_screen(2)));
    // the row is not zero up to the edge of the screen: no place is found
    assert_eq!(None, find_matrix_area(&matrix_screen(10)));
}

#[test]
fn find_matrix_area_takes_near_colors_and_only_the_left_half() {
    let mut img = matrix_screen(0);
    // within the tolerance of 50
    paint(&mut img, 9, 109, breach_protocol::img::bitmap::Rgb::new(0xD0 - 50, 0xED - 50, 0x57 + 50));
    assert_eq!(Some((9, 5, 308, 109)), find_matrix_area(&img));
    // one beyond the tolerance
    paint(&mut img, 9, 109, breach_protocol::img::bitmap::Rgb::new(0xD0 - 51, 0xED, 0x57));
    assert_eq!(Some((10, 5, 308, 109)), find_matrix_area(&img));
    // a bar in the right half is not looked at
    let mut right = bmp::Image::new(640, 120);
    for y in 0..5 {
        for x in 330..630 {
            paint(&mut right, x, y, matrix_color());
        }
    }
    for y in 5..=110 {
        paint(&mut right, 629, y, matrix_color());
    }
    assert_eq!(None, find_matrix_area(&right));
}

#[test]
fn find_matrix_area_wants_a_wall_of_a_hundred_pixels() {
    let mut img = bmp::Image::new(640, 120);
    for y in 0..5 {
        for x in 10..310 {
            paint(&mut img, x, y, matrix_color());
        }
    }
    // the wall runs to the bottom of the screen: it never ends
    for y in 5..120 {
        paint(&mut img, 309, y, matrix_color());
    }
    assert_eq!(None, find_matrix_area(&img));
}

#[test]
fn matrix_frame_skips_a_gap_in_the_first_hundred_rows_of_the_wall() {
    let mut data = vec![0u8; 320 * 120];
    for y in 0..5 {
        for x in 10..310 {
            data[y * 320 + x] = 255;
        }
    }
    // a wall with a hole at row 50 and its end at row 110
    for y in 5..=110usize {
        if y != 50 {
            data[y * 320 + 309] = 255;
        }
    }
    let mask = GrayImage::from_pixels(data, 320, 120).unwrap();
    assert_eq!(Some((10, 5, 308, 109)), matrix_frame(&mask));
}

/// A screen of 430 by 70 pixels. To the right of column 5 and below row 3: a border in row
/// 50 from column 20 to column 399, and something at (300, 10) and (350, 5).
fn condition_screen() -> bmp::Image {
    let mut img = bmp::Image::new(430, 70);
    for x in 20..400 {
        paint(&mut img, 5 + x, 3 + 50, condition_border_color());
    }
    paint(&mut img, 5 + 300, 3 + 10, condition_border_color());
    paint(&mut img, 5 + 350, 3 + 5, condition_border_color());
    img
}

#[test]
fn find_condition_area_follows_the_border() {
    let img = condition_screen();
    // left border at 20, first thing inside at 300, last row above the border 49
    assert_eq!(Some((5 + 21, 3, 5 + 280 - 1, 3 + 49)), find_condition_area(&img, &(0, 3, 5, 63)));
}

#[test]
fn find_condition_area_without_anything_inside_reaches_to_the_right_end() {
    let mut img = bmp::Image::new(430, 70);
    for x in 20..400 {
        paint(&mut img, 5 + x, 3 + 50, condition_border_color());
    }
    // nothing inside the frame: the right end of the border stands for it
    assert_eq!(Some((5 + 21, 3, 5 + 379 - 1, 3 + 49)), find_condition_area(&img, &(0, 3, 5, 63)));
}

#[test]
fn find_condition_area_refuses_a_matrix_area_outside_the_screen() {
    let img = condition_screen();
    assert_eq!(None, find_condition_area(&img, &(0, 3, 431, 63)));
    assert_eq!(None, find_condition_area(&img, &(0, 3, 5, 71)));
    assert_eq!(None, find_condition_area(&img, &(0, 64, 5, 63)));
}

#[test]
fn condition_frame_wants_a_row_above_the_border_and_an_end_of_it() {
    // the border in the top row: nothing is above it
    let mut data = vec![0u8; 420 * 4];
    for x in 20..400 {
        data[x] = 255;
    }
    let mask = GrayImage::from_pixels(data, 420, 4).unwrap();
    assert_eq!(None, condition_frame(&mask));
    // the border runs to the left edge
    let mut data = vec![0u8; 420 * 4];
    for x in 0..400 {
        data[420 * 2 + x] = 255;
    }
    let mask = GrayImage::from_pixels(data, 420, 4).unwrap();
    assert_eq!(None, condition_frame(&mask));
    // it ends at column 1
    let mut data = vec![0u8; 420 * 4];
    for x in 1..400 {
        data[420 * 2 + x] = 255;
    }
    let mask = GrayImage::from_pixels(data, 420, 4).unwrap();
    assert_eq!(Some((2, 398, 1)), condition_frame(&mask));
}

/// A screen of 120 by 300 pixels. In the strip from column 10 and from row 200: a wall
/// down column 90 from row 20 to row 80, and `strokes` single pixels in row 50.
fn buffer_screen(strokes: u32) -> bmp::Image {
    let mut img = bmp::Image::new(120, 300);
    for y in 20..=80 {
        paint(&mut img, 10 + 90, 200 + y, buffer_color());
    }
    for i in 0..strokes {
        paint(&mut img, 10 + 5 + i * 7, 200 + 50, buffer_color());
    }
    img
}

#[test]
fn find_buffer_size_counts_pairs_of_strokes() {
    assert_eq!(Some(3), find_buffer_size(&buffer_screen(6), &(10, 400, 110, 0)));
    assert_eq!(Some(4), find_buffer_size(&buffer_screen(8), &(10, 400, 110, 0)));
    // an odd stroke does not count
    assert_eq!(Some(3), find_buffer_size(&buffer_screen(7), &(10, 400, 110, 0)));
    assert_eq!(Some(0), find_buffer_size(&buffer_screen(0), &(10, 400, 110, 0)));
}

#[test]
fn find_buffer_size_refuses_an_area_outside_the_screen() {
    let img = buffer_screen(6);
    assert_eq!(None, find_buffer_size(&img, &(10, 400, 121, 0)));
    assert_eq!(None, find_buffer_size(&img, &(111, 400, 110, 0)));
    assert_eq!(None, find_buffer_size(&img, &(10, 404, 110, 0)));
}

#[test]
fn buffer_slots_wants_a_wall_with_a_top() {
    // a wall of 35 pixels from the top row: its top is not seen
    let mut data = vec![0u8; 10 * 40];
    for y in 0..35 {
        data[y * 10 + 7] = 255;
    }
    let mask = GrayImage::from_pixels(data, 10, 40).unwrap();
    assert_eq!(None, buffer_slots(&mask));
    // a wall of 34 pixels is none
    let mut data = vec![0u8; 10 * 40];
    for y in 2..36 {
        data[y * 10 + 7] = 255;
    }
    let mask = GrayImage::from_pixels(data, 10, 40).unwrap();
    assert_eq!(None, buffer_slots(&mask));
    // a wall from row 2 to row 38, strokes in the row half way up
    let mut data = vec![0u8; 10 * 40];
    for y in 2..=38 {
        data[y * 10 + 7] = 255;
    }
    // the wall is 36 pixels high above its lowest pixel: the row is 38 - 18 = 20
    data[20 * 10 + 1] = 255;
    data[20 * 10 + 3] = 255;
    data[21 * 10 + 5] = 255;
    let mask = GrayImage::from_pixels(data, 10, 40).unwrap();
    assert_eq!(Some(1), buffer_slots(&mask));
}
