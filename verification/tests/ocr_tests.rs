use breach_protocol::img::GrayImage;
use breach_protocol::ocr::{
    locate_matrix_regions, ocr_conditions, ocr_matrix, ocr_matrix_item, Location, MatrixTemplates,
};

const CODES: [u8; 6] = [0x1C, 0x55, 0x7A, 0xBD, 0xE9, 0xFF];

/// The templates of the tests: four by three pixels each.
fn pattern(code: u8) -> [[u8; 4]; 3] {
    match code {
        0x1C => [[1, 0, 0, 0], [0, 0, 0, 0], [0, 0, 0, 0]],
        0x55 => [[1, 1, 0, 0], [0, 0, 0, 0], [0, 0, 0, 0]],
        0x7A => [[1, 1, 1, 0], [0, 0, 0, 0], [0, 0, 0, 0]],
        0xBD => [[1, 0, 0, 0], [1, 0, 0, 0], [0, 0, 0, 0]],
        0xE9 => [[1, 0, 0, 0], [1, 0, 0, 0], [1, 0, 0, 0]],
        0xFF => [[1, 1, 1, 1], [1, 1, 1, 1], [1, 1, 1, 1]],
        _ => panic!("no such code"),
    }
}

fn template(code: u8) -> GrayImage {
    let p = pattern(code);
    let mut data = Vec::new();
    for row in p.iter() {
        for v in row.iter() {
            data.push(v * 255);
        }
    }
    GrayImage::from_pixels(data, 4, 3).unwrap()
}

fn templates() -> MatrixTemplates {
    MatrixTemplates::new(
        template(0x1C),
        template(0x55),
        template(0x7A),
        template(0xBD),
        template(0xE9),
        template(0xFF),
    )
    .unwrap()
}

struct Canvas {
    w: usize,
    h: usize,
    data: Vec<u8>,
}

impl Canvas {
    fn new(w: usize, h: usize) -> Canvas {
        Canvas { w, h, data: vec![0; w * h] }
    }

    fn ink(&mut self, x: usize, y: usize) {
        self.data[y * self.w + x] = 255;
    }

    /// Draws a cell of five by four pixels: the pattern, and a bar of ink to the right of it.
    fn cell(&mut self, x0: usize, y0: usize, p: [[u8; 4]; 3]) {
        for (dy, row) in p.iter().enumerate() {
            for (dx, v) in row.iter().enumerate() {
                if *v != 0 {
                    self.ink(x0 + dx, y0 + dy);
                }
            }
        }
        for dy in 0..4 {
            self.ink(x0 + 4, y0 + dy);
        }
    }

    fn mask(&self) -> GrayImage {
        GrayImage::from_pixels(self.data.clone(), self.w as u32, self.h as u32).unwrap()
    }
}

const COLUMNS: [usize; 3] = [5, 35, 65];
const ROWS: [usize; 3] = [2, 12, 22];

fn matrix_canvas(codes: &[[u8; 3]; 3]) -> Canvas {
    let mut c = Canvas::new(100, 40);
    for (j, row) in codes.iter().enumerate() {
        for (i, code) in row.iter().enumerate() {
            c.cell(COLUMNS[i], ROWS[j], pattern(*code));
        }
    }
    c
}

#[test]
fn locate_finds_the_cells() {
    let codes = [[0x1C, 0x55, 0x7A], [0xBD, 0xE9, 0xFF], [0xFF, 0x1C, 0x55]];
    let (columns, rows) = locate_matrix_regions(&matrix_canvas(&codes).mask()).unwrap();
    assert_eq!(
        vec![
            Location { start: 5, end: 10 },
            Location { start: 35, end: 40 },
            Location { start: 65, end: 70 }
        ],
        columns
    );
    assert_eq!(
        vec![
            Location { start: 2, end: 6 },
            Location { start: 12, end: 16 },
            Location { start: 22, end: 26 }
        ],
        rows
    );
}

#[test]
fn locate_bridges_gaps_of_fifteen_columns_and_no_gap_of_rows() {
    let mut c = Canvas::new(60, 10);
    c.ink(2, 1);
    // 15 columns after the end of the first run at column 3
    c.ink(18, 1);
    // 16 columns after the end of the second run at column 19
    c.ink(35, 3);
    let (columns, rows) = locate_matrix_regions(&c.mask()).unwrap();
    assert_eq!(
        vec![Location { start: 2, end: 19 }, Location { start: 35, end: 36 }],
        columns
    );
    assert_eq!(vec![Location { start: 1, end: 2 }, Location { start: 3, end: 4 }], rows);
}

#[test]
fn locate_says_when_nothing_is_written() {
    let c = Canvas::new(20, 20);
    assert_eq!(Err("Matrix items not found".to_string()), locate_matrix_regions(&c.mask()));
    let empty = GrayImage::from_pixels(Vec::new(), 0, 0).unwrap();
    assert_eq!(Err("Matrix items not found".to_string()), locate_matrix_regions(&empty));
}

#[test]
fn locate_says_when_a_run_does_not_end() {
    let mut c = Canvas::new(20, 20);
    c.ink(19, 5);
    assert_eq!(
        Err("Matrix items were recognized incorrectly".to_string()),
        locate_matrix_regions(&c.mask())
    );
    let mut c = Canvas::new(20, 20);
    c.ink(5, 19);
    assert_eq!(
        Err("Matrix items were recognized incorrectly".to_string()),
        locate_matrix_regions(&c.mask())
    );
}

#[test]
fn ocr_matrix_reads_every_code() {
    let codes = [[0x1C, 0x55, 0x7A], [0xBD, 0xE9, 0xFF], [0xFF, 0x1C, 0x55]];
    let result = ocr_matrix(&matrix_canvas(&codes).mask(), &templates());
    assert_eq!(
        Ok((
            5,
            2,
            65,
            22,
            vec![vec![0x1C, 0x55, 0x7A], vec![0xBD, 0xE9, 0xFF], vec![0xFF, 0x1C, 0x55]]
        )),
        result
    );
}

#[test]
fn ocr_matrix_item_takes_the_nearest_template_and_of_two_the_first() {
    let ts = templates();
    for code in CODES.iter() {
        let mut c = Canvas::new(12, 8);
        c.cell(3, 2, pattern(*code));
        let r = ocr_matrix_item(
            &c.mask(),
            &ts,
            &Location { start: 3, end: 8 },
            &Location { start: 2, end: 6 },
        );
        assert_eq!(Some(*code), r);
    }
    // one pixel away from 55 and from BD, two from 1C and from 7A
    let mut c = Canvas::new(12, 8);
    c.cell(3, 2, [[1, 1, 0, 0], [1, 0, 0, 0], [0, 0, 0, 0]]);
    let r = ocr_matrix_item(
        &c.mask(),
        &ts,
        &Location { start: 3, end: 8 },
        &Location { start: 2, end: 6 },
    );
    assert_eq!(Some(0x55), r);
    // the span may be wider than the ink: the hull of the ink is what is compared
    let r = ocr_matrix_item(
        &c.mask(),
        &ts,
        &Location { start: 0, end: 12 },
        &Location { start: 0, end: 8 },
    );
    assert_eq!(Some(0x55), r);
}

#[test]
fn ocr_matrix_item_reads_nothing_in_a_blank_or_thin_cell() {
    let ts = templates();
    let mut c = Canvas::new(12, 8);
    c.ink(1, 1);
    c.ink(1, 2);
    let mask = c.mask();
    // no ink in the cell
    assert_eq!(
        None,
        ocr_matrix_item(&mask, &ts, &Location { start: 3, end: 8 }, &Location { start: 2, end: 6 })
    );
    // ink in a single column
    assert_eq!(
        None,
        ocr_matrix_item(&mask, &ts, &Location { start: 0, end: 8 }, &Location { start: 0, end: 6 })
    );
}

#[test]
fn ocr_matrix_wants_a_square_of_three_rows() {
    let ts = templates();
    let mut c = Canvas::new(100, 40);
    for j in 0..2 {
        for i in 0..3 {
            c.cell(COLUMNS[i], ROWS[j], pattern(0xFF));
        }
    }
    assert_eq!(Err("Bad matrix dimension".to_string()), ocr_matrix(&c.mask(), &ts));
    let mut c = Canvas::new(100, 40);
    for j in 0..2 {
        for i in 0..2 {
            c.cell(COLUMNS[i], ROWS[j], pattern(0xFF));
        }
    }
    assert_eq!(Err("Bad matrix dimension".to_string()), ocr_matrix(&c.mask(), &ts));
    assert_eq!(
        Err("Matrix items not found".to_string()),
        ocr_matrix(&Canvas::new(100, 40).mask(), &ts)
    );
}

#[test]
fn ocr_matrix_wants_a_code_in_every_cell() {
    let ts = templates();
    let codes = [[0x1C, 0x55, 0x7A], [0xBD, 0xE9, 0xFF], [0xFF, 0x1C, 0x55]];
    let mut c = Canvas::new(100, 40);
    for (j, row) in codes.iter().enumerate() {
        for (i, code) in row.iter().enumerate() {
            if (i, j) != (1, 1) {
                c.cell(COLUMNS[i], ROWS[j], pattern(*code));
            }
        }
    }
    assert_eq!(
        Err("One of matrix items was not recognized".to_string()),
        ocr_matrix(&c.mask(), &ts)
    );
}

#[test]
fn ocr_conditions_reads_each_row_up_to_its_end() {
    let ts = templates();
    let mut c = Canvas::new(100, 40);
    c.cell(COLUMNS[0], ROWS[0], pattern(0x1C));
    c.cell(COLUMNS[1], ROWS[0], pattern(0x7A));
    c.cell(COLUMNS[0], ROWS[1], pattern(0xBD));
    c.cell(COLUMNS[1], ROWS[1], pattern(0x55));
    c.cell(COLUMNS[2], ROWS[1], pattern(0xE9));
    // a row whose first cell is empty: nothing is read of it
    c.cell(COLUMNS[1], ROWS[2], pattern(0xFF));
    assert_eq!(
        Ok(vec![vec![0x1C, 0x7A], vec![0xBD, 0x55, 0xE9], vec![]]),
        ocr_conditions(&c.mask(), &ts)
    );
    assert_eq!(
        Err("Matrix items not found".to_string()),
        ocr_conditions(&Canvas::new(100, 40).mask(), &ts)
    );
}

#[test]
fn templates_must_have_pixels() {
    let none = GrayImage::from_pixels(Vec::new(), 0, 3).unwrap();
    assert!(MatrixTemplates::new(
        template(0x1C),
        template(0x55),
        template(0x7A),
        none,
        template(0xE9),
        template(0xFF)
    )
    .is_none());
}

#[test]
fn load_templates_cuts_the_sheet() {
    assert!(MatrixTemplates::load_templates(&bmp::Image::new(154, 20)).is_none());
    assert!(MatrixTemplates::load_templates(&bmp::Image::new(155, 19)).is_none());
    // a sheet with the patterns of the tests drawn at the places of the templates, stretched
    // over the whole of each place
    let places: [(u32, u32, u32, u32); 6] =
        [(0, 0, 23, 19), (23, 0, 49, 20), (49, 0, 75, 19), (75, 0, 104, 20), (104, 0, 130, 20), (130, 0, 155, 20)];
    let mut sheet = bmp::Image::new(155, 20);
    for (k, place) in places.iter().enumerate() {
        let p = pattern(CODES[k]);
        let w = place.2 - place.0;
        let h = place.3 - place.1;
        for y in 0..h {
            for x in 0..w {
                // the pixel of the pattern whose sample lies at or before this pixel
                let col = (0..4u32).filter(|i| i * w / 4 <= x).last().unwrap();
                let row = (0..3u32).filter(|j| j * h / 3 <= y).last().unwrap();
                if p[row as usize][col as usize] != 0 {
                    sheet.set_pixel(place.0 + x, place.1 + y, bmp::Pixel::new(255, 255, 255));
                } else {
                    // just beyond the tolerance of 1
                    sheet.set_pixel(place.0 + x, place.1 + y, bmp::Pixel::new(253, 255, 255));
                }
            }
        }
    }
    let ts = MatrixTemplates::load_templates(&sheet).unwrap();
    for code in CODES.iter() {
        let mut c = Canvas::new(12, 8);
        c.cell(3, 2, pattern(*code));
        let r = ocr_matrix_item(
            &c.mask(),
            &ts,
            &Location { start: 3, end: 8 },
            &Location { start: 2, end: 6 },
        );
        assert_eq!(Some(*code), r);
    }
}
