//! Reading a whole screenshot: the matrix, the daemon sequences and the
//! size of the buffer; and where to click for a solution.

use vstd::prelude::*;
use vstd::string::StringExecFns;
use crate::img::bitmap::{image_height, image_pixels, image_width, pixels_fit};
use crate::img::{GrayImage, Mask};
use crate::ocr::{
    is_conditions_result, is_matrix_result, ocr_conditions, ocr_matrix, rows_view, MatrixTemplates,
};
use crate::recognize::{
    buffer_strip_fits, condition_color, condition_strip_fits, find_buffer_size,
    find_condition_area, find_matrix_area, is_mask_of, matrix_color,
    shows_buffer_size, shows_condition_area, shows_matrix_area, CODE_TOLERANCE,
};
use crate::solver::Step;

verus! {

/// What a screenshot shows: where the matrix is and what it holds, where
/// the daemon sequences are and what they are, and the size of the buffer.
/// Rectangles are given by their left, top, right and bottom edge.
#[derive(Debug)]
pub struct Screen {
    /// The inside of the matrix frame, on the screenshot.
    pub matrix_area: (u32, u32, u32, u32),
    /// Where the first column and the first row of codes start and where
    /// the last column and the last row start, inside the matrix area.
    pub matrix_grid: (u32, u32, u32, u32),
    /// The codes of the matrix, row by row.
    pub matrix: Vec<Vec<u8>>,
    /// The area of the daemon sequences, on the screenshot.
    pub condition_area: (u32, u32, u32, u32),
    /// The daemon sequences.
    pub conditions: Vec<Vec<u8>>,
    /// The number of picks that the buffer holds.
    pub buffer_size: usize,
}

/// A rectangle of `u32` edges as a rectangle of integers.
pub open spec fn rect_of(q: (u32, u32, u32, u32)) -> (int, int, int, int) {
    (q.0 as int, q.1 as int, q.2 as int, q.3 as int)
}

/// `r` is what the matrix area of a bitmap reads as: the area is masked for
/// the matrix color and the mask is read as a matrix.
pub open spec fn shows_matrix(
    pixels: Map<(int, int), (u8, u8, u8)>,
    area: (int, int, int, int),
    ts: Seq<Mask>,
    r: Result<(int, int, int, int, Seq<Seq<u8>>), Seq<char>>,
) -> bool {
    exists|m: Mask| #[trigger]
        is_mask_of(m, pixels, matrix_color(), CODE_TOLERANCE, area.0, area.1, area.2, area.3)
            && is_matrix_result(m, ts, r)
}

/// `r` is what the area of the daemon sequences of a bitmap reads as: the
/// area is masked for the color of their codes and the mask is read as
/// daemon sequences.
pub open spec fn shows_conditions(
    pixels: Map<(int, int), (u8, u8, u8)>,
    area: (int, int, int, int),
    ts: Seq<Mask>,
    r: Result<Seq<Seq<u8>>, Seq<char>>,
) -> bool {
    exists|m: Mask| #[trigger]
        is_mask_of(m, pixels, condition_color(), CODE_TOLERANCE, area.0, area.1, area.2, area.3)
            && is_conditions_result(m, ts, r)
}

/// What is said when no matrix frame is found.
pub open spec fn msg_no_matrix() -> Seq<char> {
    "Matrix was not found"@
}

/// What is said before the reason why the matrix cannot be read.
pub open spec fn msg_matrix_prefix() -> Seq<char> {
    "Matrix was not recognized: "@
}

/// What is said when no frame of daemon sequences is found.
pub open spec fn msg_no_conditions() -> Seq<char> {
    "Conditions were not found"@
}

/// What is said before the reason why the daemon sequences cannot be read.
pub open spec fn msg_conditions_prefix() -> Seq<char> {
    "Conditions were not recognized: "@
}

/// What is said when no buffer is found.
pub open spec fn msg_no_buffer() -> Seq<char> {
    "Buffer size was not recognized"@
}

/// The screenshot shows no area of daemon sequences next to the matrix
/// area: the strip beside the matrix cannot be masked, shows no frame, or
/// shows one whose inside ends before it starts.
pub open spec fn lacks_condition_area(
    pixels: Map<(int, int), (u8, u8, u8)>,
    width: int,
    height: int,
    matrix_area: (int, int, int, int),
) -> bool {
    ||| !condition_strip_fits(width, height, matrix_area)
    ||| shows_condition_area(pixels, width, matrix_area, None)
    ||| exists|c: (int, int, int, int)| #[trigger]
        shows_condition_area(pixels, width, matrix_area, Some(c)) && c.0 > c.2
}

/// `s` is what a bitmap of `width` by `height` pixels shows, read with the
/// templates `ts`.
pub open spec fn is_reading(
    pixels: Map<(int, int), (u8, u8, u8)>,
    width: int,
    height: int,
    ts: Seq<Mask>,
    s: Screen,
) -> bool {
    &&& shows_matrix_area(pixels, width, height, Some(rect_of(s.matrix_area)))
    &&& shows_matrix(
        pixels,
        rect_of(s.matrix_area),
        ts,
        Ok(
            (
                s.matrix_grid.0 as int,
                s.matrix_grid.1 as int,
                s.matrix_grid.2 as int,
                s.matrix_grid.3 as int,
                rows_view(s.matrix@),
            ),
        ),
    )
    &&& shows_condition_area(
        pixels,
        width,
        rect_of(s.matrix_area),
        Some(rect_of(s.condition_area)),
    )
    &&& s.condition_area.0 <= s.condition_area.2
    &&& shows_conditions(pixels, rect_of(s.condition_area), ts, Ok(rows_view(s.conditions@)))
    &&& shows_buffer_size(pixels, rect_of(s.condition_area), Some(s.buffer_size as int))
}

/// `e` says why a bitmap of `width` by `height` pixels cannot be read with
/// the templates `ts`: the first of the five parts of the reading that
/// fails, and for the matrix and the daemon sequences, why.
pub open spec fn is_failure(
    pixels: Map<(int, int), (u8, u8, u8)>,
    width: int,
    height: int,
    ts: Seq<Mask>,
    e: Seq<char>,
) -> bool {
    ||| e == msg_no_matrix() && (!pixels_fit(width, height) || shows_matrix_area(
        pixels,
        width,
        height,
        None,
    ))
    ||| exists|area: (int, int, int, int), why: Seq<char>| #[trigger]
        shows_matrix_area(pixels, width, height, Some(area)) && #[trigger] shows_matrix(
            pixels,
            area,
            ts,
            Err(why),
        ) && e == msg_matrix_prefix() + why
    ||| exists|area: (int, int, int, int)| #[trigger]
        shows_matrix_area(pixels, width, height, Some(area)) && lacks_condition_area(
            pixels,
            width,
            height,
            area,
        ) && e == msg_no_conditions()
    ||| exists|area: (int, int, int, int), c: (int, int, int, int), why: Seq<char>| #[trigger]
        shows_matrix_area(pixels, width, height, Some(area)) && #[trigger] shows_condition_area(
            pixels,
            width,
            area,
            Some(c),
        ) && #[trigger] shows_conditions(pixels, c, ts, Err(why)) && e == msg_conditions_prefix()
            + why
    ||| exists|area: (int, int, int, int), c: (int, int, int, int)| #[trigger]
        shows_matrix_area(pixels, width, height, Some(area)) && #[trigger] shows_condition_area(
            pixels,
            width,
            area,
            Some(c),
        ) && (!buffer_strip_fits(width, height, c) || shows_buffer_size(pixels, c, None)) && e
            == msg_no_buffer()
}

/// Reads a screenshot with the given templates: finds the matrix and reads
/// its codes, finds the daemon sequences and reads them, and reads the size
/// of the buffer. Gives what was read, or says which of these failed first.
pub fn read_screen(img: &bmp::Image, templates: &MatrixTemplates) -> (r: Result<Screen, String>)
    ensures
        match r {
            Ok(s) => is_reading(
                image_pixels(*img),
                image_width(*img),
                image_height(*img),
                templates@,
                s,
            ),
            Err(e) => is_failure(
                image_pixels(*img),
                image_width(*img),
                image_height(*img),
                templates@,
                e@,
            ),
        },
{
    let ghost pixels = image_pixels(*img);
    let ghost width = image_width(*img);
    let ghost height = image_height(*img);
    let matrix_area = match find_matrix_area(img) {
        Some(area) => area,
        None => {
            return Err("Matrix was not found".to_owned());
        },
    };
    let ghost area = rect_of(matrix_area);
    proof {
        assert(pixels_fit(width, height)) by {
            if !pixels_fit(width, height) {
            }
        }
    }
    let matrix_img = GrayImage::filter(
        img,
        &matrix_color(),
        CODE_TOLERANCE,
        matrix_area.0,
        matrix_area.1,
        matrix_area.2,
        matrix_area.3,
    );
    proof {
        assert(is_mask_of(
            matrix_img@,
            pixels,
            matrix_color(),
            CODE_TOLERANCE,
            area.0,
            area.1,
            area.2,
            area.3,
        ));
    }
    let (grid_left, grid_top, grid_right, grid_bottom, matrix) = match ocr_matrix(
        &matrix_img,
        templates,
    ) {
        Ok(reading) => reading,
        Err(why) => {
            proof {
                assert(shows_matrix(pixels, area, templates@, Err(why@)));
            }
            return Err("Matrix was not recognized: ".to_owned().concat(why.as_str()));
        },
    };
    proof {
        assert(shows_matrix(
            pixels,
            area,
            templates@,
            Ok(
                (
                    grid_left as int,
                    grid_top as int,
                    grid_right as int,
                    grid_bottom as int,
                    rows_view(matrix@),
                ),
            ),
        ));
    }
    let condition_area = match find_condition_area(img, &matrix_area) {
        Some(c) => c,
        None => {
            return Err("Conditions were not found".to_owned());
        },
    };
    let ghost c = rect_of(condition_area);
    proof {
        assert(condition_strip_fits(width, height, area)) by {
            if !condition_strip_fits(width, height, area) {
            }
        }
    }
    if condition_area.0 > condition_area.2 {
        proof {
            assert(shows_condition_area(pixels, width, area, Some(c)) && c.0 > c.2);
        }
        return Err("Conditions were not found".to_owned());
    }
    let condition_img = GrayImage::filter(
        img,
        &condition_color(),
        CODE_TOLERANCE,
        condition_area.0,
        condition_area.1,
        condition_area.2,
        condition_area.3,
    );
    proof {
        assert(is_mask_of(
            condition_img@,
            pixels,
            condition_color(),
            CODE_TOLERANCE,
            c.0,
            c.1,
            c.2,
            c.3,
        ));
    }
    let conditions = match ocr_conditions(&condition_img, templates) {
        Ok(reading) => reading,
        Err(why) => {
            proof {
                assert(shows_conditions(pixels, c, templates@, Err(why@)));
            }
            return Err("Conditions were not recognized: ".to_owned().concat(why.as_str()));
        },
    };
    proof {
        assert(shows_conditions(pixels, c, templates@, Ok(rows_view(conditions@))));
    }
    let buffer_size = match find_buffer_size(img, &condition_area) {
        Some(n) => n,
        None => {
            return Err("Buffer size was not recognized".to_owned());
        },
    };
    proof {
        assert(buffer_strip_fits(width, height, c)) by {
            if !buffer_strip_fits(width, height, c) {
            }
        }
    }
    Ok(
        Screen {
            matrix_area,
            matrix_grid: (grid_left, grid_top, grid_right, grid_bottom),
            matrix,
            condition_area,
            conditions,
            buffer_size,
        },
    )
}

/// How far to the right of where a code starts the click goes.
pub const CLICK_RIGHT: u32 = 15;

/// How far below where a code starts the click goes.
pub const CLICK_DOWN: u32 = 10;

/// The move that takes the pointer to the upper left corner of the screen
/// from wherever it is.
pub const HOME_MOVE: i32 = -5000;

/// The distance between the starts of two neighbouring codes, of `count` in
/// a line, when the first starts at `first` and the last at `last`.
pub open spec fn pitch(first: int, last: int, count: int) -> int {
    (last - first) / (count - 1)
}

/// The point of the screenshot at which to click to pick a cell of a matrix
/// of `count` rows that lies in `area` with its codes at `grid`.
pub open spec fn click_point(
    area: (int, int, int, int),
    grid: (int, int, int, int),
    count: int,
    step: Step,
) -> (int, int) {
    (
        step.x * pitch(grid.0, grid.2, count) + area.0 + grid.0 + CLICK_RIGHT,
        step.y * pitch(grid.1, grid.3, count) + area.1 + grid.1 + CLICK_DOWN,
    )
}

/// Whether click points can be told for a matrix of `count` rows with its
/// codes at `grid`: there are two rows or more, and the last code does not
/// start before the first.
pub open spec fn grid_is_clickable(grid: (int, int, int, int), count: int) -> bool {
    count >= 2 && grid.0 <= grid.2 && grid.1 <= grid.3
}

/// Computes the points at which to click, one after another, to pick the
/// given cells. Gives `None` if there are no points to tell or one of them
/// has a coordinate beyond `i32::MAX`.
pub fn click_points(
    matrix_area: (u32, u32, u32, u32),
    matrix_grid: (u32, u32, u32, u32),
    matrix_size: usize,
    steps: &Vec<Step>,
) -> (r: Option<Vec<(u32, u32)>>)
    ensures
        match r {
            Some(points) => {
                &&& grid_is_clickable(rect_of(matrix_grid), matrix_size as int)
                &&& points@.len() == steps@.len()
                &&& forall|i: int|
                    0 <= i < steps@.len() ==> (#[trigger] points@[i]).0 <= i32::MAX && points@[i].1
                        <= i32::MAX && (points@[i].0 as int, points@[i].1 as int) == click_point(
                        rect_of(matrix_area),
                        rect_of(matrix_grid),
                        matrix_size as int,
                        steps@[i],
                    )
            },
            None => !grid_is_clickable(rect_of(matrix_grid), matrix_size as int) || exists|i: int|
                0 <= i < steps@.len() && {
                    let p = click_point(
                        rect_of(matrix_area),
                        rect_of(matrix_grid),
                        matrix_size as int,
                        #[trigger] steps@[i],
                    );
                    p.0 > i32::MAX || p.1 > i32::MAX
                },
        },
{
    if matrix_size < 2 || matrix_grid.0 > matrix_grid.2 || matrix_grid.1 > matrix_grid.3 {
        return None;
    }
    let lines: u64 = (matrix_size - 1) as u64;
    let item_width: u64 = (matrix_grid.2 - matrix_grid.0) as u64 / lines;
    let item_height: u64 = (matrix_grid.3 - matrix_grid.1) as u64 / lines;
    let left: u64 = matrix_area.0 as u64 + matrix_grid.0 as u64;
    let top: u64 = matrix_area.1 as u64 + matrix_grid.1 as u64;
    let mut points: Vec<(u32, u32)> = Vec::with_capacity(steps.len());
    let mut i: usize = 0;
    while i < steps.len()
        invariant
            i <= steps@.len(),
            matrix_size >= 2,
            lines == matrix_size - 1,
            item_width == pitch(matrix_grid.0 as int, matrix_grid.2 as int, matrix_size as int),
            item_height == pitch(matrix_grid.1 as int, matrix_grid.3 as int, matrix_size as int),
            item_width <= u32::MAX,
            item_height <= u32::MAX,
            left == matrix_area.0 + matrix_grid.0,
            top == matrix_area.1 + matrix_grid.1,
            grid_is_clickable(rect_of(matrix_grid), matrix_size as int),
            points@.len() == i,
            forall|k: int|
                0 <= k < i ==> (#[trigger] points@[k]).0 <= i32::MAX && points@[k].1 <= i32::MAX && (
                points@[k].0 as int, points@[k].1 as int) == click_point(
                    rect_of(matrix_area),
                    rect_of(matrix_grid),
                    matrix_size as int,
                    steps@[k],
                ),
        decreases steps@.len() - i,
    {
        let s = steps[i];
        proof {
            assert(s.x * item_width <= 255 * 0xFFFF_FFFF) by (nonlinear_arith)
                requires
                    0 <= s.x <= 255,
                    0 <= item_width <= 0xFFFF_FFFF,
            ;
            assert(s.y * item_height <= 255 * 0xFFFF_FFFF) by (nonlinear_arith)
                requires
                    0 <= s.y <= 255,
                    0 <= item_height <= 0xFFFF_FFFF,
            ;
        }
        let x: u64 = s.x as u64 * item_width + left + CLICK_RIGHT as u64;
        let y: u64 = s.y as u64 * item_height + top + CLICK_DOWN as u64;
        if x > i32::MAX as u64 || y > i32::MAX as u64 {
            return None;
        }
        points.push((x as u32, y as u32));
        i += 1;
    }
    Some(points)
}

/// The pointer moves that click the given points one after another: first
/// the move that takes the pointer home to the upper left corner, then for
/// each point the move to it from the point before, from the corner for the
/// first.
pub open spec fn moves_to(points: Seq<(u32, u32)>) -> Seq<(int, int)> {
    Seq::new(
        points.len() + 1,
        |i: int|
            if i == 0 {
                (HOME_MOVE as int, HOME_MOVE as int)
            } else if i == 1 {
                (points[0].0 as int, points[0].1 as int)
            } else {
                (points[i - 1].0 - points[i - 2].0, points[i - 1].1 - points[i - 2].1)
            },
    )
}

/// Computes the pointer moves that click the given points one after
/// another. Gives `None` if a point has a coordinate beyond `i32::MAX`.
pub fn pointer_moves(points: &Vec<(u32, u32)>) -> (r: Option<Vec<(i32, i32)>>)
    ensures
        match r {
            Some(moves) => moves@.len() == points@.len() + 1 && forall|i: int|
                0 <= i < moves@.len() ==> (#[trigger] moves@[i].0 as int, moves@[i].1 as int)
                    == moves_to(points@)[i],
            None => exists|i: int|
                0 <= i < points@.len() && ((#[trigger] points@[i]).0 > i32::MAX || points@[i].1
                    > i32::MAX),
        },
{
    let mut moves: Vec<(i32, i32)> = Vec::with_capacity(points.len());
    moves.push((HOME_MOVE, HOME_MOVE));
    let mut cur: (i32, i32) = (0, 0);
    let mut i: usize = 0;
    while i < points.len()
        invariant
            i <= points@.len(),
            moves@.len() == i + 1,
            forall|k: int| 0 <= k < i ==> (#[trigger] points@[k]).0 <= i32::MAX && points@[k].1
                <= i32::MAX,
            0 <= cur.0 && 0 <= cur.1,
            i == 0 ==> cur == (0i32, 0i32),
            i > 0 ==> cur.0 == points@[i - 1].0 && cur.1 == points@[i - 1].1,
            forall|k: int|
                0 <= k < moves@.len() ==> (#[trigger] moves@[k].0 as int, moves@[k].1 as int)
                    == moves_to(points@)[k],
        decreases points@.len() - i,
    {
        let p = points[i];
        if p.0 > i32::MAX as u32 || p.1 > i32::MAX as u32 {
            return None;
        }
        let x: i32 = p.0 as i32;
        let y: i32 = p.1 as i32;
        moves.push((x - cur.0, y - cur.1));
        cur = (x, y);
        i += 1;
    }
    Some(moves)
}

} // verus!
