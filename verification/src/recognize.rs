//! Finding the parts of the screen: the code matrix, the daemon sequences
//! and the buffer, by the colors of their frames.

use vstd::prelude::*;
use crate::img::bitmap::{Rgb, image_height, image_pixels, image_width, pixels_fit};
use crate::img::{GrayImage, Mask, color_near, image_sides, pixel_count_fits, INK};

verus! {

/// The color of the matrix frame and of the codes in it.
pub open spec fn spec_matrix_color() -> Rgb {
    Rgb { r: 0xD0, g: 0xED, b: 0x57 }
}

/// The color of the frame around the daemon sequences.
pub open spec fn spec_condition_border_color() -> Rgb {
    Rgb { r: 0x81, g: 0x96, b: 0x38 }
}

/// The color of the codes of the daemon sequences.
pub open spec fn spec_condition_color() -> Rgb {
    Rgb { r: 0xF0, g: 0xF0, b: 0xF0 }
}

/// The color of the frame around the buffer.
pub open spec fn spec_buffer_color() -> Rgb {
    Rgb { r: 0x4F, g: 0x5A, b: 0x25 }
}

/// The color of the matrix frame and of the codes in it.
#[verifier::when_used_as_spec(spec_matrix_color)]
pub fn matrix_color() -> (c: Rgb)
    ensures
        c == spec_matrix_color(),
{
    Rgb { r: 0xD0, g: 0xED, b: 0x57 }
}

/// The color of the frame around the daemon sequences.
#[verifier::when_used_as_spec(spec_condition_border_color)]
pub fn condition_border_color() -> (c: Rgb)
    ensures
        c == spec_condition_border_color(),
{
    Rgb { r: 0x81, g: 0x96, b: 0x38 }
}

/// The color of the codes of the daemon sequences.
#[verifier::when_used_as_spec(spec_condition_color)]
pub fn condition_color() -> (c: Rgb)
    ensures
        c == spec_condition_color(),
{
    Rgb { r: 0xF0, g: 0xF0, b: 0xF0 }
}

/// The color of the frame around the buffer.
#[verifier::when_used_as_spec(spec_buffer_color)]
pub fn buffer_color() -> (c: Rgb)
    ensures
        c == spec_buffer_color(),
{
    Rgb { r: 0x4F, g: 0x5A, b: 0x25 }
}

/// The tolerance with which the matrix and the codes are masked.
pub const CODE_TOLERANCE: u8 = 50;

/// The tolerance with which frames are masked.
pub const FRAME_TOLERANCE: u8 = 30;

/// The width in pixels of the run of frame color that marks a frame.
pub const FRAME_RUN: u32 = 300;

/// The height in pixels of the caption bar above the matrix.
pub const CAPTION_RUN: u32 = 5;

/// The least height in pixels of the matrix below its caption.
pub const MATRIX_MIN_HEIGHT: u32 = 100;

/// The height in pixels of the run of frame color that marks the right wall
/// of the buffer.
pub const WALL_RUN: u32 = 35;

/// The least height in pixels of the buffer's right wall below its top.
pub const WALL_MIN_HEIGHT: u32 = 30;

/// `m` is the mask of the rectangle of a bitmap from `left` to `right` and
/// from `top` to `bottom`, the right and the bottom edge left out, for the
/// color `color` with the tolerance `tolerance`.
pub open spec fn is_mask_of(
    m: Mask,
    pixels: Map<(int, int), (u8, u8, u8)>,
    color: Rgb,
    tolerance: u8,
    left: int,
    top: int,
    right: int,
    bottom: int,
) -> bool {
    &&& m.wf()
    &&& m.width == right - left
    &&& m.height == bottom - top
    &&& forall|x: int, y: int|
        m.holds(x, y) ==> #[trigger] m.at(x, y) == (if color_near(
            pixels[(left + x, top + y)],
            color,
            tolerance,
        ) {
            INK
        } else {
            0u8
        })
}

/// The filled rectangle of `w` columns and `h` rows at `(x, y)` is the
/// lowest one of the mask and, in its row, the rightmost.
pub open spec fn is_last_filled(m: Mask, x: int, y: int, w: int, h: int) -> bool {
    &&& m.filled(x, y, w, h)
    &&& forall|x2: int, y2: int|
        y2 > y || (y2 == y && x2 > x) ==> !#[trigger] m.filled(x2, y2, w, h)
}

/// Going down column `x` from row `y`, `dy` is the first distance of at
/// least `MATRIX_MIN_HEIGHT` at which the pixel one row further down is zero.
pub open spec fn is_drop(m: Mask, x: int, y: int, dy: int) -> bool {
    &&& MATRIX_MIN_HEIGHT <= dy < m.height - y - 1
    &&& !m.inked(x, y + dy + 1)
    &&& forall|d: int| MATRIX_MIN_HEIGHT <= d < dy ==> #[trigger] m.inked(x, y + d + 1)
}

/// Going left along row `y` from column `x`, `dx` is the first distance of
/// at least `FRAME_RUN`, and of `x` at most, at which the pixel is zero.
pub open spec fn is_reach(m: Mask, x: int, y: int, dx: int) -> bool {
    &&& FRAME_RUN <= dx <= x
    &&& !m.inked(x - dx, y)
    &&& forall|d: int| FRAME_RUN <= d < dx ==> #[trigger] m.inked(x - d, y)
}

/// `rect` is the inside of the matrix frame that the mask shows: below the
/// lower right corner of the caption bar, which is the lowest and rightmost
/// filled rectangle of `FRAME_RUN` by `CAPTION_RUN` pixels, down the right
/// wall to where it ends, and from there, one row up, to the left as far as
/// the pixels are not zero. `None` stands for a mask that shows no such
/// frame.
pub open spec fn is_matrix_frame(m: Mask, rect: Option<(int, int, int, int)>) -> bool {
    match rect {
        Some(r) => exists|xs: int, ys: int, dy: int, dx: int| #[trigger]
            frames_matrix(m, xs, ys, dy, dx) && r == (
                xs + FRAME_RUN - 1 - dx + 1,
                ys + CAPTION_RUN - 1 + 1,
                xs + FRAME_RUN - 1 - 1,
                ys + CAPTION_RUN - 1 + dy - 1,
            ),
        None => forall|xs: int, ys: int, dy: int, dx: int| !#[trigger] frames_matrix(
            m,
            xs,
            ys,
            dy,
            dx,
        ),
    }
}

/// The caption bar ends in the filled rectangle at `(xs, ys)`, the right
/// wall below it is `dy` pixels high, and the row above its end reaches `dx`
/// pixels to the left.
pub open spec fn frames_matrix(m: Mask, xs: int, ys: int, dy: int, dx: int) -> bool {
    &&& is_last_filled(m, xs, ys, FRAME_RUN as int, CAPTION_RUN as int)
    &&& is_drop(m, xs + FRAME_RUN - 1, ys + CAPTION_RUN - 1, dy)
    &&& is_reach(m, xs + FRAME_RUN - 1, ys + CAPTION_RUN - 1 + dy - 1, dx)
}

/// Going left along row `y` from column `x`, `dx` is the first distance of
/// at least `FRAME_RUN`, and less than `x`, at which the pixel one further to
/// the left is zero.
pub open spec fn is_border_run(m: Mask, x: int, y: int, dx: int) -> bool {
    &&& FRAME_RUN <= dx < x
    &&& !m.inked(x - dx - 1, y)
    &&& forall|d: int| FRAME_RUN <= d < dx ==> #[trigger] m.inked(x - d - 1, y)
}

/// `d` is the leftmost column from `left` to `right` with a pixel that is not
/// zero in the rows from `top` to `bottom`, or the column after `right` if
/// there is none. The edges belong to the rectangle.
pub open spec fn is_first_used(m: Mask, left: int, top: int, right: int, bottom: int, d: int) -> bool {
    &&& left <= d <= right + 1
    &&& m.is_blank(left, top, d - 1, bottom)
    &&& d <= right ==> exists|y: int| top <= y <= bottom && #[trigger] m.inked(d, y)
}

/// The bottom border of the frame ends in the filled rectangle at
/// `(xs, ys)`, runs `dx` pixels to the left, and the first thing inside the
/// frame is in column `d`.
pub open spec fn frames_conditions(m: Mask, xs: int, ys: int, dx: int, d: int) -> bool {
    &&& is_last_filled(m, xs, ys, FRAME_RUN as int, 1)
    &&& ys >= 1
    &&& is_border_run(m, xs + FRAME_RUN - 1, ys, dx)
    &&& is_first_used(m, xs + FRAME_RUN - 1 - dx + 1, 0, xs + FRAME_RUN - 1 - 1, ys - 1, d)
}

/// `frame` is what the mask shows of the frame around the daemon sequences,
/// as the column after its left border, the distance from the left border to
/// the first thing inside it, and its last row above the bottom border. The
/// bottom border is the lowest and rightmost run of `FRAME_RUN` pixels that
/// are not zero; it is followed to the left to its end. `None` stands for a
/// mask that shows no such frame.
pub open spec fn is_condition_frame(m: Mask, frame: Option<(int, int, int)>) -> bool {
    match frame {
        Some(f) => exists|xs: int, ys: int, dx: int, d: int| #[trigger]
            frames_conditions(m, xs, ys, dx, d) && f == (
                xs + FRAME_RUN - 1 - dx + 1,
                d - (xs + FRAME_RUN - 1 - dx),
                ys - 1,
            ),
        None => forall|xs: int, ys: int, dx: int, d: int| !#[trigger] frames_conditions(
            m,
            xs,
            ys,
            dx,
            d,
        ),
    }
}

/// Going up column `x` from row `y`, `dy` is the first distance of at least
/// `WALL_MIN_HEIGHT`, and less than `y`, at which the pixel one row further
/// up is zero.
pub open spec fn is_rise(m: Mask, x: int, y: int, dy: int) -> bool {
    &&& WALL_MIN_HEIGHT <= dy < y
    &&& !m.inked(x, y - dy - 1)
    &&& forall|d: int| WALL_MIN_HEIGHT <= d < dy ==> #[trigger] m.inked(x, y - d - 1)
}

/// The number of pixels that are not zero among the first `n` of row `y`.
pub open spec fn ink_count(m: Mask, y: int, n: int) -> nat
    decreases n,
{
    if n <= 0 {
        0
    } else {
        ink_count(m, y, n - 1) + if m.inked(n - 1, y) {
            1nat
        } else {
            0nat
        }
    }
}

/// The right wall of the buffer ends in the filled rectangle at `(xs, ys)`
/// and is `dy` pixels high.
pub open spec fn frames_buffer(m: Mask, xs: int, ys: int, dy: int) -> bool {
    &&& is_last_filled(m, xs, ys, 1, WALL_RUN as int)
    &&& is_rise(m, xs, ys + WALL_RUN - 1, dy)
}

/// `size` is the number of buffer slots that the mask shows: half the
/// number of pixels that are not zero to the left of the right wall, in the
/// row half way up the wall. The wall is the lowest and rightmost run of
/// `WALL_RUN` pixels in a column that are not zero. `None` stands for a mask
/// that shows no such wall.
pub open spec fn is_buffer_size(m: Mask, size: Option<int>) -> bool {
    match size {
        Some(n) => exists|xs: int, ys: int, dy: int| #[trigger]
            frames_buffer(m, xs, ys, dy) && n == ink_count(m, ys + WALL_RUN - 1 - dy / 2, xs) / 2,
        None => forall|xs: int, ys: int, dy: int| !#[trigger] frames_buffer(m, xs, ys, dy),
    }
}

/// There is one lowest and rightmost filled rectangle at most.
proof fn lemma_last_filled_unique(m: Mask, x: int, y: int, x2: int, y2: int, w: int, h: int)
    requires
        is_last_filled(m, x, y, w, h),
        is_last_filled(m, x2, y2, w, h),
    ensures
        x == x2 && y == y2,
{
}

/// Finds the inside of the matrix frame in the mask of the left half of the
/// screen.
pub fn matrix_frame(img: &GrayImage) -> (r: Option<(u32, u32, u32, u32)>)
    ensures
        r matches Some(q) ==> q.0 <= q.2 < img@.width && q.1 <= q.3 < img@.height,
        is_matrix_frame(
            img@,
            match r {
                Some(q) => Some((q.0 as int, q.1 as int, q.2 as int, q.3 as int)),
                None => None,
            },
        ),
{
    let height = img.height();
    let (x_start, y_start) = match img.rfind_rect(FRAME_RUN, CAPTION_RUN) {
        Some(corner) => corner,
        None => {
            return None;
        },
    };
    let x_right: u32 = x_start + FRAME_RUN - 1;
    let y_top: u32 = y_start + CAPTION_RUN - 1;
    proof {
        assert(is_last_filled(
            img@,
            x_start as int,
            y_start as int,
            FRAME_RUN as int,
            CAPTION_RUN as int,
        ));
        assert forall|xs: int, ys: int, dy: int, dx: int| #[trigger]
            frames_matrix(img@, xs, ys, dy, dx) implies xs == x_start && ys == y_start by {
            lemma_last_filled_unique(
                img@,
                xs,
                ys,
                x_start as int,
                y_start as int,
                FRAME_RUN as int,
                CAPTION_RUN as int,
            );
        }
    }
    let below: u32 = height - y_top - 1;
    let mut dy: u32 = MATRIX_MIN_HEIGHT;
    while dy < below && img.pixel(x_right, y_top + dy + 1) != 0
        invariant
            MATRIX_MIN_HEIGHT <= dy,
            below == img@.height - y_top - 1,
            x_right < img@.width,
            img@.wf(),
            forall|d: int|
                MATRIX_MIN_HEIGHT <= d < dy && d < below ==> #[trigger] img@.inked(
                    x_right as int,
                    y_top + d + 1,
                ),
        decreases below - dy,
    {
        dy += 1;
    }
    if dy >= below {
        proof {
            assert forall|xs: int, ys: int, d: int, dx: int| !#[trigger] frames_matrix(
                img@,
                xs,
                ys,
                d,
                dx,
            ) by {
                if frames_matrix(img@, xs, ys, d, dx) {
                    assert(img@.inked(x_right as int, y_top + d + 1));
                }
            }
        }
        return None;
    }
    let y_bottom: u32 = y_top + dy;
    let row: u32 = y_bottom - 1;
    proof {
        assert(is_drop(img@, x_right as int, y_top as int, dy as int));
        assert forall|xs: int, ys: int, d: int, dx: int| #[trigger]
            frames_matrix(img@, xs, ys, d, dx) implies d == dy by {
            if d < dy {
                assert(img@.inked(x_right as int, y_top + d + 1));
            } else if dy < d {
                assert(img@.inked(x_right as int, y_top + dy + 1));
            }
        }
    }
    let mut dx: u32 = FRAME_RUN;
    while dx <= x_right && img.pixel(x_right - dx, row) != 0
        invariant
            FRAME_RUN <= dx,
            x_right < img@.width,
            row < img@.height,
            img@.wf(),
            forall|d: int|
                FRAME_RUN <= d < dx && d <= x_right ==> #[trigger] img@.inked(
                    x_right - d,
                    row as int,
                ),
        decreases x_right + 1 - dx,
    {
        dx += 1;
    }
    if dx > x_right {
        proof {
            assert forall|xs: int, ys: int, d: int, e: int| !#[trigger] frames_matrix(
                img@,
                xs,
                ys,
                d,
                e,
            ) by {
                if frames_matrix(img@, xs, ys, d, e) {
                    assert(img@.inked(x_right - e, row as int));
                }
            }
        }
        return None;
    }
    let x_left: u32 = x_right - dx;
    proof {
        assert(is_reach(img@, x_right as int, row as int, dx as int));
        assert(frames_matrix(img@, x_start as int, y_start as int, dy as int, dx as int));
    }
    Some((x_left + 1, y_top + 1, x_right - 1, y_bottom - 1))
}

/// Finds in the mask of the strip to the right of the matrix the frame
/// around the daemon sequences: the column after its left border, the
/// distance from the left border to the first thing inside it, and its last
/// row above the bottom border.
pub fn condition_frame(img: &GrayImage) -> (r: Option<(u32, u32, u32)>)
    ensures
        r matches Some(q) ==> q.0 < img@.width && 1 <= q.1 <= img@.width && q.2 + 1 < img@.height,
        is_condition_frame(
            img@,
            match r {
                Some(q) => Some((q.0 as int, q.1 as int, q.2 as int)),
                None => None,
            },
        ),
{
    let (x_start, y_bottom) = match img.rfind_rect(FRAME_RUN, 1) {
        Some(corner) => corner,
        None => {
            return None;
        },
    };
    let x_right: u32 = x_start + FRAME_RUN - 1;
    proof {
        assert(is_last_filled(img@, x_start as int, y_bottom as int, FRAME_RUN as int, 1));
        assert forall|xs: int, ys: int, dx: int, d: int| #[trigger]
            frames_conditions(img@, xs, ys, dx, d) implies xs == x_start && ys == y_bottom by {
            lemma_last_filled_unique(
                img@,
                xs,
                ys,
                x_start as int,
                y_bottom as int,
                FRAME_RUN as int,
                1,
            );
        }
    }
    if y_bottom == 0 {
        return None;
    }
    let mut dx: u32 = FRAME_RUN;
    while dx < x_right && img.pixel(x_right - dx - 1, y_bottom) != 0
        invariant
            FRAME_RUN <= dx,
            x_right < img@.width,
            y_bottom < img@.height,
            img@.wf(),
            forall|d: int|
                FRAME_RUN <= d < dx && d < x_right ==> #[trigger] img@.inked(
                    x_right - d - 1,
                    y_bottom as int,
                ),
        decreases x_right - dx,
    {
        dx += 1;
    }
    if dx >= x_right {
        proof {
            assert forall|xs: int, ys: int, e: int, d: int| !#[trigger] frames_conditions(
                img@,
                xs,
                ys,
                e,
                d,
            ) by {
                if frames_conditions(img@, xs, ys, e, d) {
                    assert(img@.inked(x_right - e - 1, y_bottom as int));
                }
            }
        }
        return None;
    }
    let x_left: u32 = x_right - dx;
    let first_used: u32 = match img.rect_hull(x_left + 1, 0, x_right - 1, y_bottom - 1) {
        Some(hull) => {
            proof {
                assert(img@.is_blank(x_left + 1, 0, hull.0 - 1, y_bottom - 1));
            }
            hull.0
        },
        None => x_right,
    };
    proof {
        assert(is_border_run(img@, x_right as int, y_bottom as int, dx as int));
        assert(is_first_used(img@, x_left + 1, 0, x_right - 1, y_bottom - 1, first_used as int));
        assert(frames_conditions(
            img@,
            x_start as int,
            y_bottom as int,
            dx as int,
            first_used as int,
        ));
    }
    Some((x_left + 1, first_used - x_left, y_bottom - 1))
}

/// Counts the pixels that are not zero among the first `n` of row `y`.
fn count_ink(img: &GrayImage, y: u32, n: u32) -> (r: u32)
    requires
        y < img@.height,
        n <= img@.width,
    ensures
        r == ink_count(img@, y as int, n as int),
        r <= n,
{
    let mut r: u32 = 0;
    let mut x: u32 = 0;
    while x < n
        invariant
            x <= n <= img@.width,
            y < img@.height,
            r == ink_count(img@, y as int, x as int),
            r <= x,
        decreases n - x,
    {
        if img.pixel(x, y) != 0 {
            r += 1;
        }
        x += 1;
    }
    r
}

/// Reads the number of buffer slots off the mask of the strip above the
/// daemon sequences.
pub fn buffer_slots(img: &GrayImage) -> (r: Option<usize>)
    ensures
        is_buffer_size(
            img@,
            match r {
                Some(n) => Some(n as int),
                None => None,
            },
        ),
{
    let (x_right, y_start) = match img.rfind_rect(1, WALL_RUN) {
        Some(corner) => corner,
        None => {
            return None;
        },
    };
    let y_bottom: u32 = y_start + WALL_RUN - 1;
    proof {
        assert(is_last_filled(img@, x_right as int, y_start as int, 1, WALL_RUN as int));
        assert forall|xs: int, ys: int, dy: int| #[trigger]
            frames_buffer(img@, xs, ys, dy) implies xs == x_right && ys == y_start by {
            lemma_last_filled_unique(
                img@,
                xs,
                ys,
                x_right as int,
                y_start as int,
                1,
                WALL_RUN as int,
            );
        }
    }
    let mut dy: u32 = WALL_MIN_HEIGHT;
    while dy < y_bottom && img.pixel(x_right, y_bottom - dy - 1) != 0
        invariant
            WALL_MIN_HEIGHT <= dy,
            x_right < img@.width,
            y_bottom < img@.height,
            img@.wf(),
            forall|d: int|
                WALL_MIN_HEIGHT <= d < dy && d < y_bottom ==> #[trigger] img@.inked(
                    x_right as int,
                    y_bottom - d - 1,
                ),
        decreases y_bottom - dy,
    {
        dy += 1;
    }
    if dy >= y_bottom {
        proof {
            assert forall|xs: int, ys: int, d: int| !#[trigger] frames_buffer(img@, xs, ys, d) by {
                if frames_buffer(img@, xs, ys, d) {
                    assert(img@.inked(x_right as int, y_bottom - d - 1));
                }
            }
        }
        return None;
    }
    let y: u32 = y_bottom - dy / 2;
    let count = count_ink(img, y, x_right);
    proof {
        assert(is_rise(img@, x_right as int, y_bottom as int, dy as int));
        assert(frames_buffer(img@, x_right as int, y_start as int, dy as int));
    }
    Some((count / 2) as usize)
}

/// `area` is the inside of the matrix frame that a bitmap of `width` by
/// `height` pixels shows in its left half, masked for the matrix color.
pub open spec fn shows_matrix_area(
    pixels: Map<(int, int), (u8, u8, u8)>,
    width: int,
    height: int,
    area: Option<(int, int, int, int)>,
) -> bool {
    exists|m: Mask| #[trigger]
        is_mask_of(m, pixels, matrix_color(), CODE_TOLERANCE, 0, 0, width / 2, height)
            && is_matrix_frame(m, area)
}

/// The strip in which the frame around the daemon sequences is looked for,
/// to the right of the matrix area and as high as it, lies in a bitmap of
/// `width` by `height` pixels, and the pixels of the bitmap can be read.
pub open spec fn condition_strip_fits(width: int, height: int, matrix: (int, int, int, int)) -> bool {
    &&& pixels_fit(width, height)
    &&& matrix.2 <= width
    &&& matrix.1 <= matrix.3 <= height
}

/// `area` is the area of the daemon sequences that a bitmap shows to the
/// right of the matrix area, masked for the color of their frame: from the
/// column after the left border of the frame as far to the right as the
/// first thing inside the frame is from the left border, and from the top of
/// the matrix area to the last row above the bottom border.
pub open spec fn shows_condition_area(
    pixels: Map<(int, int), (u8, u8, u8)>,
    width: int,
    matrix: (int, int, int, int),
    area: Option<(int, int, int, int)>,
) -> bool {
    exists|m: Mask, frame: Option<(int, int, int)>| #[trigger]
        is_mask_of(
            m,
            pixels,
            condition_border_color(),
            FRAME_TOLERANCE,
            matrix.2,
            matrix.1,
            width,
            matrix.3,
        ) && #[trigger] is_condition_frame(m, frame) && area == match frame {
            Some(f) => Some((matrix.2 + f.0, matrix.1, matrix.2 + f.1 - 1, matrix.1 + f.2)),
            None => None,
        }
}

/// The strip in which the buffer is looked for, as wide as the area of the
/// daemon sequences and from half to three quarters of the height above it,
/// lies in a bitmap of `width` by `height` pixels, and the pixels of the
/// bitmap can be read.
pub open spec fn buffer_strip_fits(width: int, height: int, conditions: (int, int, int, int)) -> bool {
    &&& pixels_fit(width, height)
    &&& conditions.0 <= conditions.2 <= width
    &&& 3 * conditions.1 / 4 <= height
}

/// `size` is the number of buffer slots that a bitmap shows above the area
/// of the daemon sequences, masked for the color of the buffer frame.
pub open spec fn shows_buffer_size(
    pixels: Map<(int, int), (u8, u8, u8)>,
    conditions: (int, int, int, int),
    size: Option<int>,
) -> bool {
    exists|m: Mask| #[trigger]
        is_mask_of(
            m,
            pixels,
            buffer_color(),
            FRAME_TOLERANCE,
            conditions.0,
            conditions.1 / 2,
            conditions.2,
            3 * conditions.1 / 4,
        ) && is_buffer_size(m, size)
}

/// Finds the inside of the matrix frame on a screenshot, as its left, top,
/// right and bottom edge. Gives `None` if the screenshot shows no matrix
/// frame, or has more pixels than can be read.
pub fn find_matrix_area(img: &bmp::Image) -> (r: Option<(u32, u32, u32, u32)>)
    ensures
        r matches Some(q) ==> q.0 <= q.2 < image_width(*img) / 2 && q.1 <= q.3 < image_height(
            *img,
        ),
        if pixels_fit(image_width(*img), image_height(*img)) {
            shows_matrix_area(
                image_pixels(*img),
                image_width(*img),
                image_height(*img),
                match r {
                    Some(q) => Some((q.0 as int, q.1 as int, q.2 as int, q.3 as int)),
                    None => None,
                },
            )
        } else {
            r.is_none()
        },
{
    let (width, height) = image_sides(img);
    if !pixel_count_fits(width, height) {
        return None;
    }
    let half: u32 = width / 2;
    let mask = GrayImage::filter(img, &matrix_color(), CODE_TOLERANCE, 0, 0, half, height);
    let r = matrix_frame(&mask);
    proof {
        assert(is_mask_of(
            mask@,
            image_pixels(*img),
            matrix_color(),
            CODE_TOLERANCE,
            0,
            0,
            image_width(*img) / 2,
            image_height(*img),
        ));
    }
    r
}

/// Finds the area of the daemon sequences on a screenshot, given the matrix
/// area. Gives `None` if the matrix area does not lie in the screenshot, the
/// screenshot shows no frame to the right of it, or the screenshot has more
/// pixels than can be read.
pub fn find_condition_area(img: &bmp::Image, matrix_area: &(u32, u32, u32, u32)) -> (r: Option<
    (u32, u32, u32, u32),
>)
    ensures
        r matches Some(q) ==> matrix_area.2 <= q.0 < image_width(*img) && q.2 < image_width(*img)
            && q.1 == matrix_area.1 && q.3 < matrix_area.3 <= image_height(*img),
        if condition_strip_fits(
            image_width(*img),
            image_height(*img),
            (
                matrix_area.0 as int,
                matrix_area.1 as int,
                matrix_area.2 as int,
                matrix_area.3 as int,
            ),
        ) {
            shows_condition_area(
                image_pixels(*img),
                image_width(*img),
                (
                    matrix_area.0 as int,
                    matrix_area.1 as int,
                    matrix_area.2 as int,
                    matrix_area.3 as int,
                ),
                match r {
                    Some(q) => Some((q.0 as int, q.1 as int, q.2 as int, q.3 as int)),
                    None => None,
                },
            )
        } else {
            r.is_none()
        },
{
    let matrix_top: u32 = matrix_area.1;
    let matrix_right: u32 = matrix_area.2;
    let matrix_bottom: u32 = matrix_area.3;
    let (width, height) = image_sides(img);
    if !pixel_count_fits(width, height) || matrix_right > width || matrix_top > matrix_bottom
        || matrix_bottom > height {
        return None;
    }
    let mask = GrayImage::filter(
        img,
        &condition_border_color(),
        FRAME_TOLERANCE,
        matrix_right,
        matrix_top,
        width,
        matrix_bottom,
    );
    let frame = condition_frame(&mask);
    let ghost matrix = (
        matrix_area.0 as int,
        matrix_area.1 as int,
        matrix_area.2 as int,
        matrix_area.3 as int,
    );
    proof {
        assert(is_mask_of(
            mask@,
            image_pixels(*img),
            condition_border_color(),
            FRAME_TOLERANCE,
            matrix.2,
            matrix.1,
            image_width(*img),
            matrix.3,
        ));
    }
    match frame {
        Some((left, span, last_row)) => {
            proof {
                let (xs, ys, dx, d) = choose|xs: int, ys: int, dx: int, d: int| #[trigger]
                    frames_conditions(mask@, xs, ys, dx, d) && (left as int, span as int, last_row as int) == (
                        xs + FRAME_RUN - 1 - dx + 1,
                        d - (xs + FRAME_RUN - 1 - dx),
                        ys - 1,
                    );
                assert(mask@.filled(xs, ys, FRAME_RUN as int, 1));
            }
            Some(
                (
                    matrix_right + left,
                    matrix_top,
                    matrix_right + span - 1,
                    matrix_top + last_row,
                ),
            )
        },
        None => None,
    }
}

/// Reads the size of the buffer off a screenshot, given the area of the
/// daemon sequences. Gives `None` if that area does not lie in the
/// screenshot, the screenshot shows no buffer above it, or the screenshot
/// has more pixels than can be read.
pub fn find_buffer_size(img: &bmp::Image, condition_area: &(u32, u32, u32, u32)) -> (r: Option<
    usize,
>)
    ensures
        if buffer_strip_fits(
            image_width(*img),
            image_height(*img),
            (
                condition_area.0 as int,
                condition_area.1 as int,
                condition_area.2 as int,
                condition_area.3 as int,
            ),
        ) {
            shows_buffer_size(
                image_pixels(*img),
                (
                    condition_area.0 as int,
                    condition_area.1 as int,
                    condition_area.2 as int,
                    condition_area.3 as int,
                ),
                match r {
                    Some(n) => Some(n as int),
                    None => None,
                },
            )
        } else {
            r.is_none()
        },
{
    let condition_left: u32 = condition_area.0;
    let condition_top: u32 = condition_area.1;
    let condition_right: u32 = condition_area.2;
    let (width, height) = image_sides(img);
    let top: u32 = condition_top / 2;
    let bottom: u32 = (3 * (condition_top as u64) / 4) as u32;
    if !pixel_count_fits(width, height) || condition_left > condition_right || condition_right
        > width || bottom > height {
        return None;
    }
    let mask = GrayImage::filter(
        img,
        &buffer_color(),
        FRAME_TOLERANCE,
        condition_left,
        top,
        condition_right,
        bottom,
    );
    let r = buffer_slots(&mask);
    proof {
        assert(is_mask_of(
            mask@,
            image_pixels(*img),
            buffer_color(),
            FRAME_TOLERANCE,
            condition_area.0 as int,
            condition_area.1 as int / 2,
            condition_area.2 as int,
            3 * (condition_area.1 as int) / 4,
        ));
    }
    r
}

} // verus!
