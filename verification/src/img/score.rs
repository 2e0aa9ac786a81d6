//! How far a part of a mask is from a template: the number of pixels at
//! which the two differ when the template is stretched over the part.

use vstd::prelude::*;
use crate::img::{GrayImage, Mask};

verus! {

/// The index into a template axis of `to` pixels that is sampled for
/// position `i` of an axis of `from` pixels: `i * to / from` rounded down,
/// and the last index at most.
pub open spec fn sample(i: int, from: int, to: int) -> int {
    let s = i * to / from;
    if s < to - 1 {
        s
    } else {
        to - 1
    }
}

/// The part of a mask that is compared: `width` columns and `height` rows
/// from the upper left corner `(left, top)`.
pub struct Part {
    pub left: int,
    pub top: int,
    pub width: int,
    pub height: int,
}

/// The pixel at `(x, y)` of the part differs from the pixel of the template
/// that is sampled for it.
pub open spec fn differs(m: Mask, part: Part, t: Mask, x: int, y: int) -> bool {
    m.at(part.left + x, part.top + y) != t.at(
        sample(x, part.width, t.width),
        sample(y, part.height, t.height),
    )
}

/// The number of positions among the first `n` of row `y` of the part at
/// which the part differs from the template.
pub open spec fn row_errors(m: Mask, part: Part, t: Mask, y: int, n: int) -> nat
    decreases n,
{
    if n <= 0 {
        0
    } else {
        row_errors(m, part, t, y, n - 1) + if differs(m, part, t, n - 1, y) {
            1nat
        } else {
            0nat
        }
    }
}

/// The number of positions in the first `rows` rows of the part at which
/// the part differs from the template.
pub open spec fn errors(m: Mask, part: Part, t: Mask, rows: int) -> nat
    decreases rows,
{
    if rows <= 0 {
        0
    } else {
        errors(m, part, t, rows - 1) + row_errors(m, part, t, rows - 1, part.width)
    }
}

/// The error of a match as a fraction: `mismatches` of `area` pixels
/// differ. With an `area` of 0 there is nothing to compare and the error is
/// not defined.
#[derive(Debug, Copy, Clone, PartialEq, Eq, Structural)]
pub struct ErrorScore {
    pub mismatches: u64,
    pub area: u64,
}

proof fn lemma_row_errors_bound(m: Mask, part: Part, t: Mask, y: int, n: int)
    requires
        0 <= n,
    ensures
        row_errors(m, part, t, y, n) <= n,
    decreases n,
{
    if n > 0 {
        lemma_row_errors_bound(m, part, t, y, n - 1);
    }
}

proof fn lemma_errors_bound(m: Mask, part: Part, t: Mask, rows: int)
    requires
        0 <= rows,
        0 <= part.width,
    ensures
        errors(m, part, t, rows) <= rows * part.width,
    decreases rows,
{
    if rows > 0 {
        lemma_errors_bound(m, part, t, rows - 1);
        lemma_row_errors_bound(m, part, t, rows - 1, part.width);
        assert(rows * part.width == (rows - 1) * part.width + part.width) by (nonlinear_arith);
    } else {
        assert(rows * part.width == 0) by (nonlinear_arith)
            requires
                rows == 0,
        ;
    }
}

/// A part of a mask matches itself: against a template that is that very
/// part, pixel by pixel, no pixel differs.
pub proof fn lemma_exact_match(m: Mask, part: Part, t: Mask)
    requires
        part.width > 0,
        part.height > 0,
        t.width == part.width,
        t.height == part.height,
        forall|x: int, y: int|
            0 <= x < part.width && 0 <= y < part.height ==> #[trigger] t.at(x, y) == m.at(
                part.left + x,
                part.top + y,
            ),
    ensures
        errors(m, part, t, part.height) == 0,
{
    lemma_no_errors(m, part, t, part.height);
}

proof fn lemma_sample_same(i: int, n: int)
    requires
        0 <= i < n,
    ensures
        sample(i, n, n) == i,
{
    assert(i * n / n == i) by (nonlinear_arith)
        requires
            0 <= i,
            0 < n,
    ;
}

proof fn lemma_no_row_errors(m: Mask, part: Part, t: Mask, y: int, n: int)
    requires
        0 <= y < part.height,
        0 <= n <= part.width,
        t.width == part.width,
        t.height == part.height,
        forall|x: int, y: int|
            0 <= x < part.width && 0 <= y < part.height ==> #[trigger] t.at(x, y) == m.at(
                part.left + x,
                part.top + y,
            ),
    ensures
        row_errors(m, part, t, y, n) == 0,
    decreases n,
{
    if n > 0 {
        lemma_no_row_errors(m, part, t, y, n - 1);
        lemma_sample_same(n - 1, part.width);
        lemma_sample_same(y, part.height);
        assert(t.at(n - 1, y) == m.at(part.left + (n - 1), part.top + y));
    }
}

proof fn lemma_no_errors(m: Mask, part: Part, t: Mask, rows: int)
    requires
        0 <= rows <= part.height,
        0 < part.width,
        t.width == part.width,
        t.height == part.height,
        forall|x: int, y: int|
            0 <= x < part.width && 0 <= y < part.height ==> #[trigger] t.at(x, y) == m.at(
                part.left + x,
                part.top + y,
            ),
    ensures
        errors(m, part, t, rows) == 0,
    decreases rows,
{
    if rows > 0 {
        lemma_no_errors(m, part, t, rows - 1);
        lemma_no_row_errors(m, part, t, rows - 1, part.width);
    }
}

/// The index of the template that is sampled for position `i` of `from`.
fn sample_of(i: u32, from: u32, to: u32) -> (r: u32)
    requires
        i < from,
        to > 0,
    ensures
        r == sample(i as int, from as int, to as int),
        r < to,
{
    proof {
        assert(i * to <= 0xFFFF_FFFF * 0xFFFF_FFFF) by (nonlinear_arith)
            requires
                0 <= i <= 0xFFFF_FFFF,
                0 <= to <= 0xFFFF_FFFF,
        ;
        assert(0 <= i * to / (from as int)) by (nonlinear_arith)
            requires
                0 <= i,
                0 <= to,
                0 < from,
        ;
    }
    let s: u64 = (i as u64) * (to as u64) / (from as u64);
    if s < (to - 1) as u64 {
        s as u32
    } else {
        to - 1
    }
}

impl GrayImage {
    /// Compares the part of the mask from `self_left` to `self_right` and
    /// from `self_top` to `self_bottom`, the right column and the bottom row
    /// left out, with the template stretched over it: each pixel of the part
    /// with the pixel of the template that is sampled for it. Gives the
    /// number of pixels that differ and the number of pixels compared.
    pub fn template_match_error_score(
        &self,
        self_left: u32,
        self_top: u32,
        self_right: u32,
        self_bottom: u32,
        template: &GrayImage,
    ) -> (r: ErrorScore)
        requires
            self_left <= self_right < self@.width,
            self_top <= self_bottom < self@.height,
            template@.width > 0,
            template@.height > 0,
        ensures
            r.area == (self_right - self_left) * (self_bottom - self_top),
            r.mismatches == errors(
                self@,
                (Part {
                    left: self_left as int,
                    top: self_top as int,
                    width: self_right - self_left,
                    height: self_bottom - self_top,
                }),
                template@,
                self_bottom - self_top,
            ),
            r.mismatches <= r.area,
    {
        let self_width: u32 = self_right - self_left;
        let self_height: u32 = self_bottom - self_top;
        let template_width: u32 = template.width();
        let template_height: u32 = template.height();
        let ghost part = Part {
            left: self_left as int,
            top: self_top as int,
            width: self_width as int,
            height: self_height as int,
        };
        proof {
            assert(self_width * self_height <= 0xFFFF_FFFF * 0xFFFF_FFFF) by (nonlinear_arith)
                requires
                    0 <= self_width <= 0xFFFF_FFFF,
                    0 <= self_height <= 0xFFFF_FFFF,
            ;
            assert(self_height * self_width == self_width * self_height) by (nonlinear_arith);
        }
        let area: u64 = (self_width as u64) * (self_height as u64);
        let mut error: u64 = 0;
        let mut y: u32 = 0;
        while y < self_height
            invariant
                y <= self_height,
                self_width == self_right - self_left,
                self_height == self_bottom - self_top,
                self_right < self@.width,
                self_bottom < self@.height,
                template_width == template@.width,
                template_height == template@.height,
                template_width > 0,
                template_height > 0,
                part == (Part {
                    left: self_left as int,
                    top: self_top as int,
                    width: self_width as int,
                    height: self_height as int,
                }),
                error == errors(self@, part, template@, y as int),
                self_height * self_width <= 0xFFFF_FFFF * 0xFFFF_FFFF,
            decreases self_height - y,
        {
            let ty: u32 = sample_of(y, self_height, template_height);
            let mut row: u64 = 0;
            let mut x: u32 = 0;
            while x < self_width
                invariant
                    x <= self_width,
                    y < self_height,
                    self_width == self_right - self_left,
                    self_height == self_bottom - self_top,
                    self_right < self@.width,
                    self_bottom < self@.height,
                    template_width == template@.width,
                    template_height == template@.height,
                    template_width > 0,
                    ty == sample(y as int, self_height as int, template_height as int),
                    ty < template_height,
                    part == (Part {
                        left: self_left as int,
                        top: self_top as int,
                        width: self_width as int,
                        height: self_height as int,
                    }),
                    row == row_errors(self@, part, template@, y as int, x as int),
                    row <= x,
                decreases self_width - x,
            {
                let tx: u32 = sample_of(x, self_width, template_width);
                if self.pixel(self_left + x, self_top + y) != template.pixel(tx, ty) {
                    row += 1;
                }
                x += 1;
            }
            proof {
                lemma_errors_bound(self@, part, template@, y as int);
                lemma_errors_bound(self@, part, template@, y + 1);
                assert((y + 1) * self_width <= self_height * self_width) by (nonlinear_arith)
                    requires
                        y + 1 <= self_height,
                        0 <= self_width,
                ;
            }
            error += row;
            y += 1;
        }
        proof {
            lemma_errors_bound(self@, part, template@, self_height as int);
        }
        ErrorScore { mismatches: error, area }
    }
}

} // verus!
