//! Masks: what is left of a bitmap when only the pixels of one color are
//! kept, and the geometry that is read off them.

use vstd::prelude::*;
use crate::img::bitmap::{
    Rgb, get_height, get_pixel, get_width, image_height, image_pixels, image_sides_fit,
    image_width, new_image, pixels_fit, set_pixel, MAX_IMAGE_BYTES, MAX_IMAGE_SIDE,
};

pub mod bitmap;
pub mod clip;
pub mod score;

verus! {

/// The value of a mask pixel whose color matched.
pub const INK: u8 = 255;

/// A mask as a mathematical object: its sides and its pixels row by row.
pub struct Mask {
    pub width: int,
    pub height: int,
    pub pixels: Seq<u8>,
}

impl Mask {
    /// The sides are those of a `GrayImage` and there is a pixel for each
    /// position.
    pub open spec fn wf(self) -> bool {
        &&& 0 <= self.width <= u32::MAX
        &&& 0 <= self.height <= u32::MAX
        &&& self.pixels.len() == self.width * self.height
    }

    /// The position lies inside the mask.
    pub open spec fn holds(self, x: int, y: int) -> bool {
        0 <= x < self.width && 0 <= y < self.height
    }

    /// The pixel in column `x` of row `y`.
    pub open spec fn at(self, x: int, y: int) -> u8 {
        self.pixels[y * self.width + x]
    }

    /// The pixel in column `x` of row `y` is not zero.
    pub open spec fn inked(self, x: int, y: int) -> bool {
        self.at(x, y) != 0
    }

    /// The rectangle of `w` columns and `h` rows with its upper left corner
    /// at `(x, y)` lies inside the mask and all its pixels are not zero.
    pub open spec fn filled(self, x: int, y: int, w: int, h: int) -> bool {
        &&& 0 <= x
        &&& 0 <= y
        &&& x + w <= self.width
        &&& y + h <= self.height
        &&& forall|dx: int, dy: int|
            0 <= dx < w && 0 <= dy < h ==> #[trigger] self.inked(x + dx, y + dy)
    }

    /// Some pixel of column `x` is not zero.
    pub open spec fn column_used(self, x: int) -> bool {
        exists|y: int| 0 <= y < self.height && #[trigger] self.inked(x, y)
    }

    /// Some pixel of row `y` is not zero.
    pub open spec fn row_used(self, y: int) -> bool {
        exists|x: int| 0 <= x < self.width && #[trigger] self.inked(x, y)
    }

    /// `hull` is the smallest rectangle that holds every pixel of the
    /// rectangle from `left` to `right` and from `top` to `bottom` that is not
    /// zero: it holds them all, and each of its four edges passes through one
    /// of them. All rectangles are given by their left, top, right and bottom
    /// edge, and the edges belong to them.
    pub open spec fn is_hull(
        self,
        left: int,
        top: int,
        right: int,
        bottom: int,
        hull: (int, int, int, int),
    ) -> bool {
        &&& left <= hull.0 <= hull.2 <= right
        &&& top <= hull.1 <= hull.3 <= bottom
        &&& forall|x: int, y: int|
            left <= x <= right && top <= y <= bottom && #[trigger] self.inked(x, y) ==> hull.0 <= x
                <= hull.2 && hull.1 <= y <= hull.3
        &&& exists|y: int| top <= y <= bottom && #[trigger] self.inked(hull.0, y)
        &&& exists|y: int| top <= y <= bottom && #[trigger] self.inked(hull.2, y)
        &&& exists|x: int| left <= x <= right && #[trigger] self.inked(x, hull.1)
        &&& exists|x: int| left <= x <= right && #[trigger] self.inked(x, hull.3)
    }

    /// All pixels of the rectangle from `left` to `right` and from `top` to
    /// `bottom`, the four edges included, are zero.
    pub open spec fn is_blank(self, left: int, top: int, right: int, bottom: int) -> bool {
        forall|x: int, y: int|
            left <= x <= right && top <= y <= bottom ==> !#[trigger] self.inked(x, y)
    }
}

/// Whether a channel is within `tolerance` of the wanted value.
pub open spec fn channel_near(value: u8, wanted: u8, tolerance: u8) -> bool {
    wanted - tolerance <= value <= wanted + tolerance
}

/// Whether a color is within `tolerance` of the wanted color in each of its
/// three channels.
pub open spec fn color_near(c: (u8, u8, u8), wanted: Rgb, tolerance: u8) -> bool {
    &&& channel_near(c.0, wanted.r, tolerance)
    &&& channel_near(c.1, wanted.g, tolerance)
    &&& channel_near(c.2, wanted.b, tolerance)
}

/// The position of a pixel in the row-by-row storage lies inside it.
pub proof fn lemma_index_in_range(width: int, height: int, x: int, y: int)
    requires
        0 <= x < width,
        0 <= y < height,
    ensures
        0 <= y * width + x < width * height,
        y * width + x == width * y + x,
{
    assert(y * width + x < width * height) by (nonlinear_arith)
        requires
            0 <= x < width,
            0 <= y < height,
    ;
    assert(0 <= y * width) by (nonlinear_arith)
        requires
            0 <= y,
            0 < width,
    ;
    assert(y * width == width * y) by (nonlinear_arith);
}

/// A rectangle inside an image whose number of pixels fits 32 bits has a
/// number of pixels that fits 32 bits, and memory.
pub proof fn lemma_part_fits(w: int, h: int, width: int, height: int)
    requires
        0 <= w <= width,
        0 <= h <= height,
        pixels_fit(width, height),
    ensures
        pixels_fit(w, h),
        w * h <= usize::MAX,
{
    assert(w * h <= width * height) by (nonlinear_arith)
        requires
            0 <= w <= width,
            0 <= h <= height,
    ;
}

/// The sides of a bitmap: its width and its height.
pub fn image_sides(img: &bmp::Image) -> (sides: (u32, u32))
    ensures
        sides.0 == image_width(*img),
        sides.1 == image_height(*img),
{
    (get_width(img), get_height(img))
}

/// Tells whether an image of these sides holds a pixel for each of its
/// positions, so that its pixels can be read.
pub fn pixel_count_fits(width: u32, height: u32) -> (r: bool)
    ensures
        r == pixels_fit(width as int, height as int),
{
    proof {
        assert(width * height <= 0xFFFF_FFFF * 0xFFFF_FFFF) by (nonlinear_arith)
            requires
                0 <= width <= 0xFFFF_FFFF,
                0 <= height <= 0xFFFF_FFFF,
        ;
    }
    (width as u64) * (height as u64) <= u32::MAX as u64
}

/// A width-by-height matrix of bytes: 255 where the pixel of a bitmap had
/// the wanted color, 0 elsewhere.
pub struct GrayImage {
    w: u32,
    h: u32,
    data: Vec<u8>,
}

impl View for GrayImage {
    type V = Mask;

    closed spec fn view(&self) -> Mask {
        Mask { width: self.w as int, height: self.h as int, pixels: self.data@ }
    }
}

impl GrayImage {
    #[verifier::type_invariant]
    spec fn well_formed(self) -> bool {
        self.data@.len() == self.w * self.h
    }

    /// Makes a mask of the given sides from its bytes, row by row. Gives
    /// `None` unless there is one byte for each pixel.
    pub fn from_pixels(data: Vec<u8>, w: u32, h: u32) -> (r: Option<Self>)
        ensures
            match r {
                Some(img) => img@ == (Mask { width: w as int, height: h as int, pixels: data@ })
                    && img@.wf(),
                None => data@.len() != w * h,
            },
    {
        proof {
            assert(w * h <= 0xFFFF_FFFF * 0xFFFF_FFFF) by (nonlinear_arith)
                requires
                    0 <= w <= 0xFFFF_FFFF,
                    0 <= h <= 0xFFFF_FFFF,
            ;
        }
        if (w as u64) * (h as u64) != data.len() as u64 {
            return None;
        }
        Some(GrayImage { w, h, data })
    }

    /// Keeps of the rectangle of a bitmap from `left` to `right` and from
    /// `top` to `bottom`, the right and the bottom edge left out, the pixels
    /// whose color is within `threshold` of `color` in each channel: they
    /// become 255, all others 0.
    pub fn filter(
        img: &bmp::Image,
        color: &Rgb,
        threshold: u8,
        left: u32,
        top: u32,
        right: u32,
        bottom: u32,
    ) -> (r: Self)
        requires
            pixels_fit(image_width(*img), image_height(*img)),
            left <= right <= image_width(*img),
            top <= bottom <= image_height(*img),
        ensures
            r@.wf(),
            r@.width == right - left,
            r@.height == bottom - top,
            forall|x: int, y: int|
                r@.holds(x, y) ==> #[trigger] r@.at(x, y) == (if color_near(
                    image_pixels(*img)[(left + x, top + y)],
                    *color,
                    threshold,
                ) {
                    INK
                } else {
                    0u8
                }),
    {
        let w: u32 = right - left;
        let h: u32 = bottom - top;
        proof {
            lemma_part_fits(w as int, h as int, image_width(*img), image_height(*img));
        }
        let r_min: u8 = if color.r >= threshold {
            color.r - threshold
        } else {
            0
        };
        let g_min: u8 = if color.g >= threshold {
            color.g - threshold
        } else {
            0
        };
        let b_min: u8 = if color.b >= threshold {
            color.b - threshold
        } else {
            0
        };
        let r_max: u8 = if color.r <= 255 - threshold {
            color.r + threshold
        } else {
            255
        };
        let g_max: u8 = if color.g <= 255 - threshold {
            color.g + threshold
        } else {
            255
        };
        let b_max: u8 = if color.b <= 255 - threshold {
            color.b + threshold
        } else {
            255
        };
        let mut data: Vec<u8> = Vec::new();
        let mut y: u32 = 0;
        while y < h
            invariant
                y <= h,
                w == right - left,
                h == bottom - top,
                right <= image_width(*img),
                bottom <= image_height(*img),
                pixels_fit(image_width(*img), image_height(*img)),
                w * h <= usize::MAX,
                r_min == (if color.r >= threshold { color.r - threshold } else { 0 }),
                g_min == (if color.g >= threshold { color.g - threshold } else { 0 }),
                b_min == (if color.b >= threshold { color.b - threshold } else { 0 }),
                r_max == (if color.r <= 255 - threshold { color.r + threshold } else { 255 }),
                g_max == (if color.g <= 255 - threshold { color.g + threshold } else { 255 }),
                b_max == (if color.b <= 255 - threshold { color.b + threshold } else { 255 }),
                data@.len() == y * w,
                forall|x2: int, y2: int|
                    0 <= x2 < w && 0 <= y2 < y ==> #[trigger] data@[y2 * w + x2] == (
                    if color_near(image_pixels(*img)[(left + x2, top + y2)], *color, threshold) {
                        INK
                    } else {
                        0u8
                    }),
            decreases h - y,
        {
            let mut x: u32 = 0;
            while x < w
                invariant
                    x <= w,
                    y < h,
                    w == right - left,
                    h == bottom - top,
                    right <= image_width(*img),
                    bottom <= image_height(*img),
                    pixels_fit(image_width(*img), image_height(*img)),
                    w * h <= usize::MAX,
                    r_min == (if color.r >= threshold { color.r - threshold } else { 0 }),
                    g_min == (if color.g >= threshold { color.g - threshold } else { 0 }),
                    b_min == (if color.b >= threshold { color.b - threshold } else { 0 }),
                    r_max == (if color.r <= 255 - threshold { color.r + threshold } else { 255 }),
                    g_max == (if color.g <= 255 - threshold { color.g + threshold } else { 255 }),
                    b_max == (if color.b <= 255 - threshold { color.b + threshold } else { 255 }),
                    data@.len() == y * w + x,
                    forall|x2: int, y2: int|
                        0 <= x2 < w && (0 <= y2 < y || (y2 == y && x2 < x)) ==> #[trigger] data@[y2
                            * w + x2] == (if color_near(
                            image_pixels(*img)[(left + x2, top + y2)],
                            *color,
                            threshold,
                        ) {
                            INK
                        } else {
                            0u8
                        }),
                decreases w - x,
            {
                let found = get_pixel(img, x + left, y + top);
                let v: u8 = if found.r >= r_min && found.r <= r_max && found.g >= g_min
                    && found.g <= g_max && found.b >= b_min && found.b <= b_max {
                    255u8
                } else {
                    0u8
                };
                let ghost before = data@;
                data.push(v);
                proof {
                    assert forall|x2: int, y2: int|
                        0 <= x2 < w && (0 <= y2 < y || (y2 == y && x2 < x + 1)) implies #[trigger] data@[y2
                        * w + x2] == (if color_near(
                        image_pixels(*img)[(left + x2, top + y2)],
                        *color,
                        threshold,
                    ) {
                        INK
                    } else {
                        0u8
                    }) by {
                        if y2 == y && x2 == x {
                        } else {
                            if y2 < y {
                                lemma_index_in_range(w as int, y as int, x2, y2);
                            }
                            assert(data@[y2 * w + x2] == before[y2 * w + x2]);
                        }
                    }
                }
                x += 1;
            }
            proof {
                assert((y + 1) * w == y * w + w) by (nonlinear_arith);
            }
            y += 1;
        }
        proof {
            assert(h * w == w * h) by (nonlinear_arith);
        }
        GrayImage { w, h, data }
    }

    /// The number of pixels in a row.
    #[inline]
    pub fn width(&self) -> (r: u32)
        ensures
            r == self@.width,
            self@.wf(),
    {
        proof {
            use_type_invariant(self);
        }
        self.w
    }

    /// The number of rows.
    #[inline]
    pub fn height(&self) -> (r: u32)
        ensures
            r == self@.height,
            self@.wf(),
    {
        proof {
            use_type_invariant(self);
        }
        self.h
    }

    /// The pixel in column `x` of row `y`.
    #[inline]
    pub fn pixel(&self, x: u32, y: u32) -> (r: u8)
        requires
            self@.holds(x as int, y as int),
        ensures
            r == self@.at(x as int, y as int),
    {
        let len: usize = self.data.len();
        proof {
            use_type_invariant(self);
            lemma_index_in_range(self.w as int, self.h as int, x as int, y as int);
            assert(0 <= y * self.w) by (nonlinear_arith)
                requires
                    0 <= y,
                    0 <= self.w,
            ;
        }
        self.data[y as usize * self.w as usize + x as usize]
    }

    /// Tells whether the rectangle of `rect_width` columns and `rect_height`
    /// rows at `(x, y)`, which lies inside the mask, is filled.
    fn is_filled(&self, x: u32, y: u32, rect_width: u32, rect_height: u32) -> (r: bool)
        requires
            x + rect_width <= self@.width,
            y + rect_height <= self@.height,
        ensures
            r == self@.filled(x as int, y as int, rect_width as int, rect_height as int),
    {
        let mut dy: u32 = 0;
        while dy < rect_height
            invariant
                dy <= rect_height,
                x + rect_width <= self@.width,
                y + rect_height <= self@.height,
                forall|ex: int, ey: int|
                    0 <= ex < rect_width && 0 <= ey < dy ==> #[trigger] self@.inked(x + ex, y + ey),
            decreases rect_height - dy,
        {
            let mut dx: u32 = 0;
            while dx < rect_width
                invariant
                    dx <= rect_width,
                    dy < rect_height,
                    x + rect_width <= self@.width,
                    y + rect_height <= self@.height,
                    forall|ex: int, ey: int|
                        0 <= ex < rect_width && (0 <= ey < dy || (ey == dy && ex < dx))
                            ==> #[trigger] self@.inked(x + ex, y + ey),
                decreases rect_width - dx,
            {
                if self.pixel(x + dx, y + dy) == 0 {
                    assert(!self@.inked(x + dx, y + dy));
                    return false;
                }
                dx += 1;
            }
            dy += 1;
        }
        true
    }

    /// Looks for a filled rectangle of `rect_width` columns and
    /// `rect_height` rows and gives the upper left corner of the lowest one
    /// and, of several in a row, of the rightmost. Gives `None` if a side is 0
    /// or no such rectangle is filled.
    pub fn rfind_rect(&self, rect_width: u32, rect_height: u32) -> (r: Option<(u32, u32)>)
        ensures
            self@.wf(),
            match r {
                Some((x, y)) => {
                    &&& rect_width > 0 && rect_height > 0
                    &&& self@.filled(x as int, y as int, rect_width as int, rect_height as int)
                    &&& forall|x2: int, y2: int|
                        y2 > y || (y2 == y && x2 > x) ==> !#[trigger] self@.filled(
                            x2,
                            y2,
                            rect_width as int,
                            rect_height as int,
                        )
                },
                None => rect_width == 0 || rect_height == 0 || forall|x2: int, y2: int|
                    !#[trigger] self@.filled(x2, y2, rect_width as int, rect_height as int),
            },
    {
        proof {
            use_type_invariant(self);
        }
        if self.h < rect_height || self.w < rect_width || rect_width == 0 || rect_height == 0 {
            return None;
        }
        let x_last: u32 = self.w - rect_width;
        let y_last: u32 = self.h - rect_height;
        let mut y_next: u32 = y_last + 1;
        while y_next > 0
            invariant
                y_next <= y_last + 1,
                self@.wf(),
                x_last == self@.width - rect_width,
                y_last == self@.height - rect_height,
                rect_width > 0,
                rect_height > 0,
                forall|x2: int, y2: int|
                    y2 >= y_next ==> !#[trigger] self@.filled(
                        x2,
                        y2,
                        rect_width as int,
                        rect_height as int,
                    ),
            decreases y_next,
        {
            let y_start: u32 = y_next - 1;
            let mut x_next: u32 = x_last + 1;
            while x_next > 0
                invariant
                    x_next <= x_last + 1,
                    y_start <= y_last,
                    self@.wf(),
                    x_last == self@.width - rect_width,
                    y_last == self@.height - rect_height,
                    rect_width > 0,
                    rect_height > 0,
                    forall|x2: int, y2: int|
                        y2 > y_start || (y2 == y_start && x2 >= x_next) ==> !#[trigger] self@.filled(
                            x2,
                            y2,
                            rect_width as int,
                            rect_height as int,
                        ),
                decreases x_next,
            {
                let x_start: u32 = x_next - 1;
                if self.is_filled(x_start, y_start, rect_width, rect_height) {
                    return Some((x_start, y_start));
                }
                x_next = x_start;
            }
            y_next = y_start;
        }
        None
    }

    /// Tells for each column whether some pixel of it is not zero.
    pub fn columns_usage(&self) -> (r: Vec<bool>)
        ensures
            self@.wf(),
            r@.len() == self@.width,
            forall|x: int| 0 <= x < self@.width ==> r@[x] == self@.column_used(x),
    {
        proof {
            use_type_invariant(self);
        }
        let mut r: Vec<bool> = Vec::with_capacity(self.w as usize);
        let mut x: u32 = 0;
        while x < self.w
            invariant
                x <= self@.width,
                self@.width == self.w,
                self@.height == self.h,
                r@.len() == x,
                forall|x2: int| 0 <= x2 < x ==> r@[x2] == self@.column_used(x2),
            decreases self.w - x,
        {
            let mut used = false;
            let mut y: u32 = 0;
            while y < self.h && !used
                invariant
                    y <= self@.height,
                    x < self@.width,
                    self@.width == self.w,
                    self@.height == self.h,
                    used ==> self@.column_used(x as int),
                    !used ==> forall|y2: int| 0 <= y2 < y ==> !self@.inked(x as int, y2),
                decreases self.h - y,
            {
                if self.pixel(x, y) != 0 {
                    assert(self@.inked(x as int, y as int));
                    used = true;
                }
                y += 1;
            }
            r.push(used);
            x += 1;
        }
        r
    }

    /// Tells for each row whether some pixel of it is not zero.
    pub fn rows_usage(&self) -> (r: Vec<bool>)
        ensures
            self@.wf(),
            r@.len() == self@.height,
            forall|y: int| 0 <= y < self@.height ==> r@[y] == self@.row_used(y),
    {
        proof {
            use_type_invariant(self);
        }
        let mut r: Vec<bool> = Vec::with_capacity(self.h as usize);
        let mut y: u32 = 0;
        while y < self.h
            invariant
                y <= self@.height,
                self@.width == self.w,
                self@.height == self.h,
                r@.len() == y,
                forall|y2: int| 0 <= y2 < y ==> r@[y2] == self@.row_used(y2),
            decreases self.h - y,
        {
            let mut used = false;
            let mut x: u32 = 0;
            while x < self.w && !used
                invariant
                    x <= self@.width,
                    y < self@.height,
                    self@.width == self.w,
                    self@.height == self.h,
                    used ==> self@.row_used(y as int),
                    !used ==> forall|x2: int| 0 <= x2 < x ==> !self@.inked(x2, y as int),
                decreases self.w - x,
            {
                if self.pixel(x, y) != 0 {
                    assert(self@.inked(x as int, y as int));
                    used = true;
                }
                x += 1;
            }
            r.push(used);
            y += 1;
        }
        r
    }

    /// Finds the smallest rectangle that holds every pixel that is not zero
    /// of the rectangle from `self_left` to `self_right` and from `self_top`
    /// to `self_bottom`, the four edges included. Gives `None` if all its
    /// pixels are zero. The result is given by its left, top, right and bottom
    /// edge, which belong to it.
    pub fn rect_hull(&self, self_left: u32, self_top: u32, self_right: u32, self_bottom: u32) -> (r:
        Option<(u32, u32, u32, u32)>)
        requires
            self_left <= self_right < self@.width,
            self_top <= self_bottom < self@.height,
        ensures
            match r {
                Some(hull) => self@.is_hull(
                    self_left as int,
                    self_top as int,
                    self_right as int,
                    self_bottom as int,
                    (hull.0 as int, hull.1 as int, hull.2 as int, hull.3 as int),
                ),
                None => self@.is_blank(
                    self_left as int,
                    self_top as int,
                    self_right as int,
                    self_bottom as int,
                ),
            },
    {
        let ghost l = self_left as int;
        let ghost rr = self_right as int;
        let ghost t = self_top as int;
        let mut result: Option<(u32, u32, u32, u32)> = None;
        let mut y: u32 = self_top;
        while y <= self_bottom
            invariant
                self_top <= y <= self_bottom + 1,
                self_left <= self_right < self@.width,
                self_bottom < self@.height,
                l == self_left && t == self_top && rr == self_right,
                match result {
                    Some(hull) => self@.is_hull(
                        l,
                        t,
                        rr,
                        y - 1,
                        (hull.0 as int, hull.1 as int, hull.2 as int, hull.3 as int),
                    ),
                    None => self@.is_blank(l, t, rr, y - 1),
                },
            decreases self_bottom + 1 - y,
        {
            let mut x: u32 = self_left;
            while x <= self_right
                invariant
                    self_left <= x <= self_right + 1,
                    self_top <= y <= self_bottom,
                    self_right < self@.width,
                    self_bottom < self@.height,
                    l == self_left && t == self_top && rr == self_right,
                    match result {
                        Some(hull) => {
                            &&& l <= hull.0 <= hull.2 <= rr
                            &&& t <= hull.1 <= hull.3 <= y
                            &&& forall|x2: int, y2: int|
                                l <= x2 <= rr && t <= y2 <= y && (y2 < y || x2 < x)
                                    && #[trigger] self@.inked(x2, y2) ==> hull.0 <= x2 <= hull.2
                                    && hull.1 <= y2 <= hull.3
                            &&& exists|y2: int|
                                t <= y2 <= y && #[trigger] self@.inked(hull.0 as int, y2)
                            &&& exists|y2: int|
                                t <= y2 <= y && #[trigger] self@.inked(hull.2 as int, y2)
                            &&& exists|x2: int|
                                l <= x2 <= rr && #[trigger] self@.inked(x2, hull.1 as int)
                            &&& exists|x2: int|
                                l <= x2 <= rr && #[trigger] self@.inked(x2, hull.3 as int)
                        },
                        None => forall|x2: int, y2: int|
                            l <= x2 <= rr && t <= y2 <= y && (y2 < y || x2 < x) ==> !#[trigger] self@.inked(
                                x2,
                                y2,
                            ),
                    },
                decreases self_right + 1 - x,
            {
                if self.pixel(x, y) != 0 {
                    assert(self@.inked(x as int, y as int));
                    let hull = match result {
                        Some(prev) => (
                            if x < prev.0 {
                                x
                            } else {
                                prev.0
                            },
                            prev.1,
                            if x > prev.2 {
                                x
                            } else {
                                prev.2
                            },
                            y,
                        ),
                        None => (x, y, x, y),
                    };
                    proof {
                        assert(t <= y <= y && self@.inked(hull.0 as int, y as int) || exists|
                            y2: int,
                        | t <= y2 <= y && #[trigger] self@.inked(hull.0 as int, y2));
                        assert(t <= y <= y && self@.inked(hull.2 as int, y as int) || exists|
                            y2: int,
                        | t <= y2 <= y && #[trigger] self@.inked(hull.2 as int, y2));
                        assert(l <= x <= rr && self@.inked(x as int, hull.3 as int));
                        match result {
                            Some(prev) => {
                                let x1 = choose|x2: int|
                                    l <= x2 <= rr && #[trigger] self@.inked(x2, prev.1 as int);
                                assert(l <= x1 <= rr && self@.inked(x1, hull.1 as int));
                            },
                            None => {
                                assert(l <= x <= rr && self@.inked(x as int, hull.1 as int));
                            },
                        }
                    }
                    result = Some(hull);
                }
                x += 1;
            }
            y += 1;
        }
        result
    }
}

/// An image that can be made holds a pixel for each of its positions.
pub proof fn lemma_sides_fit_pixels(width: int, height: int)
    requires
        image_sides_fit(width, height),
    ensures
        pixels_fit(width, height),
{
    assert(width * height <= 0xFFFF * 0xFFFF) by (nonlinear_arith)
        requires
            0 <= width <= 0xFFFF,
            0 <= height <= 0xFFFF,
    ;
}

/// Tells whether an image of these sides can be made.
pub fn sides_fit(width: u32, height: u32) -> (r: bool)
    ensures
        r == image_sides_fit(width as int, height as int),
{
    if width > MAX_IMAGE_SIDE || height > MAX_IMAGE_SIDE {
        return false;
    }
    proof {
        assert(4 * (width + 1) * height <= 4 * 0x1_0000 * 0xFFFF) by (nonlinear_arith)
            requires
                0 <= width <= 0xFFFF,
                0 <= height <= 0xFFFF,
        ;
        assert(4 * (width + 1) * height == (4 * (width + 1)) * height) by (nonlinear_arith);
    }
    4 * (width as u64 + 1) * (height as u64) <= MAX_IMAGE_BYTES
}

/// Turns a mask into a gray bitmap: each pixel gets the value of the mask
/// in all three channels. Gives `None` if the mask is too large for a bitmap
/// to be made of it.
pub fn into_image(src: &GrayImage) -> (r: Option<bmp::Image>)
    ensures
        match r {
            Some(img) => {
                &&& image_width(img) == src@.width
                &&& image_height(img) == src@.height
                &&& forall|x: int, y: int|
                    src@.holds(x, y) ==> #[trigger] image_pixels(img)[(x, y)] == (
                        src@.at(x, y),
                        src@.at(x, y),
                        src@.at(x, y),
                    )
            },
            None => !image_sides_fit(src@.width, src@.height),
        },
{
    let w: u32 = src.width();
    let h: u32 = src.height();
    if !sides_fit(w, h) {
        return None;
    }
    let mut dest = new_image(w, h);
    proof {
        lemma_sides_fit_pixels(w as int, h as int);
    }
    let mut y: u32 = 0;
    while y < h
        invariant
            y <= h,
            w == src@.width,
            h == src@.height,
            pixels_fit(w as int, h as int),
            image_width(dest) == w,
            image_height(dest) == h,
            forall|x2: int, y2: int|
                0 <= x2 < w && 0 <= y2 < y ==> #[trigger] image_pixels(dest)[(x2, y2)] == (
                    src@.at(x2, y2),
                    src@.at(x2, y2),
                    src@.at(x2, y2),
                ),
        decreases h - y,
    {
        let mut x: u32 = 0;
        while x < w
            invariant
                x <= w,
                y < h,
                w == src@.width,
                h == src@.height,
                pixels_fit(w as int, h as int),
                image_width(dest) == w,
                image_height(dest) == h,
                forall|x2: int, y2: int|
                    0 <= x2 < w && (0 <= y2 < y || (y2 == y && x2 < x)) ==> #[trigger] image_pixels(
                        dest,
                    )[(x2, y2)] == (src@.at(x2, y2), src@.at(x2, y2), src@.at(x2, y2)),
            decreases w - x,
        {
            let v = src.pixel(x, y);
            set_pixel(&mut dest, x, y, Rgb::new(v, v, v));
            x += 1;
        }
        y += 1;
    }
    Some(dest)
}

} // verus!
