//! Screenshots from the clipboard: device-independent bitmaps of 32 bits per
//! pixel, which the `bmp` crate does not read.

use vstd::prelude::*;
use crate::img::bitmap::{
    Rgb, image_height, image_pixels, image_sides_fit, image_width, new_image, pixels_fit,
    set_pixel,
};
use crate::img::{lemma_sides_fit_pixels, sides_fit};

verus! {

/// Where the width of the bitmap stands: two bytes, the low byte first.
pub const WIDTH_AT: usize = 0x12;

/// Where the height of the bitmap stands: two bytes, the low byte first.
pub const HEIGHT_AT: usize = 0x16;

/// Where the number of bits per pixel stands.
pub const DEPTH_AT: usize = 0x1C;

/// Where the pixels start: four bytes each, blue, green, red and alpha, row
/// by row from the bottom row up.
pub const PIXELS_AT: usize = 0x36;

/// The number of bits per pixel of the bitmaps that are read here.
pub const DEPTH: u8 = 32;

/// The bytes say that they hold a bitmap of 32 bits per pixel.
pub open spec fn is_deep(bytes: Seq<u8>) -> bool {
    bytes.len() > DEPTH_AT && bytes[DEPTH_AT as int] == DEPTH
}

/// The width that the bytes tell.
pub open spec fn told_width(bytes: Seq<u8>) -> int {
    bytes[WIDTH_AT as int] + 256 * bytes[WIDTH_AT + 1]
}

/// The height that the bytes tell.
pub open spec fn told_height(bytes: Seq<u8>) -> int {
    bytes[HEIGHT_AT as int] + 256 * bytes[HEIGHT_AT + 1]
}

/// The bytes hold all the pixels that they tell of.
pub open spec fn is_complete(bytes: Seq<u8>) -> bool {
    bytes.len() >= PIXELS_AT + 4 * (told_width(bytes) * told_height(bytes))
}

/// The color that the bytes hold for column `x` of their row `y`, counted
/// from the bottom.
pub open spec fn told_pixel(bytes: Seq<u8>, x: int, y: int) -> (u8, u8, u8) {
    let at = PIXELS_AT + (x + y * told_width(bytes)) * 4;
    (bytes[at + 2], bytes[at + 1], bytes[at])
}

/// The bytes can be turned into an image: they hold a complete bitmap of 32
/// bits per pixel whose sides an image can have.
pub open spec fn is_readable(bytes: Seq<u8>) -> bool {
    &&& is_deep(bytes)
    &&& is_complete(bytes)
    &&& image_sides_fit(told_width(bytes), told_height(bytes))
}

/// Turns the bytes of a bitmap of 32 bits per pixel into an image: the alpha
/// channel is dropped and the rows are put top down. Gives `None` for bytes
/// that hold no such bitmap, not all of it, or one that is too large.
pub fn image_from_deep_bitmap(bytes: &[u8]) -> (r: Option<bmp::Image>)
    ensures
        r.is_some() == is_readable(bytes@),
        match r {
            Some(img) => {
                &&& image_width(img) == told_width(bytes@)
                &&& image_height(img) == told_height(bytes@)
                &&& forall|x: int, y: int|
                    0 <= x < told_width(bytes@) && 0 <= y < told_height(bytes@) ==> image_pixels(
                        img,
                    )[(x, told_height(bytes@) - y - 1)] == #[trigger] told_pixel(bytes@, x, y)
            },
            None => true,
        },
{
    if bytes.len() <= DEPTH_AT || bytes[DEPTH_AT] != DEPTH {
        return None;
    }
    let width: u32 = bytes[WIDTH_AT] as u32 + 256 * (bytes[WIDTH_AT + 1] as u32);
    let height: u32 = bytes[HEIGHT_AT] as u32 + 256 * (bytes[HEIGHT_AT + 1] as u32);
    proof {
        assert(width * height <= 0xFFFF * 0xFFFF) by (nonlinear_arith)
            requires
                0 <= width <= 0xFFFF,
                0 <= height <= 0xFFFF,
        ;
    }
    let count: u64 = (width as u64) * (height as u64);
    if (bytes.len() as u64) < PIXELS_AT as u64 + 4 * count || !sides_fit(width, height) {
        return None;
    }
    let len: usize = bytes.len();
    let mut img = new_image(width, height);
    proof {
        lemma_sides_fit_pixels(width as int, height as int);
    }
    let mut y: u32 = 0;
    while y < height
        invariant
            y <= height,
            width == told_width(bytes@),
            height == told_height(bytes@),
            width <= 0xFFFF,
            height <= 0xFFFF,
            bytes@.len() >= PIXELS_AT + 4 * (width * height),
            bytes@.len() == len,
            pixels_fit(width as int, height as int),
            image_width(img) == width,
            image_height(img) == height,
            forall|x2: int, y2: int|
                0 <= x2 < width && 0 <= y2 < y ==> image_pixels(img)[(x2, height - y2 - 1)]
                    == #[trigger] told_pixel(bytes@, x2, y2),
        decreases height - y,
    {
        let mut x: u32 = 0;
        while x < width
            invariant
                x <= width,
                y < height,
                width == told_width(bytes@),
                height == told_height(bytes@),
                width <= 0xFFFF,
                height <= 0xFFFF,
                bytes@.len() >= PIXELS_AT + 4 * (width * height),
                bytes@.len() == len,
                pixels_fit(width as int, height as int),
                image_width(img) == width,
                image_height(img) == height,
                forall|x2: int, y2: int|
                    0 <= x2 < width && (0 <= y2 < y || (y2 == y && x2 < x)) ==> image_pixels(
                        img,
                    )[(x2, height - y2 - 1)] == #[trigger] told_pixel(bytes@, x2, y2),
            decreases width - x,
        {
            proof {
                assert(x + y * width < width * height) by (nonlinear_arith)
                    requires
                        0 <= x < width,
                        0 <= y < height,
                ;
                assert(0 <= y * width <= 0xFFFF * 0xFFFF) by (nonlinear_arith)
                    requires
                        0 <= y <= 0xFFFF,
                        0 <= width <= 0xFFFF,
                ;
            }
            let at: usize = PIXELS_AT + (x as usize + y as usize * width as usize) * 4;
            let b = bytes[at];
            let g = bytes[at + 1];
            let r = bytes[at + 2];
            set_pixel(&mut img, x, height - y - 1, Rgb::new(r, g, b));
            x += 1;
        }
        y += 1;
    }
    Some(img)
}

} // verus!
