//! The bitmap that is read: an image of the `bmp` crate, seen through its
//! width, its height and the colors of its pixels.

use vstd::prelude::*;

verus! {

/// An RGB color.
#[derive(Debug, Copy, Clone, PartialEq, Eq, Structural)]
pub struct Rgb {
    pub r: u8,
    pub g: u8,
    pub b: u8,
}

impl Rgb {
    /// The color with the given red, green and blue.
    pub fn new(r: u8, g: u8, b: u8) -> (c: Self)
        ensures
            c.r == r,
            c.g == g,
            c.b == b,
    {
        Rgb { r, g, b }
    }

    /// The three channels: red, green, blue.
    pub open spec fn channels(self) -> (u8, u8, u8) {
        (self.r, self.g, self.b)
    }
}

/// `bmp::Image`: a bitmap of the `bmp` crate. Nothing is known of what is
/// inside it but what the functions below say.
#[verifier::external_type_specification]
#[verifier::external_body]
pub struct ExImage(bmp::Image);

/// The number of pixels in a row of the image.
pub uninterp spec fn image_width(img: bmp::Image) -> int;

/// The number of rows of the image.
pub uninterp spec fn image_height(img: bmp::Image) -> int;

/// The channels of the pixels of the image by position `(x, y)`, with `x`
/// counted from the left and `y` from the top.
pub uninterp spec fn image_pixels(img: bmp::Image) -> Map<(int, int), (u8, u8, u8)>;

/// Whether an image of these sides holds a pixel for each of its positions:
/// the `bmp` crate counts the pixels of an image and the place of a pixel in
/// 32 bits, so the number of pixels must fit 32 bits.
pub open spec fn pixels_fit(width: int, height: int) -> bool {
    width * height <= u32::MAX
}

/// The largest side that `new_image` takes.
pub const MAX_IMAGE_SIDE: u32 = 0xFFFF;

/// The largest number of bytes of pixel data, rows padded to four bytes,
/// that `new_image` takes.
pub const MAX_IMAGE_BYTES: u64 = 0x7FFF_FFFF;

/// Whether an image of these sides can be made: the sides are small enough
/// for the size of its file to be computed exactly in 32 bits.
pub open spec fn image_sides_fit(width: int, height: int) -> bool {
    &&& 0 <= width <= MAX_IMAGE_SIDE
    &&& 0 <= height <= MAX_IMAGE_SIDE
    &&& 4 * (width + 1) * height <= MAX_IMAGE_BYTES
}

/// `bmp::Image::get_width`: the width that the image was made or read with.
#[verifier::external_body]
pub(crate) fn get_width(img: &bmp::Image) -> (w: u32)
    ensures
        w == image_width(*img),
{
    img.get_width()
}

/// `bmp::Image::get_height`: the height that the image was made or read
/// with.
#[verifier::external_body]
pub(crate) fn get_height(img: &bmp::Image) -> (h: u32)
    ensures
        h == image_height(*img),
{
    img.get_height()
}

/// `bmp::Image::get_pixel`: the color of the pixel in column `x` of row `y`.
/// Outside the image the crate panics or reads another pixel, so the
/// position must lie inside. The crate computes the place of the pixel in 32
/// bits and holds fewer pixels than positions in an image whose number of
/// pixels does not fit 32 bits, so that number must fit.
#[verifier::external_body]
pub(crate) fn get_pixel(img: &bmp::Image, x: u32, y: u32) -> (c: Rgb)
    requires
        pixels_fit(image_width(*img), image_height(*img)),
        x < image_width(*img),
        y < image_height(*img),
    ensures
        c.channels() == image_pixels(*img)[(x as int, y as int)],
{
    let p = img.get_pixel(x, y);
    Rgb { r: p.r, g: p.g, b: p.b }
}

/// `bmp::Image::new`: a black image of the given sides. The crate computes
/// the number of pixels and the size of the file in 32 bits, so the sides
/// must be small enough for that.
#[verifier::external_body]
pub(crate) fn new_image(width: u32, height: u32) -> (img: bmp::Image)
    requires
        image_sides_fit(width as int, height as int),
    ensures
        image_width(img) == width,
        image_height(img) == height,
        forall|x: int, y: int|
            0 <= x < width && 0 <= y < height ==> #[trigger] image_pixels(img)[(x, y)] == (
                0u8,
                0u8,
                0u8,
            ),
{
    bmp::Image::new(width, height)
}

/// `bmp::Image::set_pixel`: gives the pixel in column `x` of row `y` the
/// color `c` and leaves all else as it was. The position must lie inside the
/// image and the number of pixels of the image must fit 32 bits, as for
/// `get_pixel`.
#[verifier::external_body]
pub(crate) fn set_pixel(img: &mut bmp::Image, x: u32, y: u32, c: Rgb)
    requires
        pixels_fit(image_width(*old(img)), image_height(*old(img))),
        x < image_width(*old(img)),
        y < image_height(*old(img)),
    ensures
        image_width(*final(img)) == image_width(*old(img)),
        image_height(*final(img)) == image_height(*old(img)),
        image_pixels(*final(img)) == image_pixels(*old(img)).insert(
            (x as int, y as int),
            c.channels(),
        ),
{
    img.set_pixel(x, y, bmp::Pixel { r: c.r, g: c.g, b: c.b });
}

} // verus!
