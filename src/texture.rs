//! The integer side of textures: which cell of the 3D checker pattern a point
//! falls in, and which texel of an image a surface coordinate selects.

use vstd::arithmetic::div_mod::lemma_mod_multiples_vanish;
use vstd::prelude::*;

verus! {

/// The cell `(x, y, z)` of the checker lattice is even: the sum of its
/// coordinates is even.
pub open spec fn spec_is_even_cell(x: int, y: int, z: int) -> bool {
    (x + y + z) % 2 == 0
}

/// Whether the checker cell `(x, y, z)`, the floors of a point's scaled
/// coordinates, shows the even texture. The sum is taken without overflow,
/// shifted by an even offset that makes it non-negative.
pub fn is_even_cell(x: i32, y: i32, z: i32) -> (r: bool)
    ensures
        r == spec_is_even_cell(x as int, y as int, z as int),
{
    let shifted = (x as i64 + y as i64 + z as i64 + 8589934592i64) as u64;
    proof {
        lemma_mod_multiples_vanish(4294967296, x + y + z, 2);
        assert(2 * 4294967296 + (x + y + z) == shifted as int);
    }
    shifted % 2 == 0
}

/// Checker periodicity: moving two cells along any one axis lands on a cell
/// of the same parity, so the pattern repeats every two cells.
pub proof fn lemma_checker_period(x: int, y: int, z: int)
    ensures
        spec_is_even_cell(x + 2, y, z) == spec_is_even_cell(x, y, z),
        spec_is_even_cell(x, y + 2, z) == spec_is_even_cell(x, y, z),
        spec_is_even_cell(x, y, z + 2) == spec_is_even_cell(x, y, z),
{
    lemma_mod_multiples_vanish(1, x + y + z, 2);
}

/// An RGB image of the `image` crate, eight bits per channel, held as it is:
/// Verus does not accept a declaration of `image::ImageBuffer`, whose
/// parameter is bound by the crate's `Pixel` trait.
#[verifier::external_body]
#[derive(Debug)]
pub struct RgbPixels {
    image: image::RgbImage,
}

/// The width in pixels of an image.
pub uninterp spec fn rgb_width(img: RgbPixels) -> nat;

/// The height in pixels of an image.
pub uninterp spec fn rgb_height(img: RgbPixels) -> nat;

/// The channel bytes of an image: red, green and blue of each pixel, row by row.
pub uninterp spec fn rgb_data(img: RgbPixels) -> Seq<u8>;

/// Relies on `image::ImageBuffer::from_raw`: an image over `data` when it
/// holds at least three bytes for each of the `width * height` pixels, and
/// nothing otherwise.
#[verifier::external_body]
fn rgb_from_raw(width: u32, height: u32, data: Vec<u8>) -> (r: Option<RgbPixels>)
    ensures
        r is Some <==> 3 * width * height <= data@.len(),
        r matches Some(img) ==> rgb_width(img) == width && rgb_height(img) == height && rgb_data(
            img,
        ) == data@,
{
    image::ImageBuffer::from_raw(width, height, data).map(|image| RgbPixels { image })
}

/// Relies on `image::ImageBuffer::width`: the width of the image.
#[verifier::external_body]
fn rgb_image_width(img: &RgbPixels) -> (r: u32)
    ensures
        r == rgb_width(*img),
{
    img.image.width()
}

/// Relies on `image::ImageBuffer::height`: the height of the image.
#[verifier::external_body]
fn rgb_image_height(img: &RgbPixels) -> (r: u32)
    ensures
        r == rgb_height(*img),
{
    img.image.height()
}

/// The channel bytes of pixel `k` of `data`, counted row by row.
pub open spec fn rgb_at(data: Seq<u8>, k: int) -> (u8, u8, u8) {
    (data[3 * k], data[3 * k + 1], data[3 * k + 2])
}

/// Relies on `image::ImageBuffer::get_pixel`: the three channel bytes of the
/// pixel in column `x` of row `y`, at `3 * (y * width + x)` in the data; it
/// panics outside the image.
#[verifier::external_body]
fn rgb_image_pixel(img: &RgbPixels, x: u32, y: u32) -> (r: (u8, u8, u8))
    requires
        x < rgb_width(*img),
        y < rgb_height(*img),
    ensures
        r == rgb_at(rgb_data(*img), y * rgb_width(*img) + x),
{
    let p = img.image.get_pixel(x, y);
    (p.0[0], p.0[1], p.0[2])
}

/// `x` clamped into `[low, high)`.
pub open spec fn spec_clamp(x: int, low: int, high: int) -> int {
    if x < low {
        low
    } else if x >= high {
        high - 1
    } else {
        x
    }
}

/// Clamps `x` into `[low, high)`.
fn clamp(x: u32, low: u32, high: u32) -> (r: u32)
    requires
        low < high,
    ensures
        r == spec_clamp(x as int, low as int, high as int),
{
    if x < low {
        low
    } else if x >= high {
        high - 1
    } else {
        x
    }
}

/// A texture backed by an RGB image.
#[derive(Debug)]
pub struct ImageTexture {
    image: RgbPixels,
}

impl ImageTexture {
    /// The width of the image in pixels.
    pub closed spec fn spec_width(&self) -> nat {
        rgb_width(self.image)
    }

    /// The height of the image in pixels.
    pub closed spec fn spec_height(&self) -> nat {
        rgb_height(self.image)
    }

    /// The channel bytes of the image, three per pixel, row by row.
    pub closed spec fn spec_data(&self) -> Seq<u8> {
        rgb_data(self.image)
    }

    /// A texture over the image of `width` by `height` pixels whose channel
    /// bytes, three per pixel and row by row, start `data`; nothing when
    /// `data` is too short for them.
    pub fn from_raw(width: u32, height: u32, data: Vec<u8>) -> (r: Option<ImageTexture>)
        ensures
            r is Some <==> 3 * width * height <= data@.len(),
            r matches Some(t) ==> t.spec_width() == width && t.spec_height() == height
                && t.spec_data() == data@,
    {
        match rgb_from_raw(width, height, data) {
            Some(image) => Some(ImageTexture { image }),
            None => None,
        }
    }

    /// The width of the image in pixels.
    pub fn width(&self) -> (r: u32)
        ensures
            r == self.spec_width(),
    {
        rgb_image_width(&self.image)
    }

    /// The height of the image in pixels.
    pub fn height(&self) -> (r: u32)
        ensures
            r == self.spec_height(),
    {
        rgb_image_height(&self.image)
    }

    /// The texel in column `i` and row `j`, each clamped into the image.
    pub fn texel(&self, i: u32, j: u32) -> (r: (u8, u8, u8))
        requires
            self.spec_width() > 0,
            self.spec_height() > 0,
        ensures
            r == rgb_at(
                self.spec_data(),
                spec_clamp(j as int, 0, self.spec_height() as int) * self.spec_width() + spec_clamp(
                    i as int,
                    0,
                    self.spec_width() as int,
                ),
            ),
    {
        let w = rgb_image_width(&self.image);
        let h = rgb_image_height(&self.image);
        let x = clamp(i, 0, w);
        let y = clamp(j, 0, h);
        rgb_image_pixel(&self.image, x, y)
    }
}

} // verus!
