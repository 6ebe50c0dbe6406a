//! Rasterizing a heightmap into an 8-bit grayscale preview image.
//!
//! Each cell maps to one pixel: a height of `-HEIGHT_ONE` ticks (raw -1.0)
//! becomes 0, `HEIGHT_ONE` (raw 1.0) becomes 255, and heights in between are
//! scaled linearly and rounded down, so a height of 0 becomes 127. Heights
//! outside that range are clamped, never wrapped.

use vstd::prelude::*;
use crate::HEIGHT_ONE;
use crate::heightmap::{isqrt, sqrt_floor};

verus! {

/// The gray value, between 0 and 255, of a height of `h` ticks:
/// `clamp((h + HEIGHT_ONE) * 255 / (2 * HEIGHT_ONE), 0, 255)`, with the
/// division rounding down.
pub open spec fn pixel_of(h: int) -> int {
    if h <= -HEIGHT_ONE {
        0
    } else if h >= HEIGHT_ONE {
        255
    } else {
        ((h + HEIGHT_ONE) * 255) / (2 * HEIGHT_ONE)
    }
}

/// Every pixel value fits in one byte.
pub proof fn lemma_pixel_bounds(h: int)
    ensures
        0 <= pixel_of(h) <= 255,
{
    if -HEIGHT_ONE < h < HEIGHT_ONE {
        let num = (h + HEIGHT_ONE) * 255;
        assert(0 <= num <= 131071int * 255);
        vstd::arithmetic::div_mod::lemma_div_pos_is_pos(num, 131072);
        vstd::arithmetic::div_mod::lemma_div_is_ordered(num, 131071int * 255, 131072);
        assert(131071int * 255 / 131072 == 254) by {
            vstd::arithmetic::div_mod::lemma_fundamental_div_mod_converse_div(
                131071int * 255,
                131072,
                254,
                130817,
            );
        }
    }
}

/// A higher height never yields a darker pixel.
pub proof fn lemma_pixel_monotone(h1: int, h2: int)
    requires
        h1 <= h2,
    ensures
        pixel_of(h1) <= pixel_of(h2),
{
    lemma_pixel_bounds(h1);
    lemma_pixel_bounds(h2);
    if -HEIGHT_ONE < h1 < HEIGHT_ONE && -HEIGHT_ONE < h2 < HEIGHT_ONE {
        let n1 = (h1 + HEIGHT_ONE) * 255;
        let n2 = (h2 + HEIGHT_ONE) * 255;
        vstd::arithmetic::div_mod::lemma_div_is_ordered(n1, n2, 131072);
    }
}

/// The gray value of height `h`, computed.
pub fn pixel_for(h: i64) -> (p: u8)
    ensures
        p == pixel_of(h as int),
{
    if h <= -HEIGHT_ONE {
        0
    } else if h >= HEIGHT_ONE {
        255
    } else {
        let num: u64 = ((h + HEIGHT_ONE) as u64) * 255;
        let t: u64 = num / 131072;
        proof {
            lemma_pixel_bounds(h as int);
        }
        t as u8
    }
}

/// A square single-channel 8-bit raster: pixel `(x, y)` of a grid `size`
/// pixels wide is the byte at index `y * size + x`.
pub struct PreviewImage {
    pub size: u32,
    pub pixels: Vec<u8>,
}

impl PreviewImage {
    /// The raster is exactly `size * size` bytes.
    pub open spec fn wf(&self) -> bool {
        self.pixels@.len() == self.size * self.size
    }

    /// The raster as a PNG byte stream, ready to be written to storage.
    /// Encoding succeeds for every raster with at least one pixel; only the
    /// degenerate empty raster is rejected with `None`.
    pub fn to_png(&self) -> (r: Option<Vec<u8>>)
        requires
            self.wf(),
        ensures
            self.size > 0 ==> r is Some,
            r is Some ==> r->Some_0@ == png_bytes_of(self.pixels@, self.size as nat),
    {
        encode_png(&self.pixels, self.size)
    }
}

/// Convert a flat heightmap into a square grayscale preview raster. The grid
/// size is the integer square root of the length: under the truncating-size
/// policy, trailing cells beyond `size * size` are ignored. Total: heights
/// outside [-HEIGHT_ONE, HEIGHT_ONE] are clamped to the nearest end.
pub fn rasterize(height_map: &Vec<i64>) -> (img: PreviewImage)
    ensures
        img.size == sqrt_floor(height_map@.len()),
        img.wf(),
        forall|i: int|
            0 <= i < img.pixels@.len() ==> img.pixels@[i] == pixel_of(height_map@[i] as int),
{
    let len = height_map.len();
    let size64 = isqrt(len as u64);
    proof {
        assert(size64 <= 0xFFFF_FFFFu64) by (nonlinear_arith)
            requires
                (size64 as nat) * (size64 as nat) <= (len as nat),
                (len as nat) < 0x1_0000_0000_0000_0000,
        ;
    }
    let size: u32 = size64 as u32;
    let n: usize = (size as usize) * (size as usize);
    let mut pixels: Vec<u8> = Vec::new();
    let mut i: usize = 0;
    while i < n
        invariant
            n == size * size,
            n <= len,
            len == height_map@.len(),
            i <= n,
            pixels@.len() == i,
            forall|j: int| 0 <= j < i ==> pixels@[j] == pixel_of(height_map@[j] as int),
        decreases n - i,
    {
        pixels.push(pixel_for(height_map[i]));
        i = i + 1;
    }
    PreviewImage { size, pixels }
}

/// The PNG encoding of a square single-channel 8-bit raster of the given
/// pixel bytes and side length. The encoder is deterministic, so the bytes
/// are a function of the raster alone.
pub uninterp spec fn png_bytes_of(pixels: Seq<u8>, size: nat) -> Seq<u8>;

/// Relies on image::GrayImage::from_raw and image::ImageBuffer::write_to
/// with ImageFormat::Png: encoding a raster to PNG bytes in memory is a pure
/// function of the pixel bytes and the dimensions. It succeeds whenever the
/// dimensions are nonzero: from_raw accepts any buffer of matching length,
/// the PNG encoder's only input-dependent error is a zero width or height,
/// and the in-memory cursor it writes to cannot fail.
#[verifier::external_body]
fn encode_png(pixels: &Vec<u8>, size: u32) -> (r: Option<Vec<u8>>)
    requires
        pixels@.len() == size * size,
    ensures
        size > 0 ==> r is Some,
        r is Some ==> r->Some_0@ == png_bytes_of(pixels@, size as nat),
{
    let img = match image::GrayImage::from_raw(size, size, pixels.clone()) {
        Some(i) => i,
        None => {
            return None;
        },
    };
    let mut buf = std::io::Cursor::new(Vec::new());
    match img.write_to(&mut buf, image::ImageFormat::Png) {
        Ok(()) => Some(buf.into_inner()),
        Err(_) => None,
    }
}

/// A flat heightmap at height zero rasterizes to a uniform mid-gray raster:
/// every pixel is exactly 127.
pub proof fn lemma_zero_heightmap_uniform(heights: Seq<i64>, pixels: Seq<u8>)
    requires
        pixels.len() <= heights.len(),
        forall|i: int| 0 <= i < heights.len() ==> heights[i] == 0,
        forall|i: int| 0 <= i < pixels.len() ==> pixels[i] == pixel_of(heights[i] as int),
    ensures
        forall|i: int| 0 <= i < pixels.len() ==> pixels[i] == 127,
{
    assert(pixel_of(0) == 127) by {
        vstd::arithmetic::div_mod::lemma_fundamental_div_mod_converse_div(
            65536int * 255,
            131072,
            127,
            65536,
        );
    }
}

} // verus!
