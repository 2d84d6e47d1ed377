//! Texture ingest: which pixel formats are taken, how raw bytes become
//! samples, and how a finished texture is addressed.

use vstd::prelude::*;
use crate::gpu::{is_image_of, words_of_image};
use crate::scalar::Vec3;

verus! {

/// Pixel format of an image as the mesh file states it.
#[derive(Clone, Copy, Debug, PartialEq, Eq, Structural)]
pub enum TextureFormat {
    R8,
    R8G8,
    R8G8B8,
    R8G8B8A8,
    R16,
    R16G16,
    R16G16B16,
    R16G16B16A16,
    R32G32B32Float,
    R32G32B32A32Float,
}

/// Why an image was not taken.
#[derive(Clone, Copy, Debug, PartialEq, Eq, Structural)]
pub enum TextureError {
    /// The format is none of 8-bit R, RGB, RGBA, 16-bit RGB, RGBA, or
    /// 32-bit-float RGB, RGBA.
    UnsupportedTextureFormat,
    /// The bytes do not divide into whole samples.
    RaggedSamples,
    /// There are fewer samples than the picture has channels times pixels.
    BufferTooSmall,
}

/// The samples of an image, in the width that its format states.
#[derive(Debug)]
pub enum Samples {
    Bytes(Vec<u8>),
    Halves(Vec<u16>),
    /// Bit patterns of binary32 numbers.
    Words(Vec<u32>),
}

/// An image regrouped into samples, ready for conversion to linear RGB.
#[derive(Debug)]
pub struct Texels {
    pub width: u32,
    pub height: u32,
    pub channels: u8,
    pub samples: Samples,
}

impl TextureFormat {
    /// Channels per pixel, for a format that is taken.
    pub open spec fn channels_spec(self) -> Option<u8> {
        match self {
            TextureFormat::R8 => Some(1u8),
            TextureFormat::R8G8B8 | TextureFormat::R16G16B16 | TextureFormat::R32G32B32Float => Some(
                3u8,
            ),
            TextureFormat::R8G8B8A8
            | TextureFormat::R16G16B16A16
            | TextureFormat::R32G32B32A32Float => Some(4u8),
            _ => None,
        }
    }

    /// Bytes per sample.
    pub open spec fn sample_bytes_spec(self) -> int {
        match self {
            TextureFormat::R8
            | TextureFormat::R8G8
            | TextureFormat::R8G8B8
            | TextureFormat::R8G8B8A8 => 1,
            TextureFormat::R16
            | TextureFormat::R16G16
            | TextureFormat::R16G16B16
            | TextureFormat::R16G16B16A16 => 2,
            TextureFormat::R32G32B32Float | TextureFormat::R32G32B32A32Float => 4,
        }
    }

    /// Channels per pixel, or `None` for a format that is not taken.
    pub fn channels(&self) -> (r: Option<u8>)
        ensures
            r == self.channels_spec(),
    {
        match self {
            TextureFormat::R8 => Some(1),
            TextureFormat::R8G8B8 | TextureFormat::R16G16B16 | TextureFormat::R32G32B32Float => Some(
                3,
            ),
            TextureFormat::R8G8B8A8
            | TextureFormat::R16G16B16A16
            | TextureFormat::R32G32B32A32Float => Some(4),
            _ => None,
        }
    }

    /// Bytes per sample.
    pub fn sample_bytes(&self) -> (r: usize)
        ensures
            r == self.sample_bytes_spec(),
    {
        match self {
            TextureFormat::R8
            | TextureFormat::R8G8
            | TextureFormat::R8G8B8
            | TextureFormat::R8G8B8A8 => 1,
            TextureFormat::R16
            | TextureFormat::R16G16
            | TextureFormat::R16G16B16
            | TextureFormat::R16G16B16A16 => 2,
            TextureFormat::R32G32B32Float | TextureFormat::R32G32B32A32Float => 4,
        }
    }
}

/// Whether `h` is the 16-bit number that the bytes `a`, `b` are in memory, in
/// one of the two byte orders.
pub open spec fn is_half_of(h: u16, a: u8, b: u8) -> bool {
    h == a + 256 * b || h == 256 * a + b
}

/// `u16::from_ne_bytes`: the number whose memory image the two bytes are, in
/// the byte order of the machine.
#[verifier::external_body]
fn half_of_image(a: u8, b: u8) -> (h: u16)
    ensures
        is_half_of(h, a, b),
{
    u16::from_ne_bytes([a, b])
}

/// Why the image is refused, if it is: the first of the three reasons that
/// applies.
pub open spec fn texel_fault(format: TextureFormat, width: u32, height: u32, bytes: int) -> Option<
    TextureError,
> {
    if format.channels_spec().is_none() {
        Some(TextureError::UnsupportedTextureFormat)
    } else if bytes % format.sample_bytes_spec() != 0 {
        Some(TextureError::RaggedSamples)
    } else if format.channels_spec().unwrap() * width * height > bytes
        / format.sample_bytes_spec() {
        Some(TextureError::BufferTooSmall)
    } else {
        None
    }
}

/// Whether `samples` are the bytes `pixels` regrouped into samples of
/// `sample_bytes` bytes.
pub open spec fn regrouped(samples: Samples, pixels: Seq<u8>, sample_bytes: int) -> bool {
    match samples {
        Samples::Bytes(v) => sample_bytes == 1 && v@ == pixels,
        Samples::Halves(v) => {
            &&& sample_bytes == 2
            &&& 2 * v@.len() == pixels.len()
            &&& forall|i: int|
                0 <= i < v@.len() ==> is_half_of(#[trigger] v@[i], pixels[2 * i], pixels[2 * i + 1])
        },
        Samples::Words(v) => sample_bytes == 4 && is_image_of(pixels, v@),
    }
}

/// Regroups the bytes of an image into samples.
///
/// The image is refused where its format is not taken, where its bytes do not
/// divide into whole samples, or where it has fewer samples than `width` by
/// `height` pixels need.
pub fn decode_texels(format: TextureFormat, width: u32, height: u32, pixels: &Vec<u8>) -> (r:
    Result<Texels, TextureError>)
    ensures
        match r {
            Ok(t) => {
                &&& texel_fault(format, width, height, pixels@.len() as int).is_none()
                &&& t.width == width
                &&& t.height == height
                &&& Some(t.channels) == format.channels_spec()
                &&& regrouped(t.samples, pixels@, format.sample_bytes_spec())
            },
            Err(e) => texel_fault(format, width, height, pixels@.len() as int) == Some(e),
        },
{
    let channels = match format.channels() {
        Some(c) => c,
        None => {
            return Err(TextureError::UnsupportedTextureFormat);
        },
    };
    let sample_bytes = format.sample_bytes();
    let len = pixels.len();
    if len % sample_bytes != 0 {
        return Err(TextureError::RaggedSamples);
    }
    let count = len / sample_bytes;
    assert(channels * width * height <= 4 * 0xFFFF_FFFF * 0xFFFF_FFFF) by (nonlinear_arith)
        requires
            0 <= channels <= 4,
            0 <= width <= 0xFFFF_FFFF,
            0 <= height <= 0xFFFF_FFFF,
    ;
    assert(channels * width <= 4 * 0xFFFF_FFFF) by (nonlinear_arith)
        requires
            0 <= channels <= 4,
            0 <= width <= 0xFFFF_FFFF,
    ;
    let needed: u128 = channels as u128 * width as u128 * height as u128;
    if needed > count as u128 {
        return Err(TextureError::BufferTooSmall);
    }
    let samples = if sample_bytes == 1 {
        Samples::Bytes(pixels.clone())
    } else if sample_bytes == 2 {
        let mut halves: Vec<u16> = Vec::new();
        let mut i: usize = 0;
        while i < count
            invariant
                len == pixels@.len(),
                len == 2 * count,
                0 <= i <= count,
                halves@.len() == i,
                forall|k: int|
                    0 <= k < i ==> is_half_of(
                        #[trigger] halves@[k],
                        pixels@[2 * k],
                        pixels@[2 * k + 1],
                    ),
            decreases count - i,
        {
            halves.push(half_of_image(pixels[2 * i], pixels[2 * i + 1]));
            i += 1;
        }
        Samples::Halves(halves)
    } else {
        Samples::Words(words_of_image(pixels))
    };
    Ok(Texels { width, height, channels, samples })
}

/// A picture in linear RGB, row by row.
#[derive(Debug)]
pub struct Texture {
    pub width: u32,
    pub height: u32,
    pub rgb: Vec<Vec3>,
}

impl View for Texture {
    type V = Seq<Vec3>;

    open spec fn view(&self) -> Seq<Vec3> {
        self.rgb@
    }
}

impl Texture {
    /// One colour per pixel, and at least one pixel.
    pub open spec fn wf(&self) -> bool {
        &&& self.width >= 1
        &&& self.height >= 1
        &&& self.rgb@.len() == self.width * self.height
    }

    /// The texture of `width` by `height` pixels with the given colours, if
    /// there is one colour for every pixel and at least one pixel.
    pub fn new(width: u32, height: u32, rgb: Vec<Vec3>) -> (r: Option<Texture>)
        ensures
            match r {
                Some(t) => t.wf() && t.width == width && t.height == height && t@ == rgb@,
                None => !(width >= 1 && height >= 1 && rgb@.len() == width * height),
            },
    {
        assert(width * height <= 0xFFFF_FFFF * 0xFFFF_FFFF) by (nonlinear_arith)
            requires
                0 <= width <= 0xFFFF_FFFF,
                0 <= height <= 0xFFFF_FFFF,
        ;
        if width >= 1 && height >= 1 && rgb.len() as u128 == width as u128 * height as u128 {
            Some(Texture { width, height, rgb })
        } else {
            None
        }
    }

    /// Whether there is one colour for every pixel and at least one pixel.
    pub fn check(&self) -> (r: bool)
        ensures
            r == self.wf(),
    {
        assert(self.width * self.height <= 0xFFFF_FFFF * 0xFFFF_FFFF) by (nonlinear_arith)
            requires
                0 <= self.width <= 0xFFFF_FFFF,
                0 <= self.height <= 0xFFFF_FFFF,
        ;
        self.width >= 1 && self.height >= 1 && self.rgb.len() as u128 == self.width as u128
            * self.height as u128
    }

    /// The colour at column `x`, row `y`, where the picture repeats in both
    /// directions: coordinates are taken modulo width and height.
    pub fn texel(&self, x: i64, y: i64) -> (r: Vec3)
        requires
            self.wf(),
        ensures
            r == self@[((y as int) % (self.height as int)) * self.width + (x as int) % (self.width as int)],
    {
        let w = self.width as i64;
        let h = self.height as i64;
        proof {
            vstd::arithmetic::div_mod::lemma_mod_bound(x as int, w as int);
            vstd::arithmetic::div_mod::lemma_mod_bound(y as int, h as int);
        }
        let col = match x.checked_rem_euclid(w) {
            Some(c) => c,
            None => 0,
        };
        let row = match y.checked_rem_euclid(h) {
            Some(r) => r,
            None => 0,
        };
        proof {
            assert(row * w + col < w * h) by (nonlinear_arith)
                requires
                    0 <= row < h,
                    0 <= col < w,
            ;
            assert(0 <= row * w) by (nonlinear_arith)
                requires
                    0 <= row,
                    0 <= w,
            ;
            assert(w * h <= 0xFFFF_FFFF * 0xFFFF_FFFF) by (nonlinear_arith)
                requires
                    0 <= w <= 0xFFFF_FFFF,
                    0 <= h <= 0xFFFF_FFFF,
            ;
        }
        let len = self.rgb.len();
        let at: u64 = row as u64 * w as u64 + col as u64;
        assert(w * h == self.width * self.height) by (nonlinear_arith)
            requires
                w == self.width,
                h == self.height,
        ;
        assert(at < len);
        assert(at == ((y as int) % (self.height as int)) * self.width + (x as int) % (
        self.width as int)) by (nonlinear_arith)
            requires
                at == row * w + col,
                w == self.width,
                row == (y as int) % (self.height as int),
                col == (x as int) % (self.width as int),
        ;
        self.rgb[at as usize]
    }
}

} // verus!
