//! The publish buffer: the 8-bit RGBA picture that subscribers see.

use vstd::prelude::*;
use crate::config::ConfigError;

verus! {

/// Bytes per published pixel: red, green, blue, alpha.
pub const PIXEL_BYTES: usize = 4;

/// Alpha of every published pixel.
pub const OPAQUE: u8 = 255;

/// Why no picture of `width` by `height` pixels can be held.
pub open spec fn target_fault(width: int, height: int) -> Option<ConfigError> {
    if width < 0 || height < 0 {
        Some(ConfigError::NegativeDimension)
    } else if width * height > i32::MAX || 4 * (width * height) > usize::MAX {
        Some(ConfigError::TargetTooLarge)
    } else {
        None
    }
}

/// The picture that `colors` publish: per pixel its first three channels,
/// then full alpha.
pub open spec fn published(colors: Seq<u8>, channels: int, pixels: int) -> Seq<u8> {
    Seq::new(
        (4 * pixels) as nat,
        |i: int|
            if i % 4 == 3 {
                OPAQUE
            } else {
                colors[(i / 4) * channels + i % 4]
            },
    )
}

/// A picture of `canv_width` by `canv_height` pixels, row by row, four bytes
/// per pixel.
#[derive(Debug)]
pub struct RenderTarget {
    pub canv_width: i32,
    pub canv_height: i32,
    pub buff: Vec<u8>,
}

impl View for RenderTarget {
    type V = Seq<u8>;

    open spec fn view(&self) -> Seq<u8> {
        self.buff@
    }
}

impl RenderTarget {
    /// Number of pixels.
    pub open spec fn area(&self) -> int {
        self.canv_width * self.canv_height
    }

    pub open spec fn wf(&self) -> bool {
        &&& target_fault(self.canv_width as int, self.canv_height as int).is_none()
        &&& self.buff@.len() == 4 * self.area()
    }

    /// A black, fully transparent picture.
    pub fn new(canv_width: i32, canv_height: i32) -> (r: Result<RenderTarget, ConfigError>)
        ensures
            match r {
                Ok(t) => {
                    &&& target_fault(canv_width as int, canv_height as int).is_none()
                    &&& t.wf()
                    &&& t.canv_width == canv_width
                    &&& t.canv_height == canv_height
                    &&& t@ == Seq::new((4 * (canv_width * canv_height)) as nat, |i: int| 0u8)
                },
                Err(e) => target_fault(canv_width as int, canv_height as int) == Some(e),
            },
    {
        if canv_width < 0 || canv_height < 0 {
            return Err(ConfigError::NegativeDimension);
        }
        assert(0 <= canv_width * canv_height <= 0x7FFF_FFFF * 0x7FFF_FFFF) by (nonlinear_arith)
            requires
                0 <= canv_width <= 0x7FFF_FFFF,
                0 <= canv_height <= 0x7FFF_FFFF,
        ;
        let area: u64 = canv_width as u64 * canv_height as u64;
        if area > i32::MAX as u64 || 4 * area > usize::MAX as u64 {
            return Err(ConfigError::TargetTooLarge);
        }
        let buff: Vec<u8> = vec![0u8; (4 * area) as usize];
        let t = RenderTarget { canv_width, canv_height, buff };
        assert(t@ =~= Seq::new((4 * (canv_width * canv_height)) as nat, |i: int| 0u8));
        Ok(t)
    }

    /// Column and row of the pixel at position `i` of the row-major order, or
    /// `None` where the picture has no such pixel.
    pub fn chunk_to_pix(&self, i: i32) -> (r: Option<(i32, i32)>)
        requires
            self.wf(),
        ensures
            match r {
                Some((x, y)) => {
                    &&& 0 <= i < self.area()
                    &&& 0 <= x < self.canv_width
                    &&& 0 <= y < self.canv_height
                    &&& y * self.canv_width + x == i
                },
                None => !(0 <= i < self.area()),
            },
    {
        if i < 0 || self.canv_width == 0 {
            assert(self.canv_width == 0 ==> self.area() == 0);
            return None;
        }
        let x = i % self.canv_width;
        let y = i / self.canv_width;
        proof {
            let w = self.canv_width as int;
            let h = self.canv_height as int;
            vstd::arithmetic::div_mod::lemma_fundamental_div_mod(i as int, w);
            assert(w * (i as int / w) == (i as int / w) * w) by (nonlinear_arith);
            if y >= h {
                assert(y * w >= h * w) by (nonlinear_arith)
                    requires
                        y >= h,
                        w >= 0,
                ;
                assert(h * w == w * h) by (nonlinear_arith);
            } else {
                assert((y + 1) * w <= h * w) by (nonlinear_arith)
                    requires
                        y + 1 <= h,
                        w >= 0,
                ;
                assert((y + 1) * w == y * w + w) by (nonlinear_arith);
                assert(h * w == w * h) by (nonlinear_arith);
            }
        }
        if y >= self.canv_height {
            return None;
        }
        Some((x, y))
    }

    /// Position in the row-major order of the pixel in column `x`, row `y`.
    pub fn pix_to_chunk(&self, x: i32, y: i32) -> (r: i32)
        requires
            self.wf(),
            0 <= x < self.canv_width,
            0 <= y < self.canv_height,
        ensures
            r == y * self.canv_width + x,
            0 <= r < self.area(),
    {
        proof {
            let w = self.canv_width as int;
            let h = self.canv_height as int;
            assert((y + 1) * w <= h * w) by (nonlinear_arith)
                requires
                    y + 1 <= h,
                    w >= 0,
            ;
            assert((y + 1) * w == y * w + w) by (nonlinear_arith);
            assert(h * w == w * h) by (nonlinear_arith);
            assert(0 <= y * w) by (nonlinear_arith)
                requires
                    0 <= y,
                    0 <= w,
            ;
        }
        y * self.canv_width + x
    }

    /// Blackens the picture and makes it transparent.
    pub fn clear(&mut self)
        requires
            old(self).wf(),
        ensures
            final(self).wf(),
            final(self).canv_width == old(self).canv_width,
            final(self).canv_height == old(self).canv_height,
            final(self)@ == Seq::new(old(self)@.len(), |i: int| 0u8),
    {
        let n = self.buff.len();
        let mut i: usize = 0;
        while i < n
            invariant
                n == self.buff@.len(),
                n == old(self).buff@.len(),
                self.canv_width == old(self).canv_width,
                self.canv_height == old(self).canv_height,
                0 <= i <= n,
                forall|k: int| 0 <= k < i ==> self.buff@[k] == 0u8,
            decreases n - i,
        {
            self.buff.set(i, 0);
            i += 1;
        }
        assert(self@ =~= Seq::new(old(self)@.len(), |i: int| 0u8));
    }

    /// Publishes a picture given as `channels` bytes per pixel, of which the
    /// first three are red, green and blue; alpha becomes 255.
    ///
    /// Returns `false`, and leaves the picture as it was, unless `channels` is
    /// 3 or 4 and `colors` holds exactly `channels` bytes for every pixel.
    pub fn publish(&mut self, colors: &Vec<u8>, channels: usize) -> (r: bool)
        requires
            old(self).wf(),
        ensures
            final(self).wf(),
            final(self).canv_width == old(self).canv_width,
            final(self).canv_height == old(self).canv_height,
            r == ((channels == 3 || channels == 4) && colors@.len() == channels * old(
                self,
            ).area()),
            r ==> final(self)@ == published(colors@, channels as int, old(self).area()),
            !r ==> final(self)@ == old(self)@,
    {
        if channels != 3 && channels != 4 {
            return false;
        }
        let pixels: usize = self.buff.len() / PIXEL_BYTES;
        assert(pixels == self.area());
        assert(channels * pixels <= 4 * pixels) by (nonlinear_arith)
            requires
                channels <= 4,
                pixels >= 0,
        ;
        if colors.len() != channels * pixels {
            return false;
        }
        let mut p: usize = 0;
        while p < pixels
            invariant
                channels == 3 || channels == 4,
                pixels == old(self).area(),
                self.buff@.len() == 4 * pixels,
                4 * pixels <= usize::MAX,
                colors@.len() == channels * pixels,
                self.canv_width == old(self).canv_width,
                self.canv_height == old(self).canv_height,
                0 <= p <= pixels,
                forall|k: int|
                    0 <= k < 4 * p ==> self.buff@[k] == published(
                        colors@,
                        channels as int,
                        pixels as int,
                    )[k],
            decreases pixels - p,
        {
            assert(channels * p + channels <= channels * pixels) by (nonlinear_arith)
                requires
                    p + 1 <= pixels,
                    channels >= 0,
            ;
            assert(channels * p <= 4 * p) by (nonlinear_arith)
                requires
                    channels <= 4,
                    p >= 0,
            ;
            let src: usize = channels * p;
            let dst: usize = 4 * p;
            assert(src == (dst as int / 4) * channels) by (nonlinear_arith)
                requires
                    src == channels * p,
                    dst as int / 4 == p,
            ;
            assert((dst + 1) / 4 == p && (dst + 2) / 4 == p && (dst + 3) / 4 == p);
            assert(src == ((dst + 1) as int / 4) * channels);
            assert(src == ((dst + 2) as int / 4) * channels);
            self.buff.set(dst, colors[src]);
            self.buff.set(dst + 1, colors[src + 1]);
            self.buff.set(dst + 2, colors[src + 2]);
            self.buff.set(dst + 3, OPAQUE);
            p += 1;
        }
        assert(self@ =~= published(colors@, channels as int, old(self).area()));
        true
    }

    /// A copy of the picture as it stands.
    pub fn snapshot(&self) -> (r: Vec<u8>)
        ensures
            r@ == self@,
    {
        self.buff.clone()
    }
}

} // verus!
