//! Pixel grids: the decoded image and its greyscale form.

use vstd::prelude::*;
use crate::vert::MAX_SIDE;

verus! {

/// A pixel with red, green, blue and alpha channels.
#[derive(Clone, Copy, Debug, PartialEq, Eq, Structural)]
pub struct Rgba {
    pub r: u8,
    pub g: u8,
    pub b: u8,
    pub a: u8,
}

/// A grey pixel.
#[derive(Clone, Copy, Debug, PartialEq, Eq, Structural)]
pub struct Luma(pub u8);

/// A grid of colour pixels, stored row by row from the top.
#[derive(Debug, PartialEq, Eq)]
pub struct RgbaImage {
    pub width: u32,
    pub height: u32,
    pub pixels: Vec<Rgba>,
}

/// A grid of grey pixels, stored row by row from the top.
#[derive(Debug, PartialEq, Eq)]
pub struct GrayImage {
    pub width: u32,
    pub height: u32,
    pub pixels: Vec<Luma>,
}

/// Position of the pixel `(x, y)` in a grid of the given width.
pub open spec fn pixel_index(width: u32, x: u32, y: u32) -> int {
    y * width + x
}

/// A pixel inside a grid has a position inside the grid's storage.
pub proof fn lemma_pixel_index(width: u32, height: u32, x: u32, y: u32)
    requires
        x < width,
        y < height,
    ensures
        0 <= y * width <= pixel_index(width, x, y) < width * height,
{
    assert((y + 1) * width <= height * width) by (nonlinear_arith)
        requires
            y + 1 <= height,
            0 <= width,
    ;
    assert((y + 1) * width == y * width + width) by (nonlinear_arith);
    assert(height * width == width * height) by (nonlinear_arith);
    assert(0 <= y * width) by (nonlinear_arith)
        requires
            0 <= y,
            0 <= width,
    ;
}

impl RgbaImage {
    /// There is one pixel for each position, and no side is longer than
    /// `MAX_SIDE`.
    pub open spec fn wf(&self) -> bool {
        &&& self.pixels@.len() == self.width * self.height
        &&& self.width <= MAX_SIDE
        &&& self.height <= MAX_SIDE
    }

    /// The pixel in column `x` of row `y`.
    pub open spec fn spec_pixel(&self, x: u32, y: u32) -> Rgba {
        self.pixels@[pixel_index(self.width, x, y)]
    }

    /// Makes an image of the given size from its pixels, row by row. There
    /// is none when the number of pixels does not fit the size or a side
    /// is longer than `MAX_SIDE`.
    pub fn new(width: u32, height: u32, pixels: Vec<Rgba>) -> (img: Option<RgbaImage>)
        ensures
            match img {
                Some(i) => i.wf() && i.width == width && i.height == height && i.pixels == pixels,
                None => pixels@.len() != width * height || width > MAX_SIDE || height > MAX_SIDE,
            },
    {
        if width > MAX_SIDE || height > MAX_SIDE {
            return None;
        }
        proof {
            lemma_area_bound(width, height);
        }
        let area: u64 = (width as u64) * (height as u64);
        if pixels.len() as u64 != area {
            return None;
        }
        Some(RgbaImage { width, height, pixels })
    }

    /// Makes an image from bytes that hold, pixel after pixel, the four
    /// channels in the order red, green, blue, alpha.
    pub fn from_raw(width: u32, height: u32, raw: &Vec<u8>) -> (img: Option<RgbaImage>)
        ensures
            match img {
                Some(i) => i.wf() && i.width == width && i.height == height && raw@.len() == 4 * (
                width * height) && forall|k: int|
                    0 <= k < i.pixels@.len() ==> #[trigger] i.pixels@[k] == (Rgba {
                        r: raw@[4 * k],
                        g: raw@[4 * k + 1],
                        b: raw@[4 * k + 2],
                        a: raw@[4 * k + 3],
                    }),
                None => raw@.len() != 4 * (width * height) || width > MAX_SIDE || height > MAX_SIDE,
            },
    {
        if width > MAX_SIDE || height > MAX_SIDE {
            return None;
        }
        proof {
            lemma_area_bound(width, height);
        }
        let area: u64 = (width as u64) * (height as u64);
        if raw.len() as u64 != 4 * area {
            return None;
        }
        let n: usize = raw.len() / 4;
        let mut pixels: Vec<Rgba> = Vec::new();
        let mut k: usize = 0;
        while k < n
            invariant
                k <= n,
                raw@.len() == 4 * n,
                raw@.len() <= usize::MAX,
                pixels@.len() == k,
                forall|j: int|
                    0 <= j < k ==> #[trigger] pixels@[j] == (Rgba {
                        r: raw@[4 * j],
                        g: raw@[4 * j + 1],
                        b: raw@[4 * j + 2],
                        a: raw@[4 * j + 3],
                    }),
            decreases n - k,
        {
            pixels.push(
                Rgba { r: raw[4 * k], g: raw[4 * k + 1], b: raw[4 * k + 2], a: raw[4 * k + 3] },
            );
            k = k + 1;
        }
        Some(RgbaImage { width, height, pixels })
    }

    /// The channels of all pixels, four bytes for each, row by row.
    pub fn into_raw(self) -> (raw: Vec<u8>)
        ensures
            raw@.len() == 4 * self.pixels@.len(),
            forall|k: int|
                0 <= k < self.pixels@.len() ==> #[trigger] self.pixels@[k] == (Rgba {
                    r: raw@[4 * k],
                    g: raw@[4 * k + 1],
                    b: raw@[4 * k + 2],
                    a: raw@[4 * k + 3],
                }),
    {
        let n: usize = self.pixels.len();
        let mut raw: Vec<u8> = Vec::new();
        let mut k: usize = 0;
        while k < n
            invariant
                k <= n,
                n == self.pixels@.len(),
                raw@.len() == 4 * k,
                forall|j: int|
                    0 <= j < k ==> #[trigger] self.pixels@[j] == (Rgba {
                        r: raw@[4 * j],
                        g: raw@[4 * j + 1],
                        b: raw@[4 * j + 2],
                        a: raw@[4 * j + 3],
                    }),
            decreases n - k,
        {
            let p: Rgba = self.pixels[k];
            raw.push(p.r);
            raw.push(p.g);
            raw.push(p.b);
            raw.push(p.a);
            k = k + 1;
        }
        raw
    }

    pub fn width(&self) -> (w: u32)
        ensures
            w == self.width,
    {
        self.width
    }

    pub fn height(&self) -> (h: u32)
        ensures
            h == self.height,
    {
        self.height
    }

    /// The pixel in column `x` of row `y`.
    pub fn get_pixel(&self, x: u32, y: u32) -> (p: Rgba)
        requires
            self.wf(),
            x < self.width,
            y < self.height,
        ensures
            p == self.spec_pixel(x, y),
    {
        let _len: usize = self.pixels.len();
        proof {
            lemma_pixel_index(self.width, self.height, x, y);
        }
        self.pixels[(y as usize) * (self.width as usize) + (x as usize)]
    }

    /// Replaces the pixel in column `x` of row `y`.
    pub fn put_pixel(&mut self, x: u32, y: u32, p: Rgba)
        requires
            old(self).wf(),
            x < old(self).width,
            y < old(self).height,
        ensures
            final(self).wf(),
            final(self).width == old(self).width,
            final(self).height == old(self).height,
            final(self).pixels@ == old(self).pixels@.update(
                pixel_index(old(self).width, x, y),
                p,
            ),
    {
        let _len: usize = self.pixels.len();
        proof {
            lemma_pixel_index(self.width, self.height, x, y);
        }
        let k: usize = (y as usize) * (self.width as usize) + (x as usize);
        self.pixels[k] = p;
    }
}

/// The number of pixels of an image no side of which is longer than
/// `MAX_SIDE` fits in 64 bits four times over.
pub proof fn lemma_area_bound(width: u32, height: u32)
    requires
        width <= MAX_SIDE,
        height <= MAX_SIDE,
    ensures
        0 <= width * height <= 0x100_0000_0000_0000,
{
    assert(0 <= width * height <= 0x100_0000_0000_0000) by (nonlinear_arith)
        requires
            0 <= width <= 0x1000_0000,
            0 <= height <= 0x1000_0000,
    ;
}

impl GrayImage {
    /// There is one pixel for each position, and no side is longer than
    /// `MAX_SIDE`.
    pub open spec fn wf(&self) -> bool {
        &&& self.pixels@.len() == self.width * self.height
        &&& self.width <= MAX_SIDE
        &&& self.height <= MAX_SIDE
    }

    /// The pixel in column `x` of row `y`.
    pub open spec fn spec_pixel(&self, x: u32, y: u32) -> Luma {
        self.pixels@[pixel_index(self.width, x, y)]
    }

    /// Makes an image of the given size from its pixels, row by row. There
    /// is none when the number of pixels does not fit the size or a side
    /// is longer than `MAX_SIDE`.
    pub fn new(width: u32, height: u32, pixels: Vec<Luma>) -> (img: Option<GrayImage>)
        ensures
            match img {
                Some(i) => i.wf() && i.width == width && i.height == height && i.pixels == pixels,
                None => pixels@.len() != width * height || width > MAX_SIDE || height > MAX_SIDE,
            },
    {
        if width > MAX_SIDE || height > MAX_SIDE {
            return None;
        }
        proof {
            lemma_area_bound(width, height);
        }
        let area: u64 = (width as u64) * (height as u64);
        if pixels.len() as u64 != area {
            return None;
        }
        Some(GrayImage { width, height, pixels })
    }

    pub fn width(&self) -> (w: u32)
        ensures
            w == self.width,
    {
        self.width
    }

    pub fn height(&self) -> (h: u32)
        ensures
            h == self.height,
    {
        self.height
    }

    /// The pixel in column `x` of row `y`.
    pub fn get_pixel(&self, x: u32, y: u32) -> (p: Luma)
        requires
            self.wf(),
            x < self.width,
            y < self.height,
        ensures
            p == self.spec_pixel(x, y),
    {
        let _len: usize = self.pixels.len();
        proof {
            lemma_pixel_index(self.width, self.height, x, y);
        }
        self.pixels[(y as usize) * (self.width as usize) + (x as usize)]
    }
}

} // verus!
