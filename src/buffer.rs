//! An owned row-major RGB image buffer.
use vstd::prelude::*;
use crate::pixel::Pixel;
use crate::raster::{dither_pixels, dithered, index_of};

verus! {

/// A `width` by `height` grid of pixels, stored row by row.
pub struct RgbBuffer {
    width: u32,
    height: u32,
    pixels: Vec<Pixel>,
}

/// The pixels of an interleaved `r, g, b, r, g, b, ...` byte sequence.
pub open spec fn pixels_of_bytes(b: Seq<u8>) -> Seq<Pixel> {
    Seq::new(b.len() / 3, |i: int| Pixel { r: b[3 * i], g: b[3 * i + 1], b: b[3 * i + 2] })
}

/// The interleaved `r, g, b, r, g, b, ...` bytes of a pixel sequence.
pub open spec fn bytes_of_pixels(p: Seq<Pixel>) -> Seq<u8>
    decreases p.len(),
{
    if p.len() == 0 {
        Seq::empty()
    } else {
        let last = p.last();
        bytes_of_pixels(p.drop_last()) + seq![last.r, last.g, last.b]
    }
}

proof fn lemma_area_fits(width: u32, height: u32)
    ensures
        0 <= (width as int) * (height as int) <= u64::MAX,
{
    assert(0 <= (width as int) * (height as int) <= 0xffff_fffe_0000_0001) by (nonlinear_arith)
        requires
            width <= 0xffff_ffff,
            height <= 0xffff_ffff,
    ;
}

impl View for RgbBuffer {
    type V = Seq<Pixel>;

    closed spec fn view(&self) -> Seq<Pixel> {
        self.pixels@
    }
}

impl RgbBuffer {
    /// Width of the image in pixels.
    pub closed spec fn spec_width(&self) -> nat {
        self.width as nat
    }

    /// Height of the image in pixels.
    pub closed spec fn spec_height(&self) -> nat {
        self.height as nat
    }

    /// The buffer holds exactly one pixel per coordinate.
    pub open spec fn wf(&self) -> bool {
        self@.len() == self.spec_width() * self.spec_height()
    }

    /// The pixel at `(x, y)`.
    pub open spec fn pixel_at(&self, x: int, y: int) -> Pixel {
        self@[index_of(self.spec_width() as int, x, y)]
    }

    /// A buffer of the given size over row-major `pixels`; `None` when the number of
    /// pixels is not `width * height`.
    pub fn from_pixels(width: u32, height: u32, pixels: Vec<Pixel>) -> (r: Option<RgbBuffer>)
        ensures
            r.is_some() <==> pixels@.len() == width * height,
            r matches Some(b) ==> b.wf() && b.spec_width() == width && b.spec_height() == height
                && b@ == pixels@,
    {
        let n: usize = pixels.len();
        proof {
            lemma_area_fits(width, height);
        }
        if (width as u64) * (height as u64) == n as u64 {
            Some(RgbBuffer { width, height, pixels })
        } else {
            None
        }
    }

    /// A buffer of the given size over interleaved row-major RGB bytes; `None` when
    /// the number of bytes is not `3 * width * height`.
    pub fn from_raw(width: u32, height: u32, data: &Vec<u8>) -> (r: Option<RgbBuffer>)
        ensures
            r.is_some() <==> data@.len() == 3 * (width * height),
            r matches Some(b) ==> b.wf() && b.spec_width() == width && b.spec_height() == height
                && b@ == pixels_of_bytes(data@),
    {
        let len: usize = data.len();
        proof {
            lemma_area_fits(width, height);
        }
        if len % 3 != 0 || (width as u64) * (height as u64) != (len / 3) as u64 {
            return None;
        }
        let n: usize = len / 3;
        let mut pixels: Vec<Pixel> = Vec::new();
        let mut i: usize = 0;
        let mut k: usize = 0;
        while i < n
            invariant
                n == data@.len() / 3,
                len == data@.len(),
                len % 3 == 0,
                i <= n,
                k == 3 * i,
                pixels@ =~= pixels_of_bytes(data@).take(i as int),
            decreases n - i,
        {
            let p = Pixel { r: data[k], g: data[k + 1], b: data[k + 2] };
            pixels.push(p);
            i = i + 1;
            k = k + 3;
        }
        assert(pixels_of_bytes(data@).take(n as int) =~= pixels_of_bytes(data@));
        Some(RgbBuffer { width, height, pixels })
    }

    /// The interleaved row-major RGB bytes of the buffer.
    pub fn into_raw(self) -> (r: Vec<u8>)
        ensures
            r@ == bytes_of_pixels(self@),
    {
        let mut out: Vec<u8> = Vec::new();
        let mut i: usize = 0;
        while i < self.pixels.len()
            invariant
                i <= self.pixels@.len(),
                out@ == bytes_of_pixels(self.pixels@.take(i as int)),
            decreases self.pixels@.len() - i,
        {
            let p = self.pixels[i];
            proof {
                assert(self.pixels@.take(i + 1).drop_last() =~= self.pixels@.take(i as int));
            }
            out.push(p.r);
            out.push(p.g);
            out.push(p.b);
            i = i + 1;
        }
        assert(self.pixels@.take(i as int) =~= self.pixels@);
        out
    }

    pub fn width(&self) -> (r: u32)
        ensures
            r == self.spec_width(),
    {
        self.width
    }

    pub fn height(&self) -> (r: u32)
        ensures
            r == self.spec_height(),
    {
        self.height
    }

    /// The pixels, row by row.
    pub fn pixels(&self) -> (r: &Vec<Pixel>)
        ensures
            r@ == self@,
    {
        &self.pixels
    }

    /// The pixels, row by row, taken out of the buffer.
    pub fn into_pixels(self) -> (r: Vec<Pixel>)
        ensures
            r@ == self@,
    {
        self.pixels
    }

    /// The pixel at `(x, y)`.
    pub fn get_pixel(&self, x: u32, y: u32) -> (p: Pixel)
        requires
            self.wf(),
            x < self.spec_width(),
            y < self.spec_height(),
        ensures
            p == self.pixel_at(x as int, y as int),
    {
        let n: usize = self.pixels.len();
        assert(y * self.width + x < n) by (nonlinear_arith)
            requires
                x < self.width,
                y < self.height,
                n == self.width * self.height,
        ;
        self.pixels[(y as usize) * (self.width as usize) + (x as usize)]
    }

    /// Dithers the image in place with the Floyd–Steinberg kernel.
    pub fn dither(&mut self)
        requires
            old(self).wf(),
        ensures
            final(self).wf(),
            final(self).spec_width() == old(self).spec_width(),
            final(self).spec_height() == old(self).spec_height(),
            final(self)@ == dithered(old(self)@, old(self).spec_width() as int, old(self).spec_height() as int),
    {
        dither_pixels(&mut self.pixels, self.width, self.height);
    }
}

} // verus!
