//! The integer side of a Mandelbrot explorer: the image size, palette and
//! iteration limit, and the RGBA image buffer the escape-time colours are
//! written into. The view window (centre and scale) and the escape-time
//! iteration work in floating point and stay with the caller.
use vstd::prelude::*;
use crate::frame::{px, channel, in_frame, frame_ok, put_pixel};

verus! {

pub const PALETTE_FIRE: u8 = 0;
pub const PALETTE_ELECTRIC: u8 = 1;
pub const PALETTE_BW: u8 = 2;
pub const PALETTE_OCEAN: u8 = 3;

/// The default iteration limit.
pub const MAX_ITER: u32 = 256;

/// The abstract image state.
#[verifier::ext_equal]
pub struct ImageState {
    pub width: u32,
    pub height: u32,
    pub palette: u8,
    pub max_iter: u32,
    pub buffer: Seq<u8>,
}

/// The image settings and pixels of the explorer.
pub struct FractalImage {
    width: u32,
    height: u32,
    palette: u8,
    max_iter: u32,
    image_buffer: Vec<u8>,
}

impl View for FractalImage {
    type V = ImageState;

    closed spec fn view(&self) -> ImageState {
        ImageState {
            width: self.width,
            height: self.height,
            palette: self.palette,
            max_iter: self.max_iter,
            buffer: self.image_buffer@,
        }
    }
}

/// The byte count of a `width` x `height` RGBA image.
pub open spec fn image_len(width: u32, height: u32) -> int {
    width * height * 4
}

impl FractalImage {
    /// A black `width` x `height` image with the fire palette and the
    /// default iteration limit.
    pub fn new(width: u32, height: u32) -> (img: FractalImage)
        requires
            image_len(width, height) <= usize::MAX,
        ensures
            img@ == (ImageState {
                width,
                height,
                palette: PALETTE_FIRE,
                max_iter: MAX_ITER,
                buffer: Seq::new(image_len(width, height) as nat, |k: int| 0u8),
            }),
    {
        proof {
            assert(0 <= (width as int) * (height as int) <= width * height * 4) by (nonlinear_arith);
        }
        let size = (width as usize) * (height as usize) * 4;
        let mut image_buffer: Vec<u8> = Vec::new();
        while image_buffer.len() < size
            invariant
                image_buffer.len() <= size,
                forall|k: int| 0 <= k < image_buffer.len() ==> image_buffer@[k] == 0u8,
            decreases size - image_buffer.len(),
        {
            image_buffer.push(0);
        }
        let img = FractalImage { width, height, palette: PALETTE_FIRE, max_iter: MAX_ITER, image_buffer };
        assert(img@.buffer =~= Seq::new(image_len(width, height) as nat, |k: int| 0u8));
        img
    }

    /// Change the image size; the buffer keeps its leading bytes and is cut
    /// or padded with zeros to the new length.
    pub fn resize(&mut self, new_width: u32, new_height: u32)
        requires
            image_len(new_width, new_height) <= usize::MAX,
        ensures
            final(self)@ == (ImageState {
                width: new_width,
                height: new_height,
                buffer: Seq::new(image_len(new_width, new_height) as nat, |k: int|
                    if k < old(self)@.buffer.len() { old(self)@.buffer[k] } else { 0u8 }),
                ..old(self)@
            }),
    {
        self.width = new_width;
        self.height = new_height;
        proof {
            assert(0 <= (new_width as int) * (new_height as int) <= new_width * new_height * 4) by (nonlinear_arith);
        }
        let size = (new_width as usize) * (new_height as usize) * 4;
        let ghost b0 = self.image_buffer@;
        if self.image_buffer.len() > size {
            self.image_buffer.truncate(size);
        }
        while self.image_buffer.len() < size
            invariant
                self.image_buffer.len() <= size,
                size == image_len(new_width, new_height),
                forall|k: int| 0 <= k < self.image_buffer.len() ==> self.image_buffer@[k] == (
                    if k < b0.len() { b0[k] } else { 0u8 }),
                self.image_buffer.len() >= b0.len() || self.image_buffer.len() == size,
                self.width == new_width,
                self.height == new_height,
                self.palette == old(self).palette,
                self.max_iter == old(self).max_iter,
            decreases size - self.image_buffer.len(),
        {
            self.image_buffer.push(0);
        }
        assert(self@.buffer =~= Seq::new(image_len(new_width, new_height) as nat, |k: int|
            if k < b0.len() { b0[k] } else { 0u8 }));
    }

    pub fn set_palette(&mut self, palette: u8)
        ensures
            final(self)@ == (ImageState { palette, ..old(self)@ }),
    {
        self.palette = palette;
    }

    pub fn palette(&self) -> (p: u8)
        ensures
            p == self@.palette,
    {
        self.palette
    }

    pub fn set_max_iter(&mut self, max_iter: u32)
        ensures
            final(self)@ == (ImageState { max_iter, ..old(self)@ }),
    {
        self.max_iter = max_iter;
    }

    pub fn max_iter(&self) -> (m: u32)
        ensures
            m == self@.max_iter,
    {
        self.max_iter
    }

    /// Restore the default iteration limit (part of resetting the view).
    pub fn reset_max_iter(&mut self)
        ensures
            final(self)@ == (ImageState { max_iter: MAX_ITER, ..old(self)@ }),
    {
        self.max_iter = MAX_ITER;
    }

    pub fn width(&self) -> (w: u32)
        ensures
            w == self@.width,
    {
        self.width
    }

    pub fn height(&self) -> (h: u32)
        ensures
            h == self@.height,
    {
        self.height
    }

    /// The RGBA image, row by row.
    pub fn buffer(&self) -> (b: &[u8])
        ensures
            b@ == self@.buffer,
    {
        self.image_buffer.as_slice()
    }

    pub fn buffer_len(&self) -> (n: usize)
        ensures
            n == self@.buffer.len(),
    {
        self.image_buffer.len()
    }

    /// Colour pixel (`px_`, `py`) for a point that escaped after `iter`
    /// iterations: black when it never escaped (`iter` reached the limit),
    /// otherwise the palette colour `rgb` the caller computed; always
    /// opaque.
    pub fn put_escape_pixel(&mut self, px_: u32, py: u32, iter: u32, rgb: (u8, u8, u8))
        requires
            old(self)@.buffer.len() == image_len(old(self)@.width, old(self)@.height),
            px_ < old(self)@.width,
            py < old(self)@.height,
        ensures
            final(self)@ == (ImageState { buffer: final(self)@.buffer, ..old(self)@ }),
            final(self)@.buffer.len() == old(self)@.buffer.len(),
            forall|x: int, y: int, c: int| in_frame(old(self)@.width as int, old(self)@.height as int, x, y, c) ==>
                #[trigger] final(self)@.buffer[px(old(self)@.width as int, x, y, c)] == (
                    if x == px_ && y == py {
                        if iter == old(self)@.max_iter { channel(0, 0, 0, 255, c) } else { channel(rgb.0, rgb.1, rgb.2, 255, c) }
                    } else {
                        old(self)@.buffer[px(old(self)@.width as int, x, y, c)]
                    }),
    {
        let (r, g, b) = if iter == self.max_iter {
            (0u8, 0u8, 0u8)  // inside the set: black
        } else {
            rgb
        };
        proof {
            assert(4 * ((self.width as int) * (self.height as int)) == image_len(self.width, self.height)) by (nonlinear_arith);
        }
        put_pixel(&mut self.image_buffer, self.width as usize, self.height as usize, px_ as usize, py as usize, r, g, b, 255);
    }
}

} // verus!
