//! The density field: the brightness of a raster, looked up by pixel.

use vstd::prelude::*;
use crate::geometry::{Point, UNITS_PER_PIXEL};

verus! {

/// The longest side of a raster whose every corner has a grid position.
pub const MAX_SIDE: u32 = 0x00FF_FFFF;

/// The brightness samples of a grayscale raster, row by row.
pub struct DensityField {
    width: u32,
    height: u32,
    data: Vec<u8>,
}

impl DensityField {
    /// The raster's width in pixels.
    pub closed spec fn spec_width(&self) -> nat {
        self.width as nat
    }

    /// The raster's height in pixels.
    pub closed spec fn spec_height(&self) -> nat {
        self.height as nat
    }

    /// The raster's samples, row by row.
    pub closed spec fn samples(&self) -> Seq<u8> {
        self.data@
    }

    /// The field holds one sample for each pixel, and no side is longer
    /// than `MAX_SIDE`.
    #[verifier::type_invariant]
    pub closed spec fn well_formed(&self) -> bool {
        &&& self.width <= MAX_SIDE
        &&& self.height <= MAX_SIDE
        &&& self.data@.len() == self.width * self.height
    }

    /// The brightness of the pixel `(x, y)`.
    pub open spec fn brightness_at(&self, x: int, y: int) -> u8 {
        self.samples()[y * self.spec_width() + x]
    }

    /// The field of a raster of `width` by `height` pixels whose samples
    /// are `data`, row by row; nothing where the samples are not one for
    /// each pixel or a side is longer than `MAX_SIDE`.
    pub fn new(width: u32, height: u32, data: Vec<u8>) -> (field: Option<Self>)
        ensures
            field is Some <==> width <= MAX_SIDE && height <= MAX_SIDE && data@.len() == width
                * height,
            field matches Some(f) ==> f.spec_width() == width && f.spec_height() == height
                && f.samples() == data@,
    {
        if width > MAX_SIDE || height > MAX_SIDE {
            return None;
        }
        assert(width * height <= 0x00FF_FFFF * 0x00FF_FFFF) by (nonlinear_arith)
            requires
                width <= 0x00FF_FFFF,
                height <= 0x00FF_FFFF,
        ;
        let pixels: u64 = (width as u64) * (height as u64);
        if data.len() as u64 != pixels {
            return None;
        }
        Some(DensityField { width, height, data })
    }

    /// The raster's width in pixels.
    pub fn width(&self) -> (w: u32)
        ensures
            w == self.spec_width(),
            w <= MAX_SIDE,
    {
        proof {
            use_type_invariant(self);
        }
        self.width
    }

    /// The raster's height in pixels.
    pub fn height(&self) -> (h: u32)
        ensures
            h == self.spec_height(),
            h <= MAX_SIDE,
    {
        proof {
            use_type_invariant(self);
        }
        self.height
    }

    /// The brightness of the pixel `(x, y)`.
    pub fn brightness(&self, x: u32, y: u32) -> (b: u8)
        requires
            x < self.spec_width(),
            y < self.spec_height(),
        ensures
            b == self.brightness_at(x as int, y as int),
    {
        proof {
            use_type_invariant(self);
            assert(y * self.width + x < self.width * self.height) by (nonlinear_arith)
                requires
                    x < self.width,
                    y < self.height,
            ;
            assert(self.width * self.height <= 0x00FF_FFFF * 0x00FF_FFFF) by (nonlinear_arith)
                requires
                    self.width <= 0x00FF_FFFF,
                    self.height <= 0x00FF_FFFF,
            ;
        }
        let len: usize = self.data.len();
        let at: u64 = (y as u64) * (self.width as u64) + (x as u64);
        assert(at < len);
        self.data[at as usize]
    }

    /// The pixel that the position `p` falls in, pulled into the raster
    /// where `p` lies beyond its last row or column.
    pub fn pixel_under(&self, p: Point) -> (pixel: (u32, u32))
        requires
            self.spec_width() > 0,
            self.spec_height() > 0,
        ensures
            pixel.0 == if p.x / UNITS_PER_PIXEL < self.spec_width() {
                (p.x / UNITS_PER_PIXEL) as int
            } else {
                self.spec_width() - 1
            },
            pixel.1 == if p.y / UNITS_PER_PIXEL < self.spec_height() {
                (p.y / UNITS_PER_PIXEL) as int
            } else {
                self.spec_height() - 1
            },
    {
        let px: u32 = p.x / UNITS_PER_PIXEL;
        let py: u32 = p.y / UNITS_PER_PIXEL;
        (
            if px < self.width {
                px
            } else {
                self.width - 1
            },
            if py < self.height {
                py
            } else {
                self.height - 1
            },
        )
    }
}

/// The grid position of the pixel `(px, py)`.
pub open spec fn pixel_position(px: int, py: int) -> Point {
    Point { x: (px * UNITS_PER_PIXEL) as u32, y: (py * UNITS_PER_PIXEL) as u32 }
}

/// The grid position of the pixel `(px, py)`.
pub fn position_of_pixel(px: u32, py: u32) -> (p: Point)
    requires
        px <= MAX_SIDE,
        py <= MAX_SIDE,
    ensures
        p == pixel_position(px as int, py as int),
        p.x == px * UNITS_PER_PIXEL,
        p.y == py * UNITS_PER_PIXEL,
{
    Point { x: px * UNITS_PER_PIXEL, y: py * UNITS_PER_PIXEL }
}

} // verus!
