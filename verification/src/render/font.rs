//! Glyphs as shapes: a character's coverage, inked in the label colour.
use vstd::prelude::*;
use crate::canvas::{Rgba, Shape, PIXEL_LIMIT};

verus! {

/// One glyph's coverage, a byte a pixel, row after row, and its ink.
pub struct GlyphShape {
    pub width: i64,
    pub height: i64,
    pub coverage: Vec<u8>,
    pub ink: Rgba,
}

/// The ink with its alpha scaled by a coverage out of 255.
pub open spec fn inked(ink: [u8; 4], coverage: u8) -> [u8; 4] {
    [ink[0], ink[1], ink[2], ((ink[3] as int * coverage as int) / 255) as u8]
}

impl Shape for GlyphShape {
    open spec fn shape_ok(&self) -> bool {
        &&& 0 <= self.width
        &&& 0 <= self.height
        &&& self.width * self.height <= PIXEL_LIMIT
        &&& self.coverage@.len() == self.width * self.height
    }

    /// The ink, as much of it as covers the pixel, inside the glyph's cell;
    /// nothing where nothing covers it.
    open spec fn colour_spec(&self, x: int, y: int) -> Option<[u8; 4]> {
        if x < 0 || y < 0 || x >= self.width || y >= self.height {
            None
        } else {
            let c = self.coverage@[y * self.width + x];
            if c == 0 {
                None
            } else {
                Some(inked(self.ink, c))
            }
        }
    }

    fn colour_at(&self, x: i64, y: i64) -> (r: Option<[u8; 4]>) {
        if x < 0 || y < 0 || x >= self.width || y >= self.height {
            return None;
        }
        proof {
            assert(0 <= y * self.width + x < self.width * self.height) by (nonlinear_arith)
                requires
                    0 <= x < self.width,
                    0 <= y < self.height,
            ;
            assert(0 <= y * self.width <= PIXEL_LIMIT) by (nonlinear_arith)
                requires
                    0 <= x < self.width,
                    0 <= y < self.height,
                    self.width * self.height <= PIXEL_LIMIT,
            ;
        }
        let cells = self.coverage.len();
        proof {
            assert(y * self.width + x < cells);
        }
        let coverage = self.coverage[(y * self.width + x) as usize];
        if coverage == 0 {
            return None;
        }
        let mut colour = self.ink;
        let a: u16 = self.ink[3] as u16;
        let c: u16 = coverage as u16;
        proof {
            assert(a * c <= 65025) by (nonlinear_arith)
                requires
                    a <= 255,
                    c <= 255,
            ;
        }
        let alpha: u16 = a * c / 255;
        colour[3] = alpha as u8;
        proof {
            assert(colour@ =~= inked(self.ink, coverage)@);
        }
        Some(colour)
    }
}

} // verus!
