//! Pixel buffers: a shape sampled at every pixel, and windows cut out of one.
use vstd::prelude::*;
use vstd::arithmetic::div_mod::lemma_fundamental_div_mod_converse;

verus! {

/// A pixel: red, green, blue and alpha.
pub type Rgba = [u8; 4];

/// Something that has a colour, or none, at each pixel.
pub trait Shape {
    /// The shapes whose colours can be worked out.
    spec fn shape_ok(&self) -> bool;

    spec fn colour_spec(&self, x: int, y: int) -> Option<[u8; 4]>;

    fn colour_at(&self, x: i64, y: i64) -> (r: Option<[u8; 4]>)
        requires
            self.shape_ok(),
            -PIXEL_LIMIT <= x <= PIXEL_LIMIT,
            -PIXEL_LIMIT <= y <= PIXEL_LIMIT,
        ensures
            r == self.colour_spec(x as int, y as int),
    ;
}

/// A `width` by `height` picture, four bytes a pixel, row after row.
#[derive(Debug)]
pub struct Canvas {
    pub pixels: Vec<u8>,
    pub width: i64,
    pub height: i64,
}

/// How many pixels a canvas may hold.
pub const PIXEL_LIMIT: i64 = 0x100_0000_0000;

/// Byte `k` of a colour, transparent black where there is none.
pub open spec fn channel(c: Option<[u8; 4]>, k: int) -> u8 {
    match c {
        Some(col) => col@[k],
        None => 0,
    }
}

/// The bytes of a shape sampled over a `width` by `height` grid.
pub open spec fn filled<S: Shape>(shape: &S, width: int, height: int) -> Seq<u8> {
    Seq::new(
        (width * height * 4) as nat,
        |k: int| channel(shape.colour_spec((k / 4) % width, (k / 4) / width), k % 4),
    )
}

/// The bytes of the window `first_x .. last_x` by `first_y .. last_y` of a
/// picture `width` pixels wide.
pub open spec fn cropped(pixels: Seq<u8>, width: int, first_x: int, last_x: int, first_y: int, last_y: int) -> Seq<u8> {
    let w = last_x - first_x;
    Seq::new(
        (w * (last_y - first_y) * 4) as nat,
        |k: int| pixels[(((k / 4) / w + first_y) * width + (k / 4) % w + first_x) * 4 + k % 4],
    )
}

/// Index `k` of a picture `w` wide is channel `c` of pixel (`x`, `y`).
pub proof fn lemma_index(w: int, x: int, y: int, c: int, k: int)
    requires
        w > 0,
        0 <= x < w,
        0 <= y,
        0 <= c < 4,
        k == (y * w + x) * 4 + c,
    ensures
        k / 4 == y * w + x,
        k % 4 == c,
        (k / 4) % w == x,
        (k / 4) / w == y,
{
    lemma_fundamental_div_mod_converse(k, 4, y * w + x, c);
    lemma_fundamental_div_mod_converse(y * w + x, w, y, x);
}

pub proof fn lemma_area(w: int, h: int, y: int, x: int)
    requires
        0 <= x < w,
        0 <= y < h,
    ensures
        (y * w + x) * 4 + 4 <= w * h * 4,
        0 <= y * w + x,
{
    assert(y * w + x + 1 <= w * h) by (nonlinear_arith)
        requires
            0 <= x < w,
            0 <= y < h,
    ;
    assert(0 <= y * w) by (nonlinear_arith)
        requires
            0 <= y,
            0 <= w,
    ;
}

/// Every pixel of a filled canvas holds the shape's colour there, and
/// transparent black where the shape has none.
pub proof fn law_fill_pixel<S: Shape>(shape: &S, width: int, height: int, x: int, y: int, c: int)
    requires
        0 <= x < width,
        0 <= y < height,
        0 <= c < 4,
    ensures
        filled(shape, width, height).len() == width * height * 4,
        (y * width + x) * 4 + c < width * height * 4,
        filled(shape, width, height)[(y * width + x) * 4 + c] == channel(shape.colour_spec(x, y), c),
{
    lemma_area(width, height, y, x);
    lemma_index(width, x, y, c, (y * width + x) * 4 + c);
    assert(width * height * 4 >= 0) by (nonlinear_arith)
        requires
            width > 0,
            height > 0,
    ;
}

/// Every pixel of a window cut from a picture is the picture's pixel as far
/// from the window's corner.
pub proof fn law_crop_pixel(
    pixels: Seq<u8>,
    width: int,
    first_x: int,
    last_x: int,
    first_y: int,
    last_y: int,
    x: int,
    y: int,
    c: int,
)
    requires
        0 <= x < last_x - first_x,
        0 <= y < last_y - first_y,
        0 <= c < 4,
    ensures
        cropped(pixels, width, first_x, last_x, first_y, last_y).len() == (last_x - first_x) * (last_y
            - first_y) * 4,
        cropped(pixels, width, first_x, last_x, first_y, last_y)[(y * (last_x - first_x) + x) * 4 + c]
            == pixels[((y + first_y) * width + x + first_x) * 4 + c],
{
    let w = last_x - first_x;
    let h = last_y - first_y;
    lemma_area(w, h, y, x);
    lemma_index(w, x, y, c, (y * w + x) * 4 + c);
    assert(w * h * 4 >= 0) by (nonlinear_arith)
        requires
            w > 0,
            h > 0,
    ;
}

impl Canvas {
    /// A canvas of the given size holding the shape's colour at each pixel,
    /// and nothing where it has none.
    pub fn fill<S: Shape>(width: i64, height: i64, shape: &S) -> (r: Canvas)
        requires
            shape.shape_ok(),
            0 <= width,
            0 <= height,
            width * height <= PIXEL_LIMIT,
        ensures
            r.width == width,
            r.height == height,
            r.pixels@ == filled(shape, width as int, height as int),
    {
        let ghost full = filled(shape, width as int, height as int);
        let mut pixels: Vec<u8> = Vec::new();
        let mut y: i64 = 0;
        while y < height
            invariant
                shape.shape_ok(),
                0 <= y <= height,
                0 <= width,
                width * height <= PIXEL_LIMIT,
                full == filled(shape, width as int, height as int),
                pixels@.len() == y * width * 4,
                pixels@ == full.take(pixels@.len() as int),
            decreases height - y,
        {
            let mut x: i64 = 0;
            while x < width
                invariant
                    shape.shape_ok(),
                    0 <= y < height,
                    0 <= x <= width,
                    width * height <= PIXEL_LIMIT,
                    full == filled(shape, width as int, height as int),
                    pixels@.len() == (y * width + x) * 4,
                    pixels@ == full.take(pixels@.len() as int),
                decreases width - x,
            {
                proof {
                    lemma_area(width as int, height as int, y as int, x as int);
                    assert(x <= PIXEL_LIMIT && y <= PIXEL_LIMIT) by (nonlinear_arith)
                        requires
                            0 <= x < width,
                            0 <= y < height,
                            width * height <= PIXEL_LIMIT,
                    ;
                }
                let colour = shape.colour_at(x, y);
                let mut c: usize = 0;
                while c < 4
                    invariant
                        0 <= y < height,
                        0 <= x < width,
                        c <= 4,
                        (y * width + x) * 4 + 4 <= width * height * 4,
                        full == filled(shape, width as int, height as int),
                        colour == shape.colour_spec(x as int, y as int),
                        pixels@.len() == (y * width + x) * 4 + c,
                        pixels@ == full.take(pixels@.len() as int),
                    decreases 4 - c,
                {
                    let byte = match colour {
                        Some(col) => col[c],
                        None => 0,
                    };
                    proof {
                        let k = (y * width + x) * 4 + c;
                        lemma_index(width as int, x as int, y as int, c as int, k);
                        assert(full[k] == byte);
                        assert(full.take(k + 1) =~= full.take(k).push(byte));
                    }
                    pixels.push(byte);
                    c = c + 1;
                }
                x = x + 1;
            }
            proof {
                assert((y * width + width) * 4 == (y + 1) * width * 4) by (nonlinear_arith);
            }
            y = y + 1;
        }
        proof {
            assert(height * width * 4 == width * height * 4) by (nonlinear_arith);
            assert(full.take(pixels@.len() as int) =~= full);
        }
        Canvas { pixels, width, height }
    }

    /// The window `first_x .. last_x` by `first_y .. last_y` of the canvas.
    pub fn crop(&self, first_x: i64, last_x: i64, first_y: i64, last_y: i64) -> (r: Canvas)
        requires
            0 <= first_x <= last_x <= self.width,
            0 <= first_y <= last_y <= self.height,
            self.width * self.height <= PIXEL_LIMIT,
            self.pixels@.len() == self.width * self.height * 4,
        ensures
            r.width == last_x - first_x,
            r.height == last_y - first_y,
            r.pixels@ == cropped(
                self.pixels@,
                self.width as int,
                first_x as int,
                last_x as int,
                first_y as int,
                last_y as int,
            ),
    {
        let ghost w = last_x - first_x;
        let ghost h = last_y - first_y;
        let ghost full = cropped(
            self.pixels@,
            self.width as int,
            first_x as int,
            last_x as int,
            first_y as int,
            last_y as int,
        );
        proof {
            assert(w * h <= self.width * self.height) by (nonlinear_arith)
                requires
                    0 <= w <= self.width,
                    0 <= h <= self.height,
            ;
        }
        let mut pixels: Vec<u8> = Vec::new();
        let mut y: i64 = first_y;
        proof {
            assert((y - first_y) * w * 4 == 0) by (nonlinear_arith)
                requires
                    y == first_y,
            ;
            assert(full.take(0) =~= Seq::<u8>::empty());
        }
        while y < last_y
            invariant
                first_y <= y <= last_y,
                0 <= first_x <= last_x <= self.width,
                0 <= first_y <= last_y <= self.height,
                w == last_x - first_x,
                h == last_y - first_y,
                w * h <= PIXEL_LIMIT,
                self.width * self.height <= PIXEL_LIMIT,
                self.pixels@.len() == self.width * self.height * 4,
                full == cropped(self.pixels@, self.width as int, first_x as int, last_x as int, first_y as int, last_y as int),
                pixels@.len() == (y - first_y) * w * 4,
                pixels@ == full.take(pixels@.len() as int),
            decreases last_y - y,
        {
            let mut x: i64 = first_x;
            while x < last_x
                invariant
                    first_y <= y < last_y,
                    first_x <= x <= last_x,
                    0 <= first_x <= last_x <= self.width,
                    0 <= first_y <= last_y <= self.height,
                    w == last_x - first_x,
                    h == last_y - first_y,
                    w * h <= PIXEL_LIMIT,
                    self.width * self.height <= PIXEL_LIMIT,
                    self.pixels@.len() == self.width * self.height * 4,
                    full == cropped(self.pixels@, self.width as int, first_x as int, last_x as int, first_y as int, last_y as int),
                    pixels@.len() == ((y - first_y) * w + (x - first_x)) * 4,
                    pixels@ == full.take(pixels@.len() as int),
                decreases last_x - x,
            {
                proof {
                    lemma_area(self.width as int, self.height as int, y as int, x as int);
                    lemma_area(w, h, y - first_y, x - first_x);
                }
                let bytes = self.pixels.len();
                proof {
                    assert((y * self.width + x) * 4 + 4 <= bytes);
                }
                let base: usize = ((y * self.width + x) * 4) as usize;
                let mut c: usize = 0;
                while c < 4
                    invariant
                        first_y <= y < last_y,
                        first_x <= x < last_x,
                        c <= 4,
                        w == last_x - first_x,
                        h == last_y - first_y,
                        base == (y * self.width + x) * 4,
                        base + 4 <= self.pixels@.len(),
                        full == cropped(self.pixels@, self.width as int, first_x as int, last_x as int, first_y as int, last_y as int),
                        ((y - first_y) * w + (x - first_x)) * 4 + 4 <= w * h * 4,
                        pixels@.len() == ((y - first_y) * w + (x - first_x)) * 4 + c,
                        pixels@ == full.take(pixels@.len() as int),
                    decreases 4 - c,
                {
                    let byte = self.pixels[base + c];
                    proof {
                        let k = ((y - first_y) * w + (x - first_x)) * 4 + c;
                        lemma_index(w, x - first_x, y - first_y, c as int, k);
                        assert(full[k] == byte);
                        assert(full.take(k + 1) =~= full.take(k).push(byte));
                    }
                    pixels.push(byte);
                    c = c + 1;
                }
                x = x + 1;
            }
            proof {
                assert(((y - first_y) * w + w) * 4 == (y + 1 - first_y) * w * 4) by (nonlinear_arith);
            }
            y = y + 1;
        }
        proof {
            assert((y - first_y) * w * 4 == w * h * 4) by (nonlinear_arith)
                requires
                    y == last_y,
                    h == last_y - first_y,
            ;
            assert(full.take(pixels@.len() as int) =~= full);
        }
        Canvas { pixels, width: last_x - first_x, height: last_y - first_y }
    }
}

} // verus!
