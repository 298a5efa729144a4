use vstd::prelude::*;
use crate::error::KmeansError;

verus! {

/// An opaque 8-bit sRGB colour: one sample of an image.
#[derive(Clone, Copy, Debug, PartialEq, Eq, Structural)]
pub struct Rgb8 {
    pub r: u8,
    pub g: u8,
    pub b: u8,
}

/// Width and height of the sampling grid used for large images.
pub const SAMPLE_SIDE: usize = 100;

/// Largest number of pixels that is sampled without scaling.
pub const SAMPLE_BUDGET: usize = 10000;

/// Width and height of the grid that is sampled: the image itself when it
/// fits the budget, else a `SAMPLE_SIDE` by `SAMPLE_SIDE` grid.
pub open spec fn grid(width: int, height: int) -> (int, int) {
    if width * height <= SAMPLE_BUDGET {
        (width, height)
    } else {
        (SAMPLE_SIDE as int, SAMPLE_SIDE as int)
    }
}

/// Nearest source coordinate of grid coordinate `x` on an axis scaled from
/// `size` to `cells`.
pub open spec fn source_coord(x: int, size: int, cells: int) -> int {
    x * size / cells
}

/// The opaque colour of the pixel at `(x, y)` of an RGBA buffer `width` wide.
pub open spec fn pixel_at(pixels: Seq<u8>, width: int, x: int, y: int) -> Rgb8 {
    let i = 4 * (y * width + x);
    Rgb8 { r: pixels[i], g: pixels[i + 1], b: pixels[i + 2] }
}

/// The samples of an RGBA buffer, row by row over the sampling grid, each
/// taken from the nearest source pixel, alpha dropped.
pub open spec fn samples_of(pixels: Seq<u8>, width: int, height: int) -> Seq<Rgb8> {
    let (gw, gh) = grid(width, height);
    Seq::new(
        (gw * gh) as nat,
        |i: int|
            pixel_at(pixels, width, source_coord(i % gw, width, gw), source_coord(i / gw, height, gh)),
    )
}

proof fn lemma_scaled_below(x: int, size: int, cells: int)
    requires
        0 <= x < cells,
        0 < size,
    ensures
        0 <= source_coord(x, size, cells) < size,
{
    assert(0 <= x * size) by (nonlinear_arith)
        requires 0 <= x, 0 < size;
    assert(x * size < cells * size) by (nonlinear_arith)
        requires x < cells, 0 < size;
    vstd::arithmetic::div_mod::lemma_div_pos_is_pos(x * size, cells);
    vstd::arithmetic::div_mod::lemma_multiply_divide_lt(x * size, cells, size);
}

proof fn lemma_wide_product(a: int, b: int)
    requires
        0 <= a <= usize::MAX,
        0 <= b <= usize::MAX,
    ensures
        a * b <= u128::MAX,
{
    assert(a * b <= 0xffff_ffff_ffff_ffff * 0xffff_ffff_ffff_ffff) by (nonlinear_arith)
        requires 0 <= a <= 0xffff_ffff_ffff_ffff, 0 <= b <= 0xffff_ffff_ffff_ffff;
}

proof fn lemma_pixel_in_buffer(x: int, y: int, width: int, height: int)
    requires
        0 <= x < width,
        0 <= y < height,
    ensures
        0 <= y * width + x,
        4 * (y * width + x) + 3 < 4 * (width * height),
        4 * (y * width + x) + 3 < 4 * width * height,
{
    assert(4 * width * height == 4 * (width * height)) by (nonlinear_arith);
    assert(0 <= y * width) by (nonlinear_arith)
        requires 0 <= y, 0 <= width;
    assert(y * width + width <= width * height) by (nonlinear_arith)
        requires y + 1 <= height, 0 <= width;
}

/// Reduces an RGBA buffer of `width * height` pixels to opaque samples.
/// An image of at most `SAMPLE_BUDGET` pixels gives every pixel in order; a
/// larger one is scaled to a `SAMPLE_SIDE` square grid, each cell taking the
/// nearest pixel. A buffer whose length is not four bytes per pixel is
/// `UnsupportedSource`.
pub fn sample_rgba(pixels: &Vec<u8>, width: usize, height: usize) -> (r: Result<Vec<Rgb8>, KmeansError>)
    ensures
        4 * width * height != pixels@.len() ==> r == Err::<Vec<Rgb8>, KmeansError>(KmeansError::UnsupportedSource),
        4 * width * height == pixels@.len() ==> (r matches Ok(v) && v@ == samples_of(pixels@, width as int, height as int)),
{
    let len = pixels.len();
    let area = match width.checked_mul(height) {
        Some(a) => a,
        None => {
            proof {
                assert(4 * width * height > usize::MAX) by (nonlinear_arith)
                    requires width * height > usize::MAX;
            }
            return Err(KmeansError::UnsupportedSource);
        },
    };
    let bytes = match area.checked_mul(4) {
        Some(b) => b,
        None => {
            proof {
                assert(4 * width * height == area * 4) by (nonlinear_arith)
                    requires area == width * height;
            }
            return Err(KmeansError::UnsupportedSource);
        },
    };
    proof {
        assert(4 * width * height == bytes) by (nonlinear_arith)
            requires area == width * height, bytes == area * 4;
    }
    if bytes != pixels.len() {
        return Err(KmeansError::UnsupportedSource);
    }
    let (gw, gh) = if area <= SAMPLE_BUDGET {
        (width, height)
    } else {
        (SAMPLE_SIDE, SAMPLE_SIDE)
    };
    proof {
        if area > SAMPLE_BUDGET {
            if width == 0 || height == 0 {
                assert(width * height == 0) by (nonlinear_arith)
                    requires width == 0 || height == 0;
            }
        }
    }
    let ghost spec = samples_of(pixels@, width as int, height as int);
    proof {
        assert(gw * gh <= usize::MAX) by (nonlinear_arith)
            requires
                (gw == width && gh == height && area == width * height)
                || (gw == 100 && gh == 100);
    }
    let mut out: Vec<Rgb8> = Vec::new();
    let mut y: usize = 0;
    while y < gh
        invariant
            (gw as int, gh as int) == grid(width as int, height as int),
            gw * gh <= usize::MAX,
            4 * width * height == pixels@.len(),
            area == width * height,
            area > SAMPLE_BUDGET ==> width > 0 && height > 0,
            len == pixels@.len(),
            y <= gh,
            spec == samples_of(pixels@, width as int, height as int),
            out@.len() == y * gw,
            forall|i: int| 0 <= i < out@.len() ==> #[trigger] out@[i] == spec[i],
        decreases gh - y,
    {
        proof {
            lemma_wide_product(y as int, height as int);
        }
        let sy = ((y as u128) * (height as u128) / (gh as u128)) as usize;
        proof {
            lemma_scaled_below(y as int, height as int, gh as int);
        }
        let mut x: usize = 0;
        while x < gw
            invariant
                (gw as int, gh as int) == grid(width as int, height as int),
                gw * gh <= usize::MAX,
                4 * width * height == pixels@.len(),
                area == width * height,
                area > SAMPLE_BUDGET ==> width > 0 && height > 0,
                len == pixels@.len(),
                y < gh,
                x <= gw,
                sy == source_coord(y as int, height as int, gh as int),
                0 <= sy < height,
                spec == samples_of(pixels@, width as int, height as int),
                out@.len() == y * gw + x,
                forall|i: int| 0 <= i < out@.len() ==> #[trigger] out@[i] == spec[i],
            decreases gw - x,
        {
            proof {
                lemma_wide_product(x as int, width as int);
            }
            let sx = ((x as u128) * (width as u128) / (gw as u128)) as usize;
            proof {
                lemma_scaled_below(x as int, width as int, gw as int);
                lemma_pixel_in_buffer(sx as int, sy as int, width as int, height as int);
                assert(y * gw + x < gw * gh) by (nonlinear_arith)
                    requires x < gw, y < gh;
                assert(0 <= sy * width <= sy * width + sx);
            }
            let i = 4 * (sy * width + sx);
            out.push(Rgb8 { r: pixels[i], g: pixels[i + 1], b: pixels[i + 2] });
            proof {
                let n = y * gw + x;
                vstd::arithmetic::div_mod::lemma_fundamental_div_mod_converse(n as int, gw as int, y as int, x as int);
                assert(out@[n as int] == spec[n as int]);
            }
            x = x + 1;
        }
        proof {
            assert((y + 1) * gw == y * gw + gw) by (nonlinear_arith);
        }
        y = y + 1;
    }
    proof {
        assert(gh * gw == gw * gh) by (nonlinear_arith);
        assert(out@ =~= spec);
    }
    Ok(out)
}

} // verus!
