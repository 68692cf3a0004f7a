//! Pictures in the terminal: an RGB pixel buffer drawn with half blocks, each character cell
//! showing two pixels of a column (the upper as the foreground of `▀`, the lower as its
//! background).
use vstd::prelude::*;

verus! {

/// A colour: red, green, blue.
#[derive(Debug, Clone, Copy, PartialEq, Eq, Structural)]
pub struct Rgb {
    pub r: u8,
    pub g: u8,
    pub b: u8,
}

/// The colours of one character cell: the upper and the lower pixel.
#[derive(Debug, Clone, Copy, PartialEq, Eq, Structural)]
pub struct HalfBlock {
    pub top: Rgb,
    pub bottom: Rgb,
}

/// The pixel at column `x` and row `y` of an RGB buffer `width` pixels wide.
pub open spec fn pixel_at(buf: Seq<u8>, width: int, x: int, y: int) -> Rgb {
    let i = (y * width + x) * 3;
    Rgb { r: buf[i], g: buf[i + 1], b: buf[i + 2] }
}

/// The cells of the text line that shows pixel rows `y` and `y + 1` (row `y` again when it is
/// the last of `height`).
pub open spec fn half_row(buf: Seq<u8>, width: int, height: int, y: int) -> Seq<HalfBlock> {
    Seq::new(
        width as nat,
        |x: int|
            HalfBlock {
                top: pixel_at(buf, width, x, y),
                bottom: pixel_at(buf, width, x, if y + 1 < height { y + 1 } else { y }),
            },
    )
}

/// The text lines a picture `width` by `height` pixels is drawn as: one per two pixel rows.
pub open spec fn half_rows(buf: Seq<u8>, width: int, height: int) -> Seq<Seq<HalfBlock>> {
    Seq::new(((height + 1) / 2) as nat, |r: int| half_row(buf, width, height, 2 * r))
}

proof fn lemma_index(w: int, h: int, x: int, y: int)
    by (nonlinear_arith)
    requires
        0 <= x < w,
        0 <= y < h,
    ensures
        0 <= y * (w * 3),
        y * (w * 3) + x * 3 == (y * w + x) * 3,
        y * (w * 3) + x * 3 + 2 < w * h * 3,
        w * 3 <= w * h * 3,
{
}

/// The cells of a picture given as RGB bytes, row by row, `width` by `height` pixels: a text
/// line for every two rows of pixels, the last row doubled when their number is odd.
pub fn half_block_rows(buf: &Vec<u8>, width: u32, height: u32) -> (r: Vec<Vec<HalfBlock>>)
    requires
        buf@.len() == width * height * 3,
    ensures
        r@.len() == half_rows(buf@, width as int, height as int).len(),
        forall|k: int|
            0 <= k < r@.len() ==> #[trigger] r@[k]@ == half_rows(buf@, width as int, height as int)[k],
{
    let mut lines: Vec<Vec<HalfBlock>> = Vec::new();
    if height == 0 {
        return lines;
    }
    proof {
        assert(buf@.len() == buf.len());
        if width > 0 {
            lemma_index(width as int, height as int, 0, 0);
        }
    }
    let w = width as usize;
    let stride: usize = if width > 0 { w * 3 } else { 0 };
    let mut y: u64 = 0;
    while y < height as u64
        invariant
            buf@.len() == width * height * 3,
            height > 0,
            stride == width * 3,
            w == width,
            y % 2 == 0,
            y <= height + 1,
            lines@.len() == y / 2,
            forall|k: int|
                0 <= k < lines@.len() ==> #[trigger] lines@[k]@ == half_row(buf@, width as int, height as int, 2 * k),
        decreases height + 1 - y,
    {
        let lower: u64 = if y + 1 < height as u64 { y + 1 } else { y };
        let mut row: Vec<HalfBlock> = Vec::new();
        let mut x: usize = 0;
        while x < w
            invariant
                buf@.len() == width * height * 3,
                stride == width * 3,
                w == width,
                y < height,
                lower < height,
                lower == (if y + 1 < height { y + 1 } else { y as int }),
                x <= w,
                row@.len() == x,
                forall|j: int|
                    0 <= j < x ==> #[trigger] row@[j] == half_row(buf@, width as int, height as int, y as int)[j],
            decreases w - x,
        {
            proof {
                lemma_index(width as int, height as int, x as int, y as int);
                lemma_index(width as int, height as int, x as int, lower as int);
            }
            let yu: usize = y as usize;
            let lu: usize = lower as usize;
            proof {
                assert(yu == y);
                assert(lu == lower);
                assert(buf@.len() == buf.len());
            }
            let ti: usize = yu * stride + x * 3;
            let bi: usize = lu * stride + x * 3;
            let cell = HalfBlock {
                top: Rgb { r: buf[ti], g: buf[ti + 1], b: buf[ti + 2] },
                bottom: Rgb { r: buf[bi], g: buf[bi + 1], b: buf[bi + 2] },
            };
            row.push(cell);
            x = x + 1;
        }
        proof {
            assert(row@ =~= half_row(buf@, width as int, height as int, y as int));
        }
        lines.push(row);
        y = y + 2;
    }
    proof {
        assert(lines@.len() == (height + 1) / 2);
    }
    lines
}

} // verus!
