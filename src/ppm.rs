//! Images in the plain-text PPM format (`P3`): a header with the magic token,
//! the width, the height and the largest channel value, then one line
//! `R G B` of decimal channel values per pixel, in row-major order.

use vstd::prelude::*;

verus! {

/// The decimal digits of `n`, most significant first, as ASCII bytes.
pub open spec fn decimal(n: nat) -> Seq<u8>
    decreases n,
{
    if n < 10 {
        seq![(48 + n) as u8]
    } else {
        decimal(n / 10).push((48 + n % 10) as u8)
    }
}

/// The line of one pixel: its three channels in decimal, separated by spaces.
pub open spec fn pixel_line(p: (u8, u8, u8)) -> Seq<u8> {
    decimal(p.0 as nat) + seq![32u8] + decimal(p.1 as nat) + seq![32u8] + decimal(p.2 as nat)
        + seq![10u8]
}

/// The lines of a sequence of pixels, in order.
pub open spec fn pixel_lines(ps: Seq<(u8, u8, u8)>) -> Seq<u8>
    decreases ps.len(),
{
    if ps.len() == 0 {
        seq![]
    } else {
        pixel_lines(ps.drop_last()) + pixel_line(ps.last())
    }
}

/// The header: `P3`, then the width and height, then the largest channel
/// value, each part on its own line.
pub open spec fn ppm_header(columns: nat, rows: nat, max_color: nat) -> Seq<u8> {
    seq![80u8, 51u8, 10u8] + decimal(columns) + seq![32u8] + decimal(rows) + seq![10u8] + decimal(
        max_color,
    ) + seq![10u8]
}

/// The whole text of an image.
pub open spec fn ppm_text(columns: nat, rows: nat, max_color: nat, ps: Seq<(u8, u8, u8)>) -> Seq<u8> {
    ppm_header(columns, rows, max_color) + pixel_lines(ps)
}

/// Appends the decimal digits of `n` to `out`.
fn push_decimal(out: &mut Vec<u8>, n: u32)
    ensures
        final(out)@ == old(out)@ + decimal(n as nat),
    decreases n,
{
    if n >= 10 {
        push_decimal(out, n / 10);
    }
    out.push(48u8 + (n % 10) as u8);
    proof {
        if n >= 10 {
            assert(old(out)@ + decimal(n as nat) =~= (old(out)@ + decimal((n / 10) as nat)).push(
                (48 + n % 10) as u8,
            ));
        } else {
            assert(old(out)@ + decimal(n as nat) =~= old(out)@.push((48 + n % 10) as u8));
        }
    }
}

/// Appends one byte to `out`.
fn push_byte(out: &mut Vec<u8>, b: u8)
    ensures
        final(out)@ == old(out)@ + seq![b],
{
    out.push(b);
    proof {
        assert(old(out)@.push(b) =~= old(out)@ + seq![b]);
    }
}

/// An image of `columns` by `rows` pixels, each channel at most `max_color`
/// when written, held row by row.
#[derive(Debug)]
pub struct PPM {
    columns: u32,
    rows: u32,
    max_color: u32,
    pixels: Vec<(u8, u8, u8)>,
}

impl PPM {
    /// The width in pixels.
    pub closed spec fn spec_columns(&self) -> nat {
        self.columns as nat
    }

    /// The height in pixels.
    pub closed spec fn spec_rows(&self) -> nat {
        self.rows as nat
    }

    /// The largest channel value written in the header.
    pub closed spec fn spec_max_color(&self) -> nat {
        self.max_color as nat
    }

    /// The pixels, row by row, each as its red, green and blue channels.
    pub closed spec fn spec_pixels(&self) -> Seq<(u8, u8, u8)> {
        self.pixels@
    }

    /// There is one pixel for each column of each row, and their number fits
    /// in 32 bits.
    pub open spec fn wf(&self) -> bool {
        &&& self.spec_pixels().len() == self.spec_columns() * self.spec_rows()
        &&& self.spec_columns() * self.spec_rows() <= u32::MAX
    }

    /// The position of pixel `(x, y)` in the row-major pixel list.
    pub open spec fn spec_offset(&self, x: nat, y: nat) -> nat {
        y * self.spec_columns() + x
    }

    /// A black image of `columns` by `rows` pixels.
    pub fn new(columns: u32, rows: u32, max_color: u32) -> (r: PPM)
        requires
            columns * rows <= u32::MAX,
        ensures
            r.wf(),
            r.spec_columns() == columns,
            r.spec_rows() == rows,
            r.spec_max_color() == max_color,
            forall|k: int| 0 <= k < r.spec_pixels().len() ==> r.spec_pixels()[k] == (0u8, 0u8, 0u8),
    {
        let count = (columns * rows) as usize;
        let mut pixels: Vec<(u8, u8, u8)> = Vec::new();
        let mut k: usize = 0;
        while k < count
            invariant
                k <= count,
                pixels@.len() == k,
                forall|m: int| 0 <= m < k ==> pixels@[m] == (0u8, 0u8, 0u8),
            decreases count - k,
        {
            pixels.push((0u8, 0u8, 0u8));
            k = k + 1;
        }
        PPM { columns, rows, max_color, pixels }
    }

    /// The image whose pixel in column `x` of row `y` is `pixel(x, y)`, with
    /// the pixels computed row by row, each row from left to right.
    pub fn from_fn<F: Fn(u32, u32) -> (u8, u8, u8)>(columns: u32, rows: u32, max_color: u32, pixel: &F) -> (r: PPM)
        requires
            columns * rows <= u32::MAX,
            forall|x: u32, y: u32| x < columns && y < rows ==> #[trigger] pixel.requires((x, y)),
        ensures
            r.wf(),
            r.spec_columns() == columns,
            r.spec_rows() == rows,
            r.spec_max_color() == max_color,
            forall|x: u32, y: u32|
                x < columns && y < rows ==> #[trigger] pixel.ensures(
                    (x, y),
                    r.spec_pixels()[r.spec_offset(x as nat, y as nat) as int],
                ),
    {
        let mut pixels: Vec<(u8, u8, u8)> = Vec::new();
        let mut y: u32 = 0;
        while y < rows
            invariant
                y <= rows,
                columns * rows <= u32::MAX,
                forall|x: u32, y: u32| x < columns && y < rows ==> #[trigger] pixel.requires((x, y)),
                pixels@.len() == y * columns,
                forall|xx: u32, yy: u32|
                    xx < columns && yy < y ==> #[trigger] pixel.ensures(
                        (xx, yy),
                        pixels@[yy * columns + xx],
                    ),
            decreases rows - y,
        {
            let mut x: u32 = 0;
            while x < columns
                invariant
                    x <= columns,
                    y < rows,
                    forall|x: u32, y: u32| x < columns && y < rows ==> #[trigger] pixel.requires((x, y)),
                    pixels@.len() == y * columns + x,
                    forall|xx: u32, yy: u32|
                        xx < columns && yy < y ==> #[trigger] pixel.ensures(
                            (xx, yy),
                            pixels@[yy * columns + xx],
                        ),
                    forall|xx: u32|
                        xx < x ==> #[trigger] pixel.ensures((xx, y), pixels@[y * columns + xx]),
                decreases columns - x,
            {
                let p = pixel(x, y);
                let ghost before = pixels@;
                pixels.push(p);
                proof {
                    assert forall|xx: u32, yy: u32| xx < columns && yy < y implies #[trigger] pixel.ensures(
                        (xx, yy),
                        pixels@[yy * columns + xx],
                    ) by {
                        assert(yy * columns + xx < y * columns) by (nonlinear_arith)
                            requires
                                xx < columns,
                                yy < y,
                        ;
                        assert(pixels@[yy * columns + xx] == before[yy * columns + xx]);
                    }
                }
                x = x + 1;
            }
            proof {
                assert((y + 1) * columns == y * columns + columns) by (nonlinear_arith);
            }
            y = y + 1;
        }
        proof {
            assert(rows * columns == columns * rows) by (nonlinear_arith);
            assert forall|x: u32, y: u32| x < columns && y < rows implies #[trigger] pixel.ensures(
                (x, y),
                pixels@[(y * columns + x) as int],
            ) by {}
        }
        PPM { columns, rows, max_color, pixels }
    }

    /// The width in pixels.
    pub fn columns(&self) -> (r: u32)
        ensures
            r == self.spec_columns(),
    {
        self.columns
    }

    /// The height in pixels.
    pub fn rows(&self) -> (r: u32)
        ensures
            r == self.spec_rows(),
    {
        self.rows
    }

    /// The largest channel value written in the header.
    pub fn max_color(&self) -> (r: u32)
        ensures
            r == self.spec_max_color(),
    {
        self.max_color
    }

    /// The pixel in column `x` of row `y`.
    pub fn pixel(&self, x: u32, y: u32) -> (r: (u8, u8, u8))
        requires
            self.wf(),
            x < self.spec_columns(),
            y < self.spec_rows(),
        ensures
            r == self.spec_pixels()[self.spec_offset(x as nat, y as nat) as int],
    {
        proof {
            lemma_offset_in_range(x as nat, y as nat, self.columns as nat, self.rows as nat);
        }
        self.pixels[(y as usize) * (self.columns as usize) + (x as usize)]
    }

    /// Sets the pixel in column `x` of row `y`; the others stay as they are.
    pub fn set_pixel(&mut self, x: u32, y: u32, rgb: (u8, u8, u8))
        requires
            old(self).wf(),
            x < old(self).spec_columns(),
            y < old(self).spec_rows(),
        ensures
            final(self).wf(),
            final(self).spec_columns() == old(self).spec_columns(),
            final(self).spec_rows() == old(self).spec_rows(),
            final(self).spec_max_color() == old(self).spec_max_color(),
            final(self).spec_pixels() == old(self).spec_pixels().update(
                old(self).spec_offset(x as nat, y as nat) as int,
                rgb,
            ),
    {
        proof {
            lemma_offset_in_range(x as nat, y as nat, self.columns as nat, self.rows as nat);
        }
        let k = (y as usize) * (self.columns as usize) + (x as usize);
        self.pixels.set(k, rgb);
    }

    /// The image as PPM text: the header, then one line per pixel.
    pub fn encode(&self) -> (r: Vec<u8>)
        ensures
            r@ == ppm_text(
                self.spec_columns(),
                self.spec_rows(),
                self.spec_max_color(),
                self.spec_pixels(),
            ),
    {
        let mut out: Vec<u8> = Vec::new();
        push_byte(&mut out, 80u8);
        push_byte(&mut out, 51u8);
        push_byte(&mut out, 10u8);
        push_decimal(&mut out, self.columns);
        push_byte(&mut out, 32u8);
        push_decimal(&mut out, self.rows);
        push_byte(&mut out, 10u8);
        push_decimal(&mut out, self.max_color);
        push_byte(&mut out, 10u8);
        let ghost header = ppm_header(self.columns as nat, self.rows as nat, self.max_color as nat);
        proof {
            assert(out@ =~= header);
            assert(self.pixels@.subrange(0, 0) =~= Seq::<(u8, u8, u8)>::empty());
        }
        let mut i: usize = 0;
        while i < self.pixels.len()
            invariant
                i <= self.pixels@.len(),
                out@ == header + pixel_lines(self.pixels@.subrange(0, i as int)),
            decreases self.pixels@.len() - i,
        {
            let p = self.pixels[i];
            let ghost before = out@;
            push_decimal(&mut out, p.0 as u32);
            push_byte(&mut out, 32u8);
            push_decimal(&mut out, p.1 as u32);
            push_byte(&mut out, 32u8);
            push_decimal(&mut out, p.2 as u32);
            push_byte(&mut out, 10u8);
            proof {
                let done = self.pixels@.subrange(0, i + 1);
                assert(done.drop_last() =~= self.pixels@.subrange(0, i as int));
                assert(done.last() == p);
                assert(out@ =~= before + pixel_line(p));
            }
            i = i + 1;
        }
        proof {
            assert(self.pixels@.subrange(0, self.pixels@.len() as int) =~= self.pixels@);
        }
        out
    }
}

/// A pixel inside the image has its offset inside the pixel list, and the
/// offset fits the machine's integers.
proof fn lemma_offset_in_range(x: nat, y: nat, columns: nat, rows: nat)
    requires
        x < columns,
        y < rows,
    ensures
        y * columns + x < columns * rows,
{
    assert(y * columns + x < (y + 1) * columns) by (nonlinear_arith)
        requires
            x < columns,
    ;
    assert((y + 1) * columns <= rows * columns) by (nonlinear_arith)
        requires
            y + 1 <= rows,
    ;
    assert(rows * columns == columns * rows) by (nonlinear_arith);
}

} // verus!
