//! Frames as text: one character for the brightness of a pixel.

use crate::ppm::{blue, green, lemma_pixel_index, pixel_index, red, unpack_rgb};
use vstd::prelude::*;

verus! {

/// Number of shades that text output knows.
pub const SHADES: u32 = 6;

/// How bright a pixel looks, from 0 to 255: green counts four times, red
/// three times and blue once.
pub open spec fn brightness_of(color: u32) -> int {
    (3 * red(color) + blue(color) + 4 * green(color)) / 8
}

/// The character that stands for shade `index`, from dark to bright.
pub open spec fn shade_char(index: int) -> char {
    if index <= 0 {
        ' '
    } else if index == 1 {
        '.'
    } else if index == 2 {
        ':'
    } else if index == 3 {
        'a'
    } else if index == 4 {
        '@'
    } else {
        '#'
    }
}

/// The character that stands for a pixel in text output.
pub open spec fn shade_of(color: u32) -> char {
    shade_char(brightness_of(color) * 6 / 256)
}

/// Picks the character that stands for a pixel in text output.
pub fn color2char(color: u32) -> (c: char)
    ensures
        c == shade_of(color),
{
    let rgb = unpack_rgb(color);
    let r: u32 = rgb.0 as u32;
    let g: u32 = rgb.1 as u32;
    let b: u32 = rgb.2 as u32;
    let brightness: u32 = (r + r + r + b + g + g + g + g) / 8;
    let i: u32 = brightness * SHADES / 256;
    if i == 0 {
        ' '
    } else if i == 1 {
        '.'
    } else if i == 2 {
        ':'
    } else if i == 3 {
        'a'
    } else if i == 4 {
        '@'
    } else {
        '#'
    }
}

/// The pixel that column `col` of row `row` of a text picture with `rows`
/// rows and `cols` columns shows.
pub open spec fn sampled_index(width: int, height: int, rows: int, cols: int, row: int, col: int)
    -> int {
    pixel_index(col * width / cols, row * height / rows, width)
}

/// One row of a frame as text, scaled down to `rows` by `cols` samples:
/// every sample is written twice, since a character is taller than wide.
pub open spec fn text_row_of(
    buffer: Seq<u32>,
    width: int,
    height: int,
    rows: int,
    cols: int,
    row: int,
) -> Seq<char> {
    Seq::new(
        (2 * cols) as nat,
        |i: int| shade_of(buffer[sampled_index(width, height, rows, cols, row, i / 2)]),
    )
}

/// Writes row `row` of a frame as text.
pub fn text_row(buffer: &[u32], width: u32, height: u32, rows: u32, cols: u32, row: u32) -> (line:
    Vec<char>)
    requires
        buffer@.len() == width * height,
        0 < width,
        0 < height,
        0 < rows,
        0 < cols,
        row < rows,
    ensures
        line@ == text_row_of(
            buffer@,
            width as int,
            height as int,
            rows as int,
            cols as int,
            row as int,
        ),
{
    let ghost w = width as int;
    let ghost h = height as int;
    let mut line: Vec<char> = Vec::new();
    proof {
        lemma_sample_in_range(row as int, h, rows as int);
    }
    let y: u64 = row as u64 * height as u64 / rows as u64;
    assert(buffer@.len() == buffer.len());
    let mut c: u32 = 0;
    while c < cols
        invariant
            w == width,
            h == height,
            0 <= c <= cols,
            0 < w,
            0 < h,
            0 <= y < h,
            buffer@.len() <= usize::MAX,
            0 < rows,
            0 < cols,
            row < rows,
            buffer@.len() == w * h,
            y == row * height / (rows as int),
            line@ == Seq::new(
                (2 * c) as nat,
                |i: int|
                    shade_of(
                        buffer@[sampled_index(w, h, rows as int, cols as int, row as int, i / 2)],
                    ),
            ),
        decreases cols - c,
    {
        proof {
            lemma_sample_in_range(c as int, w, cols as int);
        }
        let x: u64 = c as u64 * width as u64 / cols as u64;
        proof {
            lemma_pixel_index(x as int, y as int, w, h);
            assert(0 <= y * w <= y * w + x) by (nonlinear_arith)
                requires
                    0 <= y,
                    0 <= w,
                    0 <= x,
            ;
        }
        let index: usize = (y * width as u64 + x) as usize;
        let shade: char = color2char(buffer[index]);
        let ghost before = line@;
        line.push(shade);
        line.push(shade);
        proof {
            let next = Seq::new(
                (2 * (c + 1)) as nat,
                |i: int|
                    shade_of(
                        buffer@[sampled_index(w, h, rows as int, cols as int, row as int, i / 2)],
                    ),
            );
            assert(line@ =~= next);
        }
        c = c + 1;
    }
    line
}

/// Sample `k` of `count` samples across an extent lies in the extent.
pub proof fn lemma_sample_in_range(k: int, extent: int, count: int)
    requires
        0 <= k < count <= 0xffff_ffff,
        0 < extent <= 0xffff_ffff,
    ensures
        0 <= k * extent <= 0xffff_ffff * 0xffff_ffff,
        0 <= k * extent / count < extent,
{
    assert(0 <= k * extent <= 0xffff_ffff * 0xffff_ffff) by (nonlinear_arith)
        requires
            0 <= k <= 0xffff_ffff,
            0 <= extent <= 0xffff_ffff,
    ;
    assert(k * extent < count * extent && count * extent == extent * count) by (nonlinear_arith)
        requires
            0 <= k < count,
            0 < extent,
    ;
    vstd::arithmetic::div_mod::lemma_div_pos_is_pos(k * extent, count);
    vstd::arithmetic::div_mod::lemma_div_by_multiple_is_strongly_ordered(
        k * extent,
        extent * count,
        extent,
        count,
    );
    vstd::arithmetic::div_mod::lemma_div_by_multiple(extent, count);
}

} // verus!
