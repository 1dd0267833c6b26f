//! Packed pixels, pictures, and the image file they are written to and read
//! from.

use crate::text::{
    bounded_number, decimal, is_space, lemma_decimal_reads_back, lemma_scan_bounds,
    lemma_space_run, lemma_token_run, line_end, line_end_from, parse_bounded, push_decimal,
    skip_spaces, skip_spaces_from, token_end, token_end_from,
};
use vstd::prelude::*;

verus! {

/// Red channel of a packed pixel: its lowest byte.
pub open spec fn red(pixel: u32) -> u8 {
    (pixel & 0xff) as u8
}

/// Green channel of a packed pixel: its second byte.
pub open spec fn green(pixel: u32) -> u8 {
    ((pixel >> 8) & 0xff) as u8
}

/// Blue channel of a packed pixel: its third byte.
pub open spec fn blue(pixel: u32) -> u8 {
    ((pixel >> 16) & 0xff) as u8
}

/// The fully opaque pixel with the given colour channels.
pub open spec fn opaque_pixel(r: u8, g: u8, b: u8) -> u32 {
    0xff000000u32 | (r as u32) | ((g as u32) << 8) | ((b as u32) << 16)
}

/// Splits a packed pixel into its red, green and blue channels; alpha is
/// dropped.
pub fn unpack_rgb(pixel: u32) -> (rgb: (u8, u8, u8))
    ensures
        rgb.0 == red(pixel),
        rgb.1 == green(pixel),
        rgb.2 == blue(pixel),
{
    assert(pixel & 0xff < 256) by (bit_vector);
    assert((pixel >> 8) & 0xff < 256) by (bit_vector);
    assert((pixel >> 16) & 0xff < 256) by (bit_vector);
    ((pixel & 0xff) as u8, ((pixel >> 8) & 0xff) as u8, ((pixel >> 16) & 0xff) as u8)
}

/// Packs three colour channels into a fully opaque pixel.
pub fn pack_rgb(r: u8, g: u8, b: u8) -> (pixel: u32)
    ensures
        pixel == opaque_pixel(r, g, b),
{
    0xff000000u32 | (r as u32) | ((g as u32) << 8) | ((b as u32) << 16)
}

/// Packing keeps every colour channel, and unpacking followed by packing
/// only forces alpha to `0xff`.
pub proof fn lemma_pack_unpack(r: u8, g: u8, b: u8, pixel: u32)
    ensures
        red(opaque_pixel(r, g, b)) == r,
        green(opaque_pixel(r, g, b)) == g,
        blue(opaque_pixel(r, g, b)) == b,
        opaque_pixel(red(pixel), green(pixel), blue(pixel)) == pixel | 0xff000000u32,
        red(pixel | 0xff000000u32) == red(pixel),
        green(pixel | 0xff000000u32) == green(pixel),
        blue(pixel | 0xff000000u32) == blue(pixel),
{
    assert(((0xff000000u32 | (r as u32) | ((g as u32) << 8) | ((b as u32) << 16)) & 0xff) as u8
        == r) by (bit_vector);
    assert((((0xff000000u32 | (r as u32) | ((g as u32) << 8) | ((b as u32) << 16)) >> 8)
        & 0xff) as u8 == g) by (bit_vector);
    assert((((0xff000000u32 | (r as u32) | ((g as u32) << 8) | ((b as u32) << 16)) >> 16)
        & 0xff) as u8 == b) by (bit_vector);
    assert((0xff000000u32 | (((pixel & 0xff) as u8) as u32) | ((((pixel >> 8) & 0xff) as u8
        as u32) << 8) | (((((pixel >> 16) & 0xff) as u8) as u32) << 16)) == pixel
        | 0xff000000u32) by (bit_vector);
    assert(((pixel | 0xff000000u32) & 0xff) as u8 == (pixel & 0xff) as u8) by (bit_vector);
    assert((((pixel | 0xff000000u32) >> 8) & 0xff) as u8 == ((pixel >> 8) & 0xff) as u8)
        by (bit_vector);
    assert((((pixel | 0xff000000u32) >> 16) & 0xff) as u8 == ((pixel >> 16) & 0xff) as u8)
        by (bit_vector);
}

/// Position of pixel `(x, y)` in a row-major buffer whose rows are `stride`
/// pixels apart.
pub open spec fn pixel_index(x: int, y: int, stride: int) -> int {
    y * stride + x
}

/// Inside a `width` by `height` grid every pixel has a position below
/// `width * height`, and different pixels have different positions.
pub proof fn lemma_pixel_index(x: int, y: int, width: int, height: int)
    requires
        0 <= x < width,
        0 <= y < height,
    ensures
        0 <= pixel_index(x, y, width) < width * height,
        forall|x2: int, y2: int|
            0 <= x2 < width && #[trigger] pixel_index(x2, y2, width) == pixel_index(x, y, width)
                ==> x2 == x && y2 == y,
{
    assert(0 <= y * width && y * width + width <= height * width && height * width == width
        * height) by (nonlinear_arith)
        requires
            0 <= y < height,
            0 < width,
    ;
    assert forall|x2: int, y2: int|
        0 <= x2 < width && #[trigger] pixel_index(x2, y2, width) == pixel_index(
            x,
            y,
            width,
        ) implies x2 == x && y2 == y by {
        assert(y2 == y) by (nonlinear_arith)
            requires
                0 <= x < width,
                0 <= x2 < width,
                y2 * width + x2 == y * width + x,
        ;
    }
}

/// A decoded picture: `width * height` packed pixels, row by row from the
/// top.
pub struct Image {
    pub buffer: Vec<u32>,
    pub width: u32,
    pub height: u32,
}

impl Image {
    /// The buffer holds at least the `width * height` pixels of the picture.
    pub open spec fn wf(&self) -> bool {
        self.width * self.height <= self.buffer@.len()
    }

    /// The pixel in column `x` of row `y`.
    pub fn pixel_at(&self, x: usize, y: usize) -> (pixel: u32)
        requires
            pixel_index(x as int, y as int, self.width as int) < self.buffer@.len(),
        ensures
            pixel == self.buffer@[pixel_index(x as int, y as int, self.width as int)],
    {
        proof {
            assert(self.buffer@.len() == self.buffer.len());
            assert(0 <= y * self.width <= y * self.width + x) by (nonlinear_arith)
                requires
                    0 <= y,
                    0 <= self.width,
                    0 <= x,
            ;
        }
        self.buffer[x + y * (self.width as usize)]
    }

    /// Whether pixel `(x, y)` has already changed places with its mirror
    /// image when the flip stands at column `col` of row `row`.
    pub open spec fn flip_done(x: int, y: int, height: int, row: int, col: int) -> bool {
        let m = if y < height - 1 - y {
            y
        } else {
            height - 1 - y
        };
        m < row || (m == row && x < col)
    }

    /// Turns the picture upside down: row `y` changes places with row
    /// `height - 1 - y`. Whatever the buffer holds after the picture stays.
    pub fn vflip(&mut self)
        requires
            old(self).wf(),
        ensures
            final(self).width == old(self).width,
            final(self).height == old(self).height,
            final(self).buffer@.len() == old(self).buffer@.len(),
            forall|x: int, y: int|
                0 <= x < old(self).width && 0 <= y < old(self).height ==> final(self).buffer@[
                #[trigger] pixel_index(x, y, old(self).width as int)] == old(self).buffer@[
                pixel_index(x, old(self).height - 1 - y, old(self).width as int)],
            forall|i: int|
                old(self).width * old(self).height <= i < old(self).buffer@.len()
                    ==> final(self).buffer@[i] == old(self).buffer@[i],
    {
        let width: usize = self.width as usize;
        let height: usize = self.height as usize;
        let ghost w = width as int;
        let ghost h = height as int;
        let ghost before = self.buffer@;
        let half: usize = height / 2;
        assert(before.len() == self.buffer.len());
        let mut y: usize = 0;
        while y < half
            invariant
                w == self.width,
                h == self.height,
                w == width,
                h == height,
                half == h / 2,
                0 <= y <= half,
                w * h <= before.len(),
                self.buffer@.len() == before.len(),
                before.len() <= usize::MAX,
                forall|c: int, r: int|
                    0 <= c < w && 0 <= r < h ==> self.buffer@[#[trigger] pixel_index(c, r, w)]
                        == (if Self::flip_done(c, r, h, y as int, 0) {
                        before[pixel_index(c, h - 1 - r, w)]
                    } else {
                        before[pixel_index(c, r, w)]
                    }),
                forall|i: int| w * h <= i < before.len() ==> self.buffer@[i] == before[i],
            decreases half - y,
        {
            let mut x: usize = 0;
            while x < width
                invariant
                    w == self.width,
                    h == self.height,
                    w == width,
                    h == height,
                    half == h / 2,
                    0 <= y < half,
                    0 <= x <= width,
                    w * h <= before.len(),
                    self.buffer@.len() == before.len(),
                    before.len() <= usize::MAX,
                    forall|c: int, r: int|
                        0 <= c < w && 0 <= r < h ==> self.buffer@[#[trigger] pixel_index(
                            c,
                            r,
                            w,
                        )] == (if Self::flip_done(c, r, h, y as int, x as int) {
                            before[pixel_index(c, h - 1 - r, w)]
                        } else {
                            before[pixel_index(c, r, w)]
                        }),
                    forall|i: int| w * h <= i < before.len() ==> self.buffer@[i] == before[i],
                decreases width - x,
            {
                let ghost top = pixel_index(x as int, y as int, w);
                let ghost bottom = pixel_index(x as int, h - 1 - y, w);
                proof {
                    lemma_pixel_index(x as int, y as int, w, h);
                    lemma_pixel_index(x as int, h - 1 - y, w, h);
                    assert(0 <= y * width <= top <= usize::MAX) by (nonlinear_arith)
                        requires
                            0 <= y,
                            0 <= x,
                            0 <= width,
                            top == y * width + x,
                            top <= usize::MAX,
                    ;
                    assert(0 <= (height - 1 - y) * width <= bottom <= usize::MAX)
                        by (nonlinear_arith)
                        requires
                            0 <= height - 1 - y,
                            0 <= x,
                            0 <= width,
                            bottom == (height - 1 - y) * width + x,
                            bottom <= usize::MAX,
                    ;
                }
                let a: usize = x + y * width;
                let b: usize = x + (height - 1 - y) * width;
                let ghost mid = self.buffer@;
                let upper: u32 = self.buffer[a];
                let lower: u32 = self.buffer[b];
                self.buffer[a] = lower;
                self.buffer[b] = upper;
                proof {
                    assert forall|c: int, r: int| 0 <= c < w && 0 <= r < h implies self.buffer@[
                    #[trigger] pixel_index(c, r, w)] == (if Self::flip_done(
                        c,
                        r,
                        h,
                        y as int,
                        x + 1,
                    ) {
                        before[pixel_index(c, h - 1 - r, w)]
                    } else {
                        before[pixel_index(c, r, w)]
                    }) by {
                        lemma_pixel_index(c, r, w, h);
                        let i = pixel_index(c, r, w);
                        if i == top {
                            assert(c == x && r == y);
                        } else if i == bottom {
                            assert(c == x && r == h - 1 - y);
                        } else {
                            assert(self.buffer@[i] == mid[i]);
                        }
                    }
                }
                x = x + 1;
            }
            y = y + 1;
        }
        proof {
            assert forall|c: int, r: int| 0 <= c < w && 0 <= r < h implies self.buffer@[
            #[trigger] pixel_index(c, r, w)] == before[pixel_index(c, h - 1 - r, w)] by {
                if !Self::flip_done(c, r, h, half as int, 0) {
                    assert(r == h - 1 - r);
                }
            }
        }
    }
}

/// The header of an image file for a picture of the given size: the magic
/// token, then width, height and the largest channel value, in text.
pub open spec fn ppm_header(width: nat, height: nat) -> Seq<u8> {
    seq![80u8, 54u8, 10u8] + decimal(width) + seq![32u8] + decimal(height) + seq![
        32u8,
        50u8,
        53u8,
        53u8,
        10u8,
    ]
}

/// Channel `k` of a pixel in file order: red, green, blue.
pub open spec fn channel(pixel: u32, k: int) -> u8 {
    if k == 0 {
        red(pixel)
    } else if k == 1 {
        green(pixel)
    } else {
        blue(pixel)
    }
}

/// The first `count` pixels of a `width` pixels wide picture, three bytes
/// each, rows from the top, read from a buffer whose rows are `stride` pixels
/// apart.
pub open spec fn ppm_data(buffer: Seq<u32>, width: int, stride: int, count: int) -> Seq<u8> {
    Seq::new(
        (3 * count) as nat,
        |i: int| channel(buffer[pixel_index((i / 3) % width, (i / 3) / width, stride)], i % 3),
    )
}

/// The whole image file for the `width` by `height` picture in `buffer`.
pub open spec fn ppm_bytes(buffer: Seq<u32>, width: int, height: int, stride: int) -> Seq<u8> {
    ppm_header(width as nat, height as nat) + ppm_data(buffer, width, stride, width * height)
}

/// The rows of a picture fit into a buffer of `len` pixels.
pub open spec fn rows_fit(len: int, width: int, height: int, stride: int) -> bool {
    width > 0 && height > 0 ==> (height - 1) * stride + width <= len
}

/// Writes the picture in `buffer` as an image file: header, then red, green
/// and blue of every pixel; alpha is dropped.
pub fn encode_ppm(buffer: &[u32], width: u32, height: u32, stride: u32) -> (out: Vec<u8>)
    requires
        rows_fit(buffer@.len() as int, width as int, height as int, stride as int),
    ensures
        out@ == ppm_bytes(buffer@, width as int, height as int, stride as int),
{
    let mut out: Vec<u8> = Vec::new();
    out.push(80u8);
    out.push(54u8);
    out.push(10u8);
    push_decimal(&mut out, width);
    out.push(32u8);
    push_decimal(&mut out, height);
    out.push(32u8);
    out.push(50u8);
    out.push(53u8);
    out.push(53u8);
    out.push(10u8);
    let ghost w = width as int;
    let ghost h = height as int;
    let ghost st = stride as int;
    let ghost head = ppm_header(width as nat, height as nat);
    assert(buffer@.len() == buffer.len());
    assert(out@ =~= head);
    assert(ppm_data(buffer@, w, st, 0) =~= Seq::<u8>::empty());
    let mut y: usize = 0;
    while y < height as usize
        invariant
            w == width,
            h == height,
            st == stride,
            0 <= y <= h,
            buffer@.len() <= usize::MAX,
            rows_fit(buffer@.len() as int, w, h, st),
            out@ == head + ppm_data(buffer@, w, st, y * w),
        decreases h - y,
    {
        let mut x: usize = 0;
        while x < width as usize
            invariant
                w == width,
                h == height,
                st == stride,
                0 <= y < h,
                0 <= x <= w,
                buffer@.len() <= usize::MAX,
                rows_fit(buffer@.len() as int, w, h, st),
                out@ == head + ppm_data(buffer@, w, st, y * w + x),
            decreases w - x,
        {
            proof {
                assert(0 <= y * st <= (h - 1) * st) by (nonlinear_arith)
                    requires
                        0 <= y <= h - 1,
                        0 <= st,
                ;
            }
            let index: usize = y * (stride as usize) + x;
            let pixel: u32 = buffer[index];
            let rgb = unpack_rgb(pixel);
            let ghost done = out@;
            out.push(rgb.0);
            out.push(rgb.1);
            out.push(rgb.2);
            proof {
                let n = y * w + x;
                let next = ppm_data(buffer@, w, st, n + 1);
                assert(0 <= y * w) by (nonlinear_arith)
                    requires
                        0 <= y,
                        0 <= w,
                ;
                vstd::arithmetic::div_mod::lemma_fundamental_div_mod_converse(n, w, y as int, x as int);
                assert forall|i: int| 3 * n <= i < 3 * n + 3 implies #[trigger] next[i] == channel(
                    pixel,
                    i - 3 * n,
                ) by {
                    assert(i / 3 == n);
                    assert(i % 3 == i - 3 * n);
                }
                assert(out@ =~= head + next);
            }
            x = x + 1;
        }
        proof {
            assert((y + 1) * w == y * w + w) by (nonlinear_arith);
        }
        y = y + 1;
    }
    proof {
        assert(h * w == w * h) by (nonlinear_arith);
    }
    out
}

/// Why a byte string is not an image file.
#[derive(Debug, Clone, Copy, PartialEq, Eq)]
pub enum PpmError {
    /// The bytes end before the four header fields are complete.
    Truncated,
    /// The first header field is not the magic token `P6`.
    UnsupportedMagic,
    /// Width, height or the largest channel value is not a decimal number
    /// that fits 32 bits.
    InvalidNumber,
    /// Something follows the largest channel value on its line.
    TrailingField,
    /// The number of whole pixels after the header is not `width * height`.
    SizeMismatch,
}

/// The fields of an image file's header, and where the pixel bytes start.
pub struct PpmHeader {
    pub width: u32,
    pub height: u32,
    pub max_val: u32,
    pub data_start: usize,
}

/// The number a header field spells: an optional `+`, then one or more
/// digits whose value fits 32 bits. `None` for anything else.
pub open spec fn number_of(token: Seq<u8>) -> Option<u32> {
    match bounded_number(token, u32::MAX as nat) {
        Some(n) => Some(n as u32),
        None => None,
    }
}

/// Start and end of the header field that begins at or after `i`.
pub open spec fn field_at(s: Seq<u8>, i: int) -> (int, int) {
    (skip_spaces(s, i), token_end(s, skip_spaces(s, i)))
}

/// The number in the header field that begins at or after `i`, with the
/// position where the field ends.
pub open spec fn number_field(s: Seq<u8>, i: int) -> Result<(u32, int), PpmError> {
    let (start, end) = field_at(s, i);
    if start >= s.len() {
        Err(PpmError::Truncated)
    } else {
        match number_of(s.subrange(start, end)) {
            Some(n) => Ok((n, end)),
            None => Err(PpmError::InvalidNumber),
        }
    }
}

/// The header that `s` starts with. The fields are separated by any run of
/// separators; the pixel bytes start behind the line feed that ends the line
/// of the last field.
pub open spec fn parse_header(s: Seq<u8>) -> Result<PpmHeader, PpmError> {
    let (start, end) = field_at(s, 0);
    if start >= s.len() {
        Err(PpmError::Truncated)
    } else if s.subrange(start, end) != seq![80u8, 54u8] {
        Err(PpmError::UnsupportedMagic)
    } else {
        match number_field(s, end) {
            Err(e) => Err(e),
            Ok((width, after_width)) => match number_field(s, after_width) {
                Err(e) => Err(e),
                Ok((height, after_height)) => match number_field(s, after_height) {
                    Err(e) => Err(e),
                    Ok((max_val, after_max)) => {
                        let eol = line_end(s, after_max);
                        if skip_spaces(s, after_max) < eol {
                            Err(PpmError::TrailingField)
                        } else {
                            Ok(
                                PpmHeader {
                                    width,
                                    height,
                                    max_val,
                                    data_start: (if eol < s.len() {
                                        eol + 1
                                    } else {
                                        eol
                                    }) as usize,
                                },
                            )
                        }
                    },
                },
            },
        }
    }
}

/// Reads the number that the bytes from `start` to `end` spell.
pub fn parse_number(bytes: &[u8], start: usize, end: usize) -> (r: Option<u32>)
    requires
        start <= end <= bytes@.len(),
    ensures
        r == number_of(bytes@.subrange(start as int, end as int)),
{
    match parse_bounded(bytes, start, end, u32::MAX as u64) {
        Some(n) => Some(n as u32),
        None => None,
    }
}

fn number_field_from(bytes: &[u8], from: usize) -> (r: Result<(u32, usize), PpmError>)
    requires
        from <= bytes@.len(),
    ensures
        match r {
            Ok((n, end)) => number_field(bytes@, from as int) == Ok::<(u32, int), PpmError>(
                (n, end as int),
            ) && end <= bytes@.len(),
            Err(e) => number_field(bytes@, from as int) == Err::<(u32, int), PpmError>(e),
        },
{
    let start: usize = skip_spaces_from(bytes, from);
    if start >= bytes.len() {
        return Err(PpmError::Truncated);
    }
    let end: usize = token_end_from(bytes, start);
    match parse_number(bytes, start, end) {
        Some(n) => Ok((n, end)),
        None => Err(PpmError::InvalidNumber),
    }
}

/// Reads the header that `bytes` starts with.
pub fn parse_ppm_header(bytes: &[u8]) -> (r: Result<PpmHeader, PpmError>)
    ensures
        r == parse_header(bytes@),
        r matches Ok(h) ==> h.data_start <= bytes@.len(),
{
    let start: usize = skip_spaces_from(bytes, 0);
    if start >= bytes.len() {
        return Err(PpmError::Truncated);
    }
    let end: usize = token_end_from(bytes, start);
    let ghost magic = bytes@.subrange(start as int, end as int);
    if end - start != 2 || bytes[start] != 80u8 || bytes[start + 1] != 54u8 {
        proof {
            if magic == seq![80u8, 54u8] {
                assert(magic.len() == 2);
                assert(magic[0] == 80u8);
                assert(magic[1] == 54u8);
            }
        }
        return Err(PpmError::UnsupportedMagic);
    }
    assert(magic =~= seq![80u8, 54u8]);
    let (width, after_width) = match number_field_from(bytes, end) {
        Ok(found) => found,
        Err(e) => {
            return Err(e);
        },
    };
    let (height, after_height) = match number_field_from(bytes, after_width) {
        Ok(found) => found,
        Err(e) => {
            return Err(e);
        },
    };
    let (max_val, after_max) = match number_field_from(bytes, after_height) {
        Ok(found) => found,
        Err(e) => {
            return Err(e);
        },
    };
    let eol: usize = line_end_from(bytes, after_max);
    let next: usize = skip_spaces_from(bytes, after_max);
    if next < eol {
        return Err(PpmError::TrailingField);
    }
    let data_start: usize = if eol < bytes.len() {
        eol + 1
    } else {
        eol
    };
    Ok(PpmHeader { width, height, max_val, data_start })
}

/// What an `Image` stands for: its size and its pixels, row by row.
pub struct Picture {
    pub width: u32,
    pub height: u32,
    pub pixels: Seq<u32>,
}

impl View for Image {
    type V = Picture;

    open spec fn view(&self) -> Picture {
        Picture { width: self.width, height: self.height, pixels: self.buffer@ }
    }
}

/// The pixels that raw colour bytes spell: three bytes each, red first, all
/// fully opaque. One or two bytes left over at the end are ignored.
pub open spec fn ppm_pixels(data: Seq<u8>) -> Seq<u32> {
    Seq::new(
        data.len() / 3,
        |i: int| opaque_pixel(data[3 * i], data[3 * i + 1], data[3 * i + 2]),
    )
}

/// The picture that an image file holds, or the reason why it holds none.
pub open spec fn ppm_decoded(s: Seq<u8>) -> Result<Picture, PpmError> {
    match parse_header(s) {
        Err(e) => Err(e),
        Ok(header) => {
            let pixels = ppm_pixels(s.skip(header.data_start as int));
            if pixels.len() == header.width * header.height {
                Ok(Picture { width: header.width, height: header.height, pixels })
            } else {
                Err(PpmError::SizeMismatch)
            }
        },
    }
}

/// Reads an image file: the header, then `width * height` pixels of three
/// bytes each.
pub fn decode_ppm(bytes: &[u8]) -> (r: Result<Image, PpmError>)
    ensures
        match r {
            Ok(image) => ppm_decoded(bytes@) == Ok::<Picture, PpmError>(image@) && image.wf(),
            Err(e) => ppm_decoded(bytes@) == Err::<Picture, PpmError>(e),
        },
{
    let header = match parse_ppm_header(bytes) {
        Ok(header) => header,
        Err(e) => {
            return Err(e);
        },
    };
    let start: usize = header.data_start;
    let len: usize = bytes.len();
    let ghost data = bytes@.skip(start as int);
    let ghost pixels = ppm_pixels(data);
    let mut buffer: Vec<u32> = Vec::new();
    let mut i: usize = start;
    while len - i >= 3
        invariant
            start <= i <= len,
            len == bytes@.len(),
            data == bytes@.skip(start as int),
            pixels == ppm_pixels(data),
            i == start + 3 * buffer@.len(),
            buffer@.len() <= pixels.len(),
            buffer@ == pixels.subrange(0, buffer@.len() as int),
        decreases len - i,
    {
        let ghost k = buffer@.len() as int;
        let pixel: u32 = pack_rgb(bytes[i], bytes[i + 1], bytes[i + 2]);
        proof {
            assert(data[3 * k] == bytes@[i as int]);
            assert(data[3 * k + 1] == bytes@[i + 1]);
            assert(data[3 * k + 2] == bytes@[i + 2]);
            assert(k < pixels.len());
            assert(pixels[k] == pixel);
        }
        buffer.push(pixel);
        i = i + 3;
        assert(buffer@ =~= pixels.subrange(0, k + 1));
    }
    assert(buffer@ =~= pixels);
    assert(header.width * header.height <= 0xffff_ffff * 0xffff_ffff) by (nonlinear_arith)
        requires
            0 <= header.width <= 0xffff_ffff,
            0 <= header.height <= 0xffff_ffff,
    ;
    if buffer.len() as u64 != header.width as u64 * header.height as u64 {
        return Err(PpmError::SizeMismatch);
    }
    Ok(Image { buffer, width: header.width, height: header.height })
}

/// A separator, then the decimal digits of `n`, then another separator, read
/// as the number field `n`.
pub proof fn lemma_number_field_reads_back(s: Seq<u8>, i: int, n: u32)
    requires
        0 <= i,
        i + 1 + decimal(n as nat).len() < s.len(),
        is_space(s[i]),
        s.subrange(i + 1, i + 1 + decimal(n as nat).len()) == decimal(n as nat),
        is_space(s[i + 1 + decimal(n as nat).len()]),
    ensures
        number_field(s, i) == Ok::<(u32, int), PpmError>((n, i + 1 + decimal(n as nat).len())),
{
    let digits = decimal(n as nat);
    let end = i + 1 + digits.len();
    lemma_decimal_reads_back(n as nat);
    assert(bounded_number(digits, u32::MAX as nat) == Some(n as nat));
    assert forall|k: int| i + 1 <= k < end implies !is_space(#[trigger] s[k]) by {
        assert(s[k] == s.subrange(i + 1, end)[k - i - 1]);
        assert(48 <= digits[k - i - 1] <= 57);
    }
    lemma_space_run(s, i, i + 1);
    lemma_token_run(s, i + 1, end);
}

/// The bytes of `s` begin with the header of a `width` by `height` picture.
pub open spec fn starts_with_header(s: Seq<u8>, width: u32, height: u32) -> bool {
    let dw = decimal(width as nat);
    let dh = decimal(height as nat);
    let lw = dw.len() as int;
    let lh = dh.len() as int;
    let m = 5 + lw + lh;
    &&& s.len() >= m + 4
    &&& s[0] == 80u8 && s[1] == 54u8 && s[2] == 10u8
    &&& s.subrange(3, 3 + lw) == dw
    &&& s[3 + lw] == 32u8
    &&& s.subrange(4 + lw, 4 + lw + lh) == dh
    &&& s[4 + lw + lh] == 32u8
    &&& s[m] == 50u8 && s[m + 1] == 53u8 && s[m + 2] == 53u8 && s[m + 3] == 10u8
}

/// A written header, followed by anything, begins with that header.
pub proof fn lemma_header_layout(width: u32, height: u32, data: Seq<u8>)
    ensures
        starts_with_header(ppm_header(width as nat, height as nat) + data, width, height),
        ppm_header(width as nat, height as nat).len() == 9 + decimal(width as nat).len() + decimal(
            height as nat,
        ).len(),
{
    let dw = decimal(width as nat);
    let dh = decimal(height as nat);
    let lw = dw.len() as int;
    let lh = dh.len() as int;
    let magic = seq![80u8, 54u8, 10u8];
    let to_width = magic + dw;
    let to_gap = to_width + seq![32u8];
    let to_height = to_gap + dh;
    let tail = seq![32u8, 50u8, 53u8, 53u8, 10u8];
    let head = to_height + tail;
    let s = head + data;
    assert(head == ppm_header(width as nat, height as nat));
    assert(magic.len() == 3);
    assert(to_width.len() == 3 + lw);
    assert(to_gap.len() == 4 + lw);
    assert(to_height.len() == 4 + lw + lh);
    assert(tail.len() == 5);
    assert(head.len() == 9 + lw + lh);
    assert forall|k: int| 0 <= k < head.len() implies s[k] == head[k] by {}
    assert(head[0] == 80u8 && head[1] == 54u8 && head[2] == 10u8) by {
        assert(to_width[0] == magic[0] && to_width[1] == magic[1] && to_width[2] == magic[2]);
        assert(to_gap[0] == to_width[0] && to_gap[1] == to_width[1] && to_gap[2] == to_width[2]);
        assert(to_height[0] == to_gap[0] && to_height[1] == to_gap[1] && to_height[2] == to_gap[2]);
    }
    assert forall|k: int| 0 <= k < lw implies head[3 + k] == dw[k] by {
        assert(to_width[3 + k] == dw[k]);
        assert(to_gap[3 + k] == to_width[3 + k]);
        assert(to_height[3 + k] == to_gap[3 + k]);
    }
    assert(head[3 + lw] == 32u8) by {
        assert(to_gap[3 + lw] == 32u8);
        assert(to_height[3 + lw] == to_gap[3 + lw]);
    }
    assert forall|k: int| 0 <= k < lh implies head[4 + lw + k] == dh[k] by {
        assert(to_height[4 + lw + k] == dh[k]);
    }
    assert(head[4 + lw + lh] == tail[0]);
    assert(head[5 + lw + lh] == tail[1]);
    assert(head[6 + lw + lh] == tail[2]);
    assert(head[7 + lw + lh] == tail[3]);
    assert(head[8 + lw + lh] == tail[4]);
    assert(s.subrange(3, 3 + lw) =~= dw);
    assert(s.subrange(4 + lw, 4 + lw + lh) =~= dh);
}

/// Bytes that begin with the header of a picture read back as that
/// picture's size, with the pixel bytes starting right behind the header.
pub proof fn lemma_header_reads_back(s: Seq<u8>, width: u32, height: u32)
    requires
        starts_with_header(s, width, height),
    ensures
        9 + decimal(width as nat).len() + decimal(height as nat).len() <= 29,
        parse_header(s) == Ok::<PpmHeader, PpmError>(
            PpmHeader {
                width,
                height,
                max_val: 255u32,
                data_start: (9 + decimal(width as nat).len() + decimal(
                    height as nat,
                ).len()) as usize,
            },
        ),
{
    let lw = decimal(width as nat).len() as int;
    let lh = decimal(height as nat).len() as int;
    let m = 5 + lw + lh;
    lemma_decimal_reads_back(width as nat);
    lemma_decimal_reads_back(height as nat);
    lemma_space_run(s, 0, 0);
    lemma_token_run(s, 0, 2);
    assert(s.subrange(0, 2) =~= seq![80u8, 54u8]);
    assert(field_at(s, 0) == (0int, 2int));
    lemma_number_field_reads_back(s, 2, width);
    lemma_number_field_reads_back(s, 3 + lw, height);
    assert(decimal(255) =~= seq![50u8, 53u8, 53u8]) by {
        reveal_with_fuel(decimal, 3);
    }
    assert(s.subrange(m, m + 3) =~= decimal(255));
    lemma_number_field_reads_back(s, m - 1, 255u32);
    lemma_scan_bounds(s, m + 3);
    assert(line_end(s, m + 3) == m + 3);
    assert(number_field(s, 2) == Ok::<(u32, int), PpmError>((width, 3 + lw)));
    assert(number_field(s, 3 + lw) == Ok::<(u32, int), PpmError>((height, 4 + lw + lh)));
    assert(number_field(s, 4 + lw + lh) == Ok::<(u32, int), PpmError>((255u32, m + 3)));
}

/// What comes back when a picture is written as an image file and read
/// again: every pixel of the picture, with alpha forced to `0xff`.
pub open spec fn opaque_copy(buffer: Seq<u32>, width: int, height: int, stride: int) -> Seq<u32> {
    Seq::new(
        (width * height) as nat,
        |i: int| buffer[pixel_index(i % width, i / width, stride)] | 0xff000000u32,
    )
}

/// The colour bytes written for a picture read back as its pixels, with alpha
/// forced to `0xff`.
pub proof fn lemma_data_reads_back(buffer: Seq<u32>, width: int, height: int, stride: int)
    requires
        0 <= width,
        0 <= height,
    ensures
        ppm_pixels(ppm_data(buffer, width, stride, width * height)) == opaque_copy(
            buffer,
            width,
            height,
            stride,
        ),
{
    assert(0 <= width * height) by (nonlinear_arith)
        requires
            0 <= width,
            0 <= height,
    ;
    let data = ppm_data(buffer, width, stride, width * height);
    let pixels = ppm_pixels(data);
    let copy = opaque_copy(buffer, width, height, stride);
    assert(pixels.len() == width * height);
    assert forall|i: int| 0 <= i < width * height implies pixels[i] == copy[i] by {
        let orig = buffer[pixel_index(i % width, i / width, stride)];
        assert(data[3 * i] == red(orig));
        assert(data[3 * i + 1] == green(orig));
        assert(data[3 * i + 2] == blue(orig));
        lemma_pack_unpack(0, 0, 0, orig);
    }
    assert(pixels =~= copy);
}

/// Encoding a picture and decoding the bytes gives the picture back: same
/// size, and at every position the same red, green and blue. Alpha is not
/// kept: it comes back as `0xff`.
pub proof fn lemma_ppm_round_trip(buffer: Seq<u32>, width: u32, height: u32, stride: u32)
    ensures
        ppm_decoded(ppm_bytes(buffer, width as int, height as int, stride as int)) == Ok::<
            Picture,
            PpmError,
        >(
            Picture {
                width,
                height,
                pixels: opaque_copy(buffer, width as int, height as int, stride as int),
            },
        ),
        forall|i: int|
            #![trigger opaque_copy(buffer, width as int, height as int, stride as int)[i]]
            0 <= i < width * height ==> {
                let back = opaque_copy(buffer, width as int, height as int, stride as int)[i];
                let orig = buffer[pixel_index(i % (width as int), i / (width as int), stride as int)];
                red(back) == red(orig) && green(back) == green(orig) && blue(back) == blue(orig)
            },
{
    let w = width as int;
    let h = height as int;
    let st = stride as int;
    let head = ppm_header(width as nat, height as nat);
    let data = ppm_data(buffer, w, st, w * h);
    let s = ppm_bytes(buffer, w, h, st);
    lemma_header_layout(width, height, data);
    lemma_header_reads_back(s, width, height);
    lemma_data_reads_back(buffer, w, h, st);
    assert(s.skip(head.len() as int) =~= data);
    assert(0 <= w * h) by (nonlinear_arith)
        requires
            0 <= w,
            0 <= h,
    ;
    assert forall|i: int|
        #![trigger opaque_copy(buffer, width as int, height as int, stride as int)[i]]
        0 <= i < width * height implies {
            let back = opaque_copy(buffer, width as int, height as int, stride as int)[i];
            let orig = buffer[pixel_index(i % (width as int), i / (width as int), stride as int)];
            red(back) == red(orig) && green(back) == green(orig) && blue(back) == blue(orig)
        } by {
        let orig = buffer[pixel_index(i % w, i / w, st)];
        lemma_pack_unpack(0, 0, 0, orig);
    }
}

} // verus!
