//! A frame of pixels with its depth buffer, and what is drawn into it.

use crate::depth::{depth_after, depth_passes, DEPTH_FLOOR};
use crate::geometry::{lemma_line_point_in_box, line_len, line_point, Ray};
use crate::ppm::{encode_ppm, pixel_index, ppm_bytes};
use vstd::prelude::*;

verus! {

/// Buffer position of the pixel that a walk from `(x0, y0)` to `(x1, y1)`
/// reaches after `k` steps.
pub open spec fn segment_index(x0: int, y0: int, x1: int, y1: int, stride: int, k: int) -> int {
    let p = line_point(x0, y0, x1, y1, k);
    pixel_index(p.0, p.1, stride)
}

/// Whether buffer position `i` belongs to the end point of the segment or to
/// one of the first `n` pixels of the walk towards it.
pub open spec fn segment_covers(
    i: int,
    x0: int,
    y0: int,
    x1: int,
    y1: int,
    stride: int,
    n: int,
) -> bool {
    exists|k: int|
        (0 <= k < n || k == line_len(x0, y0, x1, y1)) && #[trigger] segment_index(
            x0,
            y0,
            x1,
            y1,
            stride,
            k,
        ) == i
}

/// A rectangle of pixels: columns `x_min` up to but not including `x_max`,
/// rows `y_min` up to but not including `y_max`.
#[derive(Debug, Clone, Copy, PartialEq, Eq)]
pub struct PixelBox {
    pub x_min: u32,
    pub y_min: u32,
    pub x_max: u32,
    pub y_max: u32,
}

impl PixelBox {
    /// Whether pixel `(x, y)` belongs to the rectangle.
    pub open spec fn contains(&self, x: int, y: int) -> bool {
        self.x_min <= x < self.x_max && self.y_min <= y < self.y_max
    }
}

/// The value of `[0, extent]` nearest to `v`.
pub open spec fn clamp_to_extent(v: int, extent: int) -> int {
    if v < 0 {
        0
    } else if v > extent {
        extent
    } else {
        v
    }
}

/// Smallest of three numbers.
pub open spec fn min3(a: int, b: int, c: int) -> int {
    if a <= b && a <= c {
        a
    } else if b <= c {
        b
    } else {
        c
    }
}

/// Largest of three numbers.
pub open spec fn max3(a: int, b: int, c: int) -> int {
    if a >= b && a >= c {
        a
    } else if b >= c {
        b
    } else {
        c
    }
}

/// The corners of the smallest axis-aligned box around three points: the
/// smallest x and y first, then the largest.
pub fn triangle_bounding_box(a: (i32, i32), b: (i32, i32), c: (i32, i32)) -> (r: (
    (i32, i32),
    (i32, i32),
))
    ensures
        (r.0).0 == min3(a.0 as int, b.0 as int, c.0 as int),
        (r.0).1 == min3(a.1 as int, b.1 as int, c.1 as int),
        (r.1).0 == max3(a.0 as int, b.0 as int, c.0 as int),
        (r.1).1 == max3(a.1 as int, b.1 as int, c.1 as int),
{
    let x_min: i32 = if a.0 <= b.0 && a.0 <= c.0 {
        a.0
    } else if b.0 <= c.0 {
        b.0
    } else {
        c.0
    };
    let y_min: i32 = if a.1 <= b.1 && a.1 <= c.1 {
        a.1
    } else if b.1 <= c.1 {
        b.1
    } else {
        c.1
    };
    let x_max: i32 = if a.0 >= b.0 && a.0 >= c.0 {
        a.0
    } else if b.0 >= c.0 {
        b.0
    } else {
        c.0
    };
    let y_max: i32 = if a.1 >= b.1 && a.1 >= c.1 {
        a.1
    } else if b.1 >= c.1 {
        b.1
    } else {
        c.1
    };
    ((x_min, y_min), (x_max, y_max))
}

fn clamp_coordinate(v: i32, extent: u32) -> (r: u32)
    ensures
        r == clamp_to_extent(v as int, extent as int),
{
    if v < 0 {
        0
    } else if v as u32 > extent {
        extent
    } else {
        v as u32
    }
}

/// A frame being drawn: a pixel buffer and a depth buffer of the same length,
/// both borrowed for the time of drawing.
///
/// The contracts of the methods that draw end with two clauses on the final
/// value of each borrow: whatever the frame holds when it is given up is what
/// the lender finds in its buffers.
pub struct Renderer<'b> {
    pub buffer: &'b mut [u32],
    pub z_buffer: &'b mut [i32],
    pub width: u32,
    pub height: u32,
    pub stride: u32,
}

impl<'b> Renderer<'b> {
    /// The two buffers have one length, and every pixel of the frame has a
    /// place in them.
    pub open spec fn wf(&self) -> bool {
        &&& self.z_buffer@.len() == self.buffer@.len()
        &&& self.width > 0 && self.height > 0 ==> (self.height - 1) * self.stride + self.width
            <= self.buffer@.len()
    }

    /// The pixels of the frame, row by row.
    pub open spec fn pixels(&self) -> Seq<u32> {
        self.buffer@
    }

    /// The depth cells of the frame, row by row.
    pub open spec fn depths(&self) -> Seq<i32> {
        self.z_buffer@
    }

    /// Borrows the two buffers of a `width` by `height` frame.
    pub fn new(buffer: &'b mut [u32], z_buffer: &'b mut [i32], width: u32, height: u32) -> (r:
        Self)
        requires
            old(buffer)@.len() == width * height,
            old(z_buffer)@.len() == old(buffer)@.len(),
        ensures
            r.wf(),
            r.width == width,
            r.height == height,
            r.stride == width,
            r.pixels() == old(buffer)@,
            r.depths() == old(z_buffer)@,
            final(r.buffer)@ == final(buffer)@,
            final(r.z_buffer)@ == final(z_buffer)@,
    {
        proof {
            if width > 0 && height > 0 {
                assert((height - 1) * width + width == width * height) by (nonlinear_arith);
            }
        }
        Renderer { buffer, z_buffer, width, height, stride: width }
    }

    /// Writes one pixel; the caller has made sure that it lies in the buffer.
    pub fn draw_pixel_unchecked(&mut self, x: u32, y: u32, pixel: u32)
        requires
            pixel_index(x as int, y as int, old(self).stride as int) < old(self).pixels().len(),
        ensures
            final(self).pixels() == old(self).pixels().update(
                pixel_index(x as int, y as int, old(self).stride as int),
                pixel,
            ),
            final(self).depths() == old(self).depths(),
            final(self).width == old(self).width,
            final(self).height == old(self).height,
            final(self).stride == old(self).stride,
            final(final(self).buffer)@ == final(old(self).buffer)@,
            final(final(self).z_buffer)@ == final(old(self).z_buffer)@,
    {
        proof {
            assert(self.buffer@.len() == self.buffer.len());
            assert(0 <= y * self.stride <= y * self.stride + x) by (nonlinear_arith)
                requires
                    0 <= y,
                    0 <= self.stride,
                    0 <= x,
            ;
        }
        let index: usize = (y as usize) * (self.stride as usize) + (x as usize);
        self.buffer[index] = pixel;
    }

    /// Clears the frame: every pixel becomes `pixel`, every depth cell the
    /// floor.
    pub fn fill(&mut self, pixel: u32)
        ensures
            final(self).pixels().len() == old(self).pixels().len(),
            final(self).depths().len() == old(self).depths().len(),
            forall|i: int| 0 <= i < final(self).pixels().len() ==> final(self).pixels()[i] == pixel,
            forall|i: int|
                0 <= i < final(self).depths().len() ==> final(self).depths()[i] == DEPTH_FLOOR,
            final(self).width == old(self).width,
            final(self).height == old(self).height,
            final(self).stride == old(self).stride,
            final(final(self).buffer)@ == final(old(self).buffer)@,
            final(final(self).z_buffer)@ == final(old(self).z_buffer)@,
    {
        let len: usize = self.buffer.len();
        let mut i: usize = 0;
        while i < len
            invariant
                0 <= i <= len,
                len == self.buffer@.len(),
                self.z_buffer@ == old(self).depths(),
                forall|j: int| 0 <= j < i ==> self.buffer@[j] == pixel,
                self.width == old(self).width,
                self.height == old(self).height,
                self.stride == old(self).stride,
                final(self.buffer)@ == final(old(self).buffer)@,
                final(self.z_buffer)@ == final(old(self).z_buffer)@,
            decreases len - i,
        {
            self.buffer[i] = pixel;
            i = i + 1;
        }
        let cells: usize = self.z_buffer.len();
        let mut k: usize = 0;
        while k < cells
            invariant
                0 <= k <= cells,
                cells == self.z_buffer@.len(),
                len == self.buffer@.len(),
                forall|j: int| 0 <= j < len ==> self.buffer@[j] == pixel,
                forall|j: int| 0 <= j < k ==> self.z_buffer@[j] == DEPTH_FLOOR,
                self.width == old(self).width,
                self.height == old(self).height,
                self.stride == old(self).stride,
                final(self.buffer)@ == final(old(self).buffer)@,
                final(self.z_buffer)@ == final(old(self).z_buffer)@,
            decreases cells - k,
        {
            self.z_buffer[k] = DEPTH_FLOOR;
            k = k + 1;
        }
    }

    /// Tests a fragment of depth `depth` against the cell of pixel `(x, y)`
    /// and, when it is strictly greater than what the cell holds, stores it
    /// there. Says whether the fragment is to be drawn.
    pub fn depth_test(&mut self, x: u32, y: u32, depth: i32) -> (drawn: bool)
        requires
            pixel_index(x as int, y as int, old(self).stride as int) < old(self).depths().len(),
        ensures
            ({
                let i = pixel_index(x as int, y as int, old(self).stride as int);
                &&& drawn == depth_passes(old(self).depths()[i], depth)
                &&& final(self).depths() == old(self).depths().update(
                    i,
                    depth_after(old(self).depths()[i], depth),
                )
            }),
            final(self).pixels() == old(self).pixels(),
            final(self).width == old(self).width,
            final(self).height == old(self).height,
            final(self).stride == old(self).stride,
            final(final(self).buffer)@ == final(old(self).buffer)@,
            final(final(self).z_buffer)@ == final(old(self).z_buffer)@,
    {
        proof {
            assert(self.z_buffer@.len() == self.z_buffer.len());
            assert(0 <= y * self.stride <= y * self.stride + x) by (nonlinear_arith)
                requires
                    0 <= y,
                    0 <= self.stride,
                    0 <= x,
            ;
        }
        let index: usize = (y as usize) * (self.stride as usize) + (x as usize);
        if self.z_buffer[index] < depth {
            self.z_buffer[index] = depth;
            true
        } else {
            assert(self.z_buffer@ =~= old(self).depths().update(
                index as int,
                old(self).depths()[index as int],
            ));
            false
        }
    }

    /// Whether pixel `(x, y)` lies in the frame.
    pub open spec fn in_frame(&self, x: int, y: int) -> bool {
        0 <= x < self.width && 0 <= y < self.height
    }

    /// Draws the segment between two pixels of the frame: the end point
    /// first, then every pixel of the walk from `(x0, y0)` towards it.
    pub fn draw_segment(&mut self, x0: i32, y0: i32, x1: i32, y1: i32, pixel: u32)
        requires
            old(self).wf(),
            old(self).in_frame(x0 as int, y0 as int),
            old(self).in_frame(x1 as int, y1 as int),
        ensures
            final(self).wf(),
            final(self).pixels().len() == old(self).pixels().len(),
            forall|i: int|
                0 <= i < old(self).pixels().len() ==> #[trigger] final(self).pixels()[i] == (
                if segment_covers(
                    i,
                    x0 as int,
                    y0 as int,
                    x1 as int,
                    y1 as int,
                    old(self).stride as int,
                    line_len(x0 as int, y0 as int, x1 as int, y1 as int),
                ) {
                    pixel
                } else {
                    old(self).pixels()[i]
                }),
            final(self).depths() == old(self).depths(),
            final(self).width == old(self).width,
            final(self).height == old(self).height,
            final(self).stride == old(self).stride,
            final(final(self).buffer)@ == final(old(self).buffer)@,
            final(final(self).z_buffer)@ == final(old(self).z_buffer)@,
    {
        let ghost before = self.buffer@;
        let ghost st = self.stride as int;
        let ghost total = line_len(x0 as int, y0 as int, x1 as int, y1 as int);
        proof {
            crate::geometry::lemma_line_end_points(x0 as int, y0 as int, x1 as int, y1 as int);
            self.lemma_in_buffer(x1 as int, y1 as int);
            assert(segment_index(x0 as int, y0 as int, x1 as int, y1 as int, st, total)
                == pixel_index(x1 as int, y1 as int, st));
        }
        self.draw_pixel_unchecked(x1 as u32, y1 as u32, pixel);
        let mut ray = Ray::new(x0, y0, x1, y1);
        while !ray.reached
            invariant
                ray.wf(),
                ray.x0 == x0,
                ray.y0 == y0,
                ray.x1 == x1,
                ray.y1 == y1,
                0 <= ray.position() <= total,
                ray.reached == (ray.position() == total),
                total == line_len(x0 as int, y0 as int, x1 as int, y1 as int),
                st == self.stride,
                self.wf(),
                self.in_frame(x0 as int, y0 as int),
                self.in_frame(x1 as int, y1 as int),
                self.buffer@.len() == before.len(),
                forall|i: int|
                    0 <= i < before.len() ==> #[trigger] self.buffer@[i] == (if segment_covers(
                        i,
                        x0 as int,
                        y0 as int,
                        x1 as int,
                        y1 as int,
                        st,
                        ray.position(),
                    ) {
                        pixel
                    } else {
                        before[i]
                    }),
                self.z_buffer@ == old(self).depths(),
                self.width == old(self).width,
                self.height == old(self).height,
                self.stride == old(self).stride,
                final(self.buffer)@ == final(old(self).buffer)@,
                final(self.z_buffer)@ == final(old(self).z_buffer)@,
            decreases total - ray.position(),
        {
            let ghost n = ray.position();
            let ghost mid = self.buffer@;
            let p = ray.next_xy();
            proof {
                lemma_line_point_in_box(x0 as int, y0 as int, x1 as int, y1 as int, n);
                self.lemma_in_buffer(p.0 as int, p.1 as int);
            }
            self.draw_pixel_unchecked(p.0 as u32, p.1 as u32, pixel);
            proof {
                let here = segment_index(x0 as int, y0 as int, x1 as int, y1 as int, st, n);
                assert(here == pixel_index(p.0 as int, p.1 as int, st));
                assert forall|i: int| 0 <= i < before.len() implies #[trigger] self.buffer@[i] == (
                if segment_covers(i, x0 as int, y0 as int, x1 as int, y1 as int, st, n + 1) {
                    pixel
                } else {
                    before[i]
                }) by {
                    if i != here {
                        assert(self.buffer@[i] == mid[i]);
                        assert(segment_covers(i, x0 as int, y0 as int, x1 as int, y1 as int, st, n)
                            == segment_covers(
                            i,
                            x0 as int,
                            y0 as int,
                            x1 as int,
                            y1 as int,
                            st,
                            n + 1,
                        ));
                    }
                }
            }
        }
    }

    /// A pixel of the frame has its place in the buffers.
    pub proof fn lemma_in_buffer(&self, x: int, y: int)
        requires
            self.wf(),
            self.in_frame(x, y),
        ensures
            0 <= pixel_index(x, y, self.stride as int) < self.pixels().len(),
            pixel_index(x, y, self.stride as int) < self.depths().len(),
    {
        assert(0 <= y * self.stride <= (self.height - 1) * self.stride) by (nonlinear_arith)
            requires
                0 <= y <= self.height - 1,
                0 <= self.stride,
        ;
    }

    /// The frame as an image file: header, then red, green and blue of every
    /// pixel.
    pub fn to_ppm_bytes(&self) -> (out: Vec<u8>)
        requires
            self.wf(),
        ensures
            out@ == ppm_bytes(
                self.pixels(),
                self.width as int,
                self.height as int,
                self.stride as int,
            ),
    {
        encode_ppm(&*self.buffer, self.width, self.height, self.stride)
    }

    /// The part of the box between the corners `low` and `high` that lies in
    /// the frame: each coordinate is moved to the nearest value between `0`
    /// and the frame's width or height. Nothing is left of a box that lies
    /// beside the frame.
    pub fn clamp_box(&self, low: (i32, i32), high: (i32, i32)) -> (b: PixelBox)
        ensures
            b.x_min == clamp_to_extent(low.0 as int, self.width as int),
            b.y_min == clamp_to_extent(low.1 as int, self.height as int),
            b.x_max == clamp_to_extent(high.0 as int, self.width as int),
            b.y_max == clamp_to_extent(high.1 as int, self.height as int),
            forall|x: int, y: int| #[trigger] b.contains(x, y) ==> self.in_frame(x, y),
            forall|x: int, y: int|
                #[trigger] b.contains(x, y) <==> self.in_frame(x, y) && low.0 <= x < high.0
                    && low.1 <= y < high.1,
    {
        PixelBox {
            x_min: clamp_coordinate(low.0, self.width),
            y_min: clamp_coordinate(low.1, self.height),
            x_max: clamp_coordinate(high.0, self.width),
            y_max: clamp_coordinate(high.1, self.height),
        }
    }
}

} // verus!
