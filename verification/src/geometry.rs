//! Stepping along lines pixel by pixel, and the decisions of line clipping.

use vstd::prelude::*;

verus! {

/// Sign of the step from `from` towards `to`: `-1` when `to` lies below
/// `from`, `1` otherwise.
pub open spec fn step_sign(from: int, to: int) -> int {
    if to < from {
        -1
    } else {
        1
    }
}

/// Absolute distance between two coordinates.
pub open spec fn span(from: int, to: int) -> int {
    if to < from {
        from - to
    } else {
        to - from
    }
}

/// How far the minor axis has moved after `k` steps along a major axis of
/// length `major`, when the minor axis has to cover `minor` in total: the
/// quotient `k * minor / major`, rounded to the nearest integer with halves
/// rounded up.
pub open spec fn minor_offset(k: int, major: int, minor: int) -> int {
    if major <= 0 {
        0
    } else {
        (2 * k * minor + major) / (2 * major)
    }
}

/// Whether the segment steps along x: true exactly when the horizontal
/// distance is strictly the larger one.
pub open spec fn x_is_major(x0: int, y0: int, x1: int, y1: int) -> bool {
    span(y0, y1) < span(x0, x1)
}

/// Number of steps between the two endpoints, which is also the number of
/// pixels a rasterizer hands out (the end point itself is not handed out).
pub open spec fn line_len(x0: int, y0: int, x1: int, y1: int) -> int {
    if x_is_major(x0, y0, x1, y1) {
        span(x0, x1)
    } else {
        span(y0, y1)
    }
}

/// The pixel reached after `k` steps from `(x0, y0)` towards `(x1, y1)`.
pub open spec fn line_point(x0: int, y0: int, x1: int, y1: int, k: int) -> (int, int) {
    let dx = span(x0, x1);
    let dy = span(y0, y1);
    if x_is_major(x0, y0, x1, y1) {
        (x0 + step_sign(x0, x1) * k, y0 + step_sign(y0, y1) * minor_offset(k, dx, dy))
    } else {
        (x0 + step_sign(x0, x1) * minor_offset(k, dy, dx), y0 + step_sign(y0, y1) * k)
    }
}

/// `q` is the rounded quotient `minor_offset(k, major, minor)` exactly when
/// the error term `2*k*minor - major - 2*major*q` lies in `[-2*major, 0)`.
pub proof fn lemma_minor_offset_unique(k: int, major: int, minor: int, q: int)
    requires
        major > 0,
        -2 * major <= 2 * (k * minor) - major - 2 * (major * q) < 0,
    ensures
        minor_offset(k, major, minor) == q,
{
    let n = 2 * k * minor + major;
    let r = n - 2 * major * q;
    assert(2 * k * minor == 2 * (k * minor)) by (nonlinear_arith);
    assert(2 * major * q == 2 * (major * q)) by (nonlinear_arith);
    assert(n == (2 * major) * q + r);
    vstd::arithmetic::div_mod::lemma_fundamental_div_mod_converse(n, 2 * major, q, r);
}

/// The minor axis never runs ahead of its target: the offset stays within
/// `[0, minor]` while `k` stays within `[0, major]`.
pub proof fn lemma_minor_offset_bounds(k: int, major: int, minor: int)
    requires
        0 <= k <= major,
        0 <= minor <= major,
    ensures
        0 <= minor_offset(k, major, minor) <= minor,
        k == 0 ==> minor_offset(k, major, minor) == 0,
        k == major ==> minor_offset(k, major, minor) == minor,
{
    if major > 0 {
        let n = 2 * k * minor + major;
        let d = 2 * major;
        let q = n / d;
        vstd::arithmetic::div_mod::lemma_fundamental_div_mod(n, d);
        vstd::arithmetic::div_mod::lemma_mod_bound(n, d);
        assert(0 <= k * minor <= major * minor) by (nonlinear_arith)
            requires
                0 <= k <= major,
                0 <= minor,
        ;
        assert(2 * k * minor == 2 * (k * minor)) by (nonlinear_arith);
        assert(n == d * q + n % d);
        assert(q >= 0) by (nonlinear_arith)
            requires
                n >= 0,
                d > 0,
                n == d * q + n % d,
                0 <= n % d < d,
        ;
        assert(q <= minor) by (nonlinear_arith)
            requires
                n <= 2 * (major * minor) + major,
                d == 2 * major,
                major > 0,
                n == d * q + n % d,
                0 <= n % d < d,
        ;
        if k == 0 {
            assert(k * minor == 0) by (nonlinear_arith)
                requires
                    k == 0,
            ;
            lemma_minor_offset_unique(k, major, minor, 0);
        }
        if k == major {
            assert(2 * (k * minor) - major - 2 * (major * minor) == -major) by (nonlinear_arith)
                requires
                    k == major,
            ;
            lemma_minor_offset_unique(k, major, minor, minor);
        }
    }
}

/// One more step along the major axis moves the minor axis by zero or one.
pub proof fn lemma_minor_offset_step(k: int, major: int, minor: int)
    requires
        0 <= minor <= major,
    ensures
        minor_offset(k, major, minor) <= minor_offset(k + 1, major, minor) <= minor_offset(
            k,
            major,
            minor,
        ) + 1,
{
    if major > 0 {
        let d = 2 * major;
        let n = 2 * k * minor + major;
        let q = n / d;
        let r = n % d;
        vstd::arithmetic::div_mod::lemma_fundamental_div_mod(n, d);
        vstd::arithmetic::div_mod::lemma_mod_bound(n, d);
        assert(2 * k * minor == 2 * (k * minor)) by (nonlinear_arith);
        assert((k + 1) * minor == k * minor + minor) by (nonlinear_arith);
        assert(d * q == 2 * (major * q)) by (nonlinear_arith)
            requires
                d == 2 * major,
        ;
        assert(major * (q + 1) == major * q + major) by (nonlinear_arith);
        if r + 2 * minor < d {
            lemma_minor_offset_unique(k + 1, major, minor, q);
        } else {
            lemma_minor_offset_unique(k + 1, major, minor, q + 1);
        }
    }
}

/// Multiplying by a step sign keeps or flips the sign of the other factor.
pub proof fn lemma_step_sign_mul(from: int, to: int, v: int)
    ensures
        step_sign(from, to) * v == (if to < from {
            -v
        } else {
            v
        }),
{
    let s = step_sign(from, to);
    assert(s * v == (if s == 1 {
        v
    } else {
        -v
    })) by (nonlinear_arith)
        requires
            s == 1 || s == -1,
    ;
}

/// A walk starts on its first end point and, after `line_len` steps, stands
/// on the other one.
pub proof fn lemma_line_end_points(x0: int, y0: int, x1: int, y1: int)
    ensures
        line_point(x0, y0, x1, y1, 0) == (x0, y0),
        line_point(x0, y0, x1, y1, line_len(x0, y0, x1, y1)) == (x1, y1),
{
    let dx = span(x0, x1);
    let dy = span(y0, y1);
    if x_is_major(x0, y0, x1, y1) {
        lemma_minor_offset_bounds(0, dx, dy);
        lemma_minor_offset_bounds(dx, dx, dy);
    } else {
        lemma_minor_offset_bounds(0, dy, dx);
        lemma_minor_offset_bounds(dy, dy, dx);
    }
    lemma_step_sign_mul(x0, x1, 0);
    lemma_step_sign_mul(y0, y1, 0);
    lemma_step_sign_mul(x0, x1, dx);
    lemma_step_sign_mul(y0, y1, dy);
    lemma_step_sign_mul(x0, x1, minor_offset(0, dy, dx));
    lemma_step_sign_mul(y0, y1, minor_offset(0, dx, dy));
    lemma_step_sign_mul(x0, x1, minor_offset(dy, dy, dx));
    lemma_step_sign_mul(y0, y1, minor_offset(dx, dx, dy));
}

/// Every pixel of a walk lies in the axis-aligned box spanned by the two end
/// points.
pub proof fn lemma_line_point_in_box(x0: int, y0: int, x1: int, y1: int, k: int)
    requires
        0 <= k <= line_len(x0, y0, x1, y1),
    ensures
        ({
            let p = line_point(x0, y0, x1, y1, k);
            &&& (if x0 <= x1 {
                x0 <= p.0 <= x1
            } else {
                x1 <= p.0 <= x0
            })
            &&& (if y0 <= y1 {
                y0 <= p.1 <= y1
            } else {
                y1 <= p.1 <= y0
            })
        }),
{
    let dx = span(x0, x1);
    let dy = span(y0, y1);
    if x_is_major(x0, y0, x1, y1) {
        lemma_minor_offset_bounds(k, dx, dy);
        lemma_step_sign_mul(x0, x1, k);
        lemma_step_sign_mul(y0, y1, minor_offset(k, dx, dy));
    } else {
        lemma_minor_offset_bounds(k, dy, dx);
        lemma_step_sign_mul(x0, x1, minor_offset(k, dy, dx));
        lemma_step_sign_mul(y0, y1, k);
    }
}

/// Consecutive pixels of a walk are neighbours: the major axis moves by
/// exactly one, the minor axis by at most one, both towards the end point.
pub proof fn lemma_line_connected(x0: int, y0: int, x1: int, y1: int, k: int)
    requires
        0 <= k < line_len(x0, y0, x1, y1),
    ensures
        ({
            let p = line_point(x0, y0, x1, y1, k);
            let n = line_point(x0, y0, x1, y1, k + 1);
            let sx = step_sign(x0, x1);
            let sy = step_sign(y0, y1);
            if x_is_major(x0, y0, x1, y1) {
                n.0 == p.0 + sx && (n.1 == p.1 || n.1 == p.1 + sy)
            } else {
                n.1 == p.1 + sy && (n.0 == p.0 || n.0 == p.0 + sx)
            }
        }),
{
    let dx = span(x0, x1);
    let dy = span(y0, y1);
    if x_is_major(x0, y0, x1, y1) {
        lemma_minor_offset_step(k, dx, dy);
        lemma_step_sign_mul(x0, x1, k);
        lemma_step_sign_mul(x0, x1, k + 1);
        lemma_step_sign_mul(y0, y1, minor_offset(k, dx, dy));
        lemma_step_sign_mul(y0, y1, minor_offset(k + 1, dx, dy));
    } else {
        lemma_minor_offset_step(k, dy, dx);
        lemma_step_sign_mul(y0, y1, k);
        lemma_step_sign_mul(y0, y1, k + 1);
        lemma_step_sign_mul(x0, x1, minor_offset(k, dy, dx));
        lemma_step_sign_mul(x0, x1, minor_offset(k + 1, dy, dx));
    }
}

/// An incremental line rasterizer: it walks from `(x0, y0)` towards
/// `(x1, y1)` one pixel per unit step along the longer axis.
///
/// The end point itself is never handed out; `reached` turns true when the
/// walk stands on it.
pub struct Ray {
    pub x0: i32,
    pub y0: i32,
    pub x1: i32,
    pub y1: i32,
    pub reached: bool,
    /// Direction of a step along x: `-1` or `1`.
    pub sx: i32,
    /// Direction of a step along y: `-1` or `1`.
    pub sy: i32,
    /// Horizontal distance between the end points.
    pub dx: i64,
    /// Vertical distance between the end points.
    pub dy: i64,
    /// Accumulated error term; it lies in `[-2 * major, 0)` between steps.
    pub error: i64,
    /// Current pixel.
    pub x: i32,
    pub y: i32,
    /// Whether the walk steps along x and lets y follow.
    pub x_major: bool,
}

impl Ray {
    /// Number of pixels the walk hands out in total.
    pub open spec fn len(&self) -> int {
        line_len(self.x0 as int, self.y0 as int, self.x1 as int, self.y1 as int)
    }

    /// The pixel handed out by the `k`-th call of `next_xy`, counted from 0.
    pub open spec fn point(&self, k: int) -> (int, int) {
        line_point(self.x0 as int, self.y0 as int, self.x1 as int, self.y1 as int, k)
    }

    /// Number of pixels handed out so far.
    pub open spec fn position(&self) -> int {
        if self.x_major {
            span(self.x0 as int, self.x as int)
        } else {
            span(self.y0 as int, self.y as int)
        }
    }

    /// The stepping state agrees with the end points and with `position`.
    pub open spec fn wf(&self) -> bool {
        let k = self.position();
        let major = if self.x_major {
            self.dx as int
        } else {
            self.dy as int
        };
        let minor = if self.x_major {
            self.dy as int
        } else {
            self.dx as int
        };
        let q = if self.x_major {
            span(self.y0 as int, self.y as int)
        } else {
            span(self.x0 as int, self.x as int)
        };
        &&& self.sx == step_sign(self.x0 as int, self.x1 as int)
        &&& self.sy == step_sign(self.y0 as int, self.y1 as int)
        &&& self.dx == span(self.x0 as int, self.x1 as int)
        &&& self.dy == span(self.y0 as int, self.y1 as int)
        &&& self.x_major == x_is_major(
            self.x0 as int,
            self.y0 as int,
            self.x1 as int,
            self.y1 as int,
        )
        &&& 0 <= k <= major
        &&& self.reached == (k == major)
        &&& (self.x as int, self.y as int) == self.point(k)
        &&& self.error == 2 * (k * minor) - major - 2 * (major * q)
        &&& major > 0 ==> -2 * major <= self.error < 0
        &&& major > 0 ==> q == minor_offset(k, major, minor)
    }

    /// Starts a walk at `(x0, y0)`.
    pub fn new(x0: i32, y0: i32, x1: i32, y1: i32) -> (ray: Self)
        ensures
            ray.wf(),
            ray.x0 == x0,
            ray.y0 == y0,
            ray.x1 == x1,
            ray.y1 == y1,
            ray.position() == 0,
            ray.reached == (ray.len() == 0),
    {
        let sx: i32 = if x1 < x0 {
            -1
        } else {
            1
        };
        let sy: i32 = if y1 < y0 {
            -1
        } else {
            1
        };
        let dx: i64 = if x1 < x0 {
            x0 as i64 - x1 as i64
        } else {
            x1 as i64 - x0 as i64
        };
        let dy: i64 = if y1 < y0 {
            y0 as i64 - y1 as i64
        } else {
            y1 as i64 - y0 as i64
        };
        let x_major = dy < dx;
        let reached;
        let error: i64;
        if x_major {
            reached = x0 == x1;
            error = -dx;
        } else {
            reached = y0 == y1;
            error = -dy;
        }
        let ray = Ray { x0, y0, x1, y1, reached, sx, sy, dx, dy, error, x: x0, y: y0, x_major };
        proof {
            let major = if x_major {
                dx as int
            } else {
                dy as int
            };
            let minor = if x_major {
                dy as int
            } else {
                dx as int
            };
            assert(0 * minor == 0) by (nonlinear_arith);
            assert(major * 0 == 0) by (nonlinear_arith);
            lemma_minor_offset_bounds(0, major, minor);
            lemma_step_sign_mul(x0 as int, x1 as int, 0);
            lemma_step_sign_mul(y0 as int, y1 as int, 0);
        }
        ray
    }

    /// Hands out the current pixel and moves one step towards the end point.
    pub fn next_xy(&mut self) -> (p: (i32, i32))
        requires
            old(self).wf(),
            !old(self).reached,
        ensures
            final(self).wf(),
            final(self).x0 == old(self).x0,
            final(self).y0 == old(self).y0,
            final(self).x1 == old(self).x1,
            final(self).y1 == old(self).y1,
            final(self).position() == old(self).position() + 1,
            final(self).reached == (final(self).position() == final(self).len()),
            0 <= old(self).position() < old(self).len(),
            (p.0 as int, p.1 as int) == old(self).point(old(self).position()),
    {
        if self.x_major {
            self.iter_x()
        } else {
            self.iter_y()
        }
    }

    fn iter_x(&mut self) -> (p: (i32, i32))
        requires
            old(self).wf(),
            !old(self).reached,
            old(self).x_major,
        ensures
            final(self).wf(),
            final(self).x0 == old(self).x0,
            final(self).y0 == old(self).y0,
            final(self).x1 == old(self).x1,
            final(self).y1 == old(self).y1,
            final(self).position() == old(self).position() + 1,
            final(self).reached == (final(self).position() == final(self).len()),
            0 <= old(self).position() < old(self).len(),
            (p.0 as int, p.1 as int) == old(self).point(old(self).position()),
    {
        let result = (self.x, self.y);
        let ghost k = self.position();
        let ghost major = self.dx as int;
        let ghost minor = self.dy as int;
        let ghost q = span(self.y0 as int, self.y as int);
        proof {
            lemma_minor_offset_step(k, major, minor);
            lemma_minor_offset_bounds(k + 1, major, minor);
            assert((k + 1) * minor == k * minor + minor) by (nonlinear_arith);
            assert(major * (q + 1) == major * q + major) by (nonlinear_arith);
            lemma_step_sign_mul(self.x0 as int, self.x1 as int, k);
            lemma_step_sign_mul(self.x0 as int, self.x1 as int, k + 1);
            lemma_step_sign_mul(self.y0 as int, self.y1 as int, q);
            lemma_step_sign_mul(self.y0 as int, self.y1 as int, q + 1);
        }
        self.error = self.error + (self.dy + self.dy);
        if self.error >= 0 {
            proof {
                lemma_minor_offset_unique(k + 1, major, minor, q + 1);
            }
            self.y = self.y + self.sy;
            self.error = self.error - (self.dx + self.dx);
        } else {
            proof {
                lemma_minor_offset_unique(k + 1, major, minor, q);
            }
        }
        self.x = self.x + self.sx;
        if self.x == self.x1 {
            self.reached = true;
        }
        result
    }

    fn iter_y(&mut self) -> (p: (i32, i32))
        requires
            old(self).wf(),
            !old(self).reached,
            !old(self).x_major,
        ensures
            final(self).wf(),
            final(self).x0 == old(self).x0,
            final(self).y0 == old(self).y0,
            final(self).x1 == old(self).x1,
            final(self).y1 == old(self).y1,
            final(self).position() == old(self).position() + 1,
            final(self).reached == (final(self).position() == final(self).len()),
            0 <= old(self).position() < old(self).len(),
            (p.0 as int, p.1 as int) == old(self).point(old(self).position()),
    {
        let result = (self.x, self.y);
        let ghost k = self.position();
        let ghost major = self.dy as int;
        let ghost minor = self.dx as int;
        let ghost q = span(self.x0 as int, self.x as int);
        proof {
            lemma_minor_offset_step(k, major, minor);
            lemma_minor_offset_bounds(k + 1, major, minor);
            assert((k + 1) * minor == k * minor + minor) by (nonlinear_arith);
            assert(major * (q + 1) == major * q + major) by (nonlinear_arith);
            lemma_step_sign_mul(self.y0 as int, self.y1 as int, k);
            lemma_step_sign_mul(self.y0 as int, self.y1 as int, k + 1);
            lemma_step_sign_mul(self.x0 as int, self.x1 as int, q);
            lemma_step_sign_mul(self.x0 as int, self.x1 as int, q + 1);
        }
        self.error = self.error + (self.dx + self.dx);
        if self.error >= 0 {
            proof {
                lemma_minor_offset_unique(k + 1, major, minor, q + 1);
            }
            self.x = self.x + self.sx;
            self.error = self.error - (self.dy + self.dy);
        } else {
            proof {
                lemma_minor_offset_unique(k + 1, major, minor, q);
            }
        }
        self.y = self.y + self.sy;
        if self.y == self.y1 {
            self.reached = true;
        }
        result
    }
}

/// Inner product of two values.
pub trait Dot<Rhs = Self> {
    type Output;

    fn dot(self, rhs: Rhs) -> Self::Output;
}

/// Cross product of two values.
pub trait Cross<Rhs = Self> {
    type Output;

    fn cross(self, rhs: Rhs) -> Self::Output;
}

/// Region code of a point that lies in the clip rectangle.
pub const INSIDE: u8 = 0;

/// Region bit of a point to the left of the clip rectangle.
pub const LEFT: u8 = 1;

/// Region bit of a point to the right of the clip rectangle.
pub const RIGHT: u8 = 2;

/// Region bit of a point below the smallest y of the clip rectangle.
pub const BOTTOM: u8 = 4;

/// Region bit of a point above the largest y of the clip rectangle.
pub const TOP: u8 = 8;

/// The region code of a point, from where it lies relative to the four edges
/// of the clip rectangle: one horizontal bit at most, one vertical bit at
/// most, `INSIDE` when the point is beyond no edge.
pub open spec fn outcode_of(left: bool, right: bool, below: bool, above: bool) -> u8 {
    let horizontal = if left {
        LEFT
    } else if right {
        RIGHT
    } else {
        INSIDE
    };
    let vertical = if below {
        BOTTOM
    } else if above {
        TOP
    } else {
        INSIDE
    };
    (horizontal + vertical) as u8
}

/// Computes the region code of a point.
pub fn outcode(left: bool, right: bool, below: bool, above: bool) -> (code: u8)
    ensures
        code == outcode_of(left, right, below, above),
        code < 16,
        code == INSIDE <==> !left && !right && !below && !above,
{
    let mut code: u8 = INSIDE;
    if left {
        code = code + LEFT;
    } else if right {
        code = code + RIGHT;
    }
    if below {
        code = code + BOTTOM;
    } else if above {
        code = code + TOP;
    }
    code
}

/// An edge of the clip rectangle.
#[derive(Debug, Clone, Copy, PartialEq, Eq)]
pub enum Edge {
    Top,
    Bottom,
    Right,
    Left,
}

/// What clipping does next with a segment.
#[derive(Debug, Clone, Copy, PartialEq, Eq)]
pub enum ClipStep {
    /// Both end points lie in the rectangle: the segment is the result.
    Accept,
    /// Both end points lie beyond one edge: nothing is left of the segment.
    Reject,
    /// The first end point moves to where the segment meets the edge.
    MoveStart(Edge),
    /// The second end point moves to where the segment meets the edge.
    MoveEnd(Edge),
}

/// The region bit that stands for an edge.
pub open spec fn edge_bit(edge: Edge) -> u8 {
    match edge {
        Edge::Top => TOP,
        Edge::Bottom => BOTTOM,
        Edge::Right => RIGHT,
        Edge::Left => LEFT,
    }
}

/// The edge that a point with region code `code` is moved to: the first one
/// it lies beyond, in the order top, bottom, right, left.
pub open spec fn first_edge(code: u8) -> Edge {
    if code & TOP != 0 {
        Edge::Top
    } else if code & BOTTOM != 0 {
        Edge::Bottom
    } else if code & RIGHT != 0 {
        Edge::Right
    } else {
        Edge::Left
    }
}

/// The next step of clipping a segment whose end points have the region
/// codes `start` and `end`. Where an end point has to move, it is the one
/// with the larger code.
pub open spec fn clip_step_of(start: u8, end: u8) -> ClipStep {
    if start | end == 0 {
        ClipStep::Accept
    } else if start & end != 0 {
        ClipStep::Reject
    } else if start >= end {
        ClipStep::MoveStart(first_edge(start))
    } else {
        ClipStep::MoveEnd(first_edge(end))
    }
}

/// Decides the next step of clipping a segment from the region codes of its
/// end points.
///
/// The end point that moves lies beyond the edge it moves to and the other
/// one does not, so the segment is not parallel to that edge.
pub fn clip_step(start: u8, end: u8) -> (step: ClipStep)
    requires
        start < 16,
        end < 16,
    ensures
        step == clip_step_of(start, end),
        step == ClipStep::Accept <==> start == INSIDE && end == INSIDE,
        step == ClipStep::Reject <==> start & end != 0,
        step matches ClipStep::MoveStart(edge) ==> start & edge_bit(edge) != 0 && end & edge_bit(
            edge,
        ) == 0,
        step matches ClipStep::MoveEnd(edge) ==> end & edge_bit(edge) != 0 && start & edge_bit(
            edge,
        ) == 0,
{
    proof {
        lemma_region_codes(start, end);
        lemma_region_codes(end, start);
    }
    if (start | end) == 0 {
        ClipStep::Accept
    } else if (start & end) != 0 {
        ClipStep::Reject
    } else if start >= end {
        ClipStep::MoveStart(pick_edge(start))
    } else {
        ClipStep::MoveEnd(pick_edge(end))
    }
}

fn pick_edge(code: u8) -> (edge: Edge)
    ensures
        edge == first_edge(code),
{
    if (code & TOP) != 0 {
        Edge::Top
    } else if (code & BOTTOM) != 0 {
        Edge::Bottom
    } else if (code & RIGHT) != 0 {
        Edge::Right
    } else {
        Edge::Left
    }
}

/// Facts about two region codes: they join to zero only when both are zero,
/// and a code that shares no bit with the other one has its first edge's bit
/// to itself.
pub proof fn lemma_region_codes(a: u8, b: u8)
    requires
        a < 16,
        b < 16,
    ensures
        (a | b == 0) <==> (a == 0 && b == 0),
        a & b == b & a,
        a == 0 ==> a & b == 0,
        a != 0 ==> a & edge_bit(first_edge(a)) != 0,
        a & b == 0 ==> b & edge_bit(first_edge(a)) == 0 || a == 0,
{
    assert((a | b == 0) <==> (a == 0 && b == 0)) by (bit_vector);
    assert(a & b == b & a) by (bit_vector);
    assert(a == 0 ==> a & b == 0) by (bit_vector);
    assert(a < 16 && a != 0 ==> (a & 8 != 0 || a & 4 != 0 || a & 2 != 0 || a & 1 != 0))
        by (bit_vector);
    assert(a & b == 0 ==> (a & 8 != 0 ==> b & 8 == 0) && (a & 4 != 0 ==> b & 4 == 0) && (a & 2
        != 0 ==> b & 2 == 0) && (a & 1 != 0 ==> b & 1 == 0)) by (bit_vector);
}

/// A region code has the bit of every edge that its point lies beyond, where
/// left comes before right and below before above.
pub proof fn lemma_outcode_bits(left: bool, right: bool, below: bool, above: bool)
    ensures
        ({
            let code = outcode_of(left, right, below, above);
            &&& code < 16
            &&& (code & LEFT != 0) == left
            &&& (code & RIGHT != 0) == (!left && right)
            &&& (code & BOTTOM != 0) == below
            &&& (code & TOP != 0) == (!below && above)
            &&& (code == INSIDE) == (!left && !right && !below && !above)
        }),
{
    let code = outcode_of(left, right, below, above);
    assert(code == 0 || code == 1 || code == 2 || code == 4 || code == 5 || code == 6 || code == 8
        || code == 9 || code == 10);
    assert(0u8 & 1 == 0 && 0u8 & 2 == 0 && 0u8 & 4 == 0 && 0u8 & 8 == 0) by (bit_vector);
    assert(1u8 & 1 == 1 && 1u8 & 2 == 0 && 1u8 & 4 == 0 && 1u8 & 8 == 0) by (bit_vector);
    assert(2u8 & 1 == 0 && 2u8 & 2 == 2 && 2u8 & 4 == 0 && 2u8 & 8 == 0) by (bit_vector);
    assert(4u8 & 1 == 0 && 4u8 & 2 == 0 && 4u8 & 4 == 4 && 4u8 & 8 == 0) by (bit_vector);
    assert(5u8 & 1 == 1 && 5u8 & 2 == 0 && 5u8 & 4 == 4 && 5u8 & 8 == 0) by (bit_vector);
    assert(6u8 & 1 == 0 && 6u8 & 2 == 2 && 6u8 & 4 == 4 && 6u8 & 8 == 0) by (bit_vector);
    assert(8u8 & 1 == 0 && 8u8 & 2 == 0 && 8u8 & 4 == 0 && 8u8 & 8 == 8) by (bit_vector);
    assert(9u8 & 1 == 1 && 9u8 & 2 == 0 && 9u8 & 4 == 0 && 9u8 & 8 == 8) by (bit_vector);
    assert(10u8 & 1 == 0 && 10u8 & 2 == 2 && 10u8 & 4 == 0 && 10u8 & 8 == 8) by (bit_vector);
}

/// Clipping is decided at once in two cases: a segment with both end points
/// in the rectangle is accepted as it is, and a segment with both end points
/// beyond one and the same edge is rejected.
pub proof fn lemma_clip_decided_at_once(
    start: (bool, bool, bool, bool),
    end: (bool, bool, bool, bool),
)
    ensures
        ({
            let a = outcode_of(start.0, start.1, start.2, start.3);
            let b = outcode_of(end.0, end.1, end.2, end.3);
            let beyond_one_edge = (start.0 && end.0) || (!start.0 && start.1 && !end.0 && end.1)
                || (start.2 && end.2) || (!start.2 && start.3 && !end.2 && end.3);
            &&& clip_step_of(a, b) == ClipStep::Accept <==> !start.0 && !start.1 && !start.2
                && !start.3 && !end.0 && !end.1 && !end.2 && !end.3
            &&& clip_step_of(a, b) == ClipStep::Reject <==> beyond_one_edge
        }),
{
    let a = outcode_of(start.0, start.1, start.2, start.3);
    let b = outcode_of(end.0, end.1, end.2, end.3);
    lemma_outcode_bits(start.0, start.1, start.2, start.3);
    lemma_outcode_bits(end.0, end.1, end.2, end.3);
    lemma_region_codes(a, b);
    assert(a < 16 && b < 16 ==> ((a & b != 0) <==> ((a & 1 != 0 && b & 1 != 0) || (a & 2 != 0 && b
        & 2 != 0) || (a & 4 != 0 && b & 4 != 0) || (a & 8 != 0 && b & 8 != 0)))) by (bit_vector);
}

} // verus!
