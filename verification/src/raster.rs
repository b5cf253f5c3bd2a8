//! Line drawing.

use vstd::prelude::*;
use crate::colors::RGB;
use crate::image::PPMImg;

verus! {

/// The distance between two coordinates.
pub open spec fn span(from: int, to: int) -> nat {
    if to >= from {
        (to - from) as nat
    } else {
        (from - to) as nat
    }
}

/// The number of steps of the segment: its longer extent.
pub open spec fn line_steps(x0: int, y0: int, x1: int, y1: int) -> nat {
    if span(x0, x1) >= span(y0, y1) {
        span(x0, x1)
    } else {
        span(y0, y1)
    }
}

/// The coordinate after `t` of `n` equal steps from `from` to `to`,
/// rounded to the nearest integer, a half away from `from`.
pub open spec fn along(from: int, to: int, t: nat, n: nat) -> int {
    if n == 0 {
        from
    } else {
        let offset = (2 * t * span(from, to) + n) / (2 * n);
        if to >= from {
            from + offset
        } else {
            from - offset
        }
    }
}

/// The point of the segment after `t` steps.
pub open spec fn line_point(x0: int, y0: int, x1: int, y1: int, t: nat) -> (int, int) {
    let n = line_steps(x0, y0, x1, y1);
    (along(x0, x1, t, n), along(y0, y1, t, n))
}

/// A segment starts at its first end and stops at its second.
pub proof fn lemma_line_ends(x0: int, y0: int, x1: int, y1: int)
    ensures
        line_point(x0, y0, x1, y1, 0) == (x0, y0),
        line_point(x0, y0, x1, y1, line_steps(x0, y0, x1, y1)) == (x1, y1),
{
    let n = line_steps(x0, y0, x1, y1);
    if n > 0 {
        lemma_along_ends(x0, x1, n);
        lemma_along_ends(y0, y1, n);
    }
}

/// `along` starts at `from` and ends at `to`.
proof fn lemma_along_ends(from: int, to: int, n: nat)
    requires
        n > 0,
    ensures
        along(from, to, 0, n) == from,
        along(from, to, n, n) == to,
{
    let d = span(from, to) as int;
    let m = n as int;
    assert(2 * 0 * d + m == m) by (nonlinear_arith);
    vstd::arithmetic::div_mod::lemma_fundamental_div_mod_converse(m, 2 * m, 0, m);
    assert(2 * m * d + m == (2 * m) * d + m) by (nonlinear_arith);
    vstd::arithmetic::div_mod::lemma_fundamental_div_mod_converse(2 * m * d + m, 2 * m, d, m);
}

/// Along the longer extent, each step moves by one.
proof fn lemma_along_major(from: int, to: int, t: nat)
    requires
        span(from, to) > 0,
    ensures
        along(from, to, t, span(from, to)) == (if to >= from {
            from + t
        } else {
            from - t
        }),
{
    let m = span(from, to) as int;
    let k = t as int;
    assert(2 * k * m + m == (2 * m) * k + m) by (nonlinear_arith);
    vstd::arithmetic::div_mod::lemma_fundamental_div_mod_converse(2 * k * m + m, 2 * m, k, m);
}

/// No point of a segment is drawn twice: different steps give different
/// points.
pub proof fn lemma_line_points_differ(x0: int, y0: int, x1: int, y1: int, s: nat, t: nat)
    requires
        s != t,
    ensures
        line_steps(x0, y0, x1, y1) > 0 ==> line_point(x0, y0, x1, y1, s) != line_point(
            x0,
            y0,
            x1,
            y1,
            t,
        ),
{
    let n = line_steps(x0, y0, x1, y1);
    if n > 0 {
        if span(x0, x1) >= span(y0, y1) {
            lemma_along_major(x0, x1, s);
            lemma_along_major(x0, x1, t);
        } else {
            lemma_along_major(y0, y1, s);
            lemma_along_major(y0, y1, t);
        }
    }
}

/// One step moves a coordinate by one at most, towards `to`.
proof fn lemma_along_step(from: int, to: int, t: nat, n: nat)
    requires
        n > 0,
        span(from, to) <= n,
    ensures
        to >= from ==> along(from, to, t, n) <= along(from, to, t + 1, n) <= along(from, to, t, n)
            + 1,
        to < from ==> along(from, to, t, n) - 1 <= along(from, to, t + 1, n) <= along(
            from,
            to,
            t,
            n,
        ),
{
    let d = span(from, to) as int;
    let m = n as int;
    let a = 2 * t * d + m;
    let b = 2 * (t + 1) * d + m;
    assert(b == a + 2 * d) by (nonlinear_arith)
        requires
            a == 2 * t * d + m,
            b == 2 * (t + 1) * d + m,
    ;
    vstd::arithmetic::div_mod::lemma_div_is_ordered(a, b, 2 * m);
    vstd::arithmetic::div_mod::lemma_div_is_ordered(b, a + 2 * m, 2 * m);
    vstd::arithmetic::div_mod::lemma_div_plus_one(a, 2 * m);
    assert(2 * m + a == a + 2 * m);
}

/// A segment has no gaps: from one point to the next, each coordinate
/// moves by one at most.
pub proof fn lemma_line_connected(x0: int, y0: int, x1: int, y1: int, t: nat)
    ensures
        ({
            let p = line_point(x0, y0, x1, y1, t);
            let q = line_point(x0, y0, x1, y1, t + 1);
            -1 <= q.0 - p.0 <= 1 && -1 <= q.1 - p.1 <= 1
        }),
{
    let n = line_steps(x0, y0, x1, y1);
    if n > 0 {
        lemma_along_step(x0, x1, t, n);
        lemma_along_step(y0, y1, t, n);
    }
}

/// Executable form of `along`.
fn step_along(from: i32, to: i32, t: u64, n: u64) -> (r: i128)
    requires
        t <= n,
        n <= 0xffff_ffff,
        span(from as int, to as int) <= n,
    ensures
        r == along(from as int, to as int, t as nat, n as nat),
{
    if n == 0 {
        return from as i128;
    }
    let d: u128 = if to >= from {
        (to as i128 - from as i128) as u128
    } else {
        (from as i128 - to as i128) as u128
    };
    assert(t * d <= 0xffff_ffff * 0xffff_ffff) by (nonlinear_arith)
        requires
            t <= 0xffff_ffff,
            d <= 0xffff_ffff,
    ;
    assert(2 * t * d == 2 * (t * d)) by (nonlinear_arith);
    let offset: u128 = (2 * (t as u128) * d + (n as u128)) / (2 * (n as u128));
    if to >= from {
        from as i128 + offset as i128
    } else {
        from as i128 - offset as i128
    }
}

impl PPMImg {
    /// The pixels after the foreground colour was written at the first
    /// `count` points of the segment.
    pub open spec fn stamped(
        &self,
        pixels: Seq<RGB>,
        x0: int,
        y0: int,
        x1: int,
        y1: int,
        count: nat,
    ) -> Seq<RGB>
        decreases count,
    {
        if count == 0 {
            pixels
        } else {
            let before = self.stamped(pixels, x0, y0, x1, y1, (count - 1) as nat);
            let p = line_point(x0, y0, x1, y1, (count - 1) as nat);
            match self.pixel_index(p.0, p.1) {
                Some(i) => before.update(i, self.fg_color),
                None => before,
            }
        }
    }

    /// Some of the first `count` points of the segment addresses the buffer
    /// position `i`.
    pub open spec fn on_line(&self, x0: int, y0: int, x1: int, y1: int, count: nat, i: int) -> bool {
        exists|t: nat|
            t < count && self.pixel_index(
                (#[trigger] line_point(x0, y0, x1, y1, t)).0,
                line_point(x0, y0, x1, y1, t).1,
            ) == Some(i)
    }

    /// Drawing changes exactly the pixels that the points of the segment
    /// address, and gives them the foreground colour.
    pub proof fn lemma_stamped_pixels(
        &self,
        pixels: Seq<RGB>,
        x0: int,
        y0: int,
        x1: int,
        y1: int,
        count: nat,
    )
        requires
            self.wf(),
            pixels.len() == self.data@.len(),
        ensures
            self.stamped(pixels, x0, y0, x1, y1, count).len() == pixels.len(),
            forall|i: int|
                0 <= i < pixels.len() ==> #[trigger] self.stamped(pixels, x0, y0, x1, y1, count)[i]
                    == (if self.on_line(x0, y0, x1, y1, count, i) {
                    self.fg_color
                } else {
                    pixels[i]
                }),
        decreases count,
    {
        if count > 0 {
            let fewer = (count - 1) as nat;
            self.lemma_stamped_pixels(pixels, x0, y0, x1, y1, fewer);
            let p = line_point(x0, y0, x1, y1, fewer);
            self.lemma_pixel_index_in_range(p.0, p.1);
            assert forall|i: int| 0 <= i < pixels.len() implies #[trigger] self.stamped(
                pixels,
                x0,
                y0,
                x1,
                y1,
                count,
            )[i] == (if self.on_line(x0, y0, x1, y1, count, i) {
                self.fg_color
            } else {
                pixels[i]
            }) by {
                if self.on_line(x0, y0, x1, y1, fewer, i) {
                    let t = choose|t: nat|
                        t < fewer && self.pixel_index(
                            (#[trigger] line_point(x0, y0, x1, y1, t)).0,
                            line_point(x0, y0, x1, y1, t).1,
                        ) == Some(i);
                    assert(t < count);
                    assert(self.on_line(x0, y0, x1, y1, count, i));
                } else if self.pixel_index(p.0, p.1) == Some(i) {
                    assert(fewer < count);
                    assert(self.on_line(x0, y0, x1, y1, count, i));
                } else if self.on_line(x0, y0, x1, y1, count, i) {
                    let t = choose|t: nat|
                        t < count && self.pixel_index(
                            (#[trigger] line_point(x0, y0, x1, y1, t)).0,
                            line_point(x0, y0, x1, y1, t).1,
                        ) == Some(i);
                    assert(t != fewer);
                    assert(t < fewer);
                    assert(false);
                }
            }
        }
    }

    /// Draws the segment from `(x0, y0)` to `(x1, y1)` in the foreground
    /// colour: one point for each step along its longer extent, both ends
    /// included. Points that address no pixel are left out.
    pub fn draw_line(&mut self, x0: i32, y0: i32, x1: i32, y1: i32)
        requires
            old(self).wf(),
        ensures
            final(self).same_frame(old(self)),
            final(self).data@ == old(self).stamped(
                old(self).data@,
                x0 as int,
                y0 as int,
                x1 as int,
                y1 as int,
                line_steps(x0 as int, y0 as int, x1 as int, y1 as int) + 1,
            ),
            forall|i: int|
                0 <= i < old(self).data@.len() ==> #[trigger] final(self).data@[i] == (if old(
                    self,
                ).on_line(
                    x0 as int,
                    y0 as int,
                    x1 as int,
                    y1 as int,
                    line_steps(x0 as int, y0 as int, x1 as int, y1 as int) + 1,
                    i,
                ) {
                    old(self).fg_color
                } else {
                    old(self).data@[i]
                }),
    {
        proof {
            old(self).lemma_stamped_pixels(
                old(self).data@,
                x0 as int,
                y0 as int,
                x1 as int,
                y1 as int,
                line_steps(x0 as int, y0 as int, x1 as int, y1 as int) + 1,
            );
        }
        let dx: u64 = if x1 >= x0 {
            (x1 as i64 - x0 as i64) as u64
        } else {
            (x0 as i64 - x1 as i64) as u64
        };
        let dy: u64 = if y1 >= y0 {
            (y1 as i64 - y0 as i64) as u64
        } else {
            (y0 as i64 - y1 as i64) as u64
        };
        let n: u64 = if dx >= dy { dx } else { dy };
        let ink = self.fg_color;
        let mut t: u64 = 0;
        while t <= n
            invariant
                t <= n + 1,
                n == line_steps(x0 as int, y0 as int, x1 as int, y1 as int),
                n <= 0xffff_ffff,
                ink == old(self).fg_color,
                self.wf(),
                self.same_frame(old(self)),
                self.data@ == old(self).stamped(
                    old(self).data@,
                    x0 as int,
                    y0 as int,
                    x1 as int,
                    y1 as int,
                    t as nat,
                ),
            decreases n + 1 - t,
        {
            let px = step_along(x0, x1, t, n);
            let py = step_along(y0, y1, t, n);
            if let Some(i) = self.locate(px, py) {
                self.data.set(i, ink);
            }
            t = t + 1;
        }
    }
}

/// The least of three.
pub open spec fn min3(a: int, b: int, c: int) -> int {
    if a <= b && a <= c {
        a
    } else if b <= c {
        b
    } else {
        c
    }
}

/// The greatest of three.
pub open spec fn max3(a: int, b: int, c: int) -> int {
    if a >= b && a >= c {
        a
    } else if b >= c {
        b
    } else {
        c
    }
}

/// On which side of the line from `a` to `b` the point `p` lies: twice the
/// signed area of the triangle `a`, `b`, `p`.
pub open spec fn edge_side(a: (int, int), b: (int, int), p: (int, int)) -> int {
    (b.0 - a.0) * (p.1 - a.1) - (b.1 - a.1) * (p.0 - a.0)
}

/// `p` lies in the triangle `a`, `b`, `c`, its edges included: within the
/// extent of the corners and on the same side of all three edges.
pub open spec fn in_triangle(a: (int, int), b: (int, int), c: (int, int), p: (int, int)) -> bool {
    let e0 = edge_side(a, b, p);
    let e1 = edge_side(b, c, p);
    let e2 = edge_side(c, a, p);
    &&& min3(a.0, b.0, c.0) <= p.0 <= max3(a.0, b.0, c.0)
    &&& min3(a.1, b.1, c.1) <= p.1 <= max3(a.1, b.1, c.1)
    &&& ((e0 >= 0 && e1 >= 0 && e2 >= 0) || (e0 <= 0 && e1 <= 0 && e2 <= 0))
}

/// The corners of a triangle lie in it.
pub proof fn lemma_corners_in_triangle(a: (int, int), b: (int, int), c: (int, int))
    ensures
        in_triangle(a, b, c, a),
        in_triangle(a, b, c, b),
        in_triangle(a, b, c, c),
{
    assert(edge_side(a, b, a) == 0 && edge_side(c, a, a) == 0) by (nonlinear_arith);
    assert(edge_side(a, b, b) == 0 && edge_side(b, c, b) == 0) by (nonlinear_arith);
    assert(edge_side(b, c, c) == 0 && edge_side(c, a, c) == 0) by (nonlinear_arith);
}

/// Executable form of `edge_side`.
fn side(a: (i32, i32), b: (i32, i32), px: i64, py: i64) -> (r: i128)
    requires
        i32::MIN <= px <= i32::MAX,
        i32::MIN <= py <= i32::MAX,
    ensures
        r == edge_side(
            (a.0 as int, a.1 as int),
            (b.0 as int, b.1 as int),
            (px as int, py as int),
        ),
{
    let ux: i128 = b.0 as i128 - a.0 as i128;
    let uy: i128 = b.1 as i128 - a.1 as i128;
    let vx: i128 = px as i128 - a.0 as i128;
    let vy: i128 = py as i128 - a.1 as i128;
    assert(-0x1_0000_0000_0000_0000 <= ux * vy <= 0x1_0000_0000_0000_0000) by (nonlinear_arith)
        requires
            -0x1_0000_0000 <= ux <= 0x1_0000_0000,
            -0x1_0000_0000 <= vy <= 0x1_0000_0000,
    ;
    assert(-0x1_0000_0000_0000_0000 <= uy * vx <= 0x1_0000_0000_0000_0000) by (nonlinear_arith)
        requires
            -0x1_0000_0000 <= uy <= 0x1_0000_0000,
            -0x1_0000_0000 <= vx <= 0x1_0000_0000,
    ;
    ux * vy - uy * vx
}

/// The least of three.
fn least(a: i32, b: i32, c: i32) -> (r: i32)
    ensures
        r == min3(a as int, b as int, c as int),
{
    if a <= b && a <= c {
        a
    } else if b <= c {
        b
    } else {
        c
    }
}

/// The greatest of three.
fn greatest(a: i32, b: i32, c: i32) -> (r: i32)
    ensures
        r == max3(a as int, b as int, c as int),
{
    if a >= b && a >= c {
        a
    } else if b >= c {
        b
    } else {
        c
    }
}

impl PPMImg {
    /// Some point of the triangle addresses the buffer position `i`.
    pub open spec fn in_filled(&self, a: (int, int), b: (int, int), c: (int, int), i: int) -> bool {
        exists|x: int, y: int| #[trigger]
            in_triangle(a, b, c, (x, y)) && self.pixel_index(x, y) == Some(i)
    }

    /// Some point of the triangle that stands before `(cx, cy)`, reading
    /// row by row, addresses the buffer position `i`.
    pub open spec fn in_scan(
        &self,
        a: (int, int),
        b: (int, int),
        c: (int, int),
        cx: int,
        cy: int,
        i: int,
    ) -> bool {
        exists|x: int, y: int| #[trigger]
            in_triangle(a, b, c, (x, y)) && (y < cy || (y == cy && x < cx)) && self.pixel_index(
                x,
                y,
            ) == Some(i)
    }

    /// Scanning one point further adds that point, if it is in the
    /// triangle.
    proof fn lemma_scan_step(
        &self,
        a: (int, int),
        b: (int, int),
        c: (int, int),
        cx: int,
        cy: int,
        i: int,
    )
        ensures
            self.in_scan(a, b, c, cx + 1, cy, i) == (self.in_scan(a, b, c, cx, cy, i) || (
            in_triangle(a, b, c, (cx, cy)) && self.pixel_index(cx, cy) == Some(i))),
    {
        if self.in_scan(a, b, c, cx, cy, i) {
            let (x, y) = choose|x: int, y: int| #[trigger]
                in_triangle(a, b, c, (x, y)) && (y < cy || (y == cy && x < cx))
                    && self.pixel_index(x, y) == Some(i);
            assert(in_triangle(a, b, c, (x, y)) && (y < cy || (y == cy && x < cx + 1)));
        }
        if in_triangle(a, b, c, (cx, cy)) && self.pixel_index(cx, cy) == Some(i) {
            assert(in_triangle(a, b, c, (cx, cy)) && (cy < cy || (cy == cy && cx < cx + 1)));
        }
        if self.in_scan(a, b, c, cx + 1, cy, i) {
            let (x, y) = choose|x: int, y: int| #[trigger]
                in_triangle(a, b, c, (x, y)) && (y < cy || (y == cy && x < cx + 1))
                    && self.pixel_index(x, y) == Some(i);
            if !(x == cx && y == cy) {
                assert(in_triangle(a, b, c, (x, y)) && (y < cy || (y == cy && x < cx)));
            }
        }
    }

    /// The scan is the same at the end of one row and at the start of the
    /// next; before the first row it holds nothing, and after the last,
    /// the whole triangle.
    proof fn lemma_scan_rows(
        &self,
        a: (int, int),
        b: (int, int),
        c: (int, int),
        cy: int,
        i: int,
    )
        ensures
            self.in_scan(a, b, c, max3(a.0, b.0, c.0) + 1, cy, i) == self.in_scan(
                a,
                b,
                c,
                min3(a.0, b.0, c.0),
                cy + 1,
                i,
            ),
            cy <= min3(a.1, b.1, c.1) ==> !self.in_scan(a, b, c, min3(a.0, b.0, c.0), cy, i),
            cy > max3(a.1, b.1, c.1) ==> self.in_scan(a, b, c, min3(a.0, b.0, c.0), cy, i)
                == self.in_filled(a, b, c, i),
    {
        let lo = min3(a.0, b.0, c.0);
        let hi = max3(a.0, b.0, c.0);
        if self.in_scan(a, b, c, hi + 1, cy, i) {
            let (x, y) = choose|x: int, y: int| #[trigger]
                in_triangle(a, b, c, (x, y)) && (y < cy || (y == cy && x < hi + 1))
                    && self.pixel_index(x, y) == Some(i);
            assert(in_triangle(a, b, c, (x, y)) && (y < cy + 1 || (y == cy + 1 && x < lo)));
        }
        if self.in_scan(a, b, c, lo, cy + 1, i) {
            let (x, y) = choose|x: int, y: int| #[trigger]
                in_triangle(a, b, c, (x, y)) && (y < cy + 1 || (y == cy + 1 && x < lo))
                    && self.pixel_index(x, y) == Some(i);
            assert(in_triangle(a, b, c, (x, y)) && (y < cy || (y == cy && x < hi + 1)));
        }
        if self.in_scan(a, b, c, lo, cy, i) {
            let (x, y) = choose|x: int, y: int| #[trigger]
                in_triangle(a, b, c, (x, y)) && (y < cy || (y == cy && x < lo))
                    && self.pixel_index(x, y) == Some(i);
            assert(in_triangle(a, b, c, (x, y)));
        }
        if self.in_filled(a, b, c, i) && cy > max3(a.1, b.1, c.1) {
            let (x, y) = choose|x: int, y: int| #[trigger]
                in_triangle(a, b, c, (x, y)) && self.pixel_index(x, y) == Some(i);
            assert(in_triangle(a, b, c, (x, y)) && (y < cy || (y == cy && x < lo)));
        }
    }

    /// Fills the triangle with corners `a`, `b` and `c` in the foreground
    /// colour, its edges included: every point with whole coordinates
    /// that lies on the same side of all three edges is plotted, once.
    /// Points that address no pixel are left out.
    pub fn fill_triangle(&mut self, a: (i32, i32), b: (i32, i32), c: (i32, i32))
        requires
            old(self).wf(),
        ensures
            final(self).same_frame(old(self)),
            final(self).data@ == old(self).with_triangle(old(self).data@, a, b, c),
    {
        let ghost ga = (a.0 as int, a.1 as int);
        let ghost gb = (b.0 as int, b.1 as int);
        let ghost gc = (c.0 as int, c.1 as int);
        let left: i64 = least(a.0, b.0, c.0) as i64;
        let right: i64 = greatest(a.0, b.0, c.0) as i64;
        let top: i64 = least(a.1, b.1, c.1) as i64;
        let bottom: i64 = greatest(a.1, b.1, c.1) as i64;
        let ink = self.fg_color;
        let mut y: i64 = top;
        proof {
            assert forall|i: int| !self.in_scan(ga, gb, gc, left as int, top as int, i) by {
                self.lemma_scan_rows(ga, gb, gc, top as int, i);
            }
        }
        while y <= bottom
            invariant
                top <= y <= bottom + 1,
                left == min3(ga.0, gb.0, gc.0),
                right == max3(ga.0, gb.0, gc.0),
                top == min3(ga.1, gb.1, gc.1),
                bottom == max3(ga.1, gb.1, gc.1),
                ga == (a.0 as int, a.1 as int),
                gb == (b.0 as int, b.1 as int),
                gc == (c.0 as int, c.1 as int),
                ink == old(self).fg_color,
                self.wf(),
                self.same_frame(old(self)),
                forall|i: int|
                    0 <= i < self.data@.len() ==> #[trigger] self.data@[i] == (if self.in_scan(
                        ga,
                        gb,
                        gc,
                        left as int,
                        y as int,
                        i,
                    ) {
                        ink
                    } else {
                        old(self).data@[i]
                    }),
            decreases bottom + 1 - y,
        {
            let mut x: i64 = left;
            while x <= right
                invariant
                    left <= x <= right + 1,
                    top <= y <= bottom,
                    left == min3(ga.0, gb.0, gc.0),
                    right == max3(ga.0, gb.0, gc.0),
                    top == min3(ga.1, gb.1, gc.1),
                    bottom == max3(ga.1, gb.1, gc.1),
                    ga == (a.0 as int, a.1 as int),
                    gb == (b.0 as int, b.1 as int),
                    gc == (c.0 as int, c.1 as int),
                    ink == old(self).fg_color,
                    self.wf(),
                    self.same_frame(old(self)),
                    forall|i: int|
                        0 <= i < self.data@.len() ==> #[trigger] self.data@[i] == (if self.in_scan(
                            ga,
                            gb,
                            gc,
                            x as int,
                            y as int,
                            i,
                        ) {
                            ink
                        } else {
                            old(self).data@[i]
                        }),
                decreases right + 1 - x,
            {
                let e0 = side(a, b, x, y);
                let e1 = side(b, c, x, y);
                let e2 = side(c, a, x, y);
                let inside = (e0 >= 0 && e1 >= 0 && e2 >= 0) || (e0 <= 0 && e1 <= 0 && e2 <= 0);
                assert(inside == in_triangle(ga, gb, gc, (x as int, y as int)));
                let ghost before = self.data@;
                if inside {
                    if let Some(i) = self.locate(x as i128, y as i128) {
                        self.data.set(i, ink);
                    }
                }
                proof {
                    assert forall|i: int| 0 <= i < self.data@.len() implies #[trigger] self.data@[i]
                        == (if self.in_scan(ga, gb, gc, x + 1, y as int, i) {
                        ink
                    } else {
                        old(self).data@[i]
                    }) by {
                        self.lemma_scan_step(ga, gb, gc, x as int, y as int, i);
                        assert(before[i] == (if self.in_scan(ga, gb, gc, x as int, y as int, i) {
                            ink
                        } else {
                            old(self).data@[i]
                        }));
                    }
                }
                x = x + 1;
            }
            proof {
                assert forall|i: int| 0 <= i < self.data@.len() implies #[trigger] self.data@[i]
                    == (if self.in_scan(ga, gb, gc, left as int, y + 1, i) {
                    ink
                } else {
                    old(self).data@[i]
                }) by {
                    self.lemma_scan_rows(ga, gb, gc, y as int, i);
                }
            }
            y = y + 1;
        }
        proof {
            assert forall|i: int| 0 <= i < self.data@.len() implies #[trigger] self.data@[i] == (
            if old(self).in_filled(ga, gb, gc, i) {
                ink
            } else {
                old(self).data@[i]
            }) by {
                self.lemma_scan_rows(ga, gb, gc, y as int, i);
                assert(self.in_filled(ga, gb, gc, i) == old(self).in_filled(ga, gb, gc, i));
            }
            assert(self.data@ =~= old(self).with_triangle(old(self).data@, a, b, c));
        }
    }
}

impl PPMImg {
    /// The pixels after the segment from `p` to `q` was drawn.
    pub open spec fn with_line(&self, pixels: Seq<RGB>, p: (i32, i32), q: (i32, i32)) -> Seq<RGB> {
        self.stamped(
            pixels,
            p.0 as int,
            p.1 as int,
            q.0 as int,
            q.1 as int,
            line_steps(p.0 as int, p.1 as int, q.0 as int, q.1 as int) + 1,
        )
    }

    /// The pixels after the triangle `a`, `b`, `c` was filled.
    pub open spec fn with_triangle(
        &self,
        pixels: Seq<RGB>,
        a: (i32, i32),
        b: (i32, i32),
        c: (i32, i32),
    ) -> Seq<RGB> {
        Seq::new(
            pixels.len(),
            |i: int|
                if self.in_filled(
                    (a.0 as int, a.1 as int),
                    (b.0 as int, b.1 as int),
                    (c.0 as int, c.1 as int),
                    i,
                ) {
                    self.fg_color
                } else {
                    pixels[i]
                },
        )
    }

    /// The pixels after the first `count` pairs of `points` were drawn as
    /// segments, in order.
    pub open spec fn with_edges(&self, pixels: Seq<RGB>, points: Seq<(i32, i32)>, count: nat) -> Seq<
        RGB,
    >
        decreases count,
    {
        if count == 0 {
            pixels
        } else {
            self.with_line(
                self.with_edges(pixels, points, (count - 1) as nat),
                points[2 * (count - 1)],
                points[2 * (count - 1) + 1],
            )
        }
    }

    /// The pixels after the first `count` triples of `points` were filled
    /// as triangles, in order.
    pub open spec fn with_polygons(
        &self,
        pixels: Seq<RGB>,
        points: Seq<(i32, i32)>,
        count: nat,
    ) -> Seq<RGB>
        decreases count,
    {
        if count == 0 {
            pixels
        } else {
            self.with_triangle(
                self.with_polygons(pixels, points, (count - 1) as nat),
                points[3 * (count - 1)],
                points[3 * (count - 1) + 1],
                points[3 * (count - 1) + 2],
            )
        }
    }

    /// What a canvas draws depends on its grid and its foreground colour
    /// alone.
    proof fn lemma_same_frame_draws(&self, other: &PPMImg, pixels: Seq<RGB>)
        requires
            self.same_frame(other),
        ensures
            forall|p: (i32, i32), q: (i32, i32)| #[trigger]
                self.with_line(pixels, p, q) == other.with_line(pixels, p, q),
            forall|a: (i32, i32), b: (i32, i32), c: (i32, i32)| #[trigger]
                self.with_triangle(pixels, a, b, c) == other.with_triangle(pixels, a, b, c),
    {
        assert forall|p: (i32, i32), q: (i32, i32)| #[trigger]
            self.with_line(pixels, p, q) == other.with_line(pixels, p, q) by {
            self.lemma_same_frame_stamps(
                other,
                pixels,
                p.0 as int,
                p.1 as int,
                q.0 as int,
                q.1 as int,
                line_steps(p.0 as int, p.1 as int, q.0 as int, q.1 as int) + 1,
            );
        }
        assert forall|a: (i32, i32), b: (i32, i32), c: (i32, i32)| #[trigger]
            self.with_triangle(pixels, a, b, c) == other.with_triangle(pixels, a, b, c) by {
            let (ga, gb, gc) = (
                (a.0 as int, a.1 as int),
                (b.0 as int, b.1 as int),
                (c.0 as int, c.1 as int),
            );
            assert forall|i: int| self.in_filled(ga, gb, gc, i) == other.in_filled(ga, gb, gc, i) by {
                if self.in_filled(ga, gb, gc, i) {
                    let (x, y) = choose|x: int, y: int| #[trigger]
                        in_triangle(ga, gb, gc, (x, y)) && self.pixel_index(x, y) == Some(i);
                    assert(in_triangle(ga, gb, gc, (x, y)) && other.pixel_index(x, y) == Some(i));
                }
                if other.in_filled(ga, gb, gc, i) {
                    let (x, y) = choose|x: int, y: int| #[trigger]
                        in_triangle(ga, gb, gc, (x, y)) && other.pixel_index(x, y) == Some(i);
                    assert(in_triangle(ga, gb, gc, (x, y)) && self.pixel_index(x, y) == Some(i));
                }
            }
            assert(self.with_triangle(pixels, a, b, c) =~= other.with_triangle(pixels, a, b, c));
        }
    }

    /// Stamping depends on the grid and the foreground colour alone.
    proof fn lemma_same_frame_stamps(
        &self,
        other: &PPMImg,
        pixels: Seq<RGB>,
        x0: int,
        y0: int,
        x1: int,
        y1: int,
        count: nat,
    )
        requires
            self.same_frame(other),
        ensures
            self.stamped(pixels, x0, y0, x1, y1, count) == other.stamped(
                pixels,
                x0,
                y0,
                x1,
                y1,
                count,
            ),
        decreases count,
    {
        if count > 0 {
            self.lemma_same_frame_stamps(other, pixels, x0, y0, x1, y1, (count - 1) as nat);
        }
    }

    /// Draws each pair of points as a segment, in order, in the
    /// foreground colour.
    pub fn render_edge_matrix(&mut self, points: &Vec<(i32, i32)>)
        requires
            old(self).wf(),
            points@.len() % 2 == 0,
        ensures
            final(self).same_frame(old(self)),
            final(self).data@ == old(self).with_edges(old(self).data@, points@, points@.len() / 2),
    {
        let n: usize = points.len();
        let pairs: usize = n / 2;
        let mut k: usize = 0;
        while k < pairs
            invariant
                k <= pairs,
                n == points@.len(),
                n == 2 * pairs,
                self.wf(),
                self.same_frame(old(self)),
                self.data@ == old(self).with_edges(old(self).data@, points@, k as nat),
            decreases pairs - k,
        {
            let ghost before = *self;
            proof {
                before.lemma_same_frame_draws(old(self), before.data@);
            }
            let p = points[2 * k];
            let q = points[2 * k + 1];
            self.draw_line(p.0, p.1, q.0, q.1);
            assert(self.data@ == before.with_line(before.data@, p, q));
            k = k + 1;
        }
    }

    /// Fills each triple of points as a triangle, in order, in the
    /// foreground colour.
    pub fn render_polygon_matrix(&mut self, points: &Vec<(i32, i32)>)
        requires
            old(self).wf(),
            points@.len() % 3 == 0,
        ensures
            final(self).same_frame(old(self)),
            final(self).data@ == old(self).with_polygons(
                old(self).data@,
                points@,
                points@.len() / 3,
            ),
    {
        let n: usize = points.len();
        let triples: usize = n / 3;
        let mut k: usize = 0;
        while k < triples
            invariant
                k <= triples,
                n == points@.len(),
                n == 3 * triples,
                self.wf(),
                self.same_frame(old(self)),
                self.data@ == old(self).with_polygons(old(self).data@, points@, k as nat),
            decreases triples - k,
        {
            proof {
                self.lemma_same_frame_draws(old(self), self.data@);
            }
            let a = points[3 * k];
            let b = points[3 * k + 1];
            let c = points[3 * k + 2];
            self.fill_triangle(a, b, c);
            k = k + 1;
        }
    }
}

} // verus!
