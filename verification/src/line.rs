use vstd::prelude::*;
use vstd::arithmetic::div_mod::lemma_fundamental_div_mod;
use vstd::arithmetic::div_mod::lemma_fundamental_div_mod_converse;
use vstd::arithmetic::div_mod::lemma_mod_bound;
use crate::color::Color;
use crate::framebuffer::Framebuffer;
use crate::framebuffer::FramebufferView;
use crate::point::Point;

verus! {

/// The distance between two coordinates.
pub open spec fn span(from: int, to: int) -> int {
    if from <= to {
        to - from
    } else {
        from - to
    }
}

/// The coordinate `by` steps away from `from`, on the side where `to` lies.
pub open spec fn advance(from: int, to: int, by: int) -> int {
    if from < to {
        from + by
    } else {
        from - by
    }
}

/// `minor * k / major`, rounded to the nearest integer, a half rounded up:
/// how far a line has moved along its shorter axis after `k` steps along its
/// longer one.
pub open spec fn rounded_share(minor: int, major: int, k: int) -> int {
    if major == 0 {
        0
    } else {
        (2 * minor * k + major) / (2 * major)
    }
}

/// The number of steps from the first pixel of a line to its last: the
/// longer of its two extents.
pub open spec fn line_steps(start: Point, end: Point) -> int {
    let dx = span(start.x as int, end.x as int);
    let dy = span(start.y as int, end.y as int);
    if dx >= dy {
        dx
    } else {
        dy
    }
}

/// The pixel that a line from `start` to `end` reaches after `k` steps.
///
/// Each step moves by one along the longer axis; the position along the
/// shorter axis is the ideal line's, rounded to the nearest pixel. Step 0 is
/// `start` and step `line_steps(start, end)` is `end`.
pub open spec fn line_point(start: Point, end: Point, k: int) -> (int, int) {
    let dx = span(start.x as int, end.x as int);
    let dy = span(start.y as int, end.y as int);
    if dx >= dy {
        (
            advance(start.x as int, end.x as int, k),
            advance(start.y as int, end.y as int, rounded_share(dy, dx, k)),
        )
    } else {
        (
            advance(start.x as int, end.x as int, rounded_share(dx, dy, k)),
            advance(start.y as int, end.y as int, k),
        )
    }
}

/// Whether `(x, y)` is one of the first `count` pixels of the line.
pub open spec fn on_line_prefix(start: Point, end: Point, count: int, x: int, y: int) -> bool {
    exists|k: int| 0 <= k < count && #[trigger] line_point(start, end, k) == (x, y)
}

/// Whether `(x, y)` is a pixel of the line from `start` to `end`.
pub open spec fn on_line(start: Point, end: Point, x: int, y: int) -> bool {
    on_line_prefix(start, end, line_steps(start, end) + 1, x, y)
}

/// A quotient that lies between two consecutive multiples of the divisor is
/// what rounding gives.
proof fn lemma_rounded_share(minor: int, major: int, k: int, q: int)
    requires
        major > 0,
        2 * (major * q) <= 2 * (minor * k) + major < 2 * (major * q) + 2 * major,
    ensures
        rounded_share(minor, major, k) == q,
{
    let n = 2 * minor * k + major;
    let d = 2 * major;
    let r = n - 2 * (major * q);
    assert(2 * minor * k == 2 * (minor * k)) by (nonlinear_arith);
    assert(q * d == 2 * (major * q)) by (nonlinear_arith)
        requires
            d == 2 * major,
    ;
    lemma_fundamental_div_mod_converse(n, d, q, r);
}

/// After all the steps along the longer axis, the shorter one is used up too.
proof fn lemma_share_at_end(minor: int, major: int, q: int)
    requires
        major > 0,
        0 <= minor,
        2 * (major * q) <= 2 * (minor * major) + major < 2 * (major * q) + 2 * major,
    ensures
        q == minor,
{
    assert(q == minor) by (nonlinear_arith)
        requires
            major > 0,
            2 * (major * q) <= 2 * (minor * major) + major < 2 * (major * q) + 2 * major,
    {
        if q > minor {
            assert(major * q >= major * (minor + 1));
            assert(major * (minor + 1) == minor * major + major);
        } else if q < minor {
            assert(major * (q + 1) <= major * minor);
            assert(major * (q + 1) == major * q + major);
            assert(major * minor == minor * major);
        }
    }
}

/// The shorter axis never runs ahead of the longer one.
proof fn lemma_share_bounded(minor: int, major: int, k: int, q: int)
    requires
        major > 0,
        0 <= minor,
        0 <= k <= major,
        2 * (major * q) <= 2 * (minor * k) + major,
    ensures
        q <= minor,
{
    assert(q <= minor) by (nonlinear_arith)
        requires
            major > 0,
            0 <= minor,
            0 <= k <= major,
            2 * (major * q) <= 2 * (minor * k) + major,
    {
        if q > minor {
            assert(major * q >= major * (minor + 1));
            assert(major * (minor + 1) == minor * major + major);
            assert(minor * k <= minor * major);
        }
    }
}

/// A line begins at `start` and ends at `end`.
pub proof fn lemma_line_ends(start: Point, end: Point)
    ensures
        line_point(start, end, 0) == (start.x as int, start.y as int),
        line_point(start, end, line_steps(start, end)) == (end.x as int, end.y as int),
{
    let dx = span(start.x as int, end.x as int);
    let dy = span(start.y as int, end.y as int);
    let major = if dx >= dy { dx } else { dy };
    let minor = if dx >= dy { dy } else { dx };
    if major > 0 {
        assert(major * 0 == 0 && minor * 0 == 0);
        lemma_rounded_share(minor, major, 0, 0);
        assert(major * minor == minor * major) by (nonlinear_arith);
        lemma_rounded_share(minor, major, major, minor);
    }
}

/// A line whose two extents are equal runs along the diagonal: every step
/// moves by one pixel along both axes.
pub proof fn lemma_line_diagonal(start: Point, end: Point, k: int)
    requires
        span(start.x as int, end.x as int) == span(start.y as int, end.y as int),
        0 <= k <= line_steps(start, end),
    ensures
        line_point(start, end, k) == (
            advance(start.x as int, end.x as int, k),
            advance(start.y as int, end.y as int, k),
        ),
{
    let major = span(start.x as int, end.x as int);
    if major > 0 {
        lemma_rounded_share(major, major, k, k);
    }
}

/// One more step along the longer axis moves the line by at most one along
/// the shorter.
proof fn lemma_share_grows_slowly(minor: int, major: int, k: int)
    requires
        0 <= minor <= major,
        major > 0,
        0 <= k,
    ensures
        rounded_share(minor, major, k) <= rounded_share(minor, major, k + 1) <= rounded_share(
            minor,
            major,
            k,
        ) + 1,
{
    let n = 2 * minor * k + major;
    let d = 2 * major;
    let q = n / d;
    lemma_fundamental_div_mod(n, d);
    lemma_mod_bound(n, d);
    assert(2 * minor * (k + 1) == 2 * minor * k + 2 * minor) by (nonlinear_arith);
    assert(2 * minor * k == 2 * (minor * k)) by (nonlinear_arith);
    assert(2 * minor * (k + 1) == 2 * (minor * (k + 1))) by (nonlinear_arith);
    assert(d * q == 2 * (major * q)) by (nonlinear_arith)
        requires
            d == 2 * major,
    ;
    assert(major * (q + 1) == major * q + major) by (nonlinear_arith);
    if n + 2 * minor < d * q + d {
        lemma_rounded_share(minor, major, k + 1, q);
    } else {
        lemma_rounded_share(minor, major, k + 1, q + 1);
    }
}

/// Consecutive pixels of a line touch: each step moves by one along the
/// longer axis and by at most one along the shorter, away from `start`.
pub proof fn lemma_line_steps_touch(start: Point, end: Point, k: int)
    requires
        0 <= k < line_steps(start, end),
    ensures
        ({
            let here = line_point(start, end, k);
            let next = line_point(start, end, k + 1);
            &&& here != next
            &&& -1 <= next.0 - here.0 <= 1
            &&& -1 <= next.1 - here.1 <= 1
        }),
{
    let dx = span(start.x as int, end.x as int);
    let dy = span(start.y as int, end.y as int);
    if dx >= dy {
        lemma_share_grows_slowly(dy, dx, k);
    } else {
        lemma_share_grows_slowly(dx, dy, k);
    }
}

/// Painting no pixel changes nothing.
proof fn lemma_paint_none(view: FramebufferView, start: Point, end: Point, color: Color)
    requires
        view.wf(),
    ensures
        view.painted(|x: int, y: int| on_line_prefix(start, end, 0, x, y), color) == view,
{
    let painted = view.painted(|x: int, y: int| on_line_prefix(start, end, 0, x, y), color);
    assert forall|p: (int, int)| #[trigger] view.pixels.dom().contains(p) implies painted.pixels[p]
        == view.pixels[p] by {
        assert(!on_line_prefix(start, end, 0, p.0, p.1));
    }
    assert forall|p: (int, int)| #[trigger]
        painted.pixels.dom().contains(p) <==> view.pixels.dom().contains(p) by {
    }
    assert(painted.pixels =~= view.pixels);
}

/// Setting the pixel of step `k` extends what is painted by one step.
proof fn lemma_paint_next(view: FramebufferView, start: Point, end: Point, k: int, color: Color)
    requires
        view.wf(),
        0 <= k,
    ensures
        view.painted(|x: int, y: int| on_line_prefix(start, end, k, x, y), color).with_color(
            line_point(start, end, k).0,
            line_point(start, end, k).1,
            color,
        ) == view.painted(|x: int, y: int| on_line_prefix(start, end, k + 1, x, y), color),
{
    let here = line_point(start, end, k);
    let so_far = view.painted(|x: int, y: int| on_line_prefix(start, end, k, x, y), color);
    let stepped = so_far.with_color(here.0, here.1, color);
    let goal = view.painted(|x: int, y: int| on_line_prefix(start, end, k + 1, x, y), color);
    assert forall|p: (int, int)| #[trigger] goal.pixels.dom().contains(p) implies stepped.pixels[p]
        == goal.pixels[p] by {
        if on_line_prefix(start, end, k, p.0, p.1) {
            let w = choose|w: int| 0 <= w < k && #[trigger] line_point(start, end, w) == p;
            assert(0 <= w < k + 1 && line_point(start, end, w) == p);
        }
        if p == here {
            assert(0 <= k < k + 1 && line_point(start, end, k) == p);
        }
        if on_line_prefix(start, end, k + 1, p.0, p.1) {
            let w = choose|w: int| 0 <= w < k + 1 && #[trigger] line_point(start, end, w) == p;
            if w < k {
                assert(0 <= w < k && line_point(start, end, w) == p);
            }
        }
    }
    assert forall|p: (int, int)| #[trigger]
        goal.pixels.dom().contains(p) <==> stepped.pixels.dom().contains(p) by {
    }
    assert(stepped.pixels =~= goal.pixels);
}

/// Draws the line from `start` to `end` in the draw colour, both ends
/// included, whatever the depth of the pixels it crosses.
///
/// The pixels are those of Bresenham's algorithm: one for each step along the
/// longer axis, at the nearest position along the shorter one. Pixels outside
/// the buffer are left out.
pub fn line(framebuffer: &mut Framebuffer, start: Point, end: Point)
    ensures
        final(framebuffer)@.wf(),
        final(framebuffer)@ == old(framebuffer)@.painted(
            |x: int, y: int| on_line(start, end, x, y),
            old(framebuffer)@.current,
        ),
{
    proof {
        use_type_invariant(&*framebuffer);
        framebuffer.lemma_view_wf();
    }
    let ghost before = framebuffer@;
    let ghost color = before.current;
    let mut x0: i64 = start.x as i64;
    let mut y0: i64 = start.y as i64;
    let x1: i64 = end.x as i64;
    let y1: i64 = end.y as i64;
    let dx: i64 = if x1 >= x0 { x1 - x0 } else { x0 - x1 };
    let dy: i64 = if y1 >= y0 { y0 - y1 } else { y1 - y0 };
    let sx: i64 = if x0 < x1 { 1 } else { -1 };
    let sy: i64 = if y0 < y1 { 1 } else { -1 };
    let mut err: i64 = dx + dy;
    let ghost steep = dx < -dy;
    let ghost major: int = if steep { -dy as int } else { dx as int };
    let ghost minor: int = if steep { dx as int } else { -dy as int };
    let ghost mut k: int = 0;
    let ghost mut q: int = 0;
    let ghost mut minor_k: int = 0;
    let ghost mut major_q: int = 0;
    proof {
        lemma_paint_none(before, start, end, color);
        assert(major == line_steps(start, end));
    }
    loop
        invariant_except_break
            0 <= k <= major,
            0 <= q <= minor,
            minor_k == minor * k,
            major_q == major * q,
            major > 0 ==> 2 * major_q <= 2 * minor_k + major < 2 * major_q + 2 * major,
            major == 0 ==> k == 0 && q == 0,
            !steep ==> x0 == advance(start.x as int, end.x as int, k) && y0 == advance(
                start.y as int,
                end.y as int,
                q,
            ) && err == major + major_q - minor - minor_k,
            steep ==> x0 == advance(start.x as int, end.x as int, q) && y0 == advance(
                start.y as int,
                end.y as int,
                k,
            ) && err == minor + minor_k - major - major_q,
            framebuffer@.wf(),
            framebuffer@ == before.painted(
                |x: int, y: int| on_line_prefix(start, end, k, x, y),
                color,
            ),
        invariant
            before.wf(),
            color == before.current,
            x1 == end.x,
            y1 == end.y,
            dx == span(start.x as int, end.x as int),
            dy == -span(start.y as int, end.y as int),
            sx == (if start.x < end.x { 1int } else { -1int }),
            sy == (if start.y < end.y { 1int } else { -1int }),
            steep == (dx < -dy),
            major == (if steep { -dy as int } else { dx as int }),
            minor == (if steep { dx as int } else { -dy as int }),
            major == line_steps(start, end),
        ensures
            framebuffer@.wf(),
            framebuffer@ == before.painted(|x: int, y: int| on_line(start, end, x, y), color),
        decreases major - k,
    {
        proof {
            if major > 0 {
                lemma_rounded_share(minor, major, k, q);
            }
            assert(line_point(start, end, k) == (x0 as int, y0 as int));
            lemma_paint_next(before, start, end, k, color);
        }
        framebuffer.set_pixel(x0 as i32, y0 as i32);
        if x0 == x1 && y0 == y1 {
            proof {
                assert(k == major);
                assert(before.painted(
                    |x: int, y: int| on_line_prefix(start, end, k + 1, x, y),
                    color,
                ).pixels =~= before.painted(
                    |x: int, y: int| on_line(start, end, x, y),
                    color,
                ).pixels);
            }
            break;
        }
        proof {
            if k == major {
                if major > 0 {
                    lemma_share_at_end(minor, major, q);
                }
            }
            assert(k < major);
            assert(minor * (k + 1) == minor * k + minor) by (nonlinear_arith);
            assert(major * (q + 1) == major * q + major) by (nonlinear_arith);
            if 2 * (major_q + major) <= 2 * (minor_k + minor) + major {
                lemma_share_bounded(minor, major, k + 1, q + 1);
            }
        }
        let e2: i64 = 2 * err;
        if e2 >= dy {
            err = err + dy;
            x0 = x0 + sx;
        }
        if e2 <= dx {
            err = err + dx;
            y0 = y0 + sy;
        }
        proof {
            if 2 * (major_q + major) <= 2 * (minor_k + minor) + major {
                q = q + 1;
                major_q = major_q + major;
            }
            k = k + 1;
            minor_k = minor_k + minor;
        }
    }
}

/// Whether `(x, y)` is a pixel of the edge that leaves corner `i`: the line
/// from that corner to the next one, the last corner being joined to the
/// first.
pub open spec fn on_edge(points: Seq<Point>, i: int, x: int, y: int) -> bool {
    on_line(points[i], points[(i + 1) % (points.len() as int)], x, y)
}

/// Whether `(x, y)` is a pixel of one of the first `count` edges.
pub open spec fn on_edges(points: Seq<Point>, count: int, x: int, y: int) -> bool {
    exists|i: int| 0 <= i < count && #[trigger] on_edge(points, i, x, y)
}

/// Whether `(x, y)` is a pixel of the outline through `points`.
pub open spec fn on_polygon(points: Seq<Point>, x: int, y: int) -> bool {
    on_edges(points, points.len() as int, x, y)
}

/// Drawing edge `i` on top of the edges before it gives the edges up to it.
proof fn lemma_paint_edge(view: FramebufferView, points: Seq<Point>, i: int, color: Color)
    requires
        view.wf(),
        0 <= i,
    ensures
        view.painted(|x: int, y: int| on_edges(points, i, x, y), color).painted(
            |x: int, y: int| on_line(points[i], points[(i + 1) % (points.len() as int)], x, y),
            color,
        ) == view.painted(|x: int, y: int| on_edges(points, i + 1, x, y), color),
{
    let so_far = view.painted(|x: int, y: int| on_edges(points, i, x, y), color);
    let stepped = so_far.painted(
        |x: int, y: int| on_line(points[i], points[(i + 1) % (points.len() as int)], x, y),
        color,
    );
    let goal = view.painted(|x: int, y: int| on_edges(points, i + 1, x, y), color);
    assert forall|p: (int, int)| #[trigger] goal.pixels.dom().contains(p) implies stepped.pixels[p]
        == goal.pixels[p] by {
        if on_edges(points, i, p.0, p.1) {
            let w = choose|w: int| 0 <= w < i && #[trigger] on_edge(points, w, p.0, p.1);
            assert(0 <= w < i + 1 && on_edge(points, w, p.0, p.1));
        }
        if on_edge(points, i, p.0, p.1) {
            assert(0 <= i < i + 1 && on_edge(points, i, p.0, p.1));
        }
        if on_edges(points, i + 1, p.0, p.1) {
            let w = choose|w: int| 0 <= w < i + 1 && #[trigger] on_edge(points, w, p.0, p.1);
            if w < i {
                assert(0 <= w < i && on_edge(points, w, p.0, p.1));
            }
        }
    }
    assert forall|p: (int, int)| #[trigger]
        goal.pixels.dom().contains(p) <==> stepped.pixels.dom().contains(p) by {
    }
    assert(stepped.pixels =~= goal.pixels);
}

/// Draws the closed outline through `points` in the draw colour: a line from
/// each point to the next, and one from the last back to the first. Fewer
/// than two points draw nothing.
pub fn draw_polygon(framebuffer: &mut Framebuffer, points: &[Point])
    ensures
        final(framebuffer)@.wf(),
        final(framebuffer)@ == if points@.len() < 2 {
            old(framebuffer)@
        } else {
            old(framebuffer)@.painted(
                |x: int, y: int| on_polygon(points@, x, y),
                old(framebuffer)@.current,
            )
        },
{
    proof {
        use_type_invariant(&*framebuffer);
        framebuffer.lemma_view_wf();
    }
    if points.len() < 2 {
        return;
    }
    let ghost before = framebuffer@;
    let ghost color = before.current;
    proof {
        let none = before.painted(|x: int, y: int| on_edges(points@, 0, x, y), color);
        assert forall|p: (int, int)| #[trigger] before.pixels.dom().contains(p) implies none.pixels[p]
            == before.pixels[p] by {
            assert(!on_edges(points@, 0, p.0, p.1));
        }
        assert forall|p: (int, int)| #[trigger]
            none.pixels.dom().contains(p) <==> before.pixels.dom().contains(p) by {
        }
        assert(none.pixels =~= before.pixels);
    }
    let mut i: usize = 0;
    while i < points.len()
        invariant
            i <= points.len(),
            points@.len() >= 2,
            before.wf(),
            color == before.current,
            framebuffer@.wf(),
            framebuffer@ == before.painted(|x: int, y: int| on_edges(points@, i as int, x, y), color),
        decreases points.len() - i,
    {
        let start = points[i];
        let end = points[(i + 1) % points.len()];
        proof {
            lemma_paint_edge(before, points@, i as int, color);
        }
        line(framebuffer, start, end);
        i = i + 1;
    }
    proof {
        assert(before.painted(
            |x: int, y: int| on_edges(points@, points@.len() as int, x, y),
            color,
        ).pixels =~= before.painted(|x: int, y: int| on_polygon(points@, x, y), color).pixels);
    }
}

} // verus!
