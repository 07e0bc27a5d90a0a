use vstd::prelude::*;
use crate::color::Color;
use crate::depth::Depth;
use crate::framebuffer::Framebuffer;
use crate::framebuffer::FramebufferView;
use crate::framebuffer::Pixel;
use crate::point::Point;
use crate::visibility::resolve;

verus! {

/// What the surface of a triangle looks like through one pixel: how far away
/// it is, and whatever the shader needs to colour it.
pub struct Sample<T> {
    pub depth: Depth,
    pub surface: T,
}

/// The smallest of three coordinates.
pub open spec fn min3(a: int, b: int, c: int) -> int {
    if a <= b && a <= c {
        a
    } else if b <= c {
        b
    } else {
        c
    }
}

/// The largest of three coordinates.
pub open spec fn max3(a: int, b: int, c: int) -> int {
    if a >= b && a >= c {
        a
    } else if b >= c {
        b
    } else {
        c
    }
}

/// Whether `(x, y)` lies in the bounding box of the three corners.
pub open spec fn in_bounding_box(a: Point, b: Point, c: Point, x: int, y: int) -> bool {
    &&& min3(a.x as int, b.x as int, c.x as int) <= x <= max3(
        a.x as int,
        b.x as int,
        c.x as int,
    )
    &&& min3(a.y as int, b.y as int, c.y as int) <= y <= max3(
        a.y as int,
        b.y as int,
        c.y as int,
    )
}

/// How one pixel comes out of a triangle, given what the coverage test said of
/// it. A sample is depth-tested against the pixel as a fragment at the
/// sample's depth; where it is strictly nearer, that fragment's colour is one
/// that the shader gave for the sample's surface. Without a sample the pixel
/// stays as it was.
pub open spec fn resolved<T, S: Fn(T) -> Color>(
    before: Pixel,
    sample: Option<Sample<T>>,
    shade: S,
    after: Pixel,
) -> bool {
    match sample {
        Some(s) => {
            &&& after == resolve(before, Pixel { color: after.color, depth: s.depth })
            &&& s.depth.lt(before.depth) ==> call_ensures(shade, (s.surface,), after.color)
        },
        None => after == before,
    }
}

/// How the pixel at `(x, y)` comes out of a triangle: as [`resolved`] has it,
/// for some answer that `cover` may give for that pixel.
pub open spec fn drawn<T, C: Fn(i32, i32) -> Option<Sample<T>>, S: Fn(T) -> Color>(
    cover: C,
    shade: S,
    x: int,
    y: int,
    before: Pixel,
    after: Pixel,
) -> bool {
    exists|sample: Option<Sample<T>>|
        #![trigger call_ensures(cover, (x as i32, y as i32), sample)]
        call_ensures(cover, (x as i32, y as i32), sample) && resolved(before, sample, shade, after)
}

/// A triangle acts on each pixel as one depth-tested write.
///
/// Whatever the coverage test and the shader answer, the pixel comes out as
/// it would from resolving it against a single fragment; so what holds of
/// sequences of such writes holds of triangles submitted one after the other.
pub proof fn lemma_drawn_resolves<T, C: Fn(i32, i32) -> Option<Sample<T>>, S: Fn(T) -> Color>(
    cover: C,
    shade: S,
    x: int,
    y: int,
    before: Pixel,
    after: Pixel,
)
    requires
        drawn(cover, shade, x, y, before, after),
    ensures
        exists|fragment: Pixel| after == #[trigger] resolve(before, fragment),
{
    let sample = choose|sample: Option<Sample<T>>|
        #![trigger call_ensures(cover, (x as i32, y as i32), sample)]
        call_ensures(cover, (x as i32, y as i32), sample) && resolved(before, sample, shade, after);
    match sample {
        Some(s) => {
            assert(after == resolve(before, Pixel { color: after.color, depth: s.depth }));
        },
        None => {
            assert(after == resolve(before, before));
        },
    }
}

/// The part of the buffer that a traversal visits, and how far it has come:
/// columns `first_column` to `last_column` of the rows from `first_row` on,
/// of which the rows before `row`, and the columns before `column` in `row`,
/// are done.
struct Progress {
    first_column: int,
    last_column: int,
    first_row: int,
    row: int,
    column: int,
}

impl Progress {
    /// Whether the traversal has passed the pixel at `(px, py)`.
    spec fn passed(self, px: int, py: int) -> bool {
        &&& self.first_column <= px <= self.last_column
        &&& (self.first_row <= py < self.row) || (py == self.row && px < self.column)
    }
}

/// What the traversal has established of the pixel at `(px, py)`: a pixel
/// that it has passed came out of the sample recorded for it, and any other
/// pixel is as it was.
spec fn settled<T, C: Fn(i32, i32) -> Option<Sample<T>>, S: Fn(T) -> Color>(
    before: FramebufferView,
    now: FramebufferView,
    seen: Map<(int, int), Option<Sample<T>>>,
    cover: C,
    shade: S,
    progress: Progress,
    px: int,
    py: int,
) -> bool {
    if progress.passed(px, py) {
        &&& seen.dom().contains((px, py))
        &&& call_ensures(cover, (px as i32, py as i32), seen[(px, py)])
        &&& resolved(before.pixels[(px, py)], seen[(px, py)], shade, now.pixels[(px, py)])
    } else {
        now.pixels[(px, py)] == before.pixels[(px, py)]
    }
}

fn smallest(a: i32, b: i32, c: i32) -> (m: i32)
    ensures
        m == min3(a as int, b as int, c as int),
{
    if a <= b && a <= c {
        a
    } else if b <= c {
        b
    } else {
        c
    }
}

fn largest(a: i32, b: i32, c: i32) -> (m: i32)
    ensures
        m == max3(a as int, b as int, c as int),
{
    if a >= b && a >= c {
        a
    } else if b >= c {
        b
    } else {
        c
    }
}

/// Fills a triangle into the buffer, nearest surface first.
///
/// `a`, `b` and `c` are the pixels that the three projected corners fall
/// in. Every pixel of their bounding box that lies in the buffer is visited,
/// row by row. `cover` says whether the triangle covers the pixel's centre
/// and, if so, what is seen there; the pixel is then depth-tested, and only a
/// sample that wins is handed to `shade` and written. Triangles may therefore
/// be submitted in any order.
///
/// Pixels outside the bounding box, the draw colour and the background are
/// never touched, and a triangle that covers no pixel of the buffer leaves
/// the whole buffer as it was.
#[verifier::loop_isolation(false)]
pub fn draw_filled_triangle<T, C, S>(
    framebuffer: &mut Framebuffer,
    a: Point,
    b: Point,
    c: Point,
    cover: C,
    shade: S,
) where C: Fn(i32, i32) -> Option<Sample<T>>, S: Fn(T) -> Color
    requires
        forall|x: i32, y: i32|
            old(framebuffer)@.in_bounds(x as int, y as int) && in_bounding_box(
                a,
                b,
                c,
                x as int,
                y as int,
            ) ==> #[trigger] call_requires(cover, (x, y)),
        forall|x: i32, y: i32, s: Sample<T>|
            old(framebuffer)@.in_bounds(x as int, y as int) && in_bounding_box(
                a,
                b,
                c,
                x as int,
                y as int,
            ) && #[trigger] call_ensures(cover, (x, y), Some(s)) ==> call_requires(
                shade,
                (s.surface,),
            ),
    ensures
        final(framebuffer)@.wf(),
        final(framebuffer)@.same_frame(old(framebuffer)@),
        forall|x: int, y: int|
            old(framebuffer)@.in_bounds(x, y) && !in_bounding_box(a, b, c, x, y) ==> (
            #[trigger] final(framebuffer)@.pixels[(x, y)]) == old(framebuffer)@.pixels[(x, y)],
        forall|x: int, y: int|
            #![trigger final(framebuffer)@.pixels[(x, y)]]
            old(framebuffer)@.in_bounds(x, y) && in_bounding_box(a, b, c, x, y) ==> drawn(
                cover,
                shade,
                x,
                y,
                old(framebuffer)@.pixels[(x, y)],
                final(framebuffer)@.pixels[(x, y)],
            ),
        (forall|x: i32, y: i32, s: Sample<T>|
            old(framebuffer)@.in_bounds(x as int, y as int) && in_bounding_box(
                a,
                b,
                c,
                x as int,
                y as int,
            ) ==> !#[trigger] call_ensures(cover, (x, y), Some(s))) ==> final(framebuffer)@ == old(
            framebuffer,
        )@,
{
    proof {
        use_type_invariant(&*framebuffer);
        framebuffer.lemma_view_wf();
    }
    let width: u32 = framebuffer.width();
    let height: u32 = framebuffer.height();
    let lowest_x: i32 = smallest(a.x, b.x, c.x);
    let lowest_y: i32 = smallest(a.y, b.y, c.y);
    let highest_x: i32 = largest(a.x, b.x, c.x);
    let highest_y: i32 = largest(a.y, b.y, c.y);
    let min_x: i32 = if lowest_x < 0 { 0 } else { lowest_x };
    let min_y: i32 = if lowest_y < 0 { 0 } else { lowest_y };
    let max_x: i32 = if highest_x > width as i32 - 1 { width as i32 - 1 } else { highest_x };
    let max_y: i32 = if highest_y > height as i32 - 1 { height as i32 - 1 } else { highest_y };
    let ghost before = framebuffer@;
    let ghost start = Progress {
        first_column: min_x as int,
        last_column: max_x as int,
        first_row: min_y as int,
        row: min_y as int,
        column: min_x as int,
    };
    let ghost mut seen: Map<(int, int), Option<Sample<T>>> = Map::empty();
    let mut y: i32 = min_y;
    while y <= max_y
        invariant
            min_y <= y,
            y <= max_y + 1 || y == min_y,
            framebuffer@.wf(),
            framebuffer@.same_frame(before),
            forall|px: int, py: int|
                before.in_bounds(px, py) ==> #[trigger] settled(
                    before,
                    framebuffer@,
                    seen,
                    cover,
                    shade,
                    Progress { row: y as int, ..start },
                    px,
                    py,
                ),
        decreases max_y - y + 1,
    {
        let mut x: i32 = min_x;
        while x <= max_x
            invariant
                min_x <= x,
                min_y <= y <= max_y,
                framebuffer@.wf(),
                framebuffer@.same_frame(before),
                forall|px: int, py: int|
                    before.in_bounds(px, py) ==> #[trigger] settled(
                        before,
                        framebuffer@,
                        seen,
                        cover,
                        shade,
                        Progress { row: y as int, column: x as int, ..start },
                        px,
                        py,
                    ),
            decreases max_x - x + 1,
        {
            let ghost here = Progress { row: y as int, column: x as int, ..start };
            let ghost earlier = framebuffer@;
            let ghost earlier_seen = seen;
            let sample = cover(x, y);
            proof {
                seen = seen.insert((x as int, y as int), sample);
            }
            if let Some(Sample { depth, surface }) = sample {
                if let Some(pixel) = framebuffer.pixel(x, y) {
                    if depth.lt(pixel.depth) {
                        let color = shade(surface);
                        framebuffer.set_fragment(x, y, Pixel { color, depth });
                    }
                }
            }
            proof {
                assert forall|px: int, py: int| before.in_bounds(px, py) implies #[trigger] settled(
                    before,
                    framebuffer@,
                    seen,
                    cover,
                    shade,
                    Progress { column: x + 1, ..here },
                    px,
                    py,
                ) by {
                    assert(settled(before, earlier, earlier_seen, cover, shade, here, px, py));
                }
            }
            x = x + 1;
        }
        proof {
            let here = Progress { row: y as int, column: x as int, ..start };
            assert forall|px: int, py: int| before.in_bounds(px, py) implies #[trigger] settled(
                before,
                framebuffer@,
                seen,
                cover,
                shade,
                Progress { row: y + 1, ..start },
                px,
                py,
            ) by {
                assert(settled(before, framebuffer@, seen, cover, shade, here, px, py));
            }
        }
        y = y + 1;
    }
    proof {
        let end = Progress { row: y as int, ..start };
        assert forall|x: int, y: int|
            #![trigger framebuffer@.pixels[(x, y)]]
            before.in_bounds(x, y) && in_bounding_box(a, b, c, x, y) implies drawn(
            cover,
            shade,
            x,
            y,
            before.pixels[(x, y)],
            framebuffer@.pixels[(x, y)],
        ) by {
            assert(settled(before, framebuffer@, seen, cover, shade, end, x, y));
            assert(call_ensures(cover, (x as i32, y as i32), seen[(x, y)]));
        }
        assert forall|x: int, y: int|
            before.in_bounds(x, y) && !in_bounding_box(a, b, c, x, y) implies (
        #[trigger] framebuffer@.pixels[(x, y)]) == before.pixels[(x, y)] by {
            assert(settled(before, framebuffer@, seen, cover, shade, end, x, y));
        }
        if forall|x: i32, y: i32, s: Sample<T>|
            before.in_bounds(x as int, y as int) && in_bounding_box(a, b, c, x as int, y as int)
                ==> !#[trigger] call_ensures(cover, (x, y), Some(s)) {
            assert forall|px: int, py: int| before.in_bounds(px, py) implies (
            #[trigger] framebuffer@.pixels[(px, py)]) == before.pixels[(px, py)] by {
                assert(settled(before, framebuffer@, seen, cover, shade, end, px, py));
                if end.passed(px, py) && seen[(px, py)] is Some {
                    let s = seen[(px, py)]->Some_0;
                    assert(seen[(px, py)] == Some(s));
                    assert(!call_ensures(cover, (px as i32, py as i32), Some(s)));
                }
            }
            framebuffer@.lemma_equal(before);
        }
    }
}

} // verus!
