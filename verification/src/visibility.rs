use vstd::prelude::*;
use crate::framebuffer::FramebufferView;
use crate::framebuffer::Pixel;

verus! {

/// What a pixel holds after `fragment` has been depth-tested against it: the
/// fragment where it is strictly nearer, the pixel otherwise.
pub open spec fn resolve(pixel: Pixel, fragment: Pixel) -> Pixel {
    if fragment.depth.lt(pixel.depth) {
        fragment
    } else {
        pixel
    }
}

/// What a pixel holds after the fragments have been depth-tested against it
/// one after the other, the first one first.
pub open spec fn resolve_all(pixel: Pixel, fragments: Seq<Pixel>) -> Pixel
    decreases fragments.len(),
{
    if fragments.len() == 0 {
        pixel
    } else {
        resolve(resolve_all(pixel, fragments.drop_last()), fragments.last())
    }
}

/// Whether `fragments[i]` is the one that is seen through a pixel that held
/// `pixel`: it is nearer than the pixel was, no fragment is nearer than it,
/// and no fragment before it is as near.
pub open spec fn wins(pixel: Pixel, fragments: Seq<Pixel>, i: int) -> bool {
    &&& 0 <= i < fragments.len()
    &&& fragments[i].depth.lt(pixel.depth)
    &&& forall|j: int| 0 <= j < fragments.len() ==> !(#[trigger] fragments[j]).depth.lt(fragments[i].depth)
    &&& forall|j: int|
        0 <= j < i ==> (#[trigger] fragments[j]).depth.is_nan() || fragments[j].depth.key()
            != fragments[i].depth.key()
}

/// Depth testing shows the nearest surface.
///
/// Of a pixel whose depth encodes a number, and of any fragments tested
/// against it in turn: the pixel stays as it was exactly if no fragment is
/// strictly nearer than it; otherwise it ends up as the fragment that
/// [`wins`], the first of the nearest ones. Either way the depth it ends
/// with encodes a number and is no farther than where it began.
pub proof fn lemma_nearest_wins(pixel: Pixel, fragments: Seq<Pixel>)
    requires
        !pixel.depth.is_nan(),
    ensures
        !resolve_all(pixel, fragments).depth.is_nan(),
        resolve_all(pixel, fragments).depth.key() <= pixel.depth.key(),
        (forall|j: int| 0 <= j < fragments.len() ==> !(#[trigger] fragments[j]).depth.lt(pixel.depth))
            ==> resolve_all(pixel, fragments) == pixel,
        (exists|j: int| 0 <= j < fragments.len() && (#[trigger] fragments[j]).depth.lt(pixel.depth))
            ==> exists|i: int| #[trigger]
            wins(pixel, fragments, i) && resolve_all(pixel, fragments) == fragments[i],
    decreases fragments.len(),
{
    if fragments.len() > 0 {
        let head = fragments.drop_last();
        let last = fragments.last();
        let n = head.len() as int;
        let mid = resolve_all(pixel, head);
        lemma_nearest_wins(pixel, head);
        assert forall|j: int| 0 <= j < n implies #[trigger] head[j] == fragments[j] by {
        }
        if exists|j: int| 0 <= j < fragments.len() && (#[trigger] fragments[j]).depth.lt(pixel.depth) {
            if exists|j: int| 0 <= j < head.len() && (#[trigger] head[j]).depth.lt(pixel.depth) {
                let i = choose|i: int| #[trigger]
                    wins(pixel, head, i) && resolve_all(pixel, head) == head[i];
                if last.depth.lt(mid.depth) {
                    assert forall|j: int| 0 <= j < fragments.len() implies !(
                    #[trigger] fragments[j]).depth.lt(last.depth) by {
                        if j < n {
                            assert(!head[j].depth.lt(head[i].depth));
                        }
                    }
                    assert forall|j: int| 0 <= j < n implies (#[trigger] fragments[j]).depth.is_nan()
                        || fragments[j].depth.key() != last.depth.key() by {
                        assert(!head[j].depth.lt(head[i].depth));
                    }
                    assert(wins(pixel, fragments, n));
                } else {
                    assert forall|j: int| 0 <= j < fragments.len() implies !(
                    #[trigger] fragments[j]).depth.lt(fragments[i].depth) by {
                        if j < n {
                            assert(!head[j].depth.lt(head[i].depth));
                        }
                    }
                    assert forall|j: int| 0 <= j < i implies (#[trigger] fragments[j]).depth.is_nan()
                        || fragments[j].depth.key() != fragments[i].depth.key() by {
                        assert(head[j].depth.is_nan() || head[j].depth.key() != head[i].depth.key());
                    }
                    assert(wins(pixel, fragments, i));
                }
            } else {
                assert(mid == pixel);
                let w = choose|j: int|
                    0 <= j < fragments.len() && (#[trigger] fragments[j]).depth.lt(pixel.depth);
                if w < n {
                    assert(head[w].depth.lt(pixel.depth));
                }
                assert(w == n);
                assert forall|j: int| 0 <= j < fragments.len() implies !(
                #[trigger] fragments[j]).depth.lt(last.depth) by {
                    if j < n {
                        assert(!head[j].depth.lt(pixel.depth));
                    }
                }
                assert forall|j: int| 0 <= j < n implies (#[trigger] fragments[j]).depth.is_nan()
                    || fragments[j].depth.key() != last.depth.key() by {
                    assert(!head[j].depth.lt(pixel.depth));
                }
                assert(wins(pixel, fragments, n));
            }
        } else {
            assert forall|j: int| 0 <= j < head.len() implies !(#[trigger] head[j]).depth.lt(
                pixel.depth,
            ) by {
                assert(!fragments[j].depth.lt(pixel.depth));
            }
            assert(!fragments[n].depth.lt(pixel.depth));
        }
    }
}

/// The buffer after the fragments have been written to `(x, y)` with the
/// depth test, one after the other, the first one first.
pub open spec fn with_fragments(
    view: FramebufferView,
    x: int,
    y: int,
    fragments: Seq<Pixel>,
) -> FramebufferView
    decreases fragments.len(),
{
    if fragments.len() == 0 {
        view
    } else {
        with_fragments(view, x, y, fragments.drop_last()).with_fragment(x, y, fragments.last())
    }
}

/// Depth-tested writes to one pixel resolve that pixel and touch no other.
///
/// After any sequence of such writes to a pixel of a well-formed buffer, the
/// pixel holds what [`resolve_all`] gives for it, every other pixel and both
/// colours of the buffer are as before, and the buffer is well formed.
pub proof fn lemma_writes_resolve(view: FramebufferView, x: int, y: int, fragments: Seq<Pixel>)
    requires
        view.wf(),
        view.in_bounds(x, y),
    ensures
        with_fragments(view, x, y, fragments).wf(),
        with_fragments(view, x, y, fragments) == (FramebufferView {
            pixels: view.pixels.insert((x, y), resolve_all(view.pixels[(x, y)], fragments)),
            ..view
        }),
    decreases fragments.len(),
{
    let goal = FramebufferView {
        pixels: view.pixels.insert((x, y), resolve_all(view.pixels[(x, y)], fragments)),
        ..view
    };
    assert(view.pixels.dom().contains((x, y)));
    if fragments.len() == 0 {
        assert(goal.pixels =~= view.pixels);
    } else {
        let head = fragments.drop_last();
        lemma_writes_resolve(view, x, y, head);
        lemma_nearest_wins(view.pixels[(x, y)], fragments);
        let mid = with_fragments(view, x, y, head);
        assert(mid.with_fragment(x, y, fragments.last()).pixels =~= goal.pixels);
        assert forall|px: int, py: int| goal.in_bounds(px, py) implies !(#[trigger] goal.pixels[(
            px,
            py,
        )]).depth.is_nan() by {
            if (px, py) != (x, y) {
                assert(goal.pixels[(px, py)] == view.pixels[(px, py)]);
            }
        }
        assert forall|px: int, py: int| #[trigger]
            goal.pixels.dom().contains((px, py)) <==> goal.in_bounds(px, py) by {
            assert(view.pixels.dom().contains((px, py)) <==> view.in_bounds(px, py));
        }
    }
}

/// Whether no two of the fragments that encode a depth are equally near,
/// unless they are one and the same fragment.
pub open spec fn no_ties(fragments: Seq<Pixel>) -> bool {
    forall|i: int, j: int|
        0 <= i < fragments.len() && 0 <= j < fragments.len() && !(
        #[trigger] fragments[i]).depth.is_nan() && !(#[trigger] fragments[j]).depth.is_nan()
            && fragments[i].depth.key() == fragments[j].depth.key() ==> fragments[i]
            == fragments[j]
}

/// A fragment of one sequence occurs in any sequence with the same fragments.
proof fn lemma_shared_fragment(first: Seq<Pixel>, second: Seq<Pixel>, i: int) -> (j: int)
    requires
        first.to_multiset() == second.to_multiset(),
        0 <= i < first.len(),
    ensures
        0 <= j < second.len(),
        second[j] == first[i],
{
    first.to_multiset_ensures();
    second.to_multiset_ensures();
    assert(first.contains(first[i]));
    assert(second.to_multiset().count(first[i]) > 0);
    assert(second.contains(first[i]));
    choose|j: int| 0 <= j < second.len() && second[j] == first[i]
}

/// What is seen does not depend on the order of submission.
///
/// Two sequences that hold the same fragments, in whatever order, leave a
/// pixel in the same state, provided that no two different fragments are
/// equally near: of those, the one submitted first would stay.
pub proof fn lemma_order_independent(pixel: Pixel, first: Seq<Pixel>, second: Seq<Pixel>)
    requires
        !pixel.depth.is_nan(),
        first.to_multiset() == second.to_multiset(),
        no_ties(first),
    ensures
        resolve_all(pixel, first) == resolve_all(pixel, second),
{
    lemma_nearest_wins(pixel, first);
    lemma_nearest_wins(pixel, second);
    if exists|j: int| 0 <= j < first.len() && (#[trigger] first[j]).depth.lt(pixel.depth) {
        let w = choose|j: int| 0 <= j < first.len() && (#[trigger] first[j]).depth.lt(pixel.depth);
        let w2 = lemma_shared_fragment(first, second, w);
        assert(second[w2].depth.lt(pixel.depth));
        let a = choose|i: int| #[trigger]
            wins(pixel, first, i) && resolve_all(pixel, first) == first[i];
        let b = choose|i: int| #[trigger]
            wins(pixel, second, i) && resolve_all(pixel, second) == second[i];
        let a2 = lemma_shared_fragment(first, second, a);
        let b1 = lemma_shared_fragment(second, first, b);
        assert(!second[a2].depth.lt(second[b].depth));
        assert(!first[b1].depth.lt(first[a].depth));
        assert(first[a].depth.key() == first[b1].depth.key());
    } else {
        assert forall|j: int| 0 <= j < second.len() implies !(#[trigger] second[j]).depth.lt(
            pixel.depth,
        ) by {
            let j1 = lemma_shared_fragment(second, first, j);
            assert(!first[j1].depth.lt(pixel.depth));
        }
    }
}

} // verus!
