//! What rectangle arithmetic and damage lists mean in pixels.

use vstd::prelude::*;

use crate::geometry::{bbox_of_two, intersection, projection, Rect2D};
use crate::region_set::{adding_keeps_all_damage, bbox_of_list, lemma_bbox_of_list, list_add, list_px};

verus! {

/// What two rectangles share is the pixels of both, and there is something to
/// share exactly if they have a pixel in common.
pub proof fn an_intersection_has_the_common_pixels(a: Rect2D, b: Rect2D, q: (int, int))
    ensures
        a.has(q.0, q.1) && b.has(q.0, q.1) <==> (intersection(a, b) matches Some(c) && c.has(
            q.0,
            q.1,
        )),
        intersection(a, b) matches Some(c) ==> exists|p: (int, int)|
            a.has(p.0, p.1) && #[trigger] b.px().contains(p),
        intersection(a, b) == intersection(b, a),
{
    if intersection(a, b) is Some {
        let c = intersection(a, b)->0;
        let p = (c.x0(), c.y0());
        assert(b.px().contains(p));
    }
}

/// A moved rectangle has, of the output's pixels, exactly those that its own pixels
/// are moved to; without one there is none.
pub proof fn a_projection_has_the_moved_pixels(
    src: Rect2D,
    dx: int,
    dy: int,
    w: u32,
    h: u32,
    q: (int, int),
)
    requires
        i32::MIN <= dx <= 0x8000_0000,
        i32::MIN <= dy <= 0x8000_0000,
        w <= i32::MAX,
        h <= i32::MAX,
    ensures
        (projection(src, dx, dy, w, h) matches Some(c) && c.has(q.0, q.1)) <==> 0 <= q.0 < w && 0
            <= q.1 < h && src.offset.x <= q.0 - dx < src.offset.x + src.extent.width
            && src.offset.y <= q.1 - dy < src.offset.y + src.extent.height,
        projection(src, dx, dy, w, h) matches Some(c) ==> c.extent.width > 0 && c.extent.height > 0,
{
}

/// A bounding box has the pixels of both rectangles, and lies in every rectangle
/// that has them.
pub proof fn a_bounding_box_is_the_smallest(a: Rect2D, b: Rect2D, c: Rect2D)
    requires
        a.non_empty(),
        b.non_empty(),
    ensures
        a.px().subset_of(bbox_of_two(a, b).px()),
        b.px().subset_of(bbox_of_two(a, b).px()),
        a.px().subset_of(c.px()) && b.px().subset_of(c.px()) ==> bbox_of_two(a, b).px().subset_of(
            c.px(),
        ),
{
    let d = bbox_of_two(a, b);
    assert(a.px().contains((a.x0(), a.y0())));
    assert(a.px().contains((a.x1() - 1, a.y1() - 1)));
    assert(b.px().contains((b.x0(), b.y0())));
    assert(b.px().contains((b.x1() - 1, b.y1() - 1)));
    if a.px().subset_of(c.px()) && b.px().subset_of(c.px()) {
        assert(c.px().contains((a.x0(), a.y0())));
        assert(c.px().contains((a.x1() - 1, a.y1() - 1)));
        assert(c.px().contains((b.x0(), b.y0())));
        assert(c.px().contains((b.x1() - 1, b.y1() - 1)));
    }
}

/// A damage list has exactly the pixels that were added, as long as it is not
/// full; a full one is collapsed to one rectangle around them. It never grows
/// beyond its bound.
pub proof fn a_damage_list_has_what_was_added(s: Seq<Rect2D>, r: Rect2D, q: (int, int))
    requires
        s.len() <= 32,
    ensures
        list_add(s, r).len() <= 32,
        list_px(s).contains(q) || r.has(q.0, q.1) ==> list_px(list_add(s, r)).contains(q),
        s.len() < 32 && list_px(list_add(s, r)).contains(q) ==> list_px(s).contains(q) || r.has(
            q.0,
            q.1,
        ),
        s.len() == 32 && r.non_empty() ==> list_add(s, r).len() == 1,
        !r.non_empty() ==> list_add(s, r) == s,
{
    adding_keeps_all_damage(s, r);
    if r.has(q.0, q.1) {
        assert(r.px().contains(q));
    }
    let t = list_add(s, r);
    if s.len() < 32 && list_px(t).contains(q) {
        let i = choose|i: int| 0 <= i < t.len() && (#[trigger] t[i]).has(q.0, q.1);
        if i < s.len() {
            assert(s[i].has(q.0, q.1));
        }
    }
}

/// The bounding box of a list has the pixels of every rectangle of the list, and
/// lies in every rectangle that has them.
pub proof fn the_bounding_box_of_a_list_is_the_smallest(s: Seq<Rect2D>, c: Rect2D)
    requires
        s.len() > 0,
        forall|i: int| 0 <= i < s.len() ==> (#[trigger] s[i]).non_empty(),
    ensures
        list_px(s).subset_of(bbox_of_list(s).px()),
        bbox_of_list(s).non_empty(),
        list_px(s).subset_of(c.px()) ==> bbox_of_list(s).px().subset_of(c.px()),
    decreases s.len(),
{
    lemma_bbox_of_list(s);
    if s.len() > 1 {
        let t = s.drop_last();
        assert forall|i: int| 0 <= i < t.len() implies (#[trigger] t[i]).non_empty() by {
            assert(t[i] == s[i]);
        }
        the_bounding_box_of_a_list_is_the_smallest(t, c);
        let last = s[s.len() - 1];
        a_bounding_box_is_the_smallest(bbox_of_list(t), last, c);
        if list_px(s).subset_of(c.px()) {
            assert forall|q: (int, int)| list_px(t).contains(q) implies c.px().contains(q) by {
                let i = choose|i: int| 0 <= i < t.len() && (#[trigger] t[i]).has(q.0, q.1);
                assert(s[i].has(q.0, q.1));
                assert(list_px(s).contains(q));
            }
            assert forall|q: (int, int)| last.px().contains(q) implies c.px().contains(q) by {
                assert(s[s.len() - 1].has(q.0, q.1));
                assert(list_px(s).contains(q));
            }
        }
    } else if list_px(s).subset_of(c.px()) {
        assert forall|q: (int, int)| s[0].px().contains(q) implies c.px().contains(q) by {
            assert(s[0].has(q.0, q.1));
            assert(list_px(s).contains(q));
        }
    }
}

} // verus!
