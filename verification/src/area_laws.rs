//! Areas count pixels.

use vstd::prelude::*;
use vstd::set_lib::*;

use crate::draft_laws::{lemma_structural_flat, placed_in_plane};
use crate::draw::{drawn_pixels, CompositeDraw};
use crate::geometry::{intersection, output_rect, Extent2D, Rect2D};
use crate::output::{drafted, OutputView};
use crate::region::{
    area_of, bbox_px, bbox_rect, boxes, capped, in_plane, lemma_boxes_fit,
    lemma_boxes_partition_pixels, op_px, partitions, SetOp,
};
use crate::repaint::{planned, RepaintPlan};
use crate::scene_build::BuildView;
use crate::scene_diff::{structural_px, ScenePresence};
use crate::submission_laws::lemma_bbox_is_rect;

verus! {

proof fn lemma_row(x0: int, x1: int, y: int)
    requires
        x0 <= x1,
    ensures
        Set::new(|p: (int, int)| x0 <= p.0 < x1 && p.1 == y).finite(),
        Set::new(|p: (int, int)| x0 <= p.0 < x1 && p.1 == y).len() == x1 - x0,
{
    let row = Set::new(|p: (int, int)| x0 <= p.0 < x1 && p.1 == y);
    let xs = set_int_range(x0, x1);
    let f = |x: int| (x, y);
    lemma_int_range(x0, x1);
    assert forall|p: (int, int)| xs.map(f).contains(p) == row.contains(p) by {
        if row.contains(p) {
            assert(xs.contains(p.0) && f(p.0) == p);
        }
    }
    assert(xs.map(f) =~= row);
    lemma_map_size(xs, row, f);
}

proof fn lemma_block_of_rows(x0: int, x1: int, y0: int, y1: int)
    requires
        x0 <= x1,
        y0 <= y1,
    ensures
        Set::new(|p: (int, int)| x0 <= p.0 < x1 && y0 <= p.1 < y1).finite(),
        Set::new(|p: (int, int)| x0 <= p.0 < x1 && y0 <= p.1 < y1).len() == (x1 - x0) * (y1 - y0),
    decreases y1 - y0,
{
    let all = Set::new(|p: (int, int)| x0 <= p.0 < x1 && y0 <= p.1 < y1);
    if y0 == y1 {
        assert(all =~= Set::empty());
        assert((x1 - x0) * 0 == 0);
    } else {
        let y = y1 - 1;
        let above = Set::new(|p: (int, int)| x0 <= p.0 < x1 && y0 <= p.1 < y);
        let row = Set::new(|p: (int, int)| x0 <= p.0 < x1 && p.1 == y);
        lemma_block_of_rows(x0, x1, y0, y);
        lemma_row(x0, x1, y);
        assert(above.disjoint(row));
        lemma_set_disjoint_lens(above, row);
        assert(above.union(row) =~= all);
        assert((x1 - x0) * (y1 - y0) == (x1 - x0) * (y - y0) + (x1 - x0)) by (nonlinear_arith)
            requires
                y == y1 - 1,
        ;
    }
}

/// A rectangle that does not reach beyond the plane has as many pixels as its width
/// times its height.
pub proof fn a_rectangle_has_its_area(r: Rect2D)
    requires
        r.offset.x + r.extent.width <= i32::MAX,
        r.offset.y + r.extent.height <= i32::MAX,
    ensures
        r.px().finite(),
        r.px().len() == r.extent.width * r.extent.height,
{
    let block = Set::new(|p: (int, int)| r.x0() <= p.0 < r.x1() && r.y0() <= p.1 < r.y1());
    lemma_block_of_rows(r.x0(), r.x1(), r.y0(), r.y1());
    assert(r.px() =~= block);
}

/// Disjoint boxes have as many pixels as their areas together.
pub proof fn areas_count_pixels(b: Seq<Rect2D>, p: Set<(int, int)>)
    requires
        partitions(b, p),
        forall|i: int|
            0 <= i < b.len() ==> (#[trigger] b[i]).offset.x + b[i].extent.width <= i32::MAX
                && b[i].offset.y + b[i].extent.height <= i32::MAX,
    ensures
        p.finite(),
        area_of(b) == p.len(),
    decreases b.len(),
{
    if b.len() == 0 {
        assert forall|q: (int, int)| !p.contains(q) by {
            assert(p.contains((q.0, q.1)) ==> false);
        }
        assert(p =~= Set::empty());
    } else {
        let t = b.drop_last();
        let last = b.last();
        assert(last == b[b.len() - 1]);
        let rest = p.difference(last.px());
        assert(partitions(t, rest)) by {
            assert forall|i: int| 0 <= i < t.len() implies (#[trigger] t[i]).non_empty() by {
                assert(t[i] == b[i]);
            }
            assert forall|i: int, x: int, y: int|
                0 <= i < t.len() && #[trigger] t[i].has(x, y) implies rest.contains((x, y)) by {
                assert(b[i].has(x, y));
                assert(!b[b.len() - 1].has(x, y));
            }
            assert forall|x: int, y: int| #[trigger] rest.contains((x, y)) implies exists|i: int|
                0 <= i < t.len() && #[trigger] t[i].has(x, y) by {
                assert(p.contains((x, y)));
                let i = choose|i: int| 0 <= i < b.len() && #[trigger] b[i].has(x, y);
                assert(t[i].has(x, y));
            }
            assert forall|i: int, j: int, x: int, y: int|
                0 <= i < j < t.len() && #[trigger] t[i].has(x, y) implies !(
            #[trigger] t[j].has(x, y)) by {
                assert(b[i].has(x, y));
                assert(!b[j].has(x, y));
            }
        }
        assert forall|i: int| 0 <= i < t.len() implies (#[trigger] t[i]).offset.x
            + t[i].extent.width <= i32::MAX && t[i].offset.y + t[i].extent.height <= i32::MAX by {
            assert(t[i] == b[i]);
        }
        areas_count_pixels(t, rest);
        a_rectangle_has_its_area(last);
        assert forall|q: (int, int)| last.px().contains(q) implies p.contains(q) by {
            assert(b[b.len() - 1].has(q.0, q.1));
            assert(p.contains((q.0, q.1)));
        }
        lemma_set_disjoint_lens(rest, last.px());
        assert(rest.union(last.px()) =~= p);
        assert(last.extent.width * last.extent.height >= 0) by (nonlinear_arith)
            requires
                last.extent.width >= 0,
                last.extent.height >= 0,
        ;
    }
}

/// A region keeps exactly what it is given, up to its bound of boxes, and the
/// bounding box of it beyond.
pub proof fn a_region_is_exact_up_to_its_bound(p: Set<(int, int)>)
    ensures
        boxes(p).len() <= 32 ==> capped(p) == p,
        boxes(p).len() > 32 ==> capped(p) == bbox_px(p),
{
}

proof fn lemma_area_is_count(p: Set<(int, int)>)
    requires
        forall|x: int, y: int| #[trigger] p.contains((x, y)) ==> in_plane(x, y),
    ensures
        p.finite(),
        area_of(boxes(p)) == p.len(),
{
    lemma_boxes_partition_pixels(p);
    lemma_boxes_fit(p);
    areas_count_pixels(boxes(p), p);
}

/// A repaint is clipped only if what it paints is less than three fifths of the
/// output, counted in pixels.
pub proof fn a_clipped_repaint_paints_less_than_three_fifths(
    plan: RepaintPlan,
    requested: Set<(int, int)>,
    draws: Seq<CompositeDraw>,
    extent: Extent2D,
    loadable: bool,
    shared: bool,
)
    requires
        planned(plan, requested, draws, extent, loadable, shared),
        plan.repaint is Clipped,
        forall|x: int, y: int| #[trigger] plan.painted@.contains((x, y)) ==> in_plane(x, y),
    ensures
        plan.painted@.finite(),
        5 * plan.painted@.len() < 3 * (extent.width * extent.height),
{
    lemma_area_is_count(plan.painted@);
}

/// A draft's count of structural pixels is the number of pixels of the structural
/// difference.
pub proof fn structural_pixels_are_counted(
    o: OutputView,
    b: BuildView,
    participants: Seq<ScenePresence>,
    plane_visible: bool,
)
    requires
        placed_in_plane(o.prev_presented),
        placed_in_plane(participants),
    ensures
        structural_px(o.prev_presented, participants).finite(),
        drafted(o, b, participants, plane_visible).structural_pixels == structural_px(
            o.prev_presented,
            participants,
        ).len(),
{
    lemma_structural_flat(o.prev_presented, participants);
    lemma_area_is_count(structural_px(o.prev_presented, participants));
}

/// The overdraw counts each pixel of the output as often as it is drawn: one more
/// draw adds the pixels of the output that it covers.
pub proof fn each_draw_counts_its_pixels(
    draws: Seq<CompositeDraw>,
    d: CompositeDraw,
    ext: Extent2D,
)
    requires
        ext.width <= i32::MAX,
        ext.height <= i32::MAX,
    ensures
        drawn_pixels(Seq::empty(), ext) == 0,
        d.dst.px().intersect(output_rect(ext).px()).finite(),
        drawn_pixels(draws.push(d), ext) == drawn_pixels(draws, ext) + d.dst.px().intersect(
            output_rect(ext).px(),
        ).len(),
{
    assert(draws.push(d).drop_last() =~= draws);
    let both = d.dst.px().intersect(output_rect(ext).px());
    match intersection(d.dst, output_rect(ext)) {
        Some(c) => {
            assert(c.px() =~= both);
            a_rectangle_has_its_area(c);
            assert(c.extent.width * c.extent.height >= 0) by (nonlinear_arith)
                requires
                    c.extent.width >= 0,
                    c.extent.height >= 0,
            ;
        },
        None => {
            assert(both =~= Set::empty());
        },
    }
}

/// A clipped repaint paints exactly what was requested if that is in several pieces
/// whose bounding box is more than half again as large, and the bounding box
/// otherwise.
pub proof fn a_clipped_repaint_is_split_if_its_box_is_much_larger(
    plan: RepaintPlan,
    requested: Set<(int, int)>,
    draws: Seq<CompositeDraw>,
    extent: Extent2D,
    loadable: bool,
    shared: bool,
)
    requires
        planned(plan, requested, draws, extent, loadable, shared),
        plan.repaint is Clipped,
        requested.subset_of(output_rect(extent).px()),
    ensures
        requested.finite(),
        bbox_px(requested).finite(),
        boxes(requested).len() > 1 && 2 * bbox_px(requested).len() > 3 * requested.len()
            ==> plan.painted@ == requested,
        boxes(requested).len() <= 1 || 2 * bbox_px(requested).len() <= 3 * requested.len()
            ==> plan.painted@ == bbox_px(requested),
{
    assert(requested != Set::<(int, int)>::empty());
    if forall|a: (int, int)| !(#[trigger] requested.contains(a)) {
        assert(requested =~= Set::empty());
    }
    let a = choose|a: (int, int)| #[trigger] requested.contains(a);
    assert forall|b: (int, int)| #[trigger] requested.contains(b) implies in_plane(b.0, b.1) by {
        assert(output_rect(extent).px().contains(b));
    }
    assert forall|x: int, y: int| #[trigger] requested.contains((x, y)) implies in_plane(x, y) by {}
    lemma_bbox_is_rect(requested, a);
    lemma_area_is_count(requested);
    let r = bbox_rect(requested);
    a_rectangle_has_its_area(r);
    assert(requested.len() > 0) by {
        if requested.len() == 0 {
            assert(requested =~= Set::empty());
        }
    }
    assert(r.extent.width * r.extent.height >= 0) by (nonlinear_arith)
        requires
            r.extent.width >= 0,
            r.extent.height >= 0,
    ;
}

/// Regions are combined as sets are.
pub proof fn regions_are_combined_as_sets(p: Set<(int, int)>, q: Set<(int, int)>)
    ensures
        op_px(SetOp::Union, p, q) == p.union(q),
        op_px(SetOp::Intersect, p, q) == p.intersect(q),
        op_px(SetOp::Subtract, p, q) == p.difference(q),
{
    assert(op_px(SetOp::Union, p, q) =~= p.union(q));
    assert(op_px(SetOp::Intersect, p, q) =~= p.intersect(q));
    assert(op_px(SetOp::Subtract, p, q) =~= p.difference(q));
}

} // verus!
