//! How much of an output a frame repaints.
//!
//! A clipped repaint loads the buffer's old content and redraws only the damage,
//! which is equal to a full compose only where opaque draws cover everything
//! that is redrawn. Every gate that fails falls back to a full repaint.

use vstd::prelude::*;

use crate::draw::{draw_dst_rect, draw_lands, CompositeDraw, CompositeScene};
use crate::geometry::{max_int, output_rect, rects_intersect, Extent2D, Offset2D, Rect2D};
use crate::region::{
    area_of, bbox_px, bbox_rect, boxes, capped, lemma_bbox_superset, lemma_boxes_partition_pixels,
    lemma_capped, partitions, Region, MAX_RECTS,
};

verus! {

/// Why a frame fell back to a full-output repaint.
#[derive(Clone, Copy, Debug, PartialEq, Eq, Structural)]
pub enum FullReason {
    /// Scene is just the background clear, or there is nothing to paint.
    EmptyDrawList,
    /// The buffer was never presented, or its contents were invalidated.
    UnloadableBo,
    /// No opaque draws cover the region.
    NoOpaqueCover,
    /// Clipping costs more than it saves above this fraction of the output.
    Threshold,
    /// Copied route: always full, never tracked.
    CopiedRoute,
}

/// How a frame is rendered.
#[derive(Clone, Copy, Debug, PartialEq, Eq, Structural)]
pub enum Repaint {
    /// Full-output redraw over a clear.
    Full(Extent2D),
    /// Redraw of the damage only, over the loaded content. The rectangle is the
    /// render area.
    Clipped(Rect2D),
    /// Diagnostic redraw of the damage only, over a clear of the same rectangle.
    AuditClearClipped(Rect2D),
}

/// The decision how to render, and what that will paint.
#[derive(Debug)]
pub struct RepaintPlan {
    pub repaint: Repaint,
    /// Disjoint scissor rects to render under.
    pub scissors: Vec<Rect2D>,
    /// What the recorder will cover.
    pub painted: Region,
    pub full_reason: Option<FullReason>,
}

// ── opaque cover ────────────────────────────────────────────────────
/// What is left of `rect` once every opaque draw is taken away from it.
pub open spec fn cover_remainder(draws: Seq<CompositeDraw>, rect: Rect2D) -> Set<(int, int)>
    decreases draws.len(),
{
    if draws.len() == 0 {
        rect.px()
    } else {
        let rem = cover_remainder(draws.drop_last(), rect);
        let d = draws.last();
        if !d.alpha_passthrough && draw_lands(d) && d.dst.meets(rect) {
            capped(rem.difference(d.dst.px()))
        } else {
            rem
        }
    }
}

/// Whether some opaque draw covers the pixel.
pub open spec fn opaque_at(draws: Seq<CompositeDraw>, a: (int, int)) -> bool {
    exists|i: int|
        0 <= i < draws.len() && !(#[trigger] draws[i]).alpha_passthrough
            && draws[i].dst.px().contains(a)
}

proof fn lemma_remainder(draws: Seq<CompositeDraw>, rect: Rect2D, a: (int, int))
    requires
        rect.px().contains(a),
        !cover_remainder(draws, rect).contains(a),
    ensures
        opaque_at(draws, a),
    decreases draws.len(),
{
    if draws.len() > 0 {
        let t = draws.drop_last();
        let rem = cover_remainder(t, rect);
        let d = draws.last();
        lemma_capped(rem.difference(d.dst.px()));
        if !rem.contains(a) {
            lemma_remainder(t, rect, a);
            let i = choose|i: int|
                0 <= i < t.len() && !(#[trigger] t[i]).alpha_passthrough && t[i].dst.px().contains(a);
            assert(draws[i] == t[i]);
        } else {
            if !rem.difference(d.dst.px()).contains(a) {
                assert(draws[draws.len() - 1].dst.px().contains(a));
            }
        }
    }
}

/// True if the opaque draws together cover every pixel of `rect`.
///
/// Each opaque draw is taken from a remainder: a remainder that collapses to its
/// bounding box can only report less cover than there is.
pub fn opaque_cover_exists(draws: &[CompositeDraw], rect: Rect2D) -> (r: bool)
    ensures
        r == (cover_remainder(draws@, rect) == Set::<(int, int)>::empty()),
        r ==> forall|a: (int, int)| #[trigger] rect.px().contains(a) ==> opaque_at(draws@, a),
{
    let mut remainder = Region::from_rect(rect);
    let mut i: usize = 0;
    assert(draws@.take(0) =~= Seq::<CompositeDraw>::empty());
    while i < draws.len()
        invariant
            i <= draws@.len(),
            remainder@ == cover_remainder(draws@.take(i as int), rect),
        decreases draws.len() - i,
    {
        assert(draws@.take(i + 1).drop_last() =~= draws@.take(i as int));
        if !draws[i].alpha_passthrough {
            if let Some(dst) = draw_dst_rect(&draws[i]) {
                if rects_intersect(dst, rect) {
                    let taken = Region::from_rect(dst);
                    remainder.subtract(&taken);
                }
            }
        }
        i = i + 1;
    }
    assert(draws@.take(i as int) =~= draws@);
    let covered = remainder.is_empty();
    proof {
        if covered {
            assert forall|a: (int, int)| #[trigger] rect.px().contains(a) implies opaque_at(
                draws@,
                a,
            ) by {
                lemma_remainder(draws@, rect, a);
            }
        }
    }
    covered
}

// ── the plan ────────────────────────────────────────────────────────
/// The number of pixels of a rectangle.
pub open spec fn rect_area(r: Rect2D) -> nat {
    (r.extent.width * r.extent.height) as nat
}

/// Whether the damage is redrawn box by box: its bounding box is more than one
/// and a half times the damage.
pub open spec fn per_rect(requested: Set<(int, int)>) -> bool {
    &&& boxes(requested).len() > 1
    &&& area_of(boxes(requested)) > 0
    &&& 2 * rect_area(bbox_rect(requested)) > 3 * area_of(boxes(requested))
}

/// The scissors of a clipped repaint.
pub open spec fn clipped_scissors(requested: Set<(int, int)>) -> Seq<Rect2D> {
    if per_rect(requested) { boxes(requested) } else { seq![bbox_rect(requested)] }
}

/// What a clipped repaint paints.
pub open spec fn clipped_px(requested: Set<(int, int)>) -> Set<(int, int)> {
    if per_rect(requested) { requested } else { bbox_rect(requested).px() }
}

/// Whether painting this much of the output is not worth clipping: at least
/// three fifths of it.
pub open spec fn past_threshold(painted: nat, extent: Extent2D) -> bool {
    extent.width * extent.height == 0 || 5 * painted >= 3 * (extent.width * extent.height)
}

/// Why a frame is repainted in full; `None` when it is clipped.
pub open spec fn full_reason_of(
    requested: Set<(int, int)>,
    draws: Seq<CompositeDraw>,
    extent: Extent2D,
    loadable: bool,
    shared_route: bool,
) -> Option<FullReason> {
    if !shared_route {
        Some(FullReason::CopiedRoute)
    } else if draws.len() == 0 {
        Some(FullReason::EmptyDrawList)
    } else if !loadable {
        Some(FullReason::UnloadableBo)
    } else if requested == Set::<(int, int)>::empty() {
        Some(FullReason::EmptyDrawList)
    } else if past_threshold(area_of(boxes(clipped_px(requested))), extent) {
        Some(FullReason::Threshold)
    } else if exists|i: int|
        0 <= i < clipped_scissors(requested).len() && cover_remainder(
            draws,
            #[trigger] clipped_scissors(requested)[i],
        ) != Set::<(int, int)>::empty() {
        Some(FullReason::NoOpaqueCover)
    } else {
        None
    }
}

fn full_plan(extent: Extent2D, reason: FullReason) -> (plan: RepaintPlan)
    ensures
        plan.full_reason == Some(reason),
        plan.repaint == Repaint::Full(extent),
        plan.scissors@ == seq![output_rect(extent)],
        plan.painted@ == output_rect(extent).px(),
{
    let whole = Rect2D { offset: Offset2D { x: 0, y: 0 }, extent };
    let mut scissors: Vec<Rect2D> = Vec::new();
    scissors.push(whole);
    assert(scissors@ =~= seq![output_rect(extent)]);
    RepaintPlan {
        repaint: Repaint::Full(extent),
        scissors,
        painted: Region::from_rect(whole),
        full_reason: Some(reason),
    }
}

fn area_u128(w: u32, h: u32) -> (a: u128)
    ensures
        a == w * h,
        a <= 0xffff_ffff_ffff_ffff,
{
    assert(w * h <= 0xffff_ffff_ffff_ffff) by (nonlinear_arith)
        requires
            w <= 0xffff_ffff,
            h <= 0xffff_ffff,
    ;
    w as u128 * h as u128
}

/// Whether a plan is the one for a request: a full repaint for the first reason
/// that holds, else a clipped one of what was requested, whose scissors cover
/// only pixels that an opaque draw covers. A request inside the output is always
/// painted.
pub open spec fn planned(
    plan: RepaintPlan,
    requested: Set<(int, int)>,
    draws: Seq<CompositeDraw>,
    extent: Extent2D,
    loadable: bool,
    shared_route: bool,
) -> bool {
    &&& plan.full_reason == full_reason_of(requested, draws, extent, loadable, shared_route)
    &&& plan.full_reason is Some ==> {
        &&& plan.repaint == Repaint::Full(extent)
        &&& plan.scissors@ == seq![output_rect(extent)]
        &&& plan.painted@ == output_rect(extent).px()
    }
    &&& plan.full_reason is None ==> {
        &&& plan.repaint == Repaint::Clipped(bbox_rect(requested))
        &&& plan.scissors@ == clipped_scissors(requested)
        &&& plan.painted@ == clipped_px(requested)
        &&& partitions(plan.scissors@, plan.painted@)
        &&& requested.subset_of(plan.painted@)
        &&& plan.painted@.subset_of(bbox_px(requested))
        &&& forall|a: (int, int)| #[trigger]
            plan.painted@.contains(a) ==> opaque_at(draws, a)
    }
    &&& requested.subset_of(output_rect(extent).px()) ==> requested.subset_of(plan.painted@)
}

/// Decides how to repaint, and reports what that will paint.
pub fn plan_repaint(
    requested: &Region,
    draws: &[CompositeDraw],
    extent: Extent2D,
    loadable: bool,
    shared_route: bool,
) -> (plan: RepaintPlan)
    ensures
        planned(plan, requested@, draws@, extent, loadable, shared_route),
{
    if !shared_route {
        return full_plan(extent, FullReason::CopiedRoute);
    }
    if draws.len() == 0 {
        return full_plan(extent, FullReason::EmptyDrawList);
    }
    if !loadable {
        return full_plan(extent, FullReason::UnloadableBo);
    }
    let bbox = match requested.bounding_rect() {
        None => {
            return full_plan(extent, FullReason::EmptyDrawList);
        },
        Some(b) => b,
    };
    let rects = requested.rects();
    let bbox_area: u128 = area_u128(bbox.extent.width, bbox.extent.height);
    let area: u128 = requested.area() as u128;
    let wasteful = area > 0 && 2 * bbox_area > 3 * area;
    proof {
        lemma_bbox_superset(requested@);
    }
    let split = rects.len() > 1 && rects.len() <= MAX_RECTS && wasteful;
    let scissors: Vec<Rect2D>;
    let painted: Region;
    if split {
        scissors = rects;
        painted = requested.clone();
    } else {
        let mut one: Vec<Rect2D> = Vec::new();
        one.push(bbox);
        assert(one@ =~= seq![bbox]);
        scissors = one;
        painted = Region::from_rect(bbox);
        proof {
            assert forall|x: int, y: int| #[trigger] painted@.contains((x, y)) implies exists|i: int|
                0 <= i < one@.len() && #[trigger] one@[i].has(x, y) by {
                assert(one@[0].has(x, y));
            }
            assert(partitions(one@, painted@));
        }
    }
    assert(split == per_rect(requested@));
    assert(scissors@ == clipped_scissors(requested@));
    assert(partitions(scissors@, painted@));
    let painted_area: u128 = painted.area() as u128;
    let output_area: u128 = area_u128(extent.width, extent.height);
    if output_area == 0 || 5 * painted_area >= 3 * output_area {
        return full_plan(extent, FullReason::Threshold);
    }
    let mut i: usize = 0;
    while i < scissors.len()
        invariant
            i <= scissors@.len(),
            scissors@ == clipped_scissors(requested@),
            shared_route,
            loadable,
            draws@.len() > 0,
            requested@ != Set::<(int, int)>::empty(),
            !past_threshold(area_of(boxes(clipped_px(requested@))), extent),
            forall|k: int|
                0 <= k < i ==> cover_remainder(draws@, #[trigger] scissors@[k]) == Set::<
                    (int, int),
                >::empty(),
            forall|k: int, a: (int, int)|
                0 <= k < i && #[trigger] scissors@[k].px().contains(a) ==> opaque_at(draws@, a),
        decreases scissors.len() - i,
    {
        if !opaque_cover_exists(draws, scissors[i]) {
            assert(cover_remainder(draws@, clipped_scissors(requested@)[i as int]) != Set::<
                (int, int),
            >::empty());
            return full_plan(extent, FullReason::NoOpaqueCover);
        }
        i = i + 1;
    }
    proof {
        assert forall|a: (int, int)| #[trigger] painted@.contains(a) implies opaque_at(
            draws@,
            a,
        ) by {
            assert(painted@.contains((a.0, a.1)));
            let k = choose|k: int| 0 <= k < scissors@.len() && #[trigger] scissors@[k].has(a.0, a.1);
            assert(scissors@[k].px().contains(a));
        }
    }
    RepaintPlan { repaint: Repaint::Clipped(bbox), scissors, painted, full_reason: None }
}

// ── culling ─────────────────────────────────────────────────────────
/// Whether a draw survives the cull to `keep`.
pub open spec fn survives(d: CompositeDraw, keep: Set<(int, int)>) -> bool {
    !draw_lands(d) || !keep.disjoint(d.dst.px())
}

/// The draws that survive the cull, in unchanged order.
pub open spec fn culled(draws: Seq<CompositeDraw>, keep: Set<(int, int)>) -> Seq<CompositeDraw>
    decreases draws.len(),
{
    if draws.len() == 0 {
        Seq::empty()
    } else {
        let head = culled(draws.drop_last(), keep);
        if survives(draws.last(), keep) { head.push(draws.last()) } else { head }
    }
}

/// The draws that touch `keep`, in unchanged order. A separate product: the full
/// list stays the frame's scene.
pub fn cull_scene_to_region(scene: &CompositeScene, keep: &Region) -> (r: CompositeScene)
    ensures
        r.bg_color == scene.bg_color,
        r.draws@ == culled(scene.draws@, keep@),
{
    let mut draws: Vec<CompositeDraw> = Vec::new();
    let mut i: usize = 0;
    assert(scene.draws@.take(0) =~= Seq::<CompositeDraw>::empty());
    while i < scene.draws.len()
        invariant
            i <= scene.draws@.len(),
            draws@ == culled(scene.draws@.take(i as int), keep@),
        decreases scene.draws.len() - i,
    {
        assert(scene.draws@.take(i + 1).drop_last() =~= scene.draws@.take(i as int));
        let kept = match draw_dst_rect(&scene.draws[i]) {
            None => true,
            Some(dst) => keep.intersects_rect(dst),
        };
        if kept {
            draws.push(scene.draws[i]);
        }
        i = i + 1;
    }
    assert(scene.draws@.take(i as int) =~= scene.draws@);
    CompositeScene { bg_color: scene.bg_color, draws }
}

/// Culling to a region keeps the opaque cover of every rectangle inside it: the
/// guard a clipped repaint depends on survives its own cull.
pub proof fn cull_keeps_opaque_cover(
    draws: Seq<CompositeDraw>,
    keep: Set<(int, int)>,
    rect: Rect2D,
)
    requires
        rect.px().subset_of(keep),
    ensures
        cover_remainder(culled(draws, keep), rect) == cover_remainder(draws, rect),
    decreases draws.len(),
{
    if draws.len() > 0 {
        let t = draws.drop_last();
        let d = draws.last();
        cull_keeps_opaque_cover(t, keep, rect);
        if survives(d, keep) {
            let c = culled(t, keep).push(d);
            assert(c.drop_last() =~= culled(t, keep));
        } else {
            assert(d.dst.px().disjoint(rect.px()));
            if rect.non_empty() {
                let x = max_int(d.dst.x0(), rect.x0());
                let y = max_int(d.dst.y0(), rect.y0());
                if d.dst.meets(rect) && d.dst.non_empty() {
                    assert(d.dst.px().contains((x, y)) && rect.px().contains((x, y)));
                }
            } else {
                lemma_nothing_remains(draws, rect);
                lemma_nothing_remains(culled(draws, keep), rect);
            }
        }
    }
}

proof fn lemma_nothing_remains(draws: Seq<CompositeDraw>, rect: Rect2D)
    requires
        !rect.non_empty(),
    ensures
        cover_remainder(draws, rect) == Set::<(int, int)>::empty(),
    decreases draws.len(),
{
    let e = Set::<(int, int)>::empty();
    if draws.len() == 0 {
        assert(rect.px() =~= e);
    } else {
        lemma_nothing_remains(draws.drop_last(), rect);
        assert(e.difference(draws.last().dst.px()) =~= e);
        lemma_boxes_partition_pixels(e);
        if boxes(e).len() > 0 {
            let b = boxes(e)[0];
            assert(b.has(b.x0(), b.y0()));
            assert(e.contains((b.x0(), b.y0())));
        }
    }
}

/// Culling drops only draws without a pixel in the region, and keeps the others
/// in order: what remains is a subsequence.
pub proof fn cull_keeps_what_touches(draws: Seq<CompositeDraw>, keep: Set<(int, int)>)
    ensures
        culled(draws, keep) == draws.filter(|d: CompositeDraw| survives(d, keep)),
    decreases draws.len(),
{
    reveal(Seq::filter);
    if draws.len() > 0 {
        cull_keeps_what_touches(draws.drop_last(), keep);
    }
}

/// A clipped repaint stays covered after its own cull: every pixel of the region
/// that an opaque draw covers is still covered by one.
pub proof fn cull_keeps_pixels_covered(
    draws: Seq<CompositeDraw>,
    keep: Set<(int, int)>,
    a: (int, int),
)
    requires
        keep.contains(a),
        opaque_at(draws, a),
    ensures
        opaque_at(culled(draws, keep), a),
    decreases draws.len(),
{
    let i = choose|i: int|
        0 <= i < draws.len() && !(#[trigger] draws[i]).alpha_passthrough
            && draws[i].dst.px().contains(a);
    let t = draws.drop_last();
    let c = culled(draws, keep);
    if i == draws.len() - 1 {
        assert(!keep.disjoint(draws[i].dst.px()));
        assert(c.last() == draws[i]);
        assert(c[c.len() - 1].dst.px().contains(a));
    } else {
        assert(t[i] == draws[i]);
        cull_keeps_pixels_covered(t, keep, a);
        let b = culled(t, keep);
        let k = choose|k: int|
            0 <= k < b.len() && !(#[trigger] b[k]).alpha_passthrough && b[k].dst.px().contains(a);
        assert(c[k] == b[k]);
    }
}

} // verus!
