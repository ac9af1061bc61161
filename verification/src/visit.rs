//! One subtree of the visibility walk: decide, clip the children to the node's
//! place, visit them top to bottom, emit what they left, claim what is opaque.
//!
//! What is still unclaimed is only ever intersected and subtracted, so when it
//! is collapsed to its bounding box the walk emits more than needed, never less.

use vstd::prelude::*;

use crate::emit::{
    emit_node, emitted_sink, presence_pushed, push_presence, signature_of, visible_px, Emitted,
    NodePaint, SinkView, WalkSink,
};
use crate::geometry::{clamp_len, len_as_i32, Extent2D, Rect2D};
use crate::region::{capped, over_cap, Region};
use crate::scene_diff::{ParticipantId, SceneRole};
use crate::walk::{
    bump, clip_ok, decide_node, decision, sat_add, ClipBox, DecisionView, NodeDecision,
    NodeStoreInfo, Visibility, WalkContext, WalkInput, WalkStats,
};
use crate::windows::{children_of, lemma_index, WindowGeometry};

verus! {

broadcast use vstd::std_specs::hash::group_hash_axioms;

// ── what a node and its descendants may still paint ─────────────────
/// The union of what is unclaimed in each place rect, and the counters.
pub open spec fn union_of_places(
    universe: Set<(int, int)>,
    place: Seq<Rect2D>,
    stats: WalkStats,
) -> (Set<(int, int)>, WalkStats)
    decreases place.len(),
{
    if place.len() == 0 {
        (Set::empty(), stats)
    } else {
        let (m, st) = union_of_places(universe, place.drop_last(), stats);
        let u = m.union(universe.intersect(place.last().px()));
        (
            capped(u),
            if over_cap(u) {
                WalkStats { collapses_mine: sat_add(st.collapses_mine, 1), ..st }
            } else {
                st
            },
        )
    }
}

/// What a node with children may still paint, and the counters.
pub open spec fn mine_of(
    universe: Set<(int, int)>,
    place: Seq<Rect2D>,
    stats: WalkStats,
) -> (Set<(int, int)>, WalkStats) {
    if place.len() == 1 {
        (universe.intersect(place[0].px()), stats)
    } else {
        union_of_places(universe, place, stats)
    }
}

// ── claims ──────────────────────────────────────────────────────────
/// The universe after an opaque node took its place, and the counters.
pub open spec fn claim_opaque(
    universe: Set<(int, int)>,
    place: Seq<Rect2D>,
    stats: WalkStats,
) -> (Set<(int, int)>, WalkStats)
    decreases place.len(),
{
    if place.len() == 0 {
        (universe, stats)
    } else {
        let (u, st) = claim_opaque(universe, place.drop_last(), stats);
        let r = place.last().px();
        if u.disjoint(r) {
            (u, st)
        } else {
            let left = u.difference(r);
            (
                capped(left),
                if over_cap(left) {
                    WalkStats { collapses_claim: sat_add(st.collapses_claim, 1), ..st }
                } else {
                    st
                },
            )
        }
    }
}

/// The universe after a node that is not opaque passed on what its descendants
/// took, and the counters. A remainder that would be collapsed is not claimed:
/// that could hide something visible.
pub open spec fn claim_taken(
    universe: Set<(int, int)>,
    place: Seq<Rect2D>,
    mine: Set<(int, int)>,
    stats: WalkStats,
) -> (Set<(int, int)>, WalkStats)
    decreases place.len(),
{
    if place.len() == 0 {
        (universe, stats)
    } else {
        let (u, st) = claim_taken(universe, place.drop_last(), mine, stats);
        let r = place.last().px();
        let taken = r.difference(mine);
        if u.disjoint(r) {
            (u, st)
        } else if over_cap(taken) {
            (
                u,
                WalkStats {
                    collapses_taken_skipped: sat_add(st.collapses_taken_skipped, 1),
                    ..st
                },
            )
        } else {
            let left = u.difference(taken);
            (
                capped(left),
                if over_cap(left) {
                    WalkStats { collapses_taken: sat_add(st.collapses_taken, 1), ..st }
                } else {
                    st
                },
            )
        }
    }
}

// ── the walk ────────────────────────────────────────────────────────
/// What source coordinates are divided by: the sampled source's extent, or the
/// window's own size without visibility.
pub open spec fn denominators(
    mode: Visibility,
    geom: WindowGeometry,
    info: NodeStoreInfo,
) -> (i32, i32) {
    match mode {
        Visibility::Off => (geom.width as i32, geom.height as i32),
        Visibility::On => (
            clamp_len(info.source_extent.width) as i32,
            clamp_len(info.source_extent.height) as i32,
        ),
    }
}

/// How a decided window is drawn.
pub open spec fn paint_of(
    mode: Visibility,
    geom: WindowGeometry,
    d: DecisionView,
    info: NodeStoreInfo,
    under_cow_subtree: bool,
) -> NodePaint {
    NodePaint {
        dx: d.dx as i32,
        dy: d.dy as i32,
        denom_w: denominators(mode, geom, info).0,
        denom_h: denominators(mode, geom, info).1,
        view: info.source_view,
        alpha_passthrough: under_cow_subtree,
        source_id: info.source_id,
    }
}

/// The identity of a window's presence.
pub open spec fn window_participant(xid: u32, info: NodeStoreInfo) -> ParticipantId {
    ParticipantId { role: SceneRole::Window, xid, generation: info.d_id.raw }
}

/// The universe and the sink after a window's own steps, once its children are
/// visited: emission, claim, presence.
pub open spec fn finish_node(
    input: WalkInput,
    xid: u32,
    geom: WindowGeometry,
    d: DecisionView,
    is_leaf: bool,
    mine: Set<(int, int)>,
    universe: Set<(int, int)>,
    s: SinkView,
    under_cow_subtree: bool,
) -> (Set<(int, int)>, SinkView) {
    let shown = if is_leaf { universe } else { mine };
    let emitted = match d.store {
        Some(info) => if d.emits {
            emitted_sink(
                s,
                input.mode,
                shown,
                d.place,
                paint_of(input.mode, geom, d, info, under_cow_subtree),
                input.store,
                input.extent(),
                input.elsewhere,
            )
        } else {
            s
        },
        None => s,
    };
    let (u, stats) = if input.mode == Visibility::Off {
        (universe, emitted.stats)
    } else if d.opaque {
        claim_opaque(universe, d.place, emitted.stats)
    } else if !is_leaf {
        claim_taken(universe, d.place, mine, emitted.stats)
    } else {
        (universe, emitted.stats)
    };
    let claimed = SinkView { stats, ..emitted };
    let done = match d.store {
        Some(info) => if d.emits {
            presence_pushed(
                claimed,
                d.place,
                visible_px(input.mode, shown, d.place),
                signature_of(paint_of(input.mode, geom, d, info, under_cow_subtree), d.place),
                window_participant(xid, info),
            )
        } else {
            claimed
        },
        None => claimed,
    };
    (u, done)
}

/// The universe and the sink after the subtree of `xid` was visited. The walk
/// goes at most `fuel` levels deep.
pub open spec fn visited(
    input: WalkInput,
    fuel: nat,
    xid: u32,
    parent_abs_x: int,
    parent_abs_y: int,
    universe: Set<(int, int)>,
    s: SinkView,
    under_redirected_ancestor: bool,
    under_cow_subtree: bool,
    clip: ClipBox,
) -> (Set<(int, int)>, SinkView)
    decreases fuel, 0nat,
{
    if fuel == 0 || !input.windows.dom().contains(xid) || !input.windows[xid].mapped {
        (universe, s)
    } else {
        let geom = input.windows[xid];
        let d = decision(
            input,
            xid,
            geom,
            parent_abs_x,
            parent_abs_y,
            under_redirected_ancestor,
            under_cow_subtree,
            clip,
        );
        let kids = children_of(input.windows, xid);
        let is_leaf = kids.len() == 0;
        let counted = WalkStats { nodes_visited: sat_add(s.stats.nodes_visited, 1), ..s.stats };
        let (mine, stats) = if input.mode == Visibility::On && !is_leaf {
            mine_of(universe, d.place, counted)
        } else {
            (Set::empty(), counted)
        };
        let (left, t) = visited_children(
            input,
            (fuel - 1) as nat,
            kids,
            d.abs_x,
            d.abs_y,
            mine,
            SinkView { stats, ..s },
            d.child_under_redirected_ancestor,
            under_cow_subtree,
            d.child_clip,
        );
        finish_node(input, xid, geom, d, is_leaf, left, universe, t, under_cow_subtree)
    }
}

/// The universe and the sink after a list of siblings was visited, last first.
pub open spec fn visited_children(
    input: WalkInput,
    fuel: nat,
    kids: Seq<u32>,
    parent_abs_x: int,
    parent_abs_y: int,
    universe: Set<(int, int)>,
    s: SinkView,
    under_redirected_ancestor: bool,
    under_cow_subtree: bool,
    clip: ClipBox,
) -> (Set<(int, int)>, SinkView)
    decreases fuel, kids.len() + 1,
{
    if kids.len() == 0 {
        (universe, s)
    } else {
        let (u, t) = visited(
            input,
            fuel,
            kids.last(),
            parent_abs_x,
            parent_abs_y,
            universe,
            s,
            under_redirected_ancestor,
            under_cow_subtree,
            clip,
        );
        visited_children(
            input,
            fuel,
            kids.drop_last(),
            parent_abs_x,
            parent_abs_y,
            u,
            t,
            under_redirected_ancestor,
            under_cow_subtree,
            clip,
        )
    }
}

fn union_places(universe: &Region, place: &Vec<Rect2D>, stats: &mut WalkStats) -> (mine: Region)
    ensures
        (mine@, *final(stats)) == union_of_places(universe@, place@, *old(stats)),
{
    let mut mine = Region::new();
    let ghost before = *stats;
    let mut i: usize = 0;
    assert(place@.take(0) =~= Seq::<Rect2D>::empty());
    while i < place.len()
        invariant
            i <= place@.len(),
            (mine@, *stats) == union_of_places(universe@, place@.take(i as int), before),
        decreases place.len() - i,
    {
        assert(place@.take(i + 1).drop_last() =~= place@.take(i as int));
        let piece = universe.clip_to_rect(place[i]);
        if mine.union_with_reporting(&piece) {
            stats.collapses_mine = bump(stats.collapses_mine);
        }
        i = i + 1;
    }
    assert(place@.take(i as int) =~= place@);
    mine
}

fn claim_place(universe: &mut Region, place: &Vec<Rect2D>, stats: &mut WalkStats)
    ensures
        (final(universe)@, *final(stats)) == claim_opaque(old(universe)@, place@, *old(stats)),
{
    let ghost u0 = universe@;
    let ghost s0 = *stats;
    let mut i: usize = 0;
    assert(place@.take(0) =~= Seq::<Rect2D>::empty());
    while i < place.len()
        invariant
            i <= place@.len(),
            (universe@, *stats) == claim_opaque(u0, place@.take(i as int), s0),
        decreases place.len() - i,
    {
        assert(place@.take(i + 1).drop_last() =~= place@.take(i as int));
        if universe.intersects_rect(place[i]) {
            let taken = Region::from_rect(place[i]);
            if universe.subtract_reporting(&taken) {
                stats.collapses_claim = bump(stats.collapses_claim);
            }
        }
        i = i + 1;
    }
    assert(place@.take(i as int) =~= place@);
}

fn claim_descendants(
    universe: &mut Region,
    place: &Vec<Rect2D>,
    mine: &Region,
    stats: &mut WalkStats,
)
    ensures
        (final(universe)@, *final(stats)) == claim_taken(
            old(universe)@,
            place@,
            mine@,
            *old(stats),
        ),
{
    let ghost u0 = universe@;
    let ghost s0 = *stats;
    let mut i: usize = 0;
    assert(place@.take(0) =~= Seq::<Rect2D>::empty());
    while i < place.len()
        invariant
            i <= place@.len(),
            (universe@, *stats) == claim_taken(u0, place@.take(i as int), mine@, s0),
        decreases place.len() - i,
    {
        assert(place@.take(i + 1).drop_last() =~= place@.take(i as int));
        if universe.intersects_rect(place[i]) {
            let mut taken = Region::from_rect(place[i]);
            if taken.subtract_reporting(mine) {
                stats.collapses_taken_skipped = bump(stats.collapses_taken_skipped);
            } else if universe.subtract_reporting(&taken) {
                stats.collapses_taken = bump(stats.collapses_taken);
            }
        }
        i = i + 1;
    }
    assert(place@.take(i as int) =~= place@);
}

fn finish_window(
    ctx: &WalkContext<'_>,
    xid: u32,
    geom: WindowGeometry,
    node: NodeDecision,
    is_leaf: bool,
    mine: &Region,
    universe: &mut Region,
    sink: &mut WalkSink,
    under_cow_subtree: bool,
)
    requires
        ctx.wf(),
        node.win_w == geom.width,
        node.win_h == geom.height,
        node.emits ==> node.store is Some && -0x1_0000 <= node.dx < 0x1_0000 && -0x1_0000 <= node.dy
            < 0x1_0000,
    ensures
        (final(universe)@, final(sink)@) == finish_node(
            ctx@,
            xid,
            geom,
            node@,
            is_leaf,
            mine@,
            old(universe)@,
            old(sink)@,
            under_cow_subtree,
        ),
{
    let mut emitted_presence: Option<(Emitted, ParticipantId)> = None;
    let ghost s0 = sink@;
    let ghost u0 = universe@;
    let ghost shown = if is_leaf { u0 } else { mine@ };
    let ext = Extent2D { width: ctx.layout.width as u32, height: ctx.layout.height as u32 };
    if node.emits {
        if let Some(info) = node.store {
            let (denom_w, denom_h) = match ctx.mode {
                Visibility::Off => (node.win_w, node.win_h),
                Visibility::On => (
                    len_as_i32(info.source_extent.width),
                    len_as_i32(info.source_extent.height),
                ),
            };
            let paint = NodePaint {
                dx: node.dx as i32,
                dy: node.dy as i32,
                denom_w,
                denom_h,
                view: info.source_view,
                alpha_passthrough: under_cow_subtree,
                source_id: info.source_id,
            };
            assert(paint == paint_of(ctx.mode, geom, node@, info, under_cow_subtree));
            let out = if is_leaf {
                emit_node(
                    sink,
                    ctx.mode,
                    &*universe,
                    &node.place,
                    paint,
                    ctx.store,
                    ext,
                    ctx.elsewhere,
                )
            } else {
                emit_node(sink, ctx.mode, mine, &node.place, paint, ctx.store, ext, ctx.elsewhere)
            };
            emitted_presence = Some(
                (
                    out,
                    ParticipantId {
                        role: SceneRole::Window,
                        xid,
                        generation: info.d_id.as_u64(),
                    },
                ),
            );
        }
    }
    let ghost s1 = sink@;
    if ctx.mode == Visibility::On {
        if node.opaque {
            claim_place(universe, &node.place, &mut sink.stats);
        } else if !is_leaf {
            claim_descendants(universe, &node.place, mine, &mut sink.stats);
        }
    }
    if let Some((out, participant)) = emitted_presence {
        push_presence(sink, node.place, out, participant);
    }
}

/// Visits one window and everything below it in the tree.
///
/// `universe` is what nothing above has claimed yet. At most `fuel` levels are
/// visited; a walk from a top-level window needs no more than there are windows.
pub fn visit_window_subtree(
    ctx: &WalkContext<'_>,
    fuel: usize,
    host_xid: u32,
    parent_abs_x: i32,
    parent_abs_y: i32,
    universe: &mut Region,
    sink: &mut WalkSink,
    under_redirected_ancestor: bool,
    under_cow_subtree: bool,
    clip: ClipBox,
)
    requires
        ctx.wf(),
        clip_ok(clip),
    ensures
        (final(universe)@, final(sink)@) == visited(
            ctx@,
            fuel as nat,
            host_xid,
            parent_abs_x as int,
            parent_abs_y as int,
            old(universe)@,
            old(sink)@,
            under_redirected_ancestor,
            under_cow_subtree,
            clip,
        ),
    decreases fuel,
{
    if fuel == 0 {
        return;
    }
    let geom = match ctx.windows.get(&host_xid) {
        None => {
            return;
        },
        Some(g) => *g,
    };
    if !geom.mapped {
        return;
    }
    let node = decide_node(
        ctx,
        host_xid,
        geom,
        parent_abs_x,
        parent_abs_y,
        under_redirected_ancestor,
        under_cow_subtree,
        clip,
    );
    let ghost d = node@;
    let ghost s0 = sink@;
    let ghost kids = children_of(ctx@.windows, host_xid);
    proof {
        lemma_index(ctx.children@, ctx.windows@, host_xid);
    }
    sink.stats.nodes_visited = bump(sink.stats.nodes_visited);
    let listed = ctx.children.get(&host_xid);
    let is_leaf = listed.is_none();
    let mut mine = Region::new();
    if ctx.mode == Visibility::On && !is_leaf {
        if node.place.len() == 1 {
            mine = universe.clip_to_rect(node.place[0]);
        } else {
            mine = union_places(universe, &node.place, &mut sink.stats);
        }
    }
    if let Some(list) = listed {
        let mut i: usize = list.len();
        let ghost start = visited_children(
            ctx@,
            (fuel - 1) as nat,
            kids,
            d.abs_x,
            d.abs_y,
            mine@,
            sink@,
            d.child_under_redirected_ancestor,
            under_cow_subtree,
            d.child_clip,
        );
        assert(kids.take(i as int) =~= kids);
        while i > 0
            invariant
                i <= list@.len(),
                list@ == kids,
                fuel > 0,
                ctx.wf(),
                d == node@,
                clip_ok(node.child_clip),
                start == visited_children(
                    ctx@,
                    (fuel - 1) as nat,
                    kids.take(i as int),
                    d.abs_x,
                    d.abs_y,
                    mine@,
                    sink@,
                    d.child_under_redirected_ancestor,
                    under_cow_subtree,
                    d.child_clip,
                ),
            decreases i,
        {
            assert(kids.take(i as int).drop_last() =~= kids.take(i - 1));
            visit_window_subtree(
                ctx,
                fuel - 1,
                list[i - 1],
                node.abs_x,
                node.abs_y,
                &mut mine,
                sink,
                node.child_under_redirected_ancestor,
                under_cow_subtree,
                node.child_clip,
            );
            i = i - 1;
        }
        assert(kids.take(0) =~= Seq::<u32>::empty());
    }
    finish_window(
        ctx,
        host_xid,
        geom,
        node,
        is_leaf,
        &mine,
        universe,
        sink,
        under_cow_subtree,
    );
}

} // verus!
