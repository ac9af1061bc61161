//! What every walk keeps: the lists it collects belong together, damage that is
//! shown is projected, and hidden windows still take part.

use vstd::prelude::*;

use crate::emit::{
    clip_to_pieces, emitted_sink, empty_sink, presence_pushed, present_damage, project_damage,
    reversed_sink, signature_of, visible_pieces, visible_px, NodePaint, SinkView,
};
use crate::geometry::{intersection, output_rect, projection, Extent2D, Rect2D};
use crate::ids::DrawableId;
use crate::region::rects_px;
use crate::region_set::{adding_keeps_all_damage, list_px};
use crate::scene_build::{
    build_of, built, root_emitted, root_of, suppresses_overlay, top_levels_visited, walked, whole_universe,
    CursorInput,
};
use crate::scene_diff::{ParticipantId, SceneRole};
use crate::store::{SnapshotView, StoreView};
use crate::visit::{finish_node, mine_of, paint_of, visited, visited_children, window_participant};
use crate::walk::{
    decision, no_clip, sat_add, ClipBox, DecisionView, Visibility, WalkInput, WalkStats,
};
use crate::windows::{children_of, WindowGeometry};

verus! {

/// Whether the lists of a build belong together: what is carried for
/// acknowledgement is presented, and what is presented or has pieces is sampled.
pub open spec fn lists_belong(
    snapshots: Seq<SnapshotView>,
    presented: Seq<DrawableId>,
    pieces: Seq<DrawableId>,
    sampled: Seq<DrawableId>,
) -> bool {
    &&& forall|i: int|
        0 <= i < snapshots.len() ==> presented.contains((#[trigger] snapshots[i]).id)
    &&& forall|i: int| 0 <= i < presented.len() ==> sampled.contains(#[trigger] presented[i])
    &&& forall|i: int| 0 <= i < pieces.len() ==> sampled.contains(#[trigger] pieces[i])
}

spec fn sink_belongs(s: SinkView) -> bool {
    lists_belong(s.snapshots, s.presented_ids, s.pieces_ids, s.sampled_ids)
}

/// Whether every snapshot is what the store holds of its drawable.
spec fn snapshots_current(s: SinkView, store: StoreView) -> bool {
    forall|i: int|
        0 <= i < s.snapshots.len() ==> store.peek((#[trigger] s.snapshots[i]).id) == Some(
            s.snapshots[i],
        )
}

/// Without visibility a presence is visible where it is.
spec fn all_visible(s: SinkView) -> bool {
    forall|i: int|
        0 <= i < s.participants.len() ==> (#[trigger] s.participants[i]).visible
            == s.participants[i].region
}

/// What a step of the walk keeps.
spec fn steps(input: WalkInput, s: SinkView, t: SinkView) -> bool {
    &&& sink_belongs(s) ==> sink_belongs(t)
    &&& snapshots_current(s, input.store) ==> snapshots_current(t, input.store)
    &&& input.mode == Visibility::Off && all_visible(s) ==> all_visible(t)
    &&& list_px(s.projected).subset_of(list_px(t.projected))
}

proof fn lemma_clip_to_pieces(l: Seq<Rect2D>, p: Rect2D, pieces: Seq<Rect2D>)
    ensures
        list_px(l).subset_of(list_px(clip_to_pieces(l, p, pieces).0)),
        forall|a: (int, int)|
            #![trigger list_px(clip_to_pieces(l, p, pieces).0).contains(a)]
            p.has(a.0, a.1) && list_px(pieces).contains(a) ==> list_px(
                clip_to_pieces(l, p, pieces).0,
            ).contains(a),
    decreases pieces.len(),
{
    if pieces.len() > 0 {
        let t = pieces.drop_last();
        let last = pieces.last();
        lemma_clip_to_pieces(l, p, t);
        let before = clip_to_pieces(l, p, t).0;
        let after = clip_to_pieces(l, p, pieces).0;
        match intersection(p, last) {
            Some(h) => {
                adding_keeps_all_damage(before, h);
            },
            None => {},
        }
        assert forall|a: (int, int)| p.has(a.0, a.1) && list_px(pieces).contains(
            a,
        ) implies list_px(after).contains(a) by {
            let i = choose|i: int| 0 <= i < pieces.len() && (#[trigger] pieces[i]).has(a.0, a.1);
            if i < t.len() {
                assert(t[i].has(a.0, a.1));
                assert(list_px(t).contains(a));
                assert(list_px(before).contains(a));
            } else {
                assert(last.has(a.0, a.1));
                let h = intersection(p, last);
                assert(h is Some);
                assert(h->0.px().contains(a));
            }
        }
    }
}

proof fn lemma_project_damage(
    mode: Visibility,
    l: Seq<Rect2D>,
    region: Seq<Rect2D>,
    n: NodePaint,
    pieces: Seq<Rect2D>,
    ext: Extent2D,
)
    ensures
        list_px(l).subset_of(list_px(project_damage(mode, l, region, n, pieces, ext).0)),
    decreases region.len(),
{
    if region.len() > 0 {
        lemma_project_damage(mode, l, region.drop_last(), n, pieces, ext);
        let before = project_damage(mode, l, region.drop_last(), n, pieces, ext).0;
        match projection(region.last(), n.dx as int, n.dy as int, ext.width, ext.height) {
            None => {},
            Some(p) => {
                adding_keeps_all_damage(before, p);
                lemma_clip_to_pieces(before, p, pieces);
            },
        }
    }
}

/// What of a drawable's damage lands on output pixel `a`, the drawable's corner
/// being at `(dx, dy)`.
pub open spec fn damaged_at(region: Seq<Rect2D>, dx: int, dy: int, a: (int, int)) -> bool {
    exists|i: int|
        0 <= i < region.len() && {
            let r = #[trigger] region[i];
            r.x0() + dx <= a.0 < r.x0() + dx + r.extent.width && r.y0() + dy <= a.1 < r.y0() + dy
                + r.extent.height
        }
}

proof fn lemma_damage_lands(
    l: Seq<Rect2D>,
    region: Seq<Rect2D>,
    n: NodePaint,
    pieces: Seq<Rect2D>,
    ext: Extent2D,
    a: (int, int),
)
    requires
        output_rect(ext).has(a.0, a.1),
        damaged_at(region, n.dx as int, n.dy as int, a),
    ensures
        list_px(project_damage(Visibility::Off, l, region, n, pieces, ext).0).contains(a),
        list_px(pieces).contains(a) ==> list_px(
            project_damage(Visibility::On, l, region, n, pieces, ext).0,
        ).contains(a),
    decreases region.len(),
{
    let t = region.drop_last();
    let i = choose|i: int|
        0 <= i < region.len() && {
            let r = #[trigger] region[i];
            r.x0() + n.dx <= a.0 < r.x0() + n.dx + r.extent.width && r.y0() + n.dy <= a.1 < r.y0()
                + n.dy + r.extent.height
        };
    let off = project_damage(Visibility::Off, l, t, n, pieces, ext).0;
    let on = project_damage(Visibility::On, l, t, n, pieces, ext).0;
    let p = projection(region.last(), n.dx as int, n.dy as int, ext.width, ext.height);
    if i < t.len() {
        assert(t[i] == region[i]);
        lemma_damage_lands(l, t, n, pieces, ext, a);
    }
    match p {
        None => {},
        Some(p) => {
            adding_keeps_all_damage(off, p);
            lemma_clip_to_pieces(on, p, pieces);
            if i == t.len() {
                assert(p.px().contains(a));
            }
        },
    }
}

proof fn lemma_contains_push(s: Seq<DrawableId>, x: DrawableId, y: DrawableId)
    requires
        s.contains(y) || x == y,
    ensures
        s.push(x).contains(y),
{
    if x == y {
        assert(s.push(x)[s.len() as int] == y);
    } else {
        let i = choose|i: int| 0 <= i < s.len() && s[i] == y;
        assert(s.push(x)[i] == y);
    }
}

proof fn lemma_emit_steps(
    input: WalkInput,
    s: SinkView,
    mine: Set<(int, int)>,
    place: Seq<Rect2D>,
    n: NodePaint,
)
    ensures
        steps(
            input,
            s,
            emitted_sink(
                s,
                input.mode,
                mine,
                place,
                n,
                input.store,
                input.extent(),
                input.elsewhere,
            ),
        ),
{
    let t = emitted_sink(
        s,
        input.mode,
        mine,
        place,
        n,
        input.store,
        input.extent(),
        input.elsewhere,
    );
    let pieces = match input.mode {
        Visibility::Off => Seq::empty(),
        Visibility::On => visible_pieces(mine, place),
    };
    match input.store.peek(n.source_id) {
        None => {},
        Some(snap) => {
            lemma_project_damage(input.mode, s.projected, snap.region, n, pieces, input.extent());
        },
    }
    if sink_belongs(s) {
        assert forall|i: int| 0 <= i < t.snapshots.len() implies t.presented_ids.contains(
            (#[trigger] t.snapshots[i]).id,
        ) by {
            if i < s.snapshots.len() {
                assert(t.snapshots[i] == s.snapshots[i]);
                if t.presented_ids != s.presented_ids {
                    lemma_contains_push(s.presented_ids, n.source_id, s.snapshots[i].id);
                }
            } else {
                lemma_contains_push(s.presented_ids, n.source_id, n.source_id);
            }
        }
        assert forall|i: int| 0 <= i < t.presented_ids.len() implies t.sampled_ids.contains(
            #[trigger] t.presented_ids[i],
        ) by {
            if i < s.presented_ids.len() {
                assert(t.presented_ids[i] == s.presented_ids[i]);
            }
            lemma_contains_push(s.sampled_ids, n.source_id, t.presented_ids[i]);
        }
        assert forall|i: int| 0 <= i < t.pieces_ids.len() implies t.sampled_ids.contains(
            #[trigger] t.pieces_ids[i],
        ) by {
            if i < s.pieces_ids.len() {
                assert(t.pieces_ids[i] == s.pieces_ids[i]);
            }
            lemma_contains_push(s.sampled_ids, n.source_id, t.pieces_ids[i]);
        }
    }
    if snapshots_current(s, input.store) {
        assert forall|i: int| 0 <= i < t.snapshots.len() implies input.store.peek(
            (#[trigger] t.snapshots[i]).id,
        ) == Some(t.snapshots[i]) by {
            if i < s.snapshots.len() {
                assert(t.snapshots[i] == s.snapshots[i]);
            }
        }
    }
}

proof fn lemma_presence_steps(
    input: WalkInput,
    s: SinkView,
    mine: Set<(int, int)>,
    place: Seq<Rect2D>,
    n: NodePaint,
    id: ParticipantId,
)
    ensures
        steps(
            input,
            s,
            presence_pushed(s, place, visible_px(input.mode, mine, place), signature_of(n, place), id),
        ),
{
    let t = presence_pushed(
        s,
        place,
        visible_px(input.mode, mine, place),
        signature_of(n, place),
        id,
    );
    if input.mode == Visibility::Off && all_visible(s) {
        assert forall|i: int| 0 <= i < t.participants.len() implies (
        #[trigger] t.participants[i]).visible == t.participants[i].region by {
            if i < s.participants.len() {
                assert(t.participants[i] == s.participants[i]);
            }
        }
    }
}

proof fn lemma_finish_steps(
    input: WalkInput,
    xid: u32,
    geom: WindowGeometry,
    d: DecisionView,
    leaf: bool,
    mine: Set<(int, int)>,
    u: Set<(int, int)>,
    s: SinkView,
    cow: bool,
)
    ensures
        steps(input, s, finish_node(input, xid, geom, d, leaf, mine, u, s, cow).1),
{
    let out = finish_node(input, xid, geom, d, leaf, mine, u, s, cow).1;
    if d.store is Some && d.emits {
        let info = d.store->0;
        let n = paint_of(input.mode, geom, d, info, cow);
        let shown = if leaf { u } else { mine };
        let e = emitted_sink(
            s,
            input.mode,
            shown,
            d.place,
            n,
            input.store,
            input.extent(),
            input.elsewhere,
        );
        lemma_emit_steps(input, s, shown, d.place, n);
        let c = SinkView { stats: out.stats, ..e };
        assert(steps(input, s, c));
        lemma_presence_steps(input, c, shown, d.place, n, window_participant(xid, info));
    }
}

proof fn lemma_visit_steps(
    input: WalkInput,
    fuel: nat,
    xid: u32,
    pax: int,
    pay: int,
    u: Set<(int, int)>,
    s: SinkView,
    red: bool,
    cow: bool,
    clip: ClipBox,
)
    ensures
        steps(input, s, visited(input, fuel, xid, pax, pay, u, s, red, cow, clip).1),
    decreases fuel, 0nat,
{
    if fuel == 0 || !input.windows.dom().contains(xid) || !input.windows[xid].mapped {
    } else {
        let geom = input.windows[xid];
        let d = decision(input, xid, geom, pax, pay, red, cow, clip);
        let kids = children_of(input.windows, xid);
        let leaf = kids.len() == 0;
        let counted = WalkStats { nodes_visited: sat_add(s.stats.nodes_visited, 1), ..s.stats };
        let (mine, stats) = if input.mode == Visibility::On && !leaf {
            mine_of(u, d.place, counted)
        } else {
            (Set::empty(), counted)
        };
        let s1 = SinkView { stats, ..s };
        assert(steps(input, s, s1));
        lemma_children_step(
            input,
            (fuel - 1) as nat,
            kids,
            d.abs_x,
            d.abs_y,
            mine,
            s1,
            d.child_under_redirected_ancestor,
            cow,
            d.child_clip,
        );
        let (left, t) = visited_children(
            input,
            (fuel - 1) as nat,
            kids,
            d.abs_x,
            d.abs_y,
            mine,
            s1,
            d.child_under_redirected_ancestor,
            cow,
            d.child_clip,
        );
        lemma_finish_steps(input, xid, geom, d, leaf, left, u, t, cow);
    }
}

proof fn lemma_children_step(
    input: WalkInput,
    fuel: nat,
    kids: Seq<u32>,
    pax: int,
    pay: int,
    u: Set<(int, int)>,
    s: SinkView,
    red: bool,
    cow: bool,
    clip: ClipBox,
)
    ensures
        steps(input, s, visited_children(input, fuel, kids, pax, pay, u, s, red, cow, clip).1),
    decreases fuel, kids.len() + 1,
{
    if kids.len() > 0 {
        lemma_visit_steps(input, fuel, kids.last(), pax, pay, u, s, red, cow, clip);
        let (u2, t) = visited(input, fuel, kids.last(), pax, pay, u, s, red, cow, clip);
        lemma_children_step(input, fuel, kids.drop_last(), pax, pay, u2, t, red, cow, clip);
    }
}

proof fn lemma_top_levels_step(
    input: WalkInput,
    fuel: nat,
    order: Seq<u32>,
    cow: Option<u32>,
    suppress: bool,
    u: Set<(int, int)>,
    s: SinkView,
)
    ensures
        steps(input, s, top_levels_visited(input, fuel, order, cow, suppress, u, s).1),
    decreases order.len(),
{
    if order.len() > 0 {
        let top = order.last();
        if suppress && cow == Some(top) {
            lemma_top_levels_step(input, fuel, order.drop_last(), cow, suppress, u, s);
        } else {
            lemma_visit_steps(
                input,
                fuel,
                top,
                0,
                0,
                u,
                s,
                false,
                cow == Some(top),
                no_clip(),
            );
            let (u2, t) = visited(
                input,
                fuel,
                top,
                0,
                0,
                u,
                s,
                false,
                cow == Some(top),
                no_clip(),
            );
            lemma_top_levels_step(input, fuel, order.drop_last(), cow, suppress, u2, t);
        }
    }
}

proof fn lemma_walked(input: WalkInput, window_id: u32, order: Seq<u32>, cow: Option<u32>)
    ensures
        sink_belongs(walked(input, window_id, order, cow)),
        snapshots_current(walked(input, window_id, order, cow), input.store),
        input.mode == Visibility::Off ==> all_visible(walked(input, window_id, order, cow)),
{
    let suppress = suppresses_overlay(input.windows, input.store, order, cow, input.layout);
    let e = empty_sink();
    let fuel = input.windows.dom().len();
    lemma_top_levels_step(input, fuel, order, cow, suppress, whole_universe(input), e);
    let (u, s) = top_levels_visited(input, fuel, order, cow, suppress, whole_universe(input), e);
    assert(sink_belongs(e) && snapshots_current(e, input.store) && all_visible(e));
    match root_of(input, window_id) {
        None => {},
        Some(root) => {
            let c = SinkView {
                stats: WalkStats { nodes_visited: sat_add(s.stats.nodes_visited, 1), ..s.stats },
                ..s
            };
            lemma_emit_steps(input, c, u, root.place, root.paint);
            let t = emitted_sink(
                c,
                input.mode,
                u,
                root.place,
                root.paint,
                input.store,
                input.extent(),
                input.elsewhere,
            );
            lemma_presence_steps(
                input,
                t,
                u,
                root.place,
                root.paint,
                ParticipantId {
                    role: SceneRole::Root,
                    xid: window_id,
                    generation: root.id.raw,
                },
            );
        },
    }
}

proof fn lemma_reversed_contains(s: Seq<DrawableId>, x: DrawableId)
    requires
        s.contains(x),
    ensures
        s.reverse().contains(x),
{
    let i = choose|i: int| 0 <= i < s.len() && s[i] == x;
    assert(s.reverse()[s.len() - 1 - i] == x);
}

/// The lists of every build belong together: a snapshot carried for
/// acknowledgement is what the store held, and its drawable was presented; what
/// is presented or has visible pieces was sampled.
pub proof fn carried_snapshots_were_presented(
    input: WalkInput,
    window_id: u32,
    order: Seq<u32>,
    cow: Option<u32>,
    cursor: CursorInput,
)
    ensures
        ({
            let b = built(input, window_id, order, cow, cursor);
            &&& lists_belong(b.snapshots, b.presented_ids, b.pieces_ids, b.sampled_ids)
            &&& forall|i: int|
                0 <= i < b.snapshots.len() ==> input.store.peek((#[trigger] b.snapshots[i]).id)
                    == Some(b.snapshots[i])
        }),
{
    lemma_walked(input, window_id, order, cow);
    let w = walked(input, window_id, order, cow);
    let r = build_of(reversed_sink(w));
    let b = built(input, window_id, order, cow, cursor);
    assert forall|i: int| 0 <= i < r.snapshots.len() implies r.presented_ids.contains(
        (#[trigger] r.snapshots[i]).id,
    ) && input.store.peek(r.snapshots[i].id) == Some(r.snapshots[i]) by {
        let j = w.snapshots.len() - 1 - i;
        assert(r.snapshots[i] == w.snapshots[j]);
        lemma_reversed_contains(w.presented_ids, w.snapshots[j].id);
    }
    assert forall|i: int| 0 <= i < r.presented_ids.len() implies r.sampled_ids.contains(
        #[trigger] r.presented_ids[i],
    ) by {
        let j = w.presented_ids.len() - 1 - i;
        assert(r.presented_ids[i] == w.presented_ids[j]);
        lemma_reversed_contains(w.sampled_ids, w.presented_ids[j]);
    }
    assert forall|i: int| 0 <= i < r.pieces_ids.len() implies r.sampled_ids.contains(
        #[trigger] r.pieces_ids[i],
    ) by {
        let j = w.pieces_ids.len() - 1 - i;
        assert(r.pieces_ids[i] == w.pieces_ids[j]);
        lemma_reversed_contains(w.sampled_ids, w.pieces_ids[j]);
    }
    assert(b.snapshots == r.snapshots);
    if b.sampled_ids != r.sampled_ids {
        let id = b.sampled_ids.last();
        assert(b.sampled_ids == r.sampled_ids.push(id));
        assert(b.presented_ids == r.presented_ids.push(id));
        assert(b.pieces_ids == r.pieces_ids.push(id));
        assert forall|i: int| 0 <= i < b.snapshots.len() implies b.presented_ids.contains(
            (#[trigger] b.snapshots[i]).id,
        ) by {
            lemma_contains_push(r.presented_ids, id, r.snapshots[i].id);
        }
        assert forall|i: int| 0 <= i < b.presented_ids.len() implies b.sampled_ids.contains(
            #[trigger] b.presented_ids[i],
        ) by {
            if i < r.presented_ids.len() {
                assert(b.presented_ids[i] == r.presented_ids[i]);
            }
            lemma_contains_push(r.sampled_ids, id, b.presented_ids[i]);
        }
        assert forall|i: int| 0 <= i < b.pieces_ids.len() implies b.sampled_ids.contains(
            #[trigger] b.pieces_ids[i],
        ) by {
            if i < r.pieces_ids.len() {
                assert(b.pieces_ids[i] == r.pieces_ids[i]);
            }
            lemma_contains_push(r.sampled_ids, id, b.pieces_ids[i]);
        }
    }
}

/// Without visibility every participant is visible wherever it is.
pub proof fn without_visibility_all_is_visible(
    input: WalkInput,
    window_id: u32,
    order: Seq<u32>,
    cow: Option<u32>,
    cursor: CursorInput,
)
    requires
        input.mode == Visibility::Off,
    ensures
        ({
            let b = built(input, window_id, order, cow, cursor);
            forall|i: int|
                0 <= i < b.participants.len() ==> (#[trigger] b.participants[i]).visible
                    == b.participants[i].region
        }),
{
    lemma_walked(input, window_id, order, cow);
    let w = walked(input, window_id, order, cow);
    let b = built(input, window_id, order, cow, cursor);
    assert forall|i: int| 0 <= i < b.participants.len() implies (#[trigger] b.participants[i]).visible
        == b.participants[i].region by {
        assert(b.participants[i] == w.participants[w.participants.len() - 1 - i]);
    }
}

/// Damage that is shown is projected: a damaged pixel of a node that lies on the
/// output and in a visible piece of the node (anywhere on the output without
/// visibility) is in the projected damage, and what was projected before stays.
pub proof fn shown_damage_is_projected(
    input: WalkInput,
    s: SinkView,
    mine: Set<(int, int)>,
    place: Seq<Rect2D>,
    n: NodePaint,
    a: (int, int),
)
    ensures
        ({
            let t = emitted_sink(
                s,
                input.mode,
                mine,
                place,
                n,
                input.store,
                input.extent(),
                input.elsewhere,
            );
            &&& list_px(s.projected).subset_of(list_px(t.projected))
            &&& input.store.peek(n.source_id) matches Some(snap) ==> (damaged_at(
                snap.region,
                n.dx as int,
                n.dy as int,
                a,
            ) && output_rect(input.extent()).has(a.0, a.1) && (input.mode == Visibility::Off
                || list_px(visible_pieces(mine, place)).contains(a)) ==> list_px(
                t.projected,
            ).contains(a))
        }),
{
    lemma_emit_steps(input, s, mine, place, n);
    match input.store.peek(n.source_id) {
        None => {},
        Some(snap) => {
            if damaged_at(snap.region, n.dx as int, n.dy as int, a) && output_rect(
                input.extent(),
            ).has(a.0, a.1) {
                let pieces = match input.mode {
                    Visibility::Off => Seq::empty(),
                    Visibility::On => visible_pieces(mine, place),
                };
                lemma_damage_lands(s.projected, snap.region, n, pieces, input.extent(), a);
            }
        },
    }
}

/// Damage that did not reach the screen here is not carried for acknowledgement:
/// hidden damage, damage off this output, and damage that another output shows
/// stay with their drawable. Only damage that no output shows counts as stranded.
pub proof fn unshown_damage_is_not_carried(
    s: SinkView,
    mode: Visibility,
    snap: SnapshotView,
    n: NodePaint,
    pieces: Seq<Rect2D>,
    ext: Extent2D,
    elsewhere: Set<DrawableId>,
)
    requires
        snap.region.len() > 0,
        !project_damage(mode, s.projected, snap.region, n, pieces, ext).2,
    ensures
        ({
            let t = present_damage(s, mode, Some(snap), n, pieces, ext, elsewhere);
            let on_output = project_damage(mode, s.projected, snap.region, n, pieces, ext).1;
            &&& t.snapshots == s.snapshots
            &&& t.presented_ids == s.presented_ids
            &&& on_output || elsewhere.contains(n.source_id) ==> t.stats.content_off_output
                == s.stats.content_off_output
            &&& !on_output && !elsewhere.contains(n.source_id) ==> t.stats.content_off_output > 0
        }),
{
}

/// What a walk projected, later nodes of it never take away.
pub proof fn projected_damage_only_grows(
    input: WalkInput,
    fuel: nat,
    xid: u32,
    parent_abs_x: int,
    parent_abs_y: int,
    universe: Set<(int, int)>,
    s: SinkView,
    under_redirected_ancestor: bool,
    under_cow_subtree: bool,
    clip: ClipBox,
)
    ensures
        list_px(s.projected).subset_of(
            list_px(
                visited(
                    input,
                    fuel,
                    xid,
                    parent_abs_x,
                    parent_abs_y,
                    universe,
                    s,
                    under_redirected_ancestor,
                    under_cow_subtree,
                    clip,
                ).1.projected,
            ),
        ),
{
    lemma_visit_steps(
        input,
        fuel,
        xid,
        parent_abs_x,
        parent_abs_y,
        universe,
        s,
        under_redirected_ancestor,
        under_cow_subtree,
        clip,
    );
}

/// The same of a list of siblings, of a window's own steps, of the top-levels and
/// of the whole walk.
pub proof fn lemma_projected_grows(
    input: WalkInput,
    fuel: nat,
    kids: Seq<u32>,
    pax: int,
    pay: int,
    u: Set<(int, int)>,
    s: SinkView,
    red: bool,
    cow: bool,
    clip: ClipBox,
)
    ensures
        list_px(s.projected).subset_of(
            list_px(
                visited_children(input, fuel, kids, pax, pay, u, s, red, cow, clip).1.projected,
            ),
        ),
{
    lemma_children_step(input, fuel, kids, pax, pay, u, s, red, cow, clip);
}

pub proof fn lemma_projected_grows_at(
    input: WalkInput,
    xid: u32,
    geom: WindowGeometry,
    d: DecisionView,
    leaf: bool,
    mine: Set<(int, int)>,
    u: Set<(int, int)>,
    s: SinkView,
    cow: bool,
)
    ensures
        list_px(s.projected).subset_of(
            list_px(finish_node(input, xid, geom, d, leaf, mine, u, s, cow).1.projected),
        ),
{
    lemma_finish_steps(input, xid, geom, d, leaf, mine, u, s, cow);
}

pub proof fn lemma_projected_grows_over(
    input: WalkInput,
    fuel: nat,
    order: Seq<u32>,
    cow: Option<u32>,
    suppress: bool,
    u: Set<(int, int)>,
    s: SinkView,
)
    ensures
        list_px(s.projected).subset_of(
            list_px(top_levels_visited(input, fuel, order, cow, suppress, u, s).1.projected),
        ),
{
    lemma_top_levels_step(input, fuel, order, cow, suppress, u, s);
}

pub proof fn lemma_projected_grows_under(
    input: WalkInput,
    window_id: u32,
    u: Set<(int, int)>,
    s: SinkView,
)
    ensures
        list_px(s.projected).subset_of(
            list_px(root_emitted(input, window_id, u, s).projected),
        ),
{
    match root_of(input, window_id) {
        None => {},
        Some(root) => {
            let c = SinkView {
                stats: WalkStats { nodes_visited: sat_add(s.stats.nodes_visited, 1), ..s.stats },
                ..s
            };
            lemma_emit_steps(input, c, u, root.place, root.paint);
        },
    }
}

/// A window that is drawn takes part in the scene whatever is visible of it:
/// its presence is pushed even when it is wholly covered.
pub proof fn covered_windows_take_part(
    input: WalkInput,
    xid: u32,
    geom: WindowGeometry,
    d: DecisionView,
    leaf: bool,
    mine: Set<(int, int)>,
    universe: Set<(int, int)>,
    s: SinkView,
    under_cow_subtree: bool,
)
    requires
        d.emits,
        d.store is Some,
        d.place.len() > 0,
        rects_px(d.place) != Set::<(int, int)>::empty(),
    ensures
        ({
            let t = finish_node(
                input,
                xid,
                geom,
                d,
                leaf,
                mine,
                universe,
                s,
                under_cow_subtree,
            ).1;
            &&& t.participants.len() == s.participants.len() + 1
            &&& t.participants.last().id == window_participant(xid, d.store->0)
            &&& t.participants.last().region == rects_px(d.place)
        }),
{
}

/// A window redirected for a compositor to read is never drawn: its own steps
/// add no draw, no sample and no presence.
pub proof fn manual_redirects_are_never_drawn(
    input: WalkInput,
    xid: u32,
    id: DrawableId,
    geom: WindowGeometry,
    parent_abs_x: int,
    parent_abs_y: int,
    under_redirected_ancestor: bool,
    under_cow_subtree: bool,
    clip: ClipBox,
    leaf: bool,
    mine: Set<(int, int)>,
    universe: Set<(int, int)>,
    s: SinkView,
)
    requires
        input.store.lookup(xid) == Some(id),
        input.store.get(id) is Some,
        !input.store.get(id)->0.scene_participating,
        input.store.redirected(id) is Some,
        input.store.redirected(id) != Some(id),
    ensures
        ({
            let d = decision(
                input,
                xid,
                geom,
                parent_abs_x,
                parent_abs_y,
                under_redirected_ancestor,
                under_cow_subtree,
                clip,
            );
            let t = finish_node(
                input,
                xid,
                geom,
                d,
                leaf,
                mine,
                universe,
                s,
                under_cow_subtree,
            ).1;
            t == (SinkView { stats: t.stats, ..s })
        }),
{
}

} // verus!
