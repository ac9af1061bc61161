//! Paint that is in sight is repainted: damage of the topmost window under a pixel
//! reaches that pixel.

use vstd::prelude::*;

use crate::damage_log::bare;
use crate::draw::CompositeDraw;
use crate::emit::{
    clip_to_pieces, drawn_rects, emitted_sink, empty_sink, project_damage, quads, reversed_sink,
    visible_pieces, visible_px, NodePaint, SinkView,
};
use crate::geometry::{intersection, output_rect, projection, Extent2D, Rect2D};
use crate::geometry_laws::a_projection_has_the_moved_pixels;
use crate::ids::DrawableId;
use crate::region::{
    boxes, in_plane, lemma_boxes_partition_pixels, lemma_capped, partitions, rects_px,
};
use crate::region_set::{lemma_bbox_of_list, list_px};
use crate::scene_build::{
    build_of, built, root_of, suppresses_overlay, top_levels_visited, walked, whole_universe,
    CursorInput,
};
use crate::scene_laws::{
    corner_from, corner_of, has_content, in_sight, lemma_children_listed, lemma_corner,
    lemma_path_fits, lemma_place_outside, lemma_sight_windows, lies_under, reaches, sampled_for,
    stands_above,
};
use crate::store::{SnapshotView, StoreView};
use crate::visibility_law::{clip_has, lemma_placed, on_screen};
use crate::visit::{
    claim_opaque, claim_taken, finish_node, mine_of, paint_of, visited, visited_children,
};
use crate::walk::{
    clip_ok, decision, layout_ok, no_clip, own_rects, placed_rect, placed_rects, sat_add,
    whole_window, ClipBox, Visibility, WalkInput, WalkStats,
};
use crate::walk_laws::{
    damaged_at, lemma_projected_grows, lemma_projected_grows_at, lemma_projected_grows_over,
    lemma_projected_grows_under, shown_damage_is_projected,
};
use crate::windows::{children_of, in_stack_order, is_child, stacks_below, RegionRect};

verus! {

// ── what is not claimed ─────────────────────────────────────────────
proof fn lemma_opaque_keeps(
    u: Set<(int, int)>,
    place: Seq<Rect2D>,
    stats: WalkStats,
    q: (int, int),
)
    requires
        u.contains(q),
        forall|i: int| 0 <= i < place.len() ==> !(#[trigger] place[i]).has(q.0, q.1),
    ensures
        claim_opaque(u, place, stats).0.contains(q),
    decreases place.len(),
{
    if place.len() > 0 {
        let t = place.drop_last();
        assert forall|i: int| 0 <= i < t.len() implies !(#[trigger] t[i]).has(q.0, q.1) by {
            assert(t[i] == place[i]);
        }
        lemma_opaque_keeps(u, t, stats, q);
        assert(!place[place.len() - 1].has(q.0, q.1));
        lemma_capped(claim_opaque(u, t, stats).0.difference(place.last().px()));
    }
}

proof fn lemma_taken_keeps(
    u: Set<(int, int)>,
    place: Seq<Rect2D>,
    mine: Set<(int, int)>,
    stats: WalkStats,
    q: (int, int),
)
    requires
        u.contains(q),
        forall|i: int| 0 <= i < place.len() ==> !(#[trigger] place[i]).has(q.0, q.1),
    ensures
        claim_taken(u, place, mine, stats).0.contains(q),
    decreases place.len(),
{
    if place.len() > 0 {
        let t = place.drop_last();
        assert forall|i: int| 0 <= i < t.len() implies !(#[trigger] t[i]).has(q.0, q.1) by {
            assert(t[i] == place[i]);
        }
        lemma_taken_keeps(u, t, mine, stats, q);
        assert(!place[place.len() - 1].has(q.0, q.1));
        lemma_capped(
            claim_taken(u, t, mine, stats).0.difference(place.last().px().difference(mine)),
        );
    }
}

/// A window that does not lie under a pixel leaves it to those below.
proof fn lemma_visit_keeps(
    input: WalkInput,
    fuel: nat,
    xid: u32,
    pax: int,
    pay: int,
    u: Set<(int, int)>,
    s: SinkView,
    red: bool,
    cow: bool,
    clip: ClipBox,
    q: (int, int),
)
    requires
        clip_ok(clip),
        layout_ok(input.layout),
        -0x7000_0000 <= pax <= 0x7000_0000,
        -0x7000_0000 <= pay <= 0x7000_0000,
        !lies_under(input, xid, pax, pay, q),
        u.contains(q),
    ensures
        visited(input, fuel, xid, pax, pay, u, s, red, cow, clip).0.contains(q),
{
    if fuel == 0 || !input.windows.dom().contains(xid) || !input.windows[xid].mapped {
    } else {
        let geom = input.windows[xid];
        let d = decision(input, xid, geom, pax, pay, red, cow, clip);
        lemma_place_outside(
            d.abs_x,
            d.abs_y,
            geom,
            clip,
            input,
            own_rects(input, xid, geom),
            q,
        );
        let kids = children_of(input.windows, xid);
        let leaf = kids.len() == 0;
        let counted = WalkStats { nodes_visited: sat_add(s.stats.nodes_visited, 1), ..s.stats };
        let (mine, stats) = if input.mode == Visibility::On && !leaf {
            mine_of(u, d.place, counted)
        } else {
            (Set::empty(), counted)
        };
        let (left, t) = visited_children(
            input,
            (fuel - 1) as nat,
            kids,
            d.abs_x,
            d.abs_y,
            mine,
            SinkView { stats, ..s },
            d.child_under_redirected_ancestor,
            cow,
            d.child_clip,
        );
        let emitted = match d.store {
            Some(info) => if d.emits {
                emitted_sink(
                    t,
                    input.mode,
                    if leaf { u } else { left },
                    d.place,
                    paint_of(input.mode, geom, d, info, cow),
                    input.store,
                    input.extent(),
                    input.elsewhere,
                )
            } else {
                t
            },
            None => t,
        };
        lemma_opaque_keeps(u, d.place, emitted.stats, q);
        lemma_taken_keeps(u, d.place, left, emitted.stats, q);
    }
}

proof fn lemma_children_keep(
    input: WalkInput,
    fuel: nat,
    kids: Seq<u32>,
    pax: int,
    pay: int,
    u: Set<(int, int)>,
    s: SinkView,
    red: bool,
    cow: bool,
    clip: ClipBox,
    q: (int, int),
)
    requires
        clip_ok(clip),
        layout_ok(input.layout),
        -0x7000_0000 <= pax <= 0x7000_0000,
        -0x7000_0000 <= pay <= 0x7000_0000,
        forall|i: int|
            0 <= i < kids.len() ==> !lies_under(input, #[trigger] kids[i], pax, pay, q),
        u.contains(q),
    ensures
        visited_children(input, fuel, kids, pax, pay, u, s, red, cow, clip).0.contains(q),
    decreases kids.len(),
{
    if kids.len() > 0 {
        assert(!lies_under(input, kids[kids.len() - 1], pax, pay, q));
        lemma_visit_keeps(input, fuel, kids.last(), pax, pay, u, s, red, cow, clip, q);
        let (u2, t) = visited(input, fuel, kids.last(), pax, pay, u, s, red, cow, clip);
        let rest = kids.drop_last();
        assert forall|i: int| 0 <= i < rest.len() implies !lies_under(
            input,
            #[trigger] rest[i],
            pax,
            pay,
            q,
        ) by {
            assert(rest[i] == kids[i]);
        }
        lemma_children_keep(input, fuel, rest, pax, pay, u2, t, red, cow, clip, q);
    }
}

// ── what is projected ───────────────────────────────────────────────
/// Whether the paint of a window's drawable has the texel under pixel `q`, the
/// window's corner being at `(x, y)`.
pub open spec fn painted_under(
    input: WalkInput,
    xid: u32,
    x: int,
    y: int,
    q: (int, int),
) -> bool {
    let d = sampled_for(input.store, xid);
    &&& d.scene_participating
    &&& exists|i: int|
        0 <= i < d.damage.len() && {
            let r = (#[trigger] d.damage[i]).rect;
            &&& r.offset.x <= q.0 + input.layout.x - x < r.offset.x + r.extent.width
            &&& r.offset.y <= q.1 + input.layout.y - y < r.offset.y + r.extent.height
        }
}

/// The place of an unshaped window that has the pixel is one rectangle that has it.
proof fn lemma_unshaped_place(
    input: WalkInput,
    xid: u32,
    pax: int,
    pay: int,
    red: bool,
    cow: bool,
    clip: ClipBox,
    q: (int, int),
) -> (r: Rect2D)
    requires
        clip_ok(clip),
        layout_ok(input.layout),
        on_screen(input, q),
        clip_has(clip, input.layout, q),
        !input.shapes.dom().contains(xid),
        lies_under(input, xid, pax, pay, q),
    ensures
        ({
            let geom = input.windows[xid];
            let d = decision(input, xid, geom, pax, pay, red, cow, clip);
            &&& d.place == seq![r]
            &&& r.has(q.0, q.1)
            &&& d.abs_x == pax + geom.x && d.abs_y == pay + geom.y
            &&& clip_ok(d.child_clip)
            &&& clip_has(d.child_clip, input.layout, q)
            &&& -0x7000_0000 <= d.abs_x <= 0x7000_0000
            &&& -0x7000_0000 <= d.abs_y <= 0x7000_0000
        }),
{
    let geom = input.windows[xid];
    let d = decision(input, xid, geom, pax, pay, red, cow, clip);
    let one = seq![whole_window(geom)];
    assert(own_rects(input, xid, geom) == one);
    assert(one.drop_last() =~= Seq::<RegionRect>::empty());
    let head = placed_rects(d.abs_x, d.abs_y, geom, clip, input, one.drop_last());
    assert(head == Seq::<Rect2D>::empty());
    lemma_placed(d.abs_x, d.abs_y, geom, clip, input.layout, whole_window(geom));
    let p = placed_rect(d.abs_x, d.abs_y, geom, clip, input.layout, whole_window(geom));
    assert(d.abs_x == pax + geom.x && d.abs_y == pay + geom.y);
    assert(p is Some && p->0.has(q.0, q.1));
    let out = output_rect(input.extent());
    let r = if input.mode == Visibility::On { intersection(p->0, out)->0 } else { p->0 };
    assert(input.mode == Visibility::On ==> intersection(p->0, out) is Some);
    assert(d.place == head.push(r));
    assert(d.place =~= seq![r]);
    r
}

proof fn lemma_piece_has(mine: Set<(int, int)>, r: Rect2D, q: (int, int))
    requires
        mine.contains(q),
        r.has(q.0, q.1),
    ensures
        list_px(visible_pieces(mine, seq![r])).contains(q),
{
    let one = seq![r];
    assert(one.last() == r);
    assert(one.drop_last() =~= Seq::<Rect2D>::empty());
    let p = mine.intersect(r.px());
    assert forall|x: int, y: int| #[trigger] p.contains((x, y)) implies in_plane(x, y) by {
        assert(r.px().contains((x, y)));
    }
    lemma_boxes_partition_pixels(p);
    assert(partitions(boxes(p), p));
    assert(p.contains((q.0, q.1)));
    let rest = visible_pieces(mine, one.drop_last());
    let all = visible_pieces(mine, one);
    assert(all == boxes(p) + rest);
    let i = choose|i: int| 0 <= i < boxes(p).len() && #[trigger] boxes(p)[i].has(q.0, q.1);
    assert(all[i].has(q.0, q.1));
}

proof fn lemma_finish_projects(
    input: WalkInput,
    xid: u32,
    pax: int,
    pay: int,
    cow: bool,
    clip: ClipBox,
    leaf: bool,
    mine: Set<(int, int)>,
    u: Set<(int, int)>,
    s: SinkView,
    q: (int, int),
)
    requires
        clip_ok(clip),
        layout_ok(input.layout),
        on_screen(input, q),
        clip_has(clip, input.layout, q),
        !input.shapes.dom().contains(xid),
        has_content(input.store, xid),
        lies_under(input, xid, pax, pay, q),
        painted_under(
            input,
            xid,
            pax + input.windows[xid].x,
            pay + input.windows[xid].y,
            q,
        ),
        input.mode == Visibility::On ==> (if leaf { u } else { mine }).contains(q),
    ensures
        ({
            let geom = input.windows[xid];
            let d = decision(input, xid, geom, pax, pay, false, cow, clip);
            list_px(
                finish_node(input, xid, geom, d, leaf, mine, u, s, cow).1.projected,
            ).contains(q)
        }),
{
    let geom = input.windows[xid];
    let d = decision(input, xid, geom, pax, pay, false, cow, clip);
    let r = lemma_unshaped_place(input, xid, pax, pay, false, cow, clip, q);
    let shown = if leaf { u } else { mine };
    assert(d.emits && d.store is Some);
    let info = d.store->0;
    let n = paint_of(input.mode, geom, d, info, cow);
    if input.mode == Visibility::On {
        lemma_piece_has(shown, r, q);
    }
    let src = sampled_for(input.store, xid);
    let i = choose|i: int|
        0 <= i < src.damage.len() && {
            let r = (#[trigger] src.damage[i]).rect;
            &&& r.offset.x <= q.0 + input.layout.x - (pax + geom.x) < r.offset.x + r.extent.width
            &&& r.offset.y <= q.1 + input.layout.y - (pay + geom.y) < r.offset.y + r.extent.height
        };
    let snap = input.store.peek(n.source_id);
    assert(snap is Some);
    assert(bare(src.damage)[i] == src.damage[i].rect);
    assert((snap->0).region[i] == src.damage[i].rect);
    assert(damaged_at((snap->0).region, n.dx as int, n.dy as int, q));
    shown_damage_is_projected(input, s, shown, d.place, n, q);
}

/// Whether none of a line of windows has a shape.
pub open spec fn unshaped(input: WalkInput, path: Seq<u32>) -> bool {
    forall|i: int| 0 <= i < path.len() ==> !input.shapes.dom().contains(#[trigger] path[i])
}

proof fn lemma_path_projects(
    input: WalkInput,
    fuel: nat,
    path: Seq<u32>,
    pax: int,
    pay: int,
    u: Set<(int, int)>,
    s: SinkView,
    cow: bool,
    clip: ClipBox,
    q: (int, int),
)
    requires
        input.windows.dom().finite(),
        clip_ok(clip),
        layout_ok(input.layout),
        on_screen(input, q),
        clip_has(clip, input.layout, q),
        fuel >= path.len(),
        in_sight(input, path, pax, pay, q),
        unshaped(input, path),
        has_content(input.store, path.last()),
        painted_under(
            input,
            path.last(),
            corner_from(input, path, pax, pay).0,
            corner_from(input, path, pax, pay).1,
            q,
        ),
        input.mode == Visibility::On ==> u.contains(q),
    ensures
        list_px(
            visited(input, fuel, path[0], pax, pay, u, s, false, cow, clip).1.projected,
        ).contains(q),
    decreases path.len(), 0nat,
{
    let xid = path[0];
    let geom = input.windows[xid];
    let d = decision(input, xid, geom, pax, pay, false, cow, clip);
    let kids = children_of(input.windows, xid);
    lemma_children_listed(input.windows, xid);
    let leaf = kids.len() == 0;
    let counted = WalkStats { nodes_visited: sat_add(s.stats.nodes_visited, 1), ..s.stats };
    let (mine, stats) = if input.mode == Visibility::On && !leaf {
        mine_of(u, d.place, counted)
    } else {
        (Set::empty(), counted)
    };
    let s1 = SinkView { stats, ..s };
    let r = lemma_unshaped_place(input, xid, pax, pay, false, cow, clip, q);
    assert(input.mode == Visibility::On && !leaf ==> mine.contains(q));
    let below = (fuel - 1) as nat;
    let red = d.child_under_redirected_ancestor;
    let (left, t) = visited_children(
        input,
        below,
        kids,
        d.abs_x,
        d.abs_y,
        mine,
        s1,
        red,
        cow,
        d.child_clip,
    );
    if path.len() == 1 {
        assert(path.drop_first() =~= Seq::<u32>::empty());
        assert(corner_from(input, path.drop_first(), pax + geom.x, pay + geom.y) == (
            pax + geom.x,
            pay + geom.y,
        ));
        assert forall|i: int| 0 <= i < kids.len() implies !lies_under(
            input,
            #[trigger] kids[i],
            d.abs_x,
            d.abs_y,
            q,
        ) by {
            assert(is_child(input.windows, xid, kids[i]));
        }
        if input.mode == Visibility::On && !leaf {
            lemma_children_keep(
                input,
                below,
                kids,
                d.abs_x,
                d.abs_y,
                mine,
                s1,
                red,
                cow,
                d.child_clip,
                q,
            );
        }
        lemma_finish_projects(input, xid, pax, pay, cow, clip, leaf, left, u, t, q);
    } else {
        let kid = path[1];
        assert(is_child(input.windows, xid, kid));
        let m = choose|m: int| 0 <= m < kids.len() && #[trigger] kids[m] == kid;
        let rest = path.drop_first();
        assert(rest[0] == kid && rest.last() == path.last());
        assert(!red);
        assert forall|i: int| 0 <= i < rest.len() implies !input.shapes.dom().contains(
            #[trigger] rest[i],
        ) by {
            assert(rest[i] == path[i + 1]);
        }
        lemma_kids_project(
            input,
            below,
            kids,
            m,
            rest,
            d.abs_x,
            d.abs_y,
            mine,
            s1,
            cow,
            d.child_clip,
            q,
            xid,
        );
        lemma_projected_grows_at(input, xid, geom, d, leaf, left, u, t, cow);
    }
}

proof fn lemma_kids_project(
    input: WalkInput,
    fuel: nat,
    kids: Seq<u32>,
    m: int,
    path: Seq<u32>,
    pax: int,
    pay: int,
    u: Set<(int, int)>,
    s: SinkView,
    cow: bool,
    clip: ClipBox,
    q: (int, int),
    parent: u32,
)
    requires
        input.windows.dom().finite(),
        clip_ok(clip),
        layout_ok(input.layout),
        on_screen(input, q),
        clip_has(clip, input.layout, q),
        -0x7000_0000 <= pax <= 0x7000_0000,
        -0x7000_0000 <= pay <= 0x7000_0000,
        fuel >= path.len(),
        in_sight(input, path, pax, pay, q),
        unshaped(input, path),
        has_content(input.store, path.last()),
        painted_under(
            input,
            path.last(),
            corner_from(input, path, pax, pay).0,
            corner_from(input, path, pax, pay).1,
            q,
        ),
        input.mode == Visibility::On ==> u.contains(q),
        0 <= m < kids.len(),
        kids[m] == path[0],
        in_stack_order(input.windows, kids),
        forall|i: int| 0 <= i < kids.len() ==> is_child(input.windows, parent, #[trigger] kids[i]),
        forall|c: u32|
            input.windows.dom().contains(c) && input.windows[c].parent == Some(parent)
                && stands_above(input, c, path[0]) ==> !#[trigger] lies_under(
                input,
                c,
                pax,
                pay,
                q,
            ),
    ensures
        list_px(
            visited_children(input, fuel, kids, pax, pay, u, s, false, cow, clip).1.projected,
        ).contains(q),
    decreases path.len(), kids.len(),
{
    let (u2, a) = visited(input, fuel, kids.last(), pax, pay, u, s, false, cow, clip);
    let rest = kids.drop_last();
    if m == kids.len() - 1 {
        lemma_path_projects(input, fuel, path, pax, pay, u, s, cow, clip, q);
        lemma_projected_grows(input, fuel, rest, pax, pay, u2, a, false, cow, clip);
    } else {
        assert(stacks_below(input.windows, kids[m], kids[kids.len() - 1]));
        assert(is_child(input.windows, parent, kids[kids.len() - 1]));
        assert(!lies_under(input, kids.last(), pax, pay, q));
        if input.mode == Visibility::On {
            lemma_visit_keeps(input, fuel, kids.last(), pax, pay, u, s, false, cow, clip, q);
        }
        assert forall|i: int| 0 <= i < rest.len() implies is_child(
            input.windows,
            parent,
            #[trigger] rest[i],
        ) by {
            assert(rest[i] == kids[i]);
        }
        lemma_kids_project(input, fuel, rest, m, path, pax, pay, u2, a, cow, clip, q, parent);
    }
}

proof fn lemma_tops_project(
    input: WalkInput,
    fuel: nat,
    order: Seq<u32>,
    k: int,
    path: Seq<u32>,
    cow: Option<u32>,
    suppress: bool,
    u: Set<(int, int)>,
    s: SinkView,
    q: (int, int),
)
    requires
        input.windows.dom().finite(),
        layout_ok(input.layout),
        on_screen(input, q),
        fuel >= path.len(),
        in_sight(input, path, 0, 0, q),
        unshaped(input, path),
        has_content(input.store, path.last()),
        painted_under(
            input,
            path.last(),
            corner_of(input, path).0,
            corner_of(input, path).1,
            q,
        ),
        input.mode == Visibility::On ==> u.contains(q),
        0 <= k < order.len(),
        order[k] == path[0],
        forall|j: int| k < j < order.len() ==> !lies_under(input, #[trigger] order[j], 0, 0, q),
        !(suppress && cow == Some(path[0])),
    ensures
        list_px(
            top_levels_visited(input, fuel, order, cow, suppress, u, s).1.projected,
        ).contains(q),
    decreases order.len(),
{
    let top = order.last();
    let rest = order.drop_last();
    let is_cow = cow == Some(top);
    if k == order.len() - 1 {
        lemma_corner(input, path, 0, 0);
        lemma_path_projects(input, fuel, path, 0, 0, u, s, is_cow, no_clip(), q);
        let (u2, t) = visited(input, fuel, top, 0, 0, u, s, false, is_cow, no_clip());
        lemma_projected_grows_over(input, fuel, rest, cow, suppress, u2, t);
    } else {
        assert(!lies_under(input, order[order.len() - 1], 0, 0, q));
        assert forall|j: int| k < j < rest.len() implies !lies_under(
            input,
            #[trigger] rest[j],
            0,
            0,
            q,
        ) by {
            assert(rest[j] == order[j]);
        }
        if suppress && is_cow {
            lemma_tops_project(input, fuel, rest, k, path, cow, suppress, u, s, q);
        } else {
            if input.mode == Visibility::On {
                lemma_visit_keeps(input, fuel, top, 0, 0, u, s, false, is_cow, no_clip(), q);
            }
            let (u2, t) = visited(input, fuel, top, 0, 0, u, s, false, is_cow, no_clip());
            lemma_tops_project(input, fuel, rest, k, path, cow, suppress, u2, t, q);
        }
    }
}

/// Paint into the topmost window under a pixel of the output is repainted there,
/// with visibility or without: if the paint has the texel that lies under the
/// pixel, the pixel is in the damage of the build.
pub proof fn paint_in_sight_is_repainted(
    input: WalkInput,
    window_id: u32,
    order: Seq<u32>,
    cow: Option<u32>,
    cursor: CursorInput,
    path: Seq<u32>,
    k: int,
    q: (int, int),
)
    requires
        layout_ok(input.layout),
        input.windows.dom().finite(),
        0 <= q.0 < input.layout.width,
        0 <= q.1 < input.layout.height,
        0 <= k < order.len(),
        in_sight(input, path, 0, 0, q),
        path.no_duplicates(),
        unshaped(input, path),
        order[k] == path[0],
        cow != Some(path[0]),
        forall|j: int| k < j < order.len() ==> !lies_under(input, #[trigger] order[j], 0, 0, q),
        has_content(input.store, path.last()),
        painted_under(
            input,
            path.last(),
            corner_of(input, path).0,
            corner_of(input, path).1,
            q,
        ),
    ensures
        list_px(built(input, window_id, order, cow, cursor).projected_damage).contains(q),
{
    lemma_sight_windows(input, path, 0, 0, q);
    lemma_path_fits(path, input.windows.dom());
    let suppress = suppresses_overlay(input.windows, input.store, order, cow, input.layout);
    let fuel = input.windows.dom().len();
    let e = empty_sink();
    let un = whole_universe(input);
    assert(output_rect(input.extent()).px().contains(q));
    lemma_tops_project(input, fuel, order, k, path, cow, suppress, un, e, q);
    let (u, t) = top_levels_visited(input, fuel, order, cow, suppress, un, e);
    lemma_projected_grows_under(input, window_id, u, t);
    let w = walked(input, window_id, order, cow);
    assert(built(input, window_id, order, cow, cursor).projected_damage == w.projected);
}

// ── what becomes of a node's paint ──────────────────────────────────
/// Whether output pixel `a` is one that a node's paint falls on and the node
/// shows.
pub open spec fn shows_paint_at(
    mode: Visibility,
    region: Seq<Rect2D>,
    n: NodePaint,
    pieces: Seq<Rect2D>,
    ext: Extent2D,
    a: (int, int),
) -> bool {
    &&& falls_on(region, n, ext, a)
    &&& mode == Visibility::Off || list_px(pieces).contains(a)
}

/// Whether a node's paint falls on output pixel `a`.
pub open spec fn falls_on(region: Seq<Rect2D>, n: NodePaint, ext: Extent2D, a: (int, int)) -> bool {
    0 <= a.0 < ext.width && 0 <= a.1 < ext.height && damaged_at(region, n.dx as int, n.dy as int, a)
}

proof fn lemma_hit(l: Seq<Rect2D>, p: Rect2D, pieces: Seq<Rect2D>)
    ensures
        clip_to_pieces(l, p, pieces).1 <==> exists|a: (int, int)|
            p.has(a.0, a.1) && #[trigger] list_px(pieces).contains(a),
        !clip_to_pieces(l, p, pieces).1 ==> clip_to_pieces(l, p, pieces).0 == l,
    decreases pieces.len(),
{
    if pieces.len() > 0 {
        let t = pieces.drop_last();
        lemma_hit(l, p, t);
        let last = pieces.last();
        assert(last == pieces[pieces.len() - 1]);
        if clip_to_pieces(l, p, pieces).1 {
            match intersection(p, last) {
                Some(h) => {
                    let a = (h.x0(), h.y0());
                    assert(p.has(a.0, a.1) && last.has(a.0, a.1));
                    assert(list_px(pieces).contains(a));
                },
                None => {
                    let a = choose|a: (int, int)|
                        p.has(a.0, a.1) && #[trigger] list_px(t).contains(a);
                    let i = choose|i: int| 0 <= i < t.len() && (#[trigger] t[i]).has(a.0, a.1);
                    assert(pieces[i].has(a.0, a.1));
                    assert(list_px(pieces).contains(a));
                },
            }
        }
        if exists|a: (int, int)| p.has(a.0, a.1) && #[trigger] list_px(pieces).contains(a) {
            let a = choose|a: (int, int)| p.has(a.0, a.1) && #[trigger] list_px(pieces).contains(a);
            let i = choose|i: int| 0 <= i < pieces.len() && (#[trigger] pieces[i]).has(a.0, a.1);
            if i < t.len() {
                assert(t[i].has(a.0, a.1));
                assert(list_px(t).contains(a));
            } else {
                assert(intersection(p, last) is Some);
            }
        }
    }
}

proof fn lemma_falls_on_more(region: Seq<Rect2D>, n: NodePaint, ext: Extent2D, a: (int, int))
    requires
        region.len() > 0,
        ext.width <= i32::MAX,
        ext.height <= i32::MAX,
    ensures
        falls_on(region, n, ext, a) <==> falls_on(region.drop_last(), n, ext, a) || (projection(
            region.last(),
            n.dx as int,
            n.dy as int,
            ext.width,
            ext.height,
        ) matches Some(p) && p.has(a.0, a.1)),
{
    let t = region.drop_last();
    a_projection_has_the_moved_pixels(
        region.last(),
        n.dx as int,
        n.dy as int,
        ext.width,
        ext.height,
        a,
    );
    assert(region.last() == region[region.len() - 1]);
    if falls_on(region, n, ext, a) {
        let i = choose|i: int|
            0 <= i < region.len() && {
                let r = #[trigger] region[i];
                r.x0() + n.dx <= a.0 < r.x0() + n.dx + r.extent.width && r.y0() + n.dy <= a.1
                    < r.y0() + n.dy + r.extent.height
            };
        if i < t.len() {
            assert(t[i] == region[i]);
        }
    }
    if falls_on(t, n, ext, a) {
        let i = choose|i: int|
            0 <= i < t.len() && {
                let r = #[trigger] t[i];
                r.x0() + n.dx <= a.0 < r.x0() + n.dx + r.extent.width && r.y0() + n.dy <= a.1
                    < r.y0() + n.dy + r.extent.height
            };
        assert(region[i] == t[i]);
    }
}

proof fn lemma_project_flags(
    mode: Visibility,
    l: Seq<Rect2D>,
    region: Seq<Rect2D>,
    n: NodePaint,
    pieces: Seq<Rect2D>,
    ext: Extent2D,
)
    requires
        ext.width <= i32::MAX,
        ext.height <= i32::MAX,
    ensures
        project_damage(mode, l, region, n, pieces, ext).1 <==> exists|a: (int, int)| #[trigger]
            falls_on(region, n, ext, a),
        project_damage(mode, l, region, n, pieces, ext).2 <==> exists|a: (int, int)| #[trigger]
            shows_paint_at(mode, region, n, pieces, ext, a),
        !project_damage(mode, l, region, n, pieces, ext).2 ==> project_damage(
            mode,
            l,
            region,
            n,
            pieces,
            ext,
        ).0 == l,
    decreases region.len(),
{
    let out = project_damage(mode, l, region, n, pieces, ext);
    if region.len() == 0 {
    } else {
        let t = region.drop_last();
        lemma_project_flags(mode, l, t, n, pieces, ext);
        let before = project_damage(mode, l, t, n, pieces, ext);
        let p = projection(region.last(), n.dx as int, n.dy as int, ext.width, ext.height);
        if before.1 {
            let a = choose|a: (int, int)| #[trigger] falls_on(t, n, ext, a);
            lemma_falls_on_more(region, n, ext, a);
        }
        if before.2 {
            let a = choose|a: (int, int)| #[trigger] shows_paint_at(mode, t, n, pieces, ext, a);
            lemma_falls_on_more(region, n, ext, a);
            assert(shows_paint_at(mode, region, n, pieces, ext, a));
        }
        if p is Some {
            let c = (p->0.x0(), p->0.y0());
            a_projection_has_the_moved_pixels(
                region.last(),
                n.dx as int,
                n.dy as int,
                ext.width,
                ext.height,
                c,
            );
            lemma_falls_on_more(region, n, ext, c);
            lemma_hit(before.0, p->0, pieces);
            if mode == Visibility::Off {
                assert(shows_paint_at(mode, region, n, pieces, ext, c));
            } else if clip_to_pieces(before.0, p->0, pieces).1 {
                let a = choose|a: (int, int)|
                    p->0.has(a.0, a.1) && #[trigger] list_px(pieces).contains(a);
                lemma_falls_on_more(region, n, ext, a);
                assert(shows_paint_at(mode, region, n, pieces, ext, a));
            }
        }
        if exists|a: (int, int)| #[trigger] falls_on(region, n, ext, a) {
            let a = choose|a: (int, int)| #[trigger] falls_on(region, n, ext, a);
            lemma_falls_on_more(region, n, ext, a);
        }
        if exists|a: (int, int)| #[trigger] shows_paint_at(mode, region, n, pieces, ext, a) {
            let a = choose|a: (int, int)| #[trigger]
                shows_paint_at(mode, region, n, pieces, ext, a);
            lemma_falls_on_more(region, n, ext, a);
            if falls_on(t, n, ext, a) {
                assert(shows_paint_at(mode, t, n, pieces, ext, a));
            }
        }
    }
}

/// What becomes of a node's paint is decided by where it falls. If a pixel that the
/// node shows has some, it is presented and carried for acknowledgement. If not, it
/// repaints nothing and stays with its drawable: hidden, if it falls on the output;
/// on another output, if one shows the drawable; and stranded otherwise, which alone
/// is counted as such.
pub proof fn paint_is_carried_exactly_if_it_shows(
    s: SinkView,
    input: WalkInput,
    mine: Set<(int, int)>,
    place: Seq<Rect2D>,
    n: NodePaint,
    snap: SnapshotView,
)
    requires
        input.store.peek(n.source_id) == Some(snap),
        snap.region.len() > 0,
        s.stats.content_off_output < u64::MAX,
    ensures
        ({
            let t = emitted_sink(
                s,
                input.mode,
                mine,
                place,
                n,
                input.store,
                input.extent(),
                input.elsewhere,
            );
            let pieces = visible_pieces(mine, place);
            let shows = exists|a: (int, int)| #[trigger]
                shows_paint_at(input.mode, snap.region, n, pieces, input.extent(), a);
            let falls = exists|a: (int, int)| #[trigger]
                falls_on(snap.region, n, input.extent(), a);
            let stranded = !falls && !input.elsewhere.contains(n.source_id);
            &&& shows ==> t.snapshots == s.snapshots.push(snap) && t.presented_ids
                == s.presented_ids.push(n.source_id)
            &&& !shows ==> t.snapshots == s.snapshots && t.presented_ids == s.presented_ids
                && t.projected == s.projected
            &&& t.stats.content_off_output == s.stats.content_off_output + (if stranded {
                1int
            } else {
                0int
            })
        }),
{
    let pieces = match input.mode {
        Visibility::Off => Seq::empty(),
        Visibility::On => visible_pieces(mine, place),
    };
    lemma_project_flags(
        input.mode,
        s.projected,
        snap.region,
        n,
        pieces,
        input.extent(),
    );
    assert forall|a: (int, int)| #[trigger] shows_paint_at(
        input.mode,
        snap.region,
        n,
        pieces,
        input.extent(),
        a,
    ) == shows_paint_at(
        input.mode,
        snap.region,
        n,
        visible_pieces(mine, place),
        input.extent(),
        a,
    ) by {}
    if exists|a: (int, int)| #[trigger]
        shows_paint_at(
            input.mode,
            snap.region,
            n,
            visible_pieces(mine, place),
            input.extent(),
            a,
        ) {
        let a = choose|a: (int, int)| #[trigger]
            shows_paint_at(
                input.mode,
                snap.region,
                n,
                visible_pieces(mine, place),
                input.extent(),
                a,
            );
        assert(shows_paint_at(input.mode, snap.region, n, pieces, input.extent(), a));
        assert(falls_on(snap.region, n, input.extent(), a));
    }
}

// ── pieces ──────────────────────────────────────────────────────────
/// Whether a drawable is what a view samples.
pub open spec fn samples(store: StoreView, id: DrawableId, view: u64) -> bool {
    store.get(id) matches Some(d) && d.storage.sample_view == view
}

/// Whether some drawable with pieces is what a view samples.
pub open spec fn has_piece(store: StoreView, pieces: Seq<DrawableId>, view: u64) -> bool {
    exists|m: int| 0 <= m < pieces.len() && samples(store, #[trigger] pieces[m], view)
}

/// Whether some draw samples a drawable.
pub open spec fn has_draw(store: StoreView, draws: Seq<CompositeDraw>, id: DrawableId) -> bool {
    exists|i: int| 0 <= i < draws.len() && samples(store, id, (#[trigger] draws[i]).image_view)
}

/// Whether draws and pieces belong to each other: every draw is of a drawable with
/// pieces, and every drawable with pieces is drawn.
pub open spec fn pieces_are_drawn(
    store: StoreView,
    draws: Seq<CompositeDraw>,
    pieces: Seq<DrawableId>,
) -> bool {
    &&& forall|i: int|
        0 <= i < draws.len() ==> has_piece(store, pieces, (#[trigger] draws[i]).image_view)
    &&& forall|m: int| 0 <= m < pieces.len() ==> has_draw(store, draws, #[trigger] pieces[m])
}

proof fn lemma_more_pieces(
    store: StoreView,
    draws: Seq<CompositeDraw>,
    more: Seq<CompositeDraw>,
    pieces: Seq<DrawableId>,
    id: DrawableId,
)
    requires
        pieces_are_drawn(store, draws, pieces),
        more.len() > 0,
        forall|i: int| 0 <= i < more.len() ==> samples(store, id, (#[trigger] more[i]).image_view),
    ensures
        pieces_are_drawn(store, draws + more, pieces.push(id)),
{
    let d = draws + more;
    let p = pieces.push(id);
    let k = pieces.len() as int;
    assert(p[k] == id);
    assert forall|i: int| 0 <= i < d.len() implies has_piece(
        store,
        p,
        (#[trigger] d[i]).image_view,
    ) by {
        if i < draws.len() {
            let view = draws[i].image_view;
            assert(has_piece(store, pieces, view));
            let m = choose|m: int| 0 <= m < pieces.len() && samples(store, #[trigger] pieces[m], view);
            assert(samples(store, p[m], view));
        } else {
            assert(d[i] == more[i - draws.len()]);
            assert(samples(store, p[k], d[i].image_view));
        }
    }
    assert forall|m: int| 0 <= m < p.len() implies has_draw(store, d, #[trigger] p[m]) by {
        if m < k {
            let x = pieces[m];
            assert(has_draw(store, draws, x));
            let i = choose|i: int|
                0 <= i < draws.len() && samples(store, x, (#[trigger] draws[i]).image_view);
            assert(samples(store, x, d[i].image_view));
        } else {
            assert(d[draws.len() as int] == more[0]);
            assert(samples(store, id, d[draws.len() as int].image_view));
        }
    }
}

proof fn lemma_reversed_pieces(
    store: StoreView,
    draws: Seq<CompositeDraw>,
    pieces: Seq<DrawableId>,
)
    requires
        pieces_are_drawn(store, draws, pieces),
    ensures
        pieces_are_drawn(store, draws.reverse(), pieces.reverse()),
{
    let d = draws.reverse();
    let p = pieces.reverse();
    assert forall|i: int| 0 <= i < d.len() implies has_piece(
        store,
        p,
        (#[trigger] d[i]).image_view,
    ) by {
        let view = draws[draws.len() - 1 - i].image_view;
        assert(has_piece(store, pieces, view));
        let m = choose|m: int| 0 <= m < pieces.len() && samples(store, #[trigger] pieces[m], view);
        assert(samples(store, p[pieces.len() - 1 - m], view));
    }
    assert forall|m: int| 0 <= m < p.len() implies has_draw(store, d, #[trigger] p[m]) by {
        let x = pieces[pieces.len() - 1 - m];
        assert(has_draw(store, draws, x));
        let i = choose|i: int|
            0 <= i < draws.len() && samples(store, x, (#[trigger] draws[i]).image_view);
        assert(samples(store, x, d[draws.len() - 1 - i].image_view));
    }
}

proof fn lemma_emit_pieces(
    input: WalkInput,
    s: SinkView,
    mine: Set<(int, int)>,
    place: Seq<Rect2D>,
    n: NodePaint,
)
    requires
        pieces_are_drawn(input.store, s.draws, s.pieces_ids),
        samples(input.store, n.source_id, n.view),
    ensures
        ({
            let t = emitted_sink(
                s,
                input.mode,
                mine,
                place,
                n,
                input.store,
                input.extent(),
                input.elsewhere,
            );
            pieces_are_drawn(input.store, t.draws, t.pieces_ids)
        }),
{
    let t = emitted_sink(
        s,
        input.mode,
        mine,
        place,
        n,
        input.store,
        input.extent(),
        input.elsewhere,
    );
    let rects = drawn_rects(input.mode, mine, place);
    let more = quads(n, rects);
    assert(t.draws == s.draws + more);
    if rects.len() == 0 {
        assert(t.draws =~= s.draws);
    } else {
        lemma_more_pieces(input.store, s.draws, more, s.pieces_ids, n.source_id);
    }
}

proof fn lemma_visit_pieces(
    input: WalkInput,
    fuel: nat,
    xid: u32,
    pax: int,
    pay: int,
    u: Set<(int, int)>,
    s: SinkView,
    red: bool,
    cow: bool,
    clip: ClipBox,
)
    requires
        pieces_are_drawn(input.store, s.draws, s.pieces_ids),
    ensures
        ({
            let t = visited(input, fuel, xid, pax, pay, u, s, red, cow, clip).1;
            pieces_are_drawn(input.store, t.draws, t.pieces_ids)
        }),
    decreases fuel, 0nat,
{
    if fuel == 0 || !input.windows.dom().contains(xid) || !input.windows[xid].mapped {
    } else {
        let geom = input.windows[xid];
        let d = decision(input, xid, geom, pax, pay, red, cow, clip);
        let kids = children_of(input.windows, xid);
        let leaf = kids.len() == 0;
        let counted = WalkStats { nodes_visited: sat_add(s.stats.nodes_visited, 1), ..s.stats };
        let (mine, stats) = if input.mode == Visibility::On && !leaf {
            mine_of(u, d.place, counted)
        } else {
            (Set::empty(), counted)
        };
        let s1 = SinkView { stats, ..s };
        lemma_children_pieces(
            input,
            (fuel - 1) as nat,
            kids,
            d.abs_x,
            d.abs_y,
            mine,
            s1,
            d.child_under_redirected_ancestor,
            cow,
            d.child_clip,
        );
        let (left, t) = visited_children(
            input,
            (fuel - 1) as nat,
            kids,
            d.abs_x,
            d.abs_y,
            mine,
            s1,
            d.child_under_redirected_ancestor,
            cow,
            d.child_clip,
        );
        if d.store is Some && d.emits {
            let n = paint_of(input.mode, geom, d, d.store->0, cow);
            lemma_emit_pieces(input, t, if leaf { u } else { left }, d.place, n);
        }
    }
}

proof fn lemma_children_pieces(
    input: WalkInput,
    fuel: nat,
    kids: Seq<u32>,
    pax: int,
    pay: int,
    u: Set<(int, int)>,
    s: SinkView,
    red: bool,
    cow: bool,
    clip: ClipBox,
)
    requires
        pieces_are_drawn(input.store, s.draws, s.pieces_ids),
    ensures
        ({
            let t = visited_children(input, fuel, kids, pax, pay, u, s, red, cow, clip).1;
            pieces_are_drawn(input.store, t.draws, t.pieces_ids)
        }),
    decreases fuel, kids.len() + 1,
{
    if kids.len() > 0 {
        lemma_visit_pieces(input, fuel, kids.last(), pax, pay, u, s, red, cow, clip);
        let (u2, t) = visited(input, fuel, kids.last(), pax, pay, u, s, red, cow, clip);
        lemma_children_pieces(input, fuel, kids.drop_last(), pax, pay, u2, t, red, cow, clip);
    }
}

proof fn lemma_tops_pieces(
    input: WalkInput,
    fuel: nat,
    order: Seq<u32>,
    cow: Option<u32>,
    suppress: bool,
    u: Set<(int, int)>,
    s: SinkView,
)
    requires
        pieces_are_drawn(input.store, s.draws, s.pieces_ids),
    ensures
        ({
            let t = top_levels_visited(input, fuel, order, cow, suppress, u, s).1;
            pieces_are_drawn(input.store, t.draws, t.pieces_ids)
        }),
    decreases order.len(),
{
    if order.len() > 0 {
        let top = order.last();
        let rest = order.drop_last();
        if suppress && cow == Some(top) {
            lemma_tops_pieces(input, fuel, rest, cow, suppress, u, s);
        } else {
            let is_cow = cow == Some(top);
            lemma_visit_pieces(input, fuel, top, 0, 0, u, s, false, is_cow, no_clip());
            let (u2, t) = visited(input, fuel, top, 0, 0, u, s, false, is_cow, no_clip());
            lemma_tops_pieces(input, fuel, rest, cow, suppress, u2, t);
        }
    }
}

/// In every build a drawable counts as having pieces exactly if it is drawn: every
/// draw is of a drawable with pieces, the root's and the cursor's too, and every
/// drawable with pieces has a draw.
pub proof fn what_has_pieces_is_drawn(
    input: WalkInput,
    window_id: u32,
    order: Seq<u32>,
    cow: Option<u32>,
    cursor: CursorInput,
)
    ensures
        ({
            let b = built(input, window_id, order, cow, cursor);
            pieces_are_drawn(input.store, b.draws, b.pieces_ids)
        }),
{
    let suppress = suppresses_overlay(input.windows, input.store, order, cow, input.layout);
    let fuel = input.windows.dom().len();
    let e = empty_sink();
    let un = whole_universe(input);
    lemma_tops_pieces(input, fuel, order, cow, suppress, un, e);
    let (u, t) = top_levels_visited(input, fuel, order, cow, suppress, un, e);
    if root_of(input, window_id) is Some {
        let root = root_of(input, window_id)->0;
        let c = SinkView {
            stats: WalkStats { nodes_visited: sat_add(t.stats.nodes_visited, 1), ..t.stats },
            ..t
        };
        lemma_emit_pieces(input, c, u, root.place, root.paint);
    }
    let w = walked(input, window_id, order, cow);
    assert(pieces_are_drawn(input.store, w.draws, w.pieces_ids));
    let r = build_of(reversed_sink(w));
    lemma_reversed_pieces(input.store, w.draws, w.pieces_ids);
    let b = built(input, window_id, order, cow, cursor);
    if b.draws != r.draws {
        let last = b.draws.last();
        let id = b.pieces_ids.last();
        assert(b.draws == r.draws.push(last));
        assert(b.draws =~= r.draws + seq![last]);
        assert(b.pieces_ids == r.pieces_ids.push(id));
        lemma_more_pieces(input.store, r.draws, seq![last], r.pieces_ids, id);
    }
}

/// What counts as visible of a participant has every pixel of its pieces, and is
/// empty if it has none; without visibility it is its place.
pub proof fn what_is_visible_has_all_pieces(mine: Set<(int, int)>, place: Seq<Rect2D>)
    ensures
        list_px(visible_pieces(mine, place)).subset_of(visible_px(Visibility::On, mine, place)),
        visible_pieces(mine, place).len() == 0 ==> visible_px(Visibility::On, mine, place)
            == Set::<(int, int)>::empty(),
        visible_px(Visibility::Off, mine, place) == rects_px(place),
{
    let pieces = visible_pieces(mine, place);
    if pieces.len() > 0 {
        lemma_bbox_of_list(pieces);
    } else {
        assert(list_px(pieces) =~= Set::empty());
    }
}

} // verus!
