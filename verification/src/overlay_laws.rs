//! Who takes part in a scene, and when a compositor's overlay gives way.

use vstd::prelude::*;

use crate::cursor_laws::spriteless;
use crate::draw::CompositeDraw;
use crate::emit::{empty_sink, PresenceView, SinkView};
use crate::geometry::{intersection, output_rect, Rect2D};
use crate::region::{lemma_capped, rects_px};
use crate::region_set::list_px;
use crate::scene_build::{
    built, root_of, suppresses_overlay, top_levels_visited, topmost_on_output, walked,
    whole_universe, CursorInput,
};
use crate::scene_diff::{ParticipantId, SceneRole};
use crate::scene_laws::{
    corner_of, has_content, hit_at, in_sight, lemma_children_extend, lemma_extends_twice,
    lemma_finish_hits, lemma_first_seen, lemma_no_sprite, lemma_root_extends,
    lemma_shown_unclipped, lemma_top_levels_extend, lies_under, reaches, sampled_for, unclipped,
};
use crate::store::{DrawableKind, StoreView};
use crate::visibility_law::{clip_has, lemma_placed, on_screen, parents_unshaped, shown_of, Sample};
use crate::visit::{finish_node, mine_of, paint_of, visited, visited_children};
use crate::walk::{
    clip_ok, decision, layout_ok, no_clip, own_rects, placed_rect, placed_rects, sat_add,
    store_info, whole_window, ClipBox, DecisionView, NodeStoreInfo, Visibility, WalkInput,
    WalkStats,
};
use crate::windows::{children_of, OutputLayout, RegionRect, WindowGeometry};

verus! {

/// Whether some pixel of the output lies under a top-level.
pub open spec fn meets_output(g: WindowGeometry, l: OutputLayout) -> bool {
    &&& g.width > 0 && g.height > 0
    &&& l.width > 0 && l.height > 0
    &&& g.x < l.x + l.width && l.x < g.x + g.width
    &&& g.y < l.y + l.height && l.y < g.y + g.height
}

/// Whether nothing keeps a top-level out of the scene of an output: it is mapped,
/// without a shape, some of it lies there, and there is something to draw.
pub open spec fn can_take_part(input: WalkInput, xid: u32) -> bool {
    &&& input.windows.dom().contains(xid)
    &&& input.windows[xid].mapped
    &&& !input.shapes.dom().contains(xid)
    &&& meets_output(input.windows[xid], input.layout)
    &&& has_content(input.store, xid)
}

/// Whether a participant of the scene is this top-level, in its place: of the
/// output's pixels it has those under the window, and it binds the window's image.
pub open spec fn takes_part(
    input: WalkInput,
    xid: u32,
    blends: bool,
    p: PresenceView,
) -> bool {
    &&& p.id == (ParticipantId {
        role: SceneRole::Window,
        xid,
        generation: input.store.items[input.store.ids[xid].raw as int].id.raw,
    })
    &&& forall|q: (int, int)|
        0 <= q.0 < input.layout.width && 0 <= q.1 < input.layout.height ==> (#[trigger] list_px(
            p.place,
        ).contains(q) <==> reaches(
            input.windows[xid],
            input.windows[xid].x as int,
            input.windows[xid].y as int,
            input.layout,
            q,
        ))
    &&& list_px(p.place).subset_of(p.region)
    &&& p.signature.sample_view == sampled_for(input.store, xid).storage.sample_view
    &&& p.signature.alpha_passthrough == blends
    &&& p.place.len() == 1
    &&& p.signature.source.x == p.place[0].offset.x + input.layout.x - input.windows[xid].x
    &&& p.signature.source.y == p.place[0].offset.y + input.layout.y - input.windows[xid].y
    &&& p.signature.source.width == p.place[0].extent.width
    &&& p.signature.source.height == p.place[0].extent.height
}

proof fn lemma_one_rect(r: Rect2D)
    ensures
        list_px(seq![r]) == r.px(),
        list_px(seq![r]).subset_of(rects_px(seq![r])),
{
    let one = seq![r];
    assert forall|q: (int, int)| list_px(one).contains(q) == r.px().contains(q) by {
        if r.px().contains(q) {
            assert(one[0].has(q.0, q.1));
        }
    }
    assert(list_px(one) =~= r.px());
    assert(one.drop_last() =~= Seq::<Rect2D>::empty());
    let before = rects_px(one.drop_last());
    assert(before == Set::<(int, int)>::empty());
    lemma_capped(before.union(r.px()));
}

proof fn lemma_takes_part(
    input: WalkInput,
    fuel: nat,
    xid: u32,
    u: Set<(int, int)>,
    s: SinkView,
    cow: bool,
)
    requires
        fuel > 0,
        layout_ok(input.layout),
        can_take_part(input, xid),
    ensures
        ({
            let t = visited(input, fuel, xid, 0, 0, u, s, false, cow, no_clip()).1;
            &&& t.participants.len() > s.participants.len()
            &&& takes_part(input, xid, cow, t.participants.last())
            &&& t.participants.last().place.len() > 0
        }),
{
    let geom = input.windows[xid];
    let clip = no_clip();
    let d = decision(input, xid, geom, 0, 0, false, cow, clip);
    let kids = children_of(input.windows, xid);
    let leaf = kids.len() == 0;
    let counted = WalkStats { nodes_visited: sat_add(s.stats.nodes_visited, 1), ..s.stats };
    let (mine, stats) = if input.mode == Visibility::On && !leaf {
        mine_of(u, d.place, counted)
    } else {
        (Set::empty(), counted)
    };
    let s1 = SinkView { stats, ..s };
    let (left, t) = visited_children(
        input,
        (fuel - 1) as nat,
        kids,
        d.abs_x,
        d.abs_y,
        mine,
        s1,
        d.child_under_redirected_ancestor,
        cow,
        d.child_clip,
    );
    lemma_children_extend(
        input,
        (fuel - 1) as nat,
        kids,
        d.abs_x,
        d.abs_y,
        mine,
        s1,
        d.child_under_redirected_ancestor,
        cow,
        d.child_clip,
    );
    let one = seq![whole_window(geom)];
    assert(own_rects(input, xid, geom) == one);
    assert(one.drop_last() =~= Seq::<RegionRect>::empty());
    let head = placed_rects(d.abs_x, d.abs_y, geom, clip, input, one.drop_last());
    assert(head == Seq::<Rect2D>::empty());
    lemma_placed(d.abs_x, d.abs_y, geom, clip, input.layout, whole_window(geom));
    let p = placed_rect(d.abs_x, d.abs_y, geom, clip, input.layout, whole_window(geom));
    assert(d.abs_x == geom.x && d.abs_y == geom.y);
    assert(p is Some);
    let a = (
        if geom.x >= input.layout.x { geom.x - input.layout.x } else { 0 },
        if geom.y >= input.layout.y { geom.y - input.layout.y } else { 0 },
    );
    assert(p->0.has(a.0, a.1));
    let out = output_rect(input.extent());
    assert(out.has(a.0, a.1));
    let r = if input.mode == Visibility::On { intersection(p->0, out)->0 } else { p->0 };
    assert(input.mode == Visibility::On ==> intersection(p->0, out) is Some);
    assert(d.place == head.push(r));
    assert(d.place =~= seq![r]);
    assert(r.has(a.0, a.1));
    lemma_one_rect(r);
    assert(d.emits && d.store is Some);
    let f = finish_node(input, xid, geom, d, leaf, left, u, t, cow).1;
    assert(list_px(d.place).contains(a));
    assert(rects_px(d.place).contains(a));
    assert(f.participants.len() == t.participants.len() + 1);
    let last = f.participants.last();
    assert(last.place == d.place);
    assert forall|q: (int, int)|
        0 <= q.0 < input.layout.width && 0 <= q.1 < input.layout.height implies (
    #[trigger] list_px(last.place).contains(q) <==> reaches(
        geom,
        geom.x as int,
        geom.y as int,
        input.layout,
        q,
    )) by {
        assert(out.has(q.0, q.1));
    }
}

proof fn lemma_tops_take_part(
    input: WalkInput,
    fuel: nat,
    order: Seq<u32>,
    k: int,
    cow: Option<u32>,
    suppress: bool,
    u: Set<(int, int)>,
    s: SinkView,
)
    requires
        fuel > 0,
        layout_ok(input.layout),
        0 <= k < order.len(),
        can_take_part(input, order[k]),
        !(suppress && cow == Some(order[k])),
    ensures
        ({
            let t = top_levels_visited(input, fuel, order, cow, suppress, u, s).1;
            exists|i: int|
                0 <= i < t.participants.len() && takes_part(
                    input,
                    order[k],
                    cow == Some(order[k]),
                    #[trigger] t.participants[i],
                )
        }),
    decreases order.len(),
{
    let top = order.last();
    let rest = order.drop_last();
    let is_cow = cow == Some(top);
    let r = top_levels_visited(input, fuel, order, cow, suppress, u, s).1;
    if k == order.len() - 1 {
        lemma_takes_part(input, fuel, top, u, s, is_cow);
        let (u2, t) = visited(input, fuel, top, 0, 0, u, s, false, is_cow, no_clip());
        lemma_top_levels_extend(input, fuel, rest, cow, suppress, u2, t);
        let i = t.participants.len() - 1;
        assert(r.participants[i] == t.participants[i]);
    } else {
        assert(rest[k] == order[k]);
        if suppress && is_cow {
            lemma_tops_take_part(input, fuel, rest, k, cow, suppress, u, s);
        } else {
            let (u2, t) = visited(input, fuel, top, 0, 0, u, s, false, is_cow, no_clip());
            lemma_tops_take_part(input, fuel, rest, k, cow, suppress, u2, t);
        }
    }
}

proof fn lemma_takes_part_in_build(
    input: WalkInput,
    window_id: u32,
    order: Seq<u32>,
    cow: Option<u32>,
    cursor: CursorInput,
    k: int,
)
    requires
        layout_ok(input.layout),
        input.windows.dom().finite(),
        0 <= k < order.len(),
        can_take_part(input, order[k]),
        !(suppresses_overlay(input.windows, input.store, order, cow, input.layout) && cow == Some(
            order[k],
        )),
    ensures
        ({
            let b = built(input, window_id, order, cow, cursor);
            exists|i: int|
                0 <= i < b.participants.len() && takes_part(
                    input,
                    order[k],
                    cow == Some(order[k]),
                    #[trigger] b.participants[i],
                )
        }),
{
    let suppress = suppresses_overlay(input.windows, input.store, order, cow, input.layout);
    let fuel = input.windows.dom().len();
    let e = empty_sink();
    let un = whole_universe(input);
    assert(fuel > 0) by {
        if fuel == 0 {
            assert(input.windows.dom() =~= Set::empty());
        }
    }
    lemma_tops_take_part(input, fuel, order, k, cow, suppress, un, e);
    let (u, t) = top_levels_visited(input, fuel, order, cow, suppress, un, e);
    lemma_root_extends(input, window_id, u, t);
    let w = walked(input, window_id, order, cow);
    let i = choose|i: int|
        0 <= i < t.participants.len() && takes_part(
            input,
            order[k],
            cow == Some(order[k]),
            #[trigger] t.participants[i],
        );
    assert(w.participants[i] == t.participants[i]);
    let b = built(input, window_id, order, cow, cursor);
    assert(b.participants == w.participants.reverse());
    assert(b.participants[w.participants.len() - 1 - i] == w.participants[i]);
}

/// A top-level that nothing keeps out of the scene takes part in it, in its place,
/// whatever covers it.
pub proof fn top_levels_take_part_where_they_lie(
    input: WalkInput,
    window_id: u32,
    order: Seq<u32>,
    cow: Option<u32>,
    cursor: CursorInput,
    k: int,
)
    requires
        layout_ok(input.layout),
        input.windows.dom().finite(),
        0 <= k < order.len(),
        can_take_part(input, order[k]),
        cow != Some(order[k]),
    ensures
        ({
            let b = built(input, window_id, order, cow, cursor);
            exists|i: int|
                0 <= i < b.participants.len() && takes_part(
                    input,
                    order[k],
                    false,
                    #[trigger] b.participants[i],
                )
        }),
{
    lemma_takes_part_in_build(input, window_id, order, cow, cursor, k);
}

/// Whether the overlay `c` may give way to the top-level at position `k`: a window
/// other than the overlay, mapped, opaque, part of the scene and over the whole
/// output, with nothing but the overlay above it there.
pub open spec fn may_give_way_to(input: WalkInput, order: Seq<u32>, c: u32, k: int) -> bool {
    &&& 0 <= k < order.len()
    &&& order[k] != c
    &&& input.windows.dom().contains(order[k])
    &&& input.windows[order[k]].mapped
    &&& input.windows[order[k]].depth != 32
    &&& input.windows[order[k]].x <= input.layout.x
    &&& input.windows[order[k]].y <= input.layout.y
    &&& input.layout.x + input.layout.width <= input.windows[order[k]].x
        + input.windows[order[k]].width
    &&& input.layout.y + input.layout.height <= input.windows[order[k]].y
        + input.windows[order[k]].height
    &&& input.store.ids.dom().contains(order[k])
    &&& input.store.ids[order[k]].raw < input.store.items.len()
    &&& input.store.items[input.store.ids[order[k]].raw as int].scene_participating
    &&& forall|j: int|
        k < j < order.len() && #[trigger] order[j] != c && input.windows.dom().contains(order[j])
            && input.windows[order[j]].mapped ==> !meets_output(
            input.windows[order[j]],
            input.layout,
        )
}

proof fn lemma_topmost(input: WalkInput, order: Seq<u32>, c: u32)
    requires
        topmost_on_output(input.windows, order, Some(c), input.layout) is Some,
    ensures
        exists|k: int|
            0 <= k < order.len() && topmost_on_output(
                input.windows,
                order,
                Some(c),
                input.layout,
            ) == Some(#[trigger] order[k]) && order[k] != c && input.windows.dom().contains(
                order[k],
            ) && input.windows[order[k]].mapped && forall|j: int|
                k < j < order.len() && #[trigger] order[j] != c && input.windows.dom().contains(
                    order[j],
                ) && input.windows[order[j]].mapped ==> !meets_output(
                    input.windows[order[j]],
                    input.layout,
                ),
    decreases order.len(),
{
    if order.len() > 0 {
        let x = order.last();
        let rest = order.drop_last();
        if topmost_on_output(input.windows, rest, Some(c), input.layout)
            == topmost_on_output(input.windows, order, Some(c), input.layout) && !(Some(c) != Some(x)
            && input.windows.dom().contains(x) && crate::scene_build::on_output(
            input.windows[x],
            input.layout,
        )) {
            lemma_topmost(input, rest, c);
            let k = choose|k: int|
                0 <= k < rest.len() && topmost_on_output(
                    input.windows,
                    rest,
                    Some(c),
                    input.layout,
                ) == Some(#[trigger] rest[k]) && rest[k] != c && input.windows.dom().contains(
                    rest[k],
                ) && input.windows[rest[k]].mapped && forall|j: int|
                    k < j < rest.len() && #[trigger] rest[j] != c && input.windows.dom().contains(
                        rest[j],
                    ) && input.windows[rest[j]].mapped ==> !meets_output(
                        input.windows[rest[j]],
                        input.layout,
                    );
            assert(order[k] == rest[k]);
            assert forall|j: int|
                k < j < order.len() && #[trigger] order[j] != c && input.windows.dom().contains(
                    order[j],
                ) && input.windows[order[j]].mapped implies !meets_output(
                input.windows[order[j]],
                input.layout,
            ) by {
                if j < rest.len() {
                    assert(rest[j] == order[j]);
                }
            }
        } else {
            assert(order[order.len() - 1] == x);
        }
    }
}

/// The overlay is left out of a scene only for a window that replaces it. If it
/// can take part it does, in its place and blended; or it gives way to an opaque
/// window over the whole output that is part of the scene. That window, if it has
/// something to draw, takes part itself, with every pixel of the output.
pub proof fn the_overlay_takes_part_or_is_replaced(
    input: WalkInput,
    window_id: u32,
    order: Seq<u32>,
    c: u32,
    cursor: CursorInput,
)
    requires
        layout_ok(input.layout),
        input.windows.dom().finite(),
        order.contains(c),
        can_take_part(input, c),
    ensures
        ({
            let b = built(input, window_id, order, Some(c), cursor);
            ||| exists|i: int|
                0 <= i < b.participants.len() && takes_part(
                    input,
                    c,
                    true,
                    #[trigger] b.participants[i],
                )
            ||| exists|k: int| #[trigger]
                may_give_way_to(input, order, c, k) && (can_take_part(input, order[k]) ==> {
                    &&& exists|i: int|
                        0 <= i < b.participants.len() && takes_part(
                            input,
                            order[k],
                            false,
                            #[trigger] b.participants[i],
                        ) && forall|q: (int, int)|
                            0 <= q.0 < input.layout.width && 0 <= q.1 < input.layout.height
                                ==> #[trigger] list_px(b.participants[i].place).contains(q)
                })
        }),
{
    let l = input.layout;
    let b = built(input, window_id, order, Some(c), cursor);
    let suppress = suppresses_overlay(input.windows, input.store, order, Some(c), l);
    if !suppress {
        let k = choose|k: int| 0 <= k < order.len() && order[k] == c;
        lemma_takes_part_in_build(input, window_id, order, Some(c), cursor, k);
    } else {
        lemma_topmost(input, order, c);
        let k = choose|k: int|
            0 <= k < order.len() && topmost_on_output(input.windows, order, Some(c), l) == Some(
                #[trigger] order[k],
            ) && order[k] != c && input.windows.dom().contains(order[k])
                && input.windows[order[k]].mapped && forall|j: int|
                k < j < order.len() && #[trigger] order[j] != c && input.windows.dom().contains(
                    order[j],
                ) && input.windows[order[j]].mapped ==> !meets_output(input.windows[order[j]], l);
        assert(may_give_way_to(input, order, c, k));
        if can_take_part(input, order[k]) {
            lemma_takes_part_in_build(input, window_id, order, Some(c), cursor, k);
            let i = choose|i: int|
                0 <= i < b.participants.len() && takes_part(
                    input,
                    order[k],
                    false,
                    #[trigger] b.participants[i],
                );
            assert forall|q: (int, int)|
                0 <= q.0 < l.width && 0 <= q.1 < l.height implies #[trigger] list_px(
                b.participants[i].place,
            ).contains(q) by {
                assert(reaches(
                    input.windows[order[k]],
                    input.windows[order[k]].x as int,
                    input.windows[order[k]].y as int,
                    l,
                    q,
                ));
            }
        }
    }
}

/// Where the overlay is the topmost window under a pixel it is seen there first,
/// blended, at the texel that lies there; unless it gives way.
pub proof fn the_overlay_shows_unless_it_gives_way(
    input: WalkInput,
    window_id: u32,
    order: Seq<u32>,
    c: u32,
    cursor: CursorInput,
    path: Seq<u32>,
    k: int,
    q: (int, int),
)
    requires
        layout_ok(input.layout),
        input.windows.dom().finite(),
        input.mode == Visibility::On ==> parents_unshaped(input),
        0 <= q.0 < input.layout.width,
        0 <= q.1 < input.layout.height,
        0 <= k < order.len(),
        in_sight(input, path, 0, 0, q),
        path.no_duplicates(),
        order[k] == c,
        path[0] == c,
        forall|j: int| k < j < order.len() ==> !lies_under(input, #[trigger] order[j], 0, 0, q),
        has_content(input.store, path.last()),
        !input.shapes.dom().contains(path.last()),
        forall|n: int| !#[trigger] may_give_way_to(input, order, c, n),
    ensures
        ({
            let seen = shown_of(
                built(input, window_id, order, Some(c), spriteless(cursor)).draws,
                q,
                false,
            );
            &&& seen.len() > 0
            &&& seen[0] == (Sample {
                view: sampled_for(input.store, path.last()).storage.sample_view,
                u: q.0 + input.layout.x - corner_of(input, path).0,
                v: q.1 + input.layout.y - corner_of(input, path).1,
                of_width: 0,
                of_height: 0,
                blends: true,
            })
        }),
{
    lemma_gives_way(input, order, c);
    lemma_first_seen(input, window_id, order, Some(c), cursor, path, k, q);
}

proof fn lemma_gives_way(input: WalkInput, order: Seq<u32>, c: u32)
    ensures
        suppresses_overlay(input.windows, input.store, order, Some(c), input.layout) ==> exists|
            k: int,
        | #[trigger] may_give_way_to(input, order, c, k),
{
    let l = input.layout;
    if suppresses_overlay(input.windows, input.store, order, Some(c), l) {
        lemma_topmost(input, order, c);
        let k = choose|k: int|
            0 <= k < order.len() && topmost_on_output(input.windows, order, Some(c), l) == Some(
                #[trigger] order[k],
            ) && order[k] != c && input.windows.dom().contains(order[k])
                && input.windows[order[k]].mapped && forall|j: int|
                k < j < order.len() && #[trigger] order[j] != c && input.windows.dom().contains(
                    order[j],
                ) && input.windows[order[j]].mapped ==> !meets_output(input.windows[order[j]], l);
        assert(may_give_way_to(input, order, c, k));
    }
}

proof fn lemma_seen_somewhere(draws: Seq<CompositeDraw>, i: int, q: (int, int))
    requires
        0 <= i < draws.len(),
        draws[i].dst.has(q.0, q.1),
    ensures
        shown_of(draws, q, false).len() > 0,
    decreases draws.len(),
{
    if i < draws.len() - 1 {
        lemma_seen_somewhere(draws.drop_last(), i, q);
    }
}

/// No pixel under a top-level that takes part is left empty, whatever the overlay
/// does and whatever covers the window.
pub proof fn no_pixel_under_a_top_level_is_empty(
    input: WalkInput,
    window_id: u32,
    order: Seq<u32>,
    cow: Option<u32>,
    cursor: CursorInput,
    k: int,
    q: (int, int),
)
    requires
        layout_ok(input.layout),
        input.windows.dom().finite(),
        input.mode == Visibility::On ==> parents_unshaped(input),
        0 <= q.0 < input.layout.width,
        0 <= q.1 < input.layout.height,
        0 <= k < order.len(),
        cow != Some(order[k]),
        can_take_part(input, order[k]),
        lies_under(input, order[k], 0, 0, q),
    ensures
        shown_of(
            built(input, window_id, order, cow, spriteless(cursor)).draws,
            q,
            false,
        ).len() > 0,
{
    let off = unclipped(input);
    lemma_shown_unclipped(input, window_id, order, cow, spriteless(cursor), q);
    lemma_no_sprite(off, window_id, order, cow, cursor);
    let suppress = suppresses_overlay(off.windows, off.store, order, cow, off.layout);
    let fuel = off.windows.dom().len();
    assert(fuel > 0) by {
        if fuel == 0 {
            assert(input.windows.dom() =~= Set::empty());
        }
    }
    let e = empty_sink();
    let un = whole_universe(off);
    assert(lies_under(off, order[k], 0, 0, q));
    let i = lemma_tops_draw(off, fuel, order, k, cow, suppress, un, e, q);
    let (u, t) = top_levels_visited(off, fuel, order, cow, suppress, un, e);
    lemma_root_extends(off, window_id, u, t);
    let w = walked(off, window_id, order, cow);
    assert(w.draws[i] == t.draws[i]);
    let r = w.draws.reverse();
    assert(r[w.draws.len() - 1 - i] == w.draws[i]);
    lemma_seen_somewhere(r, w.draws.len() - 1 - i, q);
}

proof fn lemma_tops_draw(
    input: WalkInput,
    fuel: nat,
    order: Seq<u32>,
    k: int,
    cow: Option<u32>,
    suppress: bool,
    u: Set<(int, int)>,
    s: SinkView,
    q: (int, int),
) -> (i: int)
    requires
        fuel > 0,
        input.mode == Visibility::Off,
        layout_ok(input.layout),
        on_screen(input, q),
        0 <= k < order.len(),
        cow != Some(order[k]),
        can_take_part(input, order[k]),
        lies_under(input, order[k], 0, 0, q),
    ensures
        ({
            let t = top_levels_visited(input, fuel, order, cow, suppress, u, s).1;
            0 <= i < t.draws.len() && t.draws[i].dst.has(q.0, q.1)
        }),
    decreases order.len(),
{
    let top = order.last();
    let rest = order.drop_last();
    let is_cow = cow == Some(top);
    if k == order.len() - 1 {
        let geom = input.windows[top];
        let clip = no_clip();
        let d = decision(input, top, geom, 0, 0, false, is_cow, clip);
        let kids = children_of(input.windows, top);
        let leaf = kids.len() == 0;
        let counted = WalkStats { nodes_visited: sat_add(s.stats.nodes_visited, 1), ..s.stats };
        let (left, t) = visited_children(
            input,
            (fuel - 1) as nat,
            kids,
            d.abs_x,
            d.abs_y,
            Set::empty(),
            SinkView { stats: counted, ..s },
            d.child_under_redirected_ancestor,
            is_cow,
            d.child_clip,
        );
        lemma_finish_hits(input, top, 0, 0, is_cow, clip, leaf, left, u, t, q);
        let (u2, r) = visited(input, fuel, top, 0, 0, u, s, false, is_cow, clip);
        let smp = Sample {
            view: sampled_for(input.store, top).storage.sample_view,
            u: q.0 + input.layout.x - (0 + geom.x),
            v: q.1 + input.layout.y - (0 + geom.y),
            of_width: 0,
            of_height: 0,
            blends: is_cow,
        };
        let i = choose|i: int| #[trigger] hit_at(t, r, q, smp, i);
        lemma_top_levels_extend(input, fuel, rest, cow, suppress, u2, r);
        i
    } else {
        assert(rest[k] == order[k]);
        if suppress && is_cow {
            lemma_tops_draw(input, fuel, rest, k, cow, suppress, u, s, q)
        } else {
            let (u2, t) = visited(input, fuel, top, 0, 0, u, s, false, is_cow, no_clip());
            lemma_tops_draw(input, fuel, rest, k, cow, suppress, u2, t, q)
        }
    }
}

/// Without an overlay, and for one that a window over the whole output replaces,
/// no window's draw blends: the frame shows opaque windows only.
pub proof fn a_replaced_overlay_is_not_drawn(
    input: WalkInput,
    window_id: u32,
    order: Seq<u32>,
    cow: Option<u32>,
    cursor: CursorInput,
    k: int,
)
    requires
        cow matches Some(c) ==> {
            &&& input.layout.width > 0 && input.layout.height > 0
            &&& may_give_way_to(input, order, c, k)
            &&& forall|j: int|
                k < j < order.len() && #[trigger] order[j] != c && input.windows.dom().contains(
                    order[j],
                ) && input.windows[order[j]].mapped ==> {
                    let g = input.windows[order[j]];
                    let l = input.layout;
                    g.x >= l.x + l.width || g.y >= l.y + l.height || g.x + g.width <= l.x || g.y
                        + g.height <= l.y
                }
        },
    ensures
        ({
            let b = built(input, window_id, order, cow, spriteless(cursor));
            forall|i: int| 0 <= i < b.draws.len() ==> !(#[trigger] b.draws[i]).alpha_passthrough
        }),
{
    let suppress = suppresses_overlay(input.windows, input.store, order, cow, input.layout);
    if cow is Some {
        lemma_topmost_is(input, order, cow->0, k);
        assert(suppress);
    }
    let fuel = input.windows.dom().len();
    let e = empty_sink();
    let un = whole_universe(input);
    lemma_top_levels_extend(input, fuel, order, cow, suppress, un, e);
    let (u, t) = top_levels_visited(input, fuel, order, cow, suppress, un, e);
    lemma_root_extends(input, window_id, u, t);
    let w = walked(input, window_id, order, cow);
    lemma_extends_twice(e, t, w);
    lemma_no_sprite(input, window_id, order, cow, cursor);
    let b = built(input, window_id, order, cow, spriteless(cursor));
    assert forall|i: int| 0 <= i < b.draws.len() implies !(
    #[trigger] b.draws[i]).alpha_passthrough by {
        assert(b.draws[i] == w.draws[w.draws.len() - 1 - i]);
    }
}

proof fn lemma_topmost_is(input: WalkInput, order: Seq<u32>, c: u32, k: int)
    requires
        input.layout.width > 0 && input.layout.height > 0,
        may_give_way_to(input, order, c, k),
        forall|j: int|
            k < j < order.len() && #[trigger] order[j] != c && input.windows.dom().contains(
                order[j],
            ) && input.windows[order[j]].mapped ==> {
                let g = input.windows[order[j]];
                let l = input.layout;
                g.x >= l.x + l.width || g.y >= l.y + l.height || g.x + g.width <= l.x || g.y
                    + g.height <= l.y
            },
    ensures
        topmost_on_output(input.windows, order, Some(c), input.layout) == Some(order[k]),
    decreases order.len(),
{
    if k < order.len() - 1 {
        let rest = order.drop_last();
        assert(order[order.len() - 1] == order.last());
        assert(rest[k] == order[k]);
        assert forall|j: int|
            k < j < rest.len() && #[trigger] rest[j] != c && input.windows.dom().contains(rest[j])
                && input.windows[rest[j]].mapped implies {
            let g = input.windows[rest[j]];
            let l = input.layout;
            &&& !meets_output(g, l)
            &&& g.x >= l.x + l.width || g.y >= l.y + l.height || g.x + g.width <= l.x || g.y
                + g.height <= l.y
        } by {
            assert(rest[j] == order[j]);
        }
        lemma_topmost_is(input, rest, c, k);
    }
}

/// What is not part of the scene is not drawn: a window without a drawable, one
/// that does not take part, one whose paint lands in a redirected ancestor, one
/// without an image, and one off the output. Its own steps add nothing.
pub proof fn what_is_not_in_the_scene_is_not_drawn(
    input: WalkInput,
    xid: u32,
    geom: WindowGeometry,
    pax: int,
    pay: int,
    red: bool,
    cow: bool,
    clip: ClipBox,
    leaf: bool,
    mine: Set<(int, int)>,
    u: Set<(int, int)>,
    s: SinkView,
)
    requires
        -0x7000_0000 <= pax <= 0x7000_0000,
        -0x7000_0000 <= pay <= 0x7000_0000,
        ({
            let known = input.store.ids.dom().contains(xid) && input.store.ids[xid].raw
                < input.store.items.len();
            let d = input.store.items[input.store.ids[xid].raw as int];
            let l = input.layout;
            ||| !known
            ||| !d.scene_participating
            ||| red && d.redirected_target is None
            ||| d.kind != DrawableKind::Window
            ||| d.redirected_target matches Some(t) && t.raw >= input.store.items.len()
            ||| sampled_for(input.store, xid).storage.image_view == 0
            ||| pax + geom.x + geom.width <= l.x || pax + geom.x >= l.x + l.width
            ||| pay + geom.y + geom.height <= l.y || pay + geom.y >= l.y + l.height
        }),
    ensures
        ({
            let d = decision(input, xid, geom, pax, pay, red, cow, clip);
            let t = finish_node(input, xid, geom, d, leaf, mine, u, s, cow).1;
            t == (SinkView { stats: t.stats, ..s })
        }),
{
    let d = decision(input, xid, geom, pax, pay, red, cow, clip);
    assert(d.abs_x == pax + geom.x && d.abs_y == pay + geom.y);
    assert(!d.emits || d.store is None);
}

/// The paint of a window's descendants lands in its backing exactly if it, or one
/// of its ancestors, is redirected; and a window that is not drawn hides nothing
/// that its descendants do not.
pub proof fn redirection_passes_down(
    input: WalkInput,
    xid: u32,
    geom: WindowGeometry,
    pax: int,
    pay: int,
    red: bool,
    cow: bool,
    clip: ClipBox,
)
    ensures
        ({
            let d = decision(input, xid, geom, pax, pay, red, cow, clip);
            let own = input.store.ids.dom().contains(xid) && input.store.ids[xid].raw
                < input.store.items.len() && input.store.items[input.store.ids[xid].raw as
                int].redirected_target is Some;
            &&& d.child_under_redirected_ancestor <==> red || own
            &&& d.opaque ==> d.emits
            &&& cow ==> !d.opaque
        }),
{
}

// ── shapes ──────────────────────────────────────────────────────────
/// Whether a window's own area has the root-space point under pixel `q`, the
/// window's corner being at `(x, y)`: all of it, or the rectangles of its shape that
/// lie in it.
pub open spec fn shape_has(
    input: WalkInput,
    xid: u32,
    g: WindowGeometry,
    x: int,
    y: int,
    q: (int, int),
) -> bool {
    let u = q.0 + input.layout.x - x;
    let v = q.1 + input.layout.y - y;
    &&& 0 <= u < g.width && 0 <= v < g.height
    &&& input.shapes.dom().contains(xid) ==> exists|i: int|
        0 <= i < input.shapes[xid]@.len() && {
            let r = #[trigger] input.shapes[xid]@[i];
            r.x <= u < r.x + r.width && r.y <= v < r.y + r.height
        }
}

proof fn lemma_placed_px(
    input: WalkInput,
    abs_x: int,
    abs_y: int,
    geom: WindowGeometry,
    clip: ClipBox,
    rects: Seq<RegionRect>,
    q: (int, int),
)
    requires
        clip_ok(clip),
        layout_ok(input.layout),
        on_screen(input, q),
    ensures
        list_px(placed_rects(abs_x, abs_y, geom, clip, input, rects)).contains(q) <==> clip_has(
            clip,
            input.layout,
            q,
        ) && reaches(geom, abs_x, abs_y, input.layout, q) && exists|i: int|
            0 <= i < rects.len() && {
                let r = #[trigger] rects[i];
                r.x <= q.0 + input.layout.x - abs_x < r.x + r.width && r.y <= q.1 + input.layout.y
                    - abs_y < r.y + r.height
            },
    decreases rects.len(),
{
    let place = placed_rects(abs_x, abs_y, geom, clip, input, rects);
    let (u, v) = (q.0 + input.layout.x - abs_x, q.1 + input.layout.y - abs_y);
    if rects.len() > 0 {
        let t = rects.drop_last();
        lemma_placed_px(input, abs_x, abs_y, geom, clip, t, q);
        let head = placed_rects(abs_x, abs_y, geom, clip, input, t);
        let last = rects.last();
        assert(rects[rects.len() - 1] == last);
        lemma_placed(abs_x, abs_y, geom, clip, input.layout, last);
        let p = placed_rect(abs_x, abs_y, geom, clip, input.layout, last);
        let out = output_rect(input.extent());
        let r = match p {
            None => None,
            Some(p) => if input.mode == Visibility::On {
                intersection(p, out)
            } else {
                Some(p)
            },
        };
        let hit = clip_has(clip, input.layout, q) && reaches(geom, abs_x, abs_y, input.layout, q)
            && last.x <= u < last.x + last.width && last.y <= v < last.y + last.height;
        assert(hit <==> (p is Some && p->0.has(q.0, q.1)));
        assert(hit <==> (r is Some && r->0.has(q.0, q.1)));
        if r is Some {
            assert(place == head.push(r->0));
            assert(place[head.len() as int] == r->0);
        } else {
            assert(place == head);
        }
        if list_px(place).contains(q) {
            let i = choose|i: int| 0 <= i < place.len() && (#[trigger] place[i]).has(q.0, q.1);
            if i < head.len() {
                assert(head[i].has(q.0, q.1));
                assert(list_px(head).contains(q));
                let k = choose|k: int|
                    0 <= k < t.len() && {
                        let r = #[trigger] t[k];
                        r.x <= u < r.x + r.width && r.y <= v < r.y + r.height
                    };
                assert(rects[k] == t[k]);
            } else {
                assert(hit);
            }
        }
        if list_px(head).contains(q) {
            let i = choose|i: int| 0 <= i < head.len() && (#[trigger] head[i]).has(q.0, q.1);
            assert(place[i].has(q.0, q.1));
        }
        if exists|i: int|
            0 <= i < rects.len() && {
                let r = #[trigger] rects[i];
                r.x <= u < r.x + r.width && r.y <= v < r.y + r.height
            } {
            let i = choose|i: int|
                0 <= i < rects.len() && {
                    let r = #[trigger] rects[i];
                    r.x <= u < r.x + r.width && r.y <= v < r.y + r.height
                };
            if i < t.len() {
                assert(t[i] == rects[i]);
            } else if hit {
                assert(place[head.len() as int].has(q.0, q.1));
            }
        }
    }
}

/// A window occupies, of the output's pixels, exactly those where its shape, or all
/// of it if it has none, lies within it and within all its ancestors.
pub proof fn a_window_lies_where_its_shape_does(
    input: WalkInput,
    xid: u32,
    geom: WindowGeometry,
    pax: int,
    pay: int,
    red: bool,
    cow: bool,
    clip: ClipBox,
    q: (int, int),
)
    requires
        clip_ok(clip),
        layout_ok(input.layout),
        -0x7000_0000 <= pax <= 0x7000_0000,
        -0x7000_0000 <= pay <= 0x7000_0000,
        0 <= q.0 < input.layout.width,
        0 <= q.1 < input.layout.height,
    ensures
        ({
            let d = decision(input, xid, geom, pax, pay, red, cow, clip);
            let within = clip.x0 <= q.0 + input.layout.x < clip.x1 && clip.y0 <= q.1
                + input.layout.y < clip.y1;
            let c = d.child_clip;
            &&& list_px(d.place).contains(q) <==> within && shape_has(
                input,
                xid,
                geom,
                pax + geom.x,
                pay + geom.y,
                q,
            )
            &&& (c.x0 <= q.0 + input.layout.x < c.x1 && c.y0 <= q.1 + input.layout.y < c.y1)
                <==> within && reaches(geom, pax + geom.x, pay + geom.y, input.layout, q)
        }),
{
    let d = decision(input, xid, geom, pax, pay, red, cow, clip);
    assert(d.abs_x == pax + geom.x && d.abs_y == pay + geom.y);
    let rects = own_rects(input, xid, geom);
    assert(on_screen(input, q));
    lemma_placed_px(input, d.abs_x, d.abs_y, geom, clip, rects, q);
    if !input.shapes.dom().contains(xid) {
        assert(rects == seq![whole_window(geom)]);
        assert(rects[0] == whole_window(geom));
    }
}

/// Coordinates are divided by the size of what they are taken from: with visibility
/// that of the sampled image, without it that of the window, or of the root. A root
/// is drawn only if it takes part and has an image.
pub proof fn coordinates_are_divided_by_what_they_are_taken_from(
    input: WalkInput,
    geom: WindowGeometry,
    d: DecisionView,
    info: NodeStoreInfo,
    cow: bool,
    window_id: u32,
)
    requires
        layout_ok(input.layout),
        info.source_extent.width <= i32::MAX,
        info.source_extent.height <= i32::MAX,
    ensures
        ({
            let n = paint_of(input.mode, geom, d, info, cow);
            &&& input.mode == Visibility::On ==> n.denom_w == info.source_extent.width && n.denom_h
                == info.source_extent.height
            &&& input.mode == Visibility::Off ==> n.denom_w == geom.width && n.denom_h
                == geom.height
            &&& n.view == info.source_view
            &&& n.source_id == info.source_id
            &&& n.alpha_passthrough == cow
        }),
        root_of(input, window_id) matches Some(root) ==> {
            let d = input.store.items[input.store.ids[window_id].raw as int];
            let e = if input.mode == Visibility::On {
                sampled_for(input.store, window_id).storage.extent
            } else {
                d.storage.extent
            };
            &&& e.width <= i32::MAX ==> root.paint.denom_w == e.width
            &&& e.height <= i32::MAX ==> root.paint.denom_h == e.height
            &&& root.paint.dx == -input.layout.x && root.paint.dy == -input.layout.y
            &&& !root.paint.alpha_passthrough
            &&& d.scene_participating
            &&& d.kind == DrawableKind::Root
            &&& sampled_for(input.store, window_id).storage.image_view != 0
            &&& root.paint.view == sampled_for(input.store, window_id).storage.sample_view
        },
{
}

/// What the store says of a window that may be drawn: its own identity, and the
/// image, its size and the drawable that it is sampled from.
pub proof fn the_store_says_what_is_sampled(store: StoreView, xid: u32, meets: bool, red: bool)
    requires
        store_info(store, xid, meets, red) matches Some(i) && i.skip_reason is None,
    ensures
        ({
            let i = store_info(store, xid, meets, red)->0;
            let d = store.items[store.ids[xid].raw as int];
            &&& meets
            &&& i.d_id == d.id
            &&& i.source_view == sampled_for(store, xid).storage.sample_view
            &&& i.source_extent == sampled_for(store, xid).storage.extent
            &&& d.redirected_target matches Some(t) ==> i.source_id == t
            &&& d.redirected_target is None ==> i.source_id == store.ids[xid]
            &&& d.scene_participating
            &&& d.kind == DrawableKind::Window
        }),
{
}

} // verus!