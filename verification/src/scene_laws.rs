//! What a scene shows: at every pixel the topmost window under it, at the texel
//! that lies there.

use vstd::prelude::*;
use vstd::seq_lib::*;
use vstd::set_lib::*;

use crate::cursor_laws::spriteless;
use crate::draw::CompositeDraw;
use crate::emit::{empty_sink, quads, SinkView};
use crate::geometry::{intersection, output_rect, Rect2D};
use crate::scene_build::{
    built, root_emitted, root_of, suppresses_overlay, top_levels_visited, walked, whole_universe,
    CursorInput,
};
use crate::store::{DrawableKind, DrawableView, StoreView};
use crate::visibility_law::{
    clip_has, lemma_place_exact, lemma_placed, lemma_quad_exact, node_sample, on_screen, parents_unshaped,
    quad_exact, sample_of, shown_of, visibility_keeps_what_lies_where, Sample,
};
use crate::visit::{finish_node, mine_of, paint_of, visited, visited_children};
use crate::walk::{
    clip_ok, decision, layout_ok, no_clip, own_rects, placed_rect, placed_rects, sat_add,
    whole_window, ClipBox, DecisionView, Visibility, WalkInput, WalkStats,
};
use crate::windows::{
    children_of, in_stack_order, is_child, lists_children, stacks_below, OutputLayout, RegionRect, WindowGeometry,
};

verus! {

// ── what is drawn where ─────────────────────────────────────────────
/// Whether a window whose corner is at the root-space point `(x, y)` has the
/// root-space point under output pixel `q`.
pub open spec fn reaches(g: WindowGeometry, x: int, y: int, l: OutputLayout, q: (int, int)) -> bool {
    x <= q.0 + l.x < x + g.width && y <= q.1 + l.y < y + g.height
}

/// The drawable whose storage a window's pixels are sampled from: the one its
/// paint is redirected to, or its own.
pub open spec fn sampled_for(store: StoreView, xid: u32) -> DrawableView {
    let d = store.items[store.ids[xid].raw as int];
    match d.redirected_target {
        Some(t) => store.items[t.raw as int],
        None => d,
    }
}

/// Whether the store has something to draw for a window: a drawable that is a
/// window and part of the scene, and an image to sample.
pub open spec fn has_content(store: StoreView, xid: u32) -> bool {
    &&& store.ids.dom().contains(xid)
    &&& store.ids[xid].raw < store.items.len()
    &&& store.items[store.ids[xid].raw as int].scene_participating
    &&& store.items[store.ids[xid].raw as int].kind == DrawableKind::Window
    &&& store.items[store.ids[xid].raw as int].redirected_target matches Some(t) ==> t.raw
        < store.items.len()
    &&& sampled_for(store, xid).storage.image_view != 0
}

/// Whether paint into a window stays with it.
pub open spec fn unredirected(store: StoreView, xid: u32) -> bool {
    store.ids.dom().contains(xid) && store.ids[xid].raw < store.items.len()
        ==> store.items[store.ids[xid].raw as int].redirected_target is None
}

// ── the walk only adds ──────────────────────────────────────────────
/// Whether a sink only gained draws and participants.
pub open spec fn extends(s: SinkView, t: SinkView) -> bool {
    &&& s.draws.len() <= t.draws.len()
    &&& forall|i: int| 0 <= i < s.draws.len() ==> #[trigger] t.draws[i] == s.draws[i]
    &&& s.participants.len() <= t.participants.len()
    &&& forall|i: int|
        0 <= i < s.participants.len() ==> #[trigger] t.participants[i] == s.participants[i]
}

/// Whether no draw that a sink gained blends.
pub open spec fn gains_no_blend(s: SinkView, t: SinkView) -> bool {
    forall|i: int|
        s.draws.len() <= i < t.draws.len() ==> !(#[trigger] t.draws[i]).alpha_passthrough
}

pub proof fn lemma_finish_extends(
    input: WalkInput,
    xid: u32,
    geom: WindowGeometry,
    d: DecisionView,
    leaf: bool,
    mine: Set<(int, int)>,
    u: Set<(int, int)>,
    s: SinkView,
    cow: bool,
)
    ensures
        extends(s, finish_node(input, xid, geom, d, leaf, mine, u, s, cow).1),
        !cow ==> gains_no_blend(s, finish_node(input, xid, geom, d, leaf, mine, u, s, cow).1),
{
}

pub proof fn lemma_visit_extends(
    input: WalkInput,
    fuel: nat,
    xid: u32,
    pax: int,
    pay: int,
    u: Set<(int, int)>,
    s: SinkView,
    red: bool,
    cow: bool,
    clip: ClipBox,
)
    ensures
        extends(s, visited(input, fuel, xid, pax, pay, u, s, red, cow, clip).1),
        !cow ==> gains_no_blend(
            s,
            visited(input, fuel, xid, pax, pay, u, s, red, cow, clip).1,
        ),
    decreases fuel, 0nat,
{
    if fuel == 0 || !input.windows.dom().contains(xid) || !input.windows[xid].mapped {
    } else {
        let geom = input.windows[xid];
        let d = decision(input, xid, geom, pax, pay, red, cow, clip);
        let kids = children_of(input.windows, xid);
        let leaf = kids.len() == 0;
        let counted = WalkStats { nodes_visited: sat_add(s.stats.nodes_visited, 1), ..s.stats };
        let (mine, stats) = if input.mode == Visibility::On && !leaf {
            mine_of(u, d.place, counted)
        } else {
            (Set::empty(), counted)
        };
        let s1 = SinkView { stats, ..s };
        lemma_children_extend(
            input,
            (fuel - 1) as nat,
            kids,
            d.abs_x,
            d.abs_y,
            mine,
            s1,
            d.child_under_redirected_ancestor,
            cow,
            d.child_clip,
        );
        let (left, t) = visited_children(
            input,
            (fuel - 1) as nat,
            kids,
            d.abs_x,
            d.abs_y,
            mine,
            s1,
            d.child_under_redirected_ancestor,
            cow,
            d.child_clip,
        );
        lemma_finish_extends(input, xid, geom, d, leaf, left, u, t, cow);
        let r = finish_node(input, xid, geom, d, leaf, left, u, t, cow).1;
        assert(extends(s, t) && extends(t, r));
        assert forall|i: int| 0 <= i < s.draws.len() implies #[trigger] r.draws[i] == s.draws[i] by {
            assert(t.draws[i] == s.draws[i]);
        }
        assert forall|i: int| 0 <= i < s.participants.len() implies #[trigger] r.participants[i]
            == s.participants[i] by {
            assert(t.participants[i] == s.participants[i]);
        }
        if !cow {
            assert forall|i: int| s.draws.len() <= i < r.draws.len() implies !(
            #[trigger] r.draws[i]).alpha_passthrough by {
                if i < t.draws.len() {
                    assert(r.draws[i] == t.draws[i]);
                }
            }
        }
    }
}

pub proof fn lemma_children_extend(
    input: WalkInput,
    fuel: nat,
    kids: Seq<u32>,
    pax: int,
    pay: int,
    u: Set<(int, int)>,
    s: SinkView,
    red: bool,
    cow: bool,
    clip: ClipBox,
)
    ensures
        extends(s, visited_children(input, fuel, kids, pax, pay, u, s, red, cow, clip).1),
        !cow ==> gains_no_blend(
            s,
            visited_children(input, fuel, kids, pax, pay, u, s, red, cow, clip).1,
        ),
    decreases fuel, kids.len() + 1,
{
    if kids.len() > 0 {
        lemma_visit_extends(input, fuel, kids.last(), pax, pay, u, s, red, cow, clip);
        let (u2, t) = visited(input, fuel, kids.last(), pax, pay, u, s, red, cow, clip);
        lemma_children_extend(input, fuel, kids.drop_last(), pax, pay, u2, t, red, cow, clip);
        let r = visited_children(
            input,
            fuel,
            kids.drop_last(),
            pax,
            pay,
            u2,
            t,
            red,
            cow,
            clip,
        ).1;
        lemma_extends_twice(s, t, r);
    }
}

pub proof fn lemma_extends_twice(s: SinkView, t: SinkView, r: SinkView)
    requires
        extends(s, t),
        extends(t, r),
    ensures
        extends(s, r),
        gains_no_blend(s, t) && gains_no_blend(t, r) ==> gains_no_blend(s, r),
{
    assert forall|i: int| 0 <= i < s.draws.len() implies #[trigger] r.draws[i] == s.draws[i] by {
        assert(t.draws[i] == s.draws[i]);
    }
    assert forall|i: int| 0 <= i < s.participants.len() implies #[trigger] r.participants[i]
        == s.participants[i] by {
        assert(t.participants[i] == s.participants[i]);
    }
    if gains_no_blend(s, t) && gains_no_blend(t, r) {
        assert forall|i: int| s.draws.len() <= i < r.draws.len() implies !(
        #[trigger] r.draws[i]).alpha_passthrough by {
            if i < t.draws.len() {
                assert(r.draws[i] == t.draws[i]);
            }
        }
    }
}

pub proof fn lemma_top_levels_extend(
    input: WalkInput,
    fuel: nat,
    order: Seq<u32>,
    cow: Option<u32>,
    suppress: bool,
    u: Set<(int, int)>,
    s: SinkView,
)
    ensures
        extends(s, top_levels_visited(input, fuel, order, cow, suppress, u, s).1),
        suppress || cow is None ==> gains_no_blend(
            s,
            top_levels_visited(input, fuel, order, cow, suppress, u, s).1,
        ),
    decreases order.len(),
{
    if order.len() > 0 {
        let top = order.last();
        if suppress && cow == Some(top) {
            lemma_top_levels_extend(input, fuel, order.drop_last(), cow, suppress, u, s);
        } else {
            let is_cow = cow == Some(top);
            lemma_visit_extends(input, fuel, top, 0, 0, u, s, false, is_cow, no_clip());
            let (u2, t) = visited(input, fuel, top, 0, 0, u, s, false, is_cow, no_clip());
            lemma_top_levels_extend(input, fuel, order.drop_last(), cow, suppress, u2, t);
            let r = top_levels_visited(input, fuel, order.drop_last(), cow, suppress, u2, t).1;
            lemma_extends_twice(s, t, r);
        }
    }
}

pub proof fn lemma_root_extends(
    input: WalkInput,
    window_id: u32,
    u: Set<(int, int)>,
    s: SinkView,
)
    ensures
        extends(s, root_emitted(input, window_id, u, s)),
        gains_no_blend(s, root_emitted(input, window_id, u, s)),
{
}

// ── what shows nothing at a pixel ───────────────────────────────────
/// Whether a sink gained only draws without the pixel.
pub open spec fn misses(s: SinkView, t: SinkView, q: (int, int)) -> bool {
    &&& s.draws.len() <= t.draws.len()
    &&& forall|i: int| 0 <= i < s.draws.len() ==> #[trigger] t.draws[i] == s.draws[i]
    &&& forall|i: int|
        s.draws.len() <= i < t.draws.len() ==> !(#[trigger] t.draws[i]).dst.has(q.0, q.1)
}

proof fn lemma_misses_twice(s: SinkView, t: SinkView, r: SinkView, q: (int, int))
    requires
        misses(s, t, q),
        misses(t, r, q),
    ensures
        misses(s, r, q),
{
    assert forall|i: int| 0 <= i < s.draws.len() implies #[trigger] r.draws[i] == s.draws[i] by {
        assert(t.draws[i] == s.draws[i]);
    }
    assert forall|i: int| s.draws.len() <= i < r.draws.len() implies !(
    #[trigger] r.draws[i]).dst.has(q.0, q.1) by {
        if i < t.draws.len() {
            assert(r.draws[i] == t.draws[i]);
        }
    }
}

pub proof fn lemma_place_outside(
    abs_x: int,
    abs_y: int,
    geom: WindowGeometry,
    clip: ClipBox,
    input: WalkInput,
    rects: Seq<RegionRect>,
    q: (int, int),
)
    requires
        clip_ok(clip),
        layout_ok(input.layout),
        !clip_has(clip, input.layout, q) || !reaches(geom, abs_x, abs_y, input.layout, q),
    ensures
        forall|i: int|
            0 <= i < placed_rects(abs_x, abs_y, geom, clip, input, rects).len() ==> !(
            #[trigger] placed_rects(abs_x, abs_y, geom, clip, input, rects)[i]).has(q.0, q.1),
    decreases rects.len(),
{
    if rects.len() > 0 {
        lemma_place_outside(abs_x, abs_y, geom, clip, input, rects.drop_last(), q);
        lemma_placed(abs_x, abs_y, geom, clip, input.layout, rects.last());
        let head = placed_rects(abs_x, abs_y, geom, clip, input, rects.drop_last());
        let place = placed_rects(abs_x, abs_y, geom, clip, input, rects);
        match placed_rect(abs_x, abs_y, geom, clip, input.layout, rects.last()) {
            None => {},
            Some(p) => {
                assert(!p.has(q.0, q.1));
                if input.mode == Visibility::On {
                    match intersection(p, output_rect(input.extent())) {
                        None => {},
                        Some(c) => {
                            assert(!c.has(q.0, q.1));
                            assert(place == head.push(c));
                        },
                    }
                } else {
                    assert(place == head.push(p));
                }
            },
        }
        assert forall|i: int| 0 <= i < place.len() implies !(#[trigger] place[i]).has(q.0, q.1) by {
            if i < head.len() {
                assert(place[i] == head[i]);
            }
        }
    }
}

/// The node's draws miss a pixel that none of its place rects has.
proof fn lemma_finish_misses(
    input: WalkInput,
    xid: u32,
    pax: int,
    pay: int,
    red: bool,
    cow: bool,
    clip: ClipBox,
    leaf: bool,
    mine: Set<(int, int)>,
    u: Set<(int, int)>,
    s: SinkView,
    q: (int, int),
)
    requires
        input.mode == Visibility::Off,
        clip_ok(clip),
        layout_ok(input.layout),
        on_screen(input, q),
        ({
            let geom = input.windows[xid];
            let d = decision(input, xid, geom, pax, pay, red, cow, clip);
            !clip_has(clip, input.layout, q) || !reaches(
                geom,
                d.abs_x,
                d.abs_y,
                input.layout,
                q,
            )
        }),
    ensures
        ({
            let geom = input.windows[xid];
            let d = decision(input, xid, geom, pax, pay, red, cow, clip);
            misses(s, finish_node(input, xid, geom, d, leaf, mine, u, s, cow).1, q)
        }),
{
    let geom = input.windows[xid];
    let d = decision(input, xid, geom, pax, pay, red, cow, clip);
    let t = finish_node(input, xid, geom, d, leaf, mine, u, s, cow).1;
    if d.store is Some && d.emits {
        let n = paint_of(input.mode, geom, d, d.store->0, cow);
        let rects = own_rects(input, xid, geom);
        lemma_place_outside(d.abs_x, d.abs_y, geom, clip, input, rects, q);
        lemma_place_exact(input, d.abs_x, d.abs_y, geom, clip, rects, n, q, false);
        let drawn = quads(n, d.place.reverse());
        assert(t.draws == s.draws + drawn);
        assert forall|i: int| s.draws.len() <= i < t.draws.len() implies !(
        #[trigger] t.draws[i]).dst.has(q.0, q.1) by {
            let j = d.place.len() - 1 - (i - s.draws.len());
            assert(drawn[i - s.draws.len()] == crate::emit::quad_of(n, d.place[j]));
            assert(quad_exact(n, d.place[j], q, false));
        }
    }
}

proof fn lemma_visit_misses(
    input: WalkInput,
    fuel: nat,
    xid: u32,
    pax: int,
    pay: int,
    u: Set<(int, int)>,
    s: SinkView,
    red: bool,
    cow: bool,
    clip: ClipBox,
    q: (int, int),
)
    requires
        input.mode == Visibility::Off,
        clip_ok(clip),
        layout_ok(input.layout),
        on_screen(input, q),
        -0x7000_0000 <= pax <= 0x7000_0000 && -0x7000_0000 <= pay <= 0x7000_0000 || !clip_has(
            clip,
            input.layout,
            q,
        ),
        input.windows.dom().contains(xid) && input.windows[xid].mapped ==> !clip_has(
            clip,
            input.layout,
            q,
        ) || !reaches(
            input.windows[xid],
            pax + input.windows[xid].x,
            pay + input.windows[xid].y,
            input.layout,
            q,
        ),
    ensures
        misses(s, visited(input, fuel, xid, pax, pay, u, s, red, cow, clip).1, q),
    decreases fuel, 0nat,
{
    if fuel == 0 || !input.windows.dom().contains(xid) || !input.windows[xid].mapped {
    } else {
        let geom = input.windows[xid];
        let d = decision(input, xid, geom, pax, pay, red, cow, clip);
        let kids = children_of(input.windows, xid);
        let leaf = kids.len() == 0;
        let counted = WalkStats { nodes_visited: sat_add(s.stats.nodes_visited, 1), ..s.stats };
        let s1 = SinkView { stats: counted, ..s };
        assert(clip_ok(d.child_clip));
        assert(!clip_has(d.child_clip, input.layout, q));
        let none = Set::<(int, int)>::empty();
        lemma_children_miss(
            input,
            (fuel - 1) as nat,
            kids,
            d.abs_x,
            d.abs_y,
            none,
            s1,
            d.child_under_redirected_ancestor,
            cow,
            d.child_clip,
            q,
        );
        let (left, t) = visited_children(
            input,
            (fuel - 1) as nat,
            kids,
            d.abs_x,
            d.abs_y,
            none,
            s1,
            d.child_under_redirected_ancestor,
            cow,
            d.child_clip,
        );
        lemma_finish_misses(input, xid, pax, pay, red, cow, clip, leaf, left, u, t, q);
        let r = finish_node(input, xid, geom, d, leaf, left, u, t, cow).1;
        lemma_misses_twice(s1, t, r, q);
    }
}

/// Siblings of which none has the pixel, or that are clipped away there.
proof fn lemma_children_miss(
    input: WalkInput,
    fuel: nat,
    kids: Seq<u32>,
    pax: int,
    pay: int,
    u: Set<(int, int)>,
    s: SinkView,
    red: bool,
    cow: bool,
    clip: ClipBox,
    q: (int, int),
)
    requires
        input.mode == Visibility::Off,
        clip_ok(clip),
        layout_ok(input.layout),
        on_screen(input, q),
        -0x7000_0000 <= pax <= 0x7000_0000 && -0x7000_0000 <= pay <= 0x7000_0000 || !clip_has(
            clip,
            input.layout,
            q,
        ),
        forall|i: int|
            0 <= i < kids.len() && input.windows.dom().contains(#[trigger] kids[i])
                && input.windows[kids[i]].mapped ==> !clip_has(clip, input.layout, q) || !reaches(
                input.windows[kids[i]],
                pax + input.windows[kids[i]].x,
                pay + input.windows[kids[i]].y,
                input.layout,
                q,
            ),
    ensures
        misses(s, visited_children(input, fuel, kids, pax, pay, u, s, red, cow, clip).1, q),
    decreases fuel, kids.len() + 1,
{
    if kids.len() > 0 {
        assert(kids.last() == kids[kids.len() - 1]);
        lemma_visit_misses(input, fuel, kids.last(), pax, pay, u, s, red, cow, clip, q);
        let (u2, t) = visited(input, fuel, kids.last(), pax, pay, u, s, red, cow, clip);
        assert forall|i: int|
            0 <= i < kids.drop_last().len() && input.windows.dom().contains(
                #[trigger] kids.drop_last()[i],
            ) && input.windows[kids.drop_last()[i]].mapped implies !clip_has(clip, input.layout, q)
            || !reaches(
            input.windows[kids.drop_last()[i]],
            pax + input.windows[kids.drop_last()[i]].x,
            pay + input.windows[kids.drop_last()[i]].y,
            input.layout,
            q,
        ) by {
            assert(kids.drop_last()[i] == kids[i]);
        }
        lemma_children_miss(input, fuel, kids.drop_last(), pax, pay, u2, t, red, cow, clip, q);
        let r = visited_children(
            input,
            fuel,
            kids.drop_last(),
            pax,
            pay,
            u2,
            t,
            red,
            cow,
            clip,
        ).1;
        lemma_misses_twice(s, t, r, q);
    }
}

// ── children exist as a list ────────────────────────────────────────
proof fn lemma_sorted_exists(w: Map<u32, WindowGeometry>, set: Set<u32>) -> (s: Seq<u32>)
    requires
        set.finite(),
    ensures
        in_stack_order(w, s),
        forall|i: int| 0 <= i < s.len() ==> set.contains(#[trigger] s[i]),
        forall|c: u32| #[trigger]
            set.contains(c) ==> exists|i: int| 0 <= i < s.len() && #[trigger] s[i] == c,
    decreases set.len(),
{
    if set.len() == 0 {
        assert(set =~= Set::empty());
        Seq::empty()
    } else {
        let a = set.choose();
        let rest = set.remove(a);
        let t = lemma_sorted_exists(w, rest);
        let k = lemma_slot(w, t, a, 0);
        let s = t.insert(k, a);
        assert forall|i: int, j: int| 0 <= i < j < s.len() implies stacks_below(
            w,
            #[trigger] s[i],
            #[trigger] s[j],
        ) by {
            let ti = if i < k { i } else { i - 1 };
            let tj = if j < k { j } else { j - 1 };
            if i != k {
                assert(s[i] == t[ti]);
                assert(rest.contains(t[ti]));
            }
            if j != k {
                assert(s[j] == t[tj]);
                assert(rest.contains(t[tj]));
            }
            if i != k && j != k {
                assert(stacks_below(w, t[ti], t[tj]));
            }
        }
        assert forall|i: int| 0 <= i < s.len() implies set.contains(#[trigger] s[i]) by {
            if i < k {
                assert(s[i] == t[i]);
            } else if i > k {
                assert(s[i] == t[i - 1]);
            }
        }
        assert forall|c: u32| #[trigger] set.contains(c) implies exists|i: int|
            0 <= i < s.len() && #[trigger] s[i] == c by {
            if c == a {
                assert(s[k] == c);
            } else {
                assert(rest.contains(c));
                let i = choose|i: int| 0 <= i < t.len() && #[trigger] t[i] == c;
                if i < k {
                    assert(s[i] == c);
                } else {
                    assert(s[i + 1] == c);
                }
            }
        }
        s
    }
}

/// Where a window goes in a list in stacking order, from `from` on.
proof fn lemma_slot(w: Map<u32, WindowGeometry>, t: Seq<u32>, a: u32, from: int) -> (k: int)
    requires
        0 <= from <= t.len(),
        in_stack_order(w, t),
        forall|i: int| 0 <= i < t.len() ==> #[trigger] t[i] != a,
        forall|i: int| 0 <= i < from ==> stacks_below(w, #[trigger] t[i], a),
    ensures
        0 <= k <= t.len(),
        forall|i: int| 0 <= i < k ==> stacks_below(w, #[trigger] t[i], a),
        forall|i: int| k <= i < t.len() ==> stacks_below(w, a, #[trigger] t[i]),
    decreases t.len() - from,
{
    if from == t.len() {
        from
    } else if stacks_below(w, t[from], a) {
        lemma_slot(w, t, a, from + 1)
    } else {
        assert forall|i: int| from <= i < t.len() implies stacks_below(w, a, #[trigger] t[i]) by {
            if i > from {
                assert(stacks_below(w, t[from], t[i]));
            }
        }
        from
    }
}

pub proof fn lemma_children_listed(w: Map<u32, WindowGeometry>, p: u32)
    requires
        w.dom().finite(),
    ensures
        lists_children(w, p, children_of(w, p)),
{
    let set = w.dom().filter(|c: u32| w[c].parent == Some(p));
    w.dom().lemma_len_filter(|c: u32| w[c].parent == Some(p));
    let s = lemma_sorted_exists(w, set);
    assert forall|c: u32| #[trigger] is_child(w, p, c) implies exists|i: int|
        0 <= i < s.len() && #[trigger] s[i] == c by {
        assert(set.contains(c));
    }
    assert(lists_children(w, p, s));
}

// ── what shows at a pixel ───────────────────────────────────────────
/// Whether the first draw with the pixel that a sink gained is the one at `i`, and
/// what it samples there.
pub open spec fn hit_at(s: SinkView, t: SinkView, q: (int, int), x: Sample, i: int) -> bool {
    &&& s.draws.len() <= i < t.draws.len()
    &&& t.draws[i].dst.has(q.0, q.1)
    &&& sample_of(t.draws[i], q, false) == x
    &&& forall|j: int|
        s.draws.len() <= j < i ==> !(#[trigger] t.draws[j]).dst.has(q.0, q.1)
}

/// Whether a sink gained a draw with the pixel, and what the first samples there.
pub open spec fn hits(s: SinkView, t: SinkView, q: (int, int), x: Sample) -> bool {
    exists|i: int| #[trigger] hit_at(s, t, q, x, i)
}

pub proof fn lemma_hits_after(
    s: SinkView,
    a: SinkView,
    b: SinkView,
    t: SinkView,
    q: (int, int),
    x: Sample,
)
    requires
        misses(s, a, q),
        hits(a, b, q, x),
        extends(a, b),
        extends(b, t),
    ensures
        hits(s, t, q, x),
{
    let i = choose|i: int| #[trigger] hit_at(a, b, q, x, i);
    assert(t.draws[i] == b.draws[i]);
    assert forall|j: int| s.draws.len() <= j < i implies !(#[trigger] t.draws[j]).dst.has(
        q.0,
        q.1,
    ) by {
        assert(t.draws[j] == b.draws[j]);
        if j < a.draws.len() {
            assert(b.draws[j] == a.draws[j]);
        }
    }
    assert(hit_at(s, t, q, x, i));
}

/// A window that has the pixel shows it there, once its children missed it.
pub proof fn lemma_finish_hits(
    input: WalkInput,
    xid: u32,
    pax: int,
    pay: int,
    cow: bool,
    clip: ClipBox,
    leaf: bool,
    mine: Set<(int, int)>,
    u: Set<(int, int)>,
    s: SinkView,
    q: (int, int),
)
    requires
        input.mode == Visibility::Off,
        clip_ok(clip),
        layout_ok(input.layout),
        on_screen(input, q),
        clip_has(clip, input.layout, q),
        !input.shapes.dom().contains(xid),
        has_content(input.store, xid),
        reaches(
            input.windows[xid],
            pax + input.windows[xid].x,
            pay + input.windows[xid].y,
            input.layout,
            q,
        ),
    ensures
        ({
            let geom = input.windows[xid];
            let d = decision(input, xid, geom, pax, pay, false, cow, clip);
            hits(
                s,
                finish_node(input, xid, geom, d, leaf, mine, u, s, cow).1,
                q,
                Sample {
                    view: sampled_for(input.store, xid).storage.sample_view,
                    u: q.0 + input.layout.x - (pax + geom.x),
                    v: q.1 + input.layout.y - (pay + geom.y),
                    of_width: 0,
                    of_height: 0,
                    blends: cow,
                },
            )
        }),
{
    let geom = input.windows[xid];
    let d = decision(input, xid, geom, pax, pay, false, cow, clip);
    let t = finish_node(input, xid, geom, d, leaf, mine, u, s, cow).1;
    let one = seq![whole_window(geom)];
    assert(own_rects(input, xid, geom) == one);
    assert(one.drop_last() =~= Seq::<RegionRect>::empty());
    let head = placed_rects(d.abs_x, d.abs_y, geom, clip, input, one.drop_last());
    assert(head == Seq::<Rect2D>::empty());
    lemma_placed(d.abs_x, d.abs_y, geom, clip, input.layout, whole_window(geom));
    let p = placed_rect(d.abs_x, d.abs_y, geom, clip, input.layout, whole_window(geom));
    assert(d.abs_x == pax + geom.x && d.abs_y == pay + geom.y);
    assert(p is Some && p->0.has(q.0, q.1));
    assert(d.place == head.push(p->0));
    assert(d.emits && d.store is Some);
    let n = paint_of(input.mode, geom, d, d.store->0, cow);
    lemma_place_exact(input, d.abs_x, d.abs_y, geom, clip, one, n, q, false);
    assert(d.place[0] == p->0);
    assert(quad_exact(n, d.place[0], q, false));
    let drawn = quads(n, d.place.reverse());
    assert(drawn[0] == crate::emit::quad_of(n, p->0));
    assert(t.draws == s.draws + drawn);
    assert(t.draws[s.draws.len() as int] == drawn[0]);
    let x = Sample {
        view: sampled_for(input.store, xid).storage.sample_view,
        u: q.0 + input.layout.x - (pax + geom.x),
        v: q.1 + input.layout.y - (pay + geom.y),
        of_width: 0,
        of_height: 0,
        blends: cow,
    };
    assert(node_sample(n, q, false) == x);
    assert(hit_at(s, t, q, x, s.draws.len() as int));
}

/// Whether a mapped window with its parent's corner at `(x, y)` has the root-space
/// point under pixel `q`.
pub open spec fn lies_under(input: WalkInput, xid: u32, x: int, y: int, q: (int, int)) -> bool {
    &&& input.windows.dom().contains(xid)
    &&& input.windows[xid].mapped
    &&& reaches(
        input.windows[xid],
        x + input.windows[xid].x,
        y + input.windows[xid].y,
        input.layout,
        q,
    )
}

/// Whether sibling `a` stands above sibling `b`.
pub open spec fn stands_above(input: WalkInput, a: u32, b: u32) -> bool {
    input.windows[a].stack_rank > input.windows[b].stack_rank || (input.windows[a].stack_rank
        == input.windows[b].stack_rank && a > b)
}

/// Whether a line of windows, each the child of the one before, leads down to the
/// one that is seen at pixel `q`: all of them have the pixel, no sibling above one
/// of them does, and no child of the last does. `(x, y)` is the corner of the first
/// one's parent.
pub open spec fn in_sight(input: WalkInput, path: Seq<u32>, x: int, y: int, q: (int, int)) -> bool
    decreases path.len(),
{
    path.len() > 0 && lies_under(input, path[0], x, y, q) && {
        let top = path[0];
        let (nx, ny) = (x + input.windows[top].x, y + input.windows[top].y);
        if path.len() == 1 {
            forall|c: u32|
                input.windows.dom().contains(c) && input.windows[c].parent == Some(top)
                    ==> !#[trigger] lies_under(input, c, nx, ny, q)
        } else {
            &&& unredirected(input.store, top)
            &&& input.windows.dom().contains(path[1])
            &&& input.windows[path[1]].parent == Some(top)
            &&& forall|c: u32|
                input.windows.dom().contains(c) && input.windows[c].parent == Some(top)
                    && stands_above(input, c, path[1]) ==> !#[trigger] lies_under(
                    input,
                    c,
                    nx,
                    ny,
                    q,
                )
            &&& in_sight(input, path.drop_first(), nx, ny, q)
        }
    }
}

/// The root-space corner of the last of a line of windows.
pub open spec fn corner_of(input: WalkInput, path: Seq<u32>) -> (int, int)
    decreases path.len(),
{
    if path.len() == 0 {
        (0, 0)
    } else {
        let (x, y) = corner_of(input, path.drop_last());
        (x + input.windows[path.last()].x, y + input.windows[path.last()].y)
    }
}

/// The same from the front.
pub open spec fn corner_from(input: WalkInput, path: Seq<u32>, x: int, y: int) -> (int, int)
    decreases path.len(),
{
    if path.len() == 0 {
        (x, y)
    } else {
        corner_from(
            input,
            path.drop_first(),
            x + input.windows[path[0]].x,
            y + input.windows[path[0]].y,
        )
    }
}

pub proof fn lemma_corner(input: WalkInput, path: Seq<u32>, x: int, y: int)
    ensures
        corner_from(input, path, x, y) == (
            x + corner_of(input, path).0,
            y + corner_of(input, path).1,
        ),
    decreases path.len(),
{
    if path.len() == 1 {
        assert(path.drop_first() =~= Seq::<u32>::empty());
        assert(path.drop_last() =~= Seq::<u32>::empty());
        let t = path.drop_first();
        assert(corner_from(input, t, x + input.windows[path[0]].x, y + input.windows[path[0]].y)
            == (x + input.windows[path[0]].x, y + input.windows[path[0]].y));
        assert(corner_of(input, t) == (0int, 0int));
    } else if path.len() > 1 {
        let t = path.drop_first();
        let (nx, ny) = (x + input.windows[path[0]].x, y + input.windows[path[0]].y);
        lemma_corner(input, t, nx, ny);
        lemma_corner_front(input, path);
    }
}

proof fn lemma_corner_front(input: WalkInput, path: Seq<u32>)
    requires
        path.len() > 0,
    ensures
        corner_of(input, path) == (
            input.windows[path[0]].x + corner_of(input, path.drop_first()).0,
            input.windows[path[0]].y + corner_of(input, path.drop_first()).1,
        ),
    decreases path.len(),
{
    if path.len() == 1 {
        assert(path.drop_first() =~= Seq::<u32>::empty());
        assert(path.drop_last() =~= Seq::<u32>::empty());
        assert(corner_of(input, path.drop_first()) == (0int, 0int));
        assert(corner_of(input, path.drop_last()) == (0int, 0int));
    } else {
        lemma_corner_front(input, path.drop_last());
        assert(path.drop_last().drop_first() =~= path.drop_first().drop_last());
    }
}

/// The sample a window shows at pixel `q` with its corner at `(x, y)`.
pub open spec fn texel_under(
    input: WalkInput,
    xid: u32,
    x: int,
    y: int,
    q: (int, int),
    blends: bool,
) -> Sample {
    Sample {
        view: sampled_for(input.store, xid).storage.sample_view,
        u: q.0 + input.layout.x - x,
        v: q.1 + input.layout.y - y,
        of_width: 0,
        of_height: 0,
        blends,
    }
}

proof fn lemma_path_hits(
    input: WalkInput,
    fuel: nat,
    path: Seq<u32>,
    pax: int,
    pay: int,
    u: Set<(int, int)>,
    s: SinkView,
    cow: bool,
    clip: ClipBox,
    q: (int, int),
)
    requires
        input.mode == Visibility::Off,
        input.windows.dom().finite(),
        clip_ok(clip),
        layout_ok(input.layout),
        on_screen(input, q),
        clip_has(clip, input.layout, q),
        fuel >= path.len(),
        in_sight(input, path, pax, pay, q),
        !input.shapes.dom().contains(path.last()),
        has_content(input.store, path.last()),
    ensures
        ({
            let (x, y) = corner_from(input, path, pax, pay);
            hits(
                s,
                visited(input, fuel, path[0], pax, pay, u, s, false, cow, clip).1,
                q,
                texel_under(input, path.last(), x, y, q, cow),
            )
        }),
    decreases path.len(), 0nat,
{
    let xid = path[0];
    let geom = input.windows[xid];
    let d = decision(input, xid, geom, pax, pay, false, cow, clip);
    let kids = children_of(input.windows, xid);
    lemma_children_listed(input.windows, xid);
    let leaf = kids.len() == 0;
    let counted = WalkStats { nodes_visited: sat_add(s.stats.nodes_visited, 1), ..s.stats };
    let s1 = SinkView { stats: counted, ..s };
    let none = Set::<(int, int)>::empty();
    assert(d.abs_x == pax + geom.x && d.abs_y == pay + geom.y);
    assert(clip_ok(d.child_clip));
    assert(clip_has(d.child_clip, input.layout, q));
    let below = (fuel - 1) as nat;
    let red = d.child_under_redirected_ancestor;
    let (left, t) = visited_children(
        input,
        below,
        kids,
        d.abs_x,
        d.abs_y,
        none,
        s1,
        red,
        cow,
        d.child_clip,
    );
    let r = finish_node(input, xid, geom, d, leaf, left, u, t, cow).1;
    lemma_finish_extends(input, xid, geom, d, leaf, left, u, t, cow);
    let (x, y) = corner_from(input, path, pax, pay);
    let smp = texel_under(input, path.last(), x, y, q, cow);
    if path.len() == 1 {
        assert(path.drop_first() =~= Seq::<u32>::empty());
        assert(corner_from(input, path.drop_first(), pax + geom.x, pay + geom.y) == (
            pax + geom.x,
            pay + geom.y,
        ));
        assert forall|i: int|
            0 <= i < kids.len() && input.windows.dom().contains(#[trigger] kids[i])
                && input.windows[kids[i]].mapped implies !reaches(
            input.windows[kids[i]],
            d.abs_x + input.windows[kids[i]].x,
            d.abs_y + input.windows[kids[i]].y,
            input.layout,
            q,
        ) by {
            assert(is_child(input.windows, xid, kids[i]));
            assert(!lies_under(input, kids[i], d.abs_x, d.abs_y, q));
        }
        lemma_children_miss(
            input,
            below,
            kids,
            d.abs_x,
            d.abs_y,
            none,
            s1,
            red,
            cow,
            d.child_clip,
            q,
        );
        lemma_finish_hits(input, xid, pax, pay, cow, clip, leaf, left, u, t, q);
        lemma_hits_after(s1, t, r, r, q, smp);
    } else {
        let kid = path[1];
        assert(is_child(input.windows, xid, kid));
        let m = choose|m: int| 0 <= m < kids.len() && #[trigger] kids[m] == kid;
        let rest = path.drop_first();
        assert(rest[0] == kid && rest.last() == path.last());
        assert(!red);
        lemma_kids_hit(
            input,
            below,
            kids,
            m,
            rest,
            d.abs_x,
            d.abs_y,
            none,
            s1,
            cow,
            d.child_clip,
            q,
            xid,
        );
        assert(corner_from(input, rest, d.abs_x, d.abs_y) == (x, y));
        lemma_hits_after(s1, s1, t, r, q, smp);
    }
    let i = choose|i: int| #[trigger] hit_at(s1, r, q, smp, i);
    assert(hit_at(s, r, q, smp, i));
    assert(visited(input, fuel, xid, pax, pay, u, s, false, cow, clip).1 == r);
}

proof fn lemma_kids_hit(
    input: WalkInput,
    fuel: nat,
    kids: Seq<u32>,
    m: int,
    path: Seq<u32>,
    pax: int,
    pay: int,
    u: Set<(int, int)>,
    s: SinkView,
    cow: bool,
    clip: ClipBox,
    q: (int, int),
    parent: u32,
)
    requires
        input.mode == Visibility::Off,
        input.windows.dom().finite(),
        clip_ok(clip),
        layout_ok(input.layout),
        on_screen(input, q),
        clip_has(clip, input.layout, q),
        -0x7000_0000 <= pax <= 0x7000_0000,
        -0x7000_0000 <= pay <= 0x7000_0000,
        fuel >= path.len(),
        in_sight(input, path, pax, pay, q),
        !input.shapes.dom().contains(path.last()),
        has_content(input.store, path.last()),
        0 <= m < kids.len(),
        kids[m] == path[0],
        in_stack_order(input.windows, kids),
        forall|i: int| 0 <= i < kids.len() ==> is_child(input.windows, parent, #[trigger] kids[i]),
        forall|c: u32|
            input.windows.dom().contains(c) && input.windows[c].parent == Some(parent)
                && stands_above(input, c, path[0]) ==> !#[trigger] lies_under(
                input,
                c,
                pax,
                pay,
                q,
            ),
    ensures
        ({
            let (x, y) = corner_from(input, path, pax, pay);
            let t = visited_children(input, fuel, kids, pax, pay, u, s, false, cow, clip).1;
            &&& hits(s, t, q, texel_under(input, path.last(), x, y, q, cow))
            &&& extends(s, t)
        }),
    decreases path.len(), kids.len(),
{
    let (x, y) = corner_from(input, path, pax, pay);
    let smp = texel_under(input, path.last(), x, y, q, cow);
    let (u2, a) = visited(input, fuel, kids.last(), pax, pay, u, s, false, cow, clip);
    let t = visited_children(input, fuel, kids.drop_last(), pax, pay, u2, a, false, cow, clip).1;
    lemma_children_extend(input, fuel, kids, pax, pay, u, s, false, cow, clip);
    lemma_children_extend(input, fuel, kids.drop_last(), pax, pay, u2, a, false, cow, clip);
    lemma_visit_extends(input, fuel, kids.last(), pax, pay, u, s, false, cow, clip);
    if m == kids.len() - 1 {
        lemma_path_hits(input, fuel, path, pax, pay, u, s, cow, clip, q);
        lemma_hits_after(s, s, a, t, q, smp);
    } else {
        assert(stacks_below(input.windows, kids[m], kids[kids.len() - 1]));
        assert(is_child(input.windows, parent, kids[kids.len() - 1]));
        assert(!lies_under(input, kids.last(), pax, pay, q));
        lemma_visit_misses(input, fuel, kids.last(), pax, pay, u, s, false, cow, clip, q);
        let rest = kids.drop_last();
        assert forall|i: int| 0 <= i < rest.len() implies is_child(
            input.windows,
            parent,
            #[trigger] rest[i],
        ) by {
            assert(rest[i] == kids[i]);
        }
        lemma_kids_hit(input, fuel, rest, m, path, pax, pay, u2, a, cow, clip, q, parent);
        lemma_hits_after(s, a, t, t, q, smp);
    }
}

// ── the top-levels ──────────────────────────────────────────────────
pub proof fn lemma_tops_miss(
    input: WalkInput,
    fuel: nat,
    order: Seq<u32>,
    cow: Option<u32>,
    suppress: bool,
    u: Set<(int, int)>,
    s: SinkView,
    q: (int, int),
)
    requires
        input.mode == Visibility::Off,
        layout_ok(input.layout),
        on_screen(input, q),
        forall|j: int| 0 <= j < order.len() ==> !lies_under(input, #[trigger] order[j], 0, 0, q),
    ensures
        misses(s, top_levels_visited(input, fuel, order, cow, suppress, u, s).1, q),
    decreases order.len(),
{
    if order.len() > 0 {
        let top = order.last();
        let rest = order.drop_last();
        assert(!lies_under(input, order[order.len() - 1], 0, 0, q));
        assert forall|j: int| 0 <= j < rest.len() implies !lies_under(
            input,
            #[trigger] rest[j],
            0,
            0,
            q,
        ) by {
            assert(rest[j] == order[j]);
        }
        if suppress && cow == Some(top) {
            lemma_tops_miss(input, fuel, rest, cow, suppress, u, s, q);
        } else {
            let is_cow = cow == Some(top);
            lemma_visit_misses(input, fuel, top, 0, 0, u, s, false, is_cow, no_clip(), q);
            let (u2, t) = visited(input, fuel, top, 0, 0, u, s, false, is_cow, no_clip());
            lemma_tops_miss(input, fuel, rest, cow, suppress, u2, t, q);
            lemma_misses_twice(
                s,
                t,
                top_levels_visited(input, fuel, rest, cow, suppress, u2, t).1,
                q,
            );
        }
    }
}

proof fn lemma_tops_hit(
    input: WalkInput,
    fuel: nat,
    order: Seq<u32>,
    k: int,
    path: Seq<u32>,
    cow: Option<u32>,
    suppress: bool,
    u: Set<(int, int)>,
    s: SinkView,
    q: (int, int),
)
    requires
        input.mode == Visibility::Off,
        input.windows.dom().finite(),
        layout_ok(input.layout),
        on_screen(input, q),
        fuel >= path.len(),
        in_sight(input, path, 0, 0, q),
        !input.shapes.dom().contains(path.last()),
        has_content(input.store, path.last()),
        0 <= k < order.len(),
        order[k] == path[0],
        forall|j: int| k < j < order.len() ==> !lies_under(input, #[trigger] order[j], 0, 0, q),
        !(suppress && cow == Some(path[0])),
    ensures
        ({
            let (x, y) = corner_of(input, path);
            hits(
                s,
                top_levels_visited(input, fuel, order, cow, suppress, u, s).1,
                q,
                texel_under(input, path.last(), x, y, q, cow == Some(path[0])),
            )
        }),
    decreases order.len(),
{
    let top = order.last();
    let rest = order.drop_last();
    let (x, y) = corner_of(input, path);
    let smp = texel_under(input, path.last(), x, y, q, cow == Some(path[0]));
    let is_cow = cow == Some(top);
    let r = top_levels_visited(input, fuel, order, cow, suppress, u, s).1;
    if k == order.len() - 1 {
        lemma_corner(input, path, 0, 0);
        lemma_path_hits(input, fuel, path, 0, 0, u, s, is_cow, no_clip(), q);
        lemma_visit_extends(input, fuel, top, 0, 0, u, s, false, is_cow, no_clip());
        let (u2, t) = visited(input, fuel, top, 0, 0, u, s, false, is_cow, no_clip());
        lemma_top_levels_extend(input, fuel, rest, cow, suppress, u2, t);
        lemma_hits_after(s, s, t, r, q, smp);
    } else {
        assert(!lies_under(input, order[order.len() - 1], 0, 0, q));
        assert forall|j: int| k < j < rest.len() implies !lies_under(
            input,
            #[trigger] rest[j],
            0,
            0,
            q,
        ) by {
            assert(rest[j] == order[j]);
        }
        if suppress && is_cow {
            lemma_tops_hit(input, fuel, rest, k, path, cow, suppress, u, s, q);
        } else {
            lemma_visit_misses(input, fuel, top, 0, 0, u, s, false, is_cow, no_clip(), q);
            let (u2, t) = visited(input, fuel, top, 0, 0, u, s, false, is_cow, no_clip());
            lemma_tops_hit(input, fuel, rest, k, path, cow, suppress, u2, t, q);
            lemma_top_levels_extend(input, fuel, rest, cow, suppress, u2, t);
            lemma_hits_after(s, t, r, r, q, smp);
        }
    }
}

// ── what the draw list shows ────────────────────────────────────────
proof fn lemma_shown_first(draws: Seq<CompositeDraw>, i: int, q: (int, int))
    requires
        0 <= i < draws.len(),
        draws[i].dst.has(q.0, q.1),
        forall|j: int| i < j < draws.len() ==> !(#[trigger] draws[j]).dst.has(q.0, q.1),
    ensures
        shown_of(draws, q, false).len() > 0,
        shown_of(draws, q, false)[0] == sample_of(draws[i], q, false),
        !draws[i].alpha_passthrough ==> shown_of(draws, q, false) == seq![
            sample_of(draws[i], q, false),
        ],
    decreases draws.len(),
{
    if i < draws.len() - 1 {
        assert(!draws[draws.len() - 1].dst.has(q.0, q.1));
        let t = draws.drop_last();
        assert forall|j: int| i < j < t.len() implies !(#[trigger] t[j]).dst.has(q.0, q.1) by {
            assert(t[j] == draws[j]);
        }
        lemma_shown_first(t, i, q);
    }
}

pub proof fn lemma_hit_is_shown(w: SinkView, q: (int, int), x: Sample)
    requires
        hits(empty_sink(), w, q, x),
    ensures
        ({
            let seen = shown_of(w.draws.reverse(), q, false);
            &&& seen.len() > 0
            &&& seen[0] == x
            &&& !x.blends ==> seen == seq![x]
        }),
{
    let i = choose|i: int| #[trigger] hit_at(empty_sink(), w, q, x, i);
    let r = w.draws.reverse();
    let n = w.draws.len();
    assert(r[n - 1 - i] == w.draws[i]);
    assert forall|j: int| n - 1 - i < j < r.len() implies !(#[trigger] r[j]).dst.has(q.0, q.1) by {
        assert(r[j] == w.draws[n - 1 - j]);
    }
    lemma_shown_first(r, n - 1 - i, q);
}

/// The same input without visibility.
pub open spec fn unclipped(input: WalkInput) -> WalkInput {
    WalkInput { mode: Visibility::Off, ..input }
}

proof fn lemma_sight_unclipped(
    input: WalkInput,
    path: Seq<u32>,
    x: int,
    y: int,
    q: (int, int),
)
    ensures
        in_sight(input, path, x, y, q) == in_sight(unclipped(input), path, x, y, q),
        corner_of(input, path) == corner_of(unclipped(input), path),
    decreases path.len(),
{
    let off = unclipped(input);
    assert forall|c: u32, a: int, b: int| lies_under(input, c, a, b, q) == #[trigger] lies_under(
        off,
        c,
        a,
        b,
        q,
    ) by {}
    assert forall|c: u32, a: int, b: int| #[trigger] lies_under(input, c, a, b, q) == lies_under(
        off,
        c,
        a,
        b,
        q,
    ) by {}
    if path.len() > 0 {
        let (nx, ny) = (x + input.windows[path[0]].x, y + input.windows[path[0]].y);
        lemma_sight_unclipped(input, path.drop_first(), nx, ny, q);
        lemma_corner_unclipped(input, path);
    }
}

proof fn lemma_corner_unclipped(input: WalkInput, path: Seq<u32>)
    ensures
        corner_of(input, path) == corner_of(unclipped(input), path),
    decreases path.len(),
{
    if path.len() > 0 {
        lemma_corner_unclipped(input, path.drop_last());
    }
}

pub proof fn lemma_no_sprite(
    input: WalkInput,
    window_id: u32,
    order: Seq<u32>,
    cow: Option<u32>,
    cursor: CursorInput,
)
    ensures
        ({
            let b = built(input, window_id, order, cow, spriteless(cursor));
            let w = walked(input, window_id, order, cow);
            b.draws == w.draws.reverse() && b.participants == w.participants.reverse()
        }),
{
}

/// What a build without a sprite shows at a pixel of the output is what the build
/// without visibility shows there.
pub proof fn lemma_shown_unclipped(
    input: WalkInput,
    window_id: u32,
    order: Seq<u32>,
    cow: Option<u32>,
    cursor: CursorInput,
    q: (int, int),
)
    requires
        layout_ok(input.layout),
        input.mode == Visibility::On ==> parents_unshaped(input),
        on_screen(input, q),
    ensures
        shown_of(built(input, window_id, order, cow, cursor).draws, q, false) == shown_of(
            built(unclipped(input), window_id, order, cow, cursor).draws,
            q,
            false,
        ),
{
    if input.mode == Visibility::On {
        visibility_keeps_what_lies_where(input, window_id, order, cow, cursor, q);
    } else {
        assert(unclipped(input) == input);
    }
}

pub proof fn lemma_path_fits(path: Seq<u32>, dom: Set<u32>)
    requires
        dom.finite(),
        path.no_duplicates(),
        forall|i: int| 0 <= i < path.len() ==> dom.contains(#[trigger] path[i]),
    ensures
        path.len() <= dom.len(),
{
    path.unique_seq_to_set();
    assert(path.to_set().subset_of(dom)) by {
        assert forall|x: u32| path.to_set().contains(x) implies dom.contains(x) by {
            let i = choose|i: int| 0 <= i < path.len() && path[i] == x;
            assert(dom.contains(path[i]));
        }
    }
    lemma_len_subset(path.to_set(), dom);
}

pub proof fn lemma_sight_windows(input: WalkInput, path: Seq<u32>, x: int, y: int, q: (int, int))
    requires
        in_sight(input, path, x, y, q),
    ensures
        forall|i: int| 0 <= i < path.len() ==> input.windows.dom().contains(#[trigger] path[i]),
    decreases path.len(),
{
    let rest = path.drop_first();
    if path.len() > 1 {
        lemma_sight_windows(
            input,
            rest,
            x + input.windows[path[0]].x,
            y + input.windows[path[0]].y,
            q,
        );
    }
    assert forall|i: int| 0 <= i < path.len() implies input.windows.dom().contains(
        #[trigger] path[i],
    ) by {
        if i > 0 {
            assert(path[i] == rest[i - 1]);
        }
    }
}

/// At every pixel of the output the topmost window under it is seen, and nothing
/// else: its own image, at the texel that lies there. The line of windows leads
/// from the top-level at position `k` of the order down to the window; everything
/// above has nothing at the pixel.
pub proof fn the_topmost_window_shows(
    input: WalkInput,
    window_id: u32,
    order: Seq<u32>,
    cow: Option<u32>,
    cursor: CursorInput,
    path: Seq<u32>,
    k: int,
    q: (int, int),
)
    requires
        layout_ok(input.layout),
        input.windows.dom().finite(),
        input.mode == Visibility::On ==> parents_unshaped(input),
        0 <= q.0 < input.layout.width,
        0 <= q.1 < input.layout.height,
        0 <= k < order.len(),
        in_sight(input, path, 0, 0, q),
        path.no_duplicates(),
        order[k] == path[0],
        cow != Some(path[0]),
        forall|j: int| k < j < order.len() ==> !lies_under(input, #[trigger] order[j], 0, 0, q),
        has_content(input.store, path.last()),
        !input.shapes.dom().contains(path.last()),
    ensures
        shown_of(
            built(input, window_id, order, cow, spriteless(cursor)).draws,
            q,
            false,
        ) == seq![
            Sample {
                view: sampled_for(input.store, path.last()).storage.sample_view,
                u: q.0 + input.layout.x - corner_of(input, path).0,
                v: q.1 + input.layout.y - corner_of(input, path).1,
                of_width: 0,
                of_height: 0,
                blends: false,
            },
        ],
{
    lemma_first_seen(input, window_id, order, cow, cursor, path, k, q);
}

pub proof fn lemma_first_seen(
    input: WalkInput,
    window_id: u32,
    order: Seq<u32>,
    cow: Option<u32>,
    cursor: CursorInput,
    path: Seq<u32>,
    k: int,
    q: (int, int),
)
    requires
        layout_ok(input.layout),
        input.windows.dom().finite(),
        input.mode == Visibility::On ==> parents_unshaped(input),
        on_screen(input, q),
        0 <= k < order.len(),
        in_sight(input, path, 0, 0, q),
        path.no_duplicates(),
        order[k] == path[0],
        !(suppresses_overlay(input.windows, input.store, order, cow, input.layout) && cow == Some(
            path[0],
        )),
        forall|j: int| k < j < order.len() ==> !lies_under(input, #[trigger] order[j], 0, 0, q),
        has_content(input.store, path.last()),
        !input.shapes.dom().contains(path.last()),
    ensures
        ({
            let seen = shown_of(
                built(input, window_id, order, cow, spriteless(cursor)).draws,
                q,
                false,
            );
            let (x, y) = corner_of(input, path);
            let smp = texel_under(input, path.last(), x, y, q, cow == Some(path[0]));
            &&& seen.len() > 0
            &&& seen[0] == smp
            &&& cow != Some(path[0]) ==> seen == seq![smp]
        }),
{
    let off = unclipped(input);
    let c = spriteless(cursor);
    lemma_shown_unclipped(input, window_id, order, cow, c, q);
    lemma_sight_unclipped(input, path, 0, 0, q);
    lemma_sight_windows(input, path, 0, 0, q);
    lemma_path_fits(path, input.windows.dom());
    lemma_no_sprite(off, window_id, order, cow, cursor);
    let suppress = suppresses_overlay(off.windows, off.store, order, cow, off.layout);
    let fuel = off.windows.dom().len();
    let e = empty_sink();
    assert forall|j: int| k < j < order.len() implies !lies_under(
        off,
        #[trigger] order[j],
        0,
        0,
        q,
    ) by {
        assert(!lies_under(input, order[j], 0, 0, q));
    }
    lemma_tops_hit(off, fuel, order, k, path, cow, suppress, whole_universe(off), e, q);
    let (u, t) = top_levels_visited(off, fuel, order, cow, suppress, whole_universe(off), e);
    lemma_root_extends(off, window_id, u, t);
    let w = walked(off, window_id, order, cow);
    let (x, y) = corner_of(input, path);
    let smp = texel_under(input, path.last(), x, y, q, cow == Some(path[0]));
    lemma_top_levels_extend(off, fuel, order, cow, suppress, whole_universe(off), e);
    assert(texel_under(off, path.last(), x, y, q, cow == Some(path[0])) == smp);
    lemma_hits_after(e, e, t, w, q, smp);
    lemma_hit_is_shown(w, q, smp);
}

/// Where no window lies the root is seen, at the texel that lies there.
pub proof fn the_root_shows_where_no_window_lies(
    input: WalkInput,
    window_id: u32,
    order: Seq<u32>,
    cow: Option<u32>,
    cursor: CursorInput,
    q: (int, int),
)
    requires
        layout_ok(input.layout),
        input.mode == Visibility::On ==> parents_unshaped(input),
        0 <= q.0 < input.layout.width,
        0 <= q.1 < input.layout.height,
        forall|j: int| 0 <= j < order.len() ==> !lies_under(input, #[trigger] order[j], 0, 0, q),
        input.store.ids.dom().contains(window_id),
        input.store.ids[window_id].raw < input.store.items.len(),
        ({
            let d = input.store.items[input.store.ids[window_id].raw as int];
            &&& d.scene_participating
            &&& d.kind == DrawableKind::Root
            &&& d.redirected_target matches Some(t) ==> t.raw < input.store.items.len()
            &&& 0 <= q.0 + input.layout.x < d.storage.extent.width
            &&& 0 <= q.1 + input.layout.y < d.storage.extent.height
        }),
        sampled_for(input.store, window_id).storage.image_view != 0,
    ensures
        shown_of(
            built(input, window_id, order, cow, spriteless(cursor)).draws,
            q,
            false,
        ) == seq![
            Sample {
                view: sampled_for(input.store, window_id).storage.sample_view,
                u: q.0 + input.layout.x,
                v: q.1 + input.layout.y,
                of_width: 0,
                of_height: 0,
                blends: false,
            },
        ],
{
    let off = unclipped(input);
    let c = spriteless(cursor);
    lemma_shown_unclipped(input, window_id, order, cow, c, q);
    lemma_no_sprite(off, window_id, order, cow, cursor);
    let suppress = suppresses_overlay(off.windows, off.store, order, cow, off.layout);
    let fuel = off.windows.dom().len();
    let e = empty_sink();
    assert forall|j: int| 0 <= j < order.len() implies !lies_under(
        off,
        #[trigger] order[j],
        0,
        0,
        q,
    ) by {
        assert(!lies_under(input, order[j], 0, 0, q));
    }
    lemma_tops_miss(off, fuel, order, cow, suppress, whole_universe(off), e, q);
    let (u, t) = top_levels_visited(off, fuel, order, cow, suppress, whole_universe(off), e);
    let w = walked(off, window_id, order, cow);
    let smp = Sample {
        view: sampled_for(input.store, window_id).storage.sample_view,
        u: q.0 + input.layout.x,
        v: q.1 + input.layout.y,
        of_width: 0,
        of_height: 0,
        blends: false,
    };
    let root = root_of(off, window_id)->0;
    assert(root_of(off, window_id) is Some);
    let full = root.place[0];
    assert(root.place.len() == 1);
    assert(full.has(q.0, q.1));
    lemma_quad_exact(root.paint, full, q, false);
    let drawn = quads(root.paint, root.place.reverse());
    assert(w.draws == t.draws + drawn);
    assert(drawn[0] == crate::emit::quad_of(root.paint, full));
    assert(w.draws[t.draws.len() as int] == drawn[0]);
    assert(node_sample(root.paint, q, false) == smp);
    assert(hit_at(e, w, q, smp, t.draws.len() as int));
    lemma_hit_is_shown(w, q, smp);
}

} // verus!
