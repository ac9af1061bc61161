//! The counters of a walk count what they say.

use vstd::prelude::*;

use crate::emit::{emitted_sink, empty_sink, NodePaint, SinkView};
use crate::geometry::Rect2D;
use crate::scene_build::{
    built, root_emitted, root_of, suppresses_overlay, top_levels_visited, walked, whole_universe,
    CursorInput,
};
use crate::cursor_laws::spriteless;
use crate::visit::{
    claim_opaque, claim_taken, finish_node, mine_of, paint_of, union_of_places, visited,
    visited_children,
};
use crate::walk::{
    decision, no_clip, sat_add, ClipBox, DecisionView, Visibility, WalkInput, WalkStats,
};
use crate::windows::{children_of, WindowGeometry};

verus! {

/// Whether the counters grew from one sink to another as its lists did: a draw for
/// a draw, and a hidden participant for each source that has no piece.
spec fn counted(s: SinkView, t: SinkView) -> bool {
    let hidden = (t.sampled_ids.len() - s.sampled_ids.len()) - (t.pieces_ids.len()
        - s.pieces_ids.len());
    &&& s.draws.len() <= t.draws.len()
    &&& hidden >= 0
    &&& t.stats.draws_emitted == sat_add(
        s.stats.draws_emitted,
        (t.draws.len() - s.draws.len()) as nat,
    )
    &&& t.stats.hidden_participants == sat_add(s.stats.hidden_participants, hidden as nat)
}

proof fn lemma_counted_twice(s: SinkView, t: SinkView, r: SinkView)
    requires
        counted(s, t),
        counted(t, r),
    ensures
        counted(s, r),
{
}

proof fn lemma_emit_counts(
    input: WalkInput,
    s: SinkView,
    mine: Set<(int, int)>,
    place: Seq<Rect2D>,
    n: NodePaint,
)
    ensures
        counted(
            s,
            emitted_sink(
                s,
                input.mode,
                mine,
                place,
                n,
                input.store,
                input.extent(),
                input.elsewhere,
            ),
        ),
{
}

proof fn lemma_claims_count_nothing(
    u: Set<(int, int)>,
    place: Seq<Rect2D>,
    mine: Set<(int, int)>,
    stats: WalkStats,
)
    ensures
        claim_opaque(u, place, stats).1.draws_emitted == stats.draws_emitted,
        claim_opaque(u, place, stats).1.hidden_participants == stats.hidden_participants,
        claim_taken(u, place, mine, stats).1.draws_emitted == stats.draws_emitted,
        claim_taken(u, place, mine, stats).1.hidden_participants == stats.hidden_participants,
        union_of_places(u, place, stats).1.draws_emitted == stats.draws_emitted,
        union_of_places(u, place, stats).1.hidden_participants == stats.hidden_participants,
    decreases place.len(),
{
    if place.len() > 0 {
        lemma_claims_count_nothing(u, place.drop_last(), mine, stats);
    }
}

proof fn lemma_finish_counts(
    input: WalkInput,
    xid: u32,
    geom: WindowGeometry,
    d: DecisionView,
    leaf: bool,
    mine: Set<(int, int)>,
    u: Set<(int, int)>,
    s: SinkView,
    cow: bool,
)
    ensures
        counted(s, finish_node(input, xid, geom, d, leaf, mine, u, s, cow).1),
{
    let shown = if leaf { u } else { mine };
    let e = match d.store {
        Some(info) => if d.emits {
            emitted_sink(
                s,
                input.mode,
                shown,
                d.place,
                paint_of(input.mode, geom, d, info, cow),
                input.store,
                input.extent(),
                input.elsewhere,
            )
        } else {
            s
        },
        None => s,
    };
    if d.store is Some && d.emits {
        lemma_emit_counts(input, s, shown, d.place, paint_of(input.mode, geom, d, d.store->0, cow));
    }
    lemma_claims_count_nothing(u, d.place, mine, e.stats);
}

proof fn lemma_visit_counts(
    input: WalkInput,
    fuel: nat,
    xid: u32,
    pax: int,
    pay: int,
    u: Set<(int, int)>,
    s: SinkView,
    red: bool,
    cow: bool,
    clip: ClipBox,
)
    ensures
        counted(s, visited(input, fuel, xid, pax, pay, u, s, red, cow, clip).1),
    decreases fuel, 0nat,
{
    if fuel == 0 || !input.windows.dom().contains(xid) || !input.windows[xid].mapped {
    } else {
        let geom = input.windows[xid];
        let d = decision(input, xid, geom, pax, pay, red, cow, clip);
        let kids = children_of(input.windows, xid);
        let leaf = kids.len() == 0;
        let one = WalkStats { nodes_visited: sat_add(s.stats.nodes_visited, 1), ..s.stats };
        let (mine, stats) = if input.mode == Visibility::On && !leaf {
            mine_of(u, d.place, one)
        } else {
            (Set::empty(), one)
        };
        lemma_claims_count_nothing(u, d.place, mine, one);
        let s1 = SinkView { stats, ..s };
        assert(counted(s, s1));
        lemma_children_count(
            input,
            (fuel - 1) as nat,
            kids,
            d.abs_x,
            d.abs_y,
            mine,
            s1,
            d.child_under_redirected_ancestor,
            cow,
            d.child_clip,
        );
        let (left, t) = visited_children(
            input,
            (fuel - 1) as nat,
            kids,
            d.abs_x,
            d.abs_y,
            mine,
            s1,
            d.child_under_redirected_ancestor,
            cow,
            d.child_clip,
        );
        lemma_finish_counts(input, xid, geom, d, leaf, left, u, t, cow);
        let r = finish_node(input, xid, geom, d, leaf, left, u, t, cow).1;
        lemma_counted_twice(s, s1, t);
        lemma_counted_twice(s, t, r);
    }
}

proof fn lemma_children_count(
    input: WalkInput,
    fuel: nat,
    kids: Seq<u32>,
    pax: int,
    pay: int,
    u: Set<(int, int)>,
    s: SinkView,
    red: bool,
    cow: bool,
    clip: ClipBox,
)
    ensures
        counted(s, visited_children(input, fuel, kids, pax, pay, u, s, red, cow, clip).1),
    decreases fuel, kids.len() + 1,
{
    if kids.len() > 0 {
        lemma_visit_counts(input, fuel, kids.last(), pax, pay, u, s, red, cow, clip);
        let (u2, t) = visited(input, fuel, kids.last(), pax, pay, u, s, red, cow, clip);
        lemma_children_count(input, fuel, kids.drop_last(), pax, pay, u2, t, red, cow, clip);
        let r = visited_children(
            input,
            fuel,
            kids.drop_last(),
            pax,
            pay,
            u2,
            t,
            red,
            cow,
            clip,
        ).1;
        lemma_counted_twice(s, t, r);
    }
}

proof fn lemma_tops_count(
    input: WalkInput,
    fuel: nat,
    order: Seq<u32>,
    cow: Option<u32>,
    suppress: bool,
    u: Set<(int, int)>,
    s: SinkView,
)
    ensures
        counted(s, top_levels_visited(input, fuel, order, cow, suppress, u, s).1),
    decreases order.len(),
{
    if order.len() > 0 {
        let top = order.last();
        let rest = order.drop_last();
        if suppress && cow == Some(top) {
            lemma_tops_count(input, fuel, rest, cow, suppress, u, s);
        } else {
            let is_cow = cow == Some(top);
            lemma_visit_counts(input, fuel, top, 0, 0, u, s, false, is_cow, no_clip());
            let (u2, t) = visited(input, fuel, top, 0, 0, u, s, false, is_cow, no_clip());
            lemma_tops_count(input, fuel, rest, cow, suppress, u2, t);
            let r = top_levels_visited(input, fuel, rest, cow, suppress, u2, t).1;
            lemma_counted_twice(s, t, r);
        }
    }
}

/// The counters of a build count its lists: its draws, the cursor's aside, and the
/// sources that were sampled without a visible piece.
pub proof fn the_counters_count_the_lists(
    input: WalkInput,
    window_id: u32,
    order: Seq<u32>,
    cow: Option<u32>,
    cursor: CursorInput,
)
    ensures
        ({
            let b = built(input, window_id, order, cow, cursor);
            let bare = built(input, window_id, order, cow, spriteless(cursor));
            let hidden = bare.sampled_ids.len() - bare.pieces_ids.len();
            &&& hidden >= 0
            &&& bare.draws.len() <= u64::MAX ==> b.stats.draws_emitted == bare.draws.len()
            &&& hidden <= u64::MAX ==> b.stats.hidden_participants == hidden
            &&& b.stats == bare.stats
        }),
{
    let suppress = suppresses_overlay(input.windows, input.store, order, cow, input.layout);
    let fuel = input.windows.dom().len();
    let e = empty_sink();
    let un = whole_universe(input);
    lemma_tops_count(input, fuel, order, cow, suppress, un, e);
    let (u, t) = top_levels_visited(input, fuel, order, cow, suppress, un, e);
    let w = walked(input, window_id, order, cow);
    assert(counted(t, w)) by {
        if root_of(input, window_id) is Some {
            let root = root_of(input, window_id)->0;
            let c = SinkView {
                stats: WalkStats { nodes_visited: sat_add(t.stats.nodes_visited, 1), ..t.stats },
                ..t
            };
            lemma_emit_counts(input, c, u, root.place, root.paint);
        }
    }
    lemma_counted_twice(e, t, w);
    assert(w == root_emitted(input, window_id, u, t));
}

} // verus!
