//! What claims do to the part of the output that nothing above covers: it only
//! shrinks, and an opaque window leaves nothing of its place in it. Both hold as
//! long as no remainder was collapsed to its bounding box.

use vstd::prelude::*;

use crate::emit::SinkView;
use crate::geometry::Rect2D;
use crate::visit::{
    claim_opaque, claim_taken, finish_node, mine_of, union_of_places, visited, visited_children,
};
use crate::walk::{decision, sat_add, ClipBox, DecisionView, Visibility, WalkInput, WalkStats};
use crate::windows::{children_of, WindowGeometry};

verus! {

/// Whether no claim between two states of the counters was collapsed. A counter
/// at its limit no longer tells.
pub open spec fn no_collapse(before: WalkStats, after: WalkStats) -> bool {
    &&& before.collapses_claim == after.collapses_claim < u64::MAX
    &&& before.collapses_taken == after.collapses_taken < u64::MAX
}

spec fn counts_on(before: WalkStats, after: WalkStats) -> bool {
    &&& before.collapses_claim <= after.collapses_claim
    &&& before.collapses_taken <= after.collapses_taken
}

proof fn lemma_mine_counts(u: Set<(int, int)>, place: Seq<Rect2D>, stats: WalkStats)
    ensures
        counts_on(stats, union_of_places(u, place, stats).1),
        counts_on(stats, mine_of(u, place, stats).1),
    decreases place.len(),
{
    if place.len() > 0 {
        lemma_mine_counts(u, place.drop_last(), stats);
    }
}

proof fn lemma_opaque_claim(u: Set<(int, int)>, place: Seq<Rect2D>, stats: WalkStats)
    ensures
        counts_on(stats, claim_opaque(u, place, stats).1),
        no_collapse(stats, claim_opaque(u, place, stats).1) ==> {
            &&& claim_opaque(u, place, stats).0.subset_of(u)
            &&& forall|i: int|
                0 <= i < place.len() ==> claim_opaque(u, place, stats).0.disjoint(
                    (#[trigger] place[i]).px(),
                )
        },
    decreases place.len(),
{
    if place.len() > 0 {
        let t = place.drop_last();
        lemma_opaque_claim(u, t, stats);
        if no_collapse(stats, claim_opaque(u, place, stats).1) {
            let v = claim_opaque(u, t, stats).0;
            let w = claim_opaque(u, place, stats).0;
            assert(w.subset_of(v));
            assert forall|i: int| 0 <= i < place.len() implies w.disjoint(
                (#[trigger] place[i]).px(),
            ) by {
                if i < t.len() {
                    assert(t[i] == place[i]);
                }
            }
        }
    }
}

proof fn lemma_taken_claim(
    u: Set<(int, int)>,
    place: Seq<Rect2D>,
    mine: Set<(int, int)>,
    stats: WalkStats,
)
    ensures
        counts_on(stats, claim_taken(u, place, mine, stats).1),
        no_collapse(stats, claim_taken(u, place, mine, stats).1) ==> claim_taken(
            u,
            place,
            mine,
            stats,
        ).0.subset_of(u),
    decreases place.len(),
{
    if place.len() > 0 {
        lemma_taken_claim(u, place.drop_last(), mine, stats);
    }
}

proof fn lemma_finish_claims(
    input: WalkInput,
    xid: u32,
    geom: WindowGeometry,
    d: DecisionView,
    leaf: bool,
    mine: Set<(int, int)>,
    u: Set<(int, int)>,
    s: SinkView,
    cow: bool,
)
    ensures
        ({
            let (v, t) = finish_node(input, xid, geom, d, leaf, mine, u, s, cow);
            &&& counts_on(s.stats, t.stats)
            &&& no_collapse(s.stats, t.stats) ==> {
                &&& v.subset_of(u)
                &&& input.mode == Visibility::On && d.opaque ==> forall|i: int|
                    0 <= i < d.place.len() ==> v.disjoint((#[trigger] d.place[i]).px())
            }
        }),
{
    assert forall|st: WalkStats|
        #![trigger claim_opaque(u, d.place, st)]
        counts_on(st, claim_opaque(u, d.place, st).1) && (no_collapse(
            st,
            claim_opaque(u, d.place, st).1,
        ) ==> claim_opaque(u, d.place, st).0.subset_of(u) && forall|i: int|
            0 <= i < d.place.len() ==> claim_opaque(u, d.place, st).0.disjoint(
                (#[trigger] d.place[i]).px(),
            )) by {
        lemma_opaque_claim(u, d.place, st);
    }
    assert forall|st: WalkStats|
        #![trigger claim_taken(u, d.place, mine, st)]
        counts_on(st, claim_taken(u, d.place, mine, st).1) && (no_collapse(
            st,
            claim_taken(u, d.place, mine, st).1,
        ) ==> claim_taken(u, d.place, mine, st).0.subset_of(u)) by {
        lemma_taken_claim(u, d.place, mine, st);
    }
}

/// Visiting a window and what is below it only shrinks what is left of the
/// output, and leaves nothing there of the place of an opaque window, as long as
/// no claim in the subtree was collapsed.
pub proof fn a_visit_only_claims(
    input: WalkInput,
    fuel: nat,
    xid: u32,
    pax: int,
    pay: int,
    u: Set<(int, int)>,
    s: SinkView,
    red: bool,
    cow: bool,
    clip: ClipBox,
)
    ensures
        ({
            let (v, t) = visited(input, fuel, xid, pax, pay, u, s, red, cow, clip);
            let d = decision(input, xid, input.windows[xid], pax, pay, red, cow, clip);
            &&& s.stats.collapses_claim <= t.stats.collapses_claim
            &&& s.stats.collapses_taken <= t.stats.collapses_taken
            &&& no_collapse(s.stats, t.stats) ==> {
                &&& v.subset_of(u)
                &&& fuel > 0 && input.mode == Visibility::On && input.windows.dom().contains(xid)
                    && input.windows[xid].mapped && d.opaque ==> forall|i: int|
                    0 <= i < d.place.len() ==> v.disjoint((#[trigger] d.place[i]).px())
            }
        }),
    decreases fuel, 0nat,
{
    if fuel == 0 || !input.windows.dom().contains(xid) || !input.windows[xid].mapped {
    } else {
        let geom = input.windows[xid];
        let d = decision(input, xid, geom, pax, pay, red, cow, clip);
        let kids = children_of(input.windows, xid);
        let leaf = kids.len() == 0;
        let counted = WalkStats { nodes_visited: sat_add(s.stats.nodes_visited, 1), ..s.stats };
        lemma_mine_counts(u, d.place, counted);
        let (mine, stats) = if input.mode == Visibility::On && !leaf {
            mine_of(u, d.place, counted)
        } else {
            (Set::empty(), counted)
        };
        let s1 = SinkView { stats, ..s };
        visits_only_claim(
            input,
            (fuel - 1) as nat,
            kids,
            d.abs_x,
            d.abs_y,
            mine,
            s1,
            d.child_under_redirected_ancestor,
            cow,
            d.child_clip,
        );
        let (left, t) = visited_children(
            input,
            (fuel - 1) as nat,
            kids,
            d.abs_x,
            d.abs_y,
            mine,
            s1,
            d.child_under_redirected_ancestor,
            cow,
            d.child_clip,
        );
        lemma_finish_claims(input, xid, geom, d, leaf, left, u, t, cow);
    }
}

/// Visiting siblings only shrinks what is left of the output, as long as no
/// claim on the way was collapsed.
pub proof fn visits_only_claim(
    input: WalkInput,
    fuel: nat,
    kids: Seq<u32>,
    pax: int,
    pay: int,
    u: Set<(int, int)>,
    s: SinkView,
    red: bool,
    cow: bool,
    clip: ClipBox,
)
    ensures
        ({
            let (v, t) = visited_children(input, fuel, kids, pax, pay, u, s, red, cow, clip);
            &&& s.stats.collapses_claim <= t.stats.collapses_claim
            &&& s.stats.collapses_taken <= t.stats.collapses_taken
            &&& no_collapse(s.stats, t.stats) ==> v.subset_of(u)
        }),
    decreases fuel, kids.len() + 1,
{
    if kids.len() > 0 {
        a_visit_only_claims(input, fuel, kids.last(), pax, pay, u, s, red, cow, clip);
        let (u2, t) = visited(input, fuel, kids.last(), pax, pay, u, s, red, cow, clip);
        visits_only_claim(input, fuel, kids.drop_last(), pax, pay, u2, t, red, cow, clip);
    }
}

} // verus!
