//! What holds of all outputs together.

use vstd::prelude::*;

use crate::compositor::{
    all_marked, clipped_added, modes_of, pending_flags, pieces_of, rect_marked, rects_marked,
    rects_marked_and_woken, with_outcome, woken, ProgressView, SceneView,
};
use crate::cursor::{is_sw_like, plane_mode, CursorPlaneMode};
use crate::damage_log::{marking_keeps_all_damage, LogView};
use crate::geometry::{output_rect, projection, Extent2D, Rect2D};
use crate::ledger::Site;
use crate::output::OutputView;
use crate::store::{armed_ids, arms, DrawableView, StoreView};
use crate::tick::{may_land, TickOutcome};

verus! {

/// Whatever is marked, and every bare wake, is seen by the next tick, with a
/// renderer or without.
pub proof fn every_mark_wakes(
    v: SceneView,
    output_idx: usize,
    r: Rect2D,
    rects: Seq<Rect2D>,
    site: Site,
)
    ensures
        woken(v, site).dirty,
        all_marked(v, site).dirty,
        rect_marked(v, output_idx, r, site).dirty,
        rects_marked(v, rects, site).dirty,
{
}

/// A marked root-space pixel that lies on an output is damaged there, and what
/// was damaged before still is.
pub proof fn marked_pixels_are_damaged(
    log: LogView,
    rects: Seq<Rect2D>,
    origin: (i32, i32),
    ext: Extent2D,
    q: (int, int),
)
    requires
        output_rect(ext).has(q.0, q.1),
    ensures
        log.px().contains(q) ==> clipped_added(log, rects, origin, ext).px().contains(q),
        (exists|i: int|
            0 <= i < rects.len() && {
                let r = #[trigger] rects[i];
                r.x0() <= q.0 + origin.0 < r.x0() + r.extent.width && r.y0() <= q.1 + origin.1
                    < r.y0() + r.extent.height
            }) ==> clipped_added(log, rects, origin, ext).px().contains(q),
    decreases rects.len(),
{
    if rects.len() > 0 {
        let t = rects.drop_last();
        let before = clipped_added(log, t, origin, ext);
        marked_pixels_are_damaged(log, t, origin, ext, q);
        let p = projection(rects.last(), -origin.0, -origin.1, ext.width, ext.height);
        if p is Some {
            marking_keeps_all_damage(before, p->0);
        }
        if exists|i: int|
            0 <= i < rects.len() && {
                let r = #[trigger] rects[i];
                r.x0() <= q.0 + origin.0 < r.x0() + r.extent.width && r.y0() <= q.1 + origin.1
                    < r.y0() + r.extent.height
            } {
            let i = choose|i: int|
                0 <= i < rects.len() && {
                    let r = #[trigger] rects[i];
                    r.x0() <= q.0 + origin.0 < r.x0() + r.extent.width && r.y0() <= q.1 + origin.1
                        < r.y0() + r.extent.height
                };
            if i < t.len() {
                assert(t[i] == rects[i]);
            } else {
                assert(p is Some);
                assert(p->0.px().contains(q));
            }
        }
    }
}

/// The pixels of an output: those of its own space that lie within its extent.
pub open spec fn lies_within(ext: Extent2D, q: (int, int)) -> bool {
    0 <= q.0 < ext.width && 0 <= q.1 < ext.height && q.0 < i32::MAX && q.1 < i32::MAX
}

/// Marking everything damages every pixel of every output, on top of what was
/// damaged before, and changes nothing else of any output.
pub proof fn marking_everything_damages_every_pixel(v: SceneView, site: Site, k: int)
    requires
        v.inner is Some,
        0 <= k < v.inner->0.outputs.len(),
    ensures
        ({
            let before = v.inner->0.outputs;
            let after = all_marked(v, site).inner->0.outputs;
            &&& all_marked(v, site).inner is Some
            &&& after.len() == before.len()
            &&& before[k].structure_damage.px().subset_of(after[k].structure_damage.px())
            &&& output_rect(before[k].extent).px().subset_of(after[k].structure_damage.px())
            &&& forall|q: (int, int)|
                lies_within(before[k].extent, q)
                    ==> #[trigger] after[k].structure_damage.px().contains(q)
            &&& after[k] == (OutputView {
                structure_damage: after[k].structure_damage,
                ..before[k]
            })
        }),
{
    let o = v.inner->0.outputs[k];
    marking_keeps_all_damage(o.structure_damage, output_rect(o.extent));
    let marked = all_marked(v, site).inner->0.outputs[k];
    assert forall|q: (int, int)| lies_within(o.extent, q) implies
        #[trigger] marked.structure_damage.px().contains(q) by {
        assert(output_rect(o.extent).px().contains(q));
    }
}

/// Marking a rectangle of one output damages its pixels there, on top of what was
/// damaged before, and leaves every other output as it was.
pub proof fn marking_a_rectangle_damages_it_on_its_output(
    v: SceneView,
    output_idx: usize,
    r: Rect2D,
    site: Site,
    k: int,
)
    requires
        v.inner is Some,
        0 <= k < v.inner->0.outputs.len(),
    ensures
        ({
            let before = v.inner->0.outputs;
            let after = rect_marked(v, output_idx, r, site).inner->0.outputs;
            &&& rect_marked(v, output_idx, r, site).inner is Some
            &&& after.len() == before.len()
            &&& before[k].structure_damage.px().subset_of(after[k].structure_damage.px())
            &&& k == output_idx ==> r.px().subset_of(after[k].structure_damage.px())
            &&& k != output_idx ==> after[k] == before[k]
            &&& after[k] == (OutputView {
                structure_damage: after[k].structure_damage,
                ..before[k]
            })
        }),
{
    marking_keeps_all_damage(v.inner->0.outputs[k].structure_damage, r);
}

/// Marking root-space rectangles damages every pixel of every output that lies
/// under one of them, on top of what was damaged before, and changes nothing else
/// of any output.
pub proof fn marking_root_space_damages_it_on_every_output(
    v: SceneView,
    rects: Seq<Rect2D>,
    site: Site,
    k: int,
    j: int,
    q: (int, int),
)
    requires
        v.inner is Some,
        0 <= k < v.inner->0.outputs.len(),
        lies_within(v.inner->0.outputs[k].extent, q),
    ensures
        ({
            let before = v.inner->0.outputs;
            let after = rects_marked(v, rects, site).inner->0.outputs;
            let twice = rects_marked_and_woken(v, rects, site).inner->0.outputs;
            let at_x = q.0 + before[k].origin.0;
            let at_y = q.1 + before[k].origin.1;
            &&& rects_marked(v, rects, site).inner is Some
            &&& after.len() == before.len()
            &&& before[k].structure_damage.px().contains(q)
                ==> after[k].structure_damage.px().contains(q)
            &&& 0 <= j < rects.len() && rects[j].offset.x <= at_x < rects[j].offset.x
                + rects[j].extent.width && rects[j].offset.y <= at_y < rects[j].offset.y
                + rects[j].extent.height ==> after[k].structure_damage.px().contains(q)
            &&& after[k] == (OutputView {
                structure_damage: after[k].structure_damage,
                ..before[k]
            })
            &&& rects_marked_and_woken(v, rects, site).inner is Some
            &&& twice == after
        }),
{
    let o = v.inner->0.outputs[k];
    assert(output_rect(o.extent).has(q.0, q.1));
    marked_pixels_are_damaged(o.structure_damage, rects, o.origin, o.extent, q);
    if 0 <= j < rects.len() {
        let r = rects[j];
        assert(r.x0() == r.offset.x && r.y0() == r.offset.y);
    }
}

/// Whether some rectangle of a list has the root-space point under pixel `q` of an
/// output.
pub open spec fn under_a_rectangle(rects: Seq<Rect2D>, origin: (i32, i32), q: (int, int)) -> bool {
    exists|j: int|
        0 <= j < rects.len() && {
            let r = #[trigger] rects[j];
            r.offset.x <= q.0 + origin.0 < r.offset.x + r.extent.width && r.offset.y <= q.1
                + origin.1 < r.offset.y + r.extent.height
        }
}

/// Whether every pixel of every output that lies under one of these root-space
/// rectangles is damaged, with all that was damaged before.
pub open spec fn damaged_under(before: SceneView, after: SceneView, rects: Seq<Rect2D>) -> bool {
    before.inner matches Some(i) ==> {
        &&& after.inner is Some
        &&& after.inner->0.outputs.len() == i.outputs.len()
        &&& forall|k: int, q: (int, int)|
            0 <= k < i.outputs.len() && lies_within(i.outputs[k].extent, q) && (
            i.outputs[k].structure_damage.px().contains(q) || under_a_rectangle(
                rects,
                i.outputs[k].origin,
                q,
            )) ==> #[trigger] (after.inner->0.outputs[k]).structure_damage.px().contains(q)
    }
}

/// Marked root-space rectangles are damaged on every output, also those of a part
/// of the list alone.
pub proof fn what_is_marked_is_damaged_everywhere(
    v: SceneView,
    first: Seq<Rect2D>,
    second: Seq<Rect2D>,
    site: Site,
)
    ensures
        damaged_under(v, rects_marked_and_woken(v, first, site), first),
        damaged_under(v, rects_marked_and_woken(v, first + second, site), first),
        damaged_under(v, rects_marked_and_woken(v, first + second, site), second),
{
    let both = first + second;
    if v.inner is Some {
        let outs = v.inner->0.outputs;
        assert forall|k: int, q: (int, int)|
            0 <= k < outs.len() && lies_within(outs[k].extent, q) && (
            outs[k].structure_damage.px().contains(q) || under_a_rectangle(first, outs[k].origin, q)
                || under_a_rectangle(second, outs[k].origin, q)) implies #[trigger] (
        rects_marked_and_woken(v, both, site).inner->0.outputs[k]).structure_damage.px().contains(
            q,
        ) by {
            let o = outs[k].origin;
            if under_a_rectangle(first, o, q) {
                let j = choose|j: int|
                    0 <= j < first.len() && {
                        let r = #[trigger] first[j];
                        r.offset.x <= q.0 + o.0 < r.offset.x + r.extent.width && r.offset.y <= q.1
                            + o.1 < r.offset.y + r.extent.height
                    };
                assert(both[j] == first[j]);
                marking_root_space_damages_it_on_every_output(v, both, site, k, j, q);
            } else if under_a_rectangle(second, o, q) {
                let j = choose|j: int|
                    0 <= j < second.len() && {
                        let r = #[trigger] second[j];
                        r.offset.x <= q.0 + o.0 < r.offset.x + r.extent.width && r.offset.y <= q.1
                            + o.1 < r.offset.y + r.extent.height
                    };
                assert(both[first.len() + j] == second[j]);
                marking_root_space_damages_it_on_every_output(
                    v,
                    both,
                    site,
                    k,
                    first.len() + j,
                    q,
                );
            } else {
                marking_root_space_damages_it_on_every_output(v, both, site, k, 0, q);
            }
        }
        assert forall|k: int, q: (int, int)|
            0 <= k < outs.len() && lies_within(outs[k].extent, q) && (
            outs[k].structure_damage.px().contains(q) || under_a_rectangle(
                first,
                outs[k].origin,
                q,
            )) implies #[trigger] (
        rects_marked_and_woken(v, first, site).inner->0.outputs[k]).structure_damage.px().contains(
            q,
        ) by {
            let o = outs[k].origin;
            if under_a_rectangle(first, o, q) {
                let j = choose|j: int|
                    0 <= j < first.len() && {
                        let r = #[trigger] first[j];
                        r.offset.x <= q.0 + o.0 < r.offset.x + r.extent.width && r.offset.y <= q.1
                            + o.1 < r.offset.y + r.extent.height
                    };
                marking_root_space_damages_it_on_every_output(v, first, site, k, j, q);
            } else {
                marking_root_space_damages_it_on_every_output(v, first, site, k, 0, q);
            }
        }
    }
}

/// A drawable with new paint is awaited by every output that showed it last, and
/// by all of them if none did. So its paint never waits for somebody else's: with
/// an output there is always one that is walked for it.
pub proof fn new_paint_is_awaited_where_it_shows(
    store: StoreView,
    outputs: Seq<OutputView>,
    j: int,
)
    requires
        0 <= j < store.items.len(),
        store.items[j].scene_participating,
        store.items[j].dormant is None,
        store.items[j].damage.len() > 0,
    ensures
        ({
            let flags = pending_flags(armed_ids(store.items), outputs);
            let id = store.items[j].id;
            &&& flags.len() == outputs.len()
            &&& forall|k: int|
                0 <= k < outputs.len() && outputs[k].last_pieces.contains(id) ==> #[trigger] flags[k]
            &&& (forall|k: int|
                0 <= k < outputs.len() ==> !(#[trigger] outputs[k]).last_pieces.contains(id)) ==> (
            forall|k: int| 0 <= k < outputs.len() ==> #[trigger] flags[k])
            &&& outputs.len() > 0 ==> exists|k: int| 0 <= k < flags.len() && #[trigger] flags[k]
        }),
{
    let armed = armed_ids(store.items);
    let flags = pending_flags(armed, outputs);
    let id = store.items[j].id;
    let all = pieces_of(outputs);
    lemma_armed(store.items, j);
    let n = choose|n: int| 0 <= n < armed.len() && armed[n] == id;
    assert forall|k: int|
        0 <= k < outputs.len() && (outputs[k].last_pieces.contains(id) || forall|m: int|
            0 <= m < outputs.len() ==> !(#[trigger] outputs[m]).last_pieces.contains(
                id,
            )) implies #[trigger] flags[k] by {
        if !outputs[k].last_pieces.contains(id) {
            assert forall|m: int| 0 <= m < all.len() implies !(#[trigger] all[m]).contains(id) by {
                assert(all[m] == outputs[m].last_pieces);
            }
        }
        assert(may_land(armed[n], outputs[k].last_pieces, all));
    }
    if outputs.len() > 0 {
        if exists|m: int| 0 <= m < outputs.len() && (#[trigger] outputs[m]).last_pieces.contains(id) {
            let m = choose|m: int|
                0 <= m < outputs.len() && (#[trigger] outputs[m]).last_pieces.contains(id);
            assert(flags[m]);
        } else {
            assert(flags[0]);
        }
    }
}

/// An output that awaits nothing is left alone: a flag stands only for a drawable
/// with new paint, in the scene and not asleep, that the output showed last or
/// that no output did.
pub proof fn only_new_paint_is_awaited(store: StoreView, outputs: Seq<OutputView>, k: int)
    requires
        0 <= k < outputs.len(),
        pending_flags(armed_ids(store.items), outputs)[k],
    ensures
        exists|j: int|
            0 <= j < store.items.len() && {
                let d = #[trigger] store.items[j];
                &&& d.scene_participating
                &&& d.dormant is None
                &&& d.damage.len() > 0
                &&& outputs[k].last_pieces.contains(d.id) || forall|m: int|
                    0 <= m < outputs.len() ==> !(#[trigger] outputs[m]).last_pieces.contains(d.id)
            },
{
    let armed = armed_ids(store.items);
    let all = pieces_of(outputs);
    let n = choose|n: int|
        0 <= n < armed.len() && may_land(#[trigger] armed[n], outputs[k].last_pieces, all);
    lemma_armed_only(store.items, n);
    let j = choose|j: int|
        0 <= j < store.items.len() && armed[n] == (#[trigger] store.items[j]).id && arms(
            store.items[j],
        );
    let d = store.items[j];
    if !outputs[k].last_pieces.contains(d.id) {
        assert forall|m: int| 0 <= m < outputs.len() implies !(
        #[trigger] outputs[m]).last_pieces.contains(d.id) by {
            assert(all[m] == outputs[m].last_pieces);
        }
    }
}

proof fn lemma_armed(items: Seq<DrawableView>, j: int)
    requires
        0 <= j < items.len(),
        arms(items[j]),
    ensures
        armed_ids(items).contains(items[j].id),
    decreases items.len(),
{
    let t = items.drop_last();
    if j < t.len() {
        lemma_armed(t, j);
        let a = armed_ids(t);
        let i = choose|i: int| 0 <= i < a.len() && a[i] == items[j].id;
        assert(armed_ids(items)[i] == items[j].id);
    } else {
        assert(armed_ids(items).last() == items[j].id);
    }
}

proof fn lemma_armed_only(items: Seq<DrawableView>, n: int)
    requires
        0 <= n < armed_ids(items).len(),
    ensures
        exists|j: int|
            0 <= j < items.len() && armed_ids(items)[n] == (#[trigger] items[j]).id && arms(
                items[j],
            ),
    decreases items.len(),
{
    if items.len() > 0 {
        let t = items.drop_last();
        if n < armed_ids(t).len() {
            lemma_armed_only(t, n);
            let j = choose|j: int|
                0 <= j < t.len() && armed_ids(t)[n] == (#[trigger] t[j]).id && arms(t[j]);
            assert(items[j] == t[j]);
        } else {
            assert(arms(items[items.len() - 1]));
        }
    }
}

/// The progress after the outputs came to these outcomes in turn.
pub open spec fn with_outcomes(p: ProgressView, outcomes: Seq<TickOutcome>) -> ProgressView
    decreases outcomes.len(),
{
    if outcomes.len() == 0 {
        p
    } else {
        with_outcome(
            with_outcomes(p, outcomes.drop_last()),
            (outcomes.len() - 1) as usize,
            outcomes.last(),
        )
    }
}

/// The scene counts as taken in exactly if every output took it in: it was
/// composed, or walked and found unchanged. A skip for any other reason leaves
/// the scene to be taken in by the next tick.
pub proof fn taken_in_by_every_output_or_not_at_all(p: ProgressView, outcomes: Seq<TickOutcome>)
    ensures
        with_outcomes(p, outcomes).clear_dirty == (p.clear_dirty && forall|i: int|
            0 <= i < outcomes.len() ==> (#[trigger] outcomes[i]).clears()),
    decreases outcomes.len(),
{
    if outcomes.len() > 0 {
        let t = outcomes.drop_last();
        taken_in_by_every_output_or_not_at_all(p, t);
        let all_t = forall|i: int| 0 <= i < t.len() ==> (#[trigger] t[i]).clears();
        let all = forall|i: int| 0 <= i < outcomes.len() ==> (#[trigger] outcomes[i]).clears();
        assert(all == (all_t && outcomes.last().clears())) by {
            if all {
                assert forall|i: int| 0 <= i < t.len() implies (#[trigger] t[i]).clears() by {
                    assert(t[i] == outcomes[i]);
                }
                assert(outcomes[outcomes.len() - 1].clears());
            }
            if all_t && outcomes.last().clears() {
                assert forall|i: int| 0 <= i < outcomes.len() implies (
                #[trigger] outcomes[i]).clears() by {
                    if i < t.len() {
                        assert(t[i] == outcomes[i]);
                    }
                }
            }
        }
    }
}

/// The pointer moves the plane directly only when some output shows the cursor on
/// its plane and none draws it.
pub proof fn the_plane_moves_only_when_all_agree(outputs: Seq<OutputView>)
    requires
        plane_mode(modes_of(outputs)) == CursorPlaneMode::Hw,
    ensures
        exists|k: int| 0 <= k < outputs.len() && (#[trigger] outputs[k]).cursor_mode is Hw,
        forall|k: int| 0 <= k < outputs.len() ==> !is_sw_like((#[trigger] outputs[k]).cursor_mode),
{
    let m = modes_of(outputs);
    let i = choose|i: int| 0 <= i < m.len() && #[trigger] m[i] is Hw;
    assert(outputs[i].cursor_mode is Hw);
    assert forall|k: int| 0 <= k < outputs.len() implies !is_sw_like(
        (#[trigger] outputs[k]).cursor_mode,
    ) by {
        assert(m[k] == outputs[k].cursor_mode);
    }
}

} // verus!
