//! What holds of the books that are kept: deferred resources, the history of
//! damage, and the ledger of events.

use vstd::prelude::*;

use crate::buffer_age::history_added;
use crate::compositor::{
    all_marked, audit_active, grown, rect_marked, rects_dispatched, rects_marked, woken, SceneView,
};
use crate::deferred::{
    kept, recovered_all, recovery_fails, release_of, signaled_all, taken, DeferredSceneRelease,
    FailedSubmitBo, FencePoll,
};
use crate::draft_laws::lemma_add_all;
use crate::drain::{paired, quiesced};
use crate::geometry::{output_rect, Rect2D};
use crate::ledger::{
    candidates, from_event, lemma_noted_for, noted, noted_for, recorded, EntryView, LedgerView,
    Site, MAX_LEDGER_ENTRIES,
};
use crate::output::{flip_expected, handed_to_sink, AckView, OutputView};
use crate::present::InFlightStage;
use crate::region_set::list_px;

verus! {

// ── deferred resources ──────────────────────────────────────────────
/// Of a queue each item is kept or taken, by its flag, and none is lost: together
/// they are as many as there were.
pub proof fn each_is_kept_or_taken<T>(items: Seq<T>, done: Seq<bool>, i: int)
    requires
        done.len() == items.len(),
        0 <= i < items.len(),
    ensures
        done[i] ==> taken(items, done).contains(items[i]),
        !done[i] ==> kept(items, done).contains(items[i]),
        kept(items, done).len() + taken(items, done).len() == items.len(),
    decreases items.len(),
{
    lemma_split(items, done, i);
}

proof fn lemma_split<T>(items: Seq<T>, done: Seq<bool>, i: int)
    requires
        done.len() >= items.len(),
    ensures
        0 <= i < items.len() && done[i] ==> taken(items, done).contains(items[i]),
        0 <= i < items.len() && !done[i] ==> kept(items, done).contains(items[i]),
        kept(items, done).len() + taken(items, done).len() == items.len(),
    decreases items.len(),
{
    if items.len() > 0 {
        let t = items.drop_last();
        lemma_split(t, done, i);
        let last = items.len() - 1;
        if 0 <= i < last {
            if done[i] {
                let k = choose|k: int| 0 <= k < taken(t, done).len() && taken(t, done)[k] == t[i];
                assert(taken(items, done)[k] == items[i]);
            } else {
                let k = choose|k: int| 0 <= k < kept(t, done).len() && kept(t, done)[k] == t[i];
                assert(kept(items, done)[k] == items[i]);
            }
        }
        if i == last {
            if done[i] {
                assert(taken(items, done).last() == items[i]);
            } else {
                assert(kept(items, done).last() == items[i]);
            }
        }
    }
}

/// A slot is given back exactly once its fence has signalled. A buffer of a lost
/// frame must be recovered too; a fence that cannot be read, or a buffer that
/// cannot be recovered, is reported and keeps its place.
pub proof fn nothing_is_given_back_before_its_fence<T>(
    items: Seq<T>,
    polls: Seq<FencePoll>,
    recycled: Seq<bool>,
    i: int,
)
    requires
        polls.len() == items.len(),
        recycled.len() == items.len(),
        0 <= i < items.len(),
    ensures
        polls[i] == FencePoll::Signaled ==> taken(items, signaled_all(polls)).contains(items[i]),
        polls[i] != FencePoll::Signaled ==> kept(items, signaled_all(polls)).contains(items[i]),
        polls[i] == FencePoll::Signaled && recycled[i] ==> taken(
            items,
            recovered_all(polls, recycled),
        ).contains(items[i]),
        polls[i] != FencePoll::Signaled || !recycled[i] ==> kept(
            items,
            recovered_all(polls, recycled),
        ).contains(items[i]),
        polls[i] == FencePoll::Failed || (polls[i] == FencePoll::Signaled && !recycled[i])
            ==> recovery_fails(polls, recycled),
        (forall|k: int|
            0 <= k < polls.len() ==> #[trigger] polls[k] != FencePoll::Failed && (polls[k]
                == FencePoll::Signaled ==> recycled[k])) ==> !recovery_fails(polls, recycled),
        kept(items, signaled_all(polls)).len() + taken(items, signaled_all(polls)).len()
            == items.len(),
        kept(items, recovered_all(polls, recycled)).len() + taken(
            items,
            recovered_all(polls, recycled),
        ).len() == items.len(),
{
    lemma_split(items, signaled_all(polls), i);
    lemma_split(items, recovered_all(polls, recycled), i);
}

/// A drain drops only the frames that it waited for, with their slots; whatever
/// could not be waited for stays. The buffers' contents count as unknown, and
/// nothing is remembered of the cursor.
pub proof fn a_drain_keeps_what_it_could_not_wait_for(o: OutputView, waits: Seq<bool>, i: int)
    requires
        waits.len() == o.pending_acks.len(),
        o.pool_slots.len() == o.pending_acks.len(),
        0 <= i < waits.len(),
    ensures
        ({
            let t = quiesced(o, waits);
            &&& !waits[i] ==> t.pending_acks.contains(o.pending_acks[i]) && t.pool_slots.contains(
                o.pool_slots[i],
            )
            &&& waits[i] ==> taken(o.pool_slots.take(paired(o)), waits).contains(o.pool_slots[i])
            &&& t.pending_acks.len() == t.pool_slots.len()
            &&& t.damage.owed
            &&& t.damage.staged is None
            &&& t.cursor_rect is None && t.cursor_version is None && t.cursor_prev_pos is None
            &&& t.show_retry is None
            &&& t.cursor_mode is Hidden
            &&& t.prev_presented == o.prev_presented
            &&& t.structure_damage == o.structure_damage
            &&& t.failed_repaint == o.failed_repaint
            &&& t.generation == o.generation
        }),
{
    let slots = o.pool_slots.take(paired(o));
    assert(slots =~= o.pool_slots);
    assert(o.pool_slots.skip(paired(o)) =~= Seq::<usize>::empty());
    lemma_split(o.pending_acks, waits, i);
    lemma_split(slots, waits, i);
    let t = quiesced(o, waits);
    assert(t.pool_slots =~= kept(slots, waits));
    lemma_same_split(o.pending_acks, slots, waits);
}

proof fn lemma_same_split<A, B>(a: Seq<A>, b: Seq<B>, done: Seq<bool>)
    requires
        a.len() == b.len(),
        done.len() >= a.len(),
    ensures
        kept(a, done).len() == kept(b, done).len(),
    decreases a.len(),
{
    if a.len() > 0 {
        lemma_same_split(a.drop_last(), b.drop_last(), done);
    }
}

// ── the history of damage ───────────────────────────────────────────
/// The damage of every generation strictly between two others is added, on top of
/// what was there; without such a generation nothing is.
pub proof fn the_history_between_two_frames_is_added(
    s: Seq<(u64, Seq<Rect2D>)>,
    last_gen: u64,
    frame_gen: u64,
    dst: Seq<Rect2D>,
    i: int,
)
    ensures
        list_px(dst).subset_of(list_px(history_added(s, last_gen, frame_gen, dst))),
        0 <= i < s.len() && last_gen < s[i].0 < frame_gen ==> list_px(s[i].1).subset_of(
            list_px(history_added(s, last_gen, frame_gen, dst)),
        ),
        (forall|k: int|
            0 <= k < s.len() ==> !(last_gen < (#[trigger] s[k]).0 < frame_gen)) ==> history_added(
            s,
            last_gen,
            frame_gen,
            dst,
        ) == dst,
    decreases s.len(),
{
    if s.len() > 0 {
        let t = s.drop_last();
        the_history_between_two_frames_is_added(t, last_gen, frame_gen, dst, i);
        let before = history_added(t, last_gen, frame_gen, dst);
        lemma_add_all(before, s.last().1);
        assert(s.last() == s[s.len() - 1]);
        if forall|k: int| 0 <= k < s.len() ==> !(last_gen < (#[trigger] s[k]).0 < frame_gen) {
            assert forall|k: int| 0 <= k < t.len() implies !(last_gen < (#[trigger] t[k]).0
                < frame_gen) by {
                assert(t[k] == s[k]);
            }
        }
    }
}

// ── the ledger ──────────────────────────────────────────────────────
/// An event that is recorded stands last, under its own number, and the next one
/// gets another; older events stay, unless there are too many: then the oldest is
/// counted as dropped.
pub proof fn a_recorded_event_stands_last(l: LedgerView, site: Site, area: Seq<Rect2D>)
    requires
        l.entries.len() <= MAX_LEDGER_ENTRIES,
        l.next_event_id < u64::MAX,
        l.dropped_events < u64::MAX,
    ensures
        ({
            let r = recorded(l, site, area);
            &&& r.entries.len() > 0 && r.entries.len() <= 16384
            &&& r.entries.last().id == l.next_event_id
            &&& r.entries.last().site == site
            &&& r.entries.last().expected_area == area
            &&& r.entries.last().contributed_outputs.len() == 0
            &&& r.next_event_id == l.next_event_id + 1
            &&& l.entries.len() < 16384 ==> r.entries.drop_last() == l.entries && r.dropped_events
                == l.dropped_events
            &&& l.entries.len() == 16384 ==> r.entries.drop_last() == l.entries.drop_first()
                && r.dropped_events == l.dropped_events + 1
        }),
{
    let r = recorded(l, site, area);
    let all = l.entries.push(r.entries.last());
    if l.entries.len() < 16384 {
        assert(r.entries.drop_last() =~= l.entries);
    } else {
        assert(r.entries.drop_last() =~= l.entries.drop_first());
    }
}

/// Outputs are noted for an event without being forgotten or made up.
pub proof fn noting_adds_exactly_what_is_noted(have: Seq<usize>, more: Seq<usize>, x: usize)
    ensures
        noted(have, more).contains(x) <==> have.contains(x) || more.contains(x),
    decreases more.len(),
{
    if more.len() > 0 {
        let t = more.drop_last();
        noting_adds_exactly_what_is_noted(have, t, x);
        noting_adds_exactly_what_is_noted(have, t, more.last());
        let before = noted(have, t);
        let after = noted(have, more);
        assert(more[more.len() - 1] == more.last());
        if t.contains(x) {
            let i = choose|i: int| 0 <= i < t.len() && t[i] == x;
            assert(more[i] == x);
        }
        if more.contains(x) {
            let i = choose|i: int| 0 <= i < more.len() && more[i] == x;
            if i < t.len() {
                assert(t[i] == x);
            }
        }
        if !before.contains(more.last()) {
            assert(after == before.push(more.last()));
            assert(after[before.len() as int] == more.last());
            if before.contains(x) {
                let i = choose|i: int| 0 <= i < before.len() && before[i] == x;
                assert(after[i] == x);
            }
            if after.contains(x) {
                let i = choose|i: int| 0 <= i < after.len() && after[i] == x;
                if i < before.len() {
                    assert(before[i] == x);
                }
            }
        }
    }
}

/// What every audit has consumed is let go, and nothing that one has not.
pub proof fn only_consumed_events_are_let_go(s: Seq<EntryView>, min: u64, i: int)
    requires
        forall|a: int, b: int|
            0 <= a < b < s.len() ==> (#[trigger] s[a]).id < (#[trigger] s[b]).id,
        0 <= i < s.len(),
    ensures
        s[i].id >= min <==> from_event(s, min).contains(s[i]),
    decreases s.len(),
{
    if s[0].id < min {
        let t = s.drop_first();
        assert forall|a: int, b: int| 0 <= a < b < t.len() implies (#[trigger] t[a]).id < (
        #[trigger] t[b]).id by {
            assert(s[a + 1].id < s[b + 1].id);
        }
        if i > 0 {
            assert(t[i - 1] == s[i]);
            only_consumed_events_are_let_go(t, min, i - 1);
        } else {
            lemma_from_event(t, min);
            let k = from_event(t, min);
            if k.contains(s[0]) {
                let n = choose|n: int| 0 <= n < k.len() && k[n] == s[0];
                assert(t.contains(k[n]));
                let m = choose|m: int| 0 <= m < t.len() && t[m] == k[n];
                assert(s[0].id < s[m + 1].id);
            }
        }
    } else {
        if i > 0 {
            assert(s[0].id < s[i].id);
        }
        assert(from_event(s, min) == s);
        assert(s.contains(s[i]));
    }
}

proof fn lemma_from_event(s: Seq<EntryView>, min: u64)
    ensures
        forall|i: int|
            0 <= i < from_event(s, min).len() ==> s.contains(#[trigger] from_event(s, min)[i]),
    decreases s.len(),
{
    if s.len() > 0 && s[0].id < min {
        let t = s.drop_first();
        lemma_from_event(t, min);
        let k = from_event(t, min);
        assert forall|i: int| 0 <= i < k.len() implies s.contains(#[trigger] k[i]) by {
            let m = choose|m: int| 0 <= m < t.len() && t[m] == k[i];
            assert(s[m + 1] == k[i]);
        }
    } else {
        assert forall|i: int| 0 <= i < s.len() implies s.contains(#[trigger] s[i]) by {}
    }
}

/// What is found for a wrong tile is an event of the episode whose area overlaps the
/// tile, with whether it damaged the output.
pub proof fn what_is_found_for_a_tile_explains_it(
    s: Seq<EntryView>,
    output_idx: usize,
    tile: Rect2D,
    first: u64,
    next: u64,
    i: int,
)
    requires
        0 <= i < candidates(s, output_idx, tile, first, next).len(),
    ensures
        ({
            let c = candidates(s, output_idx, tile, first, next)[i];
            exists|k: int, a: int|
                0 <= k < s.len() && 0 <= a < s[k].expected_area.len() && first <= s[k].id < next
                    && c.id == s[k].id && c.site == s[k].site && c.contributed
                    == s[k].contributed_outputs.contains(output_idx) && (
                #[trigger] s[k].expected_area[a]).x0() < tile.x1() && tile.x0()
                    < s[k].expected_area[a].x1() && s[k].expected_area[a].y0() < tile.y1()
                    && tile.y0() < s[k].expected_area[a].y1()
        }),
    decreases s.len(),
{
    if s.len() > 0 {
        let t = s.drop_last();
        let before = candidates(t, output_idx, tile, first, next);
        let c = candidates(s, output_idx, tile, first, next)[i];
        if i < before.len() {
            assert(c == before[i]);
            what_is_found_for_a_tile_explains_it(t, output_idx, tile, first, next, i);
            let (k, a) = choose|k: int, a: int|
                0 <= k < t.len() && 0 <= a < t[k].expected_area.len() && first <= t[k].id < next
                    && c.id == t[k].id && c.site == t[k].site && c.contributed
                    == t[k].contributed_outputs.contains(output_idx) && (
                #[trigger] t[k].expected_area[a]).x0() < tile.x1() && tile.x0()
                    < t[k].expected_area[a].x1() && t[k].expected_area[a].y0() < tile.y1()
                    && tile.y0() < t[k].expected_area[a].y1();
            assert(s[k] == t[k]);
            assert(s[k].expected_area[a] == t[k].expected_area[a]);
        } else {
            let e = s.last();
            let a = choose|a: int|
                0 <= a < e.expected_area.len() && (#[trigger] e.expected_area[a]).meets(tile);
            assert(s[s.len() - 1] == e);
            assert(s[s.len() - 1].expected_area[a].meets(tile));
        }
    }
}

/// Every event of the episode that was to change a pixel of a wrong tile is found,
/// with whether it damaged the output.
pub proof fn all_events_that_explain_a_tile_are_found(
    s: Seq<EntryView>,
    output_idx: usize,
    tile: Rect2D,
    first: u64,
    next: u64,
    k: int,
    a: int,
    q: (int, int),
)
    requires
        0 <= k < s.len(),
        first <= s[k].id < next,
        0 <= a < s[k].expected_area.len(),
        s[k].expected_area[a].has(q.0, q.1),
        tile.has(q.0, q.1),
    ensures
        exists|i: int|
            0 <= i < candidates(s, output_idx, tile, first, next).len() && {
                let c = #[trigger] candidates(s, output_idx, tile, first, next)[i];
                &&& c.id == s[k].id
                &&& c.site == s[k].site
                &&& c.contributed == s[k].contributed_outputs.contains(output_idx)
            },
    decreases s.len(),
{
    let t = s.drop_last();
    let before = candidates(t, output_idx, tile, first, next);
    let all = candidates(s, output_idx, tile, first, next);
    if k < t.len() {
        assert(t[k] == s[k]);
        all_events_that_explain_a_tile_are_found(t, output_idx, tile, first, next, k, a, q);
        let i = choose|i: int|
            0 <= i < before.len() && {
                let c = #[trigger] before[i];
                &&& c.id == t[k].id
                &&& c.site == t[k].site
                &&& c.contributed == t[k].contributed_outputs.contains(output_idx)
            };
        assert(all[i] == before[i]);
    } else {
        assert(s.last().expected_area[a].meets(tile));
        assert(all.last() == all[all.len() - 1]);
    }
}

/// Whoever marks everything is written down with every output, and whoever marks a
/// rectangle of an output with that output, if events are recorded at all.
pub proof fn marks_are_written_down_with_their_outputs(
    v: SceneView,
    site: Site,
    output_idx: usize,
    r: Rect2D,
    k: int,
)
    requires
        v.inner is Some,
        audit_active(v.inner->0),
        v.inner->0.ledger.entries.len() < MAX_LEDGER_ENTRIES,
        forall|i: int|
            0 <= i < v.inner->0.ledger.entries.len() ==> (
            #[trigger] v.inner->0.ledger.entries[i]).id < v.inner->0.ledger.next_event_id,
        0 <= k < v.inner->0.outputs.len(),
        output_idx < v.inner->0.outputs.len(),
    ensures
        ({
            let i = v.inner->0;
            let all = all_marked(v, site).inner->0.ledger.entries;
            let one = rect_marked(v, output_idx, r, site).inner->0.ledger.entries;
            &&& all.len() == i.ledger.entries.len() + 1
            &&& all.last().id == i.ledger.next_event_id
            &&& all.last().site == site
            &&& all.last().contributed_outputs.contains(i.outputs[k].output_idx)
            &&& all.last().expected_area.contains(output_rect(i.outputs[k].extent))
            &&& one.len() == i.ledger.entries.len() + 1
            &&& one.last().id == i.ledger.next_event_id
            &&& one.last().site == site
            &&& one.last().contributed_outputs.contains(output_idx)
            &&& one.last().expected_area == seq![r]
        }),
{
    let i = v.inner->0;
    let n = i.ledger.entries.len() as int;
    let areas = crate::compositor::whole_areas(i.outputs);
    let outs = crate::compositor::numbers(i.outputs);
    let a = recorded(i.ledger, site, areas);
    let b = recorded(i.ledger, site, seq![r]);
    let none = Seq::<usize>::empty();
    assert forall|m: int| 0 <= m < n implies (#[trigger] a.entries[m]).id
        != i.ledger.next_event_id by {
        assert(a.entries[m] == i.ledger.entries[m]);
    }
    assert forall|m: int| 0 <= m < n implies (#[trigger] b.entries[m]).id
        != i.ledger.next_event_id by {
        assert(b.entries[m] == i.ledger.entries[m]);
    }
    lemma_noted_for(a.entries, i.ledger.next_event_id, outs, n);
    lemma_noted_for(b.entries, i.ledger.next_event_id, seq![output_idx], n);
    noting_adds_exactly_what_is_noted(none, outs, i.outputs[k].output_idx);
    assert(outs[k] == i.outputs[k].output_idx);
    noting_adds_exactly_what_is_noted(none, seq![output_idx], output_idx);
    assert(seq![output_idx][0] == output_idx);
    assert(areas[k] == output_rect(i.outputs[k].extent));
}

/// A bare wake is written down with the whole of every output and as having damaged
/// none; where no events are recorded nothing is ever written down.
pub proof fn a_bare_wake_is_written_down_alone(
    v: SceneView,
    site: Site,
    output_idx: usize,
    r: Rect2D,
    rects: Seq<Rect2D>,
    k: int,
)
    requires
        v.inner is Some,
        v.inner->0.ledger.entries.len() < MAX_LEDGER_ENTRIES,
        0 <= k < v.inner->0.outputs.len(),
    ensures
        ({
            let i = v.inner->0;
            let w = woken(v, site).inner->0;
            &&& w.outputs == i.outputs
            &&& audit_active(i) ==> w.ledger.entries.len() == i.ledger.entries.len() + 1
                && w.ledger.entries.last().site == site
                && w.ledger.entries.last().contributed_outputs.len() == 0
                && w.ledger.entries.last().expected_area.contains(output_rect(i.outputs[k].extent))
            &&& !audit_active(i) ==> w.ledger == i.ledger && all_marked(v, site).inner->0.ledger
                == i.ledger && rect_marked(v, output_idx, r, site).inner->0.ledger == i.ledger
                && rects_marked(v, rects, site).inner->0.ledger == i.ledger
        }),
{
    let areas = crate::compositor::whole_areas(v.inner->0.outputs);
    assert(areas[k] == output_rect(v.inner->0.outputs[k].extent));
}

/// Whoever marks root-space rectangles is written down with the rectangles and with
/// exactly the outputs whose list of marks changed in length.
pub proof fn root_space_marks_are_written_down(
    v: SceneView,
    rects: Seq<Rect2D>,
    site: Site,
    k: int,
)
    requires
        v.inner is Some,
        audit_active(v.inner->0),
        v.inner->0.ledger.entries.len() < MAX_LEDGER_ENTRIES,
        forall|i: int|
            0 <= i < v.inner->0.ledger.entries.len() ==> (
            #[trigger] v.inner->0.ledger.entries[i]).id < v.inner->0.ledger.next_event_id,
        0 <= k < v.inner->0.outputs.len() <= usize::MAX,
    ensures
        ({
            let i = v.inner->0;
            let t = rects_marked(v, rects, site).inner->0;
            let e = t.ledger.entries.last();
            &&& t.ledger.entries.len() == i.ledger.entries.len() + 1
            &&& e.site == site
            &&& e.expected_area == rects
            &&& e.contributed_outputs.contains(k as usize)
                <==> t.outputs[k].structure_damage.marks.len()
                != i.outputs[k].structure_damage.marks.len()
        }),
{
    let i = v.inner->0;
    let n = i.ledger.entries.len() as int;
    let a = recorded(i.ledger, site, rects);
    let who = grown(i.outputs, rects);
    assert forall|m: int| 0 <= m < n implies (#[trigger] a.entries[m]).id
        != i.ledger.next_event_id by {
        assert(a.entries[m] == i.ledger.entries[m]);
    }
    lemma_noted_for(a.entries, i.ledger.next_event_id, who, n);
    noting_adds_exactly_what_is_noted(Seq::empty(), who, k as usize);
    lemma_grown(i.outputs, rects, k);
}

proof fn lemma_grown(outputs: Seq<OutputView>, rects: Seq<Rect2D>, k: int)
    requires
        outputs.len() <= usize::MAX,
        0 <= k < usize::MAX,
    ensures
        grown(outputs, rects).contains(k as usize) <==> k < outputs.len() && rects_dispatched(
            outputs[k],
            rects,
        ).structure_damage.marks.len() != outputs[k].structure_damage.marks.len(),
        forall|i: int|
            0 <= i < grown(outputs, rects).len() ==> #[trigger] grown(outputs, rects)[i]
                < outputs.len(),
    decreases outputs.len(),
{
    if outputs.len() > 0 {
        let t = outputs.drop_last();
        lemma_grown(t, rects, k);
        let before = grown(t, rects);
        let after = grown(outputs, rects);
        let last = (outputs.len() - 1) as usize;
        if after != before {
            assert(after == before.push(last));
            assert(after[before.len() as int] == last);
        }
        if before.contains(k as usize) {
            let i = choose|i: int| 0 <= i < before.len() && before[i] == k as usize;
            assert(after[i] == k as usize);
        }
        if after.contains(k as usize) && after != before {
            let i = choose|i: int| 0 <= i < after.len() && after[i] == k as usize;
            if i < before.len() {
                assert(before[i] == k as usize);
                assert(before.contains(k as usize));
            }
        }
        assert forall|i: int| 0 <= i < after.len() implies #[trigger] after[i] < outputs.len() by {
            if i < before.len() {
                assert(after[i] == before[i]);
            }
        }
    }
}

/// What a lost frame's resource gives back is its own buffer and its own slot.
pub proof fn a_lost_frame_gives_back_its_own(f: FailedSubmitBo)
    ensures
        release_of(f) matches DeferredSceneRelease::FailedSubmit { bo_idx, pool_slot } && bo_idx
            == f.bo_idx && pool_slot == f.pool_slot,
{
}

/// A flip ends the oldest frame exactly if that frame waits for a flip of this
/// buffer; and a frame that is handed to the sink waits for one, unchanged otherwise.
pub proof fn a_flip_ends_the_frame_that_waits_for_it(o: OutputView, bo: usize)
    requires
        o.pending_acks.len() > 0,
    ensures
        flip_expected(o, bo) <==> o.pending_acks[0].bo_idx == bo && o.pending_acks[0].stage
            == InFlightStage::KmsFlipPending,
        ({
            let t = handed_to_sink(o);
            &&& t.pending_acks.len() == o.pending_acks.len()
            &&& t.pending_acks[0].stage == InFlightStage::KmsFlipPending
            &&& t.pending_acks[0] == (AckView {
                stage: t.pending_acks[0].stage,
                ..o.pending_acks[0]
            })
            &&& t == (OutputView { pending_acks: t.pending_acks, ..o })
        }),
{
}

/// Noting outputs for an event changes that event alone, the first of its number:
/// it keeps the outputs it had and gains those that are noted.
pub proof fn noting_changes_one_event(
    s: Seq<EntryView>,
    id: u64,
    outputs: Seq<usize>,
    k: int,
    j: int,
    x: usize,
)
    requires
        0 <= k < s.len(),
        s[k].id == id,
        forall|i: int| 0 <= i < k ==> (#[trigger] s[i]).id != id,
        0 <= j < s.len(),
    ensures
        ({
            let t = noted_for(s, id, outputs);
            &&& t.len() == s.len()
            &&& j != k ==> t[j] == s[j]
            &&& t[k].contributed_outputs.contains(x) <==> s[k].contributed_outputs.contains(x)
                || outputs.contains(x)
            &&& t[k] == (EntryView { contributed_outputs: t[k].contributed_outputs, ..s[k] })
        }),
{
    lemma_noted_for(s, id, outputs, k);
    noting_adds_exactly_what_is_noted(s[k].contributed_outputs, outputs, x);
}

} // verus!
