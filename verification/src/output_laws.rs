//! What holds of an output over several steps of a frame.

use vstd::prelude::*;

use crate::cursor::{CursorTransitionResult, OutputCursorMode};
use crate::damage_log::{
    bare, captured_marks_are_released, later_marks_survive, lemma_px_from_kept,
    marking_keeps_all_damage, next_stamp, px_from, LogView,
};
use crate::deferred::{FencePoll, FenceTicket};
use crate::draw::CompositeDraw;
use crate::geometry::{output_rect, Rect2D};
use crate::output::{
    ack_of, acked_all, after_pause, completion_awaited, cursor_settled, drafted, flip_expected,
    frame_in_flight, frame_lost, frame_shown, gate, handed_to_sink, is_loadable, requested_px,
    sink_refused, with_rects, DraftView, OutputView, RetiredFrame, ScanoutToken,
};
use crate::ids::DrawableId;
use crate::present::InFlightStage;
use crate::region::lemma_capped;
use crate::region_set::{bbox_of_list, lemma_bbox_of_list, list_px};
use crate::repaint::{planned, RepaintPlan};
use crate::scanout_damage::{
    invalidated, knows, repaint_covers_what_is_stale, repaint_px, submitted, whole_px,
};
use crate::scene_build::BuildView;
use crate::scene_diff::ScenePresence;
use crate::store::{lemma_painted_by, painted_by, DrawableView, SnapshotView, StoreView};
use crate::tick::TickSkipReason;

verus! {

/// Whether every frame in flight has its descriptor slot.
pub open spec fn slots_paired(o: OutputView) -> bool {
    o.pool_slots.len() == o.pending_acks.len()
}

/// Frames and slots come and go together, however a frame ends.
pub proof fn frames_and_slots_stay_paired(
    o: OutputView,
    d: DraftView,
    bo_idx: usize,
    stage: InFlightStage,
    ticket: FenceTicket,
    slot: usize,
    shared: bool,
    complete: bool,
    painted: Set<(int, int)>,
    damage: Seq<Rect2D>,
    gpu_submitted: bool,
    poll: FencePoll,
    now: u64,
)
    requires
        slots_paired(o),
    ensures
        slots_paired(
            frame_in_flight(o, d, bo_idx, stage, ticket, slot, shared, complete, painted),
        ),
        slots_paired(frame_lost(o, damage, bo_idx, slot, ticket, gpu_submitted, now)),
        o.pending_acks.len() > 0 ==> slots_paired(frame_shown(o, poll)),
        o.pending_acks.len() > 0 ==> slots_paired(sink_refused(o, bo_idx, now)),
        o.pending_acks.len() > 0 ==> slots_paired(handed_to_sink(o)),
{
}

/// A frame in flight holds the next one back: until it has ended, every tick
/// skips the output.
pub proof fn one_frame_at_a_time(
    o: OutputView,
    d: DraftView,
    bo_idx: usize,
    stage: InFlightStage,
    ticket: FenceTicket,
    slot: usize,
    shared: bool,
    complete: bool,
    painted: Set<(int, int)>,
    now: u64,
    structure_dirty: bool,
    pending_presentation: bool,
    audit_armed: bool,
)
    ensures
        gate(
            frame_in_flight(o, d, bo_idx, stage, ticket, slot, shared, complete, painted),
            now,
            structure_dirty,
            pending_presentation,
            audit_armed,
        ) == Some(TickSkipReason::PendingAcks),
{
}

/// A frame that could not be submitted counts for nothing: the number, what is in
/// flight, what was presented, the cursor and the marked damage are as before;
/// what it was to repaint is owed, whole; and nothing is tried until the pause is
/// over.
pub proof fn a_lost_frame_counts_for_nothing(
    o: OutputView,
    damage: Seq<Rect2D>,
    bo_idx: usize,
    slot: usize,
    ticket: FenceTicket,
    gpu_submitted: bool,
    now: u64,
    later: u64,
    structure_dirty: bool,
    pending_presentation: bool,
    audit_armed: bool,
)
    requires
        o.pending_acks.len() == 0,
    ensures
        ({
            let t = frame_lost(o, damage, bo_idx, slot, ticket, gpu_submitted, now);
            &&& t.generation == o.generation
            &&& t.pending_acks == o.pending_acks
            &&& t.prev_presented == o.prev_presented
            &&& t.structure_damage == o.structure_damage
            &&& t.cursor_mode == o.cursor_mode
            &&& t.cursor_prev_pos == o.cursor_prev_pos
            &&& t.cursor_rect == o.cursor_rect
            &&& t.cursor_version == o.cursor_version
            &&& t.damage == o.damage
            &&& o.failed_repaint.px().subset_of(t.failed_repaint.px())
            &&& list_px(damage).subset_of(t.failed_repaint.px())
            &&& later < after_pause(now) ==> gate(
                t,
                later,
                structure_dirty,
                pending_presentation,
                audit_armed,
            ) == Some(TickSkipReason::RetryDeadline)
        }),
{
    if damage.len() > 0 {
        lemma_bbox_of_list(damage);
        marking_keeps_all_damage(o.failed_repaint, bbox_of_list(damage));
    } else {
        assert(list_px(damage) =~= Set::empty());
    }
}

/// Once the pause after a lost frame is over, the output is walked again although
/// nobody reports anything.
pub proof fn a_lost_frame_is_tried_again(
    o: OutputView,
    damage: Seq<Rect2D>,
    bo_idx: usize,
    slot: usize,
    ticket: FenceTicket,
    gpu_submitted: bool,
    now: u64,
    later: u64,
)
    requires
        o.pending_acks.len() == 0,
        list_px(damage) != Set::<(int, int)>::empty(),
        after_pause(now) <= later,
    ensures
        gate(
            frame_lost(o, damage, bo_idx, slot, ticket, gpu_submitted, now),
            later,
            false,
            false,
            false,
        ) is None,
{
    let t = frame_lost(o, damage, bo_idx, slot, ticket, gpu_submitted, now);
    if damage.len() == 0 {
        assert(list_px(damage) =~= Set::empty());
    }
    lemma_bbox_of_list(damage);
    marking_keeps_all_damage(o.failed_repaint, bbox_of_list(damage));
    if t.failed_repaint.marks.len() == 0 {
        assert(t.failed_repaint.px() =~= Set::empty());
        assert(list_px(damage) =~= Set::empty());
    }
}

/// A copied frame that the sink refuses gives its number back and owes what it
/// was to repaint.
pub proof fn a_refused_frame_gives_its_number_back(
    o: OutputView,
    d: DraftView,
    bo_idx: usize,
    stage: InFlightStage,
    ticket: FenceTicket,
    slot: usize,
    painted: Set<(int, int)>,
    now: u64,
)
    requires
        o.pending_acks.len() == 0,
        o.pool_slots.len() == 0,
        o.generation < u64::MAX,
        d.generation == o.generation + 1,
    ensures
        ({
            let t = sink_refused(
                frame_in_flight(o, d, bo_idx, stage, ticket, slot, false, true, painted),
                bo_idx,
                now,
            );
            &&& t.generation == o.generation
            &&& t.pending_acks.len() == 0
            &&& t.damage == o.damage
            &&& list_px(d.output_damage).subset_of(t.failed_repaint.px())
        }),
{
    let s = frame_in_flight(o, d, bo_idx, stage, ticket, slot, false, true, painted);
    assert(s.pending_acks[0] == ack_of(d, bo_idx, stage, ticket));
    if d.output_damage.len() > 0 {
        lemma_bbox_of_list(d.output_damage);
        marking_keeps_all_damage(o.failed_repaint, bbox_of_list(d.output_damage));
    } else {
        assert(list_px(d.output_damage) =~= Set::empty());
    }
}

/// Damage that comes once a frame took the marks up survives its retirement: what
/// is marked or owed before the frame is submitted (`early`), and while it is in
/// flight (`later`), however much it is and even if it is marked again.
pub proof fn later_marks_survive_retirement(
    marks: LogView,
    owed: LogView,
    early: Seq<Rect2D>,
    o: OutputView,
    d: DraftView,
    bo_idx: usize,
    stage: InFlightStage,
    ticket: FenceTicket,
    slot: usize,
    shared: bool,
    complete: bool,
    painted: Set<(int, int)>,
    later: Seq<Rect2D>,
    poll: FencePoll,
)
    requires
        o.pending_acks.len() == 0,
        d.structure_snap == marks.capture(),
        d.failed_snap == owed.capture(),
        o.structure_damage == marks.captured().add_all(early),
        o.failed_repaint == owed.captured().add_all(early),
    ensures
        ({
            let s = frame_in_flight(
                o,
                d,
                bo_idx,
                stage,
                ticket,
                slot,
                shared,
                complete,
                painted,
            );
            let after = frame_shown(
                OutputView {
                    structure_damage: s.structure_damage.add_all(later),
                    failed_repaint: s.failed_repaint.add_all(later),
                    ..s
                },
                poll,
            );
            &&& list_px(early).subset_of(after.structure_damage.px())
            &&& list_px(later).subset_of(after.structure_damage.px())
            &&& list_px(early).subset_of(after.failed_repaint.px())
            &&& list_px(later).subset_of(after.failed_repaint.px())
        }),
{
    let s = frame_in_flight(o, d, bo_idx, stage, ticket, slot, shared, complete, painted);
    assert(s.pending_acks[0] == ack_of(d, bo_idx, stage, ticket));
    let all = early + later;
    lemma_add_all_append(marks.captured(), early, later);
    lemma_add_all_append(owed.captured(), early, later);
    later_marks_survive(marks, all);
    later_marks_survive(owed, all);
    assert forall|a: (int, int)| list_px(early).contains(a) || list_px(later).contains(
        a,
    ) implies #[trigger] list_px(all).contains(a) by {
        if list_px(early).contains(a) {
            let i = choose|i: int| 0 <= i < early.len() && (#[trigger] early[i]).has(a.0, a.1);
            assert(all[i].has(a.0, a.1));
        } else {
            let i = choose|i: int| 0 <= i < later.len() && (#[trigger] later[i]).has(a.0, a.1);
            assert(all[early.len() + i].has(a.0, a.1));
        }
    }
}

proof fn lemma_add_all_append(l: LogView, a: Seq<Rect2D>, b: Seq<Rect2D>)
    ensures
        l.add_all(a + b) == l.add_all(a).add_all(b),
    decreases b.len(),
{
    if b.len() == 0 {
        assert(a + b =~= a);
    } else {
        assert((a + b).drop_last() =~= a + b.drop_last());
        lemma_add_all_append(l, a, b.drop_last());
    }
}

proof fn lemma_acked_all(store: StoreView, snaps: Seq<SnapshotView>, id: DrawableId, least: u64)
    requires
        store.get(id) is Some,
        forall|i: int|
            0 <= i < snaps.len() && (#[trigger] snaps[i]).id == id ==> next_stamp(snaps[i].epoch)
                <= least,
    ensures
        acked_all(store, snaps).get(id) is Some,
        px_from((store.get(id)->0).damage, least).subset_of(
            px_from((acked_all(store, snaps).get(id)->0).damage, least),
        ),
    decreases snaps.len(),
{
    if snaps.len() > 0 {
        let t = snaps.drop_last();
        assert forall|i: int| 0 <= i < t.len() && (#[trigger] t[i]).id == id implies next_stamp(
            t[i].epoch,
        ) <= least by {
            assert(t[i] == snaps[i]);
        }
        lemma_acked_all(store, t, id, least);
        let before = acked_all(store, t);
        let snap = snaps.last();
        assert(snap == snaps[snaps.len() - 1]);
        if snap.id == id {
            lemma_px_from_kept((before.get(id)->0).damage, least, next_stamp(snap.epoch));
        }
    }
}

/// Paint that lands after two frames captured a drawable survives the retirement
/// of both, on the same output or on two, whatever else they captured.
pub proof fn later_paint_survives_both_retirements(
    before: DrawableView,
    later: Seq<Rect2D>,
    store: StoreView,
    id: DrawableId,
    first: Seq<SnapshotView>,
    second: Seq<SnapshotView>,
)
    requires
        store.get(id) == Some(painted_by(before, later)),
        forall|i: int|
            0 <= i < first.len() && (#[trigger] first[i]).id == id ==> first[i].epoch
                <= before.epoch,
        forall|i: int|
            0 <= i < second.len() && (#[trigger] second[i]).id == id ==> second[i].epoch
                <= before.epoch,
    ensures
        ({
            let after = acked_all(acked_all(store, first), second).get(id);
            after is Some && list_px(later).subset_of(list_px(bare((after->0).damage)))
        }),
{
    let least = next_stamp(before.epoch);
    lemma_painted_by(before, later);
    lemma_acked_all(store, first, id, least);
    lemma_acked_all(acked_all(store, first), second, id, least);
    let d = acked_all(acked_all(store, first), second).get(id)->0;
    lemma_px_from_kept(d.damage, least, least);
}

/// What a frame took up is settled once it is on screen: without later damage no
/// mark is left.
pub proof fn retirement_settles_what_was_taken_up(
    marks: LogView,
    o: OutputView,
    poll: FencePoll,
)
    requires
        marks.dated(),
        marks.clock < u64::MAX,
        o.pending_acks.len() > 0,
        o.pending_acks[0].structure_damage == marks.capture(),
        o.structure_damage == marks.captured(),
    ensures
        frame_shown(o, poll).structure_damage.marks.len() == 0,
{
    captured_marks_are_released(marks);
}

/// What reached the screen becomes what the next frame is compared with, and
/// nothing else does: neither a submission nor a lost frame changes it.
pub proof fn only_the_screen_advances_the_baseline(
    o: OutputView,
    d: DraftView,
    bo_idx: usize,
    stage: InFlightStage,
    ticket: FenceTicket,
    slot: usize,
    shared: bool,
    complete: bool,
    painted: Set<(int, int)>,
    damage: Seq<Rect2D>,
    gpu_submitted: bool,
    poll: FencePoll,
    now: u64,
)
    ensures
        frame_in_flight(
            o,
            d,
            bo_idx,
            stage,
            ticket,
            slot,
            shared,
            complete,
            painted,
        ).prev_presented == o.prev_presented,
        frame_lost(o, damage, bo_idx, slot, ticket, gpu_submitted, now).prev_presented
            == o.prev_presented,
        sink_refused(o, bo_idx, now).prev_presented == o.prev_presented,
        o.pending_acks.len() == 0 ==> frame_shown(
            frame_in_flight(o, d, bo_idx, stage, ticket, slot, shared, complete, painted),
            poll,
        ).prev_presented == d.participants,
{
    let s = frame_in_flight(o, d, bo_idx, stage, ticket, slot, shared, complete, painted);
    if o.pending_acks.len() == 0 {
        assert(s.pending_acks[0] == ack_of(d, bo_idx, stage, ticket));
    }
}

/// A frame without damage is composed only where it is the first, a repaint is
/// owed or a paint would be stranded; the last is composed in full. Hidden damage
/// never forces a frame.
pub proof fn only_stranded_paint_forces_a_frame(
    o: OutputView,
    b: BuildView,
    participants: Seq<ScenePresence>,
    plane_visible: bool,
)
    requires
        o.generation != 0,
        !o.damage.owed,
        output_rect(o.extent).non_empty(),
    ensures
        ({
            let d = drafted(o, b, participants, plane_visible);
            &&& d.skip ==> d.output_damage.len() == 0 && b.stats.content_off_output == 0
            &&& !d.skip ==> d.output_damage.len() > 0
            &&& b.stats.content_off_output == 0 && d.output_damage.len() == 0 ==> d.skip
        }),
{
}

/// The first frame, and one that is owed, is always drawn.
pub proof fn owed_frames_are_drawn(
    o: OutputView,
    b: BuildView,
    participants: Seq<ScenePresence>,
    plane_visible: bool,
    now: u64,
)
    requires
        o.generation == 0 || o.damage.owed,
        o.pending_acks.len() == 0,
        o.retry_at is None,
    ensures
        gate(o, now, false, false, false) is None,
        !drafted(o, b, participants, plane_visible).skip,
{
}

/// A flip that nothing waited for leaves the output owing a full repaint.
pub proof fn unexpected_flips_are_repaired(o: OutputView, bo: usize)
    requires
        o.pending_acks.len() == 0,
    ensures
        !flip_expected(o, bo),
        invalidated(o.damage).owed,
{
}

/// A copied frame cannot retire before it was handed to the sink, and can
/// afterwards.
pub proof fn copied_frames_retire_through_the_sink(o: OutputView, job_id: u64, bo: usize)
    requires
        completion_awaited(o, job_id, bo),
    ensures
        !flip_expected(o, bo),
        flip_expected(handed_to_sink(o), bo),
        !completion_awaited(handed_to_sink(o), job_id, bo),
{
}

proof fn lemma_with_rects(px: Set<(int, int)>, rects: Seq<Rect2D>)
    ensures
        px.subset_of(with_rects(px, rects)),
        forall|i: int|
            0 <= i < rects.len() ==> (#[trigger] rects[i]).px().subset_of(with_rects(px, rects)),
    decreases rects.len(),
{
    if rects.len() > 0 {
        let t = rects.drop_last();
        lemma_with_rects(px, t);
        let u = with_rects(px, t).union(rects.last().px());
        lemma_capped(u);
        assert forall|i: int| 0 <= i < rects.len() implies (#[trigger] rects[i]).px().subset_of(
            with_rects(px, rects),
        ) by {
            if i < t.len() {
                assert(t[i] == rects[i]);
            }
        }
    }
}

/// No pixel stays stale: once a shared frame is drawn by plan, every stale pixel
/// of its buffer, the overlay and a cursor that lives in the frame are painted.
pub proof fn frames_paint_what_is_stale(
    o: OutputView,
    b: BuildView,
    token: ScanoutToken,
    overlay: Seq<Rect2D>,
    plan: RepaintPlan,
    draws: Seq<CompositeDraw>,
    stale: Seq<Set<(int, int)>>,
)
    requires
        o.damage.extent == o.extent,
        knows(o.damage, stale),
        o.damage.staged is None,
        token.bo_idx < stale.len(),
        stale[token.bo_idx as int].subset_of(whole_px(o.extent)),
        planned(
            plan,
            requested_px(o, b, token, true, overlay),
            draws,
            o.extent,
            is_loadable(token),
            true,
        ),
    ensures
        stale[token.bo_idx as int].subset_of(plan.painted@),
        forall|i: int|
            0 <= i < overlay.len() ==> (#[trigger] overlay[i]).px().intersect(
                whole_px(o.extent),
            ).subset_of(plan.painted@),
        b.software_cursor_tail is Some && b.new_cursor_rect is Some
            ==> b.new_cursor_rect->0.px().intersect(whole_px(o.extent)).subset_of(plan.painted@),
{
    let base = repaint_px(o.damage, token.bo_idx, is_loadable(token));
    repaint_covers_what_is_stale(o.damage, stale, token.bo_idx, is_loadable(token));
    lemma_with_rects(base, overlay);
    let w = with_rects(base, overlay);
    let r = requested_px(o, b, token, true, overlay);
    if b.software_cursor_tail is Some && b.new_cursor_rect is Some {
        lemma_capped(w.union(b.new_cursor_rect->0.px()));
    }
    assert(w.intersect(whole_px(o.extent)).subset_of(r));
    assert(r.subset_of(whole_px(o.extent)));
    assert(r.subset_of(plan.painted@));
    assert forall|i: int| 0 <= i < overlay.len() implies (#[trigger] overlay[i]).px().intersect(
        whole_px(o.extent),
    ).subset_of(plan.painted@) by {
        assert(overlay[i].px().subset_of(w));
    }
}

/// A plane change that failed is never claimed: what is remembered of the cursor
/// is what was presented before, or nothing, and a repaint is forced.
pub proof fn failed_plane_changes_are_not_claimed(
    o: OutputView,
    f: RetiredFrame,
    result: CursorTransitionResult,
)
    requires
        result is Visible || result is VisibleNeedsShowRetry || result is Hidden,
    ensures
        ({
            let s = cursor_settled(o, f, result);
            &&& s.cursor_rect == o.cursor_rect || s.cursor_rect is None
            &&& s.cursor_version == o.cursor_version || s.cursor_version is None
            &&& s.cursor_prev_pos is None
            &&& s.cursor_mode == (if result is Hidden {
                OutputCursorMode::Hidden
            } else {
                OutputCursorMode::Hw
            })
            &&& s.structure_damage == o.structure_damage.add(output_rect(o.extent))
        }),
{
}

} // verus!
