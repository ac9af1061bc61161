//! The life of a frame: what it does about the cursor, what its retirement
//! settles, and where its resources go.

use vstd::prelude::*;

use crate::cursor::{
    first_step, is_sw_like, next_step, plane_mode, CursorAssignment, CursorPlaneEvent,
    CursorPlaneMode, CursorRetireStep, CursorTransition, CursorTransitionResult, OutputCursorMode,
    SpriteOnHand,
};
use crate::cursor_laws::the_hotspot_lands_on_the_pointer;
use crate::damage_log::{captured_marks_are_released, marking_keeps_all_damage};
use crate::deferred::{FailedSubmitBo, FencePoll, FenceTicket};
use crate::draft_laws::{a_frame_without_a_change_is_skipped, lemma_bounded};
use crate::draw::CompositeDraw;
use crate::emit::presences_view;
use crate::frame::{drafts, scene_of, walked_output, with_frame_damage, FrameInput};
use crate::geometry::{output_rect, Extent2D, Rect2D};
use crate::ids::DrawableId;
use crate::output::{
    acked_all, cursor_settled, drafted, error_is_fatal, frame_in_flight, frame_lost, frame_shown, gate,
    is_loadable, new_output, refusal_of, requested_px, shown_frame, sink_refused, with_draft,
    with_rects, DraftView, OutputView, RetiredFrame, ScanoutToken,
};
use crate::output_laws::later_marks_survive_retirement;
use crate::present::{InFlightStage, PresentError};
use crate::region::{
    area_of, bbox_px, boxes, capped, in_plane, lemma_bbox_superset, lemma_boxes_partition_pixels,
    lemma_capped, partitions, rects_px,
};
use crate::region_set::list_px;
use crate::repaint::{
    clipped_px, clipped_scissors, cover_remainder, culled, per_rect, planned, FullReason,
    RepaintPlan,
};
use crate::scanout_damage::{
    damaged, invalidated, repaint_px, retired, submitted, whole_px, DamageModel,
};
use crate::scene_build::{
    input_of, tail_ok, without_id, BuildView, CursorEntry, CursorInput,
};
use crate::scene_diff::{same_structure, ScenePresence};
use crate::store::{
    ack_drains_captured_damage, paint_dated, paint_stays_dated, SnapshotView, StoreView,
};
use crate::submission_laws::lemma_bbox_is_rect;
use crate::walk::{layout_ok, Visibility};

verus! {

// ── the cursor of a frame ───────────────────────────────────────────
/// The frame never draws a cursor while the plane shows one. A plane that is to be
/// left is hidden once the frame is on screen, and only the frame after that draws
/// the sprite.
pub proof fn the_frame_never_draws_what_the_plane_shows(
    o: OutputView,
    b: BuildView,
    participants: Seq<ScenePresence>,
)
    requires
        tail_ok(b),
        b.software_cursor_tail is Some ==> b.cursor_assignment is Sw,
    ensures
        ({
            let d = drafted(o, b, participants, true);
            &&& d.built.software_cursor_tail is None
            &&& b.software_cursor_tail is None ==> d.built.draws == b.draws && d.built.sampled_ids
                == b.sampled_ids
            &&& b.software_cursor_tail is Some ==> d.built.draws == b.draws.drop_last()
                && d.built.sampled_ids == b.sampled_ids.drop_last()
            &&& b.cursor_assignment is Sw ==> {
                &&& d.transition == Some(CursorTransition::HideOnRetire { reveal_sw_after: true })
                &&& d.mode_after is SwPending
                &&& d.prev_pos_after == Some(None::<(i32, i32)>)
                &&& d.built.new_cursor_rect is None
                &&& d.built.cursor_record_version is None
            }
            &&& b.cursor_assignment is Hidden ==> {
                &&& d.transition == Some(CursorTransition::HideOnRetire { reveal_sw_after: false })
                &&& d.mode_after is Hidden
                &&& d.prev_pos_after == Some(None::<(i32, i32)>)
                &&& d.built.new_cursor_rect is None
            }
        }),
{
    let d = drafted(o, b, participants, true);
    if b.software_cursor_tail is Some {
        assert(d.built.draws =~= b.draws.drop_last());
        assert(d.built.sampled_ids =~= b.sampled_ids.drop_last());
    }
}

/// With the plane dark a frame is drawn as it was built, and changes the plane
/// only to show the cursor there.
pub proof fn a_dark_plane_is_only_ever_lit(
    o: OutputView,
    b: BuildView,
    participants: Seq<ScenePresence>,
)
    ensures
        ({
            let d = drafted(o, b, participants, false);
            &&& d.built == b
            &&& d.participants == participants
            &&& b.cursor_assignment matches CursorAssignment::Sw { pos } ==> {
                &&& d.transition is None
                &&& d.mode_after == (OutputCursorMode::Sw { prev: Some(pos) })
                &&& d.prev_pos_after == Some(Some(pos))
            }
            &&& b.cursor_assignment is Hidden ==> {
                &&& d.transition is None
                &&& d.mode_after is Hidden
                &&& d.prev_pos_after == Some(None::<(i32, i32)>)
            }
            &&& b.cursor_assignment matches CursorAssignment::Hw {
                x,
                y,
                record_version,
                hot_x,
                hot_y,
            } ==> {
                &&& d.transition == Some(
                    CursorTransition::ShowOnRetire {
                        upload_version: record_version,
                        hot_x,
                        hot_y,
                        x,
                        y,
                    },
                )
                &&& d.mode_after is Hw
            }
        }),
{
}

/// A plane that shows the cursor and is to go on is left alone, unless a show is
/// owed or it was never claimed: then it is shown again, this sprite at this place.
pub proof fn a_lit_plane_is_shown_again_only_if_owed(
    o: OutputView,
    b: BuildView,
    participants: Seq<ScenePresence>,
)
    requires
        b.cursor_assignment is Hw,
    ensures
        ({
            let d = drafted(o, b, participants, true);
            &&& d.built == b
            &&& d.mode_after is Hw
            &&& o.cursor_mode is Hw && o.show_retry is None ==> d.transition is None
            &&& !(o.cursor_mode is Hw) || o.show_retry is Some ==> d.transition == Some(
                CursorTransition::ShowOnRetire {
                    upload_version: b.cursor_assignment->Hw_record_version,
                    hot_x: b.cursor_assignment->Hw_hot_x,
                    hot_y: b.cursor_assignment->Hw_hot_y,
                    x: b.cursor_assignment->Hw_x,
                    y: b.cursor_assignment->Hw_y,
                },
            )
        }),
{
}

/// A draft's number is the next one, and a draft changes nothing of the output but
/// that its marks are taken up and its pieces noted.
pub proof fn a_draft_takes_the_next_number(
    o: OutputView,
    b: BuildView,
    participants: Seq<ScenePresence>,
    plane_visible: bool,
    pieces: Set<DrawableId>,
)
    requires
        o.generation < u64::MAX,
    ensures
        drafted(o, b, participants, plane_visible).generation == o.generation + 1,
        with_draft(o, pieces).last_pieces == pieces,
        with_draft(o, pieces).structure_damage.px() == o.structure_damage.px(),
        with_draft(o, pieces).failed_repaint.px() == o.failed_repaint.px(),
        with_draft(o, pieces) == (OutputView {
            last_pieces: pieces,
            structure_damage: with_draft(o, pieces).structure_damage,
            failed_repaint: with_draft(o, pieces).failed_repaint,
            ..o
        }),
{
}

// ── retirement ──────────────────────────────────────────────────────
/// What a frame drafted is what its retirement hands on: its number, its plane
/// change and the cursor it was to show; and the submission itself presents
/// nothing and settles nothing.
pub proof fn a_retired_frame_hands_on_what_was_drafted(
    o: OutputView,
    d: DraftView,
    bo_idx: usize,
    stage: InFlightStage,
    ticket: FenceTicket,
    slot: usize,
    shared: bool,
    complete: bool,
    painted: Set<(int, int)>,
    poll: FencePoll,
)
    requires
        o.pending_acks.len() == 0,
        o.pool_slots.len() == 0,
    ensures
        ({
            let s = frame_in_flight(o, d, bo_idx, stage, ticket, slot, shared, complete, painted);
            let f = shown_frame(s, poll);
            let t = frame_shown(s, poll);
            &&& s.generation == d.generation
            &&& s.retry_at is None
            &&& s.pending_acks.len() == 1
            &&& s.pending_acks[0].bo_idx == bo_idx
            &&& s.pending_acks[0].stage == stage
            &&& s.pending_acks[0].snapshots == d.built.snapshots
            &&& s.pending_acks[0].output_damage == d.output_damage
            &&& s.structure_damage == o.structure_damage
            &&& s.failed_repaint == o.failed_repaint
            &&& s.cursor_rect == o.cursor_rect
            &&& s.cursor_mode == o.cursor_mode
            &&& s.last_pieces == o.last_pieces
            &&& f.generation == d.generation
            &&& f.cursor_transition == d.transition
            &&& f.cursor_mode_after_retire == d.mode_after
            &&& f.cursor_prev_pos_after_retire == d.prev_pos_after
            &&& f.last_present_cursor_rect_after_retire == d.built.new_cursor_rect
            &&& f.last_present_cursor_version_after_retire == d.built.cursor_record_version
            &&& t.pending_acks.len() == 0
            &&& t.prev_presented == d.participants
            &&& t.generation == d.generation
            &&& t.last_pieces == o.last_pieces
            &&& t.cursor_rect == o.cursor_rect
            &&& t.cursor_version == o.cursor_version
            &&& t.cursor_mode == o.cursor_mode
            &&& o.history_depth > 0 ==> t.history.len() > 0 && t.history.last() == (
                d.generation,
                d.output_damage,
            )
        }),
{
    let s = frame_in_flight(o, d, bo_idx, stage, ticket, slot, shared, complete, painted);
    assert(s.pending_acks[0] == s.pending_acks.last());
}

/// A plane change that was applied is claimed: what is remembered of the cursor is
/// what the frame was to show, and nothing is repainted for it. Where the hide on
/// the way to the frame worked, the same is claimed and the whole output is
/// repainted, so that the next frame draws the sprite.
pub proof fn applied_plane_changes_are_claimed(o: OutputView, f: RetiredFrame, q: (int, int))
    ensures
        ({
            let s = cursor_settled(o, f, CursorTransitionResult::Applied);
            let h = cursor_settled(o, f, CursorTransitionResult::HiddenNeedsRepaint);
            &&& s.cursor_mode == f.cursor_mode_after_retire
            &&& s.cursor_rect == f.last_present_cursor_rect_after_retire
            &&& s.cursor_version == f.last_present_cursor_version_after_retire
            &&& f.cursor_prev_pos_after_retire matches Some(p) ==> s.cursor_prev_pos == p
            &&& f.cursor_prev_pos_after_retire is None ==> s.cursor_prev_pos == o.cursor_prev_pos
            &&& s.structure_damage == o.structure_damage
            &&& h.cursor_mode == s.cursor_mode
            &&& h.cursor_rect == s.cursor_rect
            &&& h.cursor_version == s.cursor_version
            &&& h.cursor_prev_pos == s.cursor_prev_pos
            &&& output_rect(o.extent).px().subset_of(h.structure_damage.px())
            &&& o.structure_damage.px().subset_of(h.structure_damage.px())
            &&& s.pending_acks == o.pending_acks
            &&& s.prev_presented == o.prev_presented
            &&& s.generation == o.generation
            &&& h.generation == o.generation
        }),
{
    marking_keeps_all_damage(o.structure_damage, output_rect(o.extent));
}

/// A show that did not take stays owed, for this sprite or a newer one; one that
/// took is not owed again; and a plane that was left owes no show.
pub proof fn a_show_is_owed_until_it_takes(
    o: OutputView,
    f: RetiredFrame,
    version: u64,
    hot: (u16, u16),
    at: (i32, i32),
)
    ensures
        f.cursor_transition == Some(
            CursorTransition::ShowOnRetire {
                upload_version: version,
                hot_x: hot.0,
                hot_y: hot.1,
                x: at.0,
                y: at.1,
            },
        ) ==> {
            let failed = cursor_settled(o, f, CursorTransitionResult::VisibleNeedsShowRetry);
            let took = cursor_settled(o, f, CursorTransitionResult::Applied);
            let dark = cursor_settled(o, f, CursorTransitionResult::Hidden);
            &&& failed.show_retry is Some && failed.show_retry->0 >= version
            &&& o.show_retry is Some ==> failed.show_retry->0 >= o.show_retry->0
            &&& failed.show_retry == Some(version) || failed.show_retry == o.show_retry
            &&& took.show_retry != Some(version)
            &&& dark.show_retry != Some(version)
            &&& o.show_retry != Some(version) ==> took.show_retry == o.show_retry
                && dark.show_retry == o.show_retry
        },
        f.cursor_transition is None && !(f.cursor_mode_after_retire is Hw) ==> cursor_settled(
            o,
            f,
            CursorTransitionResult::Applied,
        ).show_retry is None,
        f.cursor_transition is None && f.cursor_mode_after_retire is Hw ==> cursor_settled(
            o,
            f,
            CursorTransitionResult::Applied,
        ).show_retry == o.show_retry,
{
}

/// A frame that is on screen is not drawn again: with the same scene, nothing
/// painted or marked since and the cursor as it was, the next draft has nothing to
/// repaint and is skipped.
pub proof fn a_frame_on_screen_is_not_drawn_again(
    o: OutputView,
    b: BuildView,
    participants: Seq<ScenePresence>,
    pieces: Set<DrawableId>,
    bo_idx: usize,
    stage: InFlightStage,
    ticket: FenceTicket,
    slot: usize,
    painted: Set<(int, int)>,
    poll: FencePoll,
    next: BuildView,
    again: Seq<ScenePresence>,
)
    requires
        o.pending_acks.len() == 0,
        o.structure_damage.dated(),
        o.failed_repaint.dated(),
        o.structure_damage.clock < u64::MAX,
        o.failed_repaint.clock < u64::MAX,
        o.generation < u64::MAX,
        !(b.cursor_assignment is Hw),
        again.len() == participants.len(),
        forall|i: int|
            0 <= i < again.len() ==> {
                &&& (#[trigger] again[i]).id == participants[i].id
                &&& again[i].place@ == participants[i].place@
                &&& again[i].region@ == participants[i].region@
                &&& participants[i].signature.same(again[i].signature)
            },
        forall|i: int, j: int|
            0 <= i < j < again.len() ==> (#[trigger] again[i]).id != (#[trigger] again[j]).id,
        next.projected_damage.len() == 0,
        next.stats.content_off_output == 0,
        next.cursor_assignment == b.cursor_assignment,
        next.new_cursor_rect == b.new_cursor_rect,
        next.cursor_record_version == b.cursor_record_version,
    ensures
        ({
            let d = drafted(o, b, participants, false);
            let s = frame_in_flight(
                with_draft(o, pieces),
                d,
                bo_idx,
                stage,
                ticket,
                slot,
                true,
                true,
                painted,
            );
            let t = cursor_settled(
                frame_shown(s, poll),
                shown_frame(s, poll),
                CursorTransitionResult::Applied,
            );
            let e = drafted(t, next, again, false);
            e.output_damage.len() == 0 && e.skip
        }),
{
    let d = drafted(o, b, participants, false);
    let w = with_draft(o, pieces);
    let s = frame_in_flight(w, d, bo_idx, stage, ticket, slot, true, true, painted);
    assert(s.pending_acks[0] == s.pending_acks.last());
    let r = frame_shown(s, poll);
    let f = shown_frame(s, poll);
    let t = cursor_settled(r, f, CursorTransitionResult::Applied);
    captured_marks_are_released(o.structure_damage);
    captured_marks_are_released(o.failed_repaint);
    assert(same_structure(t.prev_presented, again));
    a_frame_without_a_change_is_skipped(t, next, again, false);
}

// ── acknowledgement ─────────────────────────────────────────────────
/// A retirement takes from a drawable the paint that the frame showed, and touches
/// no other: what was captured last, with nothing painted since, is drained; a
/// drawable that the frame did not capture is as it was.
pub proof fn a_retirement_drains_what_was_shown(
    store: StoreView,
    snaps: Seq<SnapshotView>,
    id: DrawableId,
)
    requires
        store.get(id) is Some,
    ensures
        acked_all(store, snaps).get(id) is Some,
        acked_all(store, snaps).items.len() == store.items.len(),
        acked_all(store, snaps).ids == store.ids,
        (forall|i: int| 0 <= i < snaps.len() ==> (#[trigger] snaps[i]).id != id) ==> acked_all(
            store,
            snaps,
        ).get(id) == store.get(id),
        paint_dated(store.get(id)->0) && (store.get(id)->0).epoch < u64::MAX && (exists|i: int|
            0 <= i < snaps.len() && (#[trigger] snaps[i]).id == id && snaps[i].epoch == (store.get(
                id,
            )->0).epoch) ==> (acked_all(store, snaps).get(id)->0).damage.len() == 0,
    decreases snaps.len(),
{
    lemma_acked_shape(store, snaps, id);
    if snaps.len() > 0 {
        let t = snaps.drop_last();
        a_retirement_drains_what_was_shown(store, t, id);
        lemma_acked_shape(store, t, id);
        let before = acked_all(store, t);
        let last = snaps.last();
        assert(last == snaps[snaps.len() - 1]);
        if forall|i: int| 0 <= i < snaps.len() ==> (#[trigger] snaps[i]).id != id {
            assert forall|i: int| 0 <= i < t.len() implies (#[trigger] t[i]).id != id by {
                assert(t[i] == snaps[i]);
            }
        }
        let d = store.get(id)->0;
        if paint_dated(d) && d.epoch < u64::MAX && (exists|i: int|
            0 <= i < snaps.len() && (#[trigger] snaps[i]).id == id && snaps[i].epoch == d.epoch) {
            let i = choose|i: int|
                0 <= i < snaps.len() && (#[trigger] snaps[i]).id == id && snaps[i].epoch == d.epoch;
            let e = before.get(id)->0;
            if i < t.len() {
                assert(t[i] == snaps[i]);
                assert(e.damage.len() == 0);
            } else {
                ack_drains_captured_damage(e, last);
            }
        }
    }
}

proof fn lemma_acked_shape(store: StoreView, snaps: Seq<SnapshotView>, id: DrawableId)
    requires
        store.get(id) is Some,
    ensures
        acked_all(store, snaps).get(id) is Some,
        (acked_all(store, snaps).get(id)->0).epoch == (store.get(id)->0).epoch,
        (acked_all(store, snaps).get(id)->0).scene_participating == (store.get(
            id,
        )->0).scene_participating,
        (acked_all(store, snaps).get(id)->0).dormant == (store.get(id)->0).dormant,
        paint_dated(store.get(id)->0) ==> paint_dated(acked_all(store, snaps).get(id)->0),
    decreases snaps.len(),
{
    if snaps.len() > 0 {
        let t = snaps.drop_last();
        lemma_acked_shape(store, t, id);
        let e = acked_all(store, t).get(id)->0;
        if paint_dated(e) {
            paint_stays_dated(e, output_rect(Extent2D { width: 0, height: 0 }), snaps.last());
        }
    }
}

// ── where slots and buffers go ──────────────────────────────────────
/// No descriptor slot is lost. That of a retired frame is given back at once if
/// its fence has signalled, and waits for its fence otherwise; that of a lost or
/// refused frame waits with its buffer if the renderer has it.
pub proof fn no_slot_is_lost(
    o: OutputView,
    poll: FencePoll,
    damage: Seq<Rect2D>,
    bo_idx: usize,
    slot: usize,
    ticket: FenceTicket,
    now: u64,
    recycled: bool,
)
    requires
        o.pending_acks.len() > 0,
        o.pool_slots.len() > 0,
    ensures
        ({
            let t = frame_shown(o, poll);
            let f = shown_frame(o, poll);
            let free = o.pending_acks[0].ticket is None || poll == FencePoll::Signaled;
            &&& t.pool_slots == o.pool_slots.drop_first()
            &&& free ==> f.release_slot == Some(o.pool_slots[0]) && t.pending_pool_releases
                == o.pending_pool_releases
            &&& !free ==> f.release_slot is None && t.pending_pool_releases
                == o.pending_pool_releases.push(
                (o.pool_slots[0], o.pending_acks[0].ticket->0),
            )
            &&& f.renderer_failed <==> o.pending_acks[0].ticket is Some && poll == FencePoll::Failed
        }),
        ({
            let t = frame_lost(o, damage, bo_idx, slot, ticket, true, now);
            let u = frame_lost(o, damage, bo_idx, slot, ticket, false, now);
            &&& t.failed_submit_bos == o.failed_submit_bos.push(
                FailedSubmitBo { bo_idx, pool_slot: slot, ticket },
            )
            &&& u.failed_submit_bos == o.failed_submit_bos
            &&& t.pool_slots == o.pool_slots && u.pool_slots == o.pool_slots
            &&& t.pending_pool_releases == o.pending_pool_releases
        }),
        ({
            let t = sink_refused(o, bo_idx, now);
            let f = refusal_of(o, recycled);
            &&& t.pool_slots == o.pool_slots.drop_first()
            &&& t.pending_acks == o.pending_acks.drop_first()
            &&& o.pending_acks[0].ticket matches Some(k) ==> {
                &&& t.failed_submit_bos == o.failed_submit_bos.push(
                    FailedSubmitBo { bo_idx, pool_slot: o.pool_slots[0], ticket: k },
                )
                &&& f.release_slot is None
                &&& !f.renderer_failed
            }
            &&& o.pending_acks[0].ticket is None ==> {
                &&& t.failed_submit_bos == o.failed_submit_bos
                &&& recycled ==> f.release_slot == Some(o.pool_slots[0]) && !f.renderer_failed
                &&& !recycled ==> f.release_slot is None && f.renderer_failed
            }
        }),
{
}

// ── what a buffer is missing ────────────────────────────────────────
/// A buffer whose contents are unknown is painted whole.
pub proof fn an_unknown_buffer_is_painted_whole(
    o: OutputView,
    b: BuildView,
    token: ScanoutToken,
    overlay: Seq<Rect2D>,
)
    requires
        o.damage.extent == o.extent,
        token.content_invalidated || token.last_present_generation is None || token.bo_idx
            >= o.damage.missing.len(),
    ensures
        output_rect(o.extent).px().subset_of(requested_px(o, b, token, true, overlay)),
{
    let base = repaint_px(o.damage, token.bo_idx, is_loadable(token));
    lemma_rects_kept(base, overlay);
    let w = with_rects(base, overlay);
    if b.software_cursor_tail is Some && b.new_cursor_rect is Some {
        lemma_capped(w.union(b.new_cursor_rect->0.px()));
    }
}

proof fn lemma_rects_kept(px: Set<(int, int)>, rects: Seq<Rect2D>)
    ensures
        px.subset_of(with_rects(px, rects)),
    decreases rects.len(),
{
    if rects.len() > 0 {
        let t = rects.drop_last();
        lemma_rects_kept(px, t);
        lemma_capped(
            with_rects(px, t).union(rects.last().px()),
        );
    }
}

/// A buffer's old pixels are kept only if it itself is scanned out and its contents
/// are known; then what is drawn is less than three fifths of the output, and all
/// of it is covered by opaque draws. A repaint in full draws the whole output.
pub proof fn old_pixels_are_kept_only_where_they_are_known(
    plan: RepaintPlan,
    requested: Set<(int, int)>,
    draws: Seq<CompositeDraw>,
    extent: Extent2D,
    loadable: bool,
    shared: bool,
    a: (int, int),
)
    requires
        planned(plan, requested, draws, extent, loadable, shared),
    ensures
        plan.repaint is Clipped ==> {
            &&& loadable
            &&& shared
            &&& draws.len() > 0
            &&& 5 * area_of(boxes(plan.painted@)) < 3 * (extent.width
                * extent.height)
            &&& plan.painted@.contains(a) ==> exists|i: int|
                0 <= i < draws.len() && !(#[trigger] draws[i]).alpha_passthrough
                    && draws[i].dst.has(a.0, a.1)
        },
        plan.repaint is Full ==> plan.painted@ == output_rect(extent).px(),
        !loadable || !shared || draws.len() == 0 ==> plan.repaint is Full,
{
}

/// Once a frame that painted all that its buffer was missing is on screen, its
/// buffer is missing nothing; every other buffer misses at least what changed, and
/// no more than the bounding box of what it missed and what changed. What came in
/// since the submission is pending still.
pub proof fn a_frame_on_screen_makes_its_buffer_whole(
    m: DamageModel,
    bo_idx: usize,
    painted: Set<(int, int)>,
    later: Set<(int, int)>,
    k: int,
)
    requires
        m.staged is None,
        0 <= k < m.missing.len(),
    ensures
        ({
            let t = retired(damaged(submitted(m, bo_idx, painted), later));
            &&& t.staged is None
            &&& !t.owed
            &&& t.missing.len() == m.missing.len()
            &&& later.subset_of(t.pending)
            &&& t.pending.subset_of(bbox_px(later))
            &&& k == bo_idx && m.missing[k].subset_of(painted) ==> t.missing[k] == Set::<
                (int, int),
            >::empty()
            &&& k != bo_idx ==> m.missing[k].subset_of(t.missing[k]) && m.pending.subset_of(
                t.missing[k],
            ) && t.missing[k].subset_of(bbox_px(m.missing[k].union(m.pending)))
        }),
{
    let none = Set::<(int, int)>::empty();
    lemma_capped(none.union(later));
    assert(none.union(later) =~= later);
    lemma_capped(m.missing[k].union(m.pending));
    let left = m.missing[k].difference(painted);
    lemma_capped(left);
    let t = retired(damaged(submitted(m, bo_idx, painted), later));
    if k == bo_idx && m.missing[k].subset_of(painted) {
        assert(left =~= none);
        assert(bbox_px(none) =~= none) by {
            reveal(bbox_px);
        }
        assert(t.missing[k] =~= none);
    }
}

/// Nothing is current after an invalidation: every buffer misses the whole output,
/// nothing is staged, and a repaint is owed until a frame is on screen.
pub proof fn an_invalidation_spoils_every_buffer(
    m: DamageModel,
    k: int,
    bo_idx: usize,
    painted: Set<(int, int)>,
)
    requires
        0 <= k < m.missing.len(),
    ensures
        invalidated(m).missing.len() == m.missing.len(),
        invalidated(m).missing[k] == output_rect(m.extent).px(),
        invalidated(m).staged is None,
        invalidated(m).owed,
        submitted(invalidated(m), bo_idx, painted).owed,
        !retired(submitted(invalidated(m), bo_idx, painted)).owed,
        m.staged is None ==> retired(m) == m,
{
}

// ── applying a plane change ─────────────────────────────────────────
/// The plane shows only what was uploaded to it: a show comes either at once, with
/// the sprite's version already there, or after an upload of that very version
/// that succeeded; and it is made where the frame put the pointer.
pub proof fn only_an_uploaded_sprite_is_shown(
    version: u64,
    hot: (u16, u16),
    at: (i32, i32),
    visible: bool,
    uploaded: Option<u64>,
    sprite: Option<SpriteOnHand>,
    event: CursorPlaneEvent,
)
    ensures
        ({
            let t = Some(
                CursorTransition::ShowOnRetire {
                    upload_version: version,
                    hot_x: hot.0,
                    hot_y: hot.1,
                    x: at.0,
                    y: at.1,
                },
            );
            let show = CursorRetireStep::Show { hot_x: hot.0, hot_y: hot.1, x: at.0, y: at.1 };
            let s = first_step(t, visible, uploaded, sprite);
            let ready = sprite matches Some(p) && p.record_version == version && p.has_bytes;
            &&& uploaded == Some(version) ==> s == show
            &&& uploaded != Some(version) && ready ==> s == (CursorRetireStep::Upload {
                version,
                width: (sprite->0).width,
                height: (sprite->0).height,
            })
            &&& uploaded != Some(version) && !ready && visible ==> s is RollbackHide
            &&& uploaded != Some(version) && !ready && !visible ==> s == CursorRetireStep::Done(
                CursorTransitionResult::Hidden,
            )
            &&& s is Upload && event is Succeeded ==> next_step(t, visible, s, event) == show
            &&& s is Upload && !(event is Succeeded) && visible ==> next_step(t, visible, s, event)
                is RollbackHide
            &&& s is Upload && !(event is Succeeded) && !visible ==> next_step(
                t,
                visible,
                s,
                event,
            ) == CursorRetireStep::Done(CursorTransitionResult::Hidden)
            &&& next_step(t, visible, show, event) == CursorRetireStep::Done(
                match event {
                    CursorPlaneEvent::Succeeded => CursorTransitionResult::Applied,
                    CursorPlaneEvent::FailedUnbound => CursorTransitionResult::Hidden,
                    CursorPlaneEvent::FailedVisible => CursorTransitionResult::VisibleNeedsShowRetry,
                },
            )
            &&& next_step(t, visible, CursorRetireStep::RollbackHide, event)
                == CursorRetireStep::Done(
                if event is Succeeded {
                    CursorTransitionResult::Hidden
                } else {
                    CursorTransitionResult::VisibleNeedsShowRetry
                },
            )
        }),
{
}

/// A plane is hidden only while it shows something, and a hide that failed is never
/// taken for one that worked. The way to the frame asks for another frame.
pub proof fn a_hide_is_made_once(reveal: bool, uploaded: Option<u64>, sprite: Option<SpriteOnHand>)
    ensures
        ({
            let t = Some(CursorTransition::HideOnRetire { reveal_sw_after: reveal });
            let done = CursorRetireStep::Done(
                if reveal {
                    CursorTransitionResult::HiddenNeedsRepaint
                } else {
                    CursorTransitionResult::Applied
                },
            );
            let hide = CursorRetireStep::Hide;
            &&& first_step(t, true, uploaded, sprite) == hide
            &&& first_step(t, false, uploaded, sprite) == done
            &&& next_step(t, true, hide, CursorPlaneEvent::Succeeded) == done
            &&& next_step(t, true, hide, CursorPlaneEvent::FailedVisible) == CursorRetireStep::Done(
                CursorTransitionResult::Visible,
            )
            &&& next_step(t, true, hide, CursorPlaneEvent::FailedUnbound) == CursorRetireStep::Done(
                CursorTransitionResult::Visible,
            )
            &&& first_step(None, true, uploaded, sprite) == CursorRetireStep::Done(
                CursorTransitionResult::Applied,
            )
            &&& first_step(None, false, uploaded, sprite) == CursorRetireStep::Done(
                CursorTransitionResult::Applied,
            )
        }),
{
}

/// Which way a pointer motion takes: the plane alone if some output shows the
/// cursor there and no output draws it or is about to, the frame alone if no output
/// shows it on its plane, both otherwise. An output without a cursor has no say.
pub proof fn the_way_of_a_motion(modes: Seq<OutputCursorMode>)
    ensures
        ({
            let on_plane = exists|i: int| 0 <= i < modes.len() && #[trigger] modes[i] is Hw;
            let in_frame = exists|i: int|
                0 <= i < modes.len() && (#[trigger] modes[i] is Sw || modes[i] is SwPending);
            &&& on_plane && !in_frame ==> plane_mode(modes) == CursorPlaneMode::Hw
            &&& on_plane && in_frame ==> plane_mode(modes) == CursorPlaneMode::Mixed
            &&& !on_plane ==> plane_mode(modes) == CursorPlaneMode::Sw
        }),
{
    if exists|i: int| 0 <= i < modes.len() && is_sw_like(#[trigger] modes[i]) {
        let i = choose|i: int|
            0 <= i < modes.len() && is_sw_like(#[trigger] modes[i]);
        assert(modes[i] is Sw || modes[i] is SwPending);
    }
    if exists|i: int| 0 <= i < modes.len() && (#[trigger] modes[i] is Sw || modes[i] is SwPending) {
        let i = choose|i: int|
            0 <= i < modes.len() && (#[trigger] modes[i] is Sw || modes[i] is SwPending);
        assert(is_sw_like(modes[i]));
    }
}

// ── from the draft to the screen ────────────────────────────────────
/// What is marked or owed after a frame was drafted survives that frame, whether it
/// comes before the submission (`early`) or while the frame is in flight (`later`).
pub proof fn marks_after_a_draft_survive_it(
    o: OutputView,
    b: BuildView,
    participants: Seq<ScenePresence>,
    plane_visible: bool,
    pieces: Set<DrawableId>,
    early: Seq<Rect2D>,
    later: Seq<Rect2D>,
    bo_idx: usize,
    stage: InFlightStage,
    ticket: FenceTicket,
    slot: usize,
    painted: Set<(int, int)>,
    poll: FencePoll,
)
    requires
        o.pending_acks.len() == 0,
    ensures
        ({
            let d = drafted(o, b, participants, plane_visible);
            let w = with_draft(o, pieces);
            let marked = OutputView {
                structure_damage: w.structure_damage.add_all(early),
                failed_repaint: w.failed_repaint.add_all(early),
                ..w
            };
            let s = frame_in_flight(marked, d, bo_idx, stage, ticket, slot, true, true, painted);
            let after = frame_shown(
                OutputView {
                    structure_damage: s.structure_damage.add_all(later),
                    failed_repaint: s.failed_repaint.add_all(later),
                    ..s
                },
                poll,
            );
            &&& list_px(early).subset_of(after.structure_damage.px())
            &&& list_px(later).subset_of(after.structure_damage.px())
            &&& list_px(early).subset_of(after.failed_repaint.px())
            &&& list_px(later).subset_of(after.failed_repaint.px())
        }),
{
    let d = drafted(o, b, participants, plane_visible);
    let w = with_draft(o, pieces);
    let marked = OutputView {
        structure_damage: w.structure_damage.add_all(early),
        failed_repaint: w.failed_repaint.add_all(early),
        ..w
    };
    later_marks_survive_retirement(
        o.structure_damage,
        o.failed_repaint,
        early,
        marked,
        d,
        bo_idx,
        stage,
        ticket,
        slot,
        true,
        true,
        painted,
        later,
        poll,
    );
}

/// A new output owes its first frame, whatever else is due: it is walked, drawn and
/// painted whole, and nothing is in flight or remembered.
pub proof fn a_new_output_owes_its_first_frame(
    output_idx: usize,
    origin: (i32, i32),
    extent: Extent2D,
    bo_depth: usize,
    b: BuildView,
    participants: Seq<ScenePresence>,
    plane_visible: bool,
    now: u64,
    k: int,
)
    requires
        bo_depth < usize::MAX,
    ensures
        ({
            let o = new_output(output_idx, origin, extent, bo_depth);
            &&& o.output_idx == output_idx && o.origin == origin && o.extent == extent
            &&& o.pending_acks.len() == 0 && o.pool_slots.len() == 0
            &&& o.prev_presented.len() == 0
            &&& o.cursor_rect is None && o.cursor_version is None && o.show_retry is None
            &&& o.cursor_mode is Hidden
            &&& gate(o, now, false, false, false) is None
            &&& !drafted(o, b, participants, plane_visible).skip
            &&& o.damage.missing.len() == bo_depth
            &&& 0 <= k < bo_depth ==> o.damage.missing[k] == output_rect(extent).px()
            &&& o.history_depth == bo_depth + 1
        }),
{
}

/// A submission that failed is tried again after a tenth of a second, not sooner.
pub proof fn a_failure_pauses_for_a_tenth_of_a_second(
    o: OutputView,
    damage: Seq<Rect2D>,
    bo_idx: usize,
    slot: usize,
    ticket: FenceTicket,
    gpu_submitted: bool,
    now: u64,
)
    requires
        now + 100_000_000 <= u64::MAX,
    ensures
        frame_lost(o, damage, bo_idx, slot, ticket, gpu_submitted, now).retry_at == Some(
            (now + 100_000_000) as u64,
        ),
        sink_refused(o, bo_idx, now).retry_at == Some((now + 100_000_000) as u64),
{
}

proof fn lemma_without_id(s: Seq<DrawableId>, id: DrawableId)
    ensures
        !without_id(s, id).contains(id),
        forall|x: DrawableId|
            x != id && #[trigger] s.contains(x) ==> without_id(s, id).contains(x),
    decreases s.len(),
{
    if s.len() > 0 {
        let t = s.drop_last();
        lemma_without_id(t, id);
        let before = without_id(t, id);
        let after = without_id(s, id);
        if after.contains(id) {
            let i = choose|i: int| 0 <= i < after.len() && after[i] == id;
            if i < before.len() {
                assert(before[i] == id);
            }
        }
        assert forall|x: DrawableId| x != id && #[trigger] s.contains(x) implies after.contains(
            x,
        ) by {
            let i = choose|i: int| 0 <= i < s.len() && s[i] == x;
            if i < t.len() {
                assert(t[i] == x);
                assert(t.contains(x));
                let k = choose|k: int| 0 <= k < before.len() && before[k] == x;
                assert(after[k] == x);
            } else {
                assert(after.last() == x);
            }
        }
    }
}

/// A frame that goes without its cursor neither presents the sprite nor counts it
/// as shown; of everything else it presents and shows what it would.
pub proof fn a_frame_without_its_cursor_does_not_show_it(
    o: OutputView,
    b: BuildView,
    participants: Seq<ScenePresence>,
    x: DrawableId,
)
    requires
        tail_ok(b),
        b.cursor_assignment is Sw,
        b.software_cursor_tail is Some,
    ensures
        ({
            let d = drafted(o, b, participants, true);
            let sprite = b.sampled_ids.last();
            &&& !d.built.presented_ids.contains(sprite)
            &&& !d.built.pieces_ids.contains(sprite)
            &&& x != sprite && b.presented_ids.contains(x) ==> d.built.presented_ids.contains(x)
            &&& x != sprite && b.pieces_ids.contains(x) ==> d.built.pieces_ids.contains(x)
        }),
{
    let sprite = b.sampled_ids.last();
    lemma_without_id(b.presented_ids, sprite);
    lemma_without_id(b.pieces_ids, sprite);
}

proof fn lemma_rects_px(rects: Seq<Rect2D>)
    ensures
        list_px(rects).subset_of(rects_px(rects)),
    decreases rects.len(),
{
    if rects.len() > 0 {
        let t = rects.drop_last();
        lemma_rects_px(t);
        lemma_capped(rects_px(t).union(rects.last().px()));
        assert forall|a: (int, int)| list_px(rects).contains(a) implies rects_px(rects).contains(
            a,
        ) by {
            let i = choose|i: int| 0 <= i < rects.len() && (#[trigger] rects[i]).has(a.0, a.1);
            if i < t.len() {
                assert(t[i].has(a.0, a.1));
                assert(list_px(t).contains(a));
            } else {
                assert(rects.last().px().contains(a));
            }
        }
    } else {
        assert(list_px(rects) =~= Set::empty());
    }
}

/// What a frame of a shared output is to repaint is pending for every buffer, with
/// what was pending before; a copied output keeps no account.
pub proof fn the_damage_of_a_frame_is_pending(o: OutputView, d: DraftView, a: (int, int))
    requires
        output_rect(o.extent).has(a.0, a.1),
    ensures
        list_px(d.output_damage).contains(a) || o.damage.pending.contains(a) ==> with_frame_damage(
            o,
            d,
            true,
        ).damage.pending.contains(a),
        with_frame_damage(o, d, true).damage.missing == o.damage.missing,
        with_frame_damage(o, d, false) == o,
{
    lemma_rects_px(d.output_damage);
    let px = rects_px(d.output_damage).intersect(whole_px(o.extent));
    lemma_capped(o.damage.pending.union(px));
}

/// A frame shows the pointer where the core has it, and uses the plane only if
/// planes are used at all and this one takes the sprite.
pub proof fn a_frame_shows_the_pointer_where_it_is(
    f: FrameInput<'_>,
    mode: Visibility,
    cur: CursorEntry,
)
    requires
        layout_ok(f.layout),
        f.cursor == Some(cur),
        cur.extent.width <= i32::MAX,
        cur.extent.height <= i32::MAX,
    ensures
        ({
            let b = scene_of(f, mode);
            &&& b.cursor_assignment matches CursorAssignment::Hw { x, y, record_version, .. } ==> {
                &&& f.hw_strategy_enabled && f.hw_fits
                &&& x == f.core.cursor_x && y == f.core.cursor_y
                &&& record_version == cur.record_version
            }
            &&& b.cursor_assignment is Sw ==> {
                &&& !(f.hw_strategy_enabled && f.hw_fits)
                &&& b.draws.len() > 0
                &&& b.draws.last().dst.offset.x + cur.hot_x + f.layout.x == f.core.cursor_x
                &&& b.draws.last().dst.offset.y + cur.hot_y + f.layout.y == f.core.cursor_y
            }
        }),
{
    let c = CursorInput {
        entry: f.cursor,
        x: f.core.cursor_x,
        y: f.core.cursor_y,
        hw: f.hw_strategy_enabled && f.hw_fits,
    };
    the_hotspot_lands_on_the_pointer(
        input_of(f.core, f.store, f.windows, f.layout, mode, f.elsewhere@),
        f.core.window_id,
        f.core.top_level_order@,
        f.cow_host_xid,
        c,
        cur,
    );
}

// ── when a repaint is clipped ───────────────────────────────────────
proof fn lemma_remainder_inside(draws: Seq<CompositeDraw>, rect: Rect2D, i: int)
    requires
        0 <= i < draws.len(),
        !draws[i].alpha_passthrough,
        rect.px().subset_of(draws[i].dst.px()),
        rect.non_empty(),
    ensures
        cover_remainder(draws, rect) == Set::<(int, int)>::empty(),
    decreases draws.len(),
{
    let none = Set::<(int, int)>::empty();
    let t = draws.drop_last();
    let d = draws.last();
    let rem = cover_remainder(t, rect);
    assert(bbox_px(none) =~= none) by {
        reveal(bbox_px);
    }
    lemma_capped(none);
    assert(capped(none) =~= none);
    if i < t.len() {
        assert(t[i] == draws[i]);
        lemma_remainder_inside(t, rect, i);
        assert(rem.difference(d.dst.px()) =~= none);
    } else {
        assert(rect.px().contains((rect.x0(), rect.y0())));
        assert(d.dst.px().contains((rect.x0(), rect.y0())));
        lemma_remainder_bounded(t, rect);
        lemma_rect_bounds(rem, rect, d.dst);
        assert(rem.difference(d.dst.px()) =~= none);
    }
}

proof fn lemma_remainder_bounded(draws: Seq<CompositeDraw>, rect: Rect2D)
    ensures
        cover_remainder(draws, rect).subset_of(rect.px()),
    decreases draws.len(),
{
    if draws.len() > 0 {
        let t = draws.drop_last();
        lemma_remainder_bounded(t, rect);
        let rem = cover_remainder(t, rect);
        let left = rem.difference(draws.last().dst.px());
        lemma_capped(left);
        assert forall|q: (int, int)| capped(left).contains(q) implies rect.px().contains(q) by {
            assert(bbox_px(left).contains(q));
            let (a, b, c, d) = lemma_bounded(left, q);
            assert(rect.px().contains(a) && rect.px().contains(b) && rect.px().contains(c)
                && rect.px().contains(d));
        }
    }
}

proof fn lemma_rect_bounds(p: Set<(int, int)>, r: Rect2D, s: Rect2D)
    requires
        p.subset_of(r.px()),
        r.px().subset_of(s.px()),
    ensures
        p.subset_of(s.px()),
{
}

/// A repaint of a known buffer is clipped whenever that is worth it and an opaque
/// draw lies under all of it: the rest of the output is not drawn again.
pub proof fn a_covered_repaint_is_clipped(
    plan: RepaintPlan,
    requested: Set<(int, int)>,
    draws: Seq<CompositeDraw>,
    extent: Extent2D,
    i: int,
    a: (int, int),
)
    requires
        planned(plan, requested, draws, extent, true, true),
        requested.contains(a),
        requested.subset_of(output_rect(extent).px()),
        0 <= i < draws.len(),
        !draws[i].alpha_passthrough,
        output_rect(extent).px().subset_of(draws[i].dst.px()),
        5 * area_of(boxes(clipped_px(requested))) < 3 * (extent.width * extent.height),
    ensures
        plan.repaint is Clipped,
        plan.full_reason is None,
{
    assert forall|b: (int, int)| #[trigger] requested.contains(b) implies in_plane(b.0, b.1) by {
        assert(output_rect(extent).px().contains(b));
    }
    lemma_bbox_is_rect(requested, a);
    let scissors = clipped_scissors(requested);
    assert forall|k: int| 0 <= k < scissors.len() implies cover_remainder(
        draws,
        #[trigger] scissors[k],
    ) == Set::<(int, int)>::empty() by {
        let r = scissors[k];
        assert(r.non_empty() && r.px().subset_of(draws[i].dst.px())) by {
            if per_rect(requested) {
                assert forall|x: int, y: int| #[trigger] requested.contains((x, y)) implies in_plane(
                    x,
                    y,
                ) by {}
                lemma_boxes_partition_pixels(requested);
                assert(partitions(boxes(requested), requested));
                assert(boxes(requested)[k].non_empty());
                assert forall|q: (int, int)| r.px().contains(q) implies draws[i].dst.px().contains(
                    q,
                ) by {
                    assert(boxes(requested)[k].has(q.0, q.1));
                    assert(requested.contains((q.0, q.1)));
                    assert(output_rect(extent).px().contains(q));
                }
            } else {
                lemma_bbox_superset(requested);
                assert(r.px().contains(a));
                assert forall|q: (int, int)| r.px().contains(q) implies draws[i].dst.px().contains(
                    q,
                ) by {
                    assert(bbox_px(requested).contains(q));
                    let (e, f, g, h) = lemma_bounded(requested, q);
                    assert(output_rect(extent).px().contains(e) && output_rect(
                        extent,
                    ).px().contains(f) && output_rect(extent).px().contains(g) && output_rect(
                        extent,
                    ).px().contains(h));
                    assert(output_rect(extent).px().contains(q));
                }
            }
        }
        lemma_remainder_inside(draws, r, i);
    }
    assert(requested != Set::<(int, int)>::empty());
    assert(extent.width * extent.height > 0);
}

// ── what a frame is begun with ──────────────────────────────────────
/// A begun frame heeds what its plane shows: while it shows something, the frame
/// draws no cursor of its own, and a plane that is to be left is hidden behind it.
pub proof fn a_begun_frame_heeds_its_plane(d: DraftView, o: OutputView, f: FrameInput<'_>)
    requires
        drafts(d, o, f),
    ensures
        f.plane_visible ==> d.built.software_cursor_tail is None,
        f.plane_visible && !(scene_of(f, Visibility::On).cursor_assignment is Hw)
            ==> d.transition is Some && d.transition->0 is HideOnRetire,
        !f.plane_visible ==> d.built == scene_of(f, Visibility::On),
        !f.plane_visible && scene_of(f, Visibility::On).cursor_assignment is Hw
            ==> d.transition is Some && d.transition->0 is ShowOnRetire,
        d.built.participants == scene_of(f, Visibility::On).participants,
        presences_view(d.participants) == d.built.participants,
{
}

/// Once an output was walked, a drawable counts as shown there exactly if the build
/// has pieces of it.
pub proof fn a_walk_notes_what_has_pieces(o: OutputView, f: FrameInput<'_>, id: DrawableId)
    ensures
        walked_output(o, f).last_pieces.contains(id) <==> scene_of(
            f,
            Visibility::On,
        ).pieces_ids.contains(id),
        walked_output(o, f).structure_damage.px() == o.structure_damage.px(),
        walked_output(o, f).pending_acks == o.pending_acks,
        walked_output(o, f).generation == o.generation,
{
}

/// Only a lost device is fatal to the renderer.
pub proof fn only_a_lost_device_is_fatal(e: PresentError)
    ensures
        error_is_fatal(e) <==> (e matches PresentError::Vk(code) && code == -4),
{
}

/// A frame that was not recorded completely spoils every buffer of a shared output:
/// all of them miss everything, and a repaint is owed. A complete one is staged with
/// what it painted; the buffers of a copied output are no concern of either.
pub proof fn a_frame_recorded_in_part_spoils_the_buffers(
    o: OutputView,
    d: DraftView,
    bo_idx: usize,
    stage: InFlightStage,
    ticket: FenceTicket,
    slot: usize,
    painted: Set<(int, int)>,
    k: int,
)
    requires
        0 <= k < o.damage.missing.len(),
    ensures
        ({
            let t = frame_in_flight(o, d, bo_idx, stage, ticket, slot, true, false, painted).damage;
            &&& t.owed
            &&& t.staged is None
            &&& t.missing.len() == o.damage.missing.len()
            &&& t.missing[k] == output_rect(o.damage.extent).px()
        }),
        ({
            let t = frame_in_flight(o, d, bo_idx, stage, ticket, slot, true, true, painted).damage;
            &&& t.staged is Some
            &&& (t.staged->0).bo_idx == bo_idx
            &&& (t.staged->0).painted == painted
            &&& o.damage.pending.subset_of((t.staged->0).damage)
            &&& t.missing == o.damage.missing
            &&& t.owed == o.damage.owed
        }),
        frame_in_flight(o, d, bo_idx, stage, ticket, slot, false, true, painted).damage == o.damage,
        frame_in_flight(o, d, bo_idx, stage, ticket, slot, false, false, painted).damage
            == o.damage,
{
    if o.damage.staged is Some {
        lemma_capped(o.damage.pending.union(o.damage.staged->0.damage));
    }
}

/// What is remembered of the cursor follows the plane: one that went dark shows
/// nothing any more, and one that still shows the old sprite shows it where it was.
/// Either way the whole output is repainted.
pub proof fn what_is_remembered_follows_the_plane(o: OutputView, f: RetiredFrame)
    ensures
        ({
            let dark = cursor_settled(o, f, CursorTransitionResult::Hidden);
            let lit = cursor_settled(o, f, CursorTransitionResult::Visible);
            let owed = cursor_settled(o, f, CursorTransitionResult::VisibleNeedsShowRetry);
            &&& dark.cursor_mode is Hidden
            &&& dark.cursor_rect is None && dark.cursor_version is None
            &&& dark.cursor_prev_pos is None
            &&& lit.cursor_mode is Hw && owed.cursor_mode is Hw
            &&& lit.cursor_rect == o.cursor_rect && lit.cursor_version == o.cursor_version
            &&& owed.cursor_rect == o.cursor_rect && owed.cursor_version == o.cursor_version
            &&& output_rect(o.extent).px().subset_of(dark.structure_damage.px())
            &&& output_rect(o.extent).px().subset_of(lit.structure_damage.px())
            &&& output_rect(o.extent).px().subset_of(owed.structure_damage.px())
            &&& o.structure_damage.px().subset_of(dark.structure_damage.px())
            &&& o.structure_damage.px().subset_of(lit.structure_damage.px())
            &&& o.structure_damage.px().subset_of(owed.structure_damage.px())
        }),
{
    marking_keeps_all_damage(o.structure_damage, output_rect(o.extent));
}

/// Of the draws a clipped repaint issues those with a pixel that it paints, and no
/// other that has a pixel at all.
pub proof fn a_clipped_repaint_issues_what_it_needs(
    draws: Seq<CompositeDraw>,
    keep: Set<(int, int)>,
    d: CompositeDraw,
)
    requires
        d.dst.non_empty(),
    ensures
        culled(draws, keep).contains(d) <==> draws.contains(d) && exists|q: (int, int)|
            #[trigger] keep.contains(q) && d.dst.has(q.0, q.1),
        culled(draws, keep).len() <= draws.len(),
    decreases draws.len(),
{
    if draws.len() > 0 {
        let t = draws.drop_last();
        let last = draws.last();
        a_clipped_repaint_issues_what_it_needs(t, keep, d);
        let before = culled(t, keep);
        let after = culled(draws, keep);
        assert(draws[draws.len() - 1] == last);
        assert((exists|q: (int, int)| #[trigger] keep.contains(q) && d.dst.has(q.0, q.1))
            <==> !keep.disjoint(d.dst.px())) by {
            if exists|q: (int, int)| #[trigger] keep.contains(q) && d.dst.has(q.0, q.1) {
                let q = choose|q: (int, int)| #[trigger] keep.contains(q) && d.dst.has(q.0, q.1);
                assert(d.dst.px().contains(q));
            }
        }
        if draws.contains(d) {
            let i = choose|i: int| 0 <= i < draws.len() && draws[i] == d;
            if i < t.len() {
                assert(t[i] == d);
            }
        }
        if t.contains(d) {
            let i = choose|i: int| 0 <= i < t.len() && t[i] == d;
            assert(draws[i] == d);
        }
        if before.contains(d) {
            let i = choose|i: int| 0 <= i < before.len() && before[i] == d;
            assert(after[i] == d);
        }
        if after != before {
            assert(after[before.len() as int] == last);
        }
        if after.contains(d) {
            let i = choose|i: int| 0 <= i < after.len() && after[i] == d;
            if i < before.len() {
                assert(before[i] == d);
            }
        }
    }
}

/// A repaint in full has its reason: the buffer is copied, there is nothing to draw
/// or nothing to repaint, or the buffer's contents are not known.
pub proof fn a_full_repaint_has_its_reason(
    plan: RepaintPlan,
    requested: Set<(int, int)>,
    draws: Seq<CompositeDraw>,
    extent: Extent2D,
    loadable: bool,
    shared: bool,
)
    requires
        planned(plan, requested, draws, extent, loadable, shared),
    ensures
        plan.full_reason is Some <==> plan.repaint is Full,
        !shared ==> plan.full_reason == Some(FullReason::CopiedRoute),
        shared && draws.len() == 0 ==> plan.full_reason == Some(FullReason::EmptyDrawList),
        shared && draws.len() > 0 && !loadable ==> plan.full_reason == Some(
            FullReason::UnloadableBo,
        ),
        shared && draws.len() > 0 && loadable && requested == Set::<(int, int)>::empty()
            ==> plan.full_reason == Some(FullReason::EmptyDrawList),
{
}

} // verus!
