//! One output: its frame from the walk to the screen.

use std::collections::VecDeque;

use vstd::prelude::*;

use crate::audit::OutputDamageAudit;
use crate::buffer_age::{last_of, BufferAgeRing};
use crate::cursor::{
    cursor_damage_for_frame, cursor_damage_list, cursorless_hide_frame_required,
    derive_cursor_transition, effective_cursor_prev_mode, effective_prev, needs_cursorless_frame,
    resolution_of, resolve_retired_cursor_state, retry_version, transition_of,
    update_force_show_retry_version, CursorAssignment, CursorTransition, CursorTransitionResult,
    OutputCursorMode,
};
use crate::damage_log::{CaptureView, DamageCapture, DamageLog, LogView};
use crate::deferred::{FailedSubmitBo, FencePoll, FenceTicket};
use crate::draw::{drawn_pixels, scene_draw_pixels, CompositeScene};
use crate::emit::snaps_view;
use crate::geometry::{output_rect, Extent2D, Offset2D, Rect2D};
use crate::ids::{DrawableId, IdSet};
use crate::present::{
    completion_matches, copied_render_completion_matches, device_lost, kms_retirement_matches,
    present_error_is_device_lost, retirement_matches, InFlightStage, PresentError,
};
use crate::region::{area_of, boxes, capped, rects_px, Region};
use crate::region_set::{bbox_of_list, list_add, list_add_all, RegionSet};
use crate::repaint::{cull_scene_to_region, culled, plan_repaint, planned, Repaint, RepaintPlan};
use crate::scanout_damage::{
    damaged, fresh, invalidated, repaint_px, retired, stage_submitted_frame, submitted, whole_px,
    DamageModel, ScanoutDamage,
};
use crate::scene_build::{tail_ok, without_software_cursor, BuildView, SceneBuild};
use crate::scene_diff::{structural_damage, structural_px, ScenePresence};
use crate::store::{acked, DamageSnapshot, DrawableStore, SnapshotView, StoreView};
use crate::tick::{skip_for_empty_damage, walk_needed, TickSkipReason};

verus! {

// ── state ───────────────────────────────────────────────────────────
/// A submitted frame: what to settle when it reaches the screen.
#[derive(Debug)]
pub struct PendingAck {
    pub bo_idx: usize,
    pub generation: u64,
    pub stage: InFlightStage,
    /// The damage it showed, by drawable.
    pub drawable_snapshots: Vec<DamageSnapshot>,
    pub ticket: Option<FenceTicket>,
    pub submitted_output_damage: RegionSet,
    /// The participants it showed.
    pub submitted_participants: Vec<ScenePresence>,
    /// The marks it took up.
    pub submitted_scene_structure_damage: DamageCapture,
    /// What it repaired of frames that were lost.
    pub submitted_failed_repaint: DamageCapture,
    pub cursor_transition: Option<CursorTransition>,
    /// What becomes of the remembered sprite position; `None`: nothing.
    pub cursor_prev_pos_after_retire: Option<Option<(i32, i32)>>,
    pub cursor_mode_after_retire: OutputCursorMode,
    pub last_present_cursor_rect_after_retire: Option<Rect2D>,
    pub last_present_cursor_version_after_retire: Option<u64>,
}

/// A submitted frame with views.
pub struct AckView {
    pub bo_idx: usize,
    pub generation: u64,
    pub stage: InFlightStage,
    pub snapshots: Seq<SnapshotView>,
    pub ticket: Option<FenceTicket>,
    pub output_damage: Seq<Rect2D>,
    pub participants: Seq<ScenePresence>,
    pub structure_damage: CaptureView,
    pub failed_repaint: CaptureView,
    pub transition: Option<CursorTransition>,
    pub prev_pos_after: Option<Option<(i32, i32)>>,
    pub mode_after: OutputCursorMode,
    pub rect_after: Option<Rect2D>,
    pub version_after: Option<u64>,
}

impl View for PendingAck {
    type V = AckView;

    open spec fn view(&self) -> AckView {
        AckView {
            bo_idx: self.bo_idx,
            generation: self.generation,
            stage: self.stage,
            snapshots: snaps_view(self.drawable_snapshots@),
            ticket: self.ticket,
            output_damage: self.submitted_output_damage@,
            participants: self.submitted_participants@,
            structure_damage: self.submitted_scene_structure_damage@,
            failed_repaint: self.submitted_failed_repaint@,
            transition: self.cursor_transition,
            prev_pos_after: self.cursor_prev_pos_after_retire,
            mode_after: self.cursor_mode_after_retire,
            rect_after: self.last_present_cursor_rect_after_retire,
            version_after: self.last_present_cursor_version_after_retire,
        }
    }
}

/// The state of one output.
pub struct OutputSceneState {
    pub output_idx: usize,
    pub damage_audit: Option<OutputDamageAudit>,
    /// The descriptor slots of the frames in flight, oldest first.
    pub pool_slots: VecDeque<usize>,
    /// The frames in flight, oldest first.
    pub pending_acks: VecDeque<PendingAck>,
    /// Descriptor slots of retired frames whose fence has not signalled.
    pub pending_pool_releases: VecDeque<(usize, FenceTicket)>,
    /// Frames that reached the renderer but will never reach the screen.
    pub failed_submit_bos: VecDeque<FailedSubmitBo>,
    pub damage_history: BufferAgeRing,
    /// The number of the last submitted frame; none was if it is zero.
    pub current_generation: u64,
    pub scene_structure_damage: DamageLog,
    pub pending_repaint_after_failed_submit: DamageLog,
    pub output_extent: Extent2D,
    pub output_origin: (i32, i32),
    /// When a failed submission may be tried again, in nanoseconds.
    pub next_submit_retry_at: Option<u64>,
    pub last_frame_cursor_mode: OutputCursorMode,
    pub cursor_prev_pos: Option<(i32, i32)>,
    pub last_present_cursor_rect: Option<Rect2D>,
    pub last_present_cursor_version: Option<u64>,
    pub force_show_retry_version: Option<u64>,
    pub damage: ScanoutDamage,
    /// The participants of the last frame that reached the screen.
    pub prev_presented: Vec<ScenePresence>,
    /// What had pieces on this output at its last walk.
    pub last_pieces: IdSet,
}

/// The state with views, the audit aside.
pub struct OutputView {
    pub output_idx: usize,
    pub pool_slots: Seq<usize>,
    pub pending_acks: Seq<AckView>,
    pub pending_pool_releases: Seq<(usize, FenceTicket)>,
    pub failed_submit_bos: Seq<FailedSubmitBo>,
    pub history: Seq<(u64, Seq<Rect2D>)>,
    pub history_depth: usize,
    pub generation: u64,
    pub structure_damage: LogView,
    pub failed_repaint: LogView,
    pub extent: Extent2D,
    pub origin: (i32, i32),
    pub retry_at: Option<u64>,
    pub cursor_mode: OutputCursorMode,
    pub cursor_prev_pos: Option<(i32, i32)>,
    pub cursor_rect: Option<Rect2D>,
    pub cursor_version: Option<u64>,
    pub show_retry: Option<u64>,
    pub damage: DamageModel,
    pub prev_presented: Seq<ScenePresence>,
    pub last_pieces: Set<DrawableId>,
}

/// The frames behind a queue.
pub open spec fn ack_views(s: Seq<PendingAck>) -> Seq<AckView> {
    s.map_values(|a: PendingAck| a@)
}

impl View for OutputSceneState {
    type V = OutputView;

    open spec fn view(&self) -> OutputView {
        OutputView {
            output_idx: self.output_idx,
            pool_slots: self.pool_slots@,
            pending_acks: ack_views(self.pending_acks@),
            pending_pool_releases: self.pending_pool_releases@,
            failed_submit_bos: self.failed_submit_bos@,
            history: self.damage_history@,
            history_depth: self.damage_history.spec_depth(),
            generation: self.current_generation,
            structure_damage: self.scene_structure_damage@,
            failed_repaint: self.pending_repaint_after_failed_submit@,
            extent: self.output_extent,
            origin: self.output_origin,
            retry_at: self.next_submit_retry_at,
            cursor_mode: self.last_frame_cursor_mode,
            cursor_prev_pos: self.cursor_prev_pos,
            cursor_rect: self.last_present_cursor_rect,
            cursor_version: self.last_present_cursor_version,
            show_retry: self.force_show_retry_version,
            damage: self.damage@,
            prev_presented: self.prev_presented@,
            last_pieces: self.last_pieces@,
        }
    }
}

/// The pause after a failed submission, in nanoseconds.
pub const RETRY_BACKOFF_NS: u64 = 100_000_000;

/// A point of time after a pause.
pub open spec fn after_pause(now: u64) -> u64 {
    if now + RETRY_BACKOFF_NS > u64::MAX { u64::MAX } else { (now + RETRY_BACKOFF_NS) as u64 }
}

fn retry_time(now: u64) -> (r: u64)
    ensures
        r == after_pause(now),
{
    if now > u64::MAX - RETRY_BACKOFF_NS { u64::MAX } else { now + RETRY_BACKOFF_NS }
}

/// How many buffers an output has; three are taken where its pool is not known.
pub fn scanout_depth(pool: Option<usize>) -> (r: usize)
    ensures
        r == (match pool {
            Some(n) => n,
            None => 3,
        }),
{
    match pool {
        Some(n) => n,
        None => 3,
    }
}

/// An output nothing was ever drawn on.
pub open spec fn new_output(
    output_idx: usize,
    origin: (i32, i32),
    extent: Extent2D,
    bo_depth: usize,
) -> OutputView {
    OutputView {
        output_idx,
        pool_slots: Seq::empty(),
        pending_acks: Seq::empty(),
        pending_pool_releases: Seq::empty(),
        failed_submit_bos: Seq::empty(),
        history: Seq::empty(),
        history_depth: (bo_depth + 1) as usize,
        generation: 0,
        structure_damage: LogView::empty(),
        failed_repaint: LogView::empty(),
        extent,
        origin,
        retry_at: None,
        cursor_mode: OutputCursorMode::Hidden,
        cursor_prev_pos: None,
        cursor_rect: None,
        cursor_version: None,
        show_retry: None,
        damage: fresh(bo_depth as nat, extent),
        prev_presented: Seq::empty(),
        last_pieces: Set::empty(),
    }
}

/// An output whose next frame repaints everything.
pub open spec fn repaint_forced(o: OutputView) -> OutputView {
    OutputView { structure_damage: o.structure_damage.add(output_rect(o.extent)), ..o }
}

// ── the gates before a walk ─────────────────────────────────────────
/// Why a tick does not walk an output, if it does not.
pub open spec fn gate(
    o: OutputView,
    now: u64,
    structure_dirty: bool,
    pending_presentation: bool,
    audit_armed: bool,
) -> Option<TickSkipReason> {
    if o.pending_acks.len() > 0 {
        Some(TickSkipReason::PendingAcks)
    } else if (match o.retry_at {
        Some(at) => now < at,
        None => false,
    }) {
        Some(TickSkipReason::RetryDeadline)
    } else if structure_dirty || pending_presentation || o.generation == 0 || o.damage.owed
        || o.structure_damage.marks.len() > 0 || o.failed_repaint.marks.len() > 0
        || audit_armed {
        None
    } else {
        Some(TickSkipReason::NothingPending)
    }
}

// ── the draft of a frame ────────────────────────────────────────────
/// A frame after the walk and before the renderer.
pub struct FrameDraft {
    pub built: SceneBuild,
    pub output_damage: RegionSet,
    pub generation: u64,
    pub cursor_transition: Option<CursorTransition>,
    pub cursor_prev_pos_after_retire: Option<Option<(i32, i32)>>,
    pub cursor_mode_after_retire: OutputCursorMode,
    pub scene_structure_snap: DamageCapture,
    pub failed_repaint_snap: DamageCapture,
    /// How many pixels are owed because the structure changed.
    pub structural_pixels: u64,
    /// How many pixels the draws paint, each as often as it is painted.
    pub scene_draw_pixels: u128,
    /// Whether nothing is to be drawn.
    pub skip: bool,
}

/// A draft with views.
pub struct DraftView {
    pub built: BuildView,
    pub participants: Seq<ScenePresence>,
    pub output_damage: Seq<Rect2D>,
    pub generation: u64,
    pub transition: Option<CursorTransition>,
    pub prev_pos_after: Option<Option<(i32, i32)>>,
    pub mode_after: OutputCursorMode,
    pub structure_snap: CaptureView,
    pub failed_snap: CaptureView,
    pub structural_pixels: nat,
    pub scene_draw_pixels: nat,
    pub skip: bool,
}

impl View for FrameDraft {
    type V = DraftView;

    open spec fn view(&self) -> DraftView {
        DraftView {
            built: self.built@,
            participants: self.built.participants@,
            output_damage: self.output_damage@,
            generation: self.generation,
            transition: self.cursor_transition,
            prev_pos_after: self.cursor_prev_pos_after_retire,
            mode_after: self.cursor_mode_after_retire,
            structure_snap: self.scene_structure_snap@,
            failed_snap: self.failed_repaint_snap@,
            structural_pixels: self.structural_pixels as nat,
            scene_draw_pixels: self.scene_draw_pixels as nat,
            skip: self.skip,
        }
    }
}

/// The build that a frame shows: without its software cursor while the plane
/// still shows one.
pub open spec fn built_for_frame(o: OutputView, b: BuildView, plane_visible: bool) -> BuildView {
    let prev = effective_prev(o.cursor_mode, plane_visible, b.cursor_assignment);
    if needs_cursorless_frame(prev, b.cursor_assignment) { without_software_cursor(b) } else { b }
}

/// The plane change that a frame queues. A show that is owed is queued whatever
/// the plane shows.
pub open spec fn queued_transition(
    o: OutputView,
    b: BuildView,
    plane_visible: bool,
) -> Option<CursorTransition> {
    let prev = effective_prev(o.cursor_mode, plane_visible, b.cursor_assignment);
    match b.cursor_assignment {
        CursorAssignment::Hw { x, y, record_version, hot_x, hot_y } => if o.show_retry is Some {
            Some(
                CursorTransition::ShowOnRetire {
                    upload_version: record_version,
                    hot_x,
                    hot_y,
                    x,
                    y,
                },
            )
        } else {
            transition_of(prev, b.cursor_assignment).0
        },
        _ => transition_of(prev, b.cursor_assignment).0,
    }
}

/// What a frame has to repaint: what its drawables changed, its cursor, what was
/// marked, what a failed frame still owes, and what changed in structure.
pub open spec fn frame_damage(
    o: OutputView,
    b: BuildView,
    participants: Seq<ScenePresence>,
    transition: Option<CursorTransition>,
) -> Seq<Rect2D> {
    let cursor = cursor_damage_list(
        o.cursor_rect,
        o.cursor_version,
        b.new_cursor_rect,
        b.cursor_record_version,
        transition is Some,
    );
    list_add_all(
        list_add_all(
            list_add_all(
                list_add_all(b.projected_damage, cursor),
                o.structure_damage.rects(),
            ),
            o.failed_repaint.rects(),
        ),
        boxes(structural_px(o.prev_presented, participants)),
    )
}

/// The draft of a frame. Without damage it is skipped, unless it is the first,
/// a repaint is owed, or a paint would be stranded off the output; that one is
/// composed in full.
pub open spec fn drafted(
    o: OutputView,
    b: BuildView,
    participants: Seq<ScenePresence>,
    plane_visible: bool,
) -> DraftView {
    let prev = effective_prev(o.cursor_mode, plane_visible, b.cursor_assignment);
    let built = built_for_frame(o, b, plane_visible);
    let transition = queued_transition(o, b, plane_visible);
    let damage = frame_damage(o, built, participants, transition);
    let idle = damage.len() == 0 && o.generation != 0 && !o.damage.owed;
    let stranded = b.stats.content_off_output > 0;
    DraftView {
        built,
        participants,
        output_damage: if idle && stranded {
            list_add(damage, output_rect(o.extent))
        } else {
            damage
        },
        generation: (o.generation + 1) as u64,
        transition,
        prev_pos_after: transition_of(prev, b.cursor_assignment).1,
        mode_after: transition_of(prev, b.cursor_assignment).2,
        structure_snap: o.structure_damage.capture(),
        failed_snap: o.failed_repaint.capture(),
        structural_pixels: area_of(boxes(structural_px(o.prev_presented, participants))),
        scene_draw_pixels: drawn_pixels(built.draws, o.extent),
        skip: idle && !stranded,
    }
}

/// The output once a frame was drafted: what had pieces is noted, and the frame
/// took the marks up.
pub open spec fn with_draft(o: OutputView, pieces: Set<DrawableId>) -> OutputView {
    OutputView {
        last_pieces: pieces,
        structure_damage: o.structure_damage.captured(),
        failed_repaint: o.failed_repaint.captured(),
        ..o
    }
}

// ── the plan of a frame ─────────────────────────────────────────────
/// A buffer that a frame may be drawn into.
#[derive(Clone, Copy, Debug, PartialEq, Eq, Structural)]
pub struct ScanoutToken {
    pub bo_idx: usize,
    pub content_invalidated: bool,
    pub last_present_generation: Option<u64>,
}

/// How a frame is drawn.
pub struct FramePlan {
    /// Whether the buffer's contents may be kept.
    pub loadable: bool,
    /// What has to be drawn.
    pub requested: Region,
    pub plan: RepaintPlan,
    /// The draws that a clipped repaint needs.
    pub culled: Option<CompositeScene>,
}

/// Pixels after rectangles were added in turn.
pub open spec fn with_rects(px: Set<(int, int)>, rects: Seq<Rect2D>) -> Set<(int, int)>
    decreases rects.len(),
{
    if rects.len() == 0 {
        px
    } else {
        capped(with_rects(px, rects.drop_last()).union(rects.last().px()))
    }
}

/// Whether a buffer's contents may be kept: it was on screen, and nothing spoiled
/// it since.
pub open spec fn is_loadable(token: ScanoutToken) -> bool {
    !token.content_invalidated && token.last_present_generation is Some
}

/// What a frame has to draw into a buffer: what the buffer is missing, the
/// overlay, which must be drawn exactly once on fresh pixels, and a cursor that
/// lives in the frame.
pub open spec fn requested_px(
    o: OutputView,
    b: BuildView,
    token: ScanoutToken,
    shared: bool,
    overlay: Seq<Rect2D>,
) -> Set<(int, int)> {
    let base = if shared {
        repaint_px(o.damage, token.bo_idx, is_loadable(token))
    } else {
        Set::empty()
    };
    let with_overlay = with_rects(base, overlay);
    let with_cursor = if b.software_cursor_tail is Some && b.new_cursor_rect is Some {
        capped(with_overlay.union(b.new_cursor_rect->0.px()))
    } else {
        with_overlay
    };
    with_cursor.intersect(whole_px(o.extent))
}

// ── submission ──────────────────────────────────────────────────────
/// The frame that a submission puts in flight.
pub open spec fn ack_of(
    d: DraftView,
    bo_idx: usize,
    stage: InFlightStage,
    ticket: FenceTicket,
) -> AckView {
    AckView {
        bo_idx,
        generation: d.generation,
        stage,
        snapshots: d.built.snapshots,
        ticket: Some(ticket),
        output_damage: d.output_damage,
        participants: d.participants,
        structure_damage: d.structure_snap,
        failed_repaint: d.failed_snap,
        transition: d.transition,
        prev_pos_after: d.prev_pos_after,
        mode_after: d.mode_after,
        rect_after: d.built.new_cursor_rect,
        version_after: d.built.cursor_record_version,
    }
}

/// The output after a frame was submitted.
pub open spec fn frame_in_flight(
    o: OutputView,
    d: DraftView,
    bo_idx: usize,
    stage: InFlightStage,
    ticket: FenceTicket,
    slot: usize,
    shared: bool,
    complete: bool,
    painted: Set<(int, int)>,
) -> OutputView {
    OutputView {
        retry_at: None,
        pool_slots: o.pool_slots.push(slot),
        pending_acks: o.pending_acks.push(ack_of(d, bo_idx, stage, ticket)),
        generation: d.generation,
        damage: if !shared {
            o.damage
        } else if complete {
            submitted(o.damage, bo_idx, painted)
        } else {
            invalidated(o.damage)
        },
        ..o
    }
}

/// What is left to do after a frame could not be submitted.
#[derive(Clone, Copy, Debug, PartialEq, Eq, Structural)]
pub struct FailedFrame {
    /// Whether the renderer is gone for good.
    pub renderer_failed: bool,
    /// A descriptor slot to give back at once.
    pub release_slot: Option<usize>,
    /// Whether the buffer's contents must be forgotten.
    pub invalidate_bo: bool,
    /// Whether the buffer was never handed to the renderer.
    pub cancel_recording: bool,
}

/// The output after a frame could not be submitted: nothing of it counts, and
/// what it was to repaint is owed.
pub open spec fn frame_lost(
    o: OutputView,
    damage: Seq<Rect2D>,
    bo_idx: usize,
    slot: usize,
    ticket: FenceTicket,
    gpu_submitted: bool,
    now: u64,
) -> OutputView {
    OutputView {
        retry_at: Some(after_pause(now)),
        failed_repaint: if damage.len() == 0 {
            o.failed_repaint
        } else {
            o.failed_repaint.add(bbox_of_list(damage))
        },
        failed_submit_bos: if gpu_submitted {
            o.failed_submit_bos.push(FailedSubmitBo { bo_idx, pool_slot: slot, ticket })
        } else {
            o.failed_submit_bos
        },
        ..o
    }
}

/// Whether a presentation error says that the device is gone.
pub open spec fn error_is_fatal(e: PresentError) -> bool {
    match e {
        PresentError::Vk(code) => device_lost(code),
        _ => false,
    }
}

// ── retirement ──────────────────────────────────────────────────────
/// Whether a flip is the one that the oldest frame waits for.
pub open spec fn flip_expected(o: OutputView, presented_bo: usize) -> bool {
    o.pending_acks.len() > 0 && retirement_matches(
        o.pending_acks[0].stage,
        o.pending_acks[0].bo_idx,
        presented_bo,
    )
}

/// The store after snapshots were acknowledged in turn.
pub open spec fn acked_all(store: StoreView, snaps: Seq<SnapshotView>) -> StoreView
    decreases snaps.len(),
{
    if snaps.len() == 0 {
        store
    } else {
        let before = acked_all(store, snaps.drop_last());
        match before.get(snaps.last().id) {
            Some(d) => before.with(snaps.last().id, acked(d, snaps.last())),
            None => before,
        }
    }
}

/// Whether the slot of a retired frame is given back at once: it has no fence, or
/// its fence has signalled.
pub open spec fn slot_free(ticket: Option<FenceTicket>, poll: FencePoll) -> bool {
    ticket is None || poll == FencePoll::Signaled
}

/// The output after its oldest frame reached the screen, the cursor aside.
/// Damage that came after the frame was submitted stays.
pub open spec fn frame_shown(o: OutputView, poll: FencePoll) -> OutputView {
    let ack = o.pending_acks[0];
    OutputView {
        pending_acks: o.pending_acks.drop_first(),
        structure_damage: o.structure_damage.released(ack.structure_damage),
        failed_repaint: o.failed_repaint.released(ack.failed_repaint),
        history: last_of(
            o.history.push((ack.generation, ack.output_damage)),
            o.history_depth as nat,
        ),
        damage: retired(o.damage),
        prev_presented: ack.participants,
        pool_slots: if o.pool_slots.len() > 0 { o.pool_slots.drop_first() } else { o.pool_slots },
        pending_pool_releases: if o.pool_slots.len() > 0 && !slot_free(ack.ticket, poll) {
            o.pending_pool_releases.push((o.pool_slots[0], ack.ticket->0))
        } else {
            o.pending_pool_releases
        },
        ..o
    }
}

/// A frame that reached the screen: what remains to be settled.
#[derive(Clone, Copy, Debug)]
pub struct RetiredFrame {
    pub generation: u64,
    pub cursor_transition: Option<CursorTransition>,
    pub cursor_prev_pos_after_retire: Option<Option<(i32, i32)>>,
    pub cursor_mode_after_retire: OutputCursorMode,
    pub last_present_cursor_rect_after_retire: Option<Rect2D>,
    pub last_present_cursor_version_after_retire: Option<u64>,
    /// A descriptor slot to give back at once.
    pub release_slot: Option<usize>,
    /// Whether the fence could not be read.
    pub renderer_failed: bool,
}

impl RetiredFrame {
    /// Whether the frame was to show its cursor itself. Each such frame counts
    /// towards the plane's next try.
    pub fn composed_software_cursor(&self) -> (r: bool)
        ensures
            r == (self.cursor_mode_after_retire is Sw),
    {
        matches!(self.cursor_mode_after_retire, OutputCursorMode::Sw { .. })
    }
}

/// What remains to be settled of the oldest frame.
pub open spec fn shown_frame(o: OutputView, poll: FencePoll) -> RetiredFrame {
    let ack = o.pending_acks[0];
    let has_slot = o.pool_slots.len() > 0;
    RetiredFrame {
        generation: ack.generation,
        cursor_transition: ack.transition,
        cursor_prev_pos_after_retire: ack.prev_pos_after,
        cursor_mode_after_retire: ack.mode_after,
        last_present_cursor_rect_after_retire: ack.rect_after,
        last_present_cursor_version_after_retire: ack.version_after,
        release_slot: if has_slot && slot_free(ack.ticket, poll) {
            Some(o.pool_slots[0])
        } else {
            None
        },
        renderer_failed: has_slot && ack.ticket is Some && poll == FencePoll::Failed,
    }
}

/// The output after the plane change of a retired frame came to `result`. What
/// was not bound is never claimed.
pub open spec fn cursor_settled(
    o: OutputView,
    f: RetiredFrame,
    result: CursorTransitionResult,
) -> OutputView {
    let r = resolution_of(result, f.cursor_mode_after_retire);
    let s = OutputView {
        show_retry: retry_version(
            o.show_retry,
            f.cursor_transition,
            result,
            f.cursor_mode_after_retire,
        ),
        cursor_mode: r.actual_mode,
        cursor_prev_pos: if r.commit_desired_metadata {
            match f.cursor_prev_pos_after_retire {
                Some(p) => p,
                None => o.cursor_prev_pos,
            }
        } else {
            None
        },
        cursor_rect: if r.commit_desired_metadata {
            f.last_present_cursor_rect_after_retire
        } else if r.clear_presented_metadata {
            None
        } else {
            o.cursor_rect
        },
        cursor_version: if r.commit_desired_metadata {
            f.last_present_cursor_version_after_retire
        } else if r.clear_presented_metadata {
            None
        } else {
            o.cursor_version
        },
        ..o
    };
    if r.force_repaint { repaint_forced(s) } else { s }
}

// ── copied frames ───────────────────────────────────────────────────
/// Whether a render completion is the one that the oldest frame waits for.
pub open spec fn completion_awaited(o: OutputView, job_id: u64, bo_idx: usize) -> bool {
    o.pending_acks.len() > 0 && completion_matches(
        o.pending_acks[0].stage,
        o.pending_acks[0].bo_idx,
        job_id,
        bo_idx,
    )
}

/// The output after its oldest frame was handed to the sink.
pub open spec fn handed_to_sink(o: OutputView) -> OutputView {
    OutputView {
        pending_acks: o.pending_acks.update(
            0,
            AckView { stage: InFlightStage::KmsFlipPending, ..o.pending_acks[0] },
        ),
        ..o
    }
}

/// What is left to do after the sink refused a frame.
#[derive(Clone, Copy, Debug, PartialEq, Eq, Structural)]
pub struct CopiedFailure {
    pub release_slot: Option<usize>,
    pub renderer_failed: bool,
}

/// The output after the sink refused its oldest frame: the frame never reaches
/// the screen, its number is given back, and what it was to repaint is owed.
pub open spec fn sink_refused(o: OutputView, bo_idx: usize, now: u64) -> OutputView {
    let ack = o.pending_acks[0];
    OutputView {
        pending_acks: o.pending_acks.drop_first(),
        generation: if ack.generation == 0 { 0 } else { (ack.generation - 1) as u64 },
        failed_repaint: if ack.output_damage.len() == 0 {
            o.failed_repaint
        } else {
            o.failed_repaint.add(bbox_of_list(ack.output_damage))
        },
        pool_slots: if o.pool_slots.len() > 0 { o.pool_slots.drop_first() } else { o.pool_slots },
        failed_submit_bos: if o.pool_slots.len() > 0 && ack.ticket is Some {
            o.failed_submit_bos.push(
                FailedSubmitBo { bo_idx, pool_slot: o.pool_slots[0], ticket: ack.ticket->0 },
            )
        } else {
            o.failed_submit_bos
        },
        retry_at: Some(after_pause(now)),
        ..o
    }
}

/// What is left to do then. A frame without a fence is recovered at once.
pub open spec fn refusal_of(o: OutputView, recycled: bool) -> CopiedFailure {
    let ack = o.pending_acks[0];
    let has_slot = o.pool_slots.len() > 0;
    CopiedFailure {
        release_slot: if has_slot && ack.ticket is None && recycled {
            Some(o.pool_slots[0])
        } else {
            None
        },
        renderer_failed: !has_slot || (ack.ticket is None && !recycled),
    }
}

impl OutputSceneState {
    pub fn new(
        output_idx: usize,
        origin: (i32, i32),
        extent: Extent2D,
        bo_depth: usize,
        damage_audit: Option<OutputDamageAudit>,
    ) -> (r: Self)
        requires
            bo_depth < usize::MAX,
        ensures
            r@ == new_output(output_idx, origin, extent, bo_depth),
            r.damage_audit == damage_audit,
    {
        let r = OutputSceneState {
            output_idx,
            damage_audit,
            pool_slots: VecDeque::new(),
            pending_acks: VecDeque::new(),
            pending_pool_releases: VecDeque::new(),
            failed_submit_bos: VecDeque::new(),
            damage_history: BufferAgeRing::new(bo_depth + 1),
            current_generation: 0,
            scene_structure_damage: DamageLog::new(),
            pending_repaint_after_failed_submit: DamageLog::new(),
            output_extent: extent,
            output_origin: origin,
            next_submit_retry_at: None,
            last_frame_cursor_mode: OutputCursorMode::Hidden,
            cursor_prev_pos: None,
            last_present_cursor_rect: None,
            last_present_cursor_version: None,
            force_show_retry_version: None,
            damage: ScanoutDamage::new(bo_depth, extent),
            prev_presented: Vec::new(),
            last_pieces: IdSet::new(),
        };
        assert(r@.pending_acks =~= Seq::empty());
        assert(r@.prev_presented =~= Seq::empty());
        r
    }

    fn whole(&self) -> (r: Rect2D)
        ensures
            r == output_rect(self@.extent),
    {
        Rect2D { offset: Offset2D { x: 0, y: 0 }, extent: self.output_extent }
    }

    /// Makes the next frame repaint everything.
    pub fn force_cursor_retry_repaint(&mut self)
        ensures
            final(self)@ == repaint_forced(old(self)@),
            final(self).damage_audit == old(self).damage_audit,
    {
        let whole = self.whole();
        self.scene_structure_damage.add(whole);
    }

    /// Whether a tick has to walk this output, and if not, why.
    pub fn tick_gate(
        &self,
        now: u64,
        structure_dirty: bool,
        pending_presentation: bool,
        audit_armed: bool,
    ) -> (r: Option<TickSkipReason>)
        ensures
            r == gate(self@, now, structure_dirty, pending_presentation, audit_armed),
    {
        if self.pending_acks.len() > 0 {
            return Some(TickSkipReason::PendingAcks);
        }
        if let Some(at) = self.next_submit_retry_at {
            if now < at {
                return Some(TickSkipReason::RetryDeadline);
            }
        }
        let pending_structure = !self.scene_structure_damage.is_empty()
            || !self.pending_repaint_after_failed_submit.is_empty();
        if walk_needed(
            structure_dirty,
            pending_presentation,
            self.current_generation == 0,
            self.damage.owes_repaint(),
            pending_structure,
            audit_armed,
        ) {
            None
        } else {
            Some(TickSkipReason::NothingPending)
        }
    }

    /// Drafts a frame from a walk. `plane_visible` is whether the cursor plane
    /// shows something now.
    pub fn draft_frame(&mut self, built: SceneBuild, plane_visible: bool) -> (d: FrameDraft)
        requires
            tail_ok(built@),
            old(self)@.generation < u64::MAX,
        ensures
            d@ == drafted(old(self)@, built@, built.participants@, plane_visible),
            final(self)@ == with_draft(old(self)@, built@.pieces_ids.to_set()),
            final(self).damage_audit == old(self).damage_audit,
            d.built.scene.bg_color == built.scene.bg_color,
    {
        let ghost o = self@;
        let ghost b = built@;
        let ghost parts = built.participants@;
        let mut built = built;
        let mut pieces = IdSet::new();
        pieces.extend_from(built.pieces_ids.as_slice());
        assert(pieces@ =~= b.pieces_ids.to_set());
        self.last_pieces = pieces;
        let prev = effective_cursor_prev_mode(
            self.last_frame_cursor_mode,
            plane_visible,
            built.cursor_assignment,
        );
        if cursorless_hide_frame_required(prev, built.cursor_assignment) {
            built.omit_software_cursor_for_hide();
        }
        assert(built@ == built_for_frame(o, b, plane_visible));
        assert(built.participants@ == parts);
        let (queued, prev_pos_after, mode_after) = derive_cursor_transition(
            prev,
            built.cursor_assignment,
        );
        let transition = match built.cursor_assignment {
            CursorAssignment::Hw { x, y, record_version, hot_x, hot_y } => {
                if self.force_show_retry_version.is_some() {
                    Some(
                        CursorTransition::ShowOnRetire {
                            upload_version: record_version,
                            hot_x,
                            hot_y,
                            x,
                            y,
                        },
                    )
                } else {
                    queued
                }
            },
            _ => queued,
        };
        let structure_snap = self.scene_structure_damage.capture();
        let failed_snap = self.pending_repaint_after_failed_submit.capture();
        let mut damage = built.projected_damage.snapshot();
        let cursor = cursor_damage_for_frame(
            self.last_present_cursor_rect,
            self.last_present_cursor_version,
            built.new_cursor_rect,
            built.cursor_record_version,
            transition,
        );
        damage.union_with(&cursor);
        damage.union_with(&structure_snap.region);
        damage.union_with(&failed_snap.region);
        let structural = structural_damage(
            self.prev_presented.as_slice(),
            built.participants.as_slice(),
        );
        let rects = structural.rects();
        let ghost before = damage@;
        let mut i: usize = 0;
        assert(rects@.take(0) =~= Seq::empty());
        while i < rects.len()
            invariant
                i <= rects@.len(),
                damage@ == list_add_all(before, rects@.take(i as int)),
            decreases rects@.len() - i,
        {
            assert(rects@.take(i + 1).drop_last() =~= rects@.take(i as int));
            damage.add(rects[i]);
            i = i + 1;
        }
        assert(rects@.take(i as int) =~= rects@);
        let mut skip = skip_for_empty_damage(
            damage.is_empty(),
            self.current_generation == 0,
            self.damage.owes_repaint(),
        );
        if skip && built.stats.off_output_damage_forces_compose() {
            let whole = self.whole();
            damage.add(whole);
            skip = false;
        }
        let structural_pixels = structural.area();
        let scene_draw_pixels = scene_draw_pixels(
            built.scene.draws.as_slice(),
            self.output_extent,
        );
        FrameDraft {
            built,
            output_damage: damage,
            generation: self.current_generation + 1,
            cursor_transition: transition,
            cursor_prev_pos_after_retire: prev_pos_after,
            cursor_mode_after_retire: mode_after,
            scene_structure_snap: structure_snap,
            failed_repaint_snap: failed_snap,
            structural_pixels,
            scene_draw_pixels,
            skip,
        }
    }

    /// Takes a frame's damage into the buffers' model, clipped to the output.
    pub fn attribute_damage(&mut self, output_damage: &RegionSet)
        ensures
            final(self)@ == (OutputView {
                damage: damaged(
                    old(self)@.damage,
                    rects_px(output_damage@).intersect(whole_px(old(self)@.extent)),
                ),
                ..old(self)@
            }),
            final(self).damage_audit == old(self).damage_audit,
    {
        let all = Region::from_rects(output_damage.rects().as_slice());
        let region = all.clip_to_rect(self.whole());
        self.damage.add_damage(&region);
    }

    /// Decides how a frame is drawn into a buffer. `shared` is whether the buffer
    /// itself is scanned out, `overlay` the output's overlay rectangles.
    pub fn plan_frame(
        &self,
        built: &SceneBuild,
        token: ScanoutToken,
        shared: bool,
        overlay: &[Rect2D],
    ) -> (p: FramePlan)
        ensures
            p.loadable == is_loadable(token),
            p.requested@ == requested_px(self@, built@, token, shared, overlay@),
            planned(
                p.plan,
                p.requested@,
                built@.draws,
                self@.extent,
                is_loadable(token),
                shared,
            ),
            p.requested@.subset_of(p.plan.painted@),
            p.culled is Some <==> p.plan.repaint is Clipped,
            p.culled matches Some(c) ==> c.bg_color == built.scene.bg_color && c.draws@ == culled(
                built@.draws,
                p.plan.painted@,
            ),
    {
        let loadable = !token.content_invalidated && token.last_present_generation.is_some();
        let mut requested = if shared {
            self.damage.repaint_for(token.bo_idx, loadable)
        } else {
            Region::new()
        };
        let ghost base = requested@;
        let mut i: usize = 0;
        assert(overlay@.take(0) =~= Seq::empty());
        while i < overlay.len()
            invariant
                i <= overlay@.len(),
                requested@ == with_rects(base, overlay@.take(i as int)),
            decreases overlay@.len() - i,
        {
            assert(overlay@.take(i + 1).drop_last() =~= overlay@.take(i as int));
            requested.add_rect(overlay[i]);
            i = i + 1;
        }
        assert(overlay@.take(i as int) =~= overlay@);
        if built.software_cursor_tail.is_some() {
            if let Some(r) = built.new_cursor_rect {
                requested.add_rect(r);
            }
        }
        let requested = requested.clip_to_rect(self.whole());
        assert(requested@.subset_of(whole_px(self@.extent)));
        let plan = plan_repaint(
            &requested,
            built.scene.draws.as_slice(),
            self.output_extent,
            loadable,
            shared,
        );
        let culled = match plan.repaint {
            Repaint::Clipped(_) => Some(cull_scene_to_region(&built.scene, &plan.painted)),
            _ => None,
        };
        FramePlan { loadable, requested, plan, culled }
    }

    /// A frame was submitted. `complete` is whether all of it was recorded.
    pub fn frame_submitted(
        &mut self,
        draft: FrameDraft,
        plan: &FramePlan,
        bo_idx: usize,
        stage: InFlightStage,
        ticket: FenceTicket,
        slot: usize,
        shared: bool,
        complete: bool,
    ) -> (sampled: Vec<DrawableId>)
        requires
            plan.requested@.subset_of(plan.plan.painted@),
        ensures
            final(self)@ == frame_in_flight(
                old(self)@,
                draft@,
                bo_idx,
                stage,
                ticket,
                slot,
                shared,
                complete,
                plan.plan.painted@,
            ),
            final(self).damage_audit == old(self).damage_audit,
            sampled@ == draft@.built.sampled_ids,
    {
        let ghost o = self@;
        let ghost d = draft@;
        self.next_submit_retry_at = None;
        self.pool_slots.push_back(slot);
        let FrameDraft {
            built,
            output_damage,
            generation,
            cursor_transition,
            cursor_prev_pos_after_retire,
            cursor_mode_after_retire,
            scene_structure_snap,
            failed_repaint_snap,
            structural_pixels: _,
            scene_draw_pixels: _,
            skip: _,
        } = draft;
        let ack = PendingAck {
            bo_idx,
            generation,
            stage,
            drawable_snapshots: built.snapshots,
            ticket: Some(ticket),
            submitted_output_damage: output_damage,
            submitted_participants: built.participants,
            submitted_scene_structure_damage: scene_structure_snap,
            submitted_failed_repaint: failed_repaint_snap,
            cursor_transition,
            cursor_prev_pos_after_retire,
            cursor_mode_after_retire,
            last_present_cursor_rect_after_retire: built.new_cursor_rect,
            last_present_cursor_version_after_retire: built.cursor_record_version,
        };
        assert(ack@ == ack_of(d, bo_idx, stage, ticket));
        self.pending_acks.push_back(ack);
        assert(self@.pending_acks =~= o.pending_acks.push(ack@));
        self.current_generation = generation;
        if shared {
            stage_submitted_frame(
                &mut self.damage,
                complete,
                bo_idx,
                &plan.requested,
                &plan.plan.painted,
            );
        }
        built.sampled_ids
    }

    /// A frame could not be submitted.
    pub fn frame_failed(
        &mut self,
        output_damage: &RegionSet,
        bo_idx: usize,
        slot: usize,
        ticket: FenceTicket,
        gpu_submitted: bool,
        error: &PresentError,
        now: u64,
    ) -> (r: FailedFrame)
        ensures
            final(self)@ == frame_lost(
                old(self)@,
                output_damage@,
                bo_idx,
                slot,
                ticket,
                gpu_submitted,
                now,
            ),
            final(self).damage_audit == old(self).damage_audit,
            r == (FailedFrame {
                renderer_failed: error_is_fatal(*error),
                release_slot: if gpu_submitted { None } else { Some(slot) },
                invalidate_bo: gpu_submitted,
                cancel_recording: !gpu_submitted,
            }),
    {
        self.next_submit_retry_at = Some(retry_time(now));
        if let Some(b) = output_damage.bounding_rect() {
            self.pending_repaint_after_failed_submit.add(b);
        }
        if gpu_submitted {
            self.failed_submit_bos.push_back(FailedSubmitBo { bo_idx, pool_slot: slot, ticket });
        }
        FailedFrame {
            renderer_failed: present_error_is_device_lost(error),
            release_slot: if gpu_submitted { None } else { Some(slot) },
            invalidate_bo: gpu_submitted,
            cancel_recording: !gpu_submitted,
        }
    }

    /// A flip put a buffer on the screen. `poll` is what the fence of the oldest
    /// frame says. A flip that nothing waited for means that the buffers'
    /// contents are unknown.
    pub fn retire_frame(
        &mut self,
        store: &mut DrawableStore,
        presented_bo: usize,
        poll: FencePoll,
    ) -> (r: Option<RetiredFrame>)
        ensures
            flip_expected(old(self)@, presented_bo) ==> {
                &&& r == Some(shown_frame(old(self)@, poll))
                &&& final(self)@ == frame_shown(old(self)@, poll)
                &&& final(store)@ == acked_all(
                    old(store)@,
                    old(self)@.pending_acks[0].snapshots,
                )
            },
            !flip_expected(old(self)@, presented_bo) ==> {
                &&& r is None
                &&& final(self)@ == (OutputView {
                    damage: invalidated(old(self)@.damage),
                    ..old(self)@
                })
                &&& final(store)@ == old(store)@
            },
            final(self).damage_audit == old(self).damage_audit,
    {
        let ghost o = self@;
        let ghost acks = self.pending_acks@;
        let expected = if self.pending_acks.len() > 0 {
            let front = &self.pending_acks[0];
            assert(o.pending_acks[0] == acks[0]@);
            kms_retirement_matches(front.stage, front.bo_idx, presented_bo)
        } else {
            false
        };
        if !expected {
            self.damage.invalidate();
            return None;
        }
        let ack = match self.pending_acks.pop_front() {
            None => {
                return None;
            },
            Some(a) => a,
        };
        assert(ack@ == o.pending_acks[0]);
        assert(self@.pending_acks =~= o.pending_acks.drop_first());
        let ghost snaps = ack@.snapshots;
        let ghost s0 = store@;
        let mut i: usize = 0;
        assert(snaps.take(0) =~= Seq::empty());
        while i < ack.drawable_snapshots.len()
            invariant
                i <= ack.drawable_snapshots@.len(),
                snaps == snaps_view(ack.drawable_snapshots@),
                store@ == acked_all(s0, snaps.take(i as int)),
            decreases ack.drawable_snapshots@.len() - i,
        {
            assert(snaps.take(i + 1).drop_last() =~= snaps.take(i as int));
            assert(snaps[i as int] == ack.drawable_snapshots@[i as int]@);
            store.ack_presentation_damage(&ack.drawable_snapshots[i]);
            i = i + 1;
        }
        assert(snaps.take(i as int) =~= snaps);
        self.scene_structure_damage.release(&ack.submitted_scene_structure_damage);
        self.pending_repaint_after_failed_submit.release(&ack.submitted_failed_repaint);
        self.damage_history.push(ack.generation, ack.submitted_output_damage);
        self.damage.retire_success();
        self.prev_presented = ack.submitted_participants;
        let mut release_slot: Option<usize> = None;
        let mut renderer_failed = false;
        match self.pool_slots.pop_front() {
            None => {},
            Some(slot) => {
                assert(self.pool_slots@ =~= o.pool_slots.drop_first());
                match ack.ticket {
                    None => {
                        release_slot = Some(slot);
                    },
                    Some(t) => {
                        match poll {
                            FencePoll::Signaled => {
                                release_slot = Some(slot);
                            },
                            FencePoll::Pending => {
                                self.pending_pool_releases.push_back((slot, t));
                            },
                            FencePoll::Failed => {
                                renderer_failed = true;
                                self.pending_pool_releases.push_back((slot, t));
                            },
                        }
                    },
                }
            },
        }
        Some(
            RetiredFrame {
                generation: ack.generation,
                cursor_transition: ack.cursor_transition,
                cursor_prev_pos_after_retire: ack.cursor_prev_pos_after_retire,
                cursor_mode_after_retire: ack.cursor_mode_after_retire,
                last_present_cursor_rect_after_retire: ack.last_present_cursor_rect_after_retire,
                last_present_cursor_version_after_retire:
                    ack.last_present_cursor_version_after_retire,
                release_slot,
                renderer_failed,
            },
        )
    }

    /// The plane change of a retired frame came to `result`.
    pub fn settle_cursor(&mut self, frame: &RetiredFrame, result: CursorTransitionResult)
        ensures
            final(self)@ == cursor_settled(old(self)@, *frame, result),
            final(self).damage_audit == old(self).damage_audit,
    {
        let resolution = resolve_retired_cursor_state(result, frame.cursor_mode_after_retire);
        self.force_show_retry_version = update_force_show_retry_version(
            self.force_show_retry_version,
            frame.cursor_transition,
            result,
            frame.cursor_mode_after_retire,
        );
        self.last_frame_cursor_mode = resolution.actual_mode;
        if resolution.commit_desired_metadata {
            if let Some(p) = frame.cursor_prev_pos_after_retire {
                self.cursor_prev_pos = p;
            }
            self.last_present_cursor_rect = frame.last_present_cursor_rect_after_retire;
            self.last_present_cursor_version = frame.last_present_cursor_version_after_retire;
        } else {
            self.cursor_prev_pos = None;
            if resolution.clear_presented_metadata {
                self.last_present_cursor_rect = None;
                self.last_present_cursor_version = None;
            }
        }
        if resolution.force_repaint {
            self.force_cursor_retry_repaint();
        }
    }

    /// Whether a render completion is the one that the oldest frame waits for.
    pub fn awaits_completion(&self, job_id: u64, bo_idx: usize) -> (r: bool)
        ensures
            r == completion_awaited(self@, job_id, bo_idx),
    {
        if self.pending_acks.len() > 0 {
            let front = &self.pending_acks[0];
            assert(self@.pending_acks[0] == self.pending_acks@[0]@);
            copied_render_completion_matches(front.stage, front.bo_idx, job_id, bo_idx)
        } else {
            false
        }
    }

    /// The oldest frame was handed to the sink.
    pub fn copied_frame_submitted(&mut self)
        requires
            old(self)@.pending_acks.len() > 0,
        ensures
            final(self)@ == handed_to_sink(old(self)@),
            final(self).damage_audit == old(self).damage_audit,
    {
        let ghost acks = self.pending_acks@;
        let ghost o = self@;
        match self.pending_acks.pop_front() {
            None => {},
            Some(a) => {
                let mut ack = a;
                ack.stage = InFlightStage::KmsFlipPending;
                let ghost view = ack@;
                self.pending_acks.push_front(ack);
                assert(self.pending_acks@[0]@ == view);
                assert forall|i: int| 0 < i < acks.len() implies self.pending_acks@[i]
                    == acks[i] by {}
                assert(self@.pending_acks =~= handed_to_sink(o).pending_acks);
            },
        }
    }

    /// Whether the buffer of the oldest frame is to be recovered at once if the
    /// sink refuses it.
    pub fn recovers_at_once(&self) -> (r: bool)
        requires
            self@.pending_acks.len() > 0,
        ensures
            r == (self@.pool_slots.len() > 0 && self@.pending_acks[0].ticket is None),
    {
        assert(self@.pending_acks[0] == self.pending_acks@[0]@);
        self.pool_slots.len() > 0 && self.pending_acks[0].ticket.is_none()
    }

    /// The sink refused the oldest frame. `recycled` is whether its buffer was
    /// recovered, where that was to be tried.
    pub fn copied_frame_refused(&mut self, bo_idx: usize, recycled: bool, now: u64) -> (r:
        CopiedFailure)
        requires
            old(self)@.pending_acks.len() > 0,
        ensures
            final(self)@ == sink_refused(old(self)@, bo_idx, now),
            final(self).damage_audit == old(self).damage_audit,
            r == refusal_of(old(self)@, recycled),
    {
        let ghost o = self@;
        let ghost acks = self.pending_acks@;
        self.next_submit_retry_at = Some(retry_time(now));
        let mut release_slot: Option<usize> = None;
        let mut renderer_failed = false;
        match self.pending_acks.pop_front() {
            None => {},
            Some(ack) => {
                assert(ack@ == o.pending_acks[0]);
                assert(self@.pending_acks =~= o.pending_acks.drop_first());
                self.current_generation = if ack.generation == 0 { 0 } else { ack.generation - 1 };
                if let Some(b) = ack.submitted_output_damage.bounding_rect() {
                    self.pending_repaint_after_failed_submit.add(b);
                }
                match self.pool_slots.pop_front() {
                    None => {
                        renderer_failed = true;
                    },
                    Some(slot) => {
                        assert(self.pool_slots@ =~= o.pool_slots.drop_first());
                        match ack.ticket {
                            None => {
                                if recycled {
                                    release_slot = Some(slot);
                                } else {
                                    renderer_failed = true;
                                }
                            },
                            Some(ticket) => {
                                self.failed_submit_bos.push_back(
                                    FailedSubmitBo { bo_idx, pool_slot: slot, ticket },
                                );
                            },
                        }
                    },
                }
            },
        }
        CopiedFailure { release_slot, renderer_failed }
    }
}

} // verus!
