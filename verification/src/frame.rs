//! The start of a frame: from the windows to what has to be drawn.

use vstd::prelude::*;

use crate::draw::black;
use crate::emit::presences_view;
use crate::ids::IdSet;
use crate::output::{
    drafted, gate, with_draft, DraftView, FrameDraft, OutputSceneState, OutputView,
};
use crate::present::InFlightStage;
use crate::region::rects_px;
use crate::scanout_damage::{damaged, whole_px};
use crate::scene_build::{
    build_scene, build_scene_with, built, input_of, without_software_cursor, BuildView, CursorEntry,
    CursorInput, SceneBuild,
};
use crate::store::DrawableStore;
use crate::tick::TickSkipReason;
use crate::walk::{layout_ok, Visibility};
use crate::windows::{KmsCore, OutputLayout, WindowsMap};

verus! {

/// What a tick reads besides an output's own state.
pub struct FrameInput<'a> {
    pub core: &'a KmsCore,
    pub store: &'a DrawableStore,
    pub windows: &'a WindowsMap,
    pub layout: OutputLayout,
    pub cursor: Option<CursorEntry>,
    /// The window of a compositing manager's overlay.
    pub cow_host_xid: Option<u32>,
    /// Whether cursor planes are used at all.
    pub hw_strategy_enabled: bool,
    /// Whether the output's cursor plane takes the sprite.
    pub hw_fits: bool,
    /// Whether the output's cursor plane shows something now.
    pub plane_visible: bool,
    /// What the other outputs showed at their last walk.
    pub elsewhere: &'a IdSet,
    /// Whether the output's buffers are scanned out themselves.
    pub shared: bool,
    pub structure_dirty: bool,
    pub pending_presentation: bool,
    pub audit_armed: bool,
    /// The time, in nanoseconds.
    pub now: u64,
}

/// How a frame starts.
pub enum FrameStart {
    /// The scene is not walked.
    Skipped(TickSkipReason),
    /// The scene was walked, and nothing is to be drawn.
    Idle(FrameDraft),
    /// A frame is to be drawn.
    Compose(FrameDraft),
}

/// What a walk of the scene finds for an output.
pub open spec fn scene_of(f: FrameInput<'_>, mode: Visibility) -> BuildView {
    built(
        input_of(f.core, f.store, f.windows, f.layout, mode, f.elsewhere@),
        f.core.window_id,
        f.core.top_level_order@,
        f.cow_host_xid,
        CursorInput {
            entry: f.cursor,
            x: f.core.cursor_x,
            y: f.core.cursor_y,
            hw: f.hw_strategy_enabled && f.hw_fits,
        },
    )
}

/// Whether a draft is the one for what a walk finds.
pub open spec fn drafts(d: DraftView, o: OutputView, f: FrameInput<'_>) -> bool {
    let b = scene_of(f, Visibility::On);
    &&& presences_view(d.participants) == b.participants
    &&& d == drafted(o, b, d.participants, f.plane_visible)
}

/// The output once it was walked.
pub open spec fn walked_output(o: OutputView, f: FrameInput<'_>) -> OutputView {
    with_draft(o, scene_of(f, Visibility::On).pieces_ids.to_set())
}

/// The output once the damage of its frame was taken in. A copied output always
/// draws everything and keeps no account.
pub open spec fn with_frame_damage(
    o: OutputView,
    d: DraftView,
    shared: bool,
) -> OutputView {
    if shared {
        OutputView {
            damage: damaged(
                o.damage,
                rects_px(d.output_damage).intersect(whole_px(o.extent)),
            ),
            ..o
        }
    } else {
        o
    }
}

/// Starts a frame of one output.
pub fn begin_frame(state: &mut OutputSceneState, f: &FrameInput<'_>) -> (r: FrameStart)
    requires
        layout_ok(f.layout),
        old(state)@.generation < u64::MAX,
    ensures
        ({
            let o = old(state)@;
            let after = final(state)@;
            let g = gate(
                o,
                f.now,
                f.structure_dirty,
                f.pending_presentation,
                f.audit_armed,
            );
            match r {
                FrameStart::Skipped(reason) => g == Some(reason) && after == o,
                FrameStart::Idle(d) => g is None && d@.skip && drafts(d@, o, *f) && after
                    == walked_output(o, *f),
                FrameStart::Compose(d) => g is None && !d@.skip && drafts(d@, o, *f) && after
                    == with_frame_damage(walked_output(o, *f), d@, f.shared),
            }
        }),
        match r {
            FrameStart::Skipped(_) => true,
            FrameStart::Idle(d) => d.built.scene.bg_color == black(),
            FrameStart::Compose(d) => d.built.scene.bg_color == black(),
        },
        final(state).damage_audit == old(state).damage_audit,
{
    if let Some(reason) = state.tick_gate(
        f.now,
        f.structure_dirty,
        f.pending_presentation,
        f.audit_armed,
    ) {
        return FrameStart::Skipped(reason);
    }
    let b = build_scene_with(
        f.core,
        f.store,
        f.windows,
        f.layout,
        f.cursor,
        f.cow_host_xid,
        f.hw_strategy_enabled,
        f.hw_fits,
        Visibility::On,
        f.elsewhere,
    );
    let draft = state.draft_frame(b, f.plane_visible);
    if draft.skip {
        return FrameStart::Idle(draft);
    }
    if f.shared {
        state.attribute_damage(&draft.output_damage);
    }
    FrameStart::Compose(draft)
}

/// The stage of a frame that was rendered: a copied one waits for its job, a
/// shared one for its flip.
pub fn stage_after_render(copied_job: Option<u64>) -> (r: InFlightStage)
    ensures
        r == (match copied_job {
            Some(job_id) => InFlightStage::WaitingForRenderCompletion { job_id },
            None => InFlightStage::KmsFlipPending,
        }),
{
    match copied_job {
        Some(job_id) => InFlightStage::WaitingForRenderCompletion { job_id },
        None => InFlightStage::KmsFlipPending,
    }
}

/// The scene that the audit's reference draws: the same without visibility, and
/// without a software cursor where the frame has none. `None` while the audit is
/// off.
pub fn audit_reference_scene(
    enabled: bool,
    production_has_sw_cursor: bool,
    f: &FrameInput<'_>,
) -> (r: Option<SceneBuild>)
    requires
        layout_ok(f.layout),
    ensures
        r is Some <==> enabled,
        r matches Some(b) ==> ({
            let reference = built(
                input_of(f.core, f.store, f.windows, f.layout, Visibility::Off, Set::empty()),
                f.core.window_id,
                f.core.top_level_order@,
                f.cow_host_xid,
                CursorInput {
                    entry: f.cursor,
                    x: f.core.cursor_x,
                    y: f.core.cursor_y,
                    hw: f.hw_strategy_enabled && f.hw_fits,
                },
            );
            b@ == (if production_has_sw_cursor {
                reference
            } else {
                without_software_cursor(reference)
            }) && b.scene.bg_color == black()
        }),
{
    if !enabled {
        return None;
    }
    let mut reference = build_scene(
        f.core,
        f.store,
        f.windows,
        f.layout,
        f.cursor,
        f.cow_host_xid,
        f.hw_strategy_enabled,
        f.hw_fits,
        Visibility::Off,
    );
    if !production_has_sw_cursor {
        reference.omit_software_cursor_for_hide();
    }
    Some(reference)
}

} // verus!
