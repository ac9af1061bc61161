//! The per-output cursor: which plane shows it, and how it changes planes
//! without ever showing twice or not at all.
//!
//! A change of plane is queued behind a frame and applied when that frame
//! retires. Leaving the hardware plane takes two frames: a frame without a
//! cursor hides the plane, and only the next one draws the sprite.

use vstd::prelude::*;

use crate::geometry::Rect2D;
use crate::region_set::{list_add, RegionSet};

verus! {

/// The cursor strategy for one frame on one output.
#[derive(Clone, Copy, Debug, PartialEq, Eq)]
pub enum CursorAssignment {
    /// The hardware plane shows the sprite.
    Hw { x: i32, y: i32, record_version: u64, hot_x: u16, hot_y: u16 },
    /// The sprite is a draw of the frame, at this output-local position.
    Sw { pos: (i32, i32) },
    /// The cursor is not on this output.
    Hidden,
}

/// A change of the cursor plane, applied when its frame retires.
#[derive(Clone, Copy, Debug, PartialEq, Eq, Structural)]
pub enum CursorTransition {
    ShowOnRetire { upload_version: u64, hot_x: u16, hot_y: u16, x: i32, y: i32 },
    HideOnRetire { reveal_sw_after: bool },
}

/// What shows the cursor on an output, as of its last retired frame.
#[derive(Clone, Copy, Debug, PartialEq, Eq)]
pub enum OutputCursorMode {
    /// The frame draws it; `prev` is where.
    Sw { prev: Option<(i32, i32)> },
    /// Hidden on the way from the plane to the frame.
    SwPending,
    /// The plane shows it.
    Hw,
    /// Nothing shows it.
    Hidden,
}

/// Which way a pointer motion takes.
#[derive(Clone, Copy, Debug, PartialEq, Eq, Structural)]
pub enum CursorPlaneMode {
    /// Every output with a cursor shows it on the plane.
    Hw,
    /// Some outputs show it on the plane, others in the frame.
    Mixed,
    /// No output shows it on the plane.
    Sw,
}

/// Whether an output with this mode needs frames to move its cursor.
pub open spec fn is_sw_like(m: OutputCursorMode) -> bool {
    m is Sw || m is SwPending
}

/// Which way a pointer motion takes on outputs with these modes. A hidden output
/// has no say.
pub open spec fn plane_mode(modes: Seq<OutputCursorMode>) -> CursorPlaneMode {
    let any_hw = exists|i: int| 0 <= i < modes.len() && #[trigger] modes[i] is Hw;
    let any_sw = exists|i: int| 0 <= i < modes.len() && is_sw_like(#[trigger] modes[i]);
    if !any_hw {
        CursorPlaneMode::Sw
    } else if any_sw {
        CursorPlaneMode::Mixed
    } else {
        CursorPlaneMode::Hw
    }
}

/// Classifies the outputs' modes.
pub fn classify_cursor_mode_from_per_output(modes: &[OutputCursorMode]) -> (r: CursorPlaneMode)
    ensures
        r == plane_mode(modes@),
{
    let mut any_hw = false;
    let mut any_sw_like = false;
    let mut i: usize = 0;
    while i < modes.len()
        invariant
            i <= modes@.len(),
            any_hw == exists|k: int| 0 <= k < i && #[trigger] modes@[k] is Hw,
            any_sw_like == exists|k: int| 0 <= k < i && is_sw_like(#[trigger] modes@[k]),
        decreases modes.len() - i,
    {
        let ghost (hw0, sw0) = (any_hw, any_sw_like);
        match modes[i] {
            OutputCursorMode::Hw => {
                any_hw = true;
            },
            OutputCursorMode::Sw { .. } => {
                any_sw_like = true;
            },
            OutputCursorMode::SwPending => {
                any_sw_like = true;
            },
            OutputCursorMode::Hidden => {},
        }
        proof {
            assert(modes@[i as int] is Hw ==> any_hw);
            if hw0 {
                let k = choose|k: int| 0 <= k < i && #[trigger] modes@[k] is Hw;
                assert(modes@[k] is Hw);
            }
            if sw0 {
                let k = choose|k: int| 0 <= k < i && is_sw_like(#[trigger] modes@[k]);
                assert(is_sw_like(modes@[k]));
            }
        }
        i = i + 1;
    }
    if !any_hw {
        CursorPlaneMode::Sw
    } else if any_sw_like {
        CursorPlaneMode::Mixed
    } else {
        CursorPlaneMode::Hw
    }
}

/// Whether an output shows the sprite on its plane, or a pending frame will.
pub open spec fn shows_sprite(
    mode: OutputCursorMode,
    pending: Seq<Option<CursorTransition>>,
) -> bool {
    mode is Hw || exists|i: int|
        0 <= i < pending.len() && (#[trigger] pending[i]) is Some && pending[i]->0 is ShowOnRetire
}

/// Whether a new sprite must be shown again on an output.
pub fn cursor_output_needs_sprite_retry(
    mode: OutputCursorMode,
    pending: &[Option<CursorTransition>],
) -> (r: bool)
    ensures
        r == shows_sprite(mode, pending@),
{
    if let OutputCursorMode::Hw = mode {
        return true;
    }
    let mut i: usize = 0;
    while i < pending.len()
        invariant
            i <= pending@.len(),
            forall|k: int|
                0 <= k < i ==> !((#[trigger] pending@[k]) is Some && pending@[k]->0 is ShowOnRetire),
        decreases pending.len() - i,
    {
        if let Some(CursorTransition::ShowOnRetire { .. }) = pending[i] {
            assert(pending@[i as int] is Some && pending@[i as int]->0 is ShowOnRetire);
            return true;
        }
        i = i + 1;
    }
    false
}

/// Whether a frame must go without a cursor because the plane still shows it.
pub open spec fn needs_cursorless_frame(prev: OutputCursorMode, assignment: CursorAssignment) -> bool {
    prev is Hw && !(assignment is Hw)
}

pub fn cursorless_hide_frame_required(
    prev: OutputCursorMode,
    assignment: CursorAssignment,
) -> (r: bool)
    ensures
        r == needs_cursorless_frame(prev, assignment),
{
    matches!(prev, OutputCursorMode::Hw) && matches!(
        assignment,
        CursorAssignment::Sw { .. } | CursorAssignment::Hidden
    )
}

/// The mode a transition starts from: the scene's, corrected by what the plane
/// actually shows.
pub open spec fn effective_prev(
    scene_prev: OutputCursorMode,
    platform_visible: bool,
    assignment: CursorAssignment,
) -> OutputCursorMode {
    if !platform_visible && scene_prev is Hw {
        OutputCursorMode::Hidden
    } else if platform_visible && !(scene_prev is Hw) && !(assignment is Hw) {
        OutputCursorMode::Hw
    } else {
        scene_prev
    }
}

pub fn effective_cursor_prev_mode(
    scene_prev: OutputCursorMode,
    platform_visible: bool,
    assignment: CursorAssignment,
) -> (r: OutputCursorMode)
    ensures
        r == effective_prev(scene_prev, platform_visible, assignment),
{
    let hw = matches!(scene_prev, OutputCursorMode::Hw);
    if !platform_visible && hw {
        OutputCursorMode::Hidden
    } else if platform_visible && !hw && matches!(
        assignment,
        CursorAssignment::Sw { .. } | CursorAssignment::Hidden
    ) {
        OutputCursorMode::Hw
    } else {
        scene_prev
    }
}

/// What a frame queues behind its retirement: the plane change, what becomes of
/// the remembered sprite position (`None`: nothing), and the mode then.
pub open spec fn transition_of(prev: OutputCursorMode, assignment: CursorAssignment) -> (
    Option<CursorTransition>,
    Option<Option<(i32, i32)>>,
    OutputCursorMode,
) {
    match assignment {
        CursorAssignment::Hw { x, y, record_version, hot_x, hot_y } => if prev is Hw {
            (None, None, OutputCursorMode::Hw)
        } else {
            (
                Some(
                    CursorTransition::ShowOnRetire {
                        upload_version: record_version,
                        hot_x,
                        hot_y,
                        x,
                        y,
                    },
                ),
                Some(None),
                OutputCursorMode::Hw,
            )
        },
        CursorAssignment::Sw { pos } => if prev is Hw {
            (
                Some(CursorTransition::HideOnRetire { reveal_sw_after: true }),
                Some(None),
                OutputCursorMode::SwPending,
            )
        } else {
            (None, Some(Some(pos)), OutputCursorMode::Sw { prev: Some(pos) })
        },
        CursorAssignment::Hidden => (
            if prev is Hw {
                Some(CursorTransition::HideOnRetire { reveal_sw_after: false })
            } else {
                None
            },
            Some(None),
            OutputCursorMode::Hidden,
        ),
    }
}

pub fn derive_cursor_transition(prev: OutputCursorMode, assignment: CursorAssignment) -> (r: (
    Option<CursorTransition>,
    Option<Option<(i32, i32)>>,
    OutputCursorMode,
))
    ensures
        r == transition_of(prev, assignment),
{
    let hw = matches!(prev, OutputCursorMode::Hw);
    match assignment {
        CursorAssignment::Hw { x, y, record_version, hot_x, hot_y } => {
            if hw {
                (None, None, OutputCursorMode::Hw)
            } else {
                (
                    Some(
                        CursorTransition::ShowOnRetire {
                            upload_version: record_version,
                            hot_x,
                            hot_y,
                            x,
                            y,
                        },
                    ),
                    Some(None),
                    OutputCursorMode::Hw,
                )
            }
        },
        CursorAssignment::Sw { pos } => {
            if hw {
                (
                    Some(CursorTransition::HideOnRetire { reveal_sw_after: true }),
                    Some(None),
                    OutputCursorMode::SwPending,
                )
            } else {
                (None, Some(Some(pos)), OutputCursorMode::Sw { prev: Some(pos) })
            }
        },
        CursorAssignment::Hidden => {
            if hw {
                (
                    Some(CursorTransition::HideOnRetire { reveal_sw_after: false }),
                    Some(None),
                    OutputCursorMode::Hidden,
                )
            } else {
                (None, Some(None), OutputCursorMode::Hidden)
            }
        },
    }
}

/// What became of a plane change when its frame retired.
#[derive(Clone, Copy, Debug, PartialEq, Eq, Structural)]
pub enum CursorTransitionResult {
    Applied,
    /// The show did not stay bound: nothing shows the cursor.
    Hidden,
    /// The hide on the way to the frame worked: another frame must draw it.
    HiddenNeedsRepaint,
    /// The plane still shows the cursor.
    Visible,
    /// The plane still shows the old sprite: the show must be tried again.
    VisibleNeedsShowRetry,
}

/// What a retirement makes of the output's cursor state.
#[derive(Clone, Copy, Debug, PartialEq, Eq)]
pub struct CursorRetireResolution {
    pub actual_mode: OutputCursorMode,
    pub commit_desired_metadata: bool,
    pub clear_presented_metadata: bool,
    pub force_repaint: bool,
}

/// The resolution of a plane change.
pub open spec fn resolution_of(
    result: CursorTransitionResult,
    desired: OutputCursorMode,
) -> CursorRetireResolution {
    CursorRetireResolution {
        actual_mode: match result {
            CursorTransitionResult::Applied => desired,
            CursorTransitionResult::HiddenNeedsRepaint => desired,
            CursorTransitionResult::Hidden => OutputCursorMode::Hidden,
            CursorTransitionResult::Visible => OutputCursorMode::Hw,
            CursorTransitionResult::VisibleNeedsShowRetry => OutputCursorMode::Hw,
        },
        commit_desired_metadata: result is Applied || result is HiddenNeedsRepaint,
        clear_presented_metadata: result is Hidden,
        force_repaint: !(result is Applied),
    }
}

pub fn resolve_retired_cursor_state(
    result: CursorTransitionResult,
    desired_mode: OutputCursorMode,
) -> (r: CursorRetireResolution)
    ensures
        r == resolution_of(result, desired_mode),
{
    match result {
        CursorTransitionResult::Applied => CursorRetireResolution {
            actual_mode: desired_mode,
            commit_desired_metadata: true,
            clear_presented_metadata: false,
            force_repaint: false,
        },
        CursorTransitionResult::Hidden => CursorRetireResolution {
            actual_mode: OutputCursorMode::Hidden,
            commit_desired_metadata: false,
            clear_presented_metadata: true,
            force_repaint: true,
        },
        CursorTransitionResult::HiddenNeedsRepaint => CursorRetireResolution {
            actual_mode: desired_mode,
            commit_desired_metadata: true,
            clear_presented_metadata: false,
            force_repaint: true,
        },
        CursorTransitionResult::Visible => CursorRetireResolution {
            actual_mode: OutputCursorMode::Hw,
            commit_desired_metadata: false,
            clear_presented_metadata: false,
            force_repaint: true,
        },
        CursorTransitionResult::VisibleNeedsShowRetry => CursorRetireResolution {
            actual_mode: OutputCursorMode::Hw,
            commit_desired_metadata: false,
            clear_presented_metadata: false,
            force_repaint: true,
        },
    }
}

/// The sprite version a show is owed for, after a retirement.
pub open spec fn retry_version(
    current: Option<u64>,
    transition: Option<CursorTransition>,
    result: CursorTransitionResult,
    desired: OutputCursorMode,
) -> Option<u64> {
    match transition {
        Some(CursorTransition::ShowOnRetire { upload_version, .. }) => match result {
            CursorTransitionResult::VisibleNeedsShowRetry => match current {
                Some(pending) => if pending >= upload_version {
                    Some(pending)
                } else {
                    Some(upload_version)
                },
                None => Some(upload_version),
            },
            CursorTransitionResult::Applied => if current == Some(upload_version) {
                None
            } else {
                current
            },
            CursorTransitionResult::Hidden => if current == Some(upload_version) {
                None
            } else {
                current
            },
            _ => current,
        },
        _ => if result is Applied && !(desired is Hw) { None } else { current },
    }
}

pub fn update_force_show_retry_version(
    current: Option<u64>,
    transition: Option<CursorTransition>,
    result: CursorTransitionResult,
    desired_mode: OutputCursorMode,
) -> (r: Option<u64>)
    ensures
        r == retry_version(current, transition, result, desired_mode),
{
    match transition {
        Some(CursorTransition::ShowOnRetire { upload_version, .. }) => {
            match result {
                CursorTransitionResult::VisibleNeedsShowRetry => {
                    match current {
                        Some(pending) => {
                            if pending >= upload_version {
                                Some(pending)
                            } else {
                                Some(upload_version)
                            }
                        },
                        None => Some(upload_version),
                    }
                },
                CursorTransitionResult::Applied | CursorTransitionResult::Hidden => {
                    if current == Some(upload_version) {
                        None
                    } else {
                        current
                    }
                },
                _ => current,
            }
        },
        _ => {
            if matches!(result, CursorTransitionResult::Applied) && !matches!(
                desired_mode,
                OutputCursorMode::Hw
            ) {
                None
            } else {
                current
            }
        },
    }
}

/// Forgets an owed show when the planes are reset.
pub fn reset_cursor_retry_for_lifecycle(retry: &mut Option<u64>)
    ensures
        *final(retry) == None::<u64>,
{
    *retry = None;
}

/// Nothing shows the cursor once the planes are reset.
pub fn reset_cursor_mode_for_lifecycle(mode: &mut OutputCursorMode)
    ensures
        *final(mode) == OutputCursorMode::Hidden,
{
    *mode = OutputCursorMode::Hidden;
}

/// The outcome of a show whose sprite could not be uploaded. A binding that was
/// never made is not undone; a live one is hidden.
pub fn resolve_failed_cursor_upload<E, F: FnOnce() -> Result<(), E>>(
    prior_visible: bool,
    hide_live_binding: F,
) -> (r: CursorTransitionResult)
    requires
        prior_visible ==> hide_live_binding.requires(()),
    ensures
        !prior_visible ==> r == CursorTransitionResult::Hidden,
        prior_visible ==> exists|h: Result<(), E>| #[trigger]
            hide_live_binding.ensures((), h) && r == after_rollback_hide(h is Ok),
{
    if !prior_visible {
        return CursorTransitionResult::Hidden;
    }
    match hide_live_binding() {
        Ok(()) => CursorTransitionResult::Hidden,
        Err(_) => CursorTransitionResult::VisibleNeedsShowRetry,
    }
}

/// The outcome of hiding the plane after a failed upload.
pub open spec fn after_rollback_hide(ok: bool) -> CursorTransitionResult {
    if ok { CursorTransitionResult::Hidden } else { CursorTransitionResult::VisibleNeedsShowRetry }
}

/// The outcome of a hide at retirement. A plane that is already unbound is not
/// hidden again.
pub fn resolve_cursor_hide_on_retire<E, F: FnOnce() -> Result<(), E>>(
    reveal_sw_after: bool,
    currently_visible: bool,
    hide_live_binding: F,
) -> (r: CursorTransitionResult)
    requires
        currently_visible ==> hide_live_binding.requires(()),
    ensures
        !currently_visible ==> r == after_hide(reveal_sw_after, true),
        currently_visible ==> exists|h: Result<(), E>| #[trigger]
            hide_live_binding.ensures((), h) && r == after_hide(reveal_sw_after, h is Ok),
{
    if !currently_visible {
        return if reveal_sw_after {
            CursorTransitionResult::HiddenNeedsRepaint
        } else {
            CursorTransitionResult::Applied
        };
    }
    match hide_live_binding() {
        Ok(()) => {
            if reveal_sw_after {
                CursorTransitionResult::HiddenNeedsRepaint
            } else {
                CursorTransitionResult::Applied
            }
        },
        Err(_) => CursorTransitionResult::Visible,
    }
}

/// The outcome of a hide at retirement.
pub open spec fn after_hide(reveal_sw_after: bool, ok: bool) -> CursorTransitionResult {
    if !ok {
        CursorTransitionResult::Visible
    } else if reveal_sw_after {
        CursorTransitionResult::HiddenNeedsRepaint
    } else {
        CursorTransitionResult::Applied
    }
}

// ── applying a transition at retirement ─────────────────────────────
/// The sprite at hand when a transition is applied.
#[derive(Clone, Copy, Debug, PartialEq, Eq, Structural)]
pub struct SpriteOnHand {
    pub record_version: u64,
    pub width: u32,
    pub height: u32,
    /// Whether its pixels are at hand.
    pub has_bytes: bool,
}

/// What the plane must do next for a transition.
#[derive(Clone, Copy, Debug, PartialEq, Eq, Structural)]
pub enum CursorRetireStep {
    /// Nothing more: this is the outcome.
    Done(CursorTransitionResult),
    /// Upload this version of the sprite.
    Upload { version: u64, width: u32, height: u32 },
    /// Bind the plane and move it.
    Show { hot_x: u16, hot_y: u16, x: i32, y: i32 },
    /// Unbind the plane because its sprite could not be replaced.
    RollbackHide,
    /// Unbind the plane.
    Hide,
}

/// How a plane operation ended.
#[derive(Clone, Copy, Debug, PartialEq, Eq, Structural)]
pub enum CursorPlaneEvent {
    Succeeded,
    /// It failed and the plane shows nothing.
    FailedUnbound,
    /// It failed and the plane still shows something.
    FailedVisible,
}

/// The step after an upload that did not happen.
pub open spec fn without_upload(visible: bool) -> CursorRetireStep {
    if visible {
        CursorRetireStep::RollbackHide
    } else {
        CursorRetireStep::Done(CursorTransitionResult::Hidden)
    }
}

/// The first step of a transition.
pub open spec fn first_step(
    transition: Option<CursorTransition>,
    visible: bool,
    uploaded: Option<u64>,
    sprite: Option<SpriteOnHand>,
) -> CursorRetireStep {
    match transition {
        None => CursorRetireStep::Done(CursorTransitionResult::Applied),
        Some(CursorTransition::ShowOnRetire { upload_version, hot_x, hot_y, x, y }) => if uploaded
            == Some(upload_version) {
            CursorRetireStep::Show { hot_x, hot_y, x, y }
        } else {
            match sprite {
                Some(s) => if s.record_version == upload_version && s.has_bytes {
                    CursorRetireStep::Upload {
                        version: upload_version,
                        width: s.width,
                        height: s.height,
                    }
                } else {
                    without_upload(visible)
                },
                None => without_upload(visible),
            }
        },
        Some(CursorTransition::HideOnRetire { reveal_sw_after }) => if visible {
            CursorRetireStep::Hide
        } else {
            CursorRetireStep::Done(after_hide(reveal_sw_after, true))
        },
    }
}

/// The step after `step` ended with `event`.
pub open spec fn next_step(
    transition: Option<CursorTransition>,
    visible: bool,
    step: CursorRetireStep,
    event: CursorPlaneEvent,
) -> CursorRetireStep {
    match step {
        CursorRetireStep::Done(r) => CursorRetireStep::Done(r),
        CursorRetireStep::Upload { .. } => match transition {
            Some(CursorTransition::ShowOnRetire { hot_x, hot_y, x, y, .. }) => if event is Succeeded {
                CursorRetireStep::Show { hot_x, hot_y, x, y }
            } else {
                without_upload(visible)
            },
            _ => without_upload(visible),
        },
        CursorRetireStep::Show { .. } => CursorRetireStep::Done(
            match event {
                CursorPlaneEvent::Succeeded => CursorTransitionResult::Applied,
                CursorPlaneEvent::FailedUnbound => CursorTransitionResult::Hidden,
                CursorPlaneEvent::FailedVisible => CursorTransitionResult::VisibleNeedsShowRetry,
            },
        ),
        CursorRetireStep::RollbackHide => CursorRetireStep::Done(
            after_rollback_hide(event is Succeeded),
        ),
        CursorRetireStep::Hide => CursorRetireStep::Done(
            after_hide(
                transition == Some(CursorTransition::HideOnRetire { reveal_sw_after: true }),
                event is Succeeded,
            ),
        ),
    }
}

fn step_without_upload(visible: bool) -> (r: CursorRetireStep)
    ensures
        r == without_upload(visible),
{
    if visible {
        CursorRetireStep::RollbackHide
    } else {
        CursorRetireStep::Done(CursorTransitionResult::Hidden)
    }
}

/// Begins applying a retired frame's transition. `visible` is whether the plane
/// shows something now, `uploaded` the sprite version it holds.
pub fn begin_cursor_transition_on_retire(
    transition: Option<CursorTransition>,
    visible: bool,
    uploaded: Option<u64>,
    sprite: Option<SpriteOnHand>,
) -> (r: CursorRetireStep)
    ensures
        r == first_step(transition, visible, uploaded, sprite),
{
    match transition {
        None => CursorRetireStep::Done(CursorTransitionResult::Applied),
        Some(CursorTransition::ShowOnRetire { upload_version, hot_x, hot_y, x, y }) => {
            if uploaded == Some(upload_version) {
                CursorRetireStep::Show { hot_x, hot_y, x, y }
            } else {
                match sprite {
                    Some(s) => {
                        if s.record_version == upload_version && s.has_bytes {
                            CursorRetireStep::Upload {
                                version: upload_version,
                                width: s.width,
                                height: s.height,
                            }
                        } else {
                            step_without_upload(visible)
                        }
                    },
                    None => step_without_upload(visible),
                }
            }
        },
        Some(CursorTransition::HideOnRetire { reveal_sw_after }) => {
            if visible {
                CursorRetireStep::Hide
            } else if reveal_sw_after {
                CursorRetireStep::Done(CursorTransitionResult::HiddenNeedsRepaint)
            } else {
                CursorRetireStep::Done(CursorTransitionResult::Applied)
            }
        },
    }
}

/// Continues with the outcome of the last step.
pub fn continue_cursor_transition_on_retire(
    transition: Option<CursorTransition>,
    visible: bool,
    step: CursorRetireStep,
    event: CursorPlaneEvent,
) -> (r: CursorRetireStep)
    ensures
        r == next_step(transition, visible, step, event),
{
    let ok = matches!(event, CursorPlaneEvent::Succeeded);
    match step {
        CursorRetireStep::Done(r) => CursorRetireStep::Done(r),
        CursorRetireStep::Upload { .. } => {
            match transition {
                Some(CursorTransition::ShowOnRetire { hot_x, hot_y, x, y, .. }) => {
                    if ok {
                        CursorRetireStep::Show { hot_x, hot_y, x, y }
                    } else {
                        step_without_upload(visible)
                    }
                },
                _ => step_without_upload(visible),
            }
        },
        CursorRetireStep::Show { .. } => {
            CursorRetireStep::Done(
                match event {
                    CursorPlaneEvent::Succeeded => CursorTransitionResult::Applied,
                    CursorPlaneEvent::FailedUnbound => CursorTransitionResult::Hidden,
                    CursorPlaneEvent::FailedVisible => {
                        CursorTransitionResult::VisibleNeedsShowRetry
                    },
                },
            )
        },
        CursorRetireStep::RollbackHide => {
            CursorRetireStep::Done(
                if ok {
                    CursorTransitionResult::Hidden
                } else {
                    CursorTransitionResult::VisibleNeedsShowRetry
                },
            )
        },
        CursorRetireStep::Hide => {
            let reveal = match transition {
                Some(CursorTransition::HideOnRetire { reveal_sw_after }) => reveal_sw_after,
                _ => false,
            };
            CursorRetireStep::Done(
                if !ok {
                    CursorTransitionResult::Visible
                } else if reveal {
                    CursorTransitionResult::HiddenNeedsRepaint
                } else {
                    CursorTransitionResult::Applied
                },
            )
        },
    }
}

// ── cursor damage ───────────────────────────────────────────────────
/// The rects a frame repaints for its cursor: where it was and where it is, if
/// anything about it changed.
pub open spec fn cursor_damage_list(
    last_rect: Option<Rect2D>,
    last_version: Option<u64>,
    new_rect: Option<Rect2D>,
    new_version: Option<u64>,
    has_transition: bool,
) -> Seq<Rect2D> {
    if new_rect == last_rect && !has_transition && new_version == last_version {
        Seq::empty()
    } else {
        let a = match last_rect {
            Some(r) => list_add(Seq::empty(), r),
            None => Seq::empty(),
        };
        match new_rect {
            Some(r) => if new_rect == last_rect { a } else { list_add(a, r) },
            None => a,
        }
    }
}

pub fn cursor_damage_for_frame(
    last_present_cursor_rect: Option<Rect2D>,
    last_present_cursor_version: Option<u64>,
    new_cursor_rect: Option<Rect2D>,
    new_cursor_version: Option<u64>,
    cursor_transition: Option<CursorTransition>,
) -> (damage: RegionSet)
    ensures
        damage@ == cursor_damage_list(
            last_present_cursor_rect,
            last_present_cursor_version,
            new_cursor_rect,
            new_cursor_version,
            cursor_transition is Some,
        ),
{
    let mut damage = RegionSet::new();
    let same_rect = new_cursor_rect == last_present_cursor_rect;
    if same_rect && cursor_transition.is_none() && new_cursor_version
        == last_present_cursor_version {
        return damage;
    }
    if let Some(rect) = last_present_cursor_rect {
        damage.add(rect);
    }
    if let Some(rect) = new_cursor_rect {
        if !same_rect {
            damage.add(rect);
        }
    }
    damage
}

// ── what holds of the state machine ─────────────────────────────────
/// A plane that shows the cursor is never left for the frame in one step: the
/// frame that hides it goes without a cursor, and if the hide works the next
/// frame with the same wish draws the sprite without another plane change.
pub proof fn leaving_the_plane_takes_two_frames(x: i32, y: i32)
    ensures
        ({
            let want = CursorAssignment::Sw { pos: (x, y) };
            let (t, p, mode) = transition_of(OutputCursorMode::Hw, want);
            let retired = resolution_of(after_hide(true, true), mode);
            &&& needs_cursorless_frame(OutputCursorMode::Hw, want)
            &&& t == Some(CursorTransition::HideOnRetire { reveal_sw_after: true })
            &&& p == Some(None::<(i32, i32)>)
            &&& retired.actual_mode == OutputCursorMode::SwPending
            &&& retired.force_repaint
            &&& !needs_cursorless_frame(retired.actual_mode, want)
            &&& transition_of(retired.actual_mode, want) == (
                None::<CursorTransition>,
                Some(Some((x, y))),
                OutputCursorMode::Sw { prev: Some((x, y)) },
            )
        }),
{
}

/// A failed hide keeps the plane's claim: frames stay without a cursor and the
/// hide is tried again.
pub proof fn failed_hide_is_retried(want: CursorAssignment, reveal: bool, desired: OutputCursorMode)
    requires
        !(want is Hw),
    ensures
        ({
            let r = resolution_of(after_hide(reveal, false), desired);
            &&& r.actual_mode == OutputCursorMode::Hw
            &&& r.force_repaint
            &&& !r.commit_desired_metadata
            &&& needs_cursorless_frame(r.actual_mode, want)
            &&& transition_of(r.actual_mode, want).0 is Some
            &&& transition_of(r.actual_mode, want).0->0 is HideOnRetire
        }),
{
}

/// The plane is claimed after a show only if the show was applied, or if it
/// showed something before and still does.
pub proof fn show_is_claimed_only_when_bound(
    version: u64,
    hot: (u16, u16),
    at: (i32, i32),
    event: CursorPlaneEvent,
)
    ensures
        ({
            let t = Some(
                CursorTransition::ShowOnRetire {
                    upload_version: version,
                    hot_x: hot.0,
                    hot_y: hot.1,
                    x: at.0,
                    y: at.1,
                },
            );
            let s = next_step(
                t,
                true,
                CursorRetireStep::Show { hot_x: hot.0, hot_y: hot.1, x: at.0, y: at.1 },
                event,
            );
            &&& s is Done
            &&& (resolution_of(s->Done_0, OutputCursorMode::Hw).actual_mode is Hw <==> !(event
                is FailedUnbound))
            &&& (resolution_of(s->Done_0, OutputCursorMode::Hw).commit_desired_metadata <==> event
                is Succeeded)
        }),
{
}

/// Every transition ends after at most three plane operations.
pub proof fn transition_ends(
    transition: Option<CursorTransition>,
    visible: bool,
    uploaded: Option<u64>,
    sprite: Option<SpriteOnHand>,
    e1: CursorPlaneEvent,
    e2: CursorPlaneEvent,
    e3: CursorPlaneEvent,
)
    ensures
        ({
            let s0 = first_step(transition, visible, uploaded, sprite);
            let s1 = next_step(transition, visible, s0, e1);
            let s2 = next_step(transition, visible, s1, e2);
            next_step(transition, visible, s2, e3) is Done
        }),
{
}

/// An owed show of a newer sprite outlives the retirement of any older one.
pub proof fn newer_retry_survives(
    pending: u64,
    transition: Option<CursorTransition>,
    result: CursorTransitionResult,
)
    requires
        transition matches Some(CursorTransition::ShowOnRetire { upload_version, .. })
            ==> upload_version < pending,
    ensures
        retry_version(Some(pending), transition, result, OutputCursorMode::Hw) == Some(pending),
{
}

/// A cursor that stays where it is, as it is, on the plane it is on, repaints
/// nothing.
pub proof fn stationary_cursor_owes_nothing(rect: Option<Rect2D>, version: Option<u64>)
    ensures
        cursor_damage_list(rect, version, rect, version, false).len() == 0,
{
}

} // verus!
