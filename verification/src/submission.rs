//! Submitting a recorded frame: the steps that lead a buffer to the screen, and
//! who owns it and its fences when one of them fails.

use vstd::prelude::*;

use crate::audit::ComposeSubmit;
use crate::present::{BoPhase, CopiedRenderSubmitError, PresentError};

verus! {

/// What a submission waits for.
#[derive(Clone, Copy, Debug, PartialEq, Eq, Structural)]
pub enum SubmitStage {
    /// The import of the completion that the renderer has to wait for.
    Acquire,
    /// The recording and the queue submission.
    Record,
    /// The fence of the rendering.
    Export,
    /// The flip.
    Flip,
    /// Nothing more.
    Over,
}

/// A submission under way.
#[derive(Clone, Copy, Debug, PartialEq, Eq, Structural)]
pub struct Submission {
    /// Whether the buffer itself is scanned out.
    pub shared: bool,
    pub stage: SubmitStage,
    pub phase: BoPhase,
    /// Whether the queue took the work, so that its fence will signal.
    pub gpu_submitted: bool,
    pub submitted: ComposeSubmit,
    /// The fence that the flip waits for; -1 for none.
    pub in_fence: i32,
}

/// What is to be done next.
#[derive(Debug)]
pub enum SubmitAction {
    Acquire,
    Record,
    Export,
    Flip { in_fence: i32 },
    /// The flip is on its way.
    Shown { out_fence: i32 },
    /// The rendering is on its way; its completion, unless it already signalled.
    Rendered { completion: Option<i32> },
    Failed(CopiedRenderSubmitError),
}

/// How a step ended.
#[derive(Debug)]
pub enum SubmitEvent {
    Acquired,
    AcquireFailed(String),
    Recorded(ComposeSubmit),
    RecordFailed(PresentError),
    Exported(Option<i32>),
    ExportFailed(i32),
    Flipped { out_fence: i32 },
    FlipRefused { message: String, out_fence: i32 },
}

/// The stage that an event ends.
pub open spec fn stage_of(e: SubmitEvent) -> SubmitStage {
    match e {
        SubmitEvent::Acquired => SubmitStage::Acquire,
        SubmitEvent::AcquireFailed(_) => SubmitStage::Acquire,
        SubmitEvent::Recorded(_) => SubmitStage::Record,
        SubmitEvent::RecordFailed(_) => SubmitStage::Record,
        SubmitEvent::Exported(_) => SubmitStage::Export,
        SubmitEvent::ExportFailed(_) => SubmitStage::Export,
        SubmitEvent::Flipped { .. } => SubmitStage::Flip,
        SubmitEvent::FlipRefused { .. } => SubmitStage::Flip,
    }
}

/// A submission of a buffer in some phase.
pub open spec fn started(shared: bool, phase: BoPhase, stage: SubmitStage) -> Submission {
    Submission {
        shared,
        stage,
        phase,
        gpu_submitted: false,
        submitted: ComposeSubmit { descriptor_count: 0 },
        in_fence: (-1) as i32,
    }
}

/// A failure that is the frame's own.
pub open spec fn frame_error(e: PresentError) -> SubmitAction {
    SubmitAction::Failed(CopiedRenderSubmitError::Present(e))
}

/// How a submission begins. Only a free buffer is recorded into, and one that is
/// scanned out needs a framebuffer.
pub open spec fn begun_submission(shared: bool, phase: BoPhase, has_framebuffer: bool) -> (
    Submission,
    SubmitAction,
) {
    if phase != BoPhase::Free {
        (started(shared, phase, SubmitStage::Over), frame_error(PresentError::WrongPhase(phase)))
    } else if shared && !has_framebuffer {
        (started(shared, phase, SubmitStage::Over), frame_error(PresentError::NoFb))
    } else if shared {
        (started(shared, BoPhase::Recording, SubmitStage::Record), SubmitAction::Record)
    } else {
        (started(shared, phase, SubmitStage::Acquire), SubmitAction::Acquire)
    }
}

/// A submission that is over.
pub open spec fn over(s: Submission) -> Submission {
    Submission { stage: SubmitStage::Over, ..s }
}

/// A list of fences with one more, where it is one.
pub open spec fn with_fence(s: Seq<i32>, fence: i32) -> Seq<i32> {
    if fence >= 0 { s.push(fence) } else { s }
}

/// What follows an event: the submission, the next action, and the fences to
/// close.
pub open spec fn continued_submission(s: Submission, e: SubmitEvent) -> (
    Submission,
    SubmitAction,
    Seq<i32>,
) {
    match e {
        SubmitEvent::Acquired => (
            Submission { stage: SubmitStage::Record, phase: BoPhase::Recording, ..s },
            SubmitAction::Record,
            Seq::empty(),
        ),
        SubmitEvent::AcquireFailed(message) => (
            over(s),
            SubmitAction::Failed(CopiedRenderSubmitError::RendererAcquire(message)),
            Seq::empty(),
        ),
        SubmitEvent::Recorded(c) => (
            Submission { stage: SubmitStage::Export, gpu_submitted: true, submitted: c, ..s },
            SubmitAction::Export,
            Seq::empty(),
        ),
        SubmitEvent::RecordFailed(error) => (over(s), frame_error(error), Seq::empty()),
        SubmitEvent::Exported(fence) => if s.shared {
            let f = match fence {
                Some(f) => f,
                None => (-1) as i32,
            };
            (
                Submission {
                    stage: SubmitStage::Flip,
                    phase: BoPhase::Submitted,
                    in_fence: f,
                    ..s
                },
                SubmitAction::Flip { in_fence: f },
                Seq::empty(),
            )
        } else {
            (over(s), SubmitAction::Rendered { completion: fence }, Seq::empty())
        },
        SubmitEvent::ExportFailed(code) => (
            over(s),
            frame_error(PresentError::Vk(code)),
            Seq::empty(),
        ),
        SubmitEvent::Flipped { out_fence } => (
            Submission { phase: BoPhase::Pending, ..over(s) },
            SubmitAction::Shown { out_fence },
            with_fence(Seq::empty(), s.in_fence),
        ),
        SubmitEvent::FlipRefused { message, out_fence } => (
            Submission { phase: BoPhase::Recording, ..over(s) },
            frame_error(PresentError::Io(message)),
            with_fence(with_fence(Seq::empty(), s.in_fence), out_fence),
        ),
    }
}

fn close_fence(list: &mut Vec<i32>, fence: i32)
    ensures
        final(list)@ == with_fence(old(list)@, fence),
{
    if fence >= 0 {
        list.push(fence);
    }
}

/// Begins the submission of a frame into a buffer.
pub fn begin_submission(shared: bool, phase: BoPhase, has_framebuffer: bool) -> (r: (
    Submission,
    SubmitAction,
))
    ensures
        r == begun_submission(shared, phase, has_framebuffer),
{
    let mut s = Submission {
        shared,
        stage: SubmitStage::Over,
        phase,
        gpu_submitted: false,
        submitted: ComposeSubmit { descriptor_count: 0 },
        in_fence: -1,
    };
    if phase != BoPhase::Free {
        return (
            s,
            SubmitAction::Failed(
                CopiedRenderSubmitError::Present(PresentError::WrongPhase(phase)),
            ),
        );
    }
    if shared {
        if !has_framebuffer {
            return (
                s,
                SubmitAction::Failed(CopiedRenderSubmitError::Present(PresentError::NoFb)),
            );
        }
        s.stage = SubmitStage::Record;
        s.phase = BoPhase::Recording;
        (s, SubmitAction::Record)
    } else {
        s.stage = SubmitStage::Acquire;
        (s, SubmitAction::Acquire)
    }
}

impl Submission {
    /// Whether an event ends the step that the submission waits for.
    pub fn awaits(&self, event: &SubmitEvent) -> (r: bool)
        ensures
            r == (stage_of(*event) == self.stage),
    {
        let ended = match event {
            SubmitEvent::Acquired => SubmitStage::Acquire,
            SubmitEvent::AcquireFailed(_) => SubmitStage::Acquire,
            SubmitEvent::Recorded(_) => SubmitStage::Record,
            SubmitEvent::RecordFailed(_) => SubmitStage::Record,
            SubmitEvent::Exported(_) => SubmitStage::Export,
            SubmitEvent::ExportFailed(_) => SubmitStage::Export,
            SubmitEvent::Flipped { .. } => SubmitStage::Flip,
            SubmitEvent::FlipRefused { .. } => SubmitStage::Flip,
        };
        ended == self.stage
    }

    /// Continues once a step ended; returns the next action and the fences to
    /// close.
    pub fn continue_submission(&mut self, event: SubmitEvent) -> (r: (SubmitAction, Vec<i32>))
        requires
            stage_of(event) == old(self).stage,
        ensures
            (*final(self), r.0, r.1@) == continued_submission(*old(self), event),
    {
        let mut close: Vec<i32> = Vec::new();
        let action = match event {
            SubmitEvent::Acquired => {
                self.stage = SubmitStage::Record;
                self.phase = BoPhase::Recording;
                SubmitAction::Record
            },
            SubmitEvent::AcquireFailed(message) => {
                self.stage = SubmitStage::Over;
                SubmitAction::Failed(CopiedRenderSubmitError::RendererAcquire(message))
            },
            SubmitEvent::Recorded(c) => {
                self.stage = SubmitStage::Export;
                self.gpu_submitted = true;
                self.submitted = c;
                SubmitAction::Export
            },
            SubmitEvent::RecordFailed(error) => {
                self.stage = SubmitStage::Over;
                SubmitAction::Failed(CopiedRenderSubmitError::Present(error))
            },
            SubmitEvent::Exported(fence) => {
                if self.shared {
                    let f: i32 = match fence {
                        Some(f) => f,
                        None => -1,
                    };
                    self.stage = SubmitStage::Flip;
                    self.phase = BoPhase::Submitted;
                    self.in_fence = f;
                    SubmitAction::Flip { in_fence: f }
                } else {
                    self.stage = SubmitStage::Over;
                    SubmitAction::Rendered { completion: fence }
                }
            },
            SubmitEvent::ExportFailed(code) => {
                self.stage = SubmitStage::Over;
                SubmitAction::Failed(CopiedRenderSubmitError::Present(PresentError::Vk(code)))
            },
            SubmitEvent::Flipped { out_fence } => {
                self.stage = SubmitStage::Over;
                self.phase = BoPhase::Pending;
                close_fence(&mut close, self.in_fence);
                SubmitAction::Shown { out_fence }
            },
            SubmitEvent::FlipRefused { message, out_fence } => {
                self.stage = SubmitStage::Over;
                self.phase = BoPhase::Recording;
                close_fence(&mut close, self.in_fence);
                close_fence(&mut close, out_fence);
                SubmitAction::Failed(CopiedRenderSubmitError::Present(PresentError::Io(message)))
            },
        };
        (action, close)
    }
}

/// No fence is lost and none is closed twice: once a flip ended, the one it
/// waited for is closed, and the one it gave is kept where it is shown and closed
/// where it was refused.
pub proof fn flips_lose_no_fence(s: Submission, e: SubmitEvent)
    requires
        s.stage == SubmitStage::Flip,
        stage_of(e) == SubmitStage::Flip,
    ensures
        ({
            let (after, action, closed) = continued_submission(s, e);
            &&& after.stage == SubmitStage::Over
            &&& s.in_fence >= 0 ==> closed.len() > 0 && closed[0] == s.in_fence
            &&& (e matches SubmitEvent::Flipped { out_fence } ==> action
                == (SubmitAction::Shown { out_fence }) && closed == with_fence(
                Seq::empty(),
                s.in_fence,
            ))
            &&& (e matches SubmitEvent::FlipRefused { out_fence, .. } ==> action is Failed
                && closed == with_fence(with_fence(Seq::empty(), s.in_fence), out_fence))
        }),
{
}

/// The queue's word decides who owns the buffer: work counts as taken exactly
/// from its recording on, whatever fails after it.
pub proof fn work_once_taken_stays_taken(s: Submission, e: SubmitEvent)
    requires
        stage_of(e) == s.stage,
    ensures
        continued_submission(s, e).0.gpu_submitted == (s.gpu_submitted || e is Recorded),
{
}

/// Only an import that failed stops the renderer: everything else that fails is
/// the frame's own failure.
pub proof fn only_a_failed_import_stops_the_renderer(s: Submission, e: SubmitEvent)
    requires
        stage_of(e) == s.stage,
    ensures
        continued_submission(s, e).1 matches SubmitAction::Failed(error) ==> (error
            is RendererAcquire <==> s.stage == SubmitStage::Acquire),
{
}

} // verus!
