//! Frames between submission and the screen.

use vstd::prelude::*;

verus! {

/// How far a submitted frame has come.
#[derive(Clone, Copy, Debug, PartialEq, Eq, Structural)]
pub enum InFlightStage {
    /// Rendered on the source device; the sink has nothing yet.
    WaitingForRenderCompletion { job_id: u64 },
    /// Committed; the flip is awaited.
    KmsFlipPending,
}

impl InFlightStage {
    pub fn matches_render_completion(self, job_id: u64) -> (r: bool)
        ensures
            r == (self == InFlightStage::WaitingForRenderCompletion { job_id }),
    {
        self == InFlightStage::WaitingForRenderCompletion { job_id }
    }

    pub fn is_kms_flip_pending(self) -> (r: bool)
        ensures
            r == (self == InFlightStage::KmsFlipPending),
    {
        self == InFlightStage::KmsFlipPending
    }
}

/// Whether a render completion is the one a frame waits for.
pub open spec fn completion_matches(
    stage: InFlightStage,
    pending_bo: usize,
    job_id: u64,
    bo: usize,
) -> bool {
    pending_bo == bo && stage == InFlightStage::WaitingForRenderCompletion { job_id }
}

/// Whether a flip is the one a frame waits for.
pub open spec fn retirement_matches(
    stage: InFlightStage,
    pending_bo: usize,
    presented_bo: usize,
) -> bool {
    pending_bo == presented_bo && stage == InFlightStage::KmsFlipPending
}

pub fn copied_render_completion_matches(
    stage: InFlightStage,
    pending_bo_idx: usize,
    completion_job_id: u64,
    completion_bo_idx: usize,
) -> (r: bool)
    ensures
        r == completion_matches(stage, pending_bo_idx, completion_job_id, completion_bo_idx),
{
    pending_bo_idx == completion_bo_idx && stage.matches_render_completion(completion_job_id)
}

pub fn kms_retirement_matches(
    stage: InFlightStage,
    pending_bo_idx: usize,
    presented_bo_idx: usize,
) -> (r: bool)
    ensures
        r == retirement_matches(stage, pending_bo_idx, presented_bo_idx),
{
    pending_bo_idx == presented_bo_idx && stage.is_kms_flip_pending()
}

/// No frame can be finished by both events at once: a copied frame cannot retire
/// before it was handed to the sink, and a flip never advances it to the sink.
pub proof fn one_event_finishes_a_stage(
    stage: InFlightStage,
    pending_bo: usize,
    job_id: u64,
    bo: usize,
    presented_bo: usize,
)
    ensures
        !(completion_matches(stage, pending_bo, job_id, bo) && retirement_matches(
            stage,
            pending_bo,
            presented_bo,
        )),
{
}

/// The code of a lost device.
///
/// `ash::vk::Result::ERROR_DEVICE_LOST` is the code -4, and `as_raw` hands a
/// result's code out.
#[verifier::external_body]
fn device_lost_code() -> (r: i32)
    ensures
        r == -4,
{
    ash::vk::Result::ERROR_DEVICE_LOST.as_raw()
}

/// Whether a Vulkan result code says that the device is gone.
pub open spec fn device_lost(code: i32) -> bool {
    code == -4
}

/// Where a scanout buffer is on its way to the screen.
#[derive(Clone, Copy, Debug, PartialEq, Eq, Structural)]
pub enum BoPhase {
    Free,
    Recording,
    Submitted,
    Pending,
}

/// Why a frame could not be presented.
#[derive(Debug)]
pub enum PresentError {
    /// The buffer was not free.
    WrongPhase(BoPhase),
    /// The buffer has no framebuffer.
    NoFb,
    /// A Vulkan call failed with this code.
    Vk(i32),
    /// A system call failed with this message.
    Io(String),
}

pub fn vk_result_is_device_lost(code: i32) -> (r: bool)
    ensures
        r == device_lost(code),
{
    code == device_lost_code()
}

pub fn present_error_is_device_lost(error: &PresentError) -> (r: bool)
    ensures
        r == (match *error {
            PresentError::Vk(code) => device_lost(code),
            _ => false,
        }),
{
    match error {
        PresentError::Vk(code) => vk_result_is_device_lost(*code),
        _ => false,
    }
}

/// Why a copied frame could not be rendered.
#[derive(Debug)]
pub enum CopiedRenderSubmitError {
    /// The completion that the renderer waits for could not be imported. It can
    /// be imported only once.
    RendererAcquire(String),
    Present(PresentError),
}

impl CopiedRenderSubmitError {
    pub fn requires_fail_stop(&self) -> (r: bool)
        ensures
            r == (*self is RendererAcquire),
    {
        matches!(self, CopiedRenderSubmitError::RendererAcquire(_))
    }

    pub fn into_present(self) -> (r: PresentError)
        ensures
            r == (match self {
                CopiedRenderSubmitError::RendererAcquire(message) => PresentError::Io(message),
                CopiedRenderSubmitError::Present(error) => error,
            }),
    {
        match self {
            CopiedRenderSubmitError::RendererAcquire(message) => PresentError::Io(message),
            CopiedRenderSubmitError::Present(error) => error,
        }
    }
}

} // verus!
