use ash::vk;
use scene_compositor::audit::{compose_submit_was_complete, ComposeSubmit};
use scene_compositor::deferred::{
    drain_deferred_scene_resources, DeferredSceneRelease, FailedSubmitBo, FenceTicket,
};
use scene_compositor::geometry::{Extent2D, Offset2D, Rect2D};
use scene_compositor::ids::{DrawableId, IdSet};
use scene_compositor::present::{
    copied_render_completion_matches, kms_retirement_matches, present_error_is_device_lost,
    vk_result_is_device_lost, CopiedRenderSubmitError, InFlightStage, PresentError,
};
use scene_compositor::region_set::RegionSet;
use scene_compositor::store::{
    DamageSnapshot, DormantReason, DrawableKind, DrawableStore, Storage,
};
use scene_compositor::tick::{
    pending_presentation_for_output, snapshots_carry_damage, walk_needed, TickOutcome,
    TickSkipReason,
};
use std::cell::{Cell, RefCell};
use std::collections::VecDeque;

fn rect(x: i32, y: i32, w: u32, h: u32) -> Rect2D {
    Rect2D {
        offset: Offset2D { x, y },
        extent: Extent2D {
            width: w,
            height: h,
        },
    }
}

fn ids(list: &[DrawableId]) -> IdSet {
    let mut set = IdSet::new();
    set.extend_from(list);
    set
}

#[test]
fn damage_audit_partial_compose_is_detectable() {
    assert!(compose_submit_was_complete(
        ComposeSubmit {
            descriptor_count: 4
        },
        4
    ));
    assert!(!compose_submit_was_complete(
        ComposeSubmit {
            descriptor_count: 3
        },
        4
    ));
}

#[test]
fn copied_completion_requires_exact_job_and_paired_bo() {
    let waiting = InFlightStage::WaitingForRenderCompletion { job_id: 41 };
    assert!(copied_render_completion_matches(waiting, 2, 41, 2));
    assert!(!copied_render_completion_matches(waiting, 2, 42, 2));
    assert!(!copied_render_completion_matches(waiting, 2, 41, 1));
}

#[test]
fn copied_frame_cannot_retire_before_sink_kms_submission() {
    let waiting = InFlightStage::WaitingForRenderCompletion { job_id: 7 };
    assert!(!kms_retirement_matches(waiting, 1, 1));
    assert!(!copied_render_completion_matches(
        InFlightStage::KmsFlipPending,
        1,
        7,
        1,
    ));
}

#[test]
fn kms_retirement_requires_the_exact_paired_bo() {
    assert!(kms_retirement_matches(InFlightStage::KmsFlipPending, 1, 1,));
    assert!(!kms_retirement_matches(InFlightStage::KmsFlipPending, 1, 2,));
}

#[test]
fn global_drain_waits_and_releases_every_deferred_scene_resource() {
    let mut pending = VecDeque::from([(
        3,
        FenceTicket { raw: 1 },
    )]);
    let mut failed = VecDeque::from([FailedSubmitBo {
        bo_idx: 7,
        pool_slot: 5,
        ticket: FenceTicket { raw: 1 },
    }]);
    let waited = Cell::new(0);
    let released = RefCell::new(Vec::new());

    drain_deferred_scene_resources(
        &mut pending,
        &mut failed,
        |_: &FenceTicket| {
            waited.set(waited.get() + 1);
            true
        },
        |release: DeferredSceneRelease| {
            released.borrow_mut().push(release);
            true
        },
    );

    assert_eq!(waited.get(), 2);
    assert!(pending.is_empty());
    assert!(failed.is_empty());
    assert_eq!(
        released.into_inner(),
        vec![
            DeferredSceneRelease::PoolSlot(3),
            DeferredSceneRelease::FailedSubmit {
                bo_idx: 7,
                pool_slot: 5,
            },
        ]
    );
}

#[test]
fn global_drain_retains_every_resource_whose_fence_wait_fails() {
    let mut pending = VecDeque::from([(
        3,
        FenceTicket { raw: 1 },
    )]);
    let mut failed = VecDeque::from([FailedSubmitBo {
        bo_idx: 7,
        pool_slot: 5,
        ticket: FenceTicket { raw: 1 },
    }]);
    let released = RefCell::new(Vec::new());

    drain_deferred_scene_resources(
        &mut pending,
        &mut failed,
        |_: &FenceTicket| false,
        |release: DeferredSceneRelease| {
            released.borrow_mut().push(release);
            true
        },
    );

    assert!(released.borrow().is_empty());
    assert_eq!(pending.len(), 1);
    assert_eq!(pending[0].0, 3);
    assert_eq!(failed.len(), 1);
    assert_eq!(failed[0].bo_idx, 7);
    assert_eq!(failed[0].pool_slot, 5);
}

#[test]
fn a_drain_releases_exactly_what_it_waited_for() {
    let ticket = |raw: u64| FenceTicket { raw };
    let mut pending = VecDeque::from([(1, ticket(1)), (2, ticket(2)), (3, ticket(3))]);
    let mut failed = VecDeque::from([
        FailedSubmitBo {
            bo_idx: 4,
            pool_slot: 4,
            ticket: ticket(4),
        },
        FailedSubmitBo {
            bo_idx: 5,
            pool_slot: 5,
            ticket: ticket(5),
        },
    ]);
    let waited = RefCell::new(Vec::new());
    let released = RefCell::new(Vec::new());

    drain_deferred_scene_resources(
        &mut pending,
        &mut failed,
        |t: &FenceTicket| {
            waited.borrow_mut().push(t.raw);
            t.raw % 2 == 1
        },
        |release: DeferredSceneRelease| {
            released.borrow_mut().push(release);
            release != DeferredSceneRelease::PoolSlot(3)
        },
    );

    assert_eq!(waited.into_inner(), vec![1, 2, 3, 4, 5]);
    assert_eq!(
        released.into_inner(),
        vec![
            DeferredSceneRelease::PoolSlot(1),
            DeferredSceneRelease::PoolSlot(3),
            DeferredSceneRelease::FailedSubmit {
                bo_idx: 5,
                pool_slot: 5,
            },
        ]
    );
    assert_eq!(Vec::from(pending), vec![(2, ticket(2)), (3, ticket(3))]);
    assert_eq!(failed.len(), 1);
    assert_eq!(failed[0].bo_idx, 4);
}

#[test]
fn live_source_device_lost_is_the_only_fatal_vulkan_present_error() {
    assert!(vk_result_is_device_lost(vk::Result::ERROR_DEVICE_LOST.as_raw()));
    assert!(!vk_result_is_device_lost(
        vk::Result::ERROR_OUT_OF_DEVICE_MEMORY.as_raw(),
    ));
    assert!(present_error_is_device_lost(&PresentError::Vk(
        vk::Result::ERROR_DEVICE_LOST.as_raw(),
    )));
    assert!(!present_error_is_device_lost(&PresentError::Vk(
        vk::Result::ERROR_OUT_OF_DEVICE_MEMORY.as_raw(),
    )));
}

#[test]
fn copied_renderer_acquire_failure_is_fail_stop_before_submit() {
    let acquire = CopiedRenderSubmitError::RendererAcquire(String::from(
        "retained B-to-A completion import failed",
    ));
    assert!(acquire.requires_fail_stop());
    assert!(matches!(acquire.into_present(), PresentError::Io(_)));

    let ordinary = CopiedRenderSubmitError::Present(PresentError::Vk(
        vk::Result::ERROR_OUT_OF_DEVICE_MEMORY.as_raw(),
    ));
    assert!(!ordinary.requires_fail_stop());
}

#[test]
fn tick_outcome_only_clears_dirty_for_compose_or_empty_skip() {
    assert!(TickOutcome::Composed.clears_scene_structure_dirty());
    assert!(TickOutcome::Skipped(TickSkipReason::EmptyDamage).clears_scene_structure_dirty());
    assert!(!TickOutcome::Skipped(TickSkipReason::PendingAcks).clears_scene_structure_dirty());
    assert!(
        !TickOutcome::Skipped(TickSkipReason::RetryDeadline).clears_scene_structure_dirty()
    );
    assert!(!TickOutcome::Skipped(TickSkipReason::NoBO).clears_scene_structure_dirty());
    assert!(!TickOutcome::Skipped(TickSkipReason::NoPool).clears_scene_structure_dirty());
    assert!(
        !TickOutcome::Skipped(TickSkipReason::NothingPending).clears_scene_structure_dirty()
    );
}

#[test]
fn nothing_pending_skip_did_not_walk() {
    assert!(!TickOutcome::Skipped(TickSkipReason::NothingPending).walked());
    assert!(!TickOutcome::Skipped(TickSkipReason::PendingAcks).walked());
    assert!(TickOutcome::Skipped(TickSkipReason::EmptyDamage).walked());
    assert!(TickOutcome::Composed.walked());
}

#[test]
fn walk_needed_for_each_input_alone_and_not_otherwise() {
    assert!(!walk_needed(false, false, false, false, false, false));
    assert!(
        walk_needed(true, false, false, false, false, false),
        "structure dirty"
    );
    assert!(
        walk_needed(false, true, false, false, false, false),
        "armed damage"
    );
    assert!(
        walk_needed(false, false, true, false, false, false),
        "first frame"
    );
    assert!(
        walk_needed(false, false, false, true, false, false),
        "owed repaint"
    );
    assert!(
        walk_needed(false, false, false, false, true, false),
        "structure rects"
    );
    assert!(
        walk_needed(false, false, false, false, false, true),
        "audit armed"
    );
}

#[test]
fn pending_presentation_is_decided_per_output_from_retained_pieces() {
    let a = DrawableId::from_raw(1);
    let b = DrawableId::from_raw(2);
    let out0 = ids(&[a]);
    let out1 = IdSet::new();
    let all = [&out0, &out1];
    assert!(pending_presentation_for_output(&[a], &out0, &all));
    assert!(!pending_presentation_for_output(&[a], &out1, &all));
    assert!(pending_presentation_for_output(&[b], &out0, &all));
    assert!(pending_presentation_for_output(&[b], &out1, &all));
    assert!(!pending_presentation_for_output(&[], &out0, &all));
    assert!(!pending_presentation_for_output(&[], &out1, &all));
    let both0 = ids(&[a]);
    let both1 = ids(&[a]);
    let all2 = [&both0, &both1];
    assert!(pending_presentation_for_output(&[a], &both0, &all2));
    assert!(pending_presentation_for_output(&[a], &both1, &all2));
    assert!(walk_needed(true, false, false, false, false, false));
}

#[test]
fn dormant_only_damage_does_not_walk_until_a_paint_rearms_it() {
    let mut store = DrawableStore::new();
    let storage = Storage {
        extent: Extent2D {
            width: 8,
            height: 8,
        },
        image_view: 1,
        sample_view: 1,
    };
    let id = store
        .allocate(0x700, DrawableKind::Window, 24, true, storage)
        .expect("allocate");
    store.damage(id, rect(0, 0, 4, 4));
    assert!(store.has_pending_presentation_damage());
    let none = IdSet::new();
    let pieces = ids(&[id]);
    store.reconcile_offscreen_no_draw(&none, &pieces);
    assert_eq!(
        store.get(id).map(|d| d.dormant),
        Some(Some(DormantReason::HiddenDamage))
    );
    assert!(!store.has_pending_presentation_damage());
    assert!(!walk_needed(
        false,
        store.has_pending_presentation_damage(),
        false,
        false,
        false,
        false
    ));
    store.damage(id, rect(2, 2, 2, 2));
    assert!(store.has_pending_presentation_damage());
    assert!(walk_needed(
        false,
        store.has_pending_presentation_damage(),
        false,
        false,
        false,
        false
    ));
}

#[test]
fn empty_projection_force_compose_gates_on_real_captured_damage() {
    let id = DrawableId::from_raw(1);

    assert!(!snapshots_carry_damage(&[]));

    let clean = DamageSnapshot {
        id,
        epoch: 1,
        region: RegionSet::new(),
    };
    assert!(!snapshots_carry_damage(std::slice::from_ref(&clean)));

    let mut painted_region = RegionSet::new();
    painted_region.add(rect(0, 0, 4, 4));
    let painted = DamageSnapshot {
        id,
        epoch: 2,
        region: painted_region,
    };
    assert!(snapshots_carry_damage(std::slice::from_ref(&painted)));

    assert!(snapshots_carry_damage(&[clean, painted]));
}
