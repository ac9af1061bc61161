use scene_compositor::acquisition::{
    buffer_acquired, slot_acquired, ticket_acquired, AcquireStep,
};
use scene_compositor::audit::{
    audit_sampled_pairs, partition_bounds, tile_rect_for_id, AuditStep, ComposeSubmit,
    DamageAuditTileSummary, OutputDamageAudit,
};
use scene_compositor::compositor::SceneCompositor;
use scene_compositor::cursor::{CursorTransitionResult, OutputCursorMode};
use scene_compositor::damage_log::DamageLog;
use scene_compositor::deferred::{
    drain_pending_pool_releases, retire_failed_submit_bos, DeferredSceneRelease, FailedSubmitBo,
    FencePoll, FenceTicket,
};
use scene_compositor::drain::drain_output;
use scene_compositor::draw::{scene_draw_pixels, CompositeDraw};
use scene_compositor::frame::{
    audit_reference_scene, begin_frame, stage_after_render, FrameInput, FrameStart,
};
use scene_compositor::geometry::{Extent2D, Offset2D, Rect2D};
use scene_compositor::ids::{DrawableId, IdSet};
use scene_compositor::ledger::{DamageLedger, Site};
use scene_compositor::output::{
    scanout_depth, FrameDraft, OutputSceneState, ScanoutToken, RETRY_BACKOFF_NS,
};
use scene_compositor::present::{BoPhase, CopiedRenderSubmitError, InFlightStage, PresentError};
use scene_compositor::recording::{
    audit_descriptor_count, record_commands, render_pass, LoadOp, RecordCommand,
};
use scene_compositor::region::{Region, MAX_RECTS};
use scene_compositor::repaint::Repaint;
use scene_compositor::scanout_damage::ScanoutDamage;
use scene_compositor::scene_build::CursorEntry;
use scene_compositor::scene_diff::SourceRect;
use scene_compositor::settings::{
    debug_scene_walk_xids, flag_enabled, positive_or_one, scene_walk_debug_enabled_for,
};
use scene_compositor::store::{DrawableKind, DrawableStore, Storage};
use scene_compositor::submission::{begin_submission, SubmitAction, SubmitEvent};
use scene_compositor::tick::TickSkipReason;
use scene_compositor::windows::{KmsCore, OutputLayout, WindowGeometry, WindowsMap};
use std::collections::{HashMap, VecDeque};

fn rect(x: i32, y: i32, w: u32, h: u32) -> Rect2D {
    Rect2D {
        offset: Offset2D { x, y },
        extent: Extent2D {
            width: w,
            height: h,
        },
    }
}

fn extent(w: u32, h: u32) -> Extent2D {
    Extent2D {
        width: w,
        height: h,
    }
}

const TICKET: FenceTicket = FenceTicket { raw: 7 };

struct Desktop {
    core: KmsCore,
    store: DrawableStore,
    windows: WindowsMap,
    elsewhere: IdSet,
    cursor: Option<CursorEntry>,
}

impl Desktop {
    /// A root of 800 by 600 and one window on it.
    fn new() -> Self {
        let mut store = DrawableStore::new();
        let mut windows = HashMap::new();
        for (xid, kind, w, h) in [
            (1, DrawableKind::Root, 800, 600),
            (0x100, DrawableKind::Window, 200, 100),
        ] {
            store
                .allocate(
                    xid,
                    kind,
                    24,
                    true,
                    Storage {
                        extent: extent(w, h),
                        image_view: u64::from(xid),
                        sample_view: u64::from(xid),
                    },
                )
                .expect("allocate");
        }
        windows.insert(
            0x100,
            WindowGeometry {
                x: 50,
                y: 60,
                width: 200,
                height: 100,
                depth: 24,
                mapped: true,
                parent: None,
                stack_rank: 0,
            },
        );
        Desktop {
            core: KmsCore {
                window_id: 1,
                top_level_order: vec![0x100],
                shape_bounding: HashMap::new(),
                cursor_x: 0,
                cursor_y: 0,
            },
            store,
            windows,
            elsewhere: IdSet::new(),
            cursor: None,
        }
    }

    fn input(&self, now: u64) -> FrameInput<'_> {
        FrameInput {
            core: &self.core,
            store: &self.store,
            windows: &self.windows,
            layout: OutputLayout {
                x: 0,
                y: 0,
                width: 800,
                height: 600,
            },
            cursor: self.cursor,
            cow_host_xid: None,
            hw_strategy_enabled: false,
            hw_fits: false,
            plane_visible: false,
            elsewhere: &self.elsewhere,
            shared: true,
            structure_dirty: false,
            pending_presentation: self.store.has_pending_presentation_damage(),
            audit_armed: false,
            now,
        }
    }

    fn compose(&self, state: &mut OutputSceneState, now: u64) -> FrameDraft {
        match begin_frame(state, &self.input(now)) {
            FrameStart::Compose(draft) => draft,
            FrameStart::Idle(_) => panic!("idle"),
            FrameStart::Skipped(reason) => panic!("skipped: {reason:?}"),
        }
    }

    /// Draws both buffers in full.
    fn settle(&mut self, state: &mut OutputSceneState) {
        for bo_idx in 0..2 {
            state.force_cursor_retry_repaint();
            assert_eq!(
                self.present(state, bo_idx, false),
                Repaint::Full(extent(800, 600))
            );
        }
    }

    /// Draws a frame and puts it on screen.
    fn present(&mut self, state: &mut OutputSceneState, bo_idx: usize, loadable: bool) -> Repaint {
        let draft = self.compose(state, 0);
        let token = ScanoutToken {
            bo_idx,
            content_invalidated: !loadable,
            last_present_generation: Some(1),
        };
        let plan = state.plan_frame(&draft.built, token, true, &[]);
        let repaint = plan.plan.repaint;
        state.frame_submitted(
            draft,
            &plan,
            bo_idx,
            stage_after_render(None),
            TICKET,
            3,
            true,
            true,
        );
        let frame = state
            .retire_frame(&mut self.store, bo_idx, FencePoll::Signaled)
            .expect("expected flip");
        assert_eq!(frame.release_slot, Some(3));
        state.settle_cursor(&frame, CursorTransitionResult::Applied);
        repaint
    }
}

fn output() -> OutputSceneState {
    OutputSceneState::new(0, (0, 0), extent(800, 600), scanout_depth(Some(2)), None)
}

#[test]
fn a_settled_output_draws_only_what_changed() {
    let mut desktop = Desktop::new();
    let mut state = output();
    desktop.settle(&mut state);
    let id = desktop.store.lookup(0x100).expect("window");
    desktop.store.damage(id, rect(10, 10, 20, 20));
    assert_eq!(
        desktop.present(&mut state, 1, true),
        Repaint::Clipped(rect(60, 70, 20, 20))
    );
    assert!(!desktop.store.has_pending_presentation_damage());
    assert_eq!(state.current_generation, 3);
    assert_eq!(state.damage_history.generations(), vec![1, 2, 3]);
}

#[test]
fn a_quiet_output_is_not_walked() {
    let mut desktop = Desktop::new();
    let mut state = output();
    desktop.settle(&mut state);
    assert!(matches!(
        begin_frame(&mut state, &desktop.input(0)),
        FrameStart::Skipped(TickSkipReason::NothingPending)
    ));
}

#[test]
fn a_walk_that_finds_nothing_draws_nothing() {
    let mut desktop = Desktop::new();
    let mut state = output();
    desktop.settle(&mut state);
    let mut input = desktop.input(0);
    input.structure_dirty = true;
    assert!(matches!(
        begin_frame(&mut state, &input),
        FrameStart::Idle(_)
    ));
}

#[test]
fn a_frame_in_flight_holds_the_next_one_back() {
    let desktop = Desktop::new();
    let mut state = output();
    let draft = desktop.compose(&mut state, 0);
    let token = ScanoutToken {
        bo_idx: 0,
        content_invalidated: true,
        last_present_generation: None,
    };
    let plan = state.plan_frame(&draft.built, token, true, &[]);
    let sampled = state.frame_submitted(
        draft,
        &plan,
        0,
        InFlightStage::KmsFlipPending,
        TICKET,
        3,
        true,
        true,
    );
    assert_eq!(sampled.len(), 2);
    assert!(matches!(
        begin_frame(&mut state, &desktop.input(0)),
        FrameStart::Skipped(TickSkipReason::PendingAcks)
    ));
}

#[test]
fn a_flip_of_another_buffer_retires_nothing_and_forces_a_repaint() {
    let mut desktop = Desktop::new();
    let mut state = output();
    let draft = desktop.compose(&mut state, 0);
    let token = ScanoutToken {
        bo_idx: 0,
        content_invalidated: true,
        last_present_generation: None,
    };
    let plan = state.plan_frame(&draft.built, token, true, &[]);
    state.frame_submitted(
        draft,
        &plan,
        0,
        InFlightStage::KmsFlipPending,
        TICKET,
        3,
        true,
        true,
    );
    assert!(state
        .retire_frame(&mut desktop.store, 1, FencePoll::Signaled)
        .is_none());
    assert!(state.damage.owes_repaint());
    assert_eq!(state.pending_acks.len(), 1);
    let scene = SceneCompositor::new(vec![state], false);
    assert!(scene.has_pending_page_flip(0));
    assert!(!scene.has_pending_page_flip(1));
}

#[test]
fn a_frame_that_failed_is_owed_and_tried_again_later() {
    let desktop = Desktop::new();
    let mut state = output();
    let draft = desktop.compose(&mut state, 0);
    let damage = draft.output_damage.clone();
    let failed = state.frame_failed(
        &damage,
        0,
        3,
        TICKET,
        true,
        &PresentError::Vk(-2),
        1_000,
    );
    assert!(!failed.renderer_failed);
    assert_eq!(failed.release_slot, None);
    assert_eq!(state.failed_submit_bos.len(), 1);
    assert_eq!(state.current_generation, 0);
    assert_eq!(state.next_submit_retry_at, Some(1_000 + RETRY_BACKOFF_NS));
    assert!(matches!(
        begin_frame(&mut state, &desktop.input(2_000)),
        FrameStart::Skipped(TickSkipReason::RetryDeadline)
    ));
    assert_eq!(
        state.pending_repaint_after_failed_submit.rects().as_slice(),
        &[rect(0, 0, 800, 600)]
    );
}

#[test]
fn a_lost_device_fails_the_renderer() {
    let desktop = Desktop::new();
    let mut state = output();
    let draft = desktop.compose(&mut state, 0);
    let damage = draft.output_damage.clone();
    let failed = state.frame_failed(&damage, 0, 3, TICKET, false, &PresentError::Vk(-4), 0);
    assert!(failed.renderer_failed);
    let mut other = output();
    let io = PresentError::Io(String::from("no such buffer"));
    assert!(
        !other
            .frame_failed(&damage, 0, 3, TICKET, false, &io, 0)
            .renderer_failed
    );
}

#[test]
fn a_copied_frame_goes_through_the_sink() {
    let mut desktop = Desktop::new();
    let mut state = output();
    let draft = desktop.compose(&mut state, 0);
    let token = ScanoutToken {
        bo_idx: 0,
        content_invalidated: true,
        last_present_generation: None,
    };
    let plan = state.plan_frame(&draft.built, token, false, &[]);
    state.frame_submitted(
        draft,
        &plan,
        0,
        stage_after_render(Some(41)),
        TICKET,
        3,
        false,
        true,
    );
    assert!(state.awaits_completion(41, 0));
    assert!(!state.awaits_completion(42, 0));
    assert!(!state.awaits_completion(41, 1));
    state.copied_frame_submitted();
    assert!(!state.awaits_completion(41, 0));
    assert!(state
        .retire_frame(&mut desktop.store, 0, FencePoll::Pending)
        .expect("retires")
        .release_slot
        .is_none());
    assert_eq!(state.pending_pool_releases.len(), 1);
}

#[test]
fn a_frame_that_the_sink_refused_gives_its_number_back() {
    let desktop = Desktop::new();
    let mut state = output();
    let draft = desktop.compose(&mut state, 0);
    let token = ScanoutToken {
        bo_idx: 0,
        content_invalidated: true,
        last_present_generation: None,
    };
    let plan = state.plan_frame(&draft.built, token, false, &[]);
    state.frame_submitted(
        draft,
        &plan,
        0,
        stage_after_render(Some(41)),
        TICKET,
        3,
        false,
        true,
    );
    assert_eq!(state.current_generation, 1);
    let failure = state.copied_frame_refused(0, false, 5);
    assert!(!failure.renderer_failed);
    assert_eq!(state.current_generation, 0);
    assert_eq!(
        state.failed_submit_bos,
        VecDeque::from([FailedSubmitBo {
            bo_idx: 0,
            pool_slot: 3,
            ticket: TICKET,
        }])
    );
}

#[test]
fn draining_an_output_leaves_nothing_in_flight() {
    let desktop = Desktop::new();
    let mut state = output();
    let draft = desktop.compose(&mut state, 0);
    let token = ScanoutToken {
        bo_idx: 0,
        content_invalidated: true,
        last_present_generation: None,
    };
    let plan = state.plan_frame(&draft.built, token, true, &[]);
    state.frame_submitted(
        draft,
        &plan,
        0,
        InFlightStage::KmsFlipPending,
        TICKET,
        3,
        true,
        true,
    );
    state.pending_pool_releases.push_back((9, TICKET));
    let wait = |t: &FenceTicket| t.raw == 7;
    let release = |_: DeferredSceneRelease| true;
    let report = drain_output(&mut state, &wait, &release);
    assert!(!report.renderer_failed);
    assert!(state.pending_acks.is_empty());
    assert!(state.pending_pool_releases.is_empty());
}

#[test]
fn released_slots_are_those_whose_fences_signalled() {
    let mut queue = VecDeque::from([(1, TICKET), (2, TICKET)]);
    let pass = drain_pending_pool_releases(&mut queue, &[FencePoll::Signaled, FencePoll::Pending]);
    assert_eq!(pass.released, vec![1]);
    assert!(!pass.renderer_failed);
    assert_eq!(queue, VecDeque::from([(2, TICKET)]));
    let mut failed = VecDeque::from([FailedSubmitBo {
        bo_idx: 0,
        pool_slot: 4,
        ticket: TICKET,
    }]);
    let pass = retire_failed_submit_bos(&mut failed, &[FencePoll::Failed], &[true]);
    assert!(pass.renderer_failed);
    assert_eq!(failed.len(), 1);
    let pass = retire_failed_submit_bos(&mut failed, &[FencePoll::Signaled], &[true]);
    assert_eq!(pass.released, vec![4]);
    assert!(failed.is_empty());
}

#[test]
fn a_software_cursor_is_drawn_last_and_requested() {
    let mut desktop = Desktop::new();
    let id = desktop
        .store
        .allocate(
            0xCAFE,
            DrawableKind::Pixmap,
            32,
            false,
            Storage {
                extent: extent(16, 16),
                image_view: 99,
                sample_view: 99,
            },
        )
        .expect("allocate");
    desktop.cursor = Some(CursorEntry {
        id,
        extent: extent(16, 16),
        hot_x: 2,
        hot_y: 3,
        record_version: 8,
    });
    desktop.core.cursor_x = 102;
    desktop.core.cursor_y = 203;
    let mut state = output();
    desktop.present(&mut state, 0, false);
    assert_eq!(state.last_present_cursor_rect, Some(rect(100, 200, 16, 16)));
    assert_eq!(state.last_present_cursor_version, Some(8));
    assert_eq!(
        state.last_frame_cursor_mode,
        OutputCursorMode::Sw {
            prev: Some((100, 200)),
        }
    );
    let reference =
        audit_reference_scene(true, true, &desktop.input(0)).expect("the audit is on");
    assert_eq!(
        reference.scene.draws.last().expect("cursor").image_view,
        99
    );
    let bare = audit_reference_scene(true, false, &desktop.input(0)).expect("the audit is on");
    assert_eq!(bare.scene.draws.len(), 2);
    assert!(audit_reference_scene(false, true, &desktop.input(0)).is_none());
}

#[test]
fn a_buffer_is_missing_what_was_drawn_into_the_other() {
    let mut damage = ScanoutDamage::new(2, extent(100, 100));
    let all = Region::from_rect(rect(0, 0, 100, 100));
    for bo in 0..2 {
        damage.commit_submitted(bo, &all, &all);
        damage.retire_success();
    }
    let change = Region::from_rect(rect(10, 10, 5, 5));
    damage.add_damage(&change);
    assert_eq!(damage.repaint_for(0, true), change);
    damage.commit_submitted(0, &change, &change);
    damage.retire_success();
    assert_eq!(damage.repaint_for(1, true), change);
    assert!(damage.repaint_for(0, true).is_empty());
    assert_eq!(damage.repaint_for(0, false).area(), 100 * 100);
}

#[test]
fn blocks_tile_the_output() {
    assert_eq!(partition_bounds(800, 16, 0), (0, 50));
    assert_eq!(partition_bounds(100, 3, 2), (67, 100));
    assert_eq!(
        tile_rect_for_id(extent(100, 90), 3, 3, 4),
        rect(34, 30, 33, 30)
    );
}

#[test]
fn an_audit_seeds_compares_and_heals() {
    let site = Site {
        file: "lifecycle.rs",
        line: 2,
    };
    let mut ledger = DamageLedger::new();
    ledger.record(site, vec![rect(0, 0, 10, 10)]);
    let mut audit = OutputDamageAudit::new(extent(100, 100), 10, 10);
    let (run, step) = audit.begin(false, 1, 1, 1, false, Some(rect(0, 0, 10, 10)));
    assert!(matches!(step, AuditStep::Seed));
    let (run, step) = audit.seed_done(run, true, 4, Vec::new());
    assert!(matches!(step, AuditStep::Reference));
    assert!(matches!(
        audit.reference_done(run, true, None, None),
        AuditStep::Compare
    ));
    let differs = DamageAuditTileSummary {
        tile_id: 0,
        mismatch_count: 3,
        first_pixel_index: 205,
        candidate: 1,
        reference: 2,
    };
    let report = audit.compare_done(run, &ledger, 0, &[differs], 4, Vec::new(), 50);
    assert_eq!(report.mismatches.len(), 1);
    assert_eq!(
        (report.mismatches[0].first_x, report.mismatches[0].first_y),
        (5, 2)
    );
    assert_eq!(report.mismatches[0].candidates.len(), 1);
    assert!(!report.mismatches[0].candidates[0].contributed);
    assert_eq!(audit.counts.comparisons, 1);
    assert_eq!(audit.counts.episodes_opened, 1);
    let (run, step) = audit.begin(false, 1, 1, 1, true, None);
    assert!(matches!(step, AuditStep::Reference));
    audit.reference_done(run, true, None, None);
    let report = audit.compare_done(run, &ledger, 0, &[], 4, Vec::new(), 60);
    assert_eq!(report.healed, vec![0]);
    assert_eq!(report.healed_starts.len(), 1);
    assert_eq!(report.healed_starts[0].frame, 1);
    assert_eq!(report.healed_starts[0].first_event_id, 0);
    assert_eq!(report.healed_starts[0].next_event_id, 1);
    assert_eq!(audit.counts.episodes_healed, 1);
    assert!(!audit.audit_idle_recompare_due(70, 1_000));
    assert!(audit.audit_idle_recompare_due(1_060, 1_000));
}

#[test]
fn a_comparison_that_could_not_be_read_counts_and_judges_nothing() {
    let mut audit = OutputDamageAudit::new(extent(100, 100), 10, 10);
    audit.note_comparison(4, vec![(9, 0x100)], 70);
    assert_eq!(audit.counts.comparisons, 1);
    assert_eq!(audit.last_compare_at, Some(70));
    assert_eq!((audit.frame_draws, audit.frame_sampled.len()), (4, 1));
    assert_eq!(audit.consumed_event_id, 0);
    assert!(audit.active_episodes.is_empty());
}

#[test]
fn a_draft_measures_structure_and_overdraw() {
    let desktop = Desktop::new();
    let mut state = output();
    let draft = desktop.compose(&mut state, 0);
    assert_eq!(draft.structural_pixels, 800 * 600);
    assert_eq!(draft.scene_draw_pixels, 800 * 600);
    let twice = [draw(-10, 0, 30, 10, false), draw(10, 0, 10, 10, true)];
    assert_eq!(scene_draw_pixels(&twice, extent(800, 600)), 200 + 100);
}

#[test]
fn a_frame_without_reported_damage_is_suspect() {
    let mut audit = OutputDamageAudit::new(extent(100, 100), 10, 10);
    let (run, _) = audit.begin(false, 0, 1, 1, false, None);
    audit.seed_done(run, true, 1, Vec::new());
    let (_, step) = audit.begin(false, 0, 1, 1, false, None);
    assert!(matches!(step, AuditStep::Suspect));
    let (run, step) = audit.begin(false, 0, 1, 1, false, Some(rect(1, 2, 3, 4)));
    assert!(matches!(step, AuditStep::Candidate(r) if r == rect(1, 2, 3, 4)));
    assert!(matches!(audit.candidate_done(run, false), AuditStep::Done));
    assert!(!audit.initialized);
}

#[test]
fn sampled_pairs_name_the_windows() {
    let desktop = Desktop::new();
    let id = desktop.store.lookup(0x100).expect("window");
    assert_eq!(
        audit_sampled_pairs(true, &desktop.store, &[id]),
        vec![(id.as_u64(), 0x100)]
    );
    assert!(audit_sampled_pairs(false, &desktop.store, &[id]).is_empty());
    assert_eq!(
        audit_sampled_pairs(true, &desktop.store, &[DrawableId::from_raw(999)]),
        vec![(999, 0)]
    );
}

fn draw(x: i32, y: i32, w: u32, h: u32, blend: bool) -> CompositeDraw {
    CompositeDraw {
        image_view: 1,
        dst: rect(x, y, w, h),
        source: SourceRect::full(),
        alpha_passthrough: blend,
    }
}

#[test]
fn commands_follow_the_scissors_and_rebind_only_on_change() {
    let draws = [
        draw(0, 0, 100, 100, false),
        draw(0, 0, 10, 10, true),
        draw(50, 0, 10, 10, false),
    ];
    let scissors = [rect(0, 0, 20, 20), rect(50, 0, 20, 20)];
    assert_eq!(
        record_commands(&draws, 3, &scissors, Repaint::Clipped(rect(0, 0, 70, 20))),
        vec![
            RecordCommand::Scissor(scissors[0]),
            RecordCommand::Pipeline { blend: false },
            RecordCommand::Draw(0),
            RecordCommand::Pipeline { blend: true },
            RecordCommand::Draw(1),
            RecordCommand::Scissor(scissors[1]),
            RecordCommand::Pipeline { blend: false },
            RecordCommand::Draw(0),
            RecordCommand::Draw(2),
        ]
    );
    assert_eq!(
        record_commands(&draws, 1, &[], Repaint::Full(extent(100, 100))),
        vec![
            RecordCommand::Scissor(rect(0, 0, 100, 100)),
            RecordCommand::Pipeline { blend: false },
            RecordCommand::Draw(0),
        ]
    );
}

#[test]
fn a_full_pass_clears_and_a_clipped_one_loads() {
    let full = render_pass(Repaint::Full(extent(100, 100)));
    assert_eq!(full.load, LoadOp::Clear);
    assert!(full.discard);
    let clipped = render_pass(Repaint::Clipped(rect(1, 2, 3, 4)));
    assert_eq!(clipped.load, LoadOp::Load);
    assert_eq!(clipped.area, rect(1, 2, 3, 4));
    assert!(!clipped.discard);
    let audit = render_pass(Repaint::AuditClearClipped(rect(1, 2, 3, 4)));
    assert_eq!(audit.load, LoadOp::Clear);
    assert_eq!(audit_descriptor_count(0), 1);
    assert_eq!(audit_descriptor_count(12), 12);
    assert_eq!(scanout_depth(None), 3);
}

#[test]
fn a_shared_frame_is_recorded_exported_and_flipped() {
    let (mut s, action) = begin_submission(true, BoPhase::Free, true);
    assert!(matches!(action, SubmitAction::Record));
    let (action, _) = s.continue_submission(SubmitEvent::Recorded(ComposeSubmit {
        descriptor_count: 2,
    }));
    assert!(matches!(action, SubmitAction::Export));
    let (action, _) = s.continue_submission(SubmitEvent::Exported(Some(8)));
    assert!(matches!(action, SubmitAction::Flip { in_fence: 8 }));
    let mut refused = s;
    let (action, closed) = s.continue_submission(SubmitEvent::Flipped { out_fence: 9 });
    assert!(matches!(action, SubmitAction::Shown { out_fence: 9 }));
    assert_eq!(closed, vec![8]);
    assert_eq!(s.phase, BoPhase::Pending);
    let (action, closed) = refused.continue_submission(SubmitEvent::FlipRefused {
        message: String::from("busy"),
        out_fence: 9,
    });
    assert!(matches!(
        action,
        SubmitAction::Failed(CopiedRenderSubmitError::Present(PresentError::Io(_)))
    ));
    assert_eq!(closed, vec![8, 9]);
    assert!(refused.gpu_submitted);
    assert_eq!(refused.phase, BoPhase::Recording);
}

#[test]
fn only_a_free_buffer_with_a_framebuffer_is_recorded_into() {
    let (_, action) = begin_submission(true, BoPhase::Pending, true);
    assert!(matches!(
        action,
        SubmitAction::Failed(CopiedRenderSubmitError::Present(PresentError::WrongPhase(
            BoPhase::Pending
        )))
    ));
    let (_, action) = begin_submission(true, BoPhase::Free, false);
    assert!(matches!(
        action,
        SubmitAction::Failed(CopiedRenderSubmitError::Present(PresentError::NoFb))
    ));
}

#[test]
fn a_copied_frame_is_acquired_first_and_never_flipped_here() {
    let (mut s, action) = begin_submission(false, BoPhase::Free, false);
    assert!(matches!(action, SubmitAction::Acquire));
    let mut lost = s;
    let (action, _) = lost.continue_submission(SubmitEvent::AcquireFailed(String::from("gone")));
    assert!(
        matches!(action, SubmitAction::Failed(e) if e.requires_fail_stop()),
        "an import cannot be tried again"
    );
    s.continue_submission(SubmitEvent::Acquired);
    s.continue_submission(SubmitEvent::Recorded(ComposeSubmit {
        descriptor_count: 1,
    }));
    let (action, _) = s.continue_submission(SubmitEvent::Exported(None));
    assert!(matches!(
        action,
        SubmitAction::Rendered { completion: None }
    ));
    assert!(s.gpu_submitted);
}

#[test]
fn settings_are_read_leniently() {
    assert!(flag_enabled(Some("1")));
    assert!(!flag_enabled(Some("0")));
    assert!(!flag_enabled(None));
    assert_eq!(positive_or_one(Some("12")), 12);
    assert_eq!(positive_or_one(Some("0")), 1);
    assert_eq!(positive_or_one(None), 1);
    let xids = debug_scene_walk_xids(Some(" 0x10,\u{2003}17 ,nonsense,"));
    let mut listed: Vec<u32> = xids.iter().copied().collect();
    listed.sort();
    assert_eq!(listed, vec![16, 23]);
    let blanks = debug_scene_walk_xids(Some("\t\n\u{b}\u{c}\r 1f \u{1f}"));
    assert!(blanks.is_empty());
    let blanks = debug_scene_walk_xids(Some("\t\n\u{b}\u{c}\r 1f "));
    assert!(blanks.contains(&0x1f));
    assert!(scene_walk_debug_enabled_for(false, &xids, 23));
    assert!(!scene_walk_debug_enabled_for(false, &xids, 18));
    assert!(scene_walk_debug_enabled_for(true, &xids, 18));
}

#[test]
fn paint_survives_two_captures_of_the_paint_before_it() {
    let mut desktop = Desktop::new();
    let store = &mut desktop.store;
    let id = store.lookup(0x100).expect("window");
    let r = rect(10, 10, 20, 20);
    store.damage(id, r);
    let left = store.peek_presentation_damage(id).expect("captured");
    let right = store.peek_presentation_damage(id).expect("captured");
    store.damage(id, r);
    store.ack_presentation_damage(&left);
    store.ack_presentation_damage(&right);
    assert!(store.has_pending_presentation_damage());
    let now = store.peek_presentation_damage(id).expect("captured");
    assert_eq!(now.region.rects().as_slice(), &[r]);
    store.ack_presentation_damage(&now);
    assert!(!store.has_pending_presentation_damage());
}

#[test]
fn paint_survives_the_collapse_of_the_list() {
    let mut desktop = Desktop::new();
    let store = &mut desktop.store;
    let id = store.lookup(0x100).expect("window");
    let r = rect(10, 10, 20, 20);
    store.damage(id, r);
    let shown = store.peek_presentation_damage(id).expect("captured");
    for _ in 0..MAX_RECTS {
        store.damage(id, r);
    }
    let all = store.peek_presentation_damage(id).expect("captured");
    assert_eq!(all.region.rects().as_slice(), &[r]);
    store.ack_presentation_damage(&shown);
    assert!(store.has_pending_presentation_damage());
    let left = store.peek_presentation_damage(id).expect("captured");
    assert_eq!(left.region.rects().as_slice(), &[r]);
}

#[test]
fn marks_in_flight_survive_their_frame() {
    for marks in [1, MAX_RECTS, MAX_RECTS + 1] {
        let mut desktop = Desktop::new();
        let mut state = output();
        desktop.settle(&mut state);
        state.force_cursor_retry_repaint();
        let draft = desktop.compose(&mut state, 0);
        let token = ScanoutToken {
            bo_idx: 0,
            content_invalidated: true,
            last_present_generation: None,
        };
        let plan = state.plan_frame(&draft.built, token, true, &[]);
        state.frame_submitted(
            draft,
            &plan,
            0,
            InFlightStage::KmsFlipPending,
            TICKET,
            3,
            true,
            true,
        );
        for _ in 0..marks {
            state.force_cursor_retry_repaint();
        }
        assert!(state
            .retire_frame(&mut desktop.store, 0, FencePoll::Signaled)
            .is_some());
        let left = state.scene_structure_damage.rects();
        assert!(left.contains(&rect(0, 0, 800, 600)), "{marks} marks");
        desktop.compose(&mut state, 0);
    }
}

#[test]
fn marks_that_a_frame_took_up_are_settled() {
    let mut log = DamageLog::new();
    log.add(rect(1, 1, 2, 2));
    let lost = log.capture();
    let taken = log.capture();
    assert_eq!(lost.region.rects().as_slice(), &[rect(1, 1, 2, 2)]);
    log.add(rect(5, 5, 2, 2));
    assert_eq!(log.len(), 2);
    log.release(&taken);
    assert_eq!(log.rects(), vec![rect(5, 5, 2, 2)]);
    log.release(&lost);
    assert_eq!(log.rects(), vec![rect(5, 5, 2, 2)]);
    assert!(!log.is_empty());
}

#[test]
fn a_frame_without_its_resources_waits_or_fails() {
    let token = ScanoutToken {
        bo_idx: 1,
        content_invalidated: false,
        last_present_generation: Some(4),
    };
    assert_eq!(
        buffer_acquired(None),
        AcquireStep::Skipped(TickSkipReason::NoBO)
    );
    assert_eq!(buffer_acquired(Some(token)), AcquireStep::Slot { token });
    assert_eq!(
        slot_acquired(token, None),
        AcquireStep::Skipped(TickSkipReason::NoPool)
    );
    assert_eq!(
        slot_acquired(token, Some(7)),
        AcquireStep::Ticket { token, slot: 7 }
    );
    assert_eq!(
        ticket_acquired(token, 7, Ok(TICKET)),
        AcquireStep::Ready {
            token,
            slot: 7,
            ticket: TICKET
        }
    );
    for (code, renderer_failed) in [(-4, true), (-1, false)] {
        assert_eq!(
            ticket_acquired(token, 7, Err(code)),
            AcquireStep::Failed {
                slot: 7,
                renderer_failed,
                code
            }
        );
    }
}

#[test]
fn a_submission_tells_which_event_it_awaits() {
    let (submission, _) = begin_submission(false, BoPhase::Free, false);
    assert!(submission.awaits(&SubmitEvent::Acquired));
    assert!(!submission.awaits(&SubmitEvent::Exported(None)));
}
