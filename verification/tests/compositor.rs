use scene_compositor::buffer_age::BufferAgeRing;
use scene_compositor::audit::OutputDamageAudit;
use scene_compositor::audit_target::device_local_memory_type;
use scene_compositor::compositor::{
    dispatch_clip_rects_to_outputs, CompletionStep, LogicFillError, SceneCompositor, SceneError,
    TickProgress,
};
use scene_compositor::cursor::{CursorPlaneMode, OutputCursorMode};
use scene_compositor::draw::{all_zero, Rgba};
use scene_compositor::geometry::{
    clip_rect_to_output_extent, clip_to_output, intersect_rects, rects_intersect, union_bbox,
    Extent2D, Offset2D, Rect2D,
};
use scene_compositor::ids::{DrawableId, IdSet};
use scene_compositor::ledger::{DamageLedger, Site, MAX_LEDGER_ENTRIES};
use scene_compositor::output::OutputSceneState;
use scene_compositor::present::PresentError;
use scene_compositor::region_set::RegionSet;
use scene_compositor::root_overlay::RootOverlay;
use scene_compositor::scene_build::CursorEntry;
use scene_compositor::store::{DormantReason, DrawableKind, DrawableStore, Storage};
use scene_compositor::tick::{
    dormancy_inputs, record_tick_skip, record_tick_success, OutputWalkReport, TickOutcome,
    TickSkipReason,
};

const SITE: Site = Site {
    file: "compositor.rs",
    line: 1,
};

fn rect(x: i32, y: i32, w: u32, h: u32) -> Rect2D {
    Rect2D {
        offset: Offset2D { x, y },
        extent: Extent2D {
            width: w,
            height: h,
        },
    }
}

fn extent(w: u32, h: u32) -> Extent2D {
    Extent2D {
        width: w,
        height: h,
    }
}

fn set(ids: &[u64]) -> IdSet {
    let mut out = IdSet::new();
    for id in ids {
        out.insert(DrawableId::from_raw(*id));
    }
    out
}

fn output(output_idx: usize, origin: (i32, i32), ext: Extent2D) -> OutputSceneState {
    OutputSceneState::new(output_idx, origin, ext, 3, None)
}

fn two_outputs() -> SceneCompositor {
    SceneCompositor::new(
        vec![
            output(0, (0, 0), extent(800, 600)),
            output(1, (800, 0), extent(400, 400)),
        ],
        false,
    )
}

#[test]
fn stub_scene_is_not_live_and_declines_tick() {
    let scene = SceneCompositor::stub();
    assert!(!scene.is_live());
    let store = DrawableStore::new();
    let err = scene
        .begin_tick(&store, false)
        .expect_err("stub must reject tick");
    assert!(matches!(err, SceneError::NoVk));
}

#[test]
fn mark_scene_structure_dirty_is_idempotent() {
    let mut scene = SceneCompositor::stub();
    scene.scene_structure_dirty = false;
    scene.mark_scene_structure_dirty(SITE);
    assert!(scene.scene_structure_dirty);
    scene.mark_scene_structure_dirty(SITE);
    assert!(scene.scene_structure_dirty);
}

#[test]
fn mark_scene_structure_damage_rects_sets_dirty_on_stub() {
    let mut scene = SceneCompositor::stub();
    scene.scene_structure_dirty = false;
    scene.mark_scene_structure_damage_rects(&[rect(0, 0, 10, 10)], SITE);
    assert!(scene.scene_structure_dirty);
}

#[test]
fn root_overlay_toggle_marks_structure_damage() {
    let mut sc = SceneCompositor::stub();
    assert!(!sc.scene_structure_dirty);
    sc.root_overlay_toggle(
        1,
        0xffffff,
        &[Rect2D {
            offset: Offset2D { x: 5, y: 5 },
            extent: Extent2D {
                width: 20,
                height: 20,
            },
        }],
        SITE,
    );
    assert!(
        sc.scene_structure_dirty,
        "overlay mutation must mark structure damage"
    );
    assert!(!sc.root_overlay.is_empty());
}

#[test]
fn dispatch_clip_rects_lands_per_output_clipped() {
    let ext_a = extent(800, 600);
    let ext_b = extent(400, 400);
    let inside = rect(10, 20, 100, 50);
    let spilling_right = rect(700, 0, 200, 50);
    let outside_a_inside_b = rect(350, 350, 30, 30);
    let fully_outside = rect(2000, 2000, 50, 50);

    let rects = [inside, spilling_right, outside_a_inside_b, fully_outside];

    let mut outputs = vec![output(0, (0, 0), ext_a), output(1, (0, 0), ext_b)];
    let contributed = dispatch_clip_rects_to_outputs(&mut outputs, &rects);
    assert_eq!(contributed, vec![0, 1]);

    let a_rects = outputs[0].scene_structure_damage.rects();
    assert!(
        a_rects.contains(&inside),
        "inside rect must land unchanged on output A: {a_rects:?}",
    );
    let spilling_clipped_a = rect(700, 0, 100, 50);
    assert!(
        a_rects.contains(&spilling_clipped_a),
        "spilling rect must land CLIPPED on output A (expected {spilling_clipped_a:?}), got {a_rects:?}",
    );
    assert!(
        !a_rects.contains(&spilling_right),
        "spilling rect must NOT land in its unclipped form on output A: {a_rects:?}",
    );
    assert!(
        a_rects.contains(&outside_a_inside_b),
        "rect that fits output A unchanged must land: {a_rects:?}",
    );
    assert!(
        !a_rects.iter().any(|r| r.offset.x >= 800
            || r.offset.y >= 600
            || i64::from(r.offset.x) + i64::from(r.extent.width) > 800
            || i64::from(r.offset.y) + i64::from(r.extent.height) > 600),
        "no rect on output A may spill its 800x600 extent: {a_rects:?}",
    );

    let b_rects = outputs[1].scene_structure_damage.rects();
    assert!(
        b_rects.contains(&inside),
        "inside rect must land unchanged on output B: {b_rects:?}",
    );
    assert!(
        !b_rects.iter().any(|r| r.offset.x >= 700),
        "spilling-right (x=700) is fully outside output B and must be dropped: {b_rects:?}",
    );
    assert!(
        b_rects.contains(&outside_a_inside_b),
        "rect that fits output B unchanged must land: {b_rects:?}",
    );
    assert!(
        !b_rects
            .iter()
            .any(|r| i64::from(r.offset.x) + i64::from(r.extent.width) > 400
                || i64::from(r.offset.y) + i64::from(r.extent.height) > 400),
        "no rect on output B may spill its 400x400 extent: {b_rects:?}",
    );
}

#[test]
fn clip_rect_to_output_extent_handles_all_cases() {
    let ext = extent(800, 600);

    assert_eq!(
        clip_rect_to_output_extent(rect(10, 20, 100, 50), ext),
        Some(rect(10, 20, 100, 50)),
    );

    assert_eq!(
        clip_rect_to_output_extent(rect(700, 0, 200, 50), ext),
        Some(rect(700, 0, 100, 50)),
    );

    assert_eq!(
        clip_rect_to_output_extent(rect(0, 500, 50, 200), ext),
        Some(rect(0, 500, 50, 100)),
    );

    assert_eq!(
        clip_rect_to_output_extent(rect(-30, -20, 100, 80), ext),
        Some(rect(0, 0, 70, 60)),
    );

    assert_eq!(clip_rect_to_output_extent(rect(900, 0, 50, 50), ext), None);

    assert_eq!(clip_rect_to_output_extent(rect(0, 700, 50, 50), ext), None);

    assert_eq!(clip_rect_to_output_extent(rect(10, 10, 0, 50), ext), None);

    assert_eq!(clip_rect_to_output_extent(rect(10, 10, 50, 0), ext), None);
}

#[test]
fn buffer_age_ring_trims_to_depth() {
    let mut ring = BufferAgeRing::new(3);
    for g in 1..=5 {
        let mut r = RegionSet::new();
        r.add(rect(0, 0, 4, 4));
        ring.push(g, r);
    }
    assert_eq!(ring.len(), 3);
    let gens = ring.generations();
    assert_eq!(gens, vec![3, 4, 5]);
}

#[test]
fn buffer_age_contains_all_strict_window() {
    let mut ring = BufferAgeRing::new(4);
    let mut r = RegionSet::new();
    r.add(rect(0, 0, 4, 4));
    ring.push(3, r.clone());
    ring.push(4, r.clone());
    assert!(ring.contains_all(2, 5));
    assert!(!ring.contains_all(2, 6));
    assert!(ring.contains_all(2, 3));
}

#[test]
fn a_repeated_generation_does_not_stand_for_a_missing_one() {
    let mut ring = BufferAgeRing::new(4);
    let mut r = RegionSet::new();
    r.add(rect(0, 0, 4, 4));
    ring.push(3, r.clone());
    ring.push(3, r.clone());
    assert!(!ring.contains_all(2, 5));
    assert!(ring.contains_all(2, 4));
    ring.push(4, r.clone());
    assert!(ring.contains_all(2, 5));
    assert!(ring.contains_all(5, 5));
    assert!(ring.contains_all(7, 5));
    assert!(!ring.contains_all(0, u64::MAX));
}

#[test]
fn dormancy_keeps_a_drawable_armed_when_a_skipped_output_may_present_it() {
    let none = set(&[]);
    let out0_pieces = set(&[7, 9]);
    let out0_presented = set(&[9]);
    let out1_last = set(&[7]);
    let reports = [
        OutputWalkReport {
            walked: true,
            presented: &out0_presented,
            last_pieces: &out0_pieces,
        },
        OutputWalkReport {
            walked: false,
            presented: &none,
            last_pieces: &out1_last,
        },
    ];
    let (keep_armed, pieces) = dormancy_inputs(&reports);
    assert!(keep_armed.contains(DrawableId::from_raw(7)));
    assert!(keep_armed.contains(DrawableId::from_raw(9)));
    assert!(pieces.contains(DrawableId::from_raw(7)));
}

#[test]
fn dormancy_flags_hidden_damage_when_every_walked_output_declined_it() {
    let out0_pieces = set(&[7, 9]);
    let out0_presented = set(&[9]);
    let out1_pieces = set(&[7]);
    let out1_presented = set(&[]);
    let reports = [
        OutputWalkReport {
            walked: true,
            presented: &out0_presented,
            last_pieces: &out0_pieces,
        },
        OutputWalkReport {
            walked: true,
            presented: &out1_presented,
            last_pieces: &out1_pieces,
        },
    ];
    let (keep_armed, pieces) = dormancy_inputs(&reports);
    let seven = DrawableId::from_raw(7);
    assert!(!keep_armed.contains(seven));
    assert!(pieces.contains(seven), "so HiddenDamage");
}

#[test]
fn dormancy_flags_no_pieces_when_no_output_shows_it() {
    let out0_pieces = set(&[9]);
    let out0_presented = set(&[9]);
    let none = set(&[]);
    let out1_last = set(&[11]);
    let reports = [
        OutputWalkReport {
            walked: true,
            presented: &out0_presented,
            last_pieces: &out0_pieces,
        },
        OutputWalkReport {
            walked: false,
            presented: &none,
            last_pieces: &out1_last,
        },
    ];
    let (keep_armed, pieces) = dormancy_inputs(&reports);
    let seven = DrawableId::from_raw(7);
    assert!(!keep_armed.contains(seven));
    assert!(!pieces.contains(seven), "so NoPieces");
    assert!(keep_armed.contains(DrawableId::from_raw(11)));
}

#[test]
fn dormancy_runs_without_every_output_walking() {
    let out0_pieces = set(&[1, 5]);
    let out0_presented = set(&[5]);
    let none = set(&[]);
    let out1_last = set(&[1, 6]);
    let reports = [
        OutputWalkReport {
            walked: true,
            presented: &out0_presented,
            last_pieces: &out0_pieces,
        },
        OutputWalkReport {
            walked: false,
            presented: &none,
            last_pieces: &out1_last,
        },
    ];
    let (keep_armed, pieces) = dormancy_inputs(&reports);
    let one = DrawableId::from_raw(1);
    assert!(keep_armed.contains(one));
    let out1_pieces = set(&[1, 6]);
    let out1_presented = set(&[6]);
    let reports = [
        OutputWalkReport {
            walked: true,
            presented: &out0_presented,
            last_pieces: &out0_pieces,
        },
        OutputWalkReport {
            walked: true,
            presented: &out1_presented,
            last_pieces: &out1_pieces,
        },
    ];
    let (keep_armed, pieces2) = dormancy_inputs(&reports);
    assert!(!keep_armed.contains(one));
    assert!(pieces2.contains(one), "so HiddenDamage");
    let _ = pieces;
}

#[test]
fn intersect_rects_clips_and_rejects_disjoint() {
    assert_eq!(
        intersect_rects(rect(0, 0, 10, 10), rect(5, 5, 10, 10)),
        Some(rect(5, 5, 5, 5))
    );
    assert_eq!(intersect_rects(rect(0, 0, 10, 10), rect(10, 0, 5, 5)), None);
    assert_eq!(
        intersect_rects(rect(0, 0, 10, 10), rect(-5, -5, 30, 30)),
        Some(rect(0, 0, 10, 10))
    );
}

#[test]
fn damage_audit_attribution_filters_to_episode_event_range() {
    let mut ledger = DamageLedger::new();
    for id in 0..=6 {
        assert_eq!(ledger.record(SITE, vec![rect(0, 0, 100, 100)]), id);
    }
    ledger.retire_damage_audit_ledger(Some(3));
    ledger.note_damage_audit_contributions(4, &[0]);

    let found = ledger.ledger_candidates_for_tile(0, rect(10, 10, 1, 1), 4, 6);

    assert!(!found.contains("3@"), "stale pre-episode event included");
    assert!(found.contains("4@"));
    assert!(found.contains(":contrib"));
    assert!(found.contains("5@"));
    assert!(found.contains(":missing"));
    assert!(!found.contains("6@"), "post-episode event included");
    assert_eq!(
        found,
        "4@compositor.rs:1:contrib,5@compositor.rs:1:missing"
    );
    assert_eq!(
        ledger.ledger_candidates_for_tile(0, rect(200, 10, 1, 1), 4, 6),
        "none"
    );
}

#[test]
fn damage_in_root_coordinates_lands_on_the_output_it_is_on() {
    let mut scene = two_outputs();
    scene.scene_structure_dirty = false;
    scene.mark_scene_structure_damage_rects(&[rect(900, 10, 20, 20)], SITE);
    let inner = scene.inner.as_ref().expect("live");
    assert!(inner.outputs[0].scene_structure_damage.is_empty());
    assert_eq!(
        inner.outputs[1].scene_structure_damage.rects().as_slice(),
        &[rect(100, 10, 20, 20)]
    );
    assert!(scene.scene_structure_dirty);
}

#[test]
fn clipping_moves_a_rect_into_the_outputs_coordinates() {
    assert_eq!(
        clip_to_output(rect(790, 0, 20, 10), (800, 0), extent(400, 400)),
        Some(rect(0, 0, 10, 10))
    );
    assert_eq!(
        clip_to_output(rect(0, 0, 20, 10), (800, 0), extent(400, 400)),
        None
    );
}

#[test]
fn touching_rects_do_not_intersect() {
    assert!(!rects_intersect(rect(0, 0, 10, 10), rect(10, 0, 5, 5)));
    assert!(rects_intersect(rect(0, 0, 10, 10), rect(9, 9, 5, 5)));
    assert_eq!(
        union_bbox(rect(0, 0, 10, 10), rect(20, 30, 5, 5)),
        rect(0, 0, 25, 35)
    );
}

#[test]
fn an_overlay_drawn_twice_is_gone() {
    let mut overlay = RootOverlay::new();
    let first = overlay.toggle(1, 0xffffff, &[rect(5, 5, 20, 20)]);
    assert!(first.changed);
    assert_eq!((first.removed, first.inserted, first.total), (0, 1, 1));
    let second = overlay.toggle(1, 0xffffff, &[rect(5, 5, 20, 20)]);
    assert_eq!((second.removed, second.inserted, second.total), (1, 0, 0));
    assert!(overlay.is_empty());
}

#[test]
fn an_overlay_leaves_with_its_client() {
    let mut overlay = RootOverlay::new();
    overlay.toggle(1, 0xff, &[rect(0, 0, 4, 4)]);
    overlay.toggle(2, 0xff, &[rect(8, 8, 4, 4)]);
    assert!(overlay.on_client_disconnect(1));
    assert!(!overlay.on_client_disconnect(1));
    assert_eq!(overlay.all_rects(), vec![rect(8, 8, 4, 4)]);
    assert_eq!(
        overlay.apply_list_for_output((4, 0), extent(6, 20)),
        vec![(0xff, rect(4, 8, 2, 4))]
    );
}

#[test]
fn a_tick_visits_no_output_once_the_renderer_failed() {
    let scene = two_outputs();
    let store = DrawableStore::new();
    assert!(scene.begin_tick(&store, true).expect("ticks").is_none());
    assert_eq!(
        scene.begin_tick(&store, false).expect("ticks"),
        Some(vec![false, false])
    );
}

#[test]
fn a_tick_that_composed_clears_the_structure_and_reconciles_dormancy() {
    let mut scene = two_outputs();
    scene.scene_structure_dirty = true;
    let mut store = DrawableStore::new();
    let id = store
        .allocate(
            0x700,
            DrawableKind::Window,
            24,
            true,
            Storage {
                extent: extent(8, 8),
                image_view: 1,
                sample_view: 1,
            },
        )
        .expect("allocate");
    store.damage(id, rect(0, 0, 4, 4));
    let mut progress = TickProgress::new(2);
    progress.outcome(0, TickOutcome::Composed);
    progress.outcome(1, TickOutcome::Skipped(TickSkipReason::EmptyDamage));
    let composed = scene.finish_tick(progress, &mut store);
    assert_eq!(composed, vec![0]);
    assert!(!scene.scene_structure_dirty);
    assert_eq!(
        store.get(id).expect("drawable").dormant,
        Some(DormantReason::NoPieces)
    );
}

#[test]
fn a_tick_with_a_busy_output_keeps_the_structure_dirty() {
    let mut scene = two_outputs();
    scene.scene_structure_dirty = true;
    let mut store = DrawableStore::new();
    let mut progress = TickProgress::new(2);
    progress.outcome(0, TickOutcome::Composed);
    progress.outcome(1, TickOutcome::Skipped(TickSkipReason::PendingAcks));
    scene.finish_tick(progress, &mut store);
    assert!(scene.scene_structure_dirty);
}

#[test]
fn a_new_sprite_owes_every_showing_output_a_show() {
    let mut scene = two_outputs();
    assert!(!scene.queue_steady_state_cursor_upload(3));
    if let Some(inner) = scene.inner.as_mut() {
        inner.outputs[1].last_frame_cursor_mode = OutputCursorMode::Hw;
    }
    assert_eq!(scene.cursor_mode(), CursorPlaneMode::Hw);
    assert!(scene.queue_steady_state_cursor_upload(4));
    let inner = scene.inner.as_ref().expect("live");
    assert_eq!(inner.outputs[0].force_show_retry_version, None);
    assert_eq!(inner.outputs[1].force_show_retry_version, Some(4));
    assert_eq!(
        inner.outputs[1].scene_structure_damage.rects().as_slice(),
        &[rect(0, 0, 400, 400)]
    );
}

#[test]
fn the_ledger_forgets_its_oldest_events() {
    let mut ledger = DamageLedger::new();
    for _ in 0..MAX_LEDGER_ENTRIES + 2 {
        ledger.record(SITE, vec![rect(0, 0, 1, 1)]);
    }
    let found = ledger.candidates_for_tile(0, rect(0, 0, 1, 1), 0, 4);
    let ids: Vec<u64> = found.iter().map(|c| c.id).collect();
    assert_eq!(ids, vec![2, 3]);
    assert_eq!(ledger.dropped_events(), 2);
    assert_eq!(found[0].site.file, "compositor.rs");
    assert!(ledger.audit_has_unretired_event(5));
    ledger.retire_damage_audit_ledger(Some(ledger.next_event_id()));
    assert!(!ledger.audit_has_unretired_event(5));
}

#[test]
fn history_unions_what_a_buffer_missed() {
    let mut ring = BufferAgeRing::new(4);
    for g in 3..6 {
        let mut r = RegionSet::new();
        r.add(rect(g as i32 * 10, 0, 4, 4));
        ring.push(g, r);
    }
    let mut missed = RegionSet::new();
    ring.union_history_into(3, 6, &mut missed);
    assert_eq!(
        missed.rects().as_slice(),
        &[rect(40, 0, 4, 4), rect(50, 0, 4, 4)]
    );
}

#[test]
fn a_skip_is_news_once() {
    let mut last = None;
    assert!(!record_tick_skip(false, &mut last, TickSkipReason::NoBO));
    assert!(record_tick_skip(true, &mut last, TickSkipReason::NoBO));
    assert!(!record_tick_skip(true, &mut last, TickSkipReason::NoBO));
    assert!(record_tick_skip(true, &mut last, TickSkipReason::NoPool));
    assert_eq!(
        record_tick_success(true, &mut last),
        Some(TickSkipReason::NoPool)
    );
    assert_eq!(record_tick_success(true, &mut last), None);
}

#[test]
fn a_completion_that_nothing_waits_for_stops_the_renderer() {
    let scene = two_outputs();
    assert_eq!(
        scene.match_completion(false, Some(0), 41, 0),
        CompletionStep::FailStop
    );
    assert_eq!(
        scene.match_completion(false, Some(7), 41, 0),
        CompletionStep::FailStop
    );
    assert_eq!(
        scene.match_completion(false, None, 41, 0),
        CompletionStep::Ignored
    );
    assert_eq!(
        scene.match_completion(true, Some(0), 41, 0),
        CompletionStep::Ignored
    );
}

#[test]
fn errors_of_the_overlay_and_of_a_frame_become_scene_errors() {
    assert!(matches!(
        SceneError::from(LogicFillError::Vk(-9)),
        SceneError::Vk(-9)
    ));
    assert!(matches!(
        SceneError::from(LogicFillError::SpirvUnaligned(3)),
        SceneError::Vk(-3)
    ));
    assert!(matches!(
        SceneError::from(PresentError::NoFb),
        SceneError::Present(PresentError::NoFb)
    ));
}

#[test]
fn an_audit_is_due_while_an_event_is_unconsumed() {
    let ext = extent(100, 100);
    let audit = OutputDamageAudit::new(ext, 10, 10);
    let mut scene = SceneCompositor::new(
        vec![OutputSceneState::new(0, (0, 0), ext, 3, Some(audit))],
        true,
    );
    assert!(!scene.inner.as_ref().expect("live").idle_audit_due(0, 5, 1));
    scene.wake_for_damage(SITE);
    let inner = scene.inner.as_mut().expect("live");
    assert!(inner.idle_audit_due(0, 5, 1));
    assert_eq!(inner.min_consumed(), Some(0));
    inner.outputs[0]
        .damage_audit
        .as_mut()
        .expect("audited")
        .consumed_event_id = 1;
    inner.retire_damage_audit_ledger();
    assert!(!inner.idle_audit_due(0, 5, 1));
}

#[test]
fn images_live_in_the_first_memory_that_suits() {
    assert_eq!(device_local_memory_type(0b110, &[1, 2, 1, 1]), Some(2));
    assert_eq!(device_local_memory_type(0b001, &[2, 1]), None);
    assert_eq!(device_local_memory_type(0b010, &[0, 7]), Some(1));
}

#[test]
fn a_fresh_scene_waits_for_nothing() {
    let mut scene = two_outputs();
    assert_eq!(scene.cursor_mode(), CursorPlaneMode::Sw);
    assert!(!scene.has_pending_page_flips());
    assert!(!scene.owes_repaint());
    scene.invalidate_all_scanout_damage();
    assert!(scene.owes_repaint());
    assert_eq!(scene.earliest_retry_deadline(), None);
    assert!(scene.has_output_ready_for_submit(0));
}

#[test]
fn a_registered_sprite_is_kept_and_wakes_the_tick() {
    let entry = CursorEntry {
        id: DrawableId::from_raw(7),
        extent: extent(24, 32),
        hot_x: 3,
        hot_y: 4,
        record_version: 9,
    };
    let mut stub = SceneCompositor::stub();
    stub.scene_structure_dirty = false;
    stub.register_cursor(entry);
    assert!(!stub.scene_structure_dirty);

    let mut scene = two_outputs();
    scene.scene_structure_dirty = false;
    scene.register_cursor(entry);
    assert!(scene.scene_structure_dirty);
    let kept = scene.inner.as_ref().and_then(|i| i.cursor).expect("sprite kept");
    assert_eq!((kept.hot_x, kept.hot_y, kept.record_version), (3, 4, 9));
}

#[test]
fn a_marked_rect_lands_on_its_output_alone() {
    let mut scene = two_outputs();
    scene.scene_structure_dirty = false;
    scene.mark_scene_structure_damage_rect(1, rect(5, 6, 7, 8), SITE);
    assert!(scene.scene_structure_dirty);
    let inner = scene.inner.as_ref().expect("live");
    assert!(inner.outputs[0].scene_structure_damage.rects().is_empty());
    assert_eq!(inner.outputs[1].scene_structure_damage.rects(), &[rect(5, 6, 7, 8)]);
    scene.mark_scene_structure_damage_rect(9, rect(5, 6, 7, 8), SITE);
    let inner = scene.inner.as_ref().expect("live");
    assert_eq!(inner.outputs[1].scene_structure_damage.rects(), &[rect(5, 6, 7, 8)]);
}

#[test]
fn a_client_that_leaves_takes_its_overlay_along() {
    let mut scene = two_outputs();
    scene.root_overlay_toggle(1, 0xff, &[rect(10, 10, 4, 4)], SITE);
    scene.root_overlay_toggle(2, 0xff, &[rect(820, 20, 4, 4)], SITE);
    scene.scene_structure_dirty = false;
    scene.root_overlay_on_disconnect(3, SITE);
    assert!(!scene.scene_structure_dirty);
    assert_eq!(scene.root_overlay.all_rects().len(), 2);
    scene.root_overlay_on_disconnect(1, SITE);
    assert!(scene.scene_structure_dirty);
    assert_eq!(scene.root_overlay.all_rects(), vec![rect(820, 20, 4, 4)]);
}

#[test]
fn new_outputs_drop_the_overlay() {
    let mut scene = two_outputs();
    scene.root_overlay_toggle(1, 0xff, &[rect(10, 10, 4, 4)], SITE);
    scene.scene_structure_dirty = false;
    scene.rebuild_outputs(vec![output(0, (0, 0), extent(100, 100))], SITE);
    assert!(scene.scene_structure_dirty);
    assert!(scene.root_overlay.is_empty());
    let inner = scene.inner.as_ref().expect("live");
    assert_eq!(inner.outputs.len(), 1);
    assert_eq!(inner.outputs[0].scene_structure_damage.rects(), &[rect(10, 10, 4, 4)]);
    assert!(!scene.has_pending_page_flip(0));
    assert!(!scene.has_pending_page_flip(1));

    let mut stub = SceneCompositor::stub();
    stub.rebuild_outputs(vec![output(0, (0, 0), extent(100, 100))], SITE);
    assert!(!stub.is_live());
}

#[test]
fn only_an_all_zero_colour_is_all_zero() {
    assert!(all_zero(Rgba { r: 0, g: 0, b: 0, a: 0 }));
    assert!(!all_zero(Rgba { r: 0, g: 0, b: 0, a: 255 }));
}

#[test]
fn an_overlay_toggle_tells_what_it_did() {
    let mut scene = two_outputs();
    let first = scene.root_overlay_toggle(
        1,
        0xff,
        &[rect(10, 10, 4, 4), rect(20, 10, 4, 4)],
        SITE,
    );
    assert_eq!(
        (first.changed, first.removed, first.inserted, first.total),
        (true, 0, 2, 2)
    );
    let second = scene.root_overlay_toggle(
        1,
        0xff,
        &[rect(10, 10, 4, 4), rect(30, 10, 4, 4)],
        SITE,
    );
    assert_eq!(
        (second.changed, second.removed, second.inserted, second.total),
        (true, 1, 1, 2)
    );
    assert!(!scene.root_overlay_toggle(1, 0xff, &[], SITE).changed);
}
