use scene_compositor::draw::{CompositeDraw, CompositeScene, Rgba};
use scene_compositor::geometry::{rects_intersect, Extent2D, Offset2D, Rect2D};
use scene_compositor::recording::{record_commands, RecordCommand};
use scene_compositor::region::Region;
use scene_compositor::repaint::{
    cull_scene_to_region, opaque_cover_exists, plan_repaint, FullReason, Repaint,
};
use scene_compositor::scanout_damage::{stage_submitted_frame, ScanoutDamage};
use scene_compositor::scene_diff::SourceRect;
use scene_compositor::tick::skip_for_empty_damage;

fn rect(x: i32, y: i32, w: u32, h: u32) -> Rect2D {
    Rect2D {
        offset: Offset2D { x, y },
        extent: Extent2D {
            width: w,
            height: h,
        },
    }
}

fn extent(w: u32, h: u32) -> Extent2D {
    Extent2D {
        width: w,
        height: h,
    }
}

fn draw_at(x: i32, y: i32, w: u32, h: u32, alpha_passthrough: bool) -> CompositeDraw {
    CompositeDraw {
        image_view: 0,
        dst: rect(x, y, w, h),
        source: SourceRect::full(),
        alpha_passthrough,
    }
}

/// What the root draw is: opaque, over the whole output.
fn opaque_root(w: u32, h: u32) -> CompositeDraw {
    draw_at(0, 0, w, h, false)
}

fn region_of(rects: &[Rect2D]) -> Region {
    Region::from_rects(rects)
}

fn small_damage() -> Region {
    region_of(&[rect(10, 10, 40, 40)])
}

#[test]
fn clipped_path_is_taken_for_small_damage_under_an_opaque_root() {
    let draws = [opaque_root(800, 600)];
    let plan = plan_repaint(&small_damage(), &draws, extent(800, 600), true, true);
    assert!(plan.full_reason.is_none());
    let Repaint::Clipped(area) = plan.repaint else {
        panic!("expected Clipped, got {:?}", plan.repaint);
    };
    assert_eq!(area, rect(10, 10, 40, 40));
    assert_eq!(plan.painted.bounding_rect(), Some(area));
}

#[test]
fn painted_always_covers_what_was_requested() {
    let cases: [(&[CompositeDraw], bool, bool); 4] = [
        (&[opaque_root(800, 600)], true, true),
        (&[], true, true),
        (&[opaque_root(800, 600)], false, true),
        (&[draw_at(0, 0, 800, 600, true)], true, true),
    ];
    for (draws, loadable, shared) in cases {
        let requested = small_damage();
        let plan = plan_repaint(&requested, draws, extent(800, 600), loadable, shared);
        assert!(
            plan.painted.contains(&requested),
            "painted must cover requested for {:?}",
            plan.full_reason
        );
    }
}

#[test]
fn empty_draw_list_forces_full() {
    let plan = plan_repaint(&small_damage(), &[], extent(800, 600), true, true);
    assert_eq!(plan.full_reason, Some(FullReason::EmptyDrawList));
    assert!(matches!(plan.repaint, Repaint::Full(_)));
}

#[test]
fn unloadable_bo_forces_full() {
    let draws = [opaque_root(800, 600)];
    let plan = plan_repaint(&small_damage(), &draws, extent(800, 600), false, true);
    assert_eq!(plan.full_reason, Some(FullReason::UnloadableBo));
}

#[test]
fn copied_route_forces_full() {
    let draws = [opaque_root(800, 600)];
    let plan = plan_repaint(&small_damage(), &draws, extent(800, 600), true, false);
    assert_eq!(plan.full_reason, Some(FullReason::CopiedRoute));
}

#[test]
fn a_blended_bottom_layer_forces_full() {
    let draws = [draw_at(0, 0, 800, 600, true)];
    let plan = plan_repaint(&small_damage(), &draws, extent(800, 600), true, true);
    assert_eq!(plan.full_reason, Some(FullReason::NoOpaqueCover));
}

#[test]
fn an_opaque_draw_that_does_not_reach_the_damage_forces_full() {
    let draws = [draw_at(0, 0, 20, 20, false)];
    let plan = plan_repaint(&small_damage(), &draws, extent(800, 600), true, true);
    assert_eq!(plan.full_reason, Some(FullReason::NoOpaqueCover));
}

#[test]
fn damage_above_the_threshold_renders_full() {
    let draws = [opaque_root(800, 600)];
    let below = region_of(&[rect(0, 0, 800, 300)]);
    assert!(
        plan_repaint(&below, &draws, extent(800, 600), true, true)
            .full_reason
            .is_none()
    );
    let above = region_of(&[rect(0, 0, 800, 420)]);
    assert_eq!(
        plan_repaint(&above, &draws, extent(800, 600), true, true).full_reason,
        Some(FullReason::Threshold)
    );
}

#[test]
fn the_threshold_is_measured_on_what_will_be_painted() {
    let draws = [opaque_root(800, 600)];
    let sparse = region_of(&[rect(0, 0, 8, 8), rect(790, 590, 8, 8)]);
    assert!(sparse.area() < 200, "region really is tiny");
    let plan = plan_repaint(&sparse, &draws, extent(800, 600), true, true);
    assert!(plan.full_reason.is_none(), "per-rect keeps this clipped");
    assert_eq!(plan.scissors.len(), 2);

}

#[test]
fn a_single_contiguous_damage_rect_renders_under_one_scissor() {
    let draws = [opaque_root(800, 600)];
    let plan = plan_repaint(&small_damage(), &draws, extent(800, 600), true, true);
    assert_eq!(plan.scissors.len(), 1);
    assert_eq!(plan.scissors[0], rect(10, 10, 40, 40));
}

#[test]
fn two_separated_rects_render_per_rect_and_painted_excludes_the_gap() {
    let draws = [opaque_root(800, 600)];
    let dragged = region_of(&[rect(0, 0, 100, 100), rect(300, 0, 100, 100)]);
    let plan = plan_repaint(&dragged, &draws, extent(800, 600), true, true);
    assert!(plan.full_reason.is_none());
    assert_eq!(plan.scissors.len(), 2, "should render per rect");
    assert_eq!(plan.painted.area(), 2 * 100 * 100, "the gap is not painted");
    assert!(matches!(plan.repaint, Repaint::Clipped(_)));
}

#[test]
fn adjacent_rects_stay_under_one_scissor() {
    let draws = [opaque_root(800, 600)];
    let touching = region_of(&[rect(0, 0, 50, 50), rect(50, 0, 50, 50)]);
    let plan = plan_repaint(&touching, &draws, extent(800, 600), true, true);
    assert_eq!(plan.scissors.len(), 1);
}

#[test]
fn per_rect_rendering_keeps_frames_off_the_full_path() {
    let draws = [opaque_root(800, 600)];
    let spread = region_of(&[rect(0, 0, 100, 100), rect(700, 500, 100, 100)]);
    assert_eq!(
        spread.bounding_rect(),
        Some(rect(0, 0, 800, 600)),
        "bbox is the screen"
    );
    let plan = plan_repaint(&spread, &draws, extent(800, 600), true, true);
    assert!(
        plan.full_reason.is_none(),
        "per-rect should have kept this clipped, got {:?}",
        plan.full_reason
    );
    assert_eq!(plan.painted.area(), 2 * 100 * 100);
}

#[test]
fn a_fragmented_region_still_renders_per_rect() {
    let draws = [opaque_root(800, 600)];
    let mut scattered = Region::new();
    for i in 0..12 {
        scattered.add_rect(rect(i * 60, i * 40, 10, 10));
    }
    assert_eq!(scattered.rect_count(), 12);
    let plan = plan_repaint(&scattered, &draws, extent(800, 600), true, true);
    assert_eq!(
        plan.scissors.len(),
        12,
        "each fragment gets its own scissor"
    );
    assert_eq!(
        plan.painted.area(),
        12 * 100,
        "and the gaps are not painted"
    );
}

#[test]
fn a_region_past_its_own_cap_arrives_already_collapsed() {
    let draws = [opaque_root(800, 600)];
    let mut many = Region::new();
    for i in 0..(Region::MAX_RECTS + 10) {
        many.add_rect(rect((i as i32 % 40) * 20, (i as i32 / 40) * 20, 5, 5));
    }
    assert!(many.rect_count() <= Region::MAX_RECTS);
    let plan = plan_repaint(&many, &draws, extent(800, 600), true, true);
    assert!(plan.scissors.len() <= Region::MAX_RECTS);
}

#[test]
fn scissors_are_disjoint_which_the_overlay_xor_depends_on() {
    let draws = [opaque_root(800, 600)];
    let straddling = region_of(&[
        rect(0, 0, 100, 30),
        rect(0, 30, 40, 30),
        rect(300, 0, 100, 100),
    ]);
    let plan = plan_repaint(&straddling, &draws, extent(800, 600), true, true);
    let s = &plan.scissors;
    for (i, a) in s.iter().enumerate() {
        for b in &s[i + 1..] {
            assert!(!rects_intersect(*a, *b), "scissors overlap: {a:?} {b:?}");
        }
    }
    let mut covered = Region::new();
    for r in s {
        covered.add_rect(*r);
    }
    if s.len() > 1 {
        assert_eq!(covered, straddling);
    }
}

#[test]
fn a_full_fallback_still_claims_the_whole_output() {
    let plan = plan_repaint(&small_damage(), &[], extent(800, 600), true, true);
    assert_eq!(plan.scissors, vec![rect(0, 0, 800, 600)]);
    assert_eq!(plan.painted.area(), 800 * 600);
}

#[test]
fn culling_drops_draws_outside_the_rect_and_keeps_order() {
    let scene = CompositeScene {
        bg_color: Rgba { r: 0, g: 0, b: 0, a: 255 },
        draws: vec![
            opaque_root(800, 600),
            draw_at(400, 400, 50, 50, true),
            draw_at(10, 10, 20, 20, true),
        ],
    };
    let culled = cull_scene_to_region(&scene, &Region::from_rect(rect(0, 0, 100, 100)));
    assert_eq!(culled.draws.len(), 2, "the far draw is culled");
    assert_eq!(culled.draws[0].dst.extent, extent(800, 600), "root stays first");
    assert_eq!(culled.draws[1].dst.offset, Offset2D { x: 10, y: 10 });
    assert_eq!(culled.bg_color, scene.bg_color);
    assert!(opaque_cover_exists(
        &culled.draws,
        rect(0, 0, 100, 100)
    ));
}

#[test]
fn opaque_cover_accepts_a_union_of_draws_across_a_window_edge() {
    let draws = [
        draw_at(0, 0, 800, 150, false),
        draw_at(0, 350, 800, 250, false),
        draw_at(0, 150, 200, 200, false),
        draw_at(400, 150, 400, 200, false),
        draw_at(200, 150, 200, 200, false),
    ];
    assert!(opaque_cover_exists(&draws, rect(150, 100, 100, 100)));
    assert!(opaque_cover_exists(&draws, rect(0, 0, 800, 600)));
}

#[test]
fn opaque_cover_rejects_a_one_pixel_gap_in_the_union() {
    let draws = [
        draw_at(0, 0, 800, 150, false),
        draw_at(0, 351, 800, 249, false),
        draw_at(0, 150, 200, 200, false),
        draw_at(400, 150, 400, 200, false),
        draw_at(200, 150, 200, 200, false),
    ];
    assert!(!opaque_cover_exists(&draws, rect(150, 300, 100, 100)));
    let mut with_alpha = draws.to_vec();
    with_alpha.push(draw_at(0, 340, 800, 20, true));
    assert!(!opaque_cover_exists(
        &with_alpha,
        rect(150, 300, 100, 100)
    ));
}

#[test]
fn clipped_path_with_two_scissors_covered_by_different_draws() {
    let draws = [
        draw_at(0, 0, 400, 600, false),
        draw_at(400, 0, 400, 600, false),
    ];
    let damage = region_of(&[rect(10, 10, 20, 20), rect(700, 500, 20, 20)]);
    let plan = plan_repaint(&damage, &draws, extent(800, 600), true, true);
    assert!(plan.full_reason.is_none(), "{:?}", plan.full_reason);
    assert_eq!(plan.scissors.len(), 2);
    assert!(
        plan.scissors
            .iter()
            .all(|r| opaque_cover_exists(&draws, *r))
    );
}

#[test]
fn an_owed_repaint_is_not_an_empty_damage_skip() {
    assert!(skip_for_empty_damage(true, false, false), "idle skips");
    assert!(
        !skip_for_empty_damage(false, false, false),
        "damage composes"
    );
    assert!(
        !skip_for_empty_damage(true, true, false),
        "first frame composes"
    );
    assert!(
        !skip_for_empty_damage(true, false, true),
        "owed repaint (invalidated BO) must compose"
    );
}

#[test]
fn incomplete_submit_invalidates_instead_of_staging() {
    let ext = extent(800, 600);
    let mut damage = ScanoutDamage::new(2, ext);
    let repaint = region_of(&[rect(10, 10, 40, 40)]);
    stage_submitted_frame(&mut damage, true, 0, &repaint, &repaint);
    assert!(damage.has_staged_frame());
    damage.retire_success();
    assert!(!damage.has_staged_frame());
    stage_submitted_frame(&mut damage, false, 1, &repaint, &repaint);
    assert!(!damage.has_staged_frame());
    for bo in 0..2 {
        assert_eq!(
            damage.missing_area(bo),
            u64::from(ext.width) * u64::from(ext.height),
            "bo {bo} must owe the full output after an incomplete submit"
        );
    }
}

/// What commands leave on every pixel of a small buffer, over what it held.
fn replay(
    commands: &[RecordCommand],
    draws: &[CompositeDraw],
    mut buffer: Vec<Vec<u64>>,
    width: i32,
) -> Vec<Vec<u64>> {
    let mut scissor = rect(0, 0, 0, 0);
    let mut blend = false;
    for c in commands {
        match *c {
            RecordCommand::Scissor(s) => scissor = s,
            RecordCommand::Pipeline { blend: b } => blend = b,
            RecordCommand::Draw(i) => {
                for (k, pixel) in buffer.iter_mut().enumerate() {
                    let at = rect(k as i32 % width, k as i32 / width, 1, 1);
                    if rects_intersect(at, scissor) && rects_intersect(at, draws[i].dst) {
                        if !blend {
                            pixel.clear();
                        }
                        pixel.push(draws[i].image_view);
                    }
                }
            }
        }
    }
    buffer
}

#[test]
fn a_clipped_frame_leaves_what_a_full_one_would() {
    let mut draws = vec![
        opaque_root(40, 30),
        draw_at(5, 5, 10, 10, false),
        draw_at(8, 2, 20, 10, true),
        draw_at(30, 20, 8, 8, false),
    ];
    for (i, d) in draws.iter_mut().enumerate() {
        d.image_view = i as u64 + 1;
    }
    let scene = CompositeScene {
        bg_color: Rgba { r: 0, g: 0, b: 0, a: 255 },
        draws,
    };
    let ext = extent(40, 30);
    let fresh = vec![Vec::new(); 40 * 30];
    let whole = [rect(0, 0, 40, 30)];
    let full = replay(
        &record_commands(&scene.draws, 4, &whole, Repaint::Full(ext)),
        &scene.draws,
        fresh,
        40,
    );
    let damage = region_of(&[rect(6, 4, 6, 4), rect(31, 21, 3, 3)]);
    let plan = plan_repaint(&damage, &scene.draws, ext, true, true);
    assert_eq!(plan.scissors.len(), 2);
    let culled = cull_scene_to_region(&scene, &plan.painted);
    let stale = vec![vec![99]; 40 * 30];
    let clipped = replay(
        &record_commands(
            &culled.draws,
            culled.draws.len(),
            &plan.scissors,
            plan.repaint,
        ),
        &culled.draws,
        stale,
        40,
    );
    for (k, pixel) in clipped.iter().enumerate() {
        let at = rect(k as i32 % 40, k as i32 / 40, 1, 1);
        if plan.painted.intersects_rect(at) {
            assert_eq!(*pixel, full[k], "painted pixel {at:?}");
        } else {
            assert_eq!(*pixel, vec![99], "untouched pixel {at:?}");
        }
    }
}
