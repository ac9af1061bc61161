use scene_compositor::geometry::{Extent2D, Offset2D, Rect2D};
use scene_compositor::region::Region;
use scene_compositor::scene_diff::{
    presence_from_place, structural_damage, ParticipantId, PresenceSignature, ScenePresence,
    SceneRole, SourceRect,
};
use std::collections::BTreeSet;

fn rect(x: i32, y: i32, w: u32, h: u32) -> Rect2D {
    Rect2D {
        offset: Offset2D { x, y },
        extent: Extent2D {
            width: w,
            height: h,
        },
    }
}

fn id(xid: u32) -> ParticipantId {
    ParticipantId {
        role: SceneRole::Window,
        xid,
        generation: u64::from(xid),
    }
}

fn sig() -> PresenceSignature {
    PresenceSignature::new(0, SourceRect::full(), false)
}

fn presence(xid: u32, r: Rect2D) -> ScenePresence {
    ScenePresence {
        id: id(xid),
        region: Region::from_rect(r),
        place: vec![r],
        visible: Region::from_rect(r),
        signature: sig(),
    }
}

fn shape(xid: u32, rects: &[Rect2D]) -> ScenePresence {
    presence_from_place(rects.to_vec(), Region::new(), id(xid), sig()).expect("non-empty shape")
}

fn pixels(r: &Region) -> BTreeSet<(i32, i32)> {
    let mut s = BTreeSet::new();
    for rc in r.rects() {
        for y in rc.offset.y..rc.offset.y + rc.extent.height as i32 {
            for x in rc.offset.x..rc.offset.x + rc.extent.width as i32 {
                s.insert((x, y));
            }
        }
    }
    s
}

#[test]
fn an_unchanged_scene_owes_nothing() {
    let scene = vec![
        presence(1, rect(0, 0, 100, 100)),
        presence(2, rect(5, 5, 10, 10)),
    ];
    assert!(structural_damage(&scene, &scene).is_empty());
}

#[test]
fn a_moved_window_damages_old_and_new() {
    let before = vec![presence(1, rect(0, 0, 20, 20))];
    let after = vec![presence(1, rect(50, 50, 20, 20))];
    let d = structural_damage(&before, &after);
    let mut expect = Region::from_rect(rect(0, 0, 20, 20));
    expect.union_with(&Region::from_rect(rect(50, 50, 20, 20)));
    assert_eq!(pixels(&d), pixels(&expect));
}

#[test]
fn a_mapped_window_damages_only_itself() {
    let before = vec![presence(1, rect(0, 0, 200, 200))];
    let after = vec![
        presence(1, rect(0, 0, 200, 200)),
        presence(2, rect(10, 10, 30, 30)),
    ];
    assert_eq!(
        pixels(&structural_damage(&before, &after)),
        pixels(&Region::from_rect(rect(10, 10, 30, 30)))
    );
}

#[test]
fn an_unmapped_window_damages_where_it_was() {
    let before = vec![
        presence(1, rect(0, 0, 200, 200)),
        presence(2, rect(10, 10, 30, 30)),
    ];
    let after = vec![presence(1, rect(0, 0, 200, 200))];
    assert_eq!(
        pixels(&structural_damage(&before, &after)),
        pixels(&Region::from_rect(rect(10, 10, 30, 30)))
    );
}

#[test]
fn resampling_the_same_geometry_still_damages() {
    let before = vec![presence(1, rect(0, 0, 20, 20))];
    let mut after = before.clone();
    after[0].signature =
        PresenceSignature::new(
            0,
            SourceRect {
                x: 1,
                y: 0,
                width: 2,
                height: 1,
                of_width: 4,
                of_height: 1,
            },
            false,
        );
    assert_eq!(
        pixels(&structural_damage(&before, &after)),
        pixels(&Region::from_rect(rect(0, 0, 20, 20)))
    );
}

#[test]
fn an_alpha_flip_damages() {
    let before = vec![presence(1, rect(0, 0, 20, 20))];
    let mut after = before.clone();
    after[0].signature =
        PresenceSignature::new(0, SourceRect::full(), true);
    assert!(!structural_damage(&before, &after).is_empty());
}

#[test]
fn xid_reuse_is_not_mistaken_for_the_same_window() {
    let before = vec![presence(1, rect(0, 0, 20, 20))];
    let mut after = before.clone();
    after[0].id.generation = 999;
    assert_eq!(
        pixels(&structural_damage(&before, &after)),
        pixels(&Region::from_rect(rect(0, 0, 20, 20))),
        "a recreated window must damage its region"
    );
}

#[test]
fn the_same_xid_in_two_roles_is_two_participants() {
    let root = ScenePresence {
        id: ParticipantId {
            role: SceneRole::Root,
            xid: 1,
            generation: 1,
        },
        region: Region::from_rect(rect(0, 0, 100, 100)),
        place: vec![rect(0, 0, 100, 100)],
        visible: Region::from_rect(rect(0, 0, 100, 100)),
        signature: sig(),
    };
    let win = presence(1, rect(0, 0, 100, 100));
    assert_ne!(root.id, win.id);
    assert!(structural_damage(&[root.clone(), win.clone()], &[root, win]).is_empty());
}

#[test]
fn a_raise_damages_only_where_it_overlaps_what_it_jumped_over() {
    let a = presence(1, rect(0, 0, 30, 10));
    let b = presence(2, rect(20, 0, 30, 10));
    let c = presence(3, rect(40, 0, 30, 10));
    assert!(
        structural_damage(
            &[a.clone(), b.clone(), c.clone()],
            &[a.clone(), b.clone(), c.clone()]
        )
        .is_empty()
    );
    let d = structural_damage(
        &[a.clone(), b.clone(), c.clone()],
        &[b.clone(), c.clone(), a],
    );
    assert_eq!(pixels(&d), pixels(&Region::from_rect(rect(20, 0, 10, 10))));
}

#[test]
fn a_raised_window_damages_only_what_it_overlaps() {
    let a = presence(1, rect(0, 0, 100, 100));
    let b = presence(2, rect(50, 50, 100, 100));
    let c = presence(3, rect(300, 300, 20, 20));
    let d = structural_damage(
        &[a.clone(), b.clone(), c.clone()],
        &[b.clone(), a.clone(), c.clone()],
    );
    assert_eq!(
        pixels(&d),
        pixels(&Region::from_rect(rect(50, 50, 50, 50))),
        "exactly a & b"
    );
    let mut union = Region::from_rect(rect(0, 0, 100, 100));
    union.union_with(&Region::from_rect(rect(50, 50, 100, 100)));
    assert_ne!(pixels(&d), pixels(&union), "not the coarse a | b");
    assert!(
        !d.intersects_rect(rect(300, 300, 20, 20)),
        "c never reordered relative to anything it overlaps"
    );
}

#[test]
fn a_restack_past_a_non_overlapping_window_damages_nothing() {
    let a = presence(1, rect(0, 0, 10, 10));
    let c = presence(3, rect(40, 0, 10, 10));
    let d = structural_damage(&[a.clone(), c.clone()], &[c, a]);
    assert!(
        d.is_empty(),
        "disjoint windows swapping order change no pixel"
    );
}

#[test]
fn a_window_moved_past_several_damages_each_overlap() {
    let p = presence(1, rect(0, 0, 50, 50));
    let q1 = presence(2, rect(40, 0, 50, 20));
    let q2 = presence(3, rect(40, 10, 50, 20));
    let q3 = presence(4, rect(0, 40, 20, 50));
    let d = structural_damage(
        &[p.clone(), q1.clone(), q2.clone(), q3.clone()],
        &[q1.clone(), q2.clone(), q3.clone(), p.clone()],
    );
    let mut expect = Region::from_rect(rect(40, 0, 10, 20));
    expect.union_with(&Region::from_rect(rect(40, 10, 10, 20)));
    expect.union_with(&Region::from_rect(rect(0, 40, 20, 10)));
    assert_eq!(pixels(&d), pixels(&expect));
    assert!(!d.intersects_rect(rect(50, 10, 40, 10)));
}

#[test]
fn restack_plus_move_is_still_old_union_new() {
    let a_old = presence(1, rect(0, 0, 10, 10));
    let a_new = presence(1, rect(100, 100, 10, 10));
    let b = presence(2, rect(5, 5, 10, 10));
    let d = structural_damage(&[a_old.clone(), b.clone()], &[b.clone(), a_new.clone()]);
    let mut expect = Region::from_rect(rect(0, 0, 10, 10));
    expect.union_with(&Region::from_rect(rect(100, 100, 10, 10)));
    assert_eq!(pixels(&d), pixels(&expect));
}

#[test]
fn a_batched_restack_damages_the_pivot_that_kept_its_rank() {
    let a = presence(1, rect(0, 0, 30, 10));
    let b = presence(2, rect(20, 0, 30, 10));
    let c = presence(3, rect(40, 0, 30, 10));
    let d = structural_damage(
        &[a.clone(), b.clone(), c.clone()],
        &[c.clone(), b.clone(), a.clone()],
    );
    let mut expect = Region::from_rect(rect(20, 0, 10, 10));
    expect.union_with(&Region::from_rect(rect(40, 0, 10, 10)));
    assert_eq!(
        pixels(&d),
        pixels(&expect),
        "b flipped against both a and c: both overlaps are owed"
    );
}

#[test]
fn a_shape_change_beyond_the_region_cap_is_still_a_move() {
    let mut one = vec![rect(0, 0, 2, 2)];
    let mut two = vec![rect(0, 0, 2, 2)];
    for i in 1..32 {
        one.push(rect(i * 4, 0, 2, 2));
        two.push(rect(i * 4 + 1, 0, 2, 2));
    }
    for i in 32..40 {
        one.push(rect(i * 4, 0, 2, 2));
        two.push(rect(i * 4, 0, 2, 2));
    }
    let before = shape(7, &one);
    let after = shape(7, &two);
    assert_eq!(
        before.region, after.region,
        "precondition: the capped regions are indistinguishable"
    );
    let d = structural_damage(std::slice::from_ref(&before), std::slice::from_ref(&after));
    assert!(!d.is_empty(), "a different shape must owe damage");
    assert!(
        d.intersects_rect(rect(4, 0, 2, 2)),
        "covers a fragment that is in one shape and not the other"
    );
    let same = structural_damage(
        std::slice::from_ref(&before),
        std::slice::from_ref(&shape(7, &one)),
    );
    assert!(same.is_empty());
}

#[test]
fn a_map_does_not_read_as_a_restack_of_everything() {
    let a = presence(1, rect(0, 0, 10, 10));
    let b = presence(2, rect(20, 0, 10, 10));
    let new = presence(9, rect(60, 0, 5, 5));
    let d = structural_damage(&[a.clone(), b.clone()], &[a, new, b]);
    assert_eq!(
        pixels(&d),
        pixels(&Region::from_rect(rect(60, 0, 5, 5))),
        "only the new participant should be damaged"
    );
}

#[test]
fn a_shaped_window_is_one_participant_with_a_unioned_region() {
    let place = [rect(0, 0, 10, 10), rect(20, 0, 10, 10)];
    let p = presence_from_place(place.to_vec(), Region::new(), id(1), sig()).expect("placed");
    let mut expect = Region::from_rect(rect(0, 0, 10, 10));
    expect.union_with(&Region::from_rect(rect(20, 0, 10, 10)));
    assert_eq!(pixels(&p.region), pixels(&expect));
}

#[test]
fn a_participant_with_no_place_has_no_presence() {
    assert!(presence_from_place(Vec::new(), Region::new(), id(1), sig()).is_none());
}

#[test]
fn a_visibility_change_alone_owes_nothing() {
    let before = vec![ScenePresence {
        id: id(1),
        region: Region::from_rect(rect(0, 0, 100, 100)),
        place: vec![rect(0, 0, 100, 100)],
        visible: Region::from_rect(rect(0, 0, 100, 100)),
        signature: sig(),
    }];
    let after = vec![ScenePresence {
        id: id(1),
        region: Region::from_rect(rect(0, 0, 100, 100)),
        place: vec![rect(0, 0, 100, 100)],
        visible: Region::new(),
        signature: sig(),
    }];
    assert!(structural_damage(&before, &after).is_empty());
    assert!(structural_damage(&after, &before).is_empty());
}

#[test]
fn first_frame_against_nothing_damages_everything_present() {
    let now = vec![
        presence(1, rect(0, 0, 100, 100)),
        presence(2, rect(10, 10, 20, 20)),
    ];
    let d = structural_damage(&[], &now);
    assert_eq!(pixels(&d), pixels(&Region::from_rect(rect(0, 0, 100, 100))));
}
