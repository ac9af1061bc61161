//! What a frame repaints: all that changed since the last one, and nothing where
//! nothing did.

use vstd::prelude::*;

use crate::geometry::{output_rect, Rect2D};
use crate::output::{drafted, OutputView};
use crate::region::{
    bbox_px, boxes, capped, in_plane, lemma_boxes_partition_pixels, lemma_capped, partitions,
};
use crate::region_set::{adding_keeps_all_damage, list_add, list_add_all, list_px};
use crate::scene_build::BuildView;
use crate::scene_diff::{
    appeared_at, changed_at, damage_changed, damage_pairs, damage_vanished, flipped_at, has_id,
    last_of, lemma_last_of, owed_px, ranks, same_structure, structural_damage_covers_every_change,
    structural_px, unchanged_structure_owes_nothing, vanished_at, ParticipantId, ScenePresence,
};

verus! {

/// Adding a list of rectangles loses no damage.
pub proof fn lemma_add_all(s: Seq<Rect2D>, other: Seq<Rect2D>)
    ensures
        list_px(s).subset_of(list_px(list_add_all(s, other))),
        list_px(other).subset_of(list_px(list_add_all(s, other))),
    decreases other.len(),
{
    if other.len() > 0 {
        let t = other.drop_last();
        lemma_add_all(s, t);
        adding_keeps_all_damage(list_add_all(s, t), other.last());
        assert forall|a: (int, int)| list_px(other).contains(a) implies list_px(
            list_add_all(s, other),
        ).contains(a) by {
            let i = choose|i: int| 0 <= i < other.len() && (#[trigger] other[i]).has(a.0, a.1);
            if i < t.len() {
                assert(t[i].has(a.0, a.1));
                assert(list_px(t).contains(a));
            } else {
                assert(other.last().px().contains(a));
            }
        }
    } else {
        assert(list_px(other) =~= Set::empty());
    }
}

proof fn lemma_no_pixel(s: Seq<Rect2D>, a: (int, int))
    requires
        list_px(s).contains(a),
    ensures
        s.len() > 0,
{
}

/// A cursor that is not as it was last presented (elsewhere, another sprite, or
/// on its way between the plane and the frame) is repainted where it was and where
/// it is now, whole. A frame that has such a pixel is not skipped.
pub proof fn a_changed_cursor_is_repainted_where_it_was_and_is(
    o: OutputView,
    b: BuildView,
    participants: Seq<ScenePresence>,
    plane_visible: bool,
    a: (int, int),
)
    requires
        ({
            let d = drafted(o, b, participants, plane_visible);
            ||| d.built.new_cursor_rect != o.cursor_rect
            ||| d.built.cursor_record_version != o.cursor_version
            ||| d.transition is Some
        }),
        ({
            let d = drafted(o, b, participants, plane_visible);
            ||| o.cursor_rect is Some && o.cursor_rect->0.has(a.0, a.1)
            ||| d.built.new_cursor_rect is Some && d.built.new_cursor_rect->0.has(a.0, a.1)
        }),
    ensures
        ({
            let d = drafted(o, b, participants, plane_visible);
            &&& list_px(d.output_damage).contains(a)
            &&& !d.skip
        }),
{
    let d = drafted(o, b, participants, plane_visible);
    let none = Seq::<Rect2D>::empty();
    let was = match o.cursor_rect {
        Some(r) => list_add(none, r),
        None => none,
    };
    if o.cursor_rect is Some {
        adding_keeps_all_damage(none, o.cursor_rect->0);
    }
    let is = match d.built.new_cursor_rect {
        Some(r) => if d.built.new_cursor_rect == o.cursor_rect { was } else { list_add(was, r) },
        None => was,
    };
    if d.built.new_cursor_rect is Some {
        adding_keeps_all_damage(was, d.built.new_cursor_rect->0);
        assert(d.built.new_cursor_rect->0.has(a.0, a.1)
            ==> d.built.new_cursor_rect->0.px().contains(a));
    }
    assert(o.cursor_rect is Some && o.cursor_rect->0.has(a.0, a.1)
        ==> o.cursor_rect->0.px().contains(a));
    assert(list_px(is).contains(a));
    lemma_frame_damage(o, d.built, participants, is, a);
    lemma_no_pixel(d.output_damage, a);
}

proof fn lemma_frame_damage(
    o: OutputView,
    b: BuildView,
    participants: Seq<ScenePresence>,
    cursor: Seq<Rect2D>,
    a: (int, int),
)
    ensures
        ({
            let s1 = list_add_all(b.projected_damage, cursor);
            let s2 = list_add_all(s1, o.structure_damage.rects());
            let s3 = list_add_all(s2, o.failed_repaint.rects());
            let s4 = list_add_all(s3, boxes(structural_px(o.prev_presented, participants)));
            list_px(b.projected_damage).contains(a) || list_px(cursor).contains(a)
                || o.structure_damage.px().contains(a) || o.failed_repaint.px().contains(a)
                || list_px(boxes(structural_px(o.prev_presented, participants))).contains(a)
                ==> list_px(s4).contains(a)
        }),
{
    let s1 = list_add_all(b.projected_damage, cursor);
    let s2 = list_add_all(s1, o.structure_damage.rects());
    let s3 = list_add_all(s2, o.failed_repaint.rects());
    lemma_add_all(b.projected_damage, cursor);
    lemma_add_all(s1, o.structure_damage.rects());
    lemma_add_all(s2, o.failed_repaint.rects());
    lemma_add_all(s3, boxes(structural_px(o.prev_presented, participants)));
}

/// Whatever its drawables changed, whatever was marked and whatever a failed frame
/// still owes is repainted, and a frame with such a pixel is not skipped. Of the
/// build only the cursor that lives in the frame may be left out.
pub proof fn a_frame_repaints_what_is_owed(
    o: OutputView,
    b: BuildView,
    participants: Seq<ScenePresence>,
    plane_visible: bool,
    a: (int, int),
)
    requires
        list_px(b.projected_damage).contains(a) || o.structure_damage.px().contains(a)
            || o.failed_repaint.px().contains(a),
    ensures
        ({
            let d = drafted(o, b, participants, plane_visible);
            &&& list_px(d.output_damage).contains(a)
            &&& !d.skip
            &&& d.participants == participants
            &&& d.built.snapshots == b.snapshots
            &&& d.built.projected_damage == b.projected_damage
            &&& d.built.participants == b.participants
        }),
{
    let d = drafted(o, b, participants, plane_visible);
    let cursor = crate::cursor::cursor_damage_list(
        o.cursor_rect,
        o.cursor_version,
        d.built.new_cursor_rect,
        d.built.cursor_record_version,
        d.transition is Some,
    );
    lemma_frame_damage(o, d.built, participants, cursor, a);
    lemma_no_pixel(d.output_damage, a);
}

/// Whether all pixels of every participant are pixels of the plane.
pub open spec fn placed_in_plane(list: Seq<ScenePresence>) -> bool {
    forall|i: int, x: int, y: int|
        0 <= i < list.len() && #[trigger] list[i].region@.contains((x, y)) ==> in_plane(x, y)
}

spec fn flat(p: Set<(int, int)>) -> bool {
    forall|x: int, y: int| #[trigger] p.contains((x, y)) ==> in_plane(x, y)
}

pub proof fn lemma_bounded(p: Set<(int, int)>, q: (int, int)) -> (r: (
    (int, int),
    (int, int),
    (int, int),
    (int, int),
))
    requires
        bbox_px(p).contains(q),
    ensures
        p.contains(r.0) && r.0.0 <= q.0,
        p.contains(r.1) && q.0 <= r.1.0,
        p.contains(r.2) && r.2.1 <= q.1,
        p.contains(r.3) && q.1 <= r.3.1,
{
    assert({
        &&& exists|a: (int, int)| #[trigger] p.contains(a) && a.0 <= q.0
        &&& exists|a: (int, int)| #[trigger] p.contains(a) && q.0 <= a.0
        &&& exists|a: (int, int)| #[trigger] p.contains(a) && a.1 <= q.1
        &&& exists|a: (int, int)| #[trigger] p.contains(a) && q.1 <= a.1
    }) by {
        reveal(bbox_px);
    }
    (
        choose|a: (int, int)| #[trigger] p.contains(a) && a.0 <= q.0,
        choose|a: (int, int)| #[trigger] p.contains(a) && q.0 <= a.0,
        choose|a: (int, int)| #[trigger] p.contains(a) && a.1 <= q.1,
        choose|a: (int, int)| #[trigger] p.contains(a) && q.1 <= a.1,
    )
}

proof fn lemma_flat_capped(p: Set<(int, int)>)
    requires
        flat(p),
    ensures
        flat(capped(p)),
{
    lemma_capped(p);
    assert forall|x: int, y: int| #[trigger] capped(p).contains((x, y)) implies in_plane(x, y) by {
        assert(bbox_px(p).contains((x, y)));
        let (a, b, c, d) = lemma_bounded(p, (x, y));
        assert(p.contains((a.0, a.1)) && p.contains((b.0, b.1)) && p.contains((c.0, c.1))
            && p.contains((d.0, d.1)));
    }
}

proof fn lemma_flat_union(p: Set<(int, int)>, q: Set<(int, int)>)
    requires
        flat(p),
        flat(q),
    ensures
        flat(p.union(q)),
        flat(capped(p.union(q))),
{
    lemma_flat_capped(p.union(q));
}

proof fn lemma_flat_changed(prev: Seq<ScenePresence>, now: Seq<ScenePresence>)
    requires
        placed_in_plane(prev),
        placed_in_plane(now),
    ensures
        flat(damage_changed(prev, now)),
    decreases now.len(),
{
    if now.len() > 0 {
        let t = now.drop_last();
        assert forall|i: int, x: int, y: int|
            0 <= i < t.len() && #[trigger] t[i].region@.contains((x, y)) implies in_plane(x, y) by {
            assert(now[i].region@.contains((x, y)));
        }
        lemma_flat_changed(prev, t);
        let d = damage_changed(prev, t);
        let p = now.last();
        assert(flat(p.region@)) by {
            assert forall|x: int, y: int| #[trigger] p.region@.contains((x, y)) implies in_plane(
                x,
                y,
            ) by {
                assert(now[now.len() - 1].region@.contains((x, y)));
            }
        }
        let k = last_of(prev, p.id);
        lemma_last_of(prev, p.id);
        lemma_flat_union(d, p.region@);
        if k >= 0 {
            assert(flat(prev[k].region@)) by {
                assert forall|x: int, y: int| #[trigger]
                    prev[k].region@.contains((x, y)) implies in_plane(x, y) by {}
            }
            lemma_flat_union(d, prev[k].region@);
            lemma_flat_union(capped(d.union(prev[k].region@)), p.region@);
        }
    }
}

proof fn lemma_flat_pairs(
    prev: Seq<ScenePresence>,
    now: Seq<ScenePresence>,
    d: Set<(int, int)>,
    i: nat,
    j: nat,
)
    requires
        placed_in_plane(now),
        flat(d),
        i <= now.len(),
        j <= now.len(),
        j > 0 ==> i < now.len(),
    ensures
        flat(damage_pairs(prev, now, d, i, j)),
    decreases i, j,
{
    if j > 0 {
        lemma_flat_pairs(prev, now, d, i, (j - 1) as nat);
        let e = damage_pairs(prev, now, d, i, (j - 1) as nat);
        let over = now[i as int].region@.intersect(now[j - 1].region@);
        assert(flat(over)) by {
            assert forall|x: int, y: int| #[trigger] over.contains((x, y)) implies in_plane(x, y) by {
                assert(now[i as int].region@.contains((x, y)));
            }
        }
        lemma_flat_capped(over);
        lemma_flat_union(e, capped(over));
    } else if i > 0 {
        lemma_flat_pairs(prev, now, d, (i - 1) as nat, now.len());
    }
}

proof fn lemma_flat_vanished(
    prev: Seq<ScenePresence>,
    now: Seq<ScenePresence>,
    d: Set<(int, int)>,
)
    requires
        placed_in_plane(prev),
        flat(d),
    ensures
        flat(damage_vanished(prev, now, d)),
    decreases prev.len(),
{
    if prev.len() > 0 {
        let t = prev.drop_last();
        assert forall|i: int, x: int, y: int|
            0 <= i < t.len() && #[trigger] t[i].region@.contains((x, y)) implies in_plane(x, y) by {
            assert(prev[i].region@.contains((x, y)));
        }
        lemma_flat_vanished(t, now, d);
        let p = prev.last();
        assert(flat(p.region@)) by {
            assert forall|x: int, y: int| #[trigger] p.region@.contains((x, y)) implies in_plane(
                x,
                y,
            ) by {
                assert(prev[prev.len() - 1].region@.contains((x, y)));
            }
        }
        lemma_flat_union(damage_vanished(t, now, d), p.region@);
    }
}

/// The structural difference of participants in the plane lies in the plane.
pub proof fn lemma_structural_flat(prev: Seq<ScenePresence>, now: Seq<ScenePresence>)
    requires
        placed_in_plane(prev),
        placed_in_plane(now),
    ensures
        forall|x: int, y: int| #[trigger]
            structural_px(prev, now).contains((x, y)) ==> in_plane(x, y),
{
    lemma_flat_changed(prev, now);
    lemma_flat_pairs(prev, now, damage_changed(prev, now), now.len(), 0);
    lemma_flat_vanished(
        prev,
        now,
        damage_pairs(prev, now, damage_changed(prev, now), now.len(), 0),
    );
    assert(flat(structural_px(prev, now)));
}

/// Every pixel that the structure's difference holds is repainted, and a frame
/// with such a pixel is not skipped.
pub proof fn a_frame_repaints_the_structural_difference(
    o: OutputView,
    b: BuildView,
    participants: Seq<ScenePresence>,
    plane_visible: bool,
    a: (int, int),
)
    requires
        placed_in_plane(o.prev_presented),
        placed_in_plane(participants),
        structural_px(o.prev_presented, participants).contains(a),
    ensures
        ({
            let d = drafted(o, b, participants, plane_visible);
            list_px(d.output_damage).contains(a) && !d.skip
        }),
{
    let d = drafted(o, b, participants, plane_visible);
    let p = structural_px(o.prev_presented, participants);
    lemma_structural_flat(o.prev_presented, participants);
    lemma_boxes_partition_pixels(p);
    assert(partitions(boxes(p), p));
    assert(list_px(boxes(p)).contains(a));
    let cursor = crate::cursor::cursor_damage_list(
        o.cursor_rect,
        o.cursor_version,
        d.built.new_cursor_rect,
        d.built.cursor_record_version,
        d.transition is Some,
    );
    lemma_frame_damage(o, d.built, participants, cursor, a);
    lemma_no_pixel(d.output_damage, a);
}

/// A participant that was not there before is damaged where it is now, and one
/// that is not there any more where it was.
pub proof fn what_comes_and_goes_is_damaged(
    prev: Seq<ScenePresence>,
    now: Seq<ScenePresence>,
    i: int,
    a: (int, int),
)
    ensures
        0 <= i < now.len() && now[i].region@.contains(a) && (forall|k: int|
            0 <= k < prev.len() ==> (#[trigger] prev[k]).id != now[i].id) ==> structural_px(
            prev,
            now,
        ).contains(a),
        0 <= i < prev.len() && prev[i].region@.contains(a) && (forall|k: int|
            0 <= k < now.len() ==> (#[trigger] now[k]).id != prev[i].id) ==> structural_px(
            prev,
            now,
        ).contains(a),
{
    structural_damage_covers_every_change(prev, now);
    if 0 <= i < now.len() && now[i].region@.contains(a) && (forall|k: int|
        0 <= k < prev.len() ==> (#[trigger] prev[k]).id != now[i].id) {
        assert(!has_id(prev, now[i].id));
        assert(appeared_at(prev, now, i, a));
        assert(owed_px(prev, now).contains(a));
    }
    if 0 <= i < prev.len() && prev[i].region@.contains(a) && (forall|k: int|
        0 <= k < now.len() ==> (#[trigger] now[k]).id != prev[i].id) {
        assert(!has_id(now, prev[i].id));
        assert(vanished_at(prev, now, i, a));
        assert(owed_px(prev, now).contains(a));
    }
}

/// Whether two quotients with positive divisors differ.
pub open spec fn ratios_differ(a: i32, b: i32, c: i32, d: i32) -> bool {
    b > 0 && d > 0 && a * d != c * b
}

/// A participant that sits elsewhere, binds another image, blends otherwise or
/// samples other texels is damaged where it was and where it is.
pub proof fn what_changes_is_damaged_where_it_was_and_is(
    prev: Seq<ScenePresence>,
    now: Seq<ScenePresence>,
    i: int,
    j: int,
    a: (int, int),
)
    requires
        0 <= i < prev.len(),
        0 <= j < now.len(),
        prev[i].id == now[j].id,
        forall|k: int| i < k < prev.len() ==> (#[trigger] prev[k]).id != prev[i].id,
        ({
            let (p, q) = (prev[i].signature, now[j].signature);
            ||| prev[i].place@ != now[j].place@
            ||| prev[i].region@ != now[j].region@
            ||| p.sample_view != q.sample_view
            ||| p.alpha_passthrough != q.alpha_passthrough
            ||| ratios_differ(p.source.x, p.source.of_width, q.source.x, q.source.of_width)
            ||| ratios_differ(p.source.y, p.source.of_height, q.source.y, q.source.of_height)
            ||| ratios_differ(p.source.width, p.source.of_width, q.source.width, q.source.of_width)
            ||| ratios_differ(
                p.source.height,
                p.source.of_height,
                q.source.height,
                q.source.of_height,
            )
        }),
        prev[i].region@.contains(a) || now[j].region@.contains(a),
    ensures
        structural_px(prev, now).contains(a),
{
    structural_damage_covers_every_change(prev, now);
    lemma_last_of_at(prev, i);
    assert(changed_at(prev, now, j, a));
    assert(owed_px(prev, now).contains(a));
}

proof fn lemma_last_of_at(list: Seq<ScenePresence>, i: int)
    requires
        0 <= i < list.len(),
        forall|k: int| i < k < list.len() ==> (#[trigger] list[k]).id != list[i].id,
    ensures
        last_of(list, list[i].id) == i,
    decreases list.len(),
{
    if i < list.len() - 1 {
        let t = list.drop_last();
        assert(list[list.len() - 1].id != list[i].id);
        assert forall|k: int| i < k < t.len() implies (#[trigger] t[k]).id != t[i].id by {
            assert(t[k] == list[k]);
        }
        lemma_last_of_at(t, i);
    }
}

/// Two participants that changed places in the stacking order are damaged where
/// they overlap.
pub proof fn what_is_restacked_is_damaged_where_it_overlaps(
    prev: Seq<ScenePresence>,
    now: Seq<ScenePresence>,
    i1: int,
    i2: int,
    j1: int,
    j2: int,
    a: (int, int),
)
    requires
        forall|i: int, j: int|
            0 <= i < j < prev.len() ==> (#[trigger] prev[i]).id != (#[trigger] prev[j]).id,
        forall|i: int, j: int|
            0 <= i < j < now.len() ==> (#[trigger] now[i]).id != (#[trigger] now[j]).id,
        0 <= i1 < i2 < prev.len(),
        0 <= j2 < j1 < now.len(),
        prev[i1].id == now[j1].id,
        prev[i2].id == now[j2].id,
        now[j1].region@.contains(a),
        now[j2].region@.contains(a),
    ensures
        structural_px(prev, now).contains(a),
{
    structural_damage_covers_every_change(prev, now);
    assert(has_id(prev, now[j1].id) && has_id(prev, now[j2].id));
    assert(has_id(now, prev[i1].id) && has_id(now, prev[i2].id));
    lemma_ranks_follow_order(prev, now, i1, i2);
    lemma_ranks_follow_order(now, prev, j2, j1);
    assert(flipped_at(prev, now, j1, j2, a));
    assert(owed_px(prev, now).contains(a));
}

proof fn lemma_ranks_bounded(list: Seq<ScenePresence>, other: Seq<ScenePresence>)
    requires
        forall|i: int, j: int|
            0 <= i < j < list.len() ==> (#[trigger] list[i]).id != (#[trigger] list[j]).id,
    ensures
        ranks(list, other).dom().finite(),
        forall|id: ParticipantId| #[trigger]
            ranks(list, other).dom().contains(id) ==> ranks(list, other)[id] < ranks(
                list,
                other,
            ).dom().len() && has_id(list, id),
        forall|i: int|
            0 <= i < list.len() && has_id(other, (#[trigger] list[i]).id) ==> ranks(
                list,
                other,
            ).dom().contains(list[i].id),
    decreases list.len(),
{
    if list.len() > 0 {
        let t = list.drop_last();
        assert forall|i: int, j: int| 0 <= i < j < t.len() implies (#[trigger] t[i]).id != (
        #[trigger] t[j]).id by {
            assert(list[i].id != list[j].id);
        }
        lemma_ranks_bounded(t, other);
        let m = ranks(t, other);
        let n = ranks(list, other);
        let id = list.last().id;
        if m.dom().contains(id) {
            let k = choose|k: int| 0 <= k < t.len() && (#[trigger] t[k]).id == id;
            assert(list[k].id != list[list.len() - 1].id);
        }
        if has_id(other, id) {
            assert(n.dom() =~= m.dom().insert(id));
        }
        assert forall|x: ParticipantId| #[trigger] n.dom().contains(x) implies n[x] < n.dom().len()
            && has_id(list, x) by {
            if m.dom().contains(x) {
                let k = choose|k: int| 0 <= k < t.len() && (#[trigger] t[k]).id == x;
                assert(list[k].id == x);
            } else {
                assert(list[list.len() - 1].id == x);
            }
        }
        assert forall|i: int|
            0 <= i < list.len() && has_id(other, (#[trigger] list[i]).id) implies n.dom().contains(
            list[i].id,
        ) by {
            if i < t.len() {
                assert(t[i] == list[i]);
            }
        }
    }
}

proof fn lemma_ranks_follow_order(
    list: Seq<ScenePresence>,
    other: Seq<ScenePresence>,
    i: int,
    j: int,
)
    requires
        forall|i: int, j: int|
            0 <= i < j < list.len() ==> (#[trigger] list[i]).id != (#[trigger] list[j]).id,
        0 <= i < j < list.len(),
        has_id(other, list[i].id),
        has_id(other, list[j].id),
    ensures
        ranks(list, other)[list[i].id] < ranks(list, other)[list[j].id],
    decreases list.len(),
{
    let t = list.drop_last();
    assert forall|i: int, j: int| 0 <= i < j < t.len() implies (#[trigger] t[i]).id != (
    #[trigger] t[j]).id by {
        assert(list[i].id != list[j].id);
    }
    lemma_ranks_bounded(t, other);
    assert(t[i].id == list[i].id);
    assert(list[i].id != list[list.len() - 1].id);
    if j < t.len() {
        assert(t[j].id == list[j].id);
        assert(list[j].id != list[list.len() - 1].id);
        lemma_ranks_follow_order(t, other, i, j);
    }
}

/// Where nothing changed, nothing is repainted and the frame is skipped: no
/// damage, no mark, nothing owed, the cursor as it was, and every participant
/// where it was, sampling what it did.
pub proof fn a_frame_without_a_change_is_skipped(
    o: OutputView,
    b: BuildView,
    participants: Seq<ScenePresence>,
    plane_visible: bool,
)
    requires
        o.generation != 0,
        !o.damage.owed,
        b.projected_damage.len() == 0,
        b.stats.content_off_output == 0,
        o.structure_damage.marks.len() == 0,
        o.failed_repaint.marks.len() == 0,
        same_structure(o.prev_presented, participants),
        ({
            let d = drafted(o, b, participants, plane_visible);
            &&& d.built.new_cursor_rect == o.cursor_rect
            &&& d.built.cursor_record_version == o.cursor_version
            &&& d.transition is None
        }),
    ensures
        drafted(o, b, participants, plane_visible).output_damage.len() == 0,
        drafted(o, b, participants, plane_visible).skip,
{
    let p = structural_px(o.prev_presented, participants);
    unchanged_structure_owes_nothing(o.prev_presented, participants);
    lemma_boxes_partition_pixels(p);
    if boxes(p).len() > 0 {
        let r = boxes(p)[0];
        assert(r.non_empty());
        assert(r.has(r.x0(), r.y0()));
        assert(p.contains((r.x0(), r.y0())));
    }
}

/// Paint that is stranded off every output is composed in full: where nothing else
/// changed, the whole output is repainted and the frame is not skipped.
pub proof fn stranded_paint_is_composed_in_full(
    o: OutputView,
    b: BuildView,
    participants: Seq<ScenePresence>,
    plane_visible: bool,
    a: (int, int),
)
    requires
        o.generation != 0,
        !o.damage.owed,
        b.projected_damage.len() == 0,
        b.stats.content_off_output > 0,
        o.structure_damage.marks.len() == 0,
        o.failed_repaint.marks.len() == 0,
        same_structure(o.prev_presented, participants),
        ({
            let d = drafted(o, b, participants, plane_visible);
            &&& d.built.new_cursor_rect == o.cursor_rect
            &&& d.built.cursor_record_version == o.cursor_version
            &&& d.transition is None
        }),
        0 <= a.0 < o.extent.width && a.0 < i32::MAX,
        0 <= a.1 < o.extent.height && a.1 < i32::MAX,
    ensures
        !drafted(o, b, participants, plane_visible).skip,
        list_px(drafted(o, b, participants, plane_visible).output_damage).contains(a),
{
    let p = structural_px(o.prev_presented, participants);
    unchanged_structure_owes_nothing(o.prev_presented, participants);
    lemma_boxes_partition_pixels(p);
    if boxes(p).len() > 0 {
        let r = boxes(p)[0];
        assert(r.non_empty());
        assert(r.has(r.x0(), r.y0()));
        assert(p.contains((r.x0(), r.y0())));
    }
    let none = Seq::<Rect2D>::empty();
    let d = drafted(o, b, participants, plane_visible);
    adding_keeps_all_damage(none, output_rect(o.extent));
    assert(output_rect(o.extent).px().contains(a));
    assert(b.projected_damage =~= none);
    assert(d.output_damage == list_add(none, output_rect(o.extent)));
}

} // verus!
