//! What holds of ticks: what makes an output be walked, who goes to sleep after
//! one, and when the cursor's plane may be touched.

use vstd::prelude::*;

use crate::audit::AuditView;
use crate::compositor::{
    all_marked, completion_step, idle_audit, least_consumed, no_progress, plane_unsettled, rects_marked,
    shown_elsewhere, sprite_queued, store_reconciled, walk_reports, CompletionStep, InnerView,
    ProgressView, SceneView,
};
use crate::compositor_laws::{
    lies_within, marking_everything_damages_every_pixel,
    marking_root_space_damages_it_on_every_output, with_outcomes,
};
use crate::damage_log::{bare, marking_keeps_all_damage};
use crate::geometry::{output_rect, Rect2D};
use crate::ids::DrawableId;
use crate::ledger::Site;
use crate::output::{gate, OutputView};
use crate::present::InFlightStage;
use crate::region_set::{adding_keeps_all_damage, list_px};
use crate::store::{painted, DormantReason, DrawableView, StoreView};
use crate::tick::{has_pieces, may_present, stays_armed, TickOutcome, TickSkipReason};

verus! {

// ── what makes an output be walked ──────────────────────────────────
/// An output with nothing in flight and no pause to keep is walked exactly if
/// somebody asks for it or it owes something: its first frame, a repaint, marked
/// damage or what a lost frame was to paint.
pub proof fn an_output_is_walked_when_something_is_due(
    o: OutputView,
    now: u64,
    structure_dirty: bool,
    pending_presentation: bool,
    audit_armed: bool,
)
    requires
        o.pending_acks.len() == 0,
        o.retry_at matches Some(at) ==> at <= now,
    ensures
        ({
            let g = gate(o, now, structure_dirty, pending_presentation, audit_armed);
            &&& structure_dirty ==> g is None
            &&& pending_presentation ==> g is None
            &&& audit_armed ==> g is None
            &&& o.generation == 0 ==> g is None
            &&& o.damage.owed ==> g is None
            &&& (exists|q: (int, int)| #[trigger] o.structure_damage.px().contains(q)) ==> g is None
            &&& (exists|q: (int, int)| #[trigger] o.failed_repaint.px().contains(q)) ==> g is None
            &&& g is Some ==> g == Some(TickSkipReason::NothingPending)
            &&& !structure_dirty && !pending_presentation && !audit_armed && o.generation != 0
                && !o.damage.owed && o.structure_damage.marks.len() == 0
                && o.failed_repaint.marks.len() == 0 ==> g is Some
        }),
{
    if o.structure_damage.marks.len() == 0 {
        assert(o.structure_damage.px() =~= Set::empty());
    }
    if o.failed_repaint.marks.len() == 0 {
        assert(o.failed_repaint.px() =~= Set::empty());
    }
}

/// An output whose frame is in flight, or whose pause is not over, is not walked,
/// whatever asks for it.
pub proof fn an_output_that_waits_is_not_walked(
    o: OutputView,
    now: u64,
    structure_dirty: bool,
    pending_presentation: bool,
    audit_armed: bool,
)
    ensures
        o.pending_acks.len() > 0 ==> gate(
            o,
            now,
            structure_dirty,
            pending_presentation,
            audit_armed,
        ) == Some(TickSkipReason::PendingAcks),
        o.pending_acks.len() == 0 && (o.retry_at matches Some(at) && now < at) ==> gate(
            o,
            now,
            structure_dirty,
            pending_presentation,
            audit_armed,
        ) == Some(TickSkipReason::RetryDeadline),
{
}

/// Whatever is marked on an output is walked for at its next tick, once nothing
/// holds the output back: a mark needs no second messenger.
pub proof fn a_mark_alone_makes_its_output_be_walked(
    v: SceneView,
    rects: Seq<Rect2D>,
    site: Site,
    k: int,
    j: int,
    q: (int, int),
    now: u64,
)
    requires
        v.inner is Some,
        0 <= k < v.inner->0.outputs.len(),
        lies_within(v.inner->0.outputs[k].extent, q),
        v.inner->0.outputs[k].pending_acks.len() == 0,
        v.inner->0.outputs[k].retry_at matches Some(at) ==> at <= now,
    ensures
        gate(all_marked(v, site).inner->0.outputs[k], now, false, false, false) is None,
        ({
            let o = v.inner->0.outputs[k];
            0 <= j < rects.len() && rects[j].offset.x <= q.0 + o.origin.0 < rects[j].offset.x
                + rects[j].extent.width && rects[j].offset.y <= q.1 + o.origin.1
                < rects[j].offset.y + rects[j].extent.height
        }) ==> gate(rects_marked(v, rects, site).inner->0.outputs[k], now, false, false, false)
            is None,
{
    marking_everything_damages_every_pixel(v, site, k);
    marking_root_space_damages_it_on_every_output(v, rects, site, k, j, q);
    let a = all_marked(v, site).inner->0.outputs[k];
    let b = rects_marked(v, rects, site).inner->0.outputs[k];
    assert(a.structure_damage.px().contains(q));
    an_output_is_walked_when_something_is_due(a, now, false, false, false);
    an_output_is_walked_when_something_is_due(b, now, false, false, false);
}

// ── what a tick comes to ────────────────────────────────────────────
/// A tick's account is true to its outcomes: an output counts as walked exactly if
/// it was not held back before the walk, and the list of composed outputs names
/// those that were composed, in order.
pub proof fn the_account_of_a_tick_is_true(outcomes: Seq<TickOutcome>, n: nat)
    requires
        outcomes.len() <= n,
        n <= usize::MAX,
    ensures
        ({
            let p = with_outcomes(no_progress(n), outcomes);
            &&& p.walked.len() == n
            &&& forall|i: int|
                outcomes.len() <= i < n ==> !#[trigger] p.walked[i]
            &&& forall|i: int|
                0 <= i < outcomes.len() ==> (#[trigger] p.walked[i] <==> match outcomes[i] {
                    TickOutcome::Composed => true,
                    TickOutcome::Skipped(r) => match r {
                        TickSkipReason::EmptyDamage => true,
                        TickSkipReason::NoBO => true,
                        TickSkipReason::NoPool => true,
                        TickSkipReason::PendingAcks => false,
                        TickSkipReason::RetryDeadline => false,
                        TickSkipReason::NothingPending => false,
                    },
                })
            &&& forall|i: int|
                0 <= i < p.composed.len() ==> (#[trigger] p.composed[i]) < outcomes.len()
                    && outcomes[p.composed[i] as int] == TickOutcome::Composed
            &&& forall|i: int, j: int|
                0 <= i < j < p.composed.len() ==> (#[trigger] p.composed[i]) < (
                #[trigger] p.composed[j])
            &&& forall|i: int|
                0 <= i < outcomes.len() && #[trigger] outcomes[i] == TickOutcome::Composed
                    ==> p.composed.contains(i as usize)
            &&& p.clear_dirty <==> forall|i: int|
                0 <= i < outcomes.len() ==> (#[trigger] outcomes[i] == TickOutcome::Composed
                    || outcomes[i] == TickOutcome::Skipped(TickSkipReason::EmptyDamage))
        }),
    decreases outcomes.len(),
{
    let p = with_outcomes(no_progress(n), outcomes);
    if outcomes.len() > 0 {
        let t = outcomes.drop_last();
        the_account_of_a_tick_is_true(t, n);
        let b = with_outcomes(no_progress(n), t);
        let last = (outcomes.len() - 1) as usize;
        assert forall|i: int| 0 <= i < outcomes.len() && #[trigger] outcomes[i]
            == TickOutcome::Composed implies p.composed.contains(i as usize) by {
            if i < t.len() {
                assert(t[i] == TickOutcome::Composed);
                let m = choose|m: int| 0 <= m < b.composed.len() && b.composed[m] == i as usize;
                assert(p.composed[m] == i as usize);
            } else {
                assert(p.composed[b.composed.len() as int] == last);
            }
        }
        assert forall|i: int| 0 <= i < p.composed.len() implies (#[trigger] p.composed[i])
            < outcomes.len() && outcomes[p.composed[i] as int] == TickOutcome::Composed by {
            if i < b.composed.len() {
                assert(p.composed[i] == b.composed[i]);
                assert(t[b.composed[i] as int] == outcomes[b.composed[i] as int]);
            }
        }
        assert forall|i: int, j: int| 0 <= i < j < p.composed.len() implies (
        #[trigger] p.composed[i]) < (#[trigger] p.composed[j]) by {
            assert(p.composed[i] == b.composed[i]);
            if j < b.composed.len() {
                assert(p.composed[j] == b.composed[j]);
            }
        }
        assert(b.clear_dirty <==> forall|i: int|
            0 <= i < t.len() ==> (#[trigger] t[i] == TickOutcome::Composed || t[i]
                == TickOutcome::Skipped(TickSkipReason::EmptyDamage)));
        if p.clear_dirty {
            assert forall|i: int| 0 <= i < outcomes.len() implies (#[trigger] outcomes[i]
                == TickOutcome::Composed || outcomes[i] == TickOutcome::Skipped(
                TickSkipReason::EmptyDamage,
            )) by {
                if i < t.len() {
                    assert(t[i] == outcomes[i]);
                }
            }
        }
        if forall|i: int|
            0 <= i < outcomes.len() ==> (#[trigger] outcomes[i] == TickOutcome::Composed
                || outcomes[i] == TickOutcome::Skipped(TickSkipReason::EmptyDamage)) {
            assert forall|i: int| 0 <= i < t.len() implies (#[trigger] t[i]
                == TickOutcome::Composed || t[i] == TickOutcome::Skipped(
                TickSkipReason::EmptyDamage,
            )) by {
                assert(t[i] == outcomes[i]);
            }
            assert(outcomes[last as int] == outcomes.last());
        }
    }
}

// ── who goes to sleep ───────────────────────────────────────────────
/// After a tick a damaged drawable of the scene stays awake exactly if its paint
/// was drawn by a walk of this tick, or an output that was not walked showed it
/// last. Otherwise it sleeps: for its hidden paint if some output shows it, and as
/// one without pieces if none does. Nothing else of it changes.
pub proof fn paint_that_no_output_shows_sleeps(
    before: StoreView,
    after: StoreView,
    outputs: Seq<OutputView>,
    p: ProgressView,
    j: int,
)
    requires
        p.walked.len() == outputs.len(),
        store_reconciled(
            before,
            after,
            stays_armed(walk_reports(outputs, p)),
            has_pieces(walk_reports(outputs, p)),
        ),
        0 <= j < before.items.len(),
        before.items[j].damage.len() > 0,
        before.items[j].scene_participating,
    ensures
        ({
            let d = before.items[j];
            let e = after.items[j];
            let awake = exists|k: int|
                0 <= k < outputs.len() && (if #[trigger] p.walked[k] {
                    p.drawn.contains(d.id)
                } else {
                    outputs[k].last_pieces.contains(d.id)
                });
            let shown = exists|k: int|
                0 <= k < outputs.len() && (#[trigger] outputs[k]).last_pieces.contains(d.id);
            &&& awake ==> e.dormant is None
            &&& !awake && shown ==> e.dormant == Some(DormantReason::HiddenDamage)
            &&& !awake && !shown ==> e.dormant == Some(DormantReason::NoPieces)
            &&& e == (DrawableView { dormant: e.dormant, ..d })
        }),
{
    let reports = walk_reports(outputs, p);
    let d = before.items[j];
    let e = after.items[j];
    let keep = stays_armed(reports);
    let pieces = has_pieces(reports);
    assert(keep.contains(d.id) <==> exists|k: int|
        0 <= k < outputs.len() && (if #[trigger] p.walked[k] {
            p.drawn.contains(d.id)
        } else {
            outputs[k].last_pieces.contains(d.id)
        })) by {
        if keep.contains(d.id) {
            let k = choose|k: int| 0 <= k < reports.len() && may_present(#[trigger] reports[k], d.id);
            assert(p.walked[k] || !p.walked[k]);
        }
        if exists|k: int|
            0 <= k < outputs.len() && (if #[trigger] p.walked[k] {
                p.drawn.contains(d.id)
            } else {
                outputs[k].last_pieces.contains(d.id)
            }) {
            let k = choose|k: int|
                0 <= k < outputs.len() && (if #[trigger] p.walked[k] {
                    p.drawn.contains(d.id)
                } else {
                    outputs[k].last_pieces.contains(d.id)
                });
            assert(may_present(reports[k], d.id));
        }
    }
    assert(pieces.contains(d.id) <==> exists|k: int|
        0 <= k < outputs.len() && (#[trigger] outputs[k]).last_pieces.contains(d.id)) by {
        if pieces.contains(d.id) {
            let k = choose|k: int|
                0 <= k < reports.len() && (#[trigger] reports[k]).last_pieces.contains(d.id);
            assert(outputs[k].last_pieces.contains(d.id));
        }
        if exists|k: int| 0 <= k < outputs.len() && (#[trigger] outputs[k]).last_pieces.contains(
            d.id,
        ) {
            let k = choose|k: int|
                0 <= k < outputs.len() && (#[trigger] outputs[k]).last_pieces.contains(d.id);
            assert(reports[k].last_pieces.contains(d.id));
        }
    }
}

/// Paint is never lost and wakes its drawable: what is painted is damaged, what
/// was damaged stays so, and a drawable that slept for hidden paint is awake.
pub proof fn paint_damages_and_wakes(d: DrawableView, r: Rect2D)
    ensures
        ({
            let e = painted(d, r);
            &&& r.px().subset_of(list_px(bare(e.damage)))
            &&& list_px(bare(d.damage)).subset_of(list_px(bare(e.damage)))
            &&& e.dormant != Some(DormantReason::HiddenDamage)
            &&& d.dormant is None ==> e.dormant is None
            &&& d.epoch < u64::MAX ==> e.epoch > d.epoch
            &&& e == (DrawableView { damage: e.damage, epoch: e.epoch, dormant: e.dormant, ..d })
        }),
{
    crate::damage_log::lemma_bare_add(d.damage, r, crate::damage_log::next_stamp(d.epoch));
    adding_keeps_all_damage(bare(d.damage), r);
}

/// What counts as shown elsewhere is what some other output had pieces of; an
/// output's own pieces never do.
pub proof fn elsewhere_means_another_output(
    outputs: Seq<OutputView>,
    output_idx: usize,
    id: DrawableId,
)
    ensures
        forall|k: int|
            0 <= k < outputs.len() && k != output_idx && (
            #[trigger] outputs[k]).last_pieces.contains(id) ==> shown_elsewhere(
                outputs,
                output_idx,
            ).contains(id),
        (forall|k: int|
            0 <= k < outputs.len() && k != output_idx ==> !(
            #[trigger] outputs[k]).last_pieces.contains(id)) ==> !shown_elsewhere(
            outputs,
            output_idx,
        ).contains(id),
{
}

// ── the plane ───────────────────────────────────────────────────────
/// A new sprite is shown again by every output whose plane shows the cursor, or
/// will once a frame in flight retires: the show is owed for this version and the
/// whole output is repainted. Every other output is as it was.
pub proof fn a_new_sprite_reaches_every_plane(o: OutputView, version: u64)
    ensures
        ({
            let on_plane = o.cursor_mode is Hw || exists|i: int|
                0 <= i < o.pending_acks.len() && ((#[trigger] o.pending_acks[i]).transition matches Some(
                    t,
                ) && t is ShowOnRetire);
            let after = sprite_queued(o, version);
            &&& on_plane ==> after.show_retry == Some(version) && output_rect(
                o.extent,
            ).px().subset_of(after.structure_damage.px()) && o.structure_damage.px().subset_of(
                after.structure_damage.px(),
            )
            &&& !on_plane ==> after == o
            &&& after == (OutputView {
                show_retry: after.show_retry,
                structure_damage: after.structure_damage,
                ..o
            })
        }),
{
    marking_keeps_all_damage(o.structure_damage, output_rect(o.extent));
    let m = crate::compositor::transitions_of(o.pending_acks);
    if exists|i: int|
        0 <= i < o.pending_acks.len() && ((#[trigger] o.pending_acks[i]).transition matches Some(t)
            && t is ShowOnRetire) {
        let i = choose|i: int|
            0 <= i < o.pending_acks.len() && ((#[trigger] o.pending_acks[i]).transition matches Some(
                t,
            ) && t is ShowOnRetire);
        assert(m[i] is Some && m[i]->0 is ShowOnRetire);
    }
    if exists|i: int| 0 <= i < m.len() && (#[trigger] m[i]) is Some && m[i]->0 is ShowOnRetire {
        let i = choose|i: int|
            0 <= i < m.len() && (#[trigger] m[i]) is Some && m[i]->0 is ShowOnRetire;
        assert(o.pending_acks[i].transition is Some);
    }
}

/// A render completion is passed on exactly if the named output's oldest frame
/// waits for this job in this buffer. Any other completion of a known output stops
/// the renderer; one without a renderer, or of an output that is gone, is ignored.
pub proof fn only_the_awaited_completion_is_passed_on(
    v: SceneView,
    renderer_failed: bool,
    output_idx: Option<usize>,
    job_id: u64,
    bo_idx: usize,
)
    ensures
        ({
            let s = completion_step(v, renderer_failed, output_idx, job_id, bo_idx);
            let known = v.inner is Some && !renderer_failed && output_idx is Some;
            let awaited = known && output_idx->0 < v.inner->0.outputs.len() && {
                let acks = v.inner->0.outputs[output_idx->0 as int].pending_acks;
                acks.len() > 0 && acks[0].bo_idx == bo_idx && acks[0].stage
                    == InFlightStage::WaitingForRenderCompletion { job_id }
            };
            &&& awaited ==> s == CompletionStep::Submit(output_idx->0)
            &&& known && !awaited ==> s == CompletionStep::FailStop
            &&& !known ==> s == CompletionStep::Ignored
        }),
{
}

/// The least number that an audit has consumed is that of one audit, and no audit
/// has a smaller one.
pub proof fn the_least_consumed_is_a_minimum(audits: Seq<Option<AuditView>>)
    ensures
        least_consumed(audits) is None <==> forall|k: int|
            0 <= k < audits.len() ==> (#[trigger] audits[k]) is None,
        least_consumed(audits) matches Some(m) ==> (exists|k: int|
            0 <= k < audits.len() && (#[trigger] audits[k]) is Some && (
            audits[k]->0).consumed_event_id == m) && (forall|k: int|
            0 <= k < audits.len() && (#[trigger] audits[k]) is Some ==> (
            audits[k]->0).consumed_event_id >= m),
    decreases audits.len(),
{
    if audits.len() > 0 {
        let t = audits.drop_last();
        the_least_consumed_is_a_minimum(t);
        assert(audits.last() == audits[audits.len() - 1]);
        assert(forall|k: int| 0 <= k < t.len() ==> #[trigger] t[k] == audits[k]);
        if least_consumed(t) is Some {
            let k = choose|k: int|
                0 <= k < t.len() && (#[trigger] t[k]) is Some && (t[k]->0).consumed_event_id
                    == least_consumed(t)->0;
            assert(audits[k] is Some);
        }
        assert(forall|k: int| 0 <= k < t.len() ==> #[trigger] audits[k] == t[k]);
    }
}

/// An audit is looked after although nothing was drawn exactly if an event has come
/// that it has not consumed, or its picture was not compared for so long.
pub proof fn an_idle_audit_is_due_when_it_lags(
    i: InnerView,
    output_idx: usize,
    now: u64,
    due: u64,
    a: AuditView,
)
    requires
        output_idx < i.audits.len(),
        i.audits[output_idx as int] == Some(a),
    ensures
        idle_audit(i, output_idx, now, due) <==> {
            ||| i.ledger.entries.len() > 0 && i.ledger.entries.last().id >= a.consumed_event_id
            ||| a.initialized && a.last_compare_at is None
            ||| a.initialized && (a.last_compare_at matches Some(at) && now >= at + due)
            ||| a.initialized && a.last_compare_at is Some && due == 0
        },
{
}

/// The plane of an output is unsettled exactly while a show is owed or a frame in
/// flight is to change it.
pub proof fn a_plane_is_unsettled_while_a_change_is_under_way(o: OutputView)
    ensures
        o.show_retry is Some ==> plane_unsettled(o),
        forall|i: int|
            0 <= i < o.pending_acks.len() && (#[trigger] o.pending_acks[i]).transition is Some
                ==> plane_unsettled(o),
        o.show_retry is None && (forall|i: int|
            0 <= i < o.pending_acks.len() ==> (#[trigger] o.pending_acks[i]).transition is None)
            ==> !plane_unsettled(o),
{
}

} // verus!
