//! Whether a tick walks, composes or skips, and which drawables stay armed.

use vstd::prelude::*;

use crate::ids::{DrawableId, IdSet};
use crate::store::{reconciled, DamageSnapshot, DormantReason, DrawableView};

verus! {

/// Why a tick skipped an output.
#[derive(Clone, Copy, Debug, PartialEq, Eq, Structural)]
pub enum TickSkipReason {
    /// A flip is in flight.
    PendingAcks,
    /// A failed submission is still backing off.
    RetryDeadline,
    /// The walk found nothing to repaint.
    EmptyDamage,
    /// Every buffer is in use.
    NoBO,
    /// Every descriptor pool is in use.
    NoPool,
    /// Nothing that could produce damage has changed since the last walk.
    NothingPending,
}

/// What a tick did to an output.
#[derive(Clone, Copy, Debug, PartialEq, Eq, Structural)]
pub enum TickOutcome {
    Composed,
    Skipped(TickSkipReason),
}

impl TickOutcome {
    /// Whether the outcome took the scene's changes in.
    pub open spec fn clears(self) -> bool {
        self == TickOutcome::Composed || self == TickOutcome::Skipped(TickSkipReason::EmptyDamage)
    }

    /// Whether the scene was walked for the output.
    pub open spec fn did_walk(self) -> bool {
        !(self == TickOutcome::Skipped(TickSkipReason::PendingAcks) || self
            == TickOutcome::Skipped(TickSkipReason::RetryDeadline) || self
            == TickOutcome::Skipped(TickSkipReason::NothingPending))
    }

    pub fn clears_scene_structure_dirty(self) -> (r: bool)
        ensures
            r == self.clears(),
    {
        self == TickOutcome::Composed || self == TickOutcome::Skipped(TickSkipReason::EmptyDamage)
    }

    pub fn walked(self) -> (r: bool)
        ensures
            r == self.did_walk(),
    {
        !(self == TickOutcome::Skipped(TickSkipReason::PendingAcks) || self
            == TickOutcome::Skipped(TickSkipReason::RetryDeadline) || self
            == TickOutcome::Skipped(TickSkipReason::NothingPending))
    }
}

/// Notes that a tick skipped an output; says whether that is news. Nothing is
/// noted while the diagnostic is off.
pub fn record_tick_skip(
    enabled: bool,
    last: &mut Option<TickSkipReason>,
    reason: TickSkipReason,
) -> (news: bool)
    ensures
        news == (enabled && *old(last) != Some(reason)),
        *final(last) == (if enabled { Some(reason) } else { *old(last) }),
{
    if !enabled {
        return false;
    }
    let news = *last != Some(reason);
    if news {
        *last = Some(reason);
    }
    news
}

/// Notes that a tick composed an output; returns the skip that this ends.
pub fn record_tick_success(enabled: bool, last: &mut Option<TickSkipReason>) -> (ended: Option<
    TickSkipReason,
>)
    ensures
        ended == (if enabled { *old(last) } else { None }),
        *final(last) == (if enabled { None } else { *old(last) }),
{
    if !enabled {
        return None;
    }
    last.take()
}

/// What clears the scene's changes walked the scene.
pub proof fn clearing_needs_a_walk(outcome: TickOutcome)
    ensures
        outcome.clears() ==> outcome.did_walk(),
{
}

/// Whether a tick with no output damage may skip composing: not on the first
/// frame, and not while a repaint is owed.
pub fn skip_for_empty_damage(damage_empty: bool, first_frame: bool, owed: bool) -> (r: bool)
    ensures
        r == (damage_empty && !first_frame && !owed),
{
    damage_empty && !first_frame && !owed
}

/// Whether a tick has to walk the scene at all. Everything that a walk can find
/// is announced by one of these.
pub fn walk_needed(
    structure_dirty: bool,
    pending_presentation: bool,
    first_frame: bool,
    owed: bool,
    pending_structure: bool,
    audit_armed: bool,
) -> (r: bool)
    ensures
        r == (structure_dirty || pending_presentation || first_frame || owed || pending_structure
            || audit_armed),
{
    structure_dirty || pending_presentation || first_frame || owed || pending_structure
        || audit_armed
}

/// Whether an armed drawable can land on an output: it had pieces there, or it
/// had pieces nowhere.
pub open spec fn may_land(
    id: DrawableId,
    mine: Set<DrawableId>,
    all: Seq<Set<DrawableId>>,
) -> bool {
    mine.contains(id) || forall|k: int| 0 <= k < all.len() ==> !(#[trigger] all[k]).contains(id)
}

/// The sets behind a list of references.
pub open spec fn sets_of(all: Seq<&IdSet>) -> Seq<Set<DrawableId>> {
    all.map_values(|s: &IdSet| s@)
}

/// Whether some armed, damaged drawable can land on an output. `mine` is what
/// had pieces on it at its last walk, `all` the same of every output.
pub fn pending_presentation_for_output(
    armed: &[DrawableId],
    mine: &IdSet,
    all: &[&IdSet],
) -> (r: bool)
    ensures
        r == exists|i: int|
            0 <= i < armed@.len() && may_land(#[trigger] armed@[i], mine@, sets_of(all@)),
{
    let mut i: usize = 0;
    while i < armed.len()
        invariant
            i <= armed@.len(),
            forall|k: int| 0 <= k < i ==> !may_land(#[trigger] armed@[k], mine@, sets_of(all@)),
        decreases armed@.len() - i,
    {
        let id = armed[i];
        if mine.contains(id) {
            assert(may_land(armed@[i as int], mine@, sets_of(all@)));
            return true;
        }
        let mut known = false;
        let mut j: usize = 0;
        while j < all.len() && !known
            invariant
                j <= all@.len(),
                known ==> exists|k: int|
                    0 <= k < all@.len() && (#[trigger] sets_of(all@)[k]).contains(id),
                !known ==> forall|k: int|
                    0 <= k < j ==> !(#[trigger] sets_of(all@)[k]).contains(id),
            decreases all@.len() - j,
        {
            if all[j].contains(id) {
                assert(sets_of(all@)[j as int].contains(id));
                known = true;
            }
            j = j + 1;
        }
        if !known {
            assert(may_land(armed@[i as int], mine@, sets_of(all@)));
            return true;
        }
        i = i + 1;
    }
    false
}

/// Whether some snapshot carries damage.
pub fn snapshots_carry_damage(snaps: &[DamageSnapshot]) -> (r: bool)
    ensures
        r == exists|i: int| 0 <= i < snaps@.len() && (#[trigger] snaps@[i])@.region.len() > 0,
{
    let mut i: usize = 0;
    while i < snaps.len()
        invariant
            i <= snaps@.len(),
            forall|k: int| 0 <= k < i ==> (#[trigger] snaps@[k])@.region.len() == 0,
        decreases snaps@.len() - i,
    {
        if !snaps[i].region.is_empty() {
            assert(snaps@[i as int]@.region.len() > 0);
            return true;
        }
        i = i + 1;
    }
    false
}

// ── dormancy ────────────────────────────────────────────────────────
/// What one output says about dormancy.
pub struct OutputWalkReport<'a> {
    /// Whether the scene was walked for it in this tick.
    pub walked: bool,
    /// What the walk presented.
    pub presented: &'a IdSet,
    /// What had pieces at its last walk, this one included.
    pub last_pieces: &'a IdSet,
}

/// The same with sets.
pub struct ReportView {
    pub walked: bool,
    pub presented: Set<DrawableId>,
    pub last_pieces: Set<DrawableId>,
}

impl<'a> View for OutputWalkReport<'a> {
    type V = ReportView;

    open spec fn view(&self) -> ReportView {
        ReportView {
            walked: self.walked,
            presented: self.presented@,
            last_pieces: self.last_pieces@,
        }
    }
}

/// Whether an output may still present a drawable's damage: it presented it in
/// this tick, or it was not walked and the drawable had pieces on it.
pub open spec fn may_present(r: ReportView, id: DrawableId) -> bool {
    if r.walked { r.presented.contains(id) } else { r.last_pieces.contains(id) }
}

/// The drawables that stay armed.
pub open spec fn stays_armed(reports: Seq<ReportView>) -> Set<DrawableId> {
    Set::new(
        |id: DrawableId|
            exists|i: int| 0 <= i < reports.len() && may_present(#[trigger] reports[i], id),
    )
}

/// The drawables with pieces on some output.
pub open spec fn has_pieces(reports: Seq<ReportView>) -> Set<DrawableId> {
    Set::new(
        |id: DrawableId|
            exists|i: int|
                0 <= i < reports.len() && (#[trigger] reports[i]).last_pieces.contains(id),
    )
}

/// The reports behind a list.
pub open spec fn reports_view(reports: Seq<OutputWalkReport<'_>>) -> Seq<ReportView> {
    reports.map_values(|r: OutputWalkReport<'_>| r@)
}

/// The drawables that stay armed, and those with pieces on some output.
pub fn dormancy_inputs(reports: &[OutputWalkReport<'_>]) -> (r: (IdSet, IdSet))
    ensures
        r.0@ == stays_armed(reports_view(reports@)),
        r.1@ == has_pieces(reports_view(reports@)),
{
    let ghost all = reports_view(reports@);
    let mut keep_armed = IdSet::new();
    let mut pieces_anywhere = IdSet::new();
    let mut i: usize = 0;
    assert(keep_armed@ =~= stays_armed(all.take(0)));
    assert(pieces_anywhere@ =~= has_pieces(all.take(0)));
    while i < reports.len()
        invariant
            i <= reports@.len(),
            all == reports_view(reports@),
            keep_armed@ == stays_armed(all.take(i as int)),
            pieces_anywhere@ == has_pieces(all.take(i as int)),
        decreases reports@.len() - i,
    {
        let r = &reports[i];
        let ghost before = all.take(i as int);
        let ghost after = all.take(i + 1);
        assert(all[i as int] == r@);
        if r.walked {
            keep_armed.extend(r.presented);
        } else {
            keep_armed.extend(r.last_pieces);
        }
        pieces_anywhere.extend(r.last_pieces);
        proof {
            assert(after[i as int] == r@);
            assert forall|id: DrawableId| stays_armed(before).contains(id) implies stays_armed(
                after,
            ).contains(id) by {
                let k = choose|k: int|
                    0 <= k < before.len() && may_present(#[trigger] before[k], id);
                assert(after[k] == before[k]);
            }
            assert forall|id: DrawableId| stays_armed(after).contains(id) implies stays_armed(
                before,
            ).contains(id) || may_present(r@, id) by {
                let k = choose|k: int| 0 <= k < after.len() && may_present(#[trigger] after[k], id);
                if k < i {
                    assert(before[k] == after[k]);
                }
            }
            assert forall|id: DrawableId| has_pieces(before).contains(id) implies has_pieces(
                after,
            ).contains(id) by {
                let k = choose|k: int|
                    0 <= k < before.len() && (#[trigger] before[k]).last_pieces.contains(id);
                assert(after[k] == before[k]);
            }
            assert forall|id: DrawableId| has_pieces(after).contains(id) implies has_pieces(
                before,
            ).contains(id) || r@.last_pieces.contains(id) by {
                let k = choose|k: int|
                    0 <= k < after.len() && (#[trigger] after[k]).last_pieces.contains(id);
                if k < i {
                    assert(before[k] == after[k]);
                }
            }
            assert(keep_armed@ =~= stays_armed(after));
            assert(pieces_anywhere@ =~= has_pieces(after));
        }
        i = i + 1;
    }
    assert(all.take(i as int) =~= all);
    (keep_armed, pieces_anywhere)
}

/// A damaged drawable goes dormant exactly when every output declined it: one
/// that was walked did not present it, and on one that was not walked it had no
/// pieces. It is told apart by whether it had pieces anywhere.
pub proof fn dormant_when_every_output_declined(
    d: DrawableView,
    reports: Seq<ReportView>,
)
    requires
        d.damage.len() > 0,
        d.scene_participating,
    ensures
        ({
            let after = reconciled(d, stays_armed(reports), has_pieces(reports));
            &&& after.dormant is Some <==> forall|i: int|
                0 <= i < reports.len() ==> !may_present(#[trigger] reports[i], d.id)
            &&& after.dormant == Some(DormantReason::NoPieces) ==> forall|i: int|
                0 <= i < reports.len() ==> !(#[trigger] reports[i]).last_pieces.contains(d.id)
            &&& after.damage == d.damage
        }),
{
}

} // verus!
