//! The drawables the scene samples: their storage, redirect routing, pending
//! presentation damage and dormancy.

use std::collections::HashMap;
use vstd::prelude::*;

use crate::damage_log::{
    bare, from_stamp, lemma_all_older, lemma_kept_from, lemma_px_from_add, lemma_px_from_kept,
    next_stamp, px_from, stamp_after, stamped_add, StampedRect, StampedSet,
};
use crate::geometry::{Extent2D, Rect2D};
use crate::ids::{map_keys, DrawableId, IdSet};
use crate::region_set::{list_px, RegionSet};

verus! {

broadcast use vstd::std_specs::hash::group_hash_axioms;

/// What kind of thing a drawable is.
#[derive(Clone, Copy, Debug, PartialEq, Eq, Structural)]
pub enum DrawableKind {
    Root,
    Window,
    Pixmap,
}

/// The image behind a drawable. A view of zero is the null handle.
#[derive(Clone, Copy, Debug, PartialEq, Eq, Structural)]
pub struct Storage {
    pub extent: Extent2D,
    /// Attachment-side view.
    pub image_view: u64,
    /// Sample-side view, which the scene binds.
    pub sample_view: u64,
}

/// Why a drawable with pending damage does not arm the scheduler.
#[derive(Clone, Copy, Debug, PartialEq, Eq, Structural)]
pub enum DormantReason {
    /// It shows pieces, but its damage lies under a cover: its next paint
    /// re-arms it.
    HiddenDamage,
    /// It shows no piece anywhere: only a structural change re-arms it.
    NoPieces,
}

/// A drawable and its presentation state.
#[derive(Debug)]
pub struct Drawable {
    pub id: DrawableId,
    pub kind: DrawableKind,
    pub depth: u8,
    pub refcount: u32,
    pub scene_participating: bool,
    pub storage: Storage,
    pub redirected_target: Option<DrawableId>,
    /// Paint that no frame has shown yet, each with its epoch.
    pub damage: StampedSet,
    /// The epoch of the last paint.
    pub epoch: u64,
    pub dormant: Option<DormantReason>,
}

/// A drawable as contracts see it.
pub struct DrawableView {
    pub id: DrawableId,
    pub kind: DrawableKind,
    pub depth: u8,
    pub refcount: u32,
    pub scene_participating: bool,
    pub storage: Storage,
    pub redirected_target: Option<DrawableId>,
    pub damage: Seq<StampedRect>,
    pub epoch: u64,
    pub dormant: Option<DormantReason>,
}

impl View for Drawable {
    type V = DrawableView;

    open spec fn view(&self) -> DrawableView {
        DrawableView {
            id: self.id,
            kind: self.kind,
            depth: self.depth,
            refcount: self.refcount,
            scene_participating: self.scene_participating,
            storage: self.storage,
            redirected_target: self.redirected_target,
            damage: self.damage@,
            epoch: self.epoch,
            dormant: self.dormant,
        }
    }
}

/// A drawable's damage as captured for one frame.
#[derive(Debug)]
pub struct DamageSnapshot {
    pub id: DrawableId,
    pub epoch: u64,
    pub region: RegionSet,
}

/// A snapshot as contracts see it.
pub struct SnapshotView {
    pub id: DrawableId,
    pub epoch: u64,
    pub region: Seq<Rect2D>,
}

impl View for DamageSnapshot {
    type V = SnapshotView;

    open spec fn view(&self) -> SnapshotView {
        SnapshotView { id: self.id, epoch: self.epoch, region: self.region@ }
    }
}

impl Clone for DamageSnapshot {
    fn clone(&self) -> (r: Self)
        ensures
            r@ == self@,
    {
        DamageSnapshot { id: self.id, epoch: self.epoch, region: self.region.snapshot() }
    }
}

/// Why a drawable could not be allocated.
#[derive(Clone, Copy, Debug, PartialEq, Eq, Structural)]
pub enum StoreError {
    /// The xid already names a drawable.
    XidInUse,
}

/// All drawables, by xid and by identity.
#[derive(Debug)]
pub struct DrawableStore {
    by_xid: HashMap<u32, DrawableId>,
    items: Vec<Drawable>,
}

/// The store as contracts see it.
pub struct StoreView {
    pub ids: Map<u32, DrawableId>,
    /// The drawable of identity `k` stands at position `k`.
    pub items: Seq<DrawableView>,
}

impl View for DrawableStore {
    type V = StoreView;

    closed spec fn view(&self) -> StoreView {
        StoreView {
            ids: self.by_xid@,
            items: Seq::new(self.items@.len(), |i: int| self.items@[i]@),
        }
    }
}

impl StoreView {
    /// The drawable an xid names.
    pub open spec fn lookup(self, xid: u32) -> Option<DrawableId> {
        if self.ids.dom().contains(xid) { Some(self.ids[xid]) } else { None }
    }

    /// Whether an xid names a drawable, or is none while none does.
    pub open spec fn named_by(self, id: DrawableId, xid: u32) -> bool {
        ||| self.ids.dom().contains(xid) && self.ids[xid] == id
        ||| xid == 0 && forall|x: u32| #[trigger] self.ids.dom().contains(x) ==> self.ids[x] != id
    }

    /// The drawable of an identity.
    pub open spec fn get(self, id: DrawableId) -> Option<DrawableView> {
        if id.raw < self.items.len() { Some(self.items[id.raw as int]) } else { None }
    }

    /// Where paint into a drawable is redirected to.
    pub open spec fn redirected(self, id: DrawableId) -> Option<DrawableId> {
        match self.get(id) {
            Some(d) => d.redirected_target,
            None => None,
        }
    }

    /// The damage a frame that samples the drawable captures.
    pub open spec fn peek(self, id: DrawableId) -> Option<SnapshotView> {
        match self.get(id) {
            Some(d) => if d.scene_participating {
                Some(SnapshotView { id, epoch: d.epoch, region: bare(d.damage) })
            } else {
                None
            },
            None => None,
        }
    }

    /// The store with one drawable replaced.
    pub open spec fn with(self, id: DrawableId, d: DrawableView) -> StoreView {
        StoreView { ids: self.ids, items: self.items.update(id.raw as int, d) }
    }
}

/// Whether a drawable arms the scheduler: damaged, part of the scene and not
/// dormant.
pub open spec fn arms(d: DrawableView) -> bool {
    d.scene_participating && d.dormant is None && d.damage.len() > 0
}

/// A drawable after a paint into `r`.
pub open spec fn painted(d: DrawableView, r: Rect2D) -> DrawableView {
    DrawableView {
        damage: stamped_add(d.damage, r, next_stamp(d.epoch)),
        epoch: next_stamp(d.epoch),
        dormant: if d.dormant == Some(DormantReason::HiddenDamage) { None } else { d.dormant },
        ..d
    }
}

/// A drawable after a frame that captured `snap` of it reached the screen.
/// Paint that is newer than the capture stays.
pub open spec fn acked(d: DrawableView, snap: SnapshotView) -> DrawableView {
    DrawableView { damage: from_stamp(d.damage, next_stamp(snap.epoch)), ..d }
}

/// A drawable after reconciliation: pending damage that no output may present
/// makes it dormant, everything else is awake.
pub open spec fn reconciled(
    d: DrawableView,
    keep_armed: Set<DrawableId>,
    pieces: Set<DrawableId>,
) -> DrawableView {
    if d.damage.len() == 0 || !d.scene_participating {
        d
    } else {
        DrawableView {
            dormant: if keep_armed.contains(d.id) {
                None
            } else if pieces.contains(d.id) {
                Some(DormantReason::HiddenDamage)
            } else {
                Some(DormantReason::NoPieces)
            },
            ..d
        }
    }
}

impl DrawableStore {
    pub fn new() -> (r: Self)
        ensures
            r@.ids == Map::<u32, DrawableId>::empty(),
            r@.items == Seq::<DrawableView>::empty(),
    {
        let r = DrawableStore { by_xid: HashMap::new(), items: Vec::new() };
        assert(r@.items =~= Seq::<DrawableView>::empty());
        r
    }

    /// Adds a drawable under a fresh identity.
    pub fn allocate(
        &mut self,
        xid: u32,
        kind: DrawableKind,
        depth: u8,
        scene_participating: bool,
        storage: Storage,
    ) -> (r: Result<DrawableId, StoreError>)
        ensures
            r is Err <==> old(self)@.ids.dom().contains(xid),
            r is Err ==> final(self)@ == old(self)@,
            r matches Ok(id) ==> {
                &&& id.raw == old(self)@.items.len()
                &&& final(self)@.ids == old(self)@.ids.insert(xid, id)
                &&& final(self)@.items == old(self)@.items.push(
                    DrawableView {
                        id,
                        kind,
                        depth,
                        refcount: 1,
                        scene_participating,
                        storage,
                        redirected_target: None,
                        damage: Seq::empty(),
                        epoch: 0,
                        dormant: None,
                    },
                )
            },
    {
        if self.by_xid.contains_key(&xid) {
            return Err(StoreError::XidInUse);
        }
        let id = DrawableId { raw: self.items.len() as u64 };
        self.items.push(
            Drawable {
                id,
                kind,
                depth,
                refcount: 1,
                scene_participating,
                storage,
                redirected_target: None,
                damage: StampedSet::new(),
                epoch: 0,
                dormant: None,
            },
        );
        self.by_xid.insert(xid, id);
        assert(self@.items =~= old(self)@.items.push(self@.items.last()));
        Ok(id)
    }

    /// The drawable an xid names.
    pub fn lookup(&self, xid: u32) -> (r: Option<DrawableId>)
        ensures
            r == self@.lookup(xid),
    {
        match self.by_xid.get(&xid) {
            Some(id) => Some(*id),
            None => None,
        }
    }

    /// An xid that names a drawable, none where there is none.
    pub fn xid_of(&self, id: DrawableId) -> (r: u32)
        ensures
            self@.named_by(id, r),
    {
        let keys = map_keys(&self.by_xid);
        let mut i: usize = 0;
        while i < keys.len()
            invariant
                i <= keys@.len(),
                forall|k: u32| #[trigger]
                    self.by_xid@.dom().contains(k) <==> exists|j: int|
                        0 <= j < keys@.len() && #[trigger] keys@[j] == k,
                forall|j: int| 0 <= j < i ==> self.by_xid@[#[trigger] keys@[j]] != id,
            decreases keys@.len() - i,
        {
            let xid = keys[i];
            assert(keys@[i as int] == xid);
            assert(self.by_xid@.dom().contains(xid));
            if *self.by_xid.get(&xid).unwrap() == id {
                return xid;
            }
            i = i + 1;
        }
        0
    }

    /// The drawable of an identity.
    pub fn get(&self, id: DrawableId) -> (r: Option<&Drawable>)
        ensures
            r is Some <==> self@.get(id) is Some,
            r matches Some(d) ==> self@.get(id) == Some(d@),
    {
        if id.raw < self.items.len() as u64 {
            Some(&self.items[id.raw as usize])
        } else {
            None
        }
    }

    /// Where paint into a drawable is redirected to.
    pub fn redirected_target(&self, id: DrawableId) -> (r: Option<DrawableId>)
        ensures
            r == self@.redirected(id),
    {
        match self.get(id) {
            Some(d) => d.redirected_target,
            None => None,
        }
    }

    /// Routes paint into a drawable to another one, or back to itself.
    pub fn set_redirected_target(&mut self, id: DrawableId, target: Option<DrawableId>)
        ensures
            final(self)@ == (match old(self)@.get(id) {
                Some(d) => old(self)@.with(id, DrawableView { redirected_target: target, ..d }),
                None => old(self)@,
            }),
    {
        if id.raw < self.items.len() as u64 {
            let i = id.raw as usize;
            self.items[i].redirected_target = target;
            assert(self@.items =~= old(self)@.items.update(i as int, self@.items[i as int]));
        }
    }

    /// Puts a drawable on or off the scene.
    pub fn set_scene_participating(&mut self, id: DrawableId, on: bool)
        ensures
            final(self)@ == (match old(self)@.get(id) {
                Some(d) => old(self)@.with(id, DrawableView { scene_participating: on, ..d }),
                None => old(self)@,
            }),
    {
        if id.raw < self.items.len() as u64 {
            let i = id.raw as usize;
            self.items[i].scene_participating = on;
            assert(self@.items =~= old(self)@.items.update(i as int, self@.items[i as int]));
        }
    }

    /// Records a paint into a drawable.
    pub fn damage(&mut self, id: DrawableId, rect: Rect2D)
        ensures
            final(self)@ == (match old(self)@.get(id) {
                Some(d) => old(self)@.with(id, painted(d, rect)),
                None => old(self)@,
            }),
    {
        if id.raw < self.items.len() as u64 {
            let i = id.raw as usize;
            let e = self.items[i].epoch;
            let dormant = self.items[i].dormant;
            let now = stamp_after(e);
            self.items[i].damage.add(rect, now);
            self.items[i].epoch = now;
            if dormant == Some(DormantReason::HiddenDamage) {
                self.items[i].dormant = None;
            }
            assert(self@.items =~= old(self)@.items.update(i as int, self@.items[i as int]));
        }
    }

    /// Captures the pending damage of a drawable that is part of the scene.
    pub fn peek_presentation_damage(&self, id: DrawableId) -> (r: Option<DamageSnapshot>)
        ensures
            r is Some <==> self@.peek(id) is Some,
            r matches Some(s) ==> self@.peek(id) == Some(s@),
    {
        match self.get(id) {
            Some(d) => {
                if d.scene_participating {
                    Some(DamageSnapshot { id, epoch: d.epoch, region: d.damage.region() })
                } else {
                    None
                }
            },
            None => None,
        }
    }

    /// Clears captured damage once the frame that captured it is on screen.
    pub fn ack_presentation_damage(&mut self, snap: &DamageSnapshot)
        ensures
            final(self)@ == (match old(self)@.get(snap.id) {
                Some(d) => old(self)@.with(snap.id, acked(d, snap@)),
                None => old(self)@,
            }),
    {
        let id = snap.id;
        if id.raw < self.items.len() as u64 {
            let i = id.raw as usize;
            self.items[i].damage.drop_before(stamp_after(snap.epoch));
            assert(self@.items =~= old(self)@.items.update(i as int, self@.items[i as int]));
        }
    }

    /// Whether any drawable arms the scheduler.
    pub fn has_pending_presentation_damage(&self) -> (r: bool)
        ensures
            r == exists|i: int| 0 <= i < self@.items.len() && arms(#[trigger] self@.items[i]),
    {
        let mut i: usize = 0;
        while i < self.items.len()
            invariant
                i <= self.items@.len(),
                forall|k: int| 0 <= k < i ==> !arms(#[trigger] self@.items[k]),
            decreases self.items.len() - i,
        {
            let d = &self.items[i];
            assert(self@.items[i as int] == d@);
            if d.scene_participating && d.dormant.is_none() && !d.damage.is_empty() {
                return true;
            }
            i = i + 1;
        }
        false
    }

    /// The drawables that arm the scheduler, oldest first.
    pub fn armed_damaged_ids(&self) -> (r: Vec<DrawableId>)
        ensures
            r@ == armed_ids(self@.items),
    {
        let mut r: Vec<DrawableId> = Vec::new();
        let mut i: usize = 0;
        assert(self@.items.take(0) =~= Seq::<DrawableView>::empty());
        while i < self.items.len()
            invariant
                i <= self.items@.len(),
                self@.items.len() == self.items@.len(),
                r@ == armed_ids(self@.items.take(i as int)),
            decreases self.items.len() - i,
        {
            let d = &self.items[i];
            assert(self@.items[i as int] == d@);
            assert(self@.items.take(i + 1).drop_last() =~= self@.items.take(i as int));
            if d.scene_participating && d.dormant.is_none() && !d.damage.is_empty() {
                r.push(d.id);
            }
            i = i + 1;
        }
        assert(self@.items.take(i as int) =~= self@.items);
        r
    }

    /// Decides dormancy for every drawable with pending damage; says whether
    /// anything changed.
    pub fn reconcile_offscreen_no_draw(&mut self, keep_armed: &IdSet, pieces: &IdSet) -> (changed:
        bool)
        ensures
            final(self)@.ids == old(self)@.ids,
            final(self)@.items.len() == old(self)@.items.len(),
            forall|i: int|
                0 <= i < old(self)@.items.len() ==> #[trigger] final(self)@.items[i] == reconciled(
                    old(self)@.items[i],
                    keep_armed@,
                    pieces@,
                ),
            changed == exists|i: int|
                0 <= i < old(self)@.items.len() && (#[trigger] old(self)@.items[i]).dormant
                    != reconciled(old(self)@.items[i], keep_armed@, pieces@).dormant,
    {
        let ghost before = self@.items;
        let mut changed = false;
        let mut i: usize = 0;
        while i < self.items.len()
            invariant
                i <= self.items@.len(),
                self@.ids == old(self)@.ids,
                before == old(self)@.items,
                before.len() == self.items@.len(),
                forall|k: int|
                    0 <= k < i ==> (#[trigger] self.items@[k])@ == reconciled(
                        before[k],
                        keep_armed@,
                        pieces@,
                    ),
                forall|k: int| i <= k < before.len() ==> (#[trigger] self.items@[k])@ == before[k],
                changed == exists|k: int|
                    0 <= k < i && (#[trigger] before[k]).dormant != reconciled(
                        before[k],
                        keep_armed@,
                        pieces@,
                    ).dormant,
            decreases self.items.len() - i,
        {
            let ghost prev_changed = changed;
            let d = &self.items[i];
            assert(d@ == before[i as int]);
            if !d.damage.is_empty() && d.scene_participating {
                let id = d.id;
                let now = if keep_armed.contains(id) {
                    None
                } else if pieces.contains(id) {
                    Some(DormantReason::HiddenDamage)
                } else {
                    Some(DormantReason::NoPieces)
                };
                if self.items[i].dormant != now {
                    changed = true;
                    self.items[i].dormant = now;
                    assert(before[i as int].dormant != reconciled(
                        before[i as int],
                        keep_armed@,
                        pieces@,
                    ).dormant);
                }
            }
            proof {
                if prev_changed {
                    let k = choose|k: int|
                        0 <= k < i && (#[trigger] before[k]).dormant != reconciled(
                            before[k],
                            keep_armed@,
                            pieces@,
                        ).dormant;
                    assert(before[k].dormant != reconciled(before[k], keep_armed@, pieces@).dormant);
                }
            }
            i = i + 1;
        }
        changed
    }
}

/// The identities of the drawables that arm the scheduler, in store order.
pub open spec fn armed_ids(items: Seq<DrawableView>) -> Seq<DrawableId>
    decreases items.len(),
{
    if items.len() == 0 {
        Seq::empty()
    } else {
        let head = armed_ids(items.drop_last());
        if arms(items.last()) { head.push(items.last().id) } else { head }
    }
}

/// A drawable after paints in turn.
pub open spec fn painted_by(d: DrawableView, later: Seq<Rect2D>) -> DrawableView
    decreases later.len(),
{
    if later.len() == 0 {
        d
    } else {
        painted(painted_by(d, later.drop_last()), later.last())
    }
}

/// A drawable after frames with these captures of it reached the screen in turn.
pub open spec fn acked_by(d: DrawableView, snaps: Seq<SnapshotView>) -> DrawableView
    decreases snaps.len(),
{
    if snaps.len() == 0 {
        d
    } else {
        acked(acked_by(d, snaps.drop_last()), snaps.last())
    }
}

/// Whether no paint is from the future.
pub open spec fn paint_dated(d: DrawableView) -> bool {
    forall|i: int| 0 <= i < d.damage.len() ==> (#[trigger] d.damage[i]).at <= d.epoch
}

/// Later paints are newer than the drawable was.
pub proof fn lemma_painted_by(d: DrawableView, later: Seq<Rect2D>)
    ensures
        d.epoch <= painted_by(d, later).epoch,
        list_px(later).subset_of(px_from(painted_by(d, later).damage, next_stamp(d.epoch))),
    decreases later.len(),
{
    if later.len() == 0 {
        assert(list_px(later) =~= Set::empty());
    } else {
        let t = later.drop_last();
        lemma_painted_by(d, t);
        let before = painted_by(d, t);
        let least = next_stamp(d.epoch);
        let after = painted_by(d, later);
        lemma_px_from_add(before.damage, later.last(), next_stamp(before.epoch), least);
        assert forall|a: (int, int)| list_px(later).contains(a) implies px_from(
            after.damage,
            least,
        ).contains(a) by {
            let i = choose|i: int| 0 <= i < later.len() && (#[trigger] later[i]).has(a.0, a.1);
            if i < t.len() {
                assert(t[i].has(a.0, a.1));
                assert(list_px(t).contains(a));
            } else {
                assert(later.last().px().contains(a));
            }
        }
    }
}

proof fn lemma_acked_by(d: DrawableView, snaps: Seq<SnapshotView>, least: u64)
    requires
        forall|i: int| 0 <= i < snaps.len() ==> next_stamp((#[trigger] snaps[i]).epoch) <= least,
    ensures
        px_from(d.damage, least).subset_of(px_from(acked_by(d, snaps).damage, least)),
    decreases snaps.len(),
{
    if snaps.len() > 0 {
        let t = snaps.drop_last();
        assert forall|i: int| 0 <= i < t.len() implies next_stamp((#[trigger] t[i]).epoch)
            <= least by {
            assert(t[i] == snaps[i]);
        }
        lemma_acked_by(d, t, least);
        assert(next_stamp(snaps[snaps.len() - 1].epoch) <= least);
        lemma_px_from_kept(acked_by(d, t).damage, least, next_stamp(snaps.last().epoch));
    }
}

/// Every pixel that was painted after the captures is still damaged once the
/// frames that made them are on screen: however many frames captured the same
/// paint, however often the same rectangle was painted again, and whether or not
/// the list collapsed.
pub proof fn acks_keep_later_paint(
    d: DrawableView,
    later: Seq<Rect2D>,
    snaps: Seq<SnapshotView>,
)
    requires
        forall|i: int| 0 <= i < snaps.len() ==> (#[trigger] snaps[i]).epoch <= d.epoch,
    ensures
        list_px(later).subset_of(list_px(bare(acked_by(painted_by(d, later), snaps).damage))),
{
    let p = painted_by(d, later);
    let least = next_stamp(d.epoch);
    lemma_painted_by(d, later);
    assert forall|i: int| 0 <= i < snaps.len() implies next_stamp((#[trigger] snaps[i]).epoch)
        <= least by {
        assert(snaps[i].epoch <= d.epoch);
    }
    lemma_acked_by(p, snaps, least);
    lemma_px_from_kept(acked_by(p, snaps).damage, least, least);
}

/// Nothing painted since the capture: the ack clears the damage.
pub proof fn ack_drains_captured_damage(d: DrawableView, snap: SnapshotView)
    requires
        paint_dated(d),
        snap.epoch == d.epoch,
        d.epoch < u64::MAX,
    ensures
        acked(d, snap).damage.len() == 0,
{
    lemma_all_older(d.damage, next_stamp(snap.epoch));
}

/// No paint is ever from the future.
pub proof fn paint_stays_dated(d: DrawableView, r: Rect2D, snap: SnapshotView)
    requires
        paint_dated(d),
    ensures
        paint_dated(painted(d, r)),
        paint_dated(acked(d, snap)),
{
    let p = painted(d, r);
    assert forall|i: int| 0 <= i < p.damage.len() implies (#[trigger] p.damage[i]).at
        <= p.epoch by {
        if i < d.damage.len() && p.damage[i] == d.damage[i] {
            assert(d.damage[i].at <= d.epoch);
        }
    }
    lemma_kept_from(d.damage, next_stamp(snap.epoch));
    let kept = acked(d, snap).damage;
    assert forall|i: int| 0 <= i < kept.len() implies (#[trigger] kept[i]).at <= d.epoch by {
        assert(d.damage.contains(kept[i]));
    }
}

} // verus!
