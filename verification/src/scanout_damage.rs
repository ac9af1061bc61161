//! What each scanout buffer is missing of the current scene.
//!
//! Damage is pending until a frame is staged with it. When that frame reaches the
//! screen, its damage becomes missing from every other buffer, and what it
//! painted is no longer missing from its own. A frame that never gets there
//! leaves the model no wiser than "everything is missing".

use vstd::prelude::*;

use crate::geometry::{output_rect, Extent2D, Offset2D, Rect2D};
use crate::region::{area_of, boxes, capped, lemma_capped, Region};

verus! {

/// A submitted frame that has not reached the screen.
#[derive(Debug)]
struct StagedFrame {
    bo_idx: usize,
    damage: Region,
    painted: Region,
}

/// The damage of one output, by buffer.
#[derive(Debug)]
pub struct ScanoutDamage {
    extent: Extent2D,
    missing: Vec<Region>,
    pending: Region,
    staged: Option<StagedFrame>,
    owed: bool,
}

/// A staged frame as pixels.
pub struct StagedView {
    pub bo_idx: usize,
    pub damage: Set<(int, int)>,
    pub painted: Set<(int, int)>,
}

/// The model as pixels.
pub struct DamageModel {
    pub extent: Extent2D,
    /// What each buffer is missing of the scene on screen.
    pub missing: Seq<Set<(int, int)>>,
    /// Damage that no submitted frame has taken up.
    pub pending: Set<(int, int)>,
    pub staged: Option<StagedView>,
    /// Whether a repaint is due that no producer reports.
    pub owed: bool,
}

spec fn regions_px(s: Seq<Region>) -> Seq<Set<(int, int)>> {
    s.map_values(|r: Region| r@)
}

impl View for ScanoutDamage {
    type V = DamageModel;

    closed spec fn view(&self) -> DamageModel {
        DamageModel {
            extent: self.extent,
            missing: regions_px(self.missing@),
            pending: self.pending@,
            staged: match self.staged {
                Some(f) => Some(
                    StagedView {
                        bo_idx: f.bo_idx,
                        damage: f.damage@,
                        painted: f.painted@,
                    },
                ),
                None => None,
            },
            owed: self.owed,
        }
    }
}

/// The pixels of an output.
pub open spec fn whole_px(extent: Extent2D) -> Set<(int, int)> {
    output_rect(extent).px()
}

/// Every buffer missing everything.
pub open spec fn all_missing(n: nat, extent: Extent2D) -> Seq<Set<(int, int)>> {
    Seq::new(n, |i: int| whole_px(extent))
}

/// The model of `n` buffers about which nothing is known.
pub open spec fn fresh(n: nat, extent: Extent2D) -> DamageModel {
    DamageModel {
        extent,
        missing: all_missing(n, extent),
        pending: Set::empty(),
        staged: None,
        owed: false,
    }
}

/// The model after damage arrived.
pub open spec fn damaged(m: DamageModel, px: Set<(int, int)>) -> DamageModel {
    DamageModel { pending: capped(m.pending.union(px)), ..m }
}

/// What a frame into a buffer has to paint.
pub open spec fn repaint_px(m: DamageModel, bo_idx: usize, loadable: bool) -> Set<(int, int)> {
    if loadable && bo_idx < m.missing.len() {
        capped(m.missing[bo_idx as int].union(m.pending))
    } else {
        whole_px(m.extent)
    }
}

/// The model after a frame was submitted.
pub open spec fn submitted(
    m: DamageModel,
    bo_idx: usize,
    painted: Set<(int, int)>,
) -> DamageModel {
    DamageModel {
        pending: Set::empty(),
        staged: Some(
            StagedView {
                bo_idx,
                damage: match m.staged {
                    Some(f) => capped(m.pending.union(f.damage)),
                    None => m.pending,
                },
                painted,
            },
        ),
        ..m
    }
}

/// What a buffer is missing after a frame reached the screen.
pub open spec fn missing_after(
    missing: Set<(int, int)>,
    own: bool,
    f: StagedView,
) -> Set<(int, int)> {
    if own { capped(missing.difference(f.painted)) } else { capped(missing.union(f.damage)) }
}

/// The model after the staged frame, if any, reached the screen.
pub open spec fn retired(m: DamageModel) -> DamageModel {
    match m.staged {
        None => m,
        Some(f) => DamageModel {
            missing: Seq::new(
                m.missing.len(),
                |i: int| missing_after(m.missing[i], i == f.bo_idx, f),
            ),
            staged: None,
            owed: false,
            ..m
        },
    }
}

/// The model after the buffers' contents became unknown.
pub open spec fn invalidated(m: DamageModel) -> DamageModel {
    DamageModel { owed: true, ..fresh(m.missing.len(), m.extent) }
}

impl ScanoutDamage {
    pub fn new(bo_count: usize, extent: Extent2D) -> (r: Self)
        ensures
            r@ == fresh(bo_count as nat, extent),
    {
        let missing = full_regions(bo_count, extent);
        let r = ScanoutDamage { extent, missing, pending: Region::new(), staged: None, owed: false };
        assert(r@.missing =~= all_missing(bo_count as nat, extent));
        r
    }

    /// Adds damage that some frame has to paint.
    pub fn add_damage(&mut self, region: &Region)
        ensures
            final(self)@ == damaged(old(self)@, region@),
    {
        self.pending.union_with(region);
    }

    /// What a frame into a buffer has to paint. Nothing is loaded from a buffer
    /// that is not `loadable`.
    pub fn repaint_for(&self, bo_idx: usize, loadable: bool) -> (r: Region)
        ensures
            r@ == repaint_px(self@, bo_idx, loadable),
    {
        if loadable && bo_idx < self.missing.len() {
            let mut r = self.missing[bo_idx].clone();
            r.union_with(&self.pending);
            r
        } else {
            Region::from_rect(
                Rect2D { offset: Offset2D { x: 0, y: 0 }, extent: self.extent },
            )
        }
    }

    /// Stages a submitted frame that painted `painted`, all of `repaint` among it.
    pub fn commit_submitted(&mut self, bo_idx: usize, repaint: &Region, painted: &Region)
        requires
            repaint@.subset_of(painted@),
        ensures
            final(self)@ == submitted(old(self)@, bo_idx, painted@),
    {
        let mut damage = self.pending.clone();
        if let Some(f) = &self.staged {
            damage.union_with(&f.damage);
        }
        self.pending = Region::new();
        self.staged = Some(StagedFrame { bo_idx, damage, painted: painted.clone() });
    }

    /// The staged frame reached the screen.
    pub fn retire_success(&mut self)
        ensures
            final(self)@ == retired(old(self)@),
    {
        let staged = self.staged.take();
        if let Some(f) = staged {
            let ghost view = StagedView {
                bo_idx: f.bo_idx,
                damage: f.damage@,
                painted: f.painted@,
            };
            let ghost before = self@.missing;
            let mut missing: Vec<Region> = Vec::new();
            let mut i: usize = 0;
            while i < self.missing.len()
                invariant
                    i <= self.missing@.len(),
                    before == regions_px(self.missing@),
                    missing@.len() == i,
                    view.bo_idx == f.bo_idx,
                    view.damage == f.damage@,
                    view.painted == f.painted@,
                    forall|k: int|
                        0 <= k < i ==> (#[trigger] missing@[k])@ == missing_after(
                            before[k],
                            k == f.bo_idx,
                            view,
                        ),
                decreases self.missing@.len() - i,
            {
                let mut r = self.missing[i].clone();
                if i == f.bo_idx {
                    r.subtract(&f.painted);
                } else {
                    r.union_with(&f.damage);
                }
                missing.push(r);
                i = i + 1;
            }
            self.missing = missing;
            self.owed = false;
            assert(self@.missing =~= retired(old(self)@).missing);
        }
    }

    /// The buffers' contents are unknown: everything is missing from each, and a
    /// repaint is owed.
    pub fn invalidate(&mut self)
        ensures
            final(self)@ == invalidated(old(self)@),
    {
        let n = self.missing.len();
        self.missing = full_regions(n, self.extent);
        self.pending = Region::new();
        self.staged = None;
        self.owed = true;
        assert(self@.missing =~= all_missing(n as nat, self.extent));
    }

    /// Whether a repaint is due that no producer reports.
    pub fn owes_repaint(&self) -> (r: bool)
        ensures
            r == self@.owed,
    {
        self.owed
    }

    pub fn has_staged_frame(&self) -> (r: bool)
        ensures
            r == (self@.staged is Some),
    {
        self.staged.is_some()
    }

    /// How many pixels a buffer is missing.
    pub fn missing_area(&self, bo_idx: usize) -> (r: u64)
        requires
            bo_idx < self@.missing.len(),
        ensures
            r == area_of(boxes(self@.missing[bo_idx as int])),
    {
        self.missing[bo_idx].area()
    }
}

fn full_regions(n: usize, extent: Extent2D) -> (r: Vec<Region>)
    ensures
        regions_px(r@) == all_missing(n as nat, extent),
{
    let mut r: Vec<Region> = Vec::new();
    let mut i: usize = 0;
    while i < n
        invariant
            i <= n,
            r@.len() == i,
            forall|k: int| 0 <= k < i ==> (#[trigger] r@[k])@ == whole_px(extent),
        decreases n - i,
    {
        r.push(Region::from_rect(Rect2D { offset: Offset2D { x: 0, y: 0 }, extent }));
        i = i + 1;
    }
    assert(regions_px(r@) =~= all_missing(n as nat, extent));
    r
}

/// Stages a frame that recorded every draw; one that did not painted less than it
/// claims, so the buffers' contents are unknown.
pub fn stage_submitted_frame(
    damage: &mut ScanoutDamage,
    complete: bool,
    bo_idx: usize,
    repaint: &Region,
    painted: &Region,
)
    requires
        repaint@.subset_of(painted@),
    ensures
        final(damage)@ == (if complete {
            submitted(old(damage)@, bo_idx, painted@)
        } else {
            invalidated(old(damage)@)
        }),
{
    if complete {
        damage.commit_submitted(bo_idx, repaint, painted);
    } else {
        damage.invalidate();
    }
}

// ── no stale pixel ──────────────────────────────────────────────────
/// Whether the model knows of every stale pixel: what of a buffer differs from
/// the scene is missing, pending or staged.
pub open spec fn knows(m: DamageModel, stale: Seq<Set<(int, int)>>) -> bool {
    &&& stale.len() == m.missing.len()
    &&& forall|i: int, q: (int, int)|
        0 <= i < stale.len() && (#[trigger] stale[i]).contains(q) ==> m.missing[i].contains(q)
            || #[trigger] m.pending.contains(q) || (match m.staged {
            Some(f) => f.damage.contains(q),
            None => false,
        })
}

/// A frame paints every stale pixel of its buffer, once nothing is staged.
pub proof fn repaint_covers_what_is_stale(
    m: DamageModel,
    stale: Seq<Set<(int, int)>>,
    bo_idx: usize,
    loadable: bool,
)
    requires
        knows(m, stale),
        m.staged is None,
        bo_idx < stale.len(),
        stale[bo_idx as int].subset_of(whole_px(m.extent)),
    ensures
        stale[bo_idx as int].subset_of(repaint_px(m, bo_idx, loadable)),
{
    let i = bo_idx as int;
    lemma_capped(m.missing[i].union(m.pending));
    assert forall|q: (int, int)| stale[i].contains(q) implies repaint_px(
        m,
        bo_idx,
        loadable,
    ).contains(q) by {
        assert(m.missing[i].contains(q) || m.pending.contains(q) || !loadable);
    }
}

/// Damage makes pixels stale in every buffer, and the model knows.
pub proof fn damage_is_known(m: DamageModel, stale: Seq<Set<(int, int)>>, px: Set<(int, int)>)
    requires
        knows(m, stale),
    ensures
        knows(damaged(m, px), stale.map_values(|s: Set<(int, int)>| s.union(px))),
{
    let after = damaged(m, px);
    lemma_capped(m.pending.union(px));
    let t = stale.map_values(|s: Set<(int, int)>| s.union(px));
    assert forall|i: int, q: (int, int)|
        0 <= i < t.len() && (#[trigger] t[i]).contains(q) implies after.missing[i].contains(q)
        || #[trigger] after.pending.contains(q) || (match after.staged {
        Some(f) => f.damage.contains(q),
        None => false,
    }) by {
        if stale[i].contains(q) {
            assert(m.missing[i].contains(q) || m.pending.contains(q) || m.staged is Some);
        }
    }
}

/// A submission alone makes nothing current, and the model still knows.
pub proof fn submission_is_known(
    m: DamageModel,
    stale: Seq<Set<(int, int)>>,
    bo_idx: usize,
    painted: Set<(int, int)>,
)
    requires
        knows(m, stale),
    ensures
        knows(submitted(m, bo_idx, painted), stale),
{
    let after = submitted(m, bo_idx, painted);
    if m.staged is Some {
        lemma_capped(m.pending.union(m.staged->0.damage));
    }
    assert forall|i: int, q: (int, int)|
        0 <= i < stale.len() && (#[trigger] stale[i]).contains(q) implies after.missing[i].contains(
        q,
    ) || #[trigger] after.pending.contains(q) || (match after.staged {
        Some(f) => f.damage.contains(q),
        None => false,
    }) by {
        assert(m.missing[i].contains(q) || m.pending.contains(q) || m.staged is Some);
    }
}

/// A retired frame makes current in its own buffer exactly what it painted, and
/// the model still knows every stale pixel. The frame has painted its damage.
pub proof fn retirement_is_known(m: DamageModel, stale: Seq<Set<(int, int)>>)
    requires
        knows(m, stale),
        m.staged matches Some(f) ==> f.damage.subset_of(f.painted),
    ensures
        knows(
            retired(m),
            match m.staged {
                Some(f) => if f.bo_idx < stale.len() {
                    stale.update(f.bo_idx as int, stale[f.bo_idx as int].difference(f.painted))
                } else {
                    stale
                },
                None => stale,
            },
        ),
{
    if m.staged is Some {
        let f = m.staged->0;
        let b = f.bo_idx as int;
        let after = retired(m);
        let t = if b < stale.len() { stale.update(b, stale[b].difference(f.painted)) } else { stale };
        assert forall|i: int, q: (int, int)|
            0 <= i < t.len() && (#[trigger] t[i]).contains(q) implies after.missing[i].contains(q)
            || #[trigger] after.pending.contains(q) by {
            assert(stale[i].contains(q));
            assert(m.missing[i].contains(q) || m.pending.contains(q) || f.damage.contains(q));
            lemma_capped(m.missing[i].union(f.damage));
            lemma_capped(m.missing[i].difference(f.painted));
        }
    }
}

/// After an invalidation the model knows of every stale pixel of the output,
/// whatever is stale, and owes a repaint.
pub proof fn invalidation_knows_everything(m: DamageModel, stale: Seq<Set<(int, int)>>)
    requires
        stale.len() == m.missing.len(),
        forall|i: int| 0 <= i < stale.len() ==> (#[trigger] stale[i]).subset_of(whole_px(m.extent)),
    ensures
        knows(invalidated(m), stale),
        invalidated(m).owed,
        invalidated(m).staged is None,
{
    let after = invalidated(m);
    assert forall|i: int, q: (int, int)|
        0 <= i < stale.len() && (#[trigger] stale[i]).contains(q) implies after.missing[i].contains(
        q,
    ) || #[trigger] after.pending.contains(q) by {
        assert(stale[i].subset_of(whole_px(m.extent)));
    }
}

} // verus!
