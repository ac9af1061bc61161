//! Damage that remembers when it came.
//!
//! Every rectangle carries a stamp. What a frame showed is taken away by stamp and
//! not by shape, so damage that came after the frame was captured stays, be it the
//! same rectangle again, captured twice, or collapsed with older damage.

use vstd::prelude::*;

use crate::geometry::Rect2D;
use crate::region::MAX_RECTS;
use crate::region_set::{
    adding_keeps_all_damage, bbox_of_list, lemma_bbox_of_list, list_add, list_bounds, list_px,
    RegionSet,
};

verus! {

/// A damage rectangle and when it came.
#[derive(Clone, Copy, Debug, PartialEq, Eq, Structural)]
pub struct StampedRect {
    pub rect: Rect2D,
    pub at: u64,
}

/// The stamp after another one. At the limit it stays; what is stamped with the
/// limit is never taken away again.
pub open spec fn next_stamp(n: u64) -> u64 {
    if n == u64::MAX { n } else { (n + 1) as u64 }
}

/// The stamp after another one.
pub fn stamp_after(n: u64) -> (r: u64)
    ensures
        r == next_stamp(n),
{
    if n == u64::MAX { n } else { n + 1 }
}

/// The rectangles without their stamps.
pub open spec fn bare(s: Seq<StampedRect>) -> Seq<Rect2D> {
    s.map_values(|e: StampedRect| e.rect)
}

/// The list after a rectangle came. When there are too many they collapse to
/// their bounding box, which is as new as the newest of them.
pub open spec fn stamped_add(s: Seq<StampedRect>, r: Rect2D, at: u64) -> Seq<StampedRect> {
    if !r.non_empty() {
        s
    } else if s.len() < MAX_RECTS {
        s.push(StampedRect { rect: r, at })
    } else {
        seq![StampedRect { rect: bbox_of_list(bare(s).push(r)), at }]
    }
}

/// What came at a stamp or after it.
pub open spec fn from_stamp(s: Seq<StampedRect>, least: u64) -> Seq<StampedRect>
    decreases s.len(),
{
    if s.len() == 0 {
        s
    } else {
        let before = from_stamp(s.drop_last(), least);
        if s.last().at >= least { before.push(s.last()) } else { before }
    }
}

/// A list of stamped damage rectangles.
#[derive(Debug)]
pub struct StampedSet {
    items: Vec<StampedRect>,
}

impl View for StampedSet {
    type V = Seq<StampedRect>;

    closed spec fn view(&self) -> Seq<StampedRect> {
        self.items@
    }
}

impl StampedSet {
    pub fn new() -> (r: Self)
        ensures
            r@ == Seq::<StampedRect>::empty(),
    {
        StampedSet { items: Vec::new() }
    }

    pub fn len(&self) -> (n: usize)
        ensures
            n == self@.len(),
    {
        self.items.len()
    }

    pub fn is_empty(&self) -> (r: bool)
        ensures
            r == (self@.len() == 0),
    {
        self.items.len() == 0
    }

    /// The rectangles, oldest first.
    pub fn rects(&self) -> (r: Vec<Rect2D>)
        ensures
            r@ == bare(self@),
    {
        let mut r: Vec<Rect2D> = Vec::new();
        let mut i: usize = 0;
        while i < self.items.len()
            invariant
                i <= self.items@.len(),
                r@ == bare(self.items@).take(i as int),
            decreases self.items@.len() - i,
        {
            r.push(self.items[i].rect);
            i = i + 1;
            assert(r@ =~= bare(self.items@).take(i as int));
        }
        assert(r@ =~= bare(self@));
        r
    }

    /// The damage as it is now.
    pub fn region(&self) -> (r: RegionSet)
        ensures
            r@ == bare(self@),
    {
        RegionSet::of_rects(self.rects())
    }

    /// Adds a rectangle; one without a pixel is ignored.
    pub fn add(&mut self, r: Rect2D, at: u64)
        ensures
            final(self)@ == stamped_add(old(self)@, r, at),
    {
        if r.is_empty() {
            return;
        }
        if self.items.len() < MAX_RECTS {
            self.items.push(StampedRect { rect: r, at });
        } else {
            let mut all = self.rects();
            all.push(r);
            let mut one: Vec<StampedRect> = Vec::new();
            one.push(StampedRect { rect: list_bounds(&all), at });
            self.items = one;
            assert(self@ =~= stamped_add(old(self)@, r, at));
        }
    }

    /// Takes away what came before a stamp.
    pub fn drop_before(&mut self, least: u64)
        ensures
            final(self)@ == from_stamp(old(self)@, least),
    {
        let mut kept: Vec<StampedRect> = Vec::new();
        let mut i: usize = 0;
        assert(self.items@.take(0) =~= Seq::empty());
        while i < self.items.len()
            invariant
                i <= self.items@.len(),
                self@ == old(self)@,
                kept@ == from_stamp(self.items@.take(i as int), least),
            decreases self.items@.len() - i,
        {
            assert(self.items@.take(i + 1).drop_last() =~= self.items@.take(i as int));
            if self.items[i].at >= least {
                kept.push(self.items[i]);
            }
            i = i + 1;
        }
        assert(self.items@.take(i as int) =~= self.items@);
        self.items = kept;
    }
}

// ── marks that frames take up ───────────────────────────────────────
/// Damage that frames take up: what is marked after a frame took it up is newer
/// than what the frame took up.
#[derive(Debug)]
pub struct DamageLog {
    marks: StampedSet,
    clock: u64,
}

/// The log with views.
pub struct LogView {
    pub marks: Seq<StampedRect>,
    /// The stamp of the next mark.
    pub clock: u64,
}

impl View for DamageLog {
    type V = LogView;

    closed spec fn view(&self) -> LogView {
        LogView { marks: self.marks@, clock: self.clock }
    }
}

/// What a frame took up.
#[derive(Debug)]
pub struct DamageCapture {
    pub region: RegionSet,
    /// The stamp of the first mark that it did not take up.
    pub before: u64,
}

/// The same with a sequence.
pub struct CaptureView {
    pub region: Seq<Rect2D>,
    pub before: u64,
}

impl View for DamageCapture {
    type V = CaptureView;

    open spec fn view(&self) -> CaptureView {
        CaptureView { region: self.region@, before: self.before }
    }
}

impl LogView {
    /// A log without marks.
    pub open spec fn empty() -> LogView {
        LogView { marks: Seq::empty(), clock: 0 }
    }

    /// The marked rectangles.
    pub open spec fn rects(self) -> Seq<Rect2D> {
        bare(self.marks)
    }

    /// The marked pixels.
    pub open spec fn px(self) -> Set<(int, int)> {
        list_px(self.rects())
    }

    /// Whether no mark is from the future.
    pub open spec fn dated(self) -> bool {
        forall|i: int| 0 <= i < self.marks.len() ==> (#[trigger] self.marks[i]).at <= self.clock
    }

    /// The log after a rectangle was marked.
    pub open spec fn add(self, r: Rect2D) -> LogView {
        LogView { marks: stamped_add(self.marks, r, self.clock), ..self }
    }

    /// The log after rectangles were marked in turn.
    pub open spec fn add_all(self, rects: Seq<Rect2D>) -> LogView
        decreases rects.len(),
    {
        if rects.len() == 0 {
            self
        } else {
            self.add_all(rects.drop_last()).add(rects.last())
        }
    }

    /// What a frame takes up now.
    pub open spec fn capture(self) -> CaptureView {
        CaptureView { region: self.rects(), before: next_stamp(self.clock) }
    }

    /// The log after a frame took its marks up. They stay until it is on screen.
    pub open spec fn captured(self) -> LogView {
        LogView { clock: next_stamp(self.clock), ..self }
    }

    /// The log once a frame that took marks up is on screen.
    pub open spec fn released(self, c: CaptureView) -> LogView {
        LogView { marks: from_stamp(self.marks, c.before), ..self }
    }
}

impl DamageLog {
    pub fn new() -> (r: Self)
        ensures
            r@ == LogView::empty(),
    {
        DamageLog { marks: StampedSet::new(), clock: 0 }
    }

    /// The marked rectangles, oldest first.
    pub fn rects(&self) -> (r: Vec<Rect2D>)
        ensures
            r@ == self@.rects(),
    {
        self.marks.rects()
    }

    /// How many rectangles are marked.
    pub fn len(&self) -> (n: usize)
        ensures
            n == self@.marks.len(),
    {
        self.marks.len()
    }

    pub fn is_empty(&self) -> (r: bool)
        ensures
            r == (self@.marks.len() == 0),
    {
        self.marks.is_empty()
    }

    /// Marks a rectangle; one without a pixel is ignored.
    pub fn add(&mut self, r: Rect2D)
        ensures
            final(self)@ == old(self)@.add(r),
    {
        self.marks.add(r, self.clock);
    }

    /// Takes the marks up for a frame.
    pub fn capture(&mut self) -> (c: DamageCapture)
        ensures
            c@ == old(self)@.capture(),
            final(self)@ == old(self)@.captured(),
    {
        self.clock = stamp_after(self.clock);
        DamageCapture { region: self.marks.region(), before: self.clock }
    }

    /// Takes away what a frame took up.
    pub fn release(&mut self, c: &DamageCapture)
        ensures
            final(self)@ == old(self)@.released(c@),
    {
        self.marks.drop_before(c.before);
    }
}

// ── what holds of stamps ────────────────────────────────────────────
/// The pixels of what came at a stamp or after it.
pub open spec fn px_from(s: Seq<StampedRect>, least: u64) -> Set<(int, int)> {
    Set::new(
        |a: (int, int)|
            exists|i: int|
                0 <= i < s.len() && (#[trigger] s[i]).at >= least && s[i].rect.has(a.0, a.1),
    )
}

/// Without their stamps, the rectangles are added as in any damage list.
pub proof fn lemma_bare_add(s: Seq<StampedRect>, r: Rect2D, at: u64)
    ensures
        bare(stamped_add(s, r, at)) == list_add(bare(s), r),
{
    assert(bare(stamped_add(s, r, at)) =~= list_add(bare(s), r));
}

/// Marking a rectangle loses no damage.
pub proof fn marking_keeps_all_damage(l: LogView, r: Rect2D)
    ensures
        l.px().subset_of(l.add(r).px()),
        r.px().subset_of(l.add(r).px()),
{
    lemma_bare_add(l.marks, r, l.clock);
    adding_keeps_all_damage(l.rects(), r);
}

/// A later rectangle takes no pixel from what came at a stamp or after it, and
/// adds its own.
pub proof fn lemma_px_from_add(s: Seq<StampedRect>, r: Rect2D, at: u64, least: u64)
    requires
        least <= at,
    ensures
        px_from(s, least).subset_of(px_from(stamped_add(s, r, at), least)),
        r.px().subset_of(px_from(stamped_add(s, r, at), least)),
{
    let t = stamped_add(s, r, at);
    let all = bare(s).push(r);
    assert forall|a: (int, int)|
        px_from(s, least).contains(a) || r.px().contains(a) implies #[trigger] px_from(
        t,
        least,
    ).contains(a) by {
        if r.non_empty() {
            if s.len() < MAX_RECTS {
                if px_from(s, least).contains(a) {
                    let i = choose|i: int|
                        0 <= i < s.len() && (#[trigger] s[i]).at >= least && s[i].rect.has(
                            a.0,
                            a.1,
                        );
                    assert(t[i] == s[i]);
                } else {
                    assert(t[s.len() as int].rect.has(a.0, a.1));
                }
            } else {
                if px_from(s, least).contains(a) {
                    let i = choose|i: int|
                        0 <= i < s.len() && (#[trigger] s[i]).at >= least && s[i].rect.has(
                            a.0,
                            a.1,
                        );
                    assert(all[i] == s[i].rect);
                    assert(all[i].has(a.0, a.1));
                } else {
                    assert(all[s.len() as int].has(a.0, a.1));
                }
                assert(list_px(all).contains(a));
                lemma_bbox_of_list(all);
                assert(t[0].rect.has(a.0, a.1));
            }
        }
    }
}

/// Taking away what came before a stamp keeps the pixels of the rest.
pub proof fn lemma_px_from_kept(s: Seq<StampedRect>, least: u64, other: u64)
    ensures
        other <= least ==> px_from(s, least).subset_of(px_from(from_stamp(s, other), least)),
        px_from(s, least).subset_of(list_px(bare(s))),
    decreases s.len(),
{
    assert forall|a: (int, int)| px_from(s, least).contains(a) implies list_px(bare(s)).contains(
        a,
    ) by {
        let i = choose|i: int|
            0 <= i < s.len() && (#[trigger] s[i]).at >= least && s[i].rect.has(a.0, a.1);
        assert(bare(s)[i].has(a.0, a.1));
    }
    if s.len() > 0 && other <= least {
        let t = s.drop_last();
        lemma_px_from_kept(t, least, other);
        let kept = from_stamp(s, other);
        let before = from_stamp(t, other);
        assert forall|a: (int, int)| px_from(s, least).contains(a) implies px_from(
            kept,
            least,
        ).contains(a) by {
            let i = choose|i: int|
                0 <= i < s.len() && (#[trigger] s[i]).at >= least && s[i].rect.has(a.0, a.1);
            if i < t.len() {
                assert(t[i] == s[i]);
                assert(px_from(t, least).contains(a));
                let k = choose|k: int|
                    0 <= k < before.len() && (#[trigger] before[k]).at >= least
                        && before[k].rect.has(a.0, a.1);
                assert(kept[k] == before[k]);
            } else {
                assert(kept[kept.len() - 1] == s.last());
            }
        }
    }
}

/// What came before a stamp is gone after it was taken away.
pub proof fn lemma_all_older(s: Seq<StampedRect>, least: u64)
    requires
        forall|i: int| 0 <= i < s.len() ==> (#[trigger] s[i]).at < least,
    ensures
        from_stamp(s, least).len() == 0,
    decreases s.len(),
{
    if s.len() > 0 {
        let t = s.drop_last();
        assert forall|i: int| 0 <= i < t.len() implies (#[trigger] t[i]).at < least by {
            assert(t[i] == s[i]);
        }
        assert(s[s.len() - 1].at < least);
        lemma_all_older(t, least);
    }
}

/// Adding later rectangles in turn keeps what came at a stamp or after it.
proof fn lemma_px_from_add_all(l: LogView, later: Seq<Rect2D>, least: u64)
    requires
        least <= l.clock,
    ensures
        l.add_all(later).clock == l.clock,
        px_from(l.marks, least).subset_of(px_from(l.add_all(later).marks, least)),
        list_px(later).subset_of(px_from(l.add_all(later).marks, least)),
    decreases later.len(),
{
    if later.len() == 0 {
        assert(list_px(later) =~= Set::empty());
    } else {
        let t = later.drop_last();
        lemma_px_from_add_all(l, t, least);
        let before = l.add_all(t);
        lemma_px_from_add(before.marks, later.last(), before.clock, least);
        assert forall|a: (int, int)| list_px(later).contains(a) implies px_from(
            l.add_all(later).marks,
            least,
        ).contains(a) by {
            let i = choose|i: int| 0 <= i < later.len() && (#[trigger] later[i]).has(a.0, a.1);
            if i < t.len() {
                assert(t[i].has(a.0, a.1));
                assert(list_px(t).contains(a));
            } else {
                assert(later.last().px().contains(a));
            }
        }
    }
}

/// Whatever is marked after a frame took marks up is still marked once that frame
/// is on screen, however often and wherever it is marked.
pub proof fn later_marks_survive(l: LogView, later: Seq<Rect2D>)
    ensures
        list_px(later).subset_of(l.captured().add_all(later).released(l.capture()).px()),
{
    let c = l.captured();
    let m = c.add_all(later);
    lemma_px_from_add_all(c, later, c.clock);
    lemma_px_from_kept(m.marks, c.clock, c.clock);
    lemma_px_from_kept(from_stamp(m.marks, c.clock), c.clock, c.clock);
}

/// What a frame took up is no longer marked once it is on screen.
pub proof fn captured_marks_are_released(l: LogView)
    requires
        l.dated(),
        l.clock < u64::MAX,
    ensures
        l.captured().released(l.capture()).marks.len() == 0,
{
    lemma_all_older(l.marks, l.capture().before);
}

/// No mark is ever from the future.
pub proof fn marks_stay_dated(l: LogView, r: Rect2D, c: CaptureView)
    requires
        l.dated(),
    ensures
        LogView::empty().dated(),
        l.add(r).dated(),
        l.captured().dated(),
        l.released(c).dated(),
{
    assert forall|i: int| 0 <= i < l.captured().marks.len() implies (
    #[trigger] l.captured().marks[i]).at <= l.captured().clock by {
        assert(l.marks[i].at <= l.clock);
    }
    lemma_kept_from(l.marks, c.before);
    let kept = from_stamp(l.marks, c.before);
    assert forall|i: int| 0 <= i < kept.len() implies (#[trigger] kept[i]).at <= l.clock by {
        assert(l.marks.contains(kept[i]));
    }
}

/// What is kept was there before.
pub proof fn lemma_kept_from(s: Seq<StampedRect>, least: u64)
    ensures
        forall|i: int|
            0 <= i < from_stamp(s, least).len() ==> s.contains(#[trigger] from_stamp(s, least)[i]),
    decreases s.len(),
{
    if s.len() > 0 {
        let t = s.drop_last();
        lemma_kept_from(t, least);
        let kept = from_stamp(s, least);
        let before = from_stamp(t, least);
        assert forall|i: int| 0 <= i < kept.len() implies s.contains(#[trigger] kept[i]) by {
            if i < before.len() {
                assert(kept[i] == before[i]);
                let k = choose|k: int| 0 <= k < t.len() && t[k] == before[i];
                assert(s[k] == kept[i]);
            } else {
                assert(s[s.len() - 1] == kept[i]);
            }
        }
    }
}

} // verus!
