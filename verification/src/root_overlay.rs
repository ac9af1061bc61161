//! Rectangles that are inverted on top of everything, as rubber bands are.
//!
//! Drawing the same rectangle again takes it away: inverting twice is nothing.

use vstd::prelude::*;

use crate::geometry::{clip_to_output, projection, Extent2D, Rect2D};

verus! {

/// One inverted rectangle, in root coordinates.
#[derive(Clone, Copy, Debug, PartialEq, Eq, Structural)]
pub struct OverlayEntry {
    pub client: u32,
    pub value: u32,
    pub rect: Rect2D,
}

/// What an overlay shows.
#[derive(Debug)]
pub struct RootOverlay {
    entries: Vec<OverlayEntry>,
}

impl View for RootOverlay {
    type V = Seq<OverlayEntry>;

    closed spec fn view(&self) -> Seq<OverlayEntry> {
        self.entries@
    }
}

/// What a change of the overlay came to.
#[derive(Clone, Copy, Debug, PartialEq, Eq, Structural)]
pub struct ToggleOutcome {
    pub changed: bool,
    pub removed: usize,
    pub inserted: usize,
    pub total: usize,
}

/// Entries without the first occurrence of one.
pub open spec fn without_first(s: Seq<OverlayEntry>, e: OverlayEntry) -> Seq<OverlayEntry>
    decreases s.len(),
{
    if s.len() == 0 {
        s
    } else if s[0] == e {
        s.drop_first()
    } else {
        seq![s[0]] + without_first(s.drop_first(), e)
    }
}

/// Entries after one was drawn: taken away if it was there, else added.
pub open spec fn toggled_one(s: Seq<OverlayEntry>, e: OverlayEntry) -> Seq<OverlayEntry> {
    if s.contains(e) { without_first(s, e) } else { s.push(e) }
}

/// Entries after rectangles were drawn in turn, and how many were taken away.
pub open spec fn toggled(
    s: Seq<OverlayEntry>,
    client: u32,
    value: u32,
    rects: Seq<Rect2D>,
) -> (Seq<OverlayEntry>, nat)
    decreases rects.len(),
{
    if rects.len() == 0 {
        (s, 0)
    } else {
        let (before, n) = toggled(s, client, value, rects.drop_last());
        let e = OverlayEntry { client, value, rect: rects.last() };
        (toggled_one(before, e), if before.contains(e) { n + 1 } else { n })
    }
}

/// The rectangles of entries.
pub open spec fn rects_of(s: Seq<OverlayEntry>) -> Seq<Rect2D> {
    s.map_values(|e: OverlayEntry| e.rect)
}

/// The entries of other clients.
pub open spec fn without_client(s: Seq<OverlayEntry>, client: u32) -> Seq<OverlayEntry>
    decreases s.len(),
{
    if s.len() == 0 {
        s
    } else {
        let before = without_client(s.drop_last(), client);
        if s.last().client == client { before } else { before.push(s.last()) }
    }
}

/// What an output inverts, in its own space.
pub open spec fn apply_list(s: Seq<OverlayEntry>, origin: (i32, i32), ext: Extent2D) -> Seq<
    (u32, Rect2D),
>
    decreases s.len(),
{
    if s.len() == 0 {
        Seq::empty()
    } else {
        let before = apply_list(s.drop_last(), origin, ext);
        match projection(s.last().rect, -origin.0, -origin.1, ext.width, ext.height) {
            Some(r) => before.push((s.last().value, r)),
            None => before,
        }
    }
}

pub proof fn lemma_without_first(s: Seq<OverlayEntry>, e: OverlayEntry, k: int)
    requires
        0 <= k < s.len(),
        s[k] == e,
        forall|i: int| 0 <= i < k ==> s[i] != e,
    ensures
        without_first(s, e) == s.remove(k),
    decreases s.len(),
{
    if k == 0 {
        assert(s.drop_first() =~= s.remove(0));
    } else {
        let t = s.drop_first();
        assert(s[0] != e);
        assert forall|i: int| 0 <= i < k - 1 implies t[i] != e by {
            assert(t[i] == s[i + 1]);
        }
        lemma_without_first(t, e, k - 1);
        assert(without_first(s, e) =~= s.remove(k));
    }
}

impl RootOverlay {
    pub fn new() -> (r: Self)
        ensures
            r@ == Seq::<OverlayEntry>::empty(),
    {
        RootOverlay { entries: Vec::new() }
    }

    pub fn is_empty(&self) -> (r: bool)
        ensures
            r == (self@.len() == 0),
    {
        self.entries.len() == 0
    }

    fn toggle_one(&mut self, e: OverlayEntry) -> (removed: bool)
        ensures
            final(self)@ == toggled_one(old(self)@, e),
            removed == old(self)@.contains(e),
    {
        let mut k: usize = 0;
        while k < self.entries.len()
            invariant
                k <= self.entries@.len(),
                self@ == old(self)@,
                forall|i: int| 0 <= i < k ==> self.entries@[i] != e,
            decreases self.entries@.len() - k,
        {
            if self.entries[k] == e {
                proof {
                    assert(self@[k as int] == e);
                    lemma_without_first(self@, e, k as int);
                }
                let _ = self.entries.remove(k);
                return true;
            }
            k = k + 1;
        }
        assert(!self@.contains(e));
        self.entries.push(e);
        false
    }

    /// Draws rectangles.
    pub fn toggle(&mut self, client: u32, value: u32, rects: &[Rect2D]) -> (r: ToggleOutcome)
        ensures
            final(self)@ == toggled(old(self)@, client, value, rects@).0,
            r.removed == toggled(old(self)@, client, value, rects@).1,
            r.inserted == rects@.len() - r.removed,
            r.total == final(self)@.len(),
            r.changed == (rects@.len() > 0),
    {
        let ghost start = self@;
        let mut removed: usize = 0;
        let mut inserted: usize = 0;
        let mut i: usize = 0;
        assert(rects@.take(0) =~= Seq::empty());
        while i < rects.len()
            invariant
                i <= rects@.len(),
                self@ == toggled(start, client, value, rects@.take(i as int)).0,
                removed == toggled(start, client, value, rects@.take(i as int)).1,
                removed + inserted == i,
            decreases rects@.len() - i,
        {
            assert(rects@.take(i + 1).drop_last() =~= rects@.take(i as int));
            if self.toggle_one(OverlayEntry { client, value, rect: rects[i] }) {
                removed = removed + 1;
            } else {
                inserted = inserted + 1;
            }
            i = i + 1;
        }
        assert(rects@.take(i as int) =~= rects@);
        ToggleOutcome {
            changed: removed > 0 || inserted > 0,
            removed,
            inserted,
            total: self.entries.len(),
        }
    }

    /// Every rectangle.
    pub fn all_rects(&self) -> (r: Vec<Rect2D>)
        ensures
            r@ == rects_of(self@),
    {
        let mut r: Vec<Rect2D> = Vec::new();
        let mut i: usize = 0;
        while i < self.entries.len()
            invariant
                i <= self.entries@.len(),
                r@ == rects_of(self@.take(i as int)),
            decreases self.entries@.len() - i,
        {
            r.push(self.entries[i].rect);
            i = i + 1;
            assert(r@ =~= rects_of(self@.take(i as int)));
        }
        assert(self@.take(i as int) =~= self@);
        r
    }

    /// Takes everything away.
    pub fn clear(&mut self)
        ensures
            final(self)@ == Seq::<OverlayEntry>::empty(),
    {
        self.entries.clear();
    }

    /// Takes a client's rectangles away; says whether there were any.
    pub fn on_client_disconnect(&mut self, client: u32) -> (changed: bool)
        ensures
            final(self)@ == without_client(old(self)@, client),
            changed == (without_client(old(self)@, client).len() != old(self)@.len()),
    {
        let ghost all = self@;
        let mut left: Vec<OverlayEntry> = Vec::new();
        let mut i: usize = 0;
        assert(all.take(0) =~= Seq::empty());
        while i < self.entries.len()
            invariant
                i <= self.entries@.len(),
                all == self.entries@,
                left@ == without_client(all.take(i as int), client),
            decreases self.entries@.len() - i,
        {
            let e = self.entries[i];
            assert(all.take(i + 1).drop_last() =~= all.take(i as int));
            if e.client != client {
                left.push(e);
            }
            i = i + 1;
        }
        assert(all.take(i as int) =~= all);
        let changed = left.len() != self.entries.len();
        self.entries = left;
        changed
    }

    /// What an output inverts.
    pub fn apply_list_for_output(&self, origin: (i32, i32), ext: Extent2D) -> (r: Vec<(u32, Rect2D)>)
        ensures
            r@ == apply_list(self@, origin, ext),
    {
        let ghost all = self@;
        let mut r: Vec<(u32, Rect2D)> = Vec::new();
        let mut i: usize = 0;
        assert(all.take(0) =~= Seq::empty());
        while i < self.entries.len()
            invariant
                i <= self.entries@.len(),
                all == self.entries@,
                r@ == apply_list(all.take(i as int), origin, ext),
            decreases self.entries@.len() - i,
        {
            let e = self.entries[i];
            assert(all.take(i + 1).drop_last() =~= all.take(i as int));
            if let Some(c) = clip_to_output(e.rect, origin, ext) {
                r.push((e.value, c));
            }
            i = i + 1;
        }
        assert(all.take(i as int) =~= all);
        r
    }
}

/// Drawing a rectangle that was not there, and then again, leaves the overlay as
/// it was.
pub proof fn drawing_twice_is_nothing(s: Seq<OverlayEntry>, e: OverlayEntry)
    requires
        !s.contains(e),
    ensures
        toggled_one(toggled_one(s, e), e) == s,
{
    let t = s.push(e);
    assert(t[s.len() as int] == e);
    assert forall|i: int| 0 <= i < s.len() implies t[i] != e by {
        assert(s[i] == t[i]);
        assert(s.contains(s[i]));
    }
    lemma_without_first(t, e, s.len() as int);
    assert(t.remove(s.len() as int) =~= s);
}

} // verus!
