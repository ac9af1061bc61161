//! What recent frames damaged, by generation.

use std::collections::VecDeque;

use vstd::prelude::*;
use vstd::set_lib::set_int_range;

use crate::geometry::Rect2D;
use crate::region_set::{list_add_all, RegionSet};

verus! {

/// The damage of the last frames, oldest first.
pub struct BufferAgeRing {
    entries: VecDeque<(u64, RegionSet)>,
    depth: usize,
}

/// The entries with the damage as a list.
pub open spec fn entries_view(s: Seq<(u64, RegionSet)>) -> Seq<(u64, Seq<Rect2D>)> {
    s.map_values(|e: (u64, RegionSet)| (e.0, e.1@))
}

impl View for BufferAgeRing {
    type V = Seq<(u64, Seq<Rect2D>)>;

    closed spec fn view(&self) -> Seq<(u64, Seq<Rect2D>)> {
        entries_view(self.entries@)
    }
}

/// The last `n` of a list.
pub open spec fn last_of<T>(s: Seq<T>, n: nat) -> Seq<T> {
    if s.len() <= n { s } else { s.skip(s.len() - n) }
}

/// Whether a generation lies strictly between two others.
pub open spec fn between(last_gen: u64, g: u64, frame_gen: u64) -> bool {
    last_gen < g < frame_gen
}

/// Whether a generation is held.
pub open spec fn holds(s: Seq<(u64, Seq<Rect2D>)>, g: u64) -> bool {
    exists|i: int| 0 <= i < s.len() && (#[trigger] s[i]).0 == g
}

/// Whether every generation strictly between two others is held.
pub open spec fn covers_gap(s: Seq<(u64, Seq<Rect2D>)>, last_gen: u64, frame_gen: u64) -> bool {
    forall|g: u64| last_gen < g < frame_gen ==> #[trigger] holds(s, g)
}

/// How many entries lie strictly between two generations.
pub open spec fn count_between(
    s: Seq<(u64, Seq<Rect2D>)>,
    last_gen: u64,
    frame_gen: u64,
) -> nat
    decreases s.len(),
{
    if s.len() == 0 {
        0
    } else {
        count_between(s.drop_last(), last_gen, frame_gen) + (if between(
            last_gen,
            s.last().0,
            frame_gen,
        ) {
            1nat
        } else {
            0nat
        })
    }
}

/// A damage list after the entries strictly between two generations were added
/// to it.
pub open spec fn history_added(
    s: Seq<(u64, Seq<Rect2D>)>,
    last_gen: u64,
    frame_gen: u64,
    dst: Seq<Rect2D>,
) -> Seq<Rect2D>
    decreases s.len(),
{
    if s.len() == 0 {
        dst
    } else {
        let before = history_added(s.drop_last(), last_gen, frame_gen, dst);
        if between(last_gen, s.last().0, frame_gen) {
            list_add_all(before, s.last().1)
        } else {
            before
        }
    }
}

impl BufferAgeRing {
    /// How many entries are kept.
    pub closed spec fn spec_depth(&self) -> usize {
        self.depth
    }

    pub fn new(depth: usize) -> (r: Self)
        ensures
            r@ == Seq::<(u64, Seq<Rect2D>)>::empty(),
            r.spec_depth() == depth,
    {
        let r = BufferAgeRing { entries: VecDeque::new(), depth };
        assert(r@ =~= Seq::<(u64, Seq<Rect2D>)>::empty());
        r
    }

    /// How many entries there are.
    pub fn len(&self) -> (r: usize)
        ensures
            r == self@.len(),
    {
        self.entries.len()
    }

    /// The generations, oldest first.
    pub fn generations(&self) -> (r: Vec<u64>)
        ensures
            r@.len() == self@.len(),
            forall|i: int| 0 <= i < r@.len() ==> #[trigger] r@[i] == self@[i].0,
    {
        let mut out: Vec<u64> = Vec::new();
        let mut i: usize = 0;
        while i < self.entries.len()
            invariant
                i <= self.entries@.len(),
                out@.len() == i,
                forall|k: int| 0 <= k < out@.len() ==> #[trigger] out@[k] == self.entries@[k].0,
            decreases self.entries@.len() - i,
        {
            out.push(self.entries[i].0);
            i = i + 1;
        }
        out
    }

    /// Adds a generation; the oldest leave while there are too many.
    pub fn push(&mut self, generation: u64, region: RegionSet)
        ensures
            final(self)@ == last_of(
                old(self)@.push((generation, region@)),
                old(self).spec_depth() as nat,
            ),
            final(self).spec_depth() == old(self).spec_depth(),
    {
        let ghost want = self@.push((generation, region@));
        self.entries.push_back((generation, region));
        assert(self@ =~= want);
        assert(want.skip(0) =~= want);
        let ghost mut gone: int = 0;
        while self.entries.len() > self.depth
            invariant
                self.depth == old(self).spec_depth(),
                0 <= gone <= want.len(),
                self@ == want.skip(gone),
                self.entries@.len() == want.len() - gone,
                gone > 0 ==> want.len() - gone >= self.depth,
            decreases self.entries@.len(),
        {
            let ghost before = self.entries@;
            let _ = self.entries.pop_front();
            proof {
                assert(self.entries@ =~= before.skip(1));
                assert(self@ =~= want.skip(gone).skip(1));
                assert(want.skip(gone).skip(1) =~= want.skip(gone + 1));
                gone = gone + 1;
            }
        }
    }

    /// Whether a generation is held.
    fn holds_generation(&self, g: u64) -> (r: bool)
        ensures
            r == holds(self@, g),
    {
        let mut i: usize = 0;
        while i < self.entries.len()
            invariant
                i <= self.entries@.len(),
                self@.len() == self.entries@.len(),
                forall|k: int| 0 <= k < i ==> (#[trigger] self@[k]).0 != g,
            decreases self.entries@.len() - i,
        {
            assert(self@[i as int].0 == self.entries@[i as int].0);
            if self.entries[i].0 == g {
                return true;
            }
            i = i + 1;
        }
        false
    }

    /// Whether every generation strictly between the two is held.
    pub fn contains_all(&self, last_gen: u64, frame_gen: u64) -> (r: bool)
        ensures
            r == covers_gap(self@, last_gen, frame_gen),
    {
        if frame_gen <= last_gen {
            return true;
        }
        if frame_gen - last_gen - 1 > self.entries.len() as u64 {
            proof {
                if covers_gap(self@, last_gen, frame_gen) {
                    a_covered_gap_fits_the_ring(self@, last_gen, frame_gen);
                }
            }
            return false;
        }
        let mut g = last_gen + 1;
        while g < frame_gen
            invariant
                last_gen < g <= frame_gen,
                forall|h: u64| last_gen < h < g ==> #[trigger] holds(self@, h),
            decreases frame_gen - g,
        {
            if !self.holds_generation(g) {
                return false;
            }
            g = g + 1;
        }
        true
    }

    /// Adds the damage of every generation strictly between the two to `dst`.
    pub fn union_history_into(&self, last_gen: u64, frame_gen: u64, dst: &mut RegionSet)
        ensures
            final(dst)@ == history_added(self@, last_gen, frame_gen, old(dst)@),
    {
        let ghost start = dst@;
        let mut i: usize = 0;
        assert(self@.take(0) =~= Seq::empty());
        while i < self.entries.len()
            invariant
                i <= self.entries@.len(),
                self@.len() == self.entries@.len(),
                dst@ == history_added(self@.take(i as int), last_gen, frame_gen, start),
            decreases self.entries@.len() - i,
        {
            assert(self@.take(i + 1).drop_last() =~= self@.take(i as int));
            let g = self.entries[i].0;
            assert(self@[i as int] == (g, self.entries@[i as int].1@));
            if g > last_gen && g < frame_gen {
                dst.union_with(&self.entries[i].1);
            }
            i = i + 1;
        }
        assert(self@.take(i as int) =~= self@);
    }
}

/// Whether generations only grow along a list.
pub open spec fn generations_grow(s: Seq<(u64, Seq<Rect2D>)>) -> bool {
    forall|i: int, j: int| 0 <= i < j < s.len() ==> (#[trigger] s[i]).0 < (#[trigger] s[j]).0
}

/// Pushing a later generation keeps the generations growing, and never keeps
/// more than the depth.
pub proof fn ring_stays_bounded_and_ordered(
    s: Seq<(u64, Seq<Rect2D>)>,
    generation: u64,
    damage: Seq<Rect2D>,
    depth: nat,
)
    requires
        generations_grow(s),
        forall|i: int| 0 <= i < s.len() ==> (#[trigger] s[i]).0 < generation,
    ensures
        generations_grow(last_of(s.push((generation, damage)), depth)),
        last_of(s.push((generation, damage)), depth).len() <= depth,
{
}

/// The generations strictly between two that a list holds.
spec fn held_between(s: Seq<(u64, Seq<Rect2D>)>, last_gen: u64, frame_gen: u64) -> Set<int> {
    Set::new(|g: int| last_gen < g < frame_gen && holds(s, g as u64))
}

proof fn lemma_held_count(s: Seq<(u64, Seq<Rect2D>)>, last_gen: u64, frame_gen: u64)
    ensures
        held_between(s, last_gen, frame_gen).finite(),
        held_between(s, last_gen, frame_gen).len() <= count_between(s, last_gen, frame_gen)
            <= s.len(),
        generations_grow(s) ==> held_between(s, last_gen, frame_gen).len() == count_between(
            s,
            last_gen,
            frame_gen,
        ),
    decreases s.len(),
{
    let h = held_between(s, last_gen, frame_gen);
    if s.len() == 0 {
        assert(h =~= Set::empty());
    } else {
        let t = s.drop_last();
        lemma_held_count(t, last_gen, frame_gen);
        let g = s.last().0 as int;
        let ht = held_between(t, last_gen, frame_gen);
        assert forall|x: int| ht.contains(x) implies h.contains(x) by {
            let i = choose|i: int| 0 <= i < t.len() && (#[trigger] t[i]).0 == x as u64;
            assert(s[i].0 == x as u64);
        }
        assert forall|x: int| h.contains(x) implies ht.contains(x) || x == g by {
            let i = choose|i: int| 0 <= i < s.len() && (#[trigger] s[i]).0 == x as u64;
            if i < t.len() {
                assert(t[i].0 == x as u64);
            }
        }
        if between(last_gen, s.last().0, frame_gen) {
            assert(s[s.len() - 1].0 == g as u64);
            assert(h.contains(g));
            assert(h =~= ht.insert(g));
            if generations_grow(s) {
                assert(generations_grow(t));
                if ht.contains(g) {
                    let i = choose|i: int| 0 <= i < t.len() && (#[trigger] t[i]).0 == g as u64;
                    assert(s[i].0 < s[s.len() - 1].0);
                }
            }
        } else {
            assert(h =~= ht);
        }
    }
}

proof fn lemma_covered(s: Seq<(u64, Seq<Rect2D>)>, last_gen: u64, frame_gen: u64)
    requires
        last_gen < frame_gen,
    ensures
        held_between(s, last_gen, frame_gen).len() <= frame_gen - last_gen - 1,
        covers_gap(s, last_gen, frame_gen) <==> held_between(s, last_gen, frame_gen).len()
            == frame_gen - last_gen - 1,
{
    let h = held_between(s, last_gen, frame_gen);
    let all = set_int_range(last_gen + 1, frame_gen as int);
    lemma_held_count(s, last_gen, frame_gen);
    vstd::set_lib::lemma_int_range(last_gen + 1, frame_gen as int);
    assert(h.subset_of(all));
    vstd::set_lib::lemma_len_subset(h, all);
    if h.len() == all.len() {
        vstd::set_lib::lemma_subset_equality(h, all);
        assert forall|g: u64| last_gen < g < frame_gen implies #[trigger] holds(s, g) by {
            assert(h.contains(g as int));
        }
    }
    if covers_gap(s, last_gen, frame_gen) {
        assert forall|x: int| all.contains(x) implies h.contains(x) by {
            assert(holds(s, x as u64));
        }
        assert(h =~= all);
    }
}

/// A gap that is covered is no longer than the list.
pub proof fn a_covered_gap_fits_the_ring(
    s: Seq<(u64, Seq<Rect2D>)>,
    last_gen: u64,
    frame_gen: u64,
)
    requires
        covers_gap(s, last_gen, frame_gen),
    ensures
        frame_gen - last_gen - 1 <= s.len(),
{
    if last_gen < frame_gen {
        lemma_held_count(s, last_gen, frame_gen);
        lemma_covered(s, last_gen, frame_gen);
    }
}

/// A gap that is covered holds at least as many entries as generations, and where
/// the generations only grow along the list, counting the entries decides.
pub proof fn counting_finds_every_generation(
    s: Seq<(u64, Seq<Rect2D>)>,
    last_gen: u64,
    frame_gen: u64,
)
    ensures
        covers_gap(s, last_gen, frame_gen) ==> count_between(s, last_gen, frame_gen) >= frame_gen
            - last_gen - 1,
        generations_grow(s) && count_between(s, last_gen, frame_gen) >= frame_gen - last_gen - 1
            ==> covers_gap(s, last_gen, frame_gen),
{
    if last_gen < frame_gen {
        lemma_held_count(s, last_gen, frame_gen);
        lemma_covered(s, last_gen, frame_gen);
    }
}

} // verus!
