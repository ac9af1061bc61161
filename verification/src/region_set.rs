//! Damage as a short list of rectangles, in the order they came.

use vstd::prelude::*;

use crate::geometry::{bbox_of_two, union_bbox, Rect2D};
use crate::region::MAX_RECTS;

verus! {

/// A list of non-empty damage rectangles, collapsed to their bounding box when
/// there are too many.
#[derive(Debug)]
pub struct RegionSet {
    rects: Vec<Rect2D>,
}

impl View for RegionSet {
    type V = Seq<Rect2D>;

    closed spec fn view(&self) -> Seq<Rect2D> {
        self.rects@
    }
}

/// The bounding box of a non-empty list of rectangles.
pub open spec fn bbox_of_list(s: Seq<Rect2D>) -> Rect2D
    decreases s.len(),
{
    if s.len() <= 1 {
        s[0]
    } else {
        bbox_of_two(bbox_of_list(s.drop_last()), s.last())
    }
}

/// The list after one rectangle was added.
pub open spec fn list_add(s: Seq<Rect2D>, r: Rect2D) -> Seq<Rect2D> {
    if !r.non_empty() {
        s
    } else if s.len() < MAX_RECTS {
        s.push(r)
    } else {
        seq![bbox_of_list(s.push(r))]
    }
}

/// The list after the rectangles of another were added in turn.
pub open spec fn list_add_all(s: Seq<Rect2D>, other: Seq<Rect2D>) -> Seq<Rect2D>
    decreases other.len(),
{
    if other.len() == 0 {
        s
    } else {
        list_add(list_add_all(s, other.drop_last()), other.last())
    }
}

/// The pixels under a list of rectangles.
pub open spec fn list_px(s: Seq<Rect2D>) -> Set<(int, int)> {
    Set::new(|a: (int, int)| exists|i: int| 0 <= i < s.len() && (#[trigger] s[i]).has(a.0, a.1))
}

impl RegionSet {
    pub fn new() -> (r: Self)
        ensures
            r@ == Seq::<Rect2D>::empty(),
    {
        RegionSet { rects: Vec::new() }
    }

    /// The list of these rectangles.
    pub fn of_rects(rects: Vec<Rect2D>) -> (r: Self)
        ensures
            r@ == rects@,
    {
        RegionSet { rects }
    }

    /// The rectangles.
    pub fn rects(&self) -> (r: &Vec<Rect2D>)
        ensures
            r@ == self@,
    {
        &self.rects
    }

    pub fn is_empty(&self) -> (r: bool)
        ensures
            r == (self@.len() == 0),
    {
        self.rects.len() == 0
    }

    /// Adds one rectangle; one without a pixel is ignored.
    pub fn add(&mut self, r: Rect2D)
        ensures
            final(self)@ == list_add(old(self)@, r),
    {
        if r.is_empty() {
            return;
        }
        if self.rects.len() < MAX_RECTS {
            self.rects.push(r);
        } else {
            self.rects.push(r);
            let b = list_bounds(&self.rects);
            let mut one: Vec<Rect2D> = Vec::new();
            one.push(b);
            self.rects = one;
            assert(self@ =~= list_add(old(self)@, r));
        }
    }

    /// Adds every rectangle of another list.
    pub fn union_with(&mut self, other: &RegionSet)
        ensures
            final(self)@ == list_add_all(old(self)@, other@),
    {
        let mut i: usize = 0;
        let ghost before = self@;
        assert(other@.take(0) =~= Seq::<Rect2D>::empty());
        while i < other.rects.len()
            invariant
                i <= other@.len(),
                other@ == other.rects@,
                self@ == list_add_all(before, other@.take(i as int)),
            decreases other.rects.len() - i,
        {
            assert(other@.take(i + 1).drop_last() =~= other@.take(i as int));
            self.add(other.rects[i]);
            i = i + 1;
        }
        assert(other@.take(i as int) =~= other@);
    }

    /// The list as it is now.
    pub fn snapshot(&self) -> (r: RegionSet)
        ensures
            r@ == self@,
    {
        let rects = self.rects.clone();
        assert(rects@ =~= self.rects@);
        RegionSet { rects }
    }

    /// The bounding box, `None` without a rectangle.
    pub fn bounding_rect(&self) -> (r: Option<Rect2D>)
        ensures
            r == (if self@.len() == 0 { None } else { Some(bbox_of_list(self@)) }),
    {
        if self.rects.len() == 0 {
            None
        } else {
            Some(list_bounds(&self.rects))
        }
    }
}

/// The bounding box of a non-empty list of rectangles.
pub fn list_bounds(rects: &Vec<Rect2D>) -> (b: Rect2D)
    requires
        rects@.len() > 0,
    ensures
        b == bbox_of_list(rects@),
{
    let mut b = rects[0];
    let mut i: usize = 1;
    while i < rects.len()
        invariant
            1 <= i <= rects@.len(),
            b == bbox_of_list(rects@.take(i as int)),
        decreases rects.len() - i,
    {
        assert(rects@.take(i + 1).drop_last() =~= rects@.take(i as int));
        b = union_bbox(b, rects[i]);
        i = i + 1;
    }
    assert(rects@.take(i as int) =~= rects@);
    b
}

impl Clone for RegionSet {
    fn clone(&self) -> (r: Self)
        ensures
            r@ == self@,
    {
        self.snapshot()
    }
}

pub proof fn lemma_bbox_of_list(s: Seq<Rect2D>)
    requires
        s.len() > 0,
    ensures
        list_px(s).subset_of(bbox_of_list(s).px()),
        -0x8000_0000 <= bbox_of_list(s).x0(),
    decreases s.len(),
{
    let b = bbox_of_list(s);
    assert forall|a: (int, int)| list_px(s).contains(a) implies b.px().contains(a) by {
        let i = choose|i: int| 0 <= i < s.len() && (#[trigger] s[i]).has(a.0, a.1);
        if s.len() > 1 {
            let t = s.drop_last();
            lemma_bbox_of_list(t);
            if i < s.len() - 1 {
                assert(t[i].has(a.0, a.1));
                assert(list_px(t).contains(a));
            }
        }
    }
}

/// Adding a rectangle loses no damage.
pub proof fn adding_keeps_all_damage(s: Seq<Rect2D>, r: Rect2D)
    ensures
        list_px(s).subset_of(list_px(list_add(s, r))),
        r.px().subset_of(list_px(list_add(s, r))),
{
    let t = s.push(r);
    let after = list_add(s, r);
    assert forall|a: (int, int)| list_px(s).contains(a) || r.px().contains(a) implies list_px(
        after,
    ).contains(a) by {
        if r.non_empty() {
            if list_px(s).contains(a) {
                let i = choose|i: int| 0 <= i < s.len() && (#[trigger] s[i]).has(a.0, a.1);
                assert(t[i].has(a.0, a.1));
            } else {
                assert(t[s.len() as int].has(a.0, a.1));
            }
            assert(list_px(t).contains(a));
            if s.len() >= MAX_RECTS {
                lemma_bbox_of_list(t);
                assert(after[0].has(a.0, a.1));
            }
        }
    }
}

} // verus!
