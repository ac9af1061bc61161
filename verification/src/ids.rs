//! Drawable identities and sets of them.

use std::collections::{HashMap, HashSet};
use vstd::prelude::*;

verus! {

broadcast use vstd::std_specs::hash::group_hash_axioms;

/// Identity of a drawable: unique over the store's lifetime.
#[derive(Clone, Copy, Debug, PartialEq, Eq, Hash, Structural)]
pub struct DrawableId {
    pub raw: u64,
}

impl DrawableId {
    pub fn from_raw(raw: u64) -> (r: Self)
        ensures
            r.raw == raw,
    {
        DrawableId { raw }
    }

    pub fn as_u64(self) -> (r: u64)
        ensures
            r == self.raw,
    {
        self.raw
    }
}

/// The elements of a set as a list.
fn set_to_vec(set: &HashSet<u64>) -> (out: Vec<u64>)
    ensures
        out@.to_set() == set@,
{
    let mut out: Vec<u64> = Vec::new();
    for k in it: set.iter()
        invariant
            it.seq().unref().to_set() == set@,
            forall|r: u64| #[trigger] out@.contains(r) ==> set@.contains(r),
            forall|r: u64| #[trigger]
                set@.contains(r) ==> out@.contains(r) || exists|i: int|
                    it.index() <= i < it.seq().len() && *(#[trigger] it.seq()[i]) == r,
    {
        let ghost before = out@;
        out.push(*k);
        proof {
            assert(it.seq().unref()[it.index() as int] == *k);
            assert(it.seq().unref().to_set().contains(*k));
            assert(out@.last() == *k);
            assert forall|r: u64| out@.contains(r) implies set@.contains(r) by {
                let i = choose|i: int| 0 <= i < out@.len() && out@[i] == r;
                if i < before.len() {
                    assert(before[i] == r);
                    assert(before.contains(r));
                }
            }
            assert forall|r: u64| before.contains(r) implies out@.contains(r) by {
                let i = choose|i: int| 0 <= i < before.len() && before[i] == r;
                assert(out@[i] == r);
            }
        }
    }
    assert(out@.to_set() =~= set@);
    out
}

/// The keys of a map, each once, in no particular order.
pub fn map_keys<V>(map: &HashMap<u32, V>) -> (out: Vec<u32>)
    ensures
        forall|k: u32| #[trigger]
            map@.dom().contains(k) <==> exists|i: int| 0 <= i < out@.len() && #[trigger] out@[i] == k,
        forall|i: int, j: int| 0 <= i < j < out@.len() ==> #[trigger] out@[i] != #[trigger] out@[j],
{
    let mut out: Vec<u32> = Vec::new();
    for k in it: map.keys()
        invariant
            it.seq().unref().to_set() == map@.dom(),
            it.seq().no_duplicates(),
            out@.len() == it.index(),
            forall|i: int| 0 <= i < out@.len() ==> #[trigger] out@[i] == *it.seq()[i],
            forall|i: int| 0 <= i < out@.len() ==> map@.dom().contains(#[trigger] out@[i]),
            forall|i: int, j: int|
                0 <= i < j < out@.len() ==> #[trigger] out@[i] != #[trigger] out@[j],
            forall|r: u32| #[trigger]
                map@.dom().contains(r) ==> (exists|i: int|
                    0 <= i < out@.len() && #[trigger] out@[i] == r) || exists|i: int|
                    it.index() <= i < it.seq().len() && *(#[trigger] it.seq()[i]) == r,
    {
        let ghost before = out@;
        out.push(*k);
        proof {
            let n = it.index() as int;
            assert(it.seq().unref()[n] == *k);
            assert(it.seq().unref().to_set().contains(*k));
            assert forall|i: int| 0 <= i < n implies #[trigger] out@[i] != out@[n] by {
                assert(it.seq()[i] != it.seq()[n]);
                assert(out@[i] == before[i]);
            }
            assert forall|r: u32| #[trigger] map@.dom().contains(r) implies (exists|i: int|
                0 <= i < out@.len() && #[trigger] out@[i] == r) || exists|i: int|
                n + 1 <= i < it.seq().len() && *(#[trigger] it.seq()[i]) == r by {
                if exists|i: int| 0 <= i < before.len() && #[trigger] before[i] == r {
                    let i = choose|i: int| 0 <= i < before.len() && #[trigger] before[i] == r;
                    assert(out@[i] == r);
                } else {
                    let i = choose|i: int| n <= i < it.seq().len() && *(#[trigger] it.seq()[i]) == r;
                    if i == n {
                        assert(out@[n] == r);
                    }
                }
            }
        }
    }
    out
}

/// A set of drawables.
#[derive(Debug)]
pub struct IdSet {
    raw: HashSet<u64>,
}

impl View for IdSet {
    type V = Set<DrawableId>;

    closed spec fn view(&self) -> Set<DrawableId> {
        Set::new(|d: DrawableId| self.raw@.contains(d.raw))
    }
}

impl IdSet {
    pub fn new() -> (r: Self)
        ensures
            r@ == Set::<DrawableId>::empty(),
    {
        let r = IdSet { raw: HashSet::new() };
        assert(r@ =~= Set::<DrawableId>::empty());
        r
    }

    pub fn contains(&self, id: DrawableId) -> (r: bool)
        ensures
            r == self@.contains(id),
    {
        self.raw.contains(&id.raw)
    }

    pub fn insert(&mut self, id: DrawableId)
        ensures
            final(self)@ == old(self)@.insert(id),
    {
        self.raw.insert(id.raw);
        assert(self@ =~= old(self)@.insert(id));
    }

    /// Adds every element of another set.
    pub fn extend(&mut self, other: &IdSet)
        ensures
            final(self)@ == old(self)@.union(other@),
    {
        let ghost before = self.raw@;
        let keys = set_to_vec(&other.raw);
        let mut i: usize = 0;
        while i < keys.len()
            invariant
                i <= keys@.len(),
                forall|r: u64| #[trigger]
                    self.raw@.contains(r) <==> before.contains(r) || exists|k: int|
                        0 <= k < i && #[trigger] keys@[k] == r,
            decreases keys.len() - i,
        {
            self.raw.insert(keys[i]);
            i = i + 1;
        }
        assert forall|d: DrawableId| self@.contains(d) == old(self)@.union(other@).contains(d) by {
            assert(other.raw@.contains(d.raw) == keys@.to_set().contains(d.raw));
        }
        assert(self@ =~= old(self)@.union(other@));
    }

    /// Adds every element of a list.
    pub fn extend_from(&mut self, ids: &[DrawableId])
        ensures
            final(self)@ == old(self)@.union(ids@.to_set()),
    {
        let ghost before = self@;
        let mut i: usize = 0;
        assert(ids@.take(0).to_set() =~= Set::<DrawableId>::empty());
        assert(before.union(Set::<DrawableId>::empty()) =~= before);
        while i < ids.len()
            invariant
                i <= ids@.len(),
                self@ == before.union(ids@.take(i as int).to_set()),
            decreases ids.len() - i,
        {
            self.insert(ids[i]);
            proof {
                let t = ids@.take(i as int);
                let t1 = ids@.take(i + 1);
                assert(t1 =~= t.push(ids@[i as int]));
                assert forall|d: DrawableId| t1.to_set().contains(d) == t.to_set().insert(
                    ids@[i as int],
                ).contains(d) by {
                    if t.contains(d) {
                        let k = choose|k: int| 0 <= k < t.len() && t[k] == d;
                        assert(t1[k] == d);
                    }
                    assert(t1[i as int] == ids@[i as int]);
                    if t1.contains(d) && d != ids@[i as int] {
                        let k = choose|k: int| 0 <= k < t1.len() && t1[k] == d;
                        assert(t[k] == d);
                    }
                }
                assert(self@ =~= before.union(t1.to_set()));
            }
            i = i + 1;
        }
        assert(ids@.take(i as int) =~= ids@);
    }
}

} // verus!
