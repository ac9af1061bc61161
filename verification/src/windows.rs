//! The window tree as the walk reads it.

use std::collections::HashMap;
use vstd::prelude::*;

use crate::ids::map_keys;

verus! {

broadcast use vstd::std_specs::hash::group_hash_axioms;

/// Geometry and state of one window. The position is relative to the parent.
#[derive(Clone, Copy, Debug, PartialEq, Eq, Structural)]
pub struct WindowGeometry {
    pub x: i16,
    pub y: i16,
    pub width: u16,
    pub height: u16,
    pub depth: u8,
    pub mapped: bool,
    pub parent: Option<u32>,
    pub stack_rank: u64,
}

/// Every window, by xid.
pub type WindowsMap = HashMap<u32, WindowGeometry>;

/// One rectangle of a bounding shape, relative to its window.
#[derive(Clone, Copy, Debug, PartialEq, Eq, Structural)]
pub struct RegionRect {
    pub x: i16,
    pub y: i16,
    pub width: u16,
    pub height: u16,
}

/// Bounding shapes by xid. An empty list is a shape without pixels; a missing
/// entry is an unshaped window.
pub type ShapeMap = HashMap<u32, Vec<RegionRect>>;

/// Bottom-to-top child order per parent.
pub type ChildrenIndex = HashMap<u32, Vec<u32>>;

/// The server state the walk reads besides windows and drawables.
#[derive(Debug)]
pub struct KmsCore {
    /// The root window.
    pub window_id: u32,
    /// Top-level windows, bottom to top.
    pub top_level_order: Vec<u32>,
    pub shape_bounding: ShapeMap,
    /// The pointer, in whole pixels.
    pub cursor_x: i32,
    pub cursor_y: i32,
}

/// Where an output sits in root space.
#[derive(Clone, Copy, Debug, PartialEq, Eq, Structural)]
pub struct OutputLayout {
    pub x: i32,
    pub y: i32,
    pub width: u16,
    pub height: u16,
}

/// Whether sibling `a` stacks below sibling `b`: by rank, then by xid.
pub open spec fn stacks_below(w: Map<u32, WindowGeometry>, a: u32, b: u32) -> bool {
    w[a].stack_rank < w[b].stack_rank || (w[a].stack_rank == w[b].stack_rank && a < b)
}

/// Whether `c` is a child of `p`.
pub open spec fn is_child(w: Map<u32, WindowGeometry>, p: u32, c: u32) -> bool {
    w.dom().contains(c) && w[c].parent == Some(p)
}

/// Whether a list is in stacking order.
pub open spec fn in_stack_order(w: Map<u32, WindowGeometry>, s: Seq<u32>) -> bool {
    forall|i: int, j: int|
        0 <= i < j < s.len() ==> stacks_below(w, #[trigger] s[i], #[trigger] s[j])
}

/// Whether `s` lists the children of `p`, bottom to top.
pub open spec fn lists_children(w: Map<u32, WindowGeometry>, p: u32, s: Seq<u32>) -> bool {
    &&& in_stack_order(w, s)
    &&& forall|i: int| 0 <= i < s.len() ==> is_child(w, p, #[trigger] s[i])
    &&& forall|c: u32| #[trigger]
        is_child(w, p, c) ==> exists|i: int| 0 <= i < s.len() && #[trigger] s[i] == c
}

/// The children of `p`, bottom to top.
pub open spec fn children_of(w: Map<u32, WindowGeometry>, p: u32) -> Seq<u32> {
    choose|s: Seq<u32>| lists_children(w, p, s)
}

/// Only one list of a window's children is in stacking order.
pub proof fn lemma_children_unique(
    w: Map<u32, WindowGeometry>,
    p: u32,
    a: Seq<u32>,
    b: Seq<u32>,
)
    requires
        lists_children(w, p, a),
        lists_children(w, p, b),
    ensures
        a == b,
{
    assert forall|x: u32| #[trigger] a.contains(x) == b.contains(x) by {
        if a.contains(x) {
            let i = choose|i: int| 0 <= i < a.len() && a[i] == x;
            assert(is_child(w, p, a[i]));
            let j = choose|j: int| 0 <= j < b.len() && #[trigger] b[j] == x;
            assert(b.contains(x));
        }
        if b.contains(x) {
            let i = choose|i: int| 0 <= i < b.len() && b[i] == x;
            assert(is_child(w, p, b[i]));
            let j = choose|j: int| 0 <= j < a.len() && #[trigger] a[j] == x;
            assert(a.contains(x));
        }
    }
    lemma_order_unique(w, a, b);
}

proof fn lemma_order_unique(w: Map<u32, WindowGeometry>, a: Seq<u32>, b: Seq<u32>)
    requires
        in_stack_order(w, a),
        in_stack_order(w, b),
        forall|x: u32| #[trigger] a.contains(x) == b.contains(x),
    ensures
        a == b,
    decreases a.len(),
{
    if a.len() == 0 {
        if b.len() > 0 {
            assert(b.contains(b[0]));
            assert(a.contains(b[0]));
        }
        assert(a =~= b);
    } else {
        assert(a.contains(a[0]));
        assert(b.contains(a[0]));
        assert(b.contains(b[0]));
        assert(a.contains(b[0]));
        let i0 = choose|j: int| 0 <= j < b.len() && b[j] == a[0];
        let j0 = choose|j: int| 0 <= j < a.len() && a[j] == b[0];
        assert(a[0] == b[0]) by {
            if i0 > 0 && j0 > 0 {
                assert(stacks_below(w, b[0], b[i0]));
                assert(stacks_below(w, a[0], a[j0]));
            }
        }
        let ta = a.drop_first();
        let tb = b.drop_first();
        assert forall|x: u32| #[trigger] ta.contains(x) == tb.contains(x) by {
            lemma_order_tail(w, a, x);
            lemma_order_tail(w, b, x);
            assert(a.contains(x) == b.contains(x));
        }
        lemma_order_tail(w, a, 0);
        lemma_order_tail(w, b, 0);
        lemma_order_unique(w, ta, tb);
        assert(a =~= seq![a[0]] + ta);
        assert(b =~= seq![b[0]] + tb);
    }
}

proof fn lemma_order_tail(w: Map<u32, WindowGeometry>, a: Seq<u32>, x: u32)
    requires
        in_stack_order(w, a),
        a.len() > 0,
    ensures
        in_stack_order(w, a.drop_first()),
        a.drop_first().contains(x) == (a.contains(x) && x != a[0]),
{
    let t = a.drop_first();
    assert forall|i: int, j: int| 0 <= i < j < t.len() implies stacks_below(
        w,
        #[trigger] t[i],
        #[trigger] t[j],
    ) by {
        assert(stacks_below(w, a[i + 1], a[j + 1]));
    }
    if t.contains(x) {
        let i = choose|i: int| 0 <= i < t.len() && t[i] == x;
        assert(a[i + 1] == x);
        assert(stacks_below(w, a[0], a[i + 1]));
    }
    if a.contains(x) && x != a[0] {
        let i = choose|i: int| 0 <= i < a.len() && a[i] == x;
        assert(t[i - 1] == x);
    }
}

/// Whether an index lists every window's children.
pub open spec fn index_ok(index: Map<u32, Vec<u32>>, w: Map<u32, WindowGeometry>) -> bool {
    &&& forall|p: u32| #[trigger]
        index.dom().contains(p) ==> index[p]@.len() > 0 && lists_children(w, p, index[p]@)
    &&& forall|p: u32, c: u32| #[trigger] is_child(w, p, c) ==> index.dom().contains(p)
}

/// What an index says of one window.
pub proof fn lemma_index(index: Map<u32, Vec<u32>>, w: Map<u32, WindowGeometry>, p: u32)
    requires
        index_ok(index, w),
    ensures
        index.dom().contains(p) ==> index[p]@ == children_of(w, p) && children_of(w, p).len() > 0,
        !index.dom().contains(p) ==> children_of(w, p) == Seq::<u32>::empty(),
{
    if index.dom().contains(p) {
        lemma_children_unique(w, p, index[p]@, children_of(w, p));
    } else {
        assert(lists_children(w, p, Seq::<u32>::empty()));
        lemma_children_unique(w, p, Seq::<u32>::empty(), children_of(w, p));
    }
}

fn insert_sorted(list: &mut Vec<u32>, xid: u32, windows: &WindowsMap)
    requires
        in_stack_order(windows@, old(list)@),
        windows@.dom().contains(xid),
        forall|i: int| 0 <= i < old(list)@.len() ==> windows@.dom().contains(#[trigger] old(list)@[i]),
        forall|i: int| 0 <= i < old(list)@.len() ==> #[trigger] old(list)@[i] != xid,
    ensures
        in_stack_order(windows@, final(list)@),
        exists|n: int|
            0 <= n <= old(list)@.len() && final(list)@ == #[trigger] old(list)@.insert(n, xid),
{
    let rank = windows.get(&xid).unwrap().stack_rank;
    let mut n: usize = 0;
    let ghost s = list@;
    while n < list.len()
        invariant_except_break
            n <= s.len(),
            forall|k: int| 0 <= k < n ==> stacks_below(windows@, #[trigger] s[k], xid),
        invariant
            list@ == s,
            rank == windows@[xid].stack_rank,
            forall|i: int| 0 <= i < s.len() ==> windows@.dom().contains(#[trigger] s[i]),
            forall|i: int| 0 <= i < s.len() ==> #[trigger] s[i] != xid,
        ensures
            n <= s.len(),
            forall|k: int| 0 <= k < n ==> stacks_below(windows@, #[trigger] s[k], xid),
            n < s.len() ==> stacks_below(windows@, xid, s[n as int]),
        decreases list.len() - n,
    {
        let other = list[n];
        assert(windows@.dom().contains(s[n as int]));
        let r = windows.get(&other).unwrap().stack_rank;
        if rank < r || (rank == r && xid < other) {
            break;
        }
        n = n + 1;
    }
    list.insert(n, xid);
    proof {
        let t = list@;
        assert(t == s.insert(n as int, xid));
        assert forall|i: int, j: int| 0 <= i < j < t.len() implies stacks_below(
            windows@,
            #[trigger] t[i],
            #[trigger] t[j],
        ) by {
            if j < n {
                assert(t[i] == s[i] && t[j] == s[j]);
            } else if j == n {
                assert(t[i] == s[i]);
            } else if i < n {
                assert(t[i] == s[i] && t[j] == s[j - 1]);
            } else if i == n {
                assert(t[j] == s[j - 1]);
                if j - 1 > n {
                    assert(stacks_below(windows@, s[n as int], s[j - 1]));
                }
            } else {
                assert(t[i] == s[i - 1] && t[j] == s[j - 1]);
            }
        }
    }
}

/// Whether every list of an index is in stacking order.
spec fn lists_sorted(index: Map<u32, Vec<u32>>, w: Map<u32, WindowGeometry>) -> bool {
    forall|p: u32| #[trigger]
        index.dom().contains(p) ==> {
            &&& index[p]@.len() > 0
            &&& in_stack_order(w, index[p]@)
        }
}

/// Whether an index lists only children among the first `n` of `keys`.
spec fn lists_only(
    index: Map<u32, Vec<u32>>,
    w: Map<u32, WindowGeometry>,
    keys: Seq<u32>,
    n: int,
) -> bool {
    forall|p: u32, i: int|
        index.dom().contains(p) && 0 <= i < index[p]@.len() ==> is_child(w, p, #[trigger] index[p]@[i])
            && exists|k: int| 0 <= k < n && #[trigger] keys[k] == index[p]@[i]
}

/// Whether an index lists every child among the first `n` of `keys`.
spec fn lists_every(
    index: Map<u32, Vec<u32>>,
    w: Map<u32, WindowGeometry>,
    keys: Seq<u32>,
    n: int,
) -> bool {
    forall|k: int, p: u32|
        0 <= k < n && is_child(w, p, #[trigger] keys[k]) ==> #[trigger] index.dom().contains(p)
            && exists|i: int| 0 <= i < index[p]@.len() && #[trigger] index[p]@[i] == keys[k]
}

/// Whether an index lists the children among the first `n` of `keys`.
spec fn index_partial(
    index: Map<u32, Vec<u32>>,
    w: Map<u32, WindowGeometry>,
    keys: Seq<u32>,
    n: int,
) -> bool {
    &&& lists_sorted(index, w)
    &&& lists_only(index, w, keys, n)
    &&& lists_every(index, w, keys, n)
}

/// Bottom-to-top child order per parent, by stacking rank; equal ranks go by
/// xid.
pub fn children_index(windows: &WindowsMap) -> (index: ChildrenIndex)
    ensures
        index_ok(index@, windows@),
{
    let keys = map_keys(windows);
    let mut index: ChildrenIndex = HashMap::new();
    let ghost w = windows@;
    let mut n: usize = 0;
    while n < keys.len()
        invariant
            n <= keys@.len(),
            w == windows@,
            forall|k: u32| #[trigger]
                w.dom().contains(k) <==> exists|i: int| 0 <= i < keys@.len() && #[trigger] keys@[i] == k,
            forall|i: int, j: int|
                0 <= i < j < keys@.len() ==> #[trigger] keys@[i] != #[trigger] keys@[j],
            index_partial(index@, w, keys@, n as int),
        decreases keys.len() - n,
    {
        let xid = keys[n];
        assert(keys@[n as int] == xid);
        assert(w.dom().contains(xid));
        let parent = windows.get(&xid).unwrap().parent;
        let ghost before = index@;
        match parent {
            Some(p) => {
                let mut list = match index.remove(&p) {
                    Some(l) => l,
                    None => Vec::new(),
                };
                let ghost s = list@;
                proof {
                    assert forall|i: int| 0 <= i < s.len() implies #[trigger] s[i] != xid
                        && w.dom().contains(s[i]) by {
                        assert(before.dom().contains(p));
                        assert(before[p]@[i] == s[i]);
                        let k = choose|k: int| 0 <= k < n && #[trigger] keys@[k] == before[p]@[i];
                        assert(keys@[k] != keys@[n as int]);
                    }
                }
                insert_sorted(&mut list, xid, windows);
                let ghost t = list@;
                index.insert(p, list);
                proof {
                    let m = choose|m: int| 0 <= m <= s.len() && t == #[trigger] s.insert(m, xid);
                    assert(index@.dom() =~= before.dom().insert(p));
                    lemma_index_step(before, index@, w, keys@, n as int, p, s, t, m);
                }
            },
            None => {
                proof {
                    lemma_index_skip(before, w, keys@, n as int);
                }
            },
        }
        n = n + 1;
    }
    proof {
        assert forall|p: u32, c: u32| #[trigger] is_child(w, p, c) implies index@.dom().contains(p)
            && exists|i: int| 0 <= i < index@[p]@.len() && #[trigger] index@[p]@[i] == c by {
            assert(w.dom().contains(c));
            let k = choose|k: int| 0 <= k < keys@.len() && #[trigger] keys@[k] == c;
            assert(is_child(w, p, keys@[k]));
        }
    }
    index
}

proof fn lemma_index_skip(
    before: Map<u32, Vec<u32>>,
    w: Map<u32, WindowGeometry>,
    keys: Seq<u32>,
    n: int,
)
    requires
        0 <= n < keys.len(),
        index_partial(before, w, keys, n),
        w[keys[n]].parent is None,
    ensures
        index_partial(before, w, keys, n + 1),
{
    assert forall|p: u32, i: int|
        before.dom().contains(p) && 0 <= i < before[p]@.len() implies is_child(
        w,
        p,
        #[trigger] before[p]@[i],
    ) && exists|k: int| 0 <= k < n + 1 && #[trigger] keys[k] == before[p]@[i] by {
        let k = choose|k: int| 0 <= k < n && #[trigger] keys[k] == before[p]@[i];
        assert(keys[k] == before[p]@[i]);
    }
}

/// What `after` is to `before` once a child was put into its parent's list.
spec fn stepped(
    before: Map<u32, Vec<u32>>,
    after: Map<u32, Vec<u32>>,
    p: u32,
    child: u32,
    s: Seq<u32>,
    m: int,
) -> bool {
    &&& s == (if before.dom().contains(p) { before[p]@ } else { Seq::empty() })
    &&& 0 <= m <= s.len()
    &&& after[p]@ == s.insert(m, child)
    &&& after.dom() == before.dom().insert(p)
    &&& forall|q: u32| q != p && #[trigger] before.dom().contains(q) ==> after[q] == before[q]
}

proof fn lemma_step_only(
    before: Map<u32, Vec<u32>>,
    after: Map<u32, Vec<u32>>,
    w: Map<u32, WindowGeometry>,
    keys: Seq<u32>,
    n: int,
    p: u32,
    s: Seq<u32>,
    m: int,
)
    requires
        0 <= n < keys.len(),
        is_child(w, p, keys[n]),
        lists_only(before, w, keys, n),
        stepped(before, after, p, keys[n], s, m),
    ensures
        lists_only(after, w, keys, n + 1),
{
    let t = s.insert(m, keys[n]);
    assert forall|q: u32, i: int|
        after.dom().contains(q) && 0 <= i < after[q]@.len() implies is_child(
        w,
        q,
        #[trigger] after[q]@[i],
    ) && exists|k: int| 0 <= k < n + 1 && #[trigger] keys[k] == after[q]@[i] by {
        if q == p {
            if i == m {
                assert(keys[n] == after[q]@[i]);
            } else {
                let j = if i < m { i } else { i - 1 };
                assert(t[i] == s[j]);
                assert(before[p]@[j] == s[j]);
                assert(is_child(w, p, before[p]@[j]));
                let k = choose|k: int| 0 <= k < n && #[trigger] keys[k] == before[p]@[j];
                assert(keys[k] == after[q]@[i]);
            }
        } else {
            assert(before.dom().contains(q));
            assert(before[q]@[i] == after[q]@[i]);
            let k = choose|k: int| 0 <= k < n && #[trigger] keys[k] == before[q]@[i];
            assert(keys[k] == after[q]@[i]);
        }
    }
}

proof fn lemma_step_every(
    before: Map<u32, Vec<u32>>,
    after: Map<u32, Vec<u32>>,
    w: Map<u32, WindowGeometry>,
    keys: Seq<u32>,
    n: int,
    p: u32,
    s: Seq<u32>,
    m: int,
)
    requires
        0 <= n < keys.len(),
        w[keys[n]].parent == Some(p),
        lists_every(before, w, keys, n),
        stepped(before, after, p, keys[n], s, m),
    ensures
        lists_every(after, w, keys, n + 1),
{
    assert forall|k: int, q: u32|
        0 <= k < n + 1 && is_child(w, q, #[trigger] keys[k]) implies #[trigger] after.dom().contains(q)
        && exists|i: int| 0 <= i < after[q]@.len() && #[trigger] after[q]@[i] == keys[k] by {
        if k == n {
            assert(q == p);
            assert(after[q]@[m] == keys[k]);
        } else {
            assert(before.dom().contains(q));
            let i = choose|i: int| 0 <= i < before[q]@.len() && #[trigger] before[q]@[i] == keys[k];
            if q == p {
                let j = if i < m { i } else { i + 1 };
                assert(after[q]@[j] == keys[k]);
            } else {
                assert(after[q]@[i] == keys[k]);
            }
        }
    }
}

proof fn lemma_index_step(
    before: Map<u32, Vec<u32>>,
    after: Map<u32, Vec<u32>>,
    w: Map<u32, WindowGeometry>,
    keys: Seq<u32>,
    n: int,
    p: u32,
    s: Seq<u32>,
    t: Seq<u32>,
    m: int,
)
    requires
        0 <= n < keys.len(),
        w.dom().contains(keys[n]),
        w[keys[n]].parent == Some(p),
        index_partial(before, w, keys, n),
        t == s.insert(m, keys[n]),
        in_stack_order(w, t),
        stepped(before, after, p, keys[n], s, m),
    ensures
        index_partial(after, w, keys, n + 1),
{
    assert(lists_only(after, w, keys, n + 1)) by {
        lemma_step_only(before, after, w, keys, n, p, s, m);
    }
    assert(lists_every(after, w, keys, n + 1)) by {
        lemma_step_every(before, after, w, keys, n, p, s, m);
    }
    lemma_step_sorted(before, after, w, p, keys[n], s, m);
}

proof fn lemma_step_sorted(
    before: Map<u32, Vec<u32>>,
    after: Map<u32, Vec<u32>>,
    w: Map<u32, WindowGeometry>,
    p: u32,
    child: u32,
    s: Seq<u32>,
    m: int,
)
    requires
        lists_sorted(before, w),
        stepped(before, after, p, child, s, m),
        in_stack_order(w, s.insert(m, child)),
    ensures
        lists_sorted(after, w),
{
    assert forall|q: u32| #[trigger] after.dom().contains(q) implies after[q]@.len() > 0
        && in_stack_order(w, after[q]@) by {
        if q != p {
            assert(before.dom().contains(q));
        }
    }
}

} // verus!
