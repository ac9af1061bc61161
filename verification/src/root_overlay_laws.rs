//! What the root's overlay inverts.

use vstd::prelude::*;

use crate::geometry::{projection, Extent2D, Rect2D};
use crate::geometry_laws::a_projection_has_the_moved_pixels;
use crate::root_overlay::{
    apply_list, lemma_without_first, toggled, toggled_one, without_client, OverlayEntry,
};

verus! {

/// How often a rectangle is drawn.
pub open spec fn times(rects: Seq<Rect2D>, r: Rect2D) -> nat
    decreases rects.len(),
{
    if rects.len() == 0 {
        0
    } else {
        times(rects.drop_last(), r) + (if rects.last() == r { 1nat } else { 0nat })
    }
}

proof fn lemma_toggled_one(s: Seq<OverlayEntry>, e: OverlayEntry, x: OverlayEntry)
    requires
        s.no_duplicates(),
    ensures
        toggled_one(s, e).no_duplicates(),
        x != e ==> (toggled_one(s, e).contains(x) <==> s.contains(x)),
        toggled_one(s, e).contains(e) <==> !s.contains(e),
        toggled_one(s, e).len() == s.len() + (if s.contains(e) { -1int } else { 1int }),
{
    if s.contains(e) {
        let k = choose|k: int| 0 <= k < s.len() && s[k] == e;
        lemma_without_first(s, e, k);
        let t = s.remove(k);
        assert(toggled_one(s, e) == t);
        assert(forall|i: int| 0 <= i < t.len() ==> t[i] == s[if i < k { i } else { i + 1 }]);
        if s.contains(x) && x != e {
            let i = choose|i: int| 0 <= i < s.len() && s[i] == x;
            assert(t[if i < k { i } else { i - 1 }] == x);
        }
    } else {
        let t = s.push(e);
        assert(t[s.len() as int] == e);
        if s.contains(x) {
            let i = choose|i: int| 0 <= i < s.len() && s[i] == x;
            assert(t[i] == x);
        }
    }
}

/// Drawing inverts: a rectangle of a client is on the overlay afterwards exactly if
/// it was there and drawn an even number of times, or was not and drawn an odd
/// number of times. Nobody else's rectangles are touched, nor those of another
/// value; none stands there twice.
pub proof fn drawing_inverts(
    s: Seq<OverlayEntry>,
    client: u32,
    value: u32,
    rects: Seq<Rect2D>,
    x: OverlayEntry,
)
    requires
        s.no_duplicates(),
    ensures
        ({
            let t = toggled(s, client, value, rects).0;
            &&& t.no_duplicates()
            &&& x.client != client || x.value != value ==> (t.contains(x) <==> s.contains(x))
            &&& x.client == client && x.value == value ==> (t.contains(x) <==> (s.contains(x)
                <==> times(rects, x.rect) % 2 == 0))
            &&& t.len() + toggled(s, client, value, rects).1 == s.len() + rects.len()
                - toggled(s, client, value, rects).1
        }),
    decreases rects.len(),
{
    if rects.len() > 0 {
        let rest = rects.drop_last();
        drawing_inverts(s, client, value, rest, x);
        let e = OverlayEntry { client, value, rect: rects.last() };
        lemma_toggled_one(toggled(s, client, value, rest).0, e, x);
    }
}

/// A client that goes takes its rectangles with it, and leaves all others.
pub proof fn a_client_takes_its_own(s: Seq<OverlayEntry>, client: u32, x: OverlayEntry)
    ensures
        without_client(s, client).contains(x) <==> s.contains(x) && x.client != client,
        without_client(s, client).len() <= s.len(),
        (forall|i: int| 0 <= i < s.len() ==> (#[trigger] s[i]).client != client)
            ==> without_client(s, client) == s,
    decreases s.len(),
{
    if s.len() > 0 {
        let t = s.drop_last();
        a_client_takes_its_own(t, client, x);
        let before = without_client(t, client);
        let after = without_client(s, client);
        assert(s.last() == s[s.len() - 1]);
        if s.contains(x) {
            let i = choose|i: int| 0 <= i < s.len() && s[i] == x;
            if i < t.len() {
                assert(t[i] == x);
            }
        }
        if t.contains(x) {
            let i = choose|i: int| 0 <= i < t.len() && t[i] == x;
            assert(s[i] == x);
        }
        if s.last().client != client {
            assert(after == before.push(s.last()));
            assert(after[before.len() as int] == s.last());
            if before.contains(x) {
                let i = choose|i: int| 0 <= i < before.len() && before[i] == x;
                assert(after[i] == x);
            }
            if after.contains(x) {
                let i = choose|i: int| 0 <= i < after.len() && after[i] == x;
                if i < before.len() {
                    assert(before[i] == x);
                }
            }
        }
        if forall|i: int| 0 <= i < s.len() ==> (#[trigger] s[i]).client != client {
            assert forall|i: int| 0 <= i < t.len() implies (#[trigger] t[i]).client != client by {
                assert(t[i] == s[i]);
            }
            assert(after =~= s);
        }
    }
}

/// How many of the overlay's rectangles have a root-space point.
pub open spec fn inverted_at(s: Seq<OverlayEntry>, x: int, y: int) -> nat
    decreases s.len(),
{
    if s.len() == 0 {
        0
    } else {
        let r = s.last().rect;
        inverted_at(s.drop_last(), x, y) + (if r.offset.x <= x < r.offset.x + r.extent.width
            && r.offset.y <= y < r.offset.y + r.extent.height {
            1nat
        } else {
            0nat
        })
    }
}

/// How many of an output's rectangles have a pixel.
pub open spec fn applied_at(l: Seq<(u32, Rect2D)>, q: (int, int)) -> nat
    decreases l.len(),
{
    if l.len() == 0 {
        0
    } else {
        applied_at(l.drop_last(), q) + (if l.last().1.has(q.0, q.1) { 1nat } else { 0nat })
    }
}

/// Every output inverts each of its pixels as often as the overlay's rectangles
/// have the root-space point under it.
pub proof fn an_output_inverts_what_lies_on_it(
    s: Seq<OverlayEntry>,
    origin: (i32, i32),
    ext: Extent2D,
    q: (int, int),
)
    requires
        ext.width <= i32::MAX,
        ext.height <= i32::MAX,
        0 <= q.0 < ext.width,
        0 <= q.1 < ext.height,
    ensures
        applied_at(apply_list(s, origin, ext), q) == inverted_at(
            s,
            q.0 + origin.0,
            q.1 + origin.1,
        ),
    decreases s.len(),
{
    if s.len() > 0 {
        an_output_inverts_what_lies_on_it(s.drop_last(), origin, ext, q);
        let r = s.last().rect;
        a_projection_has_the_moved_pixels(r, -origin.0, -origin.1, ext.width, ext.height, q);
        let before = apply_list(s.drop_last(), origin, ext);
        match projection(r, -origin.0, -origin.1, ext.width, ext.height) {
            Some(c) => {
                let after = before.push((s.last().value, c));
                assert(after.drop_last() =~= before);
                assert(after.last() == (s.last().value, c));
                assert(apply_list(s, origin, ext) == after);
            },
            None => {},
        }
    }
}

/// Of what an output inverts, each comes from an entry of the overlay, with its
/// value, and lies on the output.
pub proof fn an_output_inverts_only_the_overlay(
    s: Seq<OverlayEntry>,
    origin: (i32, i32),
    ext: Extent2D,
    i: int,
)
    requires
        0 <= i < apply_list(s, origin, ext).len(),
    ensures
        exists|k: int|
            0 <= k < s.len() && (#[trigger] s[k]).value == apply_list(s, origin, ext)[i].0
                && projection(s[k].rect, -origin.0, -origin.1, ext.width, ext.height) == Some(
                apply_list(s, origin, ext)[i].1,
            ),
    decreases s.len(),
{
    if s.len() > 0 {
        let t = s.drop_last();
        let before = apply_list(t, origin, ext);
        if i < before.len() {
            an_output_inverts_only_the_overlay(t, origin, ext, i);
            let k = choose|k: int|
                0 <= k < t.len() && (#[trigger] t[k]).value == before[i].0 && projection(
                    t[k].rect,
                    -origin.0,
                    -origin.1,
                    ext.width,
                    ext.height,
                ) == Some(before[i].1);
            assert(s[k] == t[k]);
        } else {
            assert(s[s.len() - 1] == s.last());
        }
    }
}

} // verus!
