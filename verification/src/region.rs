//! Pixel regions as canonical bands of spans.
//!
//! A region is a set of pixels. It is held as horizontal bands, top to bottom;
//! the rows of one band all show the same spans, left to right. Touching spans
//! are merged and touching bands with equal spans are merged, so a set of pixels
//! has exactly one such form and two regions are equal iff their bands are.
//!
//! A region holds at most [`Region::MAX_RECTS`] boxes. An operation whose exact
//! result needs more keeps the bounding box of that result instead.

use vstd::prelude::*;

use crate::geometry::{corners, max_i32, min_i32, rect_from_corners, Rect2D};

verus! {

// ── spans: one row ──────────────────────────────────────────────────
/// A half-open run of columns.
#[derive(Clone, Copy, Debug, PartialEq, Eq, Structural)]
pub struct Span {
    pub x0: i32,
    pub x1: i32,
}

/// Whether column `x` lies in one of the spans.
pub open spec fn spans_cover(s: Seq<Span>, x: int) -> bool {
    exists|i: int| 0 <= i < s.len() && (#[trigger] s[i]).x0 <= x && x < s[i].x1
}

/// The canonical form of a row: non-empty spans, left to right, with a gap
/// between neighbours.
pub open spec fn spans_wf(s: Seq<Span>) -> bool {
    &&& forall|i: int| 0 <= i < s.len() ==> (#[trigger] s[i]).x0 < s[i].x1
    &&& forall|i: int, j: int|
        0 <= i < j < s.len() ==> (#[trigger] s[i]).x1 < (#[trigger] s[j]).x0
}

/// A set operation on two regions.
#[derive(Clone, Copy, Debug, PartialEq, Eq, Structural)]
pub enum SetOp {
    Union,
    Intersect,
    Subtract,
}

/// What a set operation makes of one pixel.
pub open spec fn op_holds(op: SetOp, p: bool, q: bool) -> bool {
    match op {
        SetOp::Union => p || q,
        SetOp::Intersect => p && q,
        SetOp::Subtract => p && !q,
    }
}

fn apply_op(op: SetOp, p: bool, q: bool) -> (r: bool)
    ensures
        r == op_holds(op, p, q),
{
    match op {
        SetOp::Union => p || q,
        SetOp::Intersect => p && q,
        SetOp::Subtract => p && !q,
    }
}

/// Rows in canonical form that cover the same columns are equal.
pub proof fn lemma_spans_unique(a: Seq<Span>, b: Seq<Span>)
    requires
        spans_wf(a),
        spans_wf(b),
        forall|x: int| spans_cover(a, x) == spans_cover(b, x),
    ensures
        a == b,
    decreases a.len(),
{
    if a.len() == 0 {
        if b.len() > 0 {
            assert(spans_cover(b, b[0].x0 as int));
            assert(!spans_cover(a, b[0].x0 as int));
        }
        assert(a =~= b);
    } else {
        assert(spans_cover(a, a[0].x0 as int));
        assert(spans_cover(b, a[0].x0 as int));
        assert(b.len() > 0);
        assert(spans_cover(b, b[0].x0 as int));
        assert(spans_cover(a, b[0].x0 as int));
        assert(a[0].x0 == b[0].x0);
        assert(a[0].x1 == b[0].x1) by {
            if a[0].x1 < b[0].x1 {
                let x = a[0].x1 as int;
                assert(b[0].x0 <= x && x < b[0].x1);
                assert(spans_cover(b, x));
                assert(!spans_cover(a, x));
            }
            if b[0].x1 < a[0].x1 {
                let x = b[0].x1 as int;
                assert(a[0].x0 <= x && x < a[0].x1);
                assert(spans_cover(a, x));
                assert(!spans_cover(b, x));
            }
        }
        let ta = a.drop_first();
        let tb = b.drop_first();
        assert forall|x: int| spans_cover(ta, x) == spans_cover(tb, x) by {
            lemma_cover_tail(a, x);
            lemma_cover_tail(b, x);
        }
        lemma_spans_unique(ta, tb);
        assert(a =~= seq![a[0]] + ta);
        assert(b =~= seq![b[0]] + tb);
    }
}

proof fn lemma_cover_tail(a: Seq<Span>, x: int)
    requires
        spans_wf(a),
        a.len() > 0,
    ensures
        spans_wf(a.drop_first()),
        spans_cover(a.drop_first(), x) == (spans_cover(a, x) && !(a[0].x0 <= x < a[0].x1)),
{
    let t = a.drop_first();
    assert forall|i: int| 0 <= i < t.len() implies t[i] == a[i + 1] by {}
    if spans_cover(t, x) {
        let i = choose|i: int| 0 <= i < t.len() && (#[trigger] t[i]).x0 <= x && x < t[i].x1;
        assert(a[i + 1].x0 <= x);
        assert(a[0].x1 < a[i + 1].x0);
    }
    if spans_cover(a, x) && !(a[0].x0 <= x < a[0].x1) {
        let i = choose|i: int| 0 <= i < a.len() && (#[trigger] a[i]).x0 <= x && x < a[i].x1;
        assert(t[i - 1] == a[i]);
    }
}

fn push_span(out: &mut Vec<Span>, x0: i32, x1: i32)
    requires
        spans_wf(old(out)@),
        x0 < x1,
        forall|k: int| 0 <= k < old(out)@.len() ==> (#[trigger] old(out)@[k]).x1 <= x0,
    ensures
        spans_wf(final(out)@),
        forall|k: int| 0 <= k < final(out)@.len() ==> (#[trigger] final(out)@[k]).x1 <= x1,
        forall|t: int| #[trigger]
            spans_cover(final(out)@, t) == (spans_cover(old(out)@, t) || x0 <= t < x1),
{
    let ghost before = out@;
    let n = out.len();
    if n > 0 && out[n - 1].x1 == x0 {
        let start = out[n - 1].x0;
        out.set(n - 1, Span { x0: start, x1 });
        assert forall|t: int| #[trigger] spans_cover(out@, t) == (spans_cover(before, t) || x0 <= t
            < x1) by {
            if spans_cover(before, t) {
                let i = choose|i: int|
                    0 <= i < before.len() && (#[trigger] before[i]).x0 <= t && t < before[i].x1;
                assert(out@[i].x0 <= t && t < out@[i].x1);
            }
            if x0 <= t < x1 {
                assert(out@[n - 1].x0 <= t && t < out@[n - 1].x1);
            }
            if spans_cover(out@, t) {
                let i = choose|i: int|
                    0 <= i < out@.len() && (#[trigger] out@[i]).x0 <= t && t < out@[i].x1;
                assert(before[i].x0 <= t);
            }
        }
    } else {
        out.push(Span { x0, x1 });
        assert forall|t: int| #[trigger] spans_cover(out@, t) == (spans_cover(before, t) || x0 <= t
            < x1) by {
            if spans_cover(before, t) {
                let i = choose|i: int|
                    0 <= i < before.len() && (#[trigger] before[i]).x0 <= t && t < before[i].x1;
                assert(out@[i].x0 <= t && t < out@[i].x1);
            }
            if x0 <= t < x1 {
                assert(out@[n as int].x0 <= t && t < out@[n as int].x1);
            }
            if spans_cover(out@, t) {
                let i = choose|i: int|
                    0 <= i < out@.len() && (#[trigger] out@[i]).x0 <= t && t < out@[i].x1;
                if i < n {
                    assert(before[i].x0 <= t);
                }
            }
        }
    }
}

/// The row that a set operation makes of two rows.
fn combine_spans(a: &Vec<Span>, b: &Vec<Span>, op: SetOp) -> (out: Vec<Span>)
    requires
        spans_wf(a@),
        spans_wf(b@),
    ensures
        spans_wf(out@),
        forall|t: int| #[trigger]
            spans_cover(out@, t) == op_holds(op, spans_cover(a@, t), spans_cover(b@, t)),
{
    let mut out: Vec<Span> = Vec::new();
    let mut i: usize = 0;
    let mut j: usize = 0;
    let mut x: i32 = i32::MIN;
    assert forall|t: int| t < x implies #[trigger] spans_cover(out@, t) == op_holds(
        op,
        spans_cover(a@, t),
        spans_cover(b@, t),
    ) by {}
    while i < a.len() || j < b.len()
        invariant
            i <= a.len(),
            j <= b.len(),
            spans_wf(a@),
            spans_wf(b@),
            forall|k: int| 0 <= k < i ==> (#[trigger] a@[k]).x1 <= x,
            forall|k: int| i <= k < a@.len() ==> (#[trigger] a@[k]).x1 > x,
            forall|k: int| 0 <= k < j ==> (#[trigger] b@[k]).x1 <= x,
            forall|k: int| j <= k < b@.len() ==> (#[trigger] b@[k]).x1 > x,
            spans_wf(out@),
            forall|k: int| 0 <= k < out@.len() ==> (#[trigger] out@[k]).x1 <= x,
            forall|t: int|
                t < x ==> #[trigger] spans_cover(out@, t) == op_holds(
                    op,
                    spans_cover(a@, t),
                    spans_cover(b@, t),
                ),
        decreases i32::MAX - x,
    {
        let a_in = i < a.len() && a[i].x0 <= x;
        let b_in = j < b.len() && b[j].x0 <= x;
        let mut nx: i32 = i32::MAX;
        if i < a.len() {
            nx = if a_in { a[i].x1 } else { a[i].x0 };
        }
        if j < b.len() {
            let c: i32 = if b_in { b[j].x1 } else { b[j].x0 };
            nx = min_i32(nx, c);
        }
        assert forall|t: int| x <= t < nx implies #[trigger] spans_cover(a@, t) == a_in by {
            lemma_cover_step(a@, i as int, x as int, nx as int, t);
        }
        assert forall|t: int| x <= t < nx implies #[trigger] spans_cover(b@, t) == b_in by {
            lemma_cover_step(b@, j as int, x as int, nx as int, t);
        }
        if apply_op(op, a_in, b_in) {
            push_span(&mut out, x, nx);
        }
        if i < a.len() && a[i].x1 <= nx {
            i = i + 1;
        }
        if j < b.len() && b[j].x1 <= nx {
            j = j + 1;
        }
        x = nx;
    }
    assert forall|t: int| #[trigger] spans_cover(out@, t) == op_holds(
        op,
        spans_cover(a@, t),
        spans_cover(b@, t),
    ) by {
        if t >= x {
            assert(!spans_cover(a@, t));
            assert(!spans_cover(b@, t));
            assert(!spans_cover(out@, t));
        }
    }
    out
}

proof fn lemma_cover_step(a: Seq<Span>, i: int, x: int, nx: int, t: int)
    requires
        spans_wf(a),
        0 <= i <= a.len(),
        forall|k: int| 0 <= k < i ==> (#[trigger] a[k]).x1 <= x,
        forall|k: int| i <= k < a.len() ==> (#[trigger] a[k]).x1 > x,
        i < a.len() ==> nx <= (if a[i].x0 <= x { a[i].x1 } else { a[i].x0 }),
        x <= t < nx,
    ensures
        spans_cover(a, t) == (i < a.len() && a[i].x0 <= x),
{
    if i < a.len() && a[i].x0 <= x {
        assert(a[i].x0 <= t && t < a[i].x1);
    } else if spans_cover(a, t) {
        let k = choose|k: int| 0 <= k < a.len() && (#[trigger] a[k]).x0 <= t && t < a[k].x1;
        assert(k >= i);
        if k > i {
            assert(a[i].x1 < a[k].x0);
        }
    }
}

fn spans_equal(a: &Vec<Span>, b: &Vec<Span>) -> (r: bool)
    ensures
        r == (a@ == b@),
{
    if a.len() != b.len() {
        return false;
    }
    let mut i: usize = 0;
    while i < a.len()
        invariant
            i <= a.len(),
            a.len() == b.len(),
            forall|k: int| 0 <= k < i ==> a@[k] == b@[k],
        decreases a.len() - i,
    {
        if a[i] != b[i] {
            return false;
        }
        i = i + 1;
    }
    assert(a@ =~= b@);
    true
}

// ── bands: rows that show the same spans ────────────────────────────
/// A run of rows that show the same spans.
pub struct BandView {
    pub y0: int,
    pub y1: int,
    pub spans: Seq<Span>,
}

#[derive(Debug)]
struct Band {
    y0: i32,
    y1: i32,
    spans: Vec<Span>,
}

impl Band {
    spec fn seen(self) -> BandView {
        BandView { y0: self.y0 as int, y1: self.y1 as int, spans: self.spans@ }
    }
}

spec fn seen_all(v: Seq<Band>) -> Seq<BandView> {
    Seq::new(v.len(), |i: int| v[i].seen())
}

/// Whether row `y` belongs to one of the bands.
pub open spec fn row_in(b: Seq<BandView>, i: int, y: int) -> bool {
    0 <= i < b.len() && b[i].y0 <= y && y < b[i].y1
}

/// The spans that row `y` shows.
pub open spec fn row(b: Seq<BandView>, y: int) -> Seq<Span> {
    if exists|i: int| row_in(b, i, y) {
        b[choose|i: int| row_in(b, i, y)].spans
    } else {
        Seq::empty()
    }
}

/// One band in canonical form.
pub open spec fn band_wf(b: BandView) -> bool {
    i32::MIN <= b.y0 && b.y0 < b.y1 && b.y1 <= i32::MAX && b.spans.len() > 0 && spans_wf(b.spans)
}

/// The canonical form of a region: bands top to bottom, none mergeable with the
/// next.
pub open spec fn bands_wf(b: Seq<BandView>) -> bool {
    &&& forall|i: int| 0 <= i < b.len() ==> band_wf(#[trigger] b[i])
    &&& forall|i: int, j: int|
        0 <= i < j < b.len() ==> (#[trigger] b[i]).y1 <= (#[trigger] b[j]).y0
    &&& forall|i: int, j: int|
        0 <= i < b.len() && j == i + 1 && j < b.len() && (#[trigger] b[i]).y1 == (#[trigger] b[j]).y0
            ==> b[i].spans != b[j].spans
}

/// The pixels of a list of bands.
pub open spec fn bands_px(b: Seq<BandView>) -> Set<(int, int)> {
    Set::new(|p: (int, int)| spans_cover(row(b, p.1), p.0))
}

proof fn lemma_row_at(b: Seq<BandView>, i: int, y: int)
    requires
        bands_wf(b),
        row_in(b, i, y),
    ensures
        row(b, y) == b[i].spans,
{
    let k = choose|k: int| row_in(b, k, y);
    assert(row_in(b, k, y));
    if k < i {
        assert(b[k].y1 <= b[i].y0);
    }
    if i < k {
        assert(b[i].y1 <= b[k].y0);
    }
}

proof fn lemma_row_none(b: Seq<BandView>, y: int)
    requires
        forall|i: int| 0 <= i < b.len() ==> !((#[trigger] b[i]).y0 <= y && y < b[i].y1),
    ensures
        row(b, y) == Seq::<Span>::empty(),
{
    if exists|i: int| row_in(b, i, y) {
        let k = choose|k: int| row_in(b, k, y);
        assert(row_in(b, k, y));
    }
}

proof fn lemma_rows_wf(b: Seq<BandView>, y: int)
    requires
        bands_wf(b),
    ensures
        spans_wf(row(b, y)),
{
    if exists|i: int| row_in(b, i, y) {
        let k = choose|k: int| row_in(b, k, y);
        assert(row_in(b, k, y));
        assert(band_wf(b[k]));
    }
}

proof fn lemma_row_tail(b: Seq<BandView>, y: int)
    requires
        bands_wf(b),
        b.len() > 0,
    ensures
        bands_wf(b.drop_first()),
        row(b.drop_first(), y) == (if b[0].y0 <= y < b[0].y1 {
            Seq::<Span>::empty()
        } else {
            row(b, y)
        }),
{
    let t = b.drop_first();
    assert forall|i: int| 0 <= i < t.len() implies t[i] == b[i + 1] by {}
    assert(bands_wf(t));
    if exists|i: int| row_in(t, i, y) {
        let k = choose|k: int| row_in(t, k, y);
        assert(row_in(t, k, y));
        assert(row_in(b, k + 1, y));
        assert(b[0].y1 <= b[k + 1].y0);
        lemma_row_at(b, k + 1, y);
        lemma_row_at(t, k, y);
    } else if exists|i: int| row_in(b, i, y) {
        let k = choose|k: int| row_in(b, k, y);
        assert(row_in(b, k, y));
        if k > 0 {
            assert(row_in(t, k - 1, y));
        }
    }
}

/// A set of pixels has one canonical form.
pub proof fn lemma_bands_unique(a: Seq<BandView>, b: Seq<BandView>)
    requires
        bands_wf(a),
        bands_wf(b),
        bands_px(a) == bands_px(b),
    ensures
        a == b,
{
    assert forall|y: int| #[trigger] row(a, y) == row(b, y) by {
        lemma_rows_wf(a, y);
        lemma_rows_wf(b, y);
        assert forall|x: int| spans_cover(row(a, y), x) == spans_cover(row(b, y), x) by {
            assert(bands_px(a).contains((x, y)) == spans_cover(row(a, y), x));
            assert(bands_px(b).contains((x, y)) == spans_cover(row(b, y), x));
        }
        lemma_spans_unique(row(a, y), row(b, y));
    }
    lemma_rows_unique(a, b);
}

proof fn lemma_rows_unique(a: Seq<BandView>, b: Seq<BandView>)
    requires
        bands_wf(a),
        bands_wf(b),
        forall|y: int| #[trigger] row(a, y) == row(b, y),
    ensures
        a == b,
    decreases a.len(),
{
    if a.len() == 0 {
        if b.len() > 0 {
            assert(band_wf(b[0]));
            assert(row_in(b, 0, b[0].y0));
            lemma_row_at(b, 0, b[0].y0);
            lemma_row_none(a, b[0].y0);
            assert(row(a, b[0].y0) == row(b, b[0].y0));
        }
        assert(a =~= b);
    } else {
        if b.len() == 0 {
            assert(band_wf(a[0]));
            assert(row_in(a, 0, a[0].y0));
            lemma_row_at(a, 0, a[0].y0);
            lemma_row_none(b, a[0].y0);
            assert(row(a, a[0].y0) == row(b, a[0].y0));
        }
        lemma_first_band_start(a, b);
        lemma_first_band_start(b, a);
        assert(a[0].y0 == b[0].y0);
        assert(row_in(a, 0, a[0].y0) && row_in(b, 0, a[0].y0)) by {
            assert(band_wf(a[0]) && band_wf(b[0]));
        }
        lemma_row_at(a, 0, a[0].y0);
        lemma_row_at(b, 0, a[0].y0);
        assert(row(a, a[0].y0) == row(b, a[0].y0));
        assert(a[0].spans == b[0].spans);
        lemma_first_band_end(a, b);
        lemma_first_band_end(b, a);
        assert(a[0] == b[0]);
        let ta = a.drop_first();
        let tb = b.drop_first();
        assert forall|y: int| #[trigger] row(ta, y) == row(tb, y) by {
            lemma_row_tail(a, y);
            lemma_row_tail(b, y);
            assert(row(a, y) == row(b, y));
        }
        lemma_row_tail(a, 0);
        lemma_row_tail(b, 0);
        lemma_rows_unique(ta, tb);
        assert(a =~= seq![a[0]] + ta);
        assert(b =~= seq![b[0]] + tb);
    }
}

proof fn lemma_first_band_start(a: Seq<BandView>, b: Seq<BandView>)
    requires
        bands_wf(a),
        bands_wf(b),
        a.len() > 0,
        b.len() > 0,
        forall|y: int| #[trigger] row(a, y) == row(b, y),
    ensures
        b[0].y0 <= a[0].y0,
{
    let y = a[0].y0;
    assert(band_wf(a[0]));
    assert(row_in(a, 0, y));
    lemma_row_at(a, 0, y);
    assert(row(a, y) == row(b, y));
    assert(row(b, y).len() > 0);
    if b[0].y0 > y {
        assert forall|i: int| 0 <= i < b.len() implies !((#[trigger] b[i]).y0 <= y && y < b[i].y1) by {
            if i > 0 {
                assert(b[0].y1 <= b[i].y0);
                assert(band_wf(b[0]));
            }
        }
        lemma_row_none(b, y);
    }
}

proof fn lemma_first_band_end(a: Seq<BandView>, b: Seq<BandView>)
    requires
        bands_wf(a),
        bands_wf(b),
        a.len() > 0,
        b.len() > 0,
        a[0].y0 == b[0].y0,
        a[0].spans == b[0].spans,
        forall|y: int| #[trigger] row(a, y) == row(b, y),
    ensures
        a[0].y1 >= b[0].y1,
{
    if a[0].y1 < b[0].y1 {
        let y = a[0].y1;
        assert(band_wf(a[0]) && band_wf(b[0]));
        assert(row_in(b, 0, y));
        lemma_row_at(b, 0, y);
        assert(row(a, y) == row(b, y));
        if a.len() == 1 || a[1].y0 > y {
            assert forall|i: int| 0 <= i < a.len() implies !((#[trigger] a[i]).y0 <= y && y < a[i].y1) by {
                if i > 1 {
                    assert(a[1].y1 <= a[i].y0);
                    assert(band_wf(a[1]));
                }
            }
            lemma_row_none(a, y);
        } else {
            assert(a[0].y1 <= a[1].y0);
            assert(band_wf(a[1]));
            assert(row_in(a, 1, y));
            lemma_row_at(a, 1, y);
            assert(a[0].spans == a[1].spans);
            assert(a[0].y1 == a[1].y0);
        }
    }
}

fn push_band(out: &mut Vec<Band>, y0: i32, y1: i32, spans: Vec<Span>)
    requires
        bands_wf(seen_all(old(out)@)),
        y0 < y1,
        spans_wf(spans@),
        forall|k: int| 0 <= k < old(out)@.len() ==> (#[trigger] old(out)@[k]).y1 <= y0,
    ensures
        bands_wf(seen_all(final(out)@)),
        forall|k: int| 0 <= k < final(out)@.len() ==> (#[trigger] final(out)@[k]).y1 <= y1,
        forall|y: int| #[trigger]
            row(seen_all(final(out)@), y) == (if y0 <= y < y1 {
                spans@
            } else {
                row(seen_all(old(out)@), y)
            }),
        count_boxes(seen_all(final(out)@)) <= count_boxes(seen_all(old(out)@)) + spans@.len(),
{
    let ghost before = seen_all(out@);
    let n = out.len();
    if spans.len() == 0 {
        proof {
            assert forall|y: int| #[trigger] row(before, y) == (if y0 <= y < y1 {
                spans@
            } else {
                row(before, y)
            }) by {
                if y0 <= y < y1 {
                    assert forall|i: int| 0 <= i < before.len() implies !((#[trigger] before[i]).y0 <= y
                        && y < before[i].y1) by {
                        assert(out@[i].y1 <= y0);
                    }
                    lemma_row_none(before, y);
                    assert(spans@ =~= Seq::<Span>::empty());
                }
            }
        }
        return;
    }
    if n > 0 && out[n - 1].y1 == y0 && spans_equal(&out[n - 1].spans, &spans) {
        let mut last = out.pop().unwrap();
        last.y1 = y1;
        out.push(last);
        proof {
            let after = seen_all(out@);
            assert forall|k: int| 0 <= k < n - 1 implies after[k] == before[k] by {}
            assert(after[n - 1] == BandView { y1: y1 as int, ..before[n - 1] });
            assert(band_wf(before[n - 1]));
            assert(bands_wf(after));
            assert forall|y: int| #[trigger] row(after, y) == (if y0 <= y < y1 {
                spans@
            } else {
                row(before, y)
            }) by {
                lemma_row_last(before, after, y);
            }
            lemma_count_last(before, after);
        }
    } else {
        let ghost sp = spans@;
        out.push(Band { y0, y1, spans });
        proof {
            let after = seen_all(out@);
            assert forall|k: int| 0 <= k < n implies after[k] == before[k] by {}
            assert(after[n as int] == BandView { y0: y0 as int, y1: y1 as int, spans: sp });
            assert forall|i: int, j: int|
                0 <= i < after.len() && j == i + 1 && j < after.len() && (#[trigger] after[i]).y1 == (
                #[trigger] after[j]).y0 implies after[i].spans != after[j].spans by {
                if j == n {
                    assert(after[i] == before[i]);
                } else {
                    assert(after[i] == before[i] && after[j] == before[j]);
                }
            }
            assert forall|i: int, j: int| 0 <= i < j < after.len() implies (#[trigger] after[i]).y1
                <= (#[trigger] after[j]).y0 by {
                if j == n {
                    assert(out@[i].y1 <= y0);
                } else {
                    assert(after[i] == before[i] && after[j] == before[j]);
                }
            }
            assert forall|i: int| 0 <= i < after.len() implies band_wf(#[trigger] after[i]) by {
                if i < n {
                    assert(after[i] == before[i]);
                }
            }
            assert(bands_wf(after));
            assert forall|y: int| #[trigger] row(after, y) == (if y0 <= y < y1 {
                sp
            } else {
                row(before, y)
            }) by {
                if y0 <= y < y1 {
                    assert(row_in(after, n as int, y));
                    lemma_row_at(after, n as int, y);
                } else if exists|i: int| row_in(before, i, y) {
                    let k = choose|k: int| row_in(before, k, y);
                    assert(row_in(before, k, y));
                    assert(row_in(after, k, y));
                    lemma_row_at(after, k, y);
                } else {
                    assert forall|i: int| 0 <= i < after.len() implies !((#[trigger] after[i]).y0 <= y
                        && y < after[i].y1) by {
                        if i < n {
                            assert(!row_in(before, i, y));
                            assert(after[i] == before[i]);
                        }
                    }
                    lemma_row_none(after, y);
                }
            }
            assert(after.drop_last() =~= before);
        }
    }
}

/// How many boxes a list of bands stands for.
pub open spec fn count_boxes(b: Seq<BandView>) -> nat
    decreases b.len(),
{
    if b.len() == 0 {
        0
    } else {
        count_boxes(b.drop_last()) + b.last().spans.len()
    }
}

proof fn lemma_count_last(before: Seq<BandView>, after: Seq<BandView>)
    requires
        before.len() == after.len(),
        before.len() > 0,
        before.drop_last() =~= after.drop_last(),
        before.last().spans == after.last().spans,
    ensures
        count_boxes(before) == count_boxes(after),
{
}

proof fn lemma_row_last(before: Seq<BandView>, after: Seq<BandView>, y: int)
    requires
        bands_wf(before),
        bands_wf(after),
        before.len() > 0,
        before.len() == after.len(),
        forall|k: int| 0 <= k < before.len() - 1 ==> before[k] == after[k],
        before.last().y0 == after.last().y0,
        before.last().spans == after.last().spans,
        before.last().y1 < after.last().y1,
    ensures
        row(after, y) == (if before.last().y1 <= y < after.last().y1 {
            before.last().spans
        } else {
            row(before, y)
        }),
{
    let n = before.len() as int;
    assert(band_wf(before[n - 1]));
    if before[n - 1].y0 <= y < after[n - 1].y1 {
        assert(row_in(after, n - 1, y));
        lemma_row_at(after, n - 1, y);
        if y < before[n - 1].y1 {
            assert(row_in(before, n - 1, y));
            lemma_row_at(before, n - 1, y);
        }
    } else if exists|i: int| row_in(before, i, y) {
        let k = choose|k: int| row_in(before, k, y);
        assert(row_in(before, k, y));
        assert(row_in(after, k, y));
        lemma_row_at(after, k, y);
    } else {
        assert forall|i: int| 0 <= i < after.len() implies !((#[trigger] after[i]).y0 <= y && y
            < after[i].y1) by {
            assert(!row_in(before, i, y));
        }
        lemma_row_none(after, y);
    }
}

proof fn lemma_row_step(a: Seq<BandView>, i: int, y: int, ny: int, r: int)
    requires
        bands_wf(a),
        0 <= i <= a.len(),
        forall|k: int| 0 <= k < i ==> (#[trigger] a[k]).y1 <= y,
        forall|k: int| i <= k < a.len() ==> (#[trigger] a[k]).y1 > y,
        i < a.len() ==> ny <= (if a[i].y0 <= y { a[i].y1 } else { a[i].y0 }),
        y <= r < ny,
    ensures
        row(a, r) == (if i < a.len() && a[i].y0 <= y { a[i].spans } else { Seq::empty() }),
{
    if i < a.len() && a[i].y0 <= y {
        assert(row_in(a, i, r));
        lemma_row_at(a, i, r);
    } else {
        assert forall|k: int| 0 <= k < a.len() implies !((#[trigger] a[k]).y0 <= r && r < a[k].y1) by {
            if k > i {
                assert(a[i].y1 <= a[k].y0);
                assert(band_wf(a[i]));
            }
        }
        lemma_row_none(a, r);
    }
}

/// Whether `out` shows what the operation makes of rows above `limit`.
spec fn rows_combined(
    out: Seq<BandView>,
    a: Seq<BandView>,
    b: Seq<BandView>,
    op: SetOp,
    limit: int,
) -> bool {
    forall|r: int, t: int|
        r < limit ==> #[trigger] spans_cover(row(out, r), t) == op_holds(
            op,
            spans_cover(row(a, r), t),
            spans_cover(row(b, r), t),
        )
}

fn combine_bands(a: &Vec<Band>, b: &Vec<Band>, op: SetOp) -> (out: Vec<Band>)
    requires
        bands_wf(seen_all(a@)),
        bands_wf(seen_all(b@)),
    ensures
        bands_wf(seen_all(out@)),
        forall|r: int, t: int| #[trigger]
            spans_cover(row(seen_all(out@), r), t) == op_holds(
                op,
                spans_cover(row(seen_all(a@), r), t),
                spans_cover(row(seen_all(b@), r), t),
            ),
{
    let mut out: Vec<Band> = Vec::new();
    let mut i: usize = 0;
    let mut j: usize = 0;
    let mut y: i32 = i32::MIN;
    let empty: Vec<Span> = Vec::new();
    let ghost sa = seen_all(a@);
    let ghost sb = seen_all(b@);
    proof {
        assert forall|r: int, t: int| r < y implies #[trigger] spans_cover(
            row(seen_all(out@), r),
            t,
        ) == op_holds(op, spans_cover(row(sa, r), t), spans_cover(row(sb, r), t)) by {
            assert forall|k: int| 0 <= k < sa.len() implies !((#[trigger] sa[k]).y0 <= r && r
                < sa[k].y1) by {
                assert(band_wf(sa[k]));
            }
            assert forall|k: int| 0 <= k < sb.len() implies !((#[trigger] sb[k]).y0 <= r && r
                < sb[k].y1) by {
                assert(band_wf(sb[k]));
            }
            lemma_row_none(sa, r);
            lemma_row_none(sb, r);
            lemma_row_none(seen_all(out@), r);
        }
        assert forall|k: int| 0 <= k < sa.len() implies (#[trigger] sa[k]).y1 > y by {
            assert(band_wf(sa[k]));
        }
        assert forall|k: int| 0 <= k < sb.len() implies (#[trigger] sb[k]).y1 > y by {
            assert(band_wf(sb[k]));
        }
    }
    while i < a.len() || j < b.len()
        invariant
            i <= a.len(),
            j <= b.len(),
            empty@ == Seq::<Span>::empty(),
            sa == seen_all(a@),
            sb == seen_all(b@),
            bands_wf(sa),
            bands_wf(sb),
            forall|k: int| 0 <= k < i ==> (#[trigger] sa[k]).y1 <= y,
            forall|k: int| i <= k < sa.len() ==> (#[trigger] sa[k]).y1 > y,
            forall|k: int| 0 <= k < j ==> (#[trigger] sb[k]).y1 <= y,
            forall|k: int| j <= k < sb.len() ==> (#[trigger] sb[k]).y1 > y,
            bands_wf(seen_all(out@)),
            forall|k: int| 0 <= k < out@.len() ==> (#[trigger] out@[k]).y1 <= y,
            rows_combined(seen_all(out@), sa, sb, op, y as int),
        decreases i32::MAX - y,
    {
        proof {
            if i < a.len() {
                assert(band_wf(sa[i as int]));
            }
            if j < b.len() {
                assert(band_wf(sb[j as int]));
            }
        }
        let a_in = i < a.len() && a[i].y0 <= y;
        let b_in = j < b.len() && b[j].y0 <= y;
        let mut ny: i32 = i32::MAX;
        if i < a.len() {
            ny = if a_in { a[i].y1 } else { a[i].y0 };
        }
        if j < b.len() {
            let c: i32 = if b_in { b[j].y1 } else { b[j].y0 };
            ny = min_i32(ny, c);
        }
        let left: &Vec<Span> = if a_in { &a[i].spans } else { &empty };
        let right: &Vec<Span> = if b_in { &b[j].spans } else { &empty };
        let spans = combine_spans(left, right, op);
        let ghost before = seen_all(out@);
        let ghost sp = spans@;
        push_band(&mut out, y, ny, spans);
        proof {
            assert forall|r: int, t: int| r < ny implies #[trigger] spans_cover(
                row(seen_all(out@), r),
                t,
            ) == op_holds(op, spans_cover(row(sa, r), t), spans_cover(row(sb, r), t)) by {
                if r >= y {
                    lemma_row_step(sa, i as int, y as int, ny as int, r);
                    lemma_row_step(sb, j as int, y as int, ny as int, r);
                    assert(row(seen_all(out@), r) == sp);
                    assert(left@ =~= row(sa, r));
                    assert(right@ =~= row(sb, r));
                } else {
                    assert(row(seen_all(out@), r) == row(before, r));
                }
            }
            assert forall|k: int| i < k < sa.len() implies (#[trigger] sa[k]).y1 > ny by {
                assert(sa[i as int].y1 <= sa[k].y0);
                assert(band_wf(sa[k]));
            }
            assert forall|k: int| j < k < sb.len() implies (#[trigger] sb[k]).y1 > ny by {
                assert(sb[j as int].y1 <= sb[k].y0);
                assert(band_wf(sb[k]));
            }
        }
        if i < a.len() && a[i].y1 <= ny {
            i = i + 1;
        }
        if j < b.len() && b[j].y1 <= ny {
            j = j + 1;
        }
        y = ny;
    }
    proof {
        let so = seen_all(out@);
        assert forall|r: int, t: int| #[trigger] spans_cover(row(so, r), t) == op_holds(
            op,
            spans_cover(row(sa, r), t),
            spans_cover(row(sb, r), t),
        ) by {
            if r >= y {
                assert forall|k: int| 0 <= k < so.len() implies !((#[trigger] so[k]).y0 <= r && r
                    < so[k].y1) by {
                    assert(out@[k].y1 <= y);
                }
                lemma_row_none(sa, r);
                lemma_row_none(sb, r);
                lemma_row_none(so, r);
            }
        }
    }
    out
}

/// The columns of a row that lie in `[x0, x1)`.
fn clip_spans(spans: &Vec<Span>, x0: i32, x1: i32) -> (out: Vec<Span>)
    requires
        spans_wf(spans@),
    ensures
        spans_wf(out@),
        out@.len() <= spans@.len(),
        forall|t: int| #[trigger]
            spans_cover(out@, t) == (spans_cover(spans@, t) && x0 <= t < x1),
{
    let mut out: Vec<Span> = Vec::new();
    let mut i: usize = 0;
    while i < spans.len()
        invariant
            i <= spans.len(),
            spans_wf(spans@),
            spans_wf(out@),
            out@.len() <= i,
            forall|k: int, m: int|
                0 <= k < out@.len() && i <= m < spans@.len() ==> (#[trigger] out@[k]).x1 < (
                #[trigger] spans@[m]).x0,
            forall|t: int| #[trigger]
                spans_cover(out@, t) == (spans_cover(spans@.take(i as int), t) && x0 <= t < x1),
        decreases spans.len() - i,
    {
        let lo = max_i32(spans[i].x0, x0);
        let hi = min_i32(spans[i].x1, x1);
        let ghost before = out@;
        if lo < hi {
            out.push(Span { x0: lo, x1: hi });
        }
        proof {
            let t1 = spans@.take(i + 1);
            let t0 = spans@.take(i as int);
            assert forall|t: int| #[trigger] spans_cover(out@, t) == (spans_cover(t1, t) && x0 <= t
                < x1) by {
                if spans_cover(t1, t) {
                    let k = choose|k: int|
                        0 <= k < t1.len() && (#[trigger] t1[k]).x0 <= t && t < t1[k].x1;
                    if k < i {
                        assert(t0[k] == t1[k]);
                        assert(spans_cover(t0, t));
                        if x0 <= t < x1 {
                            assert(spans_cover(before, t));
                            let m = choose|m: int|
                                0 <= m < before.len() && (#[trigger] before[m]).x0 <= t && t
                                    < before[m].x1;
                            assert(out@[m] == before[m]);
                        }
                    } else if x0 <= t < x1 {
                        assert(out@[before.len() as int].x0 <= t);
                    }
                }
                if spans_cover(out@, t) {
                    let m = choose|m: int|
                        0 <= m < out@.len() && (#[trigger] out@[m]).x0 <= t && t < out@[m].x1;
                    if m < before.len() {
                        assert(before[m] == out@[m]);
                        assert(spans_cover(before, t));
                        let k = choose|k: int|
                            0 <= k < t0.len() && (#[trigger] t0[k]).x0 <= t && t < t0[k].x1;
                        assert(t1[k] == t0[k]);
                    } else {
                        assert(t1[i as int].x0 <= t);
                    }
                }
            }
            assert forall|k: int, m: int|
                0 <= k < out@.len() && i + 1 <= m < spans@.len() implies (#[trigger] out@[k]).x1 < (
            #[trigger] spans@[m]).x0 by {
                assert(spans@[i as int].x1 < spans@[m].x0);
            }
        }
        i = i + 1;
    }
    assert(spans@.take(i as int) =~= spans@);
    out
}

spec fn clip_limit(b: Seq<BandView>, i: int) -> int {
    if 0 <= i < b.len() { b[i].y0 } else { i32::MAX as int }
}

fn clip_bands(bands: &Vec<Band>, r: Rect2D) -> (out: Vec<Band>)
    requires
        bands_wf(seen_all(bands@)),
    ensures
        bands_wf(seen_all(out@)),
        count_boxes(seen_all(out@)) <= count_boxes(seen_all(bands@)),
        forall|y: int, t: int| #[trigger]
            spans_cover(row(seen_all(out@), y), t) == (spans_cover(row(seen_all(bands@), y), t)
                && r.has(t, y)),
{
    let mut out: Vec<Band> = Vec::new();
    let ghost s = seen_all(bands@);
    let x0 = r.offset.x;
    let y0 = r.offset.y;
    let x1 = r.right();
    let y1 = r.bottom();
    let mut i: usize = 0;
    proof {
        assert(s.take(0) =~= Seq::<BandView>::empty());
        assert forall|y: int, t: int| y < clip_limit(s, 0) implies #[trigger] spans_cover(
            row(seen_all(out@), y),
            t,
        ) == (spans_cover(row(s, y), t) && r.has(t, y)) by {
            lemma_row_none(seen_all(out@), y);
            assert forall|k: int| 0 <= k < s.len() implies !((#[trigger] s[k]).y0 <= y && y < s[k].y1) by {
                if k > 0 {
                    assert(s[0].y1 <= s[k].y0);
                    assert(band_wf(s[0]));
                }
            }
            lemma_row_none(s, y);
        }
    }
    while i < bands.len()
        invariant
            i <= bands.len(),
            s == seen_all(bands@),
            bands_wf(s),
            x0 == r.x0(),
            y0 == r.y0(),
            x1 == r.x1(),
            y1 == r.y1(),
            bands_wf(seen_all(out@)),
            count_boxes(seen_all(out@)) <= count_boxes(s.take(i as int)),
            forall|k: int| 0 <= k < out@.len() ==> (#[trigger] out@[k]).y1 <= clip_limit(s, i as int),
            forall|y: int, t: int|
                y < clip_limit(s, i as int) ==> #[trigger] spans_cover(row(seen_all(out@), y), t) == (
                spans_cover(row(s, y), t) && r.has(t, y)),
        decreases bands.len() - i,
    {
        assert(band_wf(s[i as int]));
        let lo = max_i32(bands[i].y0, y0);
        let hi = min_i32(bands[i].y1, y1);
        let ghost before = seen_all(out@);
        let ghost out0 = out@;
        let ghost mut cut = Seq::<Span>::empty();
        if lo < hi {
            let spans = clip_spans(&bands[i].spans, x0, x1);
            proof {
                cut = spans@;
            }
            push_band(&mut out, lo, hi, spans);
        }
        proof {
            let next = i + 1;
            assert(s.take(next).drop_last() =~= s.take(i as int));
            assert(s.take(next).last() == s[i as int]);
            if next < s.len() {
                assert(s[i as int].y1 <= s[next].y0);
            }
            assert(s[i as int].y1 <= clip_limit(s, next));
            assert forall|y: int, t: int| y < clip_limit(s, next) implies #[trigger] spans_cover(
                row(seen_all(out@), y),
                t,
            ) == (spans_cover(row(s, y), t) && r.has(t, y)) by {
                if y < s[i as int].y0 {
                    assert(row(seen_all(out@), y) == row(before, y));
                } else {
                    assert(row(before, y) == Seq::<Span>::empty()) by {
                        assert forall|k: int| 0 <= k < before.len() implies !((#[trigger] before[k]).y0
                            <= y && y < before[k].y1) by {
                            assert(out0[k].y1 <= s[i as int].y0);
                        }
                        lemma_row_none(before, y);
                    }
                    if y < s[i as int].y1 {
                        assert(row_in(s, i as int, y));
                        lemma_row_at(s, i as int, y);
                        if lo < hi && lo <= y < hi {
                            assert(row(seen_all(out@), y) == cut);
                        } else {
                            assert(row(seen_all(out@), y) == row(before, y));
                        }
                    } else {
                        assert forall|k: int| 0 <= k < s.len() implies !((#[trigger] s[k]).y0 <= y && y
                            < s[k].y1) by {
                            if k < i {
                                assert(s[k].y1 <= s[i as int].y0);
                            }
                            if k > next {
                                assert(s[next].y1 <= s[k].y0);
                                assert(band_wf(s[next]));
                            }
                        }
                        lemma_row_none(s, y);
                        assert(row(seen_all(out@), y) == row(before, y));
                    }
                }
            }
        }
        i = i + 1;
    }
    proof {
        assert(s.take(i as int) =~= s);
        let so = seen_all(out@);
        assert forall|y: int, t: int| #[trigger] spans_cover(row(so, y), t) == (spans_cover(
            row(s, y),
            t,
        ) && r.has(t, y)) by {
            if y >= i32::MAX {
                assert forall|k: int| 0 <= k < s.len() implies !((#[trigger] s[k]).y0 <= y && y
                    < s[k].y1) by {
                    assert(band_wf(s[k]));
                }
                lemma_row_none(s, y);
                assert forall|k: int| 0 <= k < so.len() implies !((#[trigger] so[k]).y0 <= y && y
                    < so[k].y1) by {
                    assert(band_wf(so[k]));
                }
                lemma_row_none(so, y);
            }
        }
    }
    out
}

// ── boxes ───────────────────────────────────────────────────────────
/// The boxes of one band, left to right.
pub open spec fn band_boxes(b: BandView) -> Seq<Rect2D> {
    Seq::new(
        b.spans.len(),
        |i: int| corners(b.spans[i].x0 as int, b.y0, b.spans[i].x1 as int, b.y1),
    )
}

/// The boxes of a list of bands, top to bottom and left to right.
pub open spec fn bands_boxes(b: Seq<BandView>) -> Seq<Rect2D>
    decreases b.len(),
{
    if b.len() == 0 {
        Seq::empty()
    } else {
        bands_boxes(b.drop_last()) + band_boxes(b.last())
    }
}

/// Whether `b` is the canonical form of the pixels `p`.
pub open spec fn is_form(b: Seq<BandView>, p: Set<(int, int)>) -> bool {
    bands_wf(b) && bands_px(b) == p
}

/// The canonical form of a set of pixels that has one.
pub open spec fn form(p: Set<(int, int)>) -> Seq<BandView> {
    choose|b: Seq<BandView>| is_form(b, p)
}

/// The boxes of a set of pixels: its rows cut into maximal spans, equal
/// neighbouring rows merged, top to bottom and left to right.
#[verifier::opaque]
pub open spec fn boxes(p: Set<(int, int)>) -> Seq<Rect2D> {
    bands_boxes(form(p))
}

/// The most boxes a region holds.
pub const MAX_RECTS: usize = 32;

/// The bounding box of a set of pixels, as pixels: everything with a pixel of
/// the set (weakly) on each of its four sides.
#[verifier::opaque]
pub open spec fn bbox_px(p: Set<(int, int)>) -> Set<(int, int)> {
    Set::new(
        |q: (int, int)|
            {
                &&& exists|a: (int, int)| #[trigger] p.contains(a) && a.0 <= q.0
                &&& exists|a: (int, int)| #[trigger] p.contains(a) && q.0 <= a.0
                &&& exists|a: (int, int)| #[trigger] p.contains(a) && a.1 <= q.1
                &&& exists|a: (int, int)| #[trigger] p.contains(a) && q.1 <= a.1
            },
    )
}

/// Whether a rectangle has a pixel and no edge beyond the plane.
pub open spec fn tight(b: Rect2D) -> bool {
    b.non_empty() && b.offset.x + b.extent.width == b.x1() && b.offset.y + b.extent.height == b.y1()
}

/// The bounding box of a non-empty set of pixels, as a rectangle.
pub open spec fn bbox_rect(p: Set<(int, int)>) -> Rect2D {
    choose|b: Rect2D| tight(b) && #[trigger] b.px() == bbox_px(p)
}

/// Tight rectangles with the same pixels are equal.
pub proof fn lemma_tight_unique(a: Rect2D, b: Rect2D)
    requires
        tight(a),
        tight(b),
        a.px() == b.px(),
    ensures
        a == b,
{
    assert(a.px().contains((a.x0(), a.y0())));
    assert(b.px().contains((b.x0(), b.y0())));
    assert(a.px().contains((a.x1() - 1, a.y1() - 1)));
    assert(b.px().contains((b.x1() - 1, b.y1() - 1)));
    assert(b.px().contains((a.x0(), a.y0())));
    assert(a.px().contains((b.x0(), b.y0())));
    assert(b.px().contains((a.x1() - 1, a.y1() - 1)));
    assert(a.px().contains((b.x1() - 1, b.y1() - 1)));
}

/// Whether a set of pixels needs more boxes than a region holds.
pub open spec fn over_cap(p: Set<(int, int)>) -> bool {
    boxes(p).len() > MAX_RECTS
}

/// What a region keeps of the exact result `p` of an operation.
pub open spec fn capped(p: Set<(int, int)>) -> Set<(int, int)> {
    if over_cap(p) { bbox_px(p) } else { p }
}

/// Whether `b` cuts `p` into disjoint, non-empty boxes.
pub open spec fn partitions(b: Seq<Rect2D>, p: Set<(int, int)>) -> bool {
    &&& forall|i: int| 0 <= i < b.len() ==> (#[trigger] b[i]).non_empty()
    &&& forall|i: int, x: int, y: int|
        0 <= i < b.len() && #[trigger] b[i].has(x, y) ==> p.contains((x, y))
    &&& forall|x: int, y: int| #[trigger]
        p.contains((x, y)) ==> exists|i: int| 0 <= i < b.len() && #[trigger] b[i].has(x, y)
    &&& forall|i: int, j: int, x: int, y: int|
        0 <= i < j < b.len() && #[trigger] b[i].has(x, y) ==> !(#[trigger] b[j].has(x, y))
}

proof fn lemma_form(b: Seq<BandView>)
    requires
        bands_wf(b),
    ensures
        form(bands_px(b)) == b,
{
    assert(is_form(b, bands_px(b)));
    lemma_bands_unique(form(bands_px(b)), b);
}

proof fn lemma_box_count(b: Seq<BandView>)
    ensures
        bands_boxes(b).len() == count_boxes(b),
    decreases b.len(),
{
    if b.len() > 0 {
        lemma_box_count(b.drop_last());
    }
}

proof fn lemma_row_init(b: Seq<BandView>, y: int)
    requires
        bands_wf(b),
        b.len() > 0,
    ensures
        bands_wf(b.drop_last()),
        row(b, y) == (if b.last().y0 <= y < b.last().y1 {
            b.last().spans
        } else {
            row(b.drop_last(), y)
        }),
        b.last().y0 <= y ==> row(b.drop_last(), y) == Seq::<Span>::empty(),
{
    let t = b.drop_last();
    let n = b.len() - 1;
    assert forall|i: int| 0 <= i < t.len() implies t[i] == b[i] by {}
    assert(bands_wf(t));
    if b.last().y0 <= y {
        assert forall|i: int| 0 <= i < t.len() implies !((#[trigger] t[i]).y0 <= y && y < t[i].y1) by {
            assert(b[i].y1 <= b[n].y0);
        }
        lemma_row_none(t, y);
    }
    if b.last().y0 <= y < b.last().y1 {
        assert(row_in(b, n, y));
        lemma_row_at(b, n, y);
    } else if exists|i: int| row_in(t, i, y) {
        let k = choose|k: int| row_in(t, k, y);
        assert(row_in(t, k, y));
        assert(row_in(b, k, y));
        lemma_row_at(b, k, y);
        lemma_row_at(t, k, y);
    } else {
        assert forall|i: int| 0 <= i < b.len() implies !((#[trigger] b[i]).y0 <= y && y < b[i].y1) by {
            if i < n {
                assert(!row_in(t, i, y));
            }
        }
        lemma_row_none(b, y);
    }
}

proof fn lemma_boxes_partition(b: Seq<BandView>)
    requires
        bands_wf(b),
    ensures
        partitions(bands_boxes(b), bands_px(b)),
    decreases b.len(),
{
    let bx = bands_boxes(b);
    let p = bands_px(b);
    if b.len() == 0 {
        assert forall|x: int, y: int| !(#[trigger] p.contains((x, y))) by {
            lemma_row_none(b, y);
        }
    } else {
        let t = b.drop_last();
        let last = b.last();
        assert(band_wf(b[b.len() - 1]));
        lemma_row_init(b, 0);
        lemma_boxes_partition(t);
        let tb = bands_boxes(t);
        let lb = band_boxes(last);
        let q = bands_px(t);
        let n = tb.len() as int;
        assert forall|i: int| 0 <= i < lb.len() implies {
            &&& (#[trigger] lb[i]).x0() == last.spans[i].x0
            &&& lb[i].x1() == last.spans[i].x1
            &&& lb[i].y0() == last.y0
            &&& lb[i].y1() == last.y1
        } by {
            assert(last.spans[i].x0 < last.spans[i].x1);
        }
        assert forall|i: int| 0 <= i < bx.len() implies (#[trigger] bx[i]).non_empty() by {
            if i < n {
                assert(bx[i] == tb[i]);
            } else {
                assert(bx[i] == lb[i - n]);
                assert(last.spans[i - n].x0 < last.spans[i - n].x1);
            }
        }
        assert forall|i: int, x: int, y: int|
            0 <= i < bx.len() && #[trigger] bx[i].has(x, y) implies p.contains((x, y)) by {
            lemma_row_init(b, y);
            if i < n {
                assert(tb[i].has(x, y));
                assert(q.contains((x, y)));
                assert(spans_cover(row(t, y), x));
                if last.y0 <= y {
                    assert(!spans_cover(Seq::<Span>::empty(), x));
                }
            } else {
                assert(lb[i - n].has(x, y));
                assert(last.spans[i - n].x0 <= x);
                assert(spans_cover(last.spans, x));
            }
        }
        assert forall|x: int, y: int| #[trigger] p.contains((x, y)) implies exists|i: int|
            0 <= i < bx.len() && #[trigger] bx[i].has(x, y) by {
            lemma_row_init(b, y);
            if last.y0 <= y < last.y1 {
                let k = choose|k: int|
                    0 <= k < last.spans.len() && (#[trigger] last.spans[k]).x0 <= x && x
                        < last.spans[k].x1;
                assert(bx[n + k] == lb[k]);
                assert(bx[n + k].has(x, y));
            } else {
                assert(q.contains((x, y)));
                let k = choose|k: int| 0 <= k < tb.len() && #[trigger] tb[k].has(x, y);
                assert(bx[k] == tb[k]);
                assert(bx[k].has(x, y));
            }
        }
        assert forall|i: int, j: int, x: int, y: int|
            0 <= i < j < bx.len() && #[trigger] bx[i].has(x, y) implies !(#[trigger] bx[j].has(x, y)) by {
            if j < n {
                assert(tb[i].has(x, y));
                assert(!tb[j].has(x, y));
            } else if i < n {
                assert(tb[i].has(x, y));
                assert(q.contains((x, y)));
                lemma_row_init(b, y);
                assert(spans_cover(row(t, y), x));
                if last.y0 <= y {
                    assert(!spans_cover(Seq::<Span>::empty(), x));
                }
                assert(bx[j] == lb[j - n]);
            } else {
                assert(bx[i] == lb[i - n] && bx[j] == lb[j - n]);
                assert(last.spans[i - n].x1 < last.spans[j - n].x0);
            }
        }
    }
}

/// A set of pixels lies inside its bounding box.
pub proof fn lemma_bbox_superset(p: Set<(int, int)>)
    ensures
        p.subset_of(bbox_px(p)),
{
    reveal(bbox_px);
    assert forall|q: (int, int)| p.contains(q) implies bbox_px(p).contains(q) by {}
}

/// A region keeps at least the exact result, and at most its bounding box.
pub proof fn lemma_capped(p: Set<(int, int)>)
    ensures
        p.subset_of(capped(p)),
        capped(p).subset_of(bbox_px(p)),
{
    lemma_bbox_superset(p);
}

/// A bounding box of pixels inside a bounding box lies inside it too.
pub proof fn lemma_bbox_inside(p: Set<(int, int)>, s: Set<(int, int)>)
    requires
        p.subset_of(bbox_px(s)),
    ensures
        bbox_px(p).subset_of(bbox_px(s)),
{
    assert forall|q: (int, int)| bbox_px(p).contains(q) implies bbox_px(s).contains(q) by {
        assert({
            &&& exists|a: (int, int)| #[trigger] p.contains(a) && a.0 <= q.0
            &&& exists|a: (int, int)| #[trigger] p.contains(a) && q.0 <= a.0
            &&& exists|a: (int, int)| #[trigger] p.contains(a) && a.1 <= q.1
            &&& exists|a: (int, int)| #[trigger] p.contains(a) && q.1 <= a.1
        }) by {
            reveal(bbox_px);
        }
        let a = choose|a: (int, int)| #[trigger] p.contains(a) && a.0 <= q.0;
        let b = choose|a: (int, int)| #[trigger] p.contains(a) && q.0 <= a.0;
        let c = choose|a: (int, int)| #[trigger] p.contains(a) && a.1 <= q.1;
        let d = choose|a: (int, int)| #[trigger] p.contains(a) && q.1 <= a.1;
        assert(bbox_px(s).contains(a) && bbox_px(s).contains(b) && bbox_px(s).contains(c)
            && bbox_px(s).contains(d));
        lemma_bbox_sides(s, a);
        lemma_bbox_sides(s, b);
        lemma_bbox_sides(s, c);
        lemma_bbox_sides(s, d);
        let a2 = choose|e: (int, int)| #[trigger] s.contains(e) && e.0 <= a.0;
        let b2 = choose|e: (int, int)| #[trigger] s.contains(e) && b.0 <= e.0;
        let c2 = choose|e: (int, int)| #[trigger] s.contains(e) && e.1 <= c.1;
        let d2 = choose|e: (int, int)| #[trigger] s.contains(e) && d.1 <= e.1;
        assert(s.contains(a2) && a2.0 <= q.0);
        assert(s.contains(b2) && q.0 <= b2.0);
        assert(s.contains(c2) && c2.1 <= q.1);
        assert(s.contains(d2) && q.1 <= d2.1);
        reveal(bbox_px);
    }
}

proof fn lemma_bbox_sides(s: Set<(int, int)>, a: (int, int))
    requires
        bbox_px(s).contains(a),
    ensures
        exists|e: (int, int)| #[trigger] s.contains(e) && e.0 <= a.0,
        exists|e: (int, int)| #[trigger] s.contains(e) && a.0 <= e.0,
        exists|e: (int, int)| #[trigger] s.contains(e) && e.1 <= a.1,
        exists|e: (int, int)| #[trigger] s.contains(e) && a.1 <= e.1,
{
    reveal(bbox_px);
}

proof fn lemma_boxes_of_form(b: Seq<BandView>)
    requires
        bands_wf(b),
    ensures
        boxes(bands_px(b)) == bands_boxes(b),
        boxes(bands_px(b)).len() == count_boxes(b),
        partitions(boxes(bands_px(b)), bands_px(b)),
{
    reveal(boxes);
    lemma_form(b);
    lemma_box_count(b);
    lemma_boxes_partition(b);
}

proof fn lemma_empty_bands(b: Seq<BandView>)
    requires
        bands_wf(b),
    ensures
        b.len() == 0 <==> bands_px(b) == Set::<(int, int)>::empty(),
{
    if b.len() == 0 {
        assert forall|q: (int, int)| !bands_px(b).contains(q) by {
            lemma_row_none(b, q.1);
        }
        assert(bands_px(b) =~= Set::<(int, int)>::empty());
    } else {
        let y = b[0].y0;
        assert(band_wf(b[0]));
        assert(row_in(b, 0, y));
        lemma_row_at(b, 0, y);
        let x = b[0].spans[0].x0 as int;
        assert(b[0].spans[0].x0 < b[0].spans[0].x1);
        assert(spans_cover(b[0].spans, x));
        assert(bands_px(b).contains((x, y)));
    }
}

/// The smallest rectangle around the bands.
fn bounds(bands: &Vec<Band>) -> (r: Rect2D)
    requires
        bands_wf(seen_all(bands@)),
        bands@.len() > 0,
    ensures
        tight(r),
        r.px() == bbox_px(bands_px(seen_all(bands@))),
        r == bbox_rect(bands_px(seen_all(bands@))),
{
    let ghost s = seen_all(bands@);
    let ghost p = bands_px(s);
    proof {
        assert(band_wf(s[0]));
        assert(s[0].spans[0].x0 < s[0].spans[0].x1);
    }
    let first = &bands[0].spans;
    let mut x0: i32 = first[0].x0;
    let mut x1: i32 = first[first.len() - 1].x1;
    let mut i: usize = 1;
    proof {
        let ghost last = s[0].spans.len() - 1;
        assert(s[0].spans[last].x0 < s[0].spans[last].x1);
        lemma_span_pixel(s, 0, 0, s[0].spans[0].x0 as int);
        lemma_span_pixel(s, 0, last, s[0].spans[last].x1 - 1);
        assert forall|k: int, m: int| 0 <= k < 1 && 0 <= m < s[k].spans.len() implies x0 <= (
        #[trigger] s[k].spans[m]).x0 && s[k].spans[m].x1 <= x1 by {
            lemma_span_order(s[0].spans, m);
        }
    }
    while i < bands.len()
        invariant
            1 <= i <= bands.len(),
            s == seen_all(bands@),
            p == bands_px(s),
            bands_wf(s),
            x0 < x1,
            exists|a: (int, int)| #[trigger] p.contains(a) && a.0 == x0,
            exists|a: (int, int)| #[trigger] p.contains(a) && a.0 == x1 - 1,
            forall|k: int, m: int|
                0 <= k < i && 0 <= m < s[k].spans.len() ==> x0 <= (#[trigger] s[k].spans[m]).x0
                    && s[k].spans[m].x1 <= x1,
        decreases bands.len() - i,
    {
        assert(band_wf(s[i as int]));
        let spans = &bands[i].spans;
        let lo = spans[0].x0;
        let hi = spans[spans.len() - 1].x1;
        let ghost old_x0 = x0;
        let ghost old_x1 = x1;
        proof {
            let last = s[i as int].spans.len() - 1;
            assert(s[i as int].spans[0].x0 < s[i as int].spans[0].x1);
            assert(s[i as int].spans[last].x0 < s[i as int].spans[last].x1);
            lemma_span_pixel(s, i as int, 0, lo as int);
            lemma_span_pixel(s, i as int, last, hi - 1);
        }
        x0 = min_i32(x0, lo);
        x1 = max_i32(x1, hi);
        proof {
            assert forall|k: int, m: int| 0 <= k < i + 1 && 0 <= m < s[k].spans.len() implies x0 <= (
            #[trigger] s[k].spans[m]).x0 && s[k].spans[m].x1 <= x1 by {
                if k == i {
                    lemma_span_order(s[i as int].spans, m);
                } else {
                    assert(old_x0 <= s[k].spans[m].x0);
                }
            }
        }
        i = i + 1;
    }
    let y0 = bands[0].y0;
    let y1 = bands[bands.len() - 1].y1;
    proof {
        let n = s.len() - 1;
        assert(band_wf(s[n]) && band_wf(s[0]));
        if n > 0 {
            assert(s[0].y1 <= s[n].y0);
        }
        assert(s[0].spans[0].x0 < s[0].spans[0].x1);
        assert(s[n].spans[0].x0 < s[n].spans[0].x1);
        lemma_span_pixel(s, 0, 0, s[0].spans[0].x0 as int);
        assert(row_in(s, n, y1 - 1));
        lemma_row_at(s, n, y1 - 1);
        assert(spans_cover(s[n].spans, s[n].spans[0].x0 as int));
        assert(p.contains((s[n].spans[0].x0 as int, y1 - 1)));
        assert(p.contains((s[0].spans[0].x0 as int, y0 as int)));
    }
    let r = rect_from_corners(x0, y0, x1, y1);
    proof {
        reveal(bbox_px);
        assert forall|q: (int, int)| r.px().contains(q) == bbox_px(p).contains(q) by {
            assert forall|a: (int, int)| #[trigger] p.contains(a) implies r.has(a.0, a.1) by {
                lemma_pixel_in_bands(s, a.0, a.1);
                let (k, m) = choose|k: int, m: int|
                    row_in(s, k, a.1) && 0 <= m < s[k].spans.len() && (#[trigger] s[k].spans[m]).x0
                        <= a.0 && a.0 < s[k].spans[m].x1;
                if k > 0 {
                    assert(s[0].y1 <= s[k].y0);
                    assert(band_wf(s[0]));
                }
                if k < s.len() - 1 {
                    assert(s[k].y1 <= s[s.len() - 1].y0);
                    assert(band_wf(s[s.len() - 1]));
                }
            }
        }
        assert(r.px() =~= bbox_px(p));
        assert(tight(r) && r.px() == bbox_px(p));
        lemma_tight_unique(r, bbox_rect(p));
    }
    r
}

proof fn lemma_span_order(s: Seq<Span>, m: int)
    requires
        spans_wf(s),
        0 <= m < s.len(),
    ensures
        s[0].x0 <= s[m].x0,
        s[m].x1 <= s[s.len() - 1].x1,
{
    let n = s.len() - 1;
    assert(s[0].x0 < s[0].x1 && s[n].x0 < s[n].x1);
    if m > 0 {
        assert(s[0].x1 < s[m].x0);
    }
    if m < n {
        assert(s[m].x1 < s[n].x0);
    }
}

proof fn lemma_span_pixel(s: Seq<BandView>, k: int, m: int, x: int)
    requires
        bands_wf(s),
        0 <= k < s.len(),
        0 <= m < s[k].spans.len(),
        s[k].spans[m].x0 <= x < s[k].spans[m].x1,
    ensures
        bands_px(s).contains((x, s[k].y0)),
{
    assert(band_wf(s[k]));
    assert(row_in(s, k, s[k].y0));
    lemma_row_at(s, k, s[k].y0);
    assert(spans_cover(s[k].spans, x));
}

proof fn lemma_pixel_in_bands(s: Seq<BandView>, x: int, y: int)
    requires
        bands_wf(s),
        bands_px(s).contains((x, y)),
    ensures
        exists|k: int, m: int|
            row_in(s, k, y) && 0 <= m < s[k].spans.len() && (#[trigger] s[k].spans[m]).x0 <= x && x
                < s[k].spans[m].x1,
{
    assert(spans_cover(row(s, y), x));
    if !(exists|i: int| row_in(s, i, y)) {
        assert(row(s, y) == Seq::<Span>::empty());
    }
    let k = choose|k: int| row_in(s, k, y);
    assert(row_in(s, k, y));
    lemma_row_at(s, k, y);
    let m = choose|m: int|
        0 <= m < s[k].spans.len() && (#[trigger] s[k].spans[m]).x0 <= x && x < s[k].spans[m].x1;
    assert(s[k].spans[m].x0 <= x);
}

// ── area ────────────────────────────────────────────────────────────
/// The number of pixels of a list of disjoint boxes.
pub open spec fn area_of(b: Seq<Rect2D>) -> nat
    decreases b.len(),
{
    if b.len() == 0 {
        0
    } else {
        area_of(b.drop_last()) + (b.last().extent.width * b.last().extent.height) as nat
    }
}

proof fn lemma_area_append(a: Seq<Rect2D>, b: Seq<Rect2D>)
    ensures
        area_of(a + b) == area_of(a) + area_of(b),
    decreases b.len(),
{
    if b.len() == 0 {
        assert(a + b =~= a);
    } else {
        lemma_area_append(a, b.drop_last());
        assert((a + b).drop_last() =~= a + b.drop_last());
    }
}

proof fn lemma_band_area(b: BandView, n: int)
    requires
        band_wf(b),
        0 <= n <= b.spans.len(),
    ensures
        area_of(band_boxes(b).take(n)) <= (b.y1 - b.y0) * (if n == 0 {
            0
        } else {
            b.spans[n - 1].x1 - b.spans[0].x0
        }),
    decreases n,
{
    let t = band_boxes(b).take(n);
    if n > 0 {
        lemma_band_area(b, n - 1);
        assert(t.drop_last() =~= band_boxes(b).take(n - 1));
        let h = b.y1 - b.y0;
        let s = b.spans[n - 1];
        assert(s.x0 < s.x1);
        let w = s.x1 - s.x0;
        assert(t.last() == corners(s.x0 as int, b.y0, s.x1 as int, b.y1));
        assert(t.last().extent.width == w && t.last().extent.height == h);
        let before = if n == 1 { 0 } else { b.spans[n - 2].x1 - b.spans[0].x0 };
        let after = s.x1 - b.spans[0].x0;
        if n > 1 {
            assert(b.spans[n - 2].x1 < b.spans[n - 1].x0);
        }
        assert(before + w <= after);
        assert(h * before + w * h <= h * after) by (nonlinear_arith)
            requires
                before + w <= after,
                h > 0,
        ;
    } else {
        assert(t =~= Seq::<Rect2D>::empty());
        assert((b.y1 - b.y0) * 0 == 0);
    }
}

proof fn lemma_bands_area(b: Seq<BandView>)
    requires
        bands_wf(b),
    ensures
        b.len() > 0 ==> area_of(bands_boxes(b)) <= (b.last().y1 - b[0].y0) * 0xffff_ffff,
        b.len() == 0 ==> area_of(bands_boxes(b)) == 0,
    decreases b.len(),
{
    if b.len() > 0 {
        let t = b.drop_last();
        let last = b.last();
        assert(band_wf(b[b.len() - 1]));
        lemma_row_init(b, 0);
        lemma_bands_area(t);
        lemma_area_append(bands_boxes(t), band_boxes(last));
        let n = last.spans.len() as int;
        lemma_band_area(last, n);
        assert(band_boxes(last).take(n) =~= band_boxes(last));
        let h = last.y1 - last.y0;
        let w = last.spans[n - 1].x1 - last.spans[0].x0;
        assert(w <= 0xffff_ffff);
        assert(h * w <= h * 0xffff_ffff) by (nonlinear_arith)
            requires
                w <= 0xffff_ffff,
                h > 0,
        ;
        if t.len() > 0 {
            assert(b[t.len() - 1].y1 <= b[b.len() - 1].y0);
            assert(t[0] == b[0]);
            assert(t.last() == b[t.len() - 1]);
        }
    }
}

proof fn lemma_area_fits(b: Seq<BandView>)
    requires
        bands_wf(b),
    ensures
        area_of(bands_boxes(b)) <= u64::MAX,
{
    lemma_bands_area(b);
    if b.len() > 0 {
        assert(band_wf(b[0]) && band_wf(b[b.len() - 1]));
        assert((b.last().y1 - b[0].y0) * 0xffff_ffff <= 0xffff_ffff * 0xffff_ffff) by (nonlinear_arith)
            requires
                b.last().y1 - b[0].y0 <= 0xffff_ffff,
        ;
    }
}

// ── the region type ─────────────────────────────────────────────────
/// A set of pixels, held as at most [`MAX_RECTS`] disjoint boxes.
#[derive(Debug)]
pub struct Region {
    bands: Vec<Band>,
}

impl View for Region {
    type V = Set<(int, int)>;

    closed spec fn view(&self) -> Set<(int, int)> {
        bands_px(seen_all(self.bands@))
    }
}

fn copy_bands(bands: &Vec<Band>) -> (out: Vec<Band>)
    ensures
        seen_all(out@) == seen_all(bands@),
{
    let mut out: Vec<Band> = Vec::new();
    let mut i: usize = 0;
    while i < bands.len()
        invariant
            i <= bands.len(),
            out@.len() == i,
            forall|k: int| 0 <= k < i ==> (#[trigger] out@[k]).seen() == bands@[k].seen(),
        decreases bands.len() - i,
    {
        let spans = bands[i].spans.clone();
        assert(spans@ =~= bands@[i as int].spans@);
        out.push(Band { y0: bands[i].y0, y1: bands[i].y1, spans });
        i = i + 1;
    }
    assert(seen_all(out@) =~= seen_all(bands@));
    out
}

fn count_bands(bands: &Vec<Band>) -> (n: usize)
    requires
        count_boxes(seen_all(bands@)) <= usize::MAX,
    ensures
        n == count_boxes(seen_all(bands@)),
{
    let ghost s = seen_all(bands@);
    let mut n: usize = 0;
    let mut i: usize = 0;
    assert(s.take(0) =~= Seq::<BandView>::empty());
    while i < bands.len()
        invariant
            i <= bands.len(),
            s == seen_all(bands@),
            n == count_boxes(s.take(i as int)),
            count_boxes(s) <= usize::MAX,
        decreases bands.len() - i,
    {
        proof {
            assert(s.take(i + 1).drop_last() =~= s.take(i as int));
            lemma_count_prefix(s, i + 1);
        }
        n = n + bands[i].spans.len();
        i = i + 1;
    }
    assert(s.take(i as int) =~= s);
    n
}

proof fn lemma_count_prefix(s: Seq<BandView>, n: int)
    requires
        0 <= n <= s.len(),
    ensures
        count_boxes(s.take(n)) <= count_boxes(s),
    decreases s.len() - n,
{
    if n == s.len() {
        assert(s.take(n) =~= s);
    } else {
        assert(s.take(n + 1).drop_last() =~= s.take(n));
        lemma_count_prefix(s, n + 1);
    }
}

/// Whether the bands stand for more boxes than a region holds.
fn exceeds_cap(bands: &Vec<Band>) -> (r: bool)
    ensures
        r == (count_boxes(seen_all(bands@)) > MAX_RECTS),
{
    let ghost s = seen_all(bands@);
    let mut n: usize = 0;
    let mut i: usize = 0;
    assert(s.take(0) =~= Seq::<BandView>::empty());
    while i < bands.len()
        invariant
            i <= bands.len(),
            s == seen_all(bands@),
            n == count_boxes(s.take(i as int)),
            n <= MAX_RECTS,
        decreases bands.len() - i,
    {
        proof {
            assert(s.take(i + 1).drop_last() =~= s.take(i as int));
            lemma_count_prefix(s, i + 1);
        }
        let k = bands[i].spans.len();
        if k > MAX_RECTS - n {
            return true;
        }
        n = n + k;
        i = i + 1;
    }
    assert(s.take(i as int) =~= s);
    false
}

impl Region {
    /// The most boxes a region holds.
    pub const MAX_RECTS: usize = 32;

    #[verifier::type_invariant]
    spec fn inv(self) -> bool {
        &&& bands_wf(seen_all(self.bands@))
        &&& count_boxes(seen_all(self.bands@)) <= MAX_RECTS
    }

    /// Keeps the bands, or their bounding box when they are too many.
    fn from_bands(bands: Vec<Band>) -> (r: (Region, bool))
        requires
            bands_wf(seen_all(bands@)),
        ensures
            r.0@ == capped(bands_px(seen_all(bands@))),
            r.1 == over_cap(bands_px(seen_all(bands@))),
    {
        proof {
            lemma_boxes_of_form(seen_all(bands@));
        }
        if exceeds_cap(&bands) {
            let b = bounds(&bands);
            (Region::from_rect(b), true)
        } else {
            (Region { bands }, false)
        }
    }

    /// The region without pixels.
    pub fn new() -> (r: Region)
        ensures
            r@ == Set::<(int, int)>::empty(),
    {
        let bands: Vec<Band> = Vec::new();
        proof {
            lemma_empty_bands(seen_all(bands@));
        }
        Region { bands }
    }

    /// The pixels of one rectangle.
    pub fn from_rect(rect: Rect2D) -> (r: Region)
        ensures
            r@ == rect.px(),
    {
        if rect.is_empty() {
            assert(rect.px() =~= Set::<(int, int)>::empty());
            return Region::new();
        }
        let mut spans: Vec<Span> = Vec::new();
        spans.push(Span { x0: rect.offset.x, x1: rect.right() });
        let band = Band { y0: rect.offset.y, y1: rect.bottom(), spans };
        let mut bands: Vec<Band> = Vec::new();
        bands.push(band);
        proof {
            let s = seen_all(bands@);
            assert(s.len() == 1);
            assert(band_wf(s[0]));
            assert(bands_wf(s));
            assert(s.drop_last() =~= Seq::<BandView>::empty());
            assert(count_boxes(s) == 1) by {
                reveal_with_fuel(count_boxes, 2);
            }
            assert forall|q: (int, int)| bands_px(s).contains(q) == rect.px().contains(q) by {
                if row_in(s, 0, q.1) {
                    lemma_row_at(s, 0, q.1);
                    assert(s[0].spans[0].x0 <= q.0 || !(rect.x0() <= q.0));
                } else {
                    lemma_row_none(s, q.1);
                }
            }
            assert(bands_px(s) =~= rect.px());
        }
        Region { bands }
    }

    /// Whether the region has no pixel.
    pub fn is_empty(&self) -> (r: bool)
        ensures
            r == (self@ == Set::<(int, int)>::empty()),
    {
        proof {
            use_type_invariant(self);
            lemma_empty_bands(seen_all(self.bands@));
        }
        self.bands.len() == 0
    }

    /// The number of boxes.
    pub fn rect_count(&self) -> (n: usize)
        ensures
            n == boxes(self@).len(),
            n <= MAX_RECTS,
    {
        proof {
            use_type_invariant(self);
            lemma_boxes_of_form(seen_all(self.bands@));
        }
        count_bands(&self.bands)
    }

    /// The boxes, top to bottom and left to right.
    pub fn rects(&self) -> (r: Vec<Rect2D>)
        ensures
            r@ == boxes(self@),
            r@.len() <= MAX_RECTS,
            partitions(r@, self@),
            !over_cap(self@),
    {
        proof {
            use_type_invariant(self);
            lemma_boxes_of_form(seen_all(self.bands@));
        }
        let ghost s = seen_all(self.bands@);
        let mut out: Vec<Rect2D> = Vec::new();
        let mut i: usize = 0;
        assert(s.take(0) =~= Seq::<BandView>::empty());
        while i < self.bands.len()
            invariant
                i <= self.bands.len(),
                s == seen_all(self.bands@),
                bands_wf(s),
                out@ == bands_boxes(s.take(i as int)),
            decreases self.bands.len() - i,
        {
            assert(band_wf(s[i as int]));
            let band = &self.bands[i];
            let ghost head = out@;
            let mut j: usize = 0;
            while j < band.spans.len()
                invariant
                    j <= band.spans.len(),
                    band.seen() == s[i as int],
                    band_wf(s[i as int]),
                    out@ == head + band_boxes(s[i as int]).take(j as int),
                decreases band.spans.len() - j,
            {
                let sp = band.spans[j];
                assert(s[i as int].spans[j as int].x0 < s[i as int].spans[j as int].x1);
                out.push(rect_from_corners(sp.x0, band.y0, sp.x1, band.y1));
                assert(out@ =~= head + band_boxes(s[i as int]).take(j + 1));
                j = j + 1;
            }
            proof {
                assert(band_boxes(s[i as int]).take(j as int) =~= band_boxes(s[i as int]));
                assert(s.take(i + 1).drop_last() =~= s.take(i as int));
            }
            i = i + 1;
        }
        assert(s.take(i as int) =~= s);
        out
    }

    /// The number of pixels.
    pub fn area(&self) -> (a: u64)
        ensures
            a == area_of(boxes(self@)),
    {
        proof {
            use_type_invariant(self);
            lemma_boxes_of_form(seen_all(self.bands@));
            lemma_area_fits(seen_all(self.bands@));
        }
        let b = self.rects();
        let mut a: u128 = 0;
        let mut i: usize = 0;
        assert(b@.take(0) =~= Seq::<Rect2D>::empty());
        while i < b.len()
            invariant
                i <= b.len(),
                b@.len() <= MAX_RECTS,
                a == area_of(b@.take(i as int)),
                a <= i * 0xffff_ffff_ffff_ffff,
            decreases b.len() - i,
        {
            let w = b[i].extent.width as u128;
            let h = b[i].extent.height as u128;
            assert(w * h <= 0xffff_ffff_ffff_ffff) by (nonlinear_arith)
                requires
                    w <= 0xffff_ffff,
                    h <= 0xffff_ffff,
            ;
            assert(b@.take(i + 1).drop_last() =~= b@.take(i as int));
            a = a + w * h;
            i = i + 1;
        }
        assert(b@.take(i as int) =~= b@);
        a as u64
    }

    /// The smallest rectangle around the pixels, `None` without pixels.
    pub fn bounding_rect(&self) -> (r: Option<Rect2D>)
        ensures
            r is None <==> self@ == Set::<(int, int)>::empty(),
            r matches Some(b) ==> b == bbox_rect(self@) && tight(b) && b.px() == bbox_px(self@),
    {
        proof {
            use_type_invariant(self);
            lemma_empty_bands(seen_all(self.bands@));
        }
        if self.bands.len() == 0 {
            None
        } else {
            Some(bounds(&self.bands))
        }
    }

    /// Combines two regions; `.1` says whether the result was collapsed.
    fn combined(&self, other: &Region, op: SetOp) -> (r: (Region, bool))
        ensures
            r.0@ == capped(op_px(op, self@, other@)),
            r.1 == over_cap(op_px(op, self@, other@)),
    {
        proof {
            use_type_invariant(self);
            use_type_invariant(other);
        }
        let bands = combine_bands(&self.bands, &other.bands, op);
        assert(bands_px(seen_all(bands@)) =~= op_px(op, self@, other@));
        Region::from_bands(bands)
    }

    /// Adds `other`; says whether the result was collapsed.
    pub fn union_with_reporting(&mut self, other: &Region) -> (collapsed: bool)
        ensures
            final(self)@ == capped(old(self)@.union(other@)),
            collapsed == over_cap(old(self)@.union(other@)),
    {
        let r = self.combined(other, SetOp::Union);
        assert(op_px(SetOp::Union, self@, other@) =~= self@.union(other@));
        *self = r.0;
        r.1
    }

    /// Adds `other`.
    pub fn union_with(&mut self, other: &Region)
        ensures
            final(self)@ == capped(old(self)@.union(other@)),
    {
        self.union_with_reporting(other);
    }

    /// Adds one rectangle.
    pub fn add_rect(&mut self, rect: Rect2D)
        ensures
            final(self)@ == capped(old(self)@.union(rect.px())),
    {
        let other = Region::from_rect(rect);
        self.union_with(&other);
    }

    /// Removes `other`; says whether the result was collapsed.
    pub fn subtract_reporting(&mut self, other: &Region) -> (collapsed: bool)
        ensures
            final(self)@ == capped(old(self)@.difference(other@)),
            collapsed == over_cap(old(self)@.difference(other@)),
    {
        let r = self.combined(other, SetOp::Subtract);
        assert(op_px(SetOp::Subtract, self@, other@) =~= self@.difference(other@));
        *self = r.0;
        r.1
    }

    /// Removes `other`.
    pub fn subtract(&mut self, other: &Region)
        ensures
            final(self)@ == capped(old(self)@.difference(other@)),
    {
        self.subtract_reporting(other);
    }

    /// Keeps what `other` also has.
    pub fn intersect_with(&mut self, other: &Region)
        ensures
            final(self)@ == capped(old(self)@.intersect(other@)),
    {
        let r = self.combined(other, SetOp::Intersect);
        assert(op_px(SetOp::Intersect, self@, other@) =~= self@.intersect(other@));
        *self = r.0;
    }

    /// The pixels that lie in `rect`. Never collapses.
    pub fn clip_to_rect(&self, rect: Rect2D) -> (r: Region)
        ensures
            r@ == self@.intersect(rect.px()),
    {
        proof {
            use_type_invariant(self);
        }
        let bands = clip_bands(&self.bands, rect);
        assert(bands_px(seen_all(bands@)) =~= self@.intersect(rect.px()));
        Region { bands }
    }

    /// Whether a pixel lies in `rect`.
    pub fn intersects_rect(&self, rect: Rect2D) -> (r: bool)
        ensures
            r == !self@.disjoint(rect.px()),
    {
        let c = self.clip_to_rect(rect);
        let e = c.is_empty();
        proof {
            if e {
                assert forall|q: (int, int)| self@.contains(q) implies !rect.px().contains(q) by {
                    assert(!self@.intersect(rect.px()).contains(q));
                }
            } else if self@.disjoint(rect.px()) {
                assert(c@ =~= Set::<(int, int)>::empty());
            }
        }
        !e
    }

    /// Whether every pixel of `other` is a pixel of this region.
    pub fn contains(&self, other: &Region) -> (r: bool)
        ensures
            r == other@.subset_of(self@),
    {
        proof {
            use_type_invariant(self);
            use_type_invariant(other);
        }
        let bands = combine_bands(&other.bands, &self.bands, SetOp::Subtract);
        proof {
            lemma_empty_bands(seen_all(bands@));
            let left = bands_px(seen_all(bands@));
            assert(left =~= other@.difference(self@));
            if left == Set::<(int, int)>::empty() {
                assert forall|q: (int, int)| other@.contains(q) implies self@.contains(q) by {
                    assert(!left.contains(q));
                }
            } else if other@.subset_of(self@) {
                assert(left =~= Set::<(int, int)>::empty());
            }
        }
        bands.len() == 0
    }

    /// Whether every pixel of `rect` is a pixel of this region.
    pub fn contains_rect(&self, rect: Rect2D) -> (r: bool)
        ensures
            r == rect.px().subset_of(self@),
    {
        let other = Region::from_rect(rect);
        self.contains(&other)
    }

    /// The union of rectangles, added one at a time.
    pub fn from_rects(rects: &[Rect2D]) -> (r: Region)
        ensures
            r@ == rects_px(rects@),
    {
        let mut r = Region::new();
        let mut i: usize = 0;
        assert(rects@.take(0) =~= Seq::<Rect2D>::empty());
        while i < rects.len()
            invariant
                i <= rects.len(),
                r@ == rects_px(rects@.take(i as int)),
            decreases rects.len() - i,
        {
            r.add_rect(rects[i]);
            assert(rects@.take(i + 1).drop_last() =~= rects@.take(i as int));
            i = i + 1;
        }
        assert(rects@.take(i as int) =~= rects@);
        r
    }
}

/// A set operation on pixels.
pub open spec fn op_px(op: SetOp, p: Set<(int, int)>, q: Set<(int, int)>) -> Set<(int, int)> {
    Set::new(|a: (int, int)| op_holds(op, p.contains(a), q.contains(a)))
}

/// The pixels kept when rectangles are added to an empty region one at a time.
pub open spec fn rects_px(rects: Seq<Rect2D>) -> Set<(int, int)>
    decreases rects.len(),
{
    if rects.len() == 0 {
        Set::empty()
    } else {
        capped(rects_px(rects.drop_last()).union(rects.last().px()))
    }
}

impl Clone for Region {
    fn clone(&self) -> (r: Self)
        ensures
            r@ == self@,
    {
        proof {
            use_type_invariant(self);
        }
        let bands = copy_bands(&self.bands);
        Region { bands }
    }
}

impl PartialEq for Region {
    fn eq(&self, other: &Self) -> (r: bool) {
        self.contains(other) && other.contains(self)
    }
}

impl Eq for Region {

}

impl vstd::std_specs::cmp::PartialEqSpecImpl for Region {
    open spec fn obeys_eq_spec() -> bool {
        true
    }

    open spec fn eq_spec(&self, other: &Self) -> bool {
        other@.subset_of(self@) && self@.subset_of(other@)
    }
}

// ── every set of pixels of the plane has a form ────────────────────
/// The pixels a region can have.
pub open spec fn in_plane(x: int, y: int) -> bool {
    i32::MIN <= x < i32::MAX && i32::MIN <= y < i32::MAX
}

proof fn lemma_row_exists(p: Set<(int, int)>, y: int, n: int) -> (s: Seq<Span>)
    requires
        i32::MIN <= n <= i32::MAX,
    ensures
        spans_wf(s),
        forall|i: int| 0 <= i < s.len() ==> (#[trigger] s[i]).x1 <= n,
        forall|x: int| #[trigger]
            spans_cover(s, x) == (p.contains((x, y)) && i32::MIN <= x < n),
    decreases n - i32::MIN,
{
    if n == i32::MIN {
        Seq::empty()
    } else {
        let t = lemma_row_exists(p, y, n - 1);
        if !p.contains((n - 1, y)) {
            assert forall|x: int| #[trigger] spans_cover(t, x) == (p.contains((x, y)) && i32::MIN
                <= x < n) by {
                if x == n - 1 {
                    assert(!spans_cover(t, x));
                }
            }
            t
        } else if t.len() > 0 && t.last().x1 == n - 1 {
            let m = t.len() - 1;
            let s = t.update(m, Span { x0: t[m].x0, x1: n as i32 });
            assert forall|x: int| #[trigger] spans_cover(s, x) == (p.contains((x, y)) && i32::MIN
                <= x < n) by {
                if spans_cover(t, x) {
                    let i = choose|i: int|
                        0 <= i < t.len() && (#[trigger] t[i]).x0 <= x && x < t[i].x1;
                    assert(s[i].x0 <= x && x < s[i].x1);
                }
                if x == n - 1 {
                    assert(s[m].x0 <= x && x < s[m].x1);
                }
                if spans_cover(s, x) {
                    let i = choose|i: int|
                        0 <= i < s.len() && (#[trigger] s[i]).x0 <= x && x < s[i].x1;
                    assert(t[i].x0 <= x);
                    if x < n - 1 {
                        assert(x < t[i].x1);
                        assert(spans_cover(t, x));
                    }
                }
            }
            s
        } else {
            let s = t.push(Span { x0: (n - 1) as i32, x1: n as i32 });
            let m = t.len() as int;
            assert forall|i: int, j: int| 0 <= i < j < s.len() implies (#[trigger] s[i]).x1 < (
            #[trigger] s[j]).x0 by {
                if j == m {
                    assert(t[i].x1 <= n - 1);
                    if i < m - 1 {
                        assert(t[i].x1 < t[m - 1].x0);
                        assert(t[m - 1].x0 < t[m - 1].x1);
                    }
                }
            }
            assert forall|x: int| #[trigger] spans_cover(s, x) == (p.contains((x, y)) && i32::MIN
                <= x < n) by {
                if spans_cover(t, x) {
                    let i = choose|i: int|
                        0 <= i < t.len() && (#[trigger] t[i]).x0 <= x && x < t[i].x1;
                    assert(s[i].x0 <= x && x < s[i].x1);
                }
                if x == n - 1 {
                    assert(s[m].x0 <= x && x < s[m].x1);
                }
                if spans_cover(s, x) {
                    let i = choose|i: int|
                        0 <= i < s.len() && (#[trigger] s[i]).x0 <= x && x < s[i].x1;
                    if i < m {
                        assert(t[i].x0 <= x);
                        assert(spans_cover(t, x));
                    }
                }
            }
            s
        }
    }
}

proof fn lemma_bands_exist(p: Set<(int, int)>, m: int) -> (b: Seq<BandView>)
    requires
        i32::MIN <= m <= i32::MAX,
    ensures
        bands_wf(b),
        forall|i: int| 0 <= i < b.len() ==> (#[trigger] b[i]).y1 <= m,
        forall|y: int, x: int| #[trigger]
            spans_cover(row(b, y), x) == (p.contains((x, y)) && i32::MIN <= x < i32::MAX && i32::MIN
                <= y < m),
    decreases m - i32::MIN,
{
    if m == i32::MIN {
        let b = Seq::<BandView>::empty();
        assert forall|y: int, x: int| !(#[trigger] spans_cover(row(b, y), x)) by {
            lemma_row_none(b, y);
        }
        b
    } else {
        let t = lemma_bands_exist(p, m - 1);
        let s = lemma_row_exists(p, m - 1, i32::MAX as int);
        let k = t.len() - 1;
        let b = if s.len() == 0 {
            t
        } else if t.len() > 0 && t.last().y1 == m - 1 && t.last().spans == s {
            t.update(k, BandView { y1: m, ..t[k] })
        } else {
            t.push(BandView { y0: m - 1, y1: m, spans: s })
        };
        if t.len() > 0 {
            assert(band_wf(t[k]));
        }
        if s.len() > 0 && !(t.len() > 0 && t.last().y1 == m - 1 && t.last().spans == s) {
            assert forall|i: int| 0 <= i < b.len() implies band_wf(#[trigger] b[i]) by {
                if i <= k {
                    assert(b[i] == t[i]);
                }
            }
            assert forall|i: int, j: int| 0 <= i < j < b.len() implies (#[trigger] b[i]).y1 <= (
            #[trigger] b[j]).y0 by {
                if j <= k {
                    assert(b[i] == t[i] && b[j] == t[j]);
                } else {
                    assert(t[i].y1 <= m - 1);
                }
            }
            assert forall|i: int, j: int|
                0 <= i < b.len() && j == i + 1 && j < b.len() && (#[trigger] b[i]).y1 == (
                #[trigger] b[j]).y0 implies b[i].spans != b[j].spans by {
                if j <= k {
                    assert(b[i] == t[i] && b[j] == t[j]);
                }
            }
        } else if s.len() > 0 {
            assert forall|i: int| 0 <= i < b.len() implies band_wf(#[trigger] b[i]) by {
                assert(band_wf(t[i]));
            }
            assert forall|i: int, j: int| 0 <= i < j < b.len() implies (#[trigger] b[i]).y1 <= (
            #[trigger] b[j]).y0 by {
                assert(t[i].y1 <= t[j].y0);
            }
            assert forall|i: int, j: int|
                0 <= i < b.len() && j == i + 1 && j < b.len() && (#[trigger] b[i]).y1 == (
                #[trigger] b[j]).y0 implies b[i].spans != b[j].spans by {
                assert(t[i].y1 <= t[j].y0);
                assert(b[i] == t[i]);
                assert(t[i].spans != t[j].spans);
            }
        }
        assert(bands_wf(b));
        assert forall|y: int| #[trigger] row(b, y) == (if y == m - 1 {
            s
        } else {
            row(t, y)
        }) by {
            lemma_next_row(t, b, s, m, y);
        }
        assert forall|y: int, x: int| #[trigger] spans_cover(row(b, y), x) == (p.contains((x, y))
            && i32::MIN <= x < i32::MAX && i32::MIN <= y < m) by {
            if y == m - 1 {
                assert(spans_cover(s, x) == (p.contains((x, y)) && i32::MIN <= x < i32::MAX));
            } else {
                assert(spans_cover(row(t, y), x) == (p.contains((x, y)) && i32::MIN <= x
                    < i32::MAX && i32::MIN <= y < m - 1));
            }
        }
        b
    }
}

proof fn lemma_next_row(t: Seq<BandView>, b: Seq<BandView>, s: Seq<Span>, m: int, y: int)
    requires
        bands_wf(t),
        bands_wf(b),
        forall|i: int| 0 <= i < t.len() ==> (#[trigger] t[i]).y1 <= m - 1,
        b == (if s.len() == 0 {
            t
        } else if t.len() > 0 && t.last().y1 == m - 1 && t.last().spans == s {
            t.update(t.len() - 1, BandView { y1: m, ..t[t.len() - 1] })
        } else {
            t.push(BandView { y0: m - 1, y1: m, spans: s })
        }),
    ensures
        row(b, y) == (if y == m - 1 { s } else { row(t, y) }),
{
    let k = t.len() - 1;
    if t.len() > 0 {
        assert(band_wf(t[k]));
    }
    if y == m - 1 {
        if s.len() == 0 {
            lemma_row_none(t, y);
            assert(s =~= Seq::<Span>::empty());
        } else {
            let last = b.len() - 1;
            assert(row_in(b, last, y));
            lemma_row_at(b, last, y);
        }
    } else if exists|i: int| row_in(t, i, y) {
        let i = choose|i: int| row_in(t, i, y);
        assert(row_in(t, i, y));
        assert(row_in(b, i, y));
        lemma_row_at(t, i, y);
        lemma_row_at(b, i, y);
    } else {
        assert forall|i: int| 0 <= i < b.len() implies !((#[trigger] b[i]).y0 <= y && y < b[i].y1) by {
            if i < t.len() {
                assert(!row_in(t, i, y));
            }
        }
        lemma_row_none(b, y);
        assert forall|i: int| 0 <= i < t.len() implies !((#[trigger] t[i]).y0 <= y && y < t[i].y1) by {
            assert(!row_in(t, i, y));
        }
        lemma_row_none(t, y);
    }
}

/// The boxes of any set of pixels of the plane cut it into disjoint, non-empty
/// parts.
pub proof fn lemma_boxes_partition_pixels(p: Set<(int, int)>)
    requires
        forall|x: int, y: int| #[trigger] p.contains((x, y)) ==> in_plane(x, y),
    ensures
        partitions(boxes(p), p),
{
    let b = lemma_bands_exist(p, i32::MAX as int);
    assert forall|q: (int, int)| bands_px(b).contains(q) == p.contains(q) by {
        assert(bands_px(b).contains(q) == spans_cover(row(b, q.1), q.0));
        assert(p.contains((q.0, q.1)) ==> in_plane(q.0, q.1));
    }
    assert(bands_px(b) =~= p);
    lemma_boxes_of_form(b);
}

proof fn lemma_bands_boxes_fit(b: Seq<BandView>)
    requires
        bands_wf(b),
        forall|i: int| 0 <= i < b.len() ==> (#[trigger] b[i]).y1 <= i32::MAX,
    ensures
        forall|i: int|
            0 <= i < bands_boxes(b).len() ==> (#[trigger] bands_boxes(b)[i]).offset.x
                + bands_boxes(b)[i].extent.width <= i32::MAX && bands_boxes(b)[i].offset.y
                + bands_boxes(b)[i].extent.height <= i32::MAX,
    decreases b.len(),
{
    if b.len() > 0 {
        let t = b.drop_last();
        assert(bands_wf(t)) by {
            assert forall|i: int| 0 <= i < t.len() implies #[trigger] t[i] == b[i] by {}
        }
        assert forall|i: int| 0 <= i < t.len() implies (#[trigger] t[i]).y1 <= i32::MAX by {
            assert(t[i] == b[i]);
        }
        lemma_bands_boxes_fit(t);
        let all = bands_boxes(b);
        let head = bands_boxes(t);
        let last = b[b.len() - 1];
        assert(band_wf(last));
        assert forall|i: int| 0 <= i < all.len() implies (#[trigger] all[i]).offset.x
            + all[i].extent.width <= i32::MAX && all[i].offset.y + all[i].extent.height
            <= i32::MAX by {
            if i < head.len() {
                assert(all[i] == head[i]);
            } else {
                let k = i - head.len();
                assert(all[i] == band_boxes(last)[k]);
                assert(last.spans[k].x0 < last.spans[k].x1);
            }
        }
    }
}

/// No box of a set of pixels of the plane reaches beyond the plane.
pub proof fn lemma_boxes_fit(p: Set<(int, int)>)
    requires
        forall|x: int, y: int| #[trigger] p.contains((x, y)) ==> in_plane(x, y),
    ensures
        forall|i: int|
            0 <= i < boxes(p).len() ==> (#[trigger] boxes(p)[i]).offset.x
                + boxes(p)[i].extent.width <= i32::MAX && boxes(p)[i].offset.y
                + boxes(p)[i].extent.height <= i32::MAX,
{
    let b = lemma_bands_exist(p, i32::MAX as int);
    assert forall|q: (int, int)| bands_px(b).contains(q) == p.contains(q) by {
        assert(bands_px(b).contains(q) == spans_cover(row(b, q.1), q.0));
        assert(p.contains((q.0, q.1)) ==> in_plane(q.0, q.1));
    }
    assert(bands_px(b) =~= p);
    lemma_boxes_of_form(b);
    lemma_bands_boxes_fit(b);
}

} // verus!
