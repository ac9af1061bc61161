//! Clipping to visibility changes what is drawn, never what is shown.
//!
//! At every pixel of the output the scene with visibility on shows the same
//! stack of samples as the scene with visibility off: the draws over the pixel
//! from the top down to the first opaque one.

use vstd::prelude::*;

use crate::draw::CompositeDraw;
use crate::emit::{
    drawn_rects, emitted_sink, empty_sink, quad_of, quads, reversed_sink, visible_pieces,
    NodePaint, SinkView,
};
use crate::geometry::{intersection, max_int, min_int, output_rect, Extent2D, Rect2D};
use crate::region::{boxes, in_plane, lemma_boxes_partition_pixels, lemma_capped, partitions};
use crate::scene_build::{
    build_of, built, root_emitted, root_of, suppresses_overlay, top_levels_visited, walked,
    whole_universe, with_cursor, BuildView, CursorInput,
};
use crate::store::StoreView;
use crate::visit::{
    claim_opaque, claim_taken, finish_node, mine_of, paint_of, visited, visited_children,
};
use crate::walk::{
    clip_ok, decision, layout_ok, no_clip, own_rects, placed_rect, placed_rects, sat_add,
    touches_output, whole_window, ClipBox, DecisionView, Visibility, WalkInput, WalkStats,
};
use crate::windows::{children_of, OutputLayout, RegionRect, WindowGeometry};

verus! {

// ── what a draw list shows at a pixel ───────────────────────────────
/// One sample: the view and the coordinates in it, each over what it is divided
/// by, and whether it blends.
pub struct Sample {
    pub view: u64,
    pub u: int,
    pub v: int,
    pub of_width: int,
    pub of_height: int,
    pub blends: bool,
}

/// What a draw samples for pixel `q`; with `full` unset, without what the
/// coordinates are divided by.
pub open spec fn sample_of(d: CompositeDraw, q: (int, int), full: bool) -> Sample {
    Sample {
        view: d.image_view,
        u: d.source.x + (q.0 - d.dst.x0()),
        v: d.source.y + (q.1 - d.dst.y0()),
        of_width: if full { d.source.of_width as int } else { 0 },
        of_height: if full { d.source.of_height as int } else { 0 },
        blends: d.alpha_passthrough,
    }
}

/// What a draw samples for pixel `q`.
pub open spec fn sample_at(d: CompositeDraw, q: (int, int)) -> Sample {
    sample_of(d, q, true)
}

/// What a draw list in painter's order shows at pixel `q`: the samples over it
/// from the top down to the first that does not blend.
pub open spec fn shown(draws: Seq<CompositeDraw>, q: (int, int)) -> Seq<Sample> {
    shown_of(draws, q, true)
}

/// The same with samples that are full or not.
pub open spec fn shown_of(draws: Seq<CompositeDraw>, q: (int, int), full: bool) -> Seq<Sample>
    decreases draws.len(),
{
    if draws.len() == 0 {
        Seq::empty()
    } else {
        let d = draws.last();
        if !d.dst.has(q.0, q.1) {
            shown_of(draws.drop_last(), q, full)
        } else if !d.alpha_passthrough {
            seq![sample_of(d, q, full)]
        } else {
            seq![sample_of(d, q, full)] + shown_of(draws.drop_last(), q, full)
        }
    }
}

/// The same of a list in computation order, topmost first.
spec fn look(draws: Seq<CompositeDraw>, q: (int, int), full: bool) -> Seq<Sample>
    decreases draws.len(),
{
    if draws.len() == 0 {
        Seq::empty()
    } else {
        let d = draws[0];
        if !d.dst.has(q.0, q.1) {
            look(draws.drop_first(), q, full)
        } else if !d.alpha_passthrough {
            seq![sample_of(d, q, full)]
        } else {
            seq![sample_of(d, q, full)] + look(draws.drop_first(), q, full)
        }
    }
}

/// Whether a draw of the list hides everything below it at pixel `q`.
spec fn closed_at(draws: Seq<CompositeDraw>, q: (int, int)) -> bool {
    exists|i: int|
        0 <= i < draws.len() && !(#[trigger] draws[i]).alpha_passthrough && draws[i].dst.has(
            q.0,
            q.1,
        )
}

proof fn lemma_reverse(draws: Seq<CompositeDraw>, q: (int, int), full: bool)
    ensures
        shown_of(draws.reverse(), q, full) == look(draws, q, full),
    decreases draws.len(),
{
    if draws.len() > 0 {
        let r = draws.reverse();
        assert(r.drop_last() =~= draws.drop_first().reverse());
        assert(r.last() == draws[0]);
        lemma_reverse(draws.drop_first(), q, full);
    }
}

proof fn lemma_look_append(
    a: Seq<CompositeDraw>,
    b: Seq<CompositeDraw>,
    q: (int, int),
    full: bool,
)
    ensures
        look(a + b, q, full) == (if closed_at(a, q) {
            look(a, q, full)
        } else {
            look(a, q, full) + look(b, q, full)
        }),
        closed_at(a + b, q) == (closed_at(a, q) || closed_at(b, q)),
    decreases a.len(),
{
    let c = a + b;
    assert(closed_at(c, q) == (closed_at(a, q) || closed_at(b, q))) by {
        if closed_at(a, q) {
            let i = choose|i: int|
                0 <= i < a.len() && !(#[trigger] a[i]).alpha_passthrough && a[i].dst.has(q.0, q.1);
            assert(c[i] == a[i]);
        }
        if closed_at(b, q) {
            let i = choose|i: int|
                0 <= i < b.len() && !(#[trigger] b[i]).alpha_passthrough && b[i].dst.has(q.0, q.1);
            assert(c[i + a.len()] == b[i]);
        }
        if closed_at(c, q) {
            let i = choose|i: int|
                0 <= i < c.len() && !(#[trigger] c[i]).alpha_passthrough && c[i].dst.has(q.0, q.1);
            if i < a.len() {
                assert(a[i] == c[i]);
            } else {
                assert(b[i - a.len()] == c[i]);
            }
        }
    }
    if a.len() == 0 {
        assert(c =~= b);
        assert(look(a, q, full) + look(b, q, full) =~= look(b, q, full));
    } else {
        let t = a.drop_first();
        assert(c.drop_first() =~= t + b);
        lemma_look_append(t, b, q, full);
        lemma_closed_first(a, q);
        let d = a[0];
        if d.dst.has(q.0, q.1) && d.alpha_passthrough {
            let h = seq![sample_of(d, q, full)];
            assert(h + (look(t, q, full) + look(b, q, full)) =~= (h + look(t, q, full)) + look(
                b,
                q,
                full,
            ));
        }
    }
}

proof fn lemma_closed_first(a: Seq<CompositeDraw>, q: (int, int))
    requires
        a.len() > 0,
    ensures
        closed_at(a, q) == ((!a[0].alpha_passthrough && a[0].dst.has(q.0, q.1)) || closed_at(
            a.drop_first(),
            q,
        )),
{
    let t = a.drop_first();
    if closed_at(a, q) {
        let i = choose|i: int|
            0 <= i < a.len() && !(#[trigger] a[i]).alpha_passthrough && a[i].dst.has(q.0, q.1);
        if i > 0 {
            assert(t[i - 1] == a[i]);
        }
    }
    if closed_at(t, q) {
        let i = choose|i: int|
            0 <= i < t.len() && !(#[trigger] t[i]).alpha_passthrough && t[i].dst.has(q.0, q.1);
        assert(a[i + 1] == t[i]);
    }
}

// ── counting rects over a pixel ─────────────────────────────────────
spec fn count_in(rects: Seq<Rect2D>, q: (int, int)) -> nat
    decreases rects.len(),
{
    if rects.len() == 0 {
        0
    } else {
        (if rects[0].has(q.0, q.1) { 1nat } else { 0nat }) + count_in(rects.drop_first(), q)
    }
}

proof fn lemma_count_append(a: Seq<Rect2D>, b: Seq<Rect2D>, q: (int, int))
    ensures
        count_in(a + b, q) == count_in(a, q) + count_in(b, q),
    decreases a.len(),
{
    if a.len() == 0 {
        assert(a + b =~= b);
    } else {
        assert((a + b).drop_first() =~= a.drop_first() + b);
        lemma_count_append(a.drop_first(), b, q);
    }
}

proof fn lemma_count_one(r: Rect2D, q: (int, int))
    ensures
        count_in(seq![r], q) == (if r.has(q.0, q.1) { 1nat } else { 0nat }),
{
    assert(seq![r].drop_first() =~= Seq::<Rect2D>::empty());
    assert(count_in(Seq::<Rect2D>::empty(), q) == 0);
}

proof fn lemma_count_push(a: Seq<Rect2D>, r: Rect2D, q: (int, int))
    ensures
        count_in(a.push(r), q) == count_in(a, q) + (if r.has(q.0, q.1) { 1nat } else { 0nat }),
{
    assert(a.push(r) =~= a + seq![r]);
    lemma_count_append(a, seq![r], q);
    lemma_count_one(r, q);
}

proof fn lemma_count_reverse(a: Seq<Rect2D>, q: (int, int))
    ensures
        count_in(a.reverse(), q) == count_in(a, q),
    decreases a.len(),
{
    if a.len() > 0 {
        assert(a.reverse() =~= a.drop_first().reverse() + seq![a[0]]);
        lemma_count_append(a.drop_first().reverse(), seq![a[0]], q);
        lemma_count_reverse(a.drop_first(), q);
        lemma_count_one(a[0], q);
    } else {
        assert(a.reverse() =~= a);
    }
}

proof fn lemma_count_zero(a: Seq<Rect2D>, q: (int, int))
    requires
        forall|i: int| 0 <= i < a.len() ==> !(#[trigger] a[i]).has(q.0, q.1),
    ensures
        count_in(a, q) == 0,
    decreases a.len(),
{
    if a.len() > 0 {
        let t = a.drop_first();
        assert forall|i: int| 0 <= i < t.len() implies !(#[trigger] t[i]).has(q.0, q.1) by {
            assert(!a[i + 1].has(q.0, q.1));
        }
        lemma_count_zero(t, q);
        assert(!a[0].has(q.0, q.1));
    }
}

proof fn lemma_count_unique(a: Seq<Rect2D>, k: int, q: (int, int))
    requires
        0 <= k < a.len(),
        a[k].has(q.0, q.1),
        forall|i: int| 0 <= i < a.len() && i != k ==> !(#[trigger] a[i]).has(q.0, q.1),
    ensures
        count_in(a, q) == 1,
    decreases a.len(),
{
    let t = a.drop_first();
    if k == 0 {
        assert forall|i: int| 0 <= i < t.len() implies !(#[trigger] t[i]).has(q.0, q.1) by {
            assert(!a[i + 1].has(q.0, q.1));
        }
        lemma_count_zero(t, q);
    } else {
        assert(!a[0].has(q.0, q.1));
        assert forall|i: int| 0 <= i < t.len() && i != k - 1 implies !(#[trigger] t[i]).has(
            q.0,
            q.1,
        ) by {
            assert(!a[i + 1].has(q.0, q.1));
        }
        assert(t[k - 1] == a[k]);
        lemma_count_unique(t, k - 1, q);
    }
}

proof fn lemma_count_positive(a: Seq<Rect2D>, q: (int, int))
    ensures
        count_in(a, q) > 0 <==> exists|i: int| 0 <= i < a.len() && (#[trigger] a[i]).has(q.0, q.1),
    decreases a.len(),
{
    if a.len() > 0 {
        let t = a.drop_first();
        lemma_count_positive(t, q);
        if count_in(t, q) > 0 {
            let i = choose|i: int| 0 <= i < t.len() && (#[trigger] t[i]).has(q.0, q.1);
            assert(a[i + 1].has(q.0, q.1));
        }
        if exists|i: int| 0 <= i < a.len() && (#[trigger] a[i]).has(q.0, q.1) {
            let i = choose|i: int| 0 <= i < a.len() && (#[trigger] a[i]).has(q.0, q.1);
            if i > 0 {
                assert(t[i - 1].has(q.0, q.1));
            }
        }
        if a[0].has(q.0, q.1) {
            assert(a[0].has(q.0, q.1));
        }
    }
}

proof fn lemma_count_partition(b: Seq<Rect2D>, p: Set<(int, int)>, q: (int, int))
    requires
        partitions(b, p),
    ensures
        count_in(b, q) == (if p.contains(q) { 1nat } else { 0nat }),
{
    if p.contains(q) {
        assert(p.contains((q.0, q.1)));
        let k = choose|k: int| 0 <= k < b.len() && #[trigger] b[k].has(q.0, q.1);
        assert forall|i: int| 0 <= i < b.len() && i != k implies !(#[trigger] b[i]).has(
            q.0,
            q.1,
        ) by {
            if i < k {
                if b[i].has(q.0, q.1) {
                    assert(!b[k].has(q.0, q.1));
                }
            }
        }
        lemma_count_unique(b, k, q);
    } else {
        assert forall|i: int| 0 <= i < b.len() implies !(#[trigger] b[i]).has(q.0, q.1) by {
            if b[i].has(q.0, q.1) {
                assert(p.contains((q.0, q.1)));
            }
        }
        lemma_count_zero(b, q);
    }
}

proof fn lemma_count_pieces(mine: Set<(int, int)>, place: Seq<Rect2D>, q: (int, int))
    ensures
        count_in(visible_pieces(mine, place), q) == (if mine.contains(q) {
            count_in(place, q)
        } else {
            0nat
        }),
    decreases place.len(),
{
    if place.len() > 0 {
        let r = place.last();
        let p = mine.intersect(r.px());
        assert forall|x: int, y: int| #[trigger] p.contains((x, y)) implies in_plane(x, y) by {
            assert(r.has(x, y));
        }
        lemma_boxes_partition_pixels(p);
        lemma_count_partition(boxes(p), p, q);
        let t = place.drop_last();
        lemma_count_pieces(mine, t, q);
        lemma_count_append(boxes(p), visible_pieces(mine, t), q);
        assert(place =~= t.push(r));
        lemma_count_push(t, r, q);
        assert(p.contains(q) == (mine.contains(q) && r.has(q.0, q.1)));
    }
}

// ── the quads of one node ───────────────────────────────────────────
/// Whether a node's rect is drawn without clamping: its quad covers what it
/// covers near the output and samples the node's own pixels.
pub open spec fn quad_exact(n: NodePaint, r: Rect2D, q: (int, int), full: bool) -> bool {
    &&& (quad_of(n, r).dst.has(q.0, q.1) <==> r.has(q.0, q.1))
    &&& r.has(q.0, q.1) ==> sample_of(quad_of(n, r), q, full) == node_sample(n, q, full)
}

/// What a node samples for pixel `q`.
pub open spec fn node_sample(n: NodePaint, q: (int, int), full: bool) -> Sample {
    Sample {
        view: n.view,
        u: q.0 - n.dx,
        v: q.1 - n.dy,
        of_width: if full { n.denom_w as int } else { 0 },
        of_height: if full { n.denom_h as int } else { 0 },
        blends: n.alpha_passthrough,
    }
}

spec fn copies(s: Sample, k: nat) -> Seq<Sample> {
    Seq::new(k, |i: int| s)
}

proof fn lemma_quads(n: NodePaint, rects: Seq<Rect2D>, q: (int, int), full: bool)
    requires
        forall|i: int| 0 <= i < rects.len() ==> quad_exact(n, #[trigger] rects[i], q, full),
    ensures
        closed_at(quads(n, rects), q) == (!n.alpha_passthrough && count_in(rects, q) > 0),
        look(quads(n, rects), q, full) == (if n.alpha_passthrough {
            copies(node_sample(n, q, full), count_in(rects, q))
        } else if count_in(rects, q) > 0 {
            seq![node_sample(n, q, full)]
        } else {
            Seq::empty()
        }),
    decreases rects.len(),
{
    let d = quads(n, rects);
    let sigma = node_sample(n, q, full);
    if rects.len() == 0 {
        assert(d =~= Seq::<CompositeDraw>::empty());
        assert(copies(sigma, 0) =~= Seq::<Sample>::empty());
    } else {
        let t = rects.drop_first();
        assert(d.drop_first() =~= quads(n, t));
        assert forall|i: int| 0 <= i < t.len() implies quad_exact(n, #[trigger] t[i], q, full) by {
            assert(t[i] == rects[i + 1]);
        }
        lemma_quads(n, t, q, full);
        lemma_closed_first(d, q);
        assert(d[0] == quad_of(n, rects[0]));
        assert(quad_exact(n, rects[0], q, full));
        if rects[0].has(q.0, q.1) {
            if n.alpha_passthrough {
                assert(seq![sigma] + copies(sigma, count_in(t, q)) =~= copies(
                    sigma,
                    count_in(rects, q),
                ));
            }
        }
    }
}

// ── agreement of two sinks at a pixel ───────────────────────────────
spec fn agree(a: SinkView, b: SinkView, q: (int, int), full: bool) -> bool {
    &&& look(a.draws, q, full) == look(b.draws, q, full)
    &&& closed_at(a.draws, q) == closed_at(b.draws, q)
}

/// The same input with visibility on and off.
pub open spec fn same_but_mode(on: WalkInput, off: WalkInput) -> bool {
    on.mode == Visibility::On && off == (WalkInput { mode: Visibility::Off, ..on })
}

/// Whether no window with children has a bounding shape.
pub open spec fn parents_unshaped(input: WalkInput) -> bool {
    forall|x: u32| #[trigger]
        children_of(input.windows, x).len() > 0 ==> !input.shapes.dom().contains(x)
}

/// The extent of what is sampled for an xid.
pub open spec fn sampled_extent(store: StoreView, xid: u32) -> Option<Extent2D> {
    match store.lookup(xid) {
        None => None,
        Some(id) => {
            let source = match store.redirected(id) {
                Some(t) => t,
                None => id,
            };
            match store.get(source) {
                Some(s) => Some(s.storage.extent),
                None => None,
            }
        },
    }
}

/// Whether what is sampled for a window is as large as the window.
pub open spec fn windows_fit(input: WalkInput) -> bool {
    forall|x: u32| #[trigger]
        input.windows.dom().contains(x) ==> (sampled_extent(input.store, x) matches Some(e)
            ==> e.width == input.windows[x].width && e.height == input.windows[x].height)
}

/// Whether what is sampled for the root is as large as the root.
pub open spec fn root_fits(input: WalkInput, window_id: u32) -> bool {
    match input.store.lookup(window_id) {
        Some(id) => match input.store.get(id) {
            Some(d) => sampled_extent(input.store, window_id) matches Some(e) ==> e
                == d.storage.extent,
            None => true,
        },
        None => true,
    }
}

/// Whether a pixel lies on the output.
pub open spec fn on_screen(input: WalkInput, q: (int, int)) -> bool {
    output_rect(input.extent()).has(q.0, q.1)
}

/// Whether a clip has the root-space point under pixel `q`.
pub open spec fn clip_has(c: ClipBox, l: OutputLayout, q: (int, int)) -> bool {
    c.x0 <= q.0 + l.x < c.x1 && c.y0 <= q.1 + l.y < c.y1
}

/// Where a placed rect lies.
pub proof fn lemma_placed(
    abs_x: int,
    abs_y: int,
    geom: WindowGeometry,
    clip: ClipBox,
    layout: OutputLayout,
    r: RegionRect,
)
    requires
        clip_ok(clip),
        layout_ok(layout),
    ensures
        placed_rect(abs_x, abs_y, geom, clip, layout, r) matches Some(p) ==> {
            let x0 = max_int(max_int(r.x as int, 0), clip.x0 - abs_x);
            let y0 = max_int(max_int(r.y as int, 0), clip.y0 - abs_y);
            let x1 = min_int(min_int(r.x + r.width, geom.width as int), clip.x1 - abs_x);
            let y1 = min_int(min_int(r.y + r.height, geom.height as int), clip.y1 - abs_y);
            &&& p.x0() == abs_x + x0 - layout.x
            &&& p.y0() == abs_y + y0 - layout.y
            &&& p.x1() == abs_x + x1 - layout.x
            &&& p.y1() == abs_y + y1 - layout.y
            &&& p.extent.width <= 0xffff
            &&& p.extent.height <= 0xffff
            &&& p.x0() >= abs_x - layout.x
            &&& p.y0() >= abs_y - layout.y
            &&& p.x0() <= abs_x - layout.x + 0xffff
            &&& p.y0() <= abs_y - layout.y + 0xffff
        },
{
}

proof fn lemma_placed_counts(
    on: WalkInput,
    off: WalkInput,
    abs_x: int,
    abs_y: int,
    geom: WindowGeometry,
    clip: ClipBox,
    rects: Seq<RegionRect>,
    q: (int, int),
)
    requires
        same_but_mode(on, off),
        clip_ok(clip),
        layout_ok(on.layout),
        on_screen(on, q),
    ensures
        count_in(placed_rects(abs_x, abs_y, geom, clip, on, rects), q) == count_in(
            placed_rects(abs_x, abs_y, geom, clip, off, rects),
            q,
        ),
        count_in(placed_rects(abs_x, abs_y, geom, clip, on, rects), q) > 0 ==> clip_has(
            clip,
            on.layout,
            q,
        ),
        placed_rects(abs_x, abs_y, geom, clip, on, rects).len() <= rects.len(),
    decreases rects.len(),
{
    if rects.len() > 0 {
        let t = rects.drop_last();
        lemma_placed_counts(on, off, abs_x, abs_y, geom, clip, t, q);
        lemma_placed(abs_x, abs_y, geom, clip, on.layout, rects.last());
        let out = output_rect(on.extent());
        match placed_rect(abs_x, abs_y, geom, clip, on.layout, rects.last()) {
            None => {},
            Some(p) => {
                lemma_count_push(placed_rects(abs_x, abs_y, geom, clip, off, t), p, q);
                match intersection(p, out) {
                    None => {
                        assert(!p.has(q.0, q.1));
                    },
                    Some(c) => {
                        lemma_count_push(placed_rects(abs_x, abs_y, geom, clip, on, t), c, q);
                        assert(c.has(q.0, q.1) == p.has(q.0, q.1));
                    },
                }
            },
        }
    }
}

/// Every placed rect is drawn exactly near the output.
pub proof fn lemma_place_exact(
    input: WalkInput,
    abs_x: int,
    abs_y: int,
    geom: WindowGeometry,
    clip: ClipBox,
    rects: Seq<RegionRect>,
    n: NodePaint,
    q: (int, int),
    full: bool,
)
    requires
        clip_ok(clip),
        layout_ok(input.layout),
        on_screen(input, q),
        n.dx == abs_x - input.layout.x,
        n.dy == abs_y - input.layout.y,
        touches_output(n.dx as int, n.dy as int, geom, input.layout),
    ensures
        ({
            let place = placed_rects(abs_x, abs_y, geom, clip, input, rects);
            forall|i: int| 0 <= i < place.len() ==> quad_exact(n, #[trigger] place[i], q, full)
        }),
    decreases rects.len(),
{
    if rects.len() > 0 {
        let t = rects.drop_last();
        lemma_place_exact(input, abs_x, abs_y, geom, clip, t, n, q, full);
        lemma_placed(abs_x, abs_y, geom, clip, input.layout, rects.last());
        let head = placed_rects(abs_x, abs_y, geom, clip, input, t);
        let place = placed_rects(abs_x, abs_y, geom, clip, input, rects);
        match placed_rect(abs_x, abs_y, geom, clip, input.layout, rects.last()) {
            None => {},
            Some(p) => {
                let c = if input.mode == Visibility::On {
                    intersection(p, output_rect(input.extent()))
                } else {
                    Some(p)
                };
                if c is Some {
                    lemma_quad_exact(n, c->0, q, full);
                    assert(place =~= head.push(c->0));
                }
            },
        }
    }
}

/// A rect near the output is drawn exactly.
pub proof fn lemma_quad_exact(n: NodePaint, r: Rect2D, q: (int, int), full: bool)
    requires
        -0x7000_0000 <= r.x0() <= 0x7000_0000,
        -0x7000_0000 <= r.y0() <= 0x7000_0000,
        -0x7000_0000 <= r.x0() - n.dx <= 0x7000_0000,
        -0x7000_0000 <= r.y0() - n.dy <= 0x7000_0000,
        q.0 <= 0xffff,
        q.1 <= 0xffff,
        r.extent.width <= i32::MAX || r.x0() <= 0x4000_0000,
        r.extent.height <= i32::MAX || r.y0() <= 0x4000_0000,
        r.extent.width > i32::MAX ==> r.x0() >= -0x4000_0000,
        r.extent.height > i32::MAX ==> r.y0() >= -0x4000_0000,
    ensures
        quad_exact(n, r, q, full),
{
}

/// Every piece inside a small rect is drawn exactly.
proof fn lemma_pieces_exact(
    mine: Set<(int, int)>,
    place: Seq<Rect2D>,
    n: NodePaint,
    q: (int, int),
    full: bool,
)
    requires
        forall|i: int|
            0 <= i < place.len() ==> {
                &&& 0 <= (#[trigger] place[i]).x0()
                &&& place[i].x1() <= 0xffff
                &&& 0 <= place[i].y0()
                &&& place[i].y1() <= 0xffff
            },
        -0x6000_0000 <= n.dx <= 0x6000_0000,
        -0x6000_0000 <= n.dy <= 0x6000_0000,
        q.0 <= 0xffff,
        q.1 <= 0xffff,
    ensures
        forall|i: int|
            0 <= i < visible_pieces(mine, place).len() ==> quad_exact(
                n,
                #[trigger] visible_pieces(mine, place)[i],
                q,
                full,
            ),
    decreases place.len(),
{
    if place.len() > 0 {
        let r = place.last();
        let t = place.drop_last();
        let p = mine.intersect(r.px());
        assert forall|x: int, y: int| #[trigger] p.contains((x, y)) implies in_plane(x, y) by {
            assert(r.has(x, y));
        }
        lemma_boxes_partition_pixels(p);
        assert forall|i: int| 0 <= i < t.len() implies {
            &&& 0 <= (#[trigger] t[i]).x0()
            &&& t[i].x1() <= 0xffff
            &&& 0 <= t[i].y0()
            &&& t[i].y1() <= 0xffff
        } by {
            assert(t[i] == place[i]);
        }
        lemma_pieces_exact(mine, t, n, q, full);
        let b = boxes(p);
        let v = visible_pieces(mine, place);
        assert(place[place.len() - 1] == r);
        assert forall|i: int| 0 <= i < v.len() implies quad_exact(n, #[trigger] v[i], q, full) by {
            if i < b.len() {
                assert(v[i] == b[i]);
                assert(b[i].non_empty());
                assert(b[i].has(b[i].x0(), b[i].y0()));
                assert(p.contains((b[i].x0(), b[i].y0())));
                assert(b[i].has(b[i].x1() - 1, b[i].y1() - 1));
                assert(p.contains((b[i].x1() - 1, b[i].y1() - 1)));
                assert(r.has(b[i].x0(), b[i].y0()));
                assert(r.has(b[i].x1() - 1, b[i].y1() - 1));
                lemma_quad_exact(n, b[i], q, full);
            } else {
                assert(v[i] == visible_pieces(mine, t)[i - b.len()]);
            }
        }
    }
}

proof fn lemma_emit_draws(
    s: SinkView,
    input: WalkInput,
    mine: Set<(int, int)>,
    place: Seq<Rect2D>,
    n: NodePaint,
)
    ensures
        emitted_sink(
            s,
            input.mode,
            mine,
            place,
            n,
            input.store,
            input.extent(),
            input.elsewhere,
        ).draws == s.draws + quads(n, drawn_rects(input.mode, mine, place)),
{
}

/// Emitting one node with visibility on and off keeps the sinks in agreement,
/// as long as what is not visible of it is already hidden.
proof fn lemma_emit_agrees(
    on: WalkInput,
    off: WalkInput,
    s: SinkView,
    t: SinkView,
    mine: Set<(int, int)>,
    unused: Set<(int, int)>,
    place_on: Seq<Rect2D>,
    place_off: Seq<Rect2D>,
    n_on: NodePaint,
    n_off: NodePaint,
    q: (int, int),
    full: bool,
)
    requires
        same_but_mode(on, off),
        agree(s, t, q, full),
        node_sample(n_on, q, full) == node_sample(n_off, q, full),
        count_in(place_on, q) == count_in(place_off, q),
        forall|i: int| 0 <= i < place_off.len() ==> quad_exact(
            n_off,
            #[trigger] place_off[i],
            q,
            full,
        ),
        forall|i: int|
            0 <= i < visible_pieces(mine, place_on).len() ==> quad_exact(
                n_on,
                #[trigger] visible_pieces(mine, place_on)[i],
                q,
                full,
            ),
        count_in(place_on, q) > 0 && !mine.contains(q) ==> closed_at(s.draws, q),
    ensures
        ({
            let a = emitted_sink(
                s,
                on.mode,
                mine,
                place_on,
                n_on,
                on.store,
                on.extent(),
                on.elsewhere,
            );
            let b = emitted_sink(
                t,
                off.mode,
                unused,
                place_off,
                n_off,
                off.store,
                off.extent(),
                off.elsewhere,
            );
            &&& agree(a, b, q, full)
            &&& closed_at(s.draws, q) ==> closed_at(a.draws, q)
            &&& count_in(place_on, q) > 0 && !n_on.alpha_passthrough ==> closed_at(a.draws, q)
        }),
{
    let pieces = visible_pieces(mine, place_on);
    let rev = place_off.reverse();
    lemma_emit_draws(s, on, mine, place_on, n_on);
    lemma_emit_draws(t, off, unused, place_off, n_off);
    assert forall|i: int| 0 <= i < rev.len() implies quad_exact(
        n_off,
        #[trigger] rev[i],
        q,
        full,
    ) by {
        assert(rev[i] == place_off[place_off.len() - 1 - i]);
    }
    lemma_quads(n_on, pieces, q, full);
    lemma_quads(n_off, rev, q, full);
    lemma_count_reverse(place_off, q);
    lemma_count_pieces(mine, place_on, q);
    lemma_look_append(s.draws, quads(n_on, pieces), q, full);
    lemma_look_append(t.draws, quads(n_off, rev), q, full);
    if !closed_at(s.draws, q) {
        assert(n_on.alpha_passthrough == n_off.alpha_passthrough);
    }
}

// ── claims ──────────────────────────────────────────────────────────
proof fn lemma_claim_opaque(
    u: Set<(int, int)>,
    place: Seq<Rect2D>,
    stats: WalkStats,
    q: (int, int),
)
    requires
        !claim_opaque(u, place, stats).0.contains(q),
    ensures
        !u.contains(q) || count_in(place, q) > 0,
    decreases place.len(),
{
    if place.len() > 0 {
        let t = place.drop_last();
        let r = place.last();
        let v = claim_opaque(u, t, stats).0;
        assert(place =~= t.push(r));
        lemma_count_push(t, r, q);
        lemma_capped(v.difference(r.px()));
        if !v.contains(q) {
            lemma_claim_opaque(u, t, stats, q);
        } else {
            assert(!v.difference(r.px()).contains(q));
        }
    }
}

proof fn lemma_claim_taken(
    u: Set<(int, int)>,
    place: Seq<Rect2D>,
    mine: Set<(int, int)>,
    stats: WalkStats,
    q: (int, int),
)
    requires
        !claim_taken(u, place, mine, stats).0.contains(q),
    ensures
        !u.contains(q) || (count_in(place, q) > 0 && !mine.contains(q)),
    decreases place.len(),
{
    if place.len() > 0 {
        let t = place.drop_last();
        let r = place.last();
        let v = claim_taken(u, t, mine, stats).0;
        let taken = r.px().difference(mine);
        assert(place =~= t.push(r));
        lemma_count_push(t, r, q);
        lemma_capped(v.difference(taken));
        if !v.contains(q) {
            lemma_claim_taken(u, t, mine, stats, q);
        } else {
            assert(!v.difference(taken).contains(q));
        }
    }
}

// ── one subtree ─────────────────────────────────────────────────────
/// What the walk of a subtree starts from and keeps, at pixel `q`: the sinks
/// agree, and what is claimed within `dom` is hidden.
spec fn in_step(
    s: SinkView,
    t: SinkView,
    u: Set<(int, int)>,
    dom: bool,
    q: (int, int),
    full: bool,
) -> bool {
    agree(s, t, q, full) && (dom && !u.contains(q) ==> closed_at(s.draws, q))
}

proof fn lemma_visit_agrees(
    on: WalkInput,
    off: WalkInput,
    fuel: nat,
    xid: u32,
    pax: int,
    pay: int,
    u: Set<(int, int)>,
    w: Set<(int, int)>,
    s: SinkView,
    t: SinkView,
    red: bool,
    cow: bool,
    clip: ClipBox,
    dom: bool,
    q: (int, int),
    full: bool,
)
    requires
        same_but_mode(on, off),
        layout_ok(on.layout),
        parents_unshaped(on),
        full ==> windows_fit(on),
        clip_ok(clip),
        on_screen(on, q),
        in_step(s, t, u, dom, q, full),
        clip_has(clip, on.layout, q) ==> dom,
    ensures
        ({
            let a = visited(on, fuel, xid, pax, pay, u, s, red, cow, clip);
            let b = visited(off, fuel, xid, pax, pay, w, t, red, cow, clip);
            &&& in_step(a.1, b.1, a.0, dom, q, full)
            &&& closed_at(s.draws, q) ==> closed_at(a.1.draws, q)
        }),
    decreases fuel, 0nat,
{
    if fuel == 0 || !on.windows.dom().contains(xid) || !on.windows[xid].mapped {
    } else {
        let geom = on.windows[xid];
        let d = decision(on, xid, geom, pax, pay, red, cow, clip);
        let e = decision(off, xid, geom, pax, pay, red, cow, clip);
        let kids = children_of(on.windows, xid);
        let leaf = kids.len() == 0;
        lemma_placed_counts(
            on,
            off,
            d.abs_x,
            d.abs_y,
            geom,
            clip,
            own_rects(on, xid, geom),
            q,
        );
        assert(own_rects(on, xid, geom) == own_rects(off, xid, geom));
        assert(count_in(d.place, q) == count_in(e.place, q));
        let cs = WalkStats { nodes_visited: sat_add(s.stats.nodes_visited, 1), ..s.stats };
        let ct = WalkStats { nodes_visited: sat_add(t.stats.nodes_visited, 1), ..t.stats };
        let (mine, st) = if !leaf { mine_of(u, d.place, cs) } else { (Set::empty(), cs) };
        let s1 = SinkView { stats: st, ..s };
        let t1 = SinkView { stats: ct, ..t };
        let none = Set::<(int, int)>::empty();
        let kdom = count_in(d.place, q) > 0;
        if !leaf {
            assert(!on.shapes.dom().contains(xid));
            assert(d.place.len() <= 1);
            lemma_mine(u, d.place, cs, q);
            assert(kdom && !mine.contains(q) ==> closed_at(s1.draws, q));
            lemma_child_clip(on, d, geom, clip, q);
        }
        lemma_children_agree(
            on,
            off,
            (fuel - 1) as nat,
            kids,
            d.abs_x,
            d.abs_y,
            mine,
            none,
            s1,
            t1,
            d.child_under_redirected_ancestor,
            cow,
            d.child_clip,
            kdom && !leaf,
            leaf,
            q,
            full,
        );
        let (m2, s2) = visited_children(
            on,
            (fuel - 1) as nat,
            kids,
            d.abs_x,
            d.abs_y,
            mine,
            s1,
            d.child_under_redirected_ancestor,
            cow,
            d.child_clip,
        );
        let (n2, t2) = visited_children(
            off,
            (fuel - 1) as nat,
            kids,
            d.abs_x,
            d.abs_y,
            none,
            t1,
            e.child_under_redirected_ancestor,
            cow,
            e.child_clip,
        );
        lemma_finish_agrees(
            on,
            off,
            xid,
            geom,
            d,
            e,
            pax,
            pay,
            red,
            clip,
            leaf,
            m2,
            n2,
            u,
            w,
            s2,
            t2,
            cow,
            dom,
            q,
            full,
        );
    }
}

proof fn lemma_mine(u: Set<(int, int)>, place: Seq<Rect2D>, stats: WalkStats, q: (int, int))
    requires
        place.len() <= 1,
    ensures
        count_in(place, q) > 0 && !mine_of(u, place, stats).0.contains(q) ==> !u.contains(q),
{
    if place.len() == 1 {
        assert(place =~= seq![place[0]]);
        lemma_count_one(place[0], q);
    }
}

proof fn lemma_child_clip(
    on: WalkInput,
    d: DecisionView,
    geom: WindowGeometry,
    clip: ClipBox,
    q: (int, int),
)
    requires
        on.mode == Visibility::On,
        clip_ok(clip),
        layout_ok(on.layout),
        on_screen(on, q),
        i32::MIN <= d.abs_x <= i32::MAX,
        i32::MIN <= d.abs_y <= i32::MAX,
        d.place == placed_rects(d.abs_x, d.abs_y, geom, clip, on, seq![whole_window(geom)]),
        d.child_clip == (ClipBox {
            x0: max_int(clip.x0 as int, d.abs_x) as i32,
            y0: max_int(clip.y0 as int, d.abs_y) as i32,
            x1: min_int(clip.x1 as int, d.abs_x + geom.width) as i32,
            y1: min_int(clip.y1 as int, d.abs_y + geom.height) as i32,
        }),
    ensures
        clip_ok(d.child_clip),
        clip_has(d.child_clip, on.layout, q) ==> count_in(d.place, q) > 0,
{
    let whole = whole_window(geom);
    let one = seq![whole];
    assert(one.drop_last() =~= Seq::<RegionRect>::empty());
    let head = placed_rects(d.abs_x, d.abs_y, geom, clip, on, one.drop_last());
    assert(head == Seq::<Rect2D>::empty());
    lemma_placed(d.abs_x, d.abs_y, geom, clip, on.layout, whole);
    if clip_has(d.child_clip, on.layout, q) {
        let p = placed_rect(d.abs_x, d.abs_y, geom, clip, on.layout, whole);
        assert(p is Some);
        assert(p->0.has(q.0, q.1));
        let c = intersection(p->0, output_rect(on.extent()));
        assert(c is Some);
        assert(c->0.has(q.0, q.1));
        lemma_count_push(head, c->0, q);
    }
}

proof fn lemma_children_agree(
    on: WalkInput,
    off: WalkInput,
    fuel: nat,
    kids: Seq<u32>,
    pax: int,
    pay: int,
    u: Set<(int, int)>,
    w: Set<(int, int)>,
    s: SinkView,
    t: SinkView,
    red: bool,
    cow: bool,
    clip: ClipBox,
    dom: bool,
    leaf: bool,
    q: (int, int),
    full: bool,
)
    requires
        same_but_mode(on, off),
        layout_ok(on.layout),
        parents_unshaped(on),
        full ==> windows_fit(on),
        leaf ==> kids.len() == 0,
        !leaf ==> clip_ok(clip) && (clip_has(clip, on.layout, q) ==> dom),
        on_screen(on, q),
        in_step(s, t, u, dom, q, full),
    ensures
        ({
            let a = visited_children(on, fuel, kids, pax, pay, u, s, red, cow, clip);
            let b = visited_children(off, fuel, kids, pax, pay, w, t, red, cow, clip);
            &&& in_step(a.1, b.1, a.0, dom, q, full)
            &&& closed_at(s.draws, q) ==> closed_at(a.1.draws, q)
        }),
    decreases fuel, kids.len() + 1,
{
    if kids.len() > 0 {
        lemma_visit_agrees(
            on,
            off,
            fuel,
            kids.last(),
            pax,
            pay,
            u,
            w,
            s,
            t,
            red,
            cow,
            clip,
            dom,
            q,
            full,
        );
        let (u2, s2) = visited(on, fuel, kids.last(), pax, pay, u, s, red, cow, clip);
        let (w2, t2) = visited(off, fuel, kids.last(), pax, pay, w, t, red, cow, clip);
        lemma_children_agree(
            on,
            off,
            fuel,
            kids.drop_last(),
            pax,
            pay,
            u2,
            w2,
            s2,
            t2,
            red,
            cow,
            clip,
            dom,
            leaf,
            q,
            full,
        );
    }
}

proof fn lemma_finish_agrees(
    on: WalkInput,
    off: WalkInput,
    xid: u32,
    geom: WindowGeometry,
    d: DecisionView,
    e: DecisionView,
    pax: int,
    pay: int,
    red: bool,
    clip: ClipBox,
    leaf: bool,
    m2: Set<(int, int)>,
    n2: Set<(int, int)>,
    u: Set<(int, int)>,
    w: Set<(int, int)>,
    s: SinkView,
    t: SinkView,
    cow: bool,
    dom: bool,
    q: (int, int),
    full: bool,
)
    requires
        same_but_mode(on, off),
        layout_ok(on.layout),
        full ==> windows_fit(on),
        on.windows.dom().contains(xid),
        geom == on.windows[xid],
        clip_ok(clip),
        on_screen(on, q),
        d == decision(on, xid, geom, pax, pay, red, cow, clip),
        e == decision(off, xid, geom, pax, pay, red, cow, clip),
        count_in(d.place, q) == count_in(e.place, q),
        count_in(d.place, q) > 0 ==> dom,
        agree(s, t, q, full),
        dom && !u.contains(q) ==> closed_at(s.draws, q),
        !leaf && count_in(d.place, q) > 0 && !m2.contains(q) ==> closed_at(s.draws, q),
    ensures
        ({
            let a = finish_node(on, xid, geom, d, leaf, m2, u, s, cow);
            let b = finish_node(off, xid, geom, e, leaf, n2, w, t, cow);
            &&& in_step(a.1, b.1, a.0, dom, q, full)
            &&& closed_at(s.draws, q) ==> closed_at(a.1.draws, q)
        }),
{
    let a = finish_node(on, xid, geom, d, leaf, m2, u, s, cow);
    let b = finish_node(off, xid, geom, e, leaf, n2, w, t, cow);
    let shown_on = if leaf { u } else { m2 };
    let shown_off = if leaf { w } else { n2 };
    assert(d.store == e.store);
    let passes = d.store is Some && d.store->0.skip_reason is None;
    let mut s3 = s;
    if passes {
        let info = d.store->0;
        let n_on = paint_of(on.mode, geom, d, info, cow);
        let n_off = paint_of(off.mode, geom, e, info, cow);
        lemma_emitting(on, xid, geom, pax, pay, red, cow, clip);
        let own = own_rects(on, xid, geom);
        lemma_place_exact(off, e.abs_x, e.abs_y, geom, clip, own, n_off, q, full);
        lemma_place_small(on, d.abs_x, d.abs_y, geom, clip, own);
        lemma_pieces_exact(shown_on, d.place, n_on, q, full);
        lemma_emit_agrees(
            on,
            off,
            s,
            t,
            shown_on,
            shown_off,
            d.place,
            e.place,
            n_on,
            n_off,
            q,
            full,
        );
        if d.place.len() == 0 {
            // Nothing of the window lies on the output: the draws it has without
            // visibility miss every pixel of it.
            lemma_off_only(off, s, t, shown_off, e.place, n_off, q, full);
        }
        if d.emits {
            s3 = emitted_sink(
                s,
                on.mode,
                shown_on,
                d.place,
                n_on,
                on.store,
                on.extent(),
                on.elsewhere,
            );
        }
        if e.place.len() == 0 {
            assert(count_in(e.place, q) == 0);
            lemma_on_only(on, s, shown_on, d.place, n_on, q, full);
        }
    }
    assert(a.1.draws == s3.draws);
    assert(agree(a.1, b.1, q, full));
    assert(closed_at(s.draws, q) ==> closed_at(s3.draws, q));
    if dom && !a.0.contains(q) {
        if d.opaque {
            lemma_claim_opaque(u, d.place, s3.stats, q);
        } else if !leaf {
            lemma_claim_taken(u, d.place, m2, s3.stats, q);
        }
    }
}

/// A node without pixels on the output draws nothing there.
proof fn lemma_off_only(
    off: WalkInput,
    s: SinkView,
    t: SinkView,
    unused: Set<(int, int)>,
    place: Seq<Rect2D>,
    n: NodePaint,
    q: (int, int),
    full: bool,
)
    requires
        off.mode == Visibility::Off,
        agree(s, t, q, full),
        count_in(place, q) == 0,
        forall|i: int| 0 <= i < place.len() ==> quad_exact(n, #[trigger] place[i], q, full),
    ensures
        agree(
            s,
            emitted_sink(
                t,
                off.mode,
                unused,
                place,
                n,
                off.store,
                off.extent(),
                off.elsewhere,
            ),
            q,
            full,
        ),
{
    let rev = place.reverse();
    lemma_emit_draws(t, off, unused, place, n);
    assert forall|i: int| 0 <= i < rev.len() implies quad_exact(n, #[trigger] rev[i], q, full) by {
        assert(rev[i] == place[place.len() - 1 - i]);
    }
    lemma_count_reverse(place, q);
    lemma_quads(n, rev, q, full);
    lemma_look_append(t.draws, quads(n, rev), q, full);
    assert(copies(node_sample(n, q, full), 0) =~= Seq::<Sample>::empty());
    assert(look(t.draws, q, full) + Seq::<Sample>::empty() =~= look(t.draws, q, full));
}

proof fn lemma_on_only(
    on: WalkInput,
    s: SinkView,
    mine: Set<(int, int)>,
    place: Seq<Rect2D>,
    n: NodePaint,
    q: (int, int),
    full: bool,
)
    requires
        on.mode == Visibility::On,
        count_in(place, q) == 0,
        forall|i: int|
            0 <= i < visible_pieces(mine, place).len() ==> quad_exact(
                n,
                #[trigger] visible_pieces(mine, place)[i],
                q,
                full,
            ),
    ensures
        agree(
            s,
            emitted_sink(
                s,
                on.mode,
                mine,
                place,
                n,
                on.store,
                on.extent(),
                on.elsewhere,
            ),
            q,
            full,
        ),
{
    let p = visible_pieces(mine, place);
    lemma_emit_draws(s, on, mine, place, n);
    lemma_count_pieces(mine, place, q);
    lemma_quads(n, p, q, full);
    lemma_look_append(s.draws, quads(n, p), q, full);
    assert(copies(node_sample(n, q, full), 0) =~= Seq::<Sample>::empty());
    assert(look(s.draws, q, full) + Seq::<Sample>::empty() =~= look(s.draws, q, full));
}

/// A window that passes every gate touches the output, so its origin is small.
proof fn lemma_emitting(
    on: WalkInput,
    xid: u32,
    geom: WindowGeometry,
    pax: int,
    pay: int,
    red: bool,
    cow: bool,
    clip: ClipBox,
)
    requires
        layout_ok(on.layout),
        ({
            let d = decision(on, xid, geom, pax, pay, red, cow, clip);
            d.store is Some && d.store->0.skip_reason is None
        }),
    ensures
        ({
            let d = decision(on, xid, geom, pax, pay, red, cow, clip);
            &&& touches_output(d.dx, d.dy, geom, on.layout)
            &&& -0x1_0000 <= d.dx <= 0x1_0000
            &&& -0x1_0000 <= d.dy <= 0x1_0000
        }),
{
}

proof fn lemma_place_small(
    on: WalkInput,
    abs_x: int,
    abs_y: int,
    geom: WindowGeometry,
    clip: ClipBox,
    rects: Seq<RegionRect>,
)
    requires
        on.mode == Visibility::On,
        clip_ok(clip),
        layout_ok(on.layout),
    ensures
        ({
            let place = placed_rects(abs_x, abs_y, geom, clip, on, rects);
            forall|i: int|
                0 <= i < place.len() ==> {
                    &&& 0 <= (#[trigger] place[i]).x0()
                    &&& place[i].x1() <= 0xffff
                    &&& 0 <= place[i].y0()
                    &&& place[i].y1() <= 0xffff
                }
        }),
    decreases rects.len(),
{
    if rects.len() > 0 {
        let t = rects.drop_last();
        lemma_place_small(on, abs_x, abs_y, geom, clip, t);
        lemma_placed(abs_x, abs_y, geom, clip, on.layout, rects.last());
        let head = placed_rects(abs_x, abs_y, geom, clip, on, t);
        let place = placed_rects(abs_x, abs_y, geom, clip, on, rects);
        match placed_rect(abs_x, abs_y, geom, clip, on.layout, rects.last()) {
            None => {},
            Some(p) => {
                match intersection(p, output_rect(on.extent())) {
                    None => {},
                    Some(c) => {
                        assert(place =~= head.push(c));
                        assert(0 <= c.x0() && c.x1() <= 0xffff && 0 <= c.y0() && c.y1() <= 0xffff);
                    },
                }
            },
        }
    }
}

// ── the whole scene ─────────────────────────────────────────────────
proof fn lemma_top_levels_agree(
    on: WalkInput,
    off: WalkInput,
    fuel: nat,
    order: Seq<u32>,
    cow: Option<u32>,
    suppress: bool,
    u: Set<(int, int)>,
    w: Set<(int, int)>,
    s: SinkView,
    t: SinkView,
    q: (int, int),
    full: bool,
)
    requires
        same_but_mode(on, off),
        layout_ok(on.layout),
        parents_unshaped(on),
        full ==> windows_fit(on),
        on_screen(on, q),
        in_step(s, t, u, true, q, full),
    ensures
        ({
            let a = top_levels_visited(on, fuel, order, cow, suppress, u, s);
            let b = top_levels_visited(off, fuel, order, cow, suppress, w, t);
            in_step(a.1, b.1, a.0, true, q, full)
        }),
    decreases order.len(),
{
    if order.len() > 0 {
        let top = order.last();
        let (u2, s2) = if suppress && cow == Some(top) {
            (u, s)
        } else {
            visited(on, fuel, top, 0, 0, u, s, false, cow == Some(top), no_clip())
        };
        let (w2, t2) = if suppress && cow == Some(top) {
            (w, t)
        } else {
            visited(off, fuel, top, 0, 0, w, t, false, cow == Some(top), no_clip())
        };
        if !(suppress && cow == Some(top)) {
            lemma_visit_agrees(
                on,
                off,
                fuel,
                top,
                0,
                0,
                u,
                w,
                s,
                t,
                false,
                cow == Some(top),
                no_clip(),
                true,
                q,
                full,
            );
        }
        lemma_top_levels_agree(
            on,
            off,
            fuel,
            order.drop_last(),
            cow,
            suppress,
            u2,
            w2,
            s2,
            t2,
            q,
            full,
        );
    }
}

proof fn lemma_root_agrees(
    on: WalkInput,
    off: WalkInput,
    window_id: u32,
    u: Set<(int, int)>,
    w: Set<(int, int)>,
    s: SinkView,
    t: SinkView,
    q: (int, int),
    full: bool,
)
    requires
        full ==> root_fits(on, window_id),
        same_but_mode(on, off),
        layout_ok(on.layout),
        on_screen(on, q),
        in_step(s, t, u, true, q, full),
    ensures
        agree(root_emitted(on, window_id, u, s), root_emitted(off, window_id, w, t), q, full),
{
    let a = root_of(on, window_id);
    let b = root_of(off, window_id);
    if a is Some {
        let ra = a->0;
        let rb = b->0;
        let whole = rb.place[0];
        assert(rb.place =~= seq![whole]);
        lemma_count_one(whole, q);
        match intersection(whole, output_rect(on.extent())) {
            None => {
                assert(count_in(Seq::<Rect2D>::empty(), q) == 0);
            },
            Some(c) => {
                lemma_count_one(c, q);
                assert(c.has(q.0, q.1) == whole.has(q.0, q.1));
            },
        }
        lemma_quad_exact(rb.paint, whole, q, full);
        lemma_pieces_exact(u, ra.place, ra.paint, q, full);
        let s1 = SinkView {
            stats: WalkStats { nodes_visited: sat_add(s.stats.nodes_visited, 1), ..s.stats },
            ..s
        };
        let t1 = SinkView {
            stats: WalkStats { nodes_visited: sat_add(t.stats.nodes_visited, 1), ..t.stats },
            ..t
        };
        lemma_emit_agrees(
            on,
            off,
            s1,
            t1,
            u,
            w,
            ra.place,
            rb.place,
            ra.paint,
            rb.paint,
            q,
            full,
        );
    }
}

proof fn lemma_cursor_agrees(
    a: BuildView,
    b: BuildView,
    input: WalkInput,
    cursor: CursorInput,
    q: (int, int),
    full: bool,
)
    requires
        shown_of(a.draws, q, full) == shown_of(b.draws, q, full),
    ensures
        shown_of(with_cursor(a, input.store, input.layout, cursor).draws, q, full) == shown_of(
            with_cursor(b, input.store, input.layout, cursor).draws,
            q,
            full,
        ),
{
    let c = with_cursor(a, input.store, input.layout, cursor).draws;
    let d = with_cursor(b, input.store, input.layout, cursor).draws;
    if c.len() > a.draws.len() {
        assert(c.drop_last() =~= a.draws);
        assert(d.drop_last() =~= b.draws);
        assert(c.last() == d.last());
    }
}

proof fn lemma_scenes_agree(
    input: WalkInput,
    window_id: u32,
    order: Seq<u32>,
    cow: Option<u32>,
    cursor: CursorInput,
    q: (int, int),
    full: bool,
)
    requires
        input.mode == Visibility::On,
        layout_ok(input.layout),
        parents_unshaped(input),
        full ==> windows_fit(input) && root_fits(input, window_id),
        output_rect(input.extent()).has(q.0, q.1),
    ensures
        shown_of(built(input, window_id, order, cow, cursor).draws, q, full) == shown_of(
            built(
                WalkInput { mode: Visibility::Off, ..input },
                window_id,
                order,
                cow,
                cursor,
            ).draws,
            q,
            full,
        ),
{
    let off = WalkInput { mode: Visibility::Off, ..input };
    let suppress = suppresses_overlay(input.windows, input.store, order, cow, input.layout);
    let fuel = input.windows.dom().len();
    let e = empty_sink();
    assert(whole_universe(input).contains(q));
    lemma_top_levels_agree(
        input,
        off,
        fuel,
        order,
        cow,
        suppress,
        whole_universe(input),
        whole_universe(off),
        e,
        e,
        q,
        full,
    );
    let (u, s) = top_levels_visited(input, fuel, order, cow, suppress, whole_universe(input), e);
    let (w, t) = top_levels_visited(off, fuel, order, cow, suppress, whole_universe(off), e);
    lemma_root_agrees(input, off, window_id, u, w, s, t, q, full);
    let a = walked(input, window_id, order, cow);
    let b = walked(off, window_id, order, cow);
    lemma_reverse(a.draws, q, full);
    lemma_reverse(b.draws, q, full);
    lemma_cursor_agrees(
        build_of(reversed_sink(a)),
        build_of(reversed_sink(b)),
        input,
        cursor,
        q,
        full,
    );
}

/// The law of visibility: what an output shows does not depend on whether the
/// walk clips nodes to what is visible of them. At every pixel of the output the
/// two scenes show the same samples, from the top down to the first that does
/// not blend. Two things are left out. A bounding shape on a window with children
/// clips the children only when visibility is on. And a source that is not as
/// large as its window is scaled only when visibility is off.
pub proof fn visibility_keeps_what_is_shown(
    input: WalkInput,
    window_id: u32,
    order: Seq<u32>,
    cow: Option<u32>,
    cursor: CursorInput,
    q: (int, int),
)
    requires
        input.mode == Visibility::On,
        layout_ok(input.layout),
        parents_unshaped(input),
        windows_fit(input),
        root_fits(input, window_id),
        output_rect(input.extent()).has(q.0, q.1),
    ensures
        shown(built(input, window_id, order, cow, cursor).draws, q) == shown(
            built(
                WalkInput { mode: Visibility::Off, ..input },
                window_id,
                order,
                cow,
                cursor,
            ).draws,
            q,
        ),
{
    lemma_scenes_agree(input, window_id, order, cow, cursor, q, true);
}

/// Whatever the size of the sources: at every pixel of the output the two scenes
/// show the same views, each at the same pixel of its window, and blend the same.
pub proof fn visibility_keeps_what_lies_where(
    input: WalkInput,
    window_id: u32,
    order: Seq<u32>,
    cow: Option<u32>,
    cursor: CursorInput,
    q: (int, int),
)
    requires
        input.mode == Visibility::On,
        layout_ok(input.layout),
        parents_unshaped(input),
        output_rect(input.extent()).has(q.0, q.1),
    ensures
        shown_of(built(input, window_id, order, cow, cursor).draws, q, false) == shown_of(
            built(
                WalkInput { mode: Visibility::Off, ..input },
                window_id,
                order,
                cow,
                cursor,
            ).draws,
            q,
            false,
        ),
{
    lemma_scenes_agree(input, window_id, order, cow, cursor, q, false);
}

} // verus!
