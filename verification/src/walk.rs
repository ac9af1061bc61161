//! The visibility walk over the window tree.
//!
//! Every window is decided, its children are visited top to bottom, what they
//! leave of it is emitted, and its opaque pixels are claimed from what lies
//! below. The lists are collected in that order and reversed once into painter's
//! order.

use vstd::prelude::*;

use crate::geometry::{
    clip_rect_to_output_extent, corners, intersection, max_int, min_int, output_rect,
    rect_from_corners, Extent2D, Rect2D,
};
use crate::ids::{DrawableId, IdSet};
use crate::store::{DrawableKind, DrawableStore, StoreView};
use crate::windows::{
    index_ok, ChildrenIndex, OutputLayout, RegionRect, ShapeMap, WindowGeometry, WindowsMap,
};

verus! {

broadcast use vstd::std_specs::hash::group_hash_axioms;

/// Whether the walk clips each node to what nothing above it covers.
#[derive(Clone, Copy, Debug, PartialEq, Eq, Structural)]
pub enum Visibility {
    /// Every node's full placement is emitted.
    Off,
    /// Only what is visible is emitted.
    On,
}

/// Where a node's captured content damage landed on this output.
#[derive(Clone, Copy, Debug, PartialEq, Eq, Structural)]
pub enum ContentDamage {
    /// Some of the projection meets the node's visible pieces.
    Visible,
    /// The projection lands on the output but entirely under a cover.
    Hidden,
    /// The projection misses the output, and the drawable shows on no other.
    OffOutput,
    /// The projection misses this output, but the drawable shows on another.
    OtherOutput,
}

/// What the walk did. Counters saturate.
#[derive(Clone, Copy, Debug, PartialEq, Eq, Structural)]
pub struct WalkStats {
    pub nodes_visited: u64,
    pub draws_emitted: u64,
    pub collapses_mine: u64,
    pub collapses_claim: u64,
    pub collapses_taken: u64,
    pub collapses_taken_skipped: u64,
    pub hidden_participants: u64,
    pub content_visible: u64,
    pub content_hidden: u64,
    pub content_off_output: u64,
    pub content_other_output: u64,
}

/// `n` plus `k`, saturated.
pub open spec fn sat_add(n: u64, k: nat) -> u64 {
    if n + k <= u64::MAX { (n + k) as u64 } else { u64::MAX }
}

/// Counts one more.
pub fn bump(n: u64) -> (r: u64)
    ensures
        r == sat_add(n, 1),
{
    if n < u64::MAX { n + 1 } else { n }
}

/// Counts `k` more.
pub fn bump_by(n: u64, k: usize) -> (r: u64)
    ensures
        r == sat_add(n, k as nat),
{
    let k = k as u64;
    if n <= u64::MAX - k { n + k } else { u64::MAX }
}

impl WalkStats {
    /// All counters at zero.
    pub open spec fn zero() -> WalkStats {
        WalkStats {
            nodes_visited: 0,
            draws_emitted: 0,
            collapses_mine: 0,
            collapses_claim: 0,
            collapses_taken: 0,
            collapses_taken_skipped: 0,
            hidden_participants: 0,
            content_visible: 0,
            content_hidden: 0,
            content_off_output: 0,
            content_other_output: 0,
        }
    }

    /// True if some captured damage projected entirely off this output, the only
    /// class that may force a compose on the empty-damage path.
    pub fn off_output_damage_forces_compose(&self) -> (r: bool)
        ensures
            r == (self.content_off_output > 0),
    {
        self.content_off_output > 0
    }

    /// Every time a region the walk holds was collapsed.
    pub fn collapses(&self) -> (r: u64)
        ensures
            r == sat_add(
                sat_add(
                    sat_add(self.collapses_mine, self.collapses_claim as nat),
                    self.collapses_taken as nat,
                ),
                self.collapses_taken_skipped as nat,
            ),
    {
        add_sat(
            add_sat(
                add_sat(self.collapses_mine, self.collapses_claim),
                self.collapses_taken,
            ),
            self.collapses_taken_skipped,
        )
    }
}

fn add_sat(n: u64, k: u64) -> (r: u64)
    ensures
        r == sat_add(n, k as nat),
{
    if n <= u64::MAX - k { n + k } else { u64::MAX }
}

impl Default for WalkStats {
    fn default() -> (r: Self)
        ensures
            r == WalkStats::zero(),
    {
        WalkStats {
            nodes_visited: 0,
            draws_emitted: 0,
            collapses_mine: 0,
            collapses_claim: 0,
            collapses_taken: 0,
            collapses_taken_skipped: 0,
            hidden_participants: 0,
            content_visible: 0,
            content_hidden: 0,
            content_off_output: 0,
            content_other_output: 0,
        }
    }
}

// ── what the walk reads ─────────────────────────────────────────────
/// Everything the walk reads.
pub struct WalkContext<'a> {
    pub windows: &'a WindowsMap,
    pub children: &'a ChildrenIndex,
    pub shapes: &'a ShapeMap,
    pub store: &'a DrawableStore,
    pub layout: OutputLayout,
    pub mode: Visibility,
    /// Sampled sources that showed pieces on some other output at its last walk.
    pub elsewhere: &'a IdSet,
}

/// The context as contracts see it.
pub struct WalkInput {
    pub windows: Map<u32, WindowGeometry>,
    pub shapes: Map<u32, Vec<RegionRect>>,
    pub store: StoreView,
    pub layout: OutputLayout,
    pub mode: Visibility,
    pub elsewhere: Set<DrawableId>,
}

impl<'a> View for WalkContext<'a> {
    type V = WalkInput;

    open spec fn view(&self) -> WalkInput {
        WalkInput {
            windows: self.windows@,
            shapes: self.shapes@,
            store: self.store@,
            layout: self.layout,
            mode: self.mode,
            elsewhere: self.elsewhere@,
        }
    }
}

/// How far from the origin an output may sit.
pub const MAX_ORIGIN: i32 = 0x4000_0000;

/// Whether an output sits where its local coordinates fit.
pub open spec fn layout_ok(l: OutputLayout) -> bool {
    -MAX_ORIGIN <= l.x <= MAX_ORIGIN && -MAX_ORIGIN <= l.y <= MAX_ORIGIN
}

impl<'a> WalkContext<'a> {
    /// The index lists the windows' children and the output fits.
    pub open spec fn wf(&self) -> bool {
        index_ok(self.children@, self.windows@) && layout_ok(self.layout)
    }
}

impl WalkInput {
    /// The output's extent.
    pub open spec fn extent(self) -> Extent2D {
        Extent2D { width: self.layout.width as u32, height: self.layout.height as u32 }
    }
}

// ── one window's decision ───────────────────────────────────────────
/// A clip in root space, half-open.
#[derive(Clone, Copy, Debug, PartialEq, Eq, Structural)]
pub struct ClipBox {
    pub x0: i32,
    pub y0: i32,
    pub x1: i32,
    pub y1: i32,
}

/// Whether a clip lies in the middle of the plane, so that moving it by an
/// output's origin stays in the plane.
pub open spec fn clip_ok(c: ClipBox) -> bool {
    -0x4000_0000 <= c.x0 && -0x4000_0000 <= c.y0 && c.x1 <= 0x3fff_ffff && c.y1 <= 0x3fff_ffff
}

/// The clip of a top-level window: effectively none.
pub open spec fn no_clip() -> ClipBox {
    ClipBox { x0: (-0x4000_0000) as i32, y0: (-0x4000_0000) as i32, x1: 0x3fff_ffff, y1: 0x3fff_ffff }
}

/// An integer as a coordinate, saturated.
pub open spec fn sat_i32(n: int) -> i32 {
    if n < i32::MIN {
        i32::MIN
    } else if n > i32::MAX {
        i32::MAX
    } else {
        n as i32
    }
}

/// Computes [`sat_i32`].
pub fn to_i32(n: i64) -> (r: i32)
    ensures
        r == sat_i32(n as int),
{
    if n < i32::MIN as i64 {
        i32::MIN
    } else if n > i32::MAX as i64 {
        i32::MAX
    } else {
        n as i32
    }
}

/// The larger of two.
pub fn max_i64(a: i64, b: i64) -> (r: i64)
    ensures
        r == max_int(a as int, b as int),
{
    if a >= b { a } else { b }
}

/// The smaller of two.
pub fn min_i64(a: i64, b: i64) -> (r: i64)
    ensures
        r == min_int(a as int, b as int),
{
    if a <= b { a } else { b }
}

/// The output-local rect of one window-relative rect: clipped to the window and
/// to the ancestors' clip. `None` when nothing is left.
pub open spec fn placed_rect(
    abs_x: int,
    abs_y: int,
    geom: WindowGeometry,
    clip: ClipBox,
    layout: OutputLayout,
    r: RegionRect,
) -> Option<Rect2D> {
    let x0 = max_int(max_int(r.x as int, 0), clip.x0 - abs_x);
    let y0 = max_int(max_int(r.y as int, 0), clip.y0 - abs_y);
    let x1 = min_int(min_int(r.x + r.width, geom.width as int), clip.x1 - abs_x);
    let y1 = min_int(min_int(r.y + r.height, geom.height as int), clip.y1 - abs_y);
    if x1 <= x0 || y1 <= y0 {
        None
    } else {
        Some(
            corners(
                abs_x + x0 - layout.x,
                abs_y + y0 - layout.y,
                abs_x + x1 - layout.x,
                abs_y + y1 - layout.y,
            ),
        )
    }
}

/// The output-local rects of a list of window-relative rects, in order. With
/// visibility on they are clipped to the output too.
pub open spec fn placed_rects(
    abs_x: int,
    abs_y: int,
    geom: WindowGeometry,
    clip: ClipBox,
    input: WalkInput,
    rects: Seq<RegionRect>,
) -> Seq<Rect2D>
    decreases rects.len(),
{
    if rects.len() == 0 {
        Seq::empty()
    } else {
        let head = placed_rects(abs_x, abs_y, geom, clip, input, rects.drop_last());
        let r = match placed_rect(abs_x, abs_y, geom, clip, input.layout, rects.last()) {
            None => None,
            Some(p) => if input.mode == Visibility::On {
                intersection(p, output_rect(input.extent()))
            } else {
                Some(p)
            },
        };
        match r {
            None => head,
            Some(p) => head.push(p),
        }
    }
}

/// The window-relative rects a window occupies: its bounding shape, or all of
/// it.
pub open spec fn own_rects(input: WalkInput, xid: u32, geom: WindowGeometry) -> Seq<RegionRect> {
    if input.shapes.dom().contains(xid) {
        input.shapes[xid]@
    } else {
        seq![whole_window(geom)]
    }
}

/// The rectangle of an unshaped window.
pub open spec fn whole_window(geom: WindowGeometry) -> RegionRect {
    RegionRect { x: 0, y: 0, width: geom.width, height: geom.height }
}

/// Why a window is not drawn.
#[derive(Clone, Copy, Debug, PartialEq, Eq, Structural)]
pub enum SkipReason {
    /// Redirected for a compositor to read: never drawn here.
    ManualRedirect,
    /// Its paint lands in a redirected ancestor.
    RedirectedAncestor,
    /// Off the scene.
    NotParticipating,
    /// Not a window.
    NotAWindow,
    /// Nothing to sample.
    NullSourceView,
    /// Its rectangle misses the output.
    OffOutput,
}

/// What the store says about a window.
#[derive(Clone, Copy, Debug, PartialEq, Eq, Structural)]
pub struct NodeStoreInfo {
    pub d_id: DrawableId,
    pub source_id: DrawableId,
    /// The sample-side view of the source.
    pub source_view: u64,
    /// Storage extent of the sampled source.
    pub source_extent: Extent2D,
    pub has_own_redirected_target: bool,
    pub paint_target_is_self: bool,
    /// First failing gate, `None` when the window may be drawn.
    pub skip_reason: Option<SkipReason>,
}

/// The decision what the store says about a window.
pub open spec fn store_info(
    store: StoreView,
    xid: u32,
    intersects: bool,
    under_redirected_ancestor: bool,
) -> Option<NodeStoreInfo> {
    match store.lookup(xid) {
        None => None,
        Some(id) => match store.get(id) {
            None => None,
            Some(d) => {
                let source_id = match store.redirected(id) {
                    Some(t) => t,
                    None => id,
                };
                let source = store.get(source_id);
                let view_null = match source {
                    Some(s) => s.storage.image_view == 0,
                    None => true,
                };
                let own = source_id != id;
                let manual = own && !d.scene_participating;
                let to_self = !manual && (own || (d.scene_participating
                    && !under_redirected_ancestor));
                let skip = if manual {
                    Some(SkipReason::ManualRedirect)
                } else if !to_self {
                    if under_redirected_ancestor {
                        Some(SkipReason::RedirectedAncestor)
                    } else {
                        Some(SkipReason::NotParticipating)
                    }
                } else if d.kind != DrawableKind::Window {
                    Some(SkipReason::NotAWindow)
                } else if view_null {
                    Some(SkipReason::NullSourceView)
                } else if !intersects {
                    Some(SkipReason::OffOutput)
                } else {
                    None
                };
                Some(
                    NodeStoreInfo {
                        d_id: d.id,
                        source_id,
                        source_view: match source {
                            Some(s) => s.storage.sample_view,
                            None => 0,
                        },
                        source_extent: match source {
                            Some(s) => s.storage.extent,
                            None => Extent2D { width: 0, height: 0 },
                        },
                        has_own_redirected_target: own,
                        paint_target_is_self: to_self,
                        skip_reason: skip,
                    },
                )
            },
        },
    }
}

/// Whether a window's rectangle touches the output.
pub open spec fn touches_output(
    dx: int,
    dy: int,
    geom: WindowGeometry,
    layout: OutputLayout,
) -> bool {
    !(dx + geom.width <= 0 || dy + geom.height <= 0 || dx >= layout.width || dy >= layout.height)
}

/// Whether paint into a window goes to a backing of its own.
pub open spec fn owns_redirect(store: StoreView, xid: u32) -> bool {
    match store.lookup(xid) {
        Some(id) => store.redirected(id) is Some,
        None => false,
    }
}

/// The per-node decision, separated from emission. `place` is computed for every
/// mapped window, drawn or not: one that is not drawn still clips its children.
#[derive(Debug)]
pub struct NodeDecision {
    /// Root-space origin of the window.
    pub abs_x: i32,
    pub abs_y: i32,
    /// Output-local origin.
    pub dx: i64,
    pub dy: i64,
    pub win_w: i32,
    pub win_h: i32,
    /// Clip passed to children: the ancestors' clip and the own rect.
    pub child_clip: ClipBox,
    pub intersects: bool,
    pub store: Option<NodeStoreInfo>,
    /// Output-local rects the window occupies.
    pub place: Vec<Rect2D>,
    /// The window passes every gate and occupies something.
    pub emits: bool,
    /// Drawn so that it overwrites what lies below.
    pub opaque: bool,
    pub child_under_redirected_ancestor: bool,
}

/// A decision as contracts see it.
pub struct DecisionView {
    pub abs_x: int,
    pub abs_y: int,
    pub dx: int,
    pub dy: int,
    pub child_clip: ClipBox,
    pub store: Option<NodeStoreInfo>,
    pub place: Seq<Rect2D>,
    pub emits: bool,
    pub opaque: bool,
    pub child_under_redirected_ancestor: bool,
}

/// The decision for one window.
pub open spec fn decision(
    input: WalkInput,
    xid: u32,
    geom: WindowGeometry,
    parent_abs_x: int,
    parent_abs_y: int,
    under_redirected_ancestor: bool,
    under_cow_subtree: bool,
    clip: ClipBox,
) -> DecisionView {
    let abs_x = sat_i32(parent_abs_x + geom.x) as int;
    let abs_y = sat_i32(parent_abs_y + geom.y) as int;
    let dx = abs_x - input.layout.x;
    let dy = abs_y - input.layout.y;
    let info = store_info(
        input.store,
        xid,
        touches_output(dx, dy, geom, input.layout),
        under_redirected_ancestor,
    );
    let place = placed_rects(abs_x, abs_y, geom, clip, input, own_rects(input, xid, geom));
    let emits = (match info {
        Some(s) => s.skip_reason is None,
        None => false,
    }) && place.len() > 0;
    DecisionView {
        abs_x,
        abs_y,
        dx,
        dy,
        child_clip: ClipBox {
            x0: max_int(clip.x0 as int, abs_x) as i32,
            y0: max_int(clip.y0 as int, abs_y) as i32,
            x1: min_int(clip.x1 as int, abs_x + geom.width) as i32,
            y1: min_int(clip.y1 as int, abs_y + geom.height) as i32,
        },
        store: info,
        place,
        emits,
        opaque: emits && !under_cow_subtree,
        child_under_redirected_ancestor: under_redirected_ancestor || owns_redirect(
            input.store,
            xid,
        ),
    }
}

impl View for NodeDecision {
    type V = DecisionView;

    open spec fn view(&self) -> DecisionView {
        DecisionView {
            abs_x: self.abs_x as int,
            abs_y: self.abs_y as int,
            dx: self.dx as int,
            dy: self.dy as int,
            child_clip: self.child_clip,
            store: self.store,
            place: self.place@,
            emits: self.emits,
            opaque: self.opaque,
            child_under_redirected_ancestor: self.child_under_redirected_ancestor,
        }
    }
}

fn place_one(
    abs_x: i32,
    abs_y: i32,
    geom: WindowGeometry,
    clip: ClipBox,
    layout: OutputLayout,
    r: RegionRect,
) -> (out: Option<Rect2D>)
    requires
        clip_ok(clip),
        layout_ok(layout),
    ensures
        out == placed_rect(abs_x as int, abs_y as int, geom, clip, layout, r),
{
    let ax = abs_x as i64;
    let ay = abs_y as i64;
    let x0 = max_i64(max_i64(r.x as i64, 0), clip.x0 as i64 - ax);
    let y0 = max_i64(max_i64(r.y as i64, 0), clip.y0 as i64 - ay);
    let x1 = min_i64(min_i64(r.x as i64 + r.width as i64, geom.width as i64), clip.x1 as i64 - ax);
    let y1 = min_i64(min_i64(r.y as i64 + r.height as i64, geom.height as i64), clip.y1 as i64 - ay);
    if x1 <= x0 || y1 <= y0 {
        return None;
    }
    let lx = layout.x as i64;
    let ly = layout.y as i64;
    Some(
        rect_from_corners(
            (ax + x0 - lx) as i32,
            (ay + y0 - ly) as i32,
            (ax + x1 - lx) as i32,
            (ay + y1 - ly) as i32,
        ),
    )
}

fn place_list(
    abs_x: i32,
    abs_y: i32,
    geom: WindowGeometry,
    clip: ClipBox,
    ctx: &WalkContext<'_>,
    rects: &Vec<RegionRect>,
) -> (place: Vec<Rect2D>)
    requires
        clip_ok(clip),
        ctx.wf(),
    ensures
        place@ == placed_rects(abs_x as int, abs_y as int, geom, clip, ctx@, rects@),
{
    let mut place: Vec<Rect2D> = Vec::new();
    let ext = Extent2D { width: ctx.layout.width as u32, height: ctx.layout.height as u32 };
    let mut i: usize = 0;
    assert(rects@.take(0) =~= Seq::<RegionRect>::empty());
    while i < rects.len()
        invariant
            i <= rects@.len(),
            clip_ok(clip),
            ctx.wf(),
            ext == ctx@.extent(),
            place@ == placed_rects(
                abs_x as int,
                abs_y as int,
                geom,
                clip,
                ctx@,
                rects@.take(i as int),
            ),
        decreases rects.len() - i,
    {
        assert(rects@.take(i + 1).drop_last() =~= rects@.take(i as int));
        if let Some(p) = place_one(abs_x, abs_y, geom, clip, ctx.layout, rects[i]) {
            if ctx.mode == Visibility::On {
                if let Some(c) = clip_rect_to_output_extent(p, ext) {
                    place.push(c);
                }
            } else {
                place.push(p);
            }
        }
        i = i + 1;
    }
    assert(rects@.take(i as int) =~= rects@);
    place
}

fn node_store_info(
    store: &DrawableStore,
    xid: u32,
    intersects: bool,
    under_redirected_ancestor: bool,
) -> (r: Option<NodeStoreInfo>)
    ensures
        r == store_info(store@, xid, intersects, under_redirected_ancestor),
{
    let id = match store.lookup(xid) {
        None => {
            return None;
        },
        Some(id) => id,
    };
    let d = match store.get(id) {
        None => {
            return None;
        },
        Some(d) => d,
    };
    let source_id = match store.redirected_target(id) {
        Some(t) => t,
        None => id,
    };
    let (view_null, source_view, source_extent) = match store.get(source_id) {
        Some(s) => (s.storage.image_view == 0, s.storage.sample_view, s.storage.extent),
        None => (true, 0, Extent2D { width: 0, height: 0 }),
    };
    let own = source_id != id;
    let manual = own && !d.scene_participating;
    let to_self = !manual && (own || (d.scene_participating && !under_redirected_ancestor));
    let skip_reason = if manual {
        Some(SkipReason::ManualRedirect)
    } else if !to_self {
        if under_redirected_ancestor {
            Some(SkipReason::RedirectedAncestor)
        } else {
            Some(SkipReason::NotParticipating)
        }
    } else if d.kind != DrawableKind::Window {
        Some(SkipReason::NotAWindow)
    } else if view_null {
        Some(SkipReason::NullSourceView)
    } else if !intersects {
        Some(SkipReason::OffOutput)
    } else {
        None
    };
    Some(
        NodeStoreInfo {
            d_id: d.id,
            source_id,
            source_view,
            source_extent,
            has_own_redirected_target: own,
            paint_target_is_self: to_self,
            skip_reason,
        },
    )
}

/// Decides one mapped window.
pub fn decide_node(
    ctx: &WalkContext<'_>,
    host_xid: u32,
    geom: WindowGeometry,
    parent_abs_x: i32,
    parent_abs_y: i32,
    under_redirected_ancestor: bool,
    under_cow_subtree: bool,
    clip: ClipBox,
) -> (r: NodeDecision)
    requires
        ctx.wf(),
        clip_ok(clip),
    ensures
        r@ == decision(
            ctx@,
            host_xid,
            geom,
            parent_abs_x as int,
            parent_abs_y as int,
            under_redirected_ancestor,
            under_cow_subtree,
            clip,
        ),
        clip_ok(r.child_clip),
        r.win_w == geom.width,
        r.win_h == geom.height,
        r.intersects == touches_output(r.dx as int, r.dy as int, geom, ctx.layout),
        r.emits ==> r.intersects && r.store is Some,
{
    let abs_x = to_i32(parent_abs_x as i64 + geom.x as i64);
    let abs_y = to_i32(parent_abs_y as i64 + geom.y as i64);
    let dx: i64 = abs_x as i64 - ctx.layout.x as i64;
    let dy: i64 = abs_y as i64 - ctx.layout.y as i64;
    let win_w = geom.width as i32;
    let win_h = geom.height as i32;
    let intersects = !(dx + win_w as i64 <= 0 || dy + win_h as i64 <= 0 || dx >= ctx.layout.width as i64
        || dy >= ctx.layout.height as i64);
    let child_clip = ClipBox {
        x0: max_i64(clip.x0 as i64, abs_x as i64) as i32,
        y0: max_i64(clip.y0 as i64, abs_y as i64) as i32,
        x1: min_i64(clip.x1 as i64, abs_x as i64 + win_w as i64) as i32,
        y1: min_i64(clip.y1 as i64, abs_y as i64 + win_h as i64) as i32,
    };
    let place = match ctx.shapes.get(&host_xid) {
        Some(rects) => place_list(abs_x, abs_y, geom, clip, ctx, rects),
        None => {
            let mut one: Vec<RegionRect> = Vec::new();
            one.push(RegionRect { x: 0, y: 0, width: geom.width, height: geom.height });
            assert(one@ =~= seq![whole_window(geom)]);
            place_list(abs_x, abs_y, geom, clip, ctx, &one)
        },
    };
    let store = node_store_info(ctx.store, host_xid, intersects, under_redirected_ancestor);
    let passes = match &store {
        Some(s) => s.skip_reason.is_none(),
        None => false,
    };
    let emits = passes && place.len() > 0;
    let owns = match ctx.store.lookup(host_xid) {
        Some(id) => ctx.store.redirected_target(id).is_some(),
        None => false,
    };
    NodeDecision {
        abs_x,
        abs_y,
        dx,
        dy,
        win_w,
        win_h,
        child_clip,
        intersects,
        store,
        place,
        emits,
        opaque: emits && !under_cow_subtree,
        child_under_redirected_ancestor: under_redirected_ancestor || owns,
    }
}

} // verus!
