//! The scene of one output: root, windows and cursor.

use vstd::prelude::*;

use crate::cursor::CursorAssignment;
use crate::draw::{black, CompositeDraw, CompositeScene, Rgba};
use crate::emit::{
    emit_node, emitted_sink, empty_sink, presence_pushed, presences_view, push_presence,
    reversed_sink, signature_of, snaps_view, visible_px, NodePaint, PresenceView, SinkView,
    WalkSink,
};
use crate::geometry::{
    clamp_len, clip_rect_to_output_extent, corners, intersection, len_as_i32, max_int, min_int,
    output_rect, rect_from_corners, Extent2D, Offset2D, Rect2D,
};
use crate::ids::{DrawableId, IdSet};
use crate::region::Region;
use crate::region_set::RegionSet;
use crate::scene_diff::{ParticipantId, ScenePresence, SceneRole, SourceRect};
use crate::store::{DamageSnapshot, DrawableKind, DrawableStore, SnapshotView, StoreView};
use crate::visit::{visit_window_subtree, visited};
use crate::walk::{
    bump, layout_ok, max_i64, min_i64, no_clip, sat_add, sat_i32, to_i32, ClipBox, Visibility,
    WalkContext, WalkInput, WalkStats,
};
use crate::windows::{children_index, KmsCore, OutputLayout, WindowGeometry, WindowsMap};

verus! {

broadcast use vstd::std_specs::hash::group_hash_axioms;

/// The registered cursor sprite.
#[derive(Clone, Copy, Debug, PartialEq, Eq, Structural)]
pub struct CursorEntry {
    pub id: DrawableId,
    pub extent: Extent2D,
    pub hot_x: i16,
    pub hot_y: i16,
    pub record_version: u64,
}

/// The scene of one output and everything the walk found on the way.
#[derive(Debug)]
pub struct SceneBuild {
    pub scene: CompositeScene,
    pub snapshots: Vec<DamageSnapshot>,
    pub sampled_ids: Vec<DrawableId>,
    pub projected_damage: RegionSet,
    pub cursor_assignment: CursorAssignment,
    /// Clipped cursor footprint of this frame.
    pub new_cursor_rect: Option<Rect2D>,
    /// Version of the sprite behind `new_cursor_rect`.
    pub cursor_record_version: Option<u64>,
    /// Positions of the software-cursor draw and sampled id, if there is one.
    pub software_cursor_tail: Option<(usize, usize)>,
    /// One entry per participant, by placement. The cursor is not one.
    pub participants: Vec<ScenePresence>,
    pub stats: WalkStats,
    pub presented_ids: Vec<DrawableId>,
    pub pieces_ids: Vec<DrawableId>,
}

/// A build as contracts see it.
pub struct BuildView {
    pub draws: Seq<CompositeDraw>,
    pub snapshots: Seq<SnapshotView>,
    pub sampled_ids: Seq<DrawableId>,
    pub projected_damage: Seq<Rect2D>,
    pub cursor_assignment: CursorAssignment,
    pub new_cursor_rect: Option<Rect2D>,
    pub cursor_record_version: Option<u64>,
    pub software_cursor_tail: Option<(usize, usize)>,
    pub participants: Seq<PresenceView>,
    pub stats: WalkStats,
    pub presented_ids: Seq<DrawableId>,
    pub pieces_ids: Seq<DrawableId>,
}

impl View for SceneBuild {
    type V = BuildView;

    open spec fn view(&self) -> BuildView {
        BuildView {
            draws: self.scene.draws@,
            snapshots: snaps_view(self.snapshots@),
            sampled_ids: self.sampled_ids@,
            projected_damage: self.projected_damage@,
            cursor_assignment: self.cursor_assignment,
            new_cursor_rect: self.new_cursor_rect,
            cursor_record_version: self.cursor_record_version,
            software_cursor_tail: self.software_cursor_tail,
            participants: presences_view(self.participants@),
            stats: self.stats,
            presented_ids: self.presented_ids@,
            pieces_ids: self.pieces_ids@,
        }
    }
}

/// A list without one identity.
pub open spec fn without_id(s: Seq<DrawableId>, id: DrawableId) -> Seq<DrawableId>
    decreases s.len(),
{
    if s.len() == 0 {
        s
    } else {
        let head = without_id(s.drop_last(), id);
        if s.last() == id { head } else { head.push(s.last()) }
    }
}

fn remove_id(v: &Vec<DrawableId>, id: DrawableId) -> (r: Vec<DrawableId>)
    ensures
        r@ == without_id(v@, id),
{
    let mut r: Vec<DrawableId> = Vec::new();
    let mut i: usize = 0;
    assert(v@.take(0) =~= Seq::<DrawableId>::empty());
    while i < v.len()
        invariant
            i <= v@.len(),
            r@ == without_id(v@.take(i as int), id),
        decreases v.len() - i,
    {
        assert(v@.take(i + 1).drop_last() =~= v@.take(i as int));
        if v[i] != id {
            r.push(v[i]);
        }
        i = i + 1;
    }
    assert(v@.take(i as int) =~= v@);
    r
}

/// Whether the software cursor, if any, is the last draw and the last sampled
/// id.
pub open spec fn tail_ok(b: BuildView) -> bool {
    b.software_cursor_tail matches Some((d, s)) ==> b.draws.len() == d + 1 && b.sampled_ids.len()
        == s + 1
}

/// A build without its software cursor: no draw, no sample, no footprint.
pub open spec fn without_software_cursor(b: BuildView) -> BuildView {
    match b.software_cursor_tail {
        None => BuildView { new_cursor_rect: None, cursor_record_version: None, ..b },
        Some((d, s)) => BuildView {
            draws: b.draws.take(d as int),
            sampled_ids: b.sampled_ids.take(s as int),
            presented_ids: without_id(b.presented_ids, b.sampled_ids[s as int]),
            pieces_ids: without_id(b.pieces_ids, b.sampled_ids[s as int]),
            software_cursor_tail: None,
            new_cursor_rect: None,
            cursor_record_version: None,
            ..b
        },
    }
}

impl SceneBuild {
    /// Takes the software cursor out of the frame that hides the plane.
    pub fn omit_software_cursor_for_hide(&mut self)
        requires
            tail_ok(old(self)@),
        ensures
            final(self)@ == without_software_cursor(old(self)@),
            final(self).participants == old(self).participants,
            final(self).scene.bg_color == old(self).scene.bg_color,
    {
        if let Some((draw_index, sampled_index)) = self.software_cursor_tail {
            let cursor_id = self.sampled_ids[sampled_index];
            self.presented_ids = remove_id(&self.presented_ids, cursor_id);
            self.pieces_ids = remove_id(&self.pieces_ids, cursor_id);
            self.scene.draws.truncate(draw_index);
            self.sampled_ids.truncate(sampled_index);
            self.software_cursor_tail = None;
            assert(self@.draws =~= old(self)@.draws.take(draw_index as int));
            assert(self@.sampled_ids =~= old(self)@.sampled_ids.take(sampled_index as int));
        }
        self.new_cursor_rect = None;
        self.cursor_record_version = None;
    }
}

// ── the cursor ──────────────────────────────────────────────────────
/// The part of a sprite at `(dx, dy)` that lies on the output.
pub open spec fn footprint(
    dx: int,
    dy: int,
    cursor_w: int,
    cursor_h: int,
    layout_w: int,
    layout_h: int,
) -> Option<Rect2D> {
    let x0 = max_int(dx, 0);
    let y0 = max_int(dy, 0);
    let x1 = min_int(dx + cursor_w, layout_w);
    let y1 = min_int(dy + cursor_h, layout_h);
    if x1 <= x0 || y1 <= y0 { None } else { Some(corners(x0, y0, x1, y1)) }
}

pub fn cursor_footprint_rect(
    dx: i32,
    dy: i32,
    cursor_w: i32,
    cursor_h: i32,
    layout_w: i32,
    layout_h: i32,
) -> (r: Option<Rect2D>)
    ensures
        r == footprint(
            dx as int,
            dy as int,
            cursor_w as int,
            cursor_h as int,
            layout_w as int,
            layout_h as int,
        ),
{
    let x0 = max_i64(dx as i64, 0);
    let y0 = max_i64(dy as i64, 0);
    let x1 = min_i64(dx as i64 + cursor_w as i64, layout_w as i64);
    let y1 = min_i64(dy as i64 + cursor_h as i64, layout_h as i64);
    if x1 <= x0 || y1 <= y0 {
        None
    } else {
        Some(rect_from_corners(x0 as i32, y0 as i32, x1 as i32, y1 as i32))
    }
}

/// Everything the cursor decision reads.
pub struct CursorInput {
    pub entry: Option<CursorEntry>,
    pub x: i32,
    pub y: i32,
    /// Whether the hardware plane may be used and takes the sprite.
    pub hw: bool,
}

/// Where the sprite goes, output-local.
pub open spec fn sprite_origin(
    cur: CursorEntry,
    x: i32,
    y: i32,
    layout: OutputLayout,
) -> (i32, i32) {
    (sat_i32(x - cur.hot_x - layout.x), sat_i32(y - cur.hot_y - layout.y))
}

/// A build with the cursor decided: shown by the plane, drawn on top of
/// everything, or not on this output.
pub open spec fn with_cursor(
    b: BuildView,
    store: StoreView,
    layout: OutputLayout,
    c: CursorInput,
) -> BuildView {
    let hidden = BuildView {
        cursor_assignment: CursorAssignment::Hidden,
        new_cursor_rect: None,
        cursor_record_version: None,
        software_cursor_tail: None,
        ..b
    };
    match c.entry {
        None => hidden,
        Some(cur) => match store.get(cur.id) {
            None => hidden,
            Some(d) => if d.storage.image_view == 0 {
                hidden
            } else {
                let (dx, dy) = sprite_origin(cur, c.x, c.y, layout);
                let cw = clamp_len(cur.extent.width);
                let ch = clamp_len(cur.extent.height);
                match footprint(
                    dx as int,
                    dy as int,
                    cw,
                    ch,
                    layout.width as int,
                    layout.height as int,
                ) {
                    None => hidden,
                    Some(r) => if c.hw {
                        BuildView {
                            cursor_assignment: CursorAssignment::Hw {
                                x: c.x,
                                y: c.y,
                                record_version: cur.record_version,
                                hot_x: max_int(cur.hot_x as int, 0) as u16,
                                hot_y: max_int(cur.hot_y as int, 0) as u16,
                            },
                            new_cursor_rect: Some(r),
                            cursor_record_version: Some(cur.record_version),
                            software_cursor_tail: None,
                            ..b
                        }
                    } else {
                        BuildView {
                            draws: b.draws.push(
                                CompositeDraw {
                                    image_view: d.storage.sample_view,
                                    dst: Rect2D {
                                        offset: Offset2D { x: dx, y: dy },
                                        extent: Extent2D { width: cw as u32, height: ch as u32 },
                                    },
                                    source: SourceRect {
                                        x: 0,
                                        y: 0,
                                        width: 1,
                                        height: 1,
                                        of_width: 1,
                                        of_height: 1,
                                    },
                                    alpha_passthrough: true,
                                },
                            ),
                            sampled_ids: b.sampled_ids.push(cur.id),
                            presented_ids: b.presented_ids.push(cur.id),
                            pieces_ids: b.pieces_ids.push(cur.id),
                            cursor_assignment: CursorAssignment::Sw { pos: (dx, dy) },
                            new_cursor_rect: Some(r),
                            cursor_record_version: Some(cur.record_version),
                            software_cursor_tail: Some(
                                (b.draws.len() as usize, b.sampled_ids.len() as usize),
                            ),
                            ..b
                        }
                    },
                }
            },
        },
    }
}

fn hot_as_u16(h: i16) -> (r: u16)
    ensures
        r == max_int(h as int, 0),
{
    if h > 0 { h as u16 } else { 0 }
}

// ── the compositor's overlay ────────────────────────────────────────
/// Whether a window's rectangle, as a top-level, touches the output.
pub open spec fn on_output(g: WindowGeometry, l: OutputLayout) -> bool {
    &&& g.mapped
    &&& g.x < l.x + l.width
    &&& g.y < l.y + l.height
    &&& g.x + g.width > l.x
    &&& g.y + g.height > l.y
}

/// The topmost top-level on the output, the overlay aside.
pub open spec fn topmost_on_output(
    windows: Map<u32, WindowGeometry>,
    order: Seq<u32>,
    cow: Option<u32>,
    l: OutputLayout,
) -> Option<u32>
    decreases order.len(),
{
    if order.len() == 0 {
        None
    } else {
        let x = order.last();
        if cow != Some(x) && windows.dom().contains(x) && on_output(windows[x], l) {
            Some(x)
        } else {
            topmost_on_output(windows, order.drop_last(), cow, l)
        }
    }
}

/// Whether a window covers the whole output.
pub open spec fn covers_output(g: WindowGeometry, l: OutputLayout) -> bool {
    &&& g.x <= l.x
    &&& g.y <= l.y
    &&& g.x + g.width >= l.x + l.width
    &&& g.y + g.height >= l.y + l.height
}

/// Whether the window an xid names is part of the scene.
pub open spec fn participates(store: StoreView, xid: u32) -> bool {
    match store.lookup(xid) {
        None => false,
        Some(id) => match store.get(id) {
            None => false,
            Some(d) => d.scene_participating,
        },
    }
}

/// Whether the overlay is left out: the topmost window on the output covers it,
/// is opaque and is drawn here.
pub open spec fn suppresses_overlay(
    windows: Map<u32, WindowGeometry>,
    store: StoreView,
    order: Seq<u32>,
    cow: Option<u32>,
    l: OutputLayout,
) -> bool {
    cow is Some && match topmost_on_output(windows, order, cow, l) {
        None => false,
        Some(x) => covers_output(windows[x], l) && windows[x].depth != 32 && participates(store, x),
    }
}

fn overlay_suppressed(
    windows: &WindowsMap,
    store: &DrawableStore,
    order: &Vec<u32>,
    cow: Option<u32>,
    l: OutputLayout,
) -> (r: bool)
    requires
        layout_ok(l),
    ensures
        r == suppresses_overlay(windows@, store@, order@, cow, l),
{
    if cow.is_none() {
        return false;
    }
    let lx = l.x;
    let ly = l.y;
    let rx = l.x + l.width as i32;
    let ry = l.y + l.height as i32;
    let mut n: usize = order.len();
    assert(order@.take(n as int) =~= order@);
    while n > 0
        invariant
            n <= order@.len(),
            lx == l.x,
            ly == l.y,
            rx == l.x + l.width,
            ry == l.y + l.height,
            cow is Some,
            topmost_on_output(windows@, order@, cow, l) == topmost_on_output(
                windows@,
                order@.take(n as int),
                cow,
                l,
            ),
        decreases n,
    {
        let x = order[n - 1];
        assert(order@.take(n as int).drop_last() =~= order@.take(n - 1));
        if cow != Some(x) {
            if let Some(g) = windows.get(&x) {
                let gx = g.x as i32;
                let gy = g.y as i32;
                let gr = gx + g.width as i32;
                let gb = gy + g.height as i32;
                if g.mapped && gx < rx && gy < ry && gr > lx && gb > ly {
                    let covers = gx <= lx && gy <= ly && gr >= rx && gb >= ry;
                    let opaque = g.depth != 32;
                    let participating = match store.lookup(x) {
                        None => false,
                        Some(id) => match store.get(id) {
                            None => false,
                            Some(d) => d.scene_participating,
                        },
                    };
                    return covers && opaque && participating;
                }
            }
        }
        n = n - 1;
    }
    assert(order@.take(0) =~= Seq::<u32>::empty());
    false
}

// ── top-levels ──────────────────────────────────────────────────────
/// The universe and the sink after the top-levels were visited, top to bottom.
pub open spec fn top_levels_visited(
    input: WalkInput,
    fuel: nat,
    order: Seq<u32>,
    cow: Option<u32>,
    suppress: bool,
    universe: Set<(int, int)>,
    s: SinkView,
) -> (Set<(int, int)>, SinkView)
    decreases order.len(),
{
    if order.len() == 0 {
        (universe, s)
    } else {
        let top = order.last();
        let (u, t) = if suppress && cow == Some(top) {
            (universe, s)
        } else {
            visited(input, fuel, top, 0, 0, universe, s, false, cow == Some(top), no_clip())
        };
        top_levels_visited(input, fuel, order.drop_last(), cow, suppress, u, t)
    }
}

fn visit_top_levels(
    ctx: &WalkContext<'_>,
    fuel: usize,
    order: &Vec<u32>,
    cow: Option<u32>,
    suppress: bool,
    universe: &mut Region,
    sink: &mut WalkSink,
)
    requires
        ctx.wf(),
    ensures
        (final(universe)@, final(sink)@) == top_levels_visited(
            ctx@,
            fuel as nat,
            order@,
            cow,
            suppress,
            old(universe)@,
            old(sink)@,
        ),
{
    let ghost goal = top_levels_visited(
        ctx@,
        fuel as nat,
        order@,
        cow,
        suppress,
        universe@,
        sink@,
    );
    let clip = ClipBox {
        x0: -0x4000_0000,
        y0: -0x4000_0000,
        x1: 0x3fff_ffff,
        y1: 0x3fff_ffff,
    };
    let mut n: usize = order.len();
    assert(order@.take(n as int) =~= order@);
    while n > 0
        invariant
            n <= order@.len(),
            ctx.wf(),
            clip == no_clip(),
            goal == top_levels_visited(
                ctx@,
                fuel as nat,
                order@.take(n as int),
                cow,
                suppress,
                universe@,
                sink@,
            ),
        decreases n,
    {
        assert(order@.take(n as int).drop_last() =~= order@.take(n - 1));
        let top = order[n - 1];
        let is_cow = cow == Some(top);
        if !(suppress && is_cow) {
            visit_window_subtree(ctx, fuel, top, 0, 0, universe, sink, false, is_cow, clip);
        }
        n = n - 1;
    }
    assert(order@.take(0) =~= Seq::<u32>::empty());
}

// ── the root ────────────────────────────────────────────────────────
/// The root as a node of the walk.
pub struct RootView {
    pub id: DrawableId,
    pub place: Seq<Rect2D>,
    pub paint: NodePaint,
}

/// The root drawable's decision: its storage at the output's origin.
pub open spec fn root_of(input: WalkInput, window_id: u32) -> Option<RootView> {
    match input.store.lookup(window_id) {
        None => None,
        Some(id) => match input.store.get(id) {
            None => None,
            Some(d) => if !d.scene_participating || d.kind != DrawableKind::Root {
                None
            } else {
                let source_id = match input.store.redirected(id) {
                    Some(t) => t,
                    None => id,
                };
                match input.store.get(source_id) {
                    None => None,
                    Some(source) => if source.storage.image_view == 0 {
                        None
                    } else {
                        let full = Rect2D {
                            offset: Offset2D {
                                x: (-input.layout.x) as i32,
                                y: (-input.layout.y) as i32,
                            },
                            extent: d.storage.extent,
                        };
                        let denom = match input.mode {
                            Visibility::Off => d.storage.extent,
                            Visibility::On => source.storage.extent,
                        };
                        Some(
                            RootView {
                                id,
                                place: match input.mode {
                                    Visibility::Off => seq![full],
                                    Visibility::On => match intersection(
                                        full,
                                        output_rect(input.extent()),
                                    ) {
                                        Some(r) => seq![r],
                                        None => Seq::empty(),
                                    },
                                },
                                paint: NodePaint {
                                    dx: (-input.layout.x) as i32,
                                    dy: (-input.layout.y) as i32,
                                    denom_w: clamp_len(denom.width) as i32,
                                    denom_h: clamp_len(denom.height) as i32,
                                    view: source.storage.sample_view,
                                    alpha_passthrough: false,
                                    source_id,
                                },
                            },
                        )
                    },
                }
            },
        },
    }
}

/// The root as a node of the walk.
#[derive(Debug)]
pub struct RootNode {
    pub id: DrawableId,
    /// Output-local rects the root occupies.
    pub place: Vec<Rect2D>,
    pub paint: NodePaint,
}

pub fn root_node(ctx: &WalkContext<'_>, window_id: u32) -> (r: Option<RootNode>)
    requires
        ctx.wf(),
    ensures
        r is Some <==> root_of(ctx@, window_id) is Some,
        r matches Some(n) ==> root_of(ctx@, window_id) == Some(
            RootView { id: n.id, place: n.place@, paint: n.paint },
        ),
{
    let id = match ctx.store.lookup(window_id) {
        None => {
            return None;
        },
        Some(id) => id,
    };
    let d = match ctx.store.get(id) {
        None => {
            return None;
        },
        Some(d) => d,
    };
    if !d.scene_participating || d.kind != DrawableKind::Root {
        return None;
    }
    let source_id = match ctx.store.redirected_target(id) {
        Some(t) => t,
        None => id,
    };
    let source = match ctx.store.get(source_id) {
        None => {
            return None;
        },
        Some(s) => s,
    };
    if source.storage.image_view == 0 {
        return None;
    }
    let dx = -ctx.layout.x;
    let dy = -ctx.layout.y;
    let full = Rect2D { offset: Offset2D { x: dx, y: dy }, extent: d.storage.extent };
    let mut place: Vec<Rect2D> = Vec::new();
    let denom = match ctx.mode {
        Visibility::Off => {
            place.push(full);
            assert(place@ =~= seq![full]);
            d.storage.extent
        },
        Visibility::On => {
            let ext = Extent2D {
                width: ctx.layout.width as u32,
                height: ctx.layout.height as u32,
            };
            if let Some(r) = clip_rect_to_output_extent(full, ext) {
                place.push(r);
                assert(place@ =~= seq![r]);
            }
            source.storage.extent
        },
    };
    Some(
        RootNode {
            id,
            place,
            paint: NodePaint {
                dx,
                dy,
                denom_w: len_as_i32(denom.width),
                denom_h: len_as_i32(denom.height),
                view: source.storage.sample_view,
                alpha_passthrough: false,
                source_id,
            },
        },
    )
}

/// The sink after the root was emitted under everything else.
pub open spec fn root_emitted(
    input: WalkInput,
    window_id: u32,
    universe: Set<(int, int)>,
    s: SinkView,
) -> SinkView {
    match root_of(input, window_id) {
        None => s,
        Some(root) => {
            let counted = SinkView {
                stats: WalkStats {
                    nodes_visited: sat_add(s.stats.nodes_visited, 1),
                    ..s.stats
                },
                ..s
            };
            presence_pushed(
                emitted_sink(
                    counted,
                    input.mode,
                    universe,
                    root.place,
                    root.paint,
                    input.store,
                    input.extent(),
                    input.elsewhere,
                ),
                root.place,
                visible_px(input.mode, universe, root.place),
                signature_of(root.paint, root.place),
                ParticipantId { role: SceneRole::Root, xid: window_id, generation: root.id.raw },
            )
        },
    }
}

// ── the build ───────────────────────────────────────────────────────
/// What nothing has claimed before the walk: the output.
pub open spec fn whole_universe(input: WalkInput) -> Set<(int, int)> {
    match input.mode {
        Visibility::On => output_rect(input.extent()).px(),
        Visibility::Off => Set::empty(),
    }
}

/// The lists the walk collects, in computation order.
pub open spec fn walked(
    input: WalkInput,
    window_id: u32,
    order: Seq<u32>,
    cow: Option<u32>,
) -> SinkView {
    let suppress = suppresses_overlay(input.windows, input.store, order, cow, input.layout);
    let (u, s) = top_levels_visited(
        input,
        input.windows.dom().len(),
        order,
        cow,
        suppress,
        whole_universe(input),
        empty_sink(),
    );
    root_emitted(input, window_id, u, s)
}

/// A build from the walk's lists, before the cursor.
pub open spec fn build_of(s: SinkView) -> BuildView {
    BuildView {
        draws: s.draws,
        snapshots: s.snapshots,
        sampled_ids: s.sampled_ids,
        projected_damage: s.projected,
        cursor_assignment: CursorAssignment::Hidden,
        new_cursor_rect: None,
        cursor_record_version: None,
        software_cursor_tail: None,
        participants: s.participants,
        stats: s.stats,
        presented_ids: s.presented_ids,
        pieces_ids: s.pieces_ids,
    }
}

/// The scene of one output.
pub open spec fn built(
    input: WalkInput,
    window_id: u32,
    order: Seq<u32>,
    cow: Option<u32>,
    cursor: CursorInput,
) -> BuildView {
    with_cursor(
        build_of(reversed_sink(walked(input, window_id, order, cow))),
        input.store,
        input.layout,
        cursor,
    )
}

/// The walk's input, from what a build is given.
pub open spec fn input_of(
    core: &KmsCore,
    store: &DrawableStore,
    windows: &WindowsMap,
    layout: OutputLayout,
    mode: Visibility,
    elsewhere: Set<DrawableId>,
) -> WalkInput {
    WalkInput {
        windows: windows@,
        shapes: core.shape_bounding@,
        store: store@,
        layout,
        mode,
        elsewhere,
    }
}

/// [`build_scene_with`] without knowledge of other outputs: every paint off this
/// output is treated as stranded.
pub fn build_scene(
    core: &KmsCore,
    store: &DrawableStore,
    windows: &WindowsMap,
    layout: OutputLayout,
    cursor: Option<CursorEntry>,
    cow_host_xid: Option<u32>,
    hw_strategy_active: bool,
    hw_fits: bool,
    mode: Visibility,
) -> (r: SceneBuild)
    requires
        layout_ok(layout),
    ensures
        r@ == built(
            input_of(core, store, windows, layout, mode, Set::empty()),
            core.window_id,
            core.top_level_order@,
            cow_host_xid,
            CursorInput {
                entry: cursor,
                x: core.cursor_x,
                y: core.cursor_y,
                hw: hw_strategy_active && hw_fits,
            },
        ),
        r.scene.bg_color == black(),
        tail_ok(r@),
{
    let nowhere = IdSet::new();
    build_scene_with(
        core,
        store,
        windows,
        layout,
        cursor,
        cow_host_xid,
        hw_strategy_active,
        hw_fits,
        mode,
        &nowhere,
    )
}

/// Walks the window tree and builds the scene of one output. `elsewhere` is what
/// other outputs showed at their last walk; `hw_fits` whether the output's
/// cursor plane takes the sprite.
pub fn build_scene_with(
    core: &KmsCore,
    store: &DrawableStore,
    windows: &WindowsMap,
    layout: OutputLayout,
    cursor: Option<CursorEntry>,
    cow_host_xid: Option<u32>,
    hw_strategy_active: bool,
    hw_fits: bool,
    mode: Visibility,
    elsewhere: &IdSet,
) -> (r: SceneBuild)
    requires
        layout_ok(layout),
    ensures
        r@ == built(
            input_of(core, store, windows, layout, mode, elsewhere@),
            core.window_id,
            core.top_level_order@,
            cow_host_xid,
            CursorInput {
                entry: cursor,
                x: core.cursor_x,
                y: core.cursor_y,
                hw: hw_strategy_active && hw_fits,
            },
        ),
        r.scene.bg_color == black(),
        tail_ok(r@),
{
    let children = children_index(windows);
    let ctx = WalkContext {
        windows,
        children: &children,
        shapes: &core.shape_bounding,
        store,
        layout,
        mode,
        elsewhere,
    };
    let ghost input = ctx@;
    let mut sink = WalkSink::new();
    let root = root_node(&ctx, core.window_id);
    let suppress = overlay_suppressed(windows, store, &core.top_level_order, cow_host_xid, layout);
    let ext = Extent2D { width: layout.width as u32, height: layout.height as u32 };
    let mut universe = match mode {
        Visibility::On => Region::from_rect(
            Rect2D { offset: Offset2D { x: 0, y: 0 }, extent: ext },
        ),
        Visibility::Off => Region::new(),
    };
    assert(universe@ == whole_universe(input));
    let fuel = windows.len();
    assert(fuel == windows@.dom().len());
    visit_top_levels(
        &ctx,
        fuel,
        &core.top_level_order,
        cow_host_xid,
        suppress,
        &mut universe,
        &mut sink,
    );
    if let Some(root) = root {
        sink.stats.nodes_visited = bump(sink.stats.nodes_visited);
        let out = emit_node(
            &mut sink,
            mode,
            &universe,
            &root.place,
            root.paint,
            store,
            ext,
            elsewhere,
        );
        push_presence(
            &mut sink,
            root.place,
            out,
            ParticipantId {
                role: SceneRole::Root,
                xid: core.window_id,
                generation: root.id.as_u64(),
            },
        );
    }
    assert(sink@ == walked(input, core.window_id, core.top_level_order@, cow_host_xid));
    sink.reverse();
    let mut b = SceneBuild {
        scene: CompositeScene { bg_color: Rgba { r: 0, g: 0, b: 0, a: 255 }, draws: sink.draws },
        snapshots: sink.snapshots,
        sampled_ids: sink.sampled_ids,
        projected_damage: sink.projected,
        cursor_assignment: CursorAssignment::Hidden,
        new_cursor_rect: None,
        cursor_record_version: None,
        software_cursor_tail: None,
        participants: sink.participants,
        stats: sink.stats,
        presented_ids: sink.presented_ids,
        pieces_ids: sink.pieces_ids,
    };
    let ghost before = b@;
    if let Some(cur) = cursor {
        if let Some(d) = store.get(cur.id) {
            if d.storage.image_view != 0 {
                let cw = len_as_i32(cur.extent.width);
                let ch = len_as_i32(cur.extent.height);
                let dx = to_i32(core.cursor_x as i64 - cur.hot_x as i64 - layout.x as i64);
                let dy = to_i32(core.cursor_y as i64 - cur.hot_y as i64 - layout.y as i64);
                let new_rect = cursor_footprint_rect(
                    dx,
                    dy,
                    cw,
                    ch,
                    layout.width as i32,
                    layout.height as i32,
                );
                if new_rect.is_some() {
                    b.new_cursor_rect = new_rect;
                    b.cursor_record_version = Some(cur.record_version);
                    if hw_strategy_active && hw_fits {
                        b.cursor_assignment = CursorAssignment::Hw {
                            x: core.cursor_x,
                            y: core.cursor_y,
                            record_version: cur.record_version,
                            hot_x: hot_as_u16(cur.hot_x),
                            hot_y: hot_as_u16(cur.hot_y),
                        };
                    } else {
                        b.software_cursor_tail = Some((b.scene.draws.len(), b.sampled_ids.len()));
                        b.scene.draws.push(
                            CompositeDraw {
                                image_view: d.storage.sample_view,
                                dst: Rect2D {
                                    offset: Offset2D { x: dx, y: dy },
                                    extent: Extent2D { width: cw as u32, height: ch as u32 },
                                },
                                source: SourceRect::full(),
                                alpha_passthrough: true,
                            },
                        );
                        b.sampled_ids.push(cur.id);
                        b.presented_ids.push(cur.id);
                        b.pieces_ids.push(cur.id);
                        b.cursor_assignment = CursorAssignment::Sw { pos: (dx, dy) };
                    }
                }
            }
        }
    }
    b
}

} // verus!
