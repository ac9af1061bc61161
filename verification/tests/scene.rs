use scene_compositor::draw::{draw_dst_rect, CompositeDraw};
use scene_compositor::geometry::{
    project_onto_output, rects_intersect, Extent2D, Offset2D, Rect2D,
};
use scene_compositor::ids::{DrawableId, IdSet};
use scene_compositor::region::Region;
use scene_compositor::region_set::RegionSet;
use scene_compositor::scene_build::{build_scene, build_scene_with, CursorEntry, SceneBuild};
use scene_compositor::scene_diff::{
    presence_from_place, structural_damage, ParticipantId, PresenceSignature, ScenePresence,
    SceneRole, SourceRect,
};
use scene_compositor::store::{DormantReason, DrawableKind, DrawableStore, Storage};
use scene_compositor::walk::{Visibility, WalkStats};
use scene_compositor::windows::{KmsCore, OutputLayout, RegionRect, WindowGeometry, WindowsMap};
use std::collections::HashMap;

fn rect(x: i32, y: i32, w: u32, h: u32) -> Rect2D {
    Rect2D {
        offset: Offset2D { x, y },
        extent: Extent2D {
            width: w,
            height: h,
        },
    }
}

fn extent(w: u32, h: u32) -> Extent2D {
    Extent2D {
        width: w,
        height: h,
    }
}

fn layout(x: i32, y: i32, width: u16, height: u16) -> OutputLayout {
    OutputLayout {
        x,
        y,
        width,
        height,
    }
}

fn storage(extent: Extent2D, view: u64) -> Storage {
    Storage {
        extent,
        image_view: view,
        sample_view: view,
    }
}

fn core_for_tests() -> KmsCore {
    KmsCore {
        window_id: 1,
        top_level_order: Vec::new(),
        shape_bounding: HashMap::new(),
        cursor_x: 0,
        cursor_y: 0,
    }
}

fn id_set(ids: &[DrawableId]) -> IdSet {
    let mut set = IdSet::new();
    set.extend_from(ids);
    set
}

fn origin(d: &CompositeDraw) -> [f32; 2] {
    [d.dst.offset.x as f32, d.dst.offset.y as f32]
}

fn size(d: &CompositeDraw) -> [f32; 2] {
    [d.dst.extent.width as f32, d.dst.extent.height as f32]
}

fn src_origin(d: &CompositeDraw) -> [f32; 2] {
    [
        d.source.x as f32 / d.source.of_width as f32,
        d.source.y as f32 / d.source.of_height as f32,
    ]
}

fn src_size(d: &CompositeDraw) -> [f32; 2] {
    [
        d.source.width as f32 / d.source.of_width as f32,
        d.source.height as f32 / d.source.of_height as f32,
    ]
}

fn alloc_stub_window(
    store: &mut DrawableStore,
    windows: &mut WindowsMap,
    xid: u32,
    x: i16,
    y: i16,
    w: u16,
    h: u16,
    parent: Option<u32>,
    mapped: bool,
) {
    let view = u64::from(xid) | 0xFF00_0000;
    store
        .allocate(
            xid,
            DrawableKind::Window,
            32,
            mapped,
            storage(extent(u32::from(w), u32::from(h)), view),
        )
        .expect("stub allocate");
    windows.insert(
        xid,
        WindowGeometry {
            x,
            y,
            width: w,
            height: h,
            depth: 32,
            mapped,
            parent,
            stack_rank: 0,
        },
    );
}

fn alloc_backing(store: &mut DrawableStore, xid: u32, w: u32, h: u32) -> DrawableId {
    let view = u64::from(xid) | 0xB000_0000;
    store
        .allocate(
            xid,
            DrawableKind::Pixmap,
            32,
            true,
            storage(extent(w, h), view),
        )
        .expect("alloc backing stub")
}

fn alloc_root(core: &KmsCore, store: &mut DrawableStore, w: u32, h: u32) {
    store
        .allocate(
            core.window_id,
            DrawableKind::Root,
            24,
            true,
            storage(extent(w, h), 0x00A0_7000),
        )
        .expect("alloc root stub");
}

fn set_rank(windows: &mut WindowsMap, xid: u32, rank: u64) {
    windows.get_mut(&xid).expect("window present").stack_rank = rank;
}

#[derive(Debug, PartialEq, Eq)]
struct DrawKey {
    view: u64,
    dst_origin: [u32; 2],
    dst_size: [u32; 2],
    src_origin: [u32; 2],
    src_size: [u32; 2],
    alpha_passthrough: bool,
}

fn draw_key(d: &CompositeDraw) -> DrawKey {
    DrawKey {
        view: d.image_view,
        dst_origin: origin(d).map(f32::to_bits),
        dst_size: size(d).map(f32::to_bits),
        src_origin: src_origin(d).map(f32::to_bits),
        src_size: src_size(d).map(f32::to_bits),
        alpha_passthrough: d.alpha_passthrough,
    }
}

#[derive(Clone, Debug)]
struct PresenceKey {
    id: ParticipantId,
    region: Vec<Rect2D>,
    place: Vec<Rect2D>,
    visible: Vec<Rect2D>,
    signature: PresenceSignature,
}

impl PartialEq for PresenceKey {
    fn eq(&self, other: &Self) -> bool {
        self.id == other.id
            && self.region == other.region
            && self.place == other.place
            && self.visible == other.visible
            && self.signature == other.signature
    }
}

fn presence_key(p: &ScenePresence) -> PresenceKey {
    PresenceKey {
        id: p.id,
        region: p.region.rects(),
        place: p.place.clone(),
        visible: p.visible.rects(),
        signature: p.signature,
    }
}

#[derive(Debug, PartialEq)]
struct WalkOut {
    draws: Vec<DrawKey>,
    participants: Vec<PresenceKey>,
    sampled: Vec<DrawableId>,
    snapshots: Vec<(DrawableId, u64)>,
    projected: Vec<Rect2D>,
}

impl WalkOut {
    fn stats_free_snapshots(&self) -> usize {
        self.snapshots.len()
    }
}

/// The clip handed down the plain walk.
#[derive(Clone, Copy)]
struct Clip {
    x0: i32,
    y0: i32,
    x1: i32,
    y1: i32,
}

/// A walk that neither hides nor indexes anything: it scans every window for
/// children and draws each window whole inside its ancestors.
struct PlainWalk<'a> {
    core: &'a KmsCore,
    store: &'a DrawableStore,
    windows: &'a WindowsMap,
    layout: (i32, i32, u32, u32),
    draws: Vec<CompositeDraw>,
    participants: Vec<ScenePresence>,
    sampled: Vec<DrawableId>,
    snapshots: Vec<(DrawableId, u64)>,
    projected: RegionSet,
}

impl PlainWalk<'_> {
    fn emit(&mut self, xid: u32, px: i32, py: i32, redirected: bool, cow: bool, clip: Clip) {
        let Some(geom) = self.windows.get(&xid).copied() else {
            return;
        };
        if !geom.mapped {
            return;
        }
        let (lx, ly, lw, lh) = self.layout;
        let (ax, ay) = (px + i32::from(geom.x), py + i32::from(geom.y));
        let (w, h) = (i32::from(geom.width), i32::from(geom.height));
        let (dx, dy) = (ax - lx, ay - ly);
        let inner = Clip {
            x0: clip.x0.max(ax),
            y0: clip.y0.max(ay),
            x1: clip.x1.min(ax + w),
            y1: clip.y1.min(ay + h),
        };
        let own = self.store.lookup(xid);
        let target = own.and_then(|id| self.store.redirected_target(id));
        let on_output = dx < lw as i32 && dy < lh as i32 && dx + w > 0 && dy + h > 0;
        if let Some(d) = own.and_then(|id| self.store.get(id)) {
            let source = self
                .store
                .get(target.unwrap_or(d.id))
                .expect("source drawable");
            let manual = target.is_some() && !d.scene_participating;
            let paints_itself = target.is_some() || !redirected;
            if on_output
                && !manual
                && paints_itself
                && (d.scene_participating || target.is_some())
                && d.kind == DrawableKind::Window
                && source.storage.image_view != 0
            {
                let boxes = match self.core.shape_bounding.get(&xid) {
                    Some(rects) => rects
                        .iter()
                        .map(|r| {
                            let (x, y) = (i32::from(r.x), i32::from(r.y));
                            (x, y, x + i32::from(r.width), y + i32::from(r.height))
                        })
                        .collect(),
                    None => vec![(0, 0, w, h)],
                };
                let first = self.draws.len();
                for (x0, y0, x1, y1) in boxes {
                    let (x0, y0) = (x0.max(inner.x0 - ax), y0.max(inner.y0 - ay));
                    let (x1, y1) = (x1.min(inner.x1 - ax), y1.min(inner.y1 - ay));
                    if x1 > x0 && y1 > y0 {
                        self.draws.push(CompositeDraw {
                            image_view: source.storage.sample_view,
                            dst: rect(dx + x0, dy + y0, (x1 - x0) as u32, (y1 - y0) as u32),
                            source: SourceRect {
                                x: x0,
                                y: y0,
                                width: x1 - x0,
                                height: y1 - y0,
                                of_width: w,
                                of_height: h,
                            },
                            alpha_passthrough: cow,
                        });
                    }
                }
                if self.draws.len() > first {
                    self.sampled.push(source.id);
                    let place: Vec<Rect2D> = self.draws[first..].iter().map(|d| d.dst).collect();
                    let visible = Region::from_rects(&place);
                    let lead = self.draws[first];
                    self.participants.push(
                        presence_from_place(
                            place,
                            visible,
                            ParticipantId {
                                role: SceneRole::Window,
                                xid,
                                generation: d.id.as_u64(),
                            },
                            PresenceSignature::new(
                                lead.image_view,
                                lead.source,
                                lead.alpha_passthrough,
                            ),
                        )
                        .expect("placed"),
                    );
                    if let Some(snap) = self.store.peek_presentation_damage(source.id) {
                        for r in snap.region.rects() {
                            if let Some(on) = project_onto_output(*r, dx, dy, lw, lh) {
                                self.projected.add(on);
                            }
                        }
                        self.snapshots.push((snap.id, snap.epoch));
                    }
                }
            }
        }
        let mut children: Vec<(u64, u32)> = self
            .windows
            .iter()
            .filter(|(_, g)| g.parent == Some(xid))
            .map(|(child, g)| (g.stack_rank, *child))
            .collect();
        children.sort();
        for (_, child) in children {
            self.emit(child, ax, ay, redirected || target.is_some(), cow, inner);
        }
    }
}

fn build_with(
    mode: Visibility,
    core: &KmsCore,
    store: &DrawableStore,
    windows: &WindowsMap,
    at: (i32, i32, u32, u32),
    cow_host_xid: Option<u32>,
) -> SceneBuild {
    build_with_elsewhere(mode, core, store, windows, at, cow_host_xid, &IdSet::new())
}

fn build_with_elsewhere(
    mode: Visibility,
    core: &KmsCore,
    store: &DrawableStore,
    windows: &WindowsMap,
    at: (i32, i32, u32, u32),
    cow_host_xid: Option<u32>,
    elsewhere: &IdSet,
) -> SceneBuild {
    build_scene_with(
        core,
        store,
        windows,
        layout(at.0, at.1, at.2 as u16, at.3 as u16),
        None,
        cow_host_xid,
        false,
        false,
        mode,
        elsewhere,
    )
}

fn sorted_rects(mut rects: Vec<Rect2D>) -> Vec<Rect2D> {
    rects.sort_by_key(|r| (r.offset.y, r.offset.x, r.extent.height, r.extent.width));
    rects
}

fn projected_sorted(built: &SceneBuild) -> Vec<Rect2D> {
    sorted_rects(built.projected_damage.rects().to_vec())
}

fn walk_out_of(built: &SceneBuild) -> WalkOut {
    WalkOut {
        draws: built.scene.draws.iter().map(draw_key).collect(),
        participants: built.participants.iter().map(presence_key).collect(),
        sampled: built.sampled_ids.clone(),
        snapshots: built.snapshots.iter().map(|s| (s.id, s.epoch)).collect(),
        projected: projected_sorted(built),
    }
}

/// The plain walk (`plain`), or the built scene without visibility.
fn walk_with(
    plain: bool,
    core: &KmsCore,
    store: &DrawableStore,
    windows: &WindowsMap,
    at: (i32, i32, u32, u32),
    cow_host_xid: Option<u32>,
) -> WalkOut {
    if !plain {
        return walk_out_of(&build_with(
            Visibility::Off,
            core,
            store,
            windows,
            at,
            cow_host_xid,
        ));
    }
    let mut walk = PlainWalk {
        core,
        store,
        windows,
        layout: at,
        draws: Vec::new(),
        participants: Vec::new(),
        sampled: Vec::new(),
        snapshots: Vec::new(),
        projected: RegionSet::new(),
    };
    for &top in &core.top_level_order {
        let everything = Clip {
            x0: i32::MIN / 2,
            y0: i32::MIN / 2,
            x1: i32::MAX / 2,
            y1: i32::MAX / 2,
        };
        walk.emit(top, 0, 0, false, Some(top) == cow_host_xid, everything);
    }
    WalkOut {
        draws: walk.draws.iter().map(draw_key).collect(),
        participants: walk.participants.iter().map(presence_key).collect(),
        sampled: walk.sampled,
        snapshots: walk.snapshots,
        projected: sorted_rects(walk.projected.rects().to_vec()),
    }
}

/// What is shown at a pixel: the samples that alpha draws leave and that an
/// opaque draw resets.
type PixelStack = Vec<(u64, f64, f64)>;

fn rasterise(draws: &[CompositeDraw], w: u32, h: u32) -> Vec<PixelStack> {
    let (wi, hi) = (w as usize, h as usize);
    let mut grid: Vec<PixelStack> = vec![Vec::new(); wi * hi];
    for d in draws {
        let (o, s) = (origin(d), size(d));
        let (so, ss) = (src_origin(d), src_size(d));
        let x0 = o[0].max(0.0) as usize;
        let y0 = o[1].max(0.0) as usize;
        let x1 = ((o[0] + s[0]).max(0.0) as usize).min(wi);
        let y1 = ((o[1] + s[1]).max(0.0) as usize).min(hi);
        for py in y0..y1 {
            for px in x0..x1 {
                let fx = (px as f64 + 0.5 - f64::from(o[0])) / f64::from(s[0]);
                let fy = (py as f64 + 0.5 - f64::from(o[1])) / f64::from(s[1]);
                let u = f64::from(so[0]) + fx * f64::from(ss[0]);
                let v = f64::from(so[1]) + fy * f64::from(ss[1]);
                let cell = &mut grid[py * wi + px];
                if !d.alpha_passthrough {
                    cell.clear();
                }
                cell.push((d.image_view, u, v));
            }
        }
    }
    grid
}

fn stacks_equal(a: &PixelStack, b: &PixelStack) -> bool {
    a.len() == b.len()
        && a.iter()
            .zip(b)
            .all(|(x, y)| x.0 == y.0 && (x.1 - y.1).abs() < 1e-4 && (x.2 - y.2).abs() < 1e-4)
}

/// Holds the scene with visibility to the one without, at every pixel.
fn assert_oracle(
    core: &KmsCore,
    store: &DrawableStore,
    windows: &WindowsMap,
    at: (i32, i32, u32, u32),
    cow: Option<u32>,
    label: &str,
) -> SceneBuild {
    let off = build_with(Visibility::Off, core, store, windows, at, cow);
    let on = build_with(Visibility::On, core, store, windows, at, cow);
    let a = rasterise(&off.scene.draws, at.2, at.3);
    let b = rasterise(&on.scene.draws, at.2, at.3);
    for (i, (sa, sb)) in a.iter().zip(&b).enumerate() {
        assert!(
            stacks_equal(sa, sb),
            "{label}: pixel ({},{}) differs: off={sa:?} on={sb:?} (layout {at:?}, cow {cow:?})",
            i % at.2 as usize,
            i / at.2 as usize,
        );
    }
    assert_eq!(
        on.stats.draws_emitted,
        u64::try_from(on.scene.draws.len()).unwrap(),
        "{label}: the stats count what was emitted"
    );
    on
}

fn area_of(r: Rect2D) -> u64 {
    u64::from(r.extent.width) * u64::from(r.extent.height)
}

fn draws_of(built: &SceneBuild, view: u64) -> Vec<Rect2D> {
    built
        .scene
        .draws
        .iter()
        .filter(|d| d.image_view == view)
        .filter_map(draw_dst_rect)
        .collect()
}

fn win_view(xid: u32) -> u64 {
    u64::from(xid) | 0xFF00_0000
}

fn drawable_of(store: &DrawableStore, xid: u32) -> DrawableId {
    store.lookup(xid).expect("fixture window has a drawable")
}

fn differential_fixture() -> (KmsCore, DrawableStore, WindowsMap) {
    let mut core = core_for_tests();
    let mut store = DrawableStore::new();
    let mut windows = WindowsMap::new();
    let mut rank = 1u64;
    let mut add = |store: &mut DrawableStore,
                   windows: &mut WindowsMap,
                   xid: u32,
                   x: i16,
                   y: i16,
                   w: u16,
                   h: u16,
                   parent: Option<u32>,
                   mapped: bool| {
        alloc_stub_window(store, windows, xid, x, y, w, h, parent, mapped);
        set_rank(windows, xid, rank);
        rank += 1;
    };

    add(
        &mut store,
        &mut windows,
        0x100,
        10,
        10,
        300,
        200,
        None,
        true,
    );
    add(
        &mut store,
        &mut windows,
        0x101,
        20,
        20,
        200,
        100,
        Some(0x100),
        true,
    );
    add(
        &mut store,
        &mut windows,
        0x102,
        30,
        30,
        50,
        40,
        Some(0x101),
        true,
    );
    add(
        &mut store,
        &mut windows,
        0x103,
        5,
        5,
        50,
        50,
        Some(0x100),
        false,
    );
    add(
        &mut store,
        &mut windows,
        0x104,
        1,
        1,
        10,
        10,
        Some(0x103),
        true,
    );
    add(
        &mut store,
        &mut windows,
        0x200,
        100,
        100,
        150,
        150,
        None,
        true,
    );
    add(
        &mut store,
        &mut windows,
        0x201,
        200,
        150,
        150,
        150,
        None,
        true,
    );
    add(
        &mut store,
        &mut windows,
        0x300,
        400,
        40,
        120,
        90,
        None,
        true,
    );
    core.shape_bounding.insert(
        0x300,
        vec![
            RegionRect {
                x: 0,
                y: 0,
                width: 120,
                height: 10,
            },
            RegionRect {
                x: 0,
                y: 10,
                width: 10,
                height: 70,
            },
            RegionRect {
                x: 110,
                y: 10,
                width: 10,
                height: 70,
            },
            RegionRect {
                x: 0,
                y: 80,
                width: 120,
                height: 10,
            },
            RegionRect {
                x: 100,
                y: 85,
                width: 60,
                height: 30,
            },
        ],
    );
    add(
        &mut store,
        &mut windows,
        0x400,
        600,
        300,
        10,
        10,
        None,
        true,
    );
    add(
        &mut store,
        &mut windows,
        0x401,
        -5,
        -5,
        100,
        100,
        Some(0x400),
        true,
    );
    add(
        &mut store,
        &mut windows,
        0x402,
        50,
        50,
        20,
        20,
        Some(0x401),
        true,
    );
    add(
        &mut store,
        &mut windows,
        0x500,
        -50,
        -50,
        100,
        100,
        None,
        true,
    );
    add(
        &mut store,
        &mut windows,
        0x501,
        5000,
        5000,
        10,
        10,
        None,
        true,
    );
    add(
        &mut store,
        &mut windows,
        0x600,
        50,
        400,
        200,
        100,
        None,
        true,
    );
    add(
        &mut store,
        &mut windows,
        0x601,
        10,
        10,
        60,
        40,
        Some(0x600),
        true,
    );
    add(
        &mut store,
        &mut windows,
        0x602,
        100,
        10,
        60,
        40,
        Some(0x600),
        true,
    );
    let m_id = store.lookup(0x600).expect("manual present");
    let m_backing = alloc_backing(&mut store, 0xB600, 200, 100);
    store.set_redirected_target(m_id, Some(m_backing));
    store.set_scene_participating(m_id, false);
    let a_id = store.lookup(0x601).expect("automatic present");
    let a_backing = alloc_backing(&mut store, 0xB601, 60, 40);
    store.set_redirected_target(a_id, Some(a_backing));
    add(
        &mut store,
        &mut windows,
        0x700,
        300,
        400,
        80,
        60,
        None,
        true,
    );
    let r_id = store.lookup(0x700).expect("automatic top present");
    let r_backing = alloc_backing(&mut store, 0xB700, 80, 60);
    store.set_redirected_target(r_id, Some(r_backing));
    add(&mut store, &mut windows, 0x800, 0, 0, 800, 600, None, true);
    add(
        &mut store,
        &mut windows,
        0x801,
        0,
        0,
        800,
        600,
        Some(0x800),
        true,
    );
    windows.insert(
        0x900,
        WindowGeometry {
            x: 700,
            y: 500,
            width: 40,
            height: 40,
            depth: 24,
            mapped: true,
            parent: None,
            stack_rank: rank,
        },
    );

    core.top_level_order = vec![
        0x100, 0x200, 0x201, 0x300, 0x400, 0x500, 0x501, 0x600, 0x700, 0x900, 0x800,
    ];
    (core, store, windows)
}

fn two_windows(
    lower: (i16, i16, u16, u16),
    upper: (i16, i16, u16, u16),
) -> (KmsCore, DrawableStore, WindowsMap) {
    let mut core = core_for_tests();
    let mut store = DrawableStore::new();
    let mut windows = WindowsMap::new();
    alloc_root(&core, &mut store, 800, 600);
    alloc_stub_window(
        &mut store,
        &mut windows,
        0x100,
        lower.0,
        lower.1,
        lower.2,
        lower.3,
        None,
        true,
    );
    alloc_stub_window(
        &mut store,
        &mut windows,
        0x200,
        upper.0,
        upper.1,
        upper.2,
        upper.3,
        None,
        true,
    );
    set_rank(&mut windows, 0x100, 1);
    set_rank(&mut windows, 0x200, 2);
    core.top_level_order = vec![0x100, 0x200];
    (core, store, windows)
}

#[test]
fn build_scene_recurses_into_mapped_children() {
    let mut core = core_for_tests();
    let mut store = DrawableStore::new();
    let mut windows = WindowsMap::new();

    alloc_stub_window(
        &mut store,
        &mut windows,
        0x100,
        50,
        60,
        200,
        100,
        None,
        true,
    );
    core.top_level_order.push(0x100);

    alloc_stub_window(
        &mut store,
        &mut windows,
        0x101,
        10,
        20,
        40,
        30,
        Some(0x100),
        true,
    );

    let built = build_scene(&core, &store, &windows, layout(0, 0, 800, 600), None, None, false, false, Visibility::Off);
    let scene = built.scene;
    assert_eq!(scene.draws.len(), 2, "expected top-level + child draw");

    let top = scene
        .draws
        .iter()
        .find(|d| size(&d)[0] == 200.0 && size(&d)[1] == 100.0)
        .expect("top-level draw present");
    assert_eq!(origin(&top), [50.0, 60.0]);

    let child = scene
        .draws
        .iter()
        .find(|d| size(&d)[0] == 40.0 && size(&d)[1] == 30.0)
        .expect("child draw present");
    assert_eq!(origin(&child), [60.0, 80.0]);
}

#[test]
fn build_scene_clips_child_to_parent_bounds() {
    let mut core = core_for_tests();
    let mut store = DrawableStore::new();
    let mut windows = WindowsMap::new();

    alloc_stub_window(
        &mut store,
        &mut windows,
        0x100,
        100,
        100,
        10,
        10,
        None,
        true,
    );
    core.top_level_order.push(0x100);

    alloc_stub_window(
        &mut store,
        &mut windows,
        0x101,
        2,
        3,
        100,
        50,
        Some(0x100),
        true,
    );

    let built = build_scene(&core, &store, &windows, layout(0, 0, 800, 600), None, None, false, false, Visibility::Off);
    let scene = built.scene;

    let child = scene
        .draws
        .iter()
        .find(|d| origin(&d) == [102.0, 103.0])
        .expect("child draw present at its absolute origin");
    assert_eq!(
        size(&child),
        [8.0, 7.0],
        "child must be clipped to the parent's 10x10 bounds, not drawn \
         at full 100x50 (parent-clipping); got {:?}",
        size(&child),
    );
    assert!(
        (src_size(&child)[0] - 8.0 / 100.0).abs() < 1e-5
            && (src_size(&child)[1] - 7.0 / 50.0).abs() < 1e-5,
        "src_size must sample only the visible sub-region, got {:?}",
        src_size(&child),
    );
    assert!(
        !scene
            .draws
            .iter()
            .any(|d| size(&d)[0] > 10.0 || size(&d)[1] > 10.0),
        "no draw may exceed the 10x10 parent, got {:?}",
        scene.draws,
    );
}

#[test]
fn build_scene_clips_window_to_shape_bounding() {
    let mut core = core_for_tests();
    let mut store = DrawableStore::new();
    let mut windows = WindowsMap::new();

    alloc_stub_window(
        &mut store,
        &mut windows,
        0x100,
        50,
        60,
        200,
        100,
        None,
        true,
    );
    core.top_level_order.push(0x100);

    core.shape_bounding.insert(
        0x100,
        vec![RegionRect {
            x: 10,
            y: 14,
            width: 180,
            height: 80,
        }],
    );

    let built = build_scene(&core, &store, &windows, layout(0, 0, 800, 600), None, None, false, false, Visibility::Off);
    let scene = built.scene;

    let window_draws: Vec<_> = scene
        .draws
        .iter()
        .filter(|d| size(&d) != [200.0, 100.0])
        .collect();
    assert_eq!(
        window_draws.len(),
        1,
        "expected one draw per bounding rect, got {}: {:?}",
        scene.draws.len(),
        scene.draws,
    );
    let d = window_draws[0];
    assert_eq!(origin(&d), [60.0, 74.0], "dst_origin = (50+10, 60+14)");
    assert_eq!(size(&d), [180.0, 80.0], "dst_size = bounding rect");
    assert!(
        (src_origin(&d)[0] - 10.0 / 200.0).abs() < 1e-5
            && (src_origin(&d)[1] - 14.0 / 100.0).abs() < 1e-5,
        "src_origin = (10/200, 14/100), got {:?}",
        src_origin(&d),
    );
    assert!(
        (src_size(&d)[0] - 180.0 / 200.0).abs() < 1e-5
            && (src_size(&d)[1] - 80.0 / 100.0).abs() < 1e-5,
        "src_size = (180/200, 80/100), got {:?}",
        src_size(&d),
    );
}

#[test]
fn build_scene_empty_bounding_emits_no_draw() {
    let mut core = core_for_tests();
    let mut store = DrawableStore::new();
    let mut windows = WindowsMap::new();

    alloc_stub_window(
        &mut store,
        &mut windows,
        0x100,
        50,
        60,
        200,
        100,
        None,
        true,
    );
    core.top_level_order.push(0x100);
    core.shape_bounding.insert(0x100, Vec::new());

    let built = build_scene(&core, &store, &windows, layout(0, 0, 800, 600), None, None, false, false, Visibility::Off);
    assert!(
        built.scene.draws.is_empty(),
        "an explicit empty bounding region must emit no draw (window \
         clipped to nothing), got {:?}",
        built.scene.draws,
    );
}

#[test]
fn build_scene_absent_bounding_emits_full_window() {
    let mut core = core_for_tests();
    let mut store = DrawableStore::new();
    let mut windows = WindowsMap::new();

    alloc_stub_window(
        &mut store,
        &mut windows,
        0x100,
        50,
        60,
        200,
        100,
        None,
        true,
    );
    core.top_level_order.push(0x100);

    let built = build_scene(&core, &store, &windows, layout(0, 0, 800, 600), None, None, false, false, Visibility::Off);
    let window_draws: Vec<_> = built
        .scene
        .draws
        .iter()
        .filter(|d| size(&d) == [200.0, 100.0])
        .collect();
    assert_eq!(
        window_draws.len(),
        1,
        "absent bounding shape must emit one full-window draw, got {:?}",
        built.scene.draws,
    );
    assert_eq!(origin(&window_draws[0]), [50.0, 60.0]);
}

#[test]
fn build_scene_unmapped_parent_hides_subtree() {
    let mut core = core_for_tests();
    let mut store = DrawableStore::new();
    let mut windows = WindowsMap::new();

    alloc_stub_window(
        &mut store,
        &mut windows,
        0x200,
        10,
        10,
        100,
        100,
        None,
        false, /* parent NOT mapped */
    );
    core.top_level_order.push(0x200);
    alloc_stub_window(
        &mut store,
        &mut windows,
        0x201,
        0,
        0,
        50,
        50,
        Some(0x200),
        true, /* child IS mapped, but parent isn't */
    );

    let scene = build_scene(&core, &store, &windows, layout(0, 0, 800, 600), None, None, false, false, Visibility::Off)
    .scene;
    assert!(
        scene.draws.is_empty(),
        "unmapped parent must short-circuit subtree (got {} draws)",
        scene.draws.len()
    );
}

#[test]
fn build_scene_appends_cursor_draw_at_top_of_z() {
    let mut core = core_for_tests();
    let mut store = DrawableStore::new();
    let mut windows = WindowsMap::new();

    alloc_stub_window(&mut store, &mut windows, 0x100, 0, 0, 400, 300, None, true);
    core.top_level_order.push(0x100);

    let cur_sentinel: u64 = 0xCAFE_BABE;
    let storage = storage(extent(16, 16), cur_sentinel);
    let cursor_id = store
        .allocate(0xCAFE_0001, DrawableKind::Pixmap, 32, false, storage)
        .expect("alloc cursor stub");

    core.cursor_x = 50;
    core.cursor_y = 60;
    let cursor = CursorEntry {
        id: cursor_id,
        extent: extent(16, 16),
        hot_x: 0,
        hot_y: 0,
        record_version: 0,
    };

    let scene = build_scene(&core, &store, &windows, layout(0, 0, 800, 600), Some(cursor), None, false, false, Visibility::Off)
    .scene;
    assert_eq!(scene.draws.len(), 2);
    let cursor_draw = scene.draws.last().expect("cursor draw");
    assert_eq!(origin(&cursor_draw), [50.0, 60.0]);
    assert_eq!(size(&cursor_draw), [16.0, 16.0]);
    assert!(
        cursor_draw.alpha_passthrough,
        "cursor must blend (sprite has transparent border)"
    );
}

#[test]
fn build_scene_automatic_redirect_keeps_window_via_backing_storage() {
    let mut core = core_for_tests();
    let mut store = DrawableStore::new();
    let mut windows = WindowsMap::new();

    alloc_stub_window(
        &mut store,
        &mut windows,
        0x100,
        50,
        60,
        200,
        100,
        None,
        true,
    );
    core.top_level_order.push(0x100);

    let b_view: u64 = 0xB000_BEEF;
    let b_storage = storage(extent(200, 100), b_view);
    let b_id = store
        .allocate(0xB001, DrawableKind::Pixmap, 32, true, b_storage)
        .expect("alloc backing stub");

    let w_id = store.lookup(0x100).expect("w_id present");
    let w_view = store.get(w_id).expect("w drawable").storage.image_view;
    assert_ne!(
        w_view, b_view,
        "fixture sanity: W and B must have distinct sentinel views"
    );

    assert!(
        store.get(w_id).unwrap().scene_participating,
        "Automatic redirect: W must stay scene_participating=true",
    );
    assert!(
        store.get(b_id).unwrap().scene_participating,
        "Automatic redirect: B must be scene_participating=true",
    );

    store.set_redirected_target(w_id, Some(b_id));

    let built = build_scene(&core, &store, &windows, layout(0, 0, 800, 600), None, None, false, false, Visibility::Off);
    let scene = &built.scene;
    assert_eq!(
        scene.draws.len(),
        1,
        "expected one draw entry for W (geometry unchanged by redirect)"
    );
    let w_draw = &scene.draws[0];

    assert_eq!(
        origin(&w_draw),
        [50.0, 60.0],
        "redirected W's on-screen rect must remain W's geometry"
    );
    assert_eq!(
        size(&w_draw),
        [200.0, 100.0],
        "redirected W's on-screen size must remain W's geometry"
    );

    assert_eq!(
        w_draw.image_view, b_view,
        "redirected W must sample FROM B's view, not W's"
    );

    assert_eq!(built.sampled_ids.len(), 1);
    assert_eq!(
        built.sampled_ids[0], b_id,
        "sampled_ids must carry source_id (B_id) for damage / fence keying"
    );
}

#[test]
fn build_scene_skips_manual_redirected_window() {
    let mut core = core_for_tests();
    let mut store = DrawableStore::new();
    let mut windows = WindowsMap::new();

    alloc_stub_window(&mut store, &mut windows, 0x111, 10, 20, 50, 40, None, true);
    core.top_level_order.push(0x111);

    alloc_stub_window(
        &mut store,
        &mut windows,
        0x222,
        100,
        200,
        60,
        30,
        None,
        true,
    );
    core.top_level_order.push(0x222);

    let w2_id = store.lookup(0x222).expect("w2 lookup");
    store.set_scene_participating(w2_id, false);
    let w1_id = store.lookup(0x111).expect("w1 lookup");
    assert!(
        store.get(w1_id).unwrap().scene_participating,
        "fixture sanity: W1 stays scene_participating=true",
    );
    assert!(
        !store.get(w2_id).unwrap().scene_participating,
        "fixture sanity: W2 must be scene_participating=false",
    );

    let built = build_scene(&core, &store, &windows, layout(0, 0, 800, 600), None, None, false, false, Visibility::Off);
    let scene = &built.scene;

    assert_eq!(
        scene.draws.len(),
        1,
        "Manual-redirected W2 must be filtered from scene.draws (saw {} entries: {:?})",
        scene.draws.len(),
        scene.draws,
    );
    let w1_draw = &scene.draws[0];
    assert_eq!(
        origin(&w1_draw),
        [10.0, 20.0],
        "the surviving draw must be W1 (origin (10,20)), NOT W2 (origin (100,200))",
    );
    assert_eq!(
        size(&w1_draw),
        [50.0, 40.0],
        "the surviving draw must be W1 (50x40), NOT W2 (60x30)",
    );

    assert_eq!(built.sampled_ids.len(), 1);
    assert_eq!(
        built.sampled_ids[0], w1_id,
        "sampled_ids must reference W1; W2 was filtered before push",
    );
}

#[test]
fn build_scene_prunes_descendants_of_manual_redirected_ancestor() {
    let mut core = core_for_tests();
    let mut store = DrawableStore::new();
    let mut windows = WindowsMap::new();

    alloc_stub_window(
        &mut store,
        &mut windows,
        0x111,
        100,
        200,
        200,
        150,
        None,
        true,
    );
    core.top_level_order.push(0x111);

    alloc_stub_window(
        &mut store,
        &mut windows,
        0x112,
        11,
        41,
        100,
        80,
        Some(0x111),
        true,
    );

    alloc_stub_window(
        &mut store,
        &mut windows,
        0x222,
        500,
        500,
        60,
        30,
        None,
        true,
    );
    core.top_level_order.push(0x222);

    let w_frame_id = store.lookup(0x111).expect("frame lookup");
    let frame_backing_view: u64 = 0xBEEF_F111;
    let frame_backing = storage(extent(200, 150), frame_backing_view);
    let frame_backing_id = store
        .allocate(0xB111, DrawableKind::Pixmap, 32, true, frame_backing)
        .expect("alloc frame backing");
    store.set_redirected_target(w_frame_id, Some(frame_backing_id));
    store.set_scene_participating(w_frame_id, false);
    let child_id = store.lookup(0x112).expect("child lookup");
    assert!(
        store.get(child_id).unwrap().scene_participating,
        "fixture sanity: child stays scene_participating=true",
    );

    let built = build_scene(&core, &store, &windows, layout(0, 0, 800, 600), None, None, false, false, Visibility::Off);
    let scene = &built.scene;

    assert_eq!(
        scene.draws.len(),
        1,
        "expected bystander only; got {} - Manual-redirected frame and \
         its non-redirected child must both stay out of scene.draws: {:?}",
        scene.draws.len(),
        scene.draws,
    );
    assert!(
        scene.draws.iter().any(|d| origin(&d) == [500.0, 500.0]),
        "bystander draw missing: {:?}",
        scene.draws
    );
    assert!(
        !scene
            .draws
            .iter()
            .any(|d| origin(&d) == [100.0, 200.0] && size(&d) == [200.0, 150.0]),
        "Manual-redirected frame leaked into scene.draws: {:?}",
        scene.draws,
    );
    assert!(
        !scene.draws.iter().any(|d| origin(&d) == [111.0, 241.0]),
        "non-redirected child of Manual-redirected ancestor leaked into scene.draws: {:?}",
        scene.draws,
    );
    let bystander_id = store.lookup(0x222).expect("bystander lookup");
    assert_eq!(built.sampled_ids.len(), 1);
    assert!(!built.sampled_ids.contains(&frame_backing_id));
    assert!(built.sampled_ids.contains(&bystander_id));
}

#[test]
fn build_scene_emits_automatic_descendant_under_manual_ancestor() {
    let mut core = core_for_tests();
    let mut store = DrawableStore::new();
    let mut windows = WindowsMap::new();

    alloc_stub_window(
        &mut store,
        &mut windows,
        0x111,
        100,
        200,
        200,
        150,
        None,
        true,
    );
    core.top_level_order.push(0x111);
    let frame_id = store.lookup(0x111).expect("frame lookup");

    let frame_backing_view: u64 = 0xBEEF_F000;
    let frame_backing = storage(extent(200, 150), frame_backing_view);
    let frame_backing_id = store
        .allocate(0xB111, DrawableKind::Pixmap, 32, true, frame_backing)
        .expect("alloc frame backing");
    store.set_redirected_target(frame_id, Some(frame_backing_id));
    store.set_scene_participating(frame_id, false);

    alloc_stub_window(
        &mut store,
        &mut windows,
        0x112,
        11,
        41,
        100,
        80,
        Some(0x111),
        true,
    );
    let child_id = store.lookup(0x112).expect("child lookup");

    let child_backing_view: u64 = 0xBEEF_C000;
    let child_backing = storage(extent(100, 80), child_backing_view);
    let child_backing_id = store
        .allocate(0xB112, DrawableKind::Pixmap, 32, true, child_backing)
        .expect("alloc child backing");
    store.set_redirected_target(child_id, Some(child_backing_id));
    assert!(
        store.get(child_id).unwrap().scene_participating,
        "fixture sanity: Automatic-redirected child stays scene_participating=true",
    );

    let built = build_scene(&core, &store, &windows, layout(0, 0, 800, 600), None, None, false, false, Visibility::Off);
    let scene = &built.scene;

    assert_eq!(
        scene.draws.len(),
        1,
        "expected automatic-child backing only (Manual parent skipped); got {:?}",
        scene.draws
    );
    assert!(
        !scene
            .draws
            .iter()
            .any(|d| origin(&d) == [100.0, 200.0] && size(&d) == [200.0, 150.0]),
        "Manual parent backing must NOT emit: {:?}",
        scene.draws
    );
    assert!(
        scene
            .draws
            .iter()
            .any(|d| origin(&d) == [111.0, 241.0] && size(&d) == [100.0, 80.0]),
        "automatic child backing draw missing: {:?}",
        scene.draws
    );
    assert!(!built.sampled_ids.contains(&frame_backing_id));
    assert!(built.sampled_ids.contains(&child_backing_id));
}

#[test]
fn build_scene_cow_none_emits_top_levels() {
    let mut core = core_for_tests();
    let mut store = DrawableStore::new();
    let mut windows = WindowsMap::new();

    alloc_stub_window(&mut store, &mut windows, 0x100, 0, 0, 100, 80, None, true);
    core.top_level_order.push(0x100);
    alloc_stub_window(
        &mut store,
        &mut windows,
        0x101,
        200,
        150,
        120,
        90,
        None,
        true,
    );
    core.top_level_order.push(0x101);

    let built = build_scene(&core, &store, &windows, layout(0, 0, 800, 600), None, None, false, false, Visibility::Off);
    let scene = &built.scene;

    assert_eq!(
        scene.draws.len(),
        2,
        "expected 2 top-levels, got {} draws: {:?}",
        scene.draws.len(),
        scene.draws,
    );

    assert_eq!(
        origin(&scene.draws[0]),
        [0.0, 0.0],
        "first top-level origin",
    );
    assert_eq!(
        size(&scene.draws[0]),
        [100.0, 80.0],
        "first top-level size",
    );
    assert_eq!(
        origin(&scene.draws[1]),
        [200.0, 150.0],
        "second top-level origin",
    );
    assert_eq!(
        size(&scene.draws[1]),
        [120.0, 90.0],
        "second top-level size",
    );

    for d in &scene.draws {
        assert_ne!(
            size(&d),
            [800.0, 600.0],
            "no draw should be screen-extent when cow=None: {:?}",
            d,
        );
    }
}

#[test]
fn build_scene_cow_none_cursor_at_top() {
    let mut core = core_for_tests();
    let mut store = DrawableStore::new();
    let mut windows = WindowsMap::new();

    alloc_stub_window(&mut store, &mut windows, 0x100, 0, 0, 400, 300, None, true);
    core.top_level_order.push(0x100);

    let cur2_sentinel: u64 = 0xCAFE_BABE;
    let cursor_storage = storage(extent(16, 16), cur2_sentinel);
    let cursor_id = store
        .allocate(0xCAFE_0002, DrawableKind::Pixmap, 32, false, cursor_storage)
        .expect("alloc cursor stub");
    core.cursor_x = 50;
    core.cursor_y = 60;
    let cursor = CursorEntry {
        id: cursor_id,
        extent: extent(16, 16),
        hot_x: 0,
        hot_y: 0,
        record_version: 0,
    };

    let built = build_scene(&core, &store, &windows, layout(0, 0, 800, 600), Some(cursor), None, false, false, Visibility::Off);
    let scene = &built.scene;

    assert_eq!(
        scene.draws.len(),
        2,
        "expected top-level + cursor = 2 draws, got {}: {:?}",
        scene.draws.len(),
        scene.draws,
    );
    assert_eq!(
        size(scene.draws.last().expect("cursor")),
        [16.0, 16.0],
        "cursor must be the top-of-z draw",
    );
    assert_eq!(
        size(&scene.draws[0]),
        [400.0, 300.0],
        "top-level must be below cursor",
    );
}

#[test]
fn cow_subtree_draws_inherit_alpha_passthrough_true() {
    let mut core = core_for_tests();
    let mut store = DrawableStore::new();
    let mut windows = WindowsMap::new();

    alloc_stub_window(&mut store, &mut windows, 0xA1, 0, 0, 200, 200, None, true);
    core.top_level_order.push(0xA1);

    let cow_xid: u32 = 0x103;
    alloc_stub_window(
        &mut store,
        &mut windows,
        cow_xid,
        0,
        0,
        800,
        600,
        None,
        true,
    );
    core.top_level_order.push(cow_xid);

    alloc_stub_window(
        &mut store,
        &mut windows,
        0xB1,
        0,
        0,
        800,
        600,
        Some(cow_xid),
        true,
    );

    let built = build_scene(&core, &store, &windows, layout(0, 0, 800, 600), None, Some(cow_xid), false, false, Visibility::Off);
    let scene = &built.scene;

    let w_draw = scene
        .draws
        .iter()
        .find(|d| size(&d) == [200.0, 200.0])
        .expect("W draw present");
    assert!(
        !w_draw.alpha_passthrough,
        "non-COW top-level uses opaque blend (alpha_passthrough=false)",
    );

    let cow_or_stage_draws: Vec<_> = scene
        .draws
        .iter()
        .filter(|d| size(&d) == [800.0, 600.0])
        .collect();
    assert!(
        !cow_or_stage_draws.is_empty(),
        "COW and stage emitted: {:?}",
        scene.draws,
    );
    for d in cow_or_stage_draws {
        assert!(
            d.alpha_passthrough,
            "COW subtree draw must have alpha_passthrough=true: {:?}",
            d,
        );
    }
}

#[test]
fn build_scene_does_not_append_cow_after_top_level_walk() {
    let mut core = core_for_tests();
    let mut store = DrawableStore::new();
    let mut windows = WindowsMap::new();

    let cow_xid: u32 = 0x103;
    alloc_stub_window(
        &mut store,
        &mut windows,
        cow_xid,
        0,
        0,
        800,
        600,
        None,
        true,
    );
    core.top_level_order.push(cow_xid);

    let built = build_scene(&core, &store, &windows, layout(0, 0, 800, 600), None, Some(cow_xid), false, false, Visibility::Off);
    let scene = &built.scene;

    let cow_draws: Vec<_> = scene
        .draws
        .iter()
        .filter(|d| size(&d) == [800.0, 600.0])
        .collect();
    assert_eq!(
        cow_draws.len(),
        1,
        "exactly one COW draw - no special append on top of top_level_order walk; got {:?}",
        scene.draws,
    );
    assert!(
        cow_draws[0].alpha_passthrough,
        "COW draw still has alpha_passthrough=true",
    );
}

#[test]
fn manual_redirected_top_level_skips_emit_unconditional() {
    for cow_host_xid in [None, Some(0x103_u32)] {
        let mut core = core_for_tests();
        let mut store = DrawableStore::new();
        let mut windows = WindowsMap::new();

        let w: u32 = 0xA1;
        alloc_stub_window(&mut store, &mut windows, w, 100, 100, 50, 50, None, true);
        let w_id = store.lookup(w).expect("w lookup");
        let view: u64 = 0xBEEF_0000;
    let backing = storage(extent(50, 50), view);
        let b_id = store
            .allocate(0xB0A1, DrawableKind::Pixmap, 24, true, backing)
            .expect("alloc manual backing");
        store.set_redirected_target(w_id, Some(b_id));
        store.set_scene_participating(w_id, false);
        core.top_level_order.push(w);

        if let Some(cow_xid) = cow_host_xid {
            alloc_stub_window(
                &mut store,
                &mut windows,
                cow_xid,
                0,
                0,
                800,
                600,
                None,
                true,
            );
            core.top_level_order.push(cow_xid);
        }

        let built = build_scene(&core, &store, &windows, layout(0, 0, 800, 600), None, cow_host_xid, false, false, Visibility::Off);
        let scene = &built.scene;

        let w_draws: Vec<_> = scene
            .draws
            .iter()
            .filter(|d| size(&d) == [50.0, 50.0])
            .collect();
        assert!(
            w_draws.is_empty(),
            "Manual-redirected W must NOT emit (cow={cow_host_xid:?}): {:?}",
            scene.draws,
        );
    }
}

#[test]
fn offscreen_helper_above_fullscreen_still_suppresses_cow() {
    let mut core = core_for_tests();
    let mut store = DrawableStore::new();
    let mut windows = WindowsMap::new();

    let fs: u32 = 0x00F5;
    alloc_stub_window(&mut store, &mut windows, fs, 0, 0, 800, 600, None, true);
    windows.get_mut(&fs).expect("fs geom").depth = 24;
    core.top_level_order.push(fs);

    let helper: u32 = 0x00AE;
    alloc_stub_window(
        &mut store,
        &mut windows,
        helper,
        -200,
        -200,
        1,
        1,
        None,
        true,
    );
    windows.get_mut(&helper).expect("helper geom").depth = 24;
    core.top_level_order.push(helper);

    let cow: u32 = 0x0103;
    alloc_stub_window(&mut store, &mut windows, cow, 0, 0, 800, 600, None, true);
    core.top_level_order.push(cow);

    let built = build_scene(&core, &store, &windows, layout(0, 0, 800, 600), None, Some(cow), false, false, Visibility::Off);

    let cow_view: u64 = u64::from(cow) | 0xFF00_0000;
    assert!(
        !built.scene.draws.iter().any(|d| d.image_view == cow_view),
        "COW must be suppressed by the opaque fullscreen unredirected \
         window even with an off-output helper stacked above it: {:?}",
        built.scene.draws,
    );
    let fs_view: u64 = u64::from(fs) | 0xFF00_0000;
    assert!(
        built.scene.draws.iter().any(|d| d.image_view == fs_view),
        "the fullscreen window itself must still emit: {:?}",
        built.scene.draws,
    );
}

#[test]
fn on_output_non_covering_window_above_fullscreen_keeps_cow() {
    let mut core = core_for_tests();
    let mut store = DrawableStore::new();
    let mut windows = WindowsMap::new();

    let fs: u32 = 0x00F5;
    alloc_stub_window(&mut store, &mut windows, fs, 0, 0, 800, 600, None, true);
    windows.get_mut(&fs).expect("fs geom").depth = 24;
    core.top_level_order.push(fs);

    let float: u32 = 0x00BF;
    alloc_stub_window(
        &mut store,
        &mut windows,
        float,
        100,
        100,
        200,
        150,
        None,
        true,
    );
    windows.get_mut(&float).expect("float geom").depth = 24;
    core.top_level_order.push(float);

    let cow: u32 = 0x0103;
    alloc_stub_window(&mut store, &mut windows, cow, 0, 0, 800, 600, None, true);
    core.top_level_order.push(cow);

    let built = build_scene(&core, &store, &windows, layout(0, 0, 800, 600), None, Some(cow), false, false, Visibility::Off);

    let cow_view: u64 = u64::from(cow) | 0xFF00_0000;
    assert!(
        built.scene.draws.iter().any(|d| d.image_view == cow_view),
        "COW must survive when the topmost on-output window does not \
         cover the output: {:?}",
        built.scene.draws,
    );
}

#[test]
fn automatic_redirected_top_level_still_emits() {
    let mut core = core_for_tests();
    let mut store = DrawableStore::new();
    let mut windows = WindowsMap::new();

    let w: u32 = 0xA2;
    alloc_stub_window(&mut store, &mut windows, w, 100, 100, 50, 50, None, true);
    let w_id = store.lookup(w).expect("w lookup");
    let view: u64 = 0xBEEF_0001;
    let backing = storage(extent(50, 50), view);
    let b_id = store
        .allocate(0xB0A2, DrawableKind::Pixmap, 24, true, backing)
        .expect("alloc automatic backing");
    store.set_redirected_target(w_id, Some(b_id));
    core.top_level_order.push(w);

    let built = build_scene(&core, &store, &windows, layout(0, 0, 800, 600), None, None, false, false, Visibility::Off);
    let scene = &built.scene;

    let w_draws: Vec<_> = scene
        .draws
        .iter()
        .filter(|d| size(&d) == [50.0, 50.0])
        .collect();
    assert_eq!(
        w_draws.len(),
        1,
        "Automatic-redirected W still emits one draw: {:?}",
        scene.draws,
    );
}

#[test]
fn compositor_stage_under_cow_emits_via_recursion_and_manual_siblings_skip() {
    let mut core = core_for_tests();
    let mut store = DrawableStore::new();
    let mut windows = WindowsMap::new();

    let w: u32 = 0xC001;
    alloc_stub_window(&mut store, &mut windows, w, 0, 0, 200, 200, None, true);
    core.top_level_order.push(w);

    let s: u32 = 0xC002;
    alloc_stub_window(&mut store, &mut windows, s, 100, 100, 50, 50, None, true);
    let s_id = store.lookup(s).expect("s lookup");
    let s_view: u64 = 0xDEAD_0050;
    let s_backing = storage(extent(50, 50), s_view);
    let s_backing_id = store
        .allocate(0xB0C2, DrawableKind::Pixmap, 24, true, s_backing)
        .expect("alloc manual sibling backing");
    store.set_redirected_target(s_id, Some(s_backing_id));
    store.set_scene_participating(s_id, false);
    core.top_level_order.push(s);

    let cow_xid: u32 = 0x103;
    alloc_stub_window(
        &mut store,
        &mut windows,
        cow_xid,
        0,
        0,
        800,
        600,
        None,
        true,
    );
    core.top_level_order.push(cow_xid);

    let stage: u32 = 0xC003;
    alloc_stub_window(
        &mut store,
        &mut windows,
        stage,
        0,
        0,
        640,
        480,
        Some(cow_xid),
        true,
    );

    let built = build_scene(&core, &store, &windows, layout(0, 0, 800, 600), None, Some(cow_xid), false, false, Visibility::Off);
    let scene = &built.scene;

    let s_draws = scene
        .draws
        .iter()
        .filter(|d| size(&d) == [50.0, 50.0])
        .count();
    assert_eq!(
        s_draws, 0,
        "Manual-redirected sibling must not emit, even with COW materialized: {:?}",
        scene.draws,
    );

    let stage_draws: Vec<_> = scene
        .draws
        .iter()
        .filter(|d| size(&d) == [640.0, 480.0])
        .collect();
    assert_eq!(
        stage_draws.len(),
        1,
        "stage emits exactly once via COW subtree recursion: {:?}",
        scene.draws,
    );
    assert!(
        stage_draws[0].alpha_passthrough,
        "stage draw inherits alpha_passthrough=true from the COW subtree: {:?}",
        stage_draws[0],
    );

    let cow_draws: Vec<_> = scene
        .draws
        .iter()
        .filter(|d| size(&d) == [800.0, 600.0])
        .collect();
    assert_eq!(
        cow_draws.len(),
        1,
        "COW emits exactly once via top_level_order walk: {:?}",
        scene.draws,
    );
    assert!(
        cow_draws[0].alpha_passthrough,
        "COW draw has alpha_passthrough=true: {:?}",
        cow_draws[0],
    );

    let w_pos = scene
        .draws
        .iter()
        .position(|d| size(&d) == [200.0, 200.0])
        .expect("W draw present");
    assert!(
        !scene.draws[w_pos].alpha_passthrough,
        "non-COW top-level W uses opaque blend (alpha_passthrough=false)",
    );

    let cow_pos = scene
        .draws
        .iter()
        .position(|d| size(&d) == [800.0, 600.0])
        .expect("COW draw present");
    let stage_pos = scene
        .draws
        .iter()
        .position(|d| size(&d) == [640.0, 480.0])
        .expect("stage draw present");
    assert!(
        w_pos < cow_pos && w_pos < stage_pos,
        "COW subtree draws come after the earlier top-level W: w={w_pos} cow={cow_pos} stage={stage_pos}",
    );
    assert!(
        cow_pos < stage_pos,
        "COW host draw precedes its stage child in the subtree recursion: cow={cow_pos} stage={stage_pos}",
    );
}

#[test]
fn refactored_emitter_matches_the_legacy_emitter_exactly() {
    for layout in [
        (0, 0, 800u32, 600u32),
        (100, 50, 2560, 1440),
        (-300, -200, 800, 600),
        (123, 45, 640, 480),
    ] {
        for cow in [None, Some(0x800u32)] {
            let (core, store, windows) = differential_fixture();
            let plain = walk_with(true, &core, &store, &windows, layout, cow);
            let new = walk_with(false, &core, &store, &windows, layout, cow);
            assert!(
                !plain.draws.is_empty(),
                "fixture sanity: the tree must emit something at layout {layout:?}"
            );
            assert_eq!(new, plain, "layout {layout:?} cow {cow:?}");
        }
    }
}

#[test]
fn differential_fixture_exercises_every_gate() {
    let (core, store, windows) = differential_fixture();
    let out = walk_with(
        false,
        &core,
        &store,
        &windows,
        (0, 0, 800, 600),
        Some(0x800),
    );
    let views: Vec<u64> = out.draws.iter().map(|d| d.view).collect();
    let has = |xid: u32| views.contains(&(u64::from(xid) | 0xFF00_0000));
    let has_backing = |xid: u32| views.contains(&(u64::from(xid) | 0xB000_0000));
    assert!(
        has(0x100) && has(0x101) && has(0x102),
        "nesting emits all three"
    );
    assert!(!has(0x103) && !has(0x104), "unmapped subtree emits nothing");
    assert!(has(0x200) && has(0x201), "overlapping siblings both emit");
    assert_eq!(
        out.draws
            .iter()
            .filter(|d| d.view == u64::from(0x300u32) | 0xFF00_0000)
            .count(),
        5,
        "shaped node emits one draw per rect (the fifth clamped, not dropped)"
    );
    assert!(has(0x401), "oversized child emits, clipped to its parent");
    assert!(
        !has(0x402),
        "grandchild clipped away entirely emits nothing"
    );
    assert!(has(0x500), "straddling window emits");
    assert!(!has(0x501), "off-output window does not emit");
    assert!(
        !has(0x600) && !has_backing(0xB600),
        "manual-redirected node never emits"
    );
    assert!(
        has_backing(0xB601),
        "automatic child under a manual ancestor emits its backing"
    );
    assert!(
        !has(0x602),
        "plain child under a manual ancestor paints into the ancestor"
    );
    assert!(
        has_backing(0xB700) && !has(0x700),
        "automatic top-level samples its backing"
    );
    assert!(
        out.draws.iter().filter(|d| d.alpha_passthrough).count() == 2,
        "exactly the COW and its stage are alpha_passthrough"
    );
    assert!(!has(0x900), "geometry without storage emits nothing");
}

#[test]
fn off_mode_reproduces_the_legacy_root_and_emitter_exactly() {
    for layout in [
        (0, 0, 800u32, 600u32),
        (2560, 0, 2560, 1440),
        (-300, -200, 800, 600),
    ] {
        for cow in [None, Some(0x800u32)] {
            let (core, mut store, windows) = differential_fixture();
            alloc_root(&core, &mut store, 5120, 1440);
            let plain = walk_with(true, &core, &store, &windows, layout, cow);
            let off = build_with(Visibility::Off, &core, &store, &windows, layout, cow);
            let root_key = DrawKey {
                view: 0x00A0_7000,
                dst_origin: [(-layout.0) as f32, (-layout.1) as f32].map(f32::to_bits),
                dst_size: [5120.0f32, 1440.0f32].map(f32::to_bits),
                src_origin: [0.0f32, 0.0f32].map(f32::to_bits),
                src_size: [1.0f32, 1.0f32].map(f32::to_bits),
                alpha_passthrough: false,
            };
            let mut expect_draws = vec![root_key];
            expect_draws.extend(plain.draws);
            let got = walk_out_of(&off);
            assert_eq!(
                got.draws, expect_draws,
                "draws, layout {layout:?} cow {cow:?}"
            );
            assert_eq!(
                got.participants.len(),
                plain.participants.len() + 1,
                "one root presence plus the others"
            );
            assert_eq!(got.participants[0].id.role, SceneRole::Root);
            assert_eq!(&got.participants[1..], &plain.participants[..]);
            assert_eq!(got.sampled.len(), plain.sampled.len() + 1);
            assert_eq!(&got.sampled[1..], &plain.sampled[..]);
            assert_eq!(got.stats_free_snapshots(), plain.snapshots.len() + 1);
        }
    }
}

#[test]
fn visibility_shows_the_same_pixels_as_the_unclipped_scene() {
    for layout in [
        (0, 0, 800u32, 600u32),
        (100, 50, 700, 500),
        (-300, -200, 800, 600),
        (2560, 0, 640, 480),
    ] {
        for cow in [None, Some(0x800u32)] {
            let (core, mut store, windows) = differential_fixture();
            alloc_root(&core, &mut store, 5120, 1440);
            let on = assert_oracle(&core, &store, &windows, layout, cow, "fixture");
            assert!(on.stats.nodes_visited > 0);
            assert!(
                on.stats.draws_emitted == u64::try_from(on.scene.draws.len()).unwrap(),
                "stats count what was emitted"
            );
        }
    }
}

#[test]
fn a_fully_covered_window_emits_nothing_and_stays_a_participant() {
    let (core, store, windows) = two_windows((100, 100, 50, 50), (80, 80, 100, 100));
    let on = assert_oracle(
        &core,
        &store,
        &windows,
        (0, 0, 800, 600),
        None,
        "full cover",
    );
    assert!(
        draws_of(&on, win_view(0x100)).is_empty(),
        "covered window emits nothing"
    );
    assert_eq!(draws_of(&on, win_view(0x200)).len(), 1);
    let root: u64 = draws_of(&on, 0x00A0_7000).iter().map(|r| area_of(*r)).sum();
    assert_eq!(
        root,
        800 * 600 - 100 * 100,
        "root = output - the opaque cover"
    );
    assert_eq!(on.stats.hidden_participants, 1);
    let hidden = on
        .participants
        .iter()
        .find(|p| p.id.xid == 0x100)
        .expect("hidden window is still a participant");
    assert!(hidden.visible.is_empty());
    assert_eq!(
        hidden.region.bounding_rect(),
        Some(rect(100, 100, 50, 50))
    );
    assert_eq!(hidden.region.area(), 50 * 50);
}

#[test]
fn a_partly_covered_window_emits_only_its_visible_pieces() {
    let (core, store, windows) = two_windows((100, 100, 200, 200), (250, 150, 200, 200));
    let on = assert_oracle(
        &core,
        &store,
        &windows,
        (0, 0, 800, 600),
        None,
        "partial",
    );
    let lower: u64 = draws_of(&on, win_view(0x100))
        .iter()
        .map(|r| area_of(*r))
        .sum();
    assert_eq!(lower, 200 * 200 - 50 * 150);
    assert!(
        draws_of(&on, win_view(0x100)).len() > 1,
        "emitted as pieces"
    );
    assert_eq!(on.stats.hidden_participants, 0);
}

#[test]
fn an_empty_parent_shape_suppresses_its_children() {
    let mut core = core_for_tests();
    let mut store = DrawableStore::new();
    let mut windows = WindowsMap::new();
    alloc_root(&core, &mut store, 800, 600);
    alloc_stub_window(
        &mut store,
        &mut windows,
        0x100,
        100,
        100,
        200,
        200,
        None,
        true,
    );
    alloc_stub_window(
        &mut store,
        &mut windows,
        0x101,
        10,
        10,
        50,
        50,
        Some(0x100),
        true,
    );
    core.top_level_order = vec![0x100];
    core.shape_bounding.insert(0x100, Vec::new());
    let on = build_with(
        Visibility::On,
        &core,
        &store,
        &windows,
        (0, 0, 800, 600),
        None,
    );
    assert!(
        draws_of(&on, win_view(0x100)).is_empty(),
        "empty shape: parent draws nothing"
    );
    assert!(
        draws_of(&on, win_view(0x101)).is_empty(),
        "and neither do its children"
    );
    let root: u64 = draws_of(&on, 0x00A0_7000).iter().map(|r| area_of(*r)).sum();
    assert_eq!(root, 800 * 600, "the root shows through the whole hole");
}

#[test]
fn a_partial_parent_shape_clips_its_children() {
    let mut core = core_for_tests();
    let mut store = DrawableStore::new();
    let mut windows = WindowsMap::new();
    alloc_root(&core, &mut store, 800, 600);
    alloc_stub_window(
        &mut store,
        &mut windows,
        0x100,
        100,
        100,
        200,
        200,
        None,
        true,
    );
    alloc_stub_window(
        &mut store,
        &mut windows,
        0x101,
        0,
        0,
        200,
        200,
        Some(0x100),
        true,
    );
    core.top_level_order = vec![0x100];
    core.shape_bounding.insert(
        0x100,
        vec![RegionRect {
            x: 0,
            y: 0,
            width: 100,
            height: 200,
        }],
    );
    let on = build_with(
        Visibility::On,
        &core,
        &store,
        &windows,
        (0, 0, 800, 600),
        None,
    );
    let child = draws_of(&on, win_view(0x101));
    let child_area: u64 = child.iter().map(|r| area_of(*r)).sum();
    assert_eq!(child_area, 100 * 200, "child clipped to the parent's shape");
    assert!(
        child
            .iter()
            .all(|r| r.offset.x + i32::try_from(r.extent.width).unwrap() <= 200),
        "no child pixel outside the shaped half: {child:?}"
    );
    assert!(draws_of(&on, win_view(0x100)).is_empty());
    let root: u64 = draws_of(&on, 0x00A0_7000).iter().map(|r| area_of(*r)).sum();
    assert_eq!(root, 800 * 600 - 100 * 200);
}

#[test]
fn a_cow_subtree_claims_nothing() {
    let mut core = core_for_tests();
    let mut store = DrawableStore::new();
    let mut windows = WindowsMap::new();
    alloc_root(&core, &mut store, 800, 600);
    alloc_stub_window(
        &mut store,
        &mut windows,
        0x100,
        100,
        100,
        200,
        200,
        None,
        true,
    );
    alloc_stub_window(&mut store, &mut windows, 0x800, 0, 0, 800, 600, None, true);
    alloc_stub_window(
        &mut store,
        &mut windows,
        0x801,
        0,
        0,
        800,
        600,
        Some(0x800),
        true,
    );
    set_rank(&mut windows, 0x100, 1);
    set_rank(&mut windows, 0x800, 2);
    core.top_level_order = vec![0x100, 0x800];
    let on = assert_oracle(
        &core,
        &store,
        &windows,
        (0, 0, 800, 600),
        Some(0x800),
        "cow",
    );
    assert_eq!(
        draws_of(&on, win_view(0x100)).len(),
        1,
        "window under the COW emits whole"
    );
    let root: u64 = draws_of(&on, 0x00A0_7000).iter().map(|r| area_of(*r)).sum();
    assert_eq!(
        root,
        800 * 600 - 200 * 200,
        "root loses only the opaque window"
    );
    assert_eq!(on.stats.hidden_participants, 0);
}

#[test]
fn an_opaque_automatic_child_claims_through_a_manual_parent() {
    let mut core = core_for_tests();
    let mut store = DrawableStore::new();
    let mut windows = WindowsMap::new();
    alloc_root(&core, &mut store, 800, 600);
    alloc_stub_window(
        &mut store,
        &mut windows,
        0x600,
        50,
        400,
        200,
        100,
        None,
        true,
    );
    alloc_stub_window(
        &mut store,
        &mut windows,
        0x601,
        10,
        10,
        60,
        40,
        Some(0x600),
        true,
    );
    let m_id = store.lookup(0x600).unwrap();
    let m_backing = alloc_backing(&mut store, 0xB600, 200, 100);
    store.set_redirected_target(m_id, Some(m_backing));
    store.set_scene_participating(m_id, false);
    let a_id = store.lookup(0x601).unwrap();
    let a_backing = alloc_backing(&mut store, 0xB601, 60, 40);
    store.set_redirected_target(a_id, Some(a_backing));
    core.top_level_order = vec![0x600];
    let on = assert_oracle(
        &core,
        &store,
        &windows,
        (0, 0, 800, 600),
        None,
        "manual",
    );
    let backing_view = u64::from(0xB601u32) | 0xB000_0000;
    assert_eq!(draws_of(&on, backing_view).len(), 1);
    let root = draws_of(&on, 0x00A0_7000);
    let root_area: u64 = root.iter().map(|r| area_of(*r)).sum();
    assert_eq!(
        root_area,
        800 * 600 - 60 * 40,
        "root loses exactly the child's area"
    );
    assert!(
        root.iter()
            .all(|r| !rects_intersect(*r, rect(60, 410, 60, 40))),
        "no root piece under the automatic child"
    );
}

#[test]
fn straddling_windows_and_layout_origins_sample_the_right_texels() {
    let (core, store, windows) = two_windows((-50, -50, 100, 100), (700, 500, 200, 200));
    let on = assert_oracle(
        &core,
        &store,
        &windows,
        (0, 0, 800, 600),
        None,
        "straddle",
    );
    for d in &on.scene.draws {
        let r = draw_dst_rect(d).unwrap();
        assert!(r.offset.x >= 0 && r.offset.y >= 0, "output-clipped: {r:?}");
        assert!(
            r.offset.x + i32::try_from(r.extent.width).unwrap() <= 800
                && r.offset.y + i32::try_from(r.extent.height).unwrap() <= 600,
            "output-clipped: {r:?}"
        );
    }
    let piece = on
        .scene
        .draws
        .iter()
        .find(|d| d.image_view == win_view(0x100))
        .expect("straddler emits");
    assert_eq!(origin(&piece), [0.0, 0.0]);
    assert_eq!(src_origin(&piece), [0.5, 0.5]);
    assert_eq!(src_size(&piece), [0.5, 0.5]);
    let (core, store, windows) = two_windows((2500, 100, 120, 100), (2700, 300, 50, 50));
    let on = assert_oracle(
        &core,
        &store,
        &windows,
        (2560, 0, 640, 480),
        None,
        "x0=2560",
    );
    let piece = on
        .scene
        .draws
        .iter()
        .find(|d| d.image_view == win_view(0x100))
        .expect("emits");
    assert_eq!(origin(&piece), [0.0, 100.0]);
    assert_eq!(src_origin(&piece), [0.5, 0.0]);
    assert_eq!(src_size(&piece), [0.5, 1.0]);
}

#[test]
fn a_redirected_backing_larger_than_its_host_is_sampled_unstretched() {
    let mut core = core_for_tests();
    let mut store = DrawableStore::new();
    let mut windows = WindowsMap::new();
    alloc_root(&core, &mut store, 800, 600);
    alloc_stub_window(
        &mut store,
        &mut windows,
        0x700,
        100,
        100,
        80,
        60,
        None,
        true,
    );
    let r_id = store.lookup(0x700).unwrap();
    let backing = alloc_backing(&mut store, 0xB700, 160, 120);
    store.set_redirected_target(r_id, Some(backing));
    core.top_level_order = vec![0x700];
    let on = build_with(
        Visibility::On,
        &core,
        &store,
        &windows,
        (0, 0, 800, 600),
        None,
    );
    let d = on
        .scene
        .draws
        .iter()
        .find(|d| d.image_view == (u64::from(0xB700u32) | 0xB000_0000))
        .expect("redirected window emits its backing");
    assert_eq!(origin(&d), [100.0, 100.0]);
    assert_eq!(size(&d), [80.0, 60.0]);
    assert_eq!(src_origin(&d), [0.0, 0.0]);
    assert_eq!(
        src_size(&d),
        [0.5, 0.5],
        "80/160 x 60/120: the host's texels only"
    );
    let p = on.participants.iter().find(|p| p.id.xid == 0x700).unwrap();
    assert_eq!(
        p.signature,
        PresenceSignature::new(d.image_view, d.source, false)
    );
}

#[test]
fn a_collapsed_universe_over_emits_but_shows_the_same_pixels() {
    let mut core = core_for_tests();
    let mut store = DrawableStore::new();
    let mut windows = WindowsMap::new();
    alloc_root(&core, &mut store, 800, 600);
    let mut rank = 1;
    for i in 0..7i16 {
        for j in 0..7i16 {
            let xid = 0x1000 + u32::try_from(i * 7 + j).unwrap();
            alloc_stub_window(
                &mut store,
                &mut windows,
                xid,
                20 + i * 100,
                20 + j * 70,
                40,
                30,
                None,
                true,
            );
            set_rank(&mut windows, xid, rank);
            rank += 1;
            core.top_level_order.push(xid);
        }
    }
    let on = assert_oracle(
        &core,
        &store,
        &windows,
        (0, 0, 800, 600),
        None,
        "collapse",
    );
    assert!(
        on.stats.collapses() > 0,
        "49 disjoint claims must overflow the 32-box cap"
    );
    let root: u64 = draws_of(&on, 0x00A0_7000).iter().map(|r| area_of(*r)).sum();
    assert!(
        root > 800 * 600 - 49 * 40 * 30,
        "root over-emits after the collapse (superset), never under"
    );
    assert!(root <= 800 * 600);
}

#[test]
fn hiding_a_window_by_moving_another_over_it_damages_only_the_mover() {
    let (core, store, windows) = two_windows((100, 100, 50, 50), (400, 400, 100, 100));
    let before = build_with(
        Visibility::On,
        &core,
        &store,
        &windows,
        (0, 0, 800, 600),
        None,
    );
    let (core2, store2, windows2) = two_windows((100, 100, 50, 50), (80, 80, 100, 100));
    let after = build_with(
        Visibility::On,
        &core2,
        &store2,
        &windows2,
        (0, 0, 800, 600),
        None,
    );
    assert_eq!(
        before.participants.iter().map(|p| p.id).collect::<Vec<_>>(),
        after.participants.iter().map(|p| p.id).collect::<Vec<_>>(),
        "same participants in the same (painter's) order - nothing restacked, \
         and the hidden window is still listed"
    );
    let damage = structural_damage(&before.participants, &after.participants);
    let mut expect = Region::from_rect(rect(400, 400, 100, 100));
    expect.union_with(&Region::from_rect(rect(80, 80, 100, 100)));
    assert_eq!(damage, expect, "exactly the mover's old | new");
    assert!(
        after
            .participants
            .iter()
            .any(|p| p.id.xid == 0x100 && p.visible.is_empty()),
        "the covered window is present with an empty visible region"
    );
}

#[test]
fn swapping_two_overlapping_top_levels_damages_only_their_overlap() {
    let lower = (100i16, 100i16, 300u16, 300u16);
    let upper = (250i16, 250i16, 300u16, 300u16);
    let (core, store, windows) = two_windows(lower, upper);
    let before = build_with(
        Visibility::On,
        &core,
        &store,
        &windows,
        (0, 0, 800, 600),
        None,
    );
    let (mut core2, store2, mut windows2) = two_windows(lower, upper);
    set_rank(&mut windows2, 0x100, 2);
    set_rank(&mut windows2, 0x200, 1);
    core2.top_level_order = vec![0x200, 0x100];
    let after = build_with(
        Visibility::On,
        &core2,
        &store2,
        &windows2,
        (0, 0, 800, 600),
        None,
    );
    let damage = structural_damage(&before.participants, &after.participants);
    let overlap = Region::from_rect(rect(250, 250, 150, 150));
    assert_eq!(damage, overlap, "exactly lower & upper");
}

#[test]
fn off_mode_presences_are_fully_visible() {
    let (core, store, windows) = differential_fixture();
    let off = build_with(
        Visibility::Off,
        &core,
        &store,
        &windows,
        (0, 0, 800, 600),
        None,
    );
    for p in &off.participants {
        assert_eq!(p.visible, p.region, "{:?}", p.id);
    }
    assert_eq!(off.stats.hidden_participants, 0);
    assert_eq!(off.stats.collapses(), 0);
}

#[test]
fn hidden_paint_projects_nothing_and_does_not_force() {
    let (core, mut store, windows) = two_windows((100, 100, 50, 50), (80, 80, 100, 100));
    let lower = drawable_of(&store, 0x100);
    store.damage(lower, rect(5, 5, 20, 20));
    let built = build_with(
        Visibility::On,
        &core,
        &store,
        &windows,
        (0, 0, 800, 600),
        None,
    );
    assert!(
        built.projected_damage.is_empty(),
        "hidden paint projected {:?}",
        built.projected_damage.rects()
    );
    assert_eq!(built.stats.content_hidden, 1);
    assert_eq!(built.stats.content_off_output, 0);
    assert_eq!(built.stats.content_visible, 0);
    assert!(
        !built.stats.off_output_damage_forces_compose(),
        "hidden damage must take the EmptyDamage skip, not force a Full compose"
    );
    assert!(
        !built.snapshots.iter().any(|s| s.id == lower),
        "a hidden snapshot must NOT ride this output's build: it was not presented \
         here, and carrying it would let this output's retire ack it globally \
         (the multi-output ack race, 2026-09-04)"
    );
    assert!(
        !store
            .peek_presentation_damage(lower)
            .unwrap()
            .region
            .is_empty()
    );
}

#[test]
fn hidden_damage_is_not_presented_so_the_scheduler_can_go_dormant() {
    let (core, mut store, windows) = two_windows((100, 100, 50, 50), (80, 80, 100, 100));
    let lower = drawable_of(&store, 0x100);
    let upper = drawable_of(&store, 0x200);
    store.damage(lower, rect(5, 5, 20, 20));
    store.damage(upper, rect(1, 1, 5, 5));
    let built = build_with(
        Visibility::On,
        &core,
        &store,
        &windows,
        (0, 0, 800, 600),
        None,
    );
    assert_eq!(built.stats.content_hidden, 1);
    assert!(
        built.sampled_ids.contains(&lower),
        "sampling bookkeeping is unchanged: the hidden node is still a participant"
    );
    assert!(
        !built.presented_ids.contains(&lower),
        "hidden damage was not presented: {:?}",
        built.presented_ids
    );
    assert!(built.presented_ids.contains(&upper));
    assert!(
        !built.pieces_ids.contains(&lower),
        "fully covered: no pieces either so NoPieces, stays dormant across paints"
    );
    let drawn = id_set(&built.presented_ids);
    let pieces = id_set(&built.pieces_ids);
    store.reconcile_offscreen_no_draw(&drawn, &pieces);
    assert_eq!(
        store.get(lower).unwrap().dormant,
        Some(DormantReason::NoPieces),
        "flagged out of the scheduler"
    );
    assert!(store.get(upper).unwrap().dormant.is_none());
    assert!(
        !store
            .peek_presentation_damage(lower)
            .unwrap()
            .region
            .is_empty(),
        "damage is preserved, only the flag changes"
    );

    let (core, mut store, windows) = two_windows((100, 100, 200, 200), (200, 100, 200, 200));
    let lower = drawable_of(&store, 0x100);
    store.damage(lower, rect(150, 50, 40, 20));
    let built = build_with(
        Visibility::On,
        &core,
        &store,
        &windows,
        (0, 0, 800, 600),
        None,
    );
    assert_eq!(built.stats.content_hidden, 1);
    assert!(built.stats.draws_emitted > 0);
    assert!(built.sampled_ids.contains(&lower));
    assert!(!built.presented_ids.contains(&lower));
    assert!(
        built.pieces_ids.contains(&lower),
        "partially covered: it emitted pieces so HiddenDamage, re-armed by the next paint"
    );
    let drawn = id_set(&built.presented_ids);
    let pieces = id_set(&built.pieces_ids);
    store.reconcile_offscreen_no_draw(&drawn, &pieces);
    assert_eq!(
        store.get(lower).unwrap().dormant,
        Some(DormantReason::HiddenDamage)
    );
    assert!(
        !store.has_pending_presentation_damage(),
        "nothing presentable is pending: the scheduler must go dormant"
    );
    store.damage(lower, rect(10, 10, 30, 30));
    assert!(
        store.has_pending_presentation_damage(),
        "a paint into a HiddenDamage-dormant window re-arms the scheduler"
    );
    let built = build_with(
        Visibility::On,
        &core,
        &store,
        &windows,
        (0, 0, 800, 600),
        None,
    );
    assert_eq!(built.stats.content_visible, 1);
    assert!(built.presented_ids.contains(&lower));
}

#[test]
fn damage_visible_on_one_output_keeps_the_drawable_armed() {
    let (core, mut store, windows) = two_windows((700, 100, 200, 100), (650, 0, 150, 600));
    let w = drawable_of(&store, 0x100);
    store.damage(w, rect(0, 0, 200, 100));
    let out0 = build_with(
        Visibility::On,
        &core,
        &store,
        &windows,
        (0, 0, 800, 600),
        None,
    );
    let out1 = build_with(
        Visibility::On,
        &core,
        &store,
        &windows,
        (800, 0, 800, 600),
        None,
    );
    assert_eq!(out0.stats.content_hidden, 1);
    assert!(!out0.presented_ids.contains(&w));
    assert_eq!(out1.stats.content_visible, 1);
    assert!(out1.presented_ids.contains(&w));
    let mut drawn = id_set(&out0.presented_ids);
    drawn.extend_from(&out1.presented_ids);
    let mut pieces = id_set(&out0.pieces_ids);
    pieces.extend_from(&out1.pieces_ids);
    store.reconcile_offscreen_no_draw(&drawn, &pieces);
    assert!(store.get(w).unwrap().dormant.is_none());
    assert!(store.has_pending_presentation_damage());
}

#[test]
fn paint_across_a_cover_edge_projects_only_the_visible_side() {
    let (core, mut store, windows) = two_windows((100, 100, 200, 200), (200, 100, 200, 200));
    let lower = drawable_of(&store, 0x100);
    store.damage(lower, rect(50, 50, 100, 20));
    let built = build_with(
        Visibility::On,
        &core,
        &store,
        &windows,
        (0, 0, 800, 600),
        None,
    );
    assert_eq!(projected_sorted(&built), vec![rect(150, 150, 50, 20)]);
    assert_eq!(built.stats.content_visible, 1);
    assert_eq!(built.stats.content_hidden, 0);
    let (core, mut store, windows) = two_windows((100, 100, 200, 200), (200, 100, 200, 200));
    let lower = drawable_of(&store, 0x100);
    store.damage(lower, rect(10, 10, 30, 30));
    let built = build_with(
        Visibility::On,
        &core,
        &store,
        &windows,
        (0, 0, 800, 600),
        None,
    );
    assert_eq!(projected_sorted(&built), vec![rect(110, 110, 30, 30)]);
}

#[test]
fn off_output_paint_still_forces_a_compose() {
    let (core, mut store, windows) = two_windows((750, 100, 100, 50), (10, 10, 20, 20));
    let w = drawable_of(&store, 0x100);
    store.damage(w, rect(60, 5, 30, 10));
    let built = build_with(
        Visibility::On,
        &core,
        &store,
        &windows,
        (0, 0, 800, 600),
        None,
    );
    assert!(built.projected_damage.is_empty());
    assert_eq!(built.stats.content_off_output, 1);
    assert_eq!(built.stats.content_hidden, 0);
    assert!(built.stats.off_output_damage_forces_compose());
    let (core, mut store, windows) = two_windows((750, 100, 100, 50), (10, 10, 20, 20));
    let w = drawable_of(&store, 0x100);
    store.damage(w, rect(10, 5, 30, 10));
    let built = build_with(
        Visibility::On,
        &core,
        &store,
        &windows,
        (0, 0, 800, 600),
        None,
    );
    assert_eq!(projected_sorted(&built), vec![rect(760, 105, 30, 10)]);
    assert_eq!(built.stats.content_visible, 1);
    assert!(!built.stats.off_output_damage_forces_compose());
}

#[test]
fn uncovering_a_window_surfaces_its_accumulated_hidden_paint() {
    let (core, mut store, mut windows) = two_windows((100, 100, 50, 50), (80, 80, 100, 100));
    let lower = drawable_of(&store, 0x100);
    store.damage(lower, rect(5, 5, 20, 20));
    let frame1 = build_with(
        Visibility::On,
        &core,
        &store,
        &windows,
        (0, 0, 800, 600),
        None,
    );
    assert!(frame1.projected_damage.is_empty());
    assert_eq!(frame1.stats.content_hidden, 1);
    store.damage(lower, rect(30, 30, 10, 10));
    let a = windows.get_mut(&0x200).expect("A");
    a.x = 400;
    a.y = 400;
    let frame2 = build_with(
        Visibility::On,
        &core,
        &store,
        &windows,
        (0, 0, 800, 600),
        None,
    );
    assert_eq!(
        projected_sorted(&frame2),
        vec![rect(105, 105, 20, 20), rect(130, 130, 10, 10)],
        "both accumulated paints project once W is visible"
    );
    assert_eq!(frame2.stats.content_visible, 1);
    let structural = structural_damage(&frame1.participants, &frame2.participants);
    assert!(
        structural.contains_rect(rect(100, 100, 50, 50)),
        "the mover's old | new covers the uncovered window: {structural:?}"
    );
}

#[test]
fn hidden_on_one_output_visible_on_the_other() {
    let (core, mut store, windows) = two_windows((700, 100, 200, 100), (650, 0, 150, 600));
    let w = drawable_of(&store, 0x100);
    store.damage(w, rect(0, 0, 200, 100));
    let out0 = build_with(
        Visibility::On,
        &core,
        &store,
        &windows,
        (0, 0, 800, 600),
        None,
    );
    assert!(out0.projected_damage.is_empty());
    assert_eq!(out0.stats.content_hidden, 1);
    assert!(!out0.stats.off_output_damage_forces_compose());
    assert!(!store.peek_presentation_damage(w).unwrap().region.is_empty());
    let out1 = build_with(
        Visibility::On,
        &core,
        &store,
        &windows,
        (800, 0, 800, 600),
        None,
    );
    assert_eq!(projected_sorted(&out1), vec![rect(0, 100, 100, 100)]);
    assert_eq!(out1.stats.content_visible, 1);
    assert!(
        !out0.snapshots.iter().any(|s| s.id == w),
        "output 0 (hidden) must not carry W's snapshot"
    );
    assert!(
        out1.snapshots
            .iter()
            .any(|s| s.id == w && !s.region.is_empty()),
        "output 1 (visible) carries it and acks it at its retire"
    );
}

#[test]
fn other_output_damage_is_neither_forced_nor_carried_here() {
    let (core, mut store, windows) = two_windows((700, 100, 200, 100), (0, 0, 10, 10));
    let w = drawable_of(&store, 0x100);
    store.damage(w, rect(0, 0, 50, 100));
    let out0 = build_with(
        Visibility::On,
        &core,
        &store,
        &windows,
        (0, 0, 800, 600),
        None,
    );
    assert_eq!(out0.stats.content_visible, 1);
    assert!(
        out0.snapshots
            .iter()
            .any(|s| s.id == w && !s.region.is_empty())
    );
    assert!(out0.presented_ids.contains(&w));
    let elsewhere = id_set(&out0.pieces_ids);
    let out1 = build_with_elsewhere(
        Visibility::On,
        &core,
        &store,
        &windows,
        (800, 0, 800, 600),
        None,
        &elsewhere,
    );
    assert_eq!(out1.stats.content_other_output, 1, "{:?}", out1.stats);
    assert_eq!(out1.stats.content_off_output, 0);
    assert!(
        !out1.stats.off_output_damage_forces_compose(),
        "damage another output presents must not force a Full compose here"
    );
    assert!(
        !out1.snapshots.iter().any(|s| s.id == w),
        "output 1 must not carry (and later ack) damage it did not present"
    );
    assert!(!out1.presented_ids.contains(&w));
    assert!(
        out1.pieces_ids.contains(&w),
        "W's right half is visible on output 1, so it has pieces there"
    );
    assert!(out1.projected_damage.is_empty());
}

#[test]
fn damage_off_output_forces_a_compose_but_is_never_carried() {
    let (core, mut store, windows) = two_windows((700, 100, 200, 100), (0, 0, 10, 10));
    let w = drawable_of(&store, 0x100);
    store.damage(w, rect(150, 0, 50, 100));
    let nowhere = IdSet::new();
    let out0 = build_with_elsewhere(
        Visibility::On,
        &core,
        &store,
        &windows,
        (0, 0, 800, 600),
        None,
        &nowhere,
    );
    assert_eq!(out0.stats.content_off_output, 1, "{:?}", out0.stats);
    assert_eq!(out0.stats.content_other_output, 0);
    assert!(
        out0.stats.off_output_damage_forces_compose(),
        "an empty projection must still force a compose (xfce submenu)"
    );
    assert!(
        !out0.snapshots.iter().any(|s| s.id == w),
        "the forced compose shows none of those pixels, so it must not ack them"
    );
    assert!(
        !out0.presented_ids.contains(&w),
        "not presented so dormancy stops the forcing until the next paint"
    );
    let out1 = build_with_elsewhere(
        Visibility::On,
        &core,
        &store,
        &windows,
        (800, 0, 800, 600),
        None,
        &nowhere,
    );
    assert_eq!(out1.stats.content_visible, 1);
    let elsewhere = id_set(&out1.pieces_ids);
    let out0 = build_with_elsewhere(
        Visibility::On,
        &core,
        &store,
        &windows,
        (0, 0, 800, 600),
        None,
        &elsewhere,
    );
    assert_eq!(out0.stats.content_other_output, 1);
    assert!(!out0.stats.off_output_damage_forces_compose());
    assert!(!out0.snapshots.iter().any(|s| s.id == w));
}

#[test]
fn an_output_never_acks_damage_it_did_not_present() {
    let (core, mut store, windows) = two_windows((700, 100, 200, 100), (0, 0, 10, 10));
    let w = drawable_of(&store, 0x100);
    let warm = build_with(
        Visibility::On,
        &core,
        &store,
        &windows,
        (0, 0, 800, 600),
        None,
    );
    let elsewhere = id_set(&warm.pieces_ids);
    assert!(elsewhere.contains(w));
    store.damage(w, rect(0, 0, 50, 100));
    let out1 = build_with_elsewhere(
        Visibility::On,
        &core,
        &store,
        &windows,
        (800, 0, 800, 600),
        None,
        &elsewhere,
    );
    for snap in out1.snapshots {
        store.ack_presentation_damage(&snap);
    }
    assert!(
        !store.peek_presentation_damage(w).unwrap().region.is_empty(),
        "output 1 never presented W's damage, so its retire must not have acked it"
    );
    let out0 = build_with(
        Visibility::On,
        &core,
        &store,
        &windows,
        (0, 0, 800, 600),
        None,
    );
    assert_eq!(projected_sorted(&out0), vec![rect(700, 100, 50, 100)]);
    assert!(
        out0.snapshots
            .iter()
            .any(|s| s.id == w && !s.region.is_empty())
    );
}

#[test]
fn off_mode_projection_is_unchanged_by_stage_c() {
    let (core, mut store, windows) = differential_fixture();
    let xids: Vec<u32> = windows.keys().copied().collect();
    for (i, xid) in xids.iter().enumerate() {
        if let Some(id) = store.lookup(*xid) {
            #[allow(clippy::cast_possible_truncation)]
            let k = (i % 7) as i32;
            store.damage(id, rect(k, k, 8 + k as u32, 6));
        }
    }
    for layout in [(0, 0, 800, 600), (100, 50, 800, 600)] {
        let plain = walk_with(true, &core, &store, &windows, layout, None);
        let off = walk_with(false, &core, &store, &windows, layout, None);
        assert!(
            !plain.projected.is_empty(),
            "fixture damage must project at layout {layout:?}"
        );
        assert_eq!(off.projected, plain.projected, "layout {layout:?}");
    }
    let off = build_with(
        Visibility::Off,
        &core,
        &store,
        &windows,
        (0, 0, 800, 600),
        None,
    );
    let on = build_with(
        Visibility::On,
        &core,
        &store,
        &windows,
        (0, 0, 800, 600),
        None,
    );
    let off_region = Region::from_rects(off.projected_damage.rects());
    for r in on.projected_damage.rects() {
        assert!(
            off_region.contains_rect(*r),
            "On projected {r:?} outside Off"
        );
    }
}

#[test]
fn only_off_output_damage_forces() {
    let mut s = WalkStats::default();
    assert!(!s.off_output_damage_forces_compose());
    s.content_hidden = 5;
    s.content_visible = 2;
    assert!(!s.off_output_damage_forces_compose());
    s.content_off_output = 1;
    assert!(s.off_output_damage_forces_compose());
}

#[test]
fn opaque_windows_leave_nothing_of_their_place() {
    let mut core = core_for_tests();
    let mut store = DrawableStore::new();
    let mut windows = WindowsMap::new();
    alloc_stub_window(&mut store, &mut windows, 0x100, 0, 0, 40, 40, None, true);
    alloc_stub_window(&mut store, &mut windows, 0x101, 20, 0, 40, 40, None, true);
    alloc_stub_window(&mut store, &mut windows, 0x102, 0, 0, 10, 40, Some(0x101), true);
    core.top_level_order = vec![0x100, 0x101];
    let built = build_with(
        Visibility::On,
        &core,
        &store,
        &windows,
        (0, 0, 100, 40),
        None,
    );
    let visible = |xid: u32| -> Vec<Rect2D> {
        built
            .participants
            .iter()
            .find(|p| p.id.xid == xid)
            .expect("window takes part")
            .visible
            .rects()
    };
    assert_eq!(visible(0x102), vec![rect(20, 0, 10, 40)]);
    assert_eq!(visible(0x101), vec![rect(30, 0, 30, 40)]);
    assert_eq!(visible(0x100), vec![rect(0, 0, 20, 40)]);
    assert_eq!(built.stats.collapses_claim, 0);
}
