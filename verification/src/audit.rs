//! The damage audit: a candidate image that is only ever repaired where damage
//! was reported, compared tile by tile with a reference that is drawn in full.
//!
//! The renderer draws and compares; what to draw next, and what a comparison
//! means, is decided here.

use std::collections::{HashMap, HashSet};

use vstd::prelude::*;

use crate::geometry::{Extent2D, Offset2D, Rect2D};
use crate::ids::{map_keys, DrawableId};
use crate::ledger::{candidates, DamageLedger, LedgerCandidate, LedgerView};
use crate::repaint::rect_area;
use crate::store::DrawableStore;
use crate::walk::{bump, sat_add};

verus! {

broadcast use vstd::std_specs::hash::group_hash_axioms;

// ── tiles ───────────────────────────────────────────────────────────
/// Where a block of a partition starts: the first `extent % grid` blocks are one
/// longer than the others.
pub open spec fn block_start(extent: int, grid: int, block: int) -> int {
    block * (extent / grid) + (if block < extent % grid { block } else { extent % grid })
}

pub proof fn lemma_block(extent: int, grid: int, block: int)
    requires
        extent >= 0,
        grid > 0,
        0 <= block < grid,
    ensures
        block_start(extent, grid, block + 1) == block_start(extent, grid, block) + extent / grid
            + (if block < extent % grid { 1int } else { 0int }),
        0 <= block_start(extent, grid, block) <= block_start(extent, grid, block + 1) <= extent,
{
    let base = extent / grid;
    let extra = extent % grid;
    assert(0 <= extra < grid && base >= 0 && extent == grid * base + extra) by (nonlinear_arith)
        requires
            extent >= 0,
            grid > 0,
            base == extent / grid,
            extra == extent % grid,
    ;
    assert((block + 1) * base == block * base + base) by (nonlinear_arith);
    assert(0 <= block * base) by (nonlinear_arith)
        requires
            base >= 0,
            block >= 0,
    ;
    assert((block + 1) * base <= grid * base) by (nonlinear_arith)
        requires
            base >= 0,
            block + 1 <= grid,
    ;
}

/// The ends of a block of a partition.
pub fn partition_bounds(extent: u32, grid: u32, block: u32) -> (r: (u32, u32))
    requires
        grid > 0,
        block < grid,
    ensures
        r.0 == block_start(extent as int, grid as int, block as int),
        r.1 == block_start(extent as int, grid as int, block + 1),
        r.0 <= r.1 <= extent,
{
    let base = extent / grid;
    let extra = extent % grid;
    proof {
        lemma_block(extent as int, grid as int, block as int);
        assert(block * base <= extent && 0 <= block * base) by {
            assert(0 <= block * base) by (nonlinear_arith);
        }
    }
    let start = block * base + (if block < extra { block } else { extra });
    let end = start + base + (if block < extra { 1 } else { 0 });
    (start, end)
}

/// The blocks of a partition follow one another from end to end: the first
/// starts at nothing, each ends where the next starts, and the last ends at the
/// extent.
pub proof fn blocks_tile_the_extent(extent: u32, grid: u32)
    requires
        grid > 0,
    ensures
        block_start(extent as int, grid as int, 0) == 0,
        block_start(extent as int, grid as int, grid as int) == extent,
        forall|b: int|
            0 <= b < grid ==> block_start(extent as int, grid as int, b) <= #[trigger] block_start(
                extent as int,
                grid as int,
                b + 1,
            ),
{
    let e = extent as int;
    let g = grid as int;
    assert(0 * (e / g) == 0) by (nonlinear_arith);
    assert(0 <= e % g < g && e == g * (e / g) + e % g) by (nonlinear_arith)
        requires
            e >= 0,
            g > 0,
    ;
    assert forall|b: int| 0 <= b < grid implies block_start(e, g, b) <= #[trigger] block_start(
        e,
        g,
        b + 1,
    ) by {
        lemma_block(e, g, b);
    }
}

proof fn lemma_block_order(extent: int, grid: int, a: int, b: int)
    requires
        extent >= 0,
        grid > 0,
        0 <= a <= b <= grid,
    ensures
        block_start(extent, grid, a) <= block_start(extent, grid, b),
    decreases b - a,
{
    if a < b {
        lemma_block(extent, grid, b - 1);
        lemma_block_order(extent, grid, a, b - 1);
    }
}

/// Every place of the extent lies in exactly one block.
pub proof fn every_place_has_one_block(extent: u32, grid: u32, x: int)
    requires
        grid > 0,
        0 <= x < extent,
    ensures
        exists|b: int|
            0 <= b < grid && #[trigger] block_start(extent as int, grid as int, b) <= x
                < block_start(extent as int, grid as int, b + 1),
        forall|a: int, b: int|
            0 <= a < grid && 0 <= b < grid && #[trigger] block_start(extent as int, grid as int, a)
                <= x < block_start(extent as int, grid as int, a + 1) && #[trigger] block_start(
                extent as int,
                grid as int,
                b,
            ) <= x < block_start(extent as int, grid as int, b + 1) ==> a == b,
{
    let e = extent as int;
    let g = grid as int;
    blocks_tile_the_extent(extent, grid);
    lemma_find_block(e, g, x, g);
    assert forall|a: int, b: int|
        0 <= a < g && 0 <= b < g && #[trigger] block_start(e, g, a) <= x < block_start(e, g, a + 1)
            && #[trigger] block_start(e, g, b) <= x < block_start(e, g, b + 1) implies a == b by {
        if a < b {
            lemma_block_order(e, g, a + 1, b);
        } else if b < a {
            lemma_block_order(e, g, b + 1, a);
        }
    }
}

proof fn lemma_find_block(extent: int, grid: int, x: int, n: int)
    requires
        extent >= 0,
        grid > 0,
        0 <= n <= grid,
        0 <= x < block_start(extent, grid, n),
        block_start(extent, grid, 0) == 0,
    ensures
        exists|b: int|
            0 <= b < n && #[trigger] block_start(extent, grid, b) <= x < block_start(
                extent,
                grid,
                b + 1,
            ),
    decreases n,
{
    if n > 0 {
        if block_start(extent, grid, n - 1) <= x {
            assert(block_start(extent, grid, n - 1) <= x < block_start(extent, grid, (n - 1) + 1));
        } else {
            lemma_find_block(extent, grid, x, n - 1);
        }
    }
}

/// The rectangle of a tile; edges past the plane are clamped to its end.
pub open spec fn tile_rect(extent: Extent2D, gw: u32, gh: u32, tile: u32) -> Rect2D {
    let tx = (tile % gw) as int;
    let ty = (tile / gw) as int;
    let x0 = block_start(extent.width as int, gw as int, tx);
    let x1 = block_start(extent.width as int, gw as int, tx + 1);
    let y0 = block_start(extent.height as int, gh as int, ty);
    let y1 = block_start(extent.height as int, gh as int, ty + 1);
    Rect2D {
        offset: Offset2D {
            x: if x0 <= i32::MAX { x0 as i32 } else { i32::MAX },
            y: if y0 <= i32::MAX { y0 as i32 } else { i32::MAX },
        },
        extent: Extent2D { width: (x1 - x0) as u32, height: (y1 - y0) as u32 },
    }
}

/// Whether a number names a tile of a grid.
pub open spec fn tile_ok(gw: u32, gh: u32, tile: u32) -> bool {
    gw > 0 && tile / gw < gh
}

pub fn tile_rect_for_id(extent: Extent2D, grid_width: u32, grid_height: u32, tile_id: u32) -> (r:
    Rect2D)
    requires
        tile_ok(grid_width, grid_height, tile_id),
    ensures
        r == tile_rect(extent, grid_width, grid_height, tile_id),
{
    let tile_x = tile_id % grid_width;
    let tile_y = tile_id / grid_width;
    let (x0, x1) = partition_bounds(extent.width, grid_width, tile_x);
    let (y0, y1) = partition_bounds(extent.height, grid_height, tile_y);
    Rect2D {
        offset: Offset2D { x: clamp_i32(x0), y: clamp_i32(y0) },
        extent: Extent2D { width: x1 - x0, height: y1 - y0 },
    }
}

fn clamp_i32(n: u32) -> (r: i32)
    ensures
        r == (if n <= i32::MAX { n as int } else { i32::MAX as int }),
{
    if n <= i32::MAX as u32 { n as i32 } else { i32::MAX }
}

/// What the shader drew of a frame.
#[derive(Clone, Copy, Debug, PartialEq, Eq, Structural)]
pub struct ComposeSubmit {
    pub descriptor_count: usize,
}

/// Whether every draw of a frame was recorded.
pub fn compose_submit_was_complete(submitted: ComposeSubmit, draw_count: usize) -> (r: bool)
    ensures
        r == (submitted.descriptor_count == draw_count),
{
    submitted.descriptor_count == draw_count
}

// ── sampled drawables ───────────────────────────────────────────────
/// Pairs sampled drawables with the windows or pixmaps they stand for; nothing
/// while the audit is off.
pub fn audit_sampled_pairs(
    enabled: bool,
    store: &DrawableStore,
    sampled_ids: &[DrawableId],
) -> (r: Vec<(u64, u32)>)
    ensures
        !enabled ==> r@ == Seq::<(u64, u32)>::empty(),
        enabled ==> r@.len() == sampled_ids@.len() && forall|i: int|
            0 <= i < r@.len() ==> (#[trigger] r@[i]).0 == sampled_ids@[i].raw && store@.named_by(
                sampled_ids@[i],
                r@[i].1,
            ),
{
    let mut out: Vec<(u64, u32)> = Vec::new();
    if !enabled {
        return out;
    }
    let mut i: usize = 0;
    while i < sampled_ids.len()
        invariant
            i <= sampled_ids@.len(),
            out@.len() == i,
            forall|k: int|
                0 <= k < out@.len() ==> (#[trigger] out@[k]).0 == sampled_ids@[k].raw && store@.named_by(
                    sampled_ids@[k],
                    out@[k].1,
                ),
        decreases sampled_ids@.len() - i,
    {
        let id = sampled_ids[i];
        let xid = store.xid_of(id);
        out.push((id.as_u64(), xid));
        i = i + 1;
    }
    out
}

// ── the state of an audit ───────────────────────────────────────────
/// When a tile began to differ.
#[derive(Clone, Copy, Debug, PartialEq, Eq, Structural)]
pub struct DamageAuditEpisodeStart {
    pub frame: u64,
    pub first_event_id: u64,
    pub next_event_id: u64,
}

/// What the audit counted.
#[derive(Clone, Copy, Debug, PartialEq, Eq, Structural)]
pub struct AuditCounts {
    pub episodes_opened: u64,
    pub episodes_healed: u64,
    pub reset_count: u64,
    /// Comparisons that were made. A clean run is evidence only if this grows.
    pub comparisons: u64,
    pub comparisons_idle: u64,
    pub comparisons_partial: u64,
    pub comparisons_full: u64,
    /// Bounding-box pixels over the comparisons that were not idle.
    pub damage_pixels: u128,
    pub damage_frames: u64,
    pub clipped_gpu_ns: u128,
    pub full_gpu_ns: u128,
    pub gpu_samples: u64,
}

/// The audit of one output.
#[derive(Debug)]
pub struct OutputDamageAudit {
    pub extent: Extent2D,
    pub grid_width: u32,
    pub grid_height: u32,
    /// Whether the candidate holds a picture of this output.
    pub initialized: bool,
    pub frame: u64,
    pub consumed_event_id: u64,
    pub active_episodes: HashMap<u32, DamageAuditEpisodeStart>,
    pub counts: AuditCounts,
    pub seed_draws: usize,
    pub frame_draws: usize,
    pub seed_sampled: Vec<(u64, u32)>,
    pub frame_sampled: Vec<(u64, u32)>,
    pub last_compare_at: Option<u64>,
    pub last_heartbeat_at: Option<u64>,
}

/// The audit with views.
#[verifier::ext_equal]
pub struct AuditView {
    pub extent: Extent2D,
    pub grid_width: u32,
    pub grid_height: u32,
    pub initialized: bool,
    pub frame: u64,
    pub consumed_event_id: u64,
    pub active: Map<u32, DamageAuditEpisodeStart>,
    pub counts: AuditCounts,
    pub seed_draws: usize,
    pub frame_draws: usize,
    pub seed_sampled: Seq<(u64, u32)>,
    pub frame_sampled: Seq<(u64, u32)>,
    pub last_compare_at: Option<u64>,
    pub last_heartbeat_at: Option<u64>,
}

impl View for OutputDamageAudit {
    type V = AuditView;

    open spec fn view(&self) -> AuditView {
        AuditView {
            extent: self.extent,
            grid_width: self.grid_width,
            grid_height: self.grid_height,
            initialized: self.initialized,
            frame: self.frame,
            consumed_event_id: self.consumed_event_id,
            active: self.active_episodes@,
            counts: self.counts,
            seed_draws: self.seed_draws,
            frame_draws: self.frame_draws,
            seed_sampled: self.seed_sampled@,
            frame_sampled: self.frame_sampled@,
            last_compare_at: self.last_compare_at,
            last_heartbeat_at: self.last_heartbeat_at,
        }
    }
}

/// No count yet.
pub open spec fn no_counts() -> AuditCounts {
    AuditCounts {
        episodes_opened: 0,
        episodes_healed: 0,
        reset_count: 0,
        comparisons: 0,
        comparisons_idle: 0,
        comparisons_partial: 0,
        comparisons_full: 0,
        damage_pixels: 0,
        damage_frames: 0,
        clipped_gpu_ns: 0,
        full_gpu_ns: 0,
        gpu_samples: 0,
    }
}

/// Addition that stops at the largest value.
pub open spec fn sat_u128(n: u128, k: u128) -> u128 {
    if n + k > u128::MAX { u128::MAX } else { (n + k) as u128 }
}

fn add_u128(n: u128, k: u128) -> (r: u128)
    ensures
        r == sat_u128(n, k),
{
    if n > u128::MAX - k { u128::MAX } else { n + k }
}

// ── one run ─────────────────────────────────────────────────────────
/// What a run of the audit knows while the renderer works for it.
#[derive(Clone, Copy, Debug)]
pub struct AuditRun {
    pub latest_event_id: u64,
    pub compare_this_frame: bool,
    pub just_seeded: bool,
    /// Whether nothing was reported, so that the candidate is left as it is.
    pub after_empty_damage: bool,
    /// The bounding box of what was reported.
    pub damage: Option<Rect2D>,
}

/// What the renderer is to do next for the audit.
#[derive(Clone, Copy, Debug)]
pub enum AuditStep {
    /// Draw the candidate in full.
    Seed,
    /// Draw the candidate inside a rectangle.
    Candidate(Rect2D),
    /// Draw the reference in full.
    Reference,
    /// Compare the two.
    Compare,
    /// The run is over, and the events so far are accounted for.
    Done,
    /// The run is over: a composed frame reported no damage.
    Suspect,
}

/// The time since an instant; none has passed since one that is still to come.
pub open spec fn time_since(at: u64, now: u64) -> int {
    if now >= at { now - at } else { 0 }
}

fn elapsed(at: u64, now: u64) -> (r: u64)
    ensures
        r == time_since(at, now),
{
    if now >= at { now - at } else { 0 }
}

/// Whether an audit that holds a picture has not compared it for a while.
pub open spec fn recompare_due(a: AuditView, now: u64, due: u64) -> bool {
    a.initialized && (match a.last_compare_at {
        Some(at) => time_since(at, now) >= due,
        None => true,
    })
}

/// An audit that has accounted for the events so far.
pub open spec fn consumed(a: AuditView, latest: u64) -> AuditView {
    AuditView { consumed_event_id: latest, ..a }
}

/// An audit whose images can no longer be compared.
pub open spec fn spoiled(a: AuditView, latest: u64) -> AuditView {
    AuditView { initialized: false, active: Map::empty(), consumed_event_id: latest, ..a }
}

/// What follows once the candidate is up to date.
pub open spec fn after_candidate(a: AuditView, run: AuditRun) -> (AuditView, AuditStep) {
    if run.compare_this_frame || run.just_seeded {
        (a, AuditStep::Reference)
    } else {
        (consumed(a, run.latest_event_id), AuditStep::Done)
    }
}

/// What follows once the candidate holds a picture.
pub open spec fn after_picture(a: AuditView, run: AuditRun) -> (AuditView, AuditStep) {
    if !run.after_empty_damage && !run.just_seeded {
        match run.damage {
            None => (a, AuditStep::Suspect),
            Some(r) => (a, AuditStep::Candidate(r)),
        }
    } else {
        after_candidate(a, run)
    }
}

/// The audit after a reset, if there is one.
pub open spec fn reset_if(a: AuditView, reset: bool) -> AuditView {
    if reset {
        AuditView {
            initialized: false,
            active: Map::empty(),
            counts: AuditCounts {
                reset_count: sat_add(a.counts.reset_count, 1),
                ..a.counts
            },
            ..a
        }
    } else {
        a
    }
}

/// The start of a run.
pub open spec fn begun(
    a: AuditView,
    reset: bool,
    latest: u64,
    interval: u64,
    seed_frame: u64,
    after_empty_damage: bool,
    damage: Option<Rect2D>,
) -> (AuditView, AuditRun, AuditStep) {
    let r = reset_if(a, reset);
    let b = AuditView { frame: sat_add(r.frame, 1), ..r };
    let run = AuditRun {
        latest_event_id: latest,
        compare_this_frame: b.frame % interval == 0,
        just_seeded: false,
        after_empty_damage,
        damage,
    };
    if !b.initialized && b.frame < seed_frame {
        (consumed(b, latest), run, AuditStep::Done)
    } else if !b.initialized {
        (b, run, AuditStep::Seed)
    } else {
        (after_picture(b, run).0, run, after_picture(b, run).1)
    }
}

/// The run once the candidate was drawn in full.
pub open spec fn seeded(
    a: AuditView,
    run: AuditRun,
    complete: bool,
    draws: usize,
    sampled: Seq<(u64, u32)>,
) -> (AuditView, AuditRun, AuditStep) {
    if !complete {
        (
            AuditView { initialized: false, ..consumed(a, run.latest_event_id) },
            run,
            AuditStep::Done,
        )
    } else {
        let r = AuditRun { just_seeded: true, ..run };
        (
            AuditView { initialized: true, seed_draws: draws, seed_sampled: sampled, ..a },
            r,
            AuditStep::Reference,
        )
    }
}

/// The run once the candidate was drawn where damage was reported.
pub open spec fn candidate_drawn(a: AuditView, run: AuditRun, complete: bool) -> (
    AuditView,
    AuditStep,
) {
    if complete {
        after_candidate(a, run)
    } else {
        (spoiled(a, run.latest_event_id), AuditStep::Done)
    }
}

/// The pixels of the damage's bounding box.
pub open spec fn damage_area(run: AuditRun) -> nat {
    match run.damage {
        Some(r) => rect_area(r),
        None => 0,
    }
}

/// The counts once a comparison was classified: idle where nothing was reported,
/// full where the whole output was, else partial.
pub open spec fn classified(
    a: AuditView,
    run: AuditRun,
    candidate_ns: Option<u64>,
    reference_ns: Option<u64>,
) -> AuditCounts {
    let c = if run.after_empty_damage {
        AuditCounts { comparisons_idle: sat_add(a.counts.comparisons_idle, 1), ..a.counts }
    } else {
        let full = damage_area(run) >= a.extent.width * a.extent.height;
        AuditCounts {
            comparisons_full: if full {
                sat_add(a.counts.comparisons_full, 1)
            } else {
                a.counts.comparisons_full
            },
            comparisons_partial: if full {
                a.counts.comparisons_partial
            } else {
                sat_add(a.counts.comparisons_partial, 1)
            },
            damage_pixels: sat_u128(a.counts.damage_pixels, damage_area(run) as u128),
            damage_frames: sat_add(a.counts.damage_frames, 1),
            ..a.counts
        }
    };
    if !run.after_empty_damage && !run.just_seeded && candidate_ns is Some && reference_ns is Some {
        AuditCounts {
            clipped_gpu_ns: sat_u128(c.clipped_gpu_ns, candidate_ns->0 as u128),
            full_gpu_ns: sat_u128(c.full_gpu_ns, reference_ns->0 as u128),
            gpu_samples: sat_add(c.gpu_samples, 1),
            ..c
        }
    } else {
        c
    }
}

/// The run once the reference was drawn.
pub open spec fn reference_drawn(
    a: AuditView,
    run: AuditRun,
    complete: bool,
    candidate_ns: Option<u64>,
    reference_ns: Option<u64>,
) -> (AuditView, AuditStep) {
    if complete {
        (
            AuditView { counts: classified(a, run, candidate_ns, reference_ns), ..a },
            AuditStep::Compare,
        )
    } else {
        (spoiled(a, run.latest_event_id), AuditStep::Done)
    }
}

// ── comparisons ─────────────────────────────────────────────────────
/// What a comparison says of one tile.
#[derive(Clone, Copy, Debug, PartialEq, Eq, Structural)]
pub struct DamageAuditTileSummary {
    pub tile_id: u32,
    pub mismatch_count: u32,
    pub first_pixel_index: u32,
    pub candidate: u32,
    pub reference: u32,
}

/// A tile that began to differ.
#[derive(Debug)]
pub struct AuditMismatch {
    pub summary: DamageAuditTileSummary,
    /// Where the first differing pixel is.
    pub first_x: u32,
    pub first_y: u32,
    /// What may explain it.
    pub candidates: Vec<LedgerCandidate>,
}

/// The same with a sequence.
pub struct MismatchView {
    pub summary: DamageAuditTileSummary,
    pub first_x: u32,
    pub first_y: u32,
    pub candidates: Seq<LedgerCandidate>,
}

impl View for AuditMismatch {
    type V = MismatchView;

    open spec fn view(&self) -> MismatchView {
        MismatchView {
            summary: self.summary,
            first_x: self.first_x,
            first_y: self.first_y,
            candidates: self.candidates@,
        }
    }
}

/// What a comparison came to.
#[derive(Debug)]
pub struct AuditReport {
    /// Tiles that began to differ, in the order they were reported.
    pub mismatches: Vec<AuditMismatch>,
    /// Tiles that no longer differ, in no particular order.
    pub healed: Vec<u32>,
    /// When each of them had begun to.
    pub healed_starts: Vec<DamageAuditEpisodeStart>,
}

/// Whether `starts` says of each tile of a list when it began to differ.
pub open spec fn starts_of(
    active: Map<u32, DamageAuditEpisodeStart>,
    tiles: Seq<u32>,
    starts: Seq<DamageAuditEpisodeStart>,
) -> bool {
    &&& starts.len() == tiles.len()
    &&& forall|i: int| 0 <= i < tiles.len() ==> #[trigger] starts[i] == active[tiles[i]]
}

/// The mismatches behind a list.
pub open spec fn mismatch_views(s: Seq<AuditMismatch>) -> Seq<MismatchView> {
    s.map_values(|m: AuditMismatch| m@)
}

/// The tiles that differ.
pub open spec fn differing(s: Seq<DamageAuditTileSummary>) -> Set<u32> {
    Set::new(
        |t: u32|
            exists|i: int|
                0 <= i < s.len() && (#[trigger] s[i]).tile_id == t && s[i].mismatch_count > 0,
    )
}

/// What a new mismatch is reported as.
pub open spec fn mismatch_of(
    a: AuditView,
    ledger: LedgerView,
    output_idx: usize,
    s: DamageAuditTileSummary,
    latest: u64,
) -> MismatchView {
    MismatchView {
        summary: s,
        first_x: s.first_pixel_index % a.extent.width,
        first_y: s.first_pixel_index / a.extent.width,
        candidates: candidates(
            ledger.entries,
            output_idx,
            tile_rect(a.extent, a.grid_width, a.grid_height, s.tile_id),
            a.consumed_event_id,
            latest,
        ),
    }
}

/// The episodes, their count and the reports after the differing tiles of a list
/// were taken in turn; one that already differs is not opened again.
pub open spec fn opened(
    a: AuditView,
    ledger: LedgerView,
    output_idx: usize,
    s: Seq<DamageAuditTileSummary>,
    latest: u64,
) -> (Map<u32, DamageAuditEpisodeStart>, u64, Seq<MismatchView>)
    decreases s.len(),
{
    if s.len() == 0 {
        (a.active, a.counts.episodes_opened, Seq::empty())
    } else {
        let (active, n, reports) = opened(a, ledger, output_idx, s.drop_last(), latest);
        let t = s.last();
        if t.mismatch_count == 0 || active.dom().contains(t.tile_id) {
            (active, n, reports)
        } else {
            (
                active.insert(
                    t.tile_id,
                    DamageAuditEpisodeStart {
                        frame: a.frame,
                        first_event_id: a.consumed_event_id,
                        next_event_id: latest,
                    },
                ),
                sat_add(n, 1),
                reports.push(mismatch_of(a, ledger, output_idx, t, latest)),
            )
        }
    }
}

/// The audit after a comparison.
pub open spec fn judged(
    a: AuditView,
    ledger: LedgerView,
    output_idx: usize,
    s: Seq<DamageAuditTileSummary>,
    latest: u64,
) -> AuditView {
    let (active, n, reports) = opened(a, ledger, output_idx, s, latest);
    AuditView {
        active: active.restrict(differing(s)),
        counts: AuditCounts {
            episodes_opened: n,
            episodes_healed: sat_add(
                a.counts.episodes_healed,
                active.dom().difference(differing(s)).len(),
            ),
            ..a.counts
        },
        ..a
    }
}

/// The audit once the two were compared, before anything is known of the outcome.
pub open spec fn comparison_noted(
    a: AuditView,
    draws: usize,
    sampled: Seq<(u64, u32)>,
    now: u64,
) -> AuditView {
    AuditView {
        frame_draws: draws,
        frame_sampled: sampled,
        counts: AuditCounts { comparisons: sat_add(a.counts.comparisons, 1), ..a.counts },
        last_compare_at: Some(now),
        ..a
    }
}

/// The run once the two were compared and the outcome is known.
pub open spec fn compared(
    a: AuditView,
    ledger: LedgerView,
    output_idx: usize,
    run: AuditRun,
    s: Seq<DamageAuditTileSummary>,
    draws: usize,
    sampled: Seq<(u64, u32)>,
    now: u64,
) -> AuditView {
    let b = comparison_noted(a, draws, sampled, now);
    consumed(judged(b, ledger, output_idx, s, run.latest_event_id), run.latest_event_id)
}

/// Whether tiles can be named.
pub open spec fn audit_ok(a: AuditView) -> bool {
    a.extent.width > 0 && a.grid_width > 0 && a.grid_height > 0
}

impl OutputDamageAudit {
    pub fn new(extent: Extent2D, grid_width: u32, grid_height: u32) -> (r: Self)
        ensures
            r@ == (AuditView {
                extent,
                grid_width,
                grid_height,
                initialized: false,
                frame: 0,
                consumed_event_id: 0,
                active: Map::empty(),
                counts: no_counts(),
                seed_draws: 0,
                frame_draws: 0,
                seed_sampled: Seq::empty(),
                frame_sampled: Seq::empty(),
                last_compare_at: None,
                last_heartbeat_at: None,
            }),
    {
        let r = OutputDamageAudit {
            extent,
            grid_width,
            grid_height,
            initialized: false,
            frame: 0,
            consumed_event_id: 0,
            active_episodes: HashMap::new(),
            counts: AuditCounts {
                episodes_opened: 0,
                episodes_healed: 0,
                reset_count: 0,
                comparisons: 0,
                comparisons_idle: 0,
                comparisons_partial: 0,
                comparisons_full: 0,
                damage_pixels: 0,
                damage_frames: 0,
                clipped_gpu_ns: 0,
                full_gpu_ns: 0,
                gpu_samples: 0,
            },
            seed_draws: 0,
            frame_draws: 0,
            seed_sampled: Vec::new(),
            frame_sampled: Vec::new(),
            last_compare_at: None,
            last_heartbeat_at: None,
        };
        assert(r@.active =~= Map::empty());
        r
    }

    /// Whether the candidate is due a comparison although nothing happened.
    pub fn audit_idle_recompare_due(&self, now: u64, due: u64) -> (r: bool)
        ensures
            r == recompare_due(self@, now, due),
    {
        if !self.initialized {
            return false;
        }
        match self.last_compare_at {
            Some(at) => elapsed(at, now) >= due,
            None => true,
        }
    }

    /// Whether a sign of life is due; if so it is taken as given.
    pub fn heartbeat_due(&mut self, now: u64, every: u64) -> (r: bool)
        ensures
            r == (match old(self)@.last_heartbeat_at {
                Some(at) => time_since(at, now) >= every,
                None => true,
            }),
            final(self)@ == (AuditView {
                last_heartbeat_at: if r { Some(now) } else { old(self)@.last_heartbeat_at },
                ..old(self)@
            }),
    {
        let due = match self.last_heartbeat_at {
            Some(at) => elapsed(at, now) >= every,
            None => true,
        };
        if due {
            self.last_heartbeat_at = Some(now);
        }
        due
    }

    /// Starts a run.
    pub fn begin(
        &mut self,
        reset: bool,
        latest_event_id: u64,
        interval: u64,
        seed_frame: u64,
        after_empty_damage: bool,
        damage: Option<Rect2D>,
    ) -> (r: (AuditRun, AuditStep))
        requires
            interval > 0,
        ensures
            (final(self)@, r.0, r.1) == begun(
                old(self)@,
                reset,
                latest_event_id,
                interval,
                seed_frame,
                after_empty_damage,
                damage,
            ),
    {
        if reset {
            self.initialized = false;
            self.active_episodes = HashMap::new();
            assert(self@.active =~= Map::empty());
            self.counts.reset_count = bump(self.counts.reset_count);
        }
        self.frame = bump(self.frame);
        let run = AuditRun {
            latest_event_id,
            compare_this_frame: self.frame % interval == 0,
            just_seeded: false,
            after_empty_damage,
            damage,
        };
        if !self.initialized && self.frame < seed_frame {
            self.consumed_event_id = latest_event_id;
            return (run, AuditStep::Done);
        }
        if !self.initialized {
            return (run, AuditStep::Seed);
        }
        let step = self.picture_ready(run);
        (run, step)
    }

    fn picture_ready(&mut self, run: AuditRun) -> (step: AuditStep)
        ensures
            (final(self)@, step) == after_picture(old(self)@, run),
    {
        if !run.after_empty_damage && !run.just_seeded {
            match run.damage {
                None => AuditStep::Suspect,
                Some(r) => AuditStep::Candidate(r),
            }
        } else {
            self.candidate_ready(run)
        }
    }

    fn candidate_ready(&mut self, run: AuditRun) -> (step: AuditStep)
        ensures
            (final(self)@, step) == after_candidate(old(self)@, run),
    {
        if run.compare_this_frame || run.just_seeded {
            AuditStep::Reference
        } else {
            self.consumed_event_id = run.latest_event_id;
            AuditStep::Done
        }
    }

    fn spoil(&mut self, latest: u64)
        ensures
            final(self)@ == spoiled(old(self)@, latest),
    {
        self.initialized = false;
        self.active_episodes = HashMap::new();
        assert(self@.active =~= Map::empty());
        self.consumed_event_id = latest;
    }

    /// The candidate was drawn in full.
    pub fn seed_done(
        &mut self,
        run: AuditRun,
        complete: bool,
        draws: usize,
        sampled: Vec<(u64, u32)>,
    ) -> (r: (AuditRun, AuditStep))
        ensures
            (final(self)@, r.0, r.1) == seeded(old(self)@, run, complete, draws, sampled@),
    {
        if !complete {
            self.initialized = false;
            self.consumed_event_id = run.latest_event_id;
            return (run, AuditStep::Done);
        }
        self.initialized = true;
        self.seed_draws = draws;
        self.seed_sampled = sampled;
        let mut next = run;
        next.just_seeded = true;
        (next, AuditStep::Reference)
    }

    /// The candidate was drawn where damage was reported.
    pub fn candidate_done(&mut self, run: AuditRun, complete: bool) -> (step: AuditStep)
        ensures
            (final(self)@, step) == candidate_drawn(old(self)@, run, complete),
    {
        if complete {
            self.candidate_ready(run)
        } else {
            self.spoil(run.latest_event_id);
            AuditStep::Done
        }
    }

    /// The reference was drawn.
    pub fn reference_done(
        &mut self,
        run: AuditRun,
        complete: bool,
        candidate_ns: Option<u64>,
        reference_ns: Option<u64>,
    ) -> (step: AuditStep)
        ensures
            (final(self)@, step) == reference_drawn(
                old(self)@,
                run,
                complete,
                candidate_ns,
                reference_ns,
            ),
    {
        if !complete {
            self.spoil(run.latest_event_id);
            return AuditStep::Done;
        }
        if run.after_empty_damage {
            self.counts.comparisons_idle = bump(self.counts.comparisons_idle);
        } else {
            let area = area_u64(self.extent);
            let bbox = match run.damage {
                Some(r) => area_u64(r.extent),
                None => 0,
            };
            if bbox >= area {
                self.counts.comparisons_full = bump(self.counts.comparisons_full);
            } else {
                self.counts.comparisons_partial = bump(self.counts.comparisons_partial);
            }
            self.counts.damage_pixels = add_u128(self.counts.damage_pixels, bbox as u128);
            self.counts.damage_frames = bump(self.counts.damage_frames);
        }
        if !run.after_empty_damage && !run.just_seeded {
            if let (Some(clipped), Some(full)) = (candidate_ns, reference_ns) {
                self.counts.clipped_gpu_ns = add_u128(self.counts.clipped_gpu_ns, clipped as u128);
                self.counts.full_gpu_ns = add_u128(self.counts.full_gpu_ns, full as u128);
                self.counts.gpu_samples = bump(self.counts.gpu_samples);
            }
        }
        AuditStep::Compare
    }

    /// Counts a comparison. One whose outcome could not be read counts as well; it
    /// judges no tile and consumes no event.
    pub fn note_comparison(&mut self, draws: usize, sampled: Vec<(u64, u32)>, now: u64)
        ensures
            final(self)@ == comparison_noted(old(self)@, draws, sampled@, now),
    {
        self.frame_draws = draws;
        self.frame_sampled = sampled;
        self.counts.comparisons = bump(self.counts.comparisons);
        self.last_compare_at = Some(now);
    }

    /// The two were compared, and the outcome was read.
    pub fn compare_done(
        &mut self,
        run: AuditRun,
        ledger: &DamageLedger,
        output_idx: usize,
        summaries: &[DamageAuditTileSummary],
        draws: usize,
        sampled: Vec<(u64, u32)>,
        now: u64,
    ) -> (r: AuditReport)
        requires
            audit_ok(old(self)@),
            forall|i: int|
                0 <= i < summaries@.len() ==> tile_ok(
                    old(self)@.grid_width,
                    old(self)@.grid_height,
                    (#[trigger] summaries@[i]).tile_id,
                ),
        ensures
            final(self)@ == compared(
                old(self)@,
                ledger@,
                output_idx,
                run,
                summaries@,
                draws,
                sampled@,
                now,
            ),
            mismatch_views(r.mismatches@) == opened(
                old(self)@,
                ledger@,
                output_idx,
                summaries@,
                run.latest_event_id,
            ).2,
            r.healed@.to_set() == opened(
                old(self)@,
                ledger@,
                output_idx,
                summaries@,
                run.latest_event_id,
            ).0.dom().difference(differing(summaries@)),
            r.healed@.no_duplicates(),
            starts_of(
                opened(
                    old(self)@,
                    ledger@,
                    output_idx,
                    summaries@,
                    run.latest_event_id,
                ).0,
                r.healed@,
                r.healed_starts@,
            ),
    {
        let ghost start = self@;
        self.note_comparison(draws, sampled, now);
        proof {
            lemma_opened_reads_little(start, self@, ledger@, output_idx, summaries@, run.latest_event_id);
        }
        let r = self.process_damage_audit_summary(
            ledger,
            output_idx,
            summaries,
            run.latest_event_id,
        );
        self.consumed_event_id = run.latest_event_id;
        r
    }

    /// Opens an episode for every tile that began to differ, and closes those of
    /// tiles that no longer do.
    pub fn process_damage_audit_summary(
        &mut self,
        ledger: &DamageLedger,
        output_idx: usize,
        summaries: &[DamageAuditTileSummary],
        latest_event_id: u64,
    ) -> (r: AuditReport)
        requires
            audit_ok(old(self)@),
            forall|i: int|
                0 <= i < summaries@.len() ==> tile_ok(
                    old(self)@.grid_width,
                    old(self)@.grid_height,
                    (#[trigger] summaries@[i]).tile_id,
                ),
        ensures
            final(self)@ == judged(
                old(self)@,
                ledger@,
                output_idx,
                summaries@,
                latest_event_id,
            ),
            mismatch_views(r.mismatches@) == opened(
                old(self)@,
                ledger@,
                output_idx,
                summaries@,
                latest_event_id,
            ).2,
            r.healed@.to_set() == opened(
                old(self)@,
                ledger@,
                output_idx,
                summaries@,
                latest_event_id,
            ).0.dom().difference(differing(summaries@)),
            r.healed@.no_duplicates(),
            starts_of(
                opened(old(self)@, ledger@, output_idx, summaries@, latest_event_id).0,
                r.healed@,
                r.healed_starts@,
            ),
    {
        let ghost start = self@;
        let mut mismatched: HashSet<u32> = HashSet::new();
        let mut mismatches: Vec<AuditMismatch> = Vec::new();
        let mut i: usize = 0;
        assert(summaries@.take(0) =~= Seq::empty());
        assert(mismatched@ =~= differing(summaries@.take(0)));
        assert(mismatch_views(mismatches@) =~= Seq::empty());
        while i < summaries.len()
            invariant
                i <= summaries@.len(),
                audit_ok(start),
                forall|k: int|
                    0 <= k < summaries@.len() ==> tile_ok(
                        start.grid_width,
                        start.grid_height,
                        (#[trigger] summaries@[k]).tile_id,
                    ),
                mismatched@ == differing(summaries@.take(i as int)),
                ({
                    let o = opened(
                        start,
                        ledger@,
                        output_idx,
                        summaries@.take(i as int),
                        latest_event_id,
                    );
                    &&& self@.active == o.0
                    &&& self@.counts == (AuditCounts { episodes_opened: o.1, ..start.counts })
                    &&& mismatch_views(mismatches@) == o.2
                }),
                self@ == (AuditView { active: self@.active, counts: self@.counts, ..start }),
            decreases summaries@.len() - i,
        {
            let s = summaries[i];
            let ghost before = summaries@.take(i as int);
            let ghost after = summaries@.take(i + 1);
            assert(after.drop_last() =~= before);
            assert(after.last() == s);
            if s.mismatch_count != 0 {
                mismatched.insert(s.tile_id);
                if !self.active_episodes.contains_key(&s.tile_id) {
                    self.counts.episodes_opened = bump(self.counts.episodes_opened);
                    self.active_episodes.insert(
                        s.tile_id,
                        DamageAuditEpisodeStart {
                            frame: self.frame,
                            first_event_id: self.consumed_event_id,
                            next_event_id: latest_event_id,
                        },
                    );
                    let tile = tile_rect_for_id(
                        self.extent,
                        self.grid_width,
                        self.grid_height,
                        s.tile_id,
                    );
                    let found = ledger.candidates_for_tile(
                        output_idx,
                        tile,
                        self.consumed_event_id,
                        latest_event_id,
                    );
                    let m = AuditMismatch {
                        summary: s,
                        first_x: s.first_pixel_index % self.extent.width,
                        first_y: s.first_pixel_index / self.extent.width,
                        candidates: found,
                    };
                    let ghost reports = mismatch_views(mismatches@);
                    mismatches.push(m);
                    assert(mismatch_views(mismatches@) =~= reports.push(m@));
                }
            }
            proof {
                lemma_differing_step(before, s);
                assert(before.push(s) =~= after);
            }
            i = i + 1;
        }
        assert(summaries@.take(i as int) =~= summaries@);
        let ghost active = self@.active;
        let keys = map_keys(&self.active_episodes);
        let mut healed: Vec<u32> = Vec::new();
        let mut healed_starts: Vec<DamageAuditEpisodeStart> = Vec::new();
        let mut n: usize = 0;
        let ghost opened_counts = self@.counts;
        proof {
            assert(active.remove_keys(Set::empty()) =~= active);
            assert(healed@.to_set() =~= Set::empty());
        }
        while n < keys.len()
            invariant
                n <= keys@.len(),
                mismatched@ == differing(summaries@),
                forall|k: u32| #[trigger]
                    active.dom().contains(k) <==> exists|j: int|
                        0 <= j < keys@.len() && #[trigger] keys@[j] == k,
                forall|a: int, b: int|
                    0 <= a < b < keys@.len() ==> #[trigger] keys@[a] != #[trigger] keys@[b],
                self@ == (AuditView { active: self@.active, counts: self@.counts, ..start }),
                self@.active == active.remove_keys(healed@.to_set()),
                self@.counts == (AuditCounts {
                    episodes_healed: sat_add(start.counts.episodes_healed, healed@.len()),
                    ..opened_counts
                }),
                opened_counts.episodes_healed == start.counts.episodes_healed,
                healed@.no_duplicates(),
                starts_of(active, healed@, healed_starts@),
                forall|x: u32| #[trigger]
                    healed@.contains(x) <==> !mismatched@.contains(x) && exists|j: int|
                        0 <= j < n && #[trigger] keys@[j] == x,
            decreases keys@.len() - n,
        {
            let tile = keys[n];
            let ghost was = healed@;
            if !mismatched.contains(&tile) {
                proof {
                    assert(!was.contains(tile)) by {
                        if was.contains(tile) {
                            let j = choose|j: int| 0 <= j < n && #[trigger] keys@[j] == tile;
                            assert(keys@[j] != keys@[n as int]);
                        }
                    }
                }
                let ghost had = healed_starts@;
                assert(active.dom().contains(tile)) by {
                    assert(keys@[n as int] == tile);
                }
                if let Some(begun) = self.active_episodes.remove(&tile) {
                    self.counts.episodes_healed = bump(self.counts.episodes_healed);
                    healed.push(tile);
                    healed_starts.push(begun);
                }
                assert(starts_of(active, healed@, healed_starts@)) by {
                    assert(healed@ == was.push(tile));
                    assert forall|k: int| 0 <= k < healed@.len() implies #[trigger] healed_starts@[k]
                        == active[healed@[k]] by {
                        if k < was.len() {
                            assert(healed_starts@[k] == had[k]);
                        }
                    }
                }
                proof {
                    assert(healed@.to_set() =~= was.to_set().insert(tile)) by {
                        assert forall|x: u32| healed@.to_set().contains(x) == was.to_set().insert(
                            tile,
                        ).contains(x) by {
                            lemma_push_contains(was, tile, x);
                        }
                    }
                    assert(self@.active =~= active.remove_keys(healed@.to_set()));
                }
            }
            proof {
                assert forall|x: u32| #[trigger] healed@.contains(x) <==> !mismatched@.contains(x)
                    && exists|j: int| 0 <= j < n + 1 && #[trigger] keys@[j] == x by {
                    if healed@ != was {
                        lemma_push_contains(was, tile, x);
                    }
                    if was.contains(x) {
                        let j = choose|j: int| 0 <= j < n && #[trigger] keys@[j] == x;
                        assert(keys@[j] == x);
                    }
                    if x == tile {
                        assert(keys@[n as int] == x);
                    }
                    if !mismatched@.contains(x) && exists|j: int|
                        0 <= j < n + 1 && #[trigger] keys@[j] == x {
                        let j = choose|j: int| 0 <= j < n + 1 && #[trigger] keys@[j] == x;
                        if j < n {
                            assert(was.contains(x));
                        }
                    }
                }
            }
            n = n + 1;
        }
        proof {
            let gone = active.dom().difference(differing(summaries@));
            assert(healed@.to_set() =~= gone) by {
                assert forall|x: u32| healed@.to_set().contains(x) == gone.contains(x) by {
                    assert(healed@.contains(x) == healed@.to_set().contains(x));
                }
            }
            healed@.unique_seq_to_set();
            assert(self@.active =~= active.restrict(differing(summaries@)));
        }
        AuditReport { mismatches, healed, healed_starts }
    }
}

proof fn lemma_push_contains(s: Seq<u32>, x: u32, y: u32)
    ensures
        s.push(x).contains(y) == (s.contains(y) || x == y),
{
    let t = s.push(x);
    if s.contains(y) {
        let i = choose|i: int| 0 <= i < s.len() && s[i] == y;
        assert(t[i] == y);
    }
    if x == y {
        assert(t[s.len() as int] == y);
    }
    if t.contains(y) {
        let i = choose|i: int| 0 <= i < t.len() && t[i] == y;
        if i < s.len() {
            assert(s[i] == y);
        }
    }
}

pub proof fn lemma_differing_step(s: Seq<DamageAuditTileSummary>, t: DamageAuditTileSummary)
    ensures
        differing(s.push(t)) == (if t.mismatch_count == 0 {
            differing(s)
        } else {
            differing(s).insert(t.tile_id)
        }),
{
    let u = s.push(t);
    let want = if t.mismatch_count == 0 { differing(s) } else { differing(s).insert(t.tile_id) };
    assert forall|x: u32| differing(u).contains(x) == want.contains(x) by {
        if differing(s).contains(x) {
            let i = choose|i: int|
                0 <= i < s.len() && (#[trigger] s[i]).tile_id == x && s[i].mismatch_count > 0;
            assert(u[i] == s[i]);
        }
        if differing(u).contains(x) {
            let i = choose|i: int|
                0 <= i < u.len() && (#[trigger] u[i]).tile_id == x && u[i].mismatch_count > 0;
            if i < s.len() {
                assert(s[i] == u[i]);
            }
        }
        if t.mismatch_count > 0 && t.tile_id == x {
            assert(u[s.len() as int] == t);
        }
    }
    assert(differing(u) =~= want);
}

/// The opening of episodes reads no count but its own.
proof fn lemma_opened_reads_little(
    a: AuditView,
    b: AuditView,
    ledger: LedgerView,
    output_idx: usize,
    s: Seq<DamageAuditTileSummary>,
    latest: u64,
)
    requires
        a.active == b.active,
        a.counts.episodes_opened == b.counts.episodes_opened,
        a.frame == b.frame,
        a.consumed_event_id == b.consumed_event_id,
        a.extent == b.extent,
        a.grid_width == b.grid_width,
        a.grid_height == b.grid_height,
    ensures
        opened(a, ledger, output_idx, s, latest) == opened(b, ledger, output_idx, s, latest),
    decreases s.len(),
{
    if s.len() > 0 {
        lemma_opened_reads_little(a, b, ledger, output_idx, s.drop_last(), latest);
    }
}

fn area_u64(e: Extent2D) -> (r: u64)
    ensures
        r == e.width * e.height,
{
    assert(e.width * e.height <= 0xffff_ffff * 0xffff_ffff) by (nonlinear_arith)
        requires
            e.width <= 0xffff_ffff,
            e.height <= 0xffff_ffff,
    ;
    e.width as u64 * e.height as u64
}

// ── laws ────────────────────────────────────────────────────────────
/// After a comparison exactly the differing tiles have an episode, and one that
/// went on keeps its start.
pub proof fn episodes_follow_the_comparison(
    a: AuditView,
    ledger: LedgerView,
    output_idx: usize,
    s: Seq<DamageAuditTileSummary>,
    latest: u64,
)
    ensures
        judged(a, ledger, output_idx, s, latest).active.dom() == differing(s),
        forall|t: u32| #[trigger]
            a.active.dom().contains(t) && differing(s).contains(t) ==> judged(
                a,
                ledger,
                output_idx,
                s,
                latest,
            ).active[t] == a.active[t],
{
    lemma_opened_dom(a, ledger, output_idx, s, latest);
    let active = opened(a, ledger, output_idx, s, latest).0;
    assert(active.restrict(differing(s)).dom() =~= differing(s));
}

pub proof fn lemma_opened_dom(
    a: AuditView,
    ledger: LedgerView,
    output_idx: usize,
    s: Seq<DamageAuditTileSummary>,
    latest: u64,
)
    ensures
        opened(a, ledger, output_idx, s, latest).0.dom() == a.active.dom().union(differing(s)),
        forall|t: u32| #[trigger]
            a.active.dom().contains(t) ==> opened(a, ledger, output_idx, s, latest).0[t]
                == a.active[t],
    decreases s.len(),
{
    let dom = opened(a, ledger, output_idx, s, latest).0.dom();
    if s.len() == 0 {
        assert(differing(s) =~= Set::empty());
        assert(dom =~= a.active.dom().union(differing(s)));
    } else {
        let t = s.drop_last();
        lemma_opened_dom(a, ledger, output_idx, t, latest);
        lemma_differing_step(t, s.last());
        assert(t.push(s.last()) =~= s);
        assert(dom =~= a.active.dom().union(differing(s)));
    }
}

/// A run ends with the events so far accounted for, unless it is suspect.
pub proof fn runs_account_for_events(
    a: AuditView,
    run: AuditRun,
    complete: bool,
    draws: usize,
    sampled: Seq<(u64, u32)>,
    candidate_ns: Option<u64>,
    reference_ns: Option<u64>,
)
    ensures
        after_picture(a, run).1 is Done ==> after_picture(a, run).0.consumed_event_id
            == run.latest_event_id,
        seeded(a, run, complete, draws, sampled).2 is Done ==> seeded(
            a,
            run,
            complete,
            draws,
            sampled,
        ).0.consumed_event_id == run.latest_event_id,
        candidate_drawn(a, run, complete).1 is Done ==> candidate_drawn(
            a,
            run,
            complete,
        ).0.consumed_event_id == run.latest_event_id,
        reference_drawn(a, run, complete, candidate_ns, reference_ns).1 is Done ==> reference_drawn(
            a,
            run,
            complete,
            candidate_ns,
            reference_ns,
        ).0.consumed_event_id == run.latest_event_id,
{
}

/// A frame that was not drawn in full never leaves images that count: the
/// candidate is seeded anew before the next comparison.
pub proof fn partial_frames_are_never_compared(
    a: AuditView,
    run: AuditRun,
    draws: usize,
    sampled: Seq<(u64, u32)>,
    candidate_ns: Option<u64>,
    reference_ns: Option<u64>,
)
    ensures
        !seeded(a, run, false, draws, sampled).0.initialized,
        !candidate_drawn(a, run, false).0.initialized,
        !reference_drawn(a, run, false, candidate_ns, reference_ns).0.initialized,
        candidate_drawn(a, run, false).1 is Done,
        reference_drawn(a, run, false, candidate_ns, reference_ns).1 is Done,
{
}

} // verus!
