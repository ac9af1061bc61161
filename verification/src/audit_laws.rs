//! What holds of the audit: its tiles, its runs and its counts.

use vstd::prelude::*;

use crate::audit::{
    begun, block_start, candidate_drawn, classified, compared, differing,
    every_place_has_one_block, judged, lemma_block, lemma_opened_dom, mismatch_of, opened,
    reference_drawn, seeded, tile_ok, tile_rect, AuditCounts, AuditRun, AuditStep, AuditView,
    DamageAuditTileSummary,
};
use crate::geometry::{Extent2D, Rect2D};
use crate::ledger::{candidates, candidates_lie_in_the_episode, LedgerView};
use crate::upkeep_laws::all_events_that_explain_a_tile_are_found;
use crate::walk::sat_add;

verus! {

/// The blocks of a partition are as equal as can be: each has the quotient, and the
/// first ones, as many as the remainder, have one more.
pub proof fn the_first_blocks_are_one_longer(extent: u32, grid: u32, block: int)
    requires
        grid > 0,
        0 <= block < grid,
    ensures
        block_start(extent as int, grid as int, block + 1) - block_start(
            extent as int,
            grid as int,
            block,
        ) == extent as int / grid as int + (if block < extent as int % grid as int {
            1int
        } else {
            0int
        }),
{
    lemma_block(extent as int, grid as int, block);
}

/// Every pixel of the output lies in the tile of its column and row, and tiles are
/// numbered row by row.
pub proof fn every_pixel_has_its_tile(extent: Extent2D, gw: u32, gh: u32, x: int, y: int)
    requires
        gw > 0,
        gh > 0,
        gw * gh <= u32::MAX,
        extent.width <= i32::MAX,
        extent.height <= i32::MAX,
        0 <= x < extent.width,
        0 <= y < extent.height,
    ensures
        exists|tx: int, ty: int|
            0 <= tx < gw && 0 <= ty < gh && #[trigger] tile_rect(
                extent,
                gw,
                gh,
                (ty * gw + tx) as u32,
            ).has(x, y) && tile_ok(gw, gh, (ty * gw + tx) as u32) && block_start(
                extent.width as int,
                gw as int,
                tx,
            ) <= x < block_start(extent.width as int, gw as int, tx + 1) && block_start(
                extent.height as int,
                gh as int,
                ty,
            ) <= y < block_start(extent.height as int, gh as int, ty + 1),
{
    every_place_has_one_block(extent.width, gw, x);
    every_place_has_one_block(extent.height, gh, y);
    let (w, h) = (extent.width as int, extent.height as int);
    let tx = choose|b: int|
        0 <= b < gw && #[trigger] block_start(w, gw as int, b) <= x < block_start(
            w,
            gw as int,
            b + 1,
        );
    let ty = choose|b: int|
        0 <= b < gh && #[trigger] block_start(h, gh as int, b) <= y < block_start(
            h,
            gh as int,
            b + 1,
        );
    lemma_block(w, gw as int, tx);
    lemma_block(h, gh as int, ty);
    let n = ty * gw + tx;
    let g = gw as int;
    let m = gh as int;
    assert(0 <= n < g * m && n / g == ty && n % g == tx) by (nonlinear_arith)
        requires
            n == ty * g + tx,
            0 <= tx < g,
            0 <= ty < m,
            g > 0,
    ;
    let tile = n as u32;
    assert(tile == n);
    assert(tile / gw == ty && tile % gw == tx);
    assert(tile_rect(extent, gw, gh, tile).has(x, y));
    assert(tile_rect(extent, gw, gh, (ty * gw + tx) as u32).has(x, y));
}

/// A mismatch is reported where it is: the place names the pixel of the index, row
/// by row.
pub proof fn a_mismatch_is_reported_where_it_is(
    a: AuditView,
    ledger: LedgerView,
    output_idx: usize,
    s: DamageAuditTileSummary,
    latest: u64,
)
    requires
        a.extent.width > 0,
    ensures
        ({
            let m = mismatch_of(a, ledger, output_idx, s, latest);
            &&& m.summary == s
            &&& m.first_x < a.extent.width
            &&& m.first_y * a.extent.width + m.first_x == s.first_pixel_index
        }),
{
    let i = s.first_pixel_index as int;
    let w = a.extent.width as int;
    assert((i / w) * w + i % w == i && 0 <= i % w < w) by (nonlinear_arith)
        requires
            w > 0,
            i >= 0,
    ;
}

/// A run goes its way: without a picture one is drawn, once the first frames are
/// over; with one the candidate follows the damage; and the two are compared every
/// so many frames, or at once after a new picture.
pub proof fn a_run_goes_its_way(
    a: AuditView,
    reset: bool,
    latest: u64,
    interval: u64,
    seed_frame: u64,
    idle: bool,
    damage: Option<Rect2D>,
)
    requires
        interval > 0,
        a.frame < u64::MAX,
    ensures
        ({
            let (b, run, step) = begun(a, reset, latest, interval, seed_frame, idle, damage);
            let due = (a.frame + 1) % interval as int == 0;
            let fresh = reset || !a.initialized;
            &&& b.frame == a.frame + 1
            &&& run.latest_event_id == latest
            &&& run.damage == damage
            &&& !run.just_seeded
            &&& run.compare_this_frame == due
            &&& reset ==> !b.initialized && b.active.dom().len() == 0
            &&& fresh && a.frame + 1 < seed_frame ==> step is Done && b.consumed_event_id == latest
            &&& fresh && a.frame + 1 >= seed_frame ==> step is Seed
            &&& !fresh && !idle && damage is None ==> step is Suspect
            &&& !fresh && !idle ==> (damage matches Some(r) ==> step == AuditStep::Candidate(r))
            &&& !fresh && idle && due ==> step is Reference
            &&& !fresh && idle && !due ==> step is Done && b.consumed_event_id == latest
        }),
{
}

/// Only whole pictures are compared: one that was not drawn completely is given up,
/// and is drawn anew before anything is compared with it.
pub proof fn only_whole_pictures_are_compared(
    a: AuditView,
    run: AuditRun,
    draws: usize,
    sampled: Seq<(u64, u32)>,
    candidate_ns: Option<u64>,
    reference_ns: Option<u64>,
)
    ensures
        ({
            let (b, r, step) = seeded(a, run, true, draws, sampled);
            &&& step is Reference
            &&& b.initialized
            &&& r.just_seeded
            &&& b.seed_draws == draws
            &&& b.seed_sampled == sampled
        }),
        seeded(a, run, false, draws, sampled).2 is Done,
        !seeded(a, run, false, draws, sampled).0.initialized,
        seeded(a, run, false, draws, sampled).0.consumed_event_id == run.latest_event_id,
        candidate_drawn(a, run, true).1 is Reference <==> run.compare_this_frame
            || run.just_seeded,
        !(candidate_drawn(a, run, true).1 is Reference) ==> candidate_drawn(a, run, true).1 is Done
            && candidate_drawn(a, run, true).0.consumed_event_id == run.latest_event_id,
        candidate_drawn(a, run, false).1 is Done,
        !candidate_drawn(a, run, false).0.initialized,
        candidate_drawn(a, run, false).0.consumed_event_id == run.latest_event_id,
        reference_drawn(a, run, true, candidate_ns, reference_ns).1 is Compare,
        reference_drawn(a, run, false, candidate_ns, reference_ns).1 is Done,
        !reference_drawn(a, run, false, candidate_ns, reference_ns).0.initialized,
        reference_drawn(a, run, false, candidate_ns, reference_ns).0.consumed_event_id
            == run.latest_event_id,
{
}

/// Each comparison is of one kind: idle if nothing was reported, full if what was
/// reported is as large as the output, partial otherwise.
pub proof fn each_comparison_is_of_one_kind(
    a: AuditView,
    run: AuditRun,
    candidate_ns: Option<u64>,
    reference_ns: Option<u64>,
)
    requires
        a.counts.comparisons_idle < u64::MAX,
        a.counts.comparisons_full < u64::MAX,
        a.counts.comparisons_partial < u64::MAX,
        a.counts.damage_frames < u64::MAX,
    ensures
        ({
            let c = classified(a, run, candidate_ns, reference_ns);
            let area: int = match run.damage {
                Some(r) => r.extent.width * r.extent.height,
                None => 0,
            };
            let whole = a.extent.width * a.extent.height;
            let (i, f, p): (int, int, int) = if run.after_empty_damage {
                (1, 0, 0)
            } else if area >= whole {
                (0, 1, 0)
            } else {
                (0, 0, 1)
            };
            &&& c.comparisons_idle == a.counts.comparisons_idle + i
            &&& c.comparisons_full == a.counts.comparisons_full + f
            &&& c.comparisons_partial == a.counts.comparisons_partial + p
            &&& c.damage_frames == a.counts.damage_frames + f + p
            &&& c.comparisons == a.counts.comparisons
        }),
{
    if run.damage is Some {
        let e = run.damage->0.extent;
        assert(e.width * e.height >= 0) by (nonlinear_arith)
            requires
                e.width >= 0,
                e.height >= 0,
        ;
    }
}

/// A comparison leaves its mark: it is counted once, its time is noted, and the
/// events so far are accounted for.
pub proof fn a_comparison_leaves_its_mark(
    a: AuditView,
    ledger: LedgerView,
    output_idx: usize,
    run: AuditRun,
    s: Seq<DamageAuditTileSummary>,
    draws: usize,
    sampled: Seq<(u64, u32)>,
    now: u64,
)
    requires
        a.counts.comparisons < u64::MAX,
    ensures
        ({
            let b = compared(a, ledger, output_idx, run, s, draws, sampled, now);
            &&& b.counts.comparisons == a.counts.comparisons + 1
            &&& b.last_compare_at == Some(now)
            &&& b.consumed_event_id == run.latest_event_id
            &&& b.frame_draws == draws
            &&& b.frame_sampled == sampled
            &&& b.initialized == a.initialized
            &&& b.frame == a.frame
            &&& forall|t: u32| #[trigger]
                b.active.dom().contains(t) ==> exists|i: int|
                    0 <= i < s.len() && (#[trigger] s[i]).tile_id == t && s[i].mismatch_count > 0
        }),
{
}

/// Whether a tile differs in a comparison.
pub open spec fn differs(s: Seq<DamageAuditTileSummary>, t: u32) -> bool {
    exists|i: int| 0 <= i < s.len() && (#[trigger] s[i]).tile_id == t && s[i].mismatch_count > 0
}

proof fn lemma_new_episode(
    a: AuditView,
    ledger: LedgerView,
    output_idx: usize,
    s: Seq<DamageAuditTileSummary>,
    latest: u64,
    t: u32,
)
    requires
        !a.active.dom().contains(t),
    ensures
        ({
            let (active, n, reports) = opened(a, ledger, output_idx, s, latest);
            &&& active.dom().contains(t) ==> active[t].frame == a.frame && active[t].first_event_id
                == a.consumed_event_id && active[t].next_event_id == latest
            &&& active.dom().contains(t) ==> exists|k: int|
                0 <= k < reports.len() && (#[trigger] reports[k]).summary.tile_id == t
            &&& !active.dom().contains(t) ==> forall|k: int|
                0 <= k < reports.len() ==> (#[trigger] reports[k]).summary.tile_id != t
            &&& n == sat_add(a.counts.episodes_opened, reports.len())
            &&& forall|k: int|
                0 <= k < reports.len() ==> (#[trigger] reports[k]) == mismatch_of(
                    a,
                    ledger,
                    output_idx,
                    reports[k].summary,
                    latest,
                ) && reports[k].summary.mismatch_count > 0 && s.contains(reports[k].summary)
        }),
    decreases s.len(),
{
    if s.len() > 0 {
        let r = s.drop_last();
        lemma_new_episode(a, ledger, output_idx, r, latest, t);
        let (active, n, reports) = opened(a, ledger, output_idx, s, latest);
        let (before, m, had) = opened(a, ledger, output_idx, r, latest);
        let last = s.last();
        assert(s[s.len() - 1] == last);
        let adds = last.mismatch_count != 0 && !before.dom().contains(last.tile_id);
        if before.dom().contains(t) {
            let k = choose|k: int| 0 <= k < had.len() && (#[trigger] had[k]).summary.tile_id == t;
            assert(reports[k] == had[k]);
        }
        if adds {
            assert(reports == had.push(mismatch_of(a, ledger, output_idx, last, latest)));
            assert(reports[had.len() as int].summary == last);
        }
        assert forall|k: int| 0 <= k < reports.len() implies (#[trigger] reports[k])
            == mismatch_of(a, ledger, output_idx, reports[k].summary, latest)
            && reports[k].summary.mismatch_count > 0 && s.contains(reports[k].summary) by {
            if k < had.len() {
                assert(reports[k] == had[k]);
                let i = choose|i: int| 0 <= i < r.len() && r[i] == had[k].summary;
                assert(s[i] == had[k].summary);
            }
        }
        if !active.dom().contains(t) {
            assert forall|k: int| 0 <= k < reports.len() implies (
            #[trigger] reports[k]).summary.tile_id != t by {
                if k < had.len() {
                    assert(reports[k] == had[k]);
                }
            }
        }
    }
}

/// A tile that begins to differ opens an episode with this frame, from the first
/// event that was not accounted for up to the latest, and is reported; one that
/// does not is not. As many episodes are counted as are reported.
pub proof fn a_tile_that_begins_to_differ_is_reported(
    a: AuditView,
    ledger: LedgerView,
    output_idx: usize,
    s: Seq<DamageAuditTileSummary>,
    latest: u64,
    t: u32,
)
    requires
        !a.active.dom().contains(t),
    ensures
        ({
            let b = judged(a, ledger, output_idx, s, latest);
            let reports = opened(a, ledger, output_idx, s, latest).2;
            &&& differs(s, t) ==> b.active.dom().contains(t) && b.active[t].frame == a.frame
                && b.active[t].first_event_id == a.consumed_event_id && b.active[t].next_event_id
                == latest
            &&& differs(s, t) ==> exists|k: int|
                0 <= k < reports.len() && (#[trigger] reports[k]).summary.tile_id == t
            &&& !differs(s, t) ==> !b.active.dom().contains(t) && forall|k: int|
                0 <= k < reports.len() ==> (#[trigger] reports[k]).summary.tile_id != t
            &&& a.counts.episodes_opened + reports.len() <= u64::MAX ==> b.counts.episodes_opened
                == a.counts.episodes_opened + reports.len()
        }),
{
    lemma_new_episode(a, ledger, output_idx, s, latest, t);
    lemma_opened_dom(a, ledger, output_idx, s, latest);
    assert(differing(s).contains(t) == differs(s, t));
}

/// A tile that no longer differs is healed: its episode is closed, and as many are
/// counted as healed as were open and differ no more.
pub proof fn a_tile_that_no_longer_differs_is_healed(
    a: AuditView,
    ledger: LedgerView,
    output_idx: usize,
    s: Seq<DamageAuditTileSummary>,
    latest: u64,
    t: u32,
)
    ensures
        ({
            let b = judged(a, ledger, output_idx, s, latest);
            let healed = a.active.dom().filter(|x: u32| !differs(s, x));
            &&& !differs(s, t) ==> !b.active.dom().contains(t)
            &&& a.counts.episodes_healed + healed.len() <= u64::MAX ==> b.counts.episodes_healed
                == a.counts.episodes_healed + healed.len()
        }),
{
    lemma_opened_dom(a, ledger, output_idx, s, latest);
    let active = opened(a, ledger, output_idx, s, latest).0;
    let healed = a.active.dom().filter(|x: u32| !differs(s, x));
    assert forall|x: u32| differing(s).contains(x) == differs(s, x) by {}
    assert(active.dom().difference(differing(s)) =~= healed);
}

/// What is offered to explain a mismatch are events that were not accounted for
/// before; and every such event that was to change a pixel of the tile is offered.
pub proof fn a_mismatch_is_explained_by_what_came_since(
    a: AuditView,
    ledger: LedgerView,
    output_idx: usize,
    s: DamageAuditTileSummary,
    latest: u64,
    i: int,
    k: int,
    area: int,
    q: (int, int),
)
    ensures
        ({
            let m = mismatch_of(a, ledger, output_idx, s, latest);
            &&& 0 <= i < m.candidates.len() ==> a.consumed_event_id <= m.candidates[i].id < latest
            &&& 0 <= k < ledger.entries.len() && a.consumed_event_id <= ledger.entries[k].id
                < latest && 0 <= area < ledger.entries[k].expected_area.len()
                && ledger.entries[k].expected_area[area].has(q.0, q.1) && tile_rect(
                a.extent,
                a.grid_width,
                a.grid_height,
                s.tile_id,
            ).has(q.0, q.1) ==> exists|c: int|
                0 <= c < m.candidates.len() && (#[trigger] m.candidates[c]).id
                    == ledger.entries[k].id
        }),
{
    let tile = tile_rect(a.extent, a.grid_width, a.grid_height, s.tile_id);
    candidates_lie_in_the_episode(
        ledger.entries,
        output_idx,
        tile,
        a.consumed_event_id,
        latest,
    );
    if 0 <= k < ledger.entries.len() && a.consumed_event_id <= ledger.entries[k].id < latest && 0
        <= area < ledger.entries[k].expected_area.len() && ledger.entries[k].expected_area[area].has(
        q.0,
        q.1,
    ) && tile.has(q.0, q.1) {
        all_events_that_explain_a_tile_are_found(
            ledger.entries,
            output_idx,
            tile,
            a.consumed_event_id,
            latest,
            k,
            area,
            q,
        );
        let found = candidates(ledger.entries, output_idx, tile, a.consumed_event_id, latest);
        let c = choose|c: int|
            0 <= c < found.len() && {
                let e = #[trigger] found[c];
                &&& e.id == ledger.entries[k].id
                &&& e.site == ledger.entries[k].site
                &&& e.contributed == ledger.entries[k].contributed_outputs.contains(output_idx)
            };
        let m = mismatch_of(a, ledger, output_idx, s, latest);
        assert(m.candidates == found);
        assert(m.candidates[c].id == ledger.entries[k].id);
    }
}

/// A reset is counted, and nothing else changes a count when a run begins.
pub proof fn a_reset_is_counted(
    a: AuditView,
    reset: bool,
    latest: u64,
    interval: u64,
    seed_frame: u64,
    idle: bool,
    damage: Option<Rect2D>,
)
    requires
        interval > 0,
        a.counts.reset_count < u64::MAX,
    ensures
        ({
            let c = begun(a, reset, latest, interval, seed_frame, idle, damage).0.counts;
            &&& c.reset_count == a.counts.reset_count + (if reset { 1int } else { 0int })
            &&& c == (AuditCounts { reset_count: c.reset_count, ..a.counts })
        }),
{
}

} // verus!
