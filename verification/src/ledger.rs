//! What woke the scene, kept so that a wrong pixel can be traced to a cause.

use std::collections::VecDeque;

use vstd::prelude::*;

use crate::geometry::{rects_intersect, Rect2D};
use crate::walk::{bump, sat_add};

verus! {

/// A place in the program.
#[derive(Clone, Copy, Debug)]
pub struct Site {
    pub file: &'static str,
    pub line: u32,
}

/// An event: where it came from, what it was to change, and which outputs it
/// added damage to.
#[derive(Debug)]
pub struct DamageAuditLedgerEntry {
    pub id: u64,
    pub site: Site,
    pub expected_area: Vec<Rect2D>,
    pub contributed_outputs: Vec<usize>,
}

/// An event with sequences.
pub struct EntryView {
    pub id: u64,
    pub site: Site,
    pub expected_area: Seq<Rect2D>,
    pub contributed_outputs: Seq<usize>,
}

impl View for DamageAuditLedgerEntry {
    type V = EntryView;

    open spec fn view(&self) -> EntryView {
        EntryView {
            id: self.id,
            site: self.site,
            expected_area: self.expected_area@,
            contributed_outputs: self.contributed_outputs@,
        }
    }
}

/// The events, oldest first, the number of the next one, and how many had to
/// leave because there were too many. A run that lost events is suspect.
#[derive(Debug)]
pub struct DamageLedger {
    entries: VecDeque<DamageAuditLedgerEntry>,
    next_event_id: u64,
    dropped_events: u64,
}

/// The ledger with views.
pub struct LedgerView {
    pub entries: Seq<EntryView>,
    pub next_event_id: u64,
    pub dropped_events: u64,
}

/// The entries behind a list.
pub open spec fn entry_views(s: Seq<DamageAuditLedgerEntry>) -> Seq<EntryView> {
    s.map_values(|e: DamageAuditLedgerEntry| e@)
}

impl View for DamageLedger {
    type V = LedgerView;

    closed spec fn view(&self) -> LedgerView {
        LedgerView {
            entries: entry_views(self.entries@),
            next_event_id: self.next_event_id,
            dropped_events: self.dropped_events,
        }
    }
}

/// How many events are kept.
pub const MAX_LEDGER_ENTRIES: usize = 16384;

/// The events that are kept when there are too many: the last ones.
pub open spec fn bounded(s: Seq<EntryView>) -> Seq<EntryView> {
    if s.len() <= MAX_LEDGER_ENTRIES { s } else { s.skip(s.len() - MAX_LEDGER_ENTRIES) }
}

/// An ordinal after one more.
pub open spec fn next_id(id: u64) -> u64 {
    if id == u64::MAX { id } else { (id + 1) as u64 }
}

/// The count of dropped events after a list of `n` was cut to the bound.
pub open spec fn dropped_after(dropped: u64, n: nat) -> u64 {
    if n <= MAX_LEDGER_ENTRIES {
        dropped
    } else {
        sat_add(dropped, (n - MAX_LEDGER_ENTRIES) as nat)
    }
}

/// The ledger after an event was recorded.
pub open spec fn recorded(l: LedgerView, site: Site, area: Seq<Rect2D>) -> LedgerView {
    LedgerView {
        entries: bounded(
            l.entries.push(
                EntryView {
                    id: l.next_event_id,
                    site,
                    expected_area: area,
                    contributed_outputs: Seq::empty(),
                },
            ),
        ),
        next_event_id: next_id(l.next_event_id),
        dropped_events: dropped_after(l.dropped_events, l.entries.len() + 1),
    }
}

/// The outputs of an event after some more were noted, each once.
pub open spec fn noted(have: Seq<usize>, more: Seq<usize>) -> Seq<usize>
    decreases more.len(),
{
    if more.len() == 0 {
        have
    } else {
        let before = noted(have, more.drop_last());
        if before.contains(more.last()) { before } else { before.push(more.last()) }
    }
}

/// The events after some outputs were noted for the first with an ordinal.
pub open spec fn noted_for(s: Seq<EntryView>, id: u64, outputs: Seq<usize>) -> Seq<EntryView>
    decreases s.len(),
{
    if s.len() == 0 {
        s
    } else if s[0].id == id {
        s.update(
            0,
            EntryView { contributed_outputs: noted(s[0].contributed_outputs, outputs), ..s[0] },
        )
    } else {
        seq![s[0]] + noted_for(s.drop_first(), id, outputs)
    }
}

pub proof fn lemma_noted_for(s: Seq<EntryView>, id: u64, outputs: Seq<usize>, k: int)
    requires
        0 <= k <= s.len(),
        forall|i: int| 0 <= i < k ==> (#[trigger] s[i]).id != id,
        k < s.len() ==> s[k].id == id,
    ensures
        noted_for(s, id, outputs) == (if k < s.len() {
            s.update(
                k,
                EntryView { contributed_outputs: noted(s[k].contributed_outputs, outputs), ..s[k] },
            )
        } else {
            s
        }),
    decreases s.len(),
{
    if s.len() > 0 && k > 0 {
        let t = s.drop_first();
        assert(s[0].id != id);
        assert forall|i: int| 0 <= i < k - 1 implies (#[trigger] t[i]).id != id by {
            assert(t[i] == s[i + 1]);
        }
        lemma_noted_for(t, id, outputs, k - 1);
        let want = if k < s.len() {
            s.update(
                k,
                EntryView { contributed_outputs: noted(s[k].contributed_outputs, outputs), ..s[k] },
            )
        } else {
            s
        };
        assert(noted_for(s, id, outputs) =~= want);
    }
}

/// The events from an ordinal on: what lies before the first such is gone.
pub open spec fn from_event(s: Seq<EntryView>, min: u64) -> Seq<EntryView>
    decreases s.len(),
{
    if s.len() > 0 && s[0].id < min { from_event(s.drop_first(), min) } else { s }
}

/// An event that may explain a wrong tile.
#[derive(Clone, Copy, Debug)]
pub struct LedgerCandidate {
    pub id: u64,
    pub site: Site,
    /// Whether it added damage to the output in question.
    pub contributed: bool,
}

/// Whether an event of an episode was to change pixels of a tile.
pub open spec fn explains(e: EntryView, tile: Rect2D, first: u64, next: u64) -> bool {
    &&& first <= e.id < next
    &&& exists|i: int|
        0 <= i < e.expected_area.len() && (#[trigger] e.expected_area[i]).meets(tile)
}

/// What an event says about an output.
pub open spec fn candidate_of(e: EntryView, output_idx: usize) -> LedgerCandidate {
    LedgerCandidate {
        id: e.id,
        site: e.site,
        contributed: e.contributed_outputs.contains(output_idx),
    }
}

/// The events of an episode that were to change pixels of a tile, oldest first.
pub open spec fn candidates(
    s: Seq<EntryView>,
    output_idx: usize,
    tile: Rect2D,
    first: u64,
    next: u64,
) -> Seq<LedgerCandidate>
    decreases s.len(),
{
    if s.len() == 0 {
        Seq::empty()
    } else {
        let before = candidates(s.drop_last(), output_idx, tile, first, next);
        if explains(s.last(), tile, first, next) {
            before.push(candidate_of(s.last(), output_idx))
        } else {
            before
        }
    }
}

// ── as text ─────────────────────────────────────────────────────────
/// A digit.
pub open spec fn digit_text(d: nat) -> Seq<char> {
    if d == 0 {
        "0"@
    } else if d == 1 {
        "1"@
    } else if d == 2 {
        "2"@
    } else if d == 3 {
        "3"@
    } else if d == 4 {
        "4"@
    } else if d == 5 {
        "5"@
    } else if d == 6 {
        "6"@
    } else if d == 7 {
        "7"@
    } else if d == 8 {
        "8"@
    } else {
        "9"@
    }
}

/// A number in decimal.
pub open spec fn decimal(n: nat) -> Seq<char>
    decreases n,
{
    if n < 10 { digit_text(n) } else { decimal(n / 10) + digit_text(n % 10) }
}

/// A candidate: its number, where it was recorded, and whether it added damage.
pub open spec fn candidate_text(c: LedgerCandidate) -> Seq<char> {
    decimal(c.id as nat) + "@"@ + c.site.file@ + ":"@ + decimal(c.site.line as nat) + ":"@ + (
    if c.contributed {
        "contrib"@
    } else {
        "missing"@
    })
}

/// Candidates with commas between them.
pub open spec fn joined_text(s: Seq<LedgerCandidate>) -> Seq<char>
    decreases s.len(),
{
    if s.len() == 0 {
        Seq::empty()
    } else if s.len() == 1 {
        candidate_text(s[0])
    } else {
        joined_text(s.drop_last()) + ","@ + candidate_text(s.last())
    }
}

/// A list of candidates.
pub open spec fn candidates_text(s: Seq<LedgerCandidate>) -> Seq<char> {
    if s.len() == 0 { "none"@ } else { joined_text(s) }
}

fn append_digit(out: &mut String, d: u64)
    requires
        d < 10,
    ensures
        final(out)@ == old(out)@ + digit_text(d as nat),
{
    let text = match d {
        0 => "0",
        1 => "1",
        2 => "2",
        3 => "3",
        4 => "4",
        5 => "5",
        6 => "6",
        7 => "7",
        8 => "8",
        _ => "9",
    };
    out.append(text);
}

fn append_decimal(out: &mut String, n: u64)
    ensures
        final(out)@ == old(out)@ + decimal(n as nat),
    decreases n,
{
    if n >= 10 {
        append_decimal(out, n / 10);
    }
    append_digit(out, n % 10);
    assert(n >= 10 ==> old(out)@ + decimal(n as nat / 10) + digit_text(n as nat % 10) =~= old(out)@
        + decimal(n as nat));
}

fn append_candidate(out: &mut String, c: &LedgerCandidate)
    ensures
        final(out)@ == old(out)@ + candidate_text(*c),
{
    append_decimal(out, c.id);
    out.append("@");
    out.append(c.site.file);
    out.append(":");
    append_decimal(out, c.site.line as u64);
    out.append(":");
    if c.contributed {
        out.append("contrib");
    } else {
        out.append("missing");
    }
    assert(out@ =~= old(out)@ + candidate_text(*c));
}

/// Writes a list of candidates out.
pub fn describe_candidates(list: &[LedgerCandidate]) -> (r: String)
    ensures
        r@ == candidates_text(list@),
{
    let mut out = String::new();
    if list.len() == 0 {
        out.append("none");
        assert(out@ =~= "none"@);
        return out;
    }
    append_candidate(&mut out, &list[0]);
    let mut i: usize = 1;
    assert(out@ =~= joined_text(list@.take(1)));
    while i < list.len()
        invariant
            1 <= i <= list@.len(),
            out@ == joined_text(list@.take(i as int)),
        decreases list@.len() - i,
    {
        assert(list@.take(i + 1).drop_last() =~= list@.take(i as int));
        out.append(",");
        append_candidate(&mut out, &list[i]);
        i = i + 1;
        assert(out@ =~= joined_text(list@.take(i as int)));
    }
    assert(list@.take(i as int) =~= list@);
    out
}

fn holds(v: &Vec<usize>, x: usize) -> (r: bool)
    ensures
        r == v@.contains(x),
{
    let mut i: usize = 0;
    while i < v.len()
        invariant
            i <= v@.len(),
            forall|k: int| 0 <= k < i ==> v@[k] != x,
        decreases v@.len() - i,
    {
        if v[i] == x {
            assert(v@[i as int] == x);
            return true;
        }
        i = i + 1;
    }
    false
}

impl DamageLedger {
    pub fn new() -> (r: Self)
        ensures
            r@ == (LedgerView { entries: Seq::empty(), next_event_id: 0, dropped_events: 0 }),
    {
        let r = DamageLedger { entries: VecDeque::new(), next_event_id: 0, dropped_events: 0 };
        assert(r@.entries =~= Seq::empty());
        r
    }

    /// The number of the next event.
    pub fn next_event_id(&self) -> (r: u64)
        ensures
            r == self@.next_event_id,
    {
        self.next_event_id
    }

    /// How many events left because there were too many.
    pub fn dropped_events(&self) -> (r: u64)
        ensures
            r == self@.dropped_events,
    {
        self.dropped_events
    }

    /// Records an event; the oldest leave while there are too many.
    pub fn record(&mut self, site: Site, expected_area: Vec<Rect2D>) -> (id: u64)
        ensures
            id == old(self)@.next_event_id,
            final(self)@ == recorded(old(self)@, site, expected_area@),
    {
        let id = self.next_event_id;
        let ghost area = expected_area@;
        let ghost before = self@.entries;
        self.next_event_id = if id == u64::MAX { id } else { id + 1 };
        let entry = DamageAuditLedgerEntry {
            id,
            site,
            expected_area,
            contributed_outputs: Vec::new(),
        };
        let ghost view = EntryView {
            id,
            site,
            expected_area: area,
            contributed_outputs: Seq::empty(),
        };
        assert(entry@.contributed_outputs =~= view.contributed_outputs);
        self.entries.push_back(entry);
        assert(self@.entries =~= before.push(view));
        self.bound_damage_audit_ledger();
        id
    }

    /// Drops the oldest events while there are too many, and counts them.
    fn bound_damage_audit_ledger(&mut self)
        ensures
            final(self)@ == (LedgerView {
                entries: bounded(old(self)@.entries),
                dropped_events: dropped_after(
                    old(self)@.dropped_events,
                    old(self)@.entries.len(),
                ),
                ..old(self)@
            }),
    {
        let ghost all = self@.entries;
        assert(all.skip(0) =~= all);
        let ghost mut gone: int = 0;
        while self.entries.len() > MAX_LEDGER_ENTRIES
            invariant
                0 <= gone <= all.len(),
                self@.entries == all.skip(gone),
                self.entries@.len() == all.len() - gone,
                self.next_event_id == old(self)@.next_event_id,
                self.dropped_events == sat_add(old(self)@.dropped_events, gone as nat),
                gone > 0 ==> all.len() - gone >= MAX_LEDGER_ENTRIES,
            decreases self.entries@.len(),
        {
            let ghost before = self.entries@;
            let _ = self.entries.pop_front();
            self.dropped_events = bump(self.dropped_events);
            proof {
                assert(self.entries@ =~= before.skip(1));
                assert(self@.entries =~= entry_views(before).skip(1));
                assert(all.skip(gone).skip(1) =~= all.skip(gone + 1));
                gone = gone + 1;
            }
        }
    }

    /// Notes which outputs an event added damage to.
    pub fn note_damage_audit_contributions(&mut self, event_id: u64, output_indices: &[usize])
        ensures
            final(self)@ == (LedgerView {
                entries: noted_for(old(self)@.entries, event_id, output_indices@),
                ..old(self)@
            }),
    {
        let ghost before = self@.entries;
        let mut k: usize = 0;
        while k < self.entries.len() && self.entries[k].id != event_id
            invariant
                k <= self.entries@.len(),
                before == entry_views(self.entries@),
                self@ == old(self)@,
                forall|i: int| 0 <= i < k ==> (#[trigger] before[i]).id != event_id,
            decreases self.entries@.len() - k,
        {
            assert(before[k as int].id == self.entries@[k as int].id);
            k = k + 1;
        }
        if k == self.entries.len() {
            proof {
                lemma_noted_for(before, event_id, output_indices@, k as int);
            }
            return;
        }
        assert(before[k as int].id == event_id);
        let ghost had = before[k as int].contributed_outputs;
        let mut outs: Vec<usize> = Vec::new();
        let mut n: usize = 0;
        while n < self.entries[k].contributed_outputs.len()
            invariant
                k < self.entries@.len(),
                self@ == old(self)@,
                before == entry_views(self.entries@),
                had == before[k as int].contributed_outputs,
                had == self.entries@[k as int].contributed_outputs@,
                n <= had.len(),
                outs@ == had.take(n as int),
            decreases had.len() - n,
        {
            outs.push(self.entries[k].contributed_outputs[n]);
            n = n + 1;
            assert(outs@ =~= had.take(n as int));
        }
        assert(outs@ =~= had);
        let mut i: usize = 0;
        assert(output_indices@.take(0) =~= Seq::empty());
        while i < output_indices.len()
            invariant
                i <= output_indices@.len(),
                outs@ == noted(had, output_indices@.take(i as int)),
            decreases output_indices@.len() - i,
        {
            let x = output_indices[i];
            assert(output_indices@.take(i + 1).drop_last() =~= output_indices@.take(i as int));
            if !holds(&outs, x) {
                outs.push(x);
            }
            i = i + 1;
        }
        assert(output_indices@.take(i as int) =~= output_indices@);
        let ghost view = EntryView {
            contributed_outputs: outs@,
            ..before[k as int]
        };
        if let Some(entry) = self.entries.remove(k) {
            self.entries.insert(
                k,
                DamageAuditLedgerEntry {
                    id: entry.id,
                    site: entry.site,
                    expected_area: entry.expected_area,
                    contributed_outputs: outs,
                },
            );
        }
        proof {
            assert(self@.entries =~= before.update(k as int, view));
            lemma_noted_for(before, event_id, output_indices@, k as int);
        }
    }

    /// Drops the leading events that every output has consumed.
    pub fn retire_damage_audit_ledger(&mut self, min_consumed: Option<u64>)
        ensures
            final(self)@ == (match min_consumed {
                Some(min) => LedgerView {
                    entries: from_event(old(self)@.entries, min),
                    ..old(self)@
                },
                None => old(self)@,
            }),
    {
        let min = match min_consumed {
            None => {
                return;
            },
            Some(min) => min,
        };
        let ghost goal = from_event(self@.entries, min);
        while self.entries.len() > 0 && self.entries[0].id < min
            invariant
                goal == from_event(self@.entries, min),
                self.next_event_id == old(self)@.next_event_id,
                self.dropped_events == old(self)@.dropped_events,
            decreases self.entries@.len(),
        {
            let ghost before = self.entries@;
            assert(self@.entries[0].id == before[0].id);
            let _ = self.entries.pop_front();
            assert(self.entries@ =~= before.drop_first());
            assert(self@.entries =~= entry_views(before).drop_first());
        }
        proof {
            if self.entries@.len() > 0 {
                assert(self@.entries[0].id == self.entries@[0].id);
            }
        }
    }

    /// Whether an event has come that an output has not consumed.
    pub fn audit_has_unretired_event(&self, consumed: u64) -> (r: bool)
        ensures
            r == (self@.entries.len() > 0 && self@.entries.last().id >= consumed),
    {
        let n = self.entries.len();
        if n == 0 {
            return false;
        }
        assert(self@.entries.last() == self.entries@[n - 1]@);
        self.entries[n - 1].id >= consumed
    }

    /// The events of an episode that were to change pixels of a tile, as text.
    pub fn ledger_candidates_for_tile(
        &self,
        output_idx: usize,
        tile: Rect2D,
        first_event_id: u64,
        next_event_id: u64,
    ) -> (r: String)
        ensures
            r@ == candidates_text(
                candidates(self@.entries, output_idx, tile, first_event_id, next_event_id),
            ),
    {
        let found = self.candidates_for_tile(output_idx, tile, first_event_id, next_event_id);
        describe_candidates(found.as_slice())
    }

    /// The events of an episode that were to change pixels of a tile.
    pub fn candidates_for_tile(
        &self,
        output_idx: usize,
        tile: Rect2D,
        first_event_id: u64,
        next_event_id: u64,
    ) -> (r: Vec<LedgerCandidate>)
        ensures
            r@ == candidates(
                self@.entries,
                output_idx,
                tile,
                first_event_id,
                next_event_id,
            ),
    {
        let ghost all = self@.entries;
        let mut out: Vec<LedgerCandidate> = Vec::new();
        let mut i: usize = 0;
        assert(all.take(0) =~= Seq::empty());
        while i < self.entries.len()
            invariant
                i <= self.entries@.len(),
                all == entry_views(self.entries@),
                out@ == candidates(
                    all.take(i as int),
                    output_idx,
                    tile,
                    first_event_id,
                    next_event_id,
                ),
            decreases self.entries@.len() - i,
        {
            let e = &self.entries[i];
            assert(all[i as int] == e@);
            assert(all.take(i + 1).drop_last() =~= all.take(i as int));
            assert(all.take(i + 1).last() == e@);
            if e.id >= first_event_id && e.id < next_event_id {
                let mut hit = false;
                let mut j: usize = 0;
                while j < e.expected_area.len() && !hit
                    invariant
                        j <= e.expected_area@.len(),
                        hit ==> exists|k: int|
                            0 <= k < e@.expected_area.len() && (
                            #[trigger] e@.expected_area[k]).meets(tile),
                        !hit ==> forall|k: int|
                            0 <= k < j ==> !(#[trigger] e@.expected_area[k]).meets(tile),
                    decreases e.expected_area@.len() - j,
                {
                    if rects_intersect(e.expected_area[j], tile) {
                        assert(e@.expected_area[j as int].meets(tile));
                        hit = true;
                    }
                    j = j + 1;
                }
                if hit {
                    assert(explains(e@, tile, first_event_id, next_event_id));
                    let contributed = holds(&e.contributed_outputs, output_idx);
                    out.push(LedgerCandidate { id: e.id, site: e.site, contributed });
                } else {
                    assert(!explains(e@, tile, first_event_id, next_event_id));
                }
            }
            i = i + 1;
        }
        assert(all.take(i as int) =~= all);
        out
    }
}

/// An event is found for a tile only within its episode, and only if it was to
/// change a pixel of the tile.
pub proof fn candidates_lie_in_the_episode(
    s: Seq<EntryView>,
    output_idx: usize,
    tile: Rect2D,
    first: u64,
    next: u64,
)
    ensures
        forall|i: int|
            0 <= i < candidates(s, output_idx, tile, first, next).len() ==> first <= (
            #[trigger] candidates(s, output_idx, tile, first, next)[i]).id < next,
    decreases s.len(),
{
    if s.len() > 0 {
        let t = s.drop_last();
        candidates_lie_in_the_episode(t, output_idx, tile, first, next);
        let before = candidates(t, output_idx, tile, first, next);
        let all = candidates(s, output_idx, tile, first, next);
        assert forall|i: int| 0 <= i < all.len() implies first <= (#[trigger] all[i]).id < next by {
            if i < before.len() {
                assert(all[i] == before[i]);
            }
        }
    }
}

} // verus!
