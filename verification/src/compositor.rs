//! All outputs together: what is marked, what is due, and what a tick settles.

use vstd::prelude::*;

use crate::audit::{recompare_due, AuditView};
use crate::compositor_laws::{
    damaged_under, lies_within, marking_everything_damages_every_pixel,
    new_paint_is_awaited_where_it_shows, the_plane_moves_only_when_all_agree,
    what_is_marked_is_damaged_everywhere,
};
use crate::cursor::{
    classify_cursor_mode_from_per_output, cursor_output_needs_sprite_retry, plane_mode,
    shows_sprite, CursorPlaneMode, CursorTransition, OutputCursorMode,
};
use crate::damage_log::LogView;
use crate::geometry::{clip_to_output, output_rect, projection, Extent2D, Offset2D, Rect2D};
use crate::ids::{DrawableId, IdSet};
use crate::ledger::{from_event, noted_for, recorded, DamageLedger, LedgerView, Site};
use crate::output::{completion_awaited, repaint_forced, AckView, OutputSceneState, OutputView};
use crate::present::PresentError;
use crate::root_overlay::{
    rects_of, toggled, without_client, OverlayEntry, RootOverlay, ToggleOutcome,
};
use crate::scanout_damage::invalidated;
use crate::scene_build::CursorEntry;
use crate::store::{armed_ids, reconciled, DrawableStore, StoreView};
use crate::tick::{
    dormancy_inputs, has_pieces, may_land, pending_presentation_for_output, reports_view, sets_of,
    stays_armed,
    OutputWalkReport, ReportView, TickOutcome,
};

verus! {

/// Why the compositor could not do its work.
#[derive(Debug)]
pub enum SceneError {
    /// The pipelines could not be built.
    PipelineInit(String),
    /// A Vulkan call failed with this code.
    Vk(i32),
    /// There is no renderer.
    NoVk,
    Present(PresentError),
}

impl From<PresentError> for SceneError {
    fn from(e: PresentError) -> (r: SceneError) {
        SceneError::Present(e)
    }
}

impl vstd::std_specs::convert::FromSpecImpl<PresentError> for SceneError {
    open spec fn obeys_from_spec() -> bool {
        true
    }

    open spec fn from_spec(e: PresentError) -> SceneError {
        SceneError::Present(e)
    }
}

/// Why the pipelines of the overlay could not be built.
#[derive(Debug)]
pub enum LogicFillError {
    /// A Vulkan call failed with this code.
    Vk(i32),
    /// The shader's length is not a multiple of four.
    SpirvUnaligned(usize),
}

/// The code of a failed initialization.
///
/// `ash::vk::Result::ERROR_INITIALIZATION_FAILED` is the code -3, and `as_raw`
/// hands a result's code out.
#[verifier::external_body]
fn initialization_failed_code() -> (r: i32)
    ensures
        r == -3,
{
    ash::vk::Result::ERROR_INITIALIZATION_FAILED.as_raw()
}

impl From<LogicFillError> for SceneError {
    fn from(e: LogicFillError) -> (r: SceneError) {
        match e {
            LogicFillError::Vk(code) => SceneError::Vk(code),
            LogicFillError::SpirvUnaligned(_) => SceneError::Vk(initialization_failed_code()),
        }
    }
}

impl vstd::std_specs::convert::FromSpecImpl<LogicFillError> for SceneError {
    open spec fn obeys_from_spec() -> bool {
        true
    }

    open spec fn from_spec(e: LogicFillError) -> SceneError {
        match e {
            LogicFillError::Vk(code) => SceneError::Vk(code),
            LogicFillError::SpirvUnaligned(_) => SceneError::Vk((-3) as i32),
        }
    }
}

/// What is to be done about a render completion.
#[derive(Clone, Copy, Debug, PartialEq, Eq, Structural)]
pub enum CompletionStep {
    /// Nothing.
    Ignored,
    /// Stop the renderer.
    FailStop,
    /// Hand the frame of this output to the sink.
    Submit(usize),
}

/// A compositor with a renderer.
pub struct SceneCompositorInner {
    pub outputs: Vec<OutputSceneState>,
    pub ledger: DamageLedger,
    pub cursor: Option<CursorEntry>,
    /// Whether the damage audit is switched on.
    pub audit_enabled: bool,
}

/// The compositor. Without a renderer it only remembers that something changed.
pub struct SceneCompositor {
    pub inner: Option<SceneCompositorInner>,
    pub root_overlay: RootOverlay,
    /// Whether the scene changed since it was last taken in.
    pub scene_structure_dirty: bool,
}

/// A compositor with a renderer, with views.
pub struct InnerView {
    pub outputs: Seq<OutputView>,
    /// The audits of the outputs that have one.
    pub audits: Seq<Option<AuditView>>,
    pub ledger: LedgerView,
    pub cursor: Option<CursorEntry>,
    pub audit_enabled: bool,
}

/// The compositor with views.
pub struct SceneView {
    pub inner: Option<InnerView>,
    pub overlay: Seq<OverlayEntry>,
    pub dirty: bool,
}

/// The states behind a list.
pub open spec fn output_views(s: Seq<OutputSceneState>) -> Seq<OutputView> {
    s.map_values(|o: OutputSceneState| o@)
}

/// An output's audit, if it has one.
pub open spec fn audit_of(o: OutputSceneState) -> Option<AuditView> {
    match o.damage_audit {
        Some(a) => Some(a@),
        None => None,
    }
}

/// The audits behind a list.
pub open spec fn audits_of(s: Seq<OutputSceneState>) -> Seq<Option<AuditView>> {
    s.map_values(|o: OutputSceneState| audit_of(o))
}

impl View for SceneCompositorInner {
    type V = InnerView;

    open spec fn view(&self) -> InnerView {
        InnerView {
            outputs: output_views(self.outputs@),
            audits: audits_of(self.outputs@),
            ledger: self.ledger@,
            cursor: self.cursor,
            audit_enabled: self.audit_enabled,
        }
    }
}

impl View for SceneCompositor {
    type V = SceneView;

    open spec fn view(&self) -> SceneView {
        SceneView {
            inner: match self.inner {
                Some(i) => Some(i@),
                None => None,
            },
            overlay: self.root_overlay@,
            dirty: self.scene_structure_dirty,
        }
    }
}

// ── events ──────────────────────────────────────────────────────────
/// Whether events are recorded: the audit is on, and some output is audited.
pub open spec fn audit_active(i: InnerView) -> bool {
    i.audit_enabled && exists|k: int| 0 <= k < i.audits.len() && (#[trigger] i.audits[k]) is Some
}

/// The smallest number of an event that some audited output has not consumed.
pub open spec fn least_consumed(audits: Seq<Option<AuditView>>) -> Option<u64>
    decreases audits.len(),
{
    if audits.len() == 0 {
        None
    } else {
        let before = least_consumed(audits.drop_last());
        match audits.last() {
            None => before,
            Some(a) => match before {
                Some(m) if m <= a.consumed_event_id => Some(m),
                _ => Some(a.consumed_event_id),
            },
        }
    }
}

/// Whether an audit is due although a frame had nothing to draw: an event has
/// come that it has not consumed, or it has not compared for a while.
pub open spec fn idle_audit(i: InnerView, output_idx: usize, now: u64, due: u64) -> bool {
    let consumed = match i.audits[output_idx as int] {
        Some(a) => a.consumed_event_id,
        None => 0,
    };
    ||| i.ledger.entries.len() > 0 && i.ledger.entries.last().id >= consumed
    ||| (match i.audits[output_idx as int] {
        Some(a) => recompare_due(a, now, due),
        None => false,
    })
}

/// The whole of every output.
pub open spec fn whole_areas(outputs: Seq<OutputView>) -> Seq<Rect2D> {
    outputs.map_values(|o: OutputView| output_rect(o.extent))
}

/// The ledger after an event, if events are recorded.
pub open spec fn event_recorded(i: InnerView, site: Site, area: Seq<Rect2D>) -> LedgerView {
    if audit_active(i) { recorded(i.ledger, site, area) } else { i.ledger }
}

/// The same once it is known which outputs the event added damage to.
pub open spec fn event_noted(
    i: InnerView,
    site: Site,
    area: Seq<Rect2D>,
    contributed: Seq<usize>,
) -> LedgerView {
    let l = event_recorded(i, site, area);
    if audit_active(i) {
        LedgerView { entries: noted_for(l.entries, i.ledger.next_event_id, contributed), ..l }
    } else {
        l
    }
}

/// The numbers of outputs.
pub open spec fn numbers(outputs: Seq<OutputView>) -> Seq<usize> {
    outputs.map_values(|o: OutputView| o.output_idx)
}

// ── marking ─────────────────────────────────────────────────────────
/// The compositor after a bare wake.
pub open spec fn woken(v: SceneView, site: Site) -> SceneView {
    SceneView {
        dirty: true,
        inner: match v.inner {
            Some(i) => Some(
                InnerView { ledger: event_recorded(i, site, whole_areas(i.outputs)), ..i },
            ),
            None => None,
        },
        ..v
    }
}

/// The compositor after everything was marked.
pub open spec fn all_marked(v: SceneView, site: Site) -> SceneView {
    SceneView {
        dirty: true,
        inner: match v.inner {
            Some(i) => Some(
                InnerView {
                    outputs: i.outputs.map_values(|o: OutputView| repaint_forced(o)),
                    ledger: event_noted(i, site, whole_areas(i.outputs), numbers(i.outputs)),
                    ..i
                },
            ),
            None => None,
        },
        ..v
    }
}

/// The compositor after a rectangle of one output was marked.
pub open spec fn rect_marked(v: SceneView, output_idx: usize, r: Rect2D, site: Site) -> SceneView {
    SceneView {
        dirty: true,
        inner: match v.inner {
            Some(i) => Some(
                if output_idx < i.outputs.len() {
                    let o = i.outputs[output_idx as int];
                    InnerView {
                        outputs: i.outputs.update(
                            output_idx as int,
                            OutputView {
                                structure_damage: o.structure_damage.add(r),
                                ..o
                            },
                        ),
                        ledger: event_noted(i, site, seq![r], seq![output_idx]),
                        ..i
                    }
                } else {
                    InnerView { ledger: event_recorded(i, site, seq![r]), ..i }
                },
            ),
            None => None,
        },
        ..v
    }
}

/// A damage log after root-space rectangles were added, each in the output's own
/// space and clipped to it.
pub open spec fn clipped_added(
    log: LogView,
    rects: Seq<Rect2D>,
    origin: (i32, i32),
    ext: Extent2D,
) -> LogView
    decreases rects.len(),
{
    if rects.len() == 0 {
        log
    } else {
        let before = clipped_added(log, rects.drop_last(), origin, ext);
        match projection(rects.last(), -origin.0, -origin.1, ext.width, ext.height) {
            Some(c) => before.add(c),
            None => before,
        }
    }
}

/// An output after root-space rectangles were marked.
pub open spec fn rects_dispatched(o: OutputView, rects: Seq<Rect2D>) -> OutputView {
    OutputView {
        structure_damage: clipped_added(o.structure_damage, rects, o.origin, o.extent),
        ..o
    }
}

/// The positions of the outputs whose log has another length then.
pub open spec fn grown(outputs: Seq<OutputView>, rects: Seq<Rect2D>) -> Seq<usize>
    decreases outputs.len(),
{
    if outputs.len() == 0 {
        Seq::empty()
    } else {
        let before = grown(outputs.drop_last(), rects);
        let o = outputs.last();
        if rects_dispatched(o, rects).structure_damage.marks.len()
            != o.structure_damage.marks.len() {
            before.push((outputs.len() - 1) as usize)
        } else {
            before
        }
    }
}

/// The compositor after root-space rectangles were marked.
pub open spec fn rects_marked(v: SceneView, rects: Seq<Rect2D>, site: Site) -> SceneView {
    SceneView {
        dirty: true,
        inner: match v.inner {
            Some(i) => Some(
                InnerView {
                    outputs: i.outputs.map_values(|o: OutputView| rects_dispatched(o, rects)),
                    ledger: event_noted(i, site, rects, grown(i.outputs, rects)),
                    ..i
                },
            ),
            None => None,
        },
        ..v
    }
}

/// The compositor after rectangles were marked and it was woken.
pub open spec fn rects_marked_and_woken(v: SceneView, rects: Seq<Rect2D>, site: Site) -> SceneView {
    woken(rects_marked(v, rects, site), site)
}

fn clip_rects_into(
    rects: &[Rect2D],
    state: &mut OutputSceneState,
)
    ensures
        final(state)@ == rects_dispatched(old(state)@, rects@),
        final(state).damage_audit == old(state).damage_audit,
{
    let ghost o = state@;
    let mut i: usize = 0;
    assert(rects@.take(0) =~= Seq::empty());
    while i < rects.len()
        invariant
            i <= rects@.len(),
            state@ == rects_dispatched(o, rects@.take(i as int)),
            state.damage_audit == old(state).damage_audit,
        decreases rects@.len() - i,
    {
        assert(rects@.take(i + 1).drop_last() =~= rects@.take(i as int));
        if let Some(c) = clip_to_output(rects[i], state.output_origin, state.output_extent) {
            state.scene_structure_damage.add(c);
        }
        i = i + 1;
    }
    assert(rects@.take(i as int) =~= rects@);
}

/// Adds root-space rectangles to the marked damage of every output, clipped to
/// each; says which logs changed their length.
pub fn dispatch_clip_rects_to_outputs(
    outputs: &mut Vec<OutputSceneState>,
    rects: &[Rect2D],
) -> (contributed: Vec<usize>)
    ensures
        output_views(final(outputs)@) == output_views(old(outputs)@).map_values(
            |o: OutputView| rects_dispatched(o, rects@),
        ),
        audits_of(final(outputs)@) == audits_of(old(outputs)@),
        contributed@ == grown(output_views(old(outputs)@), rects@),
{
    let ghost before = outputs@;
    let ghost views = output_views(before);
    let mut contributed: Vec<usize> = Vec::new();
    let mut i: usize = 0;
    assert(views.take(0) =~= Seq::empty());
    while i < outputs.len()
        invariant
            i <= outputs@.len(),
            outputs@.len() == before.len(),
            views == output_views(before),
            contributed@ == grown(views.take(i as int), rects@),
            forall|k: int|
                0 <= k < i ==> (#[trigger] outputs@[k])@ == rects_dispatched(before[k]@, rects@)
                    && outputs@[k].damage_audit == before[k].damage_audit,
            forall|k: int| i <= k < outputs@.len() ==> #[trigger] outputs@[k] == before[k],
        decreases before.len() - i,
    {
        assert(outputs@[i as int] == before[i as int]);
        assert(views.take(i + 1).drop_last() =~= views.take(i as int));
        assert(views.take(i + 1).last() == before[i as int]@);
        let had = outputs[i].scene_structure_damage.len();
        clip_rects_into(rects, &mut outputs[i]);
        if outputs[i].scene_structure_damage.len() != had {
            contributed.push(i);
        }
        i = i + 1;
    }
    assert(views.take(i as int) =~= views);
    assert(output_views(outputs@) =~= views.map_values(
        |o: OutputView| rects_dispatched(o, rects@),
    ));
    assert(audits_of(outputs@) =~= audits_of(before));
    contributed
}

fn copy_rects(rects: &[Rect2D]) -> (r: Vec<Rect2D>)
    ensures
        r@ == rects@,
{
    let mut r: Vec<Rect2D> = Vec::new();
    let mut i: usize = 0;
    while i < rects.len()
        invariant
            i <= rects@.len(),
            r@ == rects@.take(i as int),
        decreases rects@.len() - i,
    {
        r.push(rects[i]);
        i = i + 1;
        assert(r@ =~= rects@.take(i as int));
    }
    assert(r@ =~= rects@);
    r
}

impl SceneCompositorInner {
    /// The whole of every output.
    pub fn full_output_audit_area(&self) -> (r: Vec<Rect2D>)
        ensures
            r@ == whole_areas(self@.outputs),
    {
        let mut r: Vec<Rect2D> = Vec::new();
        let mut i: usize = 0;
        while i < self.outputs.len()
            invariant
                i <= self.outputs@.len(),
                r@.len() == i,
                forall|k: int|
                    0 <= k < i ==> #[trigger] r@[k] == output_rect(self.outputs@[k]@.extent),
            decreases self.outputs@.len() - i,
        {
            r.push(
                Rect2D {
                    offset: Offset2D { x: 0, y: 0 },
                    extent: self.outputs[i].output_extent,
                },
            );
            i = i + 1;
        }
        assert(r@ =~= whole_areas(self@.outputs));
        r
    }

    /// Whether events are recorded.
    pub fn damage_audit_active(&self) -> (r: bool)
        ensures
            r == audit_active(self@),
    {
        if !self.audit_enabled {
            return false;
        }
        let mut i: usize = 0;
        while i < self.outputs.len()
            invariant
                self.audit_enabled,
                i <= self.outputs@.len(),
                forall|k: int| 0 <= k < i ==> (#[trigger] self.outputs@[k]).damage_audit is None,
            decreases self.outputs@.len() - i,
        {
            if self.outputs[i].damage_audit.is_some() {
                assert(self@.audits[i as int] is Some);
                return true;
            }
            i = i + 1;
        }
        assert forall|k: int| 0 <= k < self@.audits.len() implies (#[trigger] self@.audits[k])
            is None by {
            assert(self.outputs@[k].damage_audit is None);
        }
        false
    }

    /// Records an event, if events are recorded.
    pub fn record_damage_audit_event(&mut self, site: Site, area: Vec<Rect2D>) -> (r: Option<u64>)
        ensures
            r == (if audit_active(old(self)@) {
                Some(old(self)@.ledger.next_event_id)
            } else {
                None
            }),
            final(self)@ == (InnerView {
                ledger: event_recorded(old(self)@, site, area@),
                ..old(self)@
            }),
            final(self).outputs == old(self).outputs,
    {
        if self.damage_audit_active() {
            Some(self.ledger.record(site, area))
        } else {
            None
        }
    }

    /// The smallest number of an event that some audited output has not consumed.
    pub fn min_consumed(&self) -> (r: Option<u64>)
        ensures
            r == least_consumed(self@.audits),
    {
        let ghost audits = self@.audits;
        let mut best: Option<u64> = None;
        let mut i: usize = 0;
        assert(audits.take(0) =~= Seq::empty());
        while i < self.outputs.len()
            invariant
                i <= self.outputs@.len(),
                audits == audits_of(self.outputs@),
                best == least_consumed(audits.take(i as int)),
            decreases self.outputs@.len() - i,
        {
            assert(audits.take(i + 1).drop_last() =~= audits.take(i as int));
            assert(audits[i as int] == audit_of(self.outputs@[i as int]));
            if let Some(a) = &self.outputs[i].damage_audit {
                let c = a.consumed_event_id;
                best = match best {
                    None => Some(c),
                    Some(m) => if c < m { Some(c) } else { Some(m) },
                };
            }
            i = i + 1;
        }
        assert(audits.take(i as int) =~= audits);
        best
    }

    /// Drops the events that every audited output has consumed.
    pub fn retire_damage_audit_ledger(&mut self)
        ensures
            final(self).outputs == old(self).outputs,
            final(self)@ == (InnerView {
                ledger: match least_consumed(old(self)@.audits) {
                    Some(min) => LedgerView {
                        entries: from_event(old(self)@.ledger.entries, min),
                        ..old(self)@.ledger
                    },
                    None => old(self)@.ledger,
                },
                ..old(self)@
            }),
    {
        let min = self.min_consumed();
        self.ledger.retire_damage_audit_ledger(min);
    }

    /// Whether an output's audit is due although its frame had nothing to draw.
    pub fn idle_audit_due(&self, output_idx: usize, now: u64, due: u64) -> (r: bool)
        requires
            output_idx < self@.outputs.len(),
        ensures
            r == idle_audit(self@, output_idx, now, due),
    {
        assert(self@.audits[output_idx as int] == audit_of(self.outputs@[output_idx as int]));
        let consumed: u64 = match &self.outputs[output_idx].damage_audit {
            Some(a) => a.consumed_event_id,
            None => 0,
        };
        if self.ledger.audit_has_unretired_event(consumed) {
            return true;
        }
        match &self.outputs[output_idx].damage_audit {
            Some(a) => a.audit_idle_recompare_due(now, due),
            None => false,
        }
    }
}

impl SceneCompositor {
    /// A compositor with a renderer. Everything is to be taken in.
    pub fn new(outputs: Vec<OutputSceneState>, audit_enabled: bool) -> (r: Self)
        ensures
            r.inner is Some,
            r.inner->0.outputs == outputs,
            r@ == (SceneView {
                inner: Some(
                    InnerView {
                        outputs: output_views(outputs@),
                        audits: audits_of(outputs@),
                        ledger: LedgerView {
                            entries: Seq::empty(),
                            next_event_id: 0,
                            dropped_events: 0,
                        },
                        cursor: None,
                        audit_enabled,
                    },
                ),
                overlay: Seq::empty(),
                dirty: true,
            }),
    {
        SceneCompositor {
            inner: Some(
                SceneCompositorInner {
                    outputs,
                    ledger: DamageLedger::new(),
                    cursor: None,
                    audit_enabled,
                },
            ),
            root_overlay: RootOverlay::new(),
            scene_structure_dirty: true,
        }
    }

    /// A compositor without a renderer.
    pub fn stub() -> (r: Self)
        ensures
            r@ == (SceneView { inner: None, overlay: Seq::empty(), dirty: false }),
    {
        SceneCompositor {
            inner: None,
            root_overlay: RootOverlay::new(),
            scene_structure_dirty: false,
        }
    }

    /// Whether there is a renderer.
    pub fn is_live(&self) -> (r: bool)
        ensures
            r == (self@.inner is Some),
    {
        self.inner.is_some()
    }

    /// Forgets what is in every output's buffers.
    pub fn invalidate_all_scanout_damage(&mut self)
        ensures
            final(self)@ == (SceneView {
                inner: match old(self)@.inner {
                    Some(i) => Some(
                        InnerView {
                            outputs: i.outputs.map_values(
                                |o: OutputView|
                                    OutputView { damage: invalidated(o.damage), ..o },
                            ),
                            ..i
                        },
                    ),
                    None => None,
                },
                ..old(self)@
            }),
            old(self)@.inner matches Some(i) ==> final(self)@.inner is Some && final(self)@.inner->0.outputs.len() == i.outputs.len() && forall|k: int|
                0 <= k < i.outputs.len() ==> {
                    let o = #[trigger] final(self)@.inner->0.outputs[k];
                    &&& o.damage.owed
                    &&& o.damage.missing.len() == i.outputs[k].damage.missing.len()
                    &&& forall|b: int|
                        0 <= b < o.damage.missing.len() ==> #[trigger] o.damage.missing[b]
                            == output_rect(i.outputs[k].damage.extent).px()
                },
    {
        if let Some(inner) = &mut self.inner {
            let ghost before = inner.outputs@;
            let ghost rest = *inner;
            let mut i: usize = 0;
            while i < inner.outputs.len()
                invariant
                    i <= inner.outputs@.len(),
                    inner.outputs@.len() == before.len(),
                    inner.ledger == rest.ledger,
                    inner.cursor == rest.cursor,
                    inner.audit_enabled == rest.audit_enabled,
                    forall|k: int|
                        0 <= k < i ==> (#[trigger] inner.outputs@[k])@ == (OutputView {
                            damage: invalidated(before[k]@.damage),
                            ..before[k]@
                        }) && inner.outputs@[k].damage_audit == before[k].damage_audit,
                    forall|k: int|
                        i <= k < before.len() ==> #[trigger] inner.outputs@[k] == before[k],
                decreases before.len() - i,
            {
                assert(inner.outputs@[i as int] == before[i as int]);
                inner.outputs[i].damage.invalidate();
                i = i + 1;
            }
            assert(inner@.outputs =~= output_views(before).map_values(
                |o: OutputView| OutputView { damage: invalidated(o.damage), ..o },
            ));
            assert(inner@.audits =~= audits_of(before));
        }
    }

    /// Takes the sprite that outputs without a plane draw.
    pub fn register_cursor(&mut self, entry: CursorEntry)
        ensures
            final(self)@ == (match old(self)@.inner {
                Some(i) => SceneView {
                    inner: Some(InnerView { cursor: Some(entry), ..i }),
                    dirty: true,
                    ..old(self)@
                },
                None => old(self)@,
            }),
    {
        if let Some(inner) = &mut self.inner {
            inner.cursor = Some(entry);
            self.scene_structure_dirty = true;
        }
    }

    /// Wakes the next tick without marking damage.
    pub fn wake_for_damage(&mut self, site: Site)
        ensures
            final(self)@ == woken(old(self)@, site),
    {
        self.scene_structure_dirty = true;
        if let Some(inner) = &mut self.inner {
            let area = inner.full_output_audit_area();
            let _ = inner.record_damage_audit_event(site, area);
        }
    }

    /// Marks everything.
    pub fn mark_scene_structure_dirty(&mut self, site: Site)
        ensures
            final(self)@ == all_marked(old(self)@, site),
            final(self)@.dirty,
            old(self)@.inner matches Some(i) ==> {
                let after = final(self)@.inner->0.outputs;
                &&& final(self)@.inner is Some
                &&& after.len() == i.outputs.len()
                &&& forall|k: int, q: (int, int)|
                    0 <= k < after.len() && (lies_within(i.outputs[k].extent, q)
                        || i.outputs[k].structure_damage.px().contains(q)) ==> #[trigger] (
                    after[k]).structure_damage.px().contains(q)
            },
    {
        proof {
            if old(self)@.inner is Some {
                let outs = old(self)@.inner->0.outputs;
                let after = all_marked(old(self)@, site).inner->0.outputs;
                assert forall|k: int, q: (int, int)|
                    0 <= k < after.len() && (lies_within(outs[k].extent, q)
                        || outs[k].structure_damage.px().contains(q)) implies #[trigger] (
                after[k]).structure_damage.px().contains(q) by {
                    marking_everything_damages_every_pixel(old(self)@, site, k);
                }
            }
        }
        self.scene_structure_dirty = true;
        if let Some(inner) = &mut self.inner {
            let ghost start = inner@;
            let ghost before = inner.outputs@;
            let area = inner.full_output_audit_area();
            let event = inner.record_damage_audit_event(site, area);
            let ghost ledger = inner.ledger@;
            let mut contributed: Vec<usize> = Vec::new();
            let mut i: usize = 0;
            while i < inner.outputs.len()
                invariant
                    i <= inner.outputs@.len(),
                    inner.outputs@.len() == before.len(),
                    inner.ledger@ == ledger,
                    inner.cursor == start.cursor,
                    inner.audit_enabled == start.audit_enabled,
                    contributed@.len() == i,
                    forall|k: int|
                        0 <= k < i ==> #[trigger] contributed@[k] == before[k]@.output_idx,
                    forall|k: int|
                        0 <= k < i ==> (#[trigger] inner.outputs@[k])@ == repaint_forced(before[k]@)
                            && inner.outputs@[k].damage_audit == before[k].damage_audit,
                    forall|k: int|
                        i <= k < before.len() ==> #[trigger] inner.outputs@[k] == before[k],
                decreases before.len() - i,
            {
                assert(inner.outputs@[i as int] == before[i as int]);
                inner.outputs[i].force_cursor_retry_repaint();
                contributed.push(inner.outputs[i].output_idx);
                i = i + 1;
            }
            assert(contributed@ =~= numbers(start.outputs));
            if let Some(id) = event {
                inner.ledger.note_damage_audit_contributions(id, contributed.as_slice());
            }
            assert(inner@.outputs =~= start.outputs.map_values(
                |o: OutputView| repaint_forced(o),
            ));
            assert(inner@.audits =~= start.audits);
        }
    }

    /// Marks a rectangle of one output.
    pub fn mark_scene_structure_damage_rect(&mut self, output_idx: usize, r: Rect2D, site: Site)
        ensures
            final(self)@ == rect_marked(old(self)@, output_idx, r, site),
    {
        self.scene_structure_dirty = true;
        if let Some(inner) = &mut self.inner {
            let ghost start = inner@;
            let ghost before = inner.outputs@;
            let mut area: Vec<Rect2D> = Vec::new();
            area.push(r);
            assert(area@ =~= seq![r]);
            let event = inner.record_damage_audit_event(site, area);
            if output_idx < inner.outputs.len() {
                inner.outputs[output_idx].scene_structure_damage.add(r);
                if let Some(id) = event {
                    let mut only: Vec<usize> = Vec::new();
                    only.push(output_idx);
                    assert(only@ =~= seq![output_idx]);
                    inner.ledger.note_damage_audit_contributions(id, only.as_slice());
                }
                let ghost o = before[output_idx as int]@;
                assert(inner@.outputs =~= start.outputs.update(
                    output_idx as int,
                    OutputView { structure_damage: o.structure_damage.add(r), ..o },
                ));
                assert(inner@.audits =~= start.audits);
            }
        }
    }

    /// Marks root-space rectangles on every output they touch.
    pub fn mark_scene_structure_damage_rects(&mut self, rects: &[Rect2D], site: Site)
        ensures
            final(self)@ == rects_marked(old(self)@, rects@, site),
    {
        self.scene_structure_dirty = true;
        if let Some(inner) = &mut self.inner {
            let event = inner.record_damage_audit_event(site, copy_rects(rects));
            let contributed = dispatch_clip_rects_to_outputs(&mut inner.outputs, rects);
            if let Some(id) = event {
                inner.ledger.note_damage_audit_contributions(id, contributed.as_slice());
            }
        }
    }

    /// Draws inverted rectangles and marks them and what is left of the overlay.
    pub fn root_overlay_toggle(&mut self, client: u32, value: u32, rects: &[Rect2D], site: Site) -> (r:
        ToggleOutcome)
        ensures
            ({
                let overlay = toggled(old(self)@.overlay, client, value, rects@).0;
                final(self)@ == (if rects@.len() > 0 {
                    SceneView {
                        overlay,
                        ..rects_marked_and_woken(old(self)@, rects@ + rects_of(overlay), site)
                    }
                } else {
                    old(self)@
                })
            }),
            r.changed == (rects@.len() > 0),
            r.removed == toggled(old(self)@.overlay, client, value, rects@).1,
            r.inserted == rects@.len() - r.removed,
            r.total == final(self)@.overlay.len(),
            rects@.len() > 0 ==> final(self)@.dirty && damaged_under(
                old(self)@,
                final(self)@,
                rects@,
            ) && damaged_under(old(self)@, final(self)@, rects_of(final(self)@.overlay)),
    {
        proof {
            what_is_marked_is_damaged_everywhere(
                old(self)@,
                rects@,
                rects_of(toggled(old(self)@.overlay, client, value, rects@).0),
                site,
            );
        }
        let outcome = self.root_overlay.toggle(client, value, rects);
        if outcome.changed {
            let mut damage = copy_rects(rects);
            let mut rest = self.root_overlay.all_rects();
            let ghost all = rects@ + rest@;
            damage.append(&mut rest);
            assert(damage@ =~= all);
            self.mark_scene_structure_damage_rects(damage.as_slice(), site);
            self.wake_for_damage(site);
        } else {
            assert(rects@.len() == 0);
        }
        outcome
    }

    /// Takes the overlay away and marks where it was.
    pub fn root_overlay_clear(&mut self, site: Site)
        ensures
            final(self)@ == (if old(self)@.overlay.len() == 0 {
                old(self)@
            } else {
                SceneView {
                    overlay: Seq::empty(),
                    ..rects_marked_and_woken(old(self)@, rects_of(old(self)@.overlay), site)
                }
            }),
            final(self)@.overlay.len() == 0,
            old(self)@.overlay.len() > 0 ==> final(self)@.dirty && damaged_under(
                old(self)@,
                final(self)@,
                rects_of(old(self)@.overlay),
            ),
    {
        proof {
            let vacated = rects_of(old(self)@.overlay);
            what_is_marked_is_damaged_everywhere(old(self)@, vacated, vacated, site);
        }
        if self.root_overlay.is_empty() {
            return;
        }
        let vacated = self.root_overlay.all_rects();
        self.root_overlay.clear();
        self.mark_scene_structure_damage_rects(vacated.as_slice(), site);
        self.wake_for_damage(site);
    }

    /// Takes a client's part of the overlay away and marks where the overlay was.
    pub fn root_overlay_on_disconnect(&mut self, client: u32, site: Site)
        ensures
            ({
                let left = without_client(old(self)@.overlay, client);
                final(self)@ == (if left.len() == old(self)@.overlay.len() {
                    SceneView { overlay: left, ..old(self)@ }
                } else {
                    SceneView {
                        overlay: left,
                        ..rects_marked_and_woken(old(self)@, rects_of(old(self)@.overlay), site)
                    }
                })
            }),
            forall|i: int|
                0 <= i < final(self)@.overlay.len() ==> (
                #[trigger] final(self)@.overlay[i]).client != client,
            (exists|i: int|
                0 <= i < old(self)@.overlay.len() && (#[trigger] old(self)@.overlay[i]).client
                    == client) ==> final(self)@.dirty && damaged_under(
                old(self)@,
                final(self)@,
                rects_of(old(self)@.overlay),
            ),
    {
        proof {
            let was = old(self)@.overlay;
            let vacated = rects_of(was);
            what_is_marked_is_damaged_everywhere(old(self)@, vacated, vacated, site);
            lemma_left_by_client(was, client);
        }
        let vacated = self.root_overlay.all_rects();
        if self.root_overlay.on_client_disconnect(client) {
            self.mark_scene_structure_damage_rects(vacated.as_slice(), site);
            self.wake_for_damage(site);
        }
    }

    /// Takes new outputs; the overlay, which lies in the old layout, is dropped.
    pub fn rebuild_outputs(&mut self, outputs: Vec<OutputSceneState>, site: Site)
        ensures
            ({
                let replaced = match old(self)@.inner {
                    Some(i) => SceneView {
                        inner: Some(
                            InnerView {
                                outputs: output_views(outputs@),
                                audits: audits_of(outputs@),
                                ..i
                            },
                        ),
                        dirty: true,
                        ..old(self)@
                    },
                    None => old(self)@,
                };
                final(self)@ == (if old(self)@.inner is None || replaced.overlay.len() == 0 {
                    replaced
                } else {
                    SceneView {
                        overlay: Seq::empty(),
                        ..rects_marked_and_woken(replaced, rects_of(replaced.overlay), site)
                    }
                })
            }),
            old(self)@.inner matches Some(i) ==> {
                let now = final(self)@.inner->0;
                &&& final(self)@.inner is Some
                &&& final(self)@.dirty
                &&& final(self)@.overlay.len() == 0
                &&& now.outputs.len() == outputs@.len()
                &&& now.cursor == i.cursor
                &&& forall|k: int|
                    0 <= k < outputs@.len() ==> (#[trigger] now.outputs[k]) == (OutputView {
                        structure_damage: now.outputs[k].structure_damage,
                        ..outputs@[k]@
                    })
            },
    {
        if let Some(inner) = &mut self.inner {
            inner.outputs = outputs;
        } else {
            return;
        }
        self.scene_structure_dirty = true;
        self.root_overlay_clear(site);
    }

    // ── queries ─────────────────────────────────────────────────────
    /// The earliest time at which a failed submission may be tried again.
    pub fn earliest_retry_deadline(&self) -> (r: Option<u64>)
        ensures
            (match self@.inner {
                None => r is None,
                Some(i) => {
                    &&& r is None <==> forall|k: int|
                        0 <= k < i.outputs.len() ==> (#[trigger] i.outputs[k]).retry_at is None
                    &&& r matches Some(m) ==> {
                        &&& exists|k: int|
                            0 <= k < i.outputs.len() && (#[trigger] i.outputs[k]).retry_at == Some(m)
                        &&& forall|k: int|
                            0 <= k < i.outputs.len() && (#[trigger] i.outputs[k]).retry_at is Some
                                ==> i.outputs[k].retry_at->0 >= m
                    }
                },
            }),
    {
        match &self.inner {
            None => None,
            Some(inner) => {
                let ghost views = inner@.outputs;
                let mut best: Option<u64> = None;
                let mut i: usize = 0;
                while i < inner.outputs.len()
                    invariant
                        self@.inner == Some(inner@),
                        i <= inner.outputs@.len(),
                        views == output_views(inner.outputs@),
                        best is None ==> forall|k: int|
                            0 <= k < i ==> (#[trigger] views[k]).retry_at is None,
                        best matches Some(m) ==> {
                            &&& exists|k: int|
                                0 <= k < i && (#[trigger] views[k]).retry_at == Some(m)
                            &&& forall|k: int|
                                0 <= k < i && (#[trigger] views[k]).retry_at is Some
                                    ==> views[k].retry_at->0 >= m
                        },
                    decreases inner.outputs@.len() - i,
                {
                    let at = inner.outputs[i].next_submit_retry_at;
                    assert(views[i as int].retry_at == at);
                    if let Some(t) = at {
                        best = match best {
                            None => Some(t),
                            Some(m) => if t < m { Some(t) } else { Some(m) },
                        };
                    }
                    i = i + 1;
                }
                best
            },
        }
    }

    /// Whether some output could take a frame now. Without a renderer nothing
    /// holds a frame back.
    pub fn has_output_ready_for_submit(&self, now: u64) -> (r: bool)
        ensures
            r == (match self@.inner {
                None => true,
                Some(i) => exists|k: int|
                    0 <= k < i.outputs.len() && ready(#[trigger] i.outputs[k], now),
            }),
    {
        match &self.inner {
            None => true,
            Some(inner) => {
                let ghost views = inner@.outputs;
                let mut i: usize = 0;
                while i < inner.outputs.len()
                    invariant
                        self@.inner == Some(inner@),
                        i <= inner.outputs@.len(),
                        views == output_views(inner.outputs@),
                        forall|k: int| 0 <= k < i ==> !ready(#[trigger] views[k], now),
                    decreases inner.outputs@.len() - i,
                {
                    let o = &inner.outputs[i];
                    assert(views[i as int] == o@);
                    let due = match o.next_submit_retry_at {
                        None => true,
                        Some(at) => now >= at,
                    };
                    if o.pending_acks.len() == 0 && due {
                        assert(o@.pending_acks.len() == 0);
                        assert(ready(self@.inner->0.outputs[i as int], now));
                        return true;
                    }
                    i = i + 1;
                }
                false
            },
        }
    }

    /// Whether some output owes a repaint that no producer reports.
    pub fn owes_repaint(&self) -> (r: bool)
        ensures
            r == (match self@.inner {
                None => false,
                Some(i) => exists|k: int|
                    0 <= k < i.outputs.len() && (#[trigger] i.outputs[k]).damage.owed,
            }),
    {
        match &self.inner {
            None => false,
            Some(inner) => {
                let ghost views = inner@.outputs;
                let mut i: usize = 0;
                while i < inner.outputs.len()
                    invariant
                        self@.inner == Some(inner@),
                        i <= inner.outputs@.len(),
                        views == output_views(inner.outputs@),
                        forall|k: int| 0 <= k < i ==> !(#[trigger] views[k]).damage.owed,
                    decreases inner.outputs@.len() - i,
                {
                    assert(views[i as int] == inner.outputs@[i as int]@);
                    if inner.outputs[i].damage.owes_repaint() {
                        assert(views[i as int].damage.owed);
                        return true;
                    }
                    i = i + 1;
                }
                false
            },
        }
    }

    /// Whether some output has a frame in flight.
    pub fn has_pending_page_flips(&self) -> (r: bool)
        ensures
            r == (match self@.inner {
                None => false,
                Some(i) => exists|k: int|
                    0 <= k < i.outputs.len() && (#[trigger] i.outputs[k]).pending_acks.len() > 0,
            }),
    {
        match &self.inner {
            None => false,
            Some(inner) => {
                let ghost views = inner@.outputs;
                let mut i: usize = 0;
                while i < inner.outputs.len()
                    invariant
                        self@.inner == Some(inner@),
                        i <= inner.outputs@.len(),
                        views == output_views(inner.outputs@),
                        forall|k: int|
                            0 <= k < i ==> (#[trigger] views[k]).pending_acks.len() == 0,
                    decreases inner.outputs@.len() - i,
                {
                    assert(views[i as int] == inner.outputs@[i as int]@);
                    if inner.outputs[i].pending_acks.len() > 0 {
                        assert(views[i as int].pending_acks.len() > 0);
                        return true;
                    }
                    i = i + 1;
                }
                false
            },
        }
    }

    /// Whether an output has a frame in flight.
    pub fn has_pending_page_flip(&self, output_idx: usize) -> (r: bool)
        ensures
            r == (match self@.inner {
                None => false,
                Some(i) => output_idx < i.outputs.len()
                    && i.outputs[output_idx as int].pending_acks.len() > 0,
            }),
    {
        match &self.inner {
            None => false,
            Some(inner) => {
                output_idx < inner.outputs.len()
                    && inner.outputs[output_idx].pending_acks.len() > 0
            },
        }
    }

    /// Which way a pointer motion takes: while a plane change is pending or a
    /// show is owed, the plane must not be moved.
    pub fn cursor_mode(&self) -> (r: CursorPlaneMode)
        ensures
            r == (match self@.inner {
                None => CursorPlaneMode::Sw,
                Some(i) => if exists|k: int|
                    0 <= k < i.outputs.len() && plane_unsettled(#[trigger] i.outputs[k]) {
                    CursorPlaneMode::Mixed
                } else {
                    plane_mode(modes_of(i.outputs))
                },
            }),
            r == CursorPlaneMode::Hw ==> self@.inner is Some && (forall|k: int|
                0 <= k < self@.inner->0.outputs.len() ==> {
                    let o = #[trigger] self@.inner->0.outputs[k];
                    &&& o.cursor_mode is Hw || o.cursor_mode is Hidden
                    &&& o.show_retry is None
                    &&& forall|a: int|
                        0 <= a < o.pending_acks.len() ==> (
                        #[trigger] o.pending_acks[a]).transition is None
                }) && exists|k: int|
                0 <= k < self@.inner->0.outputs.len() && (
                #[trigger] self@.inner->0.outputs[k]).cursor_mode is Hw,
    {
        proof {
            if self@.inner is Some {
                lemma_modes(self@.inner->0.outputs);
            }
        }
        match &self.inner {
            None => CursorPlaneMode::Sw,
            Some(inner) => {
                let ghost views = inner@.outputs;
                let mut modes: Vec<OutputCursorMode> = Vec::new();
                let mut i: usize = 0;
                while i < inner.outputs.len()
                    invariant
                        self@.inner == Some(inner@),
                        i <= inner.outputs@.len(),
                        views == output_views(inner.outputs@),
                        modes@ == modes_of(views.take(i as int)),
                        forall|k: int| 0 <= k < i ==> !plane_unsettled(#[trigger] views[k]),
                    decreases inner.outputs@.len() - i,
                {
                    let o = &inner.outputs[i];
                    assert(views[i as int] == o@);
                    if transition_pending(o) || o.force_show_retry_version.is_some() {
                        assert(plane_unsettled(views[i as int]));
                        return CursorPlaneMode::Mixed;
                    }
                    modes.push(o.last_frame_cursor_mode);
                    i = i + 1;
                    assert(modes@ =~= modes_of(views.take(i as int)));
                }
                assert(views.take(i as int) =~= views);
                classify_cursor_mode_from_per_output(modes.as_slice())
            },
        }
    }

    /// A new sprite: every output that shows the cursor on its plane, or is about
    /// to, is made to show it again. Says whether there is one.
    pub fn queue_steady_state_cursor_upload(&mut self, version: u64) -> (r: bool)
        ensures
            final(self)@ == (match old(self)@.inner {
                None => old(self)@,
                Some(i) => SceneView {
                    inner: Some(
                        InnerView {
                            outputs: i.outputs.map_values(
                                |o: OutputView| sprite_queued(o, version),
                            ),
                            ..i
                        },
                    ),
                    dirty: true,
                    ..old(self)@
                },
            }),
            r == (match old(self)@.inner {
                None => false,
                Some(i) => exists|k: int|
                    0 <= k < i.outputs.len() && plane_shows(#[trigger] i.outputs[k]),
            }),
    {
        if let Some(inner) = &mut self.inner {
            let ghost start = inner@;
            let ghost before = inner.outputs@;
            let mut any = false;
            let mut i: usize = 0;
            while i < inner.outputs.len()
                invariant
                    i <= inner.outputs@.len(),
                    inner.outputs@.len() == before.len(),
                    start.outputs == output_views(before),
                    inner.ledger@ == start.ledger,
                    inner.cursor == start.cursor,
                    inner.audit_enabled == start.audit_enabled,
                    any == exists|k: int| 0 <= k < i && plane_shows(#[trigger] start.outputs[k]),
                    forall|k: int|
                        0 <= k < i ==> (#[trigger] inner.outputs@[k])@ == sprite_queued(
                            before[k]@,
                            version,
                        ) && inner.outputs@[k].damage_audit == before[k].damage_audit,
                    forall|k: int|
                        i <= k < before.len() ==> #[trigger] inner.outputs@[k] == before[k],
                decreases before.len() - i,
            {
                let ghost was = any;
                assert(inner.outputs@[i as int] == before[i as int]);
                assert(start.outputs[i as int] == before[i as int]@);
                let pending = pending_transitions(&inner.outputs[i]);
                if cursor_output_needs_sprite_retry(
                    inner.outputs[i].last_frame_cursor_mode,
                    pending.as_slice(),
                ) {
                    inner.outputs[i].force_show_retry_version = Some(version);
                    inner.outputs[i].force_cursor_retry_repaint();
                    any = true;
                    assert(plane_shows(start.outputs[i as int]));
                }
                proof {
                    if was {
                        let k = choose|k: int| 0 <= k < i && plane_shows(#[trigger] start.outputs[k]);
                        assert(plane_shows(start.outputs[k]));
                    }
                }
                i = i + 1;
            }
            self.scene_structure_dirty = true;
            assert(inner@.outputs =~= start.outputs.map_values(
                |o: OutputView| sprite_queued(o, version),
            ));
            assert(inner@.audits =~= start.audits);
            any
        } else {
            false
        }
    }

    // ── ticks ───────────────────────────────────────────────────────
    /// Starts a tick: for every output, whether an armed drawable can land on it.
    /// There is no tick where the renderer is gone.
    pub fn begin_tick(&self, store: &DrawableStore, renderer_failed: bool) -> (r: Result<
        Option<Vec<bool>>,
        SceneError,
    >)
        ensures
            match self@.inner {
                None => r == Err::<Option<Vec<bool>>, SceneError>(SceneError::NoVk),
                Some(i) => r is Ok && (match r->Ok_0 {
                    None => renderer_failed,
                    Some(flags) => !renderer_failed && flags@ == pending_flags(
                        armed_ids(store@.items),
                        i.outputs,
                    ),
                }),
            },
            r matches Ok(Some(flags)) ==> {
                let outs = self@.inner->0.outputs;
                &&& flags@.len() == outs.len()
                &&& forall|j: int, k: int|
                    0 <= j < store@.items.len() && 0 <= k < outs.len() && (
                    #[trigger] store@.items[j]).scene_participating && store@.items[j].dormant
                        is None && store@.items[j].damage.len() > 0 && outs[k].last_pieces.contains(
                        store@.items[j].id,
                    ) ==> #[trigger] flags@[k]
            },
    {
        proof {
            if self@.inner is Some {
                let outs = self@.inner->0.outputs;
                let flags = pending_flags(armed_ids(store@.items), outs);
                assert forall|j: int, k: int|
                    0 <= j < store@.items.len() && 0 <= k < outs.len() && (
                    #[trigger] store@.items[j]).scene_participating && store@.items[j].dormant
                        is None && store@.items[j].damage.len() > 0 && outs[k].last_pieces.contains(
                        store@.items[j].id,
                    ) implies #[trigger] flags[k] by {
                    new_paint_is_awaited_where_it_shows(store@, outs, j);
                }
            }
        }
        match &self.inner {
            None => Err(SceneError::NoVk),
            Some(inner) => {
                if renderer_failed {
                    return Ok(None);
                }
                let mut flags: Vec<bool> = Vec::new();
                let armed = store.armed_damaged_ids();
                let ghost views = inner@.outputs;
                let mut all: Vec<&IdSet> = Vec::new();
                let mut i: usize = 0;
                while i < inner.outputs.len()
                    invariant
                        self@.inner == Some(inner@),
                        i <= inner.outputs@.len(),
                        views == output_views(inner.outputs@),
                        all@.len() == i,
                        forall|k: int| 0 <= k < i ==> (#[trigger] all@[k])@ == views[k].last_pieces,
                    decreases inner.outputs@.len() - i,
                {
                    assert(views[i as int] == inner.outputs@[i as int]@);
                    all.push(&inner.outputs[i].last_pieces);
                    i = i + 1;
                }
                assert(sets_of(all@) =~= pieces_of(views));
                let mut j: usize = 0;
                while j < inner.outputs.len()
                    invariant
                        j <= inner.outputs@.len(),
                        views == output_views(inner.outputs@),
                        sets_of(all@) == pieces_of(views),
                        armed@ == armed_ids(store@.items),
                        flags@.len() == j,
                        forall|k: int|
                            0 <= k < j ==> #[trigger] flags@[k] == lands(
                                armed@,
                                views[k].last_pieces,
                                pieces_of(views),
                            ),
                    decreases inner.outputs@.len() - j,
                {
                    assert(views[j as int] == inner.outputs@[j as int]@);
                    flags.push(
                        pending_presentation_for_output(
                            armed.as_slice(),
                            &inner.outputs[j].last_pieces,
                            all.as_slice(),
                        ),
                    );
                    j = j + 1;
                }
                assert(flags@ =~= pending_flags(armed@, views));
                Ok(Some(flags))
            },
        }
    }

    /// Decides about a render completion. `output_idx` is where the output that it
    /// names is now, if it is still there.
    pub fn match_completion(
        &self,
        renderer_failed: bool,
        output_idx: Option<usize>,
        job_id: u64,
        bo_idx: usize,
    ) -> (r: CompletionStep)
        ensures
            r == completion_step(self@, renderer_failed, output_idx, job_id, bo_idx),
    {
        match &self.inner {
            None => CompletionStep::Ignored,
            Some(inner) => {
                if renderer_failed {
                    return CompletionStep::Ignored;
                }
                match output_idx {
                    None => CompletionStep::Ignored,
                    Some(idx) => {
                        if idx < inner.outputs.len() {
                            assert(inner@.outputs[idx as int] == inner.outputs@[idx as int]@);
                            if inner.outputs[idx].awaits_completion(job_id, bo_idx) {
                                return CompletionStep::Submit(idx);
                            }
                        }
                        CompletionStep::FailStop
                    },
                }
            },
        }
    }

    /// What the other outputs showed at their last walk.
    pub fn elsewhere(&self, output_idx: usize) -> (r: IdSet)
        ensures
            r@ == (match self@.inner {
                None => Set::<DrawableId>::empty(),
                Some(i) => shown_elsewhere(i.outputs, output_idx),
            }),
    {
        let mut r = IdSet::new();
        if let Some(inner) = &self.inner {
            let ghost views = inner@.outputs;
            let mut i: usize = 0;
            assert(r@ =~= shown_elsewhere(views.take(0), output_idx));
            while i < inner.outputs.len()
                invariant
                    i <= inner.outputs@.len(),
                    views == output_views(inner.outputs@),
                    r@ == shown_elsewhere(views.take(i as int), output_idx),
                decreases inner.outputs@.len() - i,
            {
                let ghost before = views.take(i as int);
                let ghost after = views.take(i + 1);
                assert(views[i as int] == inner.outputs@[i as int]@);
                let ghost had = r@;
                if i != output_idx {
                    r.extend(&inner.outputs[i].last_pieces);
                }
                proof {
                    assert forall|id: DrawableId| r@.contains(id) == shown_elsewhere(
                        after,
                        output_idx,
                    ).contains(id) by {
                        if had.contains(id) {
                            let k = choose|k: int|
                                0 <= k < before.len() && k != output_idx && (
                                #[trigger] before[k]).last_pieces.contains(id);
                            assert(after[k] == before[k]);
                        }
                        if i != output_idx && views[i as int].last_pieces.contains(id) {
                            assert(after[i as int].last_pieces.contains(id));
                        }
                        if shown_elsewhere(after, output_idx).contains(id) {
                            let k = choose|k: int|
                                0 <= k < after.len() && k != output_idx && (
                                #[trigger] after[k]).last_pieces.contains(id);
                            if k < i {
                                assert(before[k] == after[k]);
                            }
                        }
                    }
                    assert(r@ =~= shown_elsewhere(after, output_idx));
                }
                i = i + 1;
            }
            assert(views.take(i as int) =~= views);
        }
        r
    }

    /// Ends a tick: drawables that no output may present go dormant, and the
    /// scene counts as taken in if every output took it in.
    pub fn finish_tick(&mut self, progress: TickProgress, store: &mut DrawableStore) -> (composed:
        Vec<usize>)
        requires
            old(self)@.inner matches Some(i) ==> progress@.walked.len() == i.outputs.len(),
        ensures
            composed@ == progress@.composed,
            final(self)@ == (SceneView {
                dirty: if old(self)@.inner is Some && progress@.clear_dirty {
                    false
                } else {
                    old(self)@.dirty
                },
                ..old(self)@
            }),
            (match old(self)@.inner {
                None => final(store)@ == old(store)@,
                Some(i) => if progress@.walked.contains(true) {
                    let reports = walk_reports(i.outputs, progress@);
                    store_reconciled(
                        old(store)@,
                        final(store)@,
                        stays_armed(reports),
                        has_pieces(reports),
                    )
                } else {
                    final(store)@ == old(store)@
                },
            }),
    {
        if let Some(inner) = &self.inner {
            let ghost views = inner@.outputs;
            let none = IdSet::new();
            let mut reports: Vec<OutputWalkReport<'_>> = Vec::new();
            let mut any = false;
            let mut i: usize = 0;
            while i < inner.outputs.len()
                invariant
                    i <= inner.outputs@.len(),
                    views == output_views(inner.outputs@),
                    progress@.walked.len() == views.len(),
                    none@ == Set::<DrawableId>::empty(),
                    reports@.len() == i,
                    forall|k: int|
                        0 <= k < i ==> (#[trigger] reports@[k])@ == report_of(
                            views[k],
                            progress@.walked[k],
                            progress@.drawn,
                        ),
                    any == exists|k: int| 0 <= k < i && #[trigger] progress@.walked[k],
                decreases inner.outputs@.len() - i,
            {
                assert(views[i as int] == inner.outputs@[i as int]@);
                let walked = progress.walked[i];
                let ghost was = any;
                reports.push(
                    OutputWalkReport {
                        walked,
                        presented: if walked { &progress.drawn } else { &none },
                        last_pieces: &inner.outputs[i].last_pieces,
                    },
                );
                if walked {
                    any = true;
                    assert(progress@.walked[i as int]);
                }
                proof {
                    if was {
                        let k = choose|k: int| 0 <= k < i && #[trigger] progress@.walked[k];
                        assert(progress@.walked[k]);
                    }
                }
                i = i + 1;
            }
            assert(any == progress@.walked.contains(true)) by {
                if progress@.walked.contains(true) {
                    let k = choose|k: int|
                        0 <= k < progress@.walked.len() && progress@.walked[k] == true;
                    assert(progress@.walked[k]);
                }
                if any {
                    let k = choose|k: int| 0 <= k < i && #[trigger] progress@.walked[k];
                    assert(progress@.walked[k] == true);
                }
            }
            assert(reports_view(reports@) =~= walk_reports(views, progress@));
            if any {
                let (keep_armed, pieces) = dormancy_inputs(reports.as_slice());
                let _ = store.reconcile_offscreen_no_draw(&keep_armed, &pieces);
            }
            if progress.clear_dirty {
                self.scene_structure_dirty = false;
            }
        }
        progress.composed
    }
}

/// Whether an output could take a frame.
pub open spec fn ready(o: OutputView, now: u64) -> bool {
    o.pending_acks.len() == 0 && (match o.retry_at {
        Some(at) => now >= at,
        None => true,
    })
}

/// The plane changes of the frames in flight.
pub open spec fn transitions_of(acks: Seq<AckView>) -> Seq<Option<CursorTransition>> {
    acks.map_values(|a: AckView| a.transition)
}

/// Whether the plane of an output is not settled: a change is pending, or a show
/// is owed.
pub open spec fn plane_unsettled(o: OutputView) -> bool {
    o.show_retry is Some || exists|i: int|
        0 <= i < o.pending_acks.len() && (#[trigger] o.pending_acks[i]).transition is Some
}

/// Whether an output shows the cursor on its plane, or is about to.
pub open spec fn plane_shows(o: OutputView) -> bool {
    shows_sprite(o.cursor_mode, transitions_of(o.pending_acks))
}

/// An output after a new sprite came.
pub open spec fn sprite_queued(o: OutputView, version: u64) -> OutputView {
    if plane_shows(o) {
        repaint_forced(OutputView { show_retry: Some(version), ..o })
    } else {
        o
    }
}

/// The cursor modes of outputs.
pub open spec fn modes_of(outputs: Seq<OutputView>) -> Seq<OutputCursorMode> {
    outputs.map_values(|o: OutputView| o.cursor_mode)
}

proof fn lemma_modes(outputs: Seq<OutputView>)
    ensures
        plane_mode(modes_of(outputs)) == CursorPlaneMode::Hw ==> (forall|k: int|
            0 <= k < outputs.len() ==> (#[trigger] outputs[k]).cursor_mode is Hw
                || outputs[k].cursor_mode is Hidden) && exists|k: int|
            0 <= k < outputs.len() && (#[trigger] outputs[k]).cursor_mode is Hw,
{
    if plane_mode(modes_of(outputs)) == CursorPlaneMode::Hw {
        the_plane_moves_only_when_all_agree(outputs);
    }
}

proof fn lemma_left_by_client(s: Seq<OverlayEntry>, client: u32)
    ensures
        forall|i: int|
            0 <= i < without_client(s, client).len() ==> (
            #[trigger] without_client(s, client)[i]).client != client,
        (exists|i: int| 0 <= i < s.len() && (#[trigger] s[i]).client == client)
            ==> without_client(s, client).len() < s.len(),
        without_client(s, client).len() <= s.len(),
    decreases s.len(),
{
    if s.len() > 0 {
        let t = s.drop_last();
        lemma_left_by_client(t, client);
        if exists|i: int| 0 <= i < s.len() && (#[trigger] s[i]).client == client {
            let i = choose|i: int| 0 <= i < s.len() && (#[trigger] s[i]).client == client;
            if i < t.len() {
                assert(t[i].client == client);
            }
        }
    }
}

/// What had pieces on each output.
pub open spec fn pieces_of(outputs: Seq<OutputView>) -> Seq<Set<DrawableId>> {
    outputs.map_values(|o: OutputView| o.last_pieces)
}

/// Whether some of these drawables can land on an output.
pub open spec fn lands(
    armed: Seq<DrawableId>,
    mine: Set<DrawableId>,
    all: Seq<Set<DrawableId>>,
) -> bool {
    exists|i: int| 0 <= i < armed.len() && may_land(#[trigger] armed[i], mine, all)
}

/// For every output, whether some of these drawables can land on it.
pub open spec fn pending_flags(armed: Seq<DrawableId>, outputs: Seq<OutputView>) -> Seq<bool> {
    outputs.map_values(|o: OutputView| lands(armed, o.last_pieces, pieces_of(outputs)))
}

/// What becomes of a render completion: one that cannot be told apart from a
/// stale one stops the renderer, since nobody knows who owns the buffer.
pub open spec fn completion_step(
    v: SceneView,
    renderer_failed: bool,
    output_idx: Option<usize>,
    job_id: u64,
    bo_idx: usize,
) -> CompletionStep {
    match v.inner {
        None => CompletionStep::Ignored,
        Some(i) => match output_idx {
            None => CompletionStep::Ignored,
            Some(idx) => if renderer_failed {
                CompletionStep::Ignored
            } else if idx < i.outputs.len() && completion_awaited(
                i.outputs[idx as int],
                job_id,
                bo_idx,
            ) {
                CompletionStep::Submit(idx)
            } else {
                CompletionStep::FailStop
            },
        },
    }
}

/// What the other outputs showed.
pub open spec fn shown_elsewhere(outputs: Seq<OutputView>, output_idx: usize) -> Set<DrawableId> {
    Set::new(
        |id: DrawableId|
            exists|k: int|
                0 <= k < outputs.len() && k != output_idx && (
                #[trigger] outputs[k]).last_pieces.contains(id),
    )
}

fn transition_pending(o: &OutputSceneState) -> (r: bool)
    ensures
        r == exists|i: int|
            0 <= i < o@.pending_acks.len() && (#[trigger] o@.pending_acks[i]).transition is Some,
{
    let mut i: usize = 0;
    while i < o.pending_acks.len()
        invariant
            i <= o.pending_acks@.len(),
            forall|k: int| 0 <= k < i ==> (#[trigger] o@.pending_acks[k]).transition is None,
        decreases o.pending_acks@.len() - i,
    {
        assert(o@.pending_acks[i as int] == o.pending_acks@[i as int]@);
        if o.pending_acks[i].cursor_transition.is_some() {
            assert(o@.pending_acks[i as int].transition is Some);
            return true;
        }
        i = i + 1;
    }
    false
}

fn pending_transitions(o: &OutputSceneState) -> (r: Vec<Option<CursorTransition>>)
    ensures
        r@ == transitions_of(o@.pending_acks),
{
    let mut r: Vec<Option<CursorTransition>> = Vec::new();
    let mut i: usize = 0;
    while i < o.pending_acks.len()
        invariant
            i <= o.pending_acks@.len(),
            r@.len() == i,
            forall|k: int| 0 <= k < i ==> #[trigger] r@[k] == o@.pending_acks[k].transition,
        decreases o.pending_acks@.len() - i,
    {
        r.push(o.pending_acks[i].cursor_transition);
        i = i + 1;
    }
    assert(r@ =~= transitions_of(o@.pending_acks));
    r
}

// ── the progress of a tick ──────────────────────────────────────────
/// What a tick has come to so far.
pub struct TickProgress {
    /// The outputs that were composed.
    pub composed: Vec<usize>,
    /// Whether every output so far took the scene in.
    pub clear_dirty: bool,
    /// Which outputs were walked.
    pub walked: Vec<bool>,
    /// What the walks presented.
    pub drawn: IdSet,
}

/// The progress with views.
pub struct ProgressView {
    pub composed: Seq<usize>,
    pub clear_dirty: bool,
    pub walked: Seq<bool>,
    pub drawn: Set<DrawableId>,
}

impl View for TickProgress {
    type V = ProgressView;

    open spec fn view(&self) -> ProgressView {
        ProgressView {
            composed: self.composed@,
            clear_dirty: self.clear_dirty,
            walked: self.walked@,
            drawn: self.drawn@,
        }
    }
}

/// The progress of a tick over `n` outputs before the first.
pub open spec fn no_progress(n: nat) -> ProgressView {
    ProgressView {
        composed: Seq::empty(),
        clear_dirty: true,
        walked: Seq::new(n, |i: int| false),
        drawn: Set::empty(),
    }
}

/// The progress after an output came to an outcome.
pub open spec fn with_outcome(p: ProgressView, idx: usize, outcome: TickOutcome) -> ProgressView {
    ProgressView {
        composed: if outcome == TickOutcome::Composed { p.composed.push(idx) } else { p.composed },
        clear_dirty: p.clear_dirty && outcome.clears(),
        walked: p.walked.update(idx as int, outcome.did_walk()),
        ..p
    }
}

impl TickProgress {
    pub fn new(outputs: usize) -> (r: Self)
        ensures
            r@ == no_progress(outputs as nat),
    {
        let mut walked: Vec<bool> = Vec::new();
        let mut i: usize = 0;
        while i < outputs
            invariant
                i <= outputs,
                walked@.len() == i,
                forall|k: int| 0 <= k < i ==> !walked@[k],
            decreases outputs - i,
        {
            walked.push(false);
            i = i + 1;
        }
        assert(walked@ =~= no_progress(outputs as nat).walked);
        TickProgress { composed: Vec::new(), clear_dirty: true, walked, drawn: IdSet::new() }
    }

    /// A walk presented these.
    pub fn presented(&mut self, ids: &[DrawableId])
        ensures
            final(self)@ == (ProgressView {
                drawn: old(self)@.drawn.union(ids@.to_set()),
                ..old(self)@
            }),
    {
        self.drawn.extend_from(ids);
    }

    /// An output came to an outcome.
    pub fn outcome(&mut self, output_idx: usize, outcome: TickOutcome)
        requires
            output_idx < old(self)@.walked.len(),
        ensures
            final(self)@ == with_outcome(old(self)@, output_idx, outcome),
    {
        if outcome == TickOutcome::Composed {
            self.composed.push(output_idx);
        } else {
            self.clear_dirty = self.clear_dirty && outcome.clears_scene_structure_dirty();
        }
        self.walked.set(output_idx, outcome.walked());
    }

    /// An output could not be composed.
    pub fn failed(&mut self)
        ensures
            final(self)@ == (ProgressView { clear_dirty: false, ..old(self)@ }),
    {
        self.clear_dirty = false;
    }
}

/// What one output says about dormancy after a tick.
pub open spec fn report_of(o: OutputView, walked: bool, drawn: Set<DrawableId>) -> ReportView {
    ReportView {
        walked,
        presented: if walked { drawn } else { Set::empty() },
        last_pieces: o.last_pieces,
    }
}

/// What every output says about dormancy after a tick.
pub open spec fn walk_reports(outputs: Seq<OutputView>, p: ProgressView) -> Seq<ReportView> {
    Seq::new(outputs.len(), |i: int| report_of(outputs[i], p.walked[i], p.drawn))
}

/// Whether a store is another with its dormancy decided.
pub open spec fn store_reconciled(
    before: StoreView,
    after: StoreView,
    keep: Set<DrawableId>,
    pieces: Set<DrawableId>,
) -> bool {
    &&& after.ids == before.ids
    &&& after.items.len() == before.items.len()
    &&& forall|i: int|
        0 <= i < before.items.len() ==> #[trigger] after.items[i] == reconciled(
            before.items[i],
            keep,
            pieces,
        )
}

} // verus!
