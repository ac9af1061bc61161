//! Emission of one node: its draws, its sampled source, its damage and its
//! presence.

use vstd::prelude::*;

use crate::draw::CompositeDraw;
use crate::geometry::{
    clamp_len, intersect_rects, intersection, len_as_i32, project_onto_output, projection,
    union_bbox, Extent2D, Rect2D,
};
use crate::ids::{DrawableId, IdSet};
use crate::region::{boxes, rects_px, Region};
use crate::region_set::{bbox_of_list, list_add, RegionSet};
use crate::scene_diff::{
    presence_from_place, ParticipantId, PresenceSignature, ScenePresence, SourceRect,
};
use crate::store::{DamageSnapshot, DrawableStore, SnapshotView, StoreView};
use crate::walk::{bump, bump_by, sat_add, sat_i32, to_i32, ContentDamage, Visibility, WalkStats};

verus! {

/// A presence as contracts see it.
pub struct PresenceView {
    pub id: ParticipantId,
    pub region: Set<(int, int)>,
    pub place: Seq<Rect2D>,
    pub visible: Set<(int, int)>,
    pub signature: PresenceSignature,
}

impl View for ScenePresence {
    type V = PresenceView;

    open spec fn view(&self) -> PresenceView {
        PresenceView {
            id: self.id,
            region: self.region@,
            place: self.place@,
            visible: self.visible@,
            signature: self.signature,
        }
    }
}

/// Everything the walk produces, in computation order until it is reversed.
#[derive(Debug)]
pub struct WalkSink {
    pub draws: Vec<CompositeDraw>,
    pub snapshots: Vec<DamageSnapshot>,
    pub sampled_ids: Vec<DrawableId>,
    pub projected: RegionSet,
    pub participants: Vec<ScenePresence>,
    pub stats: WalkStats,
    /// Sampled sources whose pending damage this output presented, or that had
    /// none.
    pub presented_ids: Vec<DrawableId>,
    /// Sampled sources that emitted at least one piece.
    pub pieces_ids: Vec<DrawableId>,
}

/// The sink as contracts see it.
pub struct SinkView {
    pub draws: Seq<CompositeDraw>,
    pub snapshots: Seq<SnapshotView>,
    pub sampled_ids: Seq<DrawableId>,
    pub projected: Seq<Rect2D>,
    pub participants: Seq<PresenceView>,
    pub stats: WalkStats,
    pub presented_ids: Seq<DrawableId>,
    pub pieces_ids: Seq<DrawableId>,
}

/// Snapshots as contracts see them.
pub open spec fn snaps_view(s: Seq<DamageSnapshot>) -> Seq<SnapshotView> {
    Seq::new(s.len(), |i: int| s[i]@)
}

/// Presences as contracts see them.
pub open spec fn presences_view(s: Seq<ScenePresence>) -> Seq<PresenceView> {
    Seq::new(s.len(), |i: int| s[i]@)
}

impl View for WalkSink {
    type V = SinkView;

    open spec fn view(&self) -> SinkView {
        SinkView {
            draws: self.draws@,
            snapshots: snaps_view(self.snapshots@),
            sampled_ids: self.sampled_ids@,
            projected: self.projected@,
            participants: presences_view(self.participants@),
            stats: self.stats,
            presented_ids: self.presented_ids@,
            pieces_ids: self.pieces_ids@,
        }
    }
}

/// A sink without anything in it.
pub open spec fn empty_sink() -> SinkView {
    SinkView {
        draws: Seq::empty(),
        snapshots: Seq::empty(),
        sampled_ids: Seq::empty(),
        projected: Seq::empty(),
        participants: Seq::empty(),
        stats: WalkStats::zero(),
        presented_ids: Seq::empty(),
        pieces_ids: Seq::empty(),
    }
}

impl WalkSink {
    pub fn new() -> (r: Self)
        ensures
            r@ == empty_sink(),
    {
        let r = WalkSink {
            draws: Vec::new(),
            snapshots: Vec::new(),
            sampled_ids: Vec::new(),
            projected: RegionSet::new(),
            participants: Vec::new(),
            stats: WalkStats::default(),
            presented_ids: Vec::new(),
            pieces_ids: Vec::new(),
        };
        assert(r@.snapshots =~= Seq::<SnapshotView>::empty());
        assert(r@.participants =~= Seq::<PresenceView>::empty());
        r
    }

    /// Computation order to painter's order.
    pub fn reverse(&mut self)
        ensures
            final(self)@ == reversed_sink(old(self)@),
    {
        reverse_in_place(&mut self.draws);
        reverse_in_place(&mut self.snapshots);
        reverse_in_place(&mut self.sampled_ids);
        reverse_in_place(&mut self.participants);
        reverse_in_place(&mut self.presented_ids);
        reverse_in_place(&mut self.pieces_ids);
        assert(self@.snapshots =~= old(self)@.snapshots.reverse());
        assert(self@.participants =~= old(self)@.participants.reverse());
    }
}

/// The lists in painter's order.
pub open spec fn reversed_sink(s: SinkView) -> SinkView {
    SinkView {
        draws: s.draws.reverse(),
        snapshots: s.snapshots.reverse(),
        sampled_ids: s.sampled_ids.reverse(),
        participants: s.participants.reverse(),
        presented_ids: s.presented_ids.reverse(),
        pieces_ids: s.pieces_ids.reverse(),
        ..s
    }
}

fn reverse_in_place<T>(v: &mut Vec<T>)
    ensures
        final(v)@ == old(v)@.reverse(),
{
    let ghost s = v@;
    let mut out: Vec<T> = Vec::new();
    while v.len() > 0
        invariant
            s == old(v)@,
            v@.len() + out@.len() == s.len(),
            v@ == s.take(v@.len() as int),
            forall|i: int| 0 <= i < out@.len() ==> #[trigger] out@[i] == s[s.len() - 1 - i],
        decreases v.len(),
    {
        let ghost n = v@.len();
        let x = v.pop().unwrap();
        assert(x == s[n - 1]);
        assert(v@ =~= s.take(n - 1));
        out.push(x);
    }
    assert(out@ =~= s.reverse());
    *v = out;
}

/// One quad for one output-local piece of a node: it samples exactly the texels
/// that lie under it when the node's origin is at `(dx, dy)`.
pub open spec fn piece_quad(
    piece: Rect2D,
    dx: int,
    dy: int,
    denom_w: i32,
    denom_h: i32,
    view: u64,
    alpha_passthrough: bool,
) -> CompositeDraw {
    CompositeDraw {
        image_view: view,
        dst: Rect2D {
            offset: piece.offset,
            extent: Extent2D {
                width: clamp_len(piece.extent.width) as u32,
                height: clamp_len(piece.extent.height) as u32,
            },
        },
        source: SourceRect {
            x: sat_i32(piece.offset.x - dx),
            y: sat_i32(piece.offset.y - dy),
            width: clamp_len(piece.extent.width) as i32,
            height: clamp_len(piece.extent.height) as i32,
            of_width: denom_w,
            of_height: denom_h,
        },
        alpha_passthrough,
    }
}

/// Builds [`piece_quad`].
pub fn piece_draw(
    piece: Rect2D,
    dx: i32,
    dy: i32,
    denom_w: i32,
    denom_h: i32,
    view: u64,
    alpha_passthrough: bool,
) -> (r: CompositeDraw)
    ensures
        r == piece_quad(piece, dx as int, dy as int, denom_w, denom_h, view, alpha_passthrough),
{
    let w = len_as_i32(piece.extent.width);
    let h = len_as_i32(piece.extent.height);
    CompositeDraw {
        image_view: view,
        dst: Rect2D {
            offset: piece.offset,
            extent: Extent2D { width: w as u32, height: h as u32 },
        },
        source: SourceRect {
            x: to_i32(piece.offset.x as i64 - dx as i64),
            y: to_i32(piece.offset.y as i64 - dy as i64),
            width: w,
            height: h,
            of_width: denom_w,
            of_height: denom_h,
        },
        alpha_passthrough,
    }
}

/// How one node is drawn.
#[derive(Clone, Copy, Debug, PartialEq, Eq, Structural)]
pub struct NodePaint {
    /// Output-local origin of the node.
    pub dx: i32,
    pub dy: i32,
    /// What source coordinates are divided by.
    pub denom_w: i32,
    pub denom_h: i32,
    pub view: u64,
    pub alpha_passthrough: bool,
    pub source_id: DrawableId,
}

/// The quad of one piece of a node.
pub open spec fn quad_of(n: NodePaint, piece: Rect2D) -> CompositeDraw {
    piece_quad(
        piece,
        n.dx as int,
        n.dy as int,
        n.denom_w,
        n.denom_h,
        n.view,
        n.alpha_passthrough,
    )
}

/// The visible pieces of a node: what of each place rect lies in `mine`, last
/// rect first.
pub open spec fn visible_pieces(mine: Set<(int, int)>, place: Seq<Rect2D>) -> Seq<Rect2D>
    decreases place.len(),
{
    if place.len() == 0 {
        Seq::empty()
    } else {
        boxes(mine.intersect(place.last().px())) + visible_pieces(mine, place.drop_last())
    }
}

/// The rects a node draws, in emission order.
pub open spec fn drawn_rects(
    mode: Visibility,
    mine: Set<(int, int)>,
    place: Seq<Rect2D>,
) -> Seq<Rect2D> {
    match mode {
        Visibility::Off => place.reverse(),
        Visibility::On => visible_pieces(mine, place),
    }
}

/// Draws for a list of rects.
pub open spec fn quads(n: NodePaint, rects: Seq<Rect2D>) -> Seq<CompositeDraw> {
    Seq::new(rects.len(), |i: int| quad_of(n, rects[i]))
}

/// The visible summary of a node: its place, or the bounding box of its pieces.
pub open spec fn visible_px(
    mode: Visibility,
    mine: Set<(int, int)>,
    place: Seq<Rect2D>,
) -> Set<(int, int)> {
    match mode {
        Visibility::Off => rects_px(place),
        Visibility::On => {
            let pieces = visible_pieces(mine, place);
            if pieces.len() == 0 { Set::empty() } else { bbox_of_list(pieces).px() }
        },
    }
}

/// The list of projected damage after `p` was clipped to the pieces, and whether
/// it met one.
pub open spec fn clip_to_pieces(
    list: Seq<Rect2D>,
    p: Rect2D,
    pieces: Seq<Rect2D>,
) -> (Seq<Rect2D>, bool)
    decreases pieces.len(),
{
    if pieces.len() == 0 {
        (list, false)
    } else {
        let (l, hit) = clip_to_pieces(list, p, pieces.drop_last());
        match intersection(p, pieces.last()) {
            Some(h) => (list_add(l, h), true),
            None => (l, hit),
        }
    }
}

/// Projecting captured damage: the list, whether anything fell on the output,
/// and whether anything was added.
pub open spec fn project_damage(
    mode: Visibility,
    list: Seq<Rect2D>,
    region: Seq<Rect2D>,
    n: NodePaint,
    pieces: Seq<Rect2D>,
    ext: Extent2D,
) -> (Seq<Rect2D>, bool, bool)
    decreases region.len(),
{
    if region.len() == 0 {
        (list, false, false)
    } else {
        let (l, on_output, added) = project_damage(
            mode,
            list,
            region.drop_last(),
            n,
            pieces,
            ext,
        );
        match projection(region.last(), n.dx as int, n.dy as int, ext.width, ext.height) {
            None => (l, on_output, added),
            Some(p) => match mode {
                Visibility::Off => (list_add(l, p), true, true),
                Visibility::On => {
                    let (l2, hit) = clip_to_pieces(l, p, pieces);
                    (l2, true, added || hit)
                },
            },
        }
    }
}

/// The class of captured damage.
pub open spec fn classify(on_output: bool, added: bool, elsewhere: bool) -> ContentDamage {
    if !on_output {
        if elsewhere { ContentDamage::OtherOutput } else { ContentDamage::OffOutput }
    } else if added {
        ContentDamage::Visible
    } else {
        ContentDamage::Hidden
    }
}

/// The counters after one more snapshot of a class.
pub open spec fn count_class(s: WalkStats, c: ContentDamage) -> WalkStats {
    match c {
        ContentDamage::Visible => WalkStats { content_visible: sat_add(s.content_visible, 1), ..s },
        ContentDamage::Hidden => WalkStats { content_hidden: sat_add(s.content_hidden, 1), ..s },
        ContentDamage::OffOutput => WalkStats {
            content_off_output: sat_add(s.content_off_output, 1),
            ..s
        },
        ContentDamage::OtherOutput => WalkStats {
            content_other_output: sat_add(s.content_other_output, 1),
            ..s
        },
    }
}

/// The sink after a node's captured damage was accounted for. Only damage that
/// reached the screen here, or none at all, is presented and carried.
pub open spec fn present_damage(
    s: SinkView,
    mode: Visibility,
    snap: Option<SnapshotView>,
    n: NodePaint,
    pieces: Seq<Rect2D>,
    ext: Extent2D,
    elsewhere: Set<DrawableId>,
) -> SinkView {
    match snap {
        None => SinkView { presented_ids: s.presented_ids.push(n.source_id), ..s },
        Some(snap) => {
            let (list, on_output, added) = project_damage(
                mode,
                s.projected,
                snap.region,
                n,
                pieces,
                ext,
            );
            let class = classify(on_output, added, elsewhere.contains(n.source_id));
            let stats = if snap.region.len() == 0 { s.stats } else { count_class(s.stats, class) };
            if snap.region.len() == 0 || class == ContentDamage::Visible {
                SinkView {
                    projected: list,
                    stats,
                    presented_ids: s.presented_ids.push(n.source_id),
                    snapshots: s.snapshots.push(snap),
                    ..s
                }
            } else {
                SinkView { projected: list, stats, ..s }
            }
        },
    }
}

/// The sink after a node was emitted.
pub open spec fn emitted_sink(
    s: SinkView,
    mode: Visibility,
    mine: Set<(int, int)>,
    place: Seq<Rect2D>,
    n: NodePaint,
    store: StoreView,
    ext: Extent2D,
    elsewhere: Set<DrawableId>,
) -> SinkView {
    let rects = drawn_rects(mode, mine, place);
    let stats = WalkStats {
        draws_emitted: sat_add(s.stats.draws_emitted, rects.len()),
        hidden_participants: if rects.len() == 0 {
            sat_add(s.stats.hidden_participants, 1)
        } else {
            s.stats.hidden_participants
        },
        ..s.stats
    };
    let t = SinkView {
        draws: s.draws + quads(n, rects),
        sampled_ids: s.sampled_ids.push(n.source_id),
        pieces_ids: if rects.len() == 0 {
            s.pieces_ids
        } else {
            s.pieces_ids.push(n.source_id)
        },
        stats,
        ..s
    };
    let pieces = match mode {
        Visibility::Off => Seq::empty(),
        Visibility::On => visible_pieces(mine, place),
    };
    present_damage(t, mode, store.peek(n.source_id), n, pieces, ext, elsewhere)
}

/// The signature of a node: what its unclipped first rect would sample.
pub open spec fn signature_of(n: NodePaint, place: Seq<Rect2D>) -> Option<PresenceSignature> {
    if place.len() == 0 {
        None
    } else {
        Some(
            PresenceSignature {
                sample_view: n.view,
                source: quad_of(n, place[0]).source,
                alpha_passthrough: n.alpha_passthrough,
            },
        )
    }
}

/// What [`emit_node`] hands back for the caller to finish the node with.
#[derive(Debug)]
pub struct Emitted {
    /// Draws pushed.
    pub emitted: usize,
    pub visible: Region,
    /// `None` only for a node without place rects.
    pub signature: Option<PresenceSignature>,
}

fn emit_draws(
    sink: &mut WalkSink,
    mode: Visibility,
    mine: &Region,
    place: &Vec<Rect2D>,
    n: NodePaint,
) -> (pieces: Vec<Rect2D>)
    ensures
        mode == Visibility::On ==> pieces@ == visible_pieces(mine@, place@),
        mode == Visibility::Off ==> pieces@ == Seq::<Rect2D>::empty(),
        final(sink)@ == (SinkView {
            draws: old(sink)@.draws + quads(n, drawn_rects(mode, mine@, place@)),
            ..old(sink)@
        }),
{
    let mut pieces: Vec<Rect2D> = Vec::new();
    let mut i: usize = place.len();
    let ghost before = sink@;
    let ghost mut rects = Seq::<Rect2D>::empty();
    assert(sink.draws@ =~= before.draws + quads(n, rects));
    assert(place@.take(i as int) =~= place@);
    assert(visible_pieces(mine@, place@) =~= pieces@ + visible_pieces(
        mine@,
        place@.take(i as int),
    ));
    while i > 0
        invariant
            i <= place@.len(),
            sink@ == (SinkView { draws: before.draws + quads(n, rects), ..before }),
            mode == Visibility::On ==> {
                &&& rects == pieces@
                &&& visible_pieces(mine@, place@) == pieces@ + visible_pieces(
                    mine@,
                    place@.take(i as int),
                )
            },
            mode == Visibility::Off ==> {
                &&& pieces@ == Seq::<Rect2D>::empty()
                &&& rects.len() == place@.len() - i
                &&& forall|k: int|
                    0 <= k < rects.len() ==> #[trigger] rects[k] == place@[place@.len() - 1 - k]
            },
        decreases i,
    {
        let r = place[i - 1];
        assert(place@.take(i as int).drop_last() =~= place@.take(i - 1));
        assert(place@.take(i as int).last() == r);
        match mode {
            Visibility::Off => {
                sink.draws.push(
                    piece_draw(
                        r,
                        n.dx,
                        n.dy,
                        n.denom_w,
                        n.denom_h,
                        n.view,
                        n.alpha_passthrough,
                    ),
                );
                proof {
                    let next = rects.push(r);
                    assert(quads(n, next) =~= quads(n, rects).push(quad_of(n, r)));
                    assert(sink.draws@ =~= before.draws + quads(n, next));
                    rects = next;
                }
            },
            Visibility::On => {
                let vis = mine.clip_to_rect(r);
                let b = vis.rects();
                let ghost start = rects;
                let mut j: usize = 0;
                assert(start + b@.take(0) =~= start);
                while j < b.len()
                    invariant
                        j <= b@.len(),
                        sink@ == (SinkView { draws: before.draws + quads(n, rects), ..before }),
                        rects == start + b@.take(j as int),
                        pieces@ == rects,
                    decreases b.len() - j,
                {
                    sink.draws.push(
                        piece_draw(
                            b[j],
                            n.dx,
                            n.dy,
                            n.denom_w,
                            n.denom_h,
                            n.view,
                            n.alpha_passthrough,
                        ),
                    );
                    pieces.push(b[j]);
                    proof {
                        let next = rects.push(b@[j as int]);
                        assert(quads(n, next) =~= quads(n, rects).push(quad_of(n, b@[j as int])));
                        assert(sink.draws@ =~= before.draws + quads(n, next));
                        assert(next =~= start + b@.take(j + 1));
                        rects = next;
                    }
                    j = j + 1;
                }
                proof {
                    assert(b@.take(j as int) =~= b@);
                    assert(start + (b@ + visible_pieces(mine@, place@.take(i - 1))) =~= (start + b@)
                        + visible_pieces(mine@, place@.take(i - 1)));
                }
            },
        }
        i = i - 1;
    }
    proof {
        assert(place@.take(0) =~= Seq::<Rect2D>::empty());
        if mode == Visibility::On {
            assert(pieces@ + Seq::<Rect2D>::empty() =~= pieces@);
        } else {
            assert(rects =~= place@.reverse());
        }
        assert(rects == drawn_rects(mode, mine@, place@));
    }
    pieces
}

fn bounding_of(pieces: &Vec<Rect2D>) -> (r: Region)
    ensures
        r@ == (if pieces@.len() == 0 {
            Set::<(int, int)>::empty()
        } else {
            bbox_of_list(pieces@).px()
        }),
{
    if pieces.len() == 0 {
        return Region::new();
    }
    let mut b = pieces[0];
    let mut i: usize = 1;
    while i < pieces.len()
        invariant
            1 <= i <= pieces@.len(),
            b == bbox_of_list(pieces@.take(i as int)),
        decreases pieces.len() - i,
    {
        assert(pieces@.take(i + 1).drop_last() =~= pieces@.take(i as int));
        b = union_bbox(b, pieces[i]);
        i = i + 1;
    }
    assert(pieces@.take(i as int) =~= pieces@);
    Region::from_rect(b)
}

fn add_hits(list: &mut RegionSet, p: Rect2D, pieces: &Vec<Rect2D>) -> (hit: bool)
    ensures
        (final(list)@, hit) == clip_to_pieces(old(list)@, p, pieces@),
{
    let mut hit = false;
    let ghost before = list@;
    let mut i: usize = 0;
    assert(pieces@.take(0) =~= Seq::<Rect2D>::empty());
    while i < pieces.len()
        invariant
            i <= pieces@.len(),
            (list@, hit) == clip_to_pieces(before, p, pieces@.take(i as int)),
        decreases pieces.len() - i,
    {
        assert(pieces@.take(i + 1).drop_last() =~= pieces@.take(i as int));
        if let Some(h) = intersect_rects(p, pieces[i]) {
            list.add(h);
            hit = true;
        }
        i = i + 1;
    }
    assert(pieces@.take(i as int) =~= pieces@);
    hit
}

fn project_snapshot(
    list: &mut RegionSet,
    mode: Visibility,
    region: &RegionSet,
    n: NodePaint,
    pieces: &Vec<Rect2D>,
    ext: Extent2D,
) -> (r: (bool, bool))
    ensures
        (final(list)@, r.0, r.1) == project_damage(mode, old(list)@, region@, n, pieces@, ext),
{
    let mut on_output = false;
    let mut added = false;
    let ghost before = list@;
    let rects = region.rects();
    let mut i: usize = 0;
    assert(rects@.take(0) =~= Seq::<Rect2D>::empty());
    while i < rects.len()
        invariant
            i <= rects@.len(),
            rects@ == region@,
            (list@, on_output, added) == project_damage(
                mode,
                before,
                rects@.take(i as int),
                n,
                pieces@,
                ext,
            ),
        decreases rects.len() - i,
    {
        assert(rects@.take(i + 1).drop_last() =~= rects@.take(i as int));
        if let Some(p) = project_onto_output(rects[i], n.dx, n.dy, ext.width, ext.height) {
            on_output = true;
            match mode {
                Visibility::Off => {
                    list.add(p);
                    added = true;
                },
                Visibility::On => {
                    let hit = add_hits(list, p, pieces);
                    added = added || hit;
                },
            }
        }
        i = i + 1;
    }
    assert(rects@.take(i as int) =~= rects@);
    (on_output, added)
}

fn content_class(on_output: bool, added: bool, elsewhere: bool) -> (r: ContentDamage)
    ensures
        r == classify(on_output, added, elsewhere),
{
    if !on_output {
        if elsewhere { ContentDamage::OtherOutput } else { ContentDamage::OffOutput }
    } else if added {
        ContentDamage::Visible
    } else {
        ContentDamage::Hidden
    }
}

/// Emits one node that passed every gate: its draws (clipped to `mine` with
/// visibility on), its sampled id and its damage snapshot. A node without draws
/// is still a participant.
pub fn emit_node(
    sink: &mut WalkSink,
    mode: Visibility,
    mine: &Region,
    place: &Vec<Rect2D>,
    n: NodePaint,
    store: &DrawableStore,
    ext: Extent2D,
    elsewhere: &IdSet,
) -> (out: Emitted)
    ensures
        final(sink)@ == emitted_sink(
            old(sink)@,
            mode,
            mine@,
            place@,
            n,
            store@,
            ext,
            elsewhere@,
        ),
        out.emitted == drawn_rects(mode, mine@, place@).len(),
        out.visible@ == visible_px(mode, mine@, place@),
        out.signature == signature_of(n, place@),
{
    let start = sink.draws.len();
    let pieces = emit_draws(sink, mode, mine, place, n);
    let emitted = sink.draws.len() - start;
    let visible = match mode {
        Visibility::Off => Region::from_rects(place.as_slice()),
        Visibility::On => bounding_of(&pieces),
    };
    sink.stats.draws_emitted = bump_by(sink.stats.draws_emitted, emitted);
    if emitted == 0 {
        sink.stats.hidden_participants = bump(sink.stats.hidden_participants);
    } else {
        sink.pieces_ids.push(n.source_id);
    }
    sink.sampled_ids.push(n.source_id);
    let signature = if place.len() == 0 {
        None
    } else {
        let unclipped = piece_draw(
            place[0],
            n.dx,
            n.dy,
            n.denom_w,
            n.denom_h,
            n.view,
            n.alpha_passthrough,
        );
        Some(
            PresenceSignature::new(
                unclipped.image_view,
                unclipped.source,
                unclipped.alpha_passthrough,
            ),
        )
    };
    let ghost mid = sink@;
    match store.peek_presentation_damage(n.source_id) {
        Some(snap) => {
            let (on_output, added) = project_snapshot(
                &mut sink.projected,
                mode,
                &snap.region,
                n,
                &pieces,
                ext,
            );
            let mut presented = true;
            if !snap.region.is_empty() {
                let class = content_class(on_output, added, elsewhere.contains(n.source_id));
                match class {
                    ContentDamage::Visible => {
                        sink.stats.content_visible = bump(sink.stats.content_visible);
                    },
                    ContentDamage::Hidden => {
                        sink.stats.content_hidden = bump(sink.stats.content_hidden);
                        presented = false;
                    },
                    ContentDamage::OffOutput => {
                        sink.stats.content_off_output = bump(sink.stats.content_off_output);
                        presented = false;
                    },
                    ContentDamage::OtherOutput => {
                        sink.stats.content_other_output = bump(sink.stats.content_other_output);
                        presented = false;
                    },
                }
            }
            if presented {
                sink.presented_ids.push(n.source_id);
                sink.snapshots.push(snap);
                assert(sink@.snapshots =~= mid.snapshots.push(snap@));
            }
        },
        None => {
            sink.presented_ids.push(n.source_id);
        },
    }
    Emitted { emitted, visible, signature }
}

/// The participants after a node's presence was pushed.
pub open spec fn presence_pushed(
    s: SinkView,
    place: Seq<Rect2D>,
    visible: Set<(int, int)>,
    signature: Option<PresenceSignature>,
    id: ParticipantId,
) -> SinkView {
    match signature {
        Some(signature) => if rects_px(place) == Set::<(int, int)>::empty() {
            s
        } else {
            SinkView {
                participants: s.participants.push(
                    PresenceView { id, region: rects_px(place), place, visible, signature },
                ),
                ..s
            }
        },
        None => s,
    }
}

/// Pushes the node's presence, consuming its `place`.
pub fn push_presence(sink: &mut WalkSink, place: Vec<Rect2D>, out: Emitted, participant: ParticipantId)
    ensures
        final(sink)@ == presence_pushed(
            old(sink)@,
            place@,
            out.visible@,
            out.signature,
            participant,
        ),
{
    if let Some(signature) = out.signature {
        if let Some(p) = presence_from_place(place, out.visible, participant, signature) {
            sink.participants.push(p);
            assert(sink@.participants =~= old(sink)@.participants.push(p@));
        }
    }
}

} // verus!
