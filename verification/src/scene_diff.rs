//! Structural damage derived by diffing the emitted scene against the last
//! presented one.
//!
//! The previous frame's participants are kept and compared with this frame's.
//! Whatever appeared, vanished, moved or changed what it samples owes its old
//! and new placement; a change of stacking alone owes only the overlap of the
//! participants whose order flipped. Content damage, the cursor and the root
//! overlay are separate producers and do not show up here.

use vstd::prelude::*;

use crate::geometry::Rect2D;
use crate::region::{bbox_px, capped, lemma_bbox_inside, lemma_bbox_superset, lemma_capped, Region};

verus! {

/// What kind of thing a scene participant is.
#[derive(Clone, Copy, Debug, PartialEq, Eq, Hash, Structural)]
pub enum SceneRole {
    Root,
    Window,
}

/// Identity of a scene participant, stable across frames. `generation` tells a
/// window from an earlier one that had the same `xid`.
#[derive(Clone, Copy, Debug, PartialEq, Eq, Hash, Structural)]
pub struct ParticipantId {
    pub role: SceneRole,
    pub xid: u32,
    pub generation: u64,
}

/// The texels a draw samples: a rectangle of the source's own pixels, and the
/// extent it is divided by to give normalised coordinates.
#[derive(Clone, Copy, Debug)]
pub struct SourceRect {
    pub x: i32,
    pub y: i32,
    pub width: i32,
    pub height: i32,
    pub of_width: i32,
    pub of_height: i32,
}

/// The sign of an integer.
pub open spec fn sign_of(a: int) -> int {
    if a < 0 {
        -1
    } else if a > 0 {
        1
    } else {
        0
    }
}

/// Whether `a / b` and `c / d` are the same quotient. A quotient by zero only
/// has a sign.
pub open spec fn same_quotient(a: int, b: int, c: int, d: int) -> bool {
    if b == 0 || d == 0 {
        b == d && sign_of(a) == sign_of(c)
    } else {
        a * d == c * b
    }
}

fn sign_i32(a: i32) -> (r: i32)
    ensures
        r == sign_of(a as int),
{
    if a < 0 {
        -1
    } else if a > 0 {
        1
    } else {
        0
    }
}

fn quotients_equal(a: i32, b: i32, c: i32, d: i32) -> (r: bool)
    ensures
        r == same_quotient(a as int, b as int, c as int, d as int),
{
    if b == 0 || d == 0 {
        b == d && sign_i32(a) == sign_i32(c)
    } else {
        let (a, b, c, d) = (a as i64, b as i64, c as i64, d as i64);
        assert(-0x4000_0000_0000_0000 <= a * d <= 0x4000_0000_0000_0000) by (nonlinear_arith)
            requires
                -0x8000_0000 <= a <= 0x8000_0000,
                -0x8000_0000 <= d <= 0x8000_0000,
        ;
        assert(-0x4000_0000_0000_0000 <= c * b <= 0x4000_0000_0000_0000) by (nonlinear_arith)
            requires
                -0x8000_0000 <= c <= 0x8000_0000,
                -0x8000_0000 <= b <= 0x8000_0000,
        ;
        a * d == c * b
    }
}

impl SourceRect {
    /// Whether two source rectangles give the same normalised coordinates.
    pub open spec fn same(self, o: SourceRect) -> bool {
        &&& same_quotient(self.x as int, self.of_width as int, o.x as int, o.of_width as int)
        &&& same_quotient(self.y as int, self.of_height as int, o.y as int, o.of_height as int)
        &&& same_quotient(self.width as int, self.of_width as int, o.width as int, o.of_width as int)
        &&& same_quotient(
            self.height as int,
            self.of_height as int,
            o.height as int,
            o.of_height as int,
        )
    }

    /// The whole source.
    pub fn full() -> (r: SourceRect)
        ensures
            r == (SourceRect { x: 0, y: 0, width: 1, height: 1, of_width: 1, of_height: 1 }),
    {
        SourceRect { x: 0, y: 0, width: 1, height: 1, of_width: 1, of_height: 1 }
    }
}

impl PartialEq for SourceRect {
    fn eq(&self, other: &Self) -> (r: bool) {
        quotients_equal(self.x, self.of_width, other.x, other.of_width) && quotients_equal(
            self.y,
            self.of_height,
            other.y,
            other.of_height,
        ) && quotients_equal(self.width, self.of_width, other.width, other.of_width)
            && quotients_equal(self.height, self.of_height, other.height, other.of_height)
    }
}

impl vstd::std_specs::cmp::PartialEqSpecImpl for SourceRect {
    open spec fn obeys_eq_spec() -> bool {
        true
    }

    open spec fn eq_spec(&self, other: &Self) -> bool {
        self.same(*other)
    }
}

/// Everything about a participant that changes what its pixels look like
/// without changing where they are.
#[derive(Clone, Copy, Debug)]
pub struct PresenceSignature {
    /// The sample-side view the scene binds.
    pub sample_view: u64,
    pub source: SourceRect,
    pub alpha_passthrough: bool,
}

impl PresenceSignature {
    /// Whether two participants sample the same texels in the same way.
    pub open spec fn same(self, o: PresenceSignature) -> bool {
        self.sample_view == o.sample_view && self.source.same(o.source) && self.alpha_passthrough
            == o.alpha_passthrough
    }

    pub fn new(sample_view: u64, source: SourceRect, alpha_passthrough: bool) -> (r: Self)
        ensures
            r == (PresenceSignature { sample_view, source, alpha_passthrough }),
    {
        PresenceSignature { sample_view, source, alpha_passthrough }
    }
}

impl PartialEq for PresenceSignature {
    fn eq(&self, other: &Self) -> (r: bool) {
        self.sample_view == other.sample_view && self.source == other.source
            && self.alpha_passthrough == other.alpha_passthrough
    }
}

impl vstd::std_specs::cmp::PartialEqSpecImpl for PresenceSignature {
    open spec fn obeys_eq_spec() -> bool {
        true
    }

    open spec fn eq_spec(&self, other: &Self) -> bool {
        self.same(*other)
    }
}

/// One participant's footprint in one frame's scene.
#[derive(Debug)]
pub struct ScenePresence {
    pub id: ParticipantId,
    /// Placement (unclipped by occlusion), output-local, as a region.
    pub region: Region,
    /// The exact placement rects, in emission order: the participant's identity
    /// for the diff, which `region` cannot be once it is collapsed.
    pub place: Vec<Rect2D>,
    /// What of `region` nothing above covers. Empty for a fully hidden
    /// participant, which is still a participant. Not read by the diff.
    pub visible: Region,
    pub signature: PresenceSignature,
}

impl Clone for ScenePresence {
    fn clone(&self) -> (r: Self)
        ensures
            r.id == self.id,
            r.region@ == self.region@,
            r.place@ == self.place@,
            r.visible@ == self.visible@,
            r.signature == self.signature,
    {
        let place = self.place.clone();
        assert(place@ =~= self.place@);
        ScenePresence {
            id: self.id,
            region: self.region.clone(),
            place,
            visible: self.visible.clone(),
            signature: self.signature,
        }
    }
}

/// Builds a presence from a participant's placement rects, `None` when it
/// occupies nothing.
pub fn presence_from_place(
    place: Vec<Rect2D>,
    visible: Region,
    id: ParticipantId,
    signature: PresenceSignature,
) -> (r: Option<ScenePresence>)
    ensures
        r is None <==> crate::region::rects_px(place@) == Set::<(int, int)>::empty(),
        r matches Some(p) ==> {
            &&& p.id == id
            &&& p.region@ == crate::region::rects_px(place@)
            &&& p.place@ == place@
            &&& p.visible@ == visible@
            &&& p.signature == signature
        },
{
    let region = Region::from_rects(place.as_slice());
    if region.is_empty() {
        return None;
    }
    Some(ScenePresence { id, region, place, visible, signature })
}

// ── lookups by identity ─────────────────────────────────────────────
/// Whether a participant of this identity is in the list.
pub open spec fn has_id(list: Seq<ScenePresence>, id: ParticipantId) -> bool {
    exists|i: int| 0 <= i < list.len() && (#[trigger] list[i]).id == id
}

/// Position of the last participant of this identity, `-1` without one.
pub open spec fn last_of(list: Seq<ScenePresence>, id: ParticipantId) -> int
    decreases list.len(),
{
    if list.len() == 0 {
        -1
    } else if list.last().id == id {
        list.len() - 1
    } else {
        last_of(list.drop_last(), id)
    }
}

pub proof fn lemma_last_of(list: Seq<ScenePresence>, id: ParticipantId)
    ensures
        -1 <= last_of(list, id) < list.len(),
        last_of(list, id) >= 0 <==> has_id(list, id),
        last_of(list, id) >= 0 ==> list[last_of(list, id)].id == id,
    decreases list.len(),
{
    if list.len() > 0 {
        let t = list.drop_last();
        lemma_last_of(t, id);
        if list.last().id == id {
            assert(list[list.len() - 1].id == id);
        } else {
            if has_id(list, id) {
                let i = choose|i: int| 0 <= i < list.len() && (#[trigger] list[i]).id == id;
                assert(t[i].id == id);
            }
            if has_id(t, id) {
                let i = choose|i: int| 0 <= i < t.len() && (#[trigger] t[i]).id == id;
                assert(list[i].id == id);
            }
        }
    }
}

fn find_last(list: &[ScenePresence], id: ParticipantId) -> (r: Option<usize>)
    ensures
        r is Some <==> has_id(list@, id),
        r matches Some(i) ==> i == last_of(list@, id) && i < list@.len() && list@[i as int].id == id,
{
    let mut n: usize = list.len();
    assert(list@.take(n as int) =~= list@);
    while n > 0
        invariant
            n <= list@.len(),
            last_of(list@, id) == last_of(list@.take(n as int), id),
        decreases n,
    {
        assert(list@.take(n as int).drop_last() =~= list@.take(n - 1));
        if list[n - 1].id == id {
            proof {
                lemma_last_of(list@, id);
            }
            return Some(n - 1);
        }
        n = n - 1;
    }
    proof {
        lemma_last_of(list@, id);
    }
    None
}

// ── ranks among common participants ─────────────────────────────────
/// Stacking rank of every participant of `list` that `other` also has: its
/// position among the common participants.
pub open spec fn ranks(list: Seq<ScenePresence>, other: Seq<ScenePresence>) -> Map<
    ParticipantId,
    nat,
>
    decreases list.len(),
{
    if list.len() == 0 {
        Map::empty()
    } else {
        let m = ranks(list.drop_last(), other);
        if has_id(other, list.last().id) {
            m.insert(list.last().id, m.dom().len())
        } else {
            m
        }
    }
}

struct RankEntry {
    id: ParticipantId,
    rank: usize,
}

spec fn table_is(t: Seq<RankEntry>, m: Map<ParticipantId, nat>) -> bool {
    &&& m.dom().finite()
    &&& m.dom().len() == t.len()
    &&& forall|i: int, j: int| 0 <= i < j < t.len() ==> (#[trigger] t[i]).id != (#[trigger] t[j]).id
    &&& forall|i: int|
        0 <= i < t.len() ==> m.dom().contains((#[trigger] t[i]).id) && m[t[i].id] == t[i].rank
    &&& forall|id: ParticipantId| #[trigger]
        m.dom().contains(id) ==> exists|i: int| 0 <= i < t.len() && (#[trigger] t[i]).id == id
}

fn table_index(t: &Vec<RankEntry>, id: ParticipantId) -> (r: Option<usize>)
    ensures
        r matches Some(i) ==> i < t@.len() && t@[i as int].id == id,
        r is None ==> forall|i: int| 0 <= i < t@.len() ==> (#[trigger] t@[i]).id != id,
{
    let mut i: usize = 0;
    while i < t.len()
        invariant
            i <= t.len(),
            forall|k: int| 0 <= k < i ==> (#[trigger] t@[k]).id != id,
        decreases t.len() - i,
    {
        if t[i].id == id {
            return Some(i);
        }
        i = i + 1;
    }
    None
}

fn rank_table(list: &[ScenePresence], other: &[ScenePresence]) -> (t: Vec<RankEntry>)
    ensures
        table_is(t@, ranks(list@, other@)),
{
    let mut t: Vec<RankEntry> = Vec::new();
    let mut n: usize = 0;
    assert(list@.take(0) =~= Seq::<ScenePresence>::empty());
    while n < list.len()
        invariant
            n <= list@.len(),
            t@.len() <= n,
            table_is(t@, ranks(list@.take(n as int), other@)),
        decreases list.len() - n,
    {
        let id = list[n].id;
        let ghost m = ranks(list@.take(n as int), other@);
        assert(list@.take(n + 1).drop_last() =~= list@.take(n as int));
        if find_last(other, id).is_some() {
            let rank = t.len();
            let ghost m2 = m.insert(id, m.dom().len());
            let ghost t0 = t@;
            match table_index(&t, id) {
                Some(i) => {
                    t.set(i, RankEntry { id, rank });
                    proof {
                        assert(m.dom().contains(id));
                        assert(m2.dom() =~= m.dom());
                        assert forall|q: ParticipantId| #[trigger] m2.dom().contains(q) implies exists|k: int|
                            0 <= k < t@.len() && (#[trigger] t@[k]).id == q by {
                            let k = choose|k: int| 0 <= k < t0.len() && (#[trigger] t0[k]).id == q;
                            assert(t@[k].id == q);
                        }
                    }
                },
                None => {
                    t.push(RankEntry { id, rank });
                    proof {
                        assert(!m.dom().contains(id));
                        assert(m2.dom() =~= m.dom().insert(id));
                        assert forall|q: ParticipantId| #[trigger] m2.dom().contains(q) implies exists|k: int|
                            0 <= k < t@.len() && (#[trigger] t@[k]).id == q by {
                            if q == id {
                                assert(t@[t0.len() as int].id == q);
                            } else {
                                let k = choose|k: int| 0 <= k < t0.len() && (#[trigger] t0[k]).id == q;
                                assert(t@[k].id == q);
                            }
                        }
                    }
                },
            }
        }
        n = n + 1;
    }
    assert(list@.take(n as int) =~= list@);
    t
}

fn rank_of(t: &Vec<RankEntry>, id: ParticipantId, Ghost(m): Ghost<Map<ParticipantId, nat>>) -> (r:
    Option<usize>)
    requires
        table_is(t@, m),
    ensures
        r is Some <==> m.dom().contains(id),
        r matches Some(v) ==> v == m[id],
{
    match table_index(t, id) {
        Some(i) => Some(t[i].rank),
        None => None,
    }
}

// ── the diff ────────────────────────────────────────────────────────
/// Whether a participant sits elsewhere than before.
pub open spec fn moved(old: ScenePresence, p: ScenePresence) -> bool {
    old.place@ != p.place@ || old.region@ != p.region@
}

/// Whether a participant sits elsewhere or samples something else than before.
pub open spec fn changed(old: ScenePresence, p: ScenePresence) -> bool {
    moved(old, p) || !old.signature.same(p.signature)
}

/// Damage of the participants of `now` that appeared or changed.
pub open spec fn damage_changed(prev: Seq<ScenePresence>, now: Seq<ScenePresence>) -> Set<
    (int, int),
>
    decreases now.len(),
{
    if now.len() == 0 {
        Set::empty()
    } else {
        let d = damage_changed(prev, now.drop_last());
        let p = now.last();
        let k = last_of(prev, p.id);
        if k < 0 {
            capped(d.union(p.region@))
        } else if changed(prev[k], p) {
            capped(capped(d.union(prev[k].region@)).union(p.region@))
        } else {
            d
        }
    }
}

/// Whether a common participant's stacking rank differs between the frames.
pub open spec fn rank_moved(
    prev: Seq<ScenePresence>,
    now: Seq<ScenePresence>,
    id: ParticipantId,
) -> bool {
    has_id(prev, id) && ranks(prev, now)[id] != ranks(now, prev)[id]
}

/// Whether two common participants changed places in the stacking order.
pub open spec fn flipped(
    prev: Seq<ScenePresence>,
    now: Seq<ScenePresence>,
    a: ParticipantId,
    b: ParticipantId,
) -> bool {
    (ranks(prev, now)[a] < ranks(prev, now)[b]) != (ranks(now, prev)[a] < ranks(now, prev)[b])
}

/// Whether the overlap of `p` and `q` is added when `p` is visited. A pair whose
/// members both changed rank is left to the member that now ranks lower.
pub open spec fn pair_visited(
    prev: Seq<ScenePresence>,
    now: Seq<ScenePresence>,
    p: ParticipantId,
    q: ParticipantId,
) -> bool {
    &&& rank_moved(prev, now, p)
    &&& q != p
    &&& has_id(prev, q)
    &&& !(rank_moved(prev, now, q) && ranks(now, prev)[p] > ranks(now, prev)[q])
    &&& flipped(prev, now, p, q)
}

/// `d` plus the overlaps of restacked pairs: all pairs of the first `i`
/// participants of `now`, and the pairs of participant `i` with the first `j`.
pub open spec fn damage_pairs(
    prev: Seq<ScenePresence>,
    now: Seq<ScenePresence>,
    d: Set<(int, int)>,
    i: nat,
    j: nat,
) -> Set<(int, int)>
    decreases i, j,
{
    if j > 0 {
        let e = damage_pairs(prev, now, d, i, (j - 1) as nat);
        let p = now[i as int];
        let q = now[j - 1];
        if pair_visited(prev, now, p.id, q.id) {
            capped(e.union(capped(p.region@.intersect(q.region@))))
        } else {
            e
        }
    } else if i > 0 {
        damage_pairs(prev, now, d, (i - 1) as nat, now.len())
    } else {
        d
    }
}

/// `d` plus the participants of `prev` that vanished.
pub open spec fn damage_vanished(
    prev: Seq<ScenePresence>,
    now: Seq<ScenePresence>,
    d: Set<(int, int)>,
) -> Set<(int, int)>
    decreases prev.len(),
{
    if prev.len() == 0 {
        d
    } else {
        let e = damage_vanished(prev.drop_last(), now, d);
        let p = prev.last();
        if has_id(now, p.id) { e } else { capped(e.union(p.region@)) }
    }
}

/// The damage that [`structural_damage`] returns, as pixels.
pub open spec fn structural_px(prev: Seq<ScenePresence>, now: Seq<ScenePresence>) -> Set<
    (int, int),
> {
    damage_vanished(
        prev,
        now,
        damage_pairs(prev, now, damage_changed(prev, now), now.len(), 0),
    )
}

fn rects_equal(a: &Vec<Rect2D>, b: &Vec<Rect2D>) -> (r: bool)
    ensures
        r == (a@ == b@),
{
    if a.len() != b.len() {
        return false;
    }
    let mut i: usize = 0;
    while i < a.len()
        invariant
            i <= a.len(),
            a.len() == b.len(),
            forall|k: int| 0 <= k < i ==> a@[k] == b@[k],
        decreases a.len() - i,
    {
        if a[i] != b[i] {
            return false;
        }
        i = i + 1;
    }
    assert(a@ =~= b@);
    true
}

fn presence_changed(old: &ScenePresence, p: &ScenePresence) -> (r: bool)
    ensures
        r == changed(*old, *p),
{
    let same_region = old.region == p.region;
    proof {
        if same_region {
            assert(old.region@ =~= p.region@);
        }
    }
    !rects_equal(&old.place, &p.place) || !same_region || old.signature != p.signature
}

/// Damage owed because the scene's structure changed since the last presented
/// frame.
///
/// For every participant that appeared, vanished, moved or changed what it
/// samples: its old region and its new one. For a change of stacking alone: only
/// where two participants whose front-to-back order flipped overlap.
pub fn structural_damage(prev: &[ScenePresence], now: &[ScenePresence]) -> (damage: Region)
    ensures
        damage@ == structural_px(prev@, now@),
{
    let mut damage = Region::new();
    let ghost pr = ranks(prev@, now@);
    let ghost nr = ranks(now@, prev@);
    let prev_rank = rank_table(prev, now);
    let now_rank = rank_table(now, prev);
    let mut restacked: Vec<bool> = Vec::new();
    let mut n: usize = 0;
    assert(now@.take(0) =~= Seq::<ScenePresence>::empty());
    while n < now.len()
        invariant
            n <= now@.len(),
            pr == ranks(prev@, now@),
            nr == ranks(now@, prev@),
            table_is(prev_rank@, pr),
            table_is(now_rank@, nr),
            damage@ == damage_changed(prev@, now@.take(n as int)),
            restacked@.len() == n,
            forall|k: int|
                0 <= k < n ==> #[trigger] restacked@[k] == rank_moved(prev@, now@, now@[k].id),
        decreases now.len() - n,
    {
        let p = &now[n];
        proof {
            assert(now@.take(n + 1).drop_last() =~= now@.take(n as int));
            lemma_last_of(prev@, p.id);
        }
        match find_last(prev, p.id) {
            None => {
                damage.union_with(&p.region);
                restacked.push(false);
            },
            Some(k) => {
                if presence_changed(&prev[k], p) {
                    damage.union_with(&prev[k].region);
                    damage.union_with(&p.region);
                }
                proof {
                    assert(now@[n as int].id == p.id);
                    assert(has_id(now@, p.id));
                    lemma_ranks_dom(prev@, now@, p.id);
                    lemma_ranks_dom(now@, prev@, p.id);
                }
                let a = rank_of(&prev_rank, p.id, Ghost(pr));
                let b = rank_of(&now_rank, p.id, Ghost(nr));
                restacked.push(a != b);
            },
        }
        n = n + 1;
    }
    assert(now@.take(n as int) =~= now@);
    let ghost d0 = damage@;
    let mut i: usize = 0;
    while i < now.len()
        invariant
            i <= now@.len(),
            pr == ranks(prev@, now@),
            nr == ranks(now@, prev@),
            table_is(prev_rank@, pr),
            table_is(now_rank@, nr),
            damage@ == damage_pairs(prev@, now@, d0, i as nat, 0),
            restacked@.len() == now@.len(),
            forall|k: int|
                0 <= k < now@.len() ==> #[trigger] restacked@[k] == rank_moved(
                    prev@,
                    now@,
                    now@[k].id,
                ),
        decreases now.len() - i,
    {
        if restacked[i] {
            let p = &now[i];
            assert(has_id(now@, now@[i as int].id));
            let mut j: usize = 0;
            while j < now.len()
                invariant
                    i < now@.len(),
                    j <= now@.len(),
                    p == now@[i as int],
                    has_id(now@, p.id),
                    rank_moved(prev@, now@, p.id),
                    pr == ranks(prev@, now@),
                    nr == ranks(now@, prev@),
                    table_is(prev_rank@, pr),
                    table_is(now_rank@, nr),
                    damage@ == damage_pairs(prev@, now@, d0, i as nat, j as nat),
                    restacked@.len() == now@.len(),
                    forall|k: int|
                        0 <= k < now@.len() ==> #[trigger] restacked@[k] == rank_moved(
                            prev@,
                            now@,
                            now@[k].id,
                        ),
                decreases now.len() - j,
            {
                let q = &now[j];
                if q.id != p.id && find_last(prev, q.id).is_some() {
                    proof {
                        assert(now@[j as int].id == q.id);
                        assert(has_id(now@, q.id));
                        lemma_ranks_dom(prev@, now@, p.id);
                        lemma_ranks_dom(now@, prev@, p.id);
                        lemma_ranks_dom(prev@, now@, q.id);
                        lemma_ranks_dom(now@, prev@, q.id);
                    }
                    let pp = rank_of(&prev_rank, p.id, Ghost(pr)).unwrap();
                    let pq = rank_of(&prev_rank, q.id, Ghost(pr)).unwrap();
                    let np = rank_of(&now_rank, p.id, Ghost(nr)).unwrap();
                    let nq = rank_of(&now_rank, q.id, Ghost(nr)).unwrap();
                    let later = restacked[j] && np > nq;
                    if !later && (pp < pq) != (np < nq) {
                        let mut overlap = p.region.clone();
                        overlap.intersect_with(&q.region);
                        damage.union_with(&overlap);
                    }
                }
                j = j + 1;
            }
        } else {
            proof {
                lemma_pairs_skip(prev@, now@, d0, i as nat, now@.len());
            }
        }
        i = i + 1;
    }
    let ghost d1 = damage@;
    let mut m: usize = 0;
    assert(prev@.take(0) =~= Seq::<ScenePresence>::empty());
    while m < prev.len()
        invariant
            m <= prev@.len(),
            damage@ == damage_vanished(prev@.take(m as int), now@, d1),
        decreases prev.len() - m,
    {
        assert(prev@.take(m + 1).drop_last() =~= prev@.take(m as int));
        if find_last(now, prev[m].id).is_none() {
            damage.union_with(&prev[m].region);
        }
        m = m + 1;
    }
    assert(prev@.take(m as int) =~= prev@);
    damage
}

proof fn lemma_ranks_dom(list: Seq<ScenePresence>, other: Seq<ScenePresence>, id: ParticipantId)
    ensures
        ranks(list, other).dom().contains(id) <==> has_id(list, id) && has_id(other, id),
    decreases list.len(),
{
    if list.len() > 0 {
        let t = list.drop_last();
        lemma_ranks_dom(t, other, id);
        if has_id(t, id) {
            let i = choose|i: int| 0 <= i < t.len() && (#[trigger] t[i]).id == id;
            assert(list[i].id == id);
        }
        if has_id(list, id) && list.last().id != id {
            let i = choose|i: int| 0 <= i < list.len() && (#[trigger] list[i]).id == id;
            assert(t[i].id == id);
        }
        if list.last().id == id {
            assert(list[list.len() - 1].id == id);
        }
    }
}

proof fn lemma_pairs_skip(
    prev: Seq<ScenePresence>,
    now: Seq<ScenePresence>,
    d: Set<(int, int)>,
    i: nat,
    j: nat,
)
    requires
        i < now.len(),
        j <= now.len(),
        !rank_moved(prev, now, now[i as int].id),
    ensures
        damage_pairs(prev, now, d, i, j) == damage_pairs(prev, now, d, i, 0),
    decreases j,
{
    if j > 0 {
        lemma_pairs_skip(prev, now, d, i, (j - 1) as nat);
    }
}

// ── what the diff guarantees ────────────────────────────────────────
/// Whether pixel `a` belongs to a participant that appeared.
pub open spec fn appeared_at(
    prev: Seq<ScenePresence>,
    now: Seq<ScenePresence>,
    i: int,
    a: (int, int),
) -> bool {
    0 <= i < now.len() && !has_id(prev, now[i].id) && now[i].region@.contains(a)
}

/// Whether pixel `a` belongs to the old or new placement of a participant that
/// changed.
pub open spec fn changed_at(
    prev: Seq<ScenePresence>,
    now: Seq<ScenePresence>,
    i: int,
    a: (int, int),
) -> bool {
    let k = last_of(prev, now[i].id);
    0 <= i < now.len() && k >= 0 && changed(prev[k], now[i]) && (prev[k].region@.contains(a)
        || now[i].region@.contains(a))
}

/// Whether the frames stack two common participants in opposite order.
pub open spec fn order_reversed(
    prev: Seq<ScenePresence>,
    now: Seq<ScenePresence>,
    a: ParticipantId,
    b: ParticipantId,
) -> bool {
    let (p, n) = (ranks(prev, now), ranks(now, prev));
    (p[a] < p[b] && n[b] < n[a]) || (p[b] < p[a] && n[a] < n[b])
}

/// Whether no two participants of a frame share their identity.
pub open spec fn distinct_ids(list: Seq<ScenePresence>) -> bool {
    forall|i: int, j: int|
        0 <= i < j < list.len() ==> (#[trigger] list[i]).id != (#[trigger] list[j]).id
}

/// Whether pixel `a` lies under two common participants whose order reversed.
pub open spec fn flipped_at(
    prev: Seq<ScenePresence>,
    now: Seq<ScenePresence>,
    i: int,
    j: int,
    a: (int, int),
) -> bool {
    &&& 0 <= i < now.len()
    &&& 0 <= j < now.len()
    &&& now[i].id != now[j].id
    &&& has_id(prev, now[i].id)
    &&& has_id(prev, now[j].id)
    &&& order_reversed(prev, now, now[i].id, now[j].id)
    &&& now[i].region@.contains(a)
    &&& now[j].region@.contains(a)
}

/// Whether pixel `a` belongs to a participant that vanished.
pub open spec fn vanished_at(
    prev: Seq<ScenePresence>,
    now: Seq<ScenePresence>,
    i: int,
    a: (int, int),
) -> bool {
    0 <= i < prev.len() && !has_id(now, prev[i].id) && prev[i].region@.contains(a)
}

/// The pixels whose look a change of structure may have altered.
pub open spec fn owed_px(prev: Seq<ScenePresence>, now: Seq<ScenePresence>) -> Set<(int, int)> {
    Set::new(
        |a: (int, int)|
            {
                ||| exists|i: int| appeared_at(prev, now, i, a)
                ||| exists|i: int| changed_at(prev, now, i, a)
                ||| exists|i: int, j: int| flipped_at(prev, now, i, j, a)
                ||| exists|i: int| vanished_at(prev, now, i, a)
            },
    )
}

/// The diff damages every pixel that a change of structure may have altered:
/// the full placement of what appeared, vanished, moved or was resampled, and
/// every overlap of two participants whose order reversed.
pub proof fn structural_damage_covers_every_change(
    prev: Seq<ScenePresence>,
    now: Seq<ScenePresence>,
)
    ensures
        owed_px(prev, now).subset_of(structural_px(prev, now)),
{
    let d0 = damage_changed(prev, now);
    let d1 = damage_pairs(prev, now, d0, now.len(), 0);
    let r = structural_px(prev, now);
    lemma_pairs_grow(prev, now, d0, now.len(), 0);
    lemma_vanished_grow(prev, now, d1);
    assert forall|a: (int, int)| owed_px(prev, now).contains(a) implies r.contains(a) by {
        if exists|i: int| appeared_at(prev, now, i, a) {
            let i = choose|i: int| appeared_at(prev, now, i, a);
            lemma_last_of(prev, now[i].id);
            lemma_changed_member(prev, now, i, a);
        } else if exists|i: int| changed_at(prev, now, i, a) {
            let i = choose|i: int| changed_at(prev, now, i, a);
            lemma_changed_member(prev, now, i, a);
        } else if exists|i: int, j: int| flipped_at(prev, now, i, j, a) {
            let (i, j) = choose|i: int, j: int| flipped_at(prev, now, i, j, a);
            if pair_visited(prev, now, now[i].id, now[j].id) {
                lemma_pairs_member(prev, now, d0, i, j, a, now.len(), 0);
            } else {
                assert(pair_visited(prev, now, now[j].id, now[i].id));
                lemma_pairs_member(prev, now, d0, j, i, a, now.len(), 0);
            }
        } else {
            let i = choose|i: int| vanished_at(prev, now, i, a);
            lemma_vanished_member(prev, now, d1, i, a);
        }
    }
}

proof fn lemma_changed_member(
    prev: Seq<ScenePresence>,
    now: Seq<ScenePresence>,
    i: int,
    a: (int, int),
)
    requires
        0 <= i < now.len(),
        last_of(prev, now[i].id) < 0 ==> now[i].region@.contains(a),
        last_of(prev, now[i].id) >= 0 ==> changed_at(prev, now, i, a),
    ensures
        damage_changed(prev, now).contains(a),
    decreases now.len(),
{
    let t = now.drop_last();
    let d = damage_changed(prev, t);
    let p = now.last();
    let k = last_of(prev, p.id);
    if i < now.len() - 1 {
        assert(t[i] == now[i]);
        lemma_changed_member(prev, t, i, a);
    }
    if k < 0 {
        lemma_capped(d.union(p.region@));
    } else {
        let e = capped(d.union(prev[k].region@));
        lemma_capped(d.union(prev[k].region@));
        lemma_capped(e.union(p.region@));
        assert(d.union(prev[k].region@).contains(a) ==> e.contains(a));
        assert(e.union(p.region@).contains(a) ==> capped(e.union(p.region@)).contains(a));
    }
}

proof fn lemma_pairs_grow(
    prev: Seq<ScenePresence>,
    now: Seq<ScenePresence>,
    d: Set<(int, int)>,
    i: nat,
    j: nat,
)
    ensures
        d.subset_of(damage_pairs(prev, now, d, i, j)),
    decreases i, j,
{
    if j > 0 {
        let e = damage_pairs(prev, now, d, i, (j - 1) as nat);
        lemma_pairs_grow(prev, now, d, i, (j - 1) as nat);
        lemma_capped(e.union(capped(now[i as int].region@.intersect(now[j - 1].region@))));
    } else if i > 0 {
        lemma_pairs_grow(prev, now, d, (i - 1) as nat, now.len());
    }
}

proof fn lemma_pairs_member(
    prev: Seq<ScenePresence>,
    now: Seq<ScenePresence>,
    d: Set<(int, int)>,
    p: int,
    q: int,
    a: (int, int),
    i: nat,
    j: nat,
)
    requires
        0 <= p < now.len(),
        0 <= q < now.len(),
        pair_visited(prev, now, now[p].id, now[q].id),
        now[p].region@.contains(a),
        now[q].region@.contains(a),
        i <= now.len(),
        p < i || (p == i && q < j),
    ensures
        damage_pairs(prev, now, d, i, j).contains(a),
    decreases i, j,
{
    if j > 0 {
        let e = damage_pairs(prev, now, d, i, (j - 1) as nat);
        let o = now[i as int].region@.intersect(now[j - 1].region@);
        lemma_capped(o);
        lemma_capped(e.union(capped(o)));
        if p == i && q == j - 1 {
            assert(o.contains(a));
            assert(e.union(capped(o)).contains(a));
        } else {
            lemma_pairs_member(prev, now, d, p, q, a, i, (j - 1) as nat);
            assert(e.union(capped(o)).contains(a));
        }
    } else {
        lemma_pairs_member(prev, now, d, p, q, a, (i - 1) as nat, now.len());
    }
}

proof fn lemma_vanished_grow(
    prev: Seq<ScenePresence>,
    now: Seq<ScenePresence>,
    d: Set<(int, int)>,
)
    ensures
        d.subset_of(damage_vanished(prev, now, d)),
    decreases prev.len(),
{
    if prev.len() > 0 {
        lemma_vanished_grow(prev.drop_last(), now, d);
        lemma_capped(damage_vanished(prev.drop_last(), now, d).union(prev.last().region@));
    }
}

proof fn lemma_vanished_member(
    prev: Seq<ScenePresence>,
    now: Seq<ScenePresence>,
    d: Set<(int, int)>,
    i: int,
    a: (int, int),
)
    requires
        vanished_at(prev, now, i, a),
    ensures
        damage_vanished(prev, now, d).contains(a),
    decreases prev.len(),
{
    let t = prev.drop_last();
    let e = damage_vanished(t, now, d);
    lemma_capped(e.union(prev.last().region@));
    if i < prev.len() - 1 {
        assert(t[i] == prev[i]);
        lemma_vanished_member(t, now, d, i, a);
    }
    assert(e.union(prev.last().region@).contains(a));
}

/// The diff never damages outside the bounding box of what changed.
pub proof fn structural_damage_stays_in_bounds(prev: Seq<ScenePresence>, now: Seq<ScenePresence>)
    requires
        distinct_ids(prev),
        distinct_ids(now),
    ensures
        structural_px(prev, now).subset_of(bbox_px(owed_px(prev, now))),
{
    let s = owed_px(prev, now);
    let d0 = damage_changed(prev, now);
    lemma_bbox_superset(s);
    lemma_changed_bounds(prev, now, now.len());
    assert(now.take(now.len() as int) =~= now);
    lemma_pairs_bounds(prev, now, d0, now.len(), 0);
    let d1 = damage_pairs(prev, now, d0, now.len(), 0);
    lemma_vanished_bounds(prev, now, d1, prev.len());
    assert(prev.take(prev.len() as int) =~= prev);
}

proof fn lemma_union_bounds(d: Set<(int, int)>, e: Set<(int, int)>, s: Set<(int, int)>)
    requires
        d.subset_of(bbox_px(s)),
        e.subset_of(bbox_px(s)),
    ensures
        capped(d.union(e)).subset_of(bbox_px(s)),
{
    let u = d.union(e);
    assert(u.subset_of(bbox_px(s)));
    lemma_bbox_inside(u, s);
    lemma_capped(u);
    assert forall|a: (int, int)| capped(u).contains(a) implies bbox_px(s).contains(a) by {
        assert(bbox_px(u).contains(a));
    }
}

proof fn lemma_changed_bounds(prev: Seq<ScenePresence>, now: Seq<ScenePresence>, n: nat)
    requires
        n <= now.len(),
    ensures
        damage_changed(prev, now.take(n as int)).subset_of(bbox_px(owed_px(prev, now))),
    decreases n,
{
    let s = owed_px(prev, now);
    lemma_bbox_superset(s);
    if n > 0 {
        let t = now.take(n as int);
        assert(t.drop_last() =~= now.take(n - 1));
        lemma_changed_bounds(prev, now, (n - 1) as nat);
        let d = damage_changed(prev, now.take(n - 1));
        let p = t.last();
        let k = last_of(prev, p.id);
        lemma_last_of(prev, p.id);
        if k < 0 {
            assert forall|a: (int, int)| p.region@.contains(a) implies bbox_px(s).contains(a) by {
                assert(appeared_at(prev, now, n - 1, a));
                assert(s.contains(a));
            }
            lemma_union_bounds(d, p.region@, s);
        } else if changed(prev[k], p) {
            assert forall|a: (int, int)| prev[k].region@.contains(a) implies bbox_px(s).contains(
                a,
            ) by {
                assert(changed_at(prev, now, n - 1, a));
                assert(s.contains(a));
            }
            assert forall|a: (int, int)| p.region@.contains(a) implies bbox_px(s).contains(a) by {
                assert(changed_at(prev, now, n - 1, a));
                assert(s.contains(a));
            }
            lemma_union_bounds(d, prev[k].region@, s);
            lemma_union_bounds(capped(d.union(prev[k].region@)), p.region@, s);
        }
    } else {
        assert(now.take(0) =~= Seq::<ScenePresence>::empty());
    }
}

proof fn lemma_ranks_injective(list: Seq<ScenePresence>, other: Seq<ScenePresence>)
    requires
        distinct_ids(list),
    ensures
        ranks(list, other).dom().finite(),
        forall|a: ParticipantId| #[trigger]
            ranks(list, other).dom().contains(a) ==> ranks(list, other)[a] < ranks(
                list,
                other,
            ).dom().len(),
        forall|a: ParticipantId, b: ParticipantId|
            ranks(list, other).dom().contains(a) && ranks(list, other).dom().contains(b) && a != b
                ==> #[trigger] ranks(list, other)[a] != #[trigger] ranks(list, other)[b],
    decreases list.len(),
{
    if list.len() > 0 {
        let t = list.drop_last();
        assert(distinct_ids(t)) by {
            assert forall|i: int, j: int| 0 <= i < j < t.len() implies (#[trigger] t[i]).id != (
            #[trigger] t[j]).id by {
                assert(list[i].id != list[j].id);
            }
        }
        lemma_ranks_injective(t, other);
        let m = ranks(t, other);
        let id = list.last().id;
        lemma_ranks_dom(t, other, id);
        if m.dom().contains(id) {
            let i = choose|i: int| 0 <= i < t.len() && (#[trigger] t[i]).id == id;
            assert(list[i].id != list[list.len() - 1].id);
        }
        if has_id(other, id) {
            let m2 = m.insert(id, m.dom().len());
            assert(m2.dom() =~= m.dom().insert(id));
            assert(m2 == ranks(list, other));
            assert forall|a: ParticipantId| #[trigger] m2.dom().contains(a) implies m2[a]
                < m2.dom().len() by {
                if a != id {
                    assert(m.dom().contains(a));
                }
            }
            assert forall|a: ParticipantId, b: ParticipantId|
                m2.dom().contains(a) && m2.dom().contains(b) && a != b implies #[trigger] m2[a]
                != #[trigger] m2[b] by {
                if a == id {
                    assert(m.dom().contains(b));
                } else if b == id {
                    assert(m.dom().contains(a));
                } else {
                    assert(m.dom().contains(a) && m.dom().contains(b));
                    assert(m[a] != m[b]);
                }
            }
        }
    }
}

proof fn lemma_flip_reverses(
    prev: Seq<ScenePresence>,
    now: Seq<ScenePresence>,
    i: int,
    j: int,
)
    requires
        distinct_ids(prev),
        distinct_ids(now),
        0 <= i < now.len(),
        0 <= j < now.len(),
        pair_visited(prev, now, now[i].id, now[j].id),
    ensures
        order_reversed(prev, now, now[i].id, now[j].id),
{
    let (a, b) = (now[i].id, now[j].id);
    assert(has_id(now, a) && has_id(now, b));
    lemma_ranks_dom(prev, now, a);
    lemma_ranks_dom(prev, now, b);
    lemma_ranks_dom(now, prev, a);
    lemma_ranks_dom(now, prev, b);
    lemma_ranks_injective(prev, now);
    lemma_ranks_injective(now, prev);
    assert(ranks(prev, now)[a] != ranks(prev, now)[b]);
    assert(ranks(now, prev)[a] != ranks(now, prev)[b]);
}

proof fn lemma_pairs_bounds(
    prev: Seq<ScenePresence>,
    now: Seq<ScenePresence>,
    d: Set<(int, int)>,
    i: nat,
    j: nat,
)
    requires
        distinct_ids(prev),
        distinct_ids(now),
        d.subset_of(bbox_px(owed_px(prev, now))),
        i < now.len() || (i == now.len() && j == 0),
        j <= now.len(),
    ensures
        damage_pairs(prev, now, d, i, j).subset_of(bbox_px(owed_px(prev, now))),
    decreases i, j,
{
    let s = owed_px(prev, now);
    if j > 0 {
        lemma_pairs_bounds(prev, now, d, i, (j - 1) as nat);
        let e = damage_pairs(prev, now, d, i, (j - 1) as nat);
        let p = now[i as int];
        let q = now[j - 1];
        if pair_visited(prev, now, p.id, q.id) {
            let o = p.region@.intersect(q.region@);
            lemma_bbox_superset(s);
            assert forall|a: (int, int)| o.contains(a) implies bbox_px(s).contains(a) by {
                lemma_flip_reverses(prev, now, i as int, j - 1);
                assert(flipped_at(prev, now, i as int, j - 1, a));
                assert(s.contains(a));
            }
            assert(o.union(Set::<(int, int)>::empty()) =~= o);
            lemma_union_bounds(o, Set::empty(), s);
            lemma_union_bounds(e, capped(o), s);
        }
    } else if i > 0 {
        lemma_pairs_bounds(prev, now, d, (i - 1) as nat, now.len());
    }
}

proof fn lemma_vanished_bounds(
    prev: Seq<ScenePresence>,
    now: Seq<ScenePresence>,
    d: Set<(int, int)>,
    n: nat,
)
    requires
        n <= prev.len(),
        d.subset_of(bbox_px(owed_px(prev, now))),
    ensures
        damage_vanished(prev.take(n as int), now, d).subset_of(bbox_px(owed_px(prev, now))),
    decreases n,
{
    let s = owed_px(prev, now);
    if n > 0 {
        let t = prev.take(n as int);
        assert(t.drop_last() =~= prev.take(n - 1));
        lemma_vanished_bounds(prev, now, d, (n - 1) as nat);
        let p = t.last();
        if !has_id(now, p.id) {
            lemma_bbox_superset(s);
            assert forall|a: (int, int)| p.region@.contains(a) implies bbox_px(s).contains(a) by {
                assert(vanished_at(prev, now, n - 1, a));
                assert(s.contains(a));
            }
            lemma_union_bounds(damage_vanished(prev.take(n - 1), now, d), p.region@, s);
        }
    }
}

/// Whether `now` shows the same participants as `prev`, in the same order, each
/// where it was and sampling what it did. What is visible of them may differ.
pub open spec fn same_structure(prev: Seq<ScenePresence>, now: Seq<ScenePresence>) -> bool {
    &&& prev.len() == now.len()
    &&& forall|i: int|
        0 <= i < now.len() ==> (#[trigger] now[i]).id == prev[i].id && !changed(prev[i], now[i])
    &&& distinct_ids(now)
}

/// An unchanged structure owes nothing, whatever became visible or hidden.
pub proof fn unchanged_structure_owes_nothing(prev: Seq<ScenePresence>, now: Seq<ScenePresence>)
    requires
        same_structure(prev, now),
    ensures
        structural_px(prev, now) == Set::<(int, int)>::empty(),
{
    assert forall|i: int| 0 <= i < now.len() implies has_id(prev, (#[trigger] now[i]).id) by {
        assert(prev[i].id == now[i].id);
    }
    assert forall|i: int| 0 <= i < prev.len() implies has_id(now, (#[trigger] prev[i]).id) by {
        assert(now[i].id == prev[i].id);
    }
    lemma_same_ranks(prev, now, now.len());
    assert(prev.take(now.len() as int) =~= prev);
    assert(now.take(now.len() as int) =~= now);
    lemma_same_changed(prev, now, now.len());
    lemma_same_pairs(prev, now, Set::empty(), now.len(), 0);
    lemma_same_vanished(prev, now, Set::empty(), prev.len());
}

proof fn lemma_same_ranks(prev: Seq<ScenePresence>, now: Seq<ScenePresence>, n: nat)
    requires
        same_structure(prev, now),
        n <= now.len(),
        forall|i: int| 0 <= i < now.len() ==> has_id(prev, (#[trigger] now[i]).id),
        forall|i: int| 0 <= i < prev.len() ==> has_id(now, (#[trigger] prev[i]).id),
    ensures
        ranks(prev.take(n as int), now) == ranks(now.take(n as int), prev),
    decreases n,
{
    if n > 0 {
        assert(prev.take(n as int).drop_last() =~= prev.take(n - 1));
        assert(now.take(n as int).drop_last() =~= now.take(n - 1));
        lemma_same_ranks(prev, now, (n - 1) as nat);
        assert(now[n - 1].id == prev[n - 1].id);
    } else {
        assert(prev.take(0) =~= Seq::<ScenePresence>::empty());
        assert(now.take(0) =~= Seq::<ScenePresence>::empty());
    }
}

proof fn lemma_same_changed(prev: Seq<ScenePresence>, now: Seq<ScenePresence>, n: nat)
    requires
        same_structure(prev, now),
        n <= now.len(),
        forall|i: int| 0 <= i < now.len() ==> has_id(prev, (#[trigger] now[i]).id),
    ensures
        damage_changed(prev, now.take(n as int)) == Set::<(int, int)>::empty(),
    decreases n,
{
    if n > 0 {
        assert(now.take(n as int).drop_last() =~= now.take(n - 1));
        lemma_same_changed(prev, now, (n - 1) as nat);
        let p = now[n - 1];
        let k = last_of(prev, p.id);
        lemma_last_of(prev, p.id);
        assert(now[k].id == prev[k].id);
        if k < n - 1 {
            assert(now[k].id != now[n - 1].id);
        }
        if k > n - 1 {
            assert(now[n - 1].id != now[k].id);
        }
    } else {
        assert(now.take(0) =~= Seq::<ScenePresence>::empty());
    }
}

proof fn lemma_same_pairs(
    prev: Seq<ScenePresence>,
    now: Seq<ScenePresence>,
    d: Set<(int, int)>,
    i: nat,
    j: nat,
)
    requires
        ranks(prev, now) == ranks(now, prev),
    ensures
        damage_pairs(prev, now, d, i, j) == d,
    decreases i, j,
{
    if j > 0 {
        lemma_same_pairs(prev, now, d, i, (j - 1) as nat);
    } else if i > 0 {
        lemma_same_pairs(prev, now, d, (i - 1) as nat, now.len());
    }
}

proof fn lemma_same_vanished(
    prev: Seq<ScenePresence>,
    now: Seq<ScenePresence>,
    d: Set<(int, int)>,
    n: nat,
)
    requires
        n <= prev.len(),
        forall|i: int| 0 <= i < prev.len() ==> has_id(now, (#[trigger] prev[i]).id),
    ensures
        damage_vanished(prev.take(n as int), now, d) == d,
        n == prev.len() ==> damage_vanished(prev, now, d) == d,
    decreases n,
{
    if n > 0 {
        assert(prev.take(n as int).drop_last() =~= prev.take(n - 1));
        assert(prev.take(n as int).last() == prev[n - 1]);
        lemma_same_vanished(prev, now, d, (n - 1) as nat);
    } else {
        assert(prev.take(0) =~= Seq::<ScenePresence>::empty());
    }
    if n == prev.len() {
        assert(prev.take(n as int) =~= prev);
    }
}

} // verus!
