//! How a frame goes to the screen: the way of a submission, and the pass that draws
//! it.

use vstd::prelude::*;

use crate::draw::CompositeDraw;
use crate::geometry::{corners, output_rect, Extent2D, Rect2D};
use crate::present::BoPhase;
use crate::recording::{
    commands_of, pass_of, scissors_of, with_draws, with_scissors, LoadOp, RecordCommand, Recorded,
};
use crate::region::{bbox_px, bbox_rect, in_plane, tight};
use crate::repaint::{planned, Repaint, RepaintPlan};
use crate::submission::{
    begun_submission, continued_submission, stage_of, SubmitAction, SubmitEvent, SubmitStage,
    Submission,
};

verus! {

/// A submission begins only with a free buffer, and one that is scanned out only
/// with a framebuffer; a copied one acquires its buffer first.
pub proof fn a_submission_begins_with_a_free_buffer(
    shared: bool,
    phase: BoPhase,
    has_framebuffer: bool,
)
    ensures
        ({
            let (s, action) = begun_submission(shared, phase, has_framebuffer);
            &&& s.shared == shared
            &&& !s.gpu_submitted
            &&& s.in_fence == -1
            &&& action is Failed <==> phase != BoPhase::Free || (shared && !has_framebuffer)
            &&& action is Failed ==> s.stage == SubmitStage::Over && s.phase == phase
            &&& !(action is Failed) && shared ==> action is Record && s.stage
                == SubmitStage::Record && s.phase == BoPhase::Recording
            &&& !(action is Failed) && !shared ==> action is Acquire && s.stage
                == SubmitStage::Acquire && s.phase == BoPhase::Free
        }),
{
}

/// A submission goes its way: what is acquired is recorded, what is recorded is
/// exported, and what is exported is flipped behind the fence that the export gave,
/// or handed back as rendered where the buffer is copied. Whatever fails ends it.
pub proof fn a_submission_goes_its_way(s: Submission, e: SubmitEvent)
    requires
        stage_of(e) == s.stage,
    ensures
        ({
            let (t, action, closed) = continued_submission(s, e);
            &&& t.shared == s.shared
            &&& e is Acquired ==> action is Record && t.stage == SubmitStage::Record && t.phase
                == BoPhase::Recording
            &&& e matches SubmitEvent::Recorded(c) ==> action is Export && t.stage
                == SubmitStage::Export && t.gpu_submitted && t.submitted == c && t.phase == s.phase
            &&& e matches SubmitEvent::Exported(f) ==> if s.shared {
                let fence: int = if f is Some { f->0 as int } else { -1 };
                &&& t.stage == SubmitStage::Flip
                &&& t.phase == BoPhase::Submitted
                &&& t.in_fence == fence
                &&& action matches SubmitAction::Flip { in_fence } && in_fence == fence
            } else {
                &&& t.stage == SubmitStage::Over
                &&& action == (SubmitAction::Rendered { completion: f })
            }
            &&& e is Flipped ==> t.phase == BoPhase::Pending && t.stage == SubmitStage::Over
            &&& e is FlipRefused ==> t.phase == BoPhase::Recording && t.stage == SubmitStage::Over
            &&& action is Failed <==> e is AcquireFailed || e is RecordFailed || e is ExportFailed
                || e is FlipRefused
            &&& action is Failed ==> t.stage == SubmitStage::Over
            &&& !(e is Flipped) && !(e is FlipRefused) ==> closed.len() == 0
            &&& !(e is Recorded) ==> t.submitted == s.submitted
        }),
{
}

proof fn lemma_least(
    p: Set<(int, int)>,
    f: spec_fn((int, int)) -> int,
    a: (int, int),
    lo: int,
) -> (m: (int, int))
    requires
        p.contains(a),
        forall|b: (int, int)| #[trigger] p.contains(b) ==> lo <= f(b),
    ensures
        p.contains(m),
        forall|b: (int, int)| #[trigger] p.contains(b) ==> f(m) <= f(b),
    decreases f(a) - lo,
{
    if exists|b: (int, int)| #[trigger] p.contains(b) && f(b) < f(a) {
        let b = choose|b: (int, int)| #[trigger] p.contains(b) && f(b) < f(a);
        lemma_least(p, f, b, lo)
    } else {
        a
    }
}

/// The bounding box of some pixels of the plane is a rectangle.
pub proof fn lemma_bbox_is_rect(p: Set<(int, int)>, a: (int, int))
    requires
        p.contains(a),
        forall|b: (int, int)| #[trigger] p.contains(b) ==> in_plane(b.0, b.1),
    ensures
        bbox_rect(p).px() == bbox_px(p),
        tight(bbox_rect(p)),
{
    let lo = -0x8000_0000int;
    let left = lemma_least(p, |b: (int, int)| b.0, a, lo);
    let top = lemma_least(p, |b: (int, int)| b.1, a, lo);
    let right = lemma_least(p, |b: (int, int)| -b.0, a, lo);
    let bottom = lemma_least(p, |b: (int, int)| -b.1, a, lo);
    assert(forall|b: (int, int)| #[trigger]
        p.contains(b) ==> (|c: (int, int)| c.0)(left) <= (|c: (int, int)| c.0)(b));
    assert(forall|b: (int, int)| #[trigger]
        p.contains(b) ==> left.0 <= b.0 <= right.0 && top.1 <= b.1 <= bottom.1);
    let r = corners(left.0, top.1, right.0 + 1, bottom.1 + 1);
    assert(p.contains(left) && p.contains(top) && p.contains(right) && p.contains(bottom));
    assert(r.x0() == left.0 && r.y0() == top.1 && r.x1() == right.0 + 1 && r.y1() == bottom.1 + 1);
    assert forall|q: (int, int)| r.px().contains(q) == bbox_px(p).contains(q) by {
        lemma_in_bbox(p, q, left, right, top, bottom);
    }
    assert(r.px() =~= bbox_px(p));
    assert(tight(r));
}

proof fn lemma_in_bbox(
    p: Set<(int, int)>,
    q: (int, int),
    left: (int, int),
    right: (int, int),
    top: (int, int),
    bottom: (int, int),
)
    requires
        p.contains(left) && p.contains(right) && p.contains(top) && p.contains(bottom),
        forall|b: (int, int)| #[trigger]
            p.contains(b) ==> left.0 <= b.0 <= right.0 && top.1 <= b.1 <= bottom.1,
    ensures
        bbox_px(p).contains(q) == (left.0 <= q.0 <= right.0 && top.1 <= q.1 <= bottom.1),
{
    reveal(bbox_px);
}

/// The pass of a full repaint clears the whole output and keeps nothing; that of a
/// clipped one keeps what was there, and all that it paints lies in its area.
pub proof fn a_pass_keeps_what_it_does_not_draw(
    plan: RepaintPlan,
    requested: Set<(int, int)>,
    draws: Seq<CompositeDraw>,
    extent: Extent2D,
    loadable: bool,
    shared: bool,
    q: (int, int),
)
    requires
        planned(plan, requested, draws, extent, loadable, shared),
        requested.subset_of(output_rect(extent).px()),
        plan.painted@.contains(q),
    ensures
        ({
            let p = pass_of(plan.repaint);
            &&& plan.repaint is Full ==> p.load == LoadOp::Clear && p.discard && p.area
                == output_rect(extent)
            &&& plan.repaint is Clipped ==> p.load == LoadOp::Load && !p.discard && p.area.has(
                q.0,
                q.1,
            )
        }),
{
    if plan.repaint is Clipped {
        assert(requested != Set::<(int, int)>::empty());
        if forall|a: (int, int)| !(#[trigger] requested.contains(a)) {
            assert(requested =~= Set::empty());
        }
        let a = choose|a: (int, int)| #[trigger] requested.contains(a);
        assert forall|b: (int, int)| #[trigger] requested.contains(b) implies in_plane(
            b.0,
            b.1,
        ) by {
            assert(output_rect(extent).px().contains(b));
        }
        lemma_bbox_is_rect(requested, a);
        assert(bbox_px(requested).contains(q));
        assert(bbox_rect(requested).px().contains(q));
    }
}

proof fn lemma_draws_bounded(
    r: Recorded,
    many: bool,
    scissor: Rect2D,
    draws: Seq<CompositeDraw>,
    n: nat,
    top: nat,
)
    requires
        n <= top <= draws.len(),
        draws.len() <= usize::MAX,
        forall|i: int|
            0 <= i < r.commands.len() ==> ((#[trigger] r.commands[i]) matches RecordCommand::Draw(k)
                ==> k < top),
    ensures
        ({
            let t = with_draws(r, many, scissor, draws, n);
            forall|i: int|
                0 <= i < t.commands.len() ==> ((
                #[trigger] t.commands[i]) matches RecordCommand::Draw(k) ==> k < top)
        }),
    decreases n,
{
    if n > 0 {
        lemma_draws_bounded(r, many, scissor, draws, (n - 1) as nat, top);
    }
}

proof fn lemma_scissors_bounded(
    many: bool,
    scissors: Seq<Rect2D>,
    draws: Seq<CompositeDraw>,
    n: nat,
)
    requires
        n <= draws.len(),
        draws.len() <= usize::MAX,
    ensures
        ({
            let t = with_scissors(many, scissors, draws, n);
            forall|i: int|
                0 <= i < t.commands.len() ==> ((
                #[trigger] t.commands[i]) matches RecordCommand::Draw(k) ==> k < n)
        }),
    decreases scissors.len(),
{
    if scissors.len() > 0 {
        lemma_scissors_bounded(many, scissors.drop_last(), draws, n);
        let before = with_scissors(many, scissors.drop_last(), draws, n);
        let s = scissors.last();
        let r = Recorded { commands: before.commands.push(RecordCommand::Scissor(s)), ..before };
        lemma_draws_bounded(r, many, s, draws, n, n);
    }
}

/// No draw is issued that has no descriptor, or that is not in the list.
pub proof fn only_described_draws_are_issued(
    draws: Seq<CompositeDraw>,
    descriptors: nat,
    given: Seq<Rect2D>,
    repaint: Repaint,
    i: int,
)
    requires
        draws.len() <= usize::MAX,
        0 <= i < commands_of(draws, descriptors, given, repaint).len(),
    ensures
        commands_of(draws, descriptors, given, repaint)[i] matches RecordCommand::Draw(k) ==> k
            < descriptors && k < draws.len(),
{
    let scissors = scissors_of(given, pass_of(repaint));
    let n = if draws.len() <= descriptors { draws.len() } else { descriptors };
    lemma_scissors_bounded(scissors.len() > 1, scissors, draws, n);
}

} // verus!
