//! What a recorded frame leaves on the screen.
//!
//! A frame that draws only the damaged pixels leaves there what a full frame
//! would, and leaves every other pixel alone.

use vstd::prelude::*;

use crate::draw::CompositeDraw;
use crate::geometry::{output_rect, Extent2D, Rect2D};
use crate::recording::{
    at_most, commands_of, issued, pass_of, scissors_of, scissors_skip_nothing_seen, with_draw,
    with_draws, with_scissors, RecordCommand, Recorded,
};
use crate::region::partitions;
use crate::repaint::{culled, opaque_at, planned, survives, Repaint, RepaintPlan};
use crate::visibility_law::{sample_at, shown, Sample};

verus! {

/// A pixel while commands are replayed: the state they set, and the samples on
/// it from the top down.
pub struct Pixel {
    pub scissor: Option<Rect2D>,
    pub pipeline: Option<bool>,
    pub samples: Seq<Sample>,
}

/// The samples after one more was put on top.
pub open spec fn covered_by(samples: Seq<Sample>, s: Sample) -> Seq<Sample> {
    if s.blends { seq![s] + samples } else { seq![s] }
}

/// A pixel after a command. A draw changes it where the scissor and the draw both
/// have it, and blends as the pipeline says.
pub open spec fn after_command(
    p: Pixel,
    c: RecordCommand,
    draws: Seq<CompositeDraw>,
    q: (int, int),
) -> Pixel {
    match c {
        RecordCommand::Scissor(s) => Pixel { scissor: Some(s), ..p },
        RecordCommand::Pipeline { blend } => Pixel { pipeline: Some(blend), ..p },
        RecordCommand::Draw(i) => {
            let d = draws[i as int];
            if p.scissor is Some && p.scissor->0.has(q.0, q.1) && d.dst.has(q.0, q.1)
                && p.pipeline is Some {
                Pixel {
                    samples: covered_by(
                        p.samples,
                        Sample { blends: p.pipeline->0, ..sample_at(d, q) },
                    ),
                    ..p
                }
            } else {
                p
            }
        },
    }
}

/// A pixel after commands were replayed over what was there.
pub open spec fn replayed(
    commands: Seq<RecordCommand>,
    draws: Seq<CompositeDraw>,
    below: Seq<Sample>,
    q: (int, int),
) -> Pixel
    decreases commands.len(),
{
    if commands.len() == 0 {
        Pixel { scissor: None, pipeline: None, samples: below }
    } else {
        after_command(
            replayed(commands.drop_last(), draws, below, q),
            commands.last(),
            draws,
            q,
        )
    }
}

/// What a list of draws leaves over what was there.
pub open spec fn shown_over(below: Seq<Sample>, draws: Seq<CompositeDraw>, q: (int, int)) -> Seq<
    Sample,
>
    decreases draws.len(),
{
    if draws.len() == 0 {
        below
    } else {
        let before = shown_over(below, draws.drop_last(), q);
        if draws.last().dst.has(q.0, q.1) {
            covered_by(before, sample_at(draws.last(), q))
        } else {
            before
        }
    }
}

proof fn lemma_push(
    commands: Seq<RecordCommand>,
    c: RecordCommand,
    draws: Seq<CompositeDraw>,
    below: Seq<Sample>,
    q: (int, int),
)
    ensures
        replayed(commands.push(c), draws, below, q) == after_command(
            replayed(commands, draws, below, q),
            c,
            draws,
            q,
        ),
{
    assert(commands.push(c).drop_last() =~= commands);
}

/// The draws taken under one scissor.
proof fn lemma_draws(
    r: Recorded,
    many: bool,
    s: Rect2D,
    draws: Seq<CompositeDraw>,
    n: nat,
    below: Seq<Sample>,
    q: (int, int),
)
    requires
        n <= draws.len() <= usize::MAX,
        replayed(r.commands, draws, below, q).scissor == Some(s),
        replayed(r.commands, draws, below, q).pipeline == r.pipeline,
    ensures
        ({
            let after = with_draws(r, many, s, draws, n);
            let p = replayed(after.commands, draws, below, q);
            let before = replayed(r.commands, draws, below, q);
            &&& p.scissor == Some(s)
            &&& p.pipeline == after.pipeline
            &&& p.samples == (if s.has(q.0, q.1) {
                shown_over(before.samples, draws.take(n as int), q)
            } else {
                before.samples
            })
        }),
    decreases n,
{
    let before = replayed(r.commands, draws, below, q);
    if n == 0 {
        assert(draws.take(0) =~= Seq::empty());
    } else {
        let m = (n - 1) as nat;
        lemma_draws(r, many, s, draws, m, below, q);
        let mid = with_draws(r, many, s, draws, m);
        let d = draws[m as int];
        assert(draws.take(n as int).drop_last() =~= draws.take(m as int));
        assert(draws.take(n as int).last() == d);
        if issued(many, s, d) {
            let bind = RecordCommand::Pipeline { blend: d.alpha_passthrough };
            let draw = RecordCommand::Draw(m as usize);
            if mid.pipeline == Some(d.alpha_passthrough) {
                lemma_push(mid.commands, draw, draws, below, q);
            } else {
                lemma_push(mid.commands, bind, draws, below, q);
                lemma_push(mid.commands.push(bind), draw, draws, below, q);
            }
            assert(with_draws(r, many, s, draws, n) == with_draw(mid, m as int, d));
        } else if s.has(q.0, q.1) && d.dst.has(q.0, q.1) {
            scissors_skip_nothing_seen(many, s, d, q);
        }
    }
}

/// The draws taken under each of some scissors that do not overlap.
proof fn lemma_scissors(
    many: bool,
    scissors: Seq<Rect2D>,
    draws: Seq<CompositeDraw>,
    below: Seq<Sample>,
    q: (int, int),
)
    requires
        draws.len() <= usize::MAX,
        forall|i: int, j: int, x: int, y: int|
            0 <= i < j < scissors.len() && #[trigger] scissors[i].has(x, y) ==> !(
            #[trigger] scissors[j].has(x, y)),
    ensures
        ({
            let r = with_scissors(many, scissors, draws, draws.len());
            let p = replayed(r.commands, draws, below, q);
            &&& p.pipeline == r.pipeline
            &&& p.samples == (if exists|i: int|
                0 <= i < scissors.len() && (#[trigger] scissors[i]).has(q.0, q.1) {
                shown_over(below, draws, q)
            } else {
                below
            })
        }),
    decreases scissors.len(),
{
    if scissors.len() > 0 {
        let t = scissors.drop_last();
        let s = scissors.last();
        let k = scissors.len() - 1;
        assert forall|i: int, j: int, x: int, y: int|
            0 <= i < j < t.len() && #[trigger] t[i].has(x, y) implies !(#[trigger] t[j].has(
            x,
            y,
        )) by {
            assert(scissors[i].has(x, y));
            assert(t[j] == scissors[j]);
        }
        lemma_scissors(many, t, draws, below, q);
        let before = with_scissors(many, t, draws, draws.len());
        let start = Recorded {
            commands: before.commands.push(RecordCommand::Scissor(s)),
            ..before
        };
        lemma_push(before.commands, RecordCommand::Scissor(s), draws, below, q);
        lemma_draws(start, many, s, draws, draws.len(), below, q);
        assert(draws.take(draws.len() as int) =~= draws);
        if exists|i: int| 0 <= i < t.len() && (#[trigger] t[i]).has(q.0, q.1) {
            let i = choose|i: int| 0 <= i < t.len() && (#[trigger] t[i]).has(q.0, q.1);
            assert(scissors[i].has(q.0, q.1));
            assert(!scissors[k].has(q.0, q.1));
        } else if exists|i: int| 0 <= i < scissors.len() && (#[trigger] scissors[i]).has(q.0, q.1) {
            let i = choose|i: int| 0 <= i < scissors.len() && (#[trigger] scissors[i]).has(q.0, q.1);
            if i < k {
                assert(t[i].has(q.0, q.1));
            }
        }
        if s.has(q.0, q.1) {
            assert(scissors[k].has(q.0, q.1));
        }
    }
}

/// The commands of a pass draw every painted pixel once, and touch no other: on
/// each they leave what the draws leave, in order.
pub proof fn commands_draw_each_painted_pixel_once(
    draws: Seq<CompositeDraw>,
    descriptors: nat,
    given: Seq<Rect2D>,
    repaint: Repaint,
    painted: Set<(int, int)>,
    below: Seq<Sample>,
    q: (int, int),
)
    requires
        draws.len() <= usize::MAX,
        draws.len() <= descriptors,
        partitions(scissors_of(given, pass_of(repaint)), painted),
    ensures
        replayed(commands_of(draws, descriptors, given, repaint), draws, below, q).samples == (
        if painted.contains(q) {
            shown_over(below, draws, q)
        } else {
            below
        }),
{
    let scissors = scissors_of(given, pass_of(repaint));
    lemma_scissors(scissors.len() > 1, scissors, draws, below, q);
    assert(at_most(draws.len(), descriptors) == draws.len());
    if painted.contains(q) {
        assert(painted.contains((q.0, q.1)));
        let i = choose|i: int| 0 <= i < scissors.len() && #[trigger] scissors[i].has(q.0, q.1);
        assert(scissors[i].has(q.0, q.1));
    } else if exists|i: int| 0 <= i < scissors.len() && (#[trigger] scissors[i]).has(q.0, q.1) {
        let i = choose|i: int| 0 <= i < scissors.len() && (#[trigger] scissors[i]).has(q.0, q.1);
        assert(painted.contains((q.0, q.1)));
    }
}

/// An opaque draw hides what was there.
proof fn lemma_hides(below: Seq<Sample>, draws: Seq<CompositeDraw>, q: (int, int))
    requires
        opaque_at(draws, q),
    ensures
        shown_over(below, draws, q) == shown(draws, q),
    decreases draws.len(),
{
    let i = choose|i: int|
        0 <= i < draws.len() && !(#[trigger] draws[i]).alpha_passthrough
            && draws[i].dst.px().contains(q);
    let t = draws.drop_last();
    let d = draws.last();
    if !d.dst.has(q.0, q.1) || d.alpha_passthrough {
        assert(i < draws.len() - 1);
        assert(t[i] == draws[i]);
        lemma_hides(below, t, q);
    }
}

/// Over nothing a list leaves what it shows.
proof fn lemma_over_nothing(draws: Seq<CompositeDraw>, q: (int, int))
    ensures
        shown_over(Seq::empty(), draws, q) == shown(draws, q),
    decreases draws.len(),
{
    if draws.len() > 0 {
        lemma_over_nothing(draws.drop_last(), q);
    }
}

proof fn lemma_culled_shows(
    below: Seq<Sample>,
    draws: Seq<CompositeDraw>,
    keep: Set<(int, int)>,
    q: (int, int),
)
    requires
        keep.contains(q),
    ensures
        shown_over(below, culled(draws, keep), q) == shown_over(below, draws, q),
        culled(draws, keep).len() <= draws.len(),
    decreases draws.len(),
{
    if draws.len() > 0 {
        let t = draws.drop_last();
        let d = draws.last();
        lemma_culled_shows(below, t, keep, q);
        if survives(d, keep) {
            assert(culled(draws, keep).drop_last() =~= culled(t, keep));
        } else if d.dst.has(q.0, q.1) {
            assert(d.dst.px().contains(q));
        }
    }
}

proof fn lemma_culled_len(draws: Seq<CompositeDraw>, keep: Set<(int, int)>)
    ensures
        culled(draws, keep).len() <= draws.len(),
    decreases draws.len(),
{
    if draws.len() > 0 {
        lemma_culled_len(draws.drop_last(), keep);
    }
}

/// A clipped frame leaves on every pixel it paints what the whole scene shows
/// there, whatever the buffer held, and leaves every other pixel alone.
pub proof fn a_clipped_frame_shows_the_whole_scene(
    plan: RepaintPlan,
    requested: Set<(int, int)>,
    draws: Seq<CompositeDraw>,
    extent: Extent2D,
    loadable: bool,
    shared_route: bool,
    below: Seq<Sample>,
    q: (int, int),
)
    requires
        draws.len() <= usize::MAX,
        planned(plan, requested, draws, extent, loadable, shared_route),
        plan.repaint is Clipped,
    ensures
        ({
            let kept = culled(draws, plan.painted@);
            let commands = commands_of(kept, kept.len(), plan.scissors@, plan.repaint);
            replayed(commands, kept, below, q).samples == (if plan.painted@.contains(q) {
                shown(draws, q)
            } else {
                below
            })
        }),
{
    let kept = culled(draws, plan.painted@);
    lemma_culled_len(draws, plan.painted@);
    assert(plan.scissors@.len() > 0) by {
        assert(requested != Set::<(int, int)>::empty());
        if plan.scissors@.len() == 0 {
            assert forall|x: int, y: int| !(#[trigger] requested.contains((x, y))) by {
                if requested.contains((x, y)) {
                    assert(plan.painted@.contains((x, y)));
                }
            }
            assert forall|a: (int, int)| !(#[trigger] requested.contains(a)) by {
                assert(!requested.contains((a.0, a.1)));
            }
            assert(requested =~= Set::empty());
        }
    }
    commands_draw_each_painted_pixel_once(
        kept,
        kept.len(),
        plan.scissors@,
        plan.repaint,
        plan.painted@,
        below,
        q,
    );
    if plan.painted@.contains(q) {
        lemma_culled_shows(below, draws, plan.painted@, q);
        lemma_hides(below, draws, q);
    }
}

/// A full frame leaves on every pixel of the output what the whole scene shows
/// there, over the cleared buffer.
pub proof fn a_full_frame_shows_the_whole_scene(
    draws: Seq<CompositeDraw>,
    extent: Extent2D,
    q: (int, int),
)
    requires
        draws.len() <= usize::MAX,
        output_rect(extent).has(q.0, q.1),
    ensures
        replayed(
            commands_of(draws, draws.len(), seq![output_rect(extent)], Repaint::Full(extent)),
            draws,
            Seq::empty(),
            q,
        ).samples == shown(draws, q),
{
    let scissors = seq![output_rect(extent)];
    let painted = output_rect(extent).px();
    assert(scissors[0] == output_rect(extent));
    assert(partitions(scissors, painted)) by {
        assert forall|x: int, y: int| #[trigger] painted.contains((x, y)) implies exists|i: int|
            0 <= i < scissors.len() && #[trigger] scissors[i].has(x, y) by {
            assert(scissors[0].has(x, y));
        }
    }
    commands_draw_each_painted_pixel_once(
        draws,
        draws.len(),
        scissors,
        Repaint::Full(extent),
        painted,
        Seq::empty(),
        q,
    );
    assert(painted.contains(q));
    lemma_over_nothing(draws, q);
}

} // verus!
