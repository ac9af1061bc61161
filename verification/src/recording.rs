//! What the renderer records for a frame: the pass, and the commands in it.

use vstd::prelude::*;

use crate::draw::{draw_dst_rect, draw_lands, CompositeDraw};
use crate::geometry::{output_rect, rects_intersect, Offset2D, Rect2D};
use crate::repaint::Repaint;

verus! {

/// What a pass does with the buffer's contents.
#[derive(Clone, Copy, Debug, PartialEq, Eq, Structural)]
pub enum LoadOp {
    Clear,
    Load,
}

/// A render pass.
#[derive(Clone, Copy, Debug, PartialEq, Eq, Structural)]
pub struct RenderPass {
    pub load: LoadOp,
    pub area: Rect2D,
    /// Whether what was in the buffer need not be kept.
    pub discard: bool,
}

/// The pass of a repaint: a full one clears the output and discards what was
/// there; a clipped one loads its rectangle, and the audit's clears it.
pub open spec fn pass_of(repaint: Repaint) -> RenderPass {
    match repaint {
        Repaint::Full(extent) => RenderPass {
            load: LoadOp::Clear,
            area: output_rect(extent),
            discard: true,
        },
        Repaint::Clipped(rect) => RenderPass { load: LoadOp::Load, area: rect, discard: false },
        Repaint::AuditClearClipped(rect) => RenderPass {
            load: LoadOp::Clear,
            area: rect,
            discard: false,
        },
    }
}

pub fn render_pass(repaint: Repaint) -> (r: RenderPass)
    ensures
        r == pass_of(repaint),
{
    match repaint {
        Repaint::Full(extent) => RenderPass {
            load: LoadOp::Clear,
            area: Rect2D { offset: Offset2D { x: 0, y: 0 }, extent },
            discard: true,
        },
        Repaint::Clipped(rect) => RenderPass { load: LoadOp::Load, area: rect, discard: false },
        Repaint::AuditClearClipped(rect) => RenderPass {
            load: LoadOp::Clear,
            area: rect,
            discard: false,
        },
    }
}

/// A command of a pass.
#[derive(Clone, Copy, Debug, PartialEq, Eq, Structural)]
pub enum RecordCommand {
    Scissor(Rect2D),
    /// Use the pipeline that blends, or the one that overwrites.
    Pipeline { blend: bool },
    /// Issue the draw at this position of the list.
    Draw(usize),
}

/// Commands so far, and the pipeline in use.
pub struct Recorded {
    pub commands: Seq<RecordCommand>,
    pub pipeline: Option<bool>,
}

/// Whether a draw is issued under a scissor: always under a single one, else
/// unless it misses the scissor.
pub open spec fn issued(many: bool, scissor: Rect2D, d: CompositeDraw) -> bool {
    !many || !draw_lands(d) || d.dst.meets(scissor)
}

/// The commands after a draw was issued; a pipeline in use is not bound again.
pub open spec fn with_draw(r: Recorded, i: int, d: CompositeDraw) -> Recorded {
    let bound = if r.pipeline == Some(d.alpha_passthrough) {
        r.commands
    } else {
        r.commands.push(RecordCommand::Pipeline { blend: d.alpha_passthrough })
    };
    Recorded {
        commands: bound.push(RecordCommand::Draw(i as usize)),
        pipeline: Some(d.alpha_passthrough),
    }
}

/// The commands after the first `n` draws were taken under a scissor.
pub open spec fn with_draws(
    r: Recorded,
    many: bool,
    scissor: Rect2D,
    draws: Seq<CompositeDraw>,
    n: nat,
) -> Recorded
    decreases n,
{
    if n == 0 {
        r
    } else {
        let before = with_draws(r, many, scissor, draws, (n - 1) as nat);
        let d = draws[n - 1];
        if issued(many, scissor, d) { with_draw(before, n - 1, d) } else { before }
    }
}

/// The commands after the draws were taken under each of some scissors.
pub open spec fn with_scissors(
    many: bool,
    scissors: Seq<Rect2D>,
    draws: Seq<CompositeDraw>,
    n: nat,
) -> Recorded
    decreases scissors.len(),
{
    if scissors.len() == 0 {
        Recorded { commands: Seq::empty(), pipeline: None }
    } else {
        let before = with_scissors(many, scissors.drop_last(), draws, n);
        let s = scissors.last();
        with_draws(
            Recorded { commands: before.commands.push(RecordCommand::Scissor(s)), ..before },
            many,
            s,
            draws,
            n,
        )
    }
}

/// The scissors of a pass: the given ones, or its area.
pub open spec fn scissors_of(given: Seq<Rect2D>, pass: RenderPass) -> Seq<Rect2D> {
    if given.len() == 0 { seq![pass.area] } else { given }
}

/// The smaller of two counts.
pub open spec fn at_most(a: nat, b: nat) -> nat {
    if a <= b { a } else { b }
}

/// The commands of a pass over the draws that have a descriptor.
pub open spec fn commands_of(
    draws: Seq<CompositeDraw>,
    descriptors: nat,
    given: Seq<Rect2D>,
    repaint: Repaint,
) -> Seq<RecordCommand> {
    let scissors = scissors_of(given, pass_of(repaint));
    with_scissors(
        scissors.len() > 1,
        scissors,
        draws,
        at_most(draws.len(), descriptors),
    ).commands
}

/// Decides the commands of a pass.
pub fn record_commands(
    draws: &[CompositeDraw],
    descriptors: usize,
    scissors: &[Rect2D],
    repaint: Repaint,
) -> (r: Vec<RecordCommand>)
    ensures
        r@ == commands_of(draws@, descriptors as nat, scissors@, repaint),
{
    let pass = render_pass(repaint);
    let mut list: Vec<Rect2D> = Vec::new();
    if scissors.len() == 0 {
        list.push(pass.area);
        assert(list@ =~= scissors_of(scissors@, pass));
    } else {
        let mut k: usize = 0;
        while k < scissors.len()
            invariant
                k <= scissors@.len(),
                list@ == scissors@.take(k as int),
            decreases scissors@.len() - k,
        {
            list.push(scissors[k]);
            k = k + 1;
            assert(list@ =~= scissors@.take(k as int));
        }
        assert(list@ =~= scissors@);
    }
    let n = if draws.len() <= descriptors { draws.len() } else { descriptors };
    let many = list.len() > 1;
    let mut out: Vec<RecordCommand> = Vec::new();
    let mut pipeline: Option<bool> = None;
    let mut i: usize = 0;
    assert(list@.take(0) =~= Seq::empty());
    while i < list.len()
        invariant
            i <= list@.len(),
            n <= draws@.len(),
            (Recorded { commands: out@, pipeline }) == with_scissors(
                many,
                list@.take(i as int),
                draws@,
                n as nat,
            ),
        decreases list@.len() - i,
    {
        let s = list[i];
        assert(list@.take(i + 1).drop_last() =~= list@.take(i as int));
        out.push(RecordCommand::Scissor(s));
        let ghost start = Recorded { commands: out@, pipeline };
        let mut j: usize = 0;
        while j < n
            invariant
                j <= n <= draws@.len(),
                (Recorded { commands: out@, pipeline }) == with_draws(
                    start,
                    many,
                    s,
                    draws@,
                    j as nat,
                ),
            decreases n - j,
        {
            let d = draws[j];
            let skip = many && (match draw_dst_rect(&d) {
                Some(dst) => !rects_intersect(dst, s),
                None => false,
            });
            assert(skip == !issued(many, s, d));
            if !skip {
                if pipeline != Some(d.alpha_passthrough) {
                    out.push(RecordCommand::Pipeline { blend: d.alpha_passthrough });
                    pipeline = Some(d.alpha_passthrough);
                }
                out.push(RecordCommand::Draw(j));
            }
            j = j + 1;
        }
        i = i + 1;
    }
    assert(list@.take(i as int) =~= list@);
    out
}

/// Scissors skip nothing that is seen: a draw with a pixel inside a scissor is
/// issued under it.
pub proof fn scissors_skip_nothing_seen(
    many: bool,
    scissor: Rect2D,
    d: CompositeDraw,
    q: (int, int),
)
    requires
        scissor.has(q.0, q.1),
        d.dst.has(q.0, q.1),
    ensures
        issued(many, scissor, d),
{
}

/// How many descriptors a pool for a list of draws has; a pool is never empty.
pub fn audit_descriptor_count(draws: usize) -> (r: u32)
    ensures
        r == (if draws == 0 {
            1
        } else if draws > u32::MAX {
            u32::MAX as int
        } else {
            draws as int
        }),
{
    if draws == 0 {
        1
    } else if draws > u32::MAX as usize {
        u32::MAX
    } else {
        draws as u32
    }
}

} // verus!
