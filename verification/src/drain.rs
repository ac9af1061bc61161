//! Quiescing an output: every frame in flight is waited for and let go.

use std::collections::VecDeque;

use vstd::prelude::*;

use crate::cursor::{
    reset_cursor_mode_for_lifecycle, reset_cursor_retry_for_lifecycle, OutputCursorMode,
};
use crate::deferred::{
    came_to, drain_queues, drained_all_or_nothing, free_once_waited, kept, lemma_kept_ignores_later, lemma_taken_all,
    lemma_taken_ignores_later, release_of, taken, DeferredSceneRelease, FenceTicket,
};
use crate::output::{ack_views, OutputSceneState, OutputView, PendingAck};
use crate::scanout_damage::invalidated;

verus! {

/// What a drain came to.
#[derive(Debug)]
pub struct DrainReport {
    /// Descriptor slots of the frames in flight to give back, in order.
    pub released: Vec<usize>,
    /// Whether something could not be waited for or recovered.
    pub renderer_failed: bool,
}

/// Whether waiting for a frame's fence came to `ok`; one without a fence is done.
pub open spec fn waited<W: Fn(&FenceTicket) -> bool>(
    wait: W,
    ticket: Option<FenceTicket>,
    ok: bool,
) -> bool {
    match ticket {
        None => ok,
        Some(t) => wait.ensures((&t,), ok),
    }
}

/// How many frames in flight have a slot.
pub open spec fn paired(o: OutputView) -> int {
    if o.pending_acks.len() <= o.pool_slots.len() {
        o.pending_acks.len() as int
    } else {
        o.pool_slots.len() as int
    }
}

/// The output after its frames in flight were waited for with the outcomes
/// `waits`: what could not be waited for stays, the buffers' contents are
/// unknown, and nothing is known of the cursor. The deferred resources are left
/// out.
pub open spec fn quiesced(o: OutputView, waits: Seq<bool>) -> OutputView {
    OutputView {
        pending_acks: kept(o.pending_acks, waits),
        pool_slots: kept(o.pool_slots.take(paired(o)), waits) + o.pool_slots.skip(paired(o)),
        damage: invalidated(o.damage),
        cursor_mode: OutputCursorMode::Hidden,
        cursor_prev_pos: None,
        cursor_rect: None,
        cursor_version: None,
        show_retry: None,
        ..o
    }
}

proof fn lemma_kept_maps(s: Seq<PendingAck>, done: Seq<bool>)
    requires
        s.len() <= done.len(),
    ensures
        ack_views(kept(s, done)) == kept(ack_views(s), done),
    decreases s.len(),
{
    let v = ack_views(s);
    if s.len() == 0 {
        assert(ack_views(kept(s, done)) =~= kept(v, done));
    } else {
        let t = s.drop_last();
        lemma_kept_maps(t, done);
        assert(v.drop_last() =~= ack_views(t));
        assert(ack_views(kept(s, done)) =~= kept(v, done));
    }
}

/// Waits for the frames of an output and gives their resources back. Nothing is
/// given back that could not be waited for.
pub fn drain_output<W: Fn(&FenceTicket) -> bool, R: Fn(DeferredSceneRelease) -> bool>(
    state: &mut OutputSceneState,
    wait: &W,
    release: &R,
) -> (r: DrainReport)
    requires
        forall|t: FenceTicket| #[trigger] wait.requires((&t,)),
        forall|i: int|
            0 <= i < old(state)@.pending_pool_releases.len() ==> free_once_waited(
                *wait,
                *release,
                (#[trigger] old(state)@.pending_pool_releases[i]).1,
                DeferredSceneRelease::PoolSlot(old(state)@.pending_pool_releases[i].0),
            ),
        forall|i: int|
            0 <= i < old(state)@.failed_submit_bos.len() ==> free_once_waited(
                *wait,
                *release,
                (#[trigger] old(state)@.failed_submit_bos[i]).ticket,
                release_of(old(state)@.failed_submit_bos[i]),
            ),
    ensures
        exists|waits: Seq<bool>|
            #![trigger quiesced(old(state)@, waits)]
            {
                &&& waits.len() == old(state)@.pending_acks.len()
                &&& forall|i: int|
                    0 <= i < waits.len() ==> waited(
                        *wait,
                        (#[trigger] old(state)@.pending_acks[i]).ticket,
                        waits[i],
                    )
                &&& final(state)@ == (OutputView {
                    pending_pool_releases: final(state)@.pending_pool_releases,
                    failed_submit_bos: final(state)@.failed_submit_bos,
                    ..quiesced(old(state)@, waits)
                })
                &&& r.released@ == taken(old(state)@.pool_slots.take(paired(old(state)@)), waits)
            },
        exists|done: Seq<bool>|
            #![trigger kept(old(state)@.pending_pool_releases, done)]
            {
                &&& done.len() == old(state)@.pending_pool_releases.len()
                &&& final(state)@.pending_pool_releases == kept(
                    old(state)@.pending_pool_releases,
                    done,
                )
                &&& forall|i: int|
                    0 <= i < done.len() ==> came_to(
                        *wait,
                        *release,
                        (#[trigger] old(state)@.pending_pool_releases[i]).1,
                        DeferredSceneRelease::PoolSlot(old(state)@.pending_pool_releases[i].0),
                        done[i],
                    )
            },
        exists|done: Seq<bool>|
            #![trigger kept(old(state)@.failed_submit_bos, done)]
            {
                &&& done.len() == old(state)@.failed_submit_bos.len()
                &&& final(state)@.failed_submit_bos == kept(old(state)@.failed_submit_bos, done)
                &&& forall|i: int|
                    0 <= i < done.len() ==> came_to(
                        *wait,
                        *release,
                        (#[trigger] old(state)@.failed_submit_bos[i]).ticket,
                        release_of(old(state)@.failed_submit_bos[i]),
                        done[i],
                    )
            },
        r.renderer_failed == (final(state)@.pending_acks.len() > 0
            || final(state)@.pending_pool_releases.len() > 0
            || final(state)@.failed_submit_bos.len() > 0),
        final(state).damage_audit == old(state).damage_audit,
{
    let ghost o = state@;
    let ghost acks = state.pending_acks@;
    let ghost slots = state.pool_slots@;
    let ghost mut waits: Seq<bool> = Seq::empty();
    let mut kept_acks: VecDeque<PendingAck> = VecDeque::new();
    let mut kept_slots: VecDeque<usize> = VecDeque::new();
    let mut released: Vec<usize> = Vec::new();
    let ghost mut i: int = 0;
    let ghost mut m: int = 0;
    proof {
        assert(acks.skip(0) =~= acks);
        assert(slots.skip(0) =~= slots);
        assert(acks.take(0) =~= Seq::empty());
        assert(slots.take(0) =~= Seq::empty());
    }
    while state.pending_acks.len() > 0
        invariant
            0 <= i <= acks.len(),
            m == (if i <= slots.len() { i } else { slots.len() as int }),
            o == old(state)@,
            o.pending_acks == ack_views(acks),
            o.pool_slots == slots,
            state.pending_acks@ == acks.skip(i),
            state.pool_slots@ == slots.skip(m),
            state@ == (OutputView {
                pending_acks: state@.pending_acks,
                pool_slots: state@.pool_slots,
                ..o
            }),
            state.damage_audit == old(state).damage_audit,
            waits.len() == i,
            kept_acks@ == kept(acks.take(i), waits),
            kept_slots@ == kept(slots.take(m), waits),
            released@ == taken(slots.take(m), waits),
            forall|t: FenceTicket| #[trigger] wait.requires((&t,)),
            forall|k: int| 0 <= k < i ==> waited(*wait, (#[trigger] acks[k]).ticket, waits[k]),
        decreases state.pending_acks@.len(),
    {
        let ghost acks_left = state.pending_acks@;
        let ghost slots_left = state.pool_slots@;
        match state.pending_acks.pop_front() {
            None => {},
            Some(ack) => {
                let slot = state.pool_slots.pop_front();
                let ok = match &ack.ticket {
                    None => true,
                    Some(t) => (*wait)(t),
                };
                proof {
                    assert(ack == acks[i]);
                    assert(state.pending_acks@ =~= acks.skip(i + 1));
                    let after = waits.push(ok);
                    assert(acks.take(i + 1).drop_last() =~= acks.take(i));
                    lemma_kept_ignores_later(acks.take(i), waits, after);
                    if m < slots.len() {
                        assert(slot == Some(slots[m]));
                        assert(state.pool_slots@ =~= slots.skip(m + 1));
                        assert(slots.take(m + 1).drop_last() =~= slots.take(m));
                    }
                    lemma_kept_ignores_later(slots.take(m), waits, after);
                    lemma_taken_ignores_later(slots.take(m), waits, after);
                    assert forall|k: int| 0 <= k < i + 1 implies waited(
                        *wait,
                        (#[trigger] acks[k]).ticket,
                        after[k],
                    ) by {
                        if k < i {
                            assert(after[k] == waits[k]);
                        }
                    }
                    waits = after;
                }
                if ok {
                    if let Some(slot) = slot {
                        released.push(slot);
                    }
                } else {
                    kept_acks.push_back(ack);
                    if let Some(slot) = slot {
                        kept_slots.push_back(slot);
                    }
                }
                proof {
                    i = i + 1;
                    m = if i <= slots.len() { i } else { slots.len() as int };
                }
            },
        }
    }
    proof {
        assert(i == acks.len());
        assert(acks.take(i) =~= acks);
        assert(m == paired(o));
        lemma_kept_maps(acks, waits);
    }
    kept_slots.append(&mut state.pool_slots);
    state.pending_acks = kept_acks;
    state.pool_slots = kept_slots;
    state.damage.invalidate();
    drain_queues(
        &mut state.pending_pool_releases,
        &mut state.failed_submit_bos,
        wait,
        release,
    );
    reset_cursor_mode_for_lifecycle(&mut state.last_frame_cursor_mode);
    state.cursor_prev_pos = None;
    state.last_present_cursor_rect = None;
    state.last_present_cursor_version = None;
    reset_cursor_retry_for_lifecycle(&mut state.force_show_retry_version);
    let renderer_failed = state.pending_acks.len() > 0 || state.pending_pool_releases.len() > 0
        || state.failed_submit_bos.len() > 0;
    proof {
        let q = quiesced(o, waits);
        assert(state@.pending_acks == q.pending_acks);
        assert(state@.pool_slots =~= q.pool_slots);
        assert forall|k: int| 0 <= k < waits.len() implies waited(
            *wait,
            (#[trigger] o.pending_acks[k]).ticket,
            waits[k],
        ) by {
            assert(o.pending_acks[k] == acks[k]@);
        }
    }
    DrainReport { released, renderer_failed }
}

/// A drain in which every wait works leaves nothing in flight and gives back the
/// slot of every frame; in any case the buffers' contents count as unknown and
/// the cursor as hidden.
pub proof fn a_clean_drain_leaves_nothing(o: OutputView, waits: Seq<bool>)
    requires
        waits.len() == o.pending_acks.len(),
        o.pool_slots.len() == o.pending_acks.len(),
        forall|i: int| 0 <= i < waits.len() ==> waits[i],
    ensures
        quiesced(o, waits).pending_acks.len() == 0,
        quiesced(o, waits).pool_slots.len() == 0,
        taken(o.pool_slots.take(paired(o)), waits) == o.pool_slots,
        quiesced(o, waits).damage.owed,
        quiesced(o, waits).cursor_mode == OutputCursorMode::Hidden,
{
    drained_all_or_nothing(o.pending_acks, waits, true);
    let s = o.pool_slots.take(paired(o));
    assert(s =~= o.pool_slots);
    drained_all_or_nothing(s, waits, true);
    lemma_taken_all(s, waits);
}

} // verus!
