//! Resources of submitted frames that wait for their fence.

use std::collections::VecDeque;

use vstd::prelude::*;

verus! {

/// A fence that a submission signals, by its number.
#[derive(Clone, Copy, Debug, PartialEq, Eq, Structural)]
pub struct FenceTicket {
    pub raw: u64,
}

/// What a look at a fence said.
#[derive(Clone, Copy, Debug, PartialEq, Eq, Structural)]
pub enum FencePoll {
    Signaled,
    Pending,
    /// The fence could not be read.
    Failed,
}

/// A frame that reached the renderer but not the screen: its buffer and its
/// descriptor slot are held until its fence signals.
#[derive(Clone, Copy, Debug, PartialEq, Eq, Structural)]
pub struct FailedSubmitBo {
    pub bo_idx: usize,
    pub pool_slot: usize,
    pub ticket: FenceTicket,
}

/// What is given back once its fence has signalled.
#[derive(Clone, Copy, Debug, PartialEq, Eq, Structural)]
pub enum DeferredSceneRelease {
    PoolSlot(usize),
    FailedSubmit { bo_idx: usize, pool_slot: usize },
}

/// The items whose flag is not set, in order.
pub open spec fn kept<T>(items: Seq<T>, done: Seq<bool>) -> Seq<T>
    decreases items.len(),
{
    if items.len() == 0 {
        Seq::empty()
    } else {
        let rest = kept(items.drop_last(), done);
        if done[items.len() - 1] { rest } else { rest.push(items.last()) }
    }
}

/// Whether `done` is what waiting for a ticket and then releasing came to:
/// both succeeded, or one of them did not.
pub open spec fn came_to<W: Fn(&FenceTicket) -> bool, R: Fn(DeferredSceneRelease) -> bool>(
    wait: W,
    release: R,
    ticket: FenceTicket,
    item: DeferredSceneRelease,
    done: bool,
) -> bool {
    if done {
        wait.ensures((&ticket,), true) && release.ensures((item,), true)
    } else {
        wait.ensures((&ticket,), false) || (wait.ensures((&ticket,), true) && release.ensures(
            (item,),
            false,
        ))
    }
}

/// What a failed submission gives back.
pub open spec fn release_of(f: FailedSubmitBo) -> DeferredSceneRelease {
    DeferredSceneRelease::FailedSubmit { bo_idx: f.bo_idx, pool_slot: f.pool_slot }
}

/// Whether a resource may be given back once waiting for its ticket succeeded.
/// Nothing is said of giving it back before.
pub open spec fn free_once_waited<
    W: Fn(&FenceTicket) -> bool,
    R: Fn(DeferredSceneRelease) -> bool,
>(wait: W, release: R, ticket: FenceTicket, item: DeferredSceneRelease) -> bool {
    wait.ensures((&ticket,), true) ==> release.requires((item,))
}

/// Waits for every deferred resource and gives it back. What could not be waited
/// for is not given back; that, and what could not be given back, stays queued in
/// order.
pub fn drain_deferred_scene_resources<
    W: Fn(&FenceTicket) -> bool,
    R: Fn(DeferredSceneRelease) -> bool,
>(
    pending_pool_releases: &mut VecDeque<(usize, FenceTicket)>,
    failed_submit_bos: &mut VecDeque<FailedSubmitBo>,
    wait: W,
    release: R,
)
    requires
        forall|t: FenceTicket| #[trigger] wait.requires((&t,)),
        forall|i: int|
            0 <= i < old(pending_pool_releases)@.len() ==> free_once_waited(
                wait,
                release,
                (#[trigger] old(pending_pool_releases)@[i]).1,
                DeferredSceneRelease::PoolSlot(old(pending_pool_releases)@[i].0),
            ),
        forall|i: int|
            0 <= i < old(failed_submit_bos)@.len() ==> free_once_waited(
                wait,
                release,
                (#[trigger] old(failed_submit_bos)@[i]).ticket,
                release_of(old(failed_submit_bos)@[i]),
            ),
    ensures
        exists|done: Seq<bool>|
            #![trigger kept(old(pending_pool_releases)@, done)]
            {
                &&& done.len() == old(pending_pool_releases)@.len()
                &&& final(pending_pool_releases)@ == kept(old(pending_pool_releases)@, done)
                &&& forall|i: int|
                    0 <= i < done.len() ==> came_to(
                        wait,
                        release,
                        (#[trigger] old(pending_pool_releases)@[i]).1,
                        DeferredSceneRelease::PoolSlot(old(pending_pool_releases)@[i].0),
                        done[i],
                    )
            },
        exists|done: Seq<bool>|
            #![trigger kept(old(failed_submit_bos)@, done)]
            {
                &&& done.len() == old(failed_submit_bos)@.len()
                &&& final(failed_submit_bos)@ == kept(old(failed_submit_bos)@, done)
                &&& forall|i: int|
                    0 <= i < done.len() ==> came_to(
                        wait,
                        release,
                        (#[trigger] old(failed_submit_bos)@[i]).ticket,
                        release_of(old(failed_submit_bos)@[i]),
                        done[i],
                    )
            },
{
    drain_queues(pending_pool_releases, failed_submit_bos, &wait, &release)
}

/// [`drain_deferred_scene_resources`] with the two operations borrowed.
pub fn drain_queues<
    W: Fn(&FenceTicket) -> bool,
    R: Fn(DeferredSceneRelease) -> bool,
>(
    pending_pool_releases: &mut VecDeque<(usize, FenceTicket)>,
    failed_submit_bos: &mut VecDeque<FailedSubmitBo>,
    wait: &W,
    release: &R,
)
    requires
        forall|t: FenceTicket| #[trigger] wait.requires((&t,)),
        forall|i: int|
            0 <= i < old(pending_pool_releases)@.len() ==> free_once_waited(
                *wait,
                *release,
                (#[trigger] old(pending_pool_releases)@[i]).1,
                DeferredSceneRelease::PoolSlot(old(pending_pool_releases)@[i].0),
            ),
        forall|i: int|
            0 <= i < old(failed_submit_bos)@.len() ==> free_once_waited(
                *wait,
                *release,
                (#[trigger] old(failed_submit_bos)@[i]).ticket,
                release_of(old(failed_submit_bos)@[i]),
            ),
    ensures
        exists|done: Seq<bool>|
            #![trigger kept(old(pending_pool_releases)@, done)]
            {
                &&& done.len() == old(pending_pool_releases)@.len()
                &&& final(pending_pool_releases)@ == kept(old(pending_pool_releases)@, done)
                &&& forall|i: int|
                    0 <= i < done.len() ==> came_to(
                        *wait,
                        *release,
                        (#[trigger] old(pending_pool_releases)@[i]).1,
                        DeferredSceneRelease::PoolSlot(old(pending_pool_releases)@[i].0),
                        done[i],
                    )
            },
        exists|done: Seq<bool>|
            #![trigger kept(old(failed_submit_bos)@, done)]
            {
                &&& done.len() == old(failed_submit_bos)@.len()
                &&& final(failed_submit_bos)@ == kept(old(failed_submit_bos)@, done)
                &&& forall|i: int|
                    0 <= i < done.len() ==> came_to(
                        *wait,
                        *release,
                        (#[trigger] old(failed_submit_bos)@[i]).ticket,
                        release_of(old(failed_submit_bos)@[i]),
                        done[i],
                    )
            },
{
    let mut retained_slots: VecDeque<(usize, FenceTicket)> = VecDeque::new();
    let ghost slots = pending_pool_releases@;
    let ghost mut done: Seq<bool> = Seq::empty();
    let mut i: usize = 0;
    assert(slots.take(0) =~= Seq::empty());
    while i < pending_pool_releases.len()
        invariant
            pending_pool_releases@ == slots,
            0 <= i <= slots.len(),
            done.len() == i,
            retained_slots@ == kept(slots.take(i as int), done),
            forall|t: FenceTicket| #[trigger] wait.requires((&t,)),
            forall|i: int|
                0 <= i < slots.len() ==> free_once_waited(
                    *wait,
                    *release,
                    (#[trigger] slots[i]).1,
                    DeferredSceneRelease::PoolSlot(slots[i].0),
                ),
            forall|k: int|
                0 <= k < done.len() ==> came_to(
                    *wait,
                    *release,
                    (#[trigger] slots[k]).1,
                    DeferredSceneRelease::PoolSlot(slots[k].0),
                    done[k],
                ),
        decreases slots.len() - i,
    {
        let (slot, ticket) = pending_pool_releases[i];
        let ok = (*wait)(&ticket) && (*release)(DeferredSceneRelease::PoolSlot(slot));
        if !ok {
            retained_slots.push_back((slot, ticket));
        }
        proof {
            let after = done.push(ok);
            assert(slots.take(i + 1).drop_last() =~= slots.take(i as int));
            lemma_kept_ignores_later(slots.take(i as int), done, after);
            assert forall|k: int| 0 <= k < after.len() implies came_to(
                *wait,
                *release,
                (#[trigger] slots[k]).1,
                DeferredSceneRelease::PoolSlot(slots[k].0),
                after[k],
            ) by {
                if k < done.len() {
                    assert(after[k] == done[k]);
                }
            }
            done = after;
        }
        i = i + 1;
    }
    assert(slots.take(i as int) =~= slots);
    assert(retained_slots@ == kept(slots, done));
    *pending_pool_releases = retained_slots;
    let mut retained: VecDeque<FailedSubmitBo> = VecDeque::new();
    let ghost failed = failed_submit_bos@;
    let ghost mut gone: Seq<bool> = Seq::empty();
    let mut j: usize = 0;
    assert(failed.take(0) =~= Seq::empty());
    while j < failed_submit_bos.len()
        invariant
            failed_submit_bos@ == failed,
            0 <= j <= failed.len(),
            gone.len() == j,
            retained@ == kept(failed.take(j as int), gone),
            forall|t: FenceTicket| #[trigger] wait.requires((&t,)),
            forall|i: int|
                0 <= i < failed.len() ==> free_once_waited(
                    *wait,
                    *release,
                    (#[trigger] failed[i]).ticket,
                    release_of(failed[i]),
                ),
            forall|k: int|
                0 <= k < gone.len() ==> came_to(
                    *wait,
                    *release,
                    (#[trigger] failed[k]).ticket,
                    release_of(failed[k]),
                    gone[k],
                ),
        decreases failed.len() - j,
    {
        let f = failed_submit_bos[j];
        let ok = (*wait)(&f.ticket) && (*release)(
            DeferredSceneRelease::FailedSubmit { bo_idx: f.bo_idx, pool_slot: f.pool_slot },
        );
        if !ok {
            retained.push_back(f);
        }
        proof {
            let after = gone.push(ok);
            assert(failed.take(j + 1).drop_last() =~= failed.take(j as int));
            lemma_kept_ignores_later(failed.take(j as int), gone, after);
            assert forall|k: int| 0 <= k < after.len() implies came_to(
                *wait,
                *release,
                (#[trigger] failed[k]).ticket,
                release_of(failed[k]),
                after[k],
            ) by {
                if k < gone.len() {
                    assert(after[k] == gone[k]);
                }
            }
            gone = after;
        }
        j = j + 1;
    }
    assert(failed.take(j as int) =~= failed);
    assert(retained@ == kept(failed, gone));
    *failed_submit_bos = retained;
}

/// Flags past the items do not matter.
pub proof fn lemma_kept_ignores_later<T>(items: Seq<T>, a: Seq<bool>, b: Seq<bool>)
    requires
        items.len() <= a.len(),
        items.len() <= b.len(),
        forall|i: int| 0 <= i < items.len() ==> a[i] == b[i],
    ensures
        kept(items, a) == kept(items, b),
    decreases items.len(),
{
    if items.len() > 0 {
        lemma_kept_ignores_later(items.drop_last(), a, b);
    }
}

/// A drain in which everything succeeds leaves nothing; one in which nothing
/// succeeds leaves everything.
pub proof fn drained_all_or_nothing<T>(items: Seq<T>, done: Seq<bool>, all: bool)
    requires
        done.len() == items.len(),
        forall|i: int| 0 <= i < done.len() ==> done[i] == all,
    ensures
        kept(items, done) == (if all { Seq::<T>::empty() } else { items }),
    decreases items.len(),
{
    if items.len() > 0 {
        let t = items.drop_last();
        let d = done.drop_last();
        drained_all_or_nothing(t, d, all);
        lemma_kept_ignores_later(t, d, done);
        assert(t.push(items.last()) =~= items);
    }
}

// ── on every tick ───────────────────────────────────────────────────
/// What a pass over a queue gave back.
#[derive(Debug)]
pub struct ReleasePass {
    /// Descriptor slots to hand back, in order.
    pub released: Vec<usize>,
    /// Whether the renderer can no longer be trusted.
    pub renderer_failed: bool,
}

/// Whether a failed submission is done with: its fence signalled and its buffer
/// was recovered.
pub open spec fn recovered(poll: FencePoll, recycled: bool) -> bool {
    poll == FencePoll::Signaled && recycled
}

/// The flags of the entries that are done with.
pub open spec fn recovered_all(polls: Seq<FencePoll>, recycled: Seq<bool>) -> Seq<bool> {
    Seq::new(polls.len(), |i: int| recovered(polls[i], recycled[i]))
}

/// The items whose flag is set, in order.
pub open spec fn taken<T>(items: Seq<T>, done: Seq<bool>) -> Seq<T>
    decreases items.len(),
{
    if items.len() == 0 {
        Seq::empty()
    } else {
        let rest = taken(items.drop_last(), done);
        if done[items.len() - 1] { rest.push(items.last()) } else { rest }
    }
}

/// Flags past the items do not matter.
pub proof fn lemma_taken_ignores_later<T>(items: Seq<T>, a: Seq<bool>, b: Seq<bool>)
    requires
        items.len() <= a.len(),
        items.len() <= b.len(),
        forall|i: int| 0 <= i < items.len() ==> a[i] == b[i],
    ensures
        taken(items, a) == taken(items, b),
    decreases items.len(),
{
    if items.len() > 0 {
        lemma_taken_ignores_later(items.drop_last(), a, b);
    }
}

/// Where every flag is set, everything is taken.
pub proof fn lemma_taken_all<T>(items: Seq<T>, done: Seq<bool>)
    requires
        items.len() <= done.len(),
        forall|i: int| 0 <= i < items.len() ==> done[i],
    ensures
        taken(items, done) == items,
    decreases items.len(),
{
    if items.len() > 0 {
        lemma_taken_all(items.drop_last(), done);
        assert(items.drop_last().push(items.last()) =~= items);
    }
}

/// Whether some entry's fence could not be read, or its buffer not recovered.
pub open spec fn recovery_fails(polls: Seq<FencePoll>, recycled: Seq<bool>) -> bool {
    exists|i: int|
        0 <= i < polls.len() && (#[trigger] polls[i] == FencePoll::Failed || (polls[i]
            == FencePoll::Signaled && !recycled[i]))
}

/// Retires the frames that never reached the screen. `polls` is what each entry's
/// fence said, and `recycled` whether the buffer of a signalled one was
/// recovered.
pub fn retire_failed_submit_bos(
    queue: &mut VecDeque<FailedSubmitBo>,
    polls: &[FencePoll],
    recycled: &[bool],
) -> (r: ReleasePass)
    requires
        polls@.len() == old(queue)@.len(),
        recycled@.len() == old(queue)@.len(),
    ensures
        final(queue)@ == kept(old(queue)@, recovered_all(polls@, recycled@)),
        r.released@ == taken(old(queue)@, recovered_all(polls@, recycled@)).map_values(
            |f: FailedSubmitBo| f.pool_slot,
        ),
        r.renderer_failed == recovery_fails(polls@, recycled@),
{
    let ghost items = queue@;
    let ghost done = recovered_all(polls@, recycled@);
    let mut remaining: VecDeque<FailedSubmitBo> = VecDeque::new();
    let mut released: Vec<usize> = Vec::new();
    let mut renderer_failed = false;
    let mut i: usize = 0;
    assert(items.take(0) =~= Seq::empty());
    assert(released@ =~= taken(items.take(0), done).map_values(|f: FailedSubmitBo| f.pool_slot));
    while i < queue.len()
        invariant
            queue@ == items,
            polls@.len() == items.len(),
            recycled@.len() == items.len(),
            done == recovered_all(polls@, recycled@),
            0 <= i <= items.len(),
            remaining@ == kept(items.take(i as int), done),
            released@ == taken(items.take(i as int), done).map_values(
                |f: FailedSubmitBo| f.pool_slot,
            ),
            renderer_failed == recovery_fails(polls@.take(i as int), recycled@),
        decreases items.len() - i,
    {
        let f = queue[i];
        let ghost before = taken(items.take(i as int), done);
        assert(items.take(i + 1).drop_last() =~= items.take(i as int));
        let ghost pb = polls@.take(i as int);
        let ghost pa = polls@.take(i + 1);
        match polls[i] {
            FencePoll::Signaled => {
                if recycled[i] {
                    released.push(f.pool_slot);
                } else {
                    renderer_failed = true;
                    remaining.push_back(f);
                }
            },
            FencePoll::Pending => {
                remaining.push_back(f);
            },
            FencePoll::Failed => {
                renderer_failed = true;
                remaining.push_back(f);
            },
        }
        proof {
            assert(pa[i as int] == polls@[i as int]);
            if recovery_fails(pb, recycled@) {
                let k = choose|k: int|
                    0 <= k < pb.len() && (#[trigger] pb[k] == FencePoll::Failed || (pb[k]
                        == FencePoll::Signaled && !recycled@[k]));
                assert(pa[k] == pb[k]);
            }
            if recovery_fails(pa, recycled@) {
                let k = choose|k: int|
                    0 <= k < pa.len() && (#[trigger] pa[k] == FencePoll::Failed || (pa[k]
                        == FencePoll::Signaled && !recycled@[k]));
                if k < i {
                    assert(pb[k] == pa[k]);
                }
            }
            assert(released@ =~= taken(items.take(i + 1), done).map_values(
                |f: FailedSubmitBo| f.pool_slot,
            ));
        }
        i = i + 1;
    }
    assert(items.take(i as int) =~= items);
    assert(polls@.take(i as int) =~= polls@);
    *queue = remaining;
    ReleasePass { released, renderer_failed }
}

/// The flags of the signalled entries.
pub open spec fn signaled_all(polls: Seq<FencePoll>) -> Seq<bool> {
    Seq::new(polls.len(), |i: int| polls[i] == FencePoll::Signaled)
}

/// Gives back the descriptor slots whose fence has signalled since their frame
/// retired.
pub fn drain_pending_pool_releases(
    queue: &mut VecDeque<(usize, FenceTicket)>,
    polls: &[FencePoll],
) -> (r: ReleasePass)
    requires
        polls@.len() == old(queue)@.len(),
    ensures
        final(queue)@ == kept(old(queue)@, signaled_all(polls@)),
        r.released@ == taken(old(queue)@, signaled_all(polls@)).map_values(
            |e: (usize, FenceTicket)| e.0,
        ),
        r.renderer_failed == polls@.contains(FencePoll::Failed),
{
    let ghost items = queue@;
    let ghost done = signaled_all(polls@);
    let mut remaining: VecDeque<(usize, FenceTicket)> = VecDeque::new();
    let mut released: Vec<usize> = Vec::new();
    let mut renderer_failed = false;
    let mut i: usize = 0;
    assert(items.take(0) =~= Seq::empty());
    assert(released@ =~= taken(items.take(0), done).map_values(|e: (usize, FenceTicket)| e.0));
    while i < queue.len()
        invariant
            queue@ == items,
            polls@.len() == items.len(),
            done == signaled_all(polls@),
            0 <= i <= items.len(),
            remaining@ == kept(items.take(i as int), done),
            released@ == taken(items.take(i as int), done).map_values(
                |e: (usize, FenceTicket)| e.0,
            ),
            renderer_failed == (exists|k: int| 0 <= k < i && polls@[k] == FencePoll::Failed),
        decreases items.len() - i,
    {
        let (slot, ticket) = queue[i];
        assert(items.take(i + 1).drop_last() =~= items.take(i as int));
        match polls[i] {
            FencePoll::Signaled => {
                released.push(slot);
            },
            FencePoll::Pending => {
                remaining.push_back((slot, ticket));
            },
            FencePoll::Failed => {
                renderer_failed = true;
                remaining.push_back((slot, ticket));
            },
        }
        assert(released@ =~= taken(items.take(i + 1), done).map_values(
            |e: (usize, FenceTicket)| e.0,
        ));
        i = i + 1;
    }
    assert(items.take(i as int) =~= items);
    *queue = remaining;
    ReleasePass { released, renderer_failed }
}

} // verus!
