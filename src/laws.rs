//! Properties of the engine that span several operations, proved from the
//! operations' own postconditions.
use vstd::prelude::*;
use crate::memory_backend::{add_read, committed_output, on_cycle, reachable, waits_on, wait_chain, MemoryBackend};
use crate::output::{Error, OutputView, SlotRef};
use crate::task::Status;

verus! {

/// Resolving a `Done` task twice, with nothing in between, returns the same
/// output both times, changes nothing and runs no execution.
pub proof fn law_memoization(
    b0: MemoryBackend,
    b1: MemoryBackend,
    b2: MemoryBackend,
    t: usize,
    r1: Option<OutputView>,
    r2: Option<OutputView>,
)
    requires
        t < b0.len(),
        b0.tasks@[t as int].status == Status::Done,
        MemoryBackend::resolve_post(b0, t, r1, b1),
        MemoryBackend::resolve_post(b1, t, r2, b2),
    ensures
        r1 == Some(b0.tasks@[t as int].output@),
        r2 == r1,
        b2 == b0,
        b2.tasks@[t as int].executions == b0.tasks@[t as int].executions,
{
}

proof fn lemma_reads_are_slots(
    states: Seq<MemoryBackend>,
    t: usize,
    slots: Seq<SlotRef>,
    results: Seq<Option<OutputView>>,
    i: int,
)
    requires
        0 <= i <= slots.len(),
        states.len() == slots.len() + 1,
        results.len() == slots.len(),
        t < states[0].len(),
        states[0].tasks@[t as int].status == Status::Executing,
        states[0].tasks@[t as int].reads@.len() == 0,
        forall|j: int| 0 <= j < slots.len() ==> {
            &&& slots[j] < #[trigger] states[j].len()
            &&& (states[j].tasks@[slots[j] as int].status == Status::Done || (
                states[j].tasks@[slots[j] as int].status == Status::Executing
                && waits_on(states[j].tasks@, slots[j] as int, t as int)))
            &&& MemoryBackend::read_post(states[j], t, slots[j], results[j], states[j + 1])
        },
    ensures
        t < states[i].len(),
        states[i].tasks@[t as int].status == Status::Executing,
        states[i].tasks@[t as int].reads@.to_set() == slots.subrange(0, i).to_set(),
        states[i].tasks@[t as int].reads@.no_duplicates(),
    decreases i,
{
    if i == 0 {
        assert(slots.subrange(0, 0).to_set() =~= Set::empty());
        assert(states[0].tasks@[t as int].reads@.to_set() =~= Set::empty());
    } else {
        lemma_reads_are_slots(states, t, slots, results, i - 1);
        let j = i - 1;
        assert(slots[j] < states[j].len());
        let pre = states[j].tasks@[t as int].reads@;
        let post = states[i].tasks@[t as int].reads@;
        assert(post == add_read(pre, slots[j]));
        assert(slots.subrange(0, i) =~= slots.subrange(0, j).push(slots[j]));
        assert(slots.subrange(0, j).push(slots[j]).to_set() =~= slots.subrange(0, j).to_set().insert(slots[j])) by {
            assert forall|x: SlotRef| slots.subrange(0, j).push(slots[j]).contains(x)
                <==> slots.subrange(0, j).to_set().insert(slots[j]).contains(x) by {
                if slots.subrange(0, j).contains(x) {
                    let k = choose|k: int| 0 <= k < j && slots.subrange(0, j)[k] == x;
                    assert(slots.subrange(0, j).push(slots[j])[k] == x);
                }
                if x == slots[j] {
                    assert(slots.subrange(0, j).push(slots[j])[j] == x);
                }
                if slots.subrange(0, j).push(slots[j]).contains(x) && x != slots[j] {
                    let k = choose|k: int| 0 <= k <= j && slots.subrange(0, j).push(slots[j])[k] == x;
                    assert(slots.subrange(0, j)[k] == x);
                }
            }
        }
        if !pre.contains(slots[j]) {
            assert(post.to_set() =~= pre.to_set().insert(slots[j])) by {
                assert forall|x: SlotRef| post.contains(x) <==> pre.to_set().insert(slots[j]).contains(x) by {
                    if pre.contains(x) {
                        let k = choose|k: int| 0 <= k < pre.len() && pre[k] == x;
                        assert(post[k] == x);
                    }
                    if post.contains(x) && x != slots[j] {
                        let k = choose|k: int| 0 <= k < post.len() && post[k] == x;
                        assert(k < pre.len());
                    }
                    if x == slots[j] {
                        assert(post[pre.len() as int] == x);
                    }
                }
            }
        } else {
            assert(pre.to_set().insert(slots[j]) =~= pre.to_set());
        }
    }
}

/// An execution that starts, reads the slots `slots` and commits leaves the
/// task depending on exactly those slots, each recorded once. Each read is
/// answered: its owner is `Done`, or the read closes a cycle.
pub proof fn law_dependency_completeness(
    start: MemoryBackend,
    t: usize,
    epoch: u64,
    states: Seq<MemoryBackend>,
    slots: Seq<SlotRef>,
    results: Seq<Option<OutputView>>,
    output: OutputView,
    r: Result<bool, Error>,
    fin: MemoryBackend,
)
    requires
        t < start.len(),
        MemoryBackend::begin_post(start, t, epoch, states[0]),
        states.len() == slots.len() + 1,
        results.len() == slots.len(),
        forall|j: int| 0 <= j < slots.len() ==> {
            &&& slots[j] < #[trigger] states[j].len()
            &&& (states[j].tasks@[slots[j] as int].status == Status::Done || (
                states[j].tasks@[slots[j] as int].status == Status::Executing
                && waits_on(states[j].tasks@, slots[j] as int, t as int)))
            &&& MemoryBackend::read_post(states[j], t, slots[j], results[j], states[j + 1])
        },
        MemoryBackend::commit_post(states[slots.len() as int], t, epoch, output, r, fin),
        r is Ok,
    ensures
        fin.tasks@[t as int].status == Status::Done,
        fin.tasks@[t as int].dependencies@.to_set() == slots.to_set(),
        fin.tasks@[t as int].dependencies@.no_duplicates(),
{
    assert(states[0].len() == start.len());
    lemma_reads_are_slots(states, t, slots, results, slots.len() as int);
    assert(slots.subrange(0, slots.len() as int) =~= slots);
}

/// When a current execution's commit changes a slot's content, exactly the
/// `Done` tasks reached from the slot through reader edges turn `Dirty`; every
/// other task keeps its state.
pub proof fn law_invalidation_propagation(
    pre: MemoryBackend,
    t: usize,
    output: OutputView,
    r: Result<bool, Error>,
    post: MemoryBackend,
)
    requires
        t < pre.len(),
        MemoryBackend::commit_post(pre, t, pre.tasks@[t as int].epoch, output, r, post),
        !pre.tasks@[t as int].stale,
        committed_output(pre.tasks@[t as int], output) != pre.tasks@[t as int].output@,
        pre.tasks@[t as int].version < u64::MAX,
    ensures
        r == Ok::<bool, Error>(true),
        post.tasks@[t as int].version == pre.tasks@[t as int].version + 1,
        forall|i: int| 0 <= i < pre.len() && i != t && reachable(pre.tasks@, t as int, i)
            ==> #[trigger] post.tasks@[i].status == Status::Dirty,
        forall|i: int| 0 <= i < pre.len() && i != t && !reachable(pre.tasks@, t as int, i)
            ==> #[trigger] post.tasks@[i].status == pre.tasks@[i].status,
{
}

/// A current execution's commit whose output equals the previous one keeps the
/// slot's version and leaves every other task as it was.
pub proof fn law_damping(
    pre: MemoryBackend,
    t: usize,
    output: OutputView,
    r: Result<bool, Error>,
    post: MemoryBackend,
)
    requires
        t < pre.len(),
        MemoryBackend::commit_post(pre, t, pre.tasks@[t as int].epoch, output, r, post),
        !pre.tasks@[t as int].stale,
        committed_output(pre.tasks@[t as int], output) == pre.tasks@[t as int].output@,
    ensures
        r == Ok::<bool, Error>(false),
        post.tasks@[t as int].version == pre.tasks@[t as int].version,
        forall|i: int| 0 <= i < pre.len() && i != t ==> {
            &&& #[trigger] post.tasks@[i].status == pre.tasks@[i].status
            &&& post.tasks@[i].invalidations == pre.tasks@[i].invalidations
        },
{
}

/// A current execution that reads its own slot, or the slot of a running task
/// that waits on it, gets `Panicked(CyclicDependency)` at once and commits that
/// output, whatever its body returns. Every task of the cycle is flagged the
/// same way, so whatever any of them commits is `Panicked(CyclicDependency)`.
pub proof fn law_cycle_rejection(
    pre: MemoryBackend,
    t: usize,
    slot: SlotRef,
    read: Option<OutputView>,
    mid: MemoryBackend,
    output: OutputView,
    r: Result<bool, Error>,
    post: MemoryBackend,
)
    requires
        t < pre.len(),
        slot < pre.len(),
        pre.tasks@[t as int].status == Status::Executing,
        !pre.tasks@[t as int].stale,
        slot == t || (pre.tasks@[slot as int].status == Status::Executing && waits_on(
            pre.tasks@,
            slot as int,
            t as int,
        )),
        MemoryBackend::read_post(pre, t, slot, read, mid),
        MemoryBackend::commit_post(mid, t, mid.tasks@[t as int].epoch, output, r, post),
    ensures
        read == Some(OutputView::Panicked(Error::CyclicDependency)),
        forall|i: int, out: OutputView| 0 <= i < pre.len() && on_cycle(pre.tasks@, slot as int, t as int, i)
            ==> #[trigger] committed_output(mid.tasks@[i], out) == OutputView::Panicked(Error::CyclicDependency),
        r is Ok,
        post.tasks@[t as int].output@ == OutputView::Panicked(Error::CyclicDependency),
{
    if slot == t {
        assert(wait_chain(pre.tasks@, t as int, 0) == Some(t as int));
    }
    assert forall|i: int, out: OutputView| 0 <= i < pre.len() && on_cycle(pre.tasks@, slot as int, t as int, i)
        implies #[trigger] committed_output(mid.tasks@[i], out) == OutputView::Panicked(Error::CyclicDependency) by {
        if i != t {
            assert(mid.tasks@[i].cyclic);
        }
    }
}

/// Evicting a payload changes no other task: a `Done` task that read it still
/// answers from its slot. The evicted task itself answers `None` and is
/// scheduled, never with a stale value; once it re-executes and commits the
/// output it had before, it answers that output again.
pub proof fn law_eviction_transparency(
    pre: MemoryBackend,
    t: usize,
    evicted: MemoryBackend,
    d: usize,
    rd: Option<OutputView>,
    after: MemoryBackend,
)
    requires
        t < pre.len(),
        d < pre.len(),
        d != t,
        pre.tasks@[d as int].status == Status::Done,
        MemoryBackend::evict_post(pre, t, true, evicted),
        MemoryBackend::resolve_post(evicted, d, rd, after),
    ensures
        rd == Some(pre.tasks@[d as int].output@),
{
    assert(evicted.tasks@[d as int] == pre.tasks@[d as int]);
}

/// The evicted task is recomputed, not read stale, and a deterministic
/// re-execution restores its output.
pub proof fn law_eviction_rederivation(
    pre: MemoryBackend,
    t: usize,
    b1: MemoryBackend,
    r1: Option<OutputView>,
    b2: MemoryBackend,
    epoch: u64,
    b3: MemoryBackend,
    c: Result<bool, Error>,
    b4: MemoryBackend,
    r2: Option<OutputView>,
    b5: MemoryBackend,
)
    requires
        t < pre.len(),
        pre.tasks@[t as int].status == Status::Done,
        MemoryBackend::evict_post(pre, t, true, b1),
        MemoryBackend::resolve_post(b1, t, r1, b2),
        MemoryBackend::begin_post(b2, t, epoch, b3),
        MemoryBackend::commit_post(b3, t, epoch, pre.tasks@[t as int].output@, c, b4),
        MemoryBackend::resolve_post(b4, t, r2, b5),
    ensures
        r1 is None,
        b2.tasks@[t as int].status == Status::Scheduled,
        r2 == Some(pre.tasks@[t as int].output@),
{
}

} // verus!
