//! Dropping payloads under a memory budget while keeping the graph.
use vstd::prelude::*;
use crate::memory_backend::{lemma_calls_kept, lemma_len_below, others_same, MemoryBackend};
use crate::output::{Output, OutputView};
use crate::task::{Status, Task};

verus! {

/// The payload bytes held by all outputs of `g`.
pub open spec fn payload_size(g: Seq<Task>) -> nat
    decreases g.len(),
{
    if g.len() == 0 {
        0
    } else {
        payload_size(g.drop_last()) + g.last().output@.size()
    }
}

/// A task whose payload may be dropped: done, nobody parked on it, and holding bytes.
pub open spec fn evictable(t: Task) -> bool {
    t.status == Status::Done && t.waiters@.len() == 0 && t.output@.size() > 0
}

/// `n` is `o` with its payload dropped: `o` was `Done` with nobody waiting, and
/// only the status and the output changed.
pub open spec fn dropped(n: Task, o: Task) -> bool {
    &&& o.status == Status::Done
    &&& o.waiters@.len() == 0
    &&& n.status == Status::Unloaded
    &&& n.output@ == OutputView::Empty
    &&& n.identity == o.identity
    &&& n.version == o.version
    &&& n.dependencies == o.dependencies
    &&& n.reads == o.reads
    &&& n.cyclic == o.cyclic
    &&& n.epoch == o.epoch
    &&& n.stale == o.stale
    &&& n.waiters == o.waiters
    &&& n.blocked_on == o.blocked_on
    &&& n.executions == o.executions
    &&& n.invalidations == o.invalidations
    &&& n.duration == o.duration
}

/// The indices of the tasks of `now` whose payload was dropped since `before`.
pub open spec fn dropped_tasks(now: Seq<Task>, before: Seq<Task>) -> Set<int> {
    Set::new(|i: int| 0 <= i < before.len() && dropped(now[i], before[i]))
}

proof fn lemma_prefix_size(g: Seq<Task>, i: int)
    requires
        0 <= i <= g.len(),
    ensures
        payload_size(g.subrange(0, i)) <= payload_size(g),
    decreases g.len() - i,
{
    if i < g.len() {
        lemma_prefix_size(g, i + 1);
        assert(g.subrange(0, i + 1).drop_last() =~= g.subrange(0, i));
    } else {
        assert(g.subrange(0, i) =~= g);
    }
}

proof fn lemma_size_after_drop(a: Seq<Task>, b: Seq<Task>, t: int)
    requires
        others_same(b, a, t),
        0 <= t < a.len(),
        b[t].output@ == OutputView::Empty,
    ensures
        payload_size(b) + a[t].output@.size() == payload_size(a),
    decreases a.len(),
{
    if t < a.len() - 1 {
        assert(others_same(b.drop_last(), a.drop_last(), t));
        lemma_size_after_drop(a.drop_last(), b.drop_last(), t);
    } else {
        assert(b.drop_last() =~= a.drop_last());
    }
}

impl MemoryBackend {
    /// Whether the payloads exceed the budget.
    pub fn over_budget(&self) -> (r: bool)
        ensures
            r == self.over_budget_spec(),
    {
        let limit = match self.memory_limit {
            Some(l) => l,
            None => return false,
        };
        let mut acc: usize = 0;
        let mut i: usize = 0;
        while i < self.tasks.len()
            invariant
                i <= self.tasks@.len(),
                acc <= limit,
                acc == payload_size(self.tasks@.subrange(0, i as int)),
                self.memory_limit == Some(limit),
            decreases self.tasks@.len() - i,
        {
            let size = self.tasks[i].output.size();
            assert(self.tasks@.subrange(0, i + 1).drop_last() =~= self.tasks@.subrange(0, i as int));
            if size > limit - acc {
                proof {
                    lemma_prefix_size(self.tasks@, i + 1);
                }
                return true;
            }
            acc = acc + size;
            i = i + 1;
        }
        assert(self.tasks@.subrange(0, i as int) =~= self.tasks@);
        false
    }

    /// The evictable task holding the most payload bytes, if any.
    pub fn evict_candidate(&self) -> (r: Option<usize>)
        ensures
            match r {
                Some(t) => t < self.len() && evictable(self.tasks@[t as int]) && forall|i: int|
                    0 <= i < self.len() && evictable(#[trigger] self.tasks@[i])
                        ==> self.tasks@[i].output@.size() <= self.tasks@[t as int].output@.size(),
                None => forall|i: int| 0 <= i < self.len() ==> !evictable(#[trigger] self.tasks@[i]),
            },
    {
        let mut best: Option<usize> = None;
        let mut best_size: usize = 0;
        let mut i: usize = 0;
        while i < self.tasks.len()
            invariant
                i <= self.len(),
                match best {
                    Some(t) => t < i && evictable(self.tasks@[t as int])
                        && best_size == self.tasks@[t as int].output@.size(),
                    None => best_size == 0,
                },
                forall|j: int| 0 <= j < i && evictable(#[trigger] self.tasks@[j])
                    ==> best is Some && self.tasks@[j].output@.size() <= best_size,
            decreases self.len() - i,
        {
            let task = &self.tasks[i];
            let size = task.output.size();
            if task.status == Status::Done && task.waiters.len() == 0 && size > best_size {
                best = Some(i);
                best_size = size;
            }
            i = i + 1;
        }
        best
    }

    /// What `evict` does.
    pub open spec fn evict_post(pre: MemoryBackend, t: usize, r: bool, post: MemoryBackend) -> bool {
        &&& post.same_queues(pre)
        &&& others_same(post.tasks@, pre.tasks@, t as int)
        &&& r == (pre.tasks@[t as int].status == Status::Done
            && pre.tasks@[t as int].waiters@.len() == 0)
        &&& {
            let o = pre.tasks@[t as int];
            let n = post.tasks@[t as int];
            if r {
                &&& n.status == Status::Unloaded
                &&& n.output@ == OutputView::Empty
                &&& n.identity == o.identity
                &&& n.version == o.version
                &&& n.dependencies == o.dependencies
                &&& n.reads == o.reads
                &&& n.cyclic == o.cyclic
                &&& n.epoch == o.epoch
                &&& n.stale == o.stale
                &&& n.waiters == o.waiters
                &&& n.blocked_on == o.blocked_on
                &&& n.executions == o.executions
                &&& n.invalidations == o.invalidations
                &&& n.duration == o.duration
            } else {
                n == o
            }
        }
    }

    /// Drops the payload of a `Done` task nobody waits on; it becomes `Unloaded`
    /// and its next resolution re-executes it. Returns whether it was dropped.
    pub fn evict(&mut self, t: usize) -> (r: bool)
        requires
            old(self).wf(),
            t < old(self).len(),
        ensures
            final(self).wf(),
            Self::evict_post(*old(self), t, r, *final(self)),
    {
        if self.tasks[t].status != Status::Done || self.tasks[t].waiters.len() != 0 {
            return false;
        }
        self.tasks[t].status = Status::Unloaded;
        self.tasks[t].output = Output::Empty;
        proof {
            assert forall|i: int| 0 <= i < self.len() implies #[trigger] self.task_wf(i) by {
                assert(old(self).task_wf(i));
            }
            lemma_calls_kept(old(self).tasks@, self.tasks@);
        }
        true
    }

    /// Evicts the largest evictable payloads until the budget holds or nothing
    /// is left to evict; returns how many were evicted.
    pub fn collect_garbage(&mut self) -> (r: usize)
        requires
            old(self).wf(),
        ensures
            final(self).wf(),
            final(self).same_queues(*old(self)),
            final(self).len() == old(self).len(),
            !final(self).over_budget_spec() || forall|i: int|
                0 <= i < final(self).len() ==> !evictable(#[trigger] final(self).tasks@[i]),
            forall|i: int| 0 <= i < old(self).len() ==> #[trigger] final(self).tasks@[i] == old(self).tasks@[i]
                || dropped(final(self).tasks@[i], old(self).tasks@[i]),
            r == dropped_tasks(final(self).tasks@, old(self).tasks@).len(),
    {
        let mut count: usize = 0;
        proof {
            assert(dropped_tasks(self.tasks@, old(self).tasks@) =~= Set::empty());
        }
        loop
            invariant
                self.wf(),
                self.same_queues(*old(self)),
                self.len() == old(self).len(),
                forall|i: int| 0 <= i < old(self).len() ==> #[trigger] self.tasks@[i] == old(self).tasks@[i]
                    || dropped(self.tasks@[i], old(self).tasks@[i]),
                dropped_tasks(self.tasks@, old(self).tasks@).finite(),
                count == dropped_tasks(self.tasks@, old(self).tasks@).len(),
            decreases payload_size(self.tasks@),
        {
            if !self.over_budget() {
                return count;
            }
            match self.evict_candidate() {
                Some(t) => {
                    let ghost before = self.tasks@;
                    let ghost was = dropped_tasks(before, old(self).tasks@);
                    self.evict(t);
                    proof {
                        assert(!dropped(before[t as int], old(self).tasks@[t as int]));
                        assert(dropped_tasks(self.tasks@, old(self).tasks@) =~= was.insert(t as int)) by {
                            assert forall|i: int| 0 <= i < old(self).len() && i != t implies
                                #[trigger] self.tasks@[i] == before[i] by {}
                        }
                        assert(dropped_tasks(self.tasks@, old(self).tasks@).subset_of(
                            Set::new(|x: int| 0 <= x < old(self).len())));
                        lemma_len_below(dropped_tasks(self.tasks@, old(self).tasks@), old(self).len());
                        assert(!was.contains(t as int));
                        assert(dropped_tasks(self.tasks@, old(self).tasks@).len() == was.len() + 1);
                        lemma_size_after_drop(before, self.tasks@, t as int);
                        assert(before[t as int] == old(self).tasks@[t as int]);
                        assert forall|i: int| 0 <= i < old(self).len() implies #[trigger] self.tasks@[i]
                            == old(self).tasks@[i] || dropped(self.tasks@[i], old(self).tasks@[i]) by {
                            if i != t {
                                assert(self.tasks@[i] == before[i]);
                            }
                        }
                    }
                    let n = self.tasks.len();
                    assert(count + 1 <= n);
                    count = count + 1;
                },
                None => {
                    return count;
                },
            }
        }
    }

    /// The payloads exceed the budget.
    pub open spec fn over_budget_spec(&self) -> bool {
        self.memory_limit matches Some(l) && payload_size(self.tasks@) > l
    }
}

} // verus!
