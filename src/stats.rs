//! Per-task counters: additive, and never read by the engine's decisions.
use vstd::prelude::*;
use crate::memory_backend::{lemma_calls_kept, others_same, MemoryBackend};

verus! {

impl MemoryBackend {
    /// How many executions of `t` were started.
    pub fn execution_count(&self, t: usize) -> (r: u64)
        requires
            t < self.len(),
        ensures
            r == self.tasks@[t as int].executions,
    {
        self.tasks[t].executions
    }

    /// How many times `t` was invalidated.
    pub fn invalidation_count(&self, t: usize) -> (r: u64)
        requires
            t < self.len(),
        ensures
            r == self.tasks@[t as int].invalidations,
    {
        self.tasks[t].invalidations
    }

    /// The cumulative execution time recorded for `t`.
    pub fn total_duration(&self, t: usize) -> (r: u64)
        requires
            t < self.len(),
        ensures
            r == self.tasks@[t as int].duration,
    {
        self.tasks[t].duration
    }

    /// Adds the time one execution of `t` took; the sum is held at the largest value.
    pub fn record_duration(&mut self, t: usize, elapsed: u64)
        requires
            old(self).wf(),
            t < old(self).len(),
        ensures
            final(self).wf(),
            final(self).same_queues(*old(self)),
            others_same(final(self).tasks@, old(self).tasks@, t as int),
            final(self).tasks@[t as int].duration as int == {
                let sum = old(self).tasks@[t as int].duration + elapsed;
                if sum > u64::MAX { u64::MAX as int } else { sum }
            },
            ({
                let o = old(self).tasks@[t as int];
                let n = final(self).tasks@[t as int];
                &&& n.identity == o.identity
                &&& n.status == o.status
                &&& n.output == o.output
                &&& n.version == o.version
                &&& n.dependencies == o.dependencies
                &&& n.reads == o.reads
                &&& n.cyclic == o.cyclic
                &&& n.epoch == o.epoch
                &&& n.stale == o.stale
                &&& n.waiters == o.waiters
                &&& n.blocked_on == o.blocked_on
                &&& n.executions == o.executions
                &&& n.invalidations == o.invalidations
            }),
    {
        self.tasks[t].duration = self.tasks[t].duration.saturating_add(elapsed);
        proof {
            assert forall|i: int| 0 <= i < self.len() implies #[trigger] self.task_wf(i) by {
                assert(old(self).task_wf(i));
            }
            lemma_calls_kept(old(self).tasks@, self.tasks@);
        }
    }
}

} // verus!
