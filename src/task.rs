//! Task identities and the per-task record kept by the engine.
use vstd::prelude::*;
use crate::output::{Output, SlotRef};

verus! {

/// A function call: the function's identifier and its ordered arguments.
#[derive(Debug)]
pub struct Identity {
    pub function: u64,
    pub args: Vec<u64>,
}

impl View for Identity {
    type V = (u64, Seq<u64>);

    open spec fn view(&self) -> (u64, Seq<u64>) {
        (self.function, self.args@)
    }
}

impl Identity {
    pub fn new(function: u64, args: Vec<u64>) -> (r: Identity)
        ensures
            r@ == (function, args@),
    {
        Identity { function, args }
    }

    /// Structural equality of two calls.
    pub fn same_call(&self, other: &Identity) -> (r: bool)
        ensures
            r == (self@ == other@),
    {
        if self.function != other.function || self.args.len() != other.args.len() {
            return false;
        }
        let mut i: usize = 0;
        while i < self.args.len()
            invariant
                self.function == other.function,
                self.args@.len() == other.args@.len(),
                i <= self.args@.len(),
                forall|j: int| 0 <= j < i ==> self.args@[j] == other.args@[j],
            decreases self.args@.len() - i,
        {
            if self.args[i] != other.args[i] {
                return false;
            }
            i = i + 1;
        }
        assert(self.args@ =~= other.args@);
        true
    }
}

/// The state of a task.
#[derive(Clone, Copy, Debug, PartialEq, Eq, Structural)]
pub enum Status {
    /// Created, never executed.
    Fresh,
    /// Waiting in a ready queue for a worker.
    Scheduled,
    /// Claimed by a worker; its body is running or parked on a dependency.
    Executing,
    /// Its output is current.
    Done,
    /// Its output may be out of date.
    Dirty,
    /// Done, but its payload was dropped to save memory.
    Unloaded,
}

/// Everything the engine knows of one task. The task's slot shares its index.
#[derive(Debug)]
pub struct Task {
    pub identity: Identity,
    pub status: Status,
    /// The last committed output, held in the task's slot.
    pub output: Output,
    /// The slot's version: bumped when the output's content changes.
    pub version: u64,
    /// The slots read by the execution that produced `output`.
    pub dependencies: Vec<SlotRef>,
    /// The slots read so far by the running execution.
    pub reads: Vec<SlotRef>,
    /// The running execution read its own slot, directly or transitively.
    pub cyclic: bool,
    /// Bumped on each successful commit.
    pub epoch: u64,
    /// The running execution was invalidated, or a slot it read changed: its
    /// commit will be refused.
    pub stale: bool,
    /// Tasks waiting on this one.
    pub waiters: Vec<usize>,
    /// The task whose output this parked execution waits for.
    pub blocked_on: Option<usize>,
    /// How many executions were started.
    pub executions: u64,
    /// How many times the task was invalidated.
    pub invalidations: u64,
    /// Cumulative execution time, in the caller's unit.
    pub duration: u64,
}

impl Task {
    /// A task that has never run.
    pub open spec fn is_fresh_of(self, identity: (u64, Seq<u64>)) -> bool {
        &&& self.identity@ == identity
        &&& self.status == Status::Fresh
        &&& self.output@ == crate::output::OutputView::Empty
        &&& self.version == 0
        &&& self.dependencies@.len() == 0
        &&& self.reads@.len() == 0
        &&& !self.cyclic
        &&& self.epoch == 0
        &&& !self.stale
        &&& self.waiters@.len() == 0
        &&& self.blocked_on is None
        &&& self.executions == 0
        &&& self.invalidations == 0
        &&& self.duration == 0
    }

    pub fn new(identity: Identity) -> (r: Task)
        ensures
            r.is_fresh_of(identity@),
    {
        Task {
            identity,
            status: Status::Fresh,
            output: Output::Empty,
            version: 0,
            dependencies: Vec::new(),
            reads: Vec::new(),
            cyclic: false,
            epoch: 0,
            stale: false,
            waiters: Vec::new(),
            blocked_on: None,
            executions: 0,
            invalidations: 0,
            duration: 0,
        }
    }
}

/// `n + 1`, held at the largest value.
pub open spec fn bump(n: u64) -> u64 {
    if n < u64::MAX { (n + 1) as u64 } else { n }
}

/// Adds one unless the counter is full.
pub fn saturating_bump(n: u64) -> (r: u64)
    ensures
        r == bump(n),
{
    if n < u64::MAX { n + 1 } else { n }
}

} // verus!
