//! The in-memory backend: the arena of tasks, dependency tracking, invalidation,
//! the ready queues and eviction.
use vstd::prelude::*;
use crate::output::{opt_view, Error, Output, OutputView, SlotRef};
use crate::task::{bump, saturating_bump, Identity, Status, Task};
use vstd::set_lib::{lemma_int_range, lemma_len_subset, set_int_range};

verus! {

/// All ids in `s` name tasks of an arena of `n` tasks.
pub open spec fn ids_below(s: Seq<usize>, n: int) -> bool {
    forall|i: int| 0 <= i < s.len() ==> s[i] < n
}

/// Task `r` read slot `u` in the execution that produced its current output.
pub open spec fn is_reader(g: Seq<Task>, r: int, u: int) -> bool {
    0 <= r < g.len() && g[r].dependencies@.contains(u as usize)
}

/// The `Done` tasks reached from slot `src` by following reader edges through
/// `Done` tasks, in at most `n + 1` steps.
pub open spec fn reach(g: Seq<Task>, src: int, n: nat) -> Set<int>
    decreases n,
{
    if n == 0 {
        Set::new(|r: int| is_reader(g, r, src) && g[r].status == Status::Done)
    } else {
        let prev = reach(g, src, (n - 1) as nat);
        prev.union(
            Set::new(
                |r: int|
                    0 <= r < g.len() && g[r].status == Status::Done && exists|u: int|
                        prev.contains(u) && #[trigger] is_reader(g, r, u),
            ),
        )
    }
}

/// Task `r` is reached from slot `src` through reader edges and `Done` tasks.
pub open spec fn reachable(g: Seq<Task>, src: int, r: int) -> bool {
    exists|n: nat| #[trigger] reach(g, src, n).contains(r)
}

/// Two records agree on everything but the status, the invalidation count and
/// the staleness of a running execution.
pub open spec fn same_record(a: Task, b: Task) -> bool {
    &&& a.identity == b.identity
    &&& a.output == b.output
    &&& a.version == b.version
    &&& a.dependencies == b.dependencies
    &&& a.reads == b.reads
    &&& a.cyclic == b.cyclic
    &&& a.epoch == b.epoch
    &&& a.waiters == b.waiters
    &&& a.blocked_on == b.blocked_on
    &&& a.executions == b.executions
    &&& a.duration == b.duration
}

/// `cur` is `g` with the `Done` tasks of `visited` turned `Dirty`.
spec fn marked(cur: Seq<Task>, g: Seq<Task>, visited: Set<int>) -> bool {
    &&& cur.len() == g.len()
    &&& forall|x: int| visited.contains(x) ==> 0 <= x < g.len() && g[x].status == Status::Done
    &&& forall|x: int| #![trigger cur[x]] 0 <= x < g.len() ==> {
        &&& cur[x].status == if visited.contains(x) { Status::Dirty } else { g[x].status }
        &&& cur[x].invalidations == if visited.contains(x) {
            bump(g[x].invalidations)
        } else {
            g[x].invalidations
        }
        &&& same_record(cur[x], g[x])
        &&& cur[x].stale == g[x].stale
    }
}

pub proof fn lemma_len_below(s: Set<int>, n: int)
    requires
        0 <= n,
        s.subset_of(Set::new(|x: int| 0 <= x < n)),
    ensures
        s.finite(),
        s.len() <= n,
{
    lemma_int_range(0, n);
    assert(Set::new(|x: int| 0 <= x < n) =~= set_int_range(0, n));
    lemma_len_subset(s, set_int_range(0, n));
}

/// A set that holds the `Done` readers of `src` and is closed under `Done`
/// readers holds everything reached from `src`.
proof fn lemma_reach_closed(g: Seq<Task>, src: int, visited: Set<int>, m: nat)
    requires
        forall|x: int| is_reader(g, x, src) && g[x].status == Status::Done ==> #[trigger] visited.contains(x),
        forall|u: int, x: int| visited.contains(u) && #[trigger] is_reader(g, x, u) && g[x].status
            == Status::Done ==> visited.contains(x),
    ensures
        reach(g, src, m).subset_of(visited),
    decreases m,
{
    if m > 0 {
        lemma_reach_closed(g, src, visited, (m - 1) as nat);
    }
}

proof fn lemma_chain_ends(g: Seq<Task>, x: int, k: nat, j: nat)
    requires
        k < j,
        wait_chain(g, x, k) matches Some(y) && 0 <= y < g.len() && g[y].blocked_on is None,
    ensures
        wait_chain(g, x, j) is None,
    decreases j,
{
    if j > k + 1 {
        lemma_chain_ends(g, x, k, (j - 1) as nat);
    }
}

/// No call is interned twice.
pub open spec fn distinct_calls(g: Seq<Task>) -> bool {
    forall|i: int, j: int|
        0 <= i < g.len() && 0 <= j < g.len() && i != j
            ==> #[trigger] g[i].identity@ != #[trigger] g[j].identity@
}

pub proof fn lemma_calls_kept(a: Seq<Task>, b: Seq<Task>)
    requires
        distinct_calls(a),
        a.len() == b.len(),
        forall|i: int| 0 <= i < a.len() ==> #[trigger] b[i].identity == a[i].identity,
    ensures
        distinct_calls(b),
{
    assert forall|i: int, j: int|
        0 <= i < b.len() && 0 <= j < b.len() && i != j
            implies #[trigger] b[i].identity@ != #[trigger] b[j].identity@ by {
        assert(b[i].identity == a[i].identity);
        assert(b[j].identity == a[j].identity);
    }
}

/// Only `Done` tasks are reached.
proof fn lemma_reach_done(g: Seq<Task>, src: int, m: nat, r: int)
    requires
        reach(g, src, m).contains(r),
    ensures
        0 <= r < g.len(),
        g[r].status == Status::Done,
    decreases m,
{
    if m > 0 && reach(g, src, (m - 1) as nat).contains(r) {
        lemma_reach_done(g, src, (m - 1) as nat, r);
    }
}

proof fn lemma_drop_first_below(s: Seq<usize>, n: int)
    requires
        ids_below(s, n),
        s.len() > 0,
    ensures
        ids_below(s.drop_first(), n),
{
    assert forall|i: int| 0 <= i < s.drop_first().len() implies #[trigger] s.drop_first()[i] < n by {
        assert(s.drop_first()[i] == s[i + 1]);
    }
}

/// Whether `x` occurs in `v`.
pub(crate) fn contains(v: &Vec<usize>, x: usize) -> (r: bool)
    ensures
        r == v@.contains(x),
{
    let mut i: usize = 0;
    while i < v.len()
        invariant
            i <= v@.len(),
            forall|j: int| 0 <= j < i ==> v@[j] != x,
        decreases v@.len() - i,
    {
        if v[i] == x {
            return true;
        }
        i = i + 1;
    }
    false
}

/// Two records agree on everything but what an execution has read so far.
pub open spec fn same_but_reads(a: Task, b: Task) -> bool {
    &&& a.identity == b.identity
    &&& a.stale == b.stale
    &&& a.status == b.status
    &&& a.output == b.output
    &&& a.version == b.version
    &&& a.dependencies == b.dependencies
    &&& a.epoch == b.epoch
    &&& a.waiters == b.waiters
    &&& a.blocked_on == b.blocked_on
    &&& a.executions == b.executions
    &&& a.invalidations == b.invalidations
    &&& a.duration == b.duration
}

/// Two records agree on everything but the status and who waits on whom.
pub open spec fn same_but_waiting(a: Task, b: Task) -> bool {
    &&& a.identity == b.identity
    &&& a.stale == b.stale
    &&& a.output == b.output
    &&& a.version == b.version
    &&& a.dependencies == b.dependencies
    &&& a.reads == b.reads
    &&& a.cyclic == b.cyclic
    &&& a.epoch == b.epoch
    &&& a.executions == b.executions
    &&& a.invalidations == b.invalidations
    &&& a.duration == b.duration
}

/// The reads of an execution after it reads `slot`: a set, kept in first-read order.
pub open spec fn add_read(reads: Seq<usize>, slot: usize) -> Seq<usize> {
    if reads.contains(slot) {
        reads
    } else {
        reads.push(slot)
    }
}

/// `a` and `b` hold the same tasks, except perhaps task `t`.
pub open spec fn others_same(a: Seq<Task>, b: Seq<Task>, t: int) -> bool {
    &&& a.len() == b.len()
    &&& forall|i: int| 0 <= i < a.len() && i != t ==> #[trigger] a[i] == b[i]
}

/// The task reached from `x` by following `blocked_on` links `k` times.
pub open spec fn wait_chain(g: Seq<Task>, x: int, k: nat) -> Option<int>
    decreases k,
{
    if k == 0 {
        Some(x)
    } else {
        match wait_chain(g, x, (k - 1) as nat) {
            Some(y) => if 0 <= y < g.len() {
                match g[y].blocked_on {
                    Some(b) => Some(b as int),
                    None => None,
                }
            } else {
                None
            },
            None => None,
        }
    }
}

/// Task `x` waits, directly or through parked executions, on task `target`
/// (or is `target`).
pub open spec fn waits_on(g: Seq<Task>, x: int, target: int) -> bool {
    exists|k: nat| k < g.len() && #[trigger] wait_chain(g, x, k) == Some(target)
}

/// Task `i` lies on the wait chain from `x` up to its first arrival at
/// `target`; `x` waits on `target`. These are the tasks of the cycle that a read
/// of `x`'s slot by `target` closes.
pub open spec fn on_cycle(g: Seq<Task>, x: int, target: int, i: int) -> bool {
    &&& waits_on(g, x, target)
    &&& exists|k: nat| #![trigger wait_chain(g, x, k)] k < g.len() && wait_chain(g, x, k) == Some(i)
        && forall|j: nat| j < k ==> #[trigger] wait_chain(g, x, j) != Some(target)
}

/// The output that a commit stores: a cyclic read overrides the body's output.
pub open spec fn committed_output(t: Task, output: OutputView) -> OutputView {
    if t.cyclic {
        OutputView::Panicked(Error::CyclicDependency)
    } else {
        output
    }
}

/// The arena of tasks, indexed by task id, with its ready queues.
pub struct MemoryBackend {
    pub tasks: Vec<Task>,
    /// Tasks requested directly by a caller, served first.
    pub direct_queue: Vec<usize>,
    /// Tasks needed by another task's execution.
    pub transitive_queue: Vec<usize>,
    /// Parked executions whose dependency has been committed.
    pub resume_queue: Vec<usize>,
    /// The payload budget in bytes, if any.
    pub memory_limit: Option<usize>,
}

impl MemoryBackend {
    pub open spec fn len(&self) -> int {
        self.tasks@.len() as int
    }

    /// The queues and the budget are those of `other`.
    pub open spec fn same_queues(&self, other: MemoryBackend) -> bool {
        &&& self.direct_queue == other.direct_queue
        &&& self.transitive_queue == other.transitive_queue
        &&& self.resume_queue == other.resume_queue
        &&& self.memory_limit == other.memory_limit
    }

    pub open spec fn task_wf(&self, i: int) -> bool {
        let t = self.tasks@[i];
        let n = self.len();
        &&& ids_below(t.dependencies@, n)
        &&& ids_below(t.reads@, n)
        &&& ids_below(t.waiters@, n)
        &&& (t.blocked_on matches Some(b) ==> b < n)
        &&& (t.output@ matches OutputView::Reference(s) ==> s < n)
    }

    /// The arena is well formed: ids stay in range and no call is interned twice.
    pub open spec fn wf(&self) -> bool {
        &&& forall|i: int| 0 <= i < self.len() ==> #[trigger] self.task_wf(i)
        &&& distinct_calls(self.tasks@)
        &&& ids_below(self.direct_queue@, self.len())
        &&& ids_below(self.transitive_queue@, self.len())
        &&& ids_below(self.resume_queue@, self.len())
    }

    /// An engine with no tasks, and the given payload budget in bytes.
    pub fn new(memory_limit: Option<usize>) -> (r: MemoryBackend)
        ensures
            r.wf(),
            r.len() == 0,
            r.direct_queue@.len() == 0,
            r.transitive_queue@.len() == 0,
            r.resume_queue@.len() == 0,
            r.memory_limit == memory_limit,
    {
        MemoryBackend {
            tasks: Vec::new(),
            direct_queue: Vec::new(),
            transitive_queue: Vec::new(),
            resume_queue: Vec::new(),
            memory_limit,
        }
    }

    /// The number of tasks.
    pub fn task_count(&self) -> (r: usize)
        ensures
            r == self.len(),
    {
        self.tasks.len()
    }

    /// The task interned for `identity`, if any.
    pub fn find_task(&self, identity: &Identity) -> (r: Option<usize>)
        ensures
            match r {
                Some(i) => i < self.len() && self.tasks@[i as int].identity@ == identity@,
                None => forall|i: int|
                    0 <= i < self.len() ==> #[trigger] self.tasks@[i].identity@ != identity@,
            },
    {
        let mut i: usize = 0;
        while i < self.tasks.len()
            invariant
                i <= self.len(),
                forall|j: int| 0 <= j < i ==> #[trigger] self.tasks@[j].identity@ != identity@,
            decreases self.len() - i,
        {
            if self.tasks[i].identity.same_call(identity) {
                return Some(i);
            }
            i = i + 1;
        }
        None
    }

    /// What `get_or_create_task` does.
    pub open spec fn intern_post(pre: MemoryBackend, identity: (u64, Seq<u64>), id: usize, post: MemoryBackend) -> bool {
        &&& id < post.len()
        &&& post.tasks@[id as int].identity@ == identity
        &&& (exists|i: int| 0 <= i < pre.len() && #[trigger] pre.tasks@[i].identity@ == identity)
            ==> post == pre
        &&& (forall|i: int| 0 <= i < pre.len() ==> #[trigger] pre.tasks@[i].identity@ != identity)
            ==> id == pre.len() && post.tasks@.drop_last() == pre.tasks@
                && post.tasks@.last().is_fresh_of(identity)
                && post.direct_queue == pre.direct_queue
                && post.transitive_queue == pre.transitive_queue
                && post.resume_queue == pre.resume_queue
                && post.memory_limit == pre.memory_limit
    }

    /// Interns a call: the existing task for an equal call, or a new `Fresh` one.
    pub fn get_or_create_task(&mut self, identity: Identity) -> (id: usize)
        requires
            old(self).wf(),
            old(self).len() < usize::MAX,
        ensures
            final(self).wf(),
            Self::intern_post(*old(self), identity@, id, *final(self)),
    {
        match self.find_task(&identity) {
            Some(i) => i,
            None => {
                let id = self.tasks.len();
                self.tasks.push(Task::new(identity));
                assert(self.tasks@.drop_last() =~= old(self).tasks@);
                assert forall|i: int| 0 <= i < self.len() implies #[trigger] self.task_wf(i) by {
                    if i < id {
                        assert(old(self).task_wf(i));
                    }
                }
                assert forall|i: int, j: int|
                    0 <= i < self.len() && 0 <= j < self.len() && i != j
                        implies #[trigger] self.tasks@[i].identity@ != #[trigger] self.tasks@[j].identity@ by {
                    if i < id && j < id {
                        assert(self.tasks@[i] == old(self).tasks@[i]);
                        assert(self.tasks@[j] == old(self).tasks@[j]);
                    } else if i < id {
                        assert(self.tasks@[i] == old(self).tasks@[i]);
                    } else {
                        assert(self.tasks@[j] == old(self).tasks@[j]);
                    }
                }
                id
            }
        }
    }

    fn mark_dirty(&mut self, r: usize)
        requires
            r < old(self).len(),
        ensures
            final(self).len() == old(self).len(),
            forall|i: int| 0 <= i < old(self).len() && i != r ==> #[trigger] final(self).tasks@[i] == old(self).tasks@[i],
            final(self).tasks@[r as int].status == Status::Dirty,
            final(self).tasks@[r as int].invalidations == bump(old(self).tasks@[r as int].invalidations),
            same_record(final(self).tasks@[r as int], old(self).tasks@[r as int]),
            final(self).tasks@[r as int].stale == old(self).tasks@[r as int].stale,
            final(self).direct_queue == old(self).direct_queue,
            final(self).transitive_queue == old(self).transitive_queue,
            final(self).resume_queue == old(self).resume_queue,
            final(self).memory_limit == old(self).memory_limit,
    {
        self.tasks[r].status = Status::Dirty;
        self.tasks[r].invalidations = saturating_bump(self.tasks[r].invalidations);
    }

    /// Makes stale every running execution, other than that of `t`, that has
    /// read slot `t`.
    fn mark_stale_readers(&mut self, t: usize)
        requires
            old(self).wf(),
            t < old(self).len(),
        ensures
            final(self).wf(),
            final(self).same_queues(*old(self)),
            final(self).len() == old(self).len(),
            forall|i: int| #![trigger final(self).tasks@[i]] 0 <= i < old(self).len() ==> {
                &&& final(self).tasks@[i].stale == (old(self).tasks@[i].stale || (i != t
                    && old(self).tasks@[i].status == Status::Executing && old(self).tasks@[i].reads@.contains(t)))
                &&& same_record(final(self).tasks@[i], old(self).tasks@[i])
                &&& final(self).tasks@[i].status == old(self).tasks@[i].status
                &&& final(self).tasks@[i].invalidations == old(self).tasks@[i].invalidations
            },
    {
        let n = self.tasks.len();
        let mut r: usize = 0;
        while r < n
            invariant
                n == old(self).len(),
                self.len() == n,
                r <= n,
                self.same_queues(*old(self)),
                forall|i: int| #![trigger self.tasks@[i]] 0 <= i < n ==> {
                    &&& self.tasks@[i].stale == (old(self).tasks@[i].stale || (i < r && i != t
                        && old(self).tasks@[i].status == Status::Executing
                        && old(self).tasks@[i].reads@.contains(t)))
                    &&& same_record(self.tasks@[i], old(self).tasks@[i])
                    &&& self.tasks@[i].status == old(self).tasks@[i].status
                    &&& self.tasks@[i].invalidations == old(self).tasks@[i].invalidations
                },
            decreases n - r,
        {
            if r != t && self.tasks[r].status == Status::Executing && contains(&self.tasks[r].reads, t) {
                self.tasks[r].stale = true;
            }
            r = r + 1;
        }
        proof {
            assert forall|i: int| 0 <= i < self.len() implies #[trigger] self.task_wf(i) by {
                assert(old(self).task_wf(i));
                assert(same_record(self.tasks@[i], old(self).tasks@[i]));
            }
            assert forall|i: int| 0 <= i < self.len() implies #[trigger] self.tasks@[i].identity
                == old(self).tasks@[i].identity by {
                assert(same_record(self.tasks@[i], old(self).tasks@[i]));
            }
            lemma_calls_kept(old(self).tasks@, self.tasks@);
        }
    }

    /// Marks `Dirty` every `Done` task reached from slot `src` through reader edges,
    /// each once, and no other task.
    fn propagate(&mut self, src: usize)
        requires
            old(self).wf(),
            src < old(self).len(),
            old(self).tasks@[src as int].status != Status::Done,
        ensures
            final(self).wf(),
            final(self).len() == old(self).len(),
            forall|r: int| 0 <= r < old(self).len() ==> #[trigger] final(self).tasks@[r].status
                == if reachable(old(self).tasks@, src as int, r) {
                    Status::Dirty
                } else {
                    old(self).tasks@[r].status
                },
            forall|r: int| 0 <= r < old(self).len() ==> #[trigger] final(self).tasks@[r].invalidations
                == if reachable(old(self).tasks@, src as int, r) {
                    bump(old(self).tasks@[r].invalidations)
                } else {
                    old(self).tasks@[r].invalidations
                },
            forall|r: int| 0 <= r < old(self).len() ==> same_record(
                #[trigger] final(self).tasks@[r], old(self).tasks@[r]),
            forall|r: int| 0 <= r < old(self).len() ==> #[trigger] final(self).tasks@[r].stale
                == old(self).tasks@[r].stale,
            final(self).direct_queue == old(self).direct_queue,
            final(self).transitive_queue == old(self).transitive_queue,
            final(self).resume_queue == old(self).resume_queue,
            final(self).memory_limit == old(self).memory_limit,
    {
        let ghost g = self.tasks@;
        let ghost mut visited: Set<int> = Set::empty();
        let mut worklist: Vec<usize> = Vec::new();
        let n = self.tasks.len();
        let mut r: usize = 0;
        while r < n
            invariant
                n == g.len(),
                self.tasks@.len() == n,
                r <= n,
                visited.subset_of(Set::new(|x: int| 0 <= x < r)),
                worklist@.len() == visited.len(),
                visited.finite(),
                forall|x: int| 0 <= x < worklist@.len() ==> visited.contains(#[trigger] worklist@[x] as int),
                forall|x: int| visited.contains(x) ==> #[trigger] reach(g, src as int, 0).contains(x),
                forall|x: int| visited.contains(x) ==> #[trigger] worklist@.contains(x as usize),
                forall|x: int| 0 <= x < r && is_reader(g, x, src as int) && g[x].status == Status::Done
                    ==> #[trigger] visited.contains(x),
                marked(self.tasks@, g, visited),
                self.same_queues(*old(self)),
            decreases n - r,
        {
            if self.tasks[r].status == Status::Done && contains(&self.tasks[r].dependencies, src) {
                self.mark_dirty(r);
                let ghost wl = worklist@;
                worklist.push(r);
                proof {
                    let ghost vo = visited;
                    assert forall|x: int| vo.contains(x) implies wl.contains(x as usize) by {}
                    visited = visited.insert(r as int);
                    assert(worklist@ == wl.push(r));
                    assert(worklist@[wl.len() as int] == r);
                    assert forall|x: int| visited.contains(x) implies #[trigger] worklist@.contains(x as usize) by {
                        if x != r {
                            assert(vo.contains(x));
                            let j = choose|j: int| 0 <= j < wl.len() && wl[j] == x as usize;
                            assert(worklist@[j] == x as usize);
                        }
                    }
                }
            }
            r = r + 1;
        }
        proof {
            lemma_len_below(visited, n as int);
            assert forall|x: int| visited.contains(x) implies reachable(g, src as int, x) by {
                assert(reach(g, src as int, 0).contains(x));
            }
        }
        while worklist.len() > 0
            invariant
                n == g.len(),
                self.tasks@.len() == n,
                visited.finite(),
                visited.subset_of(Set::new(|x: int| 0 <= x < n)),
                visited.len() <= n,
                forall|x: int| 0 <= x < worklist@.len() ==> visited.contains(#[trigger] worklist@[x] as int),
                forall|x: int| visited.contains(x) ==> reachable(g, src as int, x),
                forall|x: int| is_reader(g, x, src as int) && g[x].status == Status::Done
                    ==> #[trigger] visited.contains(x),
                forall|u: int, x: int| visited.contains(u) && !worklist@.contains(u as usize)
                    && #[trigger] is_reader(g, x, u) && g[x].status == Status::Done
                    ==> visited.contains(x),
                marked(self.tasks@, g, visited),
                self.same_queues(*old(self)),
            decreases n - visited.len(), worklist@.len(),
        {
            let ghost pre = worklist@;
            let u = worklist.pop().unwrap();
            proof {
                assert(pre =~= worklist@.push(u));
            }
            let ghost k: nat = choose|k: nat| #[trigger] reach(g, src as int, k).contains(u as int);
            let ghost before = worklist@;
            let ghost seen = visited;
            let mut r: usize = 0;
            while r < n
                invariant
                    n == g.len(),
                    self.tasks@.len() == n,
                    r <= n,
                    visited.finite(),
                    visited.subset_of(Set::new(|x: int| 0 <= x < n)),
                    visited.contains(u as int),
                    reach(g, src as int, k).contains(u as int),
                    before.len() <= worklist@.len(),
                    worklist@.subrange(0, before.len() as int) == before,
                    forall|x: int| 0 <= x < worklist@.len() ==> visited.contains(#[trigger] worklist@[x] as int),
                    forall|x: int| visited.contains(x) ==> reachable(g, src as int, x),
                    forall|x: int| is_reader(g, x, src as int) && g[x].status == Status::Done
                        ==> #[trigger] visited.contains(x),
                    forall|v: int, x: int| visited.contains(v) && !worklist@.contains(v as usize) && v != u
                        && #[trigger] is_reader(g, x, v) && g[x].status == Status::Done
                        ==> visited.contains(x),
                    forall|x: int| 0 <= x < r && is_reader(g, x, u as int) && g[x].status == Status::Done
                        ==> #[trigger] visited.contains(x),
                    marked(self.tasks@, g, visited),
                    self.same_queues(*old(self)),
                    visited.len() == seen.len() + (worklist@.len() - before.len()),
                decreases n - r,
            {
                if self.tasks[r].status == Status::Done && contains(&self.tasks[r].dependencies, u) {
                    self.mark_dirty(r);
                    let ghost wl = worklist@;
                    worklist.push(r);
                    proof {
                        assert(is_reader(g, r as int, u as int));
                        assert(reach(g, src as int, k + 1).contains(r as int));
                        visited = visited.insert(r as int);
                        assert(worklist@ == wl.push(r));
                        assert(worklist@[wl.len() as int] == r);
                        assert forall|v: int| #[trigger] wl.contains(v as usize) implies worklist@.contains(v as usize) by {
                            let j = choose|j: int| 0 <= j < wl.len() && wl[j] == v as usize;
                            assert(worklist@[j] == v as usize);
                        }
                        assert(worklist@.subrange(0, before.len() as int) =~= wl.subrange(0, before.len() as int));
                    }
                }
                r = r + 1;
            }
            proof {
                lemma_len_below(visited, n as int);
            }
        }
        proof {
            assert forall|x: int| 0 <= x < n implies (reachable(g, src as int, x) == visited.contains(x)) by {
                if reachable(g, src as int, x) {
                    let m: nat = choose|m: nat| #[trigger] reach(g, src as int, m).contains(x);
                    lemma_reach_closed(g, src as int, visited, m);
                }
            }
            assert forall|i: int| 0 <= i < self.len() implies #[trigger] self.task_wf(i) by {
                assert(old(self).task_wf(i));
            }
            lemma_calls_kept(old(self).tasks@, self.tasks@);
        }
    }

    /// What `begin_execution` does.
    pub open spec fn begin_post(pre: MemoryBackend, t: usize, epoch: u64, post: MemoryBackend) -> bool {
        &&& post.same_queues(pre)
        &&& others_same(post.tasks@, pre.tasks@, t as int)
        &&& epoch == pre.tasks@[t as int].epoch
        &&& {
            let o = pre.tasks@[t as int];
            let n = post.tasks@[t as int];
            &&& n.status == Status::Executing
            &&& n.reads@.len() == 0
            &&& !n.cyclic
            &&& !n.stale
            &&& n.blocked_on is None
            &&& n.executions == bump(o.executions)
            &&& n.identity == o.identity
            &&& n.output == o.output
            &&& n.version == o.version
            &&& n.dependencies == o.dependencies
            &&& n.epoch == o.epoch
            &&& n.waiters == o.waiters
            &&& n.invalidations == o.invalidations
            &&& n.duration == o.duration
        }
    }

    /// A worker claims a scheduled task; returns the epoch to commit with.
    pub fn begin_execution(&mut self, t: usize) -> (epoch: u64)
        requires
            old(self).wf(),
            t < old(self).len(),
            old(self).tasks@[t as int].status == Status::Scheduled,
        ensures
            final(self).wf(),
            Self::begin_post(*old(self), t, epoch, *final(self)),
    {
        self.tasks[t].status = Status::Executing;
        self.tasks[t].reads = Vec::new();
        self.tasks[t].cyclic = false;
        self.tasks[t].stale = false;
        self.tasks[t].blocked_on = None;
        self.tasks[t].executions = saturating_bump(self.tasks[t].executions);
        proof {
            assert forall|i: int| 0 <= i < self.len() implies #[trigger] self.task_wf(i) by {
                assert(old(self).task_wf(i));
            }
            lemma_calls_kept(old(self).tasks@, self.tasks@);
        }
        self.tasks[t].epoch
    }

    /// Flags as cyclic every task on the wait chain from `x` up to `target`,
    /// `target` included.
    fn mark_cycle(&mut self, x: usize, target: usize)
        requires
            old(self).wf(),
            x < old(self).len(),
            target < old(self).len(),
            waits_on(old(self).tasks@, x as int, target as int),
        ensures
            final(self).wf(),
            final(self).same_queues(*old(self)),
            final(self).len() == old(self).len(),
            final(self).tasks@[target as int].cyclic,
            forall|i: int| #![trigger final(self).tasks@[i]] 0 <= i < old(self).len() ==> {
                &&& same_but_reads(final(self).tasks@[i], old(self).tasks@[i])
                &&& final(self).tasks@[i].reads == old(self).tasks@[i].reads
                &&& final(self).tasks@[i].cyclic == (old(self).tasks@[i].cyclic
                    || on_cycle(old(self).tasks@, x as int, target as int, i))
            },
    {
        let ghost g = old(self).tasks@;
        let ghost m: nat = choose|m: nat| m < g.len() && #[trigger] wait_chain(g, x as int, m) == Some(target as int);
        let n = self.tasks.len();
        let mut cur: usize = x;
        let mut k: usize = 0;
        while cur != target
            invariant
                g == old(self).tasks@,
                n == g.len(),
                self.len() == n,
                self.same_queues(*old(self)),
                k <= m,
                m < n,
                cur < n,
                wait_chain(g, x as int, m) == Some(target as int),
                wait_chain(g, x as int, k as nat) == Some(cur as int),
                forall|j: nat| j < k ==> #[trigger] wait_chain(g, x as int, j) != Some(target as int),
                forall|i: int| 0 <= i < n ==> #[trigger] old(self).task_wf(i),
                forall|i: int| #![trigger self.tasks@[i]] 0 <= i < n ==> {
                    &&& same_but_reads(self.tasks@[i], g[i])
                    &&& self.tasks@[i].reads == g[i].reads
                    &&& self.tasks@[i].cyclic == (g[i].cyclic || exists|j: nat|
                        j < k && #[trigger] wait_chain(g, x as int, j) == Some(i))
                },
            decreases m - k,
        {
            proof {
                if k == m {
                    assert(false);
                }
            }
            assert(old(self).task_wf(cur as int));
            assert(self.tasks@[cur as int].blocked_on == g[cur as int].blocked_on);
            let next = match self.tasks[cur].blocked_on {
                Some(b) => {
                    b
                },
                None => {
                    proof {
                        lemma_chain_ends(g, x as int, k as nat, m);
                    }
                    target
                },
            };
            assert(self.tasks@[cur as int].blocked_on == g[cur as int].blocked_on);
            self.tasks[cur].cyclic = true;
            proof {
                assert(wait_chain(g, x as int, (k + 1) as nat) == Some(next as int));
                assert forall|i: int| #![trigger self.tasks@[i]] 0 <= i < n implies
                    self.tasks@[i].cyclic == (g[i].cyclic || exists|j: nat|
                        j < k + 1 && #[trigger] wait_chain(g, x as int, j) == Some(i)) by {
                    if i == cur {
                        assert(wait_chain(g, x as int, k as nat) == Some(i));
                    } else if exists|j: nat| j < k + 1 && #[trigger] wait_chain(g, x as int, j) == Some(i) {
                        let j = choose|j: nat| j < k + 1 && #[trigger] wait_chain(g, x as int, j) == Some(i);
                        assert(j < k);
                    }
                }
            }
            cur = next;
            k = k + 1;
        }
        self.tasks[target].cyclic = true;
        proof {
            assert forall|i: int| #![trigger self.tasks@[i]] 0 <= i < n implies
                self.tasks@[i].cyclic == (g[i].cyclic || on_cycle(g, x as int, target as int, i)) by {
                if on_cycle(g, x as int, target as int, i) {
                    let kk = choose|kk: nat| #![trigger wait_chain(g, x as int, kk)] kk < g.len()
                        && wait_chain(g, x as int, kk) == Some(i)
                        && forall|j: nat| j < kk ==> #[trigger] wait_chain(g, x as int, j) != Some(target as int);
                    if kk > k {
                        assert(wait_chain(g, x as int, k as nat) == Some(target as int));
                    }
                    if i != target {
                        assert(kk < k);
                    }
                } else if i != target && exists|j: nat| j < k && #[trigger] wait_chain(g, x as int, j) == Some(i) {
                    let j = choose|j: nat| j < k && #[trigger] wait_chain(g, x as int, j) == Some(i);
                    assert(on_cycle(g, x as int, target as int, i));
                }
                if i == target {
                    assert(on_cycle(g, x as int, target as int, i));
                }
            }
            assert forall|i: int| 0 <= i < self.len() implies #[trigger] self.task_wf(i) by {
                assert(old(self).task_wf(i));
            }
            assert forall|i: int| 0 <= i < self.len() implies #[trigger] self.tasks@[i].identity
                == old(self).tasks@[i].identity by {
                assert(same_but_reads(self.tasks@[i], g[i]));
            }
            lemma_calls_kept(old(self).tasks@, self.tasks@);
        }
    }

    /// Whether `x` waits on `target` through parked executions.
    fn is_waiting_on(&self, x: usize, target: usize) -> (r: bool)
        requires
            self.wf(),
            x < self.len(),
        ensures
            r == waits_on(self.tasks@, x as int, target as int),
    {
        let n = self.tasks.len();
        let mut cur: usize = x;
        let mut k: usize = 0;
        while k < n
            invariant
                self.wf(),
                n == self.len(),
                k <= n,
                cur < n,
                wait_chain(self.tasks@, x as int, k as nat) == Some(cur as int),
                forall|j: nat| j < k ==> #[trigger] wait_chain(self.tasks@, x as int, j) != Some(target as int),
            decreases n - k,
        {
            if cur == target {
                return true;
            }
            assert(self.task_wf(cur as int));
            match self.tasks[cur].blocked_on {
                Some(b) => {
                    cur = b;
                    k = k + 1;
                },
                None => {
                    proof {
                        assert forall|j: nat| #![trigger wait_chain(self.tasks@, x as int, j)] j > k implies
                            wait_chain(self.tasks@, x as int, j) is None by {
                            lemma_chain_ends(self.tasks@, x as int, k as nat, j);
                        }
                    }
                    return false;
                },
            }
        }
        false
    }

    /// What `read_slot` does: `r` is the view of its result.
    pub open spec fn read_post(pre: MemoryBackend, consumer: usize, slot: SlotRef, r: Option<OutputView>, post: MemoryBackend) -> bool {
        &&& post.len() == pre.len()
        &&& {
            let g = pre.tasks@;
            let c = consumer as int;
            let s = slot as int;
            let owner = g[s].status;
            if owner == Status::Done {
                &&& r == Some(g[s].output@)
                &&& post.same_queues(pre)
                &&& others_same(post.tasks@, g, c)
                &&& same_but_reads(post.tasks@[c], g[c])
                &&& post.tasks@[c].reads@ == add_read(g[c].reads@, slot)
                &&& post.tasks@[c].cyclic == g[c].cyclic
            } else if owner == Status::Executing && waits_on(g, s, c) {
                &&& r == Some(OutputView::Panicked(Error::CyclicDependency))
                &&& post.same_queues(pre)
                &&& forall|i: int| #![trigger post.tasks@[i]] 0 <= i < g.len() && i != c ==> {
                    &&& same_but_reads(post.tasks@[i], g[i])
                    &&& post.tasks@[i].reads == g[i].reads
                    &&& post.tasks@[i].cyclic == (g[i].cyclic || on_cycle(g, s, c, i))
                }
                &&& same_but_reads(post.tasks@[c], g[c])
                &&& post.tasks@[c].reads@ == add_read(g[c].reads@, slot)
                &&& post.tasks@[c].cyclic
            } else {
                &&& r is None
                &&& s != c
                &&& forall|i: int| 0 <= i < g.len() && i != c && i != s
                    ==> #[trigger] post.tasks@[i] == g[i]
                &&& same_but_waiting(post.tasks@[c], g[c])
                &&& post.tasks@[c].status == Status::Executing
                &&& post.tasks@[c].blocked_on == Some(slot)
                &&& post.tasks@[c].waiters == g[c].waiters
                &&& same_but_waiting(post.tasks@[s], g[s])
                &&& post.tasks@[s].waiters@ == g[s].waiters@.push(consumer)
                &&& post.tasks@[s].blocked_on == g[s].blocked_on
                &&& post.direct_queue == pre.direct_queue
                &&& post.resume_queue == pre.resume_queue
                &&& post.memory_limit == pre.memory_limit
                &&& if owner == Status::Scheduled || owner == Status::Executing {
                    &&& post.tasks@[s].status == owner
                    &&& post.transitive_queue == pre.transitive_queue
                } else {
                    &&& post.tasks@[s].status == Status::Scheduled
                    &&& post.transitive_queue@ == pre.transitive_queue@.push(slot)
                }
            }
        }
    }

    /// Reads the slot of task `slot` on behalf of the running execution of
    /// `consumer`. A `Done` owner's output is returned and the read recorded. An
    /// owner that waits on `consumer` closes a cycle: the read yields
    /// `Panicked(CyclicDependency)` and the execution will commit that. Any other
    /// owner is not ready: it is scheduled if needed, `consumer` is parked on it,
    /// and `None` is returned.
    pub fn read_slot(&mut self, consumer: usize, slot: SlotRef) -> (r: Option<Output>)
        requires
            old(self).wf(),
            consumer < old(self).len(),
            slot < old(self).len(),
            old(self).tasks@[consumer as int].status == Status::Executing,
        ensures
            final(self).wf(),
            Self::read_post(*old(self), consumer, slot, opt_view(r), *final(self)),
    {
        let owner = self.tasks[slot].status;
        if owner == Status::Done {
            let out = self.tasks[slot].output.duplicate();
            if !contains(&self.tasks[consumer].reads, slot) {
                self.tasks[consumer].reads.push(slot);
            }
            proof {
                assert forall|i: int| 0 <= i < self.len() implies #[trigger] self.task_wf(i) by {
                    assert(old(self).task_wf(i));
                }
                lemma_calls_kept(old(self).tasks@, self.tasks@);
            }
            return Some(out);
        }
        if owner == Status::Executing && self.is_waiting_on(slot, consumer) {
            self.mark_cycle(slot, consumer);
            if !contains(&self.tasks[consumer].reads, slot) {
                self.tasks[consumer].reads.push(slot);
            }
            proof {
                assert forall|i: int| 0 <= i < self.len() implies #[trigger] self.task_wf(i) by {
                    assert(old(self).task_wf(i));
                }
                lemma_calls_kept(old(self).tasks@, self.tasks@);
            }
            return Some(Output::Panicked(Error::CyclicDependency));
        }
        proof {
            if slot == consumer {
                assert(wait_chain(self.tasks@, slot as int, 0) == Some(consumer as int));
            }
        }
        if owner != Status::Scheduled && owner != Status::Executing {
            self.tasks[slot].status = Status::Scheduled;
            self.transitive_queue.push(slot);
        }
        self.tasks[slot].waiters.push(consumer);
        self.tasks[consumer].blocked_on = Some(slot);
        proof {
            assert forall|i: int| 0 <= i < self.len() implies #[trigger] self.task_wf(i) by {
                assert(old(self).task_wf(i));
            }
            lemma_calls_kept(old(self).tasks@, self.tasks@);
        }
        None
    }

    /// What `commit_output` does.
    pub open spec fn commit_post(pre: MemoryBackend, t: usize, epoch: u64, output: OutputView, r: Result<bool, Error>, post: MemoryBackend) -> bool {
        &&& post.len() == pre.len()
        &&& {
            let g = pre.tasks@;
            let o = g[t as int];
            let n = post.tasks@[t as int];
            let stored = committed_output(o, output);
            let changed = stored != o.output@;
            if epoch != o.epoch || o.stale {
                &&& r == Err::<bool, Error>(Error::StaleExecution)
                &&& !n.stale
                &&& post.direct_queue == pre.direct_queue
                &&& post.transitive_queue@ == pre.transitive_queue@.push(t)
                &&& post.resume_queue == pre.resume_queue
                &&& post.memory_limit == pre.memory_limit
                &&& others_same(post.tasks@, g, t as int)
                &&& n.status == Status::Scheduled
                &&& n.reads@.len() == 0
                &&& !n.cyclic
                &&& n.identity == o.identity
                &&& n.output == o.output
                &&& n.version == o.version
                &&& n.dependencies == o.dependencies
                &&& n.epoch == o.epoch
                &&& n.waiters == o.waiters
                &&& n.blocked_on == o.blocked_on
                &&& n.executions == o.executions
                &&& n.invalidations == o.invalidations
                &&& n.duration == o.duration
            } else {
                &&& r == Ok::<bool, Error>(changed)
                &&& n.status == Status::Done
                &&& !n.stale
                &&& n.output@ == stored
                &&& n.version == if changed { (o.version + 1) as u64 } else { o.version }
                &&& n.dependencies@ == o.reads@
                &&& n.reads@.len() == 0
                &&& !n.cyclic
                &&& n.epoch == o.epoch + 1
                &&& n.waiters@.len() == 0
                &&& n.blocked_on == o.blocked_on
                &&& n.identity == o.identity
                &&& n.executions == o.executions
                &&& n.invalidations == o.invalidations
                &&& n.duration == o.duration
                &&& post.resume_queue@ == pre.resume_queue@ + o.waiters@
                &&& post.direct_queue == pre.direct_queue
                &&& post.transitive_queue == pre.transitive_queue
                &&& post.memory_limit == pre.memory_limit
                &&& forall|i: int| 0 <= i < g.len() && i != t ==> {
                    &&& #[trigger] post.tasks@[i].status == if changed && reachable(g, t as int, i) {
                        Status::Dirty
                    } else {
                        g[i].status
                    }
                    &&& post.tasks@[i].invalidations == if changed && reachable(g, t as int, i) {
                        bump(g[i].invalidations)
                    } else {
                        g[i].invalidations
                    }
                    &&& post.tasks@[i].stale == (g[i].stale || (changed && g[i].status == Status::Executing
                        && g[i].reads@.contains(t)))
                    &&& same_record(post.tasks@[i], g[i])
                }
            }
        }
    }

    /// Commits the result of the execution of `t` that started at `epoch`.
    ///
    /// A wrong epoch, or a stale execution (invalidated while it ran, or a slot
    /// it read changed meanwhile), discards the result: `t` is rescheduled on
    /// the transitive queue, its parked readers still waiting on it. Otherwise
    /// the output is stored (a cyclic read forces `Panicked(CyclicDependency)`),
    /// the dependencies become exactly the slots read, parked readers are queued
    /// for resumption, and if the content changed the version is bumped, running
    /// readers of the slot are made stale, and every `Done` task reached from the
    /// slot through reader edges turns `Dirty`. Returns whether the content
    /// changed.
    ///
    /// An `Unloaded` task has lost its payload, so its re-run is compared with
    /// `Empty`: a non-empty output counts as a change even when it equals the
    /// dropped one, and its readers are invalidated. This is the conservative
    /// choice; no reader ever keeps a value the engine cannot vouch for.
    pub fn commit_output(&mut self, t: usize, epoch: u64, output: Output) -> (r: Result<bool, Error>)
        requires
            old(self).wf(),
            t < old(self).len(),
            old(self).tasks@[t as int].status == Status::Executing,
            output@ matches OutputView::Reference(s) ==> s < old(self).len(),
            old(self).tasks@[t as int].version < u64::MAX,
            old(self).tasks@[t as int].epoch < u64::MAX,
        ensures
            final(self).wf(),
            Self::commit_post(*old(self), t, epoch, output@, r, *final(self)),
    {
        if epoch != self.tasks[t].epoch || self.tasks[t].stale {
            self.tasks[t].status = Status::Scheduled;
            self.tasks[t].reads = Vec::new();
            self.tasks[t].cyclic = false;
            self.tasks[t].stale = false;
            self.transitive_queue.push(t);
            proof {
                assert forall|i: int| 0 <= i < self.len() implies #[trigger] self.task_wf(i) by {
                    assert(old(self).task_wf(i));
                }
                lemma_calls_kept(old(self).tasks@, self.tasks@);
            }
            return Err(Error::StaleExecution);
        }
        let stored = if self.tasks[t].cyclic {
            Output::Panicked(Error::CyclicDependency)
        } else {
            output
        };
        let changed = !self.tasks[t].output.same_content(&stored);
        if changed {
            self.propagate(t);
            proof {
                assert forall|i: int| 0 <= i < self.len() implies (#[trigger] self.tasks@[i].status
                    == Status::Executing) == (old(self).tasks@[i].status == Status::Executing) by {
                    if reachable(old(self).tasks@, t as int, i) {
                        let m: nat = choose|m: nat| #[trigger] reach(old(self).tasks@, t as int, m).contains(i);
                        lemma_reach_done(old(self).tasks@, t as int, m, i);
                    }
                }
            }
            self.mark_stale_readers(t);
            proof {
                if reachable(old(self).tasks@, t as int, t as int) {
                    let m: nat = choose|m: nat| #[trigger] reach(old(self).tasks@, t as int, m).contains(t as int);
                    lemma_reach_done(old(self).tasks@, t as int, m, t as int);
                }
            }
        }
        let ghost mid = self.tasks@;
        assert(self.task_wf(t as int));
        let mut reads: Vec<usize> = Vec::new();
        core::mem::swap(&mut reads, &mut self.tasks[t].reads);
        let mut waiters: Vec<usize> = Vec::new();
        core::mem::swap(&mut waiters, &mut self.tasks[t].waiters);
        self.tasks[t].dependencies = reads;
        self.tasks[t].cyclic = false;
        self.tasks[t].output = stored;
        if changed {
            self.tasks[t].version = self.tasks[t].version + 1;
        }
        self.tasks[t].epoch = self.tasks[t].epoch + 1;
        self.tasks[t].status = Status::Done;
        self.resume_queue.append(&mut waiters);
        proof {
            assert forall|i: int| 0 <= i < self.len() implies #[trigger] self.task_wf(i) by {
                assert(old(self).task_wf(i));
                if changed {
                    assert(same_record(mid[i], old(self).tasks@[i]));
                }
            }
            assert forall|i: int| 0 <= i < self.len() implies #[trigger] self.tasks@[i].identity == old(self).tasks@[i].identity by {
                if changed {
                    assert(same_record(mid[i], old(self).tasks@[i]));
                }
            }
            lemma_calls_kept(old(self).tasks@, self.tasks@);
            assert forall|i: int| 0 <= i < self.resume_queue@.len() implies #[trigger] self.resume_queue@[i] < self.len() by {
                if i >= old(self).resume_queue@.len() {
                    assert(self.resume_queue@[i] == old(self).tasks@[t as int].waiters@[i - old(self).resume_queue@.len()]);
                }
            }
        }
        Ok(changed)
    }

    /// What `resolve` does: `r` is the view of its result.
    pub open spec fn resolve_post(pre: MemoryBackend, t: usize, r: Option<OutputView>, post: MemoryBackend) -> bool {
        &&& {
            let o = pre.tasks@[t as int];
            if o.status == Status::Done {
                &&& r == Some(o.output@)
                &&& post == pre
            } else if o.status == Status::Scheduled || o.status == Status::Executing {
                &&& r is None
                &&& post == pre
            } else {
                &&& r is None
                &&& others_same(post.tasks@, pre.tasks@, t as int)
                &&& post.tasks@[t as int].status == Status::Scheduled
                &&& post.tasks@[t as int].invalidations == o.invalidations
                &&& post.tasks@[t as int].stale == o.stale
                &&& same_record(post.tasks@[t as int], o)
                &&& post.direct_queue@ == pre.direct_queue@.push(t)
                &&& post.transitive_queue == pre.transitive_queue
                &&& post.resume_queue == pre.resume_queue
                &&& post.memory_limit == pre.memory_limit
            }
        }
    }

    /// A caller asks for the output of `t`. A `Done` task answers from its
    /// slot and nothing changes. A task that is `Fresh`, `Dirty` or `Unloaded` is
    /// scheduled with caller priority; `None` means the output is not ready yet.
    pub fn resolve(&mut self, t: usize) -> (r: Option<Output>)
        requires
            old(self).wf(),
            t < old(self).len(),
        ensures
            final(self).wf(),
            Self::resolve_post(*old(self), t, opt_view(r), *final(self)),
    {
        let status = self.tasks[t].status;
        if status == Status::Done {
            return Some(self.tasks[t].output.duplicate());
        }
        if status == Status::Scheduled || status == Status::Executing {
            return None;
        }
        self.tasks[t].status = Status::Scheduled;
        self.direct_queue.push(t);
        proof {
            assert forall|i: int| 0 <= i < self.len() implies #[trigger] self.task_wf(i) by {
                assert(old(self).task_wf(i));
            }
            lemma_calls_kept(old(self).tasks@, self.tasks@);
        }
        None
    }

    /// Interns the call and resolves its task; returns the task and its output
    /// if ready.
    pub fn resolve_call(&mut self, identity: Identity) -> (r: (usize, Option<Output>))
        requires
            old(self).wf(),
            old(self).len() < usize::MAX,
        ensures
            final(self).wf(),
            exists|mid: MemoryBackend|
                #[trigger] Self::intern_post(*old(self), identity@, r.0, mid) && Self::resolve_post(
                    mid,
                    r.0,
                    opt_view(r.1),
                    *final(self),
                ),
    {
        let ghost call = identity@;
        let t = self.get_or_create_task(identity);
        let ghost mid = *self;
        let out = self.resolve(t);
        let r = (t, out);
        assert(Self::intern_post(*old(self), call, r.0, mid) && Self::resolve_post(mid, r.0, opt_view(r.1), *self));
        r
    }

    /// The next task to start: callers' requests first, then tasks needed by
    /// other executions, each queue first in, first out.
    pub fn next_ready(&mut self) -> (r: Option<usize>)
        requires
            old(self).wf(),
        ensures
            final(self).wf(),
            final(self).tasks == old(self).tasks,
            final(self).resume_queue == old(self).resume_queue,
            final(self).memory_limit == old(self).memory_limit,
            if old(self).direct_queue@.len() > 0 {
                &&& r == Some(old(self).direct_queue@[0])
                &&& final(self).direct_queue@ == old(self).direct_queue@.drop_first()
                &&& final(self).transitive_queue == old(self).transitive_queue
            } else if old(self).transitive_queue@.len() > 0 {
                &&& r == Some(old(self).transitive_queue@[0])
                &&& final(self).transitive_queue@ == old(self).transitive_queue@.drop_first()
                &&& final(self).direct_queue == old(self).direct_queue
            } else {
                &&& r is None
                &&& *final(self) == *old(self)
            },
    {
        let r = if self.direct_queue.len() > 0 {
            let t = self.direct_queue.remove(0);
            assert(self.direct_queue@ =~= old(self).direct_queue@.drop_first());
            proof {
                lemma_drop_first_below(old(self).direct_queue@, self.len());
            }
            Some(t)
        } else if self.transitive_queue.len() > 0 {
            let t = self.transitive_queue.remove(0);
            assert(self.transitive_queue@ =~= old(self).transitive_queue@.drop_first());
            proof {
                lemma_drop_first_below(old(self).transitive_queue@, self.len());
            }
            Some(t)
        } else {
            None
        };
        proof {
            assert forall|i: int| 0 <= i < self.len() implies #[trigger] self.task_wf(i) by {
                assert(old(self).task_wf(i));
            }
        }
        r
    }

    /// The next parked execution whose dependency was committed; it is no longer
    /// blocked.
    pub fn next_resumable(&mut self) -> (r: Option<usize>)
        requires
            old(self).wf(),
        ensures
            final(self).wf(),
            final(self).direct_queue == old(self).direct_queue,
            final(self).transitive_queue == old(self).transitive_queue,
            final(self).memory_limit == old(self).memory_limit,
            if old(self).resume_queue@.len() > 0 {
                let t = old(self).resume_queue@[0];
                &&& r == Some(t)
                &&& final(self).resume_queue@ == old(self).resume_queue@.drop_first()
                &&& others_same(final(self).tasks@, old(self).tasks@, t as int)
                &&& final(self).tasks@[t as int].blocked_on is None
                &&& same_but_waiting(final(self).tasks@[t as int], old(self).tasks@[t as int])
                &&& final(self).tasks@[t as int].status == old(self).tasks@[t as int].status
                &&& final(self).tasks@[t as int].waiters == old(self).tasks@[t as int].waiters
            } else {
                &&& r is None
                &&& *final(self) == *old(self)
            },
    {
        if self.resume_queue.len() == 0 {
            return None;
        }
        let t = self.resume_queue.remove(0);
        assert(self.resume_queue@ =~= old(self).resume_queue@.drop_first());
        proof {
            lemma_drop_first_below(old(self).resume_queue@, self.len());
        }
        self.tasks[t].blocked_on = None;
        proof {
            assert forall|i: int| 0 <= i < self.len() implies #[trigger] self.task_wf(i) by {
                assert(old(self).task_wf(i));
            }
            lemma_calls_kept(old(self).tasks@, self.tasks@);
        }
        Some(t)
    }

    /// What `invalidate` does.
    pub open spec fn invalidate_post(pre: MemoryBackend, t: usize, post: MemoryBackend) -> bool {
        &&& post.same_queues(pre)
        &&& others_same(post.tasks@, pre.tasks@, t as int)
        &&& {
            let o = pre.tasks@[t as int];
            let n = post.tasks@[t as int];
            if o.status == Status::Done {
                &&& n.status == Status::Dirty
                &&& n.invalidations == bump(o.invalidations)
                &&& n.stale == o.stale
                &&& same_record(n, o)
            } else if o.status == Status::Executing {
                &&& n.status == Status::Executing
                &&& n.stale
                &&& n.epoch == o.epoch
                &&& n.invalidations == bump(o.invalidations)
                &&& n.identity == o.identity
                &&& n.output == o.output
                &&& n.version == o.version
                &&& n.dependencies == o.dependencies
                &&& n.reads == o.reads
                &&& n.cyclic == o.cyclic
                &&& n.waiters == o.waiters
                &&& n.blocked_on == o.blocked_on
                &&& n.executions == o.executions
                &&& n.duration == o.duration
            } else {
                n == o
            }
        }
    }

    /// An outside input of `t` changed. A `Done` task turns `Dirty`; a running
    /// execution is made stale, so that its commit is refused; other states are
    /// left as they are. The invalidation is counted unless nothing changed.
    pub fn invalidate(&mut self, t: usize)
        requires
            old(self).wf(),
            t < old(self).len(),
        ensures
            final(self).wf(),
            Self::invalidate_post(*old(self), t, *final(self)),
    {
        let status = self.tasks[t].status;
        if status == Status::Done {
            self.tasks[t].status = Status::Dirty;
            self.tasks[t].invalidations = saturating_bump(self.tasks[t].invalidations);
        } else if status == Status::Executing {
            self.tasks[t].stale = true;
            self.tasks[t].invalidations = saturating_bump(self.tasks[t].invalidations);
        }
        proof {
            assert forall|i: int| 0 <= i < self.len() implies #[trigger] self.task_wf(i) by {
                assert(old(self).task_wf(i));
            }
            lemma_calls_kept(old(self).tasks@, self.tasks@);
        }
    }

    /// Invalidates the task of a call whose outside input changed; returns the
    /// task, or `None` where the call was never made.
    pub fn invalidate_root(&mut self, identity: &Identity) -> (r: Option<usize>)
        requires
            old(self).wf(),
        ensures
            final(self).wf(),
            match r {
                Some(t) => t < old(self).len() && old(self).tasks@[t as int].identity@ == identity@
                    && Self::invalidate_post(*old(self), t, *final(self)),
                None => *final(self) == *old(self) && forall|i: int|
                    0 <= i < old(self).len() ==> #[trigger] old(self).tasks@[i].identity@ != identity@,
            },
    {
        match self.find_task(identity) {
            Some(t) => {
                self.invalidate(t);
                Some(t)
            },
            None => None,
        }
    }

}

} // verus!
