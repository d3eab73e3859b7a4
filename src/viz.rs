//! A read-only view of the graph for diagnostics.
use vstd::prelude::*;
use crate::memory_backend::{contains, is_reader, MemoryBackend};
use crate::task::Status;

verus! {

/// One task as the diagnostics see it.
pub struct TaskSnapshot {
    pub id: usize,
    pub status: Status,
    pub dependencies: Vec<usize>,
    pub dependents: Vec<usize>,
}

fn copy_ids(v: &Vec<usize>) -> (r: Vec<usize>)
    ensures
        r@ == v@,
{
    let mut r: Vec<usize> = Vec::new();
    let mut i: usize = 0;
    while i < v.len()
        invariant
            i <= v@.len(),
            r@ == v@.subrange(0, i as int),
        decreases v@.len() - i,
    {
        r.push(v[i]);
        i = i + 1;
        assert(r@ =~= v@.subrange(0, i as int));
    }
    assert(r@ =~= v@);
    r
}

impl MemoryBackend {
    /// The tasks whose current output was computed from slot `t`, in id order.
    pub fn dependents_of(&self, t: usize) -> (r: Vec<usize>)
        ensures
            forall|x: int| #![trigger r@.contains(x as usize)] 0 <= x < self.len()
                ==> (r@.contains(x as usize) <==> is_reader(self.tasks@, x, t as int)),
            forall|i: int| 0 <= i < r@.len() ==> #[trigger] r@[i] < self.len(),
            forall|i: int, j: int| 0 <= i < j < r@.len() ==> r@[i] < r@[j],
    {
        let mut r: Vec<usize> = Vec::new();
        let mut i: usize = 0;
        while i < self.tasks.len()
            invariant
                i <= self.len(),
                forall|x: int| #![trigger r@.contains(x as usize)] 0 <= x < self.len()
                    ==> (r@.contains(x as usize) <==> (x < i && is_reader(self.tasks@, x, t as int))),
                forall|k: int| 0 <= k < r@.len() ==> #[trigger] r@[k] < i,
                forall|k: int, j: int| 0 <= k < j < r@.len() ==> r@[k] < r@[j],
            decreases self.len() - i,
        {
            if contains(&self.tasks[i].dependencies, t) {
                let ghost before = r@;
                r.push(i);
                proof {
                    assert forall|x: int| #![trigger r@.contains(x as usize)] 0 <= x < self.len() implies
                        (r@.contains(x as usize) <==> (x < i + 1 && is_reader(self.tasks@, x, t as int))) by {
                        if x == i {
                            assert(r@[before.len() as int] == i);
                        } else if r@.contains(x as usize) {
                            let k = choose|k: int| 0 <= k < r@.len() && r@[k] == x as usize;
                            assert(k < before.len());
                            assert(before.contains(x as usize));
                        } else if before.contains(x as usize) {
                            let k = choose|k: int| 0 <= k < before.len() && before[k] == x as usize;
                            assert(r@[k] == x as usize);
                        }
                    }
                }
            }
            i = i + 1;
        }
        r
    }

    /// Every task with its status, dependencies and dependents.
    pub fn snapshot(&self) -> (r: Vec<TaskSnapshot>)
        ensures
            r@.len() == self.len(),
            forall|i: int| 0 <= i < r@.len() ==> {
                &&& (#[trigger] r@[i]).id == i
                &&& r@[i].status == self.tasks@[i].status
                &&& r@[i].dependencies@ == self.tasks@[i].dependencies@
                &&& forall|x: int| #![trigger r@[i].dependents@.contains(x as usize)] 0 <= x < self.len()
                    ==> (r@[i].dependents@.contains(x as usize) <==> is_reader(self.tasks@, x, i))
            },
    {
        let mut r: Vec<TaskSnapshot> = Vec::new();
        let mut i: usize = 0;
        while i < self.tasks.len()
            invariant
                i <= self.len(),
                r@.len() == i,
                forall|j: int| 0 <= j < i ==> {
                    &&& (#[trigger] r@[j]).id == j
                    &&& r@[j].status == self.tasks@[j].status
                    &&& r@[j].dependencies@ == self.tasks@[j].dependencies@
                    &&& forall|x: int| #![trigger r@[j].dependents@.contains(x as usize)] 0 <= x < self.len()
                        ==> (r@[j].dependents@.contains(x as usize) <==> is_reader(self.tasks@, x, j))
                },
            decreases self.len() - i,
        {
            let snap = TaskSnapshot {
                id: i,
                status: self.tasks[i].status,
                dependencies: copy_ids(&self.tasks[i].dependencies),
                dependents: self.dependents_of(i),
            };
            r.push(snap);
            i = i + 1;
        }
        r
    }
}

} // verus!
