//! Reading a slot through `Reference` outputs, with a cycle guard.
use vstd::prelude::*;
use crate::memory_backend::MemoryBackend;
use crate::output::{Error, Output, OutputView};
use crate::task::Task;

verus! {

/// The slot reached from `s` after `k` steps along `Reference` outputs; a slot
/// whose output is no reference is a fixed point.
pub open spec fn ref_chain(g: Seq<Task>, s: int, k: nat) -> int
    decreases k,
{
    if k == 0 {
        s
    } else {
        let p = ref_chain(g, s, (k - 1) as nat);
        if 0 <= p < g.len() {
            match g[p].output@ {
                OutputView::Reference(x) => x as int,
                _ => p,
            }
        } else {
            p
        }
    }
}

/// What reading slot `s` yields once references are followed: the output of the
/// first slot on the chain that holds no reference, or `CyclicReference` where
/// none is met within as many steps as there are slots (the chain then revisits
/// a slot).
pub open spec fn read_through_spec(g: Seq<Task>, s: int) -> OutputView {
    let x = ref_chain(g, s, g.len());
    if g[x].output@.is_reference() {
        OutputView::Panicked(Error::CyclicReference)
    } else {
        g[x].output@
    }
}

proof fn lemma_chain_fixed(g: Seq<Task>, s: int, k: nat, j: nat)
    requires
        k <= j,
        0 <= ref_chain(g, s, k) < g.len(),
        !g[ref_chain(g, s, k)].output@.is_reference(),
    ensures
        ref_chain(g, s, j) == ref_chain(g, s, k),
    decreases j,
{
    if j > k {
        lemma_chain_fixed(g, s, k, (j - 1) as nat);
    }
}

impl MemoryBackend {
    /// The output of slot `slot` with `Reference` outputs followed.
    pub fn read_through(&self, slot: usize) -> (r: Output)
        requires
            self.wf(),
            slot < self.len(),
        ensures
            r@ == read_through_spec(self.tasks@, slot as int),
    {
        let n = self.tasks.len();
        let mut cur: usize = slot;
        let mut k: usize = 0;
        while k < n
            invariant
                self.wf(),
                n == self.len(),
                k <= n,
                cur < n,
                ref_chain(self.tasks@, slot as int, k as nat) == cur as int,
            decreases n - k,
        {
            assert(self.task_wf(cur as int));
            match &self.tasks[cur].output {
                Output::Reference(next) => {
                    cur = *next;
                    k = k + 1;
                },
                _ => {
                    proof {
                        lemma_chain_fixed(self.tasks@, slot as int, k as nat, n as nat);
                    }
                    return self.tasks[cur].output.duplicate();
                },
            }
        }
        match &self.tasks[cur].output {
            Output::Reference(_) => Output::Panicked(Error::CyclicReference),
            _ => self.tasks[cur].output.duplicate(),
        }
    }
}

} // verus!
