//! Outputs stored in slots, and the errors the engine records as values.
use vstd::prelude::*;

verus! {

/// A slot is named by the index of the task that owns it.
pub type SlotRef = usize;

/// The errors of the engine.
#[derive(Clone, Copy, Debug, PartialEq, Eq, Structural)]
pub enum Error {
    /// An execution was invalidated while it ran; its result was discarded.
    StaleExecution,
    /// Following `Reference` outputs revisited a slot.
    CyclicReference,
    /// A task read its own slot, directly or through other tasks.
    CyclicDependency,
    /// The task body reported a failure.
    TaskFailure,
}

/// The result of a task.
#[derive(Debug)]
pub enum Output {
    /// A terminal payload.
    Value(Vec<u8>),
    /// Forwards the contents of another task's slot.
    Reference(SlotRef),
    /// Not yet computed, or unloaded.
    Empty,
    /// A failure, memoized like any other result.
    Panicked(Error),
}

/// The mathematical content of an `Output`.
pub enum OutputView {
    Value(Seq<u8>),
    Reference(SlotRef),
    Empty,
    Panicked(Error),
}

impl View for Output {
    type V = OutputView;

    open spec fn view(&self) -> OutputView {
        match self {
            Output::Value(b) => OutputView::Value(b@),
            Output::Reference(s) => OutputView::Reference(*s),
            Output::Empty => OutputView::Empty,
            Output::Panicked(e) => OutputView::Panicked(*e),
        }
    }
}

impl OutputView {
    /// The number of payload bytes held.
    pub open spec fn size(self) -> nat {
        match self {
            OutputView::Value(b) => b.len(),
            _ => 0,
        }
    }

    pub open spec fn is_reference(self) -> bool {
        self is Reference
    }
}

/// The view of an optional output.
pub open spec fn opt_view(r: Option<Output>) -> Option<OutputView> {
    match r {
        Some(o) => Some(o@),
        None => None,
    }
}

fn copy_bytes(b: &Vec<u8>) -> (r: Vec<u8>)
    ensures
        r@ == b@,
{
    let mut r: Vec<u8> = Vec::new();
    let mut i: usize = 0;
    while i < b.len()
        invariant
            i <= b@.len(),
            r@ == b@.subrange(0, i as int),
        decreases b@.len() - i,
    {
        r.push(b[i]);
        i = i + 1;
        assert(r@ =~= b@.subrange(0, i as int));
    }
    assert(r@ =~= b@);
    r
}

fn same_bytes(a: &Vec<u8>, b: &Vec<u8>) -> (r: bool)
    ensures
        r == (a@ == b@),
{
    if a.len() != b.len() {
        return false;
    }
    let mut i: usize = 0;
    while i < a.len()
        invariant
            a@.len() == b@.len(),
            i <= a@.len(),
            forall|j: int| 0 <= j < i ==> a@[j] == b@[j],
        decreases a@.len() - i,
    {
        if a[i] != b[i] {
            return false;
        }
        i = i + 1;
    }
    assert(a@ =~= b@);
    true
}

impl Output {
    /// A copy with the same content.
    pub fn duplicate(&self) -> (r: Output)
        ensures
            r@ == self@,
    {
        match self {
            Output::Value(b) => Output::Value(copy_bytes(b)),
            Output::Reference(s) => Output::Reference(*s),
            Output::Empty => Output::Empty,
            Output::Panicked(e) => Output::Panicked(*e),
        }
    }

    /// Semantic equality: the payload bytes, not the allocation.
    pub fn same_content(&self, other: &Output) -> (r: bool)
        ensures
            r == (self@ == other@),
    {
        match (self, other) {
            (Output::Value(a), Output::Value(b)) => same_bytes(a, b),
            (Output::Reference(a), Output::Reference(b)) => *a == *b,
            (Output::Empty, Output::Empty) => true,
            (Output::Panicked(a), Output::Panicked(b)) => *a == *b,
            _ => false,
        }
    }

    /// The number of payload bytes held.
    pub fn size(&self) -> (r: usize)
        ensures
            r as nat == self@.size(),
    {
        match self {
            Output::Value(b) => b.len(),
            _ => 0,
        }
    }
}

} // verus!
