use turbo_tasks_memory::memory_backend::MemoryBackend;
use turbo_tasks_memory::output::{Error, Output};
use turbo_tasks_memory::task::{Identity, Status};

fn call(function: u64, args: Vec<u64>) -> Identity {
    Identity::new(function, args)
}

fn value(bytes: &[u8]) -> Output {
    Output::Value(bytes.to_vec())
}

fn is_value(out: &Option<Output>, bytes: &[u8]) -> bool {
    match out {
        Some(o) => o.same_content(&value(bytes)),
        None => false,
    }
}

/// Starts `t` (which must be scheduled) and commits `out` without reading anything.
fn run_leaf(e: &mut MemoryBackend, t: usize, out: Output) -> Result<bool, Error> {
    let epoch = e.begin_execution(t);
    e.commit_output(t, epoch, out)
}

/// Executes `consumer`, whose body reads `input` and multiplies its single byte by ten.
/// `input` is resolved on demand through the scheduler.
fn run_times_ten(e: &mut MemoryBackend, consumer: usize, input: usize, input_value: u8) -> Result<bool, Error> {
    let epoch = e.begin_execution(consumer);
    let read = match e.read_slot(consumer, input) {
        Some(o) => o,
        None => {
            assert_eq!(e.next_ready(), Some(input));
            run_leaf(e, input, value(&[input_value])).unwrap();
            assert_eq!(e.next_resumable(), Some(consumer));
            e.read_slot(consumer, input).unwrap()
        }
    };
    let out = match read {
        Output::Value(b) => value(&[b[0] * 10]),
        other => other,
    };
    e.commit_output(consumer, epoch, out)
}

#[test]
fn interning_reuses_tasks() {
    let mut e = MemoryBackend::new(None);
    let a = e.get_or_create_task(call(1, vec![7, 8]));
    let b = e.get_or_create_task(call(1, vec![7, 9]));
    let c = e.get_or_create_task(call(1, vec![7, 8]));
    assert_eq!(a, c);
    assert_ne!(a, b);
    assert_eq!(e.task_count(), 2);
    assert_eq!(e.tasks[a].status, Status::Fresh);
}

#[test]
fn scenario_changed_input_reexecutes_dependent_once() {
    let mut e = MemoryBackend::new(None);
    let b = e.get_or_create_task(call(2, vec![]));
    let a = e.get_or_create_task(call(1, vec![]));
    assert!(e.resolve(a).is_none());
    assert_eq!(e.next_ready(), Some(a));
    assert_eq!(run_times_ten(&mut e, a, b, 1), Ok(true));
    assert!(is_value(&e.resolve(a), &[10]));
    assert_eq!(e.execution_count(a), 1);

    e.invalidate(b);
    assert_eq!(e.tasks[b].status, Status::Dirty);
    assert!(e.resolve(b).is_none());
    assert_eq!(e.next_ready(), Some(b));
    assert_eq!(run_leaf(&mut e, b, value(&[2])), Ok(true));
    assert_eq!(e.tasks[a].status, Status::Dirty);
    assert!(e.resolve(a).is_none());
    assert_eq!(e.next_ready(), Some(a));
    assert_eq!(run_times_ten(&mut e, a, b, 2), Ok(true));
    assert!(is_value(&e.resolve(a), &[20]));
    assert_eq!(e.execution_count(a), 2);
}

#[test]
fn scenario_unchanged_input_does_not_reexecute_dependent() {
    let mut e = MemoryBackend::new(None);
    let b = e.get_or_create_task(call(2, vec![]));
    let a = e.get_or_create_task(call(1, vec![]));
    e.resolve(a);
    e.next_ready();
    run_times_ten(&mut e, a, b, 1).unwrap();
    let version = e.tasks[b].version;

    e.invalidate(b);
    e.resolve(b);
    assert_eq!(e.next_ready(), Some(b));
    assert_eq!(run_leaf(&mut e, b, value(&[1])), Ok(false));
    assert_eq!(e.tasks[b].version, version);
    assert_eq!(e.tasks[a].status, Status::Done);
    assert!(is_value(&e.resolve(a), &[10]));
    assert_eq!(e.execution_count(a), 1);
    assert_eq!(e.execution_count(b), 2);
}

#[test]
fn repeated_resolve_returns_memoized_output() {
    let mut e = MemoryBackend::new(None);
    let t = e.get_or_create_task(call(3, vec![1]));
    e.resolve(t);
    e.next_ready();
    run_leaf(&mut e, t, value(&[4, 2])).unwrap();
    let first = e.resolve(t);
    let second = e.resolve(t);
    assert!(is_value(&first, &[4, 2]));
    assert!(is_value(&second, &[4, 2]));
    assert_eq!(e.execution_count(t), 1);
    assert!(e.next_ready().is_none());
}

#[test]
fn dependencies_are_exactly_the_slots_read() {
    let mut e = MemoryBackend::new(None);
    let x = e.get_or_create_task(call(1, vec![]));
    let y = e.get_or_create_task(call(2, vec![]));
    let z = e.get_or_create_task(call(3, vec![]));
    let c = e.get_or_create_task(call(4, vec![]));
    for t in [x, y, z] {
        e.resolve(t);
        e.next_ready();
        run_leaf(&mut e, t, value(&[t as u8])).unwrap();
    }
    e.resolve(c);
    e.next_ready();
    let epoch = e.begin_execution(c);
    assert!(e.read_slot(c, y).is_some());
    assert!(e.read_slot(c, x).is_some());
    assert!(e.read_slot(c, y).is_some());
    e.commit_output(c, epoch, Output::Empty).unwrap();
    assert_eq!(e.tasks[c].dependencies, vec![y, x]);
    assert_eq!(e.dependents_of(x), vec![c]);
    assert_eq!(e.dependents_of(z), Vec::<usize>::new());

    // A re-execution replaces the edges wholesale.
    e.invalidate(c);
    e.resolve(c);
    e.next_ready();
    let epoch = e.begin_execution(c);
    assert!(e.read_slot(c, z).is_some());
    e.commit_output(c, epoch, Output::Empty).unwrap();
    assert_eq!(e.tasks[c].dependencies, vec![z]);
    assert_eq!(e.dependents_of(x), Vec::<usize>::new());
}

/// Builds leaf `a`, `b` reading `a`, `c` and `d` reading `b`, `f` reading `c` and
/// `d` (a diamond), and an unrelated leaf `u`; all done.
fn diamond(e: &mut MemoryBackend) -> [usize; 6] {
    let a = e.get_or_create_task(call(1, vec![]));
    let b = e.get_or_create_task(call(2, vec![]));
    let c = e.get_or_create_task(call(3, vec![]));
    let d = e.get_or_create_task(call(4, vec![]));
    let f = e.get_or_create_task(call(5, vec![]));
    let u = e.get_or_create_task(call(6, vec![]));
    for (t, reads) in [(a, vec![]), (u, vec![]), (b, vec![a]), (c, vec![b]), (d, vec![b]), (f, vec![c, d])] {
        e.resolve(t);
        assert_eq!(e.next_ready(), Some(t));
        let epoch = e.begin_execution(t);
        for s in reads {
            assert!(e.read_slot(t, s).is_some());
        }
        e.commit_output(t, epoch, value(&[1])).unwrap();
    }
    [a, b, c, d, f, u]
}

#[test]
fn changed_slot_dirties_exactly_reachable_tasks() {
    let mut e = MemoryBackend::new(None);
    let [a, b, c, d, f, u] = diamond(&mut e);
    e.invalidate(a);
    e.resolve(a);
    e.next_ready();
    assert_eq!(run_leaf(&mut e, a, value(&[9])), Ok(true));
    for t in [b, c, d, f] {
        assert_eq!(e.tasks[t].status, Status::Dirty);
    }
    assert_eq!(e.tasks[u].status, Status::Done);
    assert_eq!(e.tasks[a].status, Status::Done);
    // The diamond's sink is dirtied once.
    assert_eq!(e.invalidation_count(f), 1);
    assert_eq!(e.invalidation_count(u), 0);
}

#[test]
fn unchanged_slot_dirties_nothing() {
    let mut e = MemoryBackend::new(None);
    let [a, b, c, d, f, u] = diamond(&mut e);
    let version = e.tasks[a].version;
    e.invalidate(a);
    e.resolve(a);
    e.next_ready();
    assert_eq!(run_leaf(&mut e, a, value(&[1])), Ok(false));
    assert_eq!(e.tasks[a].version, version);
    for t in [b, c, d, f, u] {
        assert_eq!(e.tasks[t].status, Status::Done);
    }
}

#[test]
fn reading_own_slot_is_a_cycle() {
    let mut e = MemoryBackend::new(None);
    let a = e.get_or_create_task(call(1, vec![]));
    e.resolve(a);
    e.next_ready();
    let epoch = e.begin_execution(a);
    let read = e.read_slot(a, a);
    assert!(matches!(read, Some(Output::Panicked(Error::CyclicDependency))));
    assert_eq!(e.commit_output(a, epoch, value(&[5])), Ok(true));
    assert!(matches!(e.resolve(a), Some(Output::Panicked(Error::CyclicDependency))));    assert_eq!(e.tasks[a].dependencies, vec![a]);
}

#[test]
fn transitive_cycle_is_rejected_and_others_proceed() {
    let mut e = MemoryBackend::new(None);
    let a = e.get_or_create_task(call(1, vec![]));
    let b = e.get_or_create_task(call(2, vec![]));
    let other = e.get_or_create_task(call(3, vec![]));
    e.resolve(a);
    e.next_ready();
    let ga = e.begin_execution(a);
    assert!(e.read_slot(a, b).is_none());
    assert_eq!(e.tasks[a].blocked_on, Some(b));
    assert_eq!(e.next_ready(), Some(b));
    let gb = e.begin_execution(b);
    assert!(matches!(e.read_slot(b, a), Some(Output::Panicked(Error::CyclicDependency))));
    assert_eq!(e.commit_output(b, gb, value(&[1])), Ok(true));
    assert!(matches!(e.resolve(b), Some(Output::Panicked(Error::CyclicDependency))));

    // An unrelated task resolves meanwhile.
    e.resolve(other);
    assert_eq!(e.next_ready(), Some(other));
    run_leaf(&mut e, other, value(&[3])).unwrap();
    assert!(is_value(&e.resolve(other), &[3]));

    assert_eq!(e.next_resumable(), Some(a));
    let read = e.read_slot(a, b);
    assert!(matches!(read, Some(Output::Panicked(Error::CyclicDependency))));
    e.commit_output(a, ga, read.unwrap()).unwrap();
    assert!(matches!(e.resolve(a), Some(Output::Panicked(Error::CyclicDependency))));
}

#[test]
fn waiting_on_a_running_task_is_not_a_cycle() {
    let mut e = MemoryBackend::new(None);
    let a = e.get_or_create_task(call(1, vec![]));
    let b = e.get_or_create_task(call(2, vec![]));
    e.resolve(a);
    e.resolve(b);
    assert_eq!(e.next_ready(), Some(a));
    assert_eq!(e.next_ready(), Some(b));
    let ga = e.begin_execution(a);
    let gb = e.begin_execution(b);
    assert!(e.read_slot(b, a).is_none());
    e.commit_output(a, ga, value(&[6])).unwrap();
    assert_eq!(e.next_resumable(), Some(b));
    assert!(is_value(&e.read_slot(b, a), &[6]));
    e.commit_output(b, gb, value(&[7])).unwrap();
    assert_eq!(e.tasks[b].dependencies, vec![a]);
}

#[test]
fn invalidation_during_execution_makes_commit_stale() {
    let mut e = MemoryBackend::new(None);
    let t = e.get_or_create_task(call(1, vec![]));
    e.resolve(t);
    e.next_ready();
    let epoch = e.begin_execution(t);
    e.invalidate(t);
    assert_eq!(e.commit_output(t, epoch, value(&[1])), Err(Error::StaleExecution));
    assert_eq!(e.tasks[t].status, Status::Scheduled);
    assert!(matches!(e.tasks[t].output, Output::Empty));
    assert!(e.resolve(t).is_none());
    assert_eq!(e.next_ready(), Some(t));
    let epoch = e.begin_execution(t);
    assert_eq!(e.commit_output(t, epoch, value(&[2])), Ok(true));
    assert!(is_value(&e.resolve(t), &[2]));
}

#[test]
fn invalidating_idle_states_changes_nothing() {
    let mut e = MemoryBackend::new(None);
    let t = e.get_or_create_task(call(1, vec![]));
    e.invalidate(t);
    assert_eq!(e.tasks[t].status, Status::Fresh);
    assert_eq!(e.invalidation_count(t), 0);
    assert_eq!(e.invalidate_root(&call(9, vec![])), None);
    assert_eq!(e.invalidate_root(&call(1, vec![])), Some(t));
}

#[test]
fn eviction_is_transparent() {
    let mut e = MemoryBackend::new(None);
    let b = e.get_or_create_task(call(2, vec![]));
    let a = e.get_or_create_task(call(1, vec![]));
    e.resolve(a);
    e.next_ready();
    run_times_ten(&mut e, a, b, 3).unwrap();
    assert!(e.evict(b));
    assert_eq!(e.tasks[b].status, Status::Unloaded);
    assert!(is_value(&e.resolve(a), &[30]));
    assert!(e.resolve(b).is_none());
    assert_eq!(e.next_ready(), Some(b));
    run_leaf(&mut e, b, value(&[3])).unwrap();
    assert!(is_value(&e.resolve(b), &[3]));
    // Conservatively, the dependent recomputes to the same output.
    assert!(e.resolve(a).is_none());
    e.next_ready();
    run_times_ten(&mut e, a, b, 3).unwrap();
    assert!(is_value(&e.resolve(a), &[30]));
}

#[test]
fn evict_refuses_tasks_that_are_not_done() {
    let mut e = MemoryBackend::new(None);
    let t = e.get_or_create_task(call(1, vec![]));
    assert!(!e.evict(t));
    assert_eq!(e.tasks[t].status, Status::Fresh);
}

#[test]
fn garbage_collection_respects_the_budget() {
    let mut e = MemoryBackend::new(Some(3));
    let big = e.get_or_create_task(call(1, vec![]));
    let small = e.get_or_create_task(call(2, vec![]));
    for (t, bytes) in [(big, vec![1u8, 2, 3, 4]), (small, vec![5u8, 6])] {
        e.resolve(t);
        e.next_ready();
        run_leaf(&mut e, t, Output::Value(bytes)).unwrap();
    }
    assert!(e.over_budget());
    assert_eq!(e.evict_candidate(), Some(big));
    assert_eq!(e.collect_garbage(), 1);
    assert!(!e.over_budget());
    assert_eq!(e.tasks[big].status, Status::Unloaded);
    assert_eq!(e.tasks[small].status, Status::Done);
}

#[test]
fn no_budget_means_never_over() {
    let mut e = MemoryBackend::new(None);
    let t = e.get_or_create_task(call(1, vec![]));
    e.resolve(t);
    e.next_ready();
    run_leaf(&mut e, t, value(&[1; 64])).unwrap();
    assert!(!e.over_budget());
    assert_eq!(e.collect_garbage(), 0);
}

#[test]
fn references_are_followed_and_cycles_caught() {
    let mut e = MemoryBackend::new(None);
    let a = e.get_or_create_task(call(1, vec![]));
    let b = e.get_or_create_task(call(2, vec![]));
    let c = e.get_or_create_task(call(3, vec![]));
    for (t, out) in [(c, value(&[8])), (b, Output::Reference(c)), (a, Output::Reference(b))] {
        e.resolve(t);
        e.next_ready();
        run_leaf(&mut e, t, out).unwrap();
    }
    assert!(e.read_through(a).same_content(&value(&[8])));

    let x = e.get_or_create_task(call(4, vec![]));
    let y = e.get_or_create_task(call(5, vec![]));
    for (t, out) in [(x, Output::Reference(y)), (y, Output::Reference(x))] {
        e.resolve(t);
        e.next_ready();
        run_leaf(&mut e, t, out).unwrap();
    }
    assert!(matches!(e.read_through(x), Output::Panicked(Error::CyclicReference)));
}

#[test]
fn direct_requests_are_served_first() {
    let mut e = MemoryBackend::new(None);
    let a = e.get_or_create_task(call(1, vec![]));
    let b = e.get_or_create_task(call(2, vec![]));
    let c = e.get_or_create_task(call(3, vec![]));
    e.resolve(a);
    e.next_ready();
    e.begin_execution(a);
    assert!(e.read_slot(a, b).is_none());
    e.resolve(c);
    assert_eq!(e.next_ready(), Some(c));
    assert_eq!(e.next_ready(), Some(b));
    assert_eq!(e.next_ready(), None);
}

#[test]
fn snapshot_lists_every_task() {
    let mut e = MemoryBackend::new(None);
    let [a, b, c, d, f, u] = diamond(&mut e);
    let snap = e.snapshot();
    assert_eq!(snap.len(), 6);
    assert_eq!(snap[b].dependencies, vec![a]);
    assert_eq!(snap[b].dependents, vec![c, d]);
    assert_eq!(snap[f].dependencies, vec![c, d]);
    assert_eq!(snap[u].status, Status::Done);
    assert_eq!(snap[f].id, f);
}

#[test]
fn durations_add_up_and_saturate() {
    let mut e = MemoryBackend::new(None);
    let t = e.get_or_create_task(call(1, vec![]));
    e.record_duration(t, 5);
    e.record_duration(t, 7);
    assert_eq!(e.total_duration(t), 12);
    e.record_duration(t, u64::MAX);
    assert_eq!(e.total_duration(t), u64::MAX);
}

#[test]
fn output_equality_is_by_content() {
    let a = value(&[1, 2, 3]);
    let b = a.duplicate();
    assert!(a.same_content(&b));
    assert!(!a.same_content(&value(&[1, 2])));
    assert!(!a.same_content(&Output::Empty));
    assert!(Output::Reference(4).same_content(&Output::Reference(4)));
    assert_eq!(a.size(), 3);
    assert_eq!(Output::Panicked(Error::TaskFailure).size(), 0);
}

#[test]
fn running_reader_of_a_changed_slot_is_refused() {
    let mut e = MemoryBackend::new(None);
    let b = e.get_or_create_task(call(2, vec![]));
    let a = e.get_or_create_task(call(1, vec![]));
    e.resolve(b);
    e.next_ready();
    run_leaf(&mut e, b, value(&[1])).unwrap();
    e.resolve(a);
    e.next_ready();
    let epoch = e.begin_execution(a);
    assert!(is_value(&e.read_slot(a, b), &[1]));
    // `b` changes while `a` is still running.
    e.invalidate(b);
    e.resolve(b);
    e.next_ready();
    assert_eq!(run_leaf(&mut e, b, value(&[2])), Ok(true));
    assert!(e.tasks[a].stale);
    assert_eq!(e.commit_output(a, epoch, value(&[10])), Err(Error::StaleExecution));
    assert_eq!(e.tasks[a].status, Status::Scheduled);
    assert_eq!(e.next_ready(), Some(a));
    assert_eq!(run_times_ten(&mut e, a, b, 2), Ok(true));
    assert!(is_value(&e.resolve(a), &[20]));
}

#[test]
fn commit_with_an_old_epoch_is_refused() {
    let mut e = MemoryBackend::new(None);
    let t = e.get_or_create_task(call(1, vec![]));
    e.resolve(t);
    e.next_ready();
    let epoch = e.begin_execution(t);
    assert_eq!(e.commit_output(t, epoch + 1, value(&[1])), Err(Error::StaleExecution));
    assert_eq!(e.tasks[t].epoch, epoch);
}

#[test]
fn every_task_of_a_cycle_fails() {
    let mut e = MemoryBackend::new(None);
    let a = e.get_or_create_task(call(1, vec![]));
    let b = e.get_or_create_task(call(2, vec![]));
    e.resolve(a);
    e.next_ready();
    let ea = e.begin_execution(a);
    assert!(e.read_slot(a, b).is_none());
    assert_eq!(e.next_ready(), Some(b));
    let eb = e.begin_execution(b);
    assert!(matches!(e.read_slot(b, a), Some(Output::Panicked(Error::CyclicDependency))));
    assert!(e.tasks[a].cyclic);
    assert!(e.tasks[b].cyclic);
    e.commit_output(b, eb, value(&[1])).unwrap();
    assert_eq!(e.tasks[b].dependencies, vec![a]);
    assert_eq!(e.next_resumable(), Some(a));
    assert!(e.read_slot(a, b).is_some());
    // Whatever the opening task commits, it resolves to the cycle error.
    e.commit_output(a, ea, value(&[5])).unwrap();
    assert!(matches!(e.resolve(a), Some(Output::Panicked(Error::CyclicDependency))));
    assert_eq!(e.tasks[a].dependencies, vec![b]);
}

#[test]
fn stale_commit_requeues_and_keeps_waiters() {
    let mut e = MemoryBackend::new(None);
    let a = e.get_or_create_task(call(1, vec![]));
    let b = e.get_or_create_task(call(2, vec![]));
    e.resolve(a);
    e.resolve(b);
    assert_eq!(e.next_ready(), Some(a));
    assert_eq!(e.next_ready(), Some(b));
    let ea = e.begin_execution(a);
    let eb = e.begin_execution(b);
    assert!(e.read_slot(b, a).is_none());
    e.invalidate(a);
    assert_eq!(e.commit_output(a, ea, value(&[1])), Err(Error::StaleExecution));
    assert_eq!(e.tasks[a].waiters, vec![b]);
    assert_eq!(e.next_ready(), Some(a));
    let ea = e.begin_execution(a);
    e.commit_output(a, ea, value(&[2])).unwrap();
    assert_eq!(e.next_resumable(), Some(b));
    assert!(is_value(&e.read_slot(b, a), &[2]));
    e.commit_output(b, eb, value(&[3])).unwrap();
    assert!(is_value(&e.resolve(b), &[3]));
}
