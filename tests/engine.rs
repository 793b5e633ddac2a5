use dice::data::DiceData;
use dice::dice::{DetectCycles, DiceModern, UserComputationData, VersionNumber};
use dice::error::DiceError;
use dice::state::Lookup;
use dice::tasks::TaskState;

const X: u64 = 0;
const Y: u64 = 1;

fn engine() -> DiceModern {
    DiceModern::builder().build(DetectCycles::Enabled)
}

fn commit_x(dice: &mut DiceModern, x: i64) -> usize {
    let mut u = dice.updater();
    u.set(X, x);
    u.commit(dice).version.0
}

/// Evaluates key `f`, which reads `X` and returns `X + 1`, at `version`.
fn eval_f(dice: &mut DiceModern, f: usize, version: usize) -> Result<i64, DiceError> {
    match dice.state.lookup(f, version, None).unwrap() {
        Lookup::Ready(r) => r,
        Lookup::Compute(t) => {
            let x = dice.state.read_global(t, X).unwrap().unwrap();
            dice.state.complete(t, Ok(x + 1)).unwrap();
            Ok(x + 1)
        }
        Lookup::Await(_) => panic!("nothing else evaluates f"),
    }
}

#[test]
fn recompute_after_global_change() {
    let mut dice = engine();
    let f = dice.intern(&"f".to_string());
    let v1 = commit_x(&mut dice, 1);
    assert_eq!(v1, 1);
    assert_eq!(eval_f(&mut dice, f, v1), Ok(2));
    assert_eq!(dice.state.lookup(f, v1, None), Ok(Lookup::Ready(Ok(2))));
    let v2 = commit_x(&mut dice, 5);
    assert_eq!(v2, 2);
    let id = match dice.state.lookup(f, v2, None).unwrap() {
        Lookup::Compute(t) => t,
        other => panic!("expected a new evaluation, got {:?}", other),
    };
    assert!(dice.state.tasks_pending_cancellation().is_empty());
    assert_eq!(dice.state.metrics().running_tasks, 1);
    let x = dice.state.read_global(id, X).unwrap().unwrap();
    assert_eq!(x, 5);
    dice.state.complete(id, Ok(x + 1)).unwrap();
    assert_eq!(dice.state.lookup(f, v2, None), Ok(Lookup::Ready(Ok(6))));
    assert_eq!(dice.state.lookup(f, v1, None), Ok(Lookup::Ready(Ok(2))));
}

#[test]
fn concurrent_readers_share_one_evaluation() {
    let mut dice = engine();
    let g = dice.intern(&"g".to_string());
    let v1 = commit_x(&mut dice, 3);
    let first = dice.state.lookup(g, v1, None).unwrap();
    let second = dice.state.lookup(g, v1, None).unwrap();
    let t = match first {
        Lookup::Compute(t) => t,
        other => panic!("expected a new evaluation, got {:?}", other),
    };
    assert_eq!(second, Lookup::Await(t));
    assert_eq!(dice.state.metrics().running_tasks, 1);
    dice.state.complete(t, Ok(42)).unwrap();
    assert_eq!(dice.state.lookup(g, v1, None), Ok(Lookup::Ready(Ok(42))));
    assert_eq!(dice.state.lookup(g, v1, None), Ok(Lookup::Ready(Ok(42))));
    assert_eq!(dice.state.metrics().running_tasks, 0);
}

#[test]
fn stale_evaluation_is_cancelled() {
    let mut dice = engine();
    let h = dice.intern(&"h".to_string());
    let v1 = commit_x(&mut dice, 1);
    let t = match dice.state.lookup(h, v1, None).unwrap() {
        Lookup::Compute(t) => t,
        other => panic!("expected a new evaluation, got {:?}", other),
    };
    assert_eq!(dice.state.read_global(t, X), Ok(Some(1)));
    assert!(dice.is_idle());
    let v2 = commit_x(&mut dice, 2);
    assert!(dice.state.is_cancelled(t));
    assert_eq!(dice.state.tasks_pending_cancellation(), vec![t]);
    assert!(!dice.is_idle());
    // still running: a reader at version 1 waits for it rather than starting another
    assert_eq!(dice.state.lookup(h, v1, None), Ok(Lookup::Await(t)));
    assert_eq!(dice.state.metrics().running_tasks, 1);
    assert_eq!(dice.state.complete(t, Ok(100)), Err(DiceError::Cancelled));
    assert!(dice.is_idle());
    // nothing was kept at version 1
    assert!(matches!(dice.state.lookup(h, v1, None), Ok(Lookup::Compute(_))));
    // a read at version 2 evaluates afresh
    let t2 = match dice.state.lookup(h, v2, None).unwrap() {
        Lookup::Compute(t2) => t2,
        other => panic!("expected a new evaluation, got {:?}", other),
    };
    assert_ne!(t2, t);
    assert_eq!(dice.state.read_global(t2, X), Ok(Some(2)));
}

#[test]
fn cycle_fails_every_evaluation_on_it() {
    let mut dice = engine();
    let a = dice.intern(&"a".to_string());
    let b = dice.intern(&"b".to_string());
    let v1 = commit_x(&mut dice, 1);
    let ta = match dice.state.lookup(a, v1, None).unwrap() {
        Lookup::Compute(t) => t,
        other => panic!("expected a new evaluation, got {:?}", other),
    };
    let tb = match dice.state.lookup(b, v1, Some(ta)).unwrap() {
        Lookup::Compute(t) => t,
        other => panic!("expected a new evaluation, got {:?}", other),
    };
    assert_eq!(dice.state.lookup(a, v1, Some(tb)), Err(DiceError::CycleDetected(a)));
    assert_eq!(dice.state.cycle_chain(tb, a), vec![b, a]);
    assert_eq!(dice.state.complete(tb, Err(DiceError::CycleDetected(a))), Ok(()));
    assert_eq!(dice.state.complete(ta, Err(DiceError::CycleDetected(a))), Ok(()));
    assert!(matches!(dice.state.lookup(a, v1, None), Ok(Lookup::Compute(_))));
    assert!(matches!(dice.state.lookup(b, v1, None), Ok(Lookup::Compute(_))));
}

#[test]
fn versions_strictly_increase() {
    let mut dice = engine();
    let mut last = 0;
    for x in 0..5 {
        let v = commit_x(&mut dice, x);
        assert!(v > last);
        last = v;
    }
    assert_eq!(last, 5);
    assert_eq!(dice.state.current_version(), 5);
}

#[test]
fn reads_at_old_version_are_unaffected_by_commits() {
    let mut dice = engine();
    let v1 = commit_x(&mut dice, 1);
    let v2 = commit_x(&mut dice, 9);
    assert_eq!(dice.state.global(v1, X), Ok(Some(1)));
    assert_eq!(dice.state.global(v2, X), Ok(Some(9)));
    assert_eq!(dice.state.global(0, X), Ok(None));
    assert_eq!(dice.state.global(7, X), Err(DiceError::UnknownVersion));
}

#[test]
fn cached_result_survives_unrelated_change() {
    let mut dice = engine();
    let f = dice.intern(&"f".to_string());
    let v1 = commit_x(&mut dice, 1);
    assert_eq!(eval_f(&mut dice, f, v1), Ok(2));
    let mut u = dice.updater();
    u.set(Y, 7);
    let v2 = u.commit(&mut dice).version.0;
    assert_eq!(dice.state.lookup(f, v2, None), Ok(Lookup::Ready(Ok(2))));
    // writing the same value again changes nothing either
    let v3 = commit_x(&mut dice, 1);
    assert_eq!(dice.state.lookup(f, v3, None), Ok(Lookup::Ready(Ok(2))));
}

#[test]
fn dependency_through_another_key_invalidates() {
    let mut dice = engine();
    let f = dice.intern(&"f".to_string());
    let top = dice.intern(&"top".to_string());
    let v1 = commit_x(&mut dice, 1);
    assert_eq!(eval_f(&mut dice, f, v1), Ok(2));
    let t = match dice.state.lookup(top, v1, None).unwrap() {
        Lookup::Compute(t) => t,
        other => panic!("expected a new evaluation, got {:?}", other),
    };
    assert_eq!(dice.state.lookup(f, v1, Some(t)), Ok(Lookup::Ready(Ok(2))));
    dice.state.complete(t, Ok(20)).unwrap();
    assert_eq!(dice.to_introspectable().edges, vec![(top, f)]);
    assert_eq!(dice.state.edges(), vec![(top, f)]);
    assert_eq!(dice.state.lookup(top, v1, None), Ok(Lookup::Ready(Ok(20))));
    let v2 = commit_x(&mut dice, 4);
    assert!(dice.state.edges().is_empty());
    assert!(matches!(dice.state.lookup(top, v2, None), Ok(Lookup::Compute(_))));
    assert_eq!(dice.state.lookup(top, v1, None), Ok(Lookup::Ready(Ok(20))));
}

#[test]
fn interning_is_idempotent() {
    let mut dice = engine();
    let a = dice.intern(&"alpha".to_string());
    let b = dice.intern(&"beta".to_string());
    let a2 = dice.intern(&"alpha".to_string());
    assert_eq!(a, 0);
    assert_eq!(b, 1);
    assert_eq!(a2, a);
    assert_eq!(dice.key_index.resolve(a), "alpha");
    assert_eq!(dice.key_index.resolve(b), "beta");
    assert_eq!(dice.key_index.len(), 2);
}

#[test]
fn idle_after_pending_tasks_finish() {
    let mut dice = engine();
    let p = dice.intern(&"p".to_string());
    let q = dice.intern(&"q".to_string());
    let v1 = commit_x(&mut dice, 1);
    let tp = match dice.state.lookup(p, v1, None).unwrap() {
        Lookup::Compute(t) => t,
        other => panic!("unexpected {:?}", other),
    };
    let tq = match dice.state.lookup(q, v1, None).unwrap() {
        Lookup::Compute(t) => t,
        other => panic!("unexpected {:?}", other),
    };
    dice.state.read_global(tp, X).unwrap();
    dice.state.read_global(tq, X).unwrap();
    commit_x(&mut dice, 2);
    let pending = dice.state.tasks_pending_cancellation();
    assert_eq!(pending, vec![tp, tq]);
    for t in pending {
        assert_eq!(dice.state.complete(t, Err(DiceError::Cancelled)), Err(DiceError::Cancelled));
    }
    assert!(dice.is_idle());
    assert!(dice.state.tasks_pending_cancellation().is_empty());
}

#[test]
fn failure_is_cached_for_its_version() {
    let mut dice = engine();
    let k = dice.intern(&"k".to_string());
    let v1 = commit_x(&mut dice, 1);
    let t = match dice.state.lookup(k, v1, None).unwrap() {
        Lookup::Compute(t) => t,
        other => panic!("unexpected {:?}", other),
    };
    dice.state.read_global(t, X).unwrap();
    assert_eq!(dice.state.complete(t, Err(DiceError::ComputationFailed)), Ok(()));
    assert_eq!(dice.state.lookup(k, v1, None), Ok(Lookup::Ready(Err(DiceError::ComputationFailed))));
    let v2 = commit_x(&mut dice, 2);
    assert!(matches!(dice.state.lookup(k, v2, None), Ok(Lookup::Compute(_))));
}

#[test]
fn unknown_version_and_task_are_rejected() {
    let mut dice = engine();
    let k = dice.intern(&"k".to_string());
    assert_eq!(dice.state.lookup(k, 3, None), Err(DiceError::UnknownVersion));
    assert_eq!(dice.state.lookup(k, 0, Some(9)), Err(DiceError::UnknownTask));
    assert_eq!(dice.state.read_global(9, X), Err(DiceError::UnknownTask));
    assert_eq!(dice.state.complete(9, Ok(1)), Err(DiceError::UnknownTask));
    let t = match dice.state.lookup(k, 0, None).unwrap() {
        Lookup::Compute(t) => t,
        other => panic!("unexpected {:?}", other),
    };
    dice.state.complete(t, Ok(1)).unwrap();
    assert_eq!(dice.state.complete(t, Ok(1)), Err(DiceError::UnknownTask));
    assert_eq!(dice.state.task_state(t), Some(TaskState::Completed));
}

#[test]
fn guards_count_handles_per_version() {
    let mut dice = engine();
    let v1 = commit_x(&mut dice, 1);
    assert_eq!(dice.state.guard_count(v1), Ok(1));
    assert_eq!(dice.state.guard_count(0), Ok(0));
    assert_eq!(dice.state.acquire(0), Ok(()));
    assert_eq!(dice.metrics().active_versions, 2);
    assert_eq!(dice.state.release(0), Ok(()));
    assert_eq!(dice.state.release(0), Err(DiceError::NoActiveGuard));
    assert_eq!(dice.state.release(v1), Ok(()));
    assert_eq!(dice.metrics().active_versions, 0);
    assert_eq!(dice.state.acquire(5), Err(DiceError::UnknownVersion));
    assert_eq!(dice.state.release(5), Err(DiceError::UnknownVersion));
}

#[test]
fn version_retires_when_unreferenced_and_quiet() {
    let mut dice = engine();
    let k = dice.intern(&"k".to_string());
    let v1 = commit_x(&mut dice, 1);
    let t = match dice.state.lookup(k, v1, None).unwrap() {
        Lookup::Compute(t) => t,
        other => panic!("unexpected {:?}", other),
    };
    commit_x(&mut dice, 2);
    assert!(dice.state.is_retired(0));
    assert!(!dice.state.is_retired(v1));
    dice.state.release(v1).unwrap();
    assert!(!dice.state.is_retired(v1));
    dice.state.complete(t, Ok(3)).unwrap();
    assert!(dice.state.is_retired(v1));
    assert!(!dice.state.is_retired(2));
}

#[test]
fn new_engine_is_idle_and_empty() {
    let dice = engine();
    assert!(dice.is_idle());
    let m = dice.metrics();
    assert_eq!(m.key_count, 0);
    assert_eq!(m.version_count, 1);
    assert_eq!(m.active_versions, 0);
    assert_eq!(m.running_tasks, 0);
}

#[test]
fn metrics_and_introspection_reflect_state() {
    let mut dice = engine();
    let a = dice.intern(&"a".to_string());
    dice.intern(&"b".to_string());
    commit_x(&mut dice, 1);
    dice.state.lookup(a, 1, None).unwrap();
    let m = dice.metrics();
    assert_eq!(m.key_count, 1);
    assert_eq!(m.version_count, 2);
    assert_eq!(m.active_versions, 1);
    assert_eq!(m.running_tasks, 1);
    let g = dice.to_introspectable();
    assert_eq!(g.key_names, vec!["a".to_string(), "b".to_string()]);
    assert!(g.edges.is_empty());
    assert_eq!(g.metrics, m);
}

#[test]
fn builder_and_updater_carry_values() {
    let mut b = DiceModern::builder();
    b.set(X, 10);
    b.set(X, 11);
    b.set(Y, 3);
    let mut dice = b.build(DetectCycles::Disabled);
    assert_eq!(dice.detect_cycles(), DetectCycles::Disabled);
    assert_eq!(dice.global_data.get(X), Some(11));
    assert_eq!(dice.state.global(0, Y), Ok(Some(3)));
    let mut extra = UserComputationData::new();
    extra.data.set(Y, 8);
    let mut u = dice.updater_with_data(extra);
    u.set(X, 1);
    u.set(X, 2);
    let ctx = u.commit(&mut dice);
    assert_eq!(ctx.version, VersionNumber(1));
    assert_eq!(ctx.extra.data.get(Y), Some(8));
    assert_eq!(dice.state.global(1, X), Ok(Some(2)));
    assert_eq!(dice.state.global(1, Y), Ok(Some(3)));
    assert_eq!(DiceModern::new(DiceData::new()).detect_cycles(), DetectCycles::Enabled);
}

#[test]
fn cycles_undetected_when_disabled() {
    let mut dice = DiceModern::builder().build(DetectCycles::Disabled);
    let a = dice.intern(&"a".to_string());
    let b = dice.intern(&"b".to_string());
    let ta = match dice.state.lookup(a, 0, None).unwrap() {
        Lookup::Compute(t) => t,
        other => panic!("unexpected {:?}", other),
    };
    let tb = match dice.state.lookup(b, 0, Some(ta)).unwrap() {
        Lookup::Compute(t) => t,
        other => panic!("unexpected {:?}", other),
    };
    assert_eq!(dice.state.lookup(a, 0, Some(tb)), Ok(Lookup::Await(ta)));
}
