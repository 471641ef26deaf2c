use bones_reactive::runtime::{NodeState, Runtime};
use bones_reactive::signal::{create_effect, create_signal, Effect, RwSignal};
use bones_reactive::value::{HasSchema, Schema, Value};

#[test]
fn create_signal_get_returns_initial_value() {
    let mut rt = Runtime::new(1);
    let (count, _set_count) = create_signal(&mut rt, 12i64);
    assert_eq!(count.get(&mut rt), 12);
}

#[test]
fn fresh_signal_is_dirty_and_untracked_read_records_nothing() {
    let mut rt = Runtime::new(1);
    let (count, _) = create_signal(&mut rt, 3u32);
    assert_eq!(rt.state(count.node().idx()), NodeState::Dirty);
    assert!(!rt.is_tracking());
    assert_eq!(count.get(&mut rt), 3);
    assert_eq!(rt.edge_count(), 0);
}

#[test]
fn effect_reruns_with_new_signal_value() {
    let mut rt = Runtime::new(1);
    let (read, write) = create_signal(&mut rt, 1i64);
    rt.begin_tracking();
    let v = read.get(&mut rt);
    let effect = create_effect(&mut rt, v * 2);
    assert_eq!(effect.value(&rt), 2);
    assert_eq!(rt.state(effect.node().idx()), NodeState::Clean);

    let to_run = write.set(&mut rt, 5);
    assert_eq!(to_run, vec![effect.node().idx()]);
    for idx in to_run {
        assert_eq!(idx, effect.node().idx());
        let prev = effect.begin_rerun(&mut rt);
        assert_eq!(prev, 2);
        let v = read.get(&mut rt);
        effect.finish_rerun(&mut rt, v * 2);
    }
    assert_eq!(effect.value(&rt), 10);
    assert_eq!(rt.state(effect.node().idx()), NodeState::Clean);
}

#[test]
fn two_effects_on_one_signal_are_each_scheduled_once() {
    let mut rt = Runtime::new(1);
    let (read, write) = create_signal(&mut rt, 7i32);
    rt.begin_tracking();
    let a = read.get(&mut rt);
    let e1 = create_effect(&mut rt, a);
    rt.begin_tracking();
    let b = read.get(&mut rt);
    let e2 = create_effect(&mut rt, b + 1);
    let mut to_run = write.set(&mut rt, 8);
    to_run.sort();
    assert_eq!(to_run, vec![e1.node().idx(), e2.node().idx()]);
}

#[test]
fn diamond_schedules_the_final_effect_once() {
    let mut rt = Runtime::new(1);
    let s = rt.add_node(NodeState::Dirty, Value::I64(1));
    // Two intermediate effects read the signal.
    rt.begin_tracking();
    rt.read(s);
    let left = rt.finish_effect(Value::I64(2));
    rt.begin_tracking();
    rt.read(s);
    let right = rt.finish_effect(Value::I64(3));
    // The final effect reads both intermediates.
    rt.begin_tracking();
    rt.read(left);
    rt.read(right);
    let last = rt.finish_effect(Value::I64(5));

    let to_run = rt.write(s, Value::I64(10));
    assert_eq!(to_run, vec![last]);
    assert_eq!(rt.state(s), NodeState::Dirty);
    assert_eq!(rt.state(left), NodeState::Check);
    assert_eq!(rt.state(right), NodeState::Check);
    assert_eq!(rt.state(last), NodeState::Clean);

    rt.begin_rerun(last);
    rt.read(left);
    rt.read(right);
    rt.finish_rerun(last, Value::I64(6));
    assert_eq!(rt.state(last), NodeState::Clean);
    assert_eq!(rt.peek(last), Value::I64(6));
}

#[test]
fn writing_a_signal_skips_effects_that_do_not_depend_on_it() {
    let mut rt = Runtime::new(1);
    let (a, set_a) = create_signal(&mut rt, 1u64);
    let (b, set_b) = create_signal(&mut rt, 2u64);
    rt.begin_tracking();
    let va = a.get(&mut rt);
    let on_a = create_effect(&mut rt, va);
    rt.begin_tracking();
    let vb = b.get(&mut rt);
    let on_b = create_effect(&mut rt, vb);
    assert_eq!(set_a.set(&mut rt, 10), vec![on_a.node().idx()]);
    assert_eq!(set_b.set(&mut rt, 20), vec![on_b.node().idx()]);
    assert_eq!(rt.state(on_b.node().idx()), NodeState::Clean);
}

#[test]
fn writing_an_unread_signal_schedules_nothing() {
    let mut rt = Runtime::new(1);
    let (_, set_a) = create_signal(&mut rt, true);
    assert!(set_a.set(&mut rt, false).is_empty());
}

#[test]
fn repeated_reads_record_one_dependency() {
    let mut rt = Runtime::new(1);
    let (read, _) = create_signal(&mut rt, 4i64);
    rt.begin_tracking();
    let x = read.get(&mut rt);
    let y = read.get(&mut rt);
    let z = read.with(&mut rt, |v: &i64| *v + 1);
    let effect = create_effect(&mut rt, x + y + z);
    assert_eq!(effect.value(&rt), 13);
    assert_eq!(rt.edge_count(), 1);
    assert!(rt.depends(effect.node().idx(), read.node().idx()));
}

#[test]
fn initial_dependencies_are_exactly_the_signals_read() {
    let mut rt = Runtime::new(1);
    let (a, _) = create_signal(&mut rt, 1i64);
    let (b, _) = create_signal(&mut rt, 2i64);
    let (c, _) = create_signal(&mut rt, 3i64);
    rt.begin_tracking();
    let x = a.get(&mut rt) + c.get(&mut rt);
    let effect = create_effect(&mut rt, x);
    let e = effect.node().idx();
    assert!(rt.depends(e, a.node().idx()));
    assert!(!rt.depends(e, b.node().idx()));
    assert!(rt.depends(e, c.node().idx()));
    assert_eq!(rt.edge_count(), 2);
}

#[test]
fn rerun_replaces_the_dependency_set() {
    let mut rt = Runtime::new(1);
    let (a, set_a) = create_signal(&mut rt, 1i64);
    let (b, set_b) = create_signal(&mut rt, 2i64);
    rt.begin_tracking();
    let x = a.get(&mut rt);
    let effect: Effect<i64> = create_effect(&mut rt, x);
    let e = effect.node().idx();
    // The re-evaluation reads `b` instead of `a`.
    assert_eq!(set_a.set(&mut rt, 5), vec![e]);
    effect.begin_rerun(&mut rt);
    let y = b.get(&mut rt);
    effect.finish_rerun(&mut rt, y);
    assert!(!rt.depends(e, a.node().idx()));
    assert!(rt.depends(e, b.node().idx()));
    assert_eq!(rt.edge_count(), 1);
    assert!(set_a.set(&mut rt, 6).is_empty());
    assert_eq!(set_b.set(&mut rt, 7), vec![e]);
}

#[test]
fn effect_receives_its_previous_value_on_rerun() {
    let mut rt = Runtime::new(1);
    let (a, set_a) = create_signal(&mut rt, 1i64);
    rt.begin_tracking();
    let x = a.get(&mut rt);
    let effect = create_effect(&mut rt, x);
    set_a.set(&mut rt, 2);
    let prev = effect.begin_rerun(&mut rt);
    let y = a.get(&mut rt);
    effect.finish_rerun(&mut rt, prev + y);
    assert_eq!(effect.value(&rt), 3);
}

#[test]
fn tracking_scope_is_open_only_during_an_evaluation() {
    let mut rt = Runtime::new(1);
    let (a, _) = create_signal(&mut rt, 1i64);
    assert!(!rt.is_tracking());
    rt.begin_tracking();
    assert!(rt.is_tracking());
    let x = a.get(&mut rt);
    let effect = create_effect(&mut rt, x);
    assert!(!rt.is_tracking());
    assert!(rt.depends(effect.node().idx(), a.node().idx()));
    assert_eq!(rt.edge_count(), 1);
}

#[test]
fn handle_of_another_thread_is_not_local() {
    let mut here = Runtime::new(1);
    let there = Runtime::new(2);
    let (a, _) = create_signal(&mut here, 1i64);
    assert!(a.node().is_local(&here));
    assert!(!a.node().is_local(&there));
    assert_eq!(a.node().thread(), 1);
    assert_eq!(there.thread(), 2);
}

#[test]
fn dependency_cycle_does_not_loop_forever() {
    let mut rt = Runtime::new(1);
    let s = rt.add_node(NodeState::Dirty, Value::I64(0));
    rt.begin_tracking();
    rt.read(s);
    let e = rt.finish_effect(Value::I64(0));
    // The effect's re-evaluation reads the signal and its own node.
    rt.begin_rerun(e);
    rt.read(s);
    rt.read(e);
    rt.finish_rerun(e, Value::I64(1));
    assert!(rt.depends(e, e));
    let to_run = rt.write(s, Value::I64(1));
    assert!(to_run.is_empty());
    assert_eq!(rt.state(e), NodeState::Check);
}

#[test]
fn rw_signal_reads_and_writes() {
    let mut rt = Runtime::new(1);
    let (read, _) = create_signal(&mut rt, 1u32);
    let rw = RwSignal::from_read(&read);
    assert_eq!(rw.get(&mut rt), 1);
    assert!(rw.set(&mut rt, 9).is_empty());
    assert_eq!(read.get(&mut rt), 9);
    assert_eq!(rw.with(&mut rt, |v: &u32| *v * 3), 27);
}

#[test]
fn value_cell_checks_the_type() {
    let v = 5i64.into_value();
    assert_eq!(v, Value::I64(5));
    assert_eq!(v.schema(), Schema::I64);
    assert_eq!(i64::cast(&v), Some(5));
    assert_eq!(u64::cast(&v), None);
    assert_eq!(bool::cast(&Value::Bool(true)), Some(true));
    assert_eq!(<()>::cast(&Value::Unit), Some(()));
    assert_eq!(i32::schema(), Schema::I32);
}

#[test]
fn cancelled_evaluation_records_nothing() {
    let mut rt = Runtime::new(1);
    let (a, set_a) = create_signal(&mut rt, 1i64);
    rt.begin_tracking();
    a.get(&mut rt);
    rt.cancel_tracking();
    assert!(!rt.is_tracking());
    assert_eq!(rt.scope_len(), 0);
    assert_eq!(rt.edge_count(), 0);
    // A new scope starts empty.
    rt.begin_tracking();
    assert_eq!(rt.scope_len(), 0);
    let effect = create_effect(&mut rt, 0i64);
    assert!(!rt.depends(effect.node().idx(), a.node().idx()));
    assert!(set_a.set(&mut rt, 2).is_empty());
}

#[test]
fn refused_nested_effect_leaves_outer_dependencies_intact() {
    let mut rt = Runtime::new(1);
    let (a, _) = create_signal(&mut rt, 1i64);
    let (b, _) = create_signal(&mut rt, 2i64);
    rt.begin_tracking();
    let x = a.get(&mut rt);
    // A nested effect would need a second scope; one is already open, so it is refused
    // before anything is recorded.
    assert!(rt.is_tracking());
    assert_eq!(rt.scope_len(), 1);
    let outer = create_effect(&mut rt, x);
    assert!(rt.depends(outer.node().idx(), a.node().idx()));
    assert!(!rt.depends(outer.node().idx(), b.node().idx()));
    assert_eq!(rt.edge_count(), 1);
}
