use ailets::dag::{Dag, DependsOn, For, NodeKind};
use ailets::idgen::{Handle, IdGen};
use ailets::scheduler::{Scheduler, StopConditions};

fn collect(s: &Scheduler) -> Vec<Handle> {
    let mut it = s.iter();
    let mut out = Vec::new();
    while let Some(h) = it.next() {
        out.push(h);
    }
    out
}

#[test]
fn dependencies_come_before_target() {
    let mut d = Dag::new(IdGen::new());
    let a = d.add_node("a".to_string(), NodeKind::Concrete);
    let b = d.add_node("b".to_string(), NodeKind::Concrete);
    let t = d.add_node("t".to_string(), NodeKind::Concrete);
    d.add_dependency(For(t), DependsOn(a));
    d.add_dependency(For(a), DependsOn(b));
    assert_eq!(collect(&Scheduler::new(&d, t)), vec![b, a, t]);
}

#[test]
fn shared_dependency_comes_before_its_dependents() {
    // Target T with direct dependencies [A, B] where A also depends on B.
    let mut d = Dag::new(IdGen::new());
    let t = d.add_node("t".to_string(), NodeKind::Concrete);
    let a = d.add_node("a".to_string(), NodeKind::Concrete);
    let b = d.add_node("b".to_string(), NodeKind::Concrete);
    d.add_dependency(For(t), DependsOn(a));
    d.add_dependency(For(t), DependsOn(b));
    d.add_dependency(For(a), DependsOn(b));
    assert_eq!(collect(&Scheduler::new(&d, t)), vec![b, a, t]);
}

#[test]
fn aliases_are_resolved_and_not_yielded() {
    let mut d = Dag::new(IdGen::new());
    let t = d.add_node("t".to_string(), NodeKind::Concrete);
    let x = d.add_node("x".to_string(), NodeKind::Alias);
    let a = d.add_node("a".to_string(), NodeKind::Concrete);
    d.add_dependency(For(t), DependsOn(x));
    d.add_dependency(For(x), DependsOn(a));
    assert_eq!(collect(&Scheduler::new(&d, t)), vec![a, t]);
}

#[test]
fn stop_conditions_cut_the_order() {
    let mut d = Dag::new(IdGen::new());
    let a = d.add_node("a".to_string(), NodeKind::Concrete);
    let b = d.add_node("b".to_string(), NodeKind::Concrete);
    let t = d.add_node("t".to_string(), NodeKind::Concrete);
    d.add_dependency(For(t), DependsOn(b));
    d.add_dependency(For(b), DependsOn(a));
    let before = StopConditions { one_step: false, stop_before: Some(b), stop_after: None };
    assert_eq!(collect(&Scheduler::with_stop_conditions(&d, t, before)), vec![a]);
    let after = StopConditions { one_step: false, stop_before: None, stop_after: Some(b) };
    assert_eq!(collect(&Scheduler::with_stop_conditions(&d, t, after)), vec![a, b]);
    let one = StopConditions { one_step: true, stop_before: None, stop_after: None };
    assert_eq!(collect(&Scheduler::with_stop_conditions(&d, t, one)), vec![a]);
}

#[test]
fn cycles_terminate_with_each_node_once() {
    let mut d = Dag::new(IdGen::new());
    let a = d.add_node("a".to_string(), NodeKind::Concrete);
    let b = d.add_node("b".to_string(), NodeKind::Concrete);
    d.add_dependency(For(a), DependsOn(b));
    d.add_dependency(For(b), DependsOn(a));
    let order = collect(&Scheduler::new(&d, a));
    assert_eq!(order.len(), 2);
    assert!(order.contains(&a) && order.contains(&b));
}

#[test]
fn independent_dependencies_keep_their_order() {
    let mut d = Dag::new(IdGen::new());
    let t = d.add_node("t".to_string(), NodeKind::Concrete);
    let a = d.add_node("a".to_string(), NodeKind::Concrete);
    let b = d.add_node("b".to_string(), NodeKind::Concrete);
    d.add_dependency(For(t), DependsOn(a));
    d.add_dependency(For(t), DependsOn(b));
    assert_eq!(collect(&Scheduler::new(&d, t)), vec![a, b, t]);
}

#[test]
fn missing_target_schedules_nothing() {
    let d = Dag::new(IdGen::new());
    assert_eq!(collect(&Scheduler::new(&d, Handle::new(42))), Vec::<Handle>::new());
}
