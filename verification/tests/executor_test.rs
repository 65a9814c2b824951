use ailets::dag::{Dag, DependsOn, For, NodeKind, NodeState};
use ailets::errno::ENOENT;
use ailets::executor::{
    add_pending, blocked_message, is_ready_to_spawn, job_nodes, join_decision, on_terminated, on_terminating,
    remove_blocked_from_pending, spawn_ready_actors, termination_result, SpawnOutcome, SpawnReadiness,
};
use ailets::idgen::{Handle, IdGen};
use ailets::kv::MemKV;
use ailets::pipe::PipePool;
use ailets::registry::ActorRegistry;
use ailets::scheduler::StopConditions;

fn setup() -> (Dag, PipePool, IdGen) {
    (Dag::new(IdGen::new()), PipePool::new(MemKV::new()), IdGen::new())
}

#[test]
fn node_without_dependencies_is_ready() {
    let (mut d, p, _) = setup();
    let a = d.add_node("a".to_string(), NodeKind::Concrete);
    assert_eq!(is_ready_to_spawn(a, &d, &p), SpawnReadiness::Ready);
}

#[test]
fn readiness_follows_the_decision_table() {
    let (mut d, mut p, mut ids) = setup();
    let a = d.add_node("a".to_string(), NodeKind::Concrete);
    let b = d.add_node("b".to_string(), NodeKind::Concrete);
    d.add_dependency(For(b), DependsOn(a));
    // Dependency not started.
    assert_eq!(is_ready_to_spawn(b, &d, &p), SpawnReadiness::Waiting);
    // Running without output.
    d.set_state(a, NodeState::Running);
    assert_eq!(is_ready_to_spawn(b, &d, &p), SpawnReadiness::Waiting);
    // Running with output.
    p.touch_writer(a, 1, &mut ids).unwrap();
    assert_eq!(is_ready_to_spawn(b, &d, &p), SpawnReadiness::Ready);
    // Terminated with an error.
    d.set_state(a, NodeState::Terminated);
    d.set_exit_code(a, 3);
    assert_eq!(is_ready_to_spawn(b, &d, &p), SpawnReadiness::FailedDependency(a));
}

#[test]
fn clean_terminated_dependency_without_output_is_neutral() {
    let (mut d, p, _) = setup();
    let a = d.add_node("a".to_string(), NodeKind::Concrete);
    let b = d.add_node("b".to_string(), NodeKind::Concrete);
    d.add_dependency(For(b), DependsOn(a));
    d.set_state(a, NodeState::Terminated);
    assert_eq!(is_ready_to_spawn(b, &d, &p), SpawnReadiness::Ready);
}

#[test]
fn spawn_round_starts_ready_nodes_only() {
    let (mut d, p, _) = setup();
    let a = d.add_node("a".to_string(), NodeKind::Concrete);
    let b = d.add_node("b".to_string(), NodeKind::Concrete);
    d.add_dependency(For(b), DependsOn(a));
    let mut reg: ActorRegistry<u32> = ActorRegistry::new();
    reg.register("a".to_string(), 7);
    reg.register("b".to_string(), 8);
    let (outcome, spawn) = spawn_ready_actors(&vec![a, b], &mut d, &p, &reg);
    assert_eq!(spawn, vec![(a, 7)]);
    match outcome {
        SpawnOutcome::Pending(v) => assert_eq!(v, vec![b]),
        other => panic!("unexpected {:?}", other),
    }
    assert_eq!(d.get_node(a).unwrap().state, NodeState::Running);
    assert_eq!(d.get_node(b).unwrap().state, NodeState::NotStarted);
}

#[test]
fn unregistered_actor_terminates_with_enoent() {
    let (mut d, p, _) = setup();
    let x = d.add_node("missing".to_string(), NodeKind::Concrete);
    let reg: ActorRegistry<u32> = ActorRegistry::new();
    let (outcome, spawn) = spawn_ready_actors(&vec![x], &mut d, &p, &reg);
    assert!(spawn.is_empty());
    assert!(matches!(outcome, SpawnOutcome::Pending(v) if v.is_empty()));
    let n = d.get_node(x).unwrap();
    assert_eq!(n.state, NodeState::Terminated);
    assert_eq!(n.exit_code, ENOENT);
}

#[test]
fn spawn_round_reports_failed_dependency() {
    let (mut d, p, _) = setup();
    let a = d.add_node("a".to_string(), NodeKind::Concrete);
    let b = d.add_node("b".to_string(), NodeKind::Concrete);
    d.add_dependency(For(b), DependsOn(a));
    d.set_state(a, NodeState::Terminated);
    d.set_exit_code(a, 1);
    let reg: ActorRegistry<u32> = ActorRegistry::new();
    let (outcome, spawn) = spawn_ready_actors(&vec![b], &mut d, &p, &reg);
    assert!(spawn.is_empty());
    match outcome {
        SpawnOutcome::FailedNodeDependency(dep, v) => {
            assert_eq!(dep, a);
            assert_eq!(v, vec![b]);
        }
        other => panic!("unexpected {:?}", other),
    }
}

#[test]
fn failed_dependency_removes_dependents_transitively() {
    let (mut d, _, _) = setup();
    let a = d.add_node("a".to_string(), NodeKind::Concrete);
    let b = d.add_node("b".to_string(), NodeKind::Concrete);
    let c = d.add_node("c".to_string(), NodeKind::Concrete);
    let e = d.add_node("e".to_string(), NodeKind::Concrete);
    d.add_dependency(For(b), DependsOn(a));
    d.add_dependency(For(c), DependsOn(b));
    let mut pending = vec![c, e, b];
    let removed = remove_blocked_from_pending(a, &mut pending, &d);
    assert_eq!(removed, vec![b, c]);
    assert_eq!(pending, vec![e]);
}

#[test]
fn join_and_termination_messages() {
    let (mut d, _, _) = setup();
    let a = d.add_node("a".to_string(), NodeKind::Concrete);
    assert_eq!(termination_result(0), Ok(()));
    assert_eq!(termination_result(4), Err("exit code 4".to_string()));
    assert_eq!(join_decision(&d, a), None);
    assert_eq!(
        join_decision(&d, Handle::new(50)),
        Some(Err("node Handle { id: 50 } not found in DAG".to_string()))
    );
    on_terminated(&mut d, a, 9);
    assert_eq!(join_decision(&d, a), Some(Err("exit code 9".to_string())));
    assert_eq!(blocked_message(a), "blocked by failed dependency Handle { id: 1 }");
}

#[test]
fn lifecycle_reports_move_states() {
    let (mut d, _, _) = setup();
    let a = d.add_node("a".to_string(), NodeKind::Concrete);
    d.set_state(a, NodeState::Running);
    assert_eq!(on_terminating(&mut d, a), NodeState::Running);
    assert_eq!(d.get_node(a).unwrap().state, NodeState::Terminating);
    assert_eq!(on_terminating(&mut d, a), NodeState::Terminating);
    assert_eq!(on_terminated(&mut d, a, 0), NodeState::Terminating);
    let n = d.get_node(a).unwrap();
    assert_eq!(n.state, NodeState::Terminated);
    assert_eq!(n.exit_code, 0);
    // A terminated node stays terminated when it reports terminating again.
    assert_eq!(on_terminating(&mut d, a), NodeState::Terminated);
    assert_eq!(d.get_node(a).unwrap().state, NodeState::Terminated);
    assert_eq!(on_terminating(&mut d, Handle::new(77)), NodeState::Terminating);
    assert_eq!(on_terminated(&mut d, Handle::new(77), 1), NodeState::Terminated);
}

#[test]
fn job_adds_not_started_nodes_in_order() {
    let (mut d, _, _) = setup();
    let a = d.add_node("a".to_string(), NodeKind::Concrete);
    let b = d.add_node("b".to_string(), NodeKind::Concrete);
    d.add_dependency(For(b), DependsOn(a));
    assert_eq!(job_nodes(&d, b, StopConditions::default()), vec![a, b]);
    let one = StopConditions { one_step: true, stop_before: None, stop_after: None };
    assert_eq!(job_nodes(&d, b, one), vec![a]);
    d.set_state(a, NodeState::Terminated);
    assert_eq!(job_nodes(&d, b, one), vec![b]);
    let mut pending = vec![a];
    add_pending(&mut pending, &vec![a, b]);
    assert_eq!(pending, vec![a, b]);
}

#[test]
fn all_clean_dependencies_make_a_node_ready() {
    let (mut d, p, _) = setup();
    let a = d.add_node("a".to_string(), NodeKind::Concrete);
    let b = d.add_node("b".to_string(), NodeKind::Concrete);
    let c = d.add_node("c".to_string(), NodeKind::Concrete);
    d.add_dependency(For(c), DependsOn(a));
    d.add_dependency(For(c), DependsOn(b));
    d.set_state(a, NodeState::Terminated);
    d.set_state(b, NodeState::Terminated);
    assert_eq!(is_ready_to_spawn(c, &d, &p), SpawnReadiness::Ready);
}

#[test]
fn first_decisive_dependency_wins() {
    let (mut d, mut p, mut ids) = setup();
    let a = d.add_node("a".to_string(), NodeKind::Concrete);
    let b = d.add_node("b".to_string(), NodeKind::Concrete);
    let c = d.add_node("c".to_string(), NodeKind::Concrete);
    d.add_dependency(For(c), DependsOn(a));
    d.add_dependency(For(c), DependsOn(b));
    // a runs with output: ready, although b has not started.
    d.set_state(a, NodeState::Running);
    p.touch_writer(a, 1, &mut ids).unwrap();
    assert_eq!(is_ready_to_spawn(c, &d, &p), SpawnReadiness::Ready);
}
