use ailets::dag::{NodeKind, NodeState};
use ailets::deb_control::{
    get_current_deb_byte_limit, get_current_deb_control, list_deb_actors, register_deb_actor,
    register_deb_actor_with_config, resume_deb_actor, DebContext, DebControlState, DebRegistry,
};
use ailets::environment::{EnvService, Environment};
use ailets::idgen::{Handle, IdGen};
use ailets::kv::MemKV;
use ailets::merge::MergeReader;
use ailets::pipe::ReadStep;
use ailets::resolve::OwnedDependencyIterator;

#[test]
fn env_service_set_and_get() {
    let mut s = EnvService::new();
    assert_eq!(s.get("HOME"), None);
    s.set("HOME".to_string(), "/root".to_string());
    s.set("A".to_string(), "1".to_string());
    s.set("HOME".to_string(), "/home".to_string());
    assert_eq!(s.get("HOME"), Some("/home".to_string()));
    assert_eq!(s.get("A"), Some("1".to_string()));
}

#[test]
fn value_node_is_terminated_with_stored_output() {
    let mut env: Environment<u32> = Environment::new(MemKV::new());
    let v = env.add_value_node(b"42", Some("answer".to_string())).unwrap();
    let n = env.dag.get_node(v).unwrap();
    assert_eq!(n.state, NodeState::Terminated);
    assert_eq!(n.exit_code, 0);
    assert_eq!(n.idname, "value");
    assert_eq!(n.explain, Some("answer".to_string()));
    let mut kv = env.pipe_pool.store().listdir("pipes").unwrap();
    assert_eq!(kv.len(), 1);
    assert_eq!(kv.pop().unwrap(), format!("pipes/actor-{}-1", v.id()));
}

#[test]
fn nodes_aliases_and_resolution() {
    let mut env: Environment<u32> = Environment::new(MemKV::new());
    let a = env.add_node("a".to_string(), &[], None);
    let b = env.add_node("b".to_string(), &[a], Some("uses a".to_string()));
    let al = env.add_alias("both".to_string(), a);
    let al2 = env.add_aliases("many".to_string(), &[al, b]);
    assert_eq!(env.dag.get_node(al).unwrap().kind, NodeKind::Alias);
    assert_eq!(env.resolve_all(al2), vec![b, a]);
    assert_eq!(env.resolve_all(b), vec![b]);
    assert_eq!(env.dag.get_direct_dependencies(b), vec![a]);
    assert_eq!(env.dag.find_alias("both"), Some(al));
    assert_eq!(env.dag.find_alias("a"), None);
}

#[test]
fn merge_reader_concatenates_dependency_outputs() {
    let mut env: Environment<u32> = Environment::new(MemKV::new());
    let v1 = env.add_value_node(b"one,", None).unwrap();
    let v2 = env.add_value_node(b"two", None).unwrap();
    let consumer = env.add_node("c".to_string(), &[v1, v2], None);
    let mut m = MergeReader::new(OwnedDependencyIterator::new(&env.dag, consumer));
    let mut out = Vec::new();
    let mut buf = [0u8; 3];
    loop {
        match m.read(&mut env.pipe_pool, &mut env.dag, &mut buf) {
            ReadStep::Done(Ok(0)) => break,
            ReadStep::Done(Ok(n)) => out.extend_from_slice(&buf[..n]),
            other => panic!("unexpected {:?}", other),
        }
    }
    assert_eq!(out, b"one,two");
    assert!(m.close(&mut env.pipe_pool).is_ok());
    let mut buf = [0u8; 3];
    assert!(matches!(m.read(&mut env.pipe_pool, &mut env.dag, &mut buf), ReadStep::Done(_)));
}

#[test]
fn merge_reader_without_dependencies_is_at_end() {
    let mut env: Environment<u32> = Environment::new(MemKV::new());
    let lone = env.add_node("lone".to_string(), &[], None);
    let mut m = MergeReader::new(OwnedDependencyIterator::new(&env.dag, lone));
    let mut buf = [0u8; 4];
    assert_eq!(m.read(&mut env.pipe_pool, &mut env.dag, &mut buf), ReadStep::Done(Ok(0)));
}

#[test]
fn debug_actor_registration_and_resume() {
    let mut reg = DebRegistry::new();
    let mut ctx = DebContext::new();
    assert!(get_current_deb_control(&reg, &ctx).is_none());
    let c = register_deb_actor(&mut reg, &mut ctx, Handle::new(3));
    assert_eq!(c.state(&reg), DebControlState::Paused);
    assert!(!c.wait_for_resume(&reg));
    assert_eq!(get_current_deb_byte_limit(&ctx), None);
    let c2 = register_deb_actor_with_config(&mut reg, &mut ctx, Handle::new(4), Some(128));
    assert_eq!(c2.state(&reg), DebControlState::Paused);
    assert_eq!(get_current_deb_byte_limit(&ctx), Some(128));
    assert_eq!(list_deb_actors(&reg), vec![Handle::new(3), Handle::new(4)]);
    assert_eq!(resume_deb_actor(&mut reg, Handle::new(3)), Ok(()));
    assert_eq!(reg.get(Handle::new(3)).unwrap().state(&reg), DebControlState::Running);
    assert_eq!(reg.get(Handle::new(4)).unwrap().state(&reg), DebControlState::Paused);
    assert_eq!(
        resume_deb_actor(&mut reg, Handle::new(9)),
        Err("Debug actor with handle Handle { id: 9 } not found".to_string())
    );
    let current = get_current_deb_control(&reg, &ctx).unwrap();
    assert_eq!(current, c2);
    assert_eq!(current.state(&reg), DebControlState::Paused);
}

#[test]
fn debug_control_resumes() {
    let mut reg = DebRegistry::new();
    let mut ctx = DebContext::new();
    let c = register_deb_actor(&mut reg, &mut ctx, Handle::new(5));
    assert!(!c.wait_for_resume(&reg));
    // The actor's own control wakes when the registry resumes its handle.
    assert_eq!(resume_deb_actor(&mut reg, Handle::new(5)), Ok(()));
    assert_eq!(c.state(&reg), DebControlState::Running);
    assert!(c.wait_for_resume(&reg));
    // A later registration of the same handle replaces the control; the old one keeps its state.
    let c_new = register_deb_actor(&mut reg, &mut ctx, Handle::new(5));
    assert!(!c_new.wait_for_resume(&reg));
    assert!(c.wait_for_resume(&reg));
    c_new.resume(&mut reg);
    assert!(c_new.wait_for_resume(&reg));
}


#[test]
fn pipe_handles_come_from_the_node_generator() {
    let mut env: Environment<u32> = Environment::new(MemKV::new());
    let a = env.add_node("a".to_string(), &[], None);
    let (w, created) = env.pipe_pool.touch_writer(a, 1, env.dag.idgen_mut()).unwrap();
    assert!(created);
    let b = env.add_node("b".to_string(), &[], None);
    assert_ne!(*w.handle(), a);
    assert_ne!(*w.handle(), b);
    assert_eq!(b.id(), w.handle().id() + 1);
}

#[test]
fn merge_reader_fails_only_on_a_dependency_without_output() {
    let mut env: Environment<u32> = Environment::new(MemKV::new());
    let dead = env.add_node("dead".to_string(), &[], None);
    env.dag.set_state(dead, NodeState::Terminated);
    let consumer = env.add_node("c".to_string(), &[dead], None);
    let mut m = MergeReader::new(OwnedDependencyIterator::new(&env.dag, consumer));
    let mut buf = [0u8; 4];
    assert_eq!(m.read(&mut env.pipe_pool, &mut env.dag, &mut buf), ReadStep::Done(Err(5)));
}

#[test]
fn merge_reader_reads_a_live_pipe_or_waits() {
    let mut env: Environment<u32> = Environment::new(MemKV::new());
    let producer = env.add_node("p".to_string(), &[], None);
    let consumer = env.add_node("c".to_string(), &[producer], None);
    let (w, _) = env.pipe_pool.touch_writer(producer, 1, env.dag.idgen_mut()).unwrap();
    let mut m = MergeReader::new(OwnedDependencyIterator::new(&env.dag, consumer));
    let mut buf = [0u8; 4];
    assert_eq!(m.read(&mut env.pipe_pool, &mut env.dag, &mut buf), ReadStep::Wait);
    assert_eq!(w.write(&mut env.pipe_pool, b"abcdef"), Ok(6));
    assert_eq!(m.read(&mut env.pipe_pool, &mut env.dag, &mut buf), ReadStep::Done(Ok(4)));
    assert_eq!(&buf, b"abcd");
}
