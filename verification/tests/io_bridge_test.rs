use ailets::actor_syscall::{shutdown_needs_cleanup, BlockingActorRuntime, SendablePtr};
use ailets::dag::NodeState;
use ailets::errno::{EBADF, EIO, ENOSYS, EOWNERDEAD, EPIPE};
use ailets::idgen::Handle;
use ailets::io_bridge::{
    attaches_to_stderr, channel_gone_errno, cleanup_failure_message, ChannelTable, CloseRoute, Route,
};

#[test]
fn stdin_read_materializes_once() {
    let mut t = ChannelTable::new();
    let actor = BlockingActorRuntime::new(Handle::new(1));
    actor.register_std_fds(&mut t);
    assert_eq!(t.read(Handle::new(1), 0), Route::Materialize(0));
    assert_eq!(t.read(Handle::new(1), 0), Route::Existing(0));
    // Env is a reader fd that cannot be materialized; stdout is a writer.
    assert_eq!(t.read(Handle::new(1), 3), Route::Refused(EBADF));
    assert_eq!(t.read(Handle::new(1), 1), Route::Refused(EBADF));
    assert_eq!(t.read(Handle::new(2), 0), Route::Refused(EBADF));
}

#[test]
fn writes_materialize_writer_channels() {
    let mut t = ChannelTable::new();
    BlockingActorRuntime::new(Handle::new(1)).register_std_fds(&mut t);
    assert_eq!(t.write(Handle::new(1), 1), Route::Materialize(0));
    assert_eq!(t.write(Handle::new(1), 2), Route::Materialize(1));
    assert_eq!(t.write(Handle::new(1), 1), Route::Existing(0));
    assert_eq!(t.write(Handle::new(1), 0), Route::Refused(EBADF));
    assert_eq!(t.write(Handle::new(1), 9), Route::Refused(EBADF));
}

#[test]
fn close_routes_by_state() {
    let mut t = ChannelTable::new();
    BlockingActorRuntime::new(Handle::new(1)).register_std_fds(&mut t);
    t.read(Handle::new(1), 0);
    t.write(Handle::new(1), 1);
    assert_eq!(t.close(Handle::new(1), 0), CloseRoute::CloseReader(0));
    assert_eq!(t.close(Handle::new(1), 1), CloseRoute::CloseWriter(1));
    assert_eq!(t.close(Handle::new(1), 2), CloseRoute::Done);
    assert_eq!(t.close(Handle::new(1), 2), CloseRoute::NotFound);
}

#[test]
fn cleanup_returns_materialized_channels_of_actor() {
    let mut t = ChannelTable::new();
    BlockingActorRuntime::new(Handle::new(1)).register_std_fds(&mut t);
    BlockingActorRuntime::new(Handle::new(2)).register_std_fds(&mut t);
    t.write(Handle::new(2), 1);
    t.read(Handle::new(1), 0);
    t.write(Handle::new(1), 4);
    assert_eq!(t.first_node(), Some(Handle::new(1)));
    assert_eq!(t.cleanup_actor_io(Handle::new(1)), vec![1, 2]);
    assert_eq!(t.first_node(), Some(Handle::new(2)));
    assert_eq!(t.cleanup_actor_io(Handle::new(2)), vec![0]);
    assert_eq!(t.first_node(), None);
}

#[test]
fn bridge_messages_and_errnos() {
    assert_eq!(channel_gone_errno(true), EIO);
    assert_eq!(channel_gone_errno(false), EPIPE);
    assert!(attaches_to_stderr(2) && attaches_to_stderr(4) && attaches_to_stderr(5));
    assert!(!attaches_to_stderr(1) && !attaches_to_stderr(0) && !attaches_to_stderr(7));
    assert_eq!(cleanup_failure_message(3), "io cleanup failed for 3 actors");
}

#[test]
fn blocking_runtime_errno_and_exit_code() {
    let mut rt = BlockingActorRuntime::new(Handle::new(4));
    assert_eq!(rt.node_handle(), Handle::new(4));
    rt.mark_failed();
    assert_eq!(rt.exit_code(), EOWNERDEAD);
    rt.record_result::<usize>(&Ok(3));
    assert_eq!(rt.get_errno(), 0);
    rt.record_result::<usize>(&Err(EPIPE));
    assert_eq!(rt.get_errno(), EPIPE);
    rt.mark_failed();
    assert_eq!(rt.exit_code(), EPIPE);
    assert_eq!(rt.open_unsupported(), Err(ENOSYS));
    assert_eq!(rt.get_errno(), ENOSYS);
    assert_eq!(rt.begin_shutdown(), Ok(()));
    assert_eq!(rt.begin_shutdown(), Err("shutdown() already called".to_string()));
}

#[test]
fn shutdown_cleanup_depends_on_prior_state() {
    assert!(shutdown_needs_cleanup(NodeState::Running));
    assert!(!shutdown_needs_cleanup(NodeState::Terminated));
}

#[test]
fn sendable_ptr_gives_back_its_value() {
    let p = SendablePtr::new(17usize);
    assert_eq!(p.into_raw(), 17);
}
