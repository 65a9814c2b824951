use ailets::dag::{Dag, DependsOn, For, NodeKind};
use ailets::attachments::{on_writer_realized, shutdown_result, AttachAction, AttachmentConfig};
use ailets::fd_table::{ChannelHandle, FdEntry, FdTable};
use ailets::idgen::{Handle, HandleKind, IdGen};
use ailets::io_kind::{error_kind_to_str, errno_to_error_kind, IoErrorKind};
use ailets::mempipe::MemPipeBuffer;
use ailets::registry::ActorRegistry;
use ailets::std_handle::StdHandle;
use ailets::text::{decimal_string_i64, starts_with, str_eq, str_lex_le};
use ailets::var_access::{
    var_close_step, var_dir, var_keys_from_listing, var_open_step, var_path, var_read_step, var_value, VarOpen, VarRead,
};

#[test]
fn errno_maps_to_error_kind() {
    assert_eq!(errno_to_error_kind(1), IoErrorKind::PermissionDenied);
    assert_eq!(errno_to_error_kind(13), IoErrorKind::PermissionDenied);
    assert_eq!(errno_to_error_kind(2), IoErrorKind::NotFound);
    assert_eq!(errno_to_error_kind(9), IoErrorKind::InvalidInput);
    assert_eq!(errno_to_error_kind(22), IoErrorKind::InvalidInput);
    assert_eq!(errno_to_error_kind(12), IoErrorKind::OutOfMemory);
    assert_eq!(errno_to_error_kind(28), IoErrorKind::OutOfMemory);
    assert_eq!(errno_to_error_kind(24), IoErrorKind::Unsupported);
    assert_eq!(errno_to_error_kind(32), IoErrorKind::BrokenPipe);
    assert_eq!(errno_to_error_kind(5), IoErrorKind::Other);
    assert_eq!(errno_to_error_kind(-7), IoErrorKind::Other);
}

#[test]
fn error_kind_names() {
    assert_eq!(error_kind_to_str(IoErrorKind::NotFound), "not found");
    assert_eq!(error_kind_to_str(IoErrorKind::Other), "other error");
    assert_eq!(error_kind_to_str(IoErrorKind::BrokenPipe), "broken pipe");
    assert_eq!(error_kind_to_str(IoErrorKind::WriteZero), "unknown error");
}

#[test]
fn std_handles_by_fd_and_name() {
    assert_eq!(StdHandle::Stdin.as_fd(), 0);
    assert_eq!(StdHandle::Trace.as_fd(), 5);
    assert_eq!(StdHandle::try_from_fd(2), Ok(StdHandle::Log));
    assert_eq!(StdHandle::try_from_fd(6), Err(()));
    assert_eq!(StdHandle::try_from_fd(-1), Err(()));
    assert_eq!(StdHandle::try_from_name("stderr"), Ok(StdHandle::Log));
    assert_eq!(StdHandle::try_from_name("log"), Ok(StdHandle::Log));
    assert_eq!(StdHandle::try_from_name("env"), Ok(StdHandle::Env));
    assert_eq!(StdHandle::try_from_name("stdio"), Err(()));
}

#[test]
fn ids_are_handed_out_in_order() {
    let mut g = IdGen::new();
    assert_eq!(g.get_next(), 1);
    assert_eq!(g.get_next(), 2);
    let h = g.get_next_traced(HandleKind::PipeReader, Handle::new(1), None);
    assert_eq!(h.id(), 3);
    assert_eq!(Handle::new(-4).to_debug_string(), "Handle { id: -4 }");
}

#[test]
fn text_helpers() {
    assert_eq!(decimal_string_i64(0), "0");
    assert_eq!(decimal_string_i64(-120), "-120");
    assert_eq!(decimal_string_i64(i64::MIN), "-9223372036854775808");
    assert!(str_eq("abc", "abc") && !str_eq("abc", "abd"));
    assert!(starts_with("dir1/file", "dir1/") && !starts_with("dir1", "dir1/"));
    assert!(str_lex_le("a", "b") && str_lex_le("a", "a") && !str_lex_le("b", "a") && str_lex_le("", "a"));
}

#[test]
fn variable_paths_and_keys() {
    assert_eq!(var_dir(7), "/var/7/");
    assert_eq!(var_path(7, "name"), "/var/7/name");
    let listing = Ok(vec!["/var/7/a".to_string(), "/other".to_string(), "/var/7/b".to_string()]);
    assert_eq!(var_keys_from_listing("/var/7/", listing), vec!["a", "b"]);
    assert!(var_keys_from_listing("/var/7/", Err(38)).is_empty());
}

#[test]
fn registry_replaces_earlier_registration() {
    let mut r: ActorRegistry<u8> = ActorRegistry::new();
    assert_eq!(r.get("x"), None);
    r.register("x".to_string(), 1);
    r.register("y".to_string(), 2);
    r.register("x".to_string(), 3);
    assert_eq!(r.get("x"), Some(3));
    assert_eq!(r.get("y"), Some(2));
}

#[test]
fn fd_table_uses_lowest_free_slot() {
    let mut t = FdTable::new();
    // The standard handles' slots are free at first.
    assert_eq!(t.insert(FdEntry::AllowedReader), 0);
    t.set(1, FdEntry::AllowedWriter);
    assert_eq!(t.insert(FdEntry::ActiveReader(ChannelHandle(5))), 2);
    assert_eq!(t.get(2), Some(&FdEntry::ActiveReader(ChannelHandle(5))));
    assert_eq!(t.remove(0), Some(FdEntry::AllowedReader));
    assert_eq!(t.insert(FdEntry::AllowedWriter), 0);
    assert_eq!(t.get(99), None);
    assert_eq!(t.remove(-1), None);
    if let Some(e) = t.get_mut(1) {
        *e = FdEntry::ActiveWriter { node_handle: Handle::new(1), std_handle: StdHandle::Stdout };
    }
    assert_eq!(t.get(1), Some(&FdEntry::ActiveWriter { node_handle: Handle::new(1), std_handle: StdHandle::Stdout }));
    for _ in 0..5 {
        t.insert(FdEntry::AllowedReader);
    }
    assert_eq!(t.insert(FdEntry::AllowedReader), 8);
    t.clear();
    assert_eq!(t.get(0), None);
}

#[test]
fn attachment_sinks_are_taken_per_actor() {
    let mut c: AttachmentConfig<&str> = AttachmentConfig::new();
    c.attach_to_sink(Handle::new(1), "s1");
    c.attach_to_sink(Handle::new(2), "s2");
    c.attach_to_sink(Handle::new(1), "s3");
    assert_eq!(c.take_custom_sinks(Handle::new(1)), vec!["s1", "s3"]);
    assert!(c.take_custom_sinks(Handle::new(1)).is_empty());
    assert_eq!(c.take_custom_sinks(Handle::new(2)), vec!["s2"]);
}

#[test]
fn realized_writers_attach_by_stream() {
    assert_eq!(on_writer_realized(1), AttachAction::CustomSinks);
    assert_eq!(on_writer_realized(2), AttachAction::Stderr);
    assert_eq!(on_writer_realized(4), AttachAction::Stderr);
    assert_eq!(on_writer_realized(5), AttachAction::Stderr);
    assert_eq!(on_writer_realized(0), AttachAction::Nothing);
    assert_eq!(on_writer_realized(3), AttachAction::Nothing);
    assert_eq!(on_writer_realized(17), AttachAction::Nothing);
    assert_eq!(shutdown_result(0), Ok(()));
    assert_eq!(shutdown_result(2), Err("attachment shutdown failed for 2 tasks".to_string()));
}

#[test]
fn vec_backs_a_mem_pipe() {
    let mut v: Vec<u8> = Vec::new();
    assert!(MemPipeBuffer::is_empty(&v));
    MemPipeBuffer::extend_from_slice(&mut v, b"ab");
    MemPipeBuffer::extend_from_slice(&mut v, b"c");
    assert_eq!(MemPipeBuffer::len(&v), 3);
    assert_eq!(MemPipeBuffer::as_slice(&v), b"abc");
}

#[test]
fn variable_reading_steps() {
    assert_eq!(var_open_step(Ok(7)), VarOpen::Opened(7));
    assert_eq!(var_open_step(Err(2)), VarOpen::Absent);
    assert_eq!(var_open_step(Err(13)), VarOpen::Failed("errno 13".to_string()));
    assert_eq!(var_read_step(Ok(3)), VarRead::More);
    assert_eq!(var_read_step(Ok(0)), VarRead::End);
    assert_eq!(var_read_step(Err(4)), VarRead::Retry);
    assert_eq!(var_read_step(Err(5)), VarRead::Failed(5));
    assert_eq!(var_close_step(Ok(())), Ok(()));
    assert_eq!(var_close_step(Err(9)), Err("errno 9".to_string()));
    assert_eq!(var_value(Vec::new()), Ok(None));
    assert_eq!(var_value(b"gpt".to_vec()), Ok(Some("gpt".to_string())));
    assert_eq!(var_value("é".as_bytes().to_vec()), Ok(Some("é".to_string())));
    assert!(var_value(vec![0xff, 0xfe]).is_err());
}

#[test]
fn fd_table_lookup_follows_the_last_write() {
    let mut t = FdTable::new();
    let fd = t.insert(FdEntry::AllowedReader);
    assert_eq!(t.get(fd), Some(&FdEntry::AllowedReader));
    t.set(fd, FdEntry::AllowedWriter);
    assert_eq!(t.get(fd), Some(&FdEntry::AllowedWriter));
    assert_eq!(t.remove(fd), Some(FdEntry::AllowedWriter));
    assert_eq!(t.get(fd), None);
    // set of an fd beyond the table is no write
    t.set(1000, FdEntry::AllowedReader);
    assert_eq!(t.get(1000), None);
    let fd2 = t.insert(FdEntry::AllowedWriter);
    assert_eq!(fd2, fd);
    t.clear();
    assert_eq!(t.get(fd2), None);
    assert_eq!(t.get(-1), None);
}

#[test]
fn resolution_goes_through_aliases_only() {
    let mut d = Dag::new(IdGen::new());
    let t = d.add_node("t".to_string(), NodeKind::Concrete);
    let x = d.add_node("x".to_string(), NodeKind::Alias);
    let y = d.add_node("y".to_string(), NodeKind::Alias);
    let a = d.add_node("a".to_string(), NodeKind::Concrete);
    let b = d.add_node("b".to_string(), NodeKind::Concrete);
    let c = d.add_node("c".to_string(), NodeKind::Concrete);
    d.add_dependency(For(t), DependsOn(x));
    d.add_dependency(For(x), DependsOn(y));
    d.add_dependency(For(y), DependsOn(a));
    d.add_dependency(For(y), DependsOn(x));
    d.add_dependency(For(t), DependsOn(b));
    // c is behind the concrete a, so it is not a dependency of t.
    d.add_dependency(For(a), DependsOn(c));
    assert_eq!(d.collect_resolved(t), vec![b, a]);
}
