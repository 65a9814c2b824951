use ailets::idgen::{Handle, IdGen};
use ailets::kv::MemKV;
use ailets::pipe::{
    create_reader_from_completed, flush_and_close_writer, pipe_path, LatentState, PipeEntryInspection, PipeError,
    PipePool, ReadStep,
};

const EPIPE: i32 = 32;

fn pool() -> PipePool {
    PipePool::new(MemKV::new())
}

#[test]
fn pipe_path_names_actor_and_fd() {
    assert_eq!(pipe_path(Handle::new(7), 1), "pipes/actor-7-1");
    assert_eq!(pipe_path(Handle::new(12), -3), "pipes/actor-12--3");
}

#[test]
fn touch_writer_creates_once() {
    let mut p = pool();
    let mut ids = IdGen::new();
    let actor = Handle::new(100);
    let (w1, created1) = p.touch_writer(actor, 1, &mut ids).unwrap();
    assert!(created1);
    assert_eq!(w1.handle().id(), 1);
    let (w2, created2) = p.touch_writer(actor, 1, &mut ids).unwrap();
    assert!(!created2);
    assert_eq!(w2.handle().id(), 1);
    // The pipe's buffer is at the actor's pipe path.
    assert_eq!(p.store().listdir("pipes").unwrap(), vec!["pipes/actor-100-1"]);
}

#[test]
fn reader_reads_what_writer_wrote_then_end_of_data() {
    let mut p = pool();
    let mut ids = IdGen::new();
    let actor = Handle::new(5);
    let (w, _) = p.touch_writer(actor, 1, &mut ids).unwrap();
    assert_eq!(w.write(&mut p, b"hello"), Ok(5));
    assert_eq!(w.tell(&p), 5);
    let mut r = p.get_or_await_new_reader((actor, 1), false, &mut ids).unwrap().unwrap();
    let mut buf = [0u8; 3];
    assert_eq!(r.read(&p, &mut buf), ReadStep::Done(Ok(3)));
    assert_eq!(&buf, b"hel");
    // Nothing more yet and the writer is open: wait.
    let mut buf2 = [0u8; 8];
    assert_eq!(r.read(&p, &mut buf2), ReadStep::Done(Ok(2)));
    assert_eq!(&buf2[..2], b"lo");
    assert_eq!(r.read(&p, &mut buf2), ReadStep::Wait);
    w.close(&mut p).unwrap();
    assert!(w.is_closed(&p));
    assert_eq!(r.read(&p, &mut buf2), ReadStep::Done(Ok(0)));
}

#[test]
fn writer_error_reaches_reader_after_data_as_epipe() {
    let mut p = pool();
    let mut ids = IdGen::new();
    let actor = Handle::new(5);
    let (w, _) = p.touch_writer(actor, 1, &mut ids).unwrap();
    w.write(&mut p, b"ab").unwrap();
    let mut r = p.get_or_await_new_reader((actor, 1), false, &mut ids).unwrap().unwrap();
    w.set_error(&mut p, 5);
    assert_eq!(w.get_error(&p), 5);
    let mut buf = [0u8; 8];
    assert_eq!(r.read(&p, &mut buf), ReadStep::Done(Ok(2)));
    assert_eq!(r.read(&p, &mut buf), ReadStep::Done(Err(EPIPE)));
    assert_eq!(r.get_error(&p), EPIPE);
}

#[test]
fn reader_own_error_comes_first() {
    let mut p = pool();
    let mut ids = IdGen::new();
    let actor = Handle::new(5);
    let (w, _) = p.touch_writer(actor, 1, &mut ids).unwrap();
    w.write(&mut p, b"ab").unwrap();
    let mut r = p.get_or_await_new_reader((actor, 1), false, &mut ids).unwrap().unwrap();
    r.set_error(9);
    let mut buf = [0u8; 8];
    assert_eq!(r.read(&p, &mut buf), ReadStep::Done(Err(9)));
    assert_eq!(r.get_error(&p), 9);
}

#[test]
fn closed_writer_refuses_writes() {
    let mut p = pool();
    let mut ids = IdGen::new();
    let (w, _) = p.touch_writer(Handle::new(1), 1, &mut ids).unwrap();
    w.close(&mut p).unwrap();
    assert!(w.write(&mut p, b"x").is_err());
}

#[test]
fn latent_request_waits_or_would_block() {
    let mut p = pool();
    let mut ids = IdGen::new();
    let key = (Handle::new(9), 1);
    assert_eq!(p.get_or_await_new_reader(key, false, &mut ids).err(), Some(PipeError::WouldBlock));
    assert!(matches!(p.get_or_await_new_reader(key, true, &mut ids), Ok(None)));
    assert_eq!(p.inspect_entry(key), Some(PipeEntryInspection::Latent(LatentState::Waiting)));
    assert_eq!(p.get_or_await_new_reader(key, false, &mut ids).err(), Some(PipeError::WouldBlock));
    // The producer ends without creating the pipe.
    assert!(p.flush_close_actor_writers(Handle::new(9), 0).is_ok());
    assert_eq!(p.inspect_entry(key), Some(PipeEntryInspection::Latent(LatentState::Closed)));
    assert_eq!(p.get_or_await_new_reader(key, true, &mut ids).err(), Some(PipeError::PipeClosed));
}

#[test]
fn touching_a_latent_writer_realizes_it() {
    let mut p = pool();
    let mut ids = IdGen::new();
    let key = (Handle::new(9), 1);
    assert!(matches!(p.get_or_await_new_reader(key, true, &mut ids), Ok(None)));
    let (w, created) = p.touch_writer(key.0, key.1, &mut ids).unwrap();
    assert!(created);
    match p.inspect_entry(key) {
        Some(PipeEntryInspection::Realized { is_closed, handle }) => {
            assert!(!is_closed);
            assert_eq!(handle, *w.handle());
        }
        other => panic!("unexpected entry {:?}", other),
    }
    assert!(p.get_or_await_new_reader(key, false, &mut ids).unwrap().is_some());
}

#[test]
fn shutdown_with_exit_code_sets_error_and_closes() {
    let mut p = pool();
    let mut ids = IdGen::new();
    let actor = Handle::new(3);
    let (w, _) = p.touch_writer(actor, 1, &mut ids).unwrap();
    w.write(&mut p, b"out").unwrap();
    let mut r = p.get_or_await_new_reader((actor, 1), false, &mut ids).unwrap().unwrap();
    assert!(p.flush_close_actor_writers(actor, 2).is_ok());
    assert!(w.is_closed(&p));
    assert_eq!(w.get_error(&p), 2);
    let mut buf = [0u8; 8];
    assert_eq!(r.read(&p, &mut buf), ReadStep::Done(Ok(3)));
    assert_eq!(r.read(&p, &mut buf), ReadStep::Done(Err(EPIPE)));
    // A second shutdown finds the writer already closed.
    assert_eq!(
        p.flush_close_actor_writers(actor, 0),
        Err("flush/close failed for 1 writers".to_string())
    );
}

#[test]
fn leftover_latent_writers_are_closed() {
    let mut p = pool();
    let mut ids = IdGen::new();
    let (w1, _) = p.touch_writer(Handle::new(1), 1, &mut ids).unwrap();
    assert!(matches!(p.get_or_await_new_reader((Handle::new(2), 1), true, &mut ids), Ok(None)));
    assert!(matches!(p.get_or_await_new_reader((Handle::new(3), 1), true, &mut ids), Ok(None)));
    assert_eq!(p.close_all_leftover_writers(), 2);
    assert_eq!(p.close_all_leftover_writers(), 0);
    // Realized writers are left as they are.
    assert!(!w1.is_closed(&p));
    assert_eq!(p.inspect_entries().len(), 3);
    assert_eq!(
        p.inspect_entry((Handle::new(2), 1)),
        Some(PipeEntryInspection::Latent(LatentState::Closed))
    );
    assert!(p.get_already_realized_writer((Handle::new(1), 1)).is_some());
    assert!(p.get_already_realized_writer((Handle::new(2), 1)).is_none());
}

#[test]
fn completed_buffer_reads_back() {
    let mut p = pool();
    let mut ids = IdGen::new();
    p.write_completed_buffer("values/v1", b"data").unwrap();
    let mut r = create_reader_from_completed(&mut p, Handle::new(ids.get_next()), "values/v1").unwrap();
    let mut buf = [0u8; 8];
    assert_eq!(r.read(&p, &mut buf), ReadStep::Done(Ok(4)));
    assert_eq!(&buf[..4], b"data");
    assert_eq!(r.read(&p, &mut buf), ReadStep::Done(Ok(0)));
    assert!(create_reader_from_completed(&mut p, Handle::new(99), "values/none").is_err());
}

#[test]
fn flush_and_close_writer_closes() {
    let mut p = pool();
    let mut ids = IdGen::new();
    let (w, _) = p.touch_writer(Handle::new(1), 1, &mut ids).unwrap();
    assert_eq!(flush_and_close_writer(&mut p, &w, "test"), Ok(()));
    assert!(w.is_closed(&p));
}

#[test]
fn pipe_error_messages() {
    assert_eq!(PipeError::PipeClosed.message(), "pipe closed by producer");
    assert_eq!(PipeError::WouldBlock.message(), "would block waiting for pipe");
}

#[test]
fn reads_give_back_every_written_byte_in_order() {
    let mut p = pool();
    let mut ids = IdGen::new();
    let actor = Handle::new(9);
    let (w, _) = p.touch_writer(actor, 1, &mut ids).unwrap();
    let mut r = p.get_or_await_new_reader((actor, 1), false, &mut ids).unwrap().unwrap();
    assert_eq!(w.write(&mut p, b"first\n"), Ok(6));
    assert_eq!(w.write(&mut p, b"second "), Ok(7));
    assert_eq!(w.write(&mut p, b"third"), Ok(5));
    w.close(&mut p).unwrap();
    let mut out = Vec::new();
    let mut buf = [0u8; 4];
    loop {
        match r.read(&p, &mut buf) {
            ReadStep::Done(Ok(0)) => break,
            ReadStep::Done(Ok(n)) => {
                assert!(n >= 1 && n <= buf.len());
                out.extend_from_slice(&buf[..n]);
            }
            other => panic!("unexpected {:?}", other),
        }
    }
    assert_eq!(out, b"first\nsecond third");
    assert_eq!(r.read(&p, &mut buf), ReadStep::Done(Ok(0)));
    assert_eq!(r.read(&p, &mut buf), ReadStep::Done(Ok(0)));
}
