use ailets::actor_io::AWriter;
use ailets::io_kind::{error_kind_to_str, IoErrorKind};
use ailets::runtime::VfsActorRuntime;
use ailets::std_handle::StdHandle;
use ailets::vfs::WANT_ERROR;

/// Writes the whole buffer, as repeated writes do; a write of zero bytes is an error.
fn write_all(writer: &mut AWriter, runtime: &mut VfsActorRuntime, mut buf: &[u8]) -> Result<(), IoErrorKind> {
    while !buf.is_empty() {
        match writer.write(runtime, buf)? {
            0 => return Err(IoErrorKind::WriteZero),
            n => buf = &buf[n..],
        }
    }
    Ok(())
}

#[test]
fn awriter_test_happy_path() {
    let mut runtime = VfsActorRuntime::new();
    let mut writer = AWriter::new(&mut runtime, "test").expect("Should create writer");

    write_all(&mut writer, &mut runtime, b"Hello,").unwrap();
    write_all(&mut writer, &mut runtime, b" world!").unwrap();

    assert_eq!(runtime.get_file("test").unwrap(), b"Hello, world!");
}

#[test]
fn write_in_chunks() {
    let mut runtime = VfsActorRuntime::new();
    let mut writer = AWriter::new(&mut runtime, "test").expect("Should create writer");

    let data = b"one\ntwo\nthree\n";
    for _ in 0..3 {
        let n = writer.write(&mut runtime, data).unwrap();
        assert!(n == 4, "Should write 4 bytes (o, n, e, nl)");
    }
    write_all(&mut writer, &mut runtime, data).unwrap();

    assert_eq!(
        runtime.get_file("test").unwrap(),
        b"one\none\none\none\ntwo\nthree\n"
    );
}

#[test]
fn awriter_test_cant_open_nonexistent_file() {
    let mut runtime = VfsActorRuntime::new();
    let err = AWriter::new(&mut runtime, "file-name-to-fail\u{1}")
        .expect_err("Should fail to create writer");

    assert_eq!(
        err,
        IoErrorKind::InvalidInput,
        "Error should be InvalidInput, got: {}",
        error_kind_to_str(err)
    );
}

#[test]
fn close_can_raise_error() {
    let mut runtime = VfsActorRuntime::new();
    let mut writer = AWriter::new(&mut runtime, "fname-close-error").expect("Should create writer");

    runtime.clear_mocks();
    writer.close(&mut runtime).expect_err("Should fail to close");
}

#[test]
fn write_error() {
    let mut runtime = VfsActorRuntime::new();
    let mut writer = AWriter::new(&mut runtime, "fname-write-error").expect("Should create writer");
    let err = writer
        .write(&mut runtime, &[WANT_ERROR as u8])
        .expect_err("Should fail to write");

    assert_eq!(
        err,
        IoErrorKind::Other,
        "Error should be Other, got: {}",
        error_kind_to_str(err)
    );
}

#[test]
fn awriter_test_new_from_std_does_not_close_on_drop() {
    let runtime = VfsActorRuntime::new();

    // Create a writer using new_from_std() - this should NOT close on drop
    {
        let _writer = AWriter::new_from_std(&runtime, StdHandle::Stdout);
        assert_eq!(runtime.close_call_count(), 0, "No close calls yet");
    }

    // After drop, no close should have been called
    assert_eq!(
        runtime.close_call_count(),
        0,
        "Writer created with new_from_std() should NOT close on drop"
    );
}

#[test]
fn writer_from_fd_closes_that_fd() {
    let mut runtime = VfsActorRuntime::new();
    let mut writer = AWriter::new_from_fd(&runtime, 42).expect("Should create writer from fd");
    assert_eq!(runtime.close_call_count(), 0, "No close calls yet");
    // fd 42 was never opened here, so the runtime refuses it, but records the call.
    assert!(writer.close(&mut runtime).is_err());
    assert_eq!(runtime.close_call_count(), 1);
    assert!(runtime.was_closed(42), "fd 42 should have been closed");
}

#[test]
fn writer_from_negative_fd_is_invalid_input() {
    let runtime = VfsActorRuntime::new();
    assert_eq!(AWriter::new_from_fd(&runtime, -1).err(), Some(IoErrorKind::InvalidInput));
}

#[test]
fn closed_writer_writes_nothing_and_flush_succeeds() {
    let mut runtime = VfsActorRuntime::new();
    let mut writer = AWriter::new(&mut runtime, "out").expect("Should create writer");
    assert_eq!(writer.flush(), Ok(()));
    writer.close(&mut runtime).expect("Should close");
    assert_eq!(writer.fd(), None);
    assert_eq!(writer.write(&mut runtime, b"late"), Ok(0));
    assert_eq!(runtime.get_file("out").unwrap(), b"");
}
