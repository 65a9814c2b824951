use ailets::actor_io::{stream_result, AReader};
use ailets::io_kind::{error_kind_to_str, IoErrorKind};
use ailets::runtime::VfsActorRuntime;
use ailets::std_handle::StdHandle;
use ailets::vfs::WANT_ERROR;

/// Reads all content from a reader into a Vec<u8>.
fn read_to_end(reader: &mut AReader, runtime: &mut VfsActorRuntime) -> Result<Vec<u8>, IoErrorKind> {
    let mut result = Vec::new();
    let mut buf = [0u8; 1024];

    loop {
        let n = reader.read(runtime, &mut buf)?;
        if n == 0 {
            break;
        }
        result.extend_from_slice(&buf[..n]);
    }

    Ok(result)
}

#[test]
fn areader_test_happy_path() {
    let mut runtime = VfsActorRuntime::new();
    runtime.add_file("test".to_string(), b"foo".to_vec());

    let mut reader = AReader::new(&mut runtime, "test").expect("Should create reader");
    let result = read_to_end(&mut reader, &mut runtime).expect("Should read all content");

    assert_eq!(result, b"foo");
}

#[test]
fn read_in_chunks() {
    let mut runtime = VfsActorRuntime::new();
    runtime.add_file(
        "chunks".to_string(),
        b"first\nchunk\nthird\nfourth\nfifth".to_vec(),
    );

    let mut reader = AReader::new(&mut runtime, "chunks").expect("Should create reader");
    let mut buf = [0u8; 10];

    // Read first chunk manually
    let n = reader.read(&mut runtime, &mut buf).expect("Should read first chunk");
    assert_eq!(&buf[..n], b"first\n");

    // Read second chunk manually
    let n = reader.read(&mut runtime, &mut buf).expect("Should read second chunk");
    assert_eq!(&buf[..n], b"chunk\n");

    // Read the rest
    let result = read_to_end(&mut reader, &mut runtime).expect("Should read remaining content");

    assert_eq!(result, b"third\nfourth\nfifth");
}

#[test]
fn areader_test_cant_open_nonexistent_file() {
    let mut runtime = VfsActorRuntime::new();
    let err = AReader::new(&mut runtime, "no-such-file").expect_err("Should fail to create reader");

    assert_eq!(
        err,
        IoErrorKind::NotFound,
        "Error should be NotFound, got: {}",
        error_kind_to_str(err)
    );
}

#[test]
fn read_error() {
    let mut runtime = VfsActorRuntime::new();
    runtime.add_file("fname-read-error".to_string(), vec![WANT_ERROR as u8]);

    let mut reader = AReader::new(&mut runtime, "fname-read-error").expect("Should create reader");
    let mut buf = [0u8; 10];

    reader.read(&mut runtime, &mut buf).expect_err("Should fail to read");
}

#[test]
fn areader_test_new_from_std_does_not_close_on_drop() {
    let runtime = VfsActorRuntime::new();

    // Create a reader using new_from_std() - this should NOT close on drop
    {
        let _reader = AReader::new_from_std(&runtime, StdHandle::Stdin);
        assert!(!_reader.owns_fd(), "A reader of a standard handle does not own its descriptor");
        assert_eq!(runtime.close_call_count(), 0, "No close calls yet");
    }

    // After drop, no close should have been called
    assert_eq!(
        runtime.close_call_count(),
        0,
        "Reader created with new_from_std() should NOT close on drop"
    );
}

#[test]
fn reader_owning_its_fd_closes_it_once() {
    let mut runtime = VfsActorRuntime::new();
    runtime.add_file("test-close".to_string(), b"data".to_vec());

    let mut reader = AReader::new(&mut runtime, "test-close").expect("Should create reader");
    assert!(reader.owns_fd());
    assert_eq!(runtime.close_call_count(), 0, "No close calls yet");
    reader.close(&mut runtime).expect("Should close");
    assert_eq!(runtime.close_call_count(), 1);
    // Closing again does nothing, and a closed reader reads end of data.
    reader.close(&mut runtime).expect("Should close again");
    assert_eq!(runtime.close_call_count(), 1);
    let mut buf = [0u8; 4];
    assert_eq!(reader.read(&mut runtime, &mut buf), Ok(0));
    assert_eq!(reader.fd(), None);
}

#[test]
fn reader_from_std_does_not_own_its_fd() {
    let runtime = VfsActorRuntime::new();
    let reader = AReader::new_from_std(&runtime, StdHandle::Env);
    assert!(!reader.owns_fd());
    assert_eq!(reader.fd(), Some(3));
}

#[test]
fn stream_result_keeps_counts_and_maps_errnos() {
    assert_eq!(stream_result(Ok(5)), Ok(5));
    assert_eq!(stream_result(Err(2)), Err(IoErrorKind::NotFound));
    assert_eq!(stream_result(Err(13)), Err(IoErrorKind::PermissionDenied));
}
