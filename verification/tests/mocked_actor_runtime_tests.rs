use ailets::mocked_actor_runtime::{
    aclose, add_file, aread, awrite, clear_mocks, get_file, n_of_streams, open_read, open_write, MockedRuntime,
};
use ailets::vfs::WANT_ERROR;

#[test]
fn n_of_streams_returns_zero() {
    let mut mocks = MockedRuntime::new();
    clear_mocks(&mut mocks);

    let n = n_of_streams(&mocks, "test");

    assert_eq!(n, 0);
}

#[test]
fn n_of_streams_returns_number_of_sequential_files() {
    let mut mocks = MockedRuntime::new();
    clear_mocks(&mut mocks);

    let name_str = "foo";
    for i in [0, 1, 2, 10] {
        add_file(&mut mocks, format!("{name_str}.{i}"), Vec::new());
    }

    let n = n_of_streams(&mocks, name_str);

    // Should only count sequential files (0,1,2) and not 10
    assert_eq!(n, 3);
}

#[test]
fn open_read_returns_minus_one_if_file_not_found() {
    let mut mocks = MockedRuntime::new();
    clear_mocks(&mut mocks);

    let fd = open_read(&mut mocks, "test", 0);

    assert_eq!(fd, -1);
}

#[test]
fn open_read_returns_non_negative_if_file_exists() {
    let mut mocks = MockedRuntime::new();
    clear_mocks(&mut mocks);

    add_file(&mut mocks, "test.0".to_string(), Vec::new());
    let fd = open_read(&mut mocks, "test", 0);

    assert!(fd >= 0);
}

#[test]
fn open_write_returns_minus_one_on_error() {
    let mut mocks = MockedRuntime::new();
    clear_mocks(&mut mocks);

    let name = format!("test{}", WANT_ERROR);
    let fd = open_write(&mut mocks, &name);

    assert_eq!(fd, -1);
}

#[test]
fn mocked_actor_runtime_tests_open_write_creates_file() {
    let mut mocks = MockedRuntime::new();
    clear_mocks(&mut mocks);

    let name_str = "test";

    // File should not exist before
    assert!(get_file(&mocks, name_str).is_err());

    let fd = open_write(&mut mocks, name_str);
    assert!(fd >= 0);

    // File should exist after open_write
    assert!(get_file(&mocks, name_str).is_ok());
}

#[test]
fn close_returns_minus_one_for_invalid_handle() {
    let mut mocks = MockedRuntime::new();
    clear_mocks(&mut mocks);

    let result = aclose(&mut mocks, 999);

    assert_eq!(result, -1);
}

#[test]
fn close_returns_zero_if_ok_for_read_and_write_handles() {
    let mut mocks = MockedRuntime::new();
    clear_mocks(&mut mocks);
    add_file(&mut mocks, "foo.0".to_string(), Vec::new());

    // Open handles
    let read_fd = open_read(&mut mocks, "foo", 0);
    assert!(read_fd >= 0);
    let write_fd = open_write(&mut mocks, "bar");
    assert!(write_fd >= 0);

    // Act and assert: Close handles
    let result = aclose(&mut mocks, read_fd as usize);
    assert_eq!(result, 0);
    let result = aclose(&mut mocks, write_fd as usize);
    assert_eq!(result, 0);
}

#[test]
fn mocked_write_then_read_back() {
    let mut mocks = MockedRuntime::new();
    let wfd = open_write(&mut mocks, "log.0");
    assert!(wfd >= 0);
    assert_eq!(awrite(&mut mocks, wfd as usize, b"abc"), 3);
    assert_eq!(get_file(&mocks, "log.0").unwrap(), b"abc");
    let rfd = open_read(&mut mocks, "log", 0);
    assert!(rfd >= 0);
    let mut buf = [0u8; 8];
    assert_eq!(aread(&mut mocks, rfd as usize, &mut buf), 3);
    assert_eq!(&buf[..3], b"abc");
    assert_eq!(aread(&mut mocks, rfd as usize, &mut buf), 0);
}
