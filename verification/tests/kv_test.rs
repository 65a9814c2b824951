use ailets::kv::{write_completed_buffer, KVError, MemKV, OpenMode};

#[test]
fn test_open_write_then_read() {
    let mut kv = MemKV::new();

    // Write creates a new buffer
    let buffer = kv.open("test/path", OpenMode::Write).unwrap();
    kv.append(buffer, b"hello world").unwrap();

    // Read returns the same buffer
    let buffer2 = kv.open("test/path", OpenMode::Read).unwrap();
    let data = kv.buffer_data(buffer2);
    assert_eq!(data.as_slice(), b"hello world");
}

#[test]
fn test_open_append() {
    let mut kv = MemKV::new();

    // Append creates new buffer if not exists
    let buffer = kv.open("test/path", OpenMode::Append).unwrap();
    kv.append(buffer, b"first").unwrap();

    // Append returns existing buffer
    let buffer2 = kv.open("test/path", OpenMode::Append).unwrap();
    kv.append(buffer2, b" second").unwrap();

    // Verify both writes are in the buffer
    let data = kv.buffer_data(buffer);
    assert_eq!(data.as_slice(), b"first second");
}

#[test]
fn test_open_read_not_found() {
    let mut kv = MemKV::new();

    let result = kv.open("nonexistent", OpenMode::Read);
    assert!(result.is_err());
    match result {
        Err(KVError::NotFound(path)) => assert_eq!(path, "nonexistent"),
        Ok(_) => panic!("Expected NotFound error"),
    }
}

#[test]
fn test_open_write_overwrites() {
    let mut kv = MemKV::new();

    // Write initial data
    let buffer = kv.open("test/path", OpenMode::Write).unwrap();
    kv.append(buffer, b"initial data").unwrap();

    // Write again overwrites
    let buffer2 = kv.open("test/path", OpenMode::Write).unwrap();
    let data = kv.buffer_data(buffer2);
    assert!(data.is_empty(), "Write mode should create empty buffer");
}

#[test]
fn test_listdir() {
    let mut kv = MemKV::new();

    // Create some paths
    kv.open("dir1/file1", OpenMode::Write).unwrap();
    kv.open("dir1/file2", OpenMode::Write).unwrap();
    kv.open("dir2/file1", OpenMode::Write).unwrap();

    let paths = kv.listdir("dir1/").unwrap();
    assert_eq!(paths, vec!["dir1/file1", "dir1/file2"]);
}

#[test]
fn test_listdir_adds_slash() {
    let mut kv = MemKV::new();

    // Create some paths
    kv.open("dir1/file1", OpenMode::Write).unwrap();
    kv.open("dir1/file2", OpenMode::Write).unwrap();
    kv.open("dir11/file1", OpenMode::Write).unwrap();

    // listdir without trailing slash should still work correctly
    let paths = kv.listdir("dir1").unwrap();
    assert_eq!(paths, vec!["dir1/file1", "dir1/file2"]);

    // dir11 should not be included
    assert!(!paths.contains(&"dir11/file1".to_string()));
}

#[test]
fn test_destroy() {
    let mut kv = MemKV::new();

    // Create some paths
    kv.open("path1", OpenMode::Write).unwrap();
    kv.open("path2", OpenMode::Write).unwrap();

    // Destroy clears all
    kv.destroy().unwrap();

    // Verify paths are gone
    assert!(kv.open("path1", OpenMode::Read).is_err());
    assert!(kv.open("path2", OpenMode::Read).is_err());
}

#[test]
fn listdir_is_sorted_and_unique() {
    let mut kv = MemKV::new();
    kv.open("d/b", OpenMode::Write).unwrap();
    kv.open("d/a", OpenMode::Write).unwrap();
    kv.open("d/b", OpenMode::Write).unwrap();
    kv.open("e/c", OpenMode::Write).unwrap();
    assert_eq!(kv.listdir("d").unwrap(), vec!["d/a", "d/b"]);
    assert!(kv.listdir("z").unwrap().is_empty());
}

#[test]
fn read_after_write_returns_written_bytes() {
    let mut kv = MemKV::new();
    let b = write_completed_buffer(&mut kv, "x/y", b"payload").unwrap();
    assert_eq!(kv.buffer_len(b), 7);
    let again = kv.open("x/y", OpenMode::Read).unwrap();
    assert_eq!(kv.buffer_data(again).as_slice(), b"payload");
    assert!(kv.flush("x/y").is_ok());
    assert!(kv.flush_buffer(again).is_ok());
}

#[test]
fn store_error_messages() {
    assert_eq!(KVError::NotFound("a/b".to_string()).message(), "Path not found: a/b");
    assert_eq!(
        ailets::kv::BufferError::Failed("disk".to_string()).message(),
        "Buffer error: disk"
    );
}
