use ailets::dagops::{c_string, deps_payload, error_message_json, handle_result, status_result, value_payload};

#[test]
fn value_payload_is_base64_with_nul() {
    assert_eq!(value_payload(b"hello"), b"aGVsbG8=\0".to_vec());
    assert_eq!(value_payload(b""), b"\0".to_vec());
    assert_eq!(value_payload(b"ab"), b"YWI=\0".to_vec());
    assert_eq!(value_payload(&[0u8, 255, 1]), b"AP8B\0".to_vec());
}

#[test]
fn c_string_appends_nul_or_reports_interior_nul() {
    assert_eq!(c_string(b"abc"), Ok(b"abc\0".to_vec()));
    assert_eq!(
        c_string(b"ab\0c"),
        Err("nul byte found in provided data at position: 2".to_string())
    );
    assert_eq!(c_string(b""), Ok(b"\0".to_vec()));
    assert_eq!(
        c_string(b"\0"),
        Err("nul byte found in provided data at position: 0".to_string())
    );
}

#[test]
fn host_answers_are_read_as_results() {
    assert_eq!(handle_result(5, "dag_alias"), Ok(5));
    assert_eq!(handle_result(0, "dag_alias"), Ok(0));
    assert_eq!(handle_result(-1, "dag_alias"), Err("dag_alias: error".to_string()));
    assert_eq!(status_result(0, "depend_fd"), Ok(()));
    assert_eq!(status_result(-1, "depend_fd"), Err("depend_fd: error".to_string()));
}

#[test]
fn deps_payload_is_json_object_with_nul() {
    let deps = vec![("b".to_string(), 2u32), ("a".to_string(), 1u32)];
    assert_eq!(deps_payload(&deps), Ok(b"{\"a\":1,\"b\":2}\0".to_vec()));
    let empty: Vec<(String, u32)> = Vec::new();
    assert_eq!(deps_payload(&empty), Ok(b"{}\0".to_vec()));
}

#[test]
fn error_json_has_code_and_message() {
    assert_eq!(error_message_json(3, "bad"), "{\"code\":3,\"message\":\"bad\"}");
    assert_eq!(error_message_json(-1, "q\"x"), "{\"code\":-1,\"message\":\"q\\\"x\"}");
}
