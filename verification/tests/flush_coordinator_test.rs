use ailets::flush_coordinator::{flush_answer, request_admission, shutdown_answer, CoordinatorError, WriterExit};

#[test]
fn coordinator_error_messages() {
    assert_eq!(CoordinatorError::ChannelFull.message(), "Flush coordinator channel full");
    assert_eq!(CoordinatorError::Shutdown.message(), "Flush coordinator shut down");
    assert_eq!(CoordinatorError::FlushFailed("io".to_string()).message(), "Flush failed: io");
}

#[test]
fn flush_answers_follow_the_backend() {
    assert_eq!(flush_answer(Some(Ok(()))), Ok(()));
    assert_eq!(flush_answer(Some(Err("disk full".to_string()))), Err("disk full".to_string()));
    assert_eq!(flush_answer(None), Err("flush task panicked".to_string()));
}

#[test]
fn shutdown_answers() {
    assert_eq!(shutdown_answer(Some(WriterExit::Completed)), Ok(()));
    assert_eq!(
        shutdown_answer(Some(WriterExit::Panicked("boom".to_string()))),
        Err("writer task panicked: boom".to_string())
    );
    assert_eq!(
        shutdown_answer(Some(WriterExit::TimedOut)),
        Err("shutdown timeout after 5 seconds".to_string())
    );
    assert_eq!(shutdown_answer(None), Err("writer task already completed".to_string()));
}

#[test]
fn requests_after_shutdown_are_refused() {
    assert_eq!(request_admission(true), Err(CoordinatorError::Shutdown));
    assert_eq!(request_admission(false), Ok(()));
}
