//! Decisions of the flush coordinator, which serializes writes to a storage
//! backend: one writer task takes the requests in order and answers each.

use vstd::prelude::*;
use vstd::string::StringExecFns;

verus! {

/// Errors that can occur during coordinator operations
#[derive(Debug, Clone, PartialEq, Eq)]
pub enum CoordinatorError {
    /// Channel is full (backpressure)
    ChannelFull,
    /// Coordinator has been shut down
    Shutdown,
    /// Flush operation failed
    FlushFailed(String),
}

/// The display text of a coordinator error.
pub open spec fn coordinator_error_text(e: CoordinatorError) -> Seq<char> {
    match e {
        CoordinatorError::ChannelFull => "Flush coordinator channel full"@,
        CoordinatorError::Shutdown => "Flush coordinator shut down"@,
        CoordinatorError::FlushFailed(m) => "Flush failed: "@ + m@,
    }
}

impl CoordinatorError {
    /// The display text of this error.
    pub fn message(&self) -> (r: String)
        ensures
            r@ == coordinator_error_text(*self),
    {
        match self {
            CoordinatorError::ChannelFull => String::from_str("Flush coordinator channel full"),
            CoordinatorError::Shutdown => String::from_str("Flush coordinator shut down"),
            CoordinatorError::FlushFailed(m) => {
                let mut s = String::from_str("Flush failed: ");
                s.append(m.as_str());
                proof {
                    reveal_strlit("Flush failed: ");
                }
                s
            },
        }
    }
}

/// What the writer task answers for one request, given how the backend call
/// ended: its own result, or `None` when the call panicked.
pub fn flush_answer(outcome: Option<Result<(), String>>) -> (r: Result<(), String>)
    ensures
        match outcome {
            Some(res) => r == res,
            None => r matches Err(m) && m@ == "flush task panicked"@,
        },
{
    match outcome {
        Some(res) => res,
        None => {
            let m = String::from_str("flush task panicked");
            Err(m)
        },
    }
}

/// How waiting for the writer task at shutdown ended.
#[derive(Debug, Clone, PartialEq, Eq)]
pub enum WriterExit {
    /// The task drained the requests and ended.
    Completed,
    /// The task panicked, with the join error's text.
    Panicked(String),
    /// The task did not end within the time limit.
    TimedOut,
}

/// The result of a shutdown: whether the writer task ended in time, or the
/// writer task was already gone (`None`).
pub fn shutdown_answer(exit: Option<WriterExit>) -> (r: Result<(), String>)
    ensures
        match exit {
            None => r matches Err(m) && m@ == "writer task already completed"@,
            Some(WriterExit::Completed) => r is Ok,
            Some(WriterExit::Panicked(e)) => r matches Err(m) && m@ == "writer task panicked: "@ + e@,
            Some(WriterExit::TimedOut) => r matches Err(m) && m@ == "shutdown timeout after 5 seconds"@,
        },
{
    match exit {
        None => Err(String::from_str("writer task already completed")),
        Some(WriterExit::Completed) => Ok(()),
        Some(WriterExit::Panicked(e)) => {
            let mut m = String::from_str("writer task panicked: ");
            m.append(e.as_str());
            proof {
                reveal_strlit("writer task panicked: ");
            }
            Err(m)
        },
        Some(WriterExit::TimedOut) => Err(String::from_str("shutdown timeout after 5 seconds")),
    }
}

/// Whether a flush request may be sent: `Shutdown` once the coordinator is shut down.
pub fn request_admission(shut_down: bool) -> (r: Result<(), CoordinatorError>)
    ensures
        shut_down ==> r == Err::<(), CoordinatorError>(CoordinatorError::Shutdown),
        !shut_down ==> r is Ok,
{
    if shut_down {
        Err(CoordinatorError::Shutdown)
    } else {
        Ok(())
    }
}

} // verus!
