//! Kinds of I/O errors, and their mapping from POSIX errno values.

use vstd::prelude::*;

verus! {

/// Kind of an I/O error (the kinds of `embedded_io::ErrorKind`).
#[derive(Debug, Clone, Copy, PartialEq, Eq, Structural)]
pub enum IoErrorKind {
    Other,
    NotFound,
    PermissionDenied,
    ConnectionRefused,
    ConnectionReset,
    ConnectionAborted,
    NotConnected,
    AddrInUse,
    AddrNotAvailable,
    BrokenPipe,
    AlreadyExists,
    InvalidInput,
    InvalidData,
    TimedOut,
    Interrupted,
    Unsupported,
    OutOfMemory,
    WriteZero,
}

/// The error kind of an errno.
pub open spec fn errno_kind(errno: i32) -> IoErrorKind {
    if errno == 1 || errno == 13 {
        IoErrorKind::PermissionDenied
    } else if errno == 2 {
        IoErrorKind::NotFound
    } else if errno == 9 || errno == 22 {
        IoErrorKind::InvalidInput
    } else if errno == 12 || errno == 28 {
        IoErrorKind::OutOfMemory
    } else if errno == 24 {
        IoErrorKind::Unsupported
    } else if errno == 32 {
        IoErrorKind::BrokenPipe
    } else {
        IoErrorKind::Other
    }
}

/// Convert errno to an error kind:
/// EPERM, EACCES: permission denied; ENOENT: not found; EBADF, EINVAL: invalid
/// input; ENOMEM, ENOSPC: out of memory; EMFILE: unsupported; EPIPE: broken pipe;
/// anything else (EIO, EAGAIN, ECONNRESET, ...): other.
pub fn errno_to_error_kind(errno: i32) -> (r: IoErrorKind)
    ensures
        r == errno_kind(errno),
{
    if errno == 1 || errno == 13 {
        IoErrorKind::PermissionDenied
    } else if errno == 2 {
        IoErrorKind::NotFound
    } else if errno == 9 || errno == 22 {
        IoErrorKind::InvalidInput
    } else if errno == 12 || errno == 28 {
        IoErrorKind::OutOfMemory
    } else if errno == 24 {
        IoErrorKind::Unsupported
    } else if errno == 32 {
        IoErrorKind::BrokenPipe
    } else {
        IoErrorKind::Other
    }
}

/// The description of an error kind.
pub open spec fn kind_text(kind: IoErrorKind) -> Seq<char> {
    match kind {
        IoErrorKind::NotFound => "not found"@,
        IoErrorKind::PermissionDenied => "permission denied"@,
        IoErrorKind::ConnectionRefused => "connection refused"@,
        IoErrorKind::ConnectionReset => "connection reset"@,
        IoErrorKind::ConnectionAborted => "connection aborted"@,
        IoErrorKind::NotConnected => "not connected"@,
        IoErrorKind::AddrInUse => "address in use"@,
        IoErrorKind::AddrNotAvailable => "address not available"@,
        IoErrorKind::BrokenPipe => "broken pipe"@,
        IoErrorKind::AlreadyExists => "already exists"@,
        IoErrorKind::InvalidInput => "invalid input"@,
        IoErrorKind::InvalidData => "invalid data"@,
        IoErrorKind::TimedOut => "timed out"@,
        IoErrorKind::Interrupted => "interrupted"@,
        IoErrorKind::Unsupported => "unsupported"@,
        IoErrorKind::OutOfMemory => "out of memory"@,
        IoErrorKind::Other => "other error"@,
        IoErrorKind::WriteZero => "unknown error"@,
    }
}

/// Convert error kind to a static string description
pub fn error_kind_to_str(kind: IoErrorKind) -> (r: &'static str)
    ensures
        r@ == kind_text(kind),
{
    match kind {
        IoErrorKind::NotFound => "not found",
        IoErrorKind::PermissionDenied => "permission denied",
        IoErrorKind::ConnectionRefused => "connection refused",
        IoErrorKind::ConnectionReset => "connection reset",
        IoErrorKind::ConnectionAborted => "connection aborted",
        IoErrorKind::NotConnected => "not connected",
        IoErrorKind::AddrInUse => "address in use",
        IoErrorKind::AddrNotAvailable => "address not available",
        IoErrorKind::BrokenPipe => "broken pipe",
        IoErrorKind::AlreadyExists => "already exists",
        IoErrorKind::InvalidInput => "invalid input",
        IoErrorKind::InvalidData => "invalid data",
        IoErrorKind::TimedOut => "timed out",
        IoErrorKind::Interrupted => "interrupted",
        IoErrorKind::Unsupported => "unsupported",
        IoErrorKind::OutOfMemory => "out of memory",
        IoErrorKind::Other => "other error",
        IoErrorKind::WriteZero => "unknown error",
    }
}

} // verus!
