//! Readers and writers of actor streams over an actor runtime.
//!
//! A reader or writer holds the stream's file descriptor; each operation takes
//! the runtime. Errors are I/O error kinds mapped from the runtime's errno.
//! A reader or writer opened by name owns its descriptor, and its owner closes
//! it when done; one over a standard handle does not (the system owns those).

use vstd::prelude::*;

use crate::io_kind::{errno_kind, errno_to_error_kind, IoErrorKind};
use crate::runtime::ActorRuntime;
use crate::std_handle::{std_fd, StdHandle};

verus! {

/// Whether `k` is the kind of some errno.
pub open spec fn is_errno_kind(k: IoErrorKind) -> bool {
    exists|e: i32| k == errno_kind(e)
}

/// A runtime's answer to a read or write, with its errno mapped to an I/O error kind.
pub open spec fn stream_answer(o: Result<usize, i32>) -> Result<usize, IoErrorKind> {
    match o {
        Ok(n) => Ok(n),
        Err(e) => Err(errno_kind(e)),
    }
}

/// Map a runtime's answer to a read or write: a count stays, an errno becomes its
/// I/O error kind.
pub fn stream_result(o: Result<usize, i32>) -> (r: Result<usize, IoErrorKind>)
    ensures
        r == stream_answer(o),
{
    match o {
        Ok(n) => Ok(n),
        Err(errno) => Err(errno_to_error_kind(errno)),
    }
}

/// Reader of an actor stream.
#[derive(Debug)]
pub struct AReader {
    fd: Option<isize>,
    owns_fd: bool,
}

impl AReader {
    /// The descriptor, until the reader is closed.
    pub closed spec fn spec_fd(self) -> Option<isize> {
        self.fd
    }

    /// Whether the reader owns its descriptor (and closes it when done).
    pub closed spec fn spec_owns(self) -> bool {
        self.owns_fd
    }

    /// Open the stream `filename` for reading.
    ///
    /// Errors with the kind of the runtime's errno when opening fails.
    pub fn new<R: ActorRuntime>(runtime: &mut R, filename: &str) -> (r: Result<AReader, IoErrorKind>)
        ensures
            exists|o: Result<isize, i32>|
                #[trigger] old(runtime).admits_open_read(filename@, o) && match o {
                    Ok(fd) => r matches Ok(rd) && rd.spec_fd() == Some(fd) && rd.spec_owns(),
                    Err(e) => r == Err::<AReader, IoErrorKind>(errno_kind(e)),
                },
            r matches Ok(rd) ==> rd.spec_fd() is Some && rd.spec_owns(),
            r matches Err(k) ==> is_errno_kind(k),
    {
        match runtime.open_read(filename) {
            Ok(fd) => Ok(AReader { fd: Some(fd), owns_fd: true }),
            Err(errno) => Err(errno_to_error_kind(errno)),
        }
    }

    /// A reader of a standard handle; it does not own the descriptor.
    pub fn new_from_std<R: ActorRuntime>(runtime: &R, handle: StdHandle) -> (r: AReader)
        ensures
            r.spec_fd() == Some(std_fd(handle) as isize),
            !r.spec_owns(),
    {
        AReader { fd: Some(handle.as_fd()), owns_fd: false }
    }

    /// The descriptor, until the reader is closed.
    pub fn fd(&self) -> (r: Option<isize>)
        ensures
            r == self.spec_fd(),
    {
        self.fd
    }

    /// Whether the reader owns its descriptor, so that its owner closes it when done.
    pub fn owns_fd(&self) -> (r: bool)
        ensures
            r == self.spec_owns(),
    {
        self.owns_fd
    }

    /// Close the stream. Can be called multiple times; a closed reader reads
    /// end of data.
    ///
    /// Errors with the kind of the runtime's errno; the reader then stays open.
    pub fn close<R: ActorRuntime>(&mut self, runtime: &mut R) -> (r: Result<(), IoErrorKind>)
        ensures
            final(self).spec_owns() == old(self).spec_owns(),
            old(self).spec_fd() is None ==> r is Ok && final(self).spec_fd() is None && *final(runtime) == *old(runtime),
            old(self).spec_fd() matches Some(fd) ==> exists|o: Result<(), i32>|
                #[trigger] old(runtime).admits_close(fd, o) && match o {
                    Ok(_) => r is Ok && final(self).spec_fd() is None,
                    Err(e) => r == Err::<(), IoErrorKind>(errno_kind(e)) && final(self).spec_fd() == Some(fd),
                },
            r is Ok ==> final(self).spec_fd() is None,
            r matches Err(k) ==> is_errno_kind(k) && final(self).spec_fd() == old(self).spec_fd(),
    {
        if let Some(fd) = self.fd {
            if let Err(errno) = runtime.aclose(fd) {
                return Err(errno_to_error_kind(errno));
            }
            self.fd = None;
        }
        Ok(())
    }

    /// Read from the stream into `buf`: 0 at end of data or once closed.
    ///
    /// Errors with the kind of the runtime's errno.
    pub fn read<R: ActorRuntime>(&mut self, runtime: &mut R, buf: &mut [u8]) -> (r: Result<usize, IoErrorKind>)
        ensures
            final(self).spec_fd() == old(self).spec_fd(),
            final(self).spec_owns() == old(self).spec_owns(),
            old(self).spec_fd() is None ==> r == Ok::<usize, IoErrorKind>(0) && final(buf)@ == old(buf)@ && *final(runtime)
                == *old(runtime),
            old(self).spec_fd() matches Some(fd) ==> exists|o: Result<usize, i32>|
                #[trigger] old(runtime).admits_read(fd, old(buf)@, final(buf)@, o) && r == stream_answer(o),
            r matches Ok(n) ==> n <= old(buf)@.len(),
            r matches Err(k) ==> is_errno_kind(k),
    {
        match self.fd {
            None => Ok(0),
            Some(fd) => {
                let o = runtime.aread(fd, buf);
                stream_result(o)
            },
        }
    }
}

/// Writer of an actor stream.
#[derive(Debug)]
pub struct AWriter {
    fd: Option<isize>,
}

impl AWriter {
    /// The descriptor, until the writer is closed.
    pub closed spec fn spec_fd(self) -> Option<isize> {
        self.fd
    }

    /// Create the stream `filename` for writing.
    ///
    /// Errors with the kind of the runtime's errno when creating fails.
    pub fn new<R: ActorRuntime>(runtime: &mut R, filename: &str) -> (r: Result<AWriter, IoErrorKind>)
        ensures
            exists|o: Result<isize, i32>|
                #[trigger] old(runtime).admits_open_write(filename@, o) && match o {
                    Ok(fd) => r matches Ok(w) && w.spec_fd() == Some(fd),
                    Err(e) => r == Err::<AWriter, IoErrorKind>(errno_kind(e)),
                },
            r matches Ok(w) ==> w.spec_fd() is Some,
            r matches Err(k) ==> is_errno_kind(k),
    {
        match runtime.open_write(filename) {
            Ok(fd) => Ok(AWriter { fd: Some(fd) }),
            Err(errno) => Err(errno_to_error_kind(errno)),
        }
    }

    /// A writer of a standard handle.
    pub fn new_from_std<R: ActorRuntime>(runtime: &R, handle: StdHandle) -> (r: AWriter)
        ensures
            r.spec_fd() == Some(std_fd(handle) as isize),
    {
        AWriter { fd: Some(handle.as_fd()) }
    }

    /// A writer of an existing descriptor.
    ///
    /// Errors with `InvalidInput` for a negative descriptor.
    pub fn new_from_fd<R: ActorRuntime>(runtime: &R, fd: isize) -> (r: Result<AWriter, IoErrorKind>)
        ensures
            fd < 0 ==> r == Err::<AWriter, IoErrorKind>(IoErrorKind::InvalidInput),
            fd >= 0 ==> (r matches Ok(w) && w.spec_fd() == Some(fd)),
    {
        if fd < 0 {
            Err(IoErrorKind::InvalidInput)
        } else {
            Ok(AWriter { fd: Some(fd) })
        }
    }

    /// The descriptor, until the writer is closed.
    pub fn fd(&self) -> (r: Option<isize>)
        ensures
            r == self.spec_fd(),
    {
        self.fd
    }

    /// Close the writer. Can be called multiple times; a closed writer writes
    /// nothing.
    ///
    /// Errors with the kind of the runtime's errno; the writer then stays open.
    pub fn close<R: ActorRuntime>(&mut self, runtime: &mut R) -> (r: Result<(), IoErrorKind>)
        ensures
            old(self).spec_fd() is None ==> r is Ok && final(self).spec_fd() is None && *final(runtime) == *old(runtime),
            old(self).spec_fd() matches Some(fd) ==> exists|o: Result<(), i32>|
                #[trigger] old(runtime).admits_close(fd, o) && match o {
                    Ok(_) => r is Ok && final(self).spec_fd() is None,
                    Err(e) => r == Err::<(), IoErrorKind>(errno_kind(e)) && final(self).spec_fd() == Some(fd),
                },
            r is Ok ==> final(self).spec_fd() is None,
            r matches Err(k) ==> is_errno_kind(k) && final(self).spec_fd() == old(self).spec_fd(),
    {
        if let Some(fd) = self.fd {
            if let Err(errno) = runtime.aclose(fd) {
                return Err(errno_to_error_kind(errno));
            }
            self.fd = None;
        }
        Ok(())
    }

    /// Write `buf` to the stream; returns the bytes written (0 once closed).
    ///
    /// Errors with the kind of the runtime's errno.
    pub fn write<R: ActorRuntime>(&mut self, runtime: &mut R, buf: &[u8]) -> (r: Result<usize, IoErrorKind>)
        ensures
            final(self).spec_fd() == old(self).spec_fd(),
            old(self).spec_fd() is None ==> r == Ok::<usize, IoErrorKind>(0) && *final(runtime) == *old(runtime),
            old(self).spec_fd() matches Some(fd) ==> exists|o: Result<usize, i32>|
                #[trigger] old(runtime).admits_write(fd, buf@, o) && r == stream_answer(o),
            r matches Ok(n) ==> n <= buf@.len(),
            r matches Err(k) ==> is_errno_kind(k),
    {
        match self.fd {
            None => Ok(0),
            Some(fd) => {
                let o = runtime.awrite(fd, buf);
                stream_result(o)
            },
        }
    }

    /// Flushing does nothing: writes go to the runtime at once.
    pub fn flush(&mut self) -> (r: Result<(), IoErrorKind>)
        ensures
            r is Ok,
            final(self).spec_fd() == old(self).spec_fd(),
    {
        Ok(())
    }
}

} // verus!
