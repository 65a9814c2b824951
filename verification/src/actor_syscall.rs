//! Per-actor state of the blocking actor runtime: the errno of the last failed
//! syscall, the exit code, and whether shutdown has begun; and the decisions
//! that depend on it.

use vstd::prelude::*;
use vstd::string::StringExecFns;

use crate::dag::NodeState;
use crate::errno::{ENOSYS, EOWNERDEAD};
use crate::idgen::Handle;
use crate::io_bridge::ChannelTable;

verus! {

/// A raw value (a pointer to an actor's buffer) handed to another thread and
/// consumed there once.
pub struct SendablePtr<P: Copy> {
    ptr: P,
}

impl<P: Copy> SendablePtr<P> {
    /// The wrapped value.
    pub closed spec fn spec_ptr(self) -> P {
        self.ptr
    }

    /// Wrap a value to hand it over.
    pub fn new(ptr: P) -> (r: Self)
        ensures
            r.spec_ptr() == ptr,
    {
        Self { ptr }
    }

    /// Consume the wrapper and return the value.
    pub fn into_raw(self) -> (r: P)
        ensures
            r == self.spec_ptr(),
    {
        self.ptr
    }
}

/// The state of an actor's blocking runtime.
#[derive(Debug)]
pub struct BlockingActorRuntime {
    node_handle: Handle,
    last_errno: i32,
    exit_code: i32,
    shutdown_called: bool,
}

impl BlockingActorRuntime {
    /// The actor's node handle.
    pub closed spec fn spec_node(self) -> Handle {
        self.node_handle
    }

    /// The errno of the last failed syscall; 0 when none failed.
    pub closed spec fn spec_last_errno(self) -> i32 {
        self.last_errno
    }

    /// The exit code: 0 for a clean termination, otherwise an errno.
    pub closed spec fn spec_exit_code(self) -> i32 {
        self.exit_code
    }

    /// Whether shutdown has been called.
    pub closed spec fn spec_shutdown_called(self) -> bool {
        self.shutdown_called
    }

    /// The state of a new actor.
    pub fn new(node_handle: Handle) -> (r: Self)
        ensures
            r.spec_node() == node_handle,
            r.spec_last_errno() == 0,
            r.spec_exit_code() == 0,
            !r.spec_shutdown_called(),
    {
        Self { node_handle, last_errno: 0, exit_code: 0, shutdown_called: false }
    }

    /// Get this actor's node handle
    pub fn node_handle(&self) -> (r: Handle)
        ensures
            r == self.spec_node(),
    {
        self.node_handle
    }

    /// The errno of the last failed syscall.
    pub fn get_errno(&self) -> (r: i32)
        ensures
            r == self.spec_last_errno(),
    {
        self.last_errno
    }

    /// The exit code.
    pub fn exit_code(&self) -> (r: i32)
        ensures
            r == self.spec_exit_code(),
    {
        self.exit_code
    }

    /// Mark the actor as failed: its exit code becomes the errno of the last
    /// failed syscall, or EOWNERDEAD when none failed.
    pub fn mark_failed(&mut self)
        ensures
            final(self).spec_exit_code() == if old(self).spec_last_errno() != 0 {
                old(self).spec_last_errno()
            } else {
                EOWNERDEAD
            },
            final(self).spec_last_errno() == old(self).spec_last_errno(),
            final(self).spec_node() == old(self).spec_node(),
            final(self).spec_shutdown_called() == old(self).spec_shutdown_called(),
    {
        let errno = self.last_errno;
        self.exit_code = if errno != 0 { errno } else { EOWNERDEAD };
    }

    /// Record the result of a bridged syscall: a failure with a nonzero errno
    /// becomes the last errno.
    pub fn record_result<T>(&mut self, result: &Result<T, i32>)
        ensures
            final(self).spec_last_errno() == match result {
                Err(e) => if *e != 0 { *e } else { old(self).spec_last_errno() },
                Ok(_) => old(self).spec_last_errno(),
            },
            final(self).spec_exit_code() == old(self).spec_exit_code(),
            final(self).spec_node() == old(self).spec_node(),
            final(self).spec_shutdown_called() == old(self).spec_shutdown_called(),
    {
        if let Err(e) = result {
            if *e != 0 {
                self.last_errno = *e;
            }
        }
    }

    /// Opening streams by name is not supported: ENOSYS, which becomes the last errno.
    pub fn open_unsupported(&mut self) -> (r: Result<isize, i32>)
        ensures
            r == Err::<isize, i32>(ENOSYS),
            final(self).spec_last_errno() == ENOSYS,
            final(self).spec_exit_code() == old(self).spec_exit_code(),
            final(self).spec_node() == old(self).spec_node(),
            final(self).spec_shutdown_called() == old(self).spec_shutdown_called(),
    {
        self.last_errno = ENOSYS;
        Err(ENOSYS)
    }

    /// Register the standard fds of this actor: stdin and env for reading;
    /// stdout, log, metrics and trace for writing.
    pub fn register_std_fds(&self, table: &mut ChannelTable)
        ensures
            final(table).entries() == old(table).entries() + seq![
                (self.spec_node(), 0isize, crate::io_bridge::FdState::AllowedReader),
                (self.spec_node(), 3isize, crate::io_bridge::FdState::AllowedReader),
                (self.spec_node(), 1isize, crate::io_bridge::FdState::AllowedWriter),
                (self.spec_node(), 2isize, crate::io_bridge::FdState::AllowedWriter),
                (self.spec_node(), 4isize, crate::io_bridge::FdState::AllowedWriter),
                (self.spec_node(), 5isize, crate::io_bridge::FdState::AllowedWriter),
            ],
            final(table).next_channel() == old(table).next_channel(),
    {
        table.register_std_fd_reader(self.node_handle, 0);
        table.register_std_fd_reader(self.node_handle, 3);
        table.register_std_fd_writer(self.node_handle, 1);
        table.register_std_fd_writer(self.node_handle, 2);
        table.register_std_fd_writer(self.node_handle, 4);
        table.register_std_fd_writer(self.node_handle, 5);
        assert(table.entries() =~= old(table).entries() + seq![
            (self.spec_node(), 0isize, crate::io_bridge::FdState::AllowedReader),
            (self.spec_node(), 3isize, crate::io_bridge::FdState::AllowedReader),
            (self.spec_node(), 1isize, crate::io_bridge::FdState::AllowedWriter),
            (self.spec_node(), 2isize, crate::io_bridge::FdState::AllowedWriter),
            (self.spec_node(), 4isize, crate::io_bridge::FdState::AllowedWriter),
            (self.spec_node(), 5isize, crate::io_bridge::FdState::AllowedWriter),
        ]);
    }

    /// Begin shutdown: fails if it was already called.
    pub fn begin_shutdown(&mut self) -> (r: Result<(), String>)
        ensures
            final(self).spec_shutdown_called(),
            old(self).spec_shutdown_called() ==> (r matches Err(m) && m@ == "shutdown() already called"@),
            !old(self).spec_shutdown_called() ==> r is Ok,
            final(self).spec_last_errno() == old(self).spec_last_errno(),
            final(self).spec_exit_code() == old(self).spec_exit_code(),
            final(self).spec_node() == old(self).spec_node(),
    {
        if self.shutdown_called {
            proof { reveal_strlit("shutdown() already called"); }
            return Err(String::from_str("shutdown() already called"));
        }
        self.shutdown_called = true;
        Ok(())
    }
}

/// Whether shutdown goes on to clean the actor's I/O up, given the state the
/// executor reports the node was in: not when it was already terminating or
/// terminated.
pub fn shutdown_needs_cleanup(prior: NodeState) -> (r: bool)
    ensures
        r == !(prior == NodeState::Terminating || prior == NodeState::Terminated),
{
    match prior {
        NodeState::Terminating | NodeState::Terminated => false,
        NodeState::NotStarted | NodeState::Running => true,
    }
}

} // verus!
