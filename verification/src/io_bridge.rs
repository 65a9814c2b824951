//! The channel table of the actor I/O bridge: which (actor, fd) pairs an actor
//! may read or write, and which of them have a running channel task.
//!
//! A channel is materialized lazily, on the first read or write: the table
//! decides, and names the channel by an id; the caller starts the task behind
//! that id and forwards the request to it.

use vstd::prelude::*;
use vstd::string::StringExecFns;

use crate::errno::{EBADF, EIO};
use crate::idgen::Handle;

verus! {

broadcast use Handle::lemma_handle_ext;

/// State of an fd for an actor
#[derive(Debug, Clone, Copy, PartialEq, Eq, Structural)]
pub enum FdState {
    /// Reader fd allowed but not yet materialized
    AllowedReader,
    /// Writer fd allowed but not yet materialized
    AllowedWriter,
    /// Reader materialized, served by the channel with this id
    MaterializedReader(u64),
    /// Writer materialized, served by the channel with this id
    MaterializedWriter(u64),
}

/// Where a read or write request goes.
#[derive(Debug, Clone, Copy, PartialEq, Eq, Structural)]
pub enum Route {
    /// To the running channel with this id.
    Existing(u64),
    /// To a new channel with this id, which the caller starts first.
    Materialize(u64),
    /// Refused with this errno.
    Refused(i32),
}

/// What closing an fd requires.
#[derive(Debug, Clone, Copy, PartialEq, Eq, Structural)]
pub enum CloseRoute {
    /// Nothing was materialized: the close succeeds.
    Done,
    /// Send a close command to the reader channel with this id.
    CloseReader(u64),
    /// Send a close command to the writer channel with this id.
    CloseWriter(u64),
    /// The fd is not registered: EBADF.
    NotFound,
}

/// The descriptor of stdin, the only reader that can be materialized.
pub const STDIN_FD: isize = 0;

/// The first entry for (node, fd), if any.
pub open spec fn first_entry(entries: Seq<(Handle, isize, FdState)>, node: Handle, fd: isize) -> Option<int> {
    if exists|i: int| 0 <= i < entries.len() && entries[i].0 == node && entries[i].1 == fd {
        Some(
            choose|i: int|
                0 <= i < entries.len() && entries[i].0 == node && entries[i].1 == fd && forall|j: int|
                    0 <= j < i ==> !(entries[j].0 == node && entries[j].1 == fd),
        )
    } else {
        None
    }
}

/// The entries of other actors than `node`, in order.
pub open spec fn entries_without(entries: Seq<(Handle, isize, FdState)>, node: Handle) -> Seq<(Handle, isize, FdState)>
    decreases entries.len(),
{
    if entries.len() == 0 {
        Seq::empty()
    } else {
        let rest = entries_without(entries.drop_last(), node);
        if entries.last().0 == node {
            rest
        } else {
            rest.push(entries.last())
        }
    }
}

/// The channel ids of the materialized entries of `node`, in order.
pub open spec fn channels_of(entries: Seq<(Handle, isize, FdState)>, node: Handle) -> Seq<u64>
    decreases entries.len(),
{
    if entries.len() == 0 {
        Seq::empty()
    } else {
        let rest = channels_of(entries.drop_last(), node);
        let e = entries.last();
        if e.0 == node {
            match e.2 {
                FdState::MaterializedReader(id) => rest.push(id),
                FdState::MaterializedWriter(id) => rest.push(id),
                _ => rest,
            }
        } else {
            rest
        }
    }
}

/// The channel table of the I/O bridge.
pub struct ChannelTable {
    entries: Vec<(Handle, isize, FdState)>,
    next_channel: u64,
}

impl ChannelTable {
    /// The entries: actor, fd and state, in registration order.
    pub closed spec fn entries(self) -> Seq<(Handle, isize, FdState)> {
        self.entries@
    }

    /// The id of the next materialized channel.
    pub closed spec fn next_channel(self) -> u64 {
        self.next_channel
    }

    /// An empty table.
    pub fn new() -> (t: Self)
        ensures
            t.entries() == Seq::<(Handle, isize, FdState)>::empty(),
            t.next_channel() == 0,
    {
        Self { entries: Vec::new(), next_channel: 0 }
    }

    /// Register a reader fd (no duplicate check).
    pub fn register_std_fd_reader(&mut self, node_handle: Handle, fd: isize)
        ensures
            final(self).entries() == old(self).entries().push((node_handle, fd, FdState::AllowedReader)),
            final(self).next_channel() == old(self).next_channel(),
    {
        self.entries.push((node_handle, fd, FdState::AllowedReader));
    }

    /// Register a writer fd (no duplicate check).
    pub fn register_std_fd_writer(&mut self, node_handle: Handle, fd: isize)
        ensures
            final(self).entries() == old(self).entries().push((node_handle, fd, FdState::AllowedWriter)),
            final(self).next_channel() == old(self).next_channel(),
    {
        self.entries.push((node_handle, fd, FdState::AllowedWriter));
    }

    fn find(&self, node_handle: Handle, fd: isize) -> (r: Option<usize>)
        ensures
            r is None ==> first_entry(self.entries(), node_handle, fd) is None,
            r matches Some(i) ==> first_entry(self.entries(), node_handle, fd) == Some(i as int) && i
                < self.entries().len() && self.entries()[i as int].0 == node_handle && self.entries()[i as int].1 == fd,
    {
        let mut i: usize = 0;
        while i < self.entries.len()
            invariant
                i <= self.entries@.len(),
                forall|j: int| 0 <= j < i ==> !(self.entries()[j].0 == node_handle && self.entries()[j].1 == fd),
            decreases self.entries@.len() - i,
        {
            if self.entries[i].0 == node_handle && self.entries[i].1 == fd {
                proof {
                    let es = self.entries();
                    assert(0 <= i < es.len() && es[i as int].0 == node_handle && es[i as int].1 == fd);
                    let w = choose|k: int|
                        0 <= k < es.len() && es[k].0 == node_handle && es[k].1 == fd && forall|j: int|
                            0 <= j < k ==> !(es[j].0 == node_handle && es[j].1 == fd);
                    assert(forall|j: int| 0 <= j < i ==> !(es[j].0 == node_handle && es[j].1 == fd));
                    if w < i {
                    } else if w > i {
                        assert(!(es[i as int].0 == node_handle && es[i as int].1 == fd));
                    }
                }
                return Some(i);
            }
            i = i + 1;
        }
        None
    }

    fn materialize(&mut self, i: usize, reader: bool) -> (id: u64)
        requires
            i < old(self).entries().len(),
        ensures
            id == old(self).next_channel(),
            final(self).next_channel() == crate::notification_queue_design::wrapping_inc(old(self).next_channel()),
            final(self).entries() == old(self).entries().update(
                i as int,
                (
                    old(self).entries()[i as int].0,
                    old(self).entries()[i as int].1,
                    if reader {
                        FdState::MaterializedReader(id)
                    } else {
                        FdState::MaterializedWriter(id)
                    },
                ),
            ),
    {
        let id = self.next_channel;
        self.next_channel = id.wrapping_add(1);
        let (h, f, _) = self.entries[i];
        let st = if reader { FdState::MaterializedReader(id) } else { FdState::MaterializedWriter(id) };
        self.entries.set(i, (h, f, st));
        id
    }

    /// Route a read: to the fd's reader channel, materializing it on first use
    /// (only stdin can be materialized). Refused with EBADF for an fd that is not
    /// registered, for a writer fd, and for a reader fd other than stdin.
    pub fn read(&mut self, node_handle: Handle, fd: isize) -> (r: Route)
        ensures
            match first_entry(old(self).entries(), node_handle, fd) {
                None => r == Route::Refused(EBADF) && final(self).entries() == old(self).entries(),
                Some(i) => match old(self).entries()[i].2 {
                    FdState::MaterializedReader(id) => r == Route::Existing(id) && final(self).entries()
                        == old(self).entries(),
                    FdState::AllowedReader => if fd == STDIN_FD {
                        &&& r == Route::Materialize(old(self).next_channel())
                        &&& final(self).entries() == old(self).entries().update(
                            i,
                            (node_handle, fd, FdState::MaterializedReader(old(self).next_channel())),
                        )
                    } else {
                        r == Route::Refused(EBADF) && final(self).entries() == old(self).entries()
                    },
                    _ => r == Route::Refused(EBADF) && final(self).entries() == old(self).entries(),
                },
            },
    {
        match self.find(node_handle, fd) {
            None => Route::Refused(EBADF),
            Some(i) => match self.entries[i].2 {
                FdState::MaterializedReader(id) => Route::Existing(id),
                FdState::AllowedReader => {
                    if fd != STDIN_FD {
                        return Route::Refused(EBADF);
                    }
                    let id = self.materialize(i, true);
                    Route::Materialize(id)
                },
                FdState::AllowedWriter | FdState::MaterializedWriter(_) => Route::Refused(EBADF),
            },
        }
    }

    /// Route a write: to the fd's writer channel, materializing it on first use.
    /// Refused with EBADF for an fd that is not registered and for a reader fd.
    pub fn write(&mut self, node_handle: Handle, fd: isize) -> (r: Route)
        ensures
            match first_entry(old(self).entries(), node_handle, fd) {
                None => r == Route::Refused(EBADF) && final(self).entries() == old(self).entries(),
                Some(i) => match old(self).entries()[i].2 {
                    FdState::MaterializedWriter(id) => r == Route::Existing(id) && final(self).entries()
                        == old(self).entries(),
                    FdState::AllowedWriter => {
                        &&& r == Route::Materialize(old(self).next_channel())
                        &&& final(self).entries() == old(self).entries().update(
                            i,
                            (node_handle, fd, FdState::MaterializedWriter(old(self).next_channel())),
                        )
                    },
                    _ => r == Route::Refused(EBADF) && final(self).entries() == old(self).entries(),
                },
            },
    {
        match self.find(node_handle, fd) {
            None => Route::Refused(EBADF),
            Some(i) => match self.entries[i].2 {
                FdState::MaterializedWriter(id) => Route::Existing(id),
                FdState::AllowedWriter => {
                    let id = self.materialize(i, false);
                    Route::Materialize(id)
                },
                FdState::AllowedReader | FdState::MaterializedReader(_) => Route::Refused(EBADF),
            },
        }
    }

    /// Close an fd: its entry leaves the table; a materialized channel must then be
    /// sent a close command.
    pub fn close(&mut self, node_handle: Handle, fd: isize) -> (r: CloseRoute)
        ensures
            final(self).next_channel() == old(self).next_channel(),
            match first_entry(old(self).entries(), node_handle, fd) {
                None => r == CloseRoute::NotFound && final(self).entries() == old(self).entries(),
                Some(i) => {
                    &&& final(self).entries() == old(self).entries().remove(i)
                    &&& r == match old(self).entries()[i].2 {
                        FdState::AllowedReader => CloseRoute::Done,
                        FdState::AllowedWriter => CloseRoute::Done,
                        FdState::MaterializedReader(id) => CloseRoute::CloseReader(id),
                        FdState::MaterializedWriter(id) => CloseRoute::CloseWriter(id),
                    }
                },
            },
    {
        match self.find(node_handle, fd) {
            None => CloseRoute::NotFound,
            Some(i) => {
                let (_, _, st) = self.entries.remove(i);
                match st {
                    FdState::AllowedReader | FdState::AllowedWriter => CloseRoute::Done,
                    FdState::MaterializedReader(id) => CloseRoute::CloseReader(id),
                    FdState::MaterializedWriter(id) => CloseRoute::CloseWriter(id),
                }
            },
        }
    }

    /// Drop all entries of an actor (on its shutdown); returns the ids of its
    /// materialized channels, whose tasks then end.
    pub fn cleanup_actor_io(&mut self, node_handle: Handle) -> (r: Vec<u64>)
        ensures
            final(self).entries() == entries_without(old(self).entries(), node_handle),
            r@ == channels_of(old(self).entries(), node_handle),
            final(self).next_channel() == old(self).next_channel(),
    {
        let mut kept: Vec<(Handle, isize, FdState)> = Vec::new();
        let mut ids: Vec<u64> = Vec::new();
        let mut i: usize = 0;
        while i < self.entries.len()
            invariant
                i <= self.entries@.len(),
                kept@ == entries_without(self.entries@.take(i as int), node_handle),
                ids@ == channels_of(self.entries@.take(i as int), node_handle),
            decreases self.entries@.len() - i,
        {
            let e = self.entries[i];
            assert(self.entries@.take(i + 1).drop_last() =~= self.entries@.take(i as int));
            if e.0 == node_handle {
                match e.2 {
                    FdState::MaterializedReader(id) => ids.push(id),
                    FdState::MaterializedWriter(id) => ids.push(id),
                    _ => {},
                }
            } else {
                kept.push(e);
            }
            i = i + 1;
        }
        assert(self.entries@.take(i as int) =~= self.entries@);
        self.entries = kept;
        ids
    }

    /// The actor of the first entry, if any (shutdown cleans actors up in this order).
    pub fn first_node(&self) -> (r: Option<Handle>)
        ensures
            self.entries().len() == 0 ==> r is None,
            self.entries().len() > 0 ==> r == Some(self.entries()[0].0),
    {
        if self.entries.len() == 0 {
            None
        } else {
            Some(self.entries[0].0)
        }
    }
}

/// The errno of a request whose channel task has gone: EPIPE for reads and
/// writes, EIO for closes.
pub fn channel_gone_errno(is_close: bool) -> (r: i32)
    ensures
        is_close ==> r == EIO,
        !is_close ==> r == crate::errno::EPIPE,
{
    if is_close { EIO } else { crate::errno::EPIPE }
}

/// Whether a newly created writer on `fd` is copied to the host's stderr:
/// the log, metrics and trace streams are.
pub fn attaches_to_stderr(fd: isize) -> (r: bool)
    ensures
        r == (fd == 2 || fd == 4 || fd == 5),
{
    match crate::std_handle::StdHandle::try_from_fd(fd) {
        Ok(h) => match h {
            crate::std_handle::StdHandle::Log | crate::std_handle::StdHandle::Metrics
            | crate::std_handle::StdHandle::Trace => true,
            _ => false,
        },
        Err(()) => false,
    }
}

/// The message of a failed shutdown: `io cleanup failed for {n} actors`.
pub fn cleanup_failure_message(failed_count: u64) -> (r: String)
    ensures
        r@ == "io cleanup failed for "@ + crate::text::decimal_nat(failed_count as nat) + " actors"@,
{
    let mut m = String::from_str("io cleanup failed for ");
    crate::text::push_decimal_u64(&mut m, failed_count);
    m.append(" actors");
    proof {
        reveal_strlit("io cleanup failed for ");
        reveal_strlit(" actors");
    }
    m
}

} // verus!
