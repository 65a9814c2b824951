//! Pipes between actors: one writer and any number of readers over a buffer of
//! the key-value store.
//!
//! The state that a writer shares with its readers (error, closed flag, whether
//! readers ever attached, how many are attached) lives in a slot of the
//! `PipePool`. Writers and readers name their slot by index, and each operation
//! takes the pool that holds it. The data itself lives in the pool's store, so a
//! reader created later from the store sees what the writer wrote.

use vstd::prelude::*;
use vstd::string::StringExecFns;

use crate::errno::{EBADF, EPIPE};
use crate::idgen::{Handle, HandleKind, IdGen};
use crate::kv::{Buffer, KVError, MemKV, OpenMode};
use crate::text::{decimal_int, push_decimal_i64};

verus! {

broadcast use Handle::lemma_handle_ext;

/// State shared by a writer and its readers.
#[derive(Debug, Clone, Copy)]
pub struct SharedBuffer {
    /// The buffer of the store that holds the data.
    pub buffer: Buffer,
    /// Error set by the writer; 0 when none. Once set it stays set.
    pub errno: i32,
    /// Whether the writer is closed.
    pub closed: bool,
    /// Whether a reader was ever attached.
    pub had_readers: bool,
    /// Number of readers attached and not closed.
    pub receivers: usize,
}

impl SharedBuffer {
    /// The state of a new open pipe over `buffer`.
    pub open spec fn spec_fresh(buffer: Buffer) -> SharedBuffer {
        SharedBuffer { buffer, errno: 0, closed: false, had_readers: false, receivers: 0 }
    }

    /// The state of a pipe whose data is complete (its writer is gone).
    pub open spec fn spec_completed(buffer: Buffer) -> SharedBuffer {
        SharedBuffer { buffer, errno: 0, closed: true, had_readers: false, receivers: 0 }
    }
}

/// Writer side of a pipe: a handle and the slot of the pool it writes to.
#[derive(Debug, Clone, Copy, PartialEq, Eq, Structural)]
pub struct Writer {
    handle: Handle,
    slot: usize,
}

/// What a writer hands to a new reader.
#[derive(Debug, Clone, Copy, PartialEq, Eq, Structural)]
pub struct ReaderSharedData {
    slot: usize,
    writer_handle: Handle,
}

impl ReaderSharedData {
    /// The slot of the pipe to read.
    pub closed spec fn slot(self) -> nat {
        self.slot as nat
    }

    /// The handle of the writer of the pipe.
    pub closed spec fn writer(self) -> Handle {
        self.writer_handle
    }
}

/// Reader side of a pipe, with its own position, closed flag and error.
#[derive(Debug)]
pub struct Reader {
    own_handle: Handle,
    slot: usize,
    writer_handle: Handle,
    pos: usize,
    own_closed: bool,
    own_errno: i32,
}

/// Outcome of one attempt to read.
#[derive(Debug, PartialEq, Eq)]
pub enum ReadStep {
    /// The read finished: bytes read (0 at end of data) or an errno.
    Done(Result<usize, i32>),
    /// No data yet and the writer is still open: wait for the writer's
    /// notification, then read again.
    Wait,
}

/// State of a latent writer
#[derive(Debug, Clone, Copy, PartialEq, Eq, Structural)]
pub enum LatentState {
    /// Waiting for writer to be created
    Waiting,
    /// Producer terminated without creating the pipe
    Closed,
}

/// State of a writer in the pool
#[derive(Debug, Clone, Copy, PartialEq, Eq, Structural)]
pub enum WriterState {
    /// Realized writer with data buffer
    Realized(Writer),
    /// Placeholder waiting for the producer to create the pipe
    Latent(LatentState),
}

/// Error type for pipe reader operations
#[derive(Debug, Clone, Copy, PartialEq, Eq, Structural)]
pub enum PipeError {
    /// Pipe was closed by producer (latent pipe marked Closed)
    PipeClosed,
    /// Would block waiting for pipe but latent pipes are not allowed
    WouldBlock,
}

impl PipeError {
    /// The display text of this error.
    pub fn message(&self) -> (r: &'static str)
        ensures
            r@ == (match self {
                PipeError::PipeClosed => "pipe closed by producer"@,
                PipeError::WouldBlock => "would block waiting for pipe"@,
            }),
    {
        match self {
            PipeError::PipeClosed => "pipe closed by producer",
            PipeError::WouldBlock => "would block waiting for pipe",
        }
    }
}

/// Inspection snapshot of a single pipe entry
#[derive(Debug, Clone, Copy, PartialEq, Eq, Structural)]
pub enum PipeEntryInspection {
    Realized { is_closed: bool, handle: Handle },
    Latent(LatentState),
}

/// Whether `new` holds everything of `old`: no buffer shrank or lost its prefix.
pub open spec fn store_extends(new: MemKV, old: MemKV) -> bool {
    &&& old.buffers().len() <= new.buffers().len()
    &&& forall|i: int|
        0 <= i < old.buffers().len() ==> #[trigger] old.buffers()[i].len() <= new.buffers()[i].len()
            && new.buffers()[i].subrange(0, old.buffers()[i].len() as int) == old.buffers()[i]
}

/// The entry of `entries` with the given key, if any.
pub open spec fn key_index(entries: Seq<(Handle, isize, WriterState)>, key: (Handle, isize)) -> Option<int> {
    if exists|i: int| 0 <= i < entries.len() && entries[i].0 == key.0 && entries[i].1 == key.1 {
        Some(choose|i: int| 0 <= i < entries.len() && entries[i].0 == key.0 && entries[i].1 == key.1)
    } else {
        None
    }
}

/// No key occurs twice.
pub open spec fn unique_keys(entries: Seq<(Handle, isize, WriterState)>) -> bool {
    forall|i: int, j: int|
        0 <= i < entries.len() && 0 <= j < entries.len() && i != j ==> !(entries[i].0 == entries[j].0
            && entries[i].1 == entries[j].1)
}

/// The state of the entry with the given key, if any.
pub open spec fn entry_state(entries: Seq<(Handle, isize, WriterState)>, key: (Handle, isize)) -> Option<WriterState> {
    match key_index(entries, key) {
        Some(i) => Some(entries[i].2),
        None => None,
    }
}

/// The entries without the one of the given key.
pub open spec fn remove_key(entries: Seq<(Handle, isize, WriterState)>, key: (Handle, isize)) -> Seq<(Handle, isize, WriterState)> {
    match key_index(entries, key) {
        Some(i) => entries.remove(i),
        None => entries,
    }
}

/// Pool of output pipes, indexed by (actor handle, fd) pair, with the store that
/// holds their data.
pub struct PipePool {
    kv: MemKV,
    slots: Vec<SharedBuffer>,
    entries: Vec<(Handle, isize, WriterState)>,
}

impl Writer {
    /// The slot of the pool that this writer writes to.
    pub closed spec fn slot(self) -> nat {
        self.slot as nat
    }

    /// The handle of this writer.
    pub closed spec fn spec_handle(self) -> Handle {
        self.handle
    }

    /// Get the handle for this writer
    pub fn handle(&self) -> (r: &Handle)
        ensures
            *r == self.spec_handle(),
    {
        &self.handle
    }

    /// Get the current position (bytes written)
    pub fn tell(&self, pool: &PipePool) -> (r: usize)
        requires
            pool.wf(),
            self.slot() < pool.slots().len(),
        ensures
            r == pool.content(self.slot()).len(),
    {
        let s = pool.slots[self.slot];
        proof { pool.lemma_slot_valid(self.slot as int); }
        pool.kv.buffer_len(s.buffer)
    }

    /// Get current error state
    pub fn get_error(&self, pool: &PipePool) -> (r: i32)
        requires
            self.slot() < pool.slots().len(),
        ensures
            r == pool.slots()[self.slot() as int].errno,
    {
        pool.slots[self.slot].errno
    }

    /// Set error state (readers see it once they have read all data)
    pub fn set_error(&self, pool: &mut PipePool, errno: i32)
        requires
            old(pool).wf(),
            self.slot() < old(pool).slots().len(),
        ensures
            final(pool).wf(),
            final(pool).extends(*old(pool)),
            final(pool).kv() == old(pool).kv(),
            final(pool).entries() == old(pool).entries(),
            final(pool).slots() == old(pool).slots().update(
                self.slot() as int,
                SharedBuffer { errno, ..old(pool).slots()[self.slot() as int] },
            ),
    {
        let mut s = pool.slots[self.slot];
        s.errno = errno;
        pool.set_slot(self.slot, s);
    }

    /// Check if writer is closed
    pub fn is_closed(&self, pool: &PipePool) -> (r: bool)
        requires
            self.slot() < pool.slots().len(),
        ensures
            r == pool.slots()[self.slot() as int].closed,
    {
        pool.slots[self.slot].closed
    }

    /// The buffer of the store that holds this pipe's data
    pub fn buffer(&self, pool: &PipePool) -> (r: Buffer)
        requires
            self.slot() < pool.slots().len(),
        ensures
            r == pool.slots()[self.slot() as int].buffer,
    {
        pool.slots[self.slot].buffer
    }

    /// Write data to the pipe.
    ///
    /// - If the writer is closed, returns `Err(EBADF)`
    /// - If readers were attached and all are gone, sets EPIPE (unless an error is set)
    /// - If errno is set, returns `Err(errno)`
    /// - If data is empty, returns `Ok(0)`
    /// - Otherwise appends the data and returns its length
    pub fn write(&self, pool: &mut PipePool, data: &[u8]) -> (r: Result<usize, i32>)
        requires
            old(pool).wf(),
            self.slot() < old(pool).slots().len(),
        ensures
            final(pool).wf(),
            final(pool).entries() == old(pool).entries(),
            final(pool).extends(*old(pool)),
            ({
                let k = self.slot() as int;
                let s = old(pool).slots()[k];
                let e = write_errno(s);
                if s.closed {
                    &&& r == Err::<usize, i32>(EBADF)
                    &&& final(pool).slots() == old(pool).slots()
                    &&& final(pool).kv() == old(pool).kv()
                } else if e != 0 {
                    &&& r == Err::<usize, i32>(e)
                    &&& final(pool).slots() == old(pool).slots().update(k, SharedBuffer { errno: e, ..s })
                    &&& final(pool).kv() == old(pool).kv()
                } else if data@.len() == 0 {
                    &&& r == Ok::<usize, i32>(0)
                    &&& final(pool).slots() == old(pool).slots()
                    &&& final(pool).kv() == old(pool).kv()
                } else {
                    &&& r == Ok::<usize, i32>(data@.len() as usize)
                    &&& final(pool).slots() == old(pool).slots()
                    &&& final(pool).kv().paths() == old(pool).kv().paths()
                    &&& final(pool).kv().buffers() == old(pool).kv().buffers().update(
                        s.buffer.spec_index() as int,
                        old(pool).content(self.slot()) + data@,
                    )
                }
            }),
    {
        proof { lemma_extends_refl(pool.kv); }
        let s = pool.slots[self.slot];
        if s.closed {
            return Err(EBADF);
        }
        let e = if s.had_readers && s.receivers == 0 && s.errno == 0 {
            EPIPE
        } else {
            s.errno
        };
        if e != 0 {
            if e != s.errno {
                let mut s2 = s;
                s2.errno = e;
                pool.set_slot(self.slot, s2);
            } else {
                assert(old(pool).slots().update(self.slot() as int, SharedBuffer { errno: e, ..s }) =~= old(pool).slots());
            }
            return Err(e);
        }
        if data.len() == 0 {
            return Ok(0);
        }
        proof { pool.lemma_slot_valid(self.slot as int); }
        let _ = pool.kv.append(s.buffer, data);
        proof {
            lemma_append_extends(old(pool).kv(), pool.kv(), s.buffer.spec_index() as int, data@);
        }
        Ok(data.len())
    }

    /// Close the writer.
    ///
    /// Returns `Err(EBADF)` if already closed.
    pub fn close(&self, pool: &mut PipePool) -> (r: Result<(), i32>)
        requires
            old(pool).wf(),
            self.slot() < old(pool).slots().len(),
        ensures
            final(pool).wf(),
            final(pool).extends(*old(pool)),
            final(pool).kv() == old(pool).kv(),
            final(pool).entries() == old(pool).entries(),
            ({
                let k = self.slot() as int;
                let s = old(pool).slots()[k];
                if s.closed {
                    r == Err::<(), i32>(EBADF) && final(pool).slots() == old(pool).slots()
                } else {
                    r == Ok::<(), i32>(()) && final(pool).slots() == old(pool).slots().update(
                        k,
                        SharedBuffer { closed: true, ..s },
                    )
                }
            }),
    {
        proof { pool.lemma_extends_self(); }
        let mut s = pool.slots[self.slot];
        if s.closed {
            return Err(EBADF);
        }
        s.closed = true;
        pool.set_slot(self.slot, s);
        Ok(())
    }

    /// Create shared data for a new reader; the reader counts as attached.
    pub fn share_with_reader(&self, pool: &mut PipePool) -> (r: ReaderSharedData)
        requires
            old(pool).wf(),
            self.slot() < old(pool).slots().len(),
        ensures
            final(pool).wf(),
            final(pool).extends(*old(pool)),
            final(pool).kv() == old(pool).kv(),
            final(pool).entries() == old(pool).entries(),
            r.slot() == self.slot(),
            r.writer() == self.spec_handle(),
            ({
                let k = self.slot() as int;
                let s = old(pool).slots()[k];
                final(pool).slots() == old(pool).slots().update(
                    k,
                    SharedBuffer { had_readers: true, receivers: attach_count(s.receivers), ..s },
                )
            }),
    {
        let mut s = pool.slots[self.slot];
        s.had_readers = true;
        if s.receivers < usize::MAX {
            s.receivers = s.receivers + 1;
        }
        pool.set_slot(self.slot, s);
        ReaderSharedData { slot: self.slot, writer_handle: self.handle }
    }
}

/// Action to take when checking if a reader should wait
#[derive(Debug, Clone, Copy, PartialEq, Eq, Structural)]
pub enum WaitAction {
    /// Reader should wait for more data
    Wait,
    /// Data is available
    DontWait,
    /// Writer closed and no more data
    Closed,
    /// Own error, or the writer's error once all data is read
    Error,
}

/// Priority: own error; data available; writer error; writer closed; wait.
pub open spec fn wait_action(own_errno: i32, pos: nat, len: nat, s: SharedBuffer) -> WaitAction {
    if own_errno != 0 {
        WaitAction::Error
    } else if pos < len {
        WaitAction::DontWait
    } else if s.errno != 0 {
        WaitAction::Error
    } else if s.closed {
        WaitAction::Closed
    } else {
        WaitAction::Wait
    }
}

/// The error a reader reports: its own, else EPIPE when the writer has an error.
pub open spec fn reader_error(own_errno: i32, writer_errno: i32) -> i32 {
    if own_errno != 0 {
        own_errno
    } else if writer_errno != 0 {
        EPIPE
    } else {
        0
    }
}

/// How many bytes a read of `cap` bytes at `pos` takes from `len` bytes of data.
pub open spec fn read_count(pos: nat, len: nat, cap: nat) -> nat {
    if len - pos < cap { (len - pos) as nat } else { cap }
}

impl Reader {
    /// The slot of the pipe read.
    pub closed spec fn slot(self) -> nat {
        self.slot as nat
    }

    /// Bytes read so far.
    pub closed spec fn pos(self) -> nat {
        self.pos as nat
    }

    /// Whether this reader is closed.
    pub closed spec fn own_closed(self) -> bool {
        self.own_closed
    }

    /// This reader's own error; 0 when none.
    pub closed spec fn own_errno(self) -> i32 {
        self.own_errno
    }

    /// The handle of this reader.
    pub closed spec fn spec_handle(self) -> Handle {
        self.own_handle
    }

    /// The handle of the writer of the pipe.
    pub closed spec fn writer(self) -> Handle {
        self.writer_handle
    }

    /// Whether `self` is `old` with only the position changed.
    pub open spec fn same_but_pos(self, old: Reader) -> bool {
        &&& self.slot() == old.slot()
        &&& self.own_closed() == old.own_closed()
        &&& self.own_errno() == old.own_errno()
        &&& self.spec_handle() == old.spec_handle()
        &&& self.writer() == old.writer()
    }

    /// Create a reader at the start of the pipe.
    pub fn new(handle: Handle, shared_data: ReaderSharedData) -> (r: Self)
        ensures
            r.spec_handle() == handle,
            r.slot() == shared_data.slot(),
            r.writer() == shared_data.writer(),
            r.pos() == 0,
            !r.own_closed(),
            r.own_errno() == 0,
    {
        Self {
            own_handle: handle,
            slot: shared_data.slot,
            writer_handle: shared_data.writer_handle,
            pos: 0,
            own_closed: false,
            own_errno: 0,
        }
    }

    /// Get the reader's handle
    pub fn handle(&self) -> (r: &Handle)
        ensures
            *r == self.spec_handle(),
    {
        &self.own_handle
    }

    /// Close the reader; it no longer counts as attached.
    ///
    /// Returns `Err(EBADF)` if already closed.
    pub fn close(&mut self, pool: &mut PipePool) -> (r: Result<(), i32>)
        requires
            old(pool).wf(),
            old(self).slot() < old(pool).slots().len(),
        ensures
            final(pool).wf(),
            final(pool).extends(*old(pool)),
            final(pool).kv() == old(pool).kv(),
            final(pool).entries() == old(pool).entries(),
            final(self).same_but_closed(*old(self)),
            final(self).own_closed(),
            ({
                let k = old(self).slot() as int;
                let s = old(pool).slots()[k];
                if old(self).own_closed() {
                    r == Err::<(), i32>(EBADF) && final(pool).slots() == old(pool).slots()
                } else {
                    r == Ok::<(), i32>(()) && final(pool).slots() == old(pool).slots().update(
                        k,
                        SharedBuffer { receivers: detach_count(s.receivers), ..s },
                    )
                }
            }),
    {
        proof { pool.lemma_extends_self(); }
        if self.own_closed {
            return Err(EBADF);
        }
        self.own_closed = true;
        let mut s = pool.slots[self.slot];
        if s.receivers > 0 {
            s.receivers = s.receivers - 1;
        }
        pool.set_slot(self.slot, s);
        Ok(())
    }

    /// Whether `self` is `old` with only the closed flag changed.
    pub open spec fn same_but_closed(self, old: Reader) -> bool {
        &&& self.slot() == old.slot()
        &&& self.pos() == old.pos()
        &&& self.own_errno() == old.own_errno()
        &&& self.spec_handle() == old.spec_handle()
        &&& self.writer() == old.writer()
    }

    /// Get current error state: own error first, then EPIPE if the writer has an error.
    pub fn get_error(&self, pool: &PipePool) -> (r: i32)
        requires
            self.slot() < pool.slots().len(),
        ensures
            r == reader_error(self.own_errno(), pool.slots()[self.slot() as int].errno),
    {
        if self.own_errno != 0 {
            return self.own_errno;
        }
        if pool.slots[self.slot].errno != 0 {
            EPIPE
        } else {
            0
        }
    }

    /// Set reader's own error state
    pub fn set_error(&mut self, errno: i32)
        ensures
            final(self).own_errno() == errno,
            final(self).slot() == old(self).slot(),
            final(self).pos() == old(self).pos(),
            final(self).own_closed() == old(self).own_closed(),
            final(self).spec_handle() == old(self).spec_handle(),
            final(self).writer() == old(self).writer(),
    {
        self.own_errno = errno;
    }

    fn should_wait_for_writer(&self, pool: &PipePool) -> (r: WaitAction)
        requires
            pool.wf(),
            self.slot() < pool.slots().len(),
        ensures
            r == wait_action(
                self.own_errno(),
                self.pos(),
                pool.content(self.slot()).len(),
                pool.slots()[self.slot() as int],
            ),
    {
        if self.own_errno != 0 {
            return WaitAction::Error;
        }
        let s = pool.slots[self.slot];
        proof { pool.lemma_slot_valid(self.slot as int); }
        let writer_pos = pool.kv.buffer_len(s.buffer);
        if self.pos < writer_pos {
            return WaitAction::DontWait;
        }
        if s.errno != 0 {
            WaitAction::Error
        } else if s.closed {
            WaitAction::Closed
        } else {
            WaitAction::Wait
        }
    }

    /// Read data from the pipe into `buf`.
    ///
    /// - `Done(Ok(n))`, `n > 0`: the next `n` bytes of the pipe
    /// - `Done(Ok(0))`: end of data (writer closed and all data read), or reader closed
    /// - `Done(Err(errno))`: own error, or EPIPE once the writer's error is reached
    /// - `Wait`: no data yet and the writer is open
    pub fn read(&mut self, pool: &PipePool, buf: &mut [u8]) -> (r: ReadStep)
        requires
            pool.wf(),
            old(self).slot() < pool.slots().len(),
            old(self).pos() <= pool.content(old(self).slot()).len(),
        ensures
            final(self).same_but_pos(*old(self)),
            final(self).pos() <= pool.content(final(self).slot()).len(),
            ({
                let k = old(self).slot();
                let s = pool.slots()[k as int];
                let data = pool.content(k);
                let pos = old(self).pos();
                if old(self).own_closed() {
                    r == ReadStep::Done(Ok(0)) && final(self).pos() == pos && final(buf)@ == old(buf)@
                } else {
                    match wait_action(old(self).own_errno(), pos, data.len(), s) {
                        WaitAction::Wait => r == ReadStep::Wait && final(self).pos() == pos && final(buf)@
                            == old(buf)@,
                        WaitAction::Closed => r == ReadStep::Done(Ok(0)) && final(self).pos() == pos
                            && final(buf)@ == old(buf)@,
                        WaitAction::Error => r == ReadStep::Done(Err(reader_error(old(self).own_errno(), s.errno)))
                            && final(self).pos() == pos && final(buf)@ == old(buf)@,
                        WaitAction::DontWait => {
                            let n = read_count(pos, data.len(), old(buf)@.len());
                            &&& r matches ReadStep::Done(Ok(m)) && m as nat == n
                            &&& final(self).pos() == pos + n
                            &&& final(buf)@ == data.subrange(pos as int, (pos + n) as int) + old(buf)@.subrange(
                                n as int,
                                old(buf)@.len() as int,
                            )
                        },
                    }
                }
            }),
    {
        if self.own_closed {
            return ReadStep::Done(Ok(0));
        }
        match self.should_wait_for_writer(pool) {
            WaitAction::Wait => {
                return ReadStep::Wait;
            },
            WaitAction::Closed => {
                return ReadStep::Done(Ok(0));
            },
            WaitAction::Error => {
                return ReadStep::Done(Err(self.get_error(pool)));
            },
            WaitAction::DontWait => {},
        }
        let b = pool.slots[self.slot].buffer;
        proof { pool.lemma_slot_valid(self.slot as int); }
        let data = pool.kv.buffer_data(b);
        let avail = data.len() - self.pos;
        let n = if avail < buf.len() { avail } else { buf.len() };
        let ghost old_buf = buf@;
        let p = self.pos;
        let mut j: usize = 0;
        while j < n
            invariant
                j <= n,
                n <= buf@.len(),
                buf@.len() == old_buf.len(),
                p + n <= data.len(),
                forall|i: int| 0 <= i < j ==> buf@[i] == data@[p + i],
                forall|i: int| j <= i < buf@.len() ==> buf@[i] == old_buf[i],
            decreases n - j,
        {
            buf[j] = data[p + j];
            j = j + 1;
        }
        assert(buf@ =~= data@.subrange(p as int, p + n) + old_buf.subrange(n as int, old_buf.len() as int));
        self.pos = p + n;
        ReadStep::Done(Ok(n))
    }
}

/// The slot of a realized writer; -1 for a latent one.
pub open spec fn realized_slot(st: WriterState) -> int {
    match st {
        WriterState::Realized(w) => w.slot() as int,
        WriterState::Latent(_) => -1,
    }
}

/// The errno a write sees: EPIPE when readers were attached and all are gone.
pub open spec fn write_errno(s: SharedBuffer) -> i32 {
    if s.had_readers && s.receivers == 0 && s.errno == 0 {
        EPIPE
    } else {
        s.errno
    }
}

/// The reader count after one more reader attaches (it saturates at the maximum).
pub open spec fn attach_count(n: usize) -> usize {
    if n < usize::MAX { (n + 1) as usize } else { n }
}

/// The reader count after one reader leaves.
pub open spec fn detach_count(n: usize) -> usize {
    if n > 0 { (n - 1) as usize } else { 0 }
}

/// Appending to one buffer keeps every buffer's earlier contents as a prefix.
pub proof fn lemma_append_extends(old_kv: MemKV, new_kv: MemKV, b: int, data: Seq<u8>)
    requires
        0 <= b < old_kv.buffers().len(),
        new_kv.buffers() == old_kv.buffers().update(b, old_kv.buffers()[b] + data),
    ensures
        store_extends(new_kv, old_kv),
{
    assert forall|i: int| 0 <= i < old_kv.buffers().len() implies #[trigger] old_kv.buffers()[i].len()
        <= new_kv.buffers()[i].len() && new_kv.buffers()[i].subrange(0, old_kv.buffers()[i].len() as int)
        == old_kv.buffers()[i] by {
        if i == b {
            assert(new_kv.buffers()[i].subrange(0, old_kv.buffers()[i].len() as int) =~= old_kv.buffers()[i]);
        } else {
            assert(new_kv.buffers()[i].subrange(0, old_kv.buffers()[i].len() as int) =~= old_kv.buffers()[i]);
        }
    }
}

/// Adding a buffer keeps every earlier buffer as it was.
pub proof fn lemma_push_extends(old_kv: MemKV, new_kv: MemKV, data: Seq<u8>)
    requires
        new_kv.buffers() == old_kv.buffers().push(data),
    ensures
        store_extends(new_kv, old_kv),
{
    assert forall|i: int| 0 <= i < old_kv.buffers().len() implies #[trigger] old_kv.buffers()[i].len()
        <= new_kv.buffers()[i].len() && new_kv.buffers()[i].subrange(0, old_kv.buffers()[i].len() as int)
        == old_kv.buffers()[i] by {
        assert(new_kv.buffers()[i].subrange(0, old_kv.buffers()[i].len() as int) =~= old_kv.buffers()[i]);
    }
}

/// A store extends itself.
pub proof fn lemma_extends_refl(kv: MemKV)
    ensures
        store_extends(kv, kv),
{
    assert forall|i: int| 0 <= i < kv.buffers().len() implies #[trigger] kv.buffers()[i].len()
        <= kv.buffers()[i].len() && kv.buffers()[i].subrange(0, kv.buffers()[i].len() as int)
        == kv.buffers()[i] by {
        assert(kv.buffers()[i].subrange(0, kv.buffers()[i].len() as int) =~= kv.buffers()[i]);
    }
}

/// Extension is transitive.
pub proof fn lemma_extends_trans(a: MemKV, b: MemKV, c: MemKV)
    requires
        store_extends(b, a),
        store_extends(c, b),
    ensures
        store_extends(c, a),
{
    assert forall|i: int| 0 <= i < a.buffers().len() implies #[trigger] a.buffers()[i].len()
        <= c.buffers()[i].len() && c.buffers()[i].subrange(0, a.buffers()[i].len() as int)
        == a.buffers()[i] by {
        assert(b.buffers()[i].len() <= c.buffers()[i].len());
        assert(c.buffers()[i].subrange(0, b.buffers()[i].len() as int) == b.buffers()[i]);
        assert(c.buffers()[i].subrange(0, a.buffers()[i].len() as int) =~= c.buffers()[i].subrange(
            0,
            b.buffers()[i].len() as int,
        ).subrange(0, a.buffers()[i].len() as int));
    }
}

impl PipePool {
    /// The store that holds the pipes' data.
    pub closed spec fn kv(self) -> MemKV {
        self.kv
    }

    /// The shared states, by slot.
    pub closed spec fn slots(self) -> Seq<SharedBuffer> {
        self.slots@
    }

    /// The entries: actor, fd and writer state.
    pub closed spec fn entries(self) -> Seq<(Handle, isize, WriterState)> {
        self.entries@
    }

    /// The data written to the pipe of slot `k`.
    pub open spec fn content(self, k: nat) -> Seq<u8> {
        self.kv().contents(self.slots()[k as int].buffer)
    }

    /// The pool's invariant: a well-formed store, slots over its buffers, realized
    /// writers over distinct slots, and keys that occur once.
    pub open spec fn wf(self) -> bool {
        &&& self.kv().wf()
        &&& forall|k: int| 0 <= k < self.slots().len() ==> self.kv().valid(#[trigger] self.slots()[k].buffer)
        &&& forall|i: int|
            0 <= i < self.entries().len() ==> realized_slot((#[trigger] self.entries()[i]).2) < self.slots().len()
        &&& forall|i: int, j: int|
            0 <= i < self.entries().len() && 0 <= j < self.entries().len() && i != j
                && (#[trigger] self.entries()[i]).2 is Realized && (#[trigger] self.entries()[j]).2 is Realized
                ==> realized_slot(self.entries()[i].2) != realized_slot(self.entries()[j].2)
        &&& unique_keys(self.entries())
    }

    /// What `self` keeps of `old`: every slot over the same buffer, and no data lost.
    pub open spec fn extends(self, old: PipePool) -> bool {
        &&& old.slots().len() <= self.slots().len()
        &&& forall|k: int| 0 <= k < old.slots().len() ==> (#[trigger] self.slots()[k]).buffer == old.slots()[k].buffer
        &&& store_extends(self.kv(), old.kv())
    }

    proof fn lemma_slot_valid(self, k: int)
        requires
            self.wf(),
            0 <= k < self.slots().len(),
        ensures
            self.kv().valid(self.slots()[k].buffer),
    {
    }

    fn set_slot(&mut self, k: usize, s: SharedBuffer)
        requires
            old(self).wf(),
            k < old(self).slots().len(),
            s.buffer == old(self).slots()[k as int].buffer,
        ensures
            final(self).wf(),
            final(self).kv() == old(self).kv(),
            final(self).entries() == old(self).entries(),
            final(self).slots() == old(self).slots().update(k as int, s),
            final(self).extends(*old(self)),
    {
        self.slots.set(k, s);
        proof { lemma_extends_refl(self.kv); }
    }

    /// Create a new empty pipe pool over a store
    pub fn new(kv: MemKV) -> (p: Self)
        requires
            kv.wf(),
        ensures
            p.wf(),
            p.kv() == kv,
            p.slots() == Seq::<SharedBuffer>::empty(),
            p.entries() == Seq::<(Handle, isize, WriterState)>::empty(),
    {
        Self { kv, slots: Vec::new(), entries: Vec::new() }
    }

    /// The store that holds the pipes' data.
    pub fn store(&self) -> (r: &MemKV)
        ensures
            *r == self.kv(),
    {
        &self.kv
    }
}

/// The store path of an actor's pipe: `pipes/actor-{id}-{fd}`.
pub open spec fn pipe_path_spec(actor: Handle, fd: isize) -> Seq<char> {
    "pipes/actor-"@ + decimal_int(actor.spec_id() as int) + "-"@ + decimal_int(fd as int)
}

/// Returns the KV path for an actor's pipe: `pipes/actor-{id}-{fd}`
pub fn pipe_path(actor_handle: Handle, fd: isize) -> (r: String)
    ensures
        r@ == pipe_path_spec(actor_handle, fd),
{
    let mut s = String::from_str("pipes/actor-");
    push_decimal_i64(&mut s, actor_handle.id());
    s.append("-");
    push_decimal_i64(&mut s, fd as i64);
    proof {
        reveal_strlit("pipes/actor-");
        reveal_strlit("-");
    }
    assert(s@ =~= pipe_path_spec(actor_handle, fd));
    s
}

/// Create a writer over a new empty buffer of the store at `path`. The writer is
/// not entered in the pool's table.
pub fn create_writer(pool: &mut PipePool, handle: Handle, path: &str) -> (r: Result<Writer, KVError>)
    requires
        old(pool).wf(),
    ensures
        final(pool).wf(),
        final(pool).extends(*old(pool)),
        final(pool).entries() == old(pool).entries(),
        r matches Ok(w) && {
            &&& w.spec_handle() == handle
            &&& w.slot() == old(pool).slots().len()
            &&& final(pool).kv().buffers() == old(pool).kv().buffers().push(Seq::<u8>::empty())
            &&& final(pool).kv().paths() == crate::kv::assign_path(
                old(pool).kv().paths(),
                path@,
                old(pool).kv().buffers().len(),
            )
            &&& final(pool).slots().len() == old(pool).slots().len() + 1
            &&& final(pool).slots().subrange(0, old(pool).slots().len() as int) == old(pool).slots()
            &&& final(pool).slots()[w.slot() as int] == SharedBuffer::spec_fresh(
                final(pool).slots()[w.slot() as int].buffer,
            )
            &&& final(pool).slots()[w.slot() as int].buffer.spec_index() == old(pool).kv().buffers().len()
        },
{
    let b = match pool.kv.open(path, OpenMode::Write) {
        Ok(b) => b,
        Err(e) => { return Err(e); },
    };
    proof {
        lemma_push_extends(old(pool).kv(), pool.kv(), Seq::<u8>::empty());
        pool.lemma_wf_store_grown(*old(pool));
    }
    let slot = pool.push_slot(SharedBuffer { buffer: b, errno: 0, closed: false, had_readers: false, receivers: 0 });
    Ok(Writer { handle, slot })
}

/// Create a reader over the completed buffer at `path` (for terminated producers):
/// its pipe counts as closed, so the reader reads the data, then end of data.
pub fn create_reader_from_completed(pool: &mut PipePool, reader_handle: Handle, path: &str) -> (r: Result<Reader, KVError>)
    requires
        old(pool).wf(),
    ensures
        final(pool).wf(),
        final(pool).extends(*old(pool)),
        final(pool).entries() == old(pool).entries(),
        final(pool).kv().paths() == old(pool).kv().paths(),
        final(pool).kv().buffers() == old(pool).kv().buffers(),
        match crate::kv::path_target(old(pool).kv().paths(), path@) {
            None => r matches Err(KVError::NotFound(p)) && p@ == path@ && final(pool).slots() == old(pool).slots(),
            Some(t) => r matches Ok(rd) && {
                &&& rd.spec_handle() == reader_handle
                &&& rd.writer().spec_id() == -1
                &&& rd.slot() == old(pool).slots().len()
                &&& rd.pos() == 0 && !rd.own_closed() && rd.own_errno() == 0
                &&& final(pool).slots().len() == old(pool).slots().len() + 1
                &&& final(pool).slots().subrange(0, old(pool).slots().len() as int) == old(pool).slots()
                &&& final(pool).slots()[rd.slot() as int] == SharedBuffer::spec_completed(
                    final(pool).slots()[rd.slot() as int].buffer,
                )
                &&& final(pool).slots()[rd.slot() as int].buffer.spec_index() == t
            },
        },
{
    proof { lemma_extends_refl(pool.kv()); }
    let b = match pool.kv.open(path, OpenMode::Read) {
        Ok(b) => b,
        Err(e) => {
            proof { pool.lemma_wf_store_grown(*old(pool)); }
            return Err(e);
        },
    };
    proof { pool.lemma_wf_store_grown(*old(pool)); }
    let slot = pool.push_slot(SharedBuffer { buffer: b, errno: 0, closed: true, had_readers: false, receivers: 0 });
    let shared = ReaderSharedData { slot, writer_handle: Handle::new(-1) };
    Ok(Reader::new(reader_handle, shared))
}

/// Close the writer, then flush its buffer to storage.
///
/// Returns `Err(EBADF)` if the writer was already closed. Flushing the in-memory
/// store never fails.
pub fn flush_and_close_writer(pool: &mut PipePool, writer: &Writer, log_context: &str) -> (r: Result<(), i32>)
    requires
        old(pool).wf(),
        writer.slot() < old(pool).slots().len(),
    ensures
        final(pool).wf(),
        final(pool).extends(*old(pool)),
        final(pool).kv() == old(pool).kv(),
        final(pool).entries() == old(pool).entries(),
        ({
            let k = writer.slot() as int;
            let s = old(pool).slots()[k];
            if s.closed {
                r == Err::<(), i32>(EBADF) && final(pool).slots() == old(pool).slots()
            } else {
                r == Ok::<(), i32>(()) && final(pool).slots() == old(pool).slots().update(
                    k,
                    SharedBuffer { closed: true, ..s },
                )
            }
        }),
{
    if let Err(errno) = writer.close(pool) {
        return Err(errno);
    }
    let b = writer.buffer(pool);
    match pool.kv.flush_buffer(b) {
        Ok(()) => Ok(()),
        Err(_) => Err(crate::errno::EIO),
    }
}

/// Outcome of asking the pool for a reader.
pub open spec fn reader_request_ok(
    old_pool: PipePool,
    new_pool: PipePool,
    key: (Handle, isize),
    allow_latent: bool,
    r: Result<Option<Reader>, PipeError>,
) -> bool {
    match entry_state(old_pool.entries(), key) {
        Some(WriterState::Realized(w)) => {
            let k = w.slot() as int;
            let s = old_pool.slots()[k];
            &&& r matches Ok(Some(rd)) && rd.slot() == w.slot() && rd.writer() == w.spec_handle() && rd.pos() == 0
                && !rd.own_closed() && rd.own_errno() == 0
            &&& new_pool.slots() == old_pool.slots().update(
                k,
                SharedBuffer { had_readers: true, receivers: attach_count(s.receivers), ..s },
            )
            &&& new_pool.entries() == old_pool.entries()
        },
        Some(WriterState::Latent(LatentState::Closed)) => {
            &&& r == Err::<Option<Reader>, PipeError>(PipeError::PipeClosed)
            &&& new_pool.slots() == old_pool.slots()
            &&& new_pool.entries() == old_pool.entries()
        },
        Some(WriterState::Latent(LatentState::Waiting)) => {
            &&& if allow_latent {
                r == Ok::<Option<Reader>, PipeError>(None)
            } else {
                r == Err::<Option<Reader>, PipeError>(PipeError::WouldBlock)
            }
            &&& new_pool.slots() == old_pool.slots()
            &&& new_pool.entries() == old_pool.entries()
        },
        None => {
            &&& new_pool.slots() == old_pool.slots()
            &&& if allow_latent {
                &&& r == Ok::<Option<Reader>, PipeError>(None)
                &&& new_pool.entries() == old_pool.entries().push(
                    (key.0, key.1, WriterState::Latent(LatentState::Waiting)),
                )
            } else {
                &&& r == Err::<Option<Reader>, PipeError>(PipeError::WouldBlock)
                &&& new_pool.entries() == old_pool.entries()
            }
        },
    }
}

/// Outcome of touching the writer of `key`.
pub open spec fn touch_ok(
    old_pool: PipePool,
    new_pool: PipePool,
    key: (Handle, isize),
    writer_id: i64,
    r: Result<(Writer, bool), KVError>,
) -> bool {
    match entry_state(old_pool.entries(), key) {
        Some(WriterState::Realized(w)) => {
            &&& r matches Ok((w2, created)) && w2 == w && !created
            &&& new_pool.slots() == old_pool.slots()
            &&& new_pool.entries() == old_pool.entries()
            &&& new_pool.kv() == old_pool.kv()
        },
        _ => r matches Ok((w, created)) && {
            let n = old_pool.slots().len();
            &&& created
            &&& w.spec_handle().spec_id() == writer_id
            &&& w.slot() == n
            &&& new_pool.slots().len() == n + 1
            &&& new_pool.slots().subrange(0, n as int) == old_pool.slots()
            &&& new_pool.slots()[n as int] == SharedBuffer::spec_fresh(new_pool.slots()[n as int].buffer)
            &&& new_pool.slots()[n as int].buffer.spec_index() == old_pool.kv().buffers().len()
            &&& new_pool.kv().buffers() == old_pool.kv().buffers().push(Seq::<u8>::empty())
            &&& new_pool.kv().paths() == crate::kv::assign_path(
                old_pool.kv().paths(),
                pipe_path_spec(key.0, key.1),
                old_pool.kv().buffers().len(),
            )
            &&& new_pool.entries() == remove_key(old_pool.entries(), key).push(
                (key.0, key.1, WriterState::Realized(w)),
            )
        },
    }
}

impl PipePool {
    fn push_slot(&mut self, s: SharedBuffer) -> (k: usize)
        requires
            old(self).wf(),
            old(self).kv().valid(s.buffer),
        ensures
            final(self).wf(),
            final(self).kv() == old(self).kv(),
            final(self).entries() == old(self).entries(),
            final(self).slots() == old(self).slots().push(s),
            k == old(self).slots().len(),
    {
        let k = self.slots.len();
        self.slots.push(s);
        proof {
            assert forall|j: int| 0 <= j < self.slots().len() implies self.kv().valid(#[trigger] self.slots()[j].buffer) by {
                if j < k {
                    assert(self.slots()[j] == old(self).slots()[j]);
                }
            }
        }
        k
    }

    proof fn lemma_wf_store_grown(self, old: PipePool)
        requires
            old.wf(),
            self.kv().wf(),
            store_extends(self.kv(), old.kv()),
            self.slots() == old.slots(),
            self.entries() == old.entries(),
        ensures
            self.wf(),
    {
        assert forall|j: int| 0 <= j < self.slots().len() implies self.kv().valid(#[trigger] self.slots()[j].buffer) by {
            assert(old.kv().valid(old.slots()[j].buffer));
        }
    }

    fn find_entry(&self, key: (Handle, isize)) -> (r: Option<usize>)
        ensures
            r is None ==> key_index(self.entries(), key) is None,
            r matches Some(i) ==> i < self.entries().len() && self.entries()[i as int].0 == key.0
                && self.entries()[i as int].1 == key.1,
            unique_keys(self.entries()) && r is Some ==> key_index(self.entries(), key) == Some(r->0 as int),
    {
        let mut i: usize = 0;
        while i < self.entries.len()
            invariant
                i <= self.entries@.len(),
                forall|j: int| 0 <= j < i ==> !(self.entries()[j].0 == key.0 && self.entries()[j].1 == key.1),
            decreases self.entries@.len() - i,
        {
            if self.entries[i].0 == key.0 && self.entries[i].1 == key.1 {
                return Some(i);
            }
            i = i + 1;
        }
        None
    }

    /// Get or await a pipe, then create a new independent reader for it.
    ///
    /// - Realized: a new reader at the start of the pipe
    /// - Latent (Closed): `Err(PipeClosed)`
    /// - Latent (Waiting): `Ok(None)` if `allow_latent` (wait for the pipe to be
    ///   created or closed, then ask again), else `Err(WouldBlock)`
    /// - No entry: as Latent (Waiting), after entering a latent placeholder when
    ///   `allow_latent`
    pub fn get_or_await_new_reader(
        &mut self,
        key: (Handle, isize),
        allow_latent: bool,
        id_gen: &mut IdGen,
    ) -> (r: Result<Option<Reader>, PipeError>)
        requires
            old(self).wf(),
        ensures
            final(self).wf(),
            final(self).kv() == old(self).kv(),
            final(self).extends(*old(self)),
            reader_request_ok(*old(self), *final(self), key, allow_latent, r),
            r matches Ok(Some(rd)) ==> rd.spec_handle().spec_id() == old(id_gen).next()
                && final(id_gen).next() == crate::idgen::wrapping_next(old(id_gen).next()),
            !(r matches Ok(Some(_))) ==> final(id_gen).next() == old(id_gen).next(),
    {
        proof { lemma_extends_refl(self.kv); }
        match self.find_entry(key) {
            Some(i) => {
                let st = self.entries[i].2;
                match st {
                    WriterState::Realized(w) => {
                        proof { assert(realized_slot(self.entries()[i as int].2) < self.slots().len()); }
                        let shared = w.share_with_reader(self);
                        let rh = id_gen.get_next_traced(HandleKind::PipeReader, key.0, Some(w.handle));
                        Ok(Some(Reader::new(rh, shared)))
                    },
                    WriterState::Latent(LatentState::Closed) => Err(PipeError::PipeClosed),
                    WriterState::Latent(LatentState::Waiting) => {
                        if allow_latent {
                            Ok(None)
                        } else {
                            Err(PipeError::WouldBlock)
                        }
                    },
                }
            },
            None => {
                if !allow_latent {
                    return Err(PipeError::WouldBlock);
                }
                self.entries.push((key.0, key.1, WriterState::Latent(LatentState::Waiting)));
                proof {
                    assert(self.entries() == old(self).entries().push((key.0, key.1, WriterState::Latent(LatentState::Waiting))));
                    assert forall|i: int| 0 <= i < old(self).entries().len() implies !(#[trigger] old(self).entries()[i].0 == key.0
                        && old(self).entries()[i].1 == key.1) by {
                        if old(self).entries()[i].0 == key.0 && old(self).entries()[i].1 == key.1 {
                            assert(exists|j: int| 0 <= j < old(self).entries().len() && old(self).entries()[j].0 == key.0
                                && old(self).entries()[j].1 == key.1);
                        }
                    }
                }
                Ok(None)
            },
        }
    }

    /// Touch a writer: the realized writer of `(actor_handle, fd)`, or a new one over a
    /// new buffer at the actor's pipe path, replacing a latent placeholder.
    ///
    /// Returns the writer and whether this call created it.
    pub fn touch_writer(&mut self, actor_handle: Handle, fd: isize, id_gen: &mut IdGen) -> (r: Result<(Writer, bool), KVError>)
        requires
            old(self).wf(),
        ensures
            final(self).wf(),
            final(self).extends(*old(self)),
            touch_ok(*old(self), *final(self), (actor_handle, fd), old(id_gen).next(), r),
            (r matches Ok((_, true))) ==> final(id_gen).next() == crate::idgen::wrapping_next(old(id_gen).next()),
            (r matches Ok((_, false))) ==> final(id_gen).next() == old(id_gen).next(),
    {
        let key = (actor_handle, fd);
        proof { lemma_extends_refl(self.kv); }
        if let Some(i) = self.find_entry(key) {
            if let WriterState::Realized(w) = self.entries[i].2 {
                return Ok((w, false));
            }
        }
        let wh = id_gen.get_next_traced(HandleKind::PipeWriter, actor_handle, None);
        let path = pipe_path(actor_handle, fd);
        let ghost mid0 = *self;
        let w = match create_writer(self, wh, path.as_str()) {
            Ok(w) => w,
            Err(e) => { return Err(e); },
        };
        let ghost mid = *self;
        let ghost e1 = self.entries();
        if let Some(i) = self.find_entry(key) {
            self.entries.remove(i);
        }
        let ghost e2 = self.entries();
        assert(e2 == remove_key(e1, key));
        self.entries.push((actor_handle, fd, WriterState::Realized(w)));
        proof {
            assert(self.entries() == e2.push((actor_handle, fd, WriterState::Realized(w))));
            self.lemma_insert_realized_wf(mid, e1, key, w);
        }
        Ok((w, true))
    }

    proof fn lemma_insert_realized_wf(self, mid: PipePool, e1: Seq<(Handle, isize, WriterState)>, key: (Handle, isize), w: Writer)
        requires
            mid.wf(),
            e1 == mid.entries(),
            self.kv() == mid.kv(),
            self.slots() == mid.slots(),
            w.slot() == mid.slots().len() - 1,
            forall|i: int| 0 <= i < e1.len() ==> realized_slot(#[trigger] e1[i].2) < mid.slots().len() - 1,
            self.entries() == remove_key(e1, key).push((key.0, key.1, WriterState::Realized(w))),
        ensures
            self.wf(),
    {
        let e2 = remove_key(e1, key);
        assert forall|i: int| 0 <= i < e2.len() implies realized_slot(#[trigger] e2[i].2) < mid.slots().len() - 1
            && !(e2[i].0 == key.0 && e2[i].1 == key.1) by {
            match key_index(e1, key) {
                Some(x) => {
                    if i < x {
                        assert(e2[i] == e1[i]);
                    } else {
                        assert(e2[i] == e1[i + 1]);
                    }
                },
                None => {},
            }
        }
        assert(unique_keys(e2)) by {
            assert forall|i: int, j: int| 0 <= i < e2.len() && 0 <= j < e2.len() && i != j implies !(
            #[trigger] e2[i].0 == #[trigger] e2[j].0 && e2[i].1 == e2[j].1) by {
                match key_index(e1, key) {
                    Some(x) => {
                        let oi = if i < x { i } else { i + 1 };
                        let oj = if j < x { j } else { j + 1 };
                        assert(e2[i] == e1[oi]);
                        assert(e2[j] == e1[oj]);
                    },
                    None => {},
                }
            }
        }
        let e3 = self.entries();
        assert forall|i: int, j: int|
            0 <= i < e3.len() && 0 <= j < e3.len() && i != j && (#[trigger] e3[i]).2 is Realized
                && (#[trigger] e3[j]).2 is Realized implies realized_slot(e3[i].2) != realized_slot(e3[j].2) by {
            if i < e2.len() && j < e2.len() {
                match key_index(e1, key) {
                    Some(x) => {
                        let oi = if i < x { i } else { i + 1 };
                        let oj = if j < x { j } else { j + 1 };
                        assert(e2[i] == e1[oi]);
                        assert(e2[j] == e1[oj]);
                    },
                    None => {},
                }
            } else if i < e2.len() {
                assert(realized_slot(e2[i].2) < mid.slots().len() - 1);
            } else if j < e2.len() {
                assert(realized_slot(e2[j].2) < mid.slots().len() - 1);
            }
        }
        assert forall|i: int| 0 <= i < e3.len() implies realized_slot((#[trigger] e3[i]).2) < self.slots().len() by {
            if i < e2.len() {
            }
        }
    }

    /// Write data to the store as a completed buffer at `path`.
    pub fn write_completed_buffer(&mut self, path: &str, data: &[u8]) -> (r: Result<Buffer, KVError>)
        requires
            old(self).wf(),
        ensures
            final(self).wf(),
            final(self).extends(*old(self)),
            final(self).slots() == old(self).slots(),
            final(self).entries() == old(self).entries(),
            r matches Ok(b) && b.spec_index() == old(self).kv().buffers().len()
                && final(self).kv().buffers() == old(self).kv().buffers().push(data@)
                && final(self).kv().paths() == crate::kv::assign_path(
                old(self).kv().paths(),
                path@,
                old(self).kv().buffers().len(),
            ),
    {
        let r = crate::kv::write_completed_buffer(&mut self.kv, path, data);
        proof {
            lemma_push_extends(old(self).kv(), self.kv(), data@);
            self.lemma_wf_store_grown(*old(self));
        }
        r
    }
}

/// The entries with every waiting placeholder of `actor` marked closed.
pub open spec fn close_latents_of(entries: Seq<(Handle, isize, WriterState)>, actor: Handle) -> Seq<(Handle, isize, WriterState)> {
    Seq::new(
        entries.len(),
        |i: int|
            if entries[i].0 == actor && entries[i].2 == WriterState::Latent(LatentState::Waiting) {
                (entries[i].0, entries[i].1, WriterState::Latent(LatentState::Closed))
            } else {
                entries[i]
            },
    )
}

/// The entries with every waiting placeholder marked closed.
pub open spec fn close_all_latents(entries: Seq<(Handle, isize, WriterState)>) -> Seq<(Handle, isize, WriterState)> {
    Seq::new(
        entries.len(),
        |i: int|
            if entries[i].2 == WriterState::Latent(LatentState::Waiting) {
                (entries[i].0, entries[i].1, WriterState::Latent(LatentState::Closed))
            } else {
                entries[i]
            },
    )
}

/// Number of waiting placeholders.
pub open spec fn waiting_count(entries: Seq<(Handle, isize, WriterState)>) -> nat
    decreases entries.len(),
{
    if entries.len() == 0 {
        0
    } else {
        waiting_count(entries.drop_last()) + if entries.last().2 == WriterState::Latent(LatentState::Waiting) {
            1nat
        } else {
            0nat
        }
    }
}

/// Whether a realized writer of `actor` writes to slot `k`.
pub open spec fn owns_slot(entries: Seq<(Handle, isize, WriterState)>, actor: Handle, k: int) -> bool {
    exists|j: int| 0 <= j < entries.len() && entries[j].0 == actor && realized_slot(#[trigger] entries[j].2) == k
}

/// A slot after its writer is shut down with `exit_code` (0: clean).
pub open spec fn shut_slot(s: SharedBuffer, exit_code: i32) -> SharedBuffer {
    SharedBuffer { closed: true, errno: if exit_code != 0 { exit_code } else { s.errno }, ..s }
}

/// Number of realized writers of `actor` that were already closed.
pub open spec fn failed_closes(entries: Seq<(Handle, isize, WriterState)>, slots: Seq<SharedBuffer>, actor: Handle) -> nat
    decreases entries.len(),
{
    if entries.len() == 0 {
        0
    } else {
        let e = entries.last();
        failed_closes(entries.drop_last(), slots, actor) + if e.0 == actor && e.2 is Realized
            && slots[realized_slot(e.2)].closed {
            1nat
        } else {
            0nat
        }
    }
}

/// The message of a failed shutdown: `flush/close failed for {n} writers`.
pub open spec fn failed_closes_message(n: nat) -> Seq<char> {
    "flush/close failed for "@ + crate::text::decimal_nat(n) + " writers"@
}

proof fn lemma_owns_prefix_step(entries: Seq<(Handle, isize, WriterState)>, actor: Handle, i: int, q: int)
    requires
        0 <= i < entries.len(),
        0 <= q,
        !(entries[i].0 == actor && entries[i].2 is Realized),
    ensures
        owns_slot(entries.take(i + 1), actor, q) == owns_slot(entries.take(i), actor, q),
{
    if owns_slot(entries.take(i + 1), actor, q) {
        let j = choose|j: int| 0 <= j < entries.take(i + 1).len() && entries.take(i + 1)[j].0 == actor
            && realized_slot(#[trigger] entries.take(i + 1)[j].2) == q;
        assert(j != i);
        assert(entries.take(i)[j] == entries.take(i + 1)[j]);
    }
    if owns_slot(entries.take(i), actor, q) {
        let j = choose|j: int| 0 <= j < entries.take(i).len() && entries.take(i)[j].0 == actor
            && realized_slot(#[trigger] entries.take(i)[j].2) == q;
        assert(entries.take(i + 1)[j] == entries.take(i)[j]);
    }
}

proof fn lemma_failed_closes_bound(entries: Seq<(Handle, isize, WriterState)>, slots: Seq<SharedBuffer>, actor: Handle)
    ensures
        failed_closes(entries, slots, actor) <= entries.len(),
    decreases entries.len(),
{
    if entries.len() > 0 {
        lemma_failed_closes_bound(entries.drop_last(), slots, actor);
    }
}

proof fn lemma_waiting_count_bound(entries: Seq<(Handle, isize, WriterState)>)
    ensures
        waiting_count(entries) <= entries.len(),
    decreases entries.len(),
{
    if entries.len() > 0 {
        lemma_waiting_count_bound(entries.drop_last());
    }
}

impl PipePool {
    /// Close all writers (realized and latent) of an actor, flushing buffers to storage.
    ///
    /// `exit_code`: 0 = clean termination, non-zero = POSIX errno. For realized
    /// writers with a non-zero exit code, sets the error before closing so readers
    /// see the error after consuming all written data. Waiting placeholders become
    /// closed.
    ///
    /// Returns `Err` naming how many writers failed (were already closed).
    pub fn flush_close_actor_writers(&mut self, actor_handle: Handle, exit_code: i32) -> (r: Result<(), String>)
        requires
            old(self).wf(),
        ensures
            final(self).wf(),
            final(self).extends(*old(self)),
            final(self).kv() == old(self).kv(),
            final(self).entries() == close_latents_of(old(self).entries(), actor_handle),
            final(self).slots().len() == old(self).slots().len(),
            forall|k: int|
                0 <= k < old(self).slots().len() ==> #[trigger] final(self).slots()[k] == if owns_slot(
                    old(self).entries(),
                    actor_handle,
                    k,
                ) {
                    shut_slot(old(self).slots()[k], exit_code)
                } else {
                    old(self).slots()[k]
                },
            ({
                let n = failed_closes(old(self).entries(), old(self).slots(), actor_handle);
                if n == 0 {
                    r is Ok
                } else {
                    r matches Err(m) && m@ == failed_closes_message(n)
                }
            }),
    {
        let ghost old_entries = self.entries();
        let ghost old_slots = self.slots();
        let mut error_count: usize = 0;
        let mut i: usize = 0;
        while i < self.entries.len()
            invariant
                self.wf(),
                self.kv() == old(self).kv(),
                old_entries == old(self).entries(),
                old_slots == old(self).slots(),
                old(self).wf(),
                i <= old_entries.len(),
                self.entries().len() == old_entries.len(),
                forall|j: int| 0 <= j < i ==> #[trigger] self.entries()[j] == close_latents_of(old_entries, actor_handle)[j],
                forall|j: int| i <= j < old_entries.len() ==> #[trigger] self.entries()[j] == old_entries[j],
                self.slots().len() == old_slots.len(),
                forall|k: int|
                    0 <= k < old_slots.len() ==> #[trigger] self.slots()[k] == if owns_slot(
                        old_entries.take(i as int),
                        actor_handle,
                        k,
                    ) {
                        shut_slot(old_slots[k], exit_code)
                    } else {
                        old_slots[k]
                    },
                error_count == failed_closes(old_entries.take(i as int), old_slots, actor_handle),
                error_count <= i,
            decreases old_entries.len() - i,
        {
            let (h, fd, st) = self.entries[i];
            let ghost pre = self.slots();
            assert(old_entries.take(i + 1) == old_entries.take(i as int).push(old_entries[i as int]));
            assert(old_entries.take(i + 1).drop_last() == old_entries.take(i as int));
            if h == actor_handle {
                match st {
                    WriterState::Realized(w) => {
                        let k = w.slot;
                        proof {
                            assert(realized_slot(self.entries()[i as int].2) < self.slots().len());
                            assert(!owns_slot(old_entries.take(i as int), actor_handle, k as int)) by {
                                if owns_slot(old_entries.take(i as int), actor_handle, k as int) {
                                    let j = choose|j: int| 0 <= j < old_entries.take(i as int).len()
                                        && old_entries.take(i as int)[j].0 == actor_handle
                                        && realized_slot(#[trigger] old_entries.take(i as int)[j].2) == k;
                                    assert(old_entries[j] == old(self).entries()[j]);
                                    assert(old(self).entries()[j].2 is Realized);
                                    assert(old(self).entries()[i as int].2 is Realized);
                                }
                            }
                            assert(self.slots()[k as int] == old_slots[k as int]);
                        }
                        if exit_code != 0 {
                            w.set_error(self, exit_code);
                        }
                        let res = flush_and_close_writer(self, &w, "actor shutdown");
                        if res.is_err() {
                            error_count = error_count + 1;
                        }
                        proof {
                            assert(self.slots()[k as int] == shut_slot(old_slots[k as int], exit_code));
                            assert forall|q: int| 0 <= q < old_slots.len() implies #[trigger] self.slots()[q] == if owns_slot(
                                old_entries.take(i + 1),
                                actor_handle,
                                q,
                            ) {
                                shut_slot(old_slots[q], exit_code)
                            } else {
                                old_slots[q]
                            } by {
                                if q == k {
                                    assert(old_entries.take(i + 1)[i as int] == old_entries[i as int]);
                                    assert(owns_slot(old_entries.take(i + 1), actor_handle, q));
                                } else {
                                    assert(self.slots()[q] == pre[q]);
                                    if owns_slot(old_entries.take(i + 1), actor_handle, q) {
                                        let j = choose|j: int| 0 <= j < old_entries.take(i + 1).len()
                                            && old_entries.take(i + 1)[j].0 == actor_handle
                                            && realized_slot(#[trigger] old_entries.take(i + 1)[j].2) == q;
                                        assert(j != i);
                                        assert(old_entries.take(i as int)[j] == old_entries.take(i + 1)[j]);
                                        assert(owns_slot(old_entries.take(i as int), actor_handle, q));
                                    } else {
                                        if owns_slot(old_entries.take(i as int), actor_handle, q) {
                                            let j = choose|j: int| 0 <= j < old_entries.take(i as int).len()
                                                && old_entries.take(i as int)[j].0 == actor_handle
                                                && realized_slot(#[trigger] old_entries.take(i as int)[j].2) == q;
                                            assert(old_entries.take(i + 1)[j] == old_entries.take(i as int)[j]);
                                        }
                                    }
                                }
                            }
                        }
                    },
                    WriterState::Latent(LatentState::Waiting) => {
                        let ghost before = *self;
                        self.entries.set(i, (h, fd, WriterState::Latent(LatentState::Closed)));
                        proof { self.lemma_latent_closed_wf(before, i as int); }
                        proof {
                            assert forall|q: int| 0 <= q < old_slots.len() implies owns_slot(old_entries.take(i + 1), actor_handle, q)
                                == owns_slot(old_entries.take(i as int), actor_handle, q) by {
                                lemma_owns_prefix_step(old_entries, actor_handle, i as int, q);
                            }
                        }
                    },
                    WriterState::Latent(LatentState::Closed) => {
        proof {
                            assert forall|q: int| 0 <= q < old_slots.len() implies owns_slot(old_entries.take(i + 1), actor_handle, q)
                                == owns_slot(old_entries.take(i as int), actor_handle, q) by {
                                lemma_owns_prefix_step(old_entries, actor_handle, i as int, q);
                            }
                        }
                    },
                }
            } else {
proof {
                            assert forall|q: int| 0 <= q < old_slots.len() implies owns_slot(old_entries.take(i + 1), actor_handle, q)
                                == owns_slot(old_entries.take(i as int), actor_handle, q) by {
                                lemma_owns_prefix_step(old_entries, actor_handle, i as int, q);
                            }
                        }
            }
            i = i + 1;
        }
        proof {
            assert(old_entries.take(i as int) == old_entries);
            assert(self.entries() == close_latents_of(old_entries, actor_handle));
            lemma_extends_refl(self.kv());
            assert forall|k: int| 0 <= k < old_slots.len() implies (#[trigger] self.slots()[k]).buffer == old_slots[k].buffer by {
            }
        }
        if error_count == 0 {
            Ok(())
        } else {
            let mut m = String::from_str("flush/close failed for ");
            crate::text::push_decimal_u64(&mut m, error_count as u64);
            m.append(" writers");
            proof {
                reveal_strlit("flush/close failed for ");
                reveal_strlit(" writers");
            }
            assert(m@ =~= failed_closes_message(error_count as nat));
            Err(m)
        }
    }

    proof fn lemma_latent_closed_wf(self, prev: PipePool, i: int)
        requires
            self.kv() == prev.kv(),
            self.slots() == prev.slots(),
            0 <= i < prev.entries().len(),
            self.entries() == prev.entries().update(
                i,
                (prev.entries()[i].0, prev.entries()[i].1, WriterState::Latent(LatentState::Closed)),
            ),
            prev.entries()[i].2 is Latent,
            prev.wf(),
        ensures
            self.wf(),
    {
        let e = self.entries();
        let pe = prev.entries();
        assert forall|a: int| 0 <= a < e.len() implies realized_slot((#[trigger] e[a]).2) < self.slots().len() by {
            assert(realized_slot(prev.entries()[a].2) < prev.slots().len());
        }
        assert forall|a: int, b: int|
            0 <= a < e.len() && 0 <= b < e.len() && a != b && (#[trigger] e[a]).2 is Realized
                && (#[trigger] e[b]).2 is Realized implies realized_slot(e[a].2) != realized_slot(e[b].2) by {
            assert(pe[a].2 is Realized && pe[b].2 is Realized);
        }
        assert forall|a: int, b: int| 0 <= a < e.len() && 0 <= b < e.len() && a != b implies !(
        #[trigger] e[a].0 == #[trigger] e[b].0 && e[a].1 == e[b].1) by {
            assert(!(pe[a].0 == pe[b].0 && pe[a].1 == pe[b].1));
        }
    }
}

/// The inspection of one writer state.
pub open spec fn inspect_spec(slots: Seq<SharedBuffer>, st: WriterState) -> PipeEntryInspection {
    match st {
        WriterState::Realized(w) => PipeEntryInspection::Realized {
            is_closed: slots[w.slot() as int].closed,
            handle: w.spec_handle(),
        },
        WriterState::Latent(l) => PipeEntryInspection::Latent(l),
    }
}

impl PipePool {
    /// Close all remaining latent writers still in Waiting state; returns how many.
    pub fn close_all_leftover_writers(&mut self) -> (r: usize)
        requires
            old(self).wf(),
        ensures
            final(self).wf(),
            final(self).extends(*old(self)),
            final(self).kv() == old(self).kv(),
            final(self).slots() == old(self).slots(),
            final(self).entries() == close_all_latents(old(self).entries()),
            r == waiting_count(old(self).entries()),
    {
        let ghost old_entries = self.entries();
        let mut count: usize = 0;
        let mut i: usize = 0;
        while i < self.entries.len()
            invariant
                self.wf(),
                old(self).wf(),
                self.kv() == old(self).kv(),
                self.slots() == old(self).slots(),
                old_entries == old(self).entries(),
                i <= old_entries.len(),
                self.entries().len() == old_entries.len(),
                forall|j: int| 0 <= j < i ==> #[trigger] self.entries()[j] == close_all_latents(old_entries)[j],
                forall|j: int| i <= j < old_entries.len() ==> #[trigger] self.entries()[j] == old_entries[j],
                count == waiting_count(old_entries.take(i as int)),
                count <= i,
            decreases old_entries.len() - i,
        {
            let (h, fd, st) = self.entries[i];
            assert(old_entries.take(i + 1).drop_last() == old_entries.take(i as int));
            if st == WriterState::Latent(LatentState::Waiting) {
                let ghost before = *self;
                self.entries.set(i, (h, fd, WriterState::Latent(LatentState::Closed)));
                proof { self.lemma_latent_closed_wf(before, i as int); }
                count = count + 1;
            }
            i = i + 1;
        }
        proof {
            assert(old_entries.take(i as int) == old_entries);
            assert(self.entries() == close_all_latents(old_entries));
            lemma_extends_refl(self.kv());
        }
        count
    }

    /// Get a writer by key (only if already realized)
    pub fn get_already_realized_writer(&self, key: (Handle, isize)) -> (r: Option<Writer>)
        requires
            self.wf(),
        ensures
            match entry_state(self.entries(), key) {
                Some(WriterState::Realized(w)) => r == Some(w),
                _ => r is None,
            },
    {
        match self.find_entry(key) {
            Some(i) => match self.entries[i].2 {
                WriterState::Realized(w) => Some(w),
                WriterState::Latent(_) => None,
            },
            None => None,
        }
    }

    fn inspect_state(&self, st: WriterState) -> (r: PipeEntryInspection)
        requires
            realized_slot(st) < self.slots().len(),
        ensures
            r == inspect_spec(self.slots(), st),
    {
        match st {
            WriterState::Realized(w) => PipeEntryInspection::Realized {
                is_closed: w.is_closed(self),
                handle: w.handle,
            },
            WriterState::Latent(l) => PipeEntryInspection::Latent(l),
        }
    }

    /// Return all (actor, fd, inspection) triples in the pool.
    pub fn inspect_entries(&self) -> (r: Vec<(Handle, isize, PipeEntryInspection)>)
        requires
            self.wf(),
        ensures
            r@.len() == self.entries().len(),
            forall|i: int|
                0 <= i < r@.len() ==> #[trigger] r@[i] == (
                    self.entries()[i].0,
                    self.entries()[i].1,
                    inspect_spec(self.slots(), self.entries()[i].2),
                ),
    {
        let mut out: Vec<(Handle, isize, PipeEntryInspection)> = Vec::new();
        let mut i: usize = 0;
        while i < self.entries.len()
            invariant
                self.wf(),
                i <= self.entries().len(),
                out@.len() == i,
                forall|j: int|
                    0 <= j < i ==> #[trigger] out@[j] == (
                        self.entries()[j].0,
                        self.entries()[j].1,
                        inspect_spec(self.slots(), self.entries()[j].2),
                    ),
            decreases self.entries().len() - i,
        {
            let (h, fd, st) = self.entries[i];
            proof { assert(realized_slot(self.entries()[i as int].2) < self.slots().len()); }
            let ins = self.inspect_state(st);
            out.push((h, fd, ins));
            i = i + 1;
        }
        out
    }

    /// Return an inspection snapshot of the pipe entry for `key`, or `None` if no entry exists.
    pub fn inspect_entry(&self, key: (Handle, isize)) -> (r: Option<PipeEntryInspection>)
        requires
            self.wf(),
        ensures
            match entry_state(self.entries(), key) {
                Some(st) => r == Some(inspect_spec(self.slots(), st)),
                None => r is None,
            },
    {
        match self.find_entry(key) {
            Some(i) => {
                let st = self.entries[i].2;
                proof { assert(realized_slot(self.entries()[i as int].2) < self.slots().len()); }
                Some(self.inspect_state(st))
            },
            None => None,
        }
    }
}

impl PipePool {
    /// A pipe's data only grows as the pool extends.
    pub proof fn lemma_content_grows(self, old: PipePool, k: nat)
        requires
            old.wf(),
            self.extends(old),
            k < old.slots().len(),
        ensures
            old.content(k).len() <= self.content(k).len(),
            self.content(k).subrange(0, old.content(k).len() as int) == old.content(k),
    {
        let b = old.slots()[k as int].buffer;
        assert(old.kv().valid(b));
        assert(self.slots()[k as int].buffer == b);
        let i = b.spec_index() as int;
        assert(old.kv().buffers()[i].len() <= self.kv().buffers()[i].len());
    }

    /// Extension is transitive.
    pub proof fn lemma_extends_trans(self, mid: PipePool, old: PipePool)
        requires
            mid.extends(old),
            self.extends(mid),
        ensures
            self.extends(old),
    {
        lemma_extends_trans(old.kv(), mid.kv(), self.kv());
    }

    /// A pool extends itself.
    pub proof fn lemma_extends_self(self)
        ensures
            self.extends(self),
    {
        lemma_extends_refl(self.kv());
    }
}

} // verus!
