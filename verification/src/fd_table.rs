//! File descriptor table for actor runtime
//!
//! The per-actor file descriptor table maps POSIX-style file descriptors (integers)
//! to the channel state used by the system runtime.

use vstd::prelude::*;

use crate::idgen::Handle;
use crate::std_handle::{StdHandle, STD_HANDLE_COUNT};

verus! {

/// Identifier of an open channel in the I/O bridge.
#[derive(Debug, Clone, Copy, PartialEq, Eq, Structural)]
pub struct ChannelHandle(pub i64);

/// File descriptor entry - tracks the state of an fd.
///
/// Fds start as "allowed but not materialized" and transition to "active" on first use.
#[derive(Debug, Clone, Copy, PartialEq, Eq, Structural)]
pub enum FdEntry {
    /// Reading allowed - reader will be created on first read
    AllowedReader,
    /// Writing allowed - writer will be created on first write
    AllowedWriter,
    /// Active reader - has a `ChannelHandle` for looking up the reader in the channel table
    ActiveReader(ChannelHandle),
    /// Active writer - stores identifiers for direct pipe pool access
    ActiveWriter { node_handle: Handle, std_handle: StdHandle },
}

/// Per-actor file descriptor table.
/// The fd is simply the index into the vector.
/// Pre-allocated with slots for all standard handles.
pub struct FdTable {
    table: Vec<Option<FdEntry>>,
}

/// The entry that a lookup of `fd` finds in `table`.
pub open spec fn fd_lookup(table: Seq<Option<FdEntry>>, fd: int) -> Option<FdEntry> {
    if 0 <= fd < table.len() {
        table[fd]
    } else {
        None
    }
}

/// The lowest free slot of `table`, or its length when every slot is taken.
pub open spec fn lowest_free(table: Seq<Option<FdEntry>>) -> int {
    if exists|i: int| 0 <= i < table.len() && table[i] is None {
        choose|i: int| 0 <= i < table.len() && table[i] is None && forall|j: int| 0 <= j < i ==> table[j] is Some
    } else {
        table.len() as int
    }
}

/// The table after inserting `entry` at its lowest free slot.
pub open spec fn insert_spec(table: Seq<Option<FdEntry>>, entry: FdEntry) -> Seq<Option<FdEntry>> {
    let fd = lowest_free(table);
    if fd < table.len() {
        table.update(fd, Some(entry))
    } else {
        table.push(Some(entry))
    }
}

proof fn lemma_lowest_free(table: Seq<Option<FdEntry>>, i: int)
    requires
        0 <= i < table.len(),
        table[i] is None,
        forall|j: int| 0 <= j < i ==> table[j] is Some,
    ensures
        lowest_free(table) == i,
{
    let k = lowest_free(table);
    assert(0 <= k < table.len() && table[k] is None && forall|j: int| 0 <= j < k ==> table[j] is Some);
    if k < i {
        assert(table[k] is Some);
    } else if k > i {
        assert(table[i] is Some);
    }
}

impl FdTable {
    /// The slots of the table; the fd is the index.
    pub closed spec fn slots(self) -> Seq<Option<FdEntry>> {
        self.table@
    }

    /// A table with an empty slot for each standard handle.
    pub fn new() -> (t: Self)
        ensures
            t.slots() == Seq::new(STD_HANDLE_COUNT as nat, |i: int| None::<FdEntry>),
    {
        let mut table: Vec<Option<FdEntry>> = Vec::new();
        let mut i: isize = 0;
        while i < STD_HANDLE_COUNT
            invariant
                0 <= i <= STD_HANDLE_COUNT,
                table@ == Seq::new(i as nat, |k: int| None::<FdEntry>),
            decreases STD_HANDLE_COUNT - i,
        {
            table.push(None);
            i = i + 1;
            assert(table@ =~= Seq::new(i as nat, |k: int| None::<FdEntry>));
        }
        Self { table }
    }

    /// Set an entry at a specific fd (used for standard handles); negative or
    /// out-of-range fds are ignored.
    pub fn set(&mut self, fd: isize, entry: FdEntry)
        ensures
            final(self).slots() == apply_op(old(self).slots(), FdOp::SetAt(fd, entry)),
            final(self).slots() == if 0 <= fd < old(self).slots().len() {
                old(self).slots().update(fd as int, Some(entry))
            } else {
                old(self).slots()
            },
    {
        if fd < 0 {
            return;
        }
        let idx = fd as usize;
        if idx < self.table.len() {
            self.table.set(idx, Some(entry));
        }
    }

    /// Allocate a new fd and associate it with an `FdEntry`.
    /// Uses the first empty slot or appends. Returns the fd (index), or -1 on overflow.
    pub fn insert(&mut self, entry: FdEntry) -> (fd: isize)
        ensures
            final(self).slots() == apply_op(old(self).slots(), FdOp::Insert(entry)),
            lowest_free(old(self).slots()) <= isize::MAX ==> fd == lowest_free(old(self).slots())
                && final(self).slots() == insert_spec(old(self).slots(), entry),
            lowest_free(old(self).slots()) > isize::MAX ==> fd == -1 && final(self).slots() == old(self).slots(),
    {
        let mut i: usize = 0;
        while i < self.table.len()
            invariant
                i <= self.table@.len(),
                self.table@ == old(self).table@,
                forall|j: int| 0 <= j < i ==> self.table@[j] is Some,
            decreases self.table@.len() - i,
        {
            if self.table[i].is_none() {
                proof { lemma_lowest_free(self.table@, i as int); }
                assert((isize::MAX as usize) as int == isize::MAX as int);
                if i > isize::MAX as usize {
                    return -1;
                }
                self.table.set(i, Some(entry));
                return i as isize;
            }
            i = i + 1;
        }
        let fd = self.table.len();
        assert(!(exists|i: int| 0 <= i < self.table@.len() && self.table@[i] is None));
        assert((isize::MAX as usize) as int == isize::MAX as int);
        if fd > isize::MAX as usize {
            return -1;
        }
        self.table.push(Some(entry));
        fd as isize
    }

    /// Look up the `FdEntry` for a given fd.
    pub fn get(&self, fd: isize) -> (r: Option<&FdEntry>)
        ensures
            r matches Some(e) ==> fd_lookup(self.slots(), fd as int) == Some(*e),
            r is None ==> fd_lookup(self.slots(), fd as int) is None,
    {
        if fd < 0 {
            return None;
        }
        let idx = fd as usize;
        if idx < self.table.len() {
            match &self.table[idx] {
                Some(e) => Some(e),
                None => None,
            }
        } else {
            None
        }
    }

    /// Get mutable reference to an `FdEntry`.
    pub fn get_mut(&mut self, fd: isize) -> (r: Option<&mut FdEntry>)
        ensures
            r matches Some(e) ==> fd_lookup(old(self).slots(), fd as int) == Some(*e)
                && final(self).slots() == old(self).slots().update(fd as int, Some(*final(e))),
            r is None ==> fd_lookup(old(self).slots(), fd as int) is None && final(self).slots() == old(self).slots(),
    {
        if fd < 0 {
            return None;
        }
        let idx = fd as usize;
        if idx < self.table.len() {
            match &mut self.table[idx] {
                Some(e) => Some(e),
                None => None,
            }
        } else {
            None
        }
    }

    /// Remove an fd mapping and return the entry.
    pub fn remove(&mut self, fd: isize) -> (r: Option<FdEntry>)
        ensures
            final(self).slots() == apply_op(old(self).slots(), FdOp::Remove(fd)),
            r == fd_lookup(old(self).slots(), fd as int),
            final(self).slots() == if r is Some {
                old(self).slots().update(fd as int, None)
            } else {
                old(self).slots()
            },
    {
        if fd < 0 {
            return None;
        }
        let idx = fd as usize;
        if idx < self.table.len() {
            let e = self.table[idx];
            if e.is_some() {
                self.table.set(idx, None);
            }
            e
        } else {
            None
        }
    }

    /// Clear all fd mappings (used during actor shutdown).
    pub fn clear(&mut self)
        ensures
            final(self).slots() == apply_op(old(self).slots(), FdOp::Clear),
            final(self).slots() == Seq::<Option<FdEntry>>::empty(),
    {
        self.table.clear();
    }
}

impl Default for FdTable {
    fn default() -> (t: Self)
        ensures
            t.slots() == Seq::new(STD_HANDLE_COUNT as nat, |i: int| None::<FdEntry>),
    {
        Self::new()
    }
}

/// Law: a lookup of the fd that an insert returned finds the inserted entry, and the
/// fd is the lowest slot that was free.
pub proof fn lemma_insert_then_get(table: Seq<Option<FdEntry>>, entry: FdEntry)
    ensures
        fd_lookup(insert_spec(table, entry), lowest_free(table)) == Some(entry),
        forall|j: int| 0 <= j < lowest_free(table) ==> table[j] is Some,
{
    if exists|i: int| 0 <= i < table.len() && table[i] is None {
        let i = choose|i: int| 0 <= i < table.len() && table[i] is None;
        lemma_min_free(table, i);
    }
}

proof fn lemma_min_free(table: Seq<Option<FdEntry>>, k: int)
    requires
        0 <= k < table.len(),
        table[k] is None,
    ensures
        exists|i: int| 0 <= i < table.len() && table[i] is None && forall|j: int| 0 <= j < i ==> table[j] is Some,
    decreases k,
{
    if exists|j: int| 0 <= j < k && table[j] is None {
        let j = choose|j: int| 0 <= j < k && table[j] is None;
        lemma_min_free(table, j);
    } else {
        assert(forall|j: int| 0 <= j < k ==> table[j] is Some);
    }
}

/// Law: after removing an fd, a lookup of it finds nothing.
pub proof fn lemma_remove_then_get(table: Seq<Option<FdEntry>>, fd: int)
    requires
        fd_lookup(table, fd) is Some,
    ensures
        fd_lookup(table.update(fd, None), fd) is None,
{
}

/// A change to an fd table, as one call of `set`, `insert`, `remove` or `clear` makes it.
#[derive(Debug, Clone, Copy)]
pub enum FdOp {
    SetAt(isize, FdEntry),
    Insert(FdEntry),
    Remove(isize),
    Clear,
}

/// The slots after `op`, as the contract of the corresponding method states them.
pub open spec fn apply_op(table: Seq<Option<FdEntry>>, op: FdOp) -> Seq<Option<FdEntry>> {
    match op {
        FdOp::SetAt(fd, e) => if 0 <= fd < table.len() {
            table.update(fd as int, Some(e))
        } else {
            table
        },
        FdOp::Insert(e) => if lowest_free(table) <= isize::MAX {
            insert_spec(table, e)
        } else {
            table
        },
        FdOp::Remove(fd) => if fd_lookup(table, fd as int) is Some {
            table.update(fd as int, None)
        } else {
            table
        },
        FdOp::Clear => Seq::empty(),
    }
}

/// The slots after the changes `ops`, in order.
pub open spec fn run_ops(table: Seq<Option<FdEntry>>, ops: Seq<FdOp>) -> Seq<Option<FdEntry>>
    decreases ops.len(),
{
    if ops.len() == 0 {
        table
    } else {
        apply_op(run_ops(table, ops.drop_last()), ops.last())
    }
}

/// What a lookup of `fd` finds after `ops` on a new table, by the history of `fd`: the
/// entry of the last `set` of `fd` (within the table) or `insert` that returned `fd`,
/// unless a `remove` of `fd` or a `clear` came after it; else nothing.
pub open spec fn fd_history(table: Seq<Option<FdEntry>>, ops: Seq<FdOp>, fd: int) -> Option<FdEntry>
    decreases ops.len(),
{
    if ops.len() == 0 {
        None
    } else {
        let before = run_ops(table, ops.drop_last());
        match ops.last() {
            FdOp::SetAt(f, e) => if f == fd && 0 <= fd < before.len() {
                Some(e)
            } else {
                fd_history(table, ops.drop_last(), fd)
            },
            FdOp::Insert(e) => if lowest_free(before) == fd && fd <= isize::MAX {
                Some(e)
            } else {
                fd_history(table, ops.drop_last(), fd)
            },
            FdOp::Remove(f) => if f == fd {
                None
            } else {
                fd_history(table, ops.drop_last(), fd)
            },
            FdOp::Clear => None,
        }
    }
}

proof fn lemma_lowest_free_bounds(table: Seq<Option<FdEntry>>)
    ensures
        0 <= lowest_free(table) <= table.len(),
        lowest_free(table) < table.len() ==> table[lowest_free(table)] is None,
{
    if exists|i: int| 0 <= i < table.len() && table[i] is None {
        let i = choose|i: int| 0 <= i < table.len() && table[i] is None;
        lemma_min_free(table, i);
    }
}

/// Law: on a new table, a lookup of `fd` (what `get` returns, leaving the table as it
/// is) after any sequence of calls of `set`, `insert`, `remove` and `clear` (each of
/// which ensures its change is `apply_op` of its `FdOp`) finds the entry of the last
/// `set` of `fd` or `insert` that returned `fd`, unless a `remove` of `fd` or a `clear`
/// followed it; a negative fd finds nothing.
pub proof fn lemma_fd_history(ops: Seq<FdOp>, fd: int)
    ensures
        fd_lookup(run_ops(Seq::new(STD_HANDLE_COUNT as nat, |i: int| None::<FdEntry>), ops), fd) == fd_history(
            Seq::new(STD_HANDLE_COUNT as nat, |i: int| None::<FdEntry>),
            ops,
            fd,
        ),
        fd < 0 ==> fd_history(Seq::new(STD_HANDLE_COUNT as nat, |i: int| None::<FdEntry>), ops, fd) is None,
    decreases ops.len(),
{
    let t0 = Seq::new(STD_HANDLE_COUNT as nat, |i: int| None::<FdEntry>);
    if ops.len() > 0 {
        lemma_fd_history(ops.drop_last(), fd);
        let before = run_ops(t0, ops.drop_last());
        lemma_lowest_free_bounds(before);
        match ops.last() {
            FdOp::Insert(e) => {
                let lf = lowest_free(before);
                if lf <= isize::MAX && lf < before.len() {
                    assert(insert_spec(before, e) == before.update(lf, Some(e)));
                } else if lf <= isize::MAX {
                    assert(insert_spec(before, e) == before.push(Some(e)));
                }
            },
            _ => {},
        }
    }
}

} // verus!
