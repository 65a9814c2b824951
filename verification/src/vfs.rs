//! A virtual file system for testing actors.
//!
//! - `open_read(name)` opens the first file named `name`; `ENOENT` if none.
//! - `open_write(name)` creates a new empty file; `EINVAL` if `name` contains
//!   `WANT_ERROR`.
//! - `aread` and `awrite` stop after an `IO_INTERRUPT` byte, and fail with `EIO`
//!   at a `WANT_ERROR` byte (the bytes before it are transferred).
//! - `aclose` invalidates the handle; operations on an invalid handle fail
//!   with `EBADF`.
//!
//! Each operation records its errno (0 on success), which `get_errno` returns.

use vstd::prelude::*;
use vstd::string::StringExecFns;

use crate::text::{contains_char, decimal_nat, str_eq};

verus! {

/// A character whose presence makes an operation fail.
pub const WANT_ERROR: char = '\u{0001}';

/// A character after which a read or write stops.
pub const IO_INTERRUPT: char = '\n';

/// The byte of `WANT_ERROR`.
pub const WANT_ERROR_BYTE: u8 = 1;

/// The byte of `IO_INTERRUPT`.
pub const IO_INTERRUPT_BYTE: u8 = 10;

/// No such file or directory.
pub const ENOENT: i32 = 2;

/// I/O error.
pub const EIO: i32 = 5;

/// Bad file descriptor.
pub const EBADF: i32 = 9;

/// Invalid argument.
pub const EINVAL: i32 = 22;

/// Scan `data` from `i` up to `limit`: the end position, and whether it stopped at
/// a `WANT_ERROR` byte. A scan stops after an `IO_INTERRUPT` byte.
pub open spec fn scan(data: Seq<u8>, i: nat, limit: nat) -> (nat, bool)
    decreases limit - i,
{
    if i >= limit {
        (i, false)
    } else if data[i as int] == WANT_ERROR_BYTE {
        (i, true)
    } else if data[i as int] == IO_INTERRUPT_BYTE {
        ((i + 1) as nat, false)
    } else {
        scan(data, i + 1, limit)
    }
}

/// A scan ends between its start and its limit.
pub proof fn lemma_scan_bounds(data: Seq<u8>, i: nat, limit: nat)
    requires
        i <= limit,
    ensures
        i <= scan(data, i, limit).0 <= limit,
    decreases limit - i,
{
    if i < limit && data[i as int] != WANT_ERROR_BYTE && data[i as int] != IO_INTERRUPT_BYTE {
        lemma_scan_bounds(data, i + 1, limit);
    }
}

/// Law: a read or write over bytes that hold neither `WANT_ERROR` nor
/// `IO_INTERRUPT` transfers all of them, up to the limit, without error.
pub proof fn lemma_scan_plain(data: Seq<u8>, i: nat, limit: nat)
    requires
        i <= limit <= data.len(),
        forall|k: int| i <= k < limit ==> data[k] != WANT_ERROR_BYTE && data[k] != IO_INTERRUPT_BYTE,
    ensures
        scan(data, i, limit) == (limit, false),
    decreases limit - i,
{
    if i < limit {
        lemma_scan_plain(data, i + 1, limit);
    }
}

/// Law: a scan that stops at an `IO_INTERRUPT` byte includes it: the chunk ends
/// with the newline.
pub proof fn lemma_scan_stops_after_newline(data: Seq<u8>, i: nat, limit: nat, k: nat)
    requires
        i <= k < limit <= data.len(),
        data[k as int] == IO_INTERRUPT_BYTE,
        forall|j: int| i <= j < k ==> data[j] != WANT_ERROR_BYTE && data[j] != IO_INTERRUPT_BYTE,
    ensures
        scan(data, i, limit) == ((k + 1) as nat, false),
    decreases k - i,
{
    if i < k {
        lemma_scan_stops_after_newline(data, i + 1, limit, k);
    }
}

/// The index of the first file named `name`, if any.
pub open spec fn find_file(files: Seq<(Seq<char>, Seq<u8>)>, name: Seq<char>) -> Option<int> {
    if exists|i: int| 0 <= i < files.len() && files[i].0 == name {
        Some(choose|i: int| 0 <= i < files.len() && files[i].0 == name && forall|j: int| 0 <= j < i ==> files[j].0 != name)
    } else {
        None
    }
}

/// Some file named `name` has a first occurrence.
pub proof fn lemma_find_file(files: Seq<(Seq<char>, Seq<u8>)>, name: Seq<char>, k: int)
    requires
        0 <= k < files.len(),
        files[k].0 == name,
        forall|j: int| 0 <= j < k ==> files[j].0 != name,
    ensures
        find_file(files, name) == Some(k),
{
    let w = choose|i: int| 0 <= i < files.len() && files[i].0 == name && forall|j: int| 0 <= j < i ==> files[j].0 != name;
    assert(0 <= w < files.len() && files[w].0 == name && forall|j: int| 0 <= j < w ==> files[j].0 != name);
    if w < k {
        assert(files[w].0 != name);
    } else if w > k {
        assert(files[k].0 != name);
    }
}

/// The file and position a handle designates, if the handle is valid.
pub open spec fn handle_target(
    files: Seq<(Seq<char>, Seq<u8>)>,
    handles: Seq<(usize, usize)>,
    fd: isize,
) -> Option<(int, nat)> {
    if 0 <= fd < handles.len() && handles[fd as int].0 < files.len() {
        Some((handles[fd as int].0 as int, handles[fd as int].1 as nat))
    } else {
        None
    }
}

/// Every handle designates a file or is closed, and its position lies within
/// its file.
pub open spec fn vfs_wf(files: Seq<(Seq<char>, Seq<u8>)>, handles: Seq<(usize, usize)>) -> bool {
    &&& forall|k: int|
        0 <= k < handles.len() && (#[trigger] handles[k]).0 < files.len() ==> handles[k].1 <= files[handles[k].0 as int].1.len()
    &&& forall|k: int| 0 <= k < handles.len() ==> (#[trigger] handles[k]).0 < files.len() || handles[k].0 == usize::MAX
}

/// The virtual file system
pub struct Vfs {
    files: Vec<(String, Vec<u8>)>,
    handles: Vec<(usize, usize)>,
    io_errno: i32,
}

impl Vfs {
    /// The files: name and contents, in creation order.
    pub closed spec fn files(self) -> Seq<(Seq<char>, Seq<u8>)> {
        self.files@.map_values(|f: (String, Vec<u8>)| (f.0@, f.1@))
    }

    /// The handles: file index (`usize::MAX` once closed) and position.
    pub closed spec fn handles(self) -> Seq<(usize, usize)> {
        self.handles@
    }

    /// The errno of the last operation.
    pub closed spec fn errno(self) -> i32 {
        self.io_errno
    }

    /// Every handle's position lies within its file.
    pub open spec fn wf(self) -> bool {
        vfs_wf(self.files(), self.handles())
    }

    proof fn lemma_push_file_wf(self, prev: Vfs, f: (Seq<char>, Seq<u8>))
        requires
            prev.wf(),
            self.files() == prev.files().push(f),
            self.handles() == prev.handles(),
            self.files().len() <= usize::MAX,
        ensures
            self.wf(),
    {
        assert forall|k: int|
            0 <= k < self.handles().len() && (#[trigger] self.handles()[k]).0 < self.files().len()
                implies self.handles()[k].1 <= self.files()[self.handles()[k].0 as int].1.len() by {
            assert(prev.handles()[k] == self.handles()[k]);
            if self.handles()[k].0 < prev.files().len() {
                assert(self.files()[self.handles()[k].0 as int] == prev.files()[self.handles()[k].0 as int]);
            }
        }
        assert forall|k: int|
            0 <= k < self.handles().len() implies (#[trigger] self.handles()[k]).0 < self.files().len()
                || self.handles()[k].0 == usize::MAX by {
            assert(prev.handles()[k] == self.handles()[k]);
        }
    }

    /// An empty file system.
    pub fn new() -> (v: Self)
        ensures
            v.wf(),
            v.files() == Seq::<(Seq<char>, Seq<u8>)>::empty(),
            v.handles() == Seq::<(usize, usize)>::empty(),
            v.errno() == 0,
    {
        let v = Self { files: Vec::new(), handles: Vec::new(), io_errno: 0 };
        assert(v.files() =~= Seq::<(Seq<char>, Seq<u8>)>::empty());
        v
    }

    /// Remove all files and handles, and clear the errno.
    pub fn clear_mocks(&mut self)
        ensures
            final(self).wf(),
            final(self).files() == Seq::<(Seq<char>, Seq<u8>)>::empty(),
            final(self).handles() == Seq::<(usize, usize)>::empty(),
            final(self).errno() == 0,
    {
        self.io_errno = 0;
        self.files.clear();
        self.handles.clear();
        assert(self.files() =~= Seq::<(Seq<char>, Seq<u8>)>::empty());
    }

    /// Add a file.
    pub fn add_file(&mut self, name: String, buffer: Vec<u8>)
        requires
            old(self).wf(),
        ensures
            final(self).wf(),
            final(self).files() == old(self).files().push((name@, buffer@)),
            final(self).handles() == old(self).handles(),
            final(self).errno() == old(self).errno(),
    {
        let ghost nm = name@;
        let ghost b = buffer@;
        self.files.push((name, buffer));
        let _n = self.files.len();
        assert(self.files() =~= old(self).files().push((nm, b)));
        proof { self.lemma_push_file_wf(*old(self), (nm, b)); }
    }

    fn find(&self, name: &str) -> (r: Option<usize>)
        ensures
            r is None ==> find_file(self.files(), name@) is None,
            r matches Some(i) ==> i < self.files().len() && find_file(self.files(), name@) == Some(i as int),
    {
        let mut i: usize = 0;
        while i < self.files.len()
            invariant
                i <= self.files@.len(),
                forall|j: int| 0 <= j < i ==> self.files()[j].0 != name@,
            decreases self.files@.len() - i,
        {
            if str_eq(self.files[i].0.as_str(), name) {
                proof { lemma_find_file(self.files(), name@, i as int); }
                return Some(i);
            }
            i = i + 1;
        }
        None
    }

    /// Append data to the first file named `name`.
    ///
    /// Errors with `File {name} not found for appending` when there is none.
    pub fn append_to_file(&mut self, name: &str, data: &[u8]) -> (r: Result<(), String>)
        requires
            old(self).wf(),
        ensures
            final(self).wf(),
            final(self).handles() == old(self).handles(),
            final(self).errno() == old(self).errno(),
            match find_file(old(self).files(), name@) {
                Some(i) => r is Ok && final(self).files() == old(self).files().update(
                    i,
                    (old(self).files()[i].0, old(self).files()[i].1 + data@),
                ),
                None => r matches Err(m) && m@ == "File "@ + name@ + " not found for appending"@
                    && final(self).files() == old(self).files(),
            },
    {
        match self.find(name) {
            Some(i) => {
                let (nm, mut buf) = self.files.remove(i);
                let ghost b0 = buf@;
                let mut k: usize = 0;
                while k < data.len()
                    invariant
                        k <= data@.len(),
                        buf@ == b0 + data@.subrange(0, k as int),
                    decreases data@.len() - k,
                {
                    buf.push(data[k]);
                    k = k + 1;
                    assert(buf@ =~= b0 + data@.subrange(0, k as int));
                }
                assert(data@.subrange(0, k as int) =~= data@);
                let ghost nmv = nm@;
                self.files.insert(i, (nm, buf));
                proof {
                    assert(self.files() =~= old(self).files().update(i as int, (nmv, b0 + data@)));
                    assert forall|k2: int|
                        0 <= k2 < self.handles().len() && (#[trigger] self.handles()[k2]).0 < self.files().len()
                            implies self.handles()[k2].1 <= self.files()[self.handles()[k2].0 as int].1.len() by {
                        assert(old(self).handles()[k2] == self.handles()[k2]);
                    }
                }
                Ok(())
            },
            None => {
                let mut m = String::from_str("File ");
                m.append(name);
                m.append(" not found for appending");
                proof {
                    reveal_strlit("File ");
                    reveal_strlit(" not found for appending");
                }
                Err(m)
            },
        }
    }

    /// The contents of the first file named `name`.
    ///
    /// Errors with `File not found: {name}` (and errno -1) when there is none.
    pub fn get_file(&mut self, name: &str) -> (r: Result<Vec<u8>, String>)
        requires
            old(self).wf(),
        ensures
            final(self).wf(),
            final(self).files() == old(self).files(),
            final(self).handles() == old(self).handles(),
            match find_file(old(self).files(), name@) {
                Some(i) => r matches Ok(v) && v@ == old(self).files()[i].1 && final(self).errno() == 0,
                None => r matches Err(m) && m@ == "File not found: "@ + name@ && final(self).errno() == -1,
            },
    {
        self.io_errno = 0;
        match self.find(name) {
            Some(i) => Ok(self.files[i].1.clone()),
            None => {
                self.io_errno = -1;
                let mut m = String::from_str("File not found: ");
                m.append(name);
                proof { reveal_strlit("File not found: "); }
                Err(m)
            },
        }
    }

    /// Open the first file named `name` for reading; returns the new handle.
    ///
    /// Errors with ENOENT when there is no such file.
    pub fn open_read(&mut self, name: &str) -> (r: Result<isize, i32>)
        requires
            old(self).wf(),
            old(self).handles().len() < isize::MAX,
        ensures
            final(self).wf(),
            final(self).files() == old(self).files(),
            match find_file(old(self).files(), name@) {
                Some(i) => r == Ok::<isize, i32>(old(self).handles().len() as isize) && final(self).handles()
                    == old(self).handles().push((i as usize, 0usize)) && final(self).errno() == 0,
                None => r == Err::<isize, i32>(ENOENT) && final(self).handles() == old(self).handles()
                    && final(self).errno() == ENOENT,
            },
    {
        self.io_errno = 0;
        match self.find(name) {
            Some(i) => {
                let fd = self.handles.len();
                self.handles.push((i, 0));
                proof { self.lemma_push_handle_wf(*old(self), i, 0); }
                Ok(fd as isize)
            },
            None => {
                self.io_errno = ENOENT;
                Err(ENOENT)
            },
        }
    }

    proof fn lemma_push_handle_wf(self, prev: Vfs, i: usize, pos: usize)
        requires
            prev.wf(),
            self.files() == prev.files(),
            self.handles() == prev.handles().push((i, pos)),
            i < self.files().len() ==> pos <= self.files()[i as int].1.len(),
            i < self.files().len() || i == usize::MAX,
        ensures
            self.wf(),
    {
        assert forall|k: int|
            0 <= k < self.handles().len() implies (#[trigger] self.handles()[k]).0 < self.files().len()
                || self.handles()[k].0 == usize::MAX by {
            if k < prev.handles().len() {
                assert(self.handles()[k] == prev.handles()[k]);
            }
        }
        assert forall|k: int|
            0 <= k < self.handles().len() && (#[trigger] self.handles()[k]).0 < self.files().len()
                implies self.handles()[k].1 <= self.files()[self.handles()[k].0 as int].1.len() by {
            if k < prev.handles().len() {
                assert(self.handles()[k] == prev.handles()[k]);
            }
        }
    }

    /// Create a new empty file named `name` and open it for writing; returns the
    /// new handle.
    ///
    /// Errors with EINVAL when `name` contains `WANT_ERROR`.
    pub fn open_write(&mut self, name: &str) -> (r: Result<isize, i32>)
        requires
            old(self).wf(),
            old(self).handles().len() < isize::MAX,
        ensures
            final(self).wf(),
            if name@.contains(WANT_ERROR) {
                &&& r == Err::<isize, i32>(EINVAL)
                &&& final(self).files() == old(self).files()
                &&& final(self).handles() == old(self).handles()
                &&& final(self).errno() == EINVAL
            } else {
                &&& r == Ok::<isize, i32>(old(self).handles().len() as isize)
                &&& final(self).files() == old(self).files().push((name@, Seq::<u8>::empty()))
                &&& final(self).handles() == old(self).handles().push((old(self).files().len() as usize, 0usize))
                &&& final(self).errno() == 0
            },
    {
        self.io_errno = 0;
        if contains_char(name, WANT_ERROR) {
            self.io_errno = EINVAL;
            return Err(EINVAL);
        }
        let ghost f0 = *self;
        let vfs_index = self.files.len();
        self.files.push((String::from_str(name), Vec::new()));
        let _n = self.files.len();
        proof {
            assert(self.files() =~= old(self).files().push((name@, Seq::<u8>::empty())));
            self.lemma_push_file_wf(f0, (name@, Seq::<u8>::empty()));
        }
        let ghost f1 = *self;
        let fd = self.handles.len();
        self.handles.push((vfs_index, 0));
        proof { self.lemma_push_handle_wf(f1, vfs_index, 0); }
        Ok(fd as isize)
    }

    /// Read from a handle into `buffer`, stopping after an `IO_INTERRUPT` byte.
    ///
    /// Errors: EBADF for an invalid handle; EIO at a `WANT_ERROR` byte (the bytes
    /// before it are read and the position moves past them).
    pub fn aread(&mut self, fd: isize, buffer: &mut [u8]) -> (r: Result<usize, i32>)
        requires
            old(self).wf(),
        ensures
            final(self).wf(),
            final(self).files() == old(self).files(),
            match handle_target(old(self).files(), old(self).handles(), fd) {
                None => r == Err::<usize, i32>(EBADF) && final(self).handles() == old(self).handles()
                    && final(self).errno() == EBADF && final(buffer)@ == old(buffer)@,
                Some((i, pos)) => {
                    let data = old(self).files()[i].1;
                    let limit = if old(buffer)@.len() < data.len() - pos {
                        old(buffer)@.len()
                    } else {
                        (data.len() - pos) as nat
                    };
                    let (n, err) = scan(data.subrange(pos as int, data.len() as int), 0, limit);
                    &&& final(self).handles() == old(self).handles().update(
                        fd as int,
                        (old(self).handles()[fd as int].0, (pos + n) as usize),
                    )
                    &&& final(buffer)@ == data.subrange(pos as int, (pos + n) as int) + old(buffer)@.subrange(
                        n as int,
                        old(buffer)@.len() as int,
                    )
                    &&& if err {
                        r == Err::<usize, i32>(EIO) && final(self).errno() == EIO
                    } else {
                        r == Ok::<usize, i32>(n as usize) && final(self).errno() == 0
                    }
                },
            },
    {
        self.io_errno = 0;
        if fd < 0 || fd as usize >= self.handles.len() {
            self.io_errno = EBADF;
            return Err(EBADF);
        }
        let h = fd as usize;
        let (vfs_index, pos) = self.handles[h];
        if vfs_index >= self.files.len() {
            self.io_errno = EBADF;
            return Err(EBADF);
        }
        proof {
            assert(self.handles()[h as int].0 < self.files().len());
        }
        let data = &self.files[vfs_index].1;
        let remaining = data.len() - pos;
        let limit = if buffer.len() < remaining { buffer.len() } else { remaining };
        let ghost sub = data@.subrange(pos as int, data@.len() as int);
        let ghost b0 = buffer@;
        let mut k: usize = 0;
        let mut err = false;
        proof { lemma_scan_bounds(sub, 0, limit as nat); }
        while k < limit
            invariant_except_break
                !err,
                scan(sub, k as nat, limit as nat) == scan(sub, 0, limit as nat),
            invariant
                k <= limit,
                limit <= buffer@.len(),
                pos + limit <= data.len(),
                sub == data@.subrange(pos as int, data@.len() as int),
                buffer@.len() == b0.len(),
                forall|j: int| 0 <= j < k ==> buffer@[j] == data@[pos + j],
                forall|j: int| k <= j < buffer@.len() ==> buffer@[j] == b0[j],
            ensures
                k <= limit,
                buffer@.len() == b0.len(),
                forall|j: int| 0 <= j < k ==> buffer@[j] == data@[pos + j],
                forall|j: int| k <= j < buffer@.len() ==> buffer@[j] == b0[j],
                scan(sub, 0, limit as nat) == (k as nat, err),
            decreases limit - k,
        {
            let ch = data[pos + k];
            assert(sub[k as int] == ch);
            if ch == WANT_ERROR_BYTE {
                err = true;
                break;
            }
            buffer[k] = ch;
            k = k + 1;
            if ch == IO_INTERRUPT_BYTE {
                break;
            }
        }
        let new_pos = pos + k;
        self.handles.set(h, (vfs_index, new_pos));
        proof {
            assert(buffer@ =~= sub.subrange(0, k as int) + b0.subrange(k as int, b0.len() as int));
            assert(sub.subrange(0, k as int) =~= old(self).files()[vfs_index as int].1.subrange(pos as int, pos + k));
            assert forall|q: int|
                0 <= q < self.handles().len() && (#[trigger] self.handles()[q]).0 < self.files().len()
                    implies self.handles()[q].1 <= self.files()[self.handles()[q].0 as int].1.len() by {
                if q != h {
                    assert(self.handles()[q] == old(self).handles()[q]);
                }
            }
        }
        if err {
            self.io_errno = EIO;
            return Err(EIO);
        }
        Ok(k)
    }

    /// Write `buffer` to a handle's file, stopping after an `IO_INTERRUPT` byte.
    ///
    /// Errors: EBADF for an invalid handle; EIO at a `WANT_ERROR` byte (the bytes
    /// before it are written).
    pub fn awrite(&mut self, fd: isize, buffer: &[u8]) -> (r: Result<usize, i32>)
        requires
            old(self).wf(),
        ensures
            final(self).wf(),
            final(self).handles() == old(self).handles(),
            match handle_target(old(self).files(), old(self).handles(), fd) {
                None => r == Err::<usize, i32>(EBADF) && final(self).files() == old(self).files()
                    && final(self).errno() == EBADF,
                Some((i, _)) => {
                    let (n, err) = scan(buffer@, 0, buffer@.len());
                    &&& final(self).files() == old(self).files().update(
                        i,
                        (old(self).files()[i].0, old(self).files()[i].1 + buffer@.subrange(0, n as int)),
                    )
                    &&& if err {
                        r == Err::<usize, i32>(EIO) && final(self).errno() == EIO
                    } else {
                        r == Ok::<usize, i32>(n as usize) && final(self).errno() == 0
                    }
                },
            },
    {
        self.io_errno = 0;
        if fd < 0 || fd as usize >= self.handles.len() {
            self.io_errno = EBADF;
            return Err(EBADF);
        }
        let h = fd as usize;
        let vfs_index = self.handles[h].0;
        if vfs_index >= self.files.len() {
            self.io_errno = EBADF;
            return Err(EBADF);
        }
        let (nm, mut buf) = self.files.remove(vfs_index);
        let ghost b0 = buf@;
        let mut k: usize = 0;
        let mut err = false;
        proof { lemma_scan_bounds(buffer@, 0, buffer@.len()); }
        while k < buffer.len()
            invariant_except_break
                !err,
                scan(buffer@, k as nat, buffer@.len()) == scan(buffer@, 0, buffer@.len()),
            invariant
                k <= buffer@.len(),
                buf@ == b0 + buffer@.subrange(0, k as int),
            ensures
                k <= buffer@.len(),
                buf@ == b0 + buffer@.subrange(0, k as int),
                scan(buffer@, 0, buffer@.len()) == (k as nat, err),
            decreases buffer@.len() - k,
        {
            let ch = buffer[k];
            if ch == WANT_ERROR_BYTE {
                err = true;
                break;
            }
            buf.push(ch);
            k = k + 1;
            assert(buf@ =~= b0 + buffer@.subrange(0, k as int));
            if ch == IO_INTERRUPT_BYTE {
                break;
            }
        }
        let ghost nmv = nm@;
        self.files.insert(vfs_index, (nm, buf));
        proof {
            assert(self.files() =~= old(self).files().update(
                vfs_index as int,
                (nmv, b0 + buffer@.subrange(0, k as int)),
            ));
            assert forall|q: int|
                0 <= q < self.handles().len() && (#[trigger] self.handles()[q]).0 < self.files().len()
                    implies self.handles()[q].1 <= self.files()[self.handles()[q].0 as int].1.len() by {
                assert(old(self).handles()[q] == self.handles()[q]);
            }
        }
        if err {
            self.io_errno = EIO;
            return Err(EIO);
        }
        Ok(k)
    }

    /// Close a handle: it no longer designates a file.
    ///
    /// Errors with EBADF for a handle that was never opened.
    pub fn aclose(&mut self, fd: isize) -> (r: Result<(), i32>)
        requires
            old(self).wf(),
        ensures
            final(self).wf(),
            final(self).files() == old(self).files(),
            if 0 <= fd < old(self).handles().len() {
                &&& r is Ok
                &&& final(self).handles() == old(self).handles().update(
                    fd as int,
                    (usize::MAX, old(self).handles()[fd as int].1),
                )
                &&& final(self).errno() == 0
            } else {
                r == Err::<(), i32>(EBADF) && final(self).handles() == old(self).handles() && final(self).errno()
                    == EBADF
            },
    {
        self.io_errno = 0;
        if fd < 0 || fd as usize >= self.handles.len() {
            self.io_errno = EBADF;
            return Err(EBADF);
        }
        let h = fd as usize;
        let pos = self.handles[h].1;
        let _nf = self.files.len();
        self.handles.set(h, (usize::MAX, pos));
        proof {
            assert forall|q: int|
                0 <= q < self.handles().len() implies (#[trigger] self.handles()[q]).0 < self.files().len()
                    || self.handles()[q].0 == usize::MAX by {
                if q != h {
                    assert(self.handles()[q] == old(self).handles()[q]);
                }
            }
            assert forall|q: int|
                0 <= q < self.handles().len() && (#[trigger] self.handles()[q]).0 < self.files().len()
                    implies self.handles()[q].1 <= self.files()[self.handles()[q].0 as int].1.len() by {
                if q != h {
                    assert(self.handles()[q] == old(self).handles()[q]);
                }
            }
        }
        Ok(())
    }

    /// The number of handles opened so far.
    pub fn handles_len(&self) -> (r: usize)
        ensures
            r == self.handles().len(),
    {
        self.handles.len()
    }

    /// The errno of the last operation.
    pub fn get_errno(&self) -> (r: i32)
        ensures
            r == self.errno(),
    {
        self.io_errno
    }

    /// Create a value node: a file named `value.{n}` holding `value`, where `n`
    /// is the number of files before; returns `n`.
    pub fn dag_value_node(&mut self, value: &[u8], explain: &str) -> (r: isize)
        requires
            old(self).wf(),
            old(self).files().len() < isize::MAX,
        ensures
            final(self).wf(),
            r == old(self).files().len(),
            final(self).files() == old(self).files().push(
                ("value."@ + decimal_nat(old(self).files().len()), value@),
            ),
            final(self).handles() == old(self).handles(),
            final(self).errno() == 0,
    {
        self.io_errno = 0;
        let handle = self.files.len();
        let mut name = String::from_str("value.");
        crate::text::push_decimal_u64(&mut name, handle as u64);
        proof { reveal_strlit("value."); }
        let mut content: Vec<u8> = Vec::new();
        let mut k: usize = 0;
        while k < value.len()
            invariant
                k <= value@.len(),
                content@ == value@.subrange(0, k as int),
            decreases value@.len() - k,
        {
            content.push(value[k]);
            k = k + 1;
            assert(content@ =~= value@.subrange(0, k as int));
        }
        assert(value@.subrange(0, k as int) =~= value@);
        let ghost nm = name@;
        let ghost cv = content@;
        self.files.push((name, content));
        let _n = self.files.len();
        proof {
            assert(self.files() =~= old(self).files().push((nm, cv)));
            self.lemma_push_file_wf(*old(self), (nm, cv));
        }
        handle as isize
    }
}

impl Default for Vfs {
    fn default() -> (v: Self)
        ensures
            v.wf(),
            v.files() == Seq::<(Seq<char>, Seq<u8>)>::empty(),
            v.handles() == Seq::<(usize, usize)>::empty(),
            v.errno() == 0,
    {
        Self::new()
    }
}

/// A writer that appends to a file of the virtual file system (for value nodes).
#[derive(Debug)]
pub struct VfsWriter {
    filename: String,
}

impl VfsWriter {
    /// The name of the file written.
    pub closed spec fn spec_filename(self) -> Seq<char> {
        self.filename@
    }

    /// A writer of the file `filename`.
    pub fn new(filename: String) -> (w: Self)
        ensures
            w.spec_filename() == filename@,
    {
        Self { filename }
    }

    /// Append `buf` to the file; returns its length.
    ///
    /// Errors with `Other` when there is no such file.
    pub fn write(&mut self, vfs: &mut Vfs, buf: &[u8]) -> (r: Result<usize, crate::io_kind::IoErrorKind>)
        requires
            old(vfs).wf(),
        ensures
            final(vfs).wf(),
            final(self).spec_filename() == old(self).spec_filename(),
            final(vfs).handles() == old(vfs).handles(),
            match find_file(old(vfs).files(), old(self).spec_filename()) {
                Some(i) => r == Ok::<usize, crate::io_kind::IoErrorKind>(buf@.len() as usize) && final(vfs).files()
                    == old(vfs).files().update(i, (old(vfs).files()[i].0, old(vfs).files()[i].1 + buf@)),
                None => r == Err::<usize, crate::io_kind::IoErrorKind>(crate::io_kind::IoErrorKind::Other)
                    && final(vfs).files() == old(vfs).files(),
            },
    {
        match vfs.append_to_file(self.filename.as_str(), buf) {
            Ok(()) => Ok(buf.len()),
            Err(_) => Err(crate::io_kind::IoErrorKind::Other),
        }
    }

    /// Flushing does nothing.
    pub fn flush(&mut self) -> (r: Result<(), crate::io_kind::IoErrorKind>)
        ensures
            r is Ok,
    {
        Ok(())
    }

    /// Close the writer; the file system needs no closing.
    pub fn close(self) -> (r: Result<(), crate::io_kind::IoErrorKind>)
        ensures
            r is Ok,
    {
        Ok(())
    }
}

} // verus!
