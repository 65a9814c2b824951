//! The actor runtime interface, and a runtime over the virtual file system for
//! testing actors.
//!
//! All I/O operations return `Result` with a POSIX errno as the error.

use vstd::prelude::*;

use crate::vfs::{Vfs, EBADF, EIO, EINVAL, ENOENT, find_file, handle_target, scan};

verus! {

/// Too many open files.
pub const EMFILE: i32 = 24;

/// Function not implemented.
pub const ENOSYS: i32 = 38;

/// Actor runtime operations: an abstraction over the I/O and actor runtime
/// functions of the host (FFI for WASM actors, native Rust for tests and CLI).
pub trait ActorRuntime {
    /// Open a stream for reading; returns the file descriptor or an errno.
    fn open_read(&mut self, name: &str) -> (r: Result<isize, i32>)
        ensures
            old(self).admits_open_read(name@, r),
    ;

    /// Open a stream for writing; returns the file descriptor or an errno.
    fn open_write(&mut self, name: &str) -> (r: Result<isize, i32>)
        ensures
            old(self).admits_open_write(name@, r),
    ;

    /// Whether this runtime, in its present state, may answer opening the stream `name`
    /// for reading with `r`. A runtime that does not say admits every answer.
    open spec fn admits_open_read(&self, name: Seq<char>, r: Result<isize, i32>) -> bool {
        true
    }

    /// Whether this runtime, in its present state, may answer opening the stream `name`
    /// for writing with `r`. A runtime that does not say admits every answer.
    open spec fn admits_open_write(&self, name: Seq<char>, r: Result<isize, i32>) -> bool {
        true
    }

    /// Whether this runtime, in its present state, may answer closing `fd` with `r`.
    /// A runtime that does not say admits every answer.
    open spec fn admits_close(&self, fd: isize, r: Result<(), i32>) -> bool {
        true
    }

    /// Whether `h` may be this runtime's node handle. A runtime that does not say admits
    /// every handle.
    open spec fn admits_node_handle(&self, h: i64) -> bool {
        true
    }

    /// Whether this runtime, in its present state, may answer listing `dir` with `r`
    /// (the paths, or an errno). A runtime that does not say admits every answer.
    open spec fn admits_listdir(&self, dir: Seq<char>, r: Result<Seq<Seq<char>>, i32>) -> bool {
        true
    }

    /// Whether this runtime, in its present state, may answer a read of descriptor
    /// `fd` into a buffer that held `before` with `r`, leaving `after` in the buffer.
    /// A runtime that does not say admits every answer.
    open spec fn admits_read(&self, fd: isize, before: Seq<u8>, after: Seq<u8>, r: Result<usize, i32>) -> bool {
        true
    }

    /// Whether this runtime, in its present state, may answer a write of `data` to
    /// descriptor `fd` with `r`. A runtime that does not say admits every answer.
    open spec fn admits_write(&self, fd: isize, data: Seq<u8>, r: Result<usize, i32>) -> bool {
        true
    }

    /// Read into the buffer; returns the bytes read (at most the buffer's length)
    /// or an errno.
    fn aread(&mut self, fd: isize, buffer: &mut [u8]) -> (r: Result<usize, i32>)
        ensures
            r matches Ok(n) ==> n <= old(buffer)@.len(),
            old(self).admits_read(fd, old(buffer)@, final(buffer)@, r),
    ;

    /// Write from the buffer; returns the bytes written (at most the buffer's
    /// length) or an errno.
    fn awrite(&mut self, fd: isize, buffer: &[u8]) -> (r: Result<usize, i32>)
        ensures
            r matches Ok(n) ==> n <= buffer@.len(),
            old(self).admits_write(fd, buffer@, r),
    ;

    /// Close a file descriptor.
    fn aclose(&mut self, fd: isize) -> (r: Result<(), i32>)
        ensures
            old(self).admits_close(fd, r),
    ;

    /// This actor's node handle (identity).
    fn node_handle(&self) -> (r: i64)
        ensures
            self.admits_node_handle(r),
    ;

    /// The paths under a directory, or an errno.
    fn listdir(&mut self, dir: &str) -> (r: Result<Vec<String>, i32>)
        ensures
            old(self).admits_listdir(dir@, listing_view(r)),
    ;

    /// Self-suspend until the host resumes this actor; may do nothing.
    fn suspend_and_wait(&mut self);
}

/// A directory listing by the characters of its paths.
pub open spec fn listing_view(r: Result<Vec<String>, i32>) -> Result<Seq<Seq<char>>, i32> {
    match r {
        Ok(v) => Ok(v@.map_values(|s: String| s@)),
        Err(e) => Err(e),
    }
}

/// How the test runtime answers opening `name` for reading: the next descriptor when a
/// file has that name, else ENOENT; EMFILE when no more descriptors can be numbered.
pub open spec fn vfs_open_read_answer(
    files: Seq<(Seq<char>, Seq<u8>)>,
    handles: Seq<(usize, usize)>,
    name: Seq<char>,
    r: Result<isize, i32>,
) -> bool {
    if handles.len() < isize::MAX {
        match find_file(files, name) {
            Some(_) => r == Ok::<isize, i32>(handles.len() as isize),
            None => r == Err::<isize, i32>(ENOENT),
        }
    } else {
        r == Err::<isize, i32>(EMFILE)
    }
}

/// How the test runtime answers opening `name` for writing: EINVAL when the name holds
/// `WANT_ERROR`, else the next descriptor; EMFILE when no more descriptors can be numbered.
pub open spec fn vfs_open_write_answer(handles: Seq<(usize, usize)>, name: Seq<char>, r: Result<isize, i32>) -> bool {
    if handles.len() < isize::MAX {
        if name.contains(crate::vfs::WANT_ERROR) {
            r == Err::<isize, i32>(EINVAL)
        } else {
            r == Ok::<isize, i32>(handles.len() as isize)
        }
    } else {
        r == Err::<isize, i32>(EMFILE)
    }
}

/// How the test runtime answers closing `fd`: success for a descriptor it has numbered,
/// else EBADF.
pub open spec fn vfs_close_answer(handles: Seq<(usize, usize)>, fd: isize, r: Result<(), i32>) -> bool {
    if 0 <= fd < handles.len() {
        r is Ok
    } else {
        r == Err::<(), i32>(EBADF)
    }
}

/// How `Vfs::aread` answers a read of `fd` into a buffer that held `before`: EBADF for
/// a descriptor that designates no open file; else the bytes from the handle's position,
/// up to the buffer's length and the end of the file, copied to the front of the buffer
/// (`after`), with the count, or EIO where the scan meets the injected error.
pub open spec fn vfs_read_answer(
    files: Seq<(Seq<char>, Seq<u8>)>,
    handles: Seq<(usize, usize)>,
    fd: isize,
    before: Seq<u8>,
    after: Seq<u8>,
    r: Result<usize, i32>,
) -> bool {
    match handle_target(files, handles, fd) {
        None => r == Err::<usize, i32>(EBADF),
        Some((i, pos)) => {
            let data = files[i].1;
            let limit = if before.len() < data.len() - pos {
                before.len()
            } else {
                (data.len() - pos) as nat
            };
            let (n, err) = scan(data.subrange(pos as int, data.len() as int), 0, limit);
            &&& after.subrange(0, n as int) == data.subrange(pos as int, (pos + n) as int)
            &&& if err {
                r == Err::<usize, i32>(EIO)
            } else {
                r == Ok::<usize, i32>(n as usize)
            }
        },
    }
}

/// How `Vfs::awrite` answers a write of `data` to `fd`: EBADF for a descriptor that
/// designates no open file; else the count of bytes appended, or EIO where the scan
/// meets the injected error.
pub open spec fn vfs_write_answer(
    files: Seq<(Seq<char>, Seq<u8>)>,
    handles: Seq<(usize, usize)>,
    fd: isize,
    data: Seq<u8>,
    r: Result<usize, i32>,
) -> bool {
    match handle_target(files, handles, fd) {
        None => r == Err::<usize, i32>(EBADF),
        Some(_) => {
            let (n, err) = scan(data, 0, data.len());
            if err {
                r == Err::<usize, i32>(EIO)
            } else {
                r == Ok::<usize, i32>(n as usize)
            }
        },
    }
}

/// Runtime whose operations go to the host through FFI (WASM actors).
#[derive(Debug, Clone, Copy)]
pub struct FfiActorRuntime;

impl FfiActorRuntime {
    /// The runtime of the current actor.
    pub fn new() -> (r: Self) {
        Self
    }

    /// Convert an FFI result to a `Result`: a negative result is an error, whose
    /// errno is the host's `errno` at that point.
    pub fn to_result(result: isize, errno: i32) -> (r: Result<usize, i32>)
        ensures
            result < 0 ==> r == Err::<usize, i32>(errno),
            result >= 0 ==> r == Ok::<usize, i32>(result as usize),
    {
        if result < 0 {
            Err(errno)
        } else {
            Ok(result as usize)
        }
    }
}

impl Default for FfiActorRuntime {
    fn default() -> (r: Self) {
        Self::new()
    }
}

/// A runtime over the virtual file system that also records closes.
pub struct VfsActorRuntime {
    vfs: Vfs,
    closed: Vec<isize>,
}

impl VfsActorRuntime {
    #[verifier::type_invariant]
    spec fn inv(self) -> bool {
        self.vfs.wf()
    }

    /// The file system.
    pub closed spec fn spec_vfs(self) -> Vfs {
        self.vfs
    }

    /// The descriptors closed so far, in order.
    pub closed spec fn closes(self) -> Seq<isize> {
        self.closed@
    }

    /// A runtime over an empty file system.
    pub fn new() -> (r: Self)
        ensures
            r.spec_vfs().files() == Seq::<(Seq<char>, Seq<u8>)>::empty(),
            r.spec_vfs().handles() == Seq::<(usize, usize)>::empty(),
            r.closes() == Seq::<isize>::empty(),
    {
        Self { vfs: Vfs::new(), closed: Vec::new() }
    }

    /// The file system, to inspect.
    pub fn vfs(&self) -> (r: &Vfs)
        ensures
            *r == self.spec_vfs(),
            r.wf(),
    {
        proof { use_type_invariant(self); }
        &self.vfs
    }

    fn take_vfs(&mut self) -> (v: Vfs)
        ensures
            v == old(self).spec_vfs(),
            v.wf(),
            final(self).closes() == old(self).closes(),
            final(self).spec_vfs().files() == Seq::<(Seq<char>, Seq<u8>)>::empty(),
    {
        proof { use_type_invariant(&*self); }
        let mut v = Vfs::new();
        std::mem::swap(&mut v, &mut self.vfs);
        v
    }

    /// Add a file.
    pub fn add_file(&mut self, name: String, data: Vec<u8>)
        ensures
            final(self).spec_vfs().files() == old(self).spec_vfs().files().push((name@, data@)),
            final(self).spec_vfs().handles() == old(self).spec_vfs().handles(),
            final(self).closes() == old(self).closes(),
    {
        let mut v = self.take_vfs();
        v.add_file(name, data);
        self.vfs = v;
    }

    /// The contents of the first file named `name`.
    pub fn get_file(&mut self, name: &str) -> (r: Result<Vec<u8>, String>)
        ensures
            final(self).spec_vfs().files() == old(self).spec_vfs().files(),
            final(self).spec_vfs().handles() == old(self).spec_vfs().handles(),
            final(self).closes() == old(self).closes(),
            match find_file(old(self).spec_vfs().files(), name@) {
                Some(i) => r matches Ok(v) && v@ == old(self).spec_vfs().files()[i].1,
                None => r is Err,
            },
    {
        let mut v = self.take_vfs();
        let r = v.get_file(name);
        self.vfs = v;
        r
    }

    /// Remove all files and handles.
    pub fn clear_mocks(&mut self)
        ensures
            final(self).spec_vfs().files() == Seq::<(Seq<char>, Seq<u8>)>::empty(),
            final(self).spec_vfs().handles() == Seq::<(usize, usize)>::empty(),
            final(self).closes() == old(self).closes(),
    {
        let mut v = self.take_vfs();
        v.clear_mocks();
        self.vfs = v;
    }

    /// How many times `aclose` was called.
    pub fn close_call_count(&self) -> (r: usize)
        ensures
            r == self.closes().len(),
    {
        self.closed.len()
    }

    /// Whether `aclose` was called on `fd`.
    pub fn was_closed(&self, fd: isize) -> (r: bool)
        ensures
            r == self.closes().contains(fd),
    {
        let mut i: usize = 0;
        while i < self.closed.len()
            invariant
                i <= self.closed@.len(),
                forall|j: int| 0 <= j < i ==> self.closed@[j] != fd,
            decreases self.closed@.len() - i,
        {
            if self.closed[i] == fd {
                return true;
            }
            i = i + 1;
        }
        false
    }
}

impl ActorRuntime for VfsActorRuntime {
    /// Opening for reading answers as `vfs_open_read_answer` says.
    open spec fn admits_open_read(&self, name: Seq<char>, r: Result<isize, i32>) -> bool {
        vfs_open_read_answer(self.spec_vfs().files(), self.spec_vfs().handles(), name, r)
    }

    /// Opening for writing answers as `vfs_open_write_answer` says.
    open spec fn admits_open_write(&self, name: Seq<char>, r: Result<isize, i32>) -> bool {
        vfs_open_write_answer(self.spec_vfs().handles(), name, r)
    }

    /// Closing answers as `vfs_close_answer` says.
    open spec fn admits_close(&self, fd: isize, r: Result<(), i32>) -> bool {
        vfs_close_answer(self.spec_vfs().handles(), fd, r)
    }

    /// The test runtime acts as node 0.
    open spec fn admits_node_handle(&self, h: i64) -> bool {
        h == 0
    }

    /// Listing directories is not supported: ENOSYS.
    open spec fn admits_listdir(&self, dir: Seq<char>, r: Result<Seq<Seq<char>>, i32>) -> bool {
        r == Err::<Seq<Seq<char>>, i32>(ENOSYS)
    }

    /// A read answers as `Vfs::aread` does on the present files and handles.
    open spec fn admits_read(&self, fd: isize, before: Seq<u8>, after: Seq<u8>, r: Result<usize, i32>) -> bool {
        vfs_read_answer(self.spec_vfs().files(), self.spec_vfs().handles(), fd, before, after, r)
    }

    /// A write answers as `Vfs::awrite` does on the present files and handles.
    open spec fn admits_write(&self, fd: isize, data: Seq<u8>, r: Result<usize, i32>) -> bool {
        vfs_write_answer(self.spec_vfs().files(), self.spec_vfs().handles(), fd, data, r)
    }

    /// Opens the first file named `name`; ENOENT if none, EMFILE when no more
    /// descriptors can be numbered.
    fn open_read(&mut self, name: &str) -> (r: Result<isize, i32>)
        ensures
            final(self).closes() == old(self).closes(),
            final(self).spec_vfs().files() == old(self).spec_vfs().files(),
            old(self).spec_vfs().handles().len() < isize::MAX ==> match find_file(old(self).spec_vfs().files(), name@) {
                Some(i) => r == Ok::<isize, i32>(old(self).spec_vfs().handles().len() as isize)
                    && final(self).spec_vfs().handles() == old(self).spec_vfs().handles().push((i as usize, 0usize)),
                None => r == Err::<isize, i32>(ENOENT),
            },
            old(self).spec_vfs().handles().len() >= isize::MAX ==> r == Err::<isize, i32>(EMFILE),
    {
        let mut v = self.take_vfs();
        if v.handles_len() >= isize::MAX as usize {
            self.vfs = v;
            return Err(EMFILE);
        }
        let r = v.open_read(name);
        self.vfs = v;
        r
    }

    /// Creates an empty file named `name` and opens it; EINVAL if `name` contains
    /// `WANT_ERROR`, EMFILE when no more descriptors can be numbered.
    fn open_write(&mut self, name: &str) -> (r: Result<isize, i32>)
        ensures
            final(self).closes() == old(self).closes(),
            old(self).spec_vfs().handles().len() < isize::MAX ==> if name@.contains(crate::vfs::WANT_ERROR) {
                r == Err::<isize, i32>(EINVAL) && final(self).spec_vfs().files() == old(self).spec_vfs().files()
            } else {
                &&& r == Ok::<isize, i32>(old(self).spec_vfs().handles().len() as isize)
                &&& final(self).spec_vfs().files() == old(self).spec_vfs().files().push((name@, Seq::<u8>::empty()))
            },
            old(self).spec_vfs().handles().len() >= isize::MAX ==> r == Err::<isize, i32>(EMFILE),
    {
        let mut v = self.take_vfs();
        if v.handles_len() >= isize::MAX as usize {
            self.vfs = v;
            return Err(EMFILE);
        }
        let r = v.open_write(name);
        self.vfs = v;
        r
    }

    /// Reads as `Vfs::aread` does.
    fn aread(&mut self, fd: isize, buffer: &mut [u8]) -> (r: Result<usize, i32>)
        ensures
            final(self).closes() == old(self).closes(),
            final(self).spec_vfs().files() == old(self).spec_vfs().files(),
    {
        let mut v = self.take_vfs();
        let r = v.aread(fd, buffer);
        proof {
            if let Some((i, pos)) = handle_target(old(self).spec_vfs().files(), old(self).spec_vfs().handles(), fd) {
                let data = old(self).spec_vfs().files()[i].1;
                let limit = if old(buffer)@.len() < data.len() - pos {
                    old(buffer)@.len()
                } else {
                    (data.len() - pos) as nat
                };
                let (n, err) = scan(data.subrange(pos as int, data.len() as int), 0, limit);
                crate::vfs::lemma_scan_bounds(data.subrange(pos as int, data.len() as int), 0, limit);
                assert(buffer@.subrange(0, n as int) =~= data.subrange(pos as int, (pos + n) as int));
            }
        }
        self.vfs = v;
        r
    }

    /// Writes as `Vfs::awrite` does.
    fn awrite(&mut self, fd: isize, buffer: &[u8]) -> (r: Result<usize, i32>)
        ensures
            final(self).closes() == old(self).closes(),
            final(self).spec_vfs().handles() == old(self).spec_vfs().handles(),
            match handle_target(old(self).spec_vfs().files(), old(self).spec_vfs().handles(), fd) {
                None => final(self).spec_vfs().files() == old(self).spec_vfs().files(),
                Some((i, _)) => {
                    let (n, err) = scan(buffer@, 0, buffer@.len());
                    final(self).spec_vfs().files() == old(self).spec_vfs().files().update(
                        i,
                        (
                            old(self).spec_vfs().files()[i].0,
                            old(self).spec_vfs().files()[i].1 + buffer@.subrange(0, n as int),
                        ),
                    )
                },
            },
    {
        let mut v = self.take_vfs();
        let r = v.awrite(fd, buffer);
        proof {
            crate::vfs::lemma_scan_bounds(buffer@, 0, buffer@.len());
        }
        self.vfs = v;
        r
    }

    /// Records the close, then closes as `Vfs::aclose` does.
    fn aclose(&mut self, fd: isize) -> (r: Result<(), i32>)
        ensures
            final(self).closes() == old(self).closes().push(fd),
            final(self).spec_vfs().files() == old(self).spec_vfs().files(),
            (0 <= fd < old(self).spec_vfs().handles().len()) ==> r is Ok,
            !(0 <= fd < old(self).spec_vfs().handles().len()) ==> r == Err::<(), i32>(EBADF),
    {
        proof { use_type_invariant(&*self); }
        let mut c: Vec<isize> = Vec::new();
        std::mem::swap(&mut c, &mut self.closed);
        c.push(fd);
        self.closed = c;
        let mut v = self.take_vfs();
        let r = v.aclose(fd);
        self.vfs = v;
        r
    }

    /// The test runtime acts as node 0.
    fn node_handle(&self) -> (r: i64)
        ensures
            r == 0,
    {
        0
    }

    /// Listing directories is not supported: ENOSYS.
    fn listdir(&mut self, dir: &str) -> (r: Result<Vec<String>, i32>)
        ensures
            r matches Err(e) && e == ENOSYS,
    {
        Err(ENOSYS)
    }

    /// Suspending does nothing in tests.
    fn suspend_and_wait(&mut self) {
    }
}

} // verus!
