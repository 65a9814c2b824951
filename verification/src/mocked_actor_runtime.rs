//! Mocked host functions for testing actors: files and handles as the host
//! would keep them. Stream `name` with index `i` is the file `name.i`.

use vstd::prelude::*;
use vstd::string::StringExecFns;

use crate::text::{contains_char, decimal_nat, str_eq};
use crate::vfs::{find_file, lemma_find_file, vfs_wf, WANT_ERROR};

verus! {

/// Files and handles of the mocked host.
pub struct MockedRuntime {
    files: Vec<(String, Vec<u8>)>,
    handles: Vec<(usize, usize)>,
}

/// The name of stream `name` with index `index`: `name.index`.
pub open spec fn stream_name(name: Seq<char>, index: nat) -> Seq<char> {
    name + "."@ + decimal_nat(index)
}

impl MockedRuntime {
    /// The files: name and contents.
    pub closed spec fn files(self) -> Seq<(Seq<char>, Seq<u8>)> {
        self.files@.map_values(|f: (String, Vec<u8>)| (f.0@, f.1@))
    }

    /// The handles: file index (`usize::MAX` once closed) and position.
    pub closed spec fn handles(self) -> Seq<(usize, usize)> {
        self.handles@
    }

    /// Every handle designates a file or is closed, within its file.
    pub open spec fn wf(self) -> bool {
        vfs_wf(self.files(), self.handles())
    }

    /// No files and no handles.
    pub fn new() -> (m: Self)
        ensures
            m.wf(),
            m.files() == Seq::<(Seq<char>, Seq<u8>)>::empty(),
            m.handles() == Seq::<(usize, usize)>::empty(),
    {
        let m = Self { files: Vec::new(), handles: Vec::new() };
        assert(m.files() =~= Seq::<(Seq<char>, Seq<u8>)>::empty());
        m
    }

    fn find(&self, name: &str) -> (r: Option<usize>)
        ensures
            r is None ==> find_file(self.files(), name@) is None,
            r matches Some(i) ==> i < self.files().len() && find_file(self.files(), name@) == Some(i as int),
    {
        let mut i: usize = 0;
        while i < self.files.len()
            invariant
                i <= self.files@.len(),
                forall|j: int| 0 <= j < i ==> self.files()[j].0 != name@,
            decreases self.files@.len() - i,
        {
            if str_eq(self.files[i].0.as_str(), name) {
                proof { lemma_find_file(self.files(), name@, i as int); }
                return Some(i);
            }
            i = i + 1;
        }
        None
    }

    proof fn lemma_push_file(self, prev: MockedRuntime, f: (Seq<char>, Seq<u8>))
        requires
            prev.wf(),
            self.files() == prev.files().push(f),
            self.handles() == prev.handles(),
            self.files().len() <= usize::MAX,
        ensures
            self.wf(),
    {
        assert forall|k: int|
            0 <= k < self.handles().len() && (#[trigger] self.handles()[k]).0 < self.files().len()
                implies self.handles()[k].1 <= self.files()[self.handles()[k].0 as int].1.len() by {
            if self.handles()[k].0 < prev.files().len() {
                assert(self.files()[self.handles()[k].0 as int] == prev.files()[self.handles()[k].0 as int]);
            }
        }
    }

    proof fn lemma_push_handle(self, prev: MockedRuntime, i: usize)
        requires
            prev.wf(),
            self.files() == prev.files(),
            self.handles() == prev.handles().push((i, 0usize)),
            i < self.files().len(),
        ensures
            self.wf(),
    {
        assert forall|k: int|
            0 <= k < self.handles().len() implies (#[trigger] self.handles()[k]).0 < self.files().len()
                || self.handles()[k].0 == usize::MAX by {
            if k < prev.handles().len() {
                assert(self.handles()[k] == prev.handles()[k]);
            }
        }
    }
}

/// Remove all files and handles.
pub fn clear_mocks(mocks: &mut MockedRuntime)
    ensures
        final(mocks).wf(),
        final(mocks).files() == Seq::<(Seq<char>, Seq<u8>)>::empty(),
        final(mocks).handles() == Seq::<(usize, usize)>::empty(),
{
    mocks.files.clear();
    mocks.handles.clear();
    assert(mocks.files() =~= Seq::<(Seq<char>, Seq<u8>)>::empty());
}

/// Add a file.
pub fn add_file(mocks: &mut MockedRuntime, name: String, buffer: Vec<u8>)
    requires
        old(mocks).wf(),
    ensures
        final(mocks).wf(),
        final(mocks).files() == old(mocks).files().push((name@, buffer@)),
        final(mocks).handles() == old(mocks).handles(),
{
    let ghost f = (name@, buffer@);
    mocks.files.push((name, buffer));
    let _n = mocks.files.len();
    assert(mocks.files() =~= old(mocks).files().push(f));
    proof { mocks.lemma_push_file(*old(mocks), f); }
}

/// The contents of the first file named `name`.
///
/// Errors with `File not found: {name}` when there is none.
pub fn get_file(mocks: &MockedRuntime, name: &str) -> (r: Result<Vec<u8>, String>)
    ensures
        match find_file(mocks.files(), name@) {
            Some(i) => r matches Ok(v) && v@ == mocks.files()[i].1,
            None => r matches Err(m) && m@ == "File not found: "@ + name@,
        },
{
    match mocks.find(name) {
        Some(i) => Ok(mocks.files[i].1.clone()),
        None => {
            let mut m = String::from_str("File not found: ");
            m.append(name);
            proof { reveal_strlit("File not found: "); }
            Err(m)
        },
    }
}

fn stream_file_name(name: &str, index: u64) -> (r: String)
    ensures
        r@ == stream_name(name@, index as nat),
{
    let mut s = String::from_str(name);
    s.append(".");
    crate::text::push_decimal_u64(&mut s, index);
    proof { reveal_strlit("."); }
    assert(s@ =~= stream_name(name@, index as nat));
    s
}

/// The number of streams named `name`: how many of `name.0`, `name.1`, ... exist
/// in sequence.
pub fn n_of_streams(mocks: &MockedRuntime, name: &str) -> (r: u32)
    requires
        mocks.files().len() < u32::MAX,
    ensures
        r <= mocks.files().len(),
        forall|k: nat| k < r ==> find_file(mocks.files(), #[trigger] stream_name(name@, k)) is Some,
        r < mocks.files().len() ==> find_file(mocks.files(), stream_name(name@, r as nat)) is None,
{
    let n = mocks.files.len();
    let mut count: u32 = 0;
    while (count as usize) < n
        invariant
            n == mocks.files().len(),
            n < u32::MAX,
            count <= n,
            forall|k: nat| k < count ==> find_file(mocks.files(), #[trigger] stream_name(name@, k)) is Some,
        decreases n - count,
    {
        let fname = stream_file_name(name, count as u64);
        if mocks.find(fname.as_str()).is_none() {
            return count;
        }
        count = count + 1;
    }
    count
}

/// Open stream `name` with index `index` for reading; returns the handle, or -1
/// when there is no such file.
pub fn open_read(mocks: &mut MockedRuntime, name: &str, index: usize) -> (r: i32)
    requires
        old(mocks).wf(),
        old(mocks).handles().len() < i32::MAX,
    ensures
        final(mocks).wf(),
        final(mocks).files() == old(mocks).files(),
        match find_file(old(mocks).files(), stream_name(name@, index as nat)) {
            Some(i) => r == old(mocks).handles().len() && final(mocks).handles() == old(mocks).handles().push(
                (i as usize, 0usize),
            ),
            None => r == -1 && final(mocks).handles() == old(mocks).handles(),
        },
{
    let fname = stream_file_name(name, index as u64);
    match mocks.find(fname.as_str()) {
        Some(i) => {
            let fd = mocks.handles.len();
            mocks.handles.push((i, 0));
            proof { mocks.lemma_push_handle(*old(mocks), i); }
            fd as i32
        },
        None => -1,
    }
}

/// Create an empty file named `name` and open it for writing; returns the
/// handle, or -1 when `name` contains `WANT_ERROR`.
pub fn open_write(mocks: &mut MockedRuntime, name: &str) -> (r: i32)
    requires
        old(mocks).wf(),
        old(mocks).handles().len() < i32::MAX,
    ensures
        final(mocks).wf(),
        name@.contains(WANT_ERROR) ==> r == -1 && final(mocks).files() == old(mocks).files()
            && final(mocks).handles() == old(mocks).handles(),
        !name@.contains(WANT_ERROR) ==> r == old(mocks).handles().len() && final(mocks).files() == old(
            mocks,
        ).files().push((name@, Seq::<u8>::empty())) && final(mocks).handles() == old(mocks).handles().push(
            (old(mocks).files().len() as usize, 0usize),
        ),
{
    if contains_char(name, WANT_ERROR) {
        return -1;
    }
    let vfs_index = mocks.files.len();
    let ghost m0 = *mocks;
    mocks.files.push((String::from_str(name), Vec::new()));
    let _n = mocks.files.len();
    assert(mocks.files() =~= old(mocks).files().push((name@, Seq::<u8>::empty())));
    proof { mocks.lemma_push_file(m0, (name@, Seq::<u8>::empty())); }
    let ghost m1 = *mocks;
    let fd = mocks.handles.len();
    mocks.handles.push((vfs_index, 0));
    proof { mocks.lemma_push_handle(m1, vfs_index); }
    fd as i32
}

/// Read from a handle into `buffer` (as much as fits); returns the bytes read,
/// or -1 for an invalid handle.
pub fn aread(mocks: &mut MockedRuntime, fd: usize, buffer: &mut [u8]) -> (r: i32)
    requires
        old(mocks).wf(),
        old(buffer)@.len() <= i32::MAX,
    ensures
        final(mocks).wf(),
        final(mocks).files() == old(mocks).files(),
        !(fd < old(mocks).handles().len() && old(mocks).handles()[fd as int].0 < old(mocks).files().len())
            ==> r == -1 && final(mocks).handles() == old(mocks).handles() && final(buffer)@ == old(buffer)@,
        (fd < old(mocks).handles().len() && old(mocks).handles()[fd as int].0 < old(mocks).files().len()) ==> {
            let h = old(mocks).handles()[fd as int];
            let data = old(mocks).files()[h.0 as int].1;
            let n = if old(buffer)@.len() < data.len() - h.1 { old(buffer)@.len() } else { (data.len() - h.1) as nat };
            &&& r == n
            &&& final(mocks).handles() == old(mocks).handles().update(fd as int, (h.0, (h.1 + n) as usize))
            &&& final(buffer)@ == data.subrange(h.1 as int, h.1 + n) + old(buffer)@.subrange(n as int, old(buffer)@.len() as int)
        },
{
    if fd >= mocks.handles.len() {
        return -1;
    }
    let (vfs_index, pos) = mocks.handles[fd];
    if vfs_index >= mocks.files.len() {
        return -1;
    }
    let data = &mocks.files[vfs_index].1;
    let remaining = data.len() - pos;
    let n = if buffer.len() < remaining { buffer.len() } else { remaining };
    let ghost b0 = buffer@;
    let mut k: usize = 0;
    while k < n
        invariant
            k <= n,
            n <= buffer@.len(),
            pos + n <= data.len(),
            buffer@.len() == b0.len(),
            forall|j: int| 0 <= j < k ==> buffer@[j] == data@[pos + j],
            forall|j: int| k <= j < buffer@.len() ==> buffer@[j] == b0[j],
        decreases n - k,
    {
        buffer[k] = data[pos + k];
        k = k + 1;
    }
    assert(buffer@ =~= data@.subrange(pos as int, (pos + n) as int) + b0.subrange(n as int, b0.len() as int));
    mocks.handles.set(fd, (vfs_index, pos + n));
    proof {
        assert forall|q: int|
            0 <= q < mocks.handles().len() && (#[trigger] mocks.handles()[q]).0 < mocks.files().len()
                implies mocks.handles()[q].1 <= mocks.files()[mocks.handles()[q].0 as int].1.len() by {
            if q != fd {
                assert(mocks.handles()[q] == old(mocks).handles()[q]);
            }
        }
        assert forall|q: int|
            0 <= q < mocks.handles().len() implies (#[trigger] mocks.handles()[q]).0 < mocks.files().len()
                || mocks.handles()[q].0 == usize::MAX by {
            if q != fd {
                assert(mocks.handles()[q] == old(mocks).handles()[q]);
            }
        }
    }
    n as i32
}

/// Append `buffer` to a handle's file; returns its length, or -1 for an invalid
/// handle.
pub fn awrite(mocks: &mut MockedRuntime, fd: usize, buffer: &[u8]) -> (r: i32)
    requires
        old(mocks).wf(),
        buffer@.len() <= i32::MAX,
    ensures
        final(mocks).wf(),
        final(mocks).handles() == old(mocks).handles(),
        !(fd < old(mocks).handles().len() && old(mocks).handles()[fd as int].0 < old(mocks).files().len())
            ==> r == -1 && final(mocks).files() == old(mocks).files(),
        (fd < old(mocks).handles().len() && old(mocks).handles()[fd as int].0 < old(mocks).files().len()) ==> {
            let i = old(mocks).handles()[fd as int].0 as int;
            &&& r == buffer@.len()
            &&& final(mocks).files() == old(mocks).files().update(i, (old(mocks).files()[i].0, old(mocks).files()[i].1 + buffer@))
        },
{
    if fd >= mocks.handles.len() {
        return -1;
    }
    let vfs_index = mocks.handles[fd].0;
    if vfs_index >= mocks.files.len() {
        return -1;
    }
    let (nm, mut buf) = mocks.files.remove(vfs_index);
    let ghost b0 = buf@;
    let mut k: usize = 0;
    while k < buffer.len()
        invariant
            k <= buffer@.len(),
            buf@ == b0 + buffer@.subrange(0, k as int),
        decreases buffer@.len() - k,
    {
        buf.push(buffer[k]);
        k = k + 1;
        assert(buf@ =~= b0 + buffer@.subrange(0, k as int));
    }
    assert(buffer@.subrange(0, k as int) =~= buffer@);
    let ghost nmv = nm@;
    mocks.files.insert(vfs_index, (nm, buf));
    proof {
        assert(mocks.files() =~= old(mocks).files().update(vfs_index as int, (nmv, b0 + buffer@)));
        assert forall|q: int|
            0 <= q < mocks.handles().len() && (#[trigger] mocks.handles()[q]).0 < mocks.files().len()
                implies mocks.handles()[q].1 <= mocks.files()[mocks.handles()[q].0 as int].1.len() by {
            assert(old(mocks).handles()[q] == mocks.handles()[q]);
        }
    }
    buffer.len() as i32
}

/// Close a handle; returns 0, or -1 for a handle never opened.
pub fn aclose(mocks: &mut MockedRuntime, fd: usize) -> (r: i32)
    requires
        old(mocks).wf(),
    ensures
        final(mocks).wf(),
        final(mocks).files() == old(mocks).files(),
        fd < old(mocks).handles().len() ==> r == 0 && final(mocks).handles() == old(mocks).handles().update(
            fd as int,
            (usize::MAX, old(mocks).handles()[fd as int].1),
        ),
        fd >= old(mocks).handles().len() ==> r == -1 && final(mocks).handles() == old(mocks).handles(),
{
    if fd >= mocks.handles.len() {
        return -1;
    }
    let pos = mocks.handles[fd].1;
    let _nf = mocks.files.len();
    mocks.handles.set(fd, (usize::MAX, pos));
    proof {
        assert forall|q: int|
            0 <= q < mocks.handles().len() && (#[trigger] mocks.handles()[q]).0 < mocks.files().len()
                implies mocks.handles()[q].1 <= mocks.files()[mocks.handles()[q].0 as int].1.len() by {
            if q != fd {
                assert(mocks.handles()[q] == old(mocks).handles()[q]);
            }
        }
        assert forall|q: int|
            0 <= q < mocks.handles().len() implies (#[trigger] mocks.handles()[q]).0 < mocks.files().len()
                || mocks.handles()[q].0 == usize::MAX by {
            if q != fd {
                assert(mocks.handles()[q] == old(mocks).handles()[q]);
            }
        }
    }
    0
}

} // verus!
