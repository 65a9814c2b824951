//! Key-value buffer storage: named byte buffers.
//!
//! Buffers are held in an arena and named by paths. A `Buffer` is a handle to one
//! buffer of the store; it stays valid when its path is reassigned or the store is
//! destroyed, as a shared buffer would.

use vstd::prelude::*;
use vstd::string::StringExecFns;
use vstd::string::StrSliceExecFns;

use crate::text::{seq_lex_le, str_eq, starts_with, str_lex_le};

verus! {

/// Mode for opening a buffer
#[derive(Debug, Clone, Copy, PartialEq, Eq, Structural)]
pub enum OpenMode {
    /// Read existing buffer, error if not found
    Read,
    /// Create new empty buffer (overwrites if exists)
    Write,
    /// Get existing or create new buffer
    Append,
}

/// Errors that can occur in KV operations
#[derive(Debug)]
pub enum KVError {
    /// Path was not found in the store
    NotFound(String),
}

/// Error type for buffer operations
#[derive(Debug)]
pub enum BufferError {
    /// Buffer operation failed (reserved for bounded or persistent buffers)
    Failed(String),
}

impl KVError {
    /// The display text of this error: `Path not found: {path}`.
    pub fn message(&self) -> (r: String)
        ensures
            r@ == (match self {
                KVError::NotFound(p) => "Path not found: "@ + p@,
            }),
    {
        match self {
            KVError::NotFound(p) => {
                let mut s = String::from_str("Path not found: ");
                s.append(p.as_str());
                proof { reveal_strlit("Path not found: "); }
                s
            },
        }
    }
}

impl BufferError {
    /// The display text of this error: `Buffer error: {msg}`.
    pub fn message(&self) -> (r: String)
        ensures
            r@ == (match self {
                BufferError::Failed(m) => "Buffer error: "@ + m@,
            }),
    {
        match self {
            BufferError::Failed(m) => {
                let mut s = String::from_str("Buffer error: ");
                s.append(m.as_str());
                proof { reveal_strlit("Buffer error: "); }
                s
            },
        }
    }
}

/// Handle to a buffer of a store.
#[derive(Debug, Clone, Copy, PartialEq, Eq, Structural)]
pub struct Buffer {
    index: usize,
}

impl Buffer {
    /// Position of the buffer in the store's arena.
    pub closed spec fn spec_index(self) -> nat {
        self.index as nat
    }
}

/// The index of the first entry named `path`, if any.
pub open spec fn path_index(paths: Seq<(Seq<char>, nat)>, path: Seq<char>) -> Option<int> {
    if exists|i: int| 0 <= i < paths.len() && paths[i].0 == path {
        Some(choose|i: int| 0 <= i < paths.len() && paths[i].0 == path)
    } else {
        None
    }
}

/// The buffer index that `path` names, if any.
pub open spec fn path_target(paths: Seq<(Seq<char>, nat)>, path: Seq<char>) -> Option<nat> {
    match path_index(paths, path) {
        Some(i) => Some(paths[i].1),
        None => None,
    }
}

/// No path occurs twice.
pub open spec fn unique_paths(paths: Seq<(Seq<char>, nat)>) -> bool {
    forall|i: int, j: int| 0 <= i < paths.len() && 0 <= j < paths.len() && i != j ==> paths[i].0 != paths[j].0
}

/// The path table after naming `path` with buffer `b`.
pub open spec fn assign_path(paths: Seq<(Seq<char>, nat)>, path: Seq<char>, b: nat) -> Seq<(Seq<char>, nat)> {
    match path_index(paths, path) {
        Some(i) => paths.update(i, (path, b)),
        None => paths.push((path, b)),
    }
}

/// In-memory store of named buffers.
pub struct MemKV {
    paths: Vec<(String, usize)>,
    buffers: Vec<Vec<u8>>,
}

impl MemKV {
    /// The path table: each path with the index of the buffer it names.
    pub closed spec fn paths(self) -> Seq<(Seq<char>, nat)> {
        self.paths@.map_values(|e: (String, usize)| (e.0@, e.1 as nat))
    }

    /// The contents of every buffer ever created, by index.
    pub closed spec fn buffers(self) -> Seq<Seq<u8>> {
        self.buffers@.map_values(|b: Vec<u8>| b@)
    }

    /// The contents of buffer `b`.
    pub open spec fn contents(self, b: Buffer) -> Seq<u8> {
        self.buffers()[b.spec_index() as int]
    }

    /// Whether `b` is a buffer of this store.
    pub open spec fn valid(self, b: Buffer) -> bool {
        b.spec_index() < self.buffers().len()
    }

    /// Paths are unique and name buffers of the store.
    pub open spec fn wf(self) -> bool {
        &&& unique_paths(self.paths())
        &&& forall|i: int| 0 <= i < self.paths().len() ==> self.paths()[i].1 < self.buffers().len()
    }

    /// Create a new empty store.
    pub fn new() -> (kv: Self)
        ensures
            kv.wf(),
            kv.paths() == Seq::<(Seq<char>, nat)>::empty(),
            kv.buffers() == Seq::<Seq<u8>>::empty(),
    {
        let kv = Self { paths: Vec::new(), buffers: Vec::new() };
        assert(kv.paths() =~= Seq::<(Seq<char>, nat)>::empty());
        assert(kv.buffers() =~= Seq::<Seq<u8>>::empty());
        kv
    }

    fn find_path(&self, path: &str) -> (r: Option<usize>)
        ensures
            r is None ==> path_index(self.paths(), path@) is None,
            r matches Some(i) ==> i < self.paths().len() && self.paths()[i as int].0 == path@,
            self.wf() && r is Some ==> path_index(self.paths(), path@) == Some(r->0 as int),
    {
        let mut i: usize = 0;
        while i < self.paths.len()
            invariant
                i <= self.paths@.len(),
                forall|j: int| 0 <= j < i ==> self.paths()[j].0 != path@,
            decreases self.paths@.len() - i,
        {
            if str_eq(self.paths[i].0.as_str(), path) {
                assert(self.paths()[i as int].0 == path@);
                return Some(i);
            }
            i = i + 1;
        }
        None
    }

    fn new_buffer(&mut self) -> (b: Buffer)
        requires
            old(self).wf(),
        ensures
            final(self).wf(),
            final(self).paths() == old(self).paths(),
            final(self).buffers() == old(self).buffers().push(Seq::<u8>::empty()),
            b.spec_index() == old(self).buffers().len(),
    {
        let index = self.buffers.len();
        self.buffers.push(Vec::new());
        assert(self.buffers() =~= old(self).buffers().push(Seq::<u8>::empty()));
        Buffer { index }
    }

    fn assign(&mut self, path: &str, b: Buffer)
        requires
            old(self).wf(),
            old(self).valid(b),
        ensures
            final(self).wf(),
            final(self).paths() == assign_path(old(self).paths(), path@, b.spec_index()),
            final(self).buffers() == old(self).buffers(),
    {
        match self.find_path(path) {
            Some(i) => {
                self.paths.set(i, (String::from_str(path), b.index));
                assert(self.paths() =~= old(self).paths().update(i as int, (path@, b.spec_index())));
            },
            None => {
                self.paths.push((String::from_str(path), b.index));
                assert(self.paths() =~= old(self).paths().push((path@, b.spec_index())));
            },
        }
    }

    /// Open a buffer at path with given mode.
    ///
    /// - Read: returns the buffer the path names, error if not found
    /// - Write: creates a new empty buffer and names it by the path (replacing any earlier)
    /// - Append: returns the buffer the path names, or creates one as Write does
    pub fn open(&mut self, path: &str, mode: OpenMode) -> (r: Result<Buffer, KVError>)
        requires
            old(self).wf(),
        ensures
            final(self).wf(),
            ({
                let existing = path_target(old(self).paths(), path@);
                let fresh = mode == OpenMode::Write || (mode == OpenMode::Append && existing is None);
                if mode == OpenMode::Read {
                    &&& final(self).paths() == old(self).paths()
                    &&& final(self).buffers() == old(self).buffers()
                    &&& match existing {
                        Some(t) => r matches Ok(b) && b.spec_index() == t,
                        None => r matches Err(KVError::NotFound(p)) && p@ == path@,
                    }
                } else if fresh {
                    &&& r matches Ok(b) && b.spec_index() == old(self).buffers().len()
                    &&& final(self).buffers() == old(self).buffers().push(Seq::<u8>::empty())
                    &&& final(self).paths() == assign_path(old(self).paths(), path@, old(self).buffers().len())
                } else {
                    &&& r matches Ok(b) && b.spec_index() == existing->0
                    &&& final(self).paths() == old(self).paths()
                    &&& final(self).buffers() == old(self).buffers()
                }
            }),
            r matches Ok(b) ==> final(self).valid(b),
    {
        match mode {
            OpenMode::Read => match self.find_path(path) {
                Some(i) => Ok(Buffer { index: self.paths[i].1 }),
                None => Err(KVError::NotFound(String::from_str(path))),
            },
            OpenMode::Write => {
                let b = self.new_buffer();
                self.assign(path, b);
                Ok(b)
            },
            OpenMode::Append => match self.find_path(path) {
                Some(i) => Ok(Buffer { index: self.paths[i].1 }),
                None => {
                    let b = self.new_buffer();
                    self.assign(path, b);
                    Ok(b)
                },
            },
        }
    }

    /// Append data to a buffer. In-memory buffers never fail.
    pub fn append(&mut self, b: Buffer, data: &[u8]) -> (r: Result<(), BufferError>)
        requires
            old(self).wf(),
            old(self).valid(b),
        ensures
            final(self).wf(),
            r is Ok,
            final(self).paths() == old(self).paths(),
            final(self).buffers() == old(self).buffers().update(
                b.spec_index() as int,
                old(self).contents(b) + data@,
            ),
    {
        let mut v: Vec<u8> = Vec::new();
        std::mem::swap(&mut v, &mut self.buffers[b.index]);
        let ghost before = v@;
        let mut i: usize = 0;
        while i < data.len()
            invariant
                i <= data@.len(),
                v@ == before + data@.subrange(0, i as int),
            decreases data@.len() - i,
        {
            v.push(data[i]);
            i = i + 1;
            assert(v@ =~= before + data@.subrange(0, i as int));
        }
        assert(data@.subrange(0, i as int) =~= data@);
        self.buffers.set(b.index, v);
        assert(self.buffers() =~= old(self).buffers().update(b.spec_index() as int, old(self).contents(b) + data@));
        Ok(())
    }

    /// The current length of a buffer.
    pub fn buffer_len(&self, b: Buffer) -> (r: usize)
        requires
            self.valid(b),
        ensures
            r == self.contents(b).len(),
    {
        self.buffers[b.index].len()
    }

    /// The contents of a buffer.
    pub fn buffer_data(&self, b: Buffer) -> (r: &Vec<u8>)
        requires
            self.valid(b),
        ensures
            r@ == self.contents(b),
    {
        &self.buffers[b.index]
    }

    /// Flush a buffer to persistent storage; a no-op in memory.
    pub fn flush_buffer(&self, b: Buffer) -> (r: Result<(), KVError>)
        ensures
            r is Ok,
    {
        Ok(())
    }

    /// Flush the buffer at a path; a no-op in memory.
    pub fn flush(&self, path: &str) -> (r: Result<(), KVError>)
        ensures
            r is Ok,
    {
        Ok(())
    }

    /// Clear all paths. Buffers already handed out keep their contents.
    pub fn destroy(&mut self) -> (r: Result<(), KVError>)
        requires
            old(self).wf(),
        ensures
            final(self).wf(),
            r is Ok,
            final(self).paths() == Seq::<(Seq<char>, nat)>::empty(),
            final(self).buffers() == old(self).buffers(),
    {
        self.paths.clear();
        assert(self.paths() =~= Seq::<(Seq<char>, nat)>::empty());
        Ok(())
    }

    /// List the paths under a directory, sorted. A '/' is appended to `dir_name` when
    /// it does not end with one.
    pub fn listdir(&self, dir_name: &str) -> (r: Result<Vec<String>, KVError>)
        requires
            self.wf(),
        ensures
            r matches Ok(v) && ({
                let prefix = dir_prefix(dir_name@);
                &&& forall|p: Seq<char>| view_contains(v@, p) <==> (has_prefix(p, prefix) && path_target(self.paths(), p) is Some)
                &&& sorted_strings(v@)
                &&& distinct_strings(v@)
            }),
    {
        let prefix = if ends_with_slash(dir_name) {
            String::from_str(dir_name)
        } else {
            let mut p = String::from_str(dir_name);
            p.append("/");
            proof { reveal_strlit("/"); }
            p
        };
        assert(prefix@ == dir_prefix(dir_name@));
        let mut out: Vec<String> = Vec::new();
        let mut i: usize = 0;
        while i < self.paths.len()
            invariant
                self.wf(),
                i <= self.paths@.len(),
                prefix@ == dir_prefix(dir_name@),
                sorted_strings(out@),
                distinct_strings(out@),
                forall|p: Seq<char>| view_contains(out@, p) <==> (has_prefix(p, prefix@) && exists|j: int| 0 <= j < i && self.paths()[j].0 == p),
            decreases self.paths@.len() - i,
        {
            let ghost pi = self.paths()[i as int].0;
            assert(self.paths@[i as int].0@ == pi);
            if starts_with(self.paths[i].0.as_str(), prefix.as_str()) {
                assert(!view_contains(out@, pi)) by {
                    if view_contains(out@, pi) {
                        let j = choose|j: int| 0 <= j < i && self.paths()[j].0 == pi;
                        assert(self.paths()[j].0 == self.paths()[i as int].0);
                    }
                }
                insert_sorted(&mut out, self.paths[i].0.clone());
            }
            i = i + 1;
            assert forall|p: Seq<char>| (has_prefix(p, prefix@) && exists|j: int| 0 <= j < i && self.paths()[j].0 == p) implies view_contains(out@, p) by {
                let j = choose|j: int| 0 <= j < i && self.paths()[j].0 == p;
                if j == i - 1 {
                    assert(p == pi);
                }
            }
        }
        assert forall|p: Seq<char>| (has_prefix(p, prefix@) && path_target(self.paths(), p) is Some) implies view_contains(out@, p) by {
            let j = choose|j: int| 0 <= j < self.paths().len() && self.paths()[j].0 == p;
        }
        assert forall|p: Seq<char>| view_contains(out@, p) implies (has_prefix(p, prefix@) && path_target(self.paths(), p) is Some) by {
            let j = choose|j: int| 0 <= j < i && self.paths()[j].0 == p;
            assert(exists|k: int| 0 <= k < self.paths().len() && self.paths()[k].0 == p);
        }
        Ok(out)
    }
}

/// Write data to the store as a completed buffer: a new buffer at `path` holding `data`.
pub fn write_completed_buffer(kv: &mut MemKV, path: &str, data: &[u8]) -> (r: Result<Buffer, KVError>)
    requires
        old(kv).wf(),
    ensures
        final(kv).wf(),
        r matches Ok(b) && b.spec_index() == old(kv).buffers().len()
            && final(kv).buffers() == old(kv).buffers().push(data@)
            && final(kv).paths() == assign_path(old(kv).paths(), path@, old(kv).buffers().len()),
{
    let b = match kv.open(path, OpenMode::Write) {
        Ok(b) => b,
        Err(e) => { return Err(e); },
    };
    let _ = kv.append(b, data);
    assert(kv.buffers() =~= old(kv).buffers().push(data@));
    let _ = kv.flush_buffer(b);
    Ok(b)
}

/// The directory prefix used by `listdir`: the name with a trailing '/'.
pub open spec fn dir_prefix(dir: Seq<char>) -> Seq<char> {
    if dir.len() > 0 && dir.last() == '/' {
        dir
    } else {
        dir + "/"@
    }
}

/// Whether `p` starts with `prefix`.
pub open spec fn has_prefix(p: Seq<char>, prefix: Seq<char>) -> bool {
    prefix.len() <= p.len() && p.subrange(0, prefix.len() as int) == prefix
}

/// Whether some string of `v` has the characters `p`.
pub open spec fn view_contains(v: Seq<String>, p: Seq<char>) -> bool {
    exists|i: int| 0 <= i < v.len() && v[i]@ == p
}

/// Strings in non-decreasing code point order.
pub open spec fn sorted_strings(v: Seq<String>) -> bool {
    forall|i: int, j: int| 0 <= i < j < v.len() ==> seq_lex_le(v[i]@, v[j]@)
}

/// No two strings have the same characters.
pub open spec fn distinct_strings(v: Seq<String>) -> bool {
    forall|i: int, j: int| 0 <= i < j < v.len() ==> v[i]@ != v[j]@
}

fn ends_with_slash(s: &str) -> (r: bool)
    ensures
        r == (s@.len() > 0 && s@.last() == '/'),
{
    let n = s.unicode_len();
    n > 0 && s.get_char(n - 1) == '/'
}

/// Lexicographic order is total.
pub proof fn lemma_lex_total(a: Seq<char>, b: Seq<char>)
    ensures
        seq_lex_le(a, b) || seq_lex_le(b, a),
    decreases a.len(),
{
    if a.len() > 0 && b.len() > 0 {
        if a[0] == b[0] {
            lemma_lex_total(a.drop_first(), b.drop_first());
        } else {
            assert((a[0] as int) != (b[0] as int));
        }
    }
}

/// Lexicographic order is transitive.
pub proof fn lemma_lex_trans(a: Seq<char>, b: Seq<char>, c: Seq<char>)
    requires
        seq_lex_le(a, b),
        seq_lex_le(b, c),
    ensures
        seq_lex_le(a, c),
    decreases a.len(),
{
    if a.len() > 0 && b.len() > 0 && c.len() > 0 {
        if a[0] == b[0] && b[0] == c[0] {
            lemma_lex_trans(a.drop_first(), b.drop_first(), c.drop_first());
        }
    }
}

/// Inserts `s` into the sorted vector `v` at its place.
fn insert_sorted(v: &mut Vec<String>, s: String)
    requires
        sorted_strings(old(v)@),
        distinct_strings(old(v)@),
        !view_contains(old(v)@, s@),
    ensures
        sorted_strings(final(v)@),
        distinct_strings(final(v)@),
        forall|p: Seq<char>| view_contains(final(v)@, p) <==> (view_contains(old(v)@, p) || p == s@),
{
    let mut k: usize = 0;
    while k < v.len()
        invariant
            k <= v@.len(),
            v@ == old(v)@,
            forall|j: int| 0 <= j < k ==> !seq_lex_le(s@, v@[j]@),
        ensures
            k <= v@.len(),
            v@ == old(v)@,
            forall|j: int| 0 <= j < k ==> !seq_lex_le(s@, v@[j]@),
            k < v@.len() ==> seq_lex_le(s@, v@[k as int]@),
        decreases v@.len() - k,
    {
        if str_lex_le(s.as_str(), v[k].as_str()) {
            break;
        }
        k = k + 1;
    }
    let ghost old_v = v@;
    let ghost sv = s@;
    v.insert(k, s);
    proof {
        let nv = v@;
        assert forall|i: int, j: int| 0 <= i < j < nv.len() implies seq_lex_le(nv[i]@, nv[j]@) by {
            if j < k {
                assert(nv[i] == old_v[i] && nv[j] == old_v[j]);
            } else if j == k {
                assert(nv[j]@ == sv);
                assert(nv[i] == old_v[i]);
                assert(!seq_lex_le(sv, old_v[i]@));
                lemma_lex_total(sv, old_v[i]@);
            } else if i == k {
                assert(nv[j] == old_v[j - 1]);
                assert(seq_lex_le(sv, old_v[k as int]@));
                if j - 1 > k {
                    lemma_lex_trans(sv, old_v[k as int]@, old_v[j - 1]@);
                }
            } else if i < k {
                assert(nv[i] == old_v[i]);
                assert(nv[j] == old_v[j - 1]);
            } else {
                assert(nv[i] == old_v[i - 1]);
                assert(nv[j] == old_v[j - 1]);
            }
        }
        assert forall|i: int, j: int| 0 <= i < j < nv.len() implies nv[i]@ != nv[j]@ by {
            if i == k {
                assert(nv[j] == old_v[j - 1]);
            } else if j == k {
                assert(nv[i] == old_v[i]);
            } else {
                let oi = if i < k { i } else { i - 1 };
                let oj = if j < k { j } else { j - 1 };
                assert(nv[i] == old_v[oi]);
                assert(nv[j] == old_v[oj]);
            }
        }
        assert forall|p: Seq<char>| view_contains(nv, p) <==> (view_contains(old_v, p) || p == sv) by {
            if view_contains(nv, p) {
                let i = choose|i: int| 0 <= i < nv.len() && nv[i]@ == p;
                if i < k {
                    assert(nv[i] == old_v[i]);
                } else if i > k {
                    assert(nv[i] == old_v[i - 1]);
                }
            }
            if view_contains(old_v, p) {
                let i = choose|i: int| 0 <= i < old_v.len() && old_v[i]@ == p;
                if i < k {
                    assert(nv[i] == old_v[i]);
                } else {
                    assert(nv[i + 1] == old_v[i]);
                }
            }
            if p == sv {
                assert(nv[k as int]@ == sv);
            }
        }
    }
}

/// Law: reading a path right after writing data to it gives back that data.
pub proof fn lemma_read_after_write(paths: Seq<(Seq<char>, nat)>, path: Seq<char>, b: nat)
    requires
        unique_paths(paths),
    ensures
        path_target(assign_path(paths, path, b), path) == Some(b),
        unique_paths(assign_path(paths, path, b)),
        forall|q: Seq<char>| q != path ==> path_target(assign_path(paths, path, b), q) == path_target(paths, q),
{
    let np = assign_path(paths, path, b);
    match path_index(paths, path) {
        Some(i) => {
            assert(np[i].0 == path);
            assert forall|q: Seq<char>| q != path implies path_target(np, q) == path_target(paths, q) by {
                if exists|j: int| 0 <= j < paths.len() && paths[j].0 == q {
                    let j = choose|j: int| 0 <= j < paths.len() && paths[j].0 == q;
                    assert(np[j].0 == q);
                    let k = choose|k: int| 0 <= k < np.len() && np[k].0 == q;
                    assert(k == j);
                } else {
                    assert(!exists|k: int| 0 <= k < np.len() && np[k].0 == q) by {
                        if exists|k: int| 0 <= k < np.len() && np[k].0 == q {
                            let k = choose|k: int| 0 <= k < np.len() && np[k].0 == q;
                            assert(paths[k].0 == q);
                        }
                    }
                }
            }
            let k = choose|k: int| 0 <= k < np.len() && np[k].0 == path;
            assert(k == i);
        },
        None => {
            assert(np[paths.len() as int].0 == path);
            assert forall|q: Seq<char>| q != path implies path_target(np, q) == path_target(paths, q) by {
                if exists|j: int| 0 <= j < paths.len() && paths[j].0 == q {
                    let j = choose|j: int| 0 <= j < paths.len() && paths[j].0 == q;
                    assert(np[j].0 == q);
                    let k = choose|k: int| 0 <= k < np.len() && np[k].0 == q;
                    assert(k == j);
                } else {
                    assert(!exists|k: int| 0 <= k < np.len() && np[k].0 == q) by {
                        if exists|k: int| 0 <= k < np.len() && np[k].0 == q {
                            let k = choose|k: int| 0 <= k < np.len() && np[k].0 == q;
                            assert(k < paths.len());
                            assert(paths[k].0 == q);
                        }
                    }
                }
            }
            let k = choose|k: int| 0 <= k < np.len() && np[k].0 == path;
            assert(k == paths.len());
        },
    }
}

} // verus!
