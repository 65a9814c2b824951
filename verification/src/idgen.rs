//! Handles and the generator of unique handle ids.

use vstd::prelude::*;
use vstd::string::StringExecFns;

use crate::text::{decimal_int, push_decimal_i64};

verus! {

/// Kind of entity a handle identifies, used for tracing handle allocation.
#[derive(Debug, Clone, Copy, PartialEq, Eq, Structural)]
pub enum HandleKind {
    Node,
    PipeWriter,
    PipeReader,
}

/// An opaque identifier of a node, a pipe writer or a pipe reader.
#[derive(Debug, Clone, Copy, PartialEq, Eq, Structural, Hash)]
pub struct Handle {
    id: i64,
}

impl Handle {
    /// Creates a handle with the given id.
    pub fn new(id: i64) -> (h: Self)
        ensures
            h.spec_id() == id,
    {
        Self { id }
    }

    /// The id of this handle.
    pub fn id(&self) -> (r: i64)
        ensures
            r == self.spec_id(),
    {
        self.id
    }

    /// The id, for use in specifications.
    pub closed spec fn spec_id(self) -> i64 {
        self.id
    }

    /// Two handles are equal exactly when their ids are.
    pub broadcast proof fn lemma_handle_ext(a: Handle, b: Handle)
        ensures
            #![trigger a.spec_id(), b.spec_id()]
            (a.spec_id() == b.spec_id()) == (a == b),
    {
    }

    /// The debug rendering of a handle: `Handle { id: N }`.
    pub open spec fn debug_text(self) -> Seq<char> {
        "Handle { id: "@ + decimal_int(self.spec_id() as int) + " }"@
    }

    /// Renders the handle as its debug text.
    pub fn to_debug_string(&self) -> (r: String)
        ensures
            r@ == self.debug_text(),
    {
        let mut s = String::from_str("Handle { id: ");
        push_decimal_i64(&mut s, self.id);
        s.append(" }");
        s
    }
}

/// Associates a handle type with the integer type of its id.
pub trait HandleType {
    type Id;
}

impl HandleType for Handle {
    type Id = i64;
}

/// Type that can be either a handle id or an arbitrary signal value.
pub type IntCanBeHandle = i64;

/// Generator of handle ids: ids are handed out in increasing order from 1.
#[derive(Debug)]
pub struct IdGen {
    next_id: i64,
}

/// The id that follows `n`, wrapping around like an atomic fetch-and-add.
pub open spec fn wrapping_next(n: i64) -> i64 {
    if n == i64::MAX { i64::MIN } else { (n + 1) as i64 }
}

impl IdGen {
    /// The id that the next call of `get_next` returns.
    pub closed spec fn next(self) -> i64 {
        self.next_id
    }

    /// A fresh generator that starts from 1.
    pub fn new() -> (g: Self)
        ensures
            g.next() == 1,
    {
        Self { next_id: 1 }
    }

    /// Get the next unique id.
    pub fn get_next(&mut self) -> (r: i64)
        ensures
            r == old(self).next(),
            final(self).next() == wrapping_next(old(self).next()),
    {
        let r = self.next_id;
        self.next_id = if r == i64::MAX { i64::MIN } else { r + 1 };
        r
    }

    /// Get the next unique id as a handle; the kind and correlations are for tracing only.
    pub fn get_next_traced(&mut self, kind: HandleKind, corr1: Handle, corr2: Option<Handle>) -> (h: Handle)
        ensures
            h.spec_id() == old(self).next(),
            final(self).next() == wrapping_next(old(self).next()),
    {
        Handle::new(self.get_next())
    }
}

impl Default for IdGen {
    fn default() -> (g: Self)
        ensures
            g.next() == 1,
    {
        Self::new()
    }
}

/// Law: while the counter does not wrap, ids handed out by successive calls are
/// strictly increasing, so no id is handed out twice.
pub proof fn lemma_ids_increase(n: i64)
    requires
        n < i64::MAX,
    ensures
        wrapping_next(n) == n + 1,
        wrapping_next(n) > n,
{
}

/// The ids that `n` successive calls of `get_next` return, starting from a generator whose
/// next id is `start` (each call returns the next id and advances it by `wrapping_next`).
pub open spec fn ids_handed_out(start: i64, n: nat) -> Seq<i64>
    decreases n,
{
    if n == 0 {
        Seq::empty()
    } else {
        seq![start] + ids_handed_out(wrapping_next(start), (n - 1) as nat)
    }
}

/// Law: the first `n` calls of `get_next` on a new generator (`n < i64::MAX`) return
/// exactly the ids 1, 2, ..., n, in that order, so no two of them are equal. Calls from
/// several threads go through one `&mut` borrow each (a lock), so whatever their
/// interleaving they form one such sequence of calls.
pub proof fn lemma_ids_handed_out(n: nat)
    requires
        n < i64::MAX,
    ensures
        ids_handed_out(1, n) == Seq::new(n, |i: int| (i + 1) as i64),
        forall|i: int, j: int| 0 <= i < j < n ==> ids_handed_out(1, n)[i] != ids_handed_out(1, n)[j],
{
    lemma_ids_from(1, n);
}

proof fn lemma_ids_from(start: i64, n: nat)
    requires
        start >= 1,
        start + n <= i64::MAX,
    ensures
        ids_handed_out(start, n) == Seq::new(n, |i: int| (start + i) as i64),
    decreases n,
{
    if n > 0 {
        lemma_ids_from(wrapping_next(start), (n - 1) as nat);
        assert(ids_handed_out(start, n) =~= Seq::new(n, |i: int| (start + i) as i64));
    }
}

} // verus!
