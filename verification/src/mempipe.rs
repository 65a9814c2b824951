//! Buffers that can back an in-memory pipe.

use vstd::prelude::*;

verus! {

/// A growable byte buffer that can back an in-memory pipe.
pub trait MemPipeBuffer: Sized {
    /// The bytes held.
    spec fn contents(&self) -> Seq<u8>;

    /// Append data to the end of the buffer
    fn extend_from_slice(&mut self, data: &[u8])
        ensures
            final(self).contents() == old(self).contents() + data@,
    ;

    /// Get the current length of the buffer
    fn len(&self) -> (r: usize)
        ensures
            r == self.contents().len(),
    ;

    /// Check if buffer is empty
    fn is_empty(&self) -> (r: bool)
        ensures
            r == (self.contents().len() == 0),
    {
        self.len() == 0
    }

    /// The bytes held, for reading
    fn as_slice(&self) -> (r: &[u8])
        ensures
            r@ == self.contents(),
    ;
}

impl MemPipeBuffer for Vec<u8> {
    open spec fn contents(&self) -> Seq<u8> {
        self@
    }

    fn extend_from_slice(&mut self, data: &[u8]) {
        let ghost b0 = self@;
        let mut k: usize = 0;
        while k < data.len()
            invariant
                k <= data@.len(),
                self@ == b0 + data@.subrange(0, k as int),
            decreases data@.len() - k,
        {
            self.push(data[k]);
            k = k + 1;
            assert(self@ =~= b0 + data@.subrange(0, k as int));
        }
        assert(data@.subrange(0, k as int) =~= data@);
    }

    fn len(&self) -> (r: usize) {
        Vec::len(self)
    }

    fn as_slice(&self) -> (r: &[u8]) {
        Vec::as_slice(self)
    }
}

} // verus!
