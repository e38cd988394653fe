//! Backing storage: the byte medium a log lives on.

use vstd::prelude::*;

verus! {

/// A medium holding the log's bytes: something that can append at the end
/// and hand back everything from the start.
///
/// `content` is the medium's whole byte content at the level of the model.
/// `append_total` and `read_total` say whether the medium can fail at all:
/// an in-memory buffer cannot, a file can.
pub trait Backing: Sized {
    /// The bytes the medium holds. A medium implemented outside the
    /// verifier keeps the defaults below; no verified claim rests on them.
    open spec fn content(&self) -> Seq<u8> {
        Seq::empty()
    }

    /// Whether appends always succeed on this medium; promised only by
    /// media that override it.
    open spec fn append_total() -> bool {
        false
    }

    /// Whether reads always succeed on this medium; promised only by
    /// media that override it.
    open spec fn read_total() -> bool {
        false
    }

    /// Appends bytes at the end. On failure the medium keeps its old
    /// content extended by some prefix of the data: a write may be cut
    /// short partway, but it never touches what was already there.
    fn append(&mut self, data: &[u8]) -> (r: Result<(), String>)
        ensures
            r is Ok ==> final (self).content() == old(self).content() + data@,
            r is Err ==> exists|n: int|
                0 <= n <= data@.len() && final (self).content() == old(self).content()
                    + data@.subrange(0, n),
            Self::append_total() ==> r is Ok,
    ;

    /// Reads the whole content from the start, leaving it unchanged.
    fn read_all(&mut self) -> (r: Result<Vec<u8>, String>)
        ensures
            final (self).content() == old(self).content(),
            r matches Ok(v) ==> v@ == old(self).content(),
            Self::read_total() ==> r is Ok,
    ;
}

/// A transient in-memory medium: a growable buffer that lives only as long
/// as the store value. It never fails.
pub struct MemBacking {
    buf: Vec<u8>,
}

impl MemBacking {
    /// An empty buffer.
    pub fn new() -> (m: MemBacking)
        ensures
            m.content() == Seq::<u8>::empty(),
    {
        MemBacking { buf: Vec::new() }
    }
}

impl Backing for MemBacking {
    closed spec fn content(&self) -> Seq<u8> {
        self.buf@
    }

    open spec fn append_total() -> bool {
        true
    }

    open spec fn read_total() -> bool {
        true
    }

    fn append(&mut self, data: &[u8]) -> (r: Result<(), String>) {
        let ghost orig = self.buf@;
        let mut i: usize = 0;
        while i < data.len()
            invariant
                i <= data@.len(),
                self.buf@ == orig + data@.subrange(0, i as int),
            decreases data@.len() - i,
        {
            let b = *vstd::slice::slice_index_get(data, i);
            self.buf.push(b);
            proof {
                assert(self.buf@ =~= orig + data@.subrange(0, i + 1));
            }
            i = i + 1;
        }
        proof {
            assert(data@.subrange(0, data@.len() as int) =~= data@);
        }
        Ok(())
    }

    fn read_all(&mut self) -> (r: Result<Vec<u8>, String>) {
        Ok(vstd::slice::slice_to_vec(self.buf.as_slice()))
    }
}

} // verus!
