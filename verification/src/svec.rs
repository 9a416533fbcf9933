//! The trie's node-index vectors, backed by the `smallvec` crate: small
//! vectors of node indices, read and grown one element at a time.

use vstd::prelude::*;

verus! {

/// An ordered list of node indices stored inline while small, in the
/// `smallvec` crate's small vector. Opaque to the verifier: its contents are
/// reached through `sv_elems` and the trusted operations below.
#[verifier::external_body]
pub struct RefVec {
    inner: smallvec::SmallVec<[usize; 32]>,
}

/// The elements a node-index vector holds, in order.
pub uninterp spec fn sv_elems(v: RefVec) -> Seq<usize>;

impl RefVec {
    /// Relies on smallvec::SmallVec::new: constructs an empty vector.
    #[verifier::external_body]
    pub fn new() -> (r: RefVec)
        ensures
            sv_elems(r) == Seq::<usize>::empty(),
    {
        RefVec { inner: smallvec::SmallVec::new() }
    }

    /// Relies on smallvec::SmallVec::push: appends one item at the end. As
    /// with `Vec::push`, growth aborts the process when the allocator fails.
    #[verifier::external_body]
    pub fn push(&mut self, x: usize)
        ensures
            sv_elems(*final(self)) == sv_elems(*old(self)).push(x),
    {
        self.inner.push(x)
    }

    /// Relies on smallvec::SmallVec::len: the number of elements stored.
    #[verifier::external_body]
    pub fn len(&self) -> (n: usize)
        ensures
            n == sv_elems(*self).len(),
    {
        self.inner.len()
    }

    /// Relies on smallvec's Index impl (through its Deref to a slice): the
    /// element at the given in-bounds position.
    #[verifier::external_body]
    pub fn get(&self, i: usize) -> (x: usize)
        requires
            i < sv_elems(*self).len(),
        ensures
            x == sv_elems(*self)[i as int],
    {
        self.inner[i]
    }
}

} // verus!
