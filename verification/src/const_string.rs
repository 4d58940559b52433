//! Owned byte string of a fixed capacity chosen at compile time.

use vstd::prelude::*;

verus! {

broadcast use vstd::group_vstd_default;

/// A buffer of `N` bytes of which the first `len` are in use.
#[derive(Clone, Copy, Debug)]
pub struct ConstString<const N: usize> {
    buf: [u8; N],
    len: usize,
}

impl<const N: usize> ConstString<N> {
    /// The bytes in use.
    pub closed spec fn view(self) -> Seq<u8> {
        self.buf@.take(self.len as int)
    }

    /// The used length never exceeds the capacity.
    pub closed spec fn wf(self) -> bool {
        self.len <= N
    }

    /// Returns `N`.
    pub fn capacity(&self) -> (r: usize)
        ensures
            r == N,
    {
        N
    }

    /// Return the length in bytes.
    pub fn len(&self) -> (r: usize)
        requires
            self.wf(),
        ensures
            r == self.view().len(),
    {
        self.len
    }

    /// Check whether or not the string is empty.
    pub fn is_empty(&self) -> (r: bool)
        requires
            self.wf(),
        ensures
            r == (self.view().len() == 0),
    {
        self.len == 0
    }

    /// Clear the inner buffer.
    pub fn clear(&mut self)
        ensures
            final(self).wf(),
            final(self).view() == Seq::<u8>::empty(),
    {
        self.len = 0;
        proof {
            assert(self.view() =~= Seq::<u8>::empty());
        }
    }

    /// Creates an empty string.
    pub fn new() -> (r: ConstString<N>)
        ensures
            r.wf(),
            r.view() == Seq::<u8>::empty(),
    {
        let r = ConstString { buf: [0; N], len: 0 };
        proof {
            assert(r.view() =~= Seq::<u8>::empty());
        }
        r
    }

    /// Create a string filled to capacity with one byte.
    pub fn new_filled(with: u8) -> (r: ConstString<N>)
        ensures
            r.wf(),
            r.view().len() == N,
            forall|i: int| 0 <= i < N ==> r.view()[i] == with,
    {
        let r = ConstString { buf: [with; N], len: N };
        proof {
            assert(r.view().len() == N);
        }
        r
    }

    /// Append one byte, when capacity is left.
    pub fn push(&mut self, b: u8)
        requires
            old(self).wf(),
            old(self).view().len() < N,
        ensures
            final(self).wf(),
            final(self).view() == old(self).view().push(b),
    {
        self.buf[self.len] = b;
        self.len = self.len + 1;
        proof {
            assert(self.view() =~= old(self).view().push(b));
        }
    }
}

} // verus!
