//! A reusable byte buffer: repeated encodes resize it in place instead of
//! allocating a fresh vector each time.

use vstd::prelude::*;

verus! {

/// A growable byte sequence whose backing storage survives resizes, so that
/// one buffer can serve many encode calls.
#[derive(Debug)]
pub struct LamanshBuffer(pub(crate) Vec<u8>);

impl View for LamanshBuffer {
    type V = Seq<u8>;

    closed spec fn view(&self) -> Seq<u8> {
        self.0@
    }
}

/// Within the crate, the buffer's view is the view of its backing vector.
pub(crate) proof fn lemma_buffer_view(b: &LamanshBuffer)
    ensures
        b@ == b.0@,
{
}

impl LamanshBuffer {
    pub fn new() -> (r: LamanshBuffer)
        ensures
            r@ == Seq::<u8>::empty(),
    {
        LamanshBuffer(Vec::new())
    }

    pub fn with_capacity(len: usize) -> (r: LamanshBuffer)
        ensures
            r@ == Seq::<u8>::empty(),
    {
        LamanshBuffer(Vec::with_capacity(len))
    }

    pub fn array(array: Vec<u8>) -> (r: LamanshBuffer)
        ensures
            r@ == array@,
    {
        LamanshBuffer(array)
    }

    /// Changes the logical length. A shrink keeps the prefix; a growth keeps
    /// the old content and commits new bytes that carry no promised value:
    /// a writer must overwrite the grown region before a reader sees it.
    pub fn set_len(&mut self, new_len: usize)
        ensures
            final(self)@.len() == new_len,
            forall|i: int|
                0 <= i < old(self)@.len() && i < new_len ==> final(self)@[i] == old(self)@[i],
    {
        if new_len <= self.0.len() {
            self.0.truncate(new_len);
        } else {
            while self.0.len() < new_len
                invariant
                    self.0@.len() <= new_len,
                    old(self)@.len() <= self.0@.len(),
                    forall|i: int|
                        0 <= i < old(self)@.len() ==> self.0@[i] == old(self)@[i],
                decreases new_len - self.0@.len(),
            {
                self.0.push(0);
            }
        }
    }

    /// Sets the logical length to zero without releasing storage.
    pub fn clear(&mut self)
        ensures
            final(self)@ == Seq::<u8>::empty(),
    {
        self.0.clear();
    }

    pub fn len(&self) -> (r: usize)
        ensures
            r == self@.len(),
    {
        self.0.len()
    }

    pub fn as_slice(&self) -> (r: &[u8])
        ensures
            r@ == self@,
    {
        self.0.as_slice()
    }

    pub fn into_vec(self) -> (r: Vec<u8>)
        ensures
            r@ == self@,
    {
        self.0
    }
}

} // verus!
