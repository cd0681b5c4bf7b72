//! A cursor that hands out consecutive chunks of chosen sizes from a slice.

use vstd::prelude::*;

use vstd::slice::slice_subrange;

verus! {

/// A forward cursor over a borrowed slice, yielding chunks whose sizes the
/// caller picks call by call.
#[derive(Debug)]
pub struct DynExactChunks<'a, T> {
    array: &'a [T],
    start_n: usize,
}

impl<'a, T> DynExactChunks<'a, T> {
    /// The slice the cursor walks.
    pub closed spec fn spec_array(&self) -> Seq<T> {
        self.array@
    }

    /// How much of the slice has been handed out.
    pub closed spec fn pos(&self) -> nat {
        self.start_n as nat
    }

    /// The cursor stays within the slice.
    pub open spec fn inv(&self) -> bool {
        self.pos() <= self.spec_array().len()
    }

    pub fn array(slice: &'a [T]) -> (r: Self)
        ensures
            r.spec_array() == slice@,
            r.pos() == 0,
            r.inv(),
    {
        DynExactChunks { array: slice, start_n: 0 }
    }

    /// The next chunk of `n` items, or `None` when fewer than `n` remain;
    /// a refused chunk does not move the cursor.
    pub fn next_usize(&mut self, n: usize) -> (r: Option<&'a [T]>)
        requires
            old(self).inv(),
        ensures
            final(self).inv(),
            final(self).spec_array() == old(self).spec_array(),
            if old(self).pos() + n <= old(self).spec_array().len() {
                final(self).pos() == old(self).pos() + n && (r matches Some(a) && a@ == old(
                    self,
                ).spec_array().subrange(old(self).pos() as int, (old(self).pos() + n) as int))
            } else {
                r is None && final(self).pos() == old(self).pos()
            },
    {
        if self.array.len() - self.start_n < n {
            return None;
        }
        let new_n: usize = self.start_n + n;
        let chunk: &'a [T] = slice_subrange(self.array, self.start_n, new_n);
        self.start_n = new_n;
        Some(chunk)
    }

    /// Whatever the cursor has not handed out yet.
    pub fn remainder(self) -> (r: Option<&'a [T]>)
        ensures
            self.inv() ==> (r matches Some(a) && a@ == self.spec_array().subrange(
                self.pos() as int,
                self.spec_array().len() as int,
            )),
            !self.inv() ==> r is None,
    {
        if self.start_n <= self.array.len() {
            Some(slice_subrange(self.array, self.start_n, self.array.len()))
        } else {
            None
        }
    }
}

} // verus!
