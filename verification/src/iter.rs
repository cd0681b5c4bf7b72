//! Forward cursors over a decoding view: each call yields one element,
//! sliced out of the value region at the length its table entry declares.

use vstd::prelude::*;

use crate::bigend::be_val;
use crate::bigend::read_be;
use crate::lamansh::cluLamansh;
use crate::lamansh::cluLamanshErr;
use crate::sized::LamanshSized;
use vstd::slice::slice_subrange;

verus! {

/// What one call of `next` yields and how it moves the two cursors: the
/// shared step relation of both iterator forms.
pub open spec fn spec_next_step(
    lw: nat,
    head: Seq<u8>,
    values: Seq<u8>,
    hp: nat,
    vp: nat,
    r: Option<Result<&[u8], cluLamanshErr>>,
    hp2: nat,
    vp2: nat,
) -> bool {
    if hp + lw > head.len() {
        r is None && hp2 == hp && vp2 == vp
    } else {
        let declared = be_val(head.subrange(hp as int, (hp + lw) as int));
        hp2 == hp + lw && if vp + declared > values.len() {
            r == Some(Err::<&[u8], cluLamanshErr>(cluLamanshErr::ErrNextSliceValue)) && vp2 == vp
        } else {
            vp2 == vp + declared && (r matches Some(Ok(a)) && a@ == values.subrange(
                vp as int,
                (vp + declared) as int,
            ))
        }
    }
}

/// A borrowing cursor over a decoding view.
#[allow(non_camel_case_types)]
#[derive(Debug)]
pub struct cluLamanshIter<'a, 'b, NC: LamanshSized, N: LamanshSized> {
    lamansh: &'b cluLamansh<'a, NC, N>,
    header_n: usize,
    value_n: usize,
}

impl<'a, 'b, NC: LamanshSized, N: LamanshSized> cluLamanshIter<'a, 'b, NC, N> {
    /// The length-table region this cursor walks.
    pub closed spec fn head(&self) -> Seq<u8> {
        self.lamansh.head()
    }

    /// The value region this cursor walks.
    pub closed spec fn values(&self) -> Seq<u8> {
        self.lamansh.values()
    }

    /// The cursor into the length table.
    pub closed spec fn header_pos(&self) -> nat {
        self.header_n as nat
    }

    /// The cursor into the value region.
    pub closed spec fn value_pos(&self) -> nat {
        self.value_n as nat
    }

    /// Both cursors stay within their regions.
    pub open spec fn inv(&self) -> bool {
        self.header_pos() <= self.head().len() && self.value_pos() <= self.values().len()
    }

    pub fn new(lamansh: &'b cluLamansh<'a, NC, N>) -> (r: Self)
        ensures
            r.head() == lamansh.head(),
            r.values() == lamansh.values(),
            r.header_pos() == 0,
            r.value_pos() == 0,
            r.inv(),
    {
        Self { lamansh, header_n: 0, value_n: 0 }
    }

    /// Yields the next element: `None` once the length table is exhausted, a
    /// decode error when the declared length overruns the value region.
    pub fn next(&mut self) -> (r: Option<Result<&'b [u8], cluLamanshErr>>)
        requires
            old(self).inv(),
        ensures
            final(self).inv(),
            final(self).head() == old(self).head(),
            final(self).values() == old(self).values(),
            spec_next_step(
                N::spec_byted(),
                old(self).head(),
                old(self).values(),
                old(self).header_pos(),
                old(self).value_pos(),
                r,
                final(self).header_pos(),
                final(self).value_pos(),
            ),
    {
        proof {
            N::lemma_well_formed();
            self.lamansh.lemma_regions();
        }
        let size_value: usize = N::byted();
        let head: &[u8] = self.lamansh.value_head_array;
        if head.len() - self.header_n < size_value {
            return None;
        }
        let new_n: usize = self.header_n + size_value;
        let len_slice: &[u8] = slice_subrange(head, self.header_n, new_n);
        let size_len: u64 = read_be(len_slice);
        self.header_n = new_n;
        let values: &[u8] = self.lamansh.value_array;
        let remaining: usize = values.len() - self.value_n;
        if (remaining as u64) < size_len {
            return Some(Err(cluLamanshErr::ErrNextSliceValue));
        }
        let declared: usize = size_len as usize;
        let new_v: usize = self.value_n + declared;
        let a: &[u8] = slice_subrange(values, self.value_n, new_v);
        self.value_n = new_v;
        Some(Ok(a))
    }
}

/// A cursor that owns its decoding view.
#[allow(non_camel_case_types)]
#[derive(Debug)]
pub struct cluLamanshIntoIter<'a, NC: LamanshSized, N: LamanshSized> {
    lamansh: cluLamansh<'a, NC, N>,
    header_n: usize,
    value_n: usize,
}

impl<'a, NC: LamanshSized, N: LamanshSized> cluLamanshIntoIter<'a, NC, N> {
    /// The length-table region this cursor walks.
    pub closed spec fn head(&self) -> Seq<u8> {
        self.lamansh.head()
    }

    /// The value region this cursor walks.
    pub closed spec fn values(&self) -> Seq<u8> {
        self.lamansh.values()
    }

    /// The cursor into the length table.
    pub closed spec fn header_pos(&self) -> nat {
        self.header_n as nat
    }

    /// The cursor into the value region.
    pub closed spec fn value_pos(&self) -> nat {
        self.value_n as nat
    }

    /// Both cursors stay within their regions.
    pub open spec fn inv(&self) -> bool {
        self.header_pos() <= self.head().len() && self.value_pos() <= self.values().len()
    }

    pub fn new(lamansh: cluLamansh<'a, NC, N>) -> (r: Self)
        ensures
            r.head() == lamansh.head(),
            r.values() == lamansh.values(),
            r.header_pos() == 0,
            r.value_pos() == 0,
            r.inv(),
    {
        Self { lamansh, header_n: 0, value_n: 0 }
    }

    /// Yields the next element: `None` once the length table is exhausted, a
    /// decode error when the declared length overruns the value region.
    pub fn next(&mut self) -> (r: Option<Result<&'a [u8], cluLamanshErr>>)
        requires
            old(self).inv(),
        ensures
            final(self).inv(),
            final(self).head() == old(self).head(),
            final(self).values() == old(self).values(),
            spec_next_step(
                N::spec_byted(),
                old(self).head(),
                old(self).values(),
                old(self).header_pos(),
                old(self).value_pos(),
                r,
                final(self).header_pos(),
                final(self).value_pos(),
            ),
    {
        proof {
            N::lemma_well_formed();
            self.lamansh.lemma_regions();
        }
        let size_value: usize = N::byted();
        let head: &[u8] = self.lamansh.value_head_array;
        if head.len() - self.header_n < size_value {
            return None;
        }
        let new_n: usize = self.header_n + size_value;
        let len_slice: &[u8] = slice_subrange(head, self.header_n, new_n);
        let size_len: u64 = read_be(len_slice);
        self.header_n = new_n;
        let values: &[u8] = self.lamansh.value_array;
        let remaining: usize = values.len() - self.value_n;
        if (remaining as u64) < size_len {
            return Some(Err(cluLamanshErr::ErrNextSliceValue));
        }
        let declared: usize = size_len as usize;
        let new_v: usize = self.value_n + declared;
        let a: &[u8] = slice_subrange(values, self.value_n, new_v);
        self.value_n = new_v;
        Some(Ok(a))
    }
}

impl<'a, NC: LamanshSized, N: LamanshSized> cluLamansh<'a, NC, N> {
    /// A fresh borrowing cursor over this view, starting at its first element.
    pub fn iter<'b>(&'b self) -> (r: cluLamanshIter<'a, 'b, NC, N>)
        ensures
            r.head() == self.head(),
            r.values() == self.values(),
            r.header_pos() == 0,
            r.value_pos() == 0,
            r.inv(),
    {
        cluLamanshIter::new(self)
    }

    /// A fresh cursor that consumes this view, starting at its first element.
    pub fn into_iter(self) -> (r: cluLamanshIntoIter<'a, NC, N>)
        ensures
            r.head() == self.head(),
            r.values() == self.values(),
            r.header_pos() == 0,
            r.value_pos() == 0,
            r.inv(),
    {
        cluLamanshIntoIter::new(self)
    }
}

} // verus!
