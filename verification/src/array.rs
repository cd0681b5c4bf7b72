//! Validated arrays: ordered sequences of byte strings that re-check the
//! count and per-element length ceilings on every mutation, so that their
//! encode operations can skip validation.

use vstd::prelude::*;

use crate::buffer::LamanshBuffer;
use crate::encode::ToLamanshErr;
use crate::encode::to_lamansh_unchecked;
use crate::encode::update_buffer_unchecked;
use crate::format::elems_fit;
use crate::format::encoded_len;
use crate::format::seq_views;
use crate::format::spec_encode;
use crate::sized::LamanshSized;
use core::marker::PhantomData;
use vstd::slice::slice_index_get;

verus! {

/// The invariant a validated array keeps: its count stays within the count
/// ceiling and every element's length within the length ceiling.
pub open spec fn array_ok(s: Seq<Seq<u8>>, cmax: nat, lmax: nat) -> bool {
    s.len() <= cmax && elems_fit(s, lmax)
}

/// An ordered sequence of byte strings kept within the ceilings that the
/// two chosen header widths impose, with encode operations over it.
pub trait LamanshArray<Element: View<V = Seq<u8>>>: Sized {
    /// The byte strings the array holds, in order.
    spec fn elems(&self) -> Seq<Seq<u8>>;

    /// The ceiling on the element count, from the count-field width.
    spec fn count_max() -> nat;

    /// The ceiling on each element's length, from the length-field width.
    spec fn value_max() -> nat;

    /// The count-field width in bytes.
    spec fn count_width() -> nat;

    /// The length-field width in bytes.
    spec fn value_width() -> nat;

    /// Encodes the array into a reused buffer; an empty array yields an
    /// empty buffer instead of an error.
    fn update_buffer(&self, vec_result: &mut LamanshBuffer)
        requires
            array_ok(self.elems(), Self::count_max(), Self::value_max()),
            self.elems().len() >= 1 ==> encoded_len(
                Self::count_width(),
                Self::value_width(),
                self.elems(),
            ) <= usize::MAX as nat,
        ensures
            self.elems().len() == 0 ==> final(vec_result)@ == Seq::<u8>::empty(),
            self.elems().len() >= 1 ==> final(vec_result)@ == spec_encode(
                Self::count_width(),
                Self::value_width(),
                self.elems(),
            ),
    ;

    /// Encodes the array into a fresh buffer; an empty array yields an
    /// empty buffer instead of an error.
    fn to_lamansh(&self) -> (r: Vec<u8>)
        requires
            array_ok(self.elems(), Self::count_max(), Self::value_max()),
            self.elems().len() >= 1 ==> encoded_len(
                Self::count_width(),
                Self::value_width(),
                self.elems(),
            ) <= usize::MAX as nat,
        ensures
            self.elems().len() == 0 ==> r@ == Seq::<u8>::empty(),
            self.elems().len() >= 1 ==> r@ == spec_encode(
                Self::count_width(),
                Self::value_width(),
                self.elems(),
            ),
    ;

    /// Removes every element.
    fn clear(&mut self)
        ensures
            final(self).elems() == Seq::<Seq<u8>>::empty(),
    ;

    /// Removes and returns the element at `index`, shifting what follows.
    fn remove(&mut self, index: usize) -> (r: Element)
        requires
            index < old(self).elems().len(),
        ensures
            r@ == old(self).elems()[index as int],
            final(self).elems() == old(self).elems().remove(index as int),
    ;

    /// Removes and returns the last element, if there is one.
    fn pop(&mut self) -> (r: Option<Element>)
        ensures
            old(self).elems().len() == 0 ==> r is None && final(self).elems() == old(self).elems(),
            old(self).elems().len() >= 1 ==> final(self).elems() == old(self).elems().drop_last()
                && (r matches Some(e) && e@ == old(self).elems().last()),
    ;

    /// Moves every element of `array` to the end of this array, after
    /// checking the combined count and every incoming element's length.
    fn append(&mut self, array: &mut Vec<Element>) -> (r: Result<(), ToLamanshErr>)
        requires
            old(self).elems().len() + old(array)@.len() <= usize::MAX as nat,
        ensures
            match r {
                Ok(_) => old(self).elems().len() + old(array)@.len() <= Self::count_max()
                    && elems_fit(seq_views(old(array)@), Self::value_max()) && final(self).elems()
                    == old(self).elems() + seq_views(old(array)@) && final(array)@ == Seq::<
                    Element,
                >::empty(),
                Err(ToLamanshErr::CountOverflow) => old(self).elems().len() + old(array)@.len()
                    > Self::count_max() && final(self).elems() == old(self).elems()
                    && final(array)@ == old(array)@,
                Err(ToLamanshErr::ValueOverflow) => old(self).elems().len() + old(array)@.len()
                    <= Self::count_max() && !elems_fit(seq_views(old(array)@), Self::value_max())
                    && final(self).elems() == old(self).elems() && final(array)@ == old(array)@,
                Err(ToLamanshErr::EmptyArray) => false,
            },
    ;

    /// Appends one element, after checking the new count and its length.
    fn push(&mut self, array: Element) -> (r: Result<(), ToLamanshErr>)
        requires
            old(self).elems().len() < usize::MAX as nat,
        ensures
            match r {
                Ok(_) => old(self).elems().len() + 1 <= Self::count_max() && array@.len()
                    <= Self::value_max() && final(self).elems() == old(self).elems().push(array@),
                Err(ToLamanshErr::CountOverflow) => old(self).elems().len() + 1
                    > Self::count_max() && final(self).elems() == old(self).elems(),
                Err(ToLamanshErr::ValueOverflow) => old(self).elems().len() + 1
                    <= Self::count_max() && array@.len() > Self::value_max() && final(self).elems()
                    == old(self).elems(),
                Err(ToLamanshErr::EmptyArray) => false,
            },
    ;

    /// Appends one element, after checking the new count and its length.
    fn push_array(&mut self, array: Element) -> (r: Result<(), ToLamanshErr>)
        requires
            old(self).elems().len() < usize::MAX as nat,
        ensures
            match r {
                Ok(_) => old(self).elems().len() + 1 <= Self::count_max() && array@.len()
                    <= Self::value_max() && final(self).elems() == old(self).elems().push(array@),
                Err(ToLamanshErr::CountOverflow) => old(self).elems().len() + 1
                    > Self::count_max() && final(self).elems() == old(self).elems(),
                Err(ToLamanshErr::ValueOverflow) => old(self).elems().len() + 1
                    <= Self::count_max() && array@.len() > Self::value_max() && final(self).elems()
                    == old(self).elems(),
                Err(ToLamanshErr::EmptyArray) => false,
            },
    ;
}

proof fn lemma_views_push<E: View<V = Seq<u8>>>(es: Seq<E>, e: E)
    ensures
        seq_views(es.push(e)) == seq_views(es).push(e@),
{
    assert(seq_views(es.push(e)) =~= seq_views(es).push(e@));
}

proof fn lemma_views_concat<E: View<V = Seq<u8>>>(a: Seq<E>, b: Seq<E>)
    ensures
        seq_views(a + b) == seq_views(a) + seq_views(b),
{
    assert(seq_views(a + b) =~= seq_views(a) + seq_views(b));
}

proof fn lemma_views_remove<E: View<V = Seq<u8>>>(es: Seq<E>, i: int)
    requires
        0 <= i < es.len(),
    ensures
        seq_views(es.remove(i)) == seq_views(es).remove(i),
{
    assert(seq_views(es.remove(i)) =~= seq_views(es).remove(i));
}

proof fn lemma_views_subrange<E: View<V = Seq<u8>>>(es: Seq<E>, a: int, b: int)
    requires
        0 <= a <= b <= es.len(),
    ensures
        seq_views(es.subrange(a, b)) == seq_views(es).subrange(a, b),
{
    assert(seq_views(es.subrange(a, b)) =~= seq_views(es).subrange(a, b));
}

/// A validated array of owned byte vectors.
#[derive(Debug)]
pub struct LamanshVecArray<NC: LamanshSized, N: LamanshSized> {
    array: Vec<Vec<u8>>,
    _phantom: PhantomData<NC>,
    _phantom_n: PhantomData<N>,
}

impl<NC: LamanshSized, N: LamanshSized> LamanshVecArray<NC, N> {
    /// A fresh empty array.
    pub fn new() -> (r: Self)
        ensures
            r.elems() == Seq::<Seq<u8>>::empty(),
    {
        Self::empty()
    }

    /// A fresh empty array.
    pub fn empty() -> (r: Self)
        ensures
            r.elems() == Seq::<Seq<u8>>::empty(),
    {
        let r = LamanshVecArray { array: Vec::new(), _phantom: PhantomData, _phantom_n: PhantomData };
        proof {
            assert(r.elems() =~= Seq::<Seq<u8>>::empty());
        }
        r
    }

    /// A fresh empty array with room reserved for `capacity` elements.
    pub fn with_capacity(capacity: usize) -> (r: Self)
        ensures
            r.elems() == Seq::<Seq<u8>>::empty(),
    {
        let r = LamanshVecArray {
            array: Vec::with_capacity(capacity),
            _phantom: PhantomData,
            _phantom_n: PhantomData,
        };
        proof {
            assert(r.elems() =~= Seq::<Seq<u8>>::empty());
        }
        r
    }

    /// Takes a pre-existing sequence in, validating every element up front.
    pub fn array(array: Vec<Vec<u8>>) -> (r: Result<Self, ToLamanshErr>)
        ensures
            match r {
                Ok(a) => a.elems() == seq_views(array@) && array_ok(
                    a.elems(),
                    NC::spec_max(),
                    N::spec_max(),
                ),
                Err(ToLamanshErr::CountOverflow) => array@.len() > NC::spec_max(),
                Err(ToLamanshErr::ValueOverflow) => 1 <= array@.len() <= NC::spec_max()
                    && !elems_fit(seq_views(array@), N::spec_max()),
                Err(ToLamanshErr::EmptyArray) => false,
            },
    {
        proof {
            NC::lemma_well_formed();
            N::lemma_well_formed();
        }
        let len: usize = array.len();
        if len > 0 {
            if len > NC::max_value() {
                return Err(ToLamanshErr::CountOverflow);
            }
            let sized: usize = N::max_value();
            let mut i: usize = 0;
            while i < len
                invariant
                    len == array@.len(),
                    i <= len,
                    1 <= array@.len() <= NC::spec_max(),
                    sized as nat == if N::spec_max() <= usize::MAX as nat {
                        N::spec_max()
                    } else {
                        usize::MAX as nat
                    },
                    forall|k: int|
                        0 <= k < i ==> (#[trigger] seq_views(array@)[k]).len() <= N::spec_max(),
                decreases len - i,
            {
                let a: &Vec<u8> = &array[i];
                if a.len() > sized {
                    proof {
                        assert(seq_views(array@)[i as int].len() > N::spec_max());
                    }
                    return Err(ToLamanshErr::ValueOverflow);
                }
                proof {
                    assert(seq_views(array@)[i as int].len() <= N::spec_max());
                }
                i = i + 1;
            }
        }
        let r = LamanshVecArray { array, _phantom: PhantomData, _phantom_n: PhantomData };
        proof {
            assert(elems_fit(r.elems(), N::spec_max()));
        }
        Ok(r)
    }

    /// The elements as borrowed slices, in order.
    fn as_refs(&self) -> (r: Vec<&[u8]>)
        ensures
            seq_views(r@) == self.elems(),
    {
        let mut refs: Vec<&[u8]> = Vec::new();
        let mut i: usize = 0;
        let len: usize = self.array.len();
        while i < len
            invariant
                len == self.array@.len(),
                i <= len,
                refs@.len() == i,
                forall|k: int| 0 <= k < i ==> (#[trigger] refs@[k])@ == self.array@[k]@,
            decreases len - i,
        {
            let a: &Vec<u8> = &self.array[i];
            refs.push(a.as_slice());
            i = i + 1;
        }
        proof {
            assert(seq_views(refs@) =~= self.elems());
        }
        refs
    }
}

impl<NC: LamanshSized, N: LamanshSized> LamanshArray<Vec<u8>> for LamanshVecArray<NC, N> {
    closed spec fn elems(&self) -> Seq<Seq<u8>> {
        seq_views(self.array@)
    }

    open spec fn count_max() -> nat {
        NC::spec_max()
    }

    open spec fn value_max() -> nat {
        N::spec_max()
    }

    open spec fn count_width() -> nat {
        NC::spec_byted()
    }

    open spec fn value_width() -> nat {
        N::spec_byted()
    }

    fn update_buffer(&self, vec_result: &mut LamanshBuffer) {
        proof {
            NC::lemma_well_formed();
        }
        if self.array.len() == 0 {
            vec_result.clear();
            return;
        }
        let refs: Vec<&[u8]> = self.as_refs();
        update_buffer_unchecked::<NC, N>(refs.as_slice(), vec_result);
    }

    fn to_lamansh(&self) -> Vec<u8> {
        proof {
            NC::lemma_well_formed();
        }
        if self.array.len() == 0 {
            return Vec::new();
        }
        let refs: Vec<&[u8]> = self.as_refs();
        to_lamansh_unchecked::<NC, N>(refs.as_slice())
    }

    fn clear(&mut self) {
        self.array.clear();
        proof {
            assert(self.elems() =~= Seq::<Seq<u8>>::empty());
        }
    }

    fn remove(&mut self, index: usize) -> Vec<u8> {
        let r = self.array.remove(index);
        proof {
            lemma_views_remove(old(self).array@, index as int);
        }
        r
    }

    fn pop(&mut self) -> Option<Vec<u8>> {
        let r = self.array.pop();
        proof {
            if old(self).array@.len() > 0 {
                lemma_views_subrange(old(self).array@, 0, old(self).array@.len() - 1);
                assert(seq_views(old(self).array@).subrange(0, old(self).array@.len() - 1)
                    =~= old(self).elems().drop_last());
            }
        }
        r
    }

    fn append(&mut self, array: &mut Vec<Vec<u8>>) -> Result<(), ToLamanshErr> {
        proof {
            NC::lemma_well_formed();
            N::lemma_well_formed();
        }
        if self.array.len() + array.len() > NC::max_value() {
            return Err(ToLamanshErr::CountOverflow);
        }
        let sized: usize = N::max_value();
        let len: usize = array.len();
        let mut i: usize = 0;
        while i < len
            invariant
                len == array@.len(),
                i <= len,
                old(self).elems().len() + old(array)@.len() <= NC::spec_max(),
                sized as nat == if N::spec_max() <= usize::MAX as nat {
                    N::spec_max()
                } else {
                    usize::MAX as nat
                },
                array@ == old(array)@,
                self.array@ == old(self).array@,
                forall|k: int|
                    0 <= k < i ==> (#[trigger] seq_views(array@)[k]).len() <= N::spec_max(),
            decreases len - i,
        {
            let a: &Vec<u8> = &array[i];
            if a.len() > sized {
                proof {
                    assert(seq_views(array@)[i as int].len() > N::spec_max());
                }
                return Err(ToLamanshErr::ValueOverflow);
            }
            proof {
                assert(seq_views(array@)[i as int].len() <= N::spec_max());
            }
            i = i + 1;
        }
        proof {
            assert(elems_fit(seq_views(array@), N::spec_max()));
        }
        self.array.append(array);
        proof {
            lemma_views_concat(old(self).array@, old(array)@);
        }
        Ok(())
    }

    fn push(&mut self, array: Vec<u8>) -> Result<(), ToLamanshErr> {
        self.push_array(array)
    }

    fn push_array(&mut self, array: Vec<u8>) -> Result<(), ToLamanshErr> {
        proof {
            NC::lemma_well_formed();
            N::lemma_well_formed();
        }
        if self.array.len() + 1 > NC::max_value() {
            return Err(ToLamanshErr::CountOverflow);
        }
        if array.len() > N::max_value() {
            return Err(ToLamanshErr::ValueOverflow);
        }
        self.array.push(array);
        proof {
            lemma_views_push(old(self).array@, array);
        }
        Ok(())
    }
}

/// A validated array of borrowed byte slices.
#[derive(Debug)]
pub struct LamanshSliceArray<'a, NC: LamanshSized, N: LamanshSized> {
    array: Vec<&'a [u8]>,
    _phantom: PhantomData<NC>,
    _phantom_n: PhantomData<N>,
}

impl<'a, NC: LamanshSized, N: LamanshSized> LamanshSliceArray<'a, NC, N> {
    /// A fresh empty array.
    pub fn new() -> (r: Self)
        ensures
            r.elems() == Seq::<Seq<u8>>::empty(),
    {
        Self::empty()
    }

    /// A fresh empty array.
    pub fn empty() -> (r: Self)
        ensures
            r.elems() == Seq::<Seq<u8>>::empty(),
    {
        let r = LamanshSliceArray {
            array: Vec::new(),
            _phantom: PhantomData,
            _phantom_n: PhantomData,
        };
        proof {
            assert(r.elems() =~= Seq::<Seq<u8>>::empty());
        }
        r
    }

    /// A fresh empty array with room reserved for `capacity` elements.
    pub fn with_capacity(capacity: usize) -> (r: Self)
        ensures
            r.elems() == Seq::<Seq<u8>>::empty(),
    {
        let r = LamanshSliceArray {
            array: Vec::with_capacity(capacity),
            _phantom: PhantomData,
            _phantom_n: PhantomData,
        };
        proof {
            assert(r.elems() =~= Seq::<Seq<u8>>::empty());
        }
        r
    }

    /// Takes a pre-existing sequence in, validating every element up front.
    pub fn array(array: Vec<&'a [u8]>) -> (r: Result<Self, ToLamanshErr>)
        ensures
            match r {
                Ok(a) => a.elems() == seq_views(array@) && array_ok(
                    a.elems(),
                    NC::spec_max(),
                    N::spec_max(),
                ),
                Err(ToLamanshErr::CountOverflow) => array@.len() > NC::spec_max(),
                Err(ToLamanshErr::ValueOverflow) => 1 <= array@.len() <= NC::spec_max()
                    && !elems_fit(seq_views(array@), N::spec_max()),
                Err(ToLamanshErr::EmptyArray) => false,
            },
    {
        proof {
            NC::lemma_well_formed();
            N::lemma_well_formed();
        }
        let len: usize = array.len();
        if len > 0 {
            if len > NC::max_value() {
                return Err(ToLamanshErr::CountOverflow);
            }
            let sized: usize = N::max_value();
            let mut i: usize = 0;
            while i < len
                invariant
                    len == array@.len(),
                    i <= len,
                    1 <= array@.len() <= NC::spec_max(),
                    sized as nat == if N::spec_max() <= usize::MAX as nat {
                        N::spec_max()
                    } else {
                        usize::MAX as nat
                    },
                    forall|k: int|
                        0 <= k < i ==> (#[trigger] seq_views(array@)[k]).len() <= N::spec_max(),
                decreases len - i,
            {
                let a: &[u8] = *slice_index_get(array.as_slice(), i);
                if a.len() > sized {
                    proof {
                        assert(seq_views(array@)[i as int].len() > N::spec_max());
                    }
                    return Err(ToLamanshErr::ValueOverflow);
                }
                proof {
                    assert(seq_views(array@)[i as int].len() <= N::spec_max());
                }
                i = i + 1;
            }
        }
        let r = LamanshSliceArray { array, _phantom: PhantomData, _phantom_n: PhantomData };
        proof {
            assert(elems_fit(r.elems(), N::spec_max()));
        }
        Ok(r)
    }
}

impl<'a, NC: LamanshSized, N: LamanshSized> LamanshArray<&'a [u8]> for LamanshSliceArray<
    'a,
    NC,
    N,
> {
    closed spec fn elems(&self) -> Seq<Seq<u8>> {
        seq_views(self.array@)
    }

    open spec fn count_max() -> nat {
        NC::spec_max()
    }

    open spec fn value_max() -> nat {
        N::spec_max()
    }

    open spec fn count_width() -> nat {
        NC::spec_byted()
    }

    open spec fn value_width() -> nat {
        N::spec_byted()
    }

    fn update_buffer(&self, vec_result: &mut LamanshBuffer) {
        proof {
            NC::lemma_well_formed();
        }
        if self.array.len() == 0 {
            vec_result.clear();
            return;
        }
        update_buffer_unchecked::<NC, N>(self.array.as_slice(), vec_result);
    }

    fn to_lamansh(&self) -> Vec<u8> {
        proof {
            NC::lemma_well_formed();
        }
        if self.array.len() == 0 {
            return Vec::new();
        }
        to_lamansh_unchecked::<NC, N>(self.array.as_slice())
    }

    fn clear(&mut self) {
        self.array.clear();
        proof {
            assert(self.elems() =~= Seq::<Seq<u8>>::empty());
        }
    }

    fn remove(&mut self, index: usize) -> &'a [u8] {
        let r = self.array.remove(index);
        proof {
            lemma_views_remove(old(self).array@, index as int);
        }
        r
    }

    fn pop(&mut self) -> Option<&'a [u8]> {
        let r = self.array.pop();
        proof {
            if old(self).array@.len() > 0 {
                lemma_views_subrange(old(self).array@, 0, old(self).array@.len() - 1);
                assert(seq_views(old(self).array@).subrange(0, old(self).array@.len() - 1)
                    =~= old(self).elems().drop_last());
            }
        }
        r
    }

    fn append(&mut self, array: &mut Vec<&'a [u8]>) -> Result<(), ToLamanshErr> {
        proof {
            NC::lemma_well_formed();
            N::lemma_well_formed();
        }
        if self.array.len() + array.len() > NC::max_value() {
            return Err(ToLamanshErr::CountOverflow);
        }
        let sized: usize = N::max_value();
        let len: usize = array.len();
        let mut i: usize = 0;
        while i < len
            invariant
                len == array@.len(),
                i <= len,
                old(self).elems().len() + old(array)@.len() <= NC::spec_max(),
                sized as nat == if N::spec_max() <= usize::MAX as nat {
                    N::spec_max()
                } else {
                    usize::MAX as nat
                },
                array@ == old(array)@,
                self.array@ == old(self).array@,
                forall|k: int|
                    0 <= k < i ==> (#[trigger] seq_views(array@)[k]).len() <= N::spec_max(),
            decreases len - i,
        {
            let a: &[u8] = *slice_index_get(array.as_slice(), i);
            if a.len() > sized {
                proof {
                    assert(seq_views(array@)[i as int].len() > N::spec_max());
                }
                return Err(ToLamanshErr::ValueOverflow);
            }
            proof {
                assert(seq_views(array@)[i as int].len() <= N::spec_max());
            }
            i = i + 1;
        }
        proof {
            assert(elems_fit(seq_views(array@), N::spec_max()));
        }
        self.array.append(array);
        proof {
            lemma_views_concat(old(self).array@, old(array)@);
        }
        Ok(())
    }

    fn push(&mut self, array: &'a [u8]) -> Result<(), ToLamanshErr> {
        self.push_array(array)
    }

    fn push_array(&mut self, array: &'a [u8]) -> Result<(), ToLamanshErr> {
        proof {
            NC::lemma_well_formed();
            N::lemma_well_formed();
        }
        if self.array.len() + 1 > NC::max_value() {
            return Err(ToLamanshErr::CountOverflow);
        }
        if array.len() > N::max_value() {
            return Err(ToLamanshErr::ValueOverflow);
        }
        self.array.push(array);
        proof {
            lemma_views_push(old(self).array@, array);
        }
        Ok(())
    }
}

} // verus!
