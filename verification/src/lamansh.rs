//! The decoding view: parses an encoded buffer into its three regions
//! without copying, and says exactly which malformed inputs are turned away.

use vstd::prelude::*;

use crate::bigend::be_val;
use crate::bigend::read_be;
use crate::sized::LamanshSized;
use core::marker::PhantomData;
use vstd::slice::slice_subrange;

verus! {

/// Why a buffer could not be parsed, or why an element could not be read.
#[allow(non_camel_case_types)]
#[derive(Clone, Copy, Debug, Eq, Hash, PartialEq, Structural)]
pub enum cluLamanshErr {
    ///A view over no data was asked for an element.
    ErrEmptyLamansh,
    ///The buffer is too short to hold the count field.
    ErrGetSliceSizeHeadArray,
    ///The buffer is too short to hold the declared length table.
    ErrGetSliceValueHeadArray,
    ///The buffer cannot yield the value region.
    ErrGetSliceValueArray,
    ///A declared element length exceeds what the value region still holds.
    ErrNextSliceValue,
}

/// Parses a buffer into its length-table region and its value region.
///
/// A zero-length buffer stands for the empty sequence and parses to two
/// empty regions. Otherwise the buffer must hold the count field and the
/// length table it declares; whatever follows them is the value region.
pub open spec fn spec_parse(cw: nat, lw: nat, b: Seq<u8>) -> Result<
    (Seq<u8>, Seq<u8>),
    cluLamanshErr,
> {
    if b.len() == 0 {
        Ok((Seq::empty(), Seq::empty()))
    } else if b.len() < cw {
        Err(cluLamanshErr::ErrGetSliceSizeHeadArray)
    } else {
        let k = be_val(b.subrange(0, cw as int)) + 1;
        if b.len() < cw + k * lw {
            Err(cluLamanshErr::ErrGetSliceValueHeadArray)
        } else {
            Ok(
                (
                    b.subrange(cw as int, cw as int + k * lw),
                    b.subrange(cw as int + k * lw, b.len() as int),
                ),
            )
        }
    }
}

/// `k * d <= x` exactly when `k <= x / d`, for positive `d`.
proof fn lemma_mul_le_iff_div(x: int, d: int, k: int)
    requires
        x >= 0,
        d >= 1,
        k >= 0,
    ensures
        (k * d <= x) <==> (k <= x / d),
{
    vstd::arithmetic::div_mod::lemma_fundamental_div_mod(x, d);
    vstd::arithmetic::div_mod::lemma_mod_bound(x, d);
    if k <= x / d {
        assert(k * d <= (x / d) * d) by (nonlinear_arith)
            requires
                k <= x / d,
                d >= 1,
        ;
        assert((x / d) * d <= x) by (nonlinear_arith)
            requires
                x == d * (x / d) + x % d,
                x % d >= 0,
        ;
    } else {
        assert(k * d >= (x / d + 1) * d) by (nonlinear_arith)
            requires
                k >= x / d + 1,
                d >= 1,
        ;
        assert((x / d + 1) * d > x) by (nonlinear_arith)
            requires
                x == d * (x / d) + x % d,
                x % d < d,
        ;
    }
}

/// A zero-copy view over an encoded buffer, holding the buffer itself and
/// its two derived regions; the count field is consumed at construction.
#[allow(non_camel_case_types)]
#[derive(Debug)]
pub struct cluLamansh<'a, NC: LamanshSized, N: LamanshSized> {
    pub(crate) array: &'a [u8],
    pub(crate) value_head_array: &'a [u8],
    pub(crate) value_array: &'a [u8],
    pub(crate) _n_count_phantom: PhantomData<NC>,
    pub(crate) _n_phantom: PhantomData<N>,
}

impl<'a, NC: LamanshSized, N: LamanshSized> cluLamansh<'a, NC, N> {
    /// The raw buffer this view was parsed from.
    pub closed spec fn spec_array(&self) -> Seq<u8> {
        self.array@
    }

    /// The length-table region.
    pub closed spec fn head(&self) -> Seq<u8> {
        self.value_head_array@
    }

    /// The value region.
    pub closed spec fn values(&self) -> Seq<u8> {
        self.value_array@
    }

    /// Within the crate, the spec accessors are the views of the fields.
    pub(crate) proof fn lemma_regions(&self)
        ensures
            self.spec_array() == self.array@,
            self.head() == self.value_head_array@,
            self.values() == self.value_array@,
    {
    }

    /// The view holds exactly the regions its buffer parses to.
    pub open spec fn wf(&self) -> bool {
        spec_parse(NC::spec_byted(), N::spec_byted(), self.spec_array()) == Ok::<
            (Seq<u8>, Seq<u8>),
            cluLamanshErr,
        >((self.head(), self.values()))
    }

    /// Parses a buffer into a view: the count field is read, the length
    /// table it declares is located, and the rest becomes the value region.
    pub fn array(array: &'a [u8]) -> (r: Result<Self, cluLamanshErr>)
        ensures
            match r {
                Ok(v) => v.spec_array() == array@ && v.wf() && spec_parse(
                    NC::spec_byted(),
                    N::spec_byted(),
                    array@,
                ) == Ok::<(Seq<u8>, Seq<u8>), cluLamanshErr>((v.head(), v.values())),
                Err(e) => spec_parse(NC::spec_byted(), N::spec_byted(), array@) == Err::<
                    (Seq<u8>, Seq<u8>),
                    cluLamanshErr,
                >(e),
            },
    {
        proof {
            NC::lemma_well_formed();
            N::lemma_well_formed();
        }
        let ghost cw = NC::spec_byted();
        let ghost lw = N::spec_byted();
        let byted_count: usize = NC::byted();
        if array.len() == 0 {
            let empty: &[u8] = slice_subrange(array, 0, 0);
            proof {
                assert(empty@ =~= Seq::<u8>::empty());
            }
            return Ok(
                cluLamansh {
                    array,
                    value_head_array: empty,
                    value_array: empty,
                    _n_count_phantom: PhantomData,
                    _n_phantom: PhantomData,
                },
            );
        }
        if array.len() < byted_count {
            return Err(cluLamanshErr::ErrGetSliceSizeHeadArray);
        }
        let count_slice: &[u8] = slice_subrange(array, 0, byted_count);
        let raw: u64 = read_be(count_slice);
        let size_value: usize = N::byted();
        let avail: usize = array.len() - byted_count;
        let ghost k = be_val(array@.subrange(0, cw as int)) + 1;
        proof {
            assert(count_slice@ == array@.subrange(0, cw as int));
            lemma_mul_le_iff_div(avail as int, lw as int, k as int);
        }
        if raw >= (avail / size_value) as u64 {
            proof {
                assert(k > avail as int / lw as int);
                assert(array@.len() < cw + k * lw);
            }
            return Err(cluLamanshErr::ErrGetSliceValueHeadArray);
        }
        let count_header: usize = (raw as usize) + 1;
        proof {
            assert(k * lw <= avail as int);
            assert(count_header as int * size_value as int == k * lw);
        }
        let n: usize = byted_count + size_value * count_header;
        let value_head_array: &[u8] = slice_subrange(array, byted_count, n);
        let value_array: &[u8] = slice_subrange(array, n, array.len());
        proof {
            assert(value_head_array@ == array@.subrange(cw as int, cw as int + k * lw));
            assert(value_array@ == array@.subrange(cw as int + k * lw, array@.len() as int));
        }
        Ok(
            cluLamansh {
                array,
                value_head_array,
                value_array,
                _n_count_phantom: PhantomData,
                _n_phantom: PhantomData,
            },
        )
    }

    /// Parses a buffer into a view.
    pub fn new(array: &'a [u8]) -> (r: Result<Self, cluLamanshErr>)
        ensures
            match r {
                Ok(v) => v.spec_array() == array@ && v.wf() && spec_parse(
                    NC::spec_byted(),
                    N::spec_byted(),
                    array@,
                ) == Ok::<(Seq<u8>, Seq<u8>), cluLamanshErr>((v.head(), v.values())),
                Err(e) => spec_parse(NC::spec_byted(), N::spec_byted(), array@) == Err::<
                    (Seq<u8>, Seq<u8>),
                    cluLamanshErr,
                >(e),
            },
    {
        Self::array(array)
    }
}

} // verus!
