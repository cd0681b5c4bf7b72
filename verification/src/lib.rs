//! A compact binary container format for an ordered sequence of byte strings.
//!
//! The encoded buffer holds three contiguous regions: a fixed-width count
//! field (storing the element count minus one), a length table with one
//! fixed-width entry per element, and the concatenated element bytes.
//! Both header widths are chosen independently through the
//! [`sized::LamanshSized`] capability (8, 16, 24, 32 or 64 bits, big-endian).
//!
//! [`encode::to_lamansh`] serializes a sequence; [`lamansh::cluLamansh`]
//! parses a buffer back into its regions without copying, and its iterators
//! yield the elements one by one.

use vstd::prelude::*;

pub mod array;
pub mod bigend;
pub mod buffer;
pub mod dyn_chunks;
pub mod encode;
pub mod format;
pub mod iter;
pub mod lamansh;
pub mod laws;
pub mod sized;

use crate::lamansh::cluLamansh;
use crate::lamansh::cluLamanshErr;
use crate::lamansh::spec_parse;
use crate::sized::LamanshNameCountSized;
use crate::sized::LamanshSized;
use crate::sized::LamanshValueSized;
use crate::sized::U8;

verus! {

/// Creates a decoding view with custom header widths for the count field
/// and the length table.
pub fn new_custom_lamansh<'a, NC: LamanshSized, N: LamanshSized>(array: &'a [u8]) -> (r: Result<
    cluLamansh<'a, NC, N>,
    cluLamanshErr,
>)
    ensures
        match r {
            Ok(v) => v.spec_array() == array@ && v.wf() && spec_parse(
                NC::spec_byted(),
                N::spec_byted(),
                array@,
            ) == Ok::<(Seq<u8>, Seq<u8>), cluLamanshErr>((v.head(), v.values())),
            Err(e) => spec_parse(NC::spec_byted(), N::spec_byted(), array@) == Err::<
                (Seq<u8>, Seq<u8>),
                cluLamanshErr,
            >(e),
        },
{
    cluLamansh::new(array)
}

/// Creates a decoding view with the default widths: an 8-bit count field
/// and a 64-bit length table.
pub fn new_lamansh<'a>(array: &'a [u8]) -> (r: Result<
    cluLamansh<'a, LamanshNameCountSized, LamanshValueSized>,
    cluLamanshErr,
>)
    ensures
        match r {
            Ok(v) => v.spec_array() == array@ && v.wf(),
            Err(e) => spec_parse(
                LamanshNameCountSized::spec_byted(),
                LamanshValueSized::spec_byted(),
                array@,
            ) == Err::<(Seq<u8>, Seq<u8>), cluLamanshErr>(e),
        },
{
    new_custom_lamansh(array)
}

/// Creates a decoding view with the smallest widths: 8-bit count field and
/// 8-bit length table.
pub fn new_lamansh_mini<'a>(array: &'a [u8]) -> (r: Result<
    cluLamansh<'a, U8, U8>,
    cluLamanshErr,
>)
    ensures
        match r {
            Ok(v) => v.spec_array() == array@ && v.wf(),
            Err(e) => spec_parse(U8::spec_byted(), U8::spec_byted(), array@) == Err::<
                (Seq<u8>, Seq<u8>),
                cluLamanshErr,
            >(e),
        },
{
    new_custom_lamansh(array)
}

} // verus!
