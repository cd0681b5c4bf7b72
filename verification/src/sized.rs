//! The fixed-width integer capability used for the count field and the
//! length table: five byte widths, each reading and writing big-endian.

use vstd::prelude::*;

use crate::bigend::be_bytes;
use crate::bigend::be_val;
use crate::bigend::lemma_pow256_values;
use crate::bigend::pow256;
use crate::bigend::read_be;
use crate::bigend::write_be;

verus! {

/// A compile-time tag selecting one of the supported header-field widths.
///
/// `spec_byted` is the field's width in bytes and `spec_max` the largest
/// value such a field can hold; `read_usize` and `write_usize` move a value
/// between its in-memory form and its big-endian encoding.
pub trait LamanshSized: Sized {
    spec fn spec_byted() -> nat;

    spec fn spec_max() -> nat;

    /// The width is one of the supported ones and the maximum is exactly
    /// what a big-endian field of that width can hold.
    proof fn lemma_well_formed()
        ensures
            1 <= Self::spec_byted() <= 8,
            Self::spec_max() == pow256(Self::spec_byted()) - 1,
    ;

    fn bits() -> (r: usize)
        ensures
            r as nat == 8 * Self::spec_byted(),
    ;

    fn byted() -> (r: usize)
        ensures
            r as nat == Self::spec_byted(),
    ;

    /// The largest representable value, capped at what fits in a `usize`.
    fn max_value() -> (r: usize)
        ensures
            r as nat == if Self::spec_max() <= usize::MAX as nat {
                Self::spec_max()
            } else {
                usize::MAX as nat
            },
    ;

    fn read_usize(array: &[u8]) -> (r: usize)
        requires
            array@.len() == Self::spec_byted(),
            be_val(array@) <= usize::MAX as nat,
        ensures
            r as nat == be_val(array@),
    ;

    fn write_usize(num: usize, out: &mut Vec<u8>, at: usize)
        requires
            num as nat <= Self::spec_max(),
            at + Self::spec_byted() <= old(out)@.len(),
        ensures
            final(out)@.len() == old(out)@.len(),
            final(out)@.subrange(at as int, at + Self::spec_byted()) == be_bytes(
                num as nat,
                Self::spec_byted(),
            ),
            forall|i: int| 0 <= i < at ==> final(out)@[i] == old(out)@[i],
            forall|i: int|
                at + Self::spec_byted() <= i < old(out)@.len() ==> final(out)@[i] == old(
                    out,
                )@[i],
    ;
}

/// 8-bit header fields.
#[derive(Clone, Debug, Eq, Hash, Ord, PartialEq, PartialOrd)]
pub enum LamanshU8 { Marker }

/// 16-bit header fields.
#[derive(Clone, Debug, Eq, Hash, Ord, PartialEq, PartialOrd)]
pub enum LamanshU16 { Marker }

/// 24-bit header fields.
#[derive(Clone, Debug, Eq, Hash, Ord, PartialEq, PartialOrd)]
pub enum LamanshU24 { Marker }

/// 32-bit header fields.
#[derive(Clone, Debug, Eq, Hash, Ord, PartialEq, PartialOrd)]
pub enum LamanshU32 { Marker }

/// 64-bit header fields.
#[derive(Clone, Debug, Eq, Hash, Ord, PartialEq, PartialOrd)]
pub enum LamanshU64 { Marker }

///255 len
pub type U8 = LamanshU8;

///65535 len
pub type U16 = LamanshU16;

///4294967295 len
pub type U32 = LamanshU32;

///18446744073709551615 len
pub type U64 = LamanshU64;

pub type LamanshNameCountSized = LamanshU8;

pub type LamanshNameSized = LamanshU8;

pub type LamanshValueSized = LamanshU64;

impl LamanshSized for LamanshU8 {
    open spec fn spec_byted() -> nat {
        1
    }

    open spec fn spec_max() -> nat {
        0xff
    }

    proof fn lemma_well_formed() {
        lemma_pow256_values();
    }

    fn bits() -> usize {
        8
    }

    fn byted() -> usize {
        1
    }

    fn max_value() -> usize {
        0xff
    }

    fn read_usize(array: &[u8]) -> usize {
        read_be(array) as usize
    }

    fn write_usize(num: usize, out: &mut Vec<u8>, at: usize) {
        proof {
            lemma_pow256_values();
        }
        write_be(out, at, 1, num as u64);
    }
}

impl LamanshSized for LamanshU16 {
    open spec fn spec_byted() -> nat {
        2
    }

    open spec fn spec_max() -> nat {
        0xffff
    }

    proof fn lemma_well_formed() {
        lemma_pow256_values();
    }

    fn bits() -> usize {
        16
    }

    fn byted() -> usize {
        2
    }

    fn max_value() -> usize {
        0xffff
    }

    fn read_usize(array: &[u8]) -> usize {
        read_be(array) as usize
    }

    fn write_usize(num: usize, out: &mut Vec<u8>, at: usize) {
        proof {
            lemma_pow256_values();
        }
        write_be(out, at, 2, num as u64);
    }
}

impl LamanshSized for LamanshU24 {
    open spec fn spec_byted() -> nat {
        3
    }

    open spec fn spec_max() -> nat {
        0xff_ffff
    }

    proof fn lemma_well_formed() {
        lemma_pow256_values();
    }

    fn bits() -> usize {
        24
    }

    fn byted() -> usize {
        3
    }

    fn max_value() -> usize {
        0xff_ffff
    }

    fn read_usize(array: &[u8]) -> usize {
        read_be(array) as usize
    }

    fn write_usize(num: usize, out: &mut Vec<u8>, at: usize) {
        proof {
            lemma_pow256_values();
        }
        write_be(out, at, 3, num as u64);
    }
}

impl LamanshSized for LamanshU32 {
    open spec fn spec_byted() -> nat {
        4
    }

    open spec fn spec_max() -> nat {
        0xffff_ffff
    }

    proof fn lemma_well_formed() {
        lemma_pow256_values();
    }

    fn bits() -> usize {
        32
    }

    fn byted() -> usize {
        4
    }

    fn max_value() -> usize {
        0xffff_ffff
    }

    fn read_usize(array: &[u8]) -> usize {
        proof {
            lemma_pow256_values();
        }
        read_be(array) as usize
    }

    fn write_usize(num: usize, out: &mut Vec<u8>, at: usize) {
        proof {
            lemma_pow256_values();
        }
        write_be(out, at, 4, num as u64);
    }
}

impl LamanshSized for LamanshU64 {
    open spec fn spec_byted() -> nat {
        8
    }

    open spec fn spec_max() -> nat {
        0xffff_ffff_ffff_ffff
    }

    proof fn lemma_well_formed() {
        lemma_pow256_values();
    }

    fn bits() -> usize {
        64
    }

    fn byted() -> usize {
        8
    }

    fn max_value() -> usize {
        usize::MAX
    }

    fn read_usize(array: &[u8]) -> usize {
        proof {
            lemma_pow256_values();
        }
        read_be(array) as usize
    }

    fn write_usize(num: usize, out: &mut Vec<u8>, at: usize) {
        proof {
            lemma_pow256_values();
        }
        write_be(out, at, 8, num as u64);
    }
}

} // verus!
