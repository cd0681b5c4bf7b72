//! The mathematical model of the container format: the three regions of an
//! encoded buffer and the functions that relate them to the element
//! sequence they carry.

use vstd::prelude::*;

use crate::bigend::be_bytes;
use crate::bigend::be_val;
use crate::bigend::lemma_be_bytes_len;
use crate::bigend::lemma_be_bytes_val;
use crate::bigend::pow256;

verus! {

/// The byte strings behind a sequence of viewable elements, element-wise:
/// slices and owned vectors alike.
pub open spec fn seq_views<Element: View>(es: Seq<Element>) -> Seq<Element::V> {
    Seq::new(es.len(), |i: int| es[i]@)
}

/// Every element's length fits the length field.
pub open spec fn elems_fit(s: Seq<Seq<u8>>, lmax: nat) -> bool {
    forall|i: int| 0 <= i < s.len() ==> (#[trigger] s[i]).len() <= lmax
}

/// The sum of the element lengths: the size of the value region.
pub open spec fn values_len(s: Seq<Seq<u8>>) -> nat
    decreases s.len(),
{
    if s.len() == 0 {
        0
    } else {
        values_len(s.drop_last()) + s.last().len()
    }
}

/// The length table: one fixed-width entry per element, in element order.
pub open spec fn table_bytes(lw: nat, s: Seq<Seq<u8>>) -> Seq<u8>
    decreases s.len(),
{
    if s.len() == 0 {
        Seq::empty()
    } else {
        table_bytes(lw, s.drop_last()) + be_bytes(s.last().len(), lw)
    }
}

/// The value region: the elements concatenated in order, with no padding.
pub open spec fn values_bytes(s: Seq<Seq<u8>>) -> Seq<u8>
    decreases s.len(),
{
    if s.len() == 0 {
        Seq::empty()
    } else {
        values_bytes(s.drop_last()) + s.last()
    }
}

/// The whole encoded container for a non-empty sequence: the count field
/// (holding one less than the element count), the length table, the values.
pub open spec fn spec_encode(cw: nat, lw: nat, s: Seq<Seq<u8>>) -> Seq<u8>
    recommends
        s.len() >= 1,
{
    be_bytes((s.len() - 1) as nat, cw) + table_bytes(lw, s) + values_bytes(s)
}

/// The size in bytes of the whole encoded container.
pub open spec fn encoded_len(cw: nat, lw: nat, s: Seq<Seq<u8>>) -> nat {
    cw + s.len() * lw + values_len(s)
}

/// What the strict encode path accepts: a non-empty sequence whose biased
/// count fits the count field and whose element lengths fit the length field.
pub open spec fn encodable(cmax: nat, lmax: nat, s: Seq<Seq<u8>>) -> bool {
    &&& s.len() >= 1
    &&& s.len() - 1 <= cmax
    &&& elems_fit(s, lmax)
}

/// The length declared for element `i` by a length-table region.
pub open spec fn table_entry(lw: nat, head: Seq<u8>, i: int) -> nat {
    be_val(head.subrange(i * lw, i * lw + lw))
}

/// Where element `i` starts in the value region: the sum of the lengths the
/// table declares before it.
pub open spec fn value_offset(lw: nat, head: Seq<u8>, i: int) -> nat
    decreases i,
{
    if i <= 0 {
        0
    } else {
        value_offset(lw, head, i - 1) + table_entry(lw, head, i - 1)
    }
}

pub proof fn lemma_values_len_take_step(s: Seq<Seq<u8>>, i: int)
    requires
        0 <= i < s.len(),
    ensures
        values_len(s.take(i + 1)) == values_len(s.take(i)) + s[i].len() as int,
{
    assert(s.take(i + 1).drop_last() =~= s.take(i));
    assert(s.take(i + 1).last() == s[i]);
}

pub proof fn lemma_table_bytes_take_step(lw: nat, s: Seq<Seq<u8>>, i: int)
    requires
        0 <= i < s.len(),
    ensures
        table_bytes(lw, s.take(i + 1)) == table_bytes(lw, s.take(i)) + be_bytes(s[i].len(), lw),
{
    assert(s.take(i + 1).drop_last() =~= s.take(i));
    assert(s.take(i + 1).last() == s[i]);
}

pub proof fn lemma_values_bytes_take_step(s: Seq<Seq<u8>>, i: int)
    requires
        0 <= i < s.len(),
    ensures
        values_bytes(s.take(i + 1)) == values_bytes(s.take(i)) + s[i],
{
    assert(s.take(i + 1).drop_last() =~= s.take(i));
    assert(s.take(i + 1).last() == s[i]);
}

pub proof fn lemma_values_bytes_len(s: Seq<Seq<u8>>)
    ensures
        values_bytes(s).len() == values_len(s),
    decreases s.len(),
{
    if s.len() > 0 {
        lemma_values_bytes_len(s.drop_last());
    }
}

pub proof fn lemma_table_bytes_len(lw: nat, s: Seq<Seq<u8>>)
    ensures
        table_bytes(lw, s).len() == s.len() * lw,
    decreases s.len(),
{
    if s.len() > 0 {
        lemma_table_bytes_len(lw, s.drop_last());
        lemma_be_bytes_len(s.last().len(), lw);
        assert((s.len() - 1) * lw + lw == s.len() * lw) by (nonlinear_arith);
    } else {
        assert(s.len() * lw == 0) by (nonlinear_arith)
            requires
                s.len() == 0,
        ;
    }
}

/// The length table of an encoding declares exactly the element lengths.
pub proof fn lemma_table_bytes_entry(lw: nat, s: Seq<Seq<u8>>, i: int)
    requires
        0 <= i < s.len(),
    ensures
        table_bytes(lw, s).subrange(i * lw, i * lw + lw) == be_bytes(s[i].len(), lw),
    decreases s.len(),
{
    lemma_table_bytes_len(lw, s.drop_last());
    lemma_be_bytes_len(s.last().len(), lw);
    if i == s.len() - 1 {
        assert(table_bytes(lw, s).subrange(i * lw, i * lw + lw) =~= be_bytes(
            s.last().len(),
            lw,
        )) by {
            assert(i * lw == (s.len() - 1) * lw);
        };
    } else {
        lemma_table_bytes_entry(lw, s.drop_last(), i);
        assert((i + 1) * lw <= (s.len() - 1) * lw) by (nonlinear_arith)
            requires
                i + 1 <= s.len() - 1,
                lw >= 0,
        ;
        assert(i * lw + lw == (i + 1) * lw) by (nonlinear_arith);
        assert(table_bytes(lw, s).subrange(i * lw, i * lw + lw) =~= table_bytes(
            lw,
            s.drop_last(),
        ).subrange(i * lw, i * lw + lw));
        assert(s.drop_last()[i] == s[i]);
    }
}

/// Entries decode back to the element lengths when those lengths fit.
pub proof fn lemma_table_entry_decodes(lw: nat, s: Seq<Seq<u8>>, i: int)
    requires
        lw >= 1,
        0 <= i < s.len(),
        elems_fit(s, (pow256(lw) - 1) as nat),
    ensures
        table_entry(lw, table_bytes(lw, s), i) == s[i].len(),
{
    lemma_table_bytes_entry(lw, s, i);
    crate::bigend::lemma_pow256_pos(lw);
    assert(s[i].len() <= (pow256(lw) - 1) as nat);
    lemma_be_bytes_val(s[i].len(), lw);
}

/// The declared offsets of an encoding are the running sums of the element
/// lengths.
pub proof fn lemma_value_offset_decodes(lw: nat, s: Seq<Seq<u8>>, i: int)
    requires
        lw >= 1,
        0 <= i <= s.len(),
        elems_fit(s, (pow256(lw) - 1) as nat),
    ensures
        value_offset(lw, table_bytes(lw, s), i) == values_len(s.take(i)),
    decreases i,
{
    if i == 0 {
        assert(s.take(0) =~= Seq::<Seq<u8>>::empty());
    } else {
        lemma_value_offset_decodes(lw, s, i - 1);
        lemma_table_entry_decodes(lw, s, i - 1);
        lemma_values_len_take_step(s, i - 1);
    }
}

pub proof fn lemma_values_len_take_mono(s: Seq<Seq<u8>>, a: int, b: int)
    requires
        0 <= a <= b <= s.len(),
    ensures
        values_len(s.take(a)) <= values_len(s.take(b)),
    decreases b - a,
{
    if a < b {
        lemma_values_len_take_mono(s, a, b - 1);
        lemma_values_len_take_step(s, b - 1);
    }
}

/// Each element sits unchanged at its declared offset in the value region.
pub proof fn lemma_values_bytes_slice(s: Seq<Seq<u8>>, i: int)
    requires
        0 <= i < s.len(),
    ensures
        values_bytes(s).subrange(
            values_len(s.take(i)) as int,
            values_len(s.take(i)) + s[i].len() as int,
        ) == s[i],
    decreases s.len(),
{
    lemma_values_bytes_len(s.drop_last());
    if i == s.len() - 1 {
        assert(s.take(i) =~= s.drop_last());
        assert(values_bytes(s).subrange(
            values_len(s.take(i)) as int,
            values_len(s.take(i)) + s[i].len() as int,
        ) =~= s[i]);
    } else {
        lemma_values_bytes_slice(s.drop_last(), i);
        assert(s.drop_last().take(i) =~= s.take(i));
        assert(s.drop_last()[i] == s[i]);
        lemma_values_len_take_mono(s.drop_last(), i + 1, s.len() - 1);
        lemma_values_len_take_step(s.drop_last(), i);
        assert(s.drop_last().take(s.len() - 1) =~= s.drop_last());
        assert(values_len(s.take(i)) + s[i].len() <= values_bytes(s.drop_last()).len());
        assert(values_bytes(s).subrange(
            values_len(s.take(i)) as int,
            values_len(s.take(i)) + s[i].len() as int,
        ) =~= values_bytes(s.drop_last()).subrange(
            values_len(s.take(i)) as int,
            values_len(s.take(i)) + s[i].len() as int,
        ));
    }
}

} // verus!
