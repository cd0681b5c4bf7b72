//! The format's guarantees, stated and proved over the model: a round trip
//! through encode and decode gives back the sequence, a truncated value
//! region is detected at the affected element, and an empty buffer decodes
//! to no elements.

use vstd::prelude::*;

use crate::bigend::be_val;
use crate::bigend::lemma_be_bytes_len;
use crate::bigend::lemma_be_bytes_val;
use crate::bigend::pow256;
use crate::format::elems_fit;
use crate::format::lemma_table_bytes_len;
use crate::format::lemma_table_entry_decodes;
use crate::format::lemma_value_offset_decodes;
use crate::format::lemma_values_bytes_len;
use crate::format::lemma_values_bytes_slice;
use crate::format::lemma_values_len_take_mono;
use crate::format::lemma_values_len_take_step;
use crate::format::spec_encode;
use crate::format::table_bytes;
use crate::format::table_entry;
use crate::format::value_offset;
use crate::format::values_bytes;
use crate::format::values_len;
use crate::iter::spec_next_step;
use crate::lamansh::cluLamanshErr;
use crate::lamansh::spec_parse;

verus! {

/// Offsets declared by a length table never decrease.
pub proof fn lemma_value_offset_mono(lw: nat, head: Seq<u8>, a: int, b: int)
    requires
        a <= b,
    ensures
        value_offset(lw, head, a) <= value_offset(lw, head, b),
    decreases b - a,
{
    if a < b {
        lemma_value_offset_mono(lw, head, a, b - 1);
    }
}

/// Round trip: encoding a valid non-empty sequence and parsing the result
/// yields exactly its length table and value region, and every element sits
/// at its declared offset with its declared length — so an iterator walking
/// the parsed view yields the original elements, in order, and then stops.
pub proof fn lemma_round_trip(cw: nat, lw: nat, s: Seq<Seq<u8>>)
    requires
        cw >= 1,
        lw >= 1,
        1 <= s.len() <= pow256(cw),
        elems_fit(s, (pow256(lw) - 1) as nat),
    ensures
        spec_parse(cw, lw, spec_encode(cw, lw, s)) == Ok::<(Seq<u8>, Seq<u8>), cluLamanshErr>(
            (table_bytes(lw, s), values_bytes(s)),
        ),
        table_bytes(lw, s).len() == s.len() * lw,
        values_bytes(s).len() == values_len(s),
        forall|i: int|
            0 <= i < s.len() ==> #[trigger] table_entry(lw, table_bytes(lw, s), i) == s[i].len(),
        forall|i: int|
            0 <= i < s.len() ==> #[trigger] value_offset(lw, table_bytes(lw, s), i) == values_len(
                s.take(i),
            ),
        forall|i: int|
            0 <= i < s.len() ==> value_offset(lw, table_bytes(lw, s), i) + s[i].len()
                <= values_bytes(s).len(),
        forall|i: int|
            0 <= i < s.len() ==> values_bytes(s).subrange(
                value_offset(lw, table_bytes(lw, s), i) as int,
                value_offset(lw, table_bytes(lw, s), i) + s[i].len() as int,
            ) == s[i],
        value_offset(lw, table_bytes(lw, s), s.len() as int) == values_bytes(s).len(),
{
    let count = be_bytes_count(cw, s);
    let table = table_bytes(lw, s);
    let values = values_bytes(s);
    let b = spec_encode(cw, lw, s);
    lemma_be_bytes_len((s.len() - 1) as nat, cw);
    lemma_table_bytes_len(lw, s);
    lemma_values_bytes_len(s);
    assert(b.len() == cw + s.len() * lw + values.len());
    assert(s.len() * lw >= 0);

    // The count field reads back as the biased count.
    assert(b.subrange(0, cw as int) =~= count);
    lemma_be_bytes_val((s.len() - 1) as nat, cw);
    let k = be_val_of(cw, b) + 1;
    assert(k == s.len());

    // The two regions are sliced back out unchanged.
    assert(b.subrange(cw as int, cw as int + k * lw) =~= table);
    assert(b.subrange(cw as int + k * lw, b.len() as int) =~= values);

    assert forall|i: int| 0 <= i < s.len() implies #[trigger] table_entry(lw, table, i)
        == s[i].len() by {
        lemma_table_entry_decodes(lw, s, i);
    };
    assert forall|i: int| 0 <= i < s.len() implies #[trigger] value_offset(lw, table, i)
        == values_len(s.take(i)) by {
        lemma_value_offset_decodes(lw, s, i);
    };
    assert forall|i: int| 0 <= i < s.len() implies value_offset(lw, table, i) + s[i].len()
        <= values.len() by {
        lemma_value_offset_decodes(lw, s, i);
        lemma_values_len_take_step(s, i);
        lemma_values_len_take_mono(s, i + 1, s.len() as int);
        assert(s.take(s.len() as int) =~= s);
    };
    assert forall|i: int| 0 <= i < s.len() implies values.subrange(
        value_offset(lw, table, i) as int,
        value_offset(lw, table, i) + s[i].len() as int,
    ) == s[i] by {
        lemma_value_offset_decodes(lw, s, i);
        lemma_values_bytes_slice(s, i);
    };
    lemma_value_offset_decodes(lw, s, s.len() as int);
    assert(s.take(s.len() as int) =~= s);
}

/// Round trip, step by step: an iterator over the parsed encoding of a
/// valid sequence stands before element `i` with its cursors at `i`-th
/// table entry and `i`-th declared offset; from there one `next` call
/// yields exactly the `i`-th original element and moves both cursors one
/// element on — and once every element is out, it yields `None`.
pub proof fn lemma_round_trip_step(
    cw: nat,
    lw: nat,
    s: Seq<Seq<u8>>,
    i: int,
    r: Option<Result<&[u8], cluLamanshErr>>,
    hp2: nat,
    vp2: nat,
)
    requires
        cw >= 1,
        lw >= 1,
        1 <= s.len() <= pow256(cw),
        elems_fit(s, (pow256(lw) - 1) as nat),
        0 <= i <= s.len(),
        spec_next_step(
            lw,
            table_bytes(lw, s),
            values_bytes(s),
            (i * lw) as nat,
            values_len(s.take(i)),
            r,
            hp2,
            vp2,
        ),
    ensures
        i < s.len() ==> (r matches Some(Ok(a)) && a@ == s[i]) && hp2 == (i + 1) * lw && vp2
            == values_len(s.take(i + 1)),
        i == s.len() ==> r is None,
{
    lemma_round_trip(cw, lw, s);
    let table = table_bytes(lw, s);
    let values = values_bytes(s);
    if i < s.len() {
        assert(i * lw + lw == (i + 1) * lw) by (nonlinear_arith);
        assert((i + 1) * lw <= s.len() * lw) by (nonlinear_arith)
            requires
                i + 1 <= s.len(),
                lw >= 0,
        ;
        assert(table_entry(lw, table, i) == be_val(
            table.subrange(i * lw, i * lw + lw),
        ));
        assert(value_offset(lw, table, i) == values_len(s.take(i)));
        lemma_values_len_take_step(s, i);
    } else {
        assert(i * lw == s.len() * lw);
        assert(i * lw + lw > table.len());
    }
}

/// The count field of an encoding, as a sequence.
spec fn be_bytes_count(cw: nat, s: Seq<Seq<u8>>) -> Seq<u8> {
    crate::bigend::be_bytes((s.len() - 1) as nat, cw)
}

/// What the count field of a buffer reads back as.
spec fn be_val_of(cw: nat, b: Seq<u8>) -> nat {
    crate::bigend::be_val(b.subrange(0, cw as int))
}

/// Somewhere before `m` the declared offsets cross `target`: the first
/// element whose declared end lies beyond it.
proof fn lemma_offset_crossing(lw: nat, head: Seq<u8>, m: int, target: int) -> (j: int)
    requires
        m >= 1,
        0 <= target,
        target < value_offset(lw, head, m),
    ensures
        0 <= j < m,
        value_offset(lw, head, j) <= target,
        target < value_offset(lw, head, j) + table_entry(lw, head, j),
    decreases m,
{
    if value_offset(lw, head, m - 1) <= target {
        m - 1
    } else {
        lemma_offset_crossing(lw, head, m - 1, target)
    }
}

/// Corruption detection: truncate the value region of a valid encoding by
/// `d` bytes and the buffer still parses, every element before the affected
/// one reads back intact, and at the affected element the declared length
/// overruns what is left — the iterator reports it instead of yielding data.
///
/// Returns the index of the affected element.
pub proof fn lemma_truncation_detected(cw: nat, lw: nat, s: Seq<Seq<u8>>, d: nat) -> (j: int)
    requires
        cw >= 1,
        lw >= 1,
        1 <= s.len() <= pow256(cw),
        elems_fit(s, (pow256(lw) - 1) as nat),
        1 <= d <= values_len(s),
    ensures
        spec_parse(cw, lw, spec_encode(cw, lw, s).take(spec_encode(cw, lw, s).len() - d)) == Ok::<
            (Seq<u8>, Seq<u8>),
            cluLamanshErr,
        >((table_bytes(lw, s), values_bytes(s).take(values_bytes(s).len() - d))),
        0 <= j < s.len(),
        value_offset(lw, table_bytes(lw, s), j) <= values_len(s) - d,
        value_offset(lw, table_bytes(lw, s), j) + table_entry(lw, table_bytes(lw, s), j)
            > values_len(s) - d,
        forall|i: int|
            0 <= i < j ==> #[trigger] value_offset(lw, table_bytes(lw, s), i) + table_entry(
                lw,
                table_bytes(lw, s),
                i,
            ) <= values_len(s) - d,
        forall|i: int|
            0 <= i < j ==> values_bytes(s).take(values_bytes(s).len() - d).subrange(
                value_offset(lw, table_bytes(lw, s), i) as int,
                value_offset(lw, table_bytes(lw, s), i) as int + table_entry(lw, table_bytes(lw, s), i),
            ) == s[i],
{
    let table = table_bytes(lw, s);
    let values = values_bytes(s);
    let b = spec_encode(cw, lw, s);
    lemma_round_trip(cw, lw, s);
    let vl2 = values.len() - d;
    let bt = b.take(b.len() - d);
    lemma_be_bytes_len((s.len() - 1) as nat, cw);
    lemma_table_bytes_len(lw, s);
    lemma_values_bytes_len(s);

    // The truncated buffer still holds the count field and the length table.
    assert(bt.len() == cw + s.len() * lw + vl2);
    assert(s.len() * lw >= 0);
    assert(bt.subrange(0, cw as int) =~= b.subrange(0, cw as int));
    assert(b.subrange(0, cw as int) =~= be_bytes_count(cw, s));
    lemma_be_bytes_val((s.len() - 1) as nat, cw);
    let k = be_val_of(cw, bt) + 1;
    assert(k == s.len());
    assert(bt.subrange(cw as int, cw as int + k * lw) =~= table);
    assert(bt.subrange(cw as int + k * lw, bt.len() as int) =~= values.take(vl2));

    // The declared offsets cross the truncated end at some element.
    lemma_value_offset_decodes(lw, s, s.len() as int);
    assert(s.take(s.len() as int) =~= s);
    assert(value_offset(lw, table, s.len() as int) == values.len());
    let j = lemma_offset_crossing(lw, table, s.len() as int, vl2);

    assert forall|i: int| 0 <= i < j implies #[trigger] value_offset(lw, table, i) + table_entry(
        lw,
        table,
        i,
    ) <= vl2 by {
        assert(value_offset(lw, table, i + 1) == value_offset(lw, table, i) + table_entry(
            lw,
            table,
            i,
        ));
        lemma_value_offset_mono(lw, table, i + 1, j);
    };
    assert forall|i: int| 0 <= i < j implies values.take(vl2).subrange(
        value_offset(lw, table, i) as int,
        value_offset(lw, table, i) as int + table_entry(lw, table, i),
    ) == s[i] by {
        assert(table_entry(lw, table, i) == s[i].len());
        assert(value_offset(lw, table, i) + table_entry(lw, table, i) <= vl2);
        assert(values.take(vl2).subrange(
            value_offset(lw, table, i) as int,
            value_offset(lw, table, i) as int + table_entry(lw, table, i),
        ) =~= values.subrange(
            value_offset(lw, table, i) as int,
            value_offset(lw, table, i) + s[i].len() as int,
        ));
    };
    j
}

/// A zero-length buffer parses to a view with no elements: whatever a first
/// `next` call on such a view yields, it is `None`.
pub proof fn lemma_empty_buffer_decode(
    cw: nat,
    lw: nat,
    r: Option<Result<&[u8], cluLamanshErr>>,
    hp2: nat,
    vp2: nat,
)
    requires
        lw >= 1,
        spec_next_step(lw, Seq::empty(), Seq::empty(), 0, 0, r, hp2, vp2),
    ensures
        spec_parse(cw, lw, Seq::empty()) == Ok::<(Seq<u8>, Seq<u8>), cluLamanshErr>(
            (Seq::empty(), Seq::empty()),
        ),
        r is None,
{
}

} // verus!
