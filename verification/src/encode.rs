//! Bringing an ordered sequence of byte strings to its encoded form: the
//! strict path validates the sequence against both header widths, the
//! unchecked path trusts a caller that has already validated it.

use vstd::prelude::*;

use crate::bigend::be_bytes;
use crate::buffer::LamanshBuffer;
use crate::format::elems_fit;
use crate::format::seq_views;
use crate::format::encodable;
use crate::format::encoded_len;
use crate::format::lemma_table_bytes_len;
use crate::format::lemma_table_bytes_take_step;
use crate::format::lemma_values_bytes_len;
use crate::format::lemma_values_bytes_take_step;
use crate::format::lemma_values_len_take_mono;
use crate::format::lemma_values_len_take_step;
use crate::format::spec_encode;
use crate::format::table_bytes;
use crate::format::values_bytes;
use crate::format::values_len;
use crate::sized::LamanshSized;
use vstd::slice::slice_index_get;

verus! {

/// Why the strict encode path rejected its input.
#[derive(Clone, Copy, Debug, Eq, Hash, PartialEq, Structural)]
pub enum ToLamanshErr {
    ///The sequence holds no element: the format cannot represent that.
    EmptyArray,
    ///The biased element count does not fit the count field.
    CountOverflow,
    ///Some element is longer than the length field can declare.
    ValueOverflow,
}

/// A sequence of three adjacent regions is the concatenation of them.
proof fn lemma_split_three(b: Seq<u8>, x: Seq<u8>, y: Seq<u8>, z: Seq<u8>)
    requires
        b.len() == x.len() + y.len() + z.len(),
        b.subrange(0, x.len() as int) == x,
        b.subrange(x.len() as int, x.len() + y.len() as int) == y,
        b.subrange(x.len() as int + y.len(), b.len() as int) == z,
    ensures
        b == x + y + z,
{
    let xl = x.len() as int;
    let yl = y.len() as int;
    assert forall|idx: int| 0 <= idx < b.len() implies b[idx] == (x + y + z)[idx] by {
        if idx < xl {
            assert(b.subrange(0, xl)[idx] == b[idx]);
        } else if idx < xl + yl {
            assert(b.subrange(xl, xl + yl)[idx - xl] == b[idx]);
        } else {
            assert(b.subrange(xl + yl, b.len() as int)[idx - xl - yl] == b[idx]);
        }
    };
    assert(b =~= x + y + z);
}

/// Runs the strict validation of the element sequence and, when it passes,
/// returns the exact size of its encoding.
fn check_and_size<NC: LamanshSized, N: LamanshSized>(elements: &[&[u8]]) -> (r: Result<
    usize,
    ToLamanshErr,
>)
    requires
        encodable(NC::spec_max(), N::spec_max(), seq_views(elements@)) ==> encoded_len(
            NC::spec_byted(),
            N::spec_byted(),
            seq_views(elements@),
        ) <= usize::MAX as nat,
    ensures
        match r {
            Ok(total) => encodable(NC::spec_max(), N::spec_max(), seq_views(elements@))
                && total as nat == encoded_len(
                NC::spec_byted(),
                N::spec_byted(),
                seq_views(elements@),
            ),
            Err(e) => match e {
                ToLamanshErr::EmptyArray => elements@.len() == 0,
                ToLamanshErr::CountOverflow => elements@.len() >= 1 && elements@.len() - 1
                    > NC::spec_max(),
                ToLamanshErr::ValueOverflow => elements@.len() >= 1 && elements@.len() - 1
                    <= NC::spec_max() && !elems_fit(seq_views(elements@), N::spec_max()),
            },
        },
{
    let ghost s = seq_views(elements@);
    proof {
        NC::lemma_well_formed();
        N::lemma_well_formed();
    }
    let len_elements: usize = elements.len();
    if len_elements == 0 {
        return Err(ToLamanshErr::EmptyArray);
    }
    if len_elements - 1 > NC::max_value() {
        return Err(ToLamanshErr::CountOverflow);
    }
    let value_max: usize = N::max_value();
    let mut i: usize = 0;
    while i < len_elements
        invariant
            len_elements == elements@.len(),
            s == seq_views(elements@),
            i <= len_elements,
            len_elements >= 1,
            len_elements as nat - 1 <= NC::spec_max(),
            value_max as nat == if N::spec_max() <= usize::MAX as nat {
                N::spec_max()
            } else {
                usize::MAX as nat
            },
            forall|k: int| 0 <= k < i ==> (#[trigger] s[k]).len() <= N::spec_max(),
        decreases len_elements - i,
    {
        let e: &[u8] = *slice_index_get(elements, i);
        if e.len() > value_max {
            proof {
                assert(s[i as int] == e@);
                assert(s[i as int].len() > N::spec_max());
                assert(!elems_fit(s, N::spec_max()));
            }
            return Err(ToLamanshErr::ValueOverflow);
        }
        assert(s[i as int].len() <= N::spec_max());
        i = i + 1;
    }
    assert(elems_fit(s, N::spec_max()));
    Ok(compute_total::<NC, N>(elements))
}

/// The exact encoded size of a sequence already known to be valid.
fn compute_total<NC: LamanshSized, N: LamanshSized>(elements: &[&[u8]]) -> (total: usize)
    requires
        encodable(NC::spec_max(), N::spec_max(), seq_views(elements@)),
        encoded_len(NC::spec_byted(), N::spec_byted(), seq_views(elements@)) <= usize::MAX as nat,
    ensures
        total as nat == encoded_len(NC::spec_byted(), N::spec_byted(), seq_views(elements@)),
{
    let ghost s = seq_views(elements@);
    proof {
        NC::lemma_well_formed();
        N::lemma_well_formed();
    }
    let len_elements: usize = elements.len();
    let n_c_sized: usize = NC::byted();
    let n_sized: usize = N::byted();
    proof {
        assert(values_len(s.take(len_elements as int)) <= values_len(s)) by {
            lemma_values_len_take_mono(s, len_elements as int, s.len() as int);
            assert(s.take(s.len() as int) =~= s);
        };
        assert(len_elements as nat * N::spec_byted() <= elements@.len() as nat
            * N::spec_byted()) by (nonlinear_arith)
            requires
                len_elements as nat <= elements@.len() as nat,
        ;
    }
    let mut len_n: usize = 0;
    let mut i: usize = 0;
    while i < len_elements
        invariant
            len_elements == elements@.len(),
            s == seq_views(elements@),
            i <= len_elements,
            encodable(NC::spec_max(), N::spec_max(), s),
            encoded_len(NC::spec_byted(), N::spec_byted(), s) <= usize::MAX as nat,
            len_n as nat == values_len(s.take(i as int)),
        decreases len_elements - i,
    {
        let e: &[u8] = *slice_index_get(elements, i);
        proof {
            lemma_values_len_take_step(s, i as int);
            lemma_values_len_take_mono(s, i as int + 1, s.len() as int);
            assert(s.take(s.len() as int) =~= s);
        }
        len_n = len_n + e.len();
        i = i + 1;
    }
    proof {
        assert(s.take(len_elements as int) =~= s);
        assert(n_sized as nat * len_elements as nat == s.len() * N::spec_byted())
            by (nonlinear_arith)
            requires
                n_sized as nat == N::spec_byted(),
                len_elements as nat == s.len(),
        ;
    }
    n_c_sized + n_sized * len_elements + len_n
}

/// Writes the container for a valid sequence into `out`, resizing it to the
/// exact encoded size; every byte of `out` is overwritten.
fn encode_into_vec<NC: LamanshSized, N: LamanshSized>(
    elements: &[&[u8]],
    total: usize,
    out: &mut Vec<u8>,
)
    requires
        encodable(NC::spec_max(), N::spec_max(), seq_views(elements@)),
        total as nat == encoded_len(NC::spec_byted(), N::spec_byted(), seq_views(elements@)),
    ensures
        final(out)@ == spec_encode(NC::spec_byted(), N::spec_byted(), seq_views(elements@)),
{
    let ghost s = seq_views(elements@);
    let ghost cw = NC::spec_byted();
    let ghost lw = N::spec_byted();
    proof {
        NC::lemma_well_formed();
        N::lemma_well_formed();
    }
    let len_elements: usize = elements.len();
    let n_c_sized: usize = NC::byted();
    let n_sized: usize = N::byted();

    // Commit exactly the encoded size.
    if out.len() > total {
        out.truncate(total);
    }
    while out.len() < total
        invariant
            out@.len() <= total,
        decreases total - out@.len(),
    {
        out.push(0);
    }
    assert(out@.len() == total);

    // The count field holds the biased element count.
    NC::write_usize(len_elements - 1, out, 0);
    proof {
        assert(out@.subrange(0, cw as int) == be_bytes((s.len() - 1) as nat, cw));
    }

    proof {
        assert(n_sized as nat * len_elements as nat == s.len() * lw) by (nonlinear_arith)
            requires
                n_sized as nat == lw,
                len_elements as nat == s.len(),
        ;
        assert(cw + s.len() * lw <= total as nat);
    }
    let table_end: usize = n_c_sized + n_sized * len_elements;
    proof {
        assert(table_end as nat == cw + s.len() * lw);
        lemma_table_bytes_len(lw, s);
        lemma_values_bytes_len(s);
    }
    let mut n_vh: usize = table_end;
    let mut i: usize = 0;
    proof {
        assert(s.take(0) =~= Seq::<Seq<u8>>::empty());
        assert(out@.subrange(n_c_sized as int, n_c_sized as int) =~= table_bytes(lw, s.take(0)));
        assert(out@.subrange(table_end as int, table_end as int) =~= values_bytes(s.take(0)));
    }
    while i < len_elements
        invariant
            len_elements == elements@.len(),
            s == seq_views(elements@),
            cw == NC::spec_byted(),
            lw == N::spec_byted(),
            n_c_sized as nat == cw,
            n_sized as nat == lw,
            table_end as nat == cw + s.len() * lw,
            encodable(NC::spec_max(), N::spec_max(), s),
            total as nat == encoded_len(cw, lw, s),
            i <= len_elements,
            out@.len() == total,
            n_vh as nat == table_end as nat + values_len(s.take(i as int)),
            out@.subrange(0, n_c_sized as int) == be_bytes((s.len() - 1) as nat, cw),
            out@.subrange(n_c_sized as int, n_c_sized + i * n_sized) == table_bytes(
                lw,
                s.take(i as int),
            ),
            out@.subrange(table_end as int, n_vh as int) == values_bytes(s.take(i as int)),
        decreases len_elements - i,
    {
        let ghost out_entry = out@;
        let e: &[u8] = *slice_index_get(elements, i);
        let array_len: usize = e.len();
        proof {
            assert(s[i as int] == e@);
            lemma_values_len_take_step(s, i as int);
            lemma_values_len_take_mono(s, i as int + 1, s.len() as int);
            assert(s.take(s.len() as int) =~= s);
            assert((i + 1) * lw <= s.len() * lw) by (nonlinear_arith)
                requires
                    i + 1 <= s.len(),
                    lw >= 0,
            ;
            assert(i * lw + lw == (i + 1) * lw) by (nonlinear_arith);
        }
        // The element's length goes to its slot in the length table.
        N::write_usize(array_len, out, n_c_sized + i * n_sized);
        proof {
            let at = n_c_sized + i * n_sized;
            assert(out@.subrange(at as int, at + lw) == be_bytes(array_len as nat, lw));
            assert(out@.subrange(0, n_c_sized as int) =~= out_entry.subrange(
                0,
                n_c_sized as int,
            ));
            assert(out@.subrange(n_c_sized as int, at as int) =~= out_entry.subrange(
                n_c_sized as int,
                at as int,
            ));
            lemma_table_bytes_take_step(lw, s, i as int);
            assert(out@.subrange(n_c_sized as int, n_c_sized + (i + 1) * n_sized) =~= table_bytes(
                lw,
                s.take(i as int),
            ) + be_bytes(array_len as nat, lw)) by {
                let prev = table_bytes(lw, s.take(i as int));
                lemma_table_bytes_len(lw, s.take(i as int));
                assert(prev.len() == i * lw) by (nonlinear_arith)
                    requires
                        prev.len() == s.take(i as int).len() * lw,
                        s.take(i as int).len() == i,
                ;
                assert forall|idx: int|
                    0 <= idx < i * lw + lw implies #[trigger] out@.subrange(
                    n_c_sized as int,
                    n_c_sized + (i + 1) * n_sized,
                )[idx] == (prev + be_bytes(array_len as nat, lw))[idx] by {
                    if idx < i * lw {
                        assert(out@[n_c_sized + idx] == out_entry[n_c_sized + idx]);
                        assert(out_entry.subrange(n_c_sized as int, n_c_sized + i * n_sized)[idx]
                            == out_entry[n_c_sized + idx]);
                    } else {
                        assert(out@.subrange(at as int, at + lw)[idx - i * lw] == out@[n_c_sized
                            + idx]);
                    }
                };
            };
            assert(out@.subrange(table_end as int, n_vh as int) =~= out_entry.subrange(
                table_end as int,
                n_vh as int,
            ));
        }
        // The element's bytes go to its slot in the value region.
        let ghost out_mid = out@;
        let mut j: usize = 0;
        while j < array_len
            invariant
                j <= array_len,
                array_len == e@.len(),
                out@.len() == out_mid.len(),
                out_mid.len() == total,
                n_vh + array_len <= total,
                forall|idx: int| 0 <= idx < n_vh ==> out@[idx] == out_mid[idx],
                forall|idx: int| n_vh + array_len <= idx < total ==> out@[idx] == out_mid[idx],
                forall|jj: int| 0 <= jj < j ==> out@[n_vh + jj] == e@[jj],
            decreases array_len - j,
        {
            let b: u8 = *slice_index_get(e, j);
            out[n_vh + j] = b;
            j = j + 1;
        }
        proof {
            assert(out@.subrange(0, n_c_sized as int) =~= out_mid.subrange(0, n_c_sized as int));
            assert(out@.subrange(n_c_sized as int, n_c_sized + (i + 1) * n_sized)
                =~= out_mid.subrange(n_c_sized as int, n_c_sized + (i + 1) * n_sized));
            lemma_values_bytes_take_step(s, i as int);
            lemma_values_bytes_len(s.take(i as int));
            assert(out@.subrange(table_end as int, n_vh + array_len) =~= values_bytes(
                s.take(i as int),
            ) + e@) by {
                let prev = values_bytes(s.take(i as int));
                assert forall|idx: int|
                    0 <= idx < prev.len() + array_len implies #[trigger] out@.subrange(
                    table_end as int,
                    n_vh + array_len,
                )[idx] == (prev + e@)[idx] by {
                    if idx < prev.len() {
                        assert(out@[table_end + idx] == out_mid[table_end + idx]);
                        assert(out_mid.subrange(table_end as int, n_vh as int)[idx] == out_mid[
                            table_end + idx]);
                    } else {
                        assert(out@[n_vh + (idx - prev.len())] == e@[idx - prev.len()]);
                    }
                };
            };
        }
        n_vh = n_vh + array_len;
        i = i + 1;
    }
    proof {
        assert(s.take(len_elements as int) =~= s);
        assert(n_vh as nat == total as nat);
        lemma_split_three(
            out@,
            be_bytes((s.len() - 1) as nat, cw),
            table_bytes(lw, s),
            values_bytes(s),
        );
    }
}

/// Encodes a sequence of byte strings, validating it first: the strict path.
///
/// Returns the encoded container, or says exactly why the sequence cannot be
/// encoded: no element at all, a count beyond the count field, or an element
/// longer than the length field can declare.
pub fn to_lamansh<NC: LamanshSized, N: LamanshSized>(elements: &[&[u8]]) -> (r: Result<
    Vec<u8>,
    ToLamanshErr,
>)
    requires
        encodable(NC::spec_max(), N::spec_max(), seq_views(elements@)) ==> encoded_len(
            NC::spec_byted(),
            N::spec_byted(),
            seq_views(elements@),
        ) <= usize::MAX as nat,
    ensures
        match r {
            Ok(v) => encodable(NC::spec_max(), N::spec_max(), seq_views(elements@)) && v@
                == spec_encode(NC::spec_byted(), N::spec_byted(), seq_views(elements@)),
            Err(e) => match e {
                ToLamanshErr::EmptyArray => elements@.len() == 0,
                ToLamanshErr::CountOverflow => elements@.len() >= 1 && elements@.len() - 1
                    > NC::spec_max(),
                ToLamanshErr::ValueOverflow => elements@.len() >= 1 && elements@.len() - 1
                    <= NC::spec_max() && !elems_fit(seq_views(elements@), N::spec_max()),
            },
        },
{
    match check_and_size::<NC, N>(elements) {
        Ok(total) => {
            let mut vec_result: Vec<u8> = Vec::new();
            encode_into_vec::<NC, N>(elements, total, &mut vec_result);
            Ok(vec_result)
        },
        Err(e) => Err(e),
    }
}

/// Encodes a sequence of byte strings into a reused buffer: the strict path.
///
/// On success the buffer holds exactly the container; on an error the buffer
/// is left as it was.
pub fn update_buffer<NC: LamanshSized, N: LamanshSized>(
    elements: &[&[u8]],
    vec_result: &mut LamanshBuffer,
) -> (r: Result<(), ToLamanshErr>)
    requires
        encodable(NC::spec_max(), N::spec_max(), seq_views(elements@)) ==> encoded_len(
            NC::spec_byted(),
            N::spec_byted(),
            seq_views(elements@),
        ) <= usize::MAX as nat,
    ensures
        match r {
            Ok(_) => encodable(NC::spec_max(), N::spec_max(), seq_views(elements@))
                && final(vec_result)@ == spec_encode(
                NC::spec_byted(),
                N::spec_byted(),
                seq_views(elements@),
            ),
            Err(e) => final(vec_result)@ == old(vec_result)@ && match e {
                ToLamanshErr::EmptyArray => elements@.len() == 0,
                ToLamanshErr::CountOverflow => elements@.len() >= 1 && elements@.len() - 1
                    > NC::spec_max(),
                ToLamanshErr::ValueOverflow => elements@.len() >= 1 && elements@.len() - 1
                    <= NC::spec_max() && !elems_fit(seq_views(elements@), N::spec_max()),
            },
        },
{
    match check_and_size::<NC, N>(elements) {
        Ok(total) => {
            encode_into_vec::<NC, N>(elements, total, &mut vec_result.0);
            proof {
                crate::buffer::lemma_buffer_view(vec_result);
            }
            Ok(())
        },
        Err(e) => Err(e),
    }
}

/// Encodes without validating: the unchecked path. A caller must already
/// know the sequence is valid; an empty sequence yields an empty buffer.
pub fn to_lamansh_unchecked<NC: LamanshSized, N: LamanshSized>(elements: &[&[u8]]) -> (r: Vec<u8>)
    requires
        elements@.len() >= 1 ==> encodable(NC::spec_max(), N::spec_max(), seq_views(elements@)),
        elements@.len() >= 1 ==> encoded_len(
            NC::spec_byted(),
            N::spec_byted(),
            seq_views(elements@),
        ) <= usize::MAX as nat,
    ensures
        elements@.len() == 0 ==> r@ == Seq::<u8>::empty(),
        elements@.len() >= 1 ==> r@ == spec_encode(
            NC::spec_byted(),
            N::spec_byted(),
            seq_views(elements@),
        ),
{
    if elements.len() == 0 {
        return Vec::new();
    }
    let total: usize = compute_total::<NC, N>(elements);
    let mut vec_result: Vec<u8> = Vec::new();
    encode_into_vec::<NC, N>(elements, total, &mut vec_result);
    vec_result
}

/// Encodes into a reused buffer without validating: the unchecked path.
pub fn update_buffer_unchecked<NC: LamanshSized, N: LamanshSized>(
    elements: &[&[u8]],
    vec_result: &mut LamanshBuffer,
)
    requires
        elements@.len() >= 1,
        encodable(NC::spec_max(), N::spec_max(), seq_views(elements@)),
        encoded_len(NC::spec_byted(), N::spec_byted(), seq_views(elements@)) <= usize::MAX as nat,
    ensures
        final(vec_result)@ == spec_encode(
            NC::spec_byted(),
            N::spec_byted(),
            seq_views(elements@),
        ),
{
    let total: usize = compute_total::<NC, N>(elements);
    encode_into_vec::<NC, N>(elements, total, &mut vec_result.0);
    proof {
        crate::buffer::lemma_buffer_view(vec_result);
    }
}

} // verus!
