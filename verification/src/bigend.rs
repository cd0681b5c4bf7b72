//! Big-endian fixed-width unsigned integers: the mathematical model and the
//! verified read/write routines used for every header field of the format.

use vstd::prelude::*;

verus! {

/// 256 raised to the power `n`: the number of values a big-endian field of
/// `n` bytes can hold.
pub open spec fn pow256(n: nat) -> nat
    decreases n,
{
    if n == 0 {
        1
    } else {
        256 * pow256((n - 1) as nat)
    }
}

pub proof fn lemma_pow256_pos(n: nat)
    ensures
        pow256(n) >= 1,
    decreases n,
{
    if n > 0 {
        lemma_pow256_pos((n - 1) as nat);
    }
}

pub proof fn lemma_pow256_mono(a: nat, b: nat)
    requires
        a <= b,
    ensures
        pow256(a) <= pow256(b),
    decreases b,
{
    if a < b {
        lemma_pow256_mono(a, (b - 1) as nat);
        lemma_pow256_pos((b - 1) as nat);
    }
}

/// The field widths this format uses, written out.
pub proof fn lemma_pow256_values()
    ensures
        pow256(0) == 1,
        pow256(1) == 0x100,
        pow256(2) == 0x1_0000,
        pow256(3) == 0x100_0000,
        pow256(4) == 0x1_0000_0000,
        pow256(5) == 0x100_0000_0000,
        pow256(6) == 0x1_0000_0000_0000,
        pow256(7) == 0x100_0000_0000_0000,
        pow256(8) == 0x1_0000_0000_0000_0000,
{
    assert(pow256(0) == 1);
    assert(pow256(1) == 256 * pow256(0));
    assert(pow256(2) == 256 * pow256(1));
    assert(pow256(3) == 256 * pow256(2));
    assert(pow256(4) == 256 * pow256(3));
    assert(pow256(5) == 256 * pow256(4));
    assert(pow256(6) == 256 * pow256(5));
    assert(pow256(7) == 256 * pow256(6));
    assert(pow256(8) == 256 * pow256(7));
}

/// The value of a byte string read as a big-endian unsigned integer.
pub open spec fn be_val(s: Seq<u8>) -> nat
    decreases s.len(),
{
    if s.len() == 0 {
        0
    } else {
        256 * be_val(s.drop_last()) + s.last() as nat
    }
}

/// The `w`-byte big-endian encoding of `v` (`v` taken modulo `256^w`).
pub open spec fn be_bytes(v: nat, w: nat) -> Seq<u8>
    decreases w,
{
    if w == 0 {
        Seq::empty()
    } else {
        be_bytes(v / 256, (w - 1) as nat).push((v % 256) as u8)
    }
}

pub proof fn lemma_be_bytes_len(v: nat, w: nat)
    ensures
        be_bytes(v, w).len() == w,
    decreases w,
{
    if w > 0 {
        lemma_be_bytes_len(v / 256, (w - 1) as nat);
    }
}

pub proof fn lemma_be_val_bound(s: Seq<u8>)
    ensures
        be_val(s) < pow256(s.len() as nat),
    decreases s.len(),
{
    if s.len() > 0 {
        lemma_be_val_bound(s.drop_last());
    }
}

/// Reading back the `w`-byte encoding of `v` yields `v` again.
pub proof fn lemma_be_bytes_val(v: nat, w: nat)
    requires
        v < pow256(w),
    ensures
        be_val(be_bytes(v, w)) == v,
    decreases w,
{
    if w > 0 {
        let b = be_bytes(v / 256, (w - 1) as nat);
        lemma_be_bytes_len(v / 256, (w - 1) as nat);
        assert(be_bytes(v, w).drop_last() =~= b);
        assert(v / 256 < pow256((w - 1) as nat)) by {
            assert(v < 256 * pow256((w - 1) as nat));
        };
        lemma_be_bytes_val(v / 256, (w - 1) as nat);
        assert(256 * (v / 256) + v % 256 == v);
    }
}

/// Extending a prefix by one byte multiplies its value by 256 and adds it.
pub proof fn lemma_be_val_prefix_step(s: Seq<u8>, i: int)
    requires
        0 <= i < s.len(),
    ensures
        be_val(s.subrange(0, i + 1)) == 256 * be_val(s.subrange(0, i)) + s[i],
{
    assert(s.subrange(0, i + 1).drop_last() =~= s.subrange(0, i));
    assert(s.subrange(0, i + 1).last() == s[i]);
}

/// The byte at position `j` of the encoding, as a quotient-remainder formula.
pub proof fn lemma_be_bytes_index(v: nat, w: nat, j: int)
    requires
        0 <= j < w,
    ensures
        be_bytes(v, w)[j] == ((v / pow256((w - 1 - j) as nat)) % 256) as u8,
    decreases w,
{
    lemma_be_bytes_len(v / 256, (w - 1) as nat);
    if j == w - 1 {
        assert(pow256(0) == 1);
        assert(v / 1 == v);
    } else {
        lemma_be_bytes_index(v / 256, (w - 1) as nat, j);
        let e = (w - 2 - j) as nat;
        assert((v / 256) / pow256(e) == v / (256 * pow256(e))) by {
            lemma_pow256_pos(e);
            vstd::arithmetic::div_mod::lemma_div_denominator(v as int, 256, pow256(e) as int);
        };
        assert(256 * pow256(e) == pow256((w - 1 - j) as nat));
    }
}

/// Computes `256^k` for the byte widths this format uses.
pub fn pow256_exec(k: u64) -> (r: u64)
    requires
        k <= 7,
    ensures
        r as nat == pow256(k as nat),
        r >= 1,
{
    let mut r: u64 = 1;
    let mut i: u64 = 0;
    while i < k
        invariant
            i <= k <= 7,
            r as nat == pow256(i as nat),
        decreases k - i,
    {
        proof {
            lemma_pow256_mono(i as nat, 6);
            lemma_pow256_values();
        }
        r = r * 256;
        i = i + 1;
    }
    proof {
        lemma_pow256_pos(k as nat);
    }
    r
}

/// Reads the whole slice as a big-endian unsigned integer.
pub fn read_be(array: &[u8]) -> (r: u64)
    requires
        1 <= array@.len() <= 8,
    ensures
        r as nat == be_val(array@),
        (r as nat) < pow256(array@.len() as nat),
{
    let n: usize = array.len();
    let mut acc: u64 = 0;
    let mut i: usize = 0;
    while i < n
        invariant
            n == array@.len(),
            1 <= n <= 8,
            i <= n,
            acc as nat == be_val(array@.subrange(0, i as int)),
            (acc as nat) < pow256(i as nat),
        decreases n - i,
    {
        proof {
            lemma_pow256_mono(i as nat, 7);
            lemma_pow256_values();
        }
        let b: u8 = *vstd::slice::slice_index_get(array, i);
        acc = acc * 256 + (b as u64);
        proof {
            lemma_be_val_prefix_step(array@, i as int);
        }
        i = i + 1;
    }
    proof {
        assert(array@.subrange(0, n as int) =~= array@);
        lemma_be_val_bound(array@);
    }
    acc
}

/// Overwrites `out[at .. at + width]` with the big-endian encoding of `v`,
/// leaving every other byte as it was.
pub fn write_be(out: &mut Vec<u8>, at: usize, width: usize, v: u64)
    requires
        1 <= width <= 8,
        at + width <= old(out)@.len(),
        (v as nat) < pow256(width as nat),
    ensures
        final(out)@.len() == old(out)@.len(),
        final(out)@.subrange(at as int, at + width) == be_bytes(v as nat, width as nat),
        forall|i: int| 0 <= i < at ==> final(out)@[i] == old(out)@[i],
        forall|i: int| at + width <= i < old(out)@.len() ==> final(out)@[i] == old(out)@[i],
{
    let ghost enc = be_bytes(v as nat, width as nat);
    proof {
        lemma_be_bytes_len(v as nat, width as nat);
    }
    let total_len: usize = out.len();
    let mut j: usize = 0;
    while j < width
        invariant
            1 <= width <= 8,
            j <= width,
            total_len == out@.len(),
            at + width <= out@.len(),
            out@.len() == old(out)@.len(),
            (v as nat) < pow256(width as nat),
            enc == be_bytes(v as nat, width as nat),
            enc.len() == width,
            forall|i: int| 0 <= i < j ==> out@[at + i] == enc[i],
            forall|i: int| 0 <= i < at ==> out@[i] == old(out)@[i],
            forall|i: int| at + width <= i < old(out)@.len() ==> out@[i] == old(out)@[i],
        decreases width - j,
    {
        let e: u64 = (width - 1 - j) as u64;
        let p: u64 = pow256_exec(e);
        let digit: u8 = ((v / p) % 256) as u8;
        proof {
            lemma_be_bytes_index(v as nat, width as nat, j as int);
        }
        out[at + j] = digit;
        j = j + 1;
    }
    proof {
        assert(out@.subrange(at as int, at + width) =~= enc);
    }
}

} // verus!
