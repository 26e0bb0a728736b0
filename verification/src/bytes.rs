//! Big-endian byte strings and their numeric values.
//!
//! Everything the precompile reads or writes is an unsigned integer encoded
//! as a big-endian byte string. `be_value` gives the number a byte string
//! denotes; `be_encode` gives the unique byte string of a chosen length that
//! denotes a number. The executable functions here decode the fixed header
//! fields and left-pad results to the modulus length.

use vstd::prelude::*;
use vstd::arithmetic::power2::{
    pow2, lemma_pow2_adds, lemma_pow2_strictly_increases, lemma2_to64,
};
use vstd::arithmetic::div_mod::lemma_fundamental_div_mod_converse;

verus! {

/// The number denoted by a big-endian byte string: the empty string denotes 0,
/// and appending a byte multiplies the value by 256 and adds that byte.
pub open spec fn be_value(s: Seq<u8>) -> nat
    decreases s.len(),
{
    if s.len() == 0 {
        0
    } else {
        256 * be_value(s.drop_last()) + s.last() as nat
    }
}

/// The big-endian byte string of length `len` denoting `v` (mod 256^len).
pub open spec fn be_encode(v: nat, len: nat) -> Seq<u8>
    decreases len,
{
    if len == 0 {
        Seq::empty()
    } else {
        be_encode(v / 256, (len - 1) as nat).push((v % 256) as u8)
    }
}

/// Powers of two do not decrease as the exponent grows.
pub proof fn lemma_pow2_le(e1: nat, e2: nat)
    requires
        e1 <= e2,
    ensures
        pow2(e1) <= pow2(e2),
{
    if e1 < e2 {
        lemma_pow2_strictly_increases(e1, e2);
    }
}

/// A byte string of length `len` denotes a value below `256^len`.
pub proof fn lemma_be_value_bound(s: Seq<u8>)
    ensures
        be_value(s) < pow2(8 * s.len()),
    decreases s.len(),
{
    lemma2_to64();
    if s.len() == 0 {
    } else {
        let d = s.drop_last();
        lemma_be_value_bound(d);
        lemma_pow2_adds(8 * d.len(), 8);
        assert(256 * be_value(d) + s.last() < pow2(8 * d.len()) * 256) by (nonlinear_arith)
            requires
                be_value(d) < pow2(8 * d.len()),
                s.last() < 256,
        ;
    }
}

/// Splitting a byte string splits its value: the prefix is scaled by
/// 256 to the length of the suffix.
pub proof fn lemma_be_value_split(s: Seq<u8>, k: int)
    requires
        0 <= k <= s.len(),
    ensures
        be_value(s) == be_value(s.subrange(0, k)) * pow2(8 * (s.len() - k) as nat) + be_value(
            s.subrange(k, s.len() as int),
        ),
    decreases s.len() - k,
{
    lemma2_to64();
    if k == s.len() {
        assert(s.subrange(0, k) =~= s);
        assert(s.subrange(k, s.len() as int) =~= Seq::empty());
        assert(pow2(0) == 1);
        assert(be_value(s) * 1 == be_value(s));
    } else {
        let d = s.drop_last();
        lemma_be_value_split(d, k);
        assert(d.subrange(0, k) =~= s.subrange(0, k));
        let tail = s.subrange(k, s.len() as int);
        assert(d.subrange(k, d.len() as int) =~= tail.drop_last());
        assert(tail.last() == s.last());
        let a = be_value(s.subrange(0, k));
        let b = be_value(tail.drop_last());
        let p = pow2(8 * (d.len() - k) as nat);
        lemma_pow2_adds(8 * (d.len() - k) as nat, 8);
        assert(pow2(8 * (s.len() - k) as nat) == p * 256);
        assert(be_value(tail) == 256 * b + tail.last());
        assert(256 * (a * p + b) == a * (p * 256) + 256 * b) by (nonlinear_arith);
    }
}

/// A byte string denotes 0 exactly when every byte is 0.
pub proof fn lemma_be_value_all_zero(s: Seq<u8>)
    ensures
        (be_value(s) == 0) <==> (forall|i: int| 0 <= i < s.len() ==> s[i] == 0),
    decreases s.len(),
{
    if s.len() == 0 {
    } else {
        let d = s.drop_last();
        lemma_be_value_all_zero(d);
        assert(forall|i: int| 0 <= i < d.len() ==> d[i] == s[i]);
        if be_value(s) == 0 {
            assert(be_value(d) == 0 && s.last() == 0);
            assert(forall|i: int| 0 <= i < s.len() ==> s[i] == 0) by {
                assert(forall|i: int| 0 <= i < d.len() ==> s[i] == d[i] && d[i] == 0);
            }
        }
        if forall|i: int| 0 <= i < s.len() ==> s[i] == 0 {
            assert(forall|i: int| 0 <= i < d.len() ==> d[i] == s[i] && s[i] == 0);
            assert(be_value(d) == 0);
            assert(s.last() == 0);
        }
    }
}

/// `be_encode` returns a string of the requested length.
pub broadcast proof fn lemma_be_encode_len(v: nat, len: nat)
    ensures
        (#[trigger] be_encode(v, len)).len() == len,
    decreases len,
{
    if len == 0 {
    } else {
        lemma_be_encode_len(v / 256, (len - 1) as nat);
    }
}

/// Encoding the value of a byte string at its own length gives the string
/// back: a value has one encoding per length.
pub proof fn lemma_be_encode_of(s: Seq<u8>)
    ensures
        be_encode(be_value(s), s.len()) == s,
    decreases s.len(),
{
    if s.len() == 0 {
        assert(be_encode(be_value(s), s.len()) =~= s);
    } else {
        let d = s.drop_last();
        let v = be_value(s);
        lemma_fundamental_div_mod_converse(v as int, 256, be_value(d) as int, s.last() as int);
        assert(v / 256 == be_value(d));
        assert(v % 256 == s.last());
        lemma_be_encode_of(d);
        assert(be_encode(v, s.len()) =~= s) by {
            assert(be_encode(v, s.len()) == be_encode(be_value(d), d.len()).push(s.last()));
            assert(d.push(s.last()) =~= s);
        }
    }
}

/// The encoding of 0 is all zero bytes.
pub proof fn lemma_be_encode_zero(len: nat)
    ensures
        be_encode(0, len) =~= Seq::new(len, |i: int| 0u8),
    decreases len,
{
    if len == 0 {
    } else {
        lemma_be_encode_zero((len - 1) as nat);
        assert(be_encode(0nat, len) == be_encode(0nat / 256, (len - 1) as nat).push(
            (0nat % 256) as u8,
        ));
        assert(0nat / 256 == 0 && 0nat % 256 == 0);
        assert(be_encode(0, len) =~= Seq::new(len, |i: int| 0u8));
    }
}

/// A byte string with a nonzero leading byte denotes at least `256^(len-1)`.
pub proof fn lemma_be_value_first_nonzero(s: Seq<u8>)
    requires
        s.len() > 0,
        s[0] != 0,
    ensures
        be_value(s) >= pow2(8 * (s.len() - 1) as nat),
{
    lemma_be_value_split(s, 1);
    let head = s.subrange(0, 1);
    assert(head.len() == 1);
    assert(head.drop_last() =~= Seq::<u8>::empty());
    assert(be_value(head.drop_last()) == 0);
    assert(be_value(head) == 256 * be_value(head.drop_last()) + head.last() as nat);
    assert(head.last() == s[0]);
    assert(be_value(head) >= 1);
    let p = pow2(8 * (s.len() - 1) as nat);
    assert(be_value(head) * p >= p) by (nonlinear_arith)
        requires
            be_value(head) >= 1,
            p >= 0,
    ;
}

/// A string of `len` 0xFF bytes denotes `256^len - 1`, the largest value of
/// that length.
pub proof fn lemma_be_value_ones(s: Seq<u8>)
    requires
        forall|i: int| 0 <= i < s.len() ==> s[i] == 0xFF,
    ensures
        be_value(s) == pow2(8 * s.len()) - 1,
    decreases s.len(),
{
    lemma2_to64();
    if s.len() == 0 {
    } else {
        let d = s.drop_last();
        assert(forall|i: int| 0 <= i < d.len() ==> d[i] == s[i]);
        lemma_be_value_ones(d);
        lemma_pow2_adds(8 * d.len(), 8);
        let p = pow2(8 * d.len());
        assert(s.last() == 0xFF);
        assert(256 * (p - 1) + 0xFF == p * 256 - 1) by (nonlinear_arith);
    }
}

/// The cap on each declared operand length, in bytes.
pub const MAX_OPERAND_LEN: u64 = 1024;

/// Decodes the 32-byte big-endian length field at `offset` and narrows it to
/// a machine word, rejecting any value above `MAX_OPERAND_LEN`.
pub fn read_length_field(input: &[u8], offset: usize) -> (r: Option<u64>)
    requires
        offset + 32 <= input@.len(),
    ensures
        match r {
            Some(v) => v == be_value(input@.subrange(offset as int, offset + 32)) && v
                <= MAX_OPERAND_LEN,
            None => be_value(input@.subrange(offset as int, offset + 32)) > MAX_OPERAND_LEN,
        },
{
    let ghost field = input@.subrange(offset as int, offset + 32);
    let n: usize = input.len();
    let mut i: usize = 0;
    while i < 24
        invariant
            0 <= i <= 24,
            offset + 32 <= n == input@.len(),
            field == input@.subrange(offset as int, offset + 32),
            forall|j: int| 0 <= j < i ==> field[j] == 0,
        decreases 24 - i,
    {
        if input[offset + i] != 0 {
            proof {
                lemma_be_value_split(field, i + 1);
                let head = field.subrange(0, i + 1);
                assert(head[i as int] == field[i as int] && field[i as int] != 0);
                lemma_be_value_all_zero(head);
                assert(be_value(head) >= 1);
                let p = pow2(8 * (field.len() - (i + 1)) as nat);
                assert(be_value(head) * p >= p) by (nonlinear_arith)
                    requires
                        be_value(head) >= 1,
                        p >= 0,
                ;
                assert(8 * (field.len() - (i + 1)) as nat >= 64);
                lemma_pow2_le(64, 8 * (field.len() - (i + 1)) as nat);
                lemma2_to64();
                assert(be_value(field) >= pow2(64));
            }
            return None;
        }
        i = i + 1;
    }
    proof {
        lemma_be_value_split(field, 24);
        lemma_be_value_all_zero(field.subrange(0, 24));
        assert(be_value(field.subrange(0, 24)) == 0);
        assert(0 * pow2(8 * (field.len() - 24) as nat) == 0);
        assert(be_value(field) == be_value(field.subrange(24, 32)));
    }
    let mut v: u64 = 0;
    let mut j: usize = 24;
    proof {
        lemma2_to64();
        assert(field.subrange(24, 24) =~= Seq::<u8>::empty());
    }
    while j < 32
        invariant
            24 <= j <= 32,
            offset + 32 <= n == input@.len(),
            field == input@.subrange(offset as int, offset + 32),
            v == be_value(field.subrange(24, j as int)),
            v < pow2(8 * (j - 24) as nat),
        decreases 32 - j,
    {
        let b = input[offset + j];
        proof {
            lemma2_to64();
            lemma_pow2_adds(8 * (j - 24) as nat, 8);
            assert(256 * (v as nat) + (b as nat) < pow2(8 * (j - 24) as nat) * 256)
                by (nonlinear_arith)
                requires
                    (v as nat) < pow2(8 * (j - 24) as nat),
                    (b as nat) < 256,
            ;
            assert(pow2(8 * (j + 1 - 24) as nat) <= pow2(64)) by {
                if 8 * (j + 1 - 24) < 64 {
                    lemma_pow2_strictly_increases(8 * (j + 1 - 24) as nat, 64);
                }
            }
            let next = field.subrange(24, j + 1);
            assert(next.drop_last() =~= field.subrange(24, j as int));
            assert(next.last() == field[j as int]);
            assert(field[j as int] == input@[offset + j]);
        }
        v = v * 256 + (b as u64);
        j = j + 1;
    }
    proof {
        assert(field.subrange(24, 32) =~= field.subrange(24, j as int));
    }
    if v > MAX_OPERAND_LEN {
        None
    } else {
        Some(v)
    }
}

/// A string of `len` zero bytes: the encoding of the value 0 at that length.
pub fn zero_bytes(len: usize) -> (r: Vec<u8>)
    ensures
        r@ == be_encode(0, len as nat),
        r@.len() == len,
{
    let mut out: Vec<u8> = Vec::new();
    let mut i: usize = 0;
    while i < len
        invariant
            0 <= i <= len,
            out@ =~= Seq::new(i as nat, |k: int| 0u8),
        decreases len - i,
    {
        out.push(0u8);
        i = i + 1;
    }
    proof {
        lemma_be_encode_zero(len as nat);
    }
    out
}

/// Left-pads a big-endian byte string with zero bytes to exactly `mod_len`
/// bytes, preserving the value it denotes.
pub fn left_pad(b: &[u8], mod_len: usize) -> (r: Vec<u8>)
    requires
        b@.len() <= mod_len,
    ensures
        r@ == be_encode(be_value(b@), mod_len as nat),
        r@.len() == mod_len,
{
    let pad: usize = mod_len - b.len();
    let mut out: Vec<u8> = Vec::new();
    let mut i: usize = 0;
    while i < pad
        invariant
            0 <= i <= pad,
            out@ =~= Seq::new(i as nat, |k: int| 0u8),
        decreases pad - i,
    {
        out.push(0u8);
        i = i + 1;
    }
    let mut j: usize = 0;
    while j < b.len()
        invariant
            0 <= j <= b@.len(),
            b@.len() + pad == mod_len,
            out@.len() == pad + j,
            out@ =~= Seq::new(pad as nat, |k: int| 0u8) + b@.subrange(0, j as int),
        decreases b@.len() - j,
    {
        out.push(b[j]);
        proof {
            assert(out@ =~= Seq::new(pad as nat, |k: int| 0u8) + b@.subrange(0, j + 1));
        }
        j = j + 1;
    }
    proof {
        assert(b@.subrange(0, b@.len() as int) =~= b@);
        lemma_be_value_split(out@, pad as int);
        let zeros = out@.subrange(0, pad as int);
        assert(zeros =~= Seq::new(pad as nat, |k: int| 0u8));
        lemma_be_value_all_zero(zeros);
        assert(be_value(zeros) == 0);
        assert(0 * pow2(8 * (out@.len() - pad) as nat) == 0);
        assert(out@.subrange(pad as int, out@.len() as int) =~= b@);
        assert(be_value(out@) == be_value(b@));
        lemma_be_encode_of(out@);
    }
    out
}

} // verus!
