//! Primitives of the canonical wire encoding: base-128 varints, little-endian
//! 64-bit scalars, and tagged protocol-buffer fields.
//!
//! Content hashes and signatures of the storage subsystem are computed over
//! these bytes, so every encoder carries an exact contract and every decoder
//! accepts only the canonical form: a decoded value re-encodes to the very
//! bytes it came from.

use vstd::prelude::*;
use vstd::slice::{slice_index_get, slice_subrange, slice_to_vec};

verus! {

/// Base-128 varint encoding, least significant group first, minimal length.
pub open spec fn varint_bytes(v: u64) -> Seq<u8>
    decreases v,
{
    if v < 128 {
        seq![v as u8]
    } else {
        seq![(128 + v % 128) as u8] + varint_bytes(v / 128)
    }
}

/// Little-endian fixed 64-bit encoding.
pub open spec fn le64_bytes(v: u64) -> Seq<u8> {
    seq![
        (v & 0xff) as u8,
        ((v >> 8) & 0xff) as u8,
        ((v >> 16) & 0xff) as u8,
        ((v >> 24) & 0xff) as u8,
        ((v >> 32) & 0xff) as u8,
        ((v >> 40) & 0xff) as u8,
        ((v >> 48) & 0xff) as u8,
        ((v >> 56) & 0xff) as u8,
    ]
}

/// Length-prefixed byte string.
pub open spec fn len_delim(b: Seq<u8>) -> Seq<u8> {
    varint_bytes(b.len() as u64) + b
}

/// A length-delimited field: tag with wire type 2, then the payload.
pub open spec fn field_len(num: u64, b: Seq<u8>) -> Seq<u8> {
    varint_bytes((num * 8 + 2) as u64) + len_delim(b)
}

/// A varint field: tag with wire type 0, then the value.
pub open spec fn field_uint(num: u64, v: u64) -> Seq<u8> {
    varint_bytes((num * 8) as u64) + varint_bytes(v)
}

/// A fixed 64-bit field: tag with wire type 1, then the value.
pub open spec fn field_fix64(num: u64, v: u64) -> Seq<u8> {
    varint_bytes((num * 8 + 1) as u64) + le64_bytes(v)
}

/// A varint field that is skipped at its default value, as the canonical
/// encoding demands.
pub open spec fn opt_uint(num: u64, v: u64) -> Seq<u8> {
    if v == 0 {
        Seq::empty()
    } else {
        field_uint(num, v)
    }
}

/// A byte-string field that is skipped when empty.
pub open spec fn opt_len(num: u64, b: Seq<u8>) -> Seq<u8> {
    if b.len() == 0 {
        Seq::empty()
    } else {
        field_len(num, b)
    }
}

/// A fixed 64-bit field that is skipped at its default value.
pub open spec fn opt_fix64(num: u64, v: u64) -> Seq<u8> {
    if v == 0 {
        Seq::empty()
    } else {
        field_fix64(num, v)
    }
}

/// A boolean field: skipped when false, encoded as 1 when true.
pub open spec fn opt_bool(num: u64, v: bool) -> Seq<u8> {
    if v {
        field_uint(num, 1)
    } else {
        Seq::empty()
    }
}

pub proof fn lemma_subrange_empty(s: Seq<u8>, x: int)
    requires
        0 <= x <= s.len(),
    ensures
        s.subrange(x, x) == Seq::<u8>::empty(),
{
    assert(s.subrange(x, x) =~= Seq::<u8>::empty());
}

pub proof fn lemma_subrange_all(s: Seq<u8>)
    ensures
        s.subrange(0, s.len() as int) == s,
{
    assert(s.subrange(0, s.len() as int) =~= s);
}

pub proof fn lemma_subrange_split(s: Seq<u8>, i: int, k: int, j: int)
    requires
        0 <= i <= k <= j <= s.len(),
    ensures
        s.subrange(i, j) == s.subrange(i, k) + s.subrange(k, j),
{
    assert(s.subrange(i, j) =~= s.subrange(i, k) + s.subrange(k, j));
}

/// Appends the varint encoding of `v`.
pub fn write_varint(out: &mut Vec<u8>, v: u64)
    ensures
        final(out)@ == old(out)@ + varint_bytes(v),
{
    let mut x: u64 = v;
    while x >= 128
        invariant
            out@ + varint_bytes(x) == old(out)@ + varint_bytes(v),
        decreases x,
    {
        let b: u8 = ((x % 128) + 128) as u8;
        proof {
            assert(varint_bytes(x) == seq![(128 + x % 128) as u8] + varint_bytes(x / 128));
            assert(out@.push(b) + varint_bytes(x / 128) =~= out@ + varint_bytes(x));
        }
        out.push(b);
        x = x / 128;
    }
    proof {
        assert(varint_bytes(x) == seq![x as u8]);
        assert(out@.push(x as u8) =~= out@ + varint_bytes(x));
    }
    out.push(x as u8);
}

/// Appends the little-endian encoding of `v`.
pub fn write_le64(out: &mut Vec<u8>, v: u64)
    ensures
        final(out)@ == old(out)@ + le64_bytes(v),
{
    out.push((v & 0xff) as u8);
    out.push(((v >> 8) & 0xff) as u8);
    out.push(((v >> 16) & 0xff) as u8);
    out.push(((v >> 24) & 0xff) as u8);
    out.push(((v >> 32) & 0xff) as u8);
    out.push(((v >> 40) & 0xff) as u8);
    out.push(((v >> 48) & 0xff) as u8);
    out.push(((v >> 56) & 0xff) as u8);
    assert(out@ =~= old(out)@ + le64_bytes(v));
}

/// Appends a varint field with its tag.
pub fn write_uint_field(out: &mut Vec<u8>, num: u64, v: u64)
    requires
        1 <= num <= 1000,
    ensures
        final(out)@ == old(out)@ + field_uint(num, v),
{
    write_varint(out, num * 8);
    write_varint(out, v);
    assert(out@ =~= old(out)@ + field_uint(num, v));
}

/// Appends a fixed 64-bit field with its tag.
pub fn write_fix64_field(out: &mut Vec<u8>, num: u64, v: u64)
    requires
        1 <= num <= 1000,
    ensures
        final(out)@ == old(out)@ + field_fix64(num, v),
{
    write_varint(out, num * 8 + 1);
    write_le64(out, v);
    assert(out@ =~= old(out)@ + field_fix64(num, v));
}

/// Appends a length-delimited field with its tag.
pub fn write_len_field(out: &mut Vec<u8>, num: u64, b: &[u8])
    requires
        1 <= num <= 1000,
    ensures
        final(out)@ == old(out)@ + field_len(num, b@),
{
    write_varint(out, num * 8 + 2);
    write_varint(out, b.len() as u64);
    out.extend_from_slice(b);
    assert(out@ =~= old(out)@ + field_len(num, b@));
}

/// Reads one canonical varint starting at `i`; `None` on truncated input,
/// on overflow, and on a non-minimal encoding.  A varint that starts at
/// `i` is parsed, and to itself: parsing is complete and unambiguous.
pub fn read_varint(data: &[u8], i: usize) -> (r: Option<(u64, usize)>)
    requires
        i <= data@.len(),
    ensures
        match r {
            Some(p) => i < p.1 <= data@.len() && data@.subrange(
                i as int,
                p.1 as int,
            ) == varint_bytes(p.0),
            None => true,
        },
        forall|v: u64, tail: Seq<u8>|
            data@.subrange(i as int, data@.len() as int) == #[trigger] (varint_bytes(v) + tail)
                ==> (r matches Some(p) && p.0 == v && p.1 == i + varint_bytes(v).len()),
    decreases data@.len() - i,
{
    let ghost suffix = data@.subrange(i as int, data@.len() as int);
    if i >= data.len() {
        proof {
            assert forall|v: u64, tail: Seq<u8>| suffix != (varint_bytes(v) + tail) by {
                assert(varint_bytes(v).len() >= 1);
                assert((varint_bytes(v) + tail).len() >= 1);
            }
        }
        return None;
    }
    let b: u8 = *slice_index_get(data, i);
    proof {
        assert(suffix.len() >= 1 && suffix[0] == b);
    }
    if b < 128 {
        proof {
            assert(data@.subrange(i as int, i + 1) =~= seq![b]);
            assert forall|v: u64, tail: Seq<u8>|
                suffix == #[trigger] (varint_bytes(v) + tail) implies v == b as u64
                && varint_bytes(v).len() == 1 by {
                assert((varint_bytes(v) + tail)[0] == varint_bytes(v)[0]);
                if v >= 128 {
                    assert(varint_bytes(v)[0] == (128 + v % 128) as u8);
                    assert(varint_bytes(v)[0] >= 128);
                } else {
                    assert(varint_bytes(v)[0] == v as u8);
                }
            }
        }
        Some((b as u64, i + 1))
    } else {
        let rec = read_varint(data, i + 1);
        proof {
            // any varint starting at `i` begins with a continuation byte,
            // and its remaining groups form a varint starting at `i + 1`
            assert forall|v: u64, tail: Seq<u8>|
                suffix == #[trigger] (varint_bytes(v) + tail) implies v >= 128 && v % 128 == (b
                - 128) as u64 && data@.subrange(i + 1, data@.len() as int) == (varint_bytes(
                v / 128,
            ) + tail) by {
                assert((varint_bytes(v) + tail)[0] == varint_bytes(v)[0]);
                if v < 128 {
                    assert(varint_bytes(v)[0] == v as u8);
                    assert(suffix[0] < 128);
                } else {
                    assert(varint_bytes(v) == seq![(128 + v % 128) as u8] + varint_bytes(v / 128));
                    assert(varint_bytes(v)[0] == (128 + v % 128) as u8);
                    assert(128 + v % 128 < 256);
                    assert((128 + v % 128) as u8 == b);
                    assert(data@.subrange(i + 1, data@.len() as int) =~= suffix.drop_first());
                    assert(suffix.drop_first() =~= varint_bytes(v / 128) + tail);
                }
            }
        }
        match rec {
            None => {
                proof {
                    assert forall|v: u64, tail: Seq<u8>|
                        suffix != #[trigger] (varint_bytes(v) + tail) by {
                        if suffix == varint_bytes(v) + tail {
                            assert(data@.subrange(i + 1, data@.len() as int) == varint_bytes(
                                v / 128,
                            ) + tail);
                        }
                    }
                }
                None
            },
            Some((rest, j)) => {
                let low: u64 = (b - 128) as u64;
                if rest == 0 {
                    // a continuation byte followed by value zero is non-minimal
                    proof {
                        assert forall|v: u64, tail: Seq<u8>|
                            suffix != #[trigger] (varint_bytes(v) + tail) by {
                            if suffix == varint_bytes(v) + tail {
                                assert(data@.subrange(i + 1, data@.len() as int) == varint_bytes(
                                    v / 128,
                                ) + tail);
                                assert(v / 128 == 0);
                                assert(v < 128);
                            }
                        }
                    }
                    None
                } else if rest > (u64::MAX - low) / 128 {
                    proof {
                        assert forall|v: u64, tail: Seq<u8>|
                            suffix != #[trigger] (varint_bytes(v) + tail) by {
                            if suffix == varint_bytes(v) + tail {
                                assert(data@.subrange(i + 1, data@.len() as int) == varint_bytes(
                                    v / 128,
                                ) + tail);
                                assert(v / 128 == rest);
                                assert(v % 128 == low);
                                assert(v == 128 * (v / 128) + v % 128);
                                assert(v / 128 <= (u64::MAX - low) / 128) by (nonlinear_arith)
                                    requires
                                        128 * (v / 128) + low <= u64::MAX,
                                        low < 128,
                                ;
                            }
                        }
                    }
                    None
                } else {
                    proof {
                        assert(128 * rest <= u64::MAX - low) by (nonlinear_arith)
                            requires
                                rest <= (u64::MAX - low) / 128,
                                low < 128,
                        ;
                    }
                    let v: u64 = low + 128 * rest;
                    proof {
                        assert(v % 128 == low && v / 128 == rest) by (nonlinear_arith)
                            requires
                                v == low + 128 * rest,
                                low < 128,
                                rest >= 1,
                        ;
                        assert(varint_bytes(v) == seq![(128 + v % 128) as u8] + varint_bytes(
                            v / 128,
                        ));
                        assert((128 + v % 128) as u8 == b);
                        assert(data@.subrange(i as int, j as int) =~= seq![b] + data@.subrange(
                            i + 1,
                            j as int,
                        ));
                        assert forall|w: u64, tail: Seq<u8>|
                            suffix == #[trigger] (varint_bytes(w) + tail) implies w == v && i
                            + varint_bytes(w).len() == j by {
                            assert(data@.subrange(i + 1, data@.len() as int) == varint_bytes(
                                w / 128,
                            ) + tail);
                            assert(w / 128 == rest);
                            assert(w % 128 == low);
                            assert(w == 128 * (w / 128) + w % 128);
                            assert(varint_bytes(w) == seq![(128 + w % 128) as u8] + varint_bytes(
                                w / 128,
                            ));
                            assert(varint_bytes(w).len() == 1 + varint_bytes(w / 128).len());
                        }
                    }
                    Some((v, j))
                }
            },
        }
    }
}

/// Reads a little-endian 64-bit value starting at `i`; parsing is
/// complete and unambiguous.
pub fn read_le64(data: &[u8], i: usize) -> (r: Option<(u64, usize)>)
    requires
        i <= data@.len(),
    ensures
        match r {
            Some(p) => i < p.1 <= data@.len() && data@.subrange(
                i as int,
                p.1 as int,
            ) == le64_bytes(p.0),
            None => true,
        },
        forall|v: u64, tail: Seq<u8>|
            data@.subrange(i as int, data@.len() as int) == #[trigger] (le64_bytes(v) + tail)
                ==> (r matches Some(p) && p.0 == v && p.1 == i + 8),
{
    if data.len() - i < 8 {
        proof {
            assert forall|v: u64, tail: Seq<u8>|
                data@.subrange(i as int, data@.len() as int) != #[trigger] (le64_bytes(v)
                + tail) by {
                assert((le64_bytes(v) + tail).len() >= 8);
            }
        }
        return None;
    }
    let b0 = *slice_index_get(data, i) as u64;
    let b1 = *slice_index_get(data, i + 1) as u64;
    let b2 = *slice_index_get(data, i + 2) as u64;
    let b3 = *slice_index_get(data, i + 3) as u64;
    let b4 = *slice_index_get(data, i + 4) as u64;
    let b5 = *slice_index_get(data, i + 5) as u64;
    let b6 = *slice_index_get(data, i + 6) as u64;
    let b7 = *slice_index_get(data, i + 7) as u64;
    let v: u64 = b0 | (b1 << 8) | (b2 << 16) | (b3 << 24) | (b4 << 32) | (b5 << 40) | (b6 << 48)
        | (b7 << 56);
    proof {
        assert((v & 0xff) == b0 && ((v >> 8) & 0xff) == b1 && ((v >> 16) & 0xff) == b2 && ((v
            >> 24) & 0xff) == b3 && ((v >> 32) & 0xff) == b4 && ((v >> 40) & 0xff) == b5 && ((v
            >> 48) & 0xff) == b6 && ((v >> 56) & 0xff) == b7) by (bit_vector)
            requires
                v == b0 | (b1 << 8) | (b2 << 16) | (b3 << 24) | (b4 << 32) | (b5 << 40) | (b6
                    << 48) | (b7 << 56),
                b0 < 256 && b1 < 256 && b2 < 256 && b3 < 256,
                b4 < 256 && b5 < 256 && b6 < 256 && b7 < 256,
        ;
        assert(data@.subrange(i as int, i + 8) =~= le64_bytes(v));
        assert forall|w: u64, tail: Seq<u8>|
            data@.subrange(i as int, data@.len() as int) == #[trigger] (le64_bytes(w) + tail)
            implies w == v by {
            let s8 = data@.subrange(i as int, i + 8);
            assert(s8 =~= (le64_bytes(w) + tail).subrange(0, 8));
            assert((le64_bytes(w) + tail).subrange(0, 8) =~= le64_bytes(w));
            assert(le64_bytes(w)[0] == le64_bytes(v)[0] && le64_bytes(w)[1] == le64_bytes(v)[1]
                && le64_bytes(w)[2] == le64_bytes(v)[2] && le64_bytes(w)[3] == le64_bytes(v)[3]
                && le64_bytes(w)[4] == le64_bytes(v)[4] && le64_bytes(w)[5] == le64_bytes(v)[5]
                && le64_bytes(w)[6] == le64_bytes(v)[6] && le64_bytes(w)[7] == le64_bytes(v)[7]);
            assert(w == v) by (bit_vector)
                requires
                    (w & 0xff) as u8 == (v & 0xff) as u8,
                    ((w >> 8) & 0xff) as u8 == ((v >> 8) & 0xff) as u8,
                    ((w >> 16) & 0xff) as u8 == ((v >> 16) & 0xff) as u8,
                    ((w >> 24) & 0xff) as u8 == ((v >> 24) & 0xff) as u8,
                    ((w >> 32) & 0xff) as u8 == ((v >> 32) & 0xff) as u8,
                    ((w >> 40) & 0xff) as u8 == ((v >> 40) & 0xff) as u8,
                    ((w >> 48) & 0xff) as u8 == ((v >> 48) & 0xff) as u8,
                    ((w >> 56) & 0xff) as u8 == ((v >> 56) & 0xff) as u8,
            ;
        }
    }
    Some((v, i + 8))
}

/// Reads a length-prefixed byte string starting at `i`; parsing is
/// complete and unambiguous.
pub fn read_len_prefixed(data: &[u8], i: usize) -> (r: Option<(Vec<u8>, usize)>)
    requires
        i <= data@.len(),
    ensures
        match r {
            Some((b, j)) => i < j <= data@.len() && data@.subrange(i as int, j as int) == len_delim(
                b@,
            ),
            None => true,
        },
        forall|b: Seq<u8>, tail: Seq<u8>|
            data@.subrange(i as int, data@.len() as int) == #[trigger] (len_delim(b) + tail)
                ==> (r matches Some(p) && p.0@ == b && p.1 == i + len_delim(b).len()),
{
    let total: usize = data.len();
    let ghost suffix = data@.subrange(i as int, data@.len() as int);
    proof {
        // a length-delimited suffix is a varint suffix followed by the body
        assert forall|b: Seq<u8>, tail: Seq<u8>|
            suffix == #[trigger] (len_delim(b) + tail) implies suffix == (varint_bytes(
            b.len() as u64,
        ) + (b + tail)) && b.len() as u64 == b.len() by {
            assert(len_delim(b) + tail =~= varint_bytes(b.len() as u64) + (b + tail));
            assert(b.len() <= suffix.len());
            assert(suffix.len() <= total);
        }
    }
    match read_varint(data, i) {
        None => None,
        Some((n, k)) => {
            proof {
                assert forall|b: Seq<u8>, tail: Seq<u8>|
                    suffix == #[trigger] (len_delim(b) + tail) implies n == b.len() && k == i
                    + varint_bytes(b.len() as u64).len() && data@.subrange(
                    k as int,
                    data@.len() as int,
                ) == b + tail by {
                    assert(suffix == varint_bytes(b.len() as u64) + (b + tail));
                    assert(n == b.len() as u64 && k == i + varint_bytes(b.len() as u64).len());
                    assert(data@.subrange(k as int, data@.len() as int)
                        =~= suffix.skip(k - i));
                    assert(suffix.skip(k - i) =~= b + tail);
                }
            }
            if n > (data.len() - k) as u64 {
                proof {
                    assert forall|b: Seq<u8>, tail: Seq<u8>|
                        suffix != #[trigger] (len_delim(b) + tail) by {
                        if suffix == len_delim(b) + tail {
                            assert((b + tail).len() == data@.len() - k);
                        }
                    }
                }
                None
            } else {
                let n2: usize = n as usize;
                let j: usize = k + n2;
                let body = slice_to_vec(slice_subrange(data, k, j));
                proof {
                    lemma_subrange_split(data@, i as int, k as int, j as int);
                    assert(data@.subrange(i as int, j as int) =~= len_delim(body@));
                    assert forall|b: Seq<u8>, tail: Seq<u8>|
                        suffix == #[trigger] (len_delim(b) + tail) implies b == body@ && i
                        + len_delim(b).len() == j by {
                        assert(data@.subrange(k as int, data@.len() as int) == b + tail);
                        assert(body@ =~= (b + tail).subrange(0, b.len() as int));
                        assert((b + tail).subrange(0, b.len() as int) =~= b);
                    }
                }
                Some((body, j))
            }
        },
    }
}

/// Byte-for-byte comparison of two byte strings.
pub fn bytes_eq(a: &[u8], b: &[u8]) -> (r: bool)
    ensures
        r == (a@ == b@),
{
    if a.len() != b.len() {
        return false;
    }
    let mut i: usize = 0;
    while i < a.len()
        invariant
            i <= a@.len(),
            a@.len() == b@.len(),
            forall|j: int| 0 <= j < i ==> a@[j] == b@[j],
        decreases a@.len() - i,
    {
        if *slice_index_get(a, i) != *slice_index_get(b, i) {
            return false;
        }
        i = i + 1;
    }
    proof {
        assert(a@ =~= b@);
    }
    true
}

} // verus!
