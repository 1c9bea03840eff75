//! The wire primitives of the packet format: strings, integers, booleans
//! and map headers, each in its most compact self-describing form, exactly
//! as the counterpart servers write them.
//!
//! Every writer appends the encoding given by its `enc_*` spec function;
//! every parser is exact: it returns a value if and only if that value's
//! encoding sits at the given position, and rejects everything else.

use vstd::prelude::*;
use vstd::string::StringSliceAdditionalSpecFns;
use vstd::utf8::encode_utf8;

use crate::strutil::{lemma_encode_utf8_injective, string_from_utf8};

verus! {

/// `piece` sits in `bytes` at `pos`.
pub open spec fn is_prefix_at(bytes: Seq<u8>, pos: int, piece: Seq<u8>) -> bool {
    &&& 0 <= pos
    &&& pos + piece.len() <= bytes.len()
    &&& bytes.subrange(pos, pos + piece.len()) == piece
}

pub proof fn lemma_prefix_split(bytes: Seq<u8>, pos: int, x: Seq<u8>, y: Seq<u8>)
    requires
        is_prefix_at(bytes, pos, x + y),
    ensures
        is_prefix_at(bytes, pos, x),
        is_prefix_at(bytes, pos + x.len(), y),
{
    let xy = x + y;
    assert forall|i: int| 0 <= i < x.len() implies bytes.subrange(pos, pos + x.len())[i] == x[i] by {
        lemma_prefix_index(bytes, pos, xy, i);
        assert(xy[i] == x[i]);
    }
    assert(bytes.subrange(pos, pos + x.len()) =~= x);
    assert forall|i: int|
        0 <= i < y.len() implies bytes.subrange(pos + x.len(), pos + x.len() + y.len())[i]
        == y[i] by {
        lemma_prefix_index(bytes, pos, xy, x.len() + i);
        assert(xy[x.len() + i] == y[i]);
    }
    assert(bytes.subrange(pos + x.len(), pos + x.len() + y.len()) =~= y);
}

pub proof fn lemma_prefix_join(bytes: Seq<u8>, pos: int, x: Seq<u8>, y: Seq<u8>)
    requires
        is_prefix_at(bytes, pos, x),
        is_prefix_at(bytes, pos + x.len(), y),
    ensures
        is_prefix_at(bytes, pos, x + y),
{
    assert(bytes.subrange(pos, pos + (x + y).len() as int) =~= x + y);
}

pub proof fn lemma_prefix_index(bytes: Seq<u8>, pos: int, piece: Seq<u8>, i: int)
    requires
        is_prefix_at(bytes, pos, piece),
        0 <= i < piece.len(),
    ensures
        bytes[pos + i] == piece[i],
{
    assert(bytes.subrange(pos, pos + piece.len() as int)[i] == piece[i]);
}

/// A 16-bit value, big-endian.
pub open spec fn be16(v: u16) -> Seq<u8> {
    seq![(v / 256) as u8, (v % 256) as u8]
}

/// A 32-bit value, big-endian.
pub open spec fn be32(v: u32) -> Seq<u8> {
    seq![
        (v / 0x1000000) as u8,
        ((v / 0x10000) % 256) as u8,
        ((v / 256) % 256) as u8,
        (v % 256) as u8,
    ]
}

pub(crate) proof fn lemma_be16_value(v: u16)
    ensures
        (be16(v)[0] as u32) * 256 + (be16(v)[1] as u32) == v as u32,
{
}

pub(crate) proof fn lemma_be32_value(v: u32)
    ensures
        (be32(v)[0] as u64) * 0x1000000 + (be32(v)[1] as u64) * 0x10000 + (be32(v)[2] as u64) * 256
            + (be32(v)[3] as u64) == v as u64,
{
}

/// A string of those raw bytes: the shortest header for the length, then
/// the bytes. Lengths of 2^32 and more have no encoding (the last header
/// carries 32 bits); they never arise on this wire.
pub open spec fn enc_str_bytes(b: Seq<u8>) -> Seq<u8>
    recommends
        b.len() < 0x100000000,
{
    if b.len() < 32 {
        seq![(0xa0 + b.len()) as u8] + b
    } else if b.len() < 256 {
        seq![0xd9u8, b.len() as u8] + b
    } else if b.len() < 65536 {
        seq![0xdau8] + be16(b.len() as u16) + b
    } else {
        seq![0xdbu8] + be32(b.len() as u32) + b
    }
}

/// A string value: its UTF-8 bytes under a string header.
pub open spec fn enc_str(s: Seq<char>) -> Seq<u8> {
    enc_str_bytes(encode_utf8(s))
}

/// An unsigned 16-bit value (ports, priorities), most compact form.
pub open spec fn enc_uint(v: u16) -> Seq<u8> {
    if v < 128 {
        seq![v as u8]
    } else if v < 256 {
        seq![0xccu8, v as u8]
    } else {
        seq![0xcdu8] + be16(v)
    }
}

/// A signed 32-bit value (epoch counters), most compact form: negative
/// values use the signed headers, non-negative ones the unsigned headers.
pub open spec fn enc_sint(v: i32) -> Seq<u8> {
    if -32 <= v && v < 0 {
        seq![(v + 256) as u8]
    } else if -128 <= v && v < -32 {
        seq![0xd0u8, (v + 256) as u8]
    } else if -32768 <= v && v < -128 {
        seq![0xd1u8] + be16((v + 65536) as u16)
    } else if v < -32768 {
        seq![0xd2u8] + be32((v + 0x100000000) as u32)
    } else if v < 128 {
        seq![v as u8]
    } else if v < 256 {
        seq![0xccu8, v as u8]
    } else if v < 65536 {
        seq![0xcdu8] + be16(v as u16)
    } else {
        seq![0xceu8] + be32(v as u32)
    }
}

/// A boolean.
pub open spec fn enc_bool(b: bool) -> Seq<u8> {
    if b {
        seq![0xc3u8]
    } else {
        seq![0xc2u8]
    }
}

/// The nil value (an absent optional field).
pub open spec fn enc_nil() -> Seq<u8> {
    seq![0xc0u8]
}

/// The header of a map of `n` key-value pairs (`n < 16`).
pub open spec fn enc_fixmap(n: u8) -> Seq<u8>
    recommends
        n < 16,
{
    seq![(0x80 + n) as u8]
}

// ---------------------------------------------------------------------------
// Writers.
// ---------------------------------------------------------------------------
pub(crate) fn put_be16(out: &mut Vec<u8>, v: u16)
    ensures
        final(out)@ == old(out)@ + be16(v),
{
    out.push((v / 256) as u8);
    out.push((v % 256) as u8);
    proof {
        assert(out@ =~= old(out)@ + be16(v));
    }
}

pub(crate) fn put_be32(out: &mut Vec<u8>, v: u32)
    ensures
        final(out)@ == old(out)@ + be32(v),
{
    out.push((v / 0x1000000) as u8);
    out.push(((v / 0x10000) % 256) as u8);
    out.push(((v / 256) % 256) as u8);
    out.push((v % 256) as u8);
    proof {
        assert(out@ =~= old(out)@ + be32(v));
    }
}

/// Append the raw bytes of a slice.
pub(crate) fn put_slice(out: &mut Vec<u8>, b: &[u8])
    ensures
        final(out)@ == old(out)@ + b@,
{
    let mut i: usize = 0;
    #[verifier::loop_isolation(false)]
    while i < b.len()
        invariant
            i <= b@.len(),
            out@ == old(out)@ + b@.take(i as int),
        decreases b@.len() - i,
    {
        out.push(b[i]);
        i += 1;
        proof {
            assert(out@ =~= old(out)@ + b@.take(i as int));
        }
    }
    proof {
        assert(out@ =~= old(out)@ + b@);
    }
}

/// Append a string value.
pub(crate) fn put_str(out: &mut Vec<u8>, s: &str)
    requires
        s.spec_bytes().len() < 0x100000000,
    ensures
        final(out)@ == old(out)@ + enc_str(s@),
{
    let b = s.as_bytes();
    let n = b.len();
    if n < 32 {
        out.push(0xa0 + n as u8);
    } else if n < 256 {
        out.push(0xd9);
        out.push(n as u8);
    } else if n < 65536 {
        out.push(0xda);
        put_be16(out, n as u16);
    } else {
        out.push(0xdb);
        put_be32(out, n as u32);
    }
    put_slice(out, b);
    proof {
        assert(out@ =~= old(out)@ + enc_str(s@));
    }
}

/// Append an unsigned 16-bit value.
pub(crate) fn put_u16(out: &mut Vec<u8>, v: u16)
    ensures
        final(out)@ == old(out)@ + enc_uint(v),
{
    if v < 128 {
        out.push(v as u8);
    } else if v < 256 {
        out.push(0xcc);
        out.push(v as u8);
    } else {
        out.push(0xcd);
        put_be16(out, v);
    }
    proof {
        assert(out@ =~= old(out)@ + enc_uint(v));
    }
}

/// Append a signed 32-bit value.
pub(crate) fn put_i32(out: &mut Vec<u8>, v: i32)
    ensures
        final(out)@ == old(out)@ + enc_sint(v),
{
    if -32 <= v && v < 0 {
        out.push((v + 256) as u8);
    } else if -128 <= v && v < -32 {
        out.push(0xd0);
        out.push((v + 256) as u8);
    } else if -32768 <= v && v < -128 {
        out.push(0xd1);
        put_be16(out, (v + 65536) as u16);
    } else if v < -32768 {
        out.push(0xd2);
        put_be32(out, ((v as i64) + 0x100000000i64) as u32);
    } else if v < 128 {
        out.push(v as u8);
    } else if v < 256 {
        out.push(0xcc);
        out.push(v as u8);
    } else if v < 65536 {
        out.push(0xcd);
        put_be16(out, v as u16);
    } else {
        out.push(0xce);
        put_be32(out, v as u32);
    }
    proof {
        assert(out@ =~= old(out)@ + enc_sint(v));
    }
}

// ---------------------------------------------------------------------------
// Parsers.
// ---------------------------------------------------------------------------
/// Exact byte equality of slices.
pub(crate) fn bytes_eq(a: &[u8], b: &[u8]) -> (r: bool)
    ensures
        r == (a@ == b@),
{
    if a.len() != b.len() {
        proof {
            assert(a@ != b@);
        }
        return false;
    }
    let mut i: usize = 0;
    #[verifier::loop_isolation(false)]
    while i < a.len()
        invariant
            i <= a@.len() == b@.len(),
            forall|j: int| 0 <= j < i ==> a@[j] == b@[j],
        decreases a@.len() - i,
    {
        if a[i] != b[i] {
            return false;
        }
        i += 1;
    }
    proof {
        assert(a@ =~= b@);
    }
    true
}

/// Copy `bytes[start .. start + n]` out, if it is there.
fn take_range(bytes: &[u8], start: usize, n: usize) -> (r: Option<Vec<u8>>)
    requires
        start <= bytes@.len(),
    ensures
        r matches Some(v) ==> start + n <= bytes@.len() && v@ == bytes@.subrange(
            start as int,
            start + n,
        ),
        r is None ==> start + n > bytes@.len(),
{
    if n > bytes.len() - start {
        return None;
    }
    let mut v: Vec<u8> = Vec::new();
    let mut i: usize = 0;
    #[verifier::loop_isolation(false)]
    while i < n
        invariant
            i <= n,
            start + n <= bytes@.len(),
            v@ == bytes@.subrange(start as int, start + i),
        decreases n - i,
    {
        v.push(bytes[start + i]);
        i += 1;
        proof {
            assert(v@ =~= bytes@.subrange(start as int, start + i));
        }
    }
    Some(v)
}

/// Parse a string header and its raw bytes at `pos`. Exact: succeeds with
/// `(b, end)` iff the most compact encoding of some byte string `b` sits at
/// `pos`, and only the most compact one.
#[verifier::rlimit(60)]
fn parse_fixstr(bytes: &[u8], pos: usize) -> (r: Option<(Vec<u8>, usize)>)
    requires
        pos < bytes@.len(),
        0xa0 <= bytes@[pos as int] <= 0xbf,
    ensures
        r matches Some((v, end)) ==> v@.len() < 0x100000000 && end == pos + enc_str_bytes(
            v@,
        ).len() && is_prefix_at(bytes@, pos as int, enc_str_bytes(v@)),
        forall|b: Seq<u8>|
            b.len() < 0x100000000 && is_prefix_at(bytes@, pos as int, #[trigger] enc_str_bytes(b))
                ==> (r matches Some((v, end)) && v@ == b && end == pos + enc_str_bytes(b).len()),
{
    let ghost gb = bytes@;
    let b0 = bytes[pos];
    proof {
        assert forall|b: Seq<u8>|
            b.len() < 0x100000000 && is_prefix_at(gb, pos as int, #[trigger] enc_str_bytes(b))
                implies gb[pos as int] == enc_str_bytes(b)[0] by {
            lemma_prefix_index(gb, pos as int, enc_str_bytes(b), 0);
        }
    }

        let n = (b0 - 0xa0) as usize;
        let r = take_range(bytes, pos + 1, n);
        match r {
            Some(v) => {
                proof {
                    assert(is_prefix_at(gb, pos as int, enc_str_bytes(v@))) by {
                        assert(enc_str_bytes(v@) =~= gb.subrange(pos as int, pos + 1 + n));
                    }
                    assert forall|b: Seq<u8>|
                        b.len() < 0x100000000 && is_prefix_at(
                            gb,
                            pos as int,
                            #[trigger] enc_str_bytes(b),
                        ) implies v@ == b by {
                        assert(b.len() < 32);
                        assert(b.len() == n);
                        assert(b =~= gb.subrange(pos + 1, pos + 1 + n)) by {
                            assert(gb.subrange(pos as int, pos + 1 + n).subrange(1, 1 + n as int)
                                =~= gb.subrange(pos + 1, pos + 1 + n));
                            assert(enc_str_bytes(b).subrange(1, 1 + n as int) =~= b);
                        }
                    }
                }
                Some((v, pos + 1 + n))
            },
            None => {
                proof {
                    assert forall|b: Seq<u8>|
                        b.len() < 0x100000000 && is_prefix_at(
                            gb,
                            pos as int,
                            #[trigger] enc_str_bytes(b),
                        ) implies false by {
                        assert(b.len() == n);
                    }
                }
                None
            },
        }
}

#[verifier::rlimit(60)]
fn parse_str8(bytes: &[u8], pos: usize) -> (r: Option<(Vec<u8>, usize)>)
    requires
        pos < bytes@.len(),
        bytes@[pos as int] == 0xd9,
    ensures
        r matches Some((v, end)) ==> v@.len() < 0x100000000 && end == pos + enc_str_bytes(
            v@,
        ).len() && is_prefix_at(bytes@, pos as int, enc_str_bytes(v@)),
        forall|b: Seq<u8>|
            b.len() < 0x100000000 && is_prefix_at(bytes@, pos as int, #[trigger] enc_str_bytes(b))
                ==> (r matches Some((v, end)) && v@ == b && end == pos + enc_str_bytes(b).len()),
{
    let ghost gb = bytes@;
    let b0 = bytes[pos];
    proof {
        assert forall|b: Seq<u8>|
            b.len() < 0x100000000 && is_prefix_at(gb, pos as int, #[trigger] enc_str_bytes(b))
                implies gb[pos as int] == enc_str_bytes(b)[0] by {
            lemma_prefix_index(gb, pos as int, enc_str_bytes(b), 0);
        }
    }

        if bytes.len() - pos < 2 {
            proof {
                assert forall|b: Seq<u8>|
                    b.len() < 0x100000000 && is_prefix_at(
                        gb,
                        pos as int,
                        #[trigger] enc_str_bytes(b),
                    ) implies false by {
                    assert(32 <= b.len() < 256);
                    assert(enc_str_bytes(b).len() >= 2);
                }
            }
            return None;
        }
        let n_b = bytes[pos + 1];
        proof {
            assert forall|b: Seq<u8>|
                b.len() < 0x100000000 && is_prefix_at(gb, pos as int, #[trigger] enc_str_bytes(b))
                    implies 32 <= b.len() < 256 && b.len() == n_b by {
                assert(32 <= b.len() < 256);
                lemma_prefix_index(gb, pos as int, enc_str_bytes(b), 1);
            }
        }
        if n_b < 32 {
            return None;
        }
        let n = n_b as usize;
        let r = take_range(bytes, pos + 2, n);
        match r {
            Some(v) => {
                proof {
                    assert(is_prefix_at(gb, pos as int, enc_str_bytes(v@))) by {
                        assert(enc_str_bytes(v@) =~= gb.subrange(pos as int, pos + 2 + n));
                    }
                    assert forall|b: Seq<u8>|
                        b.len() < 0x100000000 && is_prefix_at(
                            gb,
                            pos as int,
                            #[trigger] enc_str_bytes(b),
                        ) implies v@ == b by {
                        assert(b =~= gb.subrange(pos + 2, pos + 2 + n)) by {
                            assert(gb.subrange(pos as int, pos + 2 + n).subrange(2, 2 + n as int)
                                =~= gb.subrange(pos + 2, pos + 2 + n));
                            assert(enc_str_bytes(b).subrange(2, 2 + n as int) =~= b);
                        }
                    }
                }
                Some((v, pos + 2 + n))
            },
            None => {
                proof {
                    assert forall|b: Seq<u8>|
                        b.len() < 0x100000000 && is_prefix_at(
                            gb,
                            pos as int,
                            #[trigger] enc_str_bytes(b),
                        ) implies false by {
                        assert(b.len() == n);
                        assert(enc_str_bytes(b).len() == 2 + n);
                    }
                }
                None
            },
        }
}

#[verifier::rlimit(60)]
fn parse_str16(bytes: &[u8], pos: usize) -> (r: Option<(Vec<u8>, usize)>)
    requires
        pos < bytes@.len(),
        bytes@[pos as int] == 0xda,
    ensures
        r matches Some((v, end)) ==> v@.len() < 0x100000000 && end == pos + enc_str_bytes(
            v@,
        ).len() && is_prefix_at(bytes@, pos as int, enc_str_bytes(v@)),
        forall|b: Seq<u8>|
            b.len() < 0x100000000 && is_prefix_at(bytes@, pos as int, #[trigger] enc_str_bytes(b))
                ==> (r matches Some((v, end)) && v@ == b && end == pos + enc_str_bytes(b).len()),
{
    let ghost gb = bytes@;
    let b0 = bytes[pos];
    proof {
        assert forall|b: Seq<u8>|
            b.len() < 0x100000000 && is_prefix_at(gb, pos as int, #[trigger] enc_str_bytes(b))
                implies gb[pos as int] == enc_str_bytes(b)[0] by {
            lemma_prefix_index(gb, pos as int, enc_str_bytes(b), 0);
        }
    }

        if bytes.len() - pos < 3 {
            proof {
                assert forall|b: Seq<u8>|
                    b.len() < 0x100000000 && is_prefix_at(
                        gb,
                        pos as int,
                        #[trigger] enc_str_bytes(b),
                    ) implies false by {
                    assert(256 <= b.len() < 65536);
                    assert(enc_str_bytes(b).len() >= 3 + b.len());
                }
            }
            return None;
        }
        let hi = bytes[pos + 1];
        let lo = bytes[pos + 2];
        let n = (hi as usize) * 256 + (lo as usize);
        proof {
            assert forall|b: Seq<u8>|
                b.len() < 0x100000000 && is_prefix_at(gb, pos as int, #[trigger] enc_str_bytes(b))
                    implies 256 <= b.len() < 65536 && b.len() == n by {
                assert(256 <= b.len() < 65536);
                lemma_prefix_index(gb, pos as int, enc_str_bytes(b), 1);
                lemma_prefix_index(gb, pos as int, enc_str_bytes(b), 2);
                lemma_be16_value(b.len() as u16);
            }
        }
        if n < 256 {
            return None;
        }
        let r = take_range(bytes, pos + 3, n);
        match r {
            Some(v) => {
                proof {
                    assert(is_prefix_at(gb, pos as int, enc_str_bytes(v@))) by {
                        lemma_be16_value(n as u16);
                        assert(enc_str_bytes(v@)[1] == gb[pos + 1] && enc_str_bytes(v@)[2] == gb[pos + 2]) by {
                            assert((n / 256) as u8 == hi && (n % 256) as u8 == lo);
                        }
                        assert(enc_str_bytes(v@) =~= gb.subrange(pos as int, pos + 3 + n));
                    }
                    assert forall|b: Seq<u8>|
                        b.len() < 0x100000000 && is_prefix_at(
                            gb,
                            pos as int,
                            #[trigger] enc_str_bytes(b),
                        ) implies v@ == b by {
                        assert(b =~= gb.subrange(pos + 3, pos + 3 + n)) by {
                            assert(gb.subrange(pos as int, pos + 3 + n).subrange(3, 3 + n as int)
                                =~= gb.subrange(pos + 3, pos + 3 + n));
                            assert(enc_str_bytes(b).subrange(3, 3 + n as int) =~= b);
                        }
                    }
                }
                Some((v, pos + 3 + n))
            },
            None => {
                proof {
                    assert forall|b: Seq<u8>|
                        b.len() < 0x100000000 && is_prefix_at(
                            gb,
                            pos as int,
                            #[trigger] enc_str_bytes(b),
                        ) implies false by {
                        assert(b.len() == n);
                        assert(enc_str_bytes(b).len() == 3 + n);
                    }
                }
                None
            },
        }
}

#[verifier::rlimit(60)]
fn parse_str32(bytes: &[u8], pos: usize) -> (r: Option<(Vec<u8>, usize)>)
    requires
        pos < bytes@.len(),
        bytes@[pos as int] == 0xdb,
    ensures
        r matches Some((v, end)) ==> v@.len() < 0x100000000 && end == pos + enc_str_bytes(
            v@,
        ).len() && is_prefix_at(bytes@, pos as int, enc_str_bytes(v@)),
        forall|b: Seq<u8>|
            b.len() < 0x100000000 && is_prefix_at(bytes@, pos as int, #[trigger] enc_str_bytes(b))
                ==> (r matches Some((v, end)) && v@ == b && end == pos + enc_str_bytes(b).len()),
{
    let ghost gb = bytes@;
    let b0 = bytes[pos];
    proof {
        assert forall|b: Seq<u8>|
            b.len() < 0x100000000 && is_prefix_at(gb, pos as int, #[trigger] enc_str_bytes(b))
                implies gb[pos as int] == enc_str_bytes(b)[0] by {
            lemma_prefix_index(gb, pos as int, enc_str_bytes(b), 0);
        }
    }

        if bytes.len() - pos < 5 {
            proof {
                assert forall|b: Seq<u8>|
                    b.len() < 0x100000000 && is_prefix_at(
                        gb,
                        pos as int,
                        #[trigger] enc_str_bytes(b),
                    ) implies false by {
                    assert(65536 <= b.len());
                    assert(enc_str_bytes(b).len() >= 5 + b.len());
                }
            }
            return None;
        }
        let b1 = bytes[pos + 1];
        let b2 = bytes[pos + 2];
        let b3 = bytes[pos + 3];
        let b4 = bytes[pos + 4];
        let n_u64: u64 = (b1 as u64) * 0x1000000 + (b2 as u64) * 0x10000 + (b3 as u64) * 256 + (
        b4 as u64);
        proof {
            assert forall|b: Seq<u8>|
                b.len() < 0x100000000 && is_prefix_at(gb, pos as int, #[trigger] enc_str_bytes(b))
                    implies 65536 <= b.len() && b.len() == n_u64 by {
                assert(65536 <= b.len());
                lemma_prefix_index(gb, pos as int, enc_str_bytes(b), 1);
                lemma_prefix_index(gb, pos as int, enc_str_bytes(b), 2);
                lemma_prefix_index(gb, pos as int, enc_str_bytes(b), 3);
                lemma_prefix_index(gb, pos as int, enc_str_bytes(b), 4);
                lemma_be32_value(b.len() as u32);
            }
        }
        if n_u64 < 65536 {
            return None;
        }
        if n_u64 > usize::MAX as u64 {
            proof {
                assert forall|b: Seq<u8>|
                    b.len() < 0x100000000 && is_prefix_at(
                        gb,
                        pos as int,
                        #[trigger] enc_str_bytes(b),
                    ) implies false by {
                    assert(b.len() == n_u64);
                    assert(enc_str_bytes(b).len() >= b.len());
                    assert(gb.len() <= usize::MAX);
                }
            }
            return None;
        }
        let n = n_u64 as usize;
        let r = take_range(bytes, pos + 5, n);
        match r {
            Some(v) => {
                proof {
                    assert(is_prefix_at(gb, pos as int, enc_str_bytes(v@))) by {
                        lemma_be32_value(n as u32);
                        assert(enc_str_bytes(v@)[1] == gb[pos + 1] && enc_str_bytes(v@)[2] == gb[pos + 2] && enc_str_bytes(v@)[3] == gb[pos + 3] && enc_str_bytes(v@)[4] == gb[pos + 4]) by {
                            assert((n as u32 / 0x1000000) as u8 == b1 && ((n as u32 / 0x10000)
                                % 256) as u8 == b2 && ((n as u32 / 256) % 256) as u8 == b3 && (
                            n as u32 % 256) as u8 == b4) by {
                                lemma_be32_inverse(b1, b2, b3, b4);
                            }
                        }
                        assert(enc_str_bytes(v@) =~= gb.subrange(pos as int, pos + 5 + n));
                    }
                    assert forall|b: Seq<u8>|
                        b.len() < 0x100000000 && is_prefix_at(
                            gb,
                            pos as int,
                            #[trigger] enc_str_bytes(b),
                        ) implies v@ == b by {
                        assert(b =~= gb.subrange(pos + 5, pos + 5 + n)) by {
                            assert(gb.subrange(pos as int, pos + 5 + n).subrange(5, 5 + n as int)
                                =~= gb.subrange(pos + 5, pos + 5 + n));
                            assert(enc_str_bytes(b).subrange(5, 5 + n as int) =~= b);
                        }
                    }
                }
                Some((v, pos + 5 + n))
            },
            None => {
                proof {
                    assert forall|b: Seq<u8>|
                        b.len() < 0x100000000 && is_prefix_at(
                            gb,
                            pos as int,
                            #[trigger] enc_str_bytes(b),
                        ) implies false by {
                        assert(b.len() == n);
                        assert(enc_str_bytes(b).len() == 5 + n);
                    }
                }
                None
            },
        }
}

#[verifier::rlimit(60)]
pub(crate) fn parse_str_bytes(bytes: &[u8], pos: usize) -> (r: Option<(Vec<u8>, usize)>)
    requires
        pos <= bytes@.len(),
    ensures
        r matches Some((v, end)) ==> v@.len() < 0x100000000 && end == pos + enc_str_bytes(
            v@,
        ).len() && is_prefix_at(bytes@, pos as int, enc_str_bytes(v@)),
        forall|b: Seq<u8>|
            b.len() < 0x100000000 && is_prefix_at(bytes@, pos as int, #[trigger] enc_str_bytes(b))
                ==> (r matches Some((v, end)) && v@ == b && end == pos + enc_str_bytes(b).len()),
{
    let ghost gb = bytes@;
    if pos >= bytes.len() {
        proof {
            assert forall|b: Seq<u8>|
                b.len() < 0x100000000 && is_prefix_at(gb, pos as int, #[trigger] enc_str_bytes(b))
                    implies false by {}
        }
        return None;
    }
    let b0 = bytes[pos];
    if 0xa0 <= b0 && b0 <= 0xbf {
        parse_fixstr(bytes, pos)
    } else if b0 == 0xd9 {
        parse_str8(bytes, pos)
    } else if b0 == 0xda {
        parse_str16(bytes, pos)
    } else if b0 == 0xdb {
        parse_str32(bytes, pos)
    } else {
        proof {
            assert forall|b: Seq<u8>|
                b.len() < 0x100000000 && is_prefix_at(gb, pos as int, #[trigger] enc_str_bytes(b))
                    implies false by {
                lemma_prefix_index(gb, pos as int, enc_str_bytes(b), 0);
            }
        }
        None
    }
}

pub(crate) proof fn lemma_be32_inverse(b1: u8, b2: u8, b3: u8, b4: u8)
    ensures
        ({
            let v = (b1 as u32) * 0x1000000 + (b2 as u32) * 0x10000 + (b3 as u32) * 256 + (
            b4 as u32);
            (v / 0x1000000) as u8 == b1 && ((v / 0x10000) % 256) as u8 == b2 && ((v / 256)
                % 256) as u8 == b3 && (v % 256) as u8 == b4
        }),
{
    let v: int = (b1 as int) * 0x1000000 + (b2 as int) * 0x10000 + (b3 as int) * 256 + (
    b4 as int);
    vstd::arithmetic::div_mod::lemma_fundamental_div_mod_converse(
        v,
        0x1000000,
        b1 as int,
        (b2 as int) * 0x10000 + (b3 as int) * 256 + (b4 as int),
    );
    vstd::arithmetic::div_mod::lemma_fundamental_div_mod_converse(
        v,
        0x10000,
        (b1 as int) * 256 + (b2 as int),
        (b3 as int) * 256 + (b4 as int),
    );
    vstd::arithmetic::div_mod::lemma_fundamental_div_mod_converse(
        (b1 as int) * 256 + (b2 as int),
        256,
        b1 as int,
        b2 as int,
    );
    vstd::arithmetic::div_mod::lemma_fundamental_div_mod_converse(
        v,
        256,
        (b1 as int) * 0x10000 + (b2 as int) * 256 + (b3 as int),
        b4 as int,
    );
    vstd::arithmetic::div_mod::lemma_fundamental_div_mod_converse(
        (b1 as int) * 0x10000 + (b2 as int) * 256 + (b3 as int),
        256,
        (b1 as int) * 256 + (b2 as int),
        b3 as int,
    );
}

/// Parse a string value at `pos`: its bytes must be valid UTF-8 under the
/// most compact header.
pub(crate) fn parse_str(bytes: &[u8], pos: usize) -> (r: Option<(String, usize)>)
    requires
        pos <= bytes@.len(),
    ensures
        r matches Some((s, end)) ==> encode_utf8(s@).len() < 0x100000000 && end == pos + enc_str(
            s@,
        ).len() && is_prefix_at(bytes@, pos as int, enc_str(s@)),
        forall|s: Seq<char>|
            encode_utf8(s).len() < 0x100000000 && is_prefix_at(
                bytes@,
                pos as int,
                #[trigger] enc_str(s),
            ) ==> (r matches Some((t, end)) && t@ == s && end == pos + enc_str(s).len()),
{
    let ghost gb = bytes@;
    let r = parse_str_bytes(bytes, pos);
    match r {
        Some((v, end)) => {
            let ghost vb = v@;
            let s = string_from_utf8(v);
            match s {
                Some(t) => {
                    proof {
                        vstd::utf8::decode_utf8_encode_utf8(vb);
                        assert(enc_str(t@) == enc_str_bytes(vb));
                        assert forall|s2: Seq<char>|
                            encode_utf8(s2).len() < 0x100000000 && is_prefix_at(
                                gb,
                                pos as int,
                                #[trigger] enc_str(s2),
                            ) implies t@ == s2 by {
                            assert(encode_utf8(s2) == vb);
                            lemma_encode_utf8_injective(s2, t@);
                        }
                    }
                    Some((t, end))
                },
                None => {
                    proof {
                        assert forall|s2: Seq<char>|
                            encode_utf8(s2).len() < 0x100000000 && is_prefix_at(
                                gb,
                                pos as int,
                                #[trigger] enc_str(s2),
                            ) implies false by {
                            assert(encode_utf8(s2) == vb);
                            vstd::utf8::encode_utf8_valid_utf8(s2);
                        }
                    }
                    None
                },
            }
        },
        None => {
            proof {
                assert forall|s2: Seq<char>|
                    encode_utf8(s2).len() < 0x100000000 && is_prefix_at(
                        gb,
                        pos as int,
                        #[trigger] enc_str(s2),
                    ) implies false by {}
            }
            None
        },
    }
}

/// Expect exactly the string `lit` (a field or variant key) at `pos`.
pub(crate) fn expect_str(bytes: &[u8], pos: usize, lit: &str) -> (r: Option<usize>)
    requires
        pos <= bytes@.len(),
        lit.spec_bytes().len() < 0x100000000,
    ensures
        r matches Some(end) ==> is_prefix_at(bytes@, pos as int, enc_str(lit@)) && end == pos
            + enc_str(lit@).len(),
        r is None ==> !is_prefix_at(bytes@, pos as int, enc_str(lit@)),
{
    let ghost gb = bytes@;
    let r = parse_str_bytes(bytes, pos);
    match r {
        Some((v, end)) => {
            if bytes_eq(v.as_slice(), lit.as_bytes()) {
                proof {
                    assert(enc_str(lit@) == enc_str_bytes(v@));
                }
                Some(end)
            } else {
                proof {
                    if is_prefix_at(gb, pos as int, enc_str(lit@)) {
                        assert(enc_str(lit@) == enc_str_bytes(lit.spec_bytes()));
                        assert(v@ == lit.spec_bytes());
                    }
                }
                None
            }
        },
        None => {
            proof {
                if is_prefix_at(gb, pos as int, enc_str(lit@)) {
                    assert(enc_str(lit@) == enc_str_bytes(lit.spec_bytes()));
                    assert(false);
                }
            }
            None
        },
    }
}

/// Expect exactly the byte `m` (a map header, nil, or a boolean) at `pos`.
pub(crate) fn expect_byte(bytes: &[u8], pos: usize, m: u8) -> (r: Option<usize>)
    requires
        pos <= bytes@.len(),
    ensures
        r matches Some(end) ==> is_prefix_at(bytes@, pos as int, seq![m]) && end == pos + 1,
        r is None ==> !is_prefix_at(bytes@, pos as int, seq![m]),
{
    if pos < bytes.len() && bytes[pos] == m {
        proof {
            assert(bytes@.subrange(pos as int, pos + 1) =~= seq![m]);
        }
        Some(pos + 1)
    } else {
        proof {
            if is_prefix_at(bytes@, pos as int, seq![m]) {
                lemma_prefix_index(bytes@, pos as int, seq![m], 0);
            }
        }
        None
    }
}

/// Parse an unsigned 16-bit value at `pos`.
pub(crate) fn parse_u16(bytes: &[u8], pos: usize) -> (r: Option<(u16, usize)>)
    requires
        pos <= bytes@.len(),
    ensures
        r matches Some((v, end)) ==> is_prefix_at(bytes@, pos as int, enc_uint(v)) && end == pos
            + enc_uint(v).len(),
        forall|v: u16|
            is_prefix_at(bytes@, pos as int, #[trigger] enc_uint(v)) ==> (r matches Some((w, end))
                && w == v && end == pos + enc_uint(v).len()),
{
    let ghost gb = bytes@;
    proof {
        assert forall|v: u16| is_prefix_at(gb, pos as int, #[trigger] enc_uint(v)) implies gb[pos as int] == enc_uint(v)[0] by {
            lemma_prefix_index(gb, pos as int, enc_uint(v), 0);
        }
    }
    if pos >= bytes.len() {
        return None;
    }
    let b0 = bytes[pos];
    if b0 < 0x80 {
        proof {
            assert(gb.subrange(pos as int, pos + 1) =~= enc_uint(b0 as u16));
        }
        Some((b0 as u16, pos + 1))
    } else if b0 == 0xcc {
        if bytes.len() - pos < 2 {
            return None;
        }
        let b1 = bytes[pos + 1];
        proof {
            assert forall|v: u16| is_prefix_at(gb, pos as int, #[trigger] enc_uint(v)) implies 128
                <= v < 256 && v == b1 by {
                lemma_prefix_index(gb, pos as int, enc_uint(v), 1);
            }
        }
        if b1 < 128 {
            return None;
        }
        proof {
            assert(gb.subrange(pos as int, pos + 2) =~= enc_uint(b1 as u16));
        }
        Some((b1 as u16, pos + 2))
    } else if b0 == 0xcd {
        if bytes.len() - pos < 3 {
            return None;
        }
        let hi = bytes[pos + 1];
        let lo = bytes[pos + 2];
        let v = (hi as u16) * 256 + (lo as u16);
        proof {
            assert forall|w: u16| is_prefix_at(gb, pos as int, #[trigger] enc_uint(w)) implies w
                >= 256 && w == v by {
                lemma_prefix_index(gb, pos as int, enc_uint(w), 1);
                lemma_prefix_index(gb, pos as int, enc_uint(w), 2);
                lemma_be16_value(w);
            }
        }
        if v < 256 {
            return None;
        }
        proof {
            assert((v / 256) as u8 == hi && (v % 256) as u8 == lo);
            assert(gb.subrange(pos as int, pos + 3) =~= enc_uint(v));
        }
        Some((v, pos + 3))
    } else {
        None
    }
}

/// Parse a signed 32-bit value at `pos`.
#[verifier::rlimit(100)]
pub(crate) fn parse_i32(bytes: &[u8], pos: usize) -> (r: Option<(i32, usize)>)
    requires
        pos <= bytes@.len(),
    ensures
        r matches Some((v, end)) ==> is_prefix_at(bytes@, pos as int, enc_sint(v)) && end == pos
            + enc_sint(v).len(),
        forall|v: i32|
            is_prefix_at(bytes@, pos as int, #[trigger] enc_sint(v)) ==> (r matches Some((w, end))
                && w == v && end == pos + enc_sint(v).len()),
{
    let ghost gb = bytes@;
    proof {
        assert forall|v: i32| is_prefix_at(gb, pos as int, #[trigger] enc_sint(v)) implies gb[pos as int] == enc_sint(v)[0] by {
            lemma_prefix_index(gb, pos as int, enc_sint(v), 0);
        }
    }
    if pos >= bytes.len() {
        return None;
    }
    let b0 = bytes[pos];
    if b0 < 0x80 {
        proof {
            assert(gb.subrange(pos as int, pos + 1) =~= enc_sint(b0 as i32));
        }
        Some((b0 as i32, pos + 1))
    } else if b0 >= 0xe0 {
        let v: i32 = (b0 as i32) - 256;
        proof {
            assert(gb.subrange(pos as int, pos + 1) =~= enc_sint(v));
        }
        Some((v, pos + 1))
    } else if b0 == 0xcc {
        if bytes.len() - pos < 2 {
            return None;
        }
        let b1 = bytes[pos + 1];
        proof {
            assert forall|v: i32| is_prefix_at(gb, pos as int, #[trigger] enc_sint(v)) implies 128
                <= v < 256 && v == b1 by {
                lemma_prefix_index(gb, pos as int, enc_sint(v), 1);
            }
        }
        if b1 < 128 {
            return None;
        }
        proof {
            assert(gb.subrange(pos as int, pos + 2) =~= enc_sint(b1 as i32));
        }
        Some((b1 as i32, pos + 2))
    } else if b0 == 0xd0 {
        if bytes.len() - pos < 2 {
            return None;
        }
        let b1 = bytes[pos + 1];
        proof {
            assert forall|v: i32| is_prefix_at(gb, pos as int, #[trigger] enc_sint(v)) implies -128
                <= v < -32 && v + 256 == b1 by {
                lemma_prefix_index(gb, pos as int, enc_sint(v), 1);
            }
        }
        if b1 < 128 || b1 >= 224 {
            return None;
        }
        let v: i32 = (b1 as i32) - 256;
        proof {
            assert(gb.subrange(pos as int, pos + 2) =~= enc_sint(v));
        }
        Some((v, pos + 2))
    } else if b0 == 0xd1 {
        if bytes.len() - pos < 3 {
            return None;
        }
        let hi = bytes[pos + 1];
        let lo = bytes[pos + 2];
        let u = (hi as u32) * 256 + (lo as u32);
        proof {
            assert forall|v: i32| is_prefix_at(gb, pos as int, #[trigger] enc_sint(v)) implies
                -32768 <= v < -128 && v + 65536 == u by {
                lemma_prefix_index(gb, pos as int, enc_sint(v), 1);
                lemma_prefix_index(gb, pos as int, enc_sint(v), 2);
                lemma_be16_value((v + 65536) as u16);
            }
        }
        if u < 32768 || u >= 65408 {
            return None;
        }
        let v: i32 = (u as i32) - 65536;
        proof {
            assert((((v + 65536) as u16) / 256) as u8 == hi && (((v + 65536) as u16)
                % 256) as u8 == lo);
            assert(gb.subrange(pos as int, pos + 3) =~= enc_sint(v));
        }
        Some((v, pos + 3))
    } else if b0 == 0xd2 {
        if bytes.len() - pos < 5 {
            return None;
        }
        let b1 = bytes[pos + 1];
        let b2 = bytes[pos + 2];
        let b3 = bytes[pos + 3];
        let b4 = bytes[pos + 4];
        let u: u32 = ((b1 as u32) * 0x1000000) + ((b2 as u32) * 0x10000) + ((b3 as u32) * 256) + (
        b4 as u32);
        proof {
            assert forall|v: i32| is_prefix_at(gb, pos as int, #[trigger] enc_sint(v)) implies v
                < -32768 && (v + 0x100000000) == u by {
                lemma_prefix_index(gb, pos as int, enc_sint(v), 1);
                lemma_prefix_index(gb, pos as int, enc_sint(v), 2);
                lemma_prefix_index(gb, pos as int, enc_sint(v), 3);
                lemma_prefix_index(gb, pos as int, enc_sint(v), 4);
                lemma_be32_value((v + 0x100000000) as u32);
            }
        }
        if u < 0x80000000 || u >= 0xFFFF8000 {
            return None;
        }
        let v: i32 = ((u as i64) - 0x100000000i64) as i32;
        proof {
            lemma_be32_inverse(b1, b2, b3, b4);
            assert(gb.subrange(pos as int, pos + 5) =~= enc_sint(v));
        }
        Some((v, pos + 5))
    } else if b0 == 0xcd {
        if bytes.len() - pos < 3 {
            return None;
        }
        let hi = bytes[pos + 1];
        let lo = bytes[pos + 2];
        let u = (hi as u32) * 256 + (lo as u32);
        proof {
            assert forall|v: i32| is_prefix_at(gb, pos as int, #[trigger] enc_sint(v)) implies 256
                <= v < 65536 && v == u by {
                lemma_prefix_index(gb, pos as int, enc_sint(v), 1);
                lemma_prefix_index(gb, pos as int, enc_sint(v), 2);
                lemma_be16_value(v as u16);
            }
        }
        if u < 256 {
            return None;
        }
        let v: i32 = u as i32;
        proof {
            assert(((v as u16) / 256) as u8 == hi && ((v as u16) % 256) as u8 == lo);
            assert(gb.subrange(pos as int, pos + 3) =~= enc_sint(v));
        }
        Some((v, pos + 3))
    } else if b0 == 0xce {
        if bytes.len() - pos < 5 {
            return None;
        }
        let b1 = bytes[pos + 1];
        let b2 = bytes[pos + 2];
        let b3 = bytes[pos + 3];
        let b4 = bytes[pos + 4];
        let u: u32 = ((b1 as u32) * 0x1000000) + ((b2 as u32) * 0x10000) + ((b3 as u32) * 256) + (
        b4 as u32);
        proof {
            assert forall|v: i32| is_prefix_at(gb, pos as int, #[trigger] enc_sint(v)) implies v
                >= 65536 && v == u by {
                lemma_prefix_index(gb, pos as int, enc_sint(v), 1);
                lemma_prefix_index(gb, pos as int, enc_sint(v), 2);
                lemma_prefix_index(gb, pos as int, enc_sint(v), 3);
                lemma_prefix_index(gb, pos as int, enc_sint(v), 4);
                lemma_be32_value(v as u32);
            }
        }
        if u < 65536 || u > 0x7FFFFFFF {
            return None;
        }
        let v: i32 = u as i32;
        proof {
            lemma_be32_inverse(b1, b2, b3, b4);
            assert(gb.subrange(pos as int, pos + 5) =~= enc_sint(v));
        }
        Some((v, pos + 5))
    } else {
        None
    }
}

/// Parse a boolean at `pos`.
pub(crate) fn parse_bool(bytes: &[u8], pos: usize) -> (r: Option<(bool, usize)>)
    requires
        pos <= bytes@.len(),
    ensures
        r matches Some((v, end)) ==> is_prefix_at(bytes@, pos as int, enc_bool(v)) && end == pos
            + 1,
        forall|v: bool|
            is_prefix_at(bytes@, pos as int, #[trigger] enc_bool(v)) ==> (r matches Some((w, end))
                && w == v && end == pos + 1),
{
    let ghost gb = bytes@;
    proof {
        assert forall|v: bool| is_prefix_at(gb, pos as int, #[trigger] enc_bool(v)) implies gb[pos as int] == enc_bool(v)[0] by {
            lemma_prefix_index(gb, pos as int, enc_bool(v), 0);
        }
    }
    if pos >= bytes.len() {
        return None;
    }
    let b0 = bytes[pos];
    if b0 == 0xc2 {
        proof {
            assert(gb.subrange(pos as int, pos + 1) =~= enc_bool(false));
        }
        Some((false, pos + 1))
    } else if b0 == 0xc3 {
        proof {
            assert(gb.subrange(pos as int, pos + 1) =~= enc_bool(true));
        }
        Some((true, pos + 1))
    } else {
        None
    }
}

} // verus!
