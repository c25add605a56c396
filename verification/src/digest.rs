//! Canonical byte framing and SHA-256 commitments.
//!
//! Every commitment in this crate is the SHA-256 digest of a domain string
//! followed by a canonical, self-delimiting byte encoding of the committed
//! value: integers are big-endian, text is length-prefixed UTF-8, optional
//! values carry a presence byte, and lists carry their length.

use sha2::Digest;
use vstd::prelude::*;
use vstd::utf8::encode_utf8;

verus! {

/// SHA-256 of a byte string.
pub uninterp spec fn sha256_spec(data: Seq<u8>) -> Seq<u8>;

/// Calls `sha2::Sha256::digest`; the contract names the result as the SHA-256
/// digest of exactly the bytes handed to it.
#[verifier::external_body]
fn sha256_call(data: &[u8]) -> (digest: [u8; 32])
    ensures
        digest@ == sha256_spec(data@),
{
    sha2::Sha256::digest(data).into()
}

/// SHA-256 of the framed bytes.
pub fn sha256(data: &Vec<u8>) -> (digest: [u8; 32])
    ensures
        digest@ == sha256_spec(data@),
{
    sha256_call(data.as_slice())
}

pub open spec fn u8_bytes(x: u8) -> Seq<u8> {
    seq![x]
}

pub open spec fn u16_bytes(x: u16) -> Seq<u8> {
    seq![(x >> 8u16) as u8, x as u8]
}

pub open spec fn u32_bytes(x: u32) -> Seq<u8> {
    seq![(x >> 24u32) as u8, (x >> 16u32) as u8, (x >> 8u32) as u8, x as u8]
}

pub open spec fn u64_bytes(x: u64) -> Seq<u8> {
    seq![
        (x >> 56u64) as u8,
        (x >> 48u64) as u8,
        (x >> 40u64) as u8,
        (x >> 32u64) as u8,
        (x >> 24u64) as u8,
        (x >> 16u64) as u8,
        (x >> 8u64) as u8,
        x as u8,
    ]
}

pub open spec fn bool_bytes(b: bool) -> Seq<u8> {
    if b {
        seq![1u8]
    } else {
        seq![0u8]
    }
}

/// Length-prefixed UTF-8 text.
pub open spec fn text_bytes(s: Seq<char>) -> Seq<u8> {
    u64_bytes(encode_utf8(s).len() as u64) + encode_utf8(s)
}

/// Fixed-width 32 raw bytes.
pub open spec fn raw_bytes(b: Seq<u8>) -> Seq<u8> {
    b
}

pub open spec fn opt_u64_bytes(o: Option<u64>) -> Seq<u8> {
    match o {
        Some(x) => seq![1u8] + u64_bytes(x),
        None => seq![0u8],
    }
}

/// An optional 32-byte value: a presence byte, then the bytes.
pub open spec fn opt_raw_bytes(o: Option<Seq<u8>>) -> Seq<u8> {
    match o {
        Some(b) => seq![1u8] + b,
        None => seq![0u8],
    }
}

pub fn push_opt_raw32(out: &mut Vec<u8>, o: &Option<[u8; 32]>)
    ensures
        final(out)@ == old(out)@ + opt_raw_bytes(
            match *o {
                Some(b) => Some(b@),
                None => None,
            },
        ),
{
    match o {
        Some(b) => {
            out.push(1u8);
            push_raw32(out, b);
        },
        None => {
            out.push(0u8);
        },
    }
    assert(final(out)@ =~= old(out)@ + opt_raw_bytes(
        match *o {
            Some(b) => Some(b@),
            None => None,
        },
    ));
}

pub fn push_u8(out: &mut Vec<u8>, x: u8)
    ensures
        final(out)@ == old(out)@ + u8_bytes(x),
{
    out.push(x);
    assert(final(out)@ =~= old(out)@ + u8_bytes(x));
}

pub fn push_bool(out: &mut Vec<u8>, b: bool)
    ensures
        final(out)@ == old(out)@ + bool_bytes(b),
{
    if b {
        out.push(1u8);
    } else {
        out.push(0u8);
    }
    assert(final(out)@ =~= old(out)@ + bool_bytes(b));
}

pub fn push_u16(out: &mut Vec<u8>, x: u16)
    ensures
        final(out)@ == old(out)@ + u16_bytes(x),
{
    out.push((x >> 8u16) as u8);
    out.push(x as u8);
    assert(final(out)@ =~= old(out)@ + u16_bytes(x));
}

pub fn push_u32(out: &mut Vec<u8>, x: u32)
    ensures
        final(out)@ == old(out)@ + u32_bytes(x),
{
    out.push((x >> 24u32) as u8);
    out.push((x >> 16u32) as u8);
    out.push((x >> 8u32) as u8);
    out.push(x as u8);
    assert(final(out)@ =~= old(out)@ + u32_bytes(x));
}

pub fn push_u64(out: &mut Vec<u8>, x: u64)
    ensures
        final(out)@ == old(out)@ + u64_bytes(x),
{
    out.push((x >> 56u64) as u8);
    out.push((x >> 48u64) as u8);
    out.push((x >> 40u64) as u8);
    out.push((x >> 32u64) as u8);
    out.push((x >> 24u64) as u8);
    out.push((x >> 16u64) as u8);
    out.push((x >> 8u64) as u8);
    out.push(x as u8);
    assert(final(out)@ =~= old(out)@ + u64_bytes(x));
}

pub fn push_opt_u64(out: &mut Vec<u8>, o: Option<u64>)
    ensures
        final(out)@ == old(out)@ + opt_u64_bytes(o),
{
    match o {
        Some(x) => {
            out.push(1u8);
            push_u64(out, x);
        },
        None => {
            out.push(0u8);
        },
    }
    assert(final(out)@ =~= old(out)@ + opt_u64_bytes(o));
}

pub fn push_slice(out: &mut Vec<u8>, bytes: &[u8])
    ensures
        final(out)@ == old(out)@ + bytes@,
{
    let ghost start = out@;
    let mut i: usize = 0;
    while i < bytes.len()
        invariant
            i <= bytes@.len(),
            out@ == start + bytes@.subrange(0, i as int),
        decreases bytes@.len() - i,
    {
        out.push(bytes[i]);
        assert(bytes@.subrange(0, i + 1) =~= bytes@.subrange(0, i as int).push(bytes@[i as int]));
        i = i + 1;
    }
    assert(bytes@.subrange(0, i as int) =~= bytes@);
}

pub fn push_raw32(out: &mut Vec<u8>, bytes: &[u8; 32])
    ensures
        final(out)@ == old(out)@ + raw_bytes(bytes@),
{
    push_slice(out, bytes.as_slice());
}

pub fn push_text(out: &mut Vec<u8>, s: &str)
    ensures
        final(out)@ == old(out)@ + text_bytes(s@),
{
    let bytes = s.as_bytes();
    push_u64(out, bytes.len() as u64);
    push_slice(out, bytes);
    assert(final(out)@ =~= old(out)@ + text_bytes(s@));
}

/// Equality of two 32-byte strings.
pub fn bytes32_eq(a: &[u8; 32], b: &[u8; 32]) -> (r: bool)
    ensures
        r == (a@ == b@),
{
    let mut i: usize = 0;
    while i < 32
        invariant
            i <= 32,
            a@.len() == 32,
            b@.len() == 32,
            forall|j: int| 0 <= j < i ==> a@[j] == b@[j],
        decreases 32 - i,
    {
        if a[i] != b[i] {
            return false;
        }
        i = i + 1;
    }
    assert(a@ =~= b@);
    true
}

pub open spec fn all_zero(b: Seq<u8>) -> bool {
    forall|i: int| 0 <= i < b.len() ==> b[i] == 0
}

/// Whether all 32 bytes are zero.
pub fn bytes32_is_zero(a: &[u8; 32]) -> (r: bool)
    ensures
        r == all_zero(a@),
{
    let mut i: usize = 0;
    while i < 32
        invariant
            i <= 32,
            a@.len() == 32,
            forall|j: int| 0 <= j < i ==> a@[j] == 0,
        decreases 32 - i,
    {
        if a[i] != 0 {
            return false;
        }
        i = i + 1;
    }
    true
}

/// Lexicographic order on byte strings of equal length.
pub open spec fn bytes_lt(a: Seq<u8>, b: Seq<u8>) -> bool
    decreases a.len(),
{
    if a.len() == 0 || b.len() == 0 {
        false
    } else if a[0] < b[0] {
        true
    } else if a[0] > b[0] {
        false
    } else {
        bytes_lt(a.drop_first(), b.drop_first())
    }
}

/// Whether `a` orders strictly before `b`.
pub fn bytes32_lt(a: &[u8; 32], b: &[u8; 32]) -> (r: bool)
    ensures
        r == bytes_lt(a@, b@),
{
    let mut i: usize = 0;
    assert(a@.skip(0) =~= a@);
    assert(b@.skip(0) =~= b@);
    while i < 32
        invariant
            i <= 32,
            a@.len() == 32,
            b@.len() == 32,
            bytes_lt(a@, b@) == bytes_lt(a@.skip(i as int), b@.skip(i as int)),
        decreases 32 - i,
    {
        assert(a@.skip(i as int)[0] == a@[i as int]);
        assert(b@.skip(i as int)[0] == b@[i as int]);
        if a[i] < b[i] {
            return true;
        }
        if a[i] > b[i] {
            return false;
        }
        assert(a@.skip(i as int).drop_first() =~= a@.skip(i + 1));
        assert(b@.skip(i as int).drop_first() =~= b@.skip(i + 1));
        i = i + 1;
    }
    false
}

} // verus!
