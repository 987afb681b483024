//! Little-endian integer encoding and byte-range helpers shared by the record
//! codec and the page format.

use byteorder::{ByteOrder, LittleEndian};
use vstd::bytes::{
    spec_u32_from_le_bytes, spec_u32_to_le_bytes, spec_u64_from_le_bytes, spec_u64_to_le_bytes,
};
use vstd::prelude::*;
use vstd::slice::{slice_subrange, slice_to_vec};
use vstd::utf8::{decode_utf8, valid_utf8};

verus! {

/// `buf` with the bytes from `pos` on replaced by `src`, as far as `src` reaches.
pub open spec fn splice(buf: Seq<u8>, pos: int, src: Seq<u8>) -> Seq<u8> {
    buf.subrange(0, pos) + src + buf.subrange(pos + src.len(), buf.len() as int)
}

/// A sequence of `n` zero bytes.
pub open spec fn zero_bytes(n: nat) -> Seq<u8> {
    Seq::new(n, |i: int| 0u8)
}

/// Calls `byteorder::LittleEndian::read_u32` on the bytes of `buf` from `pos`
/// on. Trusted: the result is the value whose little-endian encoding is the
/// four bytes at `pos`.
#[verifier::external_body]
pub(crate) fn le_read_u32(buf: &[u8], pos: usize) -> (n: u32)
    requires
        pos + 4 <= buf@.len(),
    ensures
        n == spec_u32_from_le_bytes(buf@.subrange(pos as int, pos + 4)),
{
    LittleEndian::read_u32(&buf[pos..])
}

/// Calls `byteorder::LittleEndian::write_u32` on the bytes of `buf` from `pos`
/// on. Trusted: the four bytes at `pos` become the little-endian encoding of
/// `n`, and no other byte changes.
#[verifier::external_body]
pub(crate) fn le_write_u32(buf: &mut Vec<u8>, pos: usize, n: u32)
    requires
        pos + 4 <= old(buf)@.len(),
    ensures
        final(buf)@ == splice(old(buf)@, pos as int, spec_u32_to_le_bytes(n)),
{
    LittleEndian::write_u32(&mut buf[pos..], n)
}

/// Calls `byteorder::LittleEndian::read_u64` on the bytes of `buf` from `pos`
/// on. Trusted: the result is the value whose little-endian encoding is the
/// eight bytes at `pos`.
#[verifier::external_body]
pub(crate) fn le_read_u64(buf: &[u8], pos: usize) -> (n: u64)
    requires
        pos + 8 <= buf@.len(),
    ensures
        n == spec_u64_from_le_bytes(buf@.subrange(pos as int, pos + 8)),
{
    LittleEndian::read_u64(&buf[pos..])
}

/// Calls `byteorder::LittleEndian::write_u64` on the bytes of `buf` from `pos`
/// on. Trusted: the eight bytes at `pos` become the little-endian encoding of
/// `n`, and no other byte changes.
#[verifier::external_body]
pub(crate) fn le_write_u64(buf: &mut Vec<u8>, pos: usize, n: u64)
    requires
        pos + 8 <= old(buf)@.len(),
    ensures
        final(buf)@ == splice(old(buf)@, pos as int, spec_u64_to_le_bytes(n)),
{
    LittleEndian::write_u64(&mut buf[pos..], n)
}

/// Calls `String::from_utf8`. Trusted: the conversion succeeds exactly on
/// well-formed UTF-8, and the string then holds the characters that the bytes
/// encode.
#[verifier::external_body]
pub(crate) fn string_from_utf8(bytes: Vec<u8>) -> (res: Option<String>)
    ensures
        res is Some <==> valid_utf8(bytes@),
        res matches Some(s) ==> s@ == decode_utf8(bytes@),
{
    String::from_utf8(bytes).ok()
}

/// A fresh buffer of `n` zero bytes.
pub fn zeroed(n: usize) -> (buf: Vec<u8>)
    ensures
        buf@ == zero_bytes(n as nat),
{
    let buf = vec![0u8; n];
    assert(buf@ =~= zero_bytes(n as nat));
    buf
}

/// Copies the bytes of `buf` in `[pos, pos + len)` into a fresh vector.
pub fn read_range(buf: &[u8], pos: usize, len: usize) -> (out: Vec<u8>)
    requires
        pos + len <= buf@.len(),
    ensures
        out@ == buf@.subrange(pos as int, pos + len),
{
    let total = buf.len();
    assert(pos + len <= total);
    slice_to_vec(slice_subrange(buf, pos, pos + len))
}

/// Overwrites the bytes of `buf` from `pos` on with `src`.
pub fn write_range(buf: &mut Vec<u8>, pos: usize, src: &[u8])
    requires
        pos + src@.len() <= old(buf)@.len(),
    ensures
        final(buf)@ == splice(old(buf)@, pos as int, src@),
{
    let n = src.len();
    let total = buf.len();
    let mut i: usize = 0;
    while i < n
        invariant
            n == src@.len(),
            total == buf@.len(),
            i <= n,
            pos + n <= buf@.len(),
            buf@.len() == old(buf)@.len(),
            buf@ == splice(old(buf)@, pos as int, src@.subrange(0, i as int)),
        decreases n - i,
    {
        let b = src[i];
        buf[pos + i] = b;
        i += 1;
        assert(buf@ =~= splice(old(buf)@, pos as int, src@.subrange(0, i as int)));
    }
    assert(src@.subrange(0, n as int) =~= src@);
}

/// Splicing two pieces one after the other is splicing their concatenation.
pub proof fn lemma_splice_adjacent(buf: Seq<u8>, pos: int, first: Seq<u8>, second: Seq<u8>)
    requires
        0 <= pos,
        pos + first.len() + second.len() <= buf.len(),
    ensures
        splice(splice(buf, pos, first), pos + first.len(), second) == splice(
            buf,
            pos,
            first + second,
        ),
{
    let once = splice(buf, pos, first);
    let twice = splice(once, pos + first.len(), second);
    let both = splice(buf, pos, first + second);
    assert(once.len() == buf.len());
    assert(twice.len() == buf.len());
    assert(both.len() == buf.len());
    assert forall|i: int| 0 <= i < buf.len() implies twice[i] == both[i] by {
        if i < pos {
        } else if i < pos + first.len() {
        } else if i < pos + first.len() + second.len() {
        } else {
        }
    }
    assert(twice =~= both);
}

} // verus!
