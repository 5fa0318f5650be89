//! Little-endian primitives for the on-disk formats.
//!
//! The byte-level work is done by the `bytes` crate; the functions here give
//! its cursor operations a contract over plain byte sequences.

use vstd::prelude::*;
use vstd::bytes::{spec_u16_from_le_bytes, spec_u64_from_le_bytes, spec_u64_to_le_bytes};
use vstd::slice::slice_subrange;

verus! {

/// Reads the little-endian `u64` that `data` starts with.
///
/// Trusted: calls `bytes::Buf::get_u64_le` on a cursor over `data`, which
/// decodes the next eight bytes least-significant first and panics when fewer
/// than eight remain.
#[verifier::external_body]
fn buf_get_u64_le(data: &[u8]) -> (value: u64)
    requires
        8 <= data@.len(),
    ensures
        value == spec_u64_from_le_bytes(data@.subrange(0, 8)),
{
    bytes::Buf::get_u64_le(&mut std::io::Cursor::new(data))
}

/// Reads the little-endian `u16` that `data` starts with.
///
/// Trusted: calls `bytes::Buf::get_u16_le` on a cursor over `data`, which
/// decodes the next two bytes least-significant first and panics when fewer
/// than two remain.
#[verifier::external_body]
fn buf_get_u16_le(data: &[u8]) -> (value: u16)
    requires
        2 <= data@.len(),
    ensures
        value == spec_u16_from_le_bytes(data@.subrange(0, 2)),
{
    bytes::Buf::get_u16_le(&mut std::io::Cursor::new(data))
}

/// Reads the byte that `data` starts with.
///
/// Trusted: calls `bytes::Buf::get_u8` on a cursor over `data`, which returns
/// the next byte and panics when none remains.
#[verifier::external_body]
fn buf_get_u8(data: &[u8]) -> (value: u8)
    requires
        1 <= data@.len(),
    ensures
        value == data@[0],
{
    bytes::Buf::get_u8(&mut std::io::Cursor::new(data))
}

/// Copies `data` into a fresh vector.
///
/// Trusted: calls `bytes::Buf::copy_to_slice` on a cursor over `data`, which
/// fills the destination with the next bytes, as many as the destination is
/// long, and panics when fewer remain.
#[verifier::external_body]
fn buf_copy_to_vec(data: &[u8]) -> (out: Vec<u8>)
    ensures
        out@ == data@,
{
    let mut out = vec![0u8; data.len()];
    bytes::Buf::copy_to_slice(&mut std::io::Cursor::new(data), &mut out);
    out
}

/// Reads the little-endian `u64` stored in `data[pos..pos + 8]`.
pub(crate) fn get_u64_le(data: &[u8], pos: usize) -> (value: u64)
    requires
        pos + 8 <= data@.len(),
    ensures
        value == spec_u64_from_le_bytes(data@.subrange(pos as int, pos + 8)),
{
    let rest = slice_subrange(data, pos, data.len());
    proof {
        assert(rest@.subrange(0, 8) == data@.subrange(pos as int, pos + 8));
    }
    buf_get_u64_le(rest)
}

/// Reads the little-endian `u16` stored in `data[pos..pos + 2]`.
pub(crate) fn get_u16_le(data: &[u8], pos: usize) -> (value: u16)
    requires
        pos + 2 <= data@.len(),
    ensures
        value == spec_u16_from_le_bytes(data@.subrange(pos as int, pos + 2)),
{
    let rest = slice_subrange(data, pos, data.len());
    proof {
        assert(rest@.subrange(0, 2) == data@.subrange(pos as int, pos + 2));
    }
    buf_get_u16_le(rest)
}

/// Reads the byte `data[pos]`.
pub(crate) fn get_u8(data: &[u8], pos: usize) -> (value: u8)
    requires
        pos < data@.len(),
    ensures
        value == data@[pos as int],
{
    buf_get_u8(slice_subrange(data, pos, data.len()))
}

/// Copies `data[pos..pos + len]` into a fresh vector.
pub(crate) fn copy_to_vec(data: &[u8], pos: usize, len: usize) -> (out: Vec<u8>)
    requires
        pos + len <= data@.len(),
    ensures
        out@ == data@.subrange(pos as int, pos + len),
{
    let end = data.len();
    assert(pos + len <= end);
    buf_copy_to_vec(slice_subrange(data, pos, pos + len))
}

/// Appends the eight little-endian bytes of `value` to `buf`.
///
/// Trusted: calls `bytes::BufMut::put_u64_le` on the vector, which grows it by
/// exactly the eight bytes of `value`, least-significant first, and panics only
/// when the vector cannot grow by eight bytes.
#[verifier::external_body]
pub(crate) fn put_u64_le(buf: &mut Vec<u8>, value: u64)
    requires
        old(buf)@.len() + 8 <= usize::MAX,
    ensures
        final(buf)@ == old(buf)@ + spec_u64_to_le_bytes(value),
{
    bytes::BufMut::put_u64_le(buf, value)
}

/// Appends the byte `value` to `buf`.
///
/// Trusted: calls `bytes::BufMut::put_u8` on the vector, which grows it by that
/// one byte and panics only when the vector cannot grow.
#[verifier::external_body]
pub(crate) fn put_u8(buf: &mut Vec<u8>, value: u8)
    requires
        old(buf)@.len() + 1 <= usize::MAX,
    ensures
        final(buf)@ == old(buf)@.push(value),
{
    bytes::BufMut::put_u8(buf, value)
}

/// Appends all of `src` to `buf`.
///
/// Trusted: calls `bytes::BufMut::put_slice` on the vector, which grows it by
/// the bytes of `src` in order and panics only when the vector cannot grow by
/// that many bytes.
#[verifier::external_body]
pub(crate) fn put_slice(buf: &mut Vec<u8>, src: &[u8])
    requires
        old(buf)@.len() + src@.len() <= usize::MAX,
    ensures
        final(buf)@ == old(buf)@ + src@,
{
    bytes::BufMut::put_slice(buf, src)
}

} // verus!
