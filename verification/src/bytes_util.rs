//! Small executable helpers for building and reading byte buffers.

use vstd::prelude::*;
use vstd::bytes::{spec_u64_to_le_bytes, u64_to_le_bytes, u64_from_le_bytes};
use vstd::bytes::{spec_u32_to_le_bytes, u32_to_le_bytes, u32_from_le_bytes};
use vstd::bytes::{lemma_auto_spec_u64_to_from_le_bytes, lemma_auto_spec_u32_to_from_le_bytes};
use vstd::slice::slice_subrange;

verus! {

/// Appends all bytes of `src` to `dst`.
pub fn append_bytes(dst: &mut Vec<u8>, src: &Vec<u8>)
    ensures
        final(dst)@ == old(dst)@ + src@,
{
    let ghost start = dst@;
    let mut j: usize = 0;
    while j < src.len()
        invariant
            j <= src.len(),
            dst@ == start + src@.take(j as int),
        decreases src.len() - j,
    {
        dst.push(src[j]);
        j = j + 1;
        proof {
            assert(src@.take(j as int) =~= src@.take(j - 1).push(src@[j - 1]));
        }
    }
    proof {
        assert(src@.take(src@.len() as int) =~= src@);
    }
}

/// Appends the eight little-endian bytes of `x` to `dst`.
pub fn append_u64_le(dst: &mut Vec<u8>, x: u64)
    ensures
        final(dst)@ == old(dst)@ + spec_u64_to_le_bytes(x),
{
    let bytes = u64_to_le_bytes(x);
    append_bytes(dst, &bytes);
}

/// Appends the four little-endian bytes of `x` to `dst`.
pub fn append_u32_le(dst: &mut Vec<u8>, x: u32)
    ensures
        final(dst)@ == old(dst)@ + spec_u32_to_le_bytes(x),
{
    let bytes = u32_to_le_bytes(x);
    append_bytes(dst, &bytes);
}

/// Reads the four little-endian bytes starting at `pos` as a `u32`.
pub fn read_u32_le(data: &Vec<u8>, pos: usize) -> (x: u32)
    requires
        pos + 4 <= data@.len(),
    ensures
        spec_u32_to_le_bytes(x) == data@.subrange(pos as int, pos + 4),
{
    proof {
        lemma_auto_spec_u32_to_from_le_bytes();
    }
    let dlen: usize = data.len();
    assert(pos + 4 <= dlen);
    let piece = slice_subrange(data.as_slice(), pos, pos + 4);
    u32_from_le_bytes(piece)
}

/// Reads the eight little-endian bytes starting at `pos` as a `u64`.
pub fn read_u64_le(data: &Vec<u8>, pos: usize) -> (x: u64)
    requires
        pos + 8 <= data@.len(),
    ensures
        spec_u64_to_le_bytes(x) == data@.subrange(pos as int, pos + 8),
{
    proof {
        lemma_auto_spec_u64_to_from_le_bytes();
    }
    let dlen: usize = data.len();
    assert(pos + 8 <= dlen);
    let piece = slice_subrange(data.as_slice(), pos, pos + 8);
    u64_from_le_bytes(piece)
}

/// Copies `data[pos .. pos + n]` into a fresh vector.
pub fn read_bytes(data: &Vec<u8>, pos: usize, n: usize) -> (r: Vec<u8>)
    requires
        pos + n <= data@.len(),
    ensures
        r@ == data@.subrange(pos as int, pos + n),
{
    let dlen: usize = data.len();
    assert(pos + n <= dlen);
    let piece = slice_subrange(data.as_slice(), pos, pos + n);
    let mut r: Vec<u8> = Vec::new();
    let mut j: usize = 0;
    while j < n
        invariant
            j <= n,
            piece@ == data@.subrange(pos as int, pos + n),
            piece@.len() == n,
            r@ == piece@.take(j as int),
        decreases n - j,
    {
        r.push(piece[j]);
        j = j + 1;
        proof {
            assert(piece@.take(j as int) =~= piece@.take(j - 1).push(piece@[j - 1]));
        }
    }
    proof {
        assert(piece@.take(n as int) =~= piece@);
    }
    r
}

} // verus!
