//! Fixed-width reads and copies used by the decoder.
//!
//! Every read and copy here is bounds-checked by its `requires`; none of them
//! reads or writes outside the ranges its contract names.
use vstd::prelude::*;

verus! {

/// The little-endian value of the two bytes of `s` at `pos`.
pub open spec fn le16(s: Seq<u8>, pos: int) -> int {
    s[pos] + 256 * s[pos + 1]
}

/// The little-endian value of the four bytes of `s` at `pos`.
pub open spec fn le32(s: Seq<u8>, pos: int) -> int {
    le16(s, pos) + 65536 * le16(s, pos + 2)
}

/// The little-endian value of the seven bytes of `s` at `pos`.
pub open spec fn le56(s: Seq<u8>, pos: int) -> int {
    le32(s, pos) + 4294967296 * (le16(s, pos + 4) + 65536 * s[pos + 6])
}

/// The little-endian value of the eight bytes of `s` at `pos`.
pub open spec fn le64(s: Seq<u8>, pos: int) -> int {
    le56(s, pos) + 72057594037927936 * s[pos + 7]
}

/// `dst` with `src[src_pos..src_pos + len]` written at `dst_pos`.
pub open spec fn spliced(dst: Seq<u8>, dst_pos: int, src: Seq<u8>, src_pos: int, len: int) -> Seq<u8> {
    Seq::new(
        dst.len(),
        |k: int|
            if dst_pos <= k < dst_pos + len {
                src[src_pos + (k - dst_pos)]
            } else {
                dst[k]
            },
    )
}

/// Reads the byte at `pos`.
pub fn read_byte(src: &[u8], pos: usize) -> (b: u8)
    requires
        pos < src.len(),
    ensures
        b == src@[pos as int],
{
    src[pos]
}

/// Reads two bytes at `pos` as a little-endian `u16`.
pub fn read_u16_le(src: &[u8], pos: usize) -> (v: u16)
    requires
        pos + 2 <= src.len(),
    ensures
        v == le16(src@, pos as int),
{
    let b0 = src[pos] as u16;
    let b1 = src[pos + 1] as u16;
    b0 + 256 * b1
}

/// Reads four bytes at `pos` as a little-endian `u32`.
pub fn read_u32_le(src: &[u8], pos: usize) -> (v: u32)
    requires
        pos + 4 <= src.len(),
    ensures
        v == le32(src@, pos as int),
{
    let lo = read_u16_le(src, pos) as u32;
    let hi = read_u16_le(src, pos + 2) as u32;
    lo + 65536 * hi
}

/// Reads eight bytes at `pos` as a little-endian `u64`.
pub fn read_u64_le(src: &[u8], pos: usize) -> (v: u64)
    requires
        pos + 8 <= src.len(),
    ensures
        v == le64(src@, pos as int),
{
    let lo = read_u32_le(src, pos) as u64;
    let hi = read_u32_le(src, pos + 4) as u64;
    lo + 4294967296 * hi
}

/// Copies exactly `len` bytes from `src[src_pos..]` to `dst[dst_pos..]`.
pub fn copy_from_src(src: &[u8], src_pos: usize, dst: &mut [u8], dst_pos: usize, len: usize)
    requires
        src_pos + len <= src.len(),
        dst_pos + len <= old(dst).len(),
    ensures
        final(dst)@ == spliced(old(dst)@, dst_pos as int, src@, src_pos as int, len as int),
{
    let ghost d0 = dst@;
    let mut i: usize = 0;
    while i < len
        invariant
            i <= len,
            src_pos + len <= src.len(),
            dst_pos + len <= dst.len(),
            dst@.len() == d0.len(),
            dst@ == spliced(d0, dst_pos as int, src@, src_pos as int, i as int),
        decreases len - i,
    {
        dst[dst_pos + i] = src[src_pos + i];
        i = i + 1;
        assert(dst@ =~= spliced(d0, dst_pos as int, src@, src_pos as int, i as int));
    }
}

/// Copies a fixed block of 16 bytes from `src[src_pos..]` to `dst[dst_pos..]`,
/// whatever the length of the literal run it starts.
pub fn wild_copy_literals_16(
    src: &[u8],
    src_pos: usize,
    dst: &mut [u8],
    dst_pos: usize,
    _actual_len: usize,
)
    requires
        src_pos + 16 <= src.len(),
        dst_pos + 16 <= old(dst).len(),
    ensures
        final(dst)@ == spliced(old(dst)@, dst_pos as int, src@, src_pos as int, 16),
{
    copy_from_src(src, src_pos, dst, dst_pos, 16);
}

/// Copies the first 16 bytes of `src` to the first 16 bytes of `dst`.
pub fn wild_copy_literals_16_slices(src: &[u8], dst: &mut [u8])
    requires
        16 <= src.len(),
        16 <= old(dst).len(),
    ensures
        final(dst)@ == spliced(old(dst)@, 0, src@, 0, 16),
{
    copy_from_src(src, 0, dst, 0, 16);
}

/// Copies a fixed block of 32 bytes within `dst` from `src_pos` to `dst_pos`;
/// the two blocks do not overlap.
pub fn wild_copy_match_32(dst: &mut [u8], src_pos: usize, dst_pos: usize, _actual_len: usize)
    requires
        src_pos + 32 <= dst_pos,
        dst_pos + 32 <= old(dst).len(),
    ensures
        final(dst)@ == spliced(old(dst)@, dst_pos as int, old(dst)@, src_pos as int, 32),
{
    let ghost d0 = dst@;
    let mut i: usize = 0;
    while i < 32
        invariant
            i <= 32,
            src_pos + 32 <= dst_pos,
            dst_pos + 32 <= dst.len(),
            dst@.len() == d0.len(),
            dst@ == spliced(d0, dst_pos as int, d0, src_pos as int, i as int),
        decreases 32 - i,
    {
        let b = dst[src_pos + i];
        dst[dst_pos + i] = b;
        i = i + 1;
        assert(dst@ =~= spliced(d0, dst_pos as int, d0, src_pos as int, i as int));
    }
}

/// Copies the first 32 bytes of `src` to the first 32 bytes of `dst`.
pub fn wild_copy_match_32_slices(src: &[u8], dst: &mut [u8])
    requires
        32 <= src.len(),
        32 <= old(dst).len(),
    ensures
        final(dst)@ == spliced(old(dst)@, 0, src@, 0, 32),
{
    copy_from_src(src, 0, dst, 0, 32);
}

/// A cache hint with no effect on any value.
pub fn prefetch<T>(_slice: &[T], _index: usize) {
}

} // verus!
