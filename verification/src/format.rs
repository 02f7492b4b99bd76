//! Constants of the misa77 stream format and the heavy-format length tables.
use vstd::prelude::*;

verus! {

/// Width of unconditional vector operations (bytes).
pub const VECTOR_WIDTH: usize = 32;

/// Low 56 bits of the stream header store decompressed size.
pub const SIZE_MASK: u64 = 0x00FF_FFFF_FFFF_FFFF;

/// High header byte stores format flags.
pub const FLAG_SHIFT: u32 = 56;

/// Header flag bit for the heavy format.
pub const FLAG_HEAVY: u8 = 1;

/// Header flag bit hinting that long heavy matches are rare.
pub const FLAG_HEAVY_COND: u8 = 2;

/// Inputs at or below this size are stored raw (no compression).
pub const SMALL_LIM: usize = 32;

/// Hash table insertion lag: the minimum match distance is one more than this.
pub const HASHTAB_LAG: usize = 32;

/// Number of distances storable in a 16-bit offset field.
pub const DIS_LIM: usize = 65536;

/// Minimum match length the compressor will emit.
pub const MIN_MATCH_LEN: usize = 4;

/// Maximum match length the light compressor emits per token.
pub const MAX_MATCH_LEN: usize = 32;

/// Minimum raw suffix appended after all sequences.
pub const LITERAL_SUFFIX: usize = 32;

/// Number of bits in the token used for literal length.
pub const TOKEN_LIT_BITS: u32 = 3;

/// Number of bits in the token used for match length.
pub const TOKEN_MATCH_BITS: u32 = 5;

/// Maximum literal length encodable inline (before extension bytes).
pub const TOKEN_LIT_MAX: usize = 7;

/// Mask for the match length field in a token byte.
pub const TOKEN_MATCH_MASK: u8 = 0x1F;

/// Size of the stream header: 8-byte original size.
pub const HEADER_SIZE: usize = 8;

/// Size of the extended header (original size + literal suffix count).
pub const EXT_HEADER_SIZE: usize = 16;

/// Minimum match distance.
pub const MIN_DISTANCE: usize = 33;

/// Maximum match distance of the light format.
pub const MAX_DISTANCE: usize = 65568;

/// Heavy-format raw threshold.
pub const HEAVY_SMALL_LIM: usize = 64;

/// Heavy-format minimum raw suffix.
pub const HEAVY_LITERAL_SUFFIX: usize = 64;

/// Heavy-format literal length inline limit.
pub const HEAVY_TOKEN_LIT_MAX: usize = 63;

/// Heavy-format distance window bits.
pub const HEAVY_WIN_BITS: u32 = 20;

/// Heavy-format distance count.
pub const HEAVY_NDIS: usize = 1048576;

/// Heavy-format minimum match distance.
pub const HEAVY_MIN_DISTANCE: usize = 33;

/// Heavy-format maximum match distance.
pub const HEAVY_MAX_DISTANCE: usize = 1048608;

/// Heavy-format maximum match length.
pub const HEAVY_MAX_MATCH_LEN: usize = 192;

/// Heavy-format 20-bit distance mask.
pub const HEAVY_DIS_MASK: u32 = 0xFFFFF;

/// Lowest accepted compression level.
pub const MIN_LEVEL: i8 = -1;

/// Highest accepted compression level.
pub const MAX_LEVEL: i8 = 4;

/// Level used by `compress` and `compress_into`.
pub const DEFAULT_LEVEL: i8 = 1;

/// Levels at or above this one write the heavy format.
pub const HEAVY_LEVEL_MIN: i8 = 4;

/// Heavy-format match length code -> decoded length.
pub const HEAVY_LEN_OF: [u8; 64] = [
    0, 4, 5, 6, 7, 8, 9, 10, 11, 12, 13, 14, 15, 16, 17, 18, 19, 20, 21, 22, 23, 24, 25, 26, 27,
    28, 29, 30, 31, 32, 34, 36, 38, 40, 42, 44, 46, 48, 50, 52, 54, 56, 58, 60, 62, 64, 68, 72, 76,
    80, 84, 88, 92, 96, 100, 104, 108, 112, 116, 120, 124, 128, 160, 192,
];

/// The decoded length of heavy match code `code` (the table `HEAVY_LEN_OF`).
pub open spec fn heavy_len_of(code: int) -> int {
    if code <= 0 {
        0
    } else if code <= 29 {
        code + 3
    } else if code <= 45 {
        32 + 2 * (code - 29)
    } else if code <= 61 {
        64 + 4 * (code - 45)
    } else if code == 62 {
        160
    } else {
        192
    }
}

/// Looks up the decoded length of a heavy match code.
pub fn heavy_len(code: usize) -> (len: u8)
    requires
        code < 64,
    ensures
        len == heavy_len_of(code as int),
{
    let table = HEAVY_LEN_OF;
    proof {
        assert(table@ =~= seq![
            0u8, 4, 5, 6, 7, 8, 9, 10, 11, 12, 13, 14, 15, 16, 17, 18, 19, 20, 21, 22, 23, 24, 25, 26, 27,
            28, 29, 30, 31, 32, 34, 36, 38, 40, 42, 44, 46, 48, 50, 52, 54, 56, 58, 60, 62, 64, 68, 72, 76,
            80, 84, 88, 92, 96, 100, 104, 108, 112, 116, 120, 124, 128, 160, 192,
        ]);
    }
    table[code]
}


/// `code` is the largest heavy match code whose decoded length is at most `len`.
pub open spec fn is_code_floor(len: int, code: int) -> bool {
    &&& 0 <= code < 64
    &&& heavy_len_of(code) <= len
    &&& forall|c: int| code < c < 64 ==> heavy_len_of(c) > len
}

/// The largest heavy match code whose decoded length is at most `len`.
pub open spec fn code_floor(len: int) -> int {
    choose|code: int| is_code_floor(len, code)
}

/// A code that is the floor of `len` is `code_floor(len)`.
pub proof fn lemma_code_floor_unique(len: int, code: int)
    requires
        is_code_floor(len, code),
    ensures
        code_floor(len) == code,
{
    let other = code_floor(len);
    assert(is_code_floor(len, other));
}

/// Decoded lengths strictly increase with the code.
pub proof fn lemma_heavy_len_increasing(a: int, b: int)
    requires
        0 <= a < b < 64,
    ensures
        heavy_len_of(a) < heavy_len_of(b),
{
}

/// Builds the table mapping each length below 256 to the largest encodable
/// heavy match length not greater than it.
pub fn heavy_len_floor_table() -> (table: [u8; 256])
    ensures
        forall|len: int| 0 <= len < 256 ==> #[trigger] table@[len] == heavy_len_of(code_floor(len)),
{
    let mut table = [0u8; 256];
    let mut len: usize = 0;
    while len < 256
        invariant
            len <= 256,
            forall|l: int| 0 <= l < len ==> #[trigger] table@[l] == heavy_len_of(code_floor(l)),
        decreases 256 - len,
    {
        let mut best: u8 = 0;
        let ghost mut best_code: int = 0;
        let mut c: usize = 0;
        while c < 64
            invariant
                len < 256,
                c <= 64,
                0 <= best_code < 64,
                c == 0 ==> best_code == 0,
                best == heavy_len_of(best_code),
                heavy_len_of(best_code) <= len,
                c > 0 ==> best_code < c,
                forall|c2: int| best_code < c2 < c ==> heavy_len_of(c2) > len,
            decreases 64 - c,
        {
            let candidate = heavy_len(c);
            if candidate as usize <= len && candidate >= best {
                best = candidate;
                proof {
                    best_code = c as int;
                }
            } else {
                proof {
                    if candidate as usize <= len && c > 0 {
                        lemma_heavy_len_increasing(best_code, c as int);
                    }
                }
            }
            c = c + 1;
        }
        table[len] = best;
        proof {
            lemma_code_floor_unique(len as int, best_code);
        }
        len = len + 1;
    }
    table
}

/// Builds the table mapping each length below 256 to the largest heavy match
/// code whose decoded length is not greater than it.
pub fn heavy_code_floor_table() -> (table: [u8; 256])
    ensures
        forall|len: int| 0 <= len < 256 ==> is_code_floor(len, #[trigger] table@[len] as int),
{
    let mut table = [0u8; 256];
    let mut len: usize = 0;
    while len < 256
        invariant
            len <= 256,
            forall|l: int| 0 <= l < len ==> is_code_floor(l, #[trigger] table@[l] as int),
        decreases 256 - len,
    {
        let mut best_len: u8 = 0;
        let mut best_code: u8 = 0;
        let mut c: usize = 0;
        while c < 64
            invariant
                len < 256,
                c <= 64,
                best_code < 64,
                c == 0 ==> best_code == 0,
                best_len == heavy_len_of(best_code as int),
                heavy_len_of(best_code as int) <= len,
                c > 0 ==> best_code < c,
                forall|c2: int| best_code < c2 < c ==> heavy_len_of(c2) > len,
            decreases 64 - c,
        {
            let candidate = heavy_len(c);
            if candidate as usize <= len && candidate >= best_len {
                best_len = candidate;
                best_code = c as u8;
            } else {
                proof {
                    if candidate as usize <= len && c > 0 {
                        lemma_heavy_len_increasing(best_code as int, c as int);
                    }
                }
            }
            c = c + 1;
        }
        table[len] = best_code;
        assert(is_code_floor(len as int, best_code as int));
        len = len + 1;
    }
    table
}

} // verus!
