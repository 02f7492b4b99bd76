//! The compression entry points: output bounds, level checks and dispatch
//! to the encoder of each level.
use vstd::prelude::*;
use crate::decode_spec::{decode_spec, header_size, spec_header_fields};
use crate::error::Error;
use crate::format::{
    DEFAULT_LEVEL, EXT_HEADER_SIZE, HEADER_SIZE, HEAVY_LEVEL_MIN, HEAVY_SMALL_LIM, MAX_LEVEL, MIN_LEVEL,
    SMALL_LIM,
};
use crate::heavy_encode::heavy_room;
use crate::heavy_format::{heavy_cond, heavy_raw_stream, heavy_stream, is_heavy_encoding, lemma_heavy_roundtrip};
use crate::heavy_optimal::{heavy_compress, HEAVY_BLOCK_SIZE};
use crate::greedy_parse::{blitz_parse, ring_parse, swift_parse};
use crate::light_encode::{
    blitz_compress, keen_compress, light_room, loose_compress, swift_compress, KEEN_RING_WIDTH,
    LOOSE_RING_WIDTH,
};
use crate::light_format::{is_light_encoding, lemma_light_roundtrip, light_stream, raw_stream, Token};
use crate::block_parse::{
    heavy_optimal_parse, law_heavy_optimal_one_parse, law_light_optimal_one_parse,
    light_optimal_parse,
};
use crate::light_optimal::{light_optimal_compress, LIGHT_OPTIMAL_BLOCK_SIZE};

verus! {

/// `level` is one of the compression levels `-1..=4`.
pub open spec fn level_ok(level: i8) -> bool {
    MIN_LEVEL <= level <= MAX_LEVEL
}

/// `a + b`, or `usize::MAX` when that is larger.
pub open spec fn sat_add(a: int, b: int) -> int {
    if a + b > usize::MAX {
        usize::MAX as int
    } else {
        a + b
    }
}

/// The most bytes a light stream of an `n`-byte input takes.
pub open spec fn bound_light(n: int) -> int {
    if n <= SMALL_LIM {
        sat_add(HEADER_SIZE as int, n)
    } else {
        sat_add(sat_add(sat_add(EXT_HEADER_SIZE as int, n), n / 255), 16)
    }
}

/// The most bytes a heavy stream of an `n`-byte input takes.
pub open spec fn bound_heavy(n: int) -> int {
    sat_add(sat_add(sat_add(EXT_HEADER_SIZE as int, n), n / 32), 64)
}

/// The most bytes the stream of an `n`-byte input takes at `level`.
pub open spec fn bound_for_level(n: int, level: i8) -> int {
    if level >= HEAVY_LEVEL_MIN {
        bound_heavy(n)
    } else {
        bound_light(n)
    }
}

/// The most bytes the stream of an `n`-byte input takes at any level.
pub open spec fn bound_any(n: int) -> int {
    if bound_light(n) >= bound_heavy(n) {
        bound_light(n)
    } else {
        bound_heavy(n)
    }
}

/// The parse the greedy encoder of `level` (`-1..=2`) writes for `x`.
pub open spec fn greedy_level_parse(x: Seq<u8>, level: i8) -> Seq<Token> {
    if level == -1 {
        blitz_parse(x)
    } else if level == 0 {
        swift_parse(x)
    } else if level == 1 {
        ring_parse(x, LOOSE_RING_WIDTH as int, false)
    } else {
        ring_parse(x, KEEN_RING_WIDTH as int, true)
    }
}

/// The stream a greedy level (`-1..=2`) writes for `x`: the raw stream of a
/// small input, otherwise the light stream of that level's parse.
pub open spec fn greedy_level_stream(x: Seq<u8>, level: i8) -> Seq<u8> {
    if x.len() <= SMALL_LIM {
        raw_stream(x)
    } else {
        light_stream(x, greedy_level_parse(x, level))
    }
}

/// `s` is a stream `level` writes for `x`: the greedy levels' one stream;
/// at levels 3 and 4 the raw stream of a small input, otherwise the stream
/// of a parse the block-wise least-cost encoder of that level writes.
pub open spec fn is_level_stream(x: Seq<u8>, s: Seq<u8>, level: i8) -> bool {
    if level <= 2 {
        s == greedy_level_stream(x, level)
    } else if level == 3 {
        if x.len() <= SMALL_LIM {
            s == raw_stream(x)
        } else {
            exists|ts: Seq<Token>| #[trigger] light_optimal_parse(x, ts) && s == light_stream(x, ts)
        }
    } else if x.len() <= HEAVY_SMALL_LIM {
        s == heavy_raw_stream(x)
    } else {
        exists|ts: Seq<Token>|
            #[trigger] heavy_optimal_parse(x, ts) && s == heavy_stream(x, ts, heavy_cond(ts))
    }
}

/// `s` encodes `x` in the format of `level`: heavy for level 4, light
/// below.
pub open spec fn is_encoding_for_level(x: Seq<u8>, s: Seq<u8>, level: i8) -> bool {
    if level >= HEAVY_LEVEL_MIN {
        is_heavy_encoding(x, s)
    } else {
        is_light_encoding(x, s)
    }
}

/// The maximum compressed size of an input of `src_size` bytes at any level.
pub fn compress_bound(src_size: usize) -> (r: usize)
    ensures
        r == bound_any(src_size as int),
{
    let light = compress_bound_light(src_size);
    let heavy = compress_bound_heavy(src_size);
    if light >= heavy {
        light
    } else {
        heavy
    }
}

/// The maximum compressed size of an input of `src_size` bytes at `level`,
/// or `InvalidLevel` for a level outside `-1..=4`.
pub fn compress_bound_level(src_size: usize, level: i8) -> (r: Result<usize, Error>)
    ensures
        level_ok(level) ==> r == Ok::<usize, Error>(bound_for_level(src_size as int, level) as usize),
        !level_ok(level) ==> r == Err::<usize, Error>(Error::InvalidLevel { level }),
{
    match validate_level(level) {
        Ok(()) => {},
        Err(e) => {
            return Err(e);
        },
    }
    Ok(compress_bound_for_level(src_size, level))
}

/// The maximum compressed size of an input of `src_size` bytes in the
/// format `level` writes.
pub fn compress_bound_for_level(src_size: usize, level: i8) -> (r: usize)
    ensures
        r == bound_for_level(src_size as int, level),
{
    if level >= HEAVY_LEVEL_MIN {
        compress_bound_heavy(src_size)
    } else {
        compress_bound_light(src_size)
    }
}

/// The maximum size of a light stream of an input of `src_size` bytes.
pub fn compress_bound_light(src_size: usize) -> (r: usize)
    ensures
        r == bound_light(src_size as int),
{
    if src_size <= SMALL_LIM {
        return HEADER_SIZE.saturating_add(src_size);
    }
    EXT_HEADER_SIZE.saturating_add(src_size).saturating_add(src_size / 255).saturating_add(16)
}

/// The maximum size of a heavy stream of an input of `src_size` bytes.
pub fn compress_bound_heavy(src_size: usize) -> (r: usize)
    ensures
        r == bound_heavy(src_size as int),
{
    EXT_HEADER_SIZE.saturating_add(src_size).saturating_add(src_size / 32).saturating_add(64)
}

/// Accepts the levels `-1..=4` and rejects any other with `InvalidLevel`.
pub fn validate_level(level: i8) -> (r: Result<(), Error>)
    ensures
        level_ok(level) ==> r == Ok::<(), Error>(()),
        !level_ok(level) ==> r == Err::<(), Error>(Error::InvalidLevel { level }),
{
    if MIN_LEVEL <= level && level <= MAX_LEVEL {
        Ok(())
    } else {
        Err(Error::InvalidLevel { level })
    }
}

/// For an input a slice can hold, the bounds leave the room the encoders
/// need.
proof fn lemma_bounds_room(n: int)
    requires
        0 <= n <= isize::MAX,
    ensures
        bound_light(n) == light_room(n),
        bound_heavy(n) == heavy_room(n),
        bound_light(n) <= usize::MAX,
        bound_heavy(n) <= usize::MAX,
{
}

/// Compresses `src` into `dst` at `level` with that level's encoder and
/// returns the stream's length.
pub(crate) fn compress_dispatch(src: &[u8], dst: &mut [u8], level: i8) -> (r: usize)
    requires
        level_ok(level),
        src.len() <= isize::MAX,
        old(dst).len() >= bound_for_level(src.len() as int, level),
    ensures
        r <= final(dst).len(),
        final(dst).len() == old(dst).len(),
        is_encoding_for_level(src@, final(dst)@.take(r as int), level),
        is_level_stream(src@, final(dst)@.take(r as int), level),
        level == 3 && src.len() <= LIGHT_OPTIMAL_BLOCK_SIZE ==> r <= EXT_HEADER_SIZE + src.len(),
        level == 4 && src.len() <= HEAVY_BLOCK_SIZE ==> r <= EXT_HEADER_SIZE + src.len(),
{
    proof {
        lemma_bounds_room(src.len() as int);
    }
    if level == -1 {
        compress_dispatch_level_blitz(src, dst)
    } else if level == 0 {
        compress_dispatch_level_swift(src, dst)
    } else if level == 1 {
        compress_dispatch_level_loose(src, dst)
    } else if level == 2 {
        compress_dispatch_level_keen(src, dst)
    } else if level == 3 {
        compress_dispatch_level_light_optimal(src, dst)
    } else {
        compress_dispatch_level_heavy(src, dst)
    }
}

/// Compresses at level -1: greedy parse, probing every other position.
fn compress_dispatch_level_blitz(src: &[u8], dst: &mut [u8]) -> (r: usize)
    requires
        old(dst).len() >= light_room(src.len() as int),
        src.len() <= isize::MAX,
    ensures
        r <= final(dst).len(),
        final(dst).len() == old(dst).len(),
        is_light_encoding(src@, final(dst)@.take(r as int)),
        final(dst)@.take(r as int) == greedy_level_stream(src@, -1i8),
{
    blitz_compress(src, dst)
}

/// Compresses at level 0: greedy parse over two latest-position tables.
fn compress_dispatch_level_swift(src: &[u8], dst: &mut [u8]) -> (r: usize)
    requires
        old(dst).len() >= light_room(src.len() as int),
        src.len() <= isize::MAX,
    ensures
        r <= final(dst).len(),
        final(dst).len() == old(dst).len(),
        is_light_encoding(src@, final(dst)@.take(r as int)),
        final(dst)@.take(r as int) == greedy_level_stream(src@, 0i8),
{
    swift_compress(src, dst)
}

/// Compresses at level 1: greedy parse over rings of 16 positions.
fn compress_dispatch_level_loose(src: &[u8], dst: &mut [u8]) -> (r: usize)
    requires
        old(dst).len() >= light_room(src.len() as int),
        src.len() <= isize::MAX,
    ensures
        r <= final(dst).len(),
        final(dst).len() == old(dst).len(),
        is_light_encoding(src@, final(dst)@.take(r as int)),
        final(dst)@.take(r as int) == greedy_level_stream(src@, 1i8),
{
    loose_compress(src, dst)
}

/// Compresses at level 2: greedy parse over rings of 20 positions, with lookahead.
fn compress_dispatch_level_keen(src: &[u8], dst: &mut [u8]) -> (r: usize)
    requires
        old(dst).len() >= light_room(src.len() as int),
        src.len() <= isize::MAX,
    ensures
        r <= final(dst).len(),
        final(dst).len() == old(dst).len(),
        is_light_encoding(src@, final(dst)@.take(r as int)),
        final(dst)@.take(r as int) == greedy_level_stream(src@, 2i8),
{
    keen_compress(src, dst)
}

/// Compresses at level 3: the block-wise least-cost light parse.
fn compress_dispatch_level_light_optimal(src: &[u8], dst: &mut [u8]) -> (r: usize)
    requires
        old(dst).len() >= light_room(src.len() as int),
        src.len() <= isize::MAX,
    ensures
        r <= final(dst).len(),
        final(dst).len() == old(dst).len(),
        is_light_encoding(src@, final(dst)@.take(r as int)),
        src.len() <= LIGHT_OPTIMAL_BLOCK_SIZE ==> r <= EXT_HEADER_SIZE + src.len(),
        is_level_stream(src@, final(dst)@.take(r as int), 3i8),
{
    light_optimal_compress(src, dst)
}

/// Compresses at level 4: the block-wise least-cost heavy parse.
fn compress_dispatch_level_heavy(src: &[u8], dst: &mut [u8]) -> (r: usize)
    requires
        old(dst).len() >= heavy_room(src.len() as int),
        src.len() <= isize::MAX,
    ensures
        r <= final(dst).len(),
        final(dst).len() == old(dst).len(),
        is_heavy_encoding(src@, final(dst)@.take(r as int)),
        src.len() <= HEAVY_BLOCK_SIZE ==> r <= EXT_HEADER_SIZE + src.len(),
        is_level_stream(src@, final(dst)@.take(r as int), 4i8),
{
    heavy_compress(src, dst)
}

/// Compresses `input` at the default level, 1.
pub fn compress(input: &[u8]) -> (r: Vec<u8>)
    requires
        input.len() <= isize::MAX,
    ensures
        r.len() <= bound_light(input.len() as int),
        is_light_encoding(input@, r@),
        r@ == greedy_level_stream(input@, DEFAULT_LEVEL),
{
    let mut dst = vec![0u8; compress_bound_for_level(input.len(), DEFAULT_LEVEL)];
    let written = compress_dispatch(input, dst.as_mut_slice(), DEFAULT_LEVEL);
    dst.truncate(written);
    dst
}

/// Compresses `input` at `level` (`-1..=4`): levels below 4 write the light
/// format, level 4 the heavy format; any other level is `InvalidLevel`.
pub fn compress_level(input: &[u8], level: i8) -> (r: Result<Vec<u8>, Error>)
    requires
        input.len() <= isize::MAX,
    ensures
        !level_ok(level) ==> r == Err::<Vec<u8>, Error>(Error::InvalidLevel { level }),
        level_ok(level) ==> (r matches Ok(v) && v.len() <= bound_for_level(input.len() as int, level)
            && is_encoding_for_level(input@, v@, level)),
        level_ok(level) ==> (r matches Ok(v) && is_level_stream(input@, v@, level)),
        level == 3 && input.len() <= LIGHT_OPTIMAL_BLOCK_SIZE ==> (r matches Ok(v) && v.len()
            <= EXT_HEADER_SIZE + input.len()),
        level == 4 && input.len() <= HEAVY_BLOCK_SIZE ==> (r matches Ok(v) && v.len()
            <= EXT_HEADER_SIZE + input.len()),
{
    match validate_level(level) {
        Ok(()) => {},
        Err(e) => {
            return Err(e);
        },
    }
    let mut dst = vec![0u8; compress_bound_for_level(input.len(), level)];
    let written = compress_dispatch(input, dst.as_mut_slice(), level);
    dst.truncate(written);
    Ok(dst)
}

/// Compresses `input` into `dst` at the default level and returns the number
/// of bytes written; `OutputTooSmall` when `dst` is shorter than the light
/// bound, with `dst` left as it was.
pub fn compress_into(input: &[u8], dst: &mut [u8]) -> (r: Result<usize, Error>)
    requires
        input.len() <= isize::MAX,
    ensures
        final(dst).len() == old(dst).len(),
        old(dst).len() < bound_light(input.len() as int) ==> r == Err::<usize, Error>(
            Error::OutputTooSmall {
                need: bound_light(input.len() as int) as usize,
                have: old(dst).len(),
            },
        ) && final(dst)@ == old(dst)@,
        old(dst).len() >= bound_light(input.len() as int) ==> (r matches Ok(n) && n <= final(dst).len()
            && is_light_encoding(input@, final(dst)@.take(n as int))
            && final(dst)@.take(n as int) == greedy_level_stream(input@, DEFAULT_LEVEL)),
{
    let bound = compress_bound_for_level(input.len(), DEFAULT_LEVEL);
    if dst.len() < bound {
        return Err(Error::OutputTooSmall { need: bound, have: dst.len() });
    }
    Ok(compress_dispatch(input, dst, DEFAULT_LEVEL))
}

/// Compresses `input` into `dst` at `level` and returns the number of bytes
/// written; `InvalidLevel` for a level outside `-1..=4`, then
/// `OutputTooSmall` when `dst` is shorter than the level's bound, either
/// with `dst` left as it was.
pub fn compress_into_level(input: &[u8], dst: &mut [u8], level: i8) -> (r: Result<usize, Error>)
    requires
        input.len() <= isize::MAX,
    ensures
        final(dst).len() == old(dst).len(),
        !level_ok(level) ==> r == Err::<usize, Error>(Error::InvalidLevel { level }) && final(dst)@
            == old(dst)@,
        level_ok(level) && old(dst).len() < bound_for_level(input.len() as int, level) ==> r
            == Err::<usize, Error>(
            Error::OutputTooSmall {
                need: bound_for_level(input.len() as int, level) as usize,
                have: old(dst).len(),
            },
        ) && final(dst)@ == old(dst)@,
        level_ok(level) && old(dst).len() >= bound_for_level(input.len() as int, level) ==> (r matches Ok(
            n,
        ) && n <= final(dst).len() && is_encoding_for_level(input@, final(dst)@.take(n as int), level)),
        level_ok(level) && old(dst).len() >= bound_for_level(input.len() as int, level) ==> (r matches Ok(
            n,
        ) && is_level_stream(input@, final(dst)@.take(n as int), level)),
        level == 3 && input.len() <= LIGHT_OPTIMAL_BLOCK_SIZE && old(dst).len() >= bound_for_level(
            input.len() as int,
            level,
        ) ==> (r matches Ok(n) && n <= EXT_HEADER_SIZE + input.len()),
        level == 4 && input.len() <= HEAVY_BLOCK_SIZE && old(dst).len() >= bound_for_level(
            input.len() as int,
            level,
        ) ==> (r matches Ok(n) && n <= EXT_HEADER_SIZE + input.len()),
{
    match validate_level(level) {
        Ok(()) => {},
        Err(e) => {
            return Err(e);
        },
    }
    let bound = compress_bound_for_level(input.len(), level);
    if dst.len() < bound {
        return Err(Error::OutputTooSmall { need: bound, have: dst.len() });
    }
    Ok(compress_dispatch(input, dst, level))
}

/// Decompressing what any level writes gives back the input: the stream's
/// header declares the input's size, and decoding it into any buffer that
/// can hold the input (a zeroed one, as `decompress` uses, among them)
/// yields exactly the input. Sizes that do not fit the 56-bit size field
/// are left out.
pub proof fn law_roundtrip(x: Seq<u8>, s: Seq<u8>, level: i8, dst0: Seq<u8>)
    requires
        level_ok(level),
        is_encoding_for_level(x, s, level),
        x.len() < 0x100000000000000,
        x.len() <= usize::MAX,
        s.len() <= usize::MAX,
        dst0.len() >= x.len(),
    ensures
        decode_spec(s, dst0) == Ok::<Seq<u8>, Error>(x),
        (spec_header_fields(s) matches Ok((size, flags)) && size == x.len()),
        header_size(s) == x.len(),
{
    if level >= HEAVY_LEVEL_MIN {
        lemma_heavy_roundtrip(x, s, dst0);
    } else {
        lemma_light_roundtrip(x, s, dst0);
    }
    crate::decode_spec::lemma_decode_len(s, dst0);
}

/// The bound of any level is at most `compress_bound`.
pub proof fn law_bound_covers_levels(n: int, level: i8)
    requires
        0 <= n,
    ensures
        bound_for_level(n, level) <= bound_any(n),
{
}

/// At each greedy level (`-1..=2`) the entry points write one stream per
/// input: any two streams that level may write for `x` (whatever buffer
/// they were written into) are the same.
pub proof fn law_greedy_level_one_stream(x: Seq<u8>, s1: Seq<u8>, s2: Seq<u8>, level: i8)
    requires
        MIN_LEVEL <= level <= 2,
        is_level_stream(x, s1, level),
        is_level_stream(x, s2, level),
    ensures
        s1 == s2,
{
}

/// The default level is level 1: the stream `compress` writes is the one
/// level 1 writes.
pub proof fn law_default_level_is_one(x: Seq<u8>)
    ensures
        is_level_stream(x, greedy_level_stream(x, DEFAULT_LEVEL), 1i8),
{
}

/// Every level writes one stream per input: any two streams a level may
/// write for `x` (whatever buffer they were written into, and whichever
/// entry point wrote them) are the same. At levels 3 and 4 this rests on
/// each block's match tables being those of the one suffix array of its
/// segment.
pub proof fn law_level_one_stream(x: Seq<u8>, s1: Seq<u8>, s2: Seq<u8>, level: i8)
    requires
        level_ok(level),
        is_level_stream(x, s1, level),
        is_level_stream(x, s2, level),
    ensures
        s1 == s2,
{
    if level == 3 && x.len() > SMALL_LIM {
        let ts1 = choose|ts: Seq<Token>| #[trigger] light_optimal_parse(x, ts) && s1 == light_stream(x, ts);
        let ts2 = choose|ts: Seq<Token>| #[trigger] light_optimal_parse(x, ts) && s2 == light_stream(x, ts);
        law_light_optimal_one_parse(x, ts1, ts2);
    } else if level == 4 && x.len() > HEAVY_SMALL_LIM {
        let ts1 = choose|ts: Seq<Token>|
            #[trigger] heavy_optimal_parse(x, ts) && s1 == heavy_stream(x, ts, heavy_cond(ts));
        let ts2 = choose|ts: Seq<Token>|
            #[trigger] heavy_optimal_parse(x, ts) && s2 == heavy_stream(x, ts, heavy_cond(ts));
        law_heavy_optimal_one_parse(x, ts1, ts2);
    }
}

} // verus!
