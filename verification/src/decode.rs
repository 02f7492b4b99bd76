//! The decoder: reads a compressed stream and writes the bytes it describes.
use vstd::prelude::*;
use crate::decode_spec::{
    decode_heavy, decode_light, decode_spec, heavy_reaches_tokens, lemma_decode_len, light_reaches_tokens, reaches_tokens, ext_end, ext_run, forward_copy, header_size,
    heavy_run, heavy_step, heavy_token, lemma_ext_run_bounds, lemma_heavy_step_moves,
    lemma_light_step_moves, light_fail_state, light_run, light_step, light_token, spec_header_fields,
};
use crate::error::Error;
use crate::format::{
    heavy_len, EXT_HEADER_SIZE, FLAG_HEAVY, HEADER_SIZE, HEAVY_DIS_MASK,
    HEAVY_LITERAL_SUFFIX, HEAVY_MIN_DISTANCE, HEAVY_SMALL_LIM, HEAVY_TOKEN_LIT_MAX,
    LITERAL_SUFFIX, MIN_DISTANCE, MIN_MATCH_LEN, SMALL_LIM, TOKEN_LIT_MAX, TOKEN_MATCH_BITS,
    TOKEN_MATCH_MASK,
};
use crate::primitives::{
    copy_from_src, read_byte, read_u16_le, read_u32_le, read_u64_le, };

verus! {

/// The error for a malformed stream.
fn corrupt_input() -> (r: Result<usize, Error>)
    ensures
        r == Err::<usize, Error>(Error::CorruptInput),
{
    Err(Error::CorruptInput)
}

/// Reads the size field of a header.
fn read_header_size(src: &[u8]) -> (size: u64)
    requires
        src.len() >= HEADER_SIZE,
    ensures
        size == header_size(src@),
{
    let lo = read_u32_le(src, 0) as u64;
    let mid = read_u16_le(src, 4) as u64;
    let top = read_byte(src, 6) as u64;
    lo + 4294967296 * (mid + 65536 * top)
}

/// Reads the size and flags of a stream header.
fn header_fields(src: &[u8]) -> (r: Result<(usize, u8), Error>)
    ensures
        r == spec_header_fields(src@),
{
    if src.len() < HEADER_SIZE {
        return Err(Error::InputTooShort);
    }
    let original_size_u64 = read_header_size(src);
    if original_size_u64 > usize::MAX as u64 {
        return Err(Error::SizeOverflow { size: original_size_u64 });
    }
    Ok((original_size_u64 as usize, src[7]))
}

/// Reads the decompressed size from the first 8 bytes of a compressed stream.
///
/// Returns `None` if `src` is shorter than 8 bytes.
pub fn decompressed_size(src: &[u8]) -> (r: Option<u64>)
    ensures
        r == (if src@.len() < HEADER_SIZE {
            None::<u64>
        } else {
            Some(header_size(src@) as u64)
        }),
{
    if src.len() < HEADER_SIZE {
        return None;
    }
    Some(read_header_size(src))
}

/// Reads the extension bytes of a literal length from `control` on, adding
/// to `acc`, and leaves `control` where the reading stopped.
fn read_extension(src: &[u8], control: &mut usize, literals: usize, acc: usize) -> (r: Result<
    usize,
    Error,
>)
    requires
        literals <= src.len(),
    ensures
        *final(control) == ext_end(src@, *old(control) as int, literals as int, acc as int),
        r matches Ok(l) ==> ext_run(src@, *old(control) as int, literals as int, acc as int)
            == Some((l as int, *final(control) as int)),
        r is Err ==> r == Err::<usize, Error>(Error::CorruptInput) && ext_run(
            src@,
            *old(control) as int,
            literals as int,
            acc as int,
        ) is None,
{
    let mut lit_len = acc;
    loop
        invariant
            literals <= src.len(),
            ext_run(src@, *old(control) as int, literals as int, acc as int) == ext_run(
                src@,
                *control as int,
                literals as int,
                lit_len as int,
            ),
            ext_end(src@, *old(control) as int, literals as int, acc as int) == ext_end(
                src@,
                *control as int,
                literals as int,
                lit_len as int,
            ),
        decreases literals - *control,
    {
        if *control >= literals {
            return Err(Error::CorruptInput);
        }
        let extra = read_byte(src, *control) as usize;
        let ghost c0 = *control;
        let ghost l0 = lit_len;
        *control += 1;
        lit_len = match lit_len.checked_add(extra) {
            Some(v) => v,
            None => {
                assert(ext_run(src@, c0 as int, literals as int, l0 as int) is None);
                return Err(Error::CorruptInput);
            },
        };
        if extra < 255 {
            assert(ext_run(src@, c0 as int, literals as int, l0 as int) == Some(
                (lit_len as int, *control as int),
            ));
            return Ok(lit_len);
        }
    }
}

/// `n` bytes back-referenced at distance `dis`, appended at `pos`.
proof fn lemma_forward_copy_len(out: Seq<u8>, dis: int, n: int)
    requires
        n >= 0,
    ensures
        forward_copy(out, dis, n).len() == out.len() + n,
        forall|k: int| 0 <= k < out.len() ==> #[trigger] forward_copy(out, dis, n)[k] == out[k],
    decreases n,
{
    if n > 0 {
        lemma_forward_copy_len(out, dis, n - 1);
    }
}

/// Copies `n` bytes forward within `dst`, each from `dis` bytes before it,
/// starting at `pos`.
fn copy_heavy_match(
    dst: &mut [u8],
    pos: usize,
    dis: usize,
    n: usize,
    Ghost(o): Ghost<Seq<u8>>,
    Ghost(dst0): Ghost<Seq<u8>>,
)
    requires
        old(dst)@ == o + dst0.skip(o.len() as int),
        o.len() == pos,
        1 <= dis <= pos,
        pos + n <= dst0.len(),
        dst0.len() == old(dst).len(),
    ensures
        final(dst)@ == forward_copy(o, dis as int, n as int) + dst0.skip(pos + n),
        forward_copy(o, dis as int, n as int).len() == pos + n,
{
    let mut j: usize = 0;
    proof {
        lemma_forward_copy_len(o, dis as int, 0);
    }
    while j < n
        invariant
            j <= n,
            o.len() == pos,
            1 <= dis <= pos,
            pos + n <= dst0.len(),
            dst0.len() == dst.len(),
            dst@ == forward_copy(o, dis as int, j as int) + dst0.skip(pos + j),
            forward_copy(o, dis as int, j as int).len() == pos + j,
        decreases n - j,
    {
        let ghost p = forward_copy(o, dis as int, j as int);
        let b = dst[pos + j - dis];
        assert(b == p[pos + j - dis]);
        dst[pos + j] = b;
        j = j + 1;
        proof {
            lemma_forward_copy_len(o, dis as int, j as int);
            assert(forward_copy(o, dis as int, j as int) == p.push(b));
            assert(dst@ =~= forward_copy(o, dis as int, j as int) + dst0.skip(pos + j));
        }
    }
}

/// Copies the `lit_len` literal bytes that start at `lits` in `src` to the
/// output position `out`.
fn copy_literals(
    src: &[u8],
    lits: usize,
    dst: &mut [u8],
    out: usize,
    lit_len: usize,
    Ghost(o): Ghost<Seq<u8>>,
    Ghost(dst0): Ghost<Seq<u8>>,
)
    requires
        old(dst)@ == o + dst0.skip(o.len() as int),
        o.len() == out,
        lits + lit_len <= src.len(),
        out + lit_len <= dst0.len(),
    ensures
        final(dst)@ == (o + src@.subrange(lits as int, lits + lit_len)) + dst0.skip(out + lit_len),
{
    copy_from_src(src, lits, dst, out, lit_len);
    assert(dst@ =~= (o + src@.subrange(lits as int, lits + lit_len)) + dst0.skip(out + lit_len));
}

/// Decodes one light token: reads it at `control`, copies its literals from
/// the literal stream (moving `literals` back), then its match, and moves
/// `out` past both. A token that cannot be decoded is reported before
/// anything is written.
fn guarded_step_default(
    src: &[u8],
    dst: &mut [u8],
    control: &mut usize,
    literals: &mut usize,
    out: &mut usize,
    token_output_end: usize,
    Ghost(dst0): Ghost<Seq<u8>>,
    Ghost(o): Ghost<Seq<u8>>,
) -> (r: Result<(), Error>)
    requires
        *old(control) + 3 <= *old(literals),
        *old(literals) + LITERAL_SUFFIX <= src.len(),
        o.len() == *old(out),
        *old(out) <= token_output_end,
        token_output_end + LITERAL_SUFFIX <= dst0.len(),
        old(dst)@ == o + dst0.skip(o.len() as int),
    ensures
        final(dst)@.len() == dst0.len(),
        match light_step(
            src@,
            dst0,
            token_output_end as int,
            *old(control) as int,
            *old(literals) as int,
            o,
        ) {
            None => {
                &&& r == Err::<(), Error>(Error::CorruptInput)
                &&& (*final(control) as int, *final(literals) as int) == light_fail_state(
                    src@,
                    *old(control) as int,
                    *old(literals) as int,
                )
                &&& *final(out) == *old(out)
                &&& final(dst)@ == old(dst)@
            },
            Some((c, l, o2)) => {
                &&& r is Ok
                &&& *final(control) == c
                &&& *final(literals) == l
                &&& *final(out) == o2.len()
                &&& o2.len() <= token_output_end
                &&& final(dst)@ == o2 + dst0.skip(o2.len() as int)
            },
        },
{
    let token = read_byte(src, *control);
    let mut lit_len = (token >> TOKEN_MATCH_BITS) as usize;
    let match_len = (token & TOKEN_MATCH_MASK) as usize + MIN_MATCH_LEN - 1;
    let dis = read_u16_le(src, *control + 1) as usize + MIN_DISTANCE;
    proof {
        assert(token >> 5u32 == token / 32) by (bit_vector);
        assert(token & 0x1Fu8 == token % 32) by (bit_vector);
    }
    *control += 3;
    if lit_len == TOKEN_LIT_MAX {
        match read_extension(src, control, *literals, lit_len) {
            Err(e) => {
                return Err(e);
            },
            Ok(l) => {
                lit_len = l;
            },
        }
    }
    proof {
        assert(light_token(src@, *old(control) as int, *old(literals) as int) == Some(
            (lit_len as int, match_len as int, dis as int, *control as int),
        ));
    }
    if lit_len > *literals {
        return Err(Error::CorruptInput);
    }
    *literals -= lit_len;
    let lits = *literals;
    let after_literals = match out.checked_add(lit_len) {
        Some(v) => v,
        None => return Err(Error::CorruptInput),
    };
    if dis > after_literals {
        return Err(Error::CorruptInput);
    }
    let token_end = match after_literals.checked_add(match_len) {
        Some(v) => v,
        None => return Err(Error::CorruptInput),
    };
    if token_end > token_output_end {
        return Err(Error::CorruptInput);
    }
    copy_literals(src, lits, dst, *out, lit_len, Ghost(o), Ghost(dst0));
    let ghost out2 = o + src@.subrange(lits as int, *old(literals) as int);
    let n = if match_len < 32 {
        match_len
    } else {
        32
    };
    copy_heavy_match(dst, after_literals, dis, n, Ghost(out2), Ghost(dst0));
    proof {
        let fc = forward_copy(out2, dis as int, n as int);
        let o2 = fc + dst0.subrange(after_literals + n, after_literals + match_len);
        assert(dst@ =~= o2 + dst0.skip(o2.len() as int));
    }
    *out = token_end;
    Ok(())
}

/// Decodes the light token stream of a stream of `original_size` bytes whose
/// literal suffix is `literal_suffix_cnt` bytes long.
fn decompress_loop_impl(
    src: &[u8],
    dst: &mut [u8],
    original_size: usize,
    literal_suffix_cnt: usize,
    suffix_start_in_src: usize,
    token_output_end: usize,
) -> (r: Result<usize, Error>)
    requires
        LITERAL_SUFFIX <= literal_suffix_cnt <= original_size <= old(dst).len(),
        EXT_HEADER_SIZE + literal_suffix_cnt <= src.len(),
        suffix_start_in_src == src.len() - literal_suffix_cnt,
        token_output_end == original_size - literal_suffix_cnt,
    ensures
        final(dst)@.len() == old(dst)@.len(),
        match light_run(
            src@,
            old(dst)@,
            token_output_end as int,
            EXT_HEADER_SIZE as int,
            suffix_start_in_src as int,
            Seq::empty(),
        ) {
            None => r == Err::<usize, Error>(Error::CorruptInput),
            Some(out) => {
                &&& r == Ok::<usize, Error>(original_size)
                &&& final(dst)@ == (out + src@.subrange(
                    suffix_start_in_src as int,
                    src@.len() as int,
                )) + old(dst)@.skip(original_size as int)
            },
        },
{
    let ghost dst0 = dst@;
    let ghost full = light_run(
        src@,
        dst0,
        token_output_end as int,
        EXT_HEADER_SIZE as int,
        suffix_start_in_src as int,
        Seq::empty(),
    );
    let mut control = EXT_HEADER_SIZE;
    let mut literals = suffix_start_in_src;
    let mut out = 0usize;
    let ghost mut o: Seq<u8> = Seq::empty();
    assert(dst@ =~= o + dst0.skip(0));
    while control < literals && literals - control >= 3
        invariant
            dst0 == old(dst)@,
            full == light_run(
                src@,
                dst0,
                token_output_end as int,
                EXT_HEADER_SIZE as int,
                suffix_start_in_src as int,
                Seq::empty(),
            ),
            dst0.len() == dst@.len(),
            LITERAL_SUFFIX <= literal_suffix_cnt <= original_size <= dst0.len(),
            suffix_start_in_src == src.len() - literal_suffix_cnt,
            token_output_end == original_size - literal_suffix_cnt,
            literals <= suffix_start_in_src,
            o.len() == out,
            out <= token_output_end,
            dst@ == o + dst0.skip(o.len() as int),
            light_run(src@, dst0, token_output_end as int, control as int, literals as int, o)
                == full,
        decreases (if literals > control { literals - control } else { 0 }),
    {
        let ghost c0 = control;
        let ghost l0 = literals;
        let ghost o0 = o;
        proof {
            lemma_light_step_moves(src@, dst0, token_output_end as int, c0 as int, l0 as int, o0);
        }
        let step = guarded_step_default(
            src,
            dst,
            &mut control,
            &mut literals,
            &mut out,
            token_output_end,
            Ghost(dst0),
            Ghost(o),
        );
        match step {
            Err(e) => {
                assert(light_run(src@, dst0, token_output_end as int, c0 as int, l0 as int, o0)
                    is None);

                return Err(e);
            },
            Ok(()) => {
                proof {
                    let s = light_step(src@, dst0, token_output_end as int, c0 as int, l0 as int, o0);
                    o = s.unwrap().2;
                }
            },
        }
    }
    if out != token_output_end {
        return Err(Error::CorruptInput);
    }
    copy_from_src(src, suffix_start_in_src, dst, out, literal_suffix_cnt);
    assert(dst@ =~= (o + src@.subrange(suffix_start_in_src as int, src@.len() as int)) + dst0.skip(
        original_size as int,
    ));
    Ok(original_size)
}

/// Decodes one heavy token: reads it at `control`, copies its literals from
/// the literal stream (moving `literals` back), then its match, and moves
/// `out` past both.
fn checked_heavy_step(
    src: &[u8],
    dst: &mut [u8],
    control: &mut usize,
    literals: &mut usize,
    out: &mut usize,
    token_output_end: usize,
    Ghost(dst0): Ghost<Seq<u8>>,
    Ghost(o): Ghost<Seq<u8>>,
) -> (r: Result<(), Error>)
    requires
        *old(control) < *old(literals),
        *old(literals) <= src.len(),
        o.len() == *old(out),
        *old(out) <= token_output_end,
        token_output_end <= dst0.len(),
        dst0.len() == old(dst).len(),
        old(dst)@ == o + dst0.skip(o.len() as int),
    ensures
        final(dst)@.len() == dst0.len(),
        match heavy_step(src@, token_output_end as int, *old(control) as int, *old(literals) as int, o) {
            None => r == Err::<(), Error>(Error::CorruptInput),
            Some((c, l, o2)) => {
                &&& r is Ok
                &&& *final(control) == c
                &&& *final(literals) == l
                &&& *final(out) == o2.len()
                &&& o2.len() <= token_output_end
                &&& final(dst)@ == o2 + dst0.skip(o2.len() as int)
            },
        },
{
    match control.checked_add(4) {
        None => {
            return Err(Error::CorruptInput);
        },
        Some(end) => {
            if end > *literals {
                return Err(Error::CorruptInput);
            }
        },
    }
    let token = read_u32_le(src, *control);
    let mut next = *control + 4;
    let mut lit_len = (token >> 26) as usize;
    let match_code = ((token >> 20) & 0x3F) as usize;
    proof {
        assert(token >> 26u32 == token / 67108864) by (bit_vector);
        assert((token >> 20u32) & 0x3Fu32 == (token / 1048576) % 64) by (bit_vector);
        assert(token & 0xFFFFFu32 == token % 1048576) by (bit_vector);
    }
    if match_code == 0 {
        return Err(Error::CorruptInput);
    }
    let match_len = heavy_len(match_code) as usize;
    let dis = (token & HEAVY_DIS_MASK) as usize + HEAVY_MIN_DISTANCE;
    if lit_len == HEAVY_TOKEN_LIT_MAX {
        let ghost start = next;
        match read_extension(src, &mut next, *literals, lit_len) {
            Err(e) => {
                return Err(e);
            },
            Ok(l) => {
                proof {
                    lemma_ext_run_bounds(src@, start as int, *literals as int, lit_len as int);
                }
                lit_len = l;
            },
        }
    }
    proof {
        assert(heavy_token(src@, *old(control) as int, *old(literals) as int) == Some(
            (lit_len as int, match_len as int, dis as int, next as int),
        ));
    }
    if lit_len > *literals - next {
        return Err(Error::CorruptInput);
    }
    let lits = *literals - lit_len;
    let after_literals = match out.checked_add(lit_len) {
        Some(v) => v,
        None => return Err(Error::CorruptInput),
    };
    let token_end = match after_literals.checked_add(match_len) {
        Some(v) => v,
        None => return Err(Error::CorruptInput),
    };
    if token_end > token_output_end {
        return Err(Error::CorruptInput);
    }
    copy_literals(src, lits, dst, *out, lit_len, Ghost(o), Ghost(dst0));
    let ghost out2 = o + src@.subrange(lits as int, *old(literals) as int);
    if dis > after_literals {
        return Err(Error::CorruptInput);
    }
    copy_heavy_match(dst, after_literals, dis, match_len, Ghost(out2), Ghost(dst0));
    *control = next;
    *literals = lits;
    *out = token_end;
    Ok(())
}

/// Decodes the heavy token stream of a stream of `original_size` bytes whose
/// literal suffix is `literal_suffix_cnt` bytes long.
fn decompress_heavy_loop(
    src: &[u8],
    dst: &mut [u8],
    original_size: usize,
    literal_suffix_cnt: usize,
    suffix_start_in_src: usize,
    token_output_end: usize,
) -> (r: Result<usize, Error>)
    requires
        literal_suffix_cnt <= original_size <= old(dst).len(),
        literal_suffix_cnt <= src.len(),
        suffix_start_in_src == src.len() - literal_suffix_cnt,
        token_output_end == original_size - literal_suffix_cnt,
    ensures
        final(dst)@.len() == old(dst)@.len(),
        match heavy_run(
            src@,
            token_output_end as int,
            EXT_HEADER_SIZE as int,
            suffix_start_in_src as int,
            Seq::empty(),
        ) {
            None => r == Err::<usize, Error>(Error::CorruptInput),
            Some(out) => {
                &&& r == Ok::<usize, Error>(original_size)
                &&& final(dst)@ == (out + src@.subrange(
                    suffix_start_in_src as int,
                    src@.len() as int,
                )) + old(dst)@.skip(original_size as int)
            },
        },
{
    let ghost dst0 = dst@;
    let ghost full = heavy_run(
        src@,
        token_output_end as int,
        EXT_HEADER_SIZE as int,
        suffix_start_in_src as int,
        Seq::empty(),
    );
    let mut control = EXT_HEADER_SIZE;
    let mut literals = suffix_start_in_src;
    let mut out = 0usize;
    let ghost mut o: Seq<u8> = Seq::empty();
    assert(dst@ =~= o + dst0.skip(0));
    while control < literals
        invariant
            dst0 == old(dst)@,
            full == heavy_run(
                src@,
                token_output_end as int,
                EXT_HEADER_SIZE as int,
                suffix_start_in_src as int,
                Seq::empty(),
            ),
            dst0.len() == dst@.len(),
            literal_suffix_cnt <= original_size <= dst0.len(),
            suffix_start_in_src == src.len() - literal_suffix_cnt,
            token_output_end == original_size - literal_suffix_cnt,
            literals <= suffix_start_in_src,
            o.len() == out,
            out <= token_output_end,
            dst@ == o + dst0.skip(o.len() as int),
            heavy_run(src@, token_output_end as int, control as int, literals as int, o) == full,
        decreases literals - control,
    {
        let ghost c0 = control;
        let ghost l0 = literals;
        let ghost o0 = o;
        proof {
            lemma_heavy_step_moves(src@, token_output_end as int, c0 as int, l0 as int, o0);
        }
        let step = checked_heavy_step(
            src,
            dst,
            &mut control,
            &mut literals,
            &mut out,
            token_output_end,
            Ghost(dst0),
            Ghost(o),
        );
        match step {
            Err(e) => {
                assert(heavy_run(src@, token_output_end as int, c0 as int, l0 as int, o0) is None);
                return Err(e);
            },
            Ok(()) => {
                proof {
                    let s = heavy_step(src@, token_output_end as int, c0 as int, l0 as int, o0);
                    o = s.unwrap().2;
                }
            },
        }
    }
    if out != token_output_end {
        return Err(Error::CorruptInput);
    }
    copy_from_src(src, suffix_start_in_src, dst, out, literal_suffix_cnt);
    assert(dst@ =~= (o + src@.subrange(suffix_start_in_src as int, src@.len() as int)) + dst0.skip(
        original_size as int,
    ));
    Ok(original_size)
}

/// Decodes a heavy stream whose header declares `original_size` bytes.
fn decompress_into_heavy(src: &[u8], dst: &mut [u8], original_size: usize, flags: u8) -> (r:
    Result<usize, Error>)
    requires
        original_size <= old(dst).len(),
    ensures
        final(dst)@.len() == old(dst)@.len(),
        match decode_heavy(src@, original_size as int) {
            Ok(out) => r == Ok::<usize, Error>(out.len() as usize) && final(dst)@ == out + old(
                dst,
            )@.skip(out.len() as int),
            Err(e) => r == Err::<usize, Error>(e),
        },
        r is Err && !heavy_reaches_tokens(src@, original_size as int) ==> final(dst)@ == old(dst)@,
{
    let _ = flags;
    if original_size <= HEAVY_SMALL_LIM {
        let raw_end = match HEADER_SIZE.checked_add(original_size) {
            Some(v) => v,
            None => return Err(Error::CorruptInput),
        };
        if src.len() < raw_end {
            return Err(Error::InputTooShort);
        }
        let ghost d0 = dst@;
        copy_from_src(src, HEADER_SIZE, dst, 0, original_size);
        assert(dst@ =~= src@.subrange(8, 8 + original_size) + d0.skip(original_size as int));
        return Ok(original_size);
    }
    if src.len() < EXT_HEADER_SIZE {
        return Err(Error::InputTooShort);
    }
    let suffix_cnt_u64 = read_u64_le(src, 8);
    if suffix_cnt_u64 > usize::MAX as u64 {
        return Err(Error::SizeOverflow { size: suffix_cnt_u64 });
    }
    let literal_suffix_cnt = suffix_cnt_u64 as usize;
    if literal_suffix_cnt < HEAVY_LITERAL_SUFFIX || literal_suffix_cnt > original_size {
        return corrupt_input();
    }
    if src.len() < literal_suffix_cnt {
        return corrupt_input();
    }
    let non_suffix_len = src.len() - literal_suffix_cnt;
    if non_suffix_len < EXT_HEADER_SIZE {
        return corrupt_input();
    }
    let token_output_end = original_size - literal_suffix_cnt;
    decompress_heavy_loop(
        src,
        dst,
        original_size,
        literal_suffix_cnt,
        non_suffix_len,
        token_output_end,
    )
}

/// Decodes a light stream whose header declares `original_size` bytes.
fn decompress_into_light(src: &[u8], dst: &mut [u8], original_size: usize) -> (r: Result<
    usize,
    Error,
>)
    requires
        original_size <= old(dst).len(),
    ensures
        final(dst)@.len() == old(dst)@.len(),
        match decode_light(src@, old(dst)@, original_size as int) {
            Ok(out) => r == Ok::<usize, Error>(out.len() as usize) && final(dst)@ == out + old(
                dst,
            )@.skip(out.len() as int),
            Err(e) => r == Err::<usize, Error>(e),
        },
        r is Err && !light_reaches_tokens(src@, original_size as int) ==> final(dst)@ == old(dst)@,
{
    if original_size <= SMALL_LIM {
        if src.len() < HEADER_SIZE + original_size {
            return Err(Error::InputTooShort);
        }
        let ghost d0 = dst@;
        copy_from_src(src, HEADER_SIZE, dst, 0, original_size);
        assert(dst@ =~= src@.subrange(8, 8 + original_size) + d0.skip(original_size as int));
        return Ok(original_size);
    }
    if src.len() < EXT_HEADER_SIZE {
        return Err(Error::InputTooShort);
    }
    let suffix_cnt_u64 = read_u64_le(src, 8);
    if suffix_cnt_u64 > usize::MAX as u64 {
        return Err(Error::SizeOverflow { size: suffix_cnt_u64 });
    }
    let literal_suffix_cnt = suffix_cnt_u64 as usize;
    if literal_suffix_cnt < LITERAL_SUFFIX || literal_suffix_cnt > original_size {
        return Err(Error::CorruptInput);
    }
    let suffix_end = match EXT_HEADER_SIZE.checked_add(literal_suffix_cnt) {
        Some(v) => v,
        None => return Err(Error::CorruptInput),
    };
    if src.len() < suffix_end {
        return Err(Error::InputTooShort);
    }
    let suffix_start_in_src = src.len() - literal_suffix_cnt;
    let token_output_end = original_size - literal_suffix_cnt;
    decompress_loop_impl(
        src,
        dst,
        original_size,
        literal_suffix_cnt,
        suffix_start_in_src,
        token_output_end,
    )
}

/// Decompresses a misa77-compressed stream into the provided buffer.
///
/// Returns the number of bytes written to `dst`; the bytes after them are
/// left as they were. An error found before the tokens are decoded leaves
/// `dst` untouched.
pub fn decompress_into(src: &[u8], dst: &mut [u8]) -> (r: Result<usize, Error>)
    ensures
        final(dst)@.len() == old(dst)@.len(),
        match decode_spec(src@, old(dst)@) {
            Ok(out) => r == Ok::<usize, Error>(out.len() as usize) && final(dst)@ == out + old(
                dst,
            )@.skip(out.len() as int),
            Err(e) => r == Err::<usize, Error>(e),
        },
        r is Err && !reaches_tokens(src@, old(dst)@.len() as int) ==> final(dst)@ == old(dst)@,
{
    let (original_size, flags) = match header_fields(src) {
        Ok(v) => v,
        Err(e) => return Err(e),
    };
    if original_size == 0 {
        assert(dst@ =~= Seq::<u8>::empty() + dst@.skip(0));
        return Ok(0);
    }
    if dst.len() < original_size {
        return Err(Error::OutputTooSmall { need: original_size, have: dst.len() });
    }
    proof {
        assert(flags & 1u8 != 0 <==> flags % 2 == 1) by (bit_vector);
    }
    if flags & FLAG_HEAVY != 0 {
        return decompress_into_heavy(src, dst, original_size, flags);
    }
    decompress_into_light(src, dst, original_size)
}

/// Decompresses a misa77-compressed stream into a new `Vec<u8>`.
///
/// `expected_len` is the expected decompressed size. It must match the size
/// encoded in the stream header.
pub fn decompress(src: &[u8], expected_len: usize) -> (r: Result<Vec<u8>, Error>)
    ensures
        match spec_header_fields(src@) {
            Err(e) => r == Err::<Vec<u8>, Error>(e),
            Ok((size, flags)) => if size != expected_len {
                r == Err::<Vec<u8>, Error>(
                    Error::SizeMismatch { expected: expected_len, actual: size },
                )
            } else {
                match decode_spec(src@, Seq::new(expected_len as nat, |i: int| 0u8)) {
                    Ok(out) => r matches Ok(v) && v@ == out,
                    Err(e) => r == Err::<Vec<u8>, Error>(e),
                }
            },
        },
{
    let (actual_len, _) = match header_fields(src) {
        Ok(v) => v,
        Err(e) => return Err(e),
    };
    if actual_len != expected_len {
        return Err(Error::SizeMismatch { expected: expected_len, actual: actual_len });
    }
    let mut dst = vec![0u8; expected_len];
    let ghost zeros = dst@;
    assert(zeros =~= Seq::new(expected_len as nat, |i: int| 0u8));
    proof {
        lemma_decode_len(src@, zeros);
    }
    let written = decompress_into(src, dst.as_mut_slice());
    match written {
        Ok(_) => {
            assert(dst@ =~= decode_spec(src@, zeros).unwrap());
            Ok(dst)
        },
        Err(e) => Err(e),
    }
}

} // verus!
