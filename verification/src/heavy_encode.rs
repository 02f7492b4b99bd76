//! The heavy-format writer: lays heavy tokens out as a heavy stream.
use vstd::prelude::*;
use crate::format::{
    heavy_len_of, is_code_floor, lemma_code_floor_unique, lemma_heavy_len_increasing,
    EXT_HEADER_SIZE, FLAG_HEAVY, FLAG_HEAVY_COND, FLAG_SHIFT, HEADER_SIZE, HEAVY_DIS_MASK,
    HEAVY_LITERAL_SUFFIX, HEAVY_MIN_DISTANCE, HEAVY_SMALL_LIM, HEAVY_TOKEN_LIT_MAX, VECTOR_WIDTH,
};
use crate::heavy_format::{
    heavy_code, heavy_cond, heavy_ctrl, heavy_header, heavy_len_ok, heavy_parse_ok, heavy_raw_stream,
    heavy_stream, heavy_token_bytes, heavy_token_ok, heavy_token_word, long_count, u32_bytes,
};
use crate::light_encode::{move_within, write_u64_le, written, lemma_written_step};
use crate::light_format::{ext_bytes, lit_area, parse_end, u64_le, Token};
use crate::primitives::{copy_from_src, spliced};

verus! {

/// The state of a heavy stream being written into `d` for input `x`: the
/// control stream of `ts` grows from byte 16, the literal stream of `ts`
/// grows down from the end, and what is written so far leaves room for the
/// rest.
pub open spec fn heavy_writer_ok(x: Seq<u8>, d: Seq<u8>, dlpos: int, drpos: int, ts: Seq<Token>) -> bool {
    &&& heavy_parse_ok(x, ts)
    &&& x.len() > HEAVY_SMALL_LIM
    &&& d.len() >= EXT_HEADER_SIZE + x.len() + x.len() / 32
    &&& d.len() <= usize::MAX
    &&& 0 <= parse_end(ts) <= x.len() - HEAVY_LITERAL_SUFFIX
    &&& dlpos == 16 + heavy_ctrl(ts).len()
    &&& drpos == d.len() - lit_area(x, ts).len()
    &&& (dlpos - 16) + (d.len() - drpos) <= parse_end(ts) + parse_end(ts) / 32
    &&& d.subrange(16, dlpos) == heavy_ctrl(ts)
    &&& d.subrange(drpos, d.len() as int) == lit_area(x, ts)
}

/// Writing one more heavy token fits in the room the writer keeps.
proof fn lemma_heavy_token_room(used: int, pe: int, lit_len: int, ml: int, ext: int)
    requires
        0 <= used <= pe + pe / 32,
        0 <= pe,
        0 <= lit_len,
        4 <= ml,
        ext == (if lit_len >= 63 { 1 + (lit_len - 63) / 255 } else { 0 }),
    ensures
        used + 4 + ext + lit_len <= (pe + lit_len + ml) + (pe + lit_len + ml) / 32,
{
    assert((pe + lit_len + ml) / 32 >= pe / 32 + lit_len / 32) by (nonlinear_arith)
        requires
            0 <= pe,
            0 <= lit_len,
            0 <= ml,
    ;
    if lit_len >= 63 {
        assert(1 + (lit_len - 63) / 255 <= lit_len / 32) by (nonlinear_arith)
            requires
                lit_len >= 63,
        ;
    }
}

/// Appending a token to a sequence appends its control bytes, its span and
/// its literal run.
pub proof fn lemma_push_heavy_token(x: Seq<u8>, ts: Seq<Token>, t: Token)
    ensures
        heavy_ctrl(ts.push(t)) == heavy_ctrl(ts) + heavy_token_bytes(t),
        parse_end(ts.push(t)) == parse_end(ts) + t.0 + t.1,
        lit_area(x, ts.push(t)) == x.subrange(parse_end(ts), parse_end(ts) + t.0) + lit_area(
            x,
            ts,
        ),
        heavy_parse_ok(x, ts.push(t)) == (heavy_parse_ok(x, ts) && heavy_token_ok(
            x,
            parse_end(ts),
            t,
        )),
        long_count(ts.push(t)) == long_count(ts) + (if t.1 > VECTOR_WIDTH { 1int } else { 0int }),
{
    assert(ts.push(t).drop_last() =~= ts);
}

/// The code of a heavy length table entry is that code.
pub proof fn lemma_heavy_code_of(code: int)
    requires
        1 <= code < 64,
    ensures
        heavy_code(heavy_len_of(code)) == code,
        heavy_len_ok(heavy_len_of(code)),
{
    assert forall|c: int| code < c < 64 implies heavy_len_of(c) > heavy_len_of(code) by {
        lemma_heavy_len_increasing(code, c);
    }
    assert(is_code_floor(heavy_len_of(code), code));
    lemma_code_floor_unique(heavy_len_of(code), code);
}

/// Writes the control bytes of a heavy token at `pos` and returns the
/// position after them.
fn write_heavy_token_bytes(
    dst: &mut [u8],
    pos: usize,
    lit_len: usize,
    match_len_code: usize,
    dis: usize,
) -> (end: usize)
    requires
        1 <= match_len_code < 64,
        HEAVY_MIN_DISTANCE <= dis < HEAVY_MIN_DISTANCE + 1048576,
        pos + heavy_token_bytes(
            (lit_len as int, heavy_len_of(match_len_code as int), dis as int),
        ).len() <= old(dst).len(),
    ensures
        end == pos + heavy_token_bytes(
            (lit_len as int, heavy_len_of(match_len_code as int), dis as int),
        ).len(),
        final(dst)@ == written(
            old(dst)@,
            pos as int,
            heavy_token_bytes((lit_len as int, heavy_len_of(match_len_code as int), dis as int)),
            heavy_token_bytes(
                (lit_len as int, heavy_len_of(match_len_code as int), dis as int),
            ).len() as int,
        ),
{
    let ghost t: Token = (lit_len as int, heavy_len_of(match_len_code as int), dis as int);
    let ghost tb = heavy_token_bytes(t);
    let ghost d0 = dst@;
    proof {
        lemma_heavy_code_of(match_len_code as int);
    }
    assert(dst@ =~= written(d0, pos as int, tb, 0));
    let lrem = if lit_len < HEAVY_TOKEN_LIT_MAX {
        lit_len
    } else {
        HEAVY_TOKEN_LIT_MAX
    };
    let a = lrem as u32;
    let b = match_len_code as u32;
    let c = ((dis - HEAVY_MIN_DISTANCE) as u32) & HEAVY_DIS_MASK;
    let token: u32 = (a << 26) | (b << 20) | c;
    let b0 = (token & 0xff) as u8;
    let b1 = ((token >> 8) & 0xff) as u8;
    let b2 = ((token >> 16) & 0xff) as u8;
    let b3 = (token >> 24) as u8;
    proof {
        let d = (dis - HEAVY_MIN_DISTANCE) as u32;
        assert(d < 1048576 ==> d & 0xFFFFF == d) by (bit_vector);
        assert(a < 64 && b < 64 && c < 1048576 ==> (a << 26u32) | (b << 20u32) | c == a
            * 67108864 + b * 1048576 + c) by (bit_vector);
        assert(token == heavy_token_word(t));
        assert(token & 0xff == token % 256) by (bit_vector);
        assert((token >> 8u32) & 0xff == (token / 256) % 256) by (bit_vector);
        assert((token >> 16u32) & 0xff == (token / 65536) % 256) by (bit_vector);
        assert(token >> 24u32 == token / 16777216) by (bit_vector);
        let head = u32_bytes(token as int);
        assert(b0 == head[0]);
        assert(b1 == head[1]);
        assert(b2 == head[2]);
        assert(b3 == head[3]);
        assert(tb[0] == head[0] && tb[1] == head[1] && tb[2] == head[2] && tb[3] == head[3]);
        lemma_written_step(d0, pos as int, tb, 0);
        lemma_written_step(d0, pos as int, tb, 1);
        lemma_written_step(d0, pos as int, tb, 2);
        lemma_written_step(d0, pos as int, tb, 3);
    }
    dst[pos] = b0;
    dst[pos + 1] = b1;
    dst[pos + 2] = b2;
    dst[pos + 3] = b3;
    let mut at = pos + 4;
    if lrem == HEAVY_TOKEN_LIT_MAX {
        let ghost r = lit_len - HEAVY_TOKEN_LIT_MAX;
        let ghost e = ext_bytes(r);
        assert(tb == tb.take(4) + e);
        let mut remaining = lit_len - HEAVY_TOKEN_LIT_MAX;
        while remaining >= 255
            invariant
                remaining >= 0,
                r >= 0,
                (at - pos - 4) * 255 + remaining == r,
                pos + 4 <= at <= pos + 4 + r / 255,
                tb == heavy_token_bytes(t),
                tb == tb.take(4) + e,
                e == ext_bytes(r),
                pos + tb.len() <= d0.len(),
                tb.len() == 4 + r / 255 + 1,
                dst@ == written(d0, pos as int, tb, at - pos),
            decreases remaining,
        {
            proof {
                let k = at - pos - 4;
                assert(k < r / 255) by (nonlinear_arith)
                    requires
                        k * 255 + remaining == r,
                        remaining >= 255,
                        k >= 0,
                ;
                assert(tb[4 + k] == e[k]);
                lemma_written_step(d0, pos as int, tb, at - pos);
            }
            dst[at] = 255;
            at += 1;
            remaining -= 255;
        }
        proof {
            let k = at - pos - 4;
            assert(k == r / 255 && remaining == r % 255) by (nonlinear_arith)
                requires
                    k * 255 + remaining == r,
                    0 <= remaining < 255,
                    k >= 0,
            ;
            assert(tb[4 + k] == e[k]);
            lemma_written_step(d0, pos as int, tb, at - pos);
        }
        dst[at] = remaining as u8;
        at += 1;
    }
    at
}

/// The writer state after the bytes of heavy token `t` are written at `dl0`
/// and its literal run just below `dr0`.
proof fn lemma_heavy_emit_state(
    x: Seq<u8>,
    d0: Seq<u8>,
    dl0: int,
    dr0: int,
    ts: Seq<Token>,
    t: Token,
    d2: Seq<u8>,
)
    requires
        heavy_writer_ok(x, d0, dl0, dr0, ts),
        heavy_token_ok(x, parse_end(ts), t),
        parse_end(ts) + t.0 + t.1 <= x.len() - HEAVY_LITERAL_SUFFIX,
        (dl0 - 16) + (d0.len() - dr0) + heavy_token_bytes(t).len() + t.0 <= (parse_end(ts) + t.0
            + t.1) + (parse_end(ts) + t.0 + t.1) / 32,
        d2 == spliced(
            written(d0, dl0, heavy_token_bytes(t), heavy_token_bytes(t).len() as int),
            dr0 - t.0,
            x,
            parse_end(ts),
            t.0,
        ),
    ensures
        heavy_writer_ok(x, d2, dl0 + heavy_token_bytes(t).len(), dr0 - t.0, ts.push(t)),
{
    let tb = heavy_token_bytes(t);
    let pe = parse_end(ts);
    lemma_push_heavy_token(x, ts, t);
    assert(tb.take(tb.len() as int) =~= tb);
    assert(dl0 + tb.len() <= dr0 - t.0);
    assert(d2.subrange(16, dl0 + tb.len()) =~= heavy_ctrl(ts) + tb) by {
        assert(d0.subrange(16, dl0) =~= heavy_ctrl(ts));
        assert forall|q: int| 0 <= q < dl0 + tb.len() - 16 implies #[trigger] d2.subrange(
            16,
            dl0 + tb.len(),
        )[q] == (heavy_ctrl(ts) + tb)[q] by {
            if q < dl0 - 16 {
                assert(d0.subrange(16, dl0)[q] == d0[16 + q]);
            }
        }
    }
    assert(d2.subrange(dr0 - t.0, d2.len() as int) =~= x.subrange(pe, pe + t.0) + lit_area(x, ts))
        by {
        assert(d0.subrange(dr0, d0.len() as int) =~= lit_area(x, ts));
        assert forall|q: int| 0 <= q < d2.len() - (dr0 - t.0) implies #[trigger] d2.subrange(
            dr0 - t.0,
            d2.len() as int,
        )[q] == (x.subrange(pe, pe + t.0) + lit_area(x, ts))[q] by {
            if q >= t.0 {
                assert(d0.subrange(dr0, d0.len() as int)[q - t.0] == d0[dr0 + (q - t.0)]);
            }
        }
    }
}

/// Writes the control bytes and literal run of one heavy token whose match
/// length has code `match_len_code`.
pub(crate) fn emit_heavy_token(
    dst: &mut [u8],
    dlpos: &mut usize,
    drpos: &mut usize,
    src: &[u8],
    lit: usize,
    lit_len: usize,
    match_len_code: usize,
    dis: usize,
    Ghost(ts): Ghost<Seq<Token>>,
)
    requires
        heavy_writer_ok(src@, old(dst)@, *old(dlpos) as int, *old(drpos) as int, ts),
        lit == parse_end(ts),
        1 <= match_len_code < 64,
        heavy_token_ok(
            src@,
            lit as int,
            (lit_len as int, heavy_len_of(match_len_code as int), dis as int),
        ),
        lit + lit_len + heavy_len_of(match_len_code as int) <= src.len() - HEAVY_LITERAL_SUFFIX,
    ensures
        heavy_writer_ok(
            src@,
            final(dst)@,
            *final(dlpos) as int,
            *final(drpos) as int,
            ts.push((lit_len as int, heavy_len_of(match_len_code as int), dis as int)),
        ),
        final(dst).len() == old(dst).len(),
{
    let ghost t: Token = (lit_len as int, heavy_len_of(match_len_code as int), dis as int);
    let ghost tb = heavy_token_bytes(t);
    let ghost d0 = dst@;
    let ghost dl0 = *dlpos as int;
    let ghost dr0 = *drpos as int;
    let ghost ext = if lit_len >= 63 { 1 + (lit_len - 63) / 255 } else { 0int };
    proof {
        lemma_heavy_token_room(
            (*dlpos - 16) + (dst.len() - *drpos),
            lit as int,
            lit_len as int,
            t.1,
            ext,
        );
        assert(tb.len() == 4 + ext);
    }
    *dlpos = write_heavy_token_bytes(dst, *dlpos, lit_len, match_len_code, dis);
    *drpos -= lit_len;
    copy_from_src(src, lit, dst, *drpos, lit_len);
    proof {
        lemma_heavy_emit_state(src@, d0, dl0, dr0, ts, t, dst@);
    }
}

/// The room a heavy stream of an `n`-byte input needs.
pub open spec fn heavy_room(n: int) -> int {
    EXT_HEADER_SIZE + n + n / 32 + 64
}

/// Writes an input as a heavy stream with no tokens: the header, the suffix
/// count when the input is large, then the input itself.
pub fn heavy_raw(src: &[u8], dst: &mut [u8]) -> (r: usize)
    requires
        old(dst).len() >= EXT_HEADER_SIZE + src.len(),
    ensures
        r <= final(dst).len(),
        final(dst).len() == old(dst).len(),
        src.len() <= HEAVY_SMALL_LIM ==> final(dst)@.take(r as int) == heavy_raw_stream(src@),
        src.len() > HEAVY_SMALL_LIM ==> final(dst)@.take(r as int) == heavy_stream(
            src@,
            Seq::<Token>::empty(),
            false,
        ),
{
    let src_size = src.len();
    let flags = FLAG_HEAVY as u64;
    write_u64_le(dst, 0, (src_size as u64) | (flags << FLAG_SHIFT));
    let ghost h = heavy_header(src_size as int, false);
    proof {
        assert(dst@.take(8) =~= h);
    }
    let mut dlpos = HEADER_SIZE;

    if src_size <= HEAVY_SMALL_LIM {
        copy_from_src(src, 0, dst, dlpos, src_size);
        assert(dst@.take(8 + src_size) =~= heavy_raw_stream(src@));
        return dlpos + src_size;
    }

    write_u64_le(dst, dlpos, src_size as u64);
    dlpos += 8;
    copy_from_src(src, 0, dst, dlpos, src_size);
    proof {
        let e = Seq::<Token>::empty();
        assert(heavy_ctrl(e) =~= Seq::<u8>::empty());
        assert(lit_area(src@, e) =~= Seq::<u8>::empty());
        assert(src@.subrange(0, src_size as int) =~= src@);
        assert(dst@.take(16 + src_size) =~= heavy_stream(src@, e, false));
    }
    dlpos + src_size
}

/// Writes the header of a large heavy stream and gives the writer state of
/// an empty token sequence.
pub(crate) fn start_heavy(src: &[u8], dst: &mut [u8])
    requires
        src.len() > HEAVY_SMALL_LIM,
        old(dst).len() >= heavy_room(src.len() as int),
    ensures
        heavy_writer_ok(src@, final(dst)@, 16, final(dst).len() as int, Seq::empty()),
        final(dst).len() == old(dst).len(),
{
    let header = (src.len() as u64) | ((FLAG_HEAVY as u64) << FLAG_SHIFT);
    write_u64_le(dst, 0, header);
    proof {
        let d = dst@;
        let e = Seq::<Token>::empty();
        assert(d.subrange(16, 16) =~= heavy_ctrl(e));
        assert(d.subrange(d.len() as int, d.len() as int) =~= lit_area(src@, e));
    }
}

/// The finished heavy stream: the literal stream moved down behind the
/// control stream, the suffix count, the literal suffix, and the header with
/// its flags.
proof fn lemma_heavy_finish_state(
    x: Seq<u8>,
    d0: Seq<u8>,
    dl0: int,
    dr0: int,
    ts: Seq<Token>,
    cond: bool,
    d4: Seq<u8>,
)
    requires
        heavy_writer_ok(x, d0, dl0, dr0, ts),
        d4 == written(
            spliced(
                written(
                    spliced(d0, dl0, d0, dr0, d0.len() - dr0),
                    8,
                    u64_le((x.len() - parse_end(ts)) as u64),
                    8,
                ),
                dl0 + (d0.len() - dr0),
                x,
                parse_end(ts),
                x.len() - parse_end(ts),
            ),
            0,
            heavy_header(x.len() as int, cond),
            8,
        ),
    ensures
        dl0 + (d0.len() - dr0) + (x.len() - parse_end(ts)) <= d0.len(),
        d4.len() == d0.len(),
        d4.take(dl0 + (d0.len() - dr0) + (x.len() - parse_end(ts))) == heavy_stream(x, ts, cond),
{
    let pe = parse_end(ts);
    let n = x.len() as int;
    let al = d0.len() - dr0;
    let end = dl0 + al + (n - pe);
    assert(end <= d0.len()) by (nonlinear_arith)
        requires
            end == dl0 + al + (n - pe),
            (dl0 - 16) + al <= pe + pe / 32,
            d0.len() >= EXT_HEADER_SIZE + n + n / 32,
            0 <= pe <= n,
    ;
    let s = heavy_stream(x, ts, cond);
    lemma_u64_le_len(n, cond);
    assert(s.len() == end);
    assert forall|q: int| 0 <= q < end implies #[trigger] d4.take(end)[q] == s[q] by {
        if q < 8 {
        } else if q < 16 {
        } else if q < dl0 {
            assert(d0.subrange(16, dl0)[q - 16] == d0[q]);
        } else if q < dl0 + al {
            assert(d0.subrange(dr0, d0.len() as int)[q - dl0] == d0[dr0 + (q - dl0)]);
        } else {
        }
    }
    assert(d4.take(end) =~= s);
}

/// A heavy header is eight bytes.
proof fn lemma_u64_le_len(n: int, cond: bool)
    ensures
        heavy_header(n, cond).len() == 8,
{
}

/// Completes a heavy stream: moves the literal stream behind the control
/// stream, writes the suffix count and the literal suffix, and writes the
/// header with the flag chosen from the token counts. Returns the stream's
/// length.
pub(crate) fn finish_heavy(
    src: &[u8],
    dst: &mut [u8],
    dst_cap: usize,
    dlpos: usize,
    drpos: usize,
    literal_suffix_pos: usize,
    lit: usize,
    tokens: usize,
    long_matches: usize,
    Ghost(ts): Ghost<Seq<Token>>,
) -> (r: usize)
    requires
        heavy_writer_ok(src@, old(dst)@, dlpos as int, drpos as int, ts),
        lit == parse_end(ts),
        tokens == ts.len(),
        long_matches == long_count(ts),
        dst_cap == old(dst).len(),
        literal_suffix_pos == HEADER_SIZE,
    ensures
        r <= final(dst).len(),
        final(dst)@.len() == old(dst)@.len(),
        final(dst)@.take(r as int) == heavy_stream(src@, ts, heavy_cond(ts)),
{
    let ghost d0 = dst@;
    let mut dlpos = dlpos;
    if drpos < dst_cap {
        let lit_data_len = dst_cap - drpos;
        move_within(dst, drpos, dlpos, lit_data_len);
        dlpos += lit_data_len;
    } else {
        assert(dst@ =~= spliced(d0, dlpos as int, d0, drpos as int, 0));
    }
    let literal_suffix_cnt = src.len() - lit;
    proof {
        assert(dlpos + literal_suffix_cnt <= dst.len()) by (nonlinear_arith)
            requires
                dlpos + literal_suffix_cnt == 16 + (dlpos - 16) + literal_suffix_cnt,
                (dlpos - 16) <= lit + lit / 32,
                dst.len() >= EXT_HEADER_SIZE + src.len() + src.len() / 32,
                literal_suffix_cnt == src.len() - lit,
                lit <= src.len(),
        ;
    }
    write_u64_le(dst, literal_suffix_pos, literal_suffix_cnt as u64);
    copy_from_src(src, lit, dst, dlpos, literal_suffix_cnt);
    dlpos += literal_suffix_cnt;

    let cond = tokens != 0 && (long_matches as u128) * 100 < 14 * (tokens as u128);
    let flags = (FLAG_HEAVY | if cond {
        FLAG_HEAVY_COND
    } else {
        0
    }) as u64;
    let header = (src.len() as u64) | (flags << FLAG_SHIFT);
    proof {
        assert(cond == heavy_cond(ts));
        assert(1u8 | 2u8 == 3u8) by (bit_vector);
        assert(1u8 | 0u8 == 1u8) by (bit_vector);
    }
    write_u64_le(dst, 0, header);
    proof {
        lemma_heavy_finish_state(
            src@,
            d0,
            dlpos - (d0.len() - drpos) - literal_suffix_cnt,
            drpos as int,
            ts,
            cond,
            dst@,
        );
    }
    dlpos
}

} // verus!
