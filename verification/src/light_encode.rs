//! The light-format encoders: greedy parsers over hash-table match probes,
//! and the writer that lays their tokens out as a light stream.
use vstd::prelude::*;
use crate::format::{
    EXT_HEADER_SIZE, HASHTAB_LAG, HEADER_SIZE, LITERAL_SUFFIX, MAX_DISTANCE, MAX_MATCH_LEN,
    MIN_DISTANCE, MIN_MATCH_LEN, SMALL_LIM, TOKEN_LIT_MAX, TOKEN_MATCH_BITS,
};
use crate::light_format::{
    ext_bytes, is_light_encoding, light_ctrl, light_parse_ok, light_stream,
    light_token_bytes, light_token_ok, lit_area, parse_end, raw_stream, u64_le, Token,
};
use crate::match_find::{
    batch_insert_latest6, batch_insert_ring, batch_insert_swift, find_latest_match6,
    find_ring_match, find_swift_match, lemma_table_fresh, probe_ok, table_ok, LatestHashTable,
    RingHashTable, HASH_SIZE,
};
use crate::primitives::{copy_from_src, spliced};
use crate::greedy_parse::{
    blitz_parse, blitz_select, greedy_finish, swift_parse, swift_select, greedy_progress, greedy_run, greedy_step, keen_look, ring_parse, ring_select,
    GreedyKind, GreedyState,
};

verus! {

/// The state of a light stream being written into `d` for input `x`: the
/// header is in place, the control stream of `ts` grows from byte 16, the
/// literal stream of `ts` grows down from the end, and what is written so far
/// leaves room for the rest.
pub open spec fn light_writer_ok(x: Seq<u8>, d: Seq<u8>, dlpos: int, drpos: int, ts: Seq<Token>) -> bool {
    &&& light_parse_ok(x, ts)
    &&& x.len() > SMALL_LIM
    &&& d.len() >= EXT_HEADER_SIZE + x.len() + x.len() / 255
    &&& d.len() <= usize::MAX
    &&& 0 <= parse_end(ts) <= x.len() - LITERAL_SUFFIX
    &&& dlpos == 16 + light_ctrl(ts).len()
    &&& drpos == d.len() - lit_area(x, ts).len()
    &&& (dlpos - 16) + (d.len() - drpos) <= parse_end(ts) + parse_end(ts) / 255
    &&& d.subrange(0, 8) == u64_le(x.len() as u64)
    &&& d.subrange(16, dlpos) == light_ctrl(ts)
    &&& d.subrange(drpos, d.len() as int) == lit_area(x, ts)
}

/// Writing one more token fits in the room the writer keeps.
proof fn lemma_token_room(used: int, pe: int, lit_len: int, ml: int, ext: int)
    requires
        0 <= used <= pe + pe / 255,
        0 <= pe,
        0 <= lit_len,
        MIN_MATCH_LEN <= ml,
        ext == (if lit_len >= 7 { 1 + (lit_len - 7) / 255 } else { 0 }),
    ensures
        used + 3 + ext + lit_len <= (pe + lit_len + ml) + (pe + lit_len + ml) / 255,
{
    assert((pe + lit_len + ml) / 255 >= pe / 255 + lit_len / 255) by (nonlinear_arith)
        requires
            0 <= pe,
            0 <= lit_len,
            0 <= ml,
    ;
    if lit_len >= 7 {
        assert((lit_len - 7) / 255 <= lit_len / 255) by (nonlinear_arith)
            requires
                lit_len >= 7,
        ;
    }
}

/// Appending a token to a sequence appends its control bytes, its span and
/// its literal run.
pub proof fn lemma_push_token(x: Seq<u8>, ts: Seq<Token>, t: Token)
    ensures
        light_ctrl(ts.push(t)) == light_ctrl(ts) + light_token_bytes(t),
        parse_end(ts.push(t)) == parse_end(ts) + t.0 + t.1,
        lit_area(x, ts.push(t)) == x.subrange(parse_end(ts), parse_end(ts) + t.0) + lit_area(
            x,
            ts,
        ),
        light_parse_ok(x, ts.push(t)) == (light_parse_ok(x, ts) && light_token_ok(
            x,
            parse_end(ts),
            t,
        )),
{
    assert(ts.push(t).drop_last() =~= ts);
}

/// `d0` with its bytes from `start` replaced by the first `j` bytes of `tb`.
pub open spec fn written(d0: Seq<u8>, start: int, tb: Seq<u8>, j: int) -> Seq<u8> {
    d0.take(start) + tb.take(j) + d0.skip(start + j)
}

/// Writing byte `j` of `tb` extends what has been written by one byte.
pub proof fn lemma_written_step(d0: Seq<u8>, start: int, tb: Seq<u8>, j: int)
    requires
        0 <= start,
        0 <= j < tb.len(),
        start + tb.len() <= d0.len(),
    ensures
        written(d0, start, tb, j).update(start + j, tb[j]) == written(d0, start, tb, j + 1),
        written(d0, start, tb, j).len() == d0.len(),
{
    assert(written(d0, start, tb, j).update(start + j, tb[j]) =~= written(d0, start, tb, j + 1));
}

/// Writes the control bytes of token `t` at `pos` and returns the position
/// after them.
fn write_token_bytes(
    dst: &mut [u8],
    pos: usize,
    lit_len: usize,
    match_len: usize,
    dis: usize,
) -> (end: usize)
    requires
        MIN_MATCH_LEN <= match_len <= MAX_MATCH_LEN,
        MIN_DISTANCE <= dis <= MAX_DISTANCE,
        pos + light_token_bytes((lit_len as int, match_len as int, dis as int)).len() <= old(
            dst,
        ).len(),
    ensures
        end == pos + light_token_bytes((lit_len as int, match_len as int, dis as int)).len(),
        final(dst)@ == written(
            old(dst)@,
            pos as int,
            light_token_bytes((lit_len as int, match_len as int, dis as int)),
            light_token_bytes((lit_len as int, match_len as int, dis as int)).len() as int,
        ),
{
    let ghost t: Token = (lit_len as int, match_len as int, dis as int);
    let ghost tb = light_token_bytes(t);
    let ghost d0 = dst@;
    assert(dst@ =~= written(d0, pos as int, tb, 0));
    let norm_match = match_len - (MIN_MATCH_LEN - 1);
    let lrem = if lit_len < TOKEN_LIT_MAX {
        lit_len
    } else {
        TOKEN_LIT_MAX
    };
    let tok = ((lrem as u8) << TOKEN_MATCH_BITS) | (norm_match as u8);
    let dbytes = (dis - MIN_DISTANCE) as u16;
    let lo = (dbytes & 0xff) as u8;
    let hi = (dbytes >> 8) as u8;
    proof {
        let a = lrem as u8;
        let b = norm_match as u8;
        assert(a < 8 && b < 32 ==> (a << 5u32) | b == a * 32 + b) by (bit_vector);
        assert(dbytes & 0xff == dbytes % 256) by (bit_vector);
        assert(dbytes >> 8u16 == dbytes / 256) by (bit_vector);
        assert(tok == tb[0]);
        assert(lo == tb[1]);
        assert(hi == tb[2]);
        lemma_written_step(d0, pos as int, tb, 0);
        lemma_written_step(d0, pos as int, tb, 1);
        lemma_written_step(d0, pos as int, tb, 2);
    }
    dst[pos] = tok;
    dst[pos + 1] = lo;
    dst[pos + 2] = hi;
    let mut at = pos + 3;
    if lit_len >= TOKEN_LIT_MAX {
        let ghost r = lit_len - TOKEN_LIT_MAX;
        let ghost e = ext_bytes(r);
        assert(tb == tb.take(3) + e);
        let mut remaining = lit_len - TOKEN_LIT_MAX;
        while remaining >= 255
            invariant
                remaining >= 0,
                r >= 0,
                (at - pos - 3) * 255 + remaining == r,
                pos + 3 <= at <= pos + 3 + r / 255,
                tb == light_token_bytes(t),
                tb == tb.take(3) + e,
                e == ext_bytes(r),
                pos + tb.len() <= d0.len(),
                tb.len() == 3 + r / 255 + 1,
                dst@ == written(d0, pos as int, tb, at - pos),
            decreases remaining,
        {
            proof {
                let k = at - pos - 3;
                assert(k < r / 255) by (nonlinear_arith)
                    requires
                        k * 255 + remaining == r,
                        remaining >= 255,
                        k >= 0,
                ;
                assert(tb[3 + k] == e[k]);
                lemma_written_step(d0, pos as int, tb, at - pos);
            }
            dst[at] = 255;
            at += 1;
            remaining -= 255;
        }
        proof {
            let k = at - pos - 3;
            assert(k == r / 255 && remaining == r % 255) by (nonlinear_arith)
                requires
                    k * 255 + remaining == r,
                    0 <= remaining < 255,
                    k >= 0,
            ;
            assert(tb[3 + k] == e[k]);
            lemma_written_step(d0, pos as int, tb, at - pos);
        }
        dst[at] = remaining as u8;
        at += 1;
    }
    at
}

/// The writer state after the bytes of token `t` are written at `dl0` and
/// its literal run just below `dr0`.
proof fn lemma_emit_state(
    x: Seq<u8>,
    d0: Seq<u8>,
    dl0: int,
    dr0: int,
    ts: Seq<Token>,
    t: Token,
    d2: Seq<u8>,
)
    requires
        light_writer_ok(x, d0, dl0, dr0, ts),
        light_token_ok(x, parse_end(ts), t),
        parse_end(ts) + t.0 + t.1 <= x.len() - LITERAL_SUFFIX,
        (dl0 - 16) + (d0.len() - dr0) + light_token_bytes(t).len() + t.0 <= (parse_end(ts) + t.0
            + t.1) + (parse_end(ts) + t.0 + t.1) / 255,
        d2 == spliced(
            written(d0, dl0, light_token_bytes(t), light_token_bytes(t).len() as int),
            dr0 - t.0,
            x,
            parse_end(ts),
            t.0,
        ),
    ensures
        light_writer_ok(x, d2, dl0 + light_token_bytes(t).len(), dr0 - t.0, ts.push(t)),
{
    let tb = light_token_bytes(t);
    let d1 = written(d0, dl0, tb, tb.len() as int);
    let pe = parse_end(ts);
    lemma_push_token(x, ts, t);
    assert(tb.take(tb.len() as int) =~= tb);
    assert(dl0 + tb.len() <= dr0 - t.0);
    assert(d2.subrange(0, 8) =~= d0.subrange(0, 8));
    assert(d2.subrange(16, dl0 + tb.len()) =~= light_ctrl(ts) + tb) by {
        assert(d0.subrange(16, dl0) =~= light_ctrl(ts));
        assert forall|q: int| 0 <= q < dl0 + tb.len() - 16 implies #[trigger] d2.subrange(
            16,
            dl0 + tb.len(),
        )[q] == (light_ctrl(ts) + tb)[q] by {
            if q < dl0 - 16 {
                assert(d0.subrange(16, dl0)[q] == d0[16 + q]);
            }
        }
    }
    assert(d2.subrange(dr0 - t.0, d2.len() as int) =~= x.subrange(pe, pe + t.0) + lit_area(x, ts))
        by {
        assert(d0.subrange(dr0, d0.len() as int) =~= lit_area(x, ts));
        assert forall|q: int| 0 <= q < d2.len() - (dr0 - t.0) implies #[trigger] d2.subrange(
            dr0 - t.0,
            d2.len() as int,
        )[q] == (x.subrange(pe, pe + t.0) + lit_area(x, ts))[q] by {
            if q >= t.0 {
                assert(d0.subrange(dr0, d0.len() as int)[q - t.0] == d0[dr0 + (q - t.0)]);
            }
        }
    }
}

/// Writes the control bytes and literal run of one token.
pub(crate) fn emit_token(
    dst: &mut [u8],
    dlpos: &mut usize,
    drpos: &mut usize,
    src: &[u8],
    lit: usize,
    lit_len: usize,
    match_len: usize,
    dis: usize,
    Ghost(ts): Ghost<Seq<Token>>,
)
    requires
        light_writer_ok(src@, old(dst)@, *old(dlpos) as int, *old(drpos) as int, ts),
        lit == parse_end(ts),
        light_token_ok(src@, lit as int, (lit_len as int, match_len as int, dis as int)),
        lit + lit_len + match_len <= src.len() - LITERAL_SUFFIX,
    ensures
        light_writer_ok(
            src@,
            final(dst)@,
            *final(dlpos) as int,
            *final(drpos) as int,
            ts.push((lit_len as int, match_len as int, dis as int)),
        ),
        final(dst).len() == old(dst).len(),
{
    let ghost t: Token = (lit_len as int, match_len as int, dis as int);
    let ghost tb = light_token_bytes(t);
    let ghost d0 = dst@;
    let ghost dl0 = *dlpos as int;
    let ghost dr0 = *drpos as int;
    let ghost ext = if lit_len >= 7 { 1 + (lit_len - 7) / 255 } else { 0int };
    proof {
        lemma_token_room(
            (*dlpos - 16) + (dst.len() - *drpos),
            lit as int,
            lit_len as int,
            match_len as int,
            ext,
        );
        assert(tb.len() == 3 + ext);
    }
    *dlpos = write_token_bytes(dst, *dlpos, lit_len, match_len, dis);
    *drpos -= lit_len;
    copy_from_src(src, lit, dst, *drpos, lit_len);
    proof {
        lemma_emit_state(src@, d0, dl0, dr0, ts, t, dst@);
    }
}

/// Writes `v` as eight little-endian bytes at `pos`.
pub(crate) fn write_u64_le(dst: &mut [u8], pos: usize, v: u64)
    requires
        pos + 8 <= old(dst).len(),
    ensures
        final(dst)@ == written(old(dst)@, pos as int, u64_le(v), 8),
{
    let ghost d0 = dst@;
    let ghost tb = u64_le(v);
    proof {
        assert(dst@ =~= written(d0, pos as int, tb, 0));
        lemma_written_step(d0, pos as int, tb, 0);
        lemma_written_step(d0, pos as int, tb, 1);
        lemma_written_step(d0, pos as int, tb, 2);
        lemma_written_step(d0, pos as int, tb, 3);
        lemma_written_step(d0, pos as int, tb, 4);
        lemma_written_step(d0, pos as int, tb, 5);
        lemma_written_step(d0, pos as int, tb, 6);
        lemma_written_step(d0, pos as int, tb, 7);
    }
    dst[pos] = (v & 0xff) as u8;
    dst[pos + 1] = ((v >> 8) & 0xff) as u8;
    dst[pos + 2] = ((v >> 16) & 0xff) as u8;
    dst[pos + 3] = ((v >> 24) & 0xff) as u8;
    dst[pos + 4] = ((v >> 32) & 0xff) as u8;
    dst[pos + 5] = ((v >> 40) & 0xff) as u8;
    dst[pos + 6] = ((v >> 48) & 0xff) as u8;
    dst[pos + 7] = ((v >> 56) & 0xff) as u8;
}

/// Moves `len` bytes within `dst` from `from` down to `to`.
pub(crate) fn move_within(dst: &mut [u8], from: usize, to: usize, len: usize)
    requires
        to <= from,
        from + len <= old(dst).len(),
    ensures
        final(dst)@ == spliced(old(dst)@, to as int, old(dst)@, from as int, len as int),
{
    let ghost d0 = dst@;
    let mut i: usize = 0;
    while i < len
        invariant
            i <= len,
            to <= from,
            from + len <= dst.len(),
            dst@.len() == d0.len(),
            dst@ == spliced(d0, to as int, d0, from as int, i as int),
        decreases len - i,
    {
        let b = dst[from + i];
        assert(b == d0[from + i]);
        dst[to + i] = b;
        i = i + 1;
        assert(dst@ =~= spliced(d0, to as int, d0, from as int, i as int));
    }
}

/// The finished stream: the literal stream moved down behind the control
/// stream, then the suffix count and the literal suffix.
proof fn lemma_finish_state(
    x: Seq<u8>,
    d0: Seq<u8>,
    dl0: int,
    dr0: int,
    ts: Seq<Token>,
    d3: Seq<u8>,
)
    requires
        light_writer_ok(x, d0, dl0, dr0, ts),
        d3 == spliced(
            written(spliced(d0, dl0, d0, dr0, d0.len() - dr0), 8, u64_le((x.len() - parse_end(ts)) as u64), 8),
            dl0 + (d0.len() - dr0),
            x,
            parse_end(ts),
            x.len() - parse_end(ts),
        ),
    ensures
        dl0 + (d0.len() - dr0) + (x.len() - parse_end(ts)) <= d0.len(),
        d3.len() == d0.len(),
        d3.take(dl0 + (d0.len() - dr0) + (x.len() - parse_end(ts))) == light_stream(x, ts),
{
    let pe = parse_end(ts);
    let n = x.len() as int;
    let al = d0.len() - dr0;
    let end = dl0 + al + (n - pe);
    let c = light_ctrl(ts);
    let a = lit_area(x, ts);
    let h1 = u64_le(n as u64);
    let h2 = u64_le((n - pe) as u64);
    assert(end <= d0.len()) by (nonlinear_arith)
        requires
            end == dl0 + al + (n - pe),
            (dl0 - 16) + al <= pe + pe / 255,
            d0.len() >= EXT_HEADER_SIZE + n + n / 255,
            0 <= pe <= n,
    ;
    let s = light_stream(x, ts);
    assert(s.len() == end);
    assert forall|q: int| 0 <= q < end implies #[trigger] d3.take(end)[q] == s[q] by {
        if q < 8 {
            assert(d0.subrange(0, 8)[q] == d0[q]);
        } else if q < 16 {
        } else if q < dl0 {
            assert(d0.subrange(16, dl0)[q - 16] == d0[q]);
        } else if q < dl0 + al {
            assert(d0.subrange(dr0, d0.len() as int)[q - dl0] == d0[dr0 + (q - dl0)]);
        } else {
        }
    }
    assert(d3.take(end) =~= s);
}

/// Completes a light stream: moves the literal stream behind the control
/// stream, writes the suffix count, and appends the literal suffix. Returns
/// the stream's length.
pub(crate) fn finish_light(
    src: &[u8],
    dst: &mut [u8],
    dst_cap: usize,
    dlpos: usize,
    drpos: usize,
    literal_suffix_pos: usize,
    lit: usize,
    Ghost(ts): Ghost<Seq<Token>>,
) -> (r: usize)
    requires
        light_writer_ok(src@, old(dst)@, dlpos as int, drpos as int, ts),
        lit == parse_end(ts),
        dst_cap == old(dst).len(),
        literal_suffix_pos == HEADER_SIZE,
    ensures
        r <= final(dst).len(),
        final(dst)@.len() == old(dst)@.len(),
        final(dst)@.take(r as int) == light_stream(src@, ts),
{
    let ghost d0 = dst@;
    let mut dlpos = dlpos;
    if drpos < dst_cap {
        let lit_data_len = dst_cap - drpos;
        move_within(dst, drpos, dlpos, lit_data_len);
        dlpos += lit_data_len;
    } else {
        assert(dst@ =~= spliced(d0, dlpos as int, d0, drpos as int, 0));
    }
    let literal_suffix_cnt = src.len() - lit;
    proof {
        assert(dlpos + literal_suffix_cnt <= dst.len()) by (nonlinear_arith)
            requires
                dlpos == 16 + (dlpos - 16),
                dlpos + literal_suffix_cnt == 16 + (dlpos - 16) + literal_suffix_cnt,
                (dlpos - 16) <= lit + lit / 255,
                dst.len() >= EXT_HEADER_SIZE + src.len() + src.len() / 255,
                literal_suffix_cnt == src.len() - lit,
                lit <= src.len(),
        ;
    }
    write_u64_le(dst, literal_suffix_pos, literal_suffix_cnt as u64);
    copy_from_src(src, lit, dst, dlpos, literal_suffix_cnt);
    dlpos += literal_suffix_cnt;
    proof {
        lemma_finish_state(src@, d0, dlpos - (d0.len() - drpos) - literal_suffix_cnt, drpos as int, ts, dst@);
    }
    dlpos
}

/// The room a light stream of an `n`-byte input needs.
pub open spec fn light_room(n: int) -> int {
    if n <= SMALL_LIM {
        HEADER_SIZE + n
    } else {
        EXT_HEADER_SIZE + n + n / 255 + 16
    }
}

/// Writes the raw stream of a small input: its size, then its bytes.
pub(crate) fn store_raw(src: &[u8], dst: &mut [u8]) -> (r: usize)
    requires
        src.len() <= SMALL_LIM,
        old(dst).len() >= HEADER_SIZE + src.len(),
    ensures
        r <= final(dst).len(),
        final(dst).len() == old(dst).len(),
        final(dst)@.take(r as int) == raw_stream(src@),
{
    let src_size = src.len();
    write_u64_le(dst, 0, src_size as u64);
    copy_from_src(src, 0, dst, HEADER_SIZE, src_size);
    assert(dst@.take(8 + src_size) =~= raw_stream(src@));
    HEADER_SIZE + src_size
}

/// Writes the header of a light stream and gives the writer state of an
/// empty token sequence.
pub(crate) fn start_light(src: &[u8], dst: &mut [u8])
    requires
        src.len() > SMALL_LIM,
        old(dst).len() >= light_room(src.len() as int),
    ensures
        light_writer_ok(src@, final(dst)@, 16, final(dst).len() as int, Seq::empty()),
        final(dst).len() == old(dst).len(),
{
    write_u64_le(dst, 0, src.len() as u64);
    proof {
        let d = dst@;
        let e = Seq::<Token>::empty();
        assert(d.subrange(0, 8) =~= u64_le(src.len() as u64));
        assert(d.subrange(16, 16) =~= light_ctrl(e));
        assert(d.subrange(d.len() as int, d.len() as int) =~= lit_area(src@, e));
    }
}

/// A match of `ml` bytes at `pos` repeating the bytes at `lst`, at a legal
/// light distance, after `lit` and ending by `mel`.
pub open spec fn match_ok(x: Seq<u8>, pos: int, ml: int, lst: int, lit: int, mel: int) -> bool {
    &&& MIN_MATCH_LEN <= ml <= MAX_MATCH_LEN
    &&& lit <= pos
    &&& pos + ml <= mel
    &&& lst + MIN_DISTANCE <= pos <= lst + MAX_DISTANCE
    &&& forall|k: int| 0 <= k < ml ==> #[trigger] x[pos + k] == x[lst + k]
}

/// How many bytes a match of `ml` bytes at `pos` repeating `lst` extends
/// backwards: while the byte before it repeats the byte before `lst`, it is
/// not past `lit` and under 32 bytes.
#[verifier::opaque]
pub open spec fn back_steps(s: Seq<u8>, lit: int, pos: int, lst: int, ml: int) -> int
    decreases pos,
{
    if 0 <= lit < pos && lst > 0 && ml < MAX_MATCH_LEN && s[pos - 1] == s[lst - 1] {
        1 + back_steps(s, lit, pos - 1, lst - 1, ml + 1)
    } else {
        0
    }
}

/// Extends a match backwards while the byte before it repeats too, up to 32
/// bytes and not past `lit`.
fn extend_backward(src: &[u8], lit: usize, pos: &mut usize, lst: &mut usize, match_len: &mut usize)
    requires
        match_ok(src@, *old(pos) as int, *old(match_len) as int, *old(lst) as int, lit as int, src.len() as int),
    ensures
        match_ok(src@, *final(pos) as int, *final(match_len) as int, *final(lst) as int, lit as int, src.len() as int),
        *final(pos) + *final(match_len) == *old(pos) + *old(match_len),
        *final(pos) <= *old(pos),
        *final(pos) - *final(lst) == *old(pos) - *old(lst),
        *final(pos) == *old(pos) - back_steps(
            src@,
            lit as int,
            *old(pos) as int,
            *old(lst) as int,
            *old(match_len) as int,
        ),
{
    while *pos > lit && *lst > 0 && *match_len < MAX_MATCH_LEN && src[*pos - 1] == src[*lst - 1]
        invariant
            match_ok(src@, *pos as int, *match_len as int, *lst as int, lit as int, src.len() as int),
            *pos + *match_len == *old(pos) + *old(match_len),
            *pos <= *old(pos),
            *pos - *lst == *old(pos) - *old(lst),
            back_steps(src@, lit as int, *old(pos) as int, *old(lst) as int, *old(match_len) as int)
                == (*old(pos) - *pos) + back_steps(
                src@,
                lit as int,
                *pos as int,
                *lst as int,
                *match_len as int,
            ),
        decreases *pos,
    {
        let ghost p0 = *pos;
        let ghost l0 = *lst;
        let ghost m0 = *match_len;
        proof {
            reveal(back_steps);
        }
        *pos -= 1;
        *lst -= 1;
        *match_len += 1;
        proof {
            assert forall|k: int| 0 <= k < *match_len implies #[trigger] src@[*pos + k] == src@[*lst
                + k] by {
                if k > 0 {
                    assert(src@[p0 + (k - 1)] == src@[l0 + (k - 1)]);
                }
            }
        }
    }
    proof {
        reveal(back_steps);
    }
}

/// The level -1 encoder: probes a six-byte hash every other position and
/// takes the first match long enough, or the best one seen when literals
/// pile up.
#[verifier::rlimit(60)]
pub(crate) fn blitz_compress(src: &[u8], dst: &mut [u8]) -> (r: usize)
    requires
        old(dst).len() >= light_room(src.len() as int),
        src.len() <= isize::MAX,
    ensures
        r <= final(dst).len(),
        final(dst).len() == old(dst).len(),
        is_light_encoding(src@, final(dst)@.take(r as int)),
        src.len() <= SMALL_LIM ==> final(dst)@.take(r as int) == raw_stream(src@),
        src.len() > SMALL_LIM ==> final(dst)@.take(r as int) == light_stream(src@, blitz_parse(src@)),
{
    let src_size = src.len();
    if src_size <= SMALL_LIM {
        return store_raw(src, dst);
    }
    start_light(src, dst);
    let literal_suffix_pos = HEADER_SIZE;
    let mut dlpos: usize = EXT_HEADER_SIZE;
    let dst_cap = dst.len();
    let mut drpos = dst_cap;
    let match_end_limit = src_size - LITERAL_SUFFIX;
    let mut ht = LatestHashTable::new();
    let mut pos: usize = 0;
    let mut hpos: usize = 0;
    let mut lit: usize = 0;
    let mut miss_run: usize = 0;
    let mut cand_pos: usize = 0;
    let mut cand_len: usize = 0;
    let mut cand_lst: usize = 0;
    let ghost mut ts: Seq<Token> = Seq::empty();
    proof {
        assert(blitz_parse(src@) == greedy_run(src@, GreedyKind::Blitz, GreedyState {
            pos: pos as int,
            hpos: hpos as int,
            lit: lit as int,
            miss_run: miss_run as int,
            cand_pos: cand_pos as int,
            cand_len: cand_len as int,
            cand_lst: cand_lst as int,
            regime: 0,
            ents: ht@,
            ents4: Seq::empty(),
            curs: Seq::empty(),
            ts,
        }));
    }
    while pos + MAX_MATCH_LEN <= match_end_limit
        invariant
            src_size == src.len(),
            src_size > SMALL_LIM,
            src_size <= isize::MAX,
            match_end_limit == src_size - LITERAL_SUFFIX,
            dst_cap == dst.len(),
            light_writer_ok(src@, dst@, dlpos as int, drpos as int, ts),
            lit == parse_end(ts),
            lit <= pos,
            pos <= src_size + src_size / 32,
            ht@.len() == HASH_SIZE,
            table_ok(ht@, hpos as int),
            hpos <= pos,
            hpos == 0 || hpos + HASHTAB_LAG <= pos,
            miss_run <= pos,
            cand_len != 0 ==> match_ok(src@, cand_pos as int, cand_len as int, cand_lst as int, lit as int, match_end_limit as int),
            greedy_run(src@, GreedyKind::Blitz, GreedyState {
                pos: pos as int,
                hpos: hpos as int,
                lit: lit as int,
                miss_run: miss_run as int,
                cand_pos: cand_pos as int,
                cand_len: cand_len as int,
                cand_lst: cand_lst as int,
                regime: 0,
                ents: ht@,
                ents4: Seq::empty(),
                curs: Seq::empty(),
                ts,
            }) == blitz_parse(src@),
        decreases (if match_end_limit >= pos { match_end_limit - pos } else { 0 }), match_end_limit - lit,
    {
        let ghost st0 = GreedyState {
            pos: pos as int,
            hpos: hpos as int,
            lit: lit as int,
            miss_run: miss_run as int,
            cand_pos: cand_pos as int,
            cand_len: cand_len as int,
            cand_lst: cand_lst as int,
            regime: 0,
            ents: ht@,
            ents4: Seq::empty(),
            curs: Seq::empty(),
            ts,
        };
        batch_insert_latest6(src, &mut ht, &mut hpos, pos);
        let ghost hp1 = hpos as int;
        let ghost ents1 = ht@;
        let (mut match_len, mut lst) = if pos > HASHTAB_LAG {
            proof {
                lemma_table_fresh(ht@, hpos as int, pos as int);
            }
            find_latest_match6(src, &ht, pos)
        } else {
            (0, 0)
        };
        let pos_safe_bound = pos;
        let pend = pos - lit;
        let mut accept = match_len >= 9;
        let fire = pend + 2 > 6;
        if !accept {
            if fire {
                if cand_len != 0 && (match_len < MIN_MATCH_LEN || cand_pos + cand_len >= pos
                    + match_len) {
                    pos = cand_pos;
                    lst = cand_lst;
                    match_len = cand_len;
                }
                accept = match_len >= MIN_MATCH_LEN;
            } else if match_len >= MIN_MATCH_LEN && (cand_len == 0 || pos + match_len >= cand_pos
                + cand_len) {
                cand_pos = pos;
                cand_len = match_len;
                cand_lst = lst;
            }
        }
        let ghost sel = (
            pos as int,
            match_len as int,
            lst as int,
            accept,
            cand_pos as int,
            cand_len as int,
            cand_lst as int,
        );
        proof {
            assert(sel == blitz_select(src@, st0, ents1)) by {
                reveal(blitz_select);
            }
        }
        if !accept {
            proof {
                assert(miss_run >> 6usize == miss_run / 64) by (bit_vector);
            }
            assert(pos + 2 + miss_run / 64 <= src_size + src_size / 32) by (nonlinear_arith)
                requires
                    pos + 64 <= src_size,
                    miss_run <= pos,
            ;
            pos += 2 + (miss_run >> 6);
            miss_run += 1;
            proof {
                let n = GreedyState {
                    pos: pos as int,
                    hpos: hpos as int,
                    lit: lit as int,
                    miss_run: miss_run as int,
                    cand_pos: cand_pos as int,
                    cand_len: cand_len as int,
                    cand_lst: cand_lst as int,
                    regime: 0,
                    ents: ht@,
                    ents4: Seq::empty(),
                    curs: Seq::empty(),
                    ts,
                };
                assert(n == greedy_finish(src@, 2, 0, st0, hp1, ents1, st0.ents4, st0.curs, sel)) by {
                    reveal(greedy_finish);
                }
                assert(n == greedy_step(src@, GreedyKind::Blitz, st0));
                assert(greedy_progress(src@, st0, n));
                assert(greedy_run(src@, GreedyKind::Blitz, st0) == greedy_run(src@, GreedyKind::Blitz, n)) by {
                    reveal(greedy_run);
                }
            }
            continue;
        }
        miss_run = 0;
        extend_backward(src, lit, &mut pos, &mut lst, &mut match_len);
        let lit_len = pos - lit;
        let dis = pos - lst;
        emit_token(dst, &mut dlpos, &mut drpos, src, lit, lit_len, match_len, dis, Ghost(ts));
        proof {
            lemma_push_token(src@, ts, (lit_len as int, match_len as int, dis as int));
            ts = ts.push((lit_len as int, match_len as int, dis as int));
        }
        pos += match_len;
        lit = pos;
        if pos < pos_safe_bound {
            pos = pos_safe_bound;
        }
        cand_len = 0;
        proof {
            let n = GreedyState {
                pos: pos as int,
                hpos: hpos as int,
                lit: lit as int,
                miss_run: miss_run as int,
                cand_pos: cand_pos as int,
                cand_len: cand_len as int,
                cand_lst: cand_lst as int,
                regime: 0,
                ents: ht@,
                ents4: Seq::empty(),
                curs: Seq::empty(),
                ts,
            };
            assert(n == greedy_finish(src@, 2, 0, st0, hp1, ents1, st0.ents4, st0.curs, sel)) by {
                reveal(greedy_finish);
            }
            assert(n == greedy_step(src@, GreedyKind::Blitz, st0));
            assert(greedy_progress(src@, st0, n));
            assert(greedy_run(src@, GreedyKind::Blitz, st0) == greedy_run(src@, GreedyKind::Blitz, n)) by {
                reveal(greedy_run);
            }
        }
    }
    proof {
        assert(greedy_run(src@, GreedyKind::Blitz, GreedyState {
            pos: pos as int,
            hpos: hpos as int,
            lit: lit as int,
            miss_run: miss_run as int,
            cand_pos: cand_pos as int,
            cand_len: cand_len as int,
            cand_lst: cand_lst as int,
            regime: 0,
            ents: ht@,
            ents4: Seq::empty(),
            curs: Seq::empty(),
            ts,
        }) == ts) by {
            reveal(greedy_run);
        }
    }
    let r = finish_light(src, dst, dst_cap, dlpos, drpos, literal_suffix_pos, lit, Ghost(ts));
    r
}

/// Caps `v` to `0..=LIGHT_REGIME_CAP`.
pub open spec fn regime_clamp(v: int) -> int {
    if v < 0 {
        0
    } else if v > LIGHT_REGIME_CAP {
        LIGHT_REGIME_CAP as int
    } else {
        v
    }
}

/// The regime counter's ceiling.
pub const LIGHT_REGIME_CAP: i32 = 64;

/// The regime at or above which the parsers fire on every pending literal.
pub const LIGHT_REGIME_THRESHOLD: i32 = 32;

/// Moves the regime counter up by 2 after a literal run of 7 to 32 bytes and
/// down by 1 otherwise, within `0..=64`.
pub(crate) fn vote_loose_regime(regime: &mut i32, lit_len: usize)
    requires
        0 <= *old(regime) <= LIGHT_REGIME_CAP,
    ensures
        *final(regime) == regime_clamp(
            *old(regime) + if 7 <= lit_len <= 32 {
                2int
            } else {
                -1int
            },
        ),
{
    let vote: i32 = if 7 <= lit_len && lit_len <= 32 {
        2
    } else {
        -1
    };
    let v = *regime + vote;
    *regime = if v < 0 {
        0
    } else if v > LIGHT_REGIME_CAP {
        LIGHT_REGIME_CAP
    } else {
        v
    };
}

/// Moves the regime counter up by 3 after a literal run of 7 or more bytes
/// and down by 1 otherwise, within `0..=64`.
pub(crate) fn vote_keen_regime(regime: &mut i32, lit_len: usize)
    requires
        0 <= *old(regime) <= LIGHT_REGIME_CAP,
    ensures
        *final(regime) == regime_clamp(
            *old(regime) + if lit_len >= TOKEN_LIT_MAX {
                3int
            } else {
                -1int
            },
        ),
{
    let vote: i32 = if lit_len >= TOKEN_LIT_MAX {
        3
    } else {
        -1
    };
    let v = *regime + vote;
    *regime = if v < 0 {
        0
    } else if v > LIGHT_REGIME_CAP {
        LIGHT_REGIME_CAP
    } else {
        v
    };
}

/// The level 0 encoder: probes a six-byte hash at every position and, when
/// that misses and nothing is pending, a four-byte hash.
#[verifier::rlimit(60)]
pub(crate) fn swift_compress(src: &[u8], dst: &mut [u8]) -> (r: usize)
    requires
        old(dst).len() >= light_room(src.len() as int),
        src.len() <= isize::MAX,
    ensures
        r <= final(dst).len(),
        final(dst).len() == old(dst).len(),
        is_light_encoding(src@, final(dst)@.take(r as int)),
        src.len() <= SMALL_LIM ==> final(dst)@.take(r as int) == raw_stream(src@),
        src.len() > SMALL_LIM ==> final(dst)@.take(r as int) == light_stream(src@, swift_parse(src@)),
{
    let src_size = src.len();
    if src_size <= SMALL_LIM {
        return store_raw(src, dst);
    }
    start_light(src, dst);
    let literal_suffix_pos = HEADER_SIZE;
    let mut dlpos: usize = EXT_HEADER_SIZE;
    let dst_cap = dst.len();
    let mut drpos = dst_cap;
    let match_end_limit = src_size - LITERAL_SUFFIX;
    let mut ht6 = LatestHashTable::new();
    let mut ht4 = LatestHashTable::new();
    let mut pos: usize = 0;
    let mut hpos: usize = 0;
    let mut lit: usize = 0;
    let mut miss_run: usize = 0;
    let mut cand_pos: usize = 0;
    let mut cand_len: usize = 0;
    let mut cand_lst: usize = 0;
    let mut regime: i32 = 0;
    let ghost mut ts: Seq<Token> = Seq::empty();
    proof {
        assert(swift_parse(src@) == greedy_run(src@, GreedyKind::Swift, GreedyState {
            pos: pos as int,
            hpos: hpos as int,
            lit: lit as int,
            miss_run: miss_run as int,
            cand_pos: cand_pos as int,
            cand_len: cand_len as int,
            cand_lst: cand_lst as int,
            regime: regime as int,
            ents: ht6@,
            ents4: ht4@,
            curs: Seq::empty(),
            ts,
        }));
    }
    while pos + MAX_MATCH_LEN <= match_end_limit
        invariant
            src_size == src.len(),
            src_size > SMALL_LIM,
            src_size <= isize::MAX,
            match_end_limit == src_size - LITERAL_SUFFIX,
            dst_cap == dst.len(),
            light_writer_ok(src@, dst@, dlpos as int, drpos as int, ts),
            lit == parse_end(ts),
            lit <= pos,
            pos <= src_size + src_size / 32,
            ht6@.len() == HASH_SIZE,
            ht4@.len() == HASH_SIZE,
            table_ok(ht6@, hpos as int),
            table_ok(ht4@, hpos as int),
            hpos <= pos,
            hpos == 0 || hpos + HASHTAB_LAG <= pos,
            miss_run <= pos,
            0 <= regime <= LIGHT_REGIME_CAP,
            cand_len != 0 ==> match_ok(src@, cand_pos as int, cand_len as int, cand_lst as int, lit as int, match_end_limit as int),
            greedy_run(src@, GreedyKind::Swift, GreedyState {
                pos: pos as int,
                hpos: hpos as int,
                lit: lit as int,
                miss_run: miss_run as int,
                cand_pos: cand_pos as int,
                cand_len: cand_len as int,
                cand_lst: cand_lst as int,
                regime: regime as int,
                ents: ht6@,
                ents4: ht4@,
                curs: Seq::empty(),
                ts,
            }) == swift_parse(src@),
        decreases (if match_end_limit >= pos { match_end_limit - pos } else { 0 }), match_end_limit - lit,
    {
        let ghost st0 = GreedyState {
            pos: pos as int,
            hpos: hpos as int,
            lit: lit as int,
            miss_run: miss_run as int,
            cand_pos: cand_pos as int,
            cand_len: cand_len as int,
            cand_lst: cand_lst as int,
            regime: regime as int,
            ents: ht6@,
            ents4: ht4@,
            curs: Seq::empty(),
            ts,
        };
        batch_insert_swift(src, &mut ht6, &mut ht4, &mut hpos, pos);
        let ghost hp1 = hpos as int;
        let ghost e6 = ht6@;
        let ghost e4 = ht4@;
        let (mut match_len, mut lst) = if pos > HASHTAB_LAG {
            proof {
                lemma_table_fresh(ht6@, hpos as int, pos as int);
                lemma_table_fresh(ht4@, hpos as int, pos as int);
            }
            find_swift_match(src, &ht6, &ht4, pos, cand_len)
        } else {
            (0, 0)
        };
        let pos_safe_bound = pos;
        let pend = pos - lit;
        let mut accept = match_len >= 7;
        let fire = if regime >= LIGHT_REGIME_THRESHOLD {
            pend >= 6
        } else {
            pend == 6
        };
        if !accept {
            if fire {
                if cand_len != 0 && (match_len < MIN_MATCH_LEN || cand_pos + cand_len >= pos
                    + match_len) {
                    pos = cand_pos;
                    lst = cand_lst;
                    match_len = cand_len;
                }
                accept = match_len >= MIN_MATCH_LEN;
            } else if match_len >= MIN_MATCH_LEN && (cand_len == 0 || pos + match_len >= cand_pos
                + cand_len) {
                cand_pos = pos;
                cand_len = match_len;
                cand_lst = lst;
            }
        }
        let ghost sel = (
            pos as int,
            match_len as int,
            lst as int,
            accept,
            cand_pos as int,
            cand_len as int,
            cand_lst as int,
        );
        proof {
            assert(sel == swift_select(src@, st0, e6, e4)) by {
                reveal(swift_select);
            }
        }
        if !accept {
            proof {
                assert(miss_run >> 6usize == miss_run / 64) by (bit_vector);
            }
            assert(pos + 1 + miss_run / 64 <= src_size + src_size / 32) by (nonlinear_arith)
                requires
                    pos + 64 <= src_size,
                    miss_run <= pos,
            ;
            pos += 1 + (miss_run >> 6);
            miss_run += 1;
            proof {
                let n = GreedyState {
                    pos: pos as int,
                    hpos: hpos as int,
                    lit: lit as int,
                    miss_run: miss_run as int,
                    cand_pos: cand_pos as int,
                    cand_len: cand_len as int,
                    cand_lst: cand_lst as int,
                    regime: regime as int,
                    ents: ht6@,
                    ents4: ht4@,
                    curs: Seq::empty(),
                    ts,
                };
                assert(n == greedy_finish(src@, 1, 1, st0, hp1, e6, e4, st0.curs, sel)) by {
                    reveal(greedy_finish);
                }
                assert(n == greedy_step(src@, GreedyKind::Swift, st0));
                assert(greedy_progress(src@, st0, n));
                assert(greedy_run(src@, GreedyKind::Swift, st0) == greedy_run(src@, GreedyKind::Swift, n)) by {
                    reveal(greedy_run);
                }
            }
            continue;
        }
        miss_run = 0;
        extend_backward(src, lit, &mut pos, &mut lst, &mut match_len);
        let lit_len = pos - lit;
        let dis = pos - lst;
        vote_loose_regime(&mut regime, lit_len);
        emit_token(dst, &mut dlpos, &mut drpos, src, lit, lit_len, match_len, dis, Ghost(ts));
        proof {
            lemma_push_token(src@, ts, (lit_len as int, match_len as int, dis as int));
            ts = ts.push((lit_len as int, match_len as int, dis as int));
        }
        pos += match_len;
        lit = pos;
        if pos < pos_safe_bound {
            pos = pos_safe_bound;
        }
        cand_len = 0;
        proof {
            let n = GreedyState {
                pos: pos as int,
                hpos: hpos as int,
                lit: lit as int,
                miss_run: miss_run as int,
                cand_pos: cand_pos as int,
                cand_len: cand_len as int,
                cand_lst: cand_lst as int,
                regime: regime as int,
                ents: ht6@,
                ents4: ht4@,
                curs: Seq::empty(),
                ts,
            };
            assert(n == greedy_finish(src@, 1, 1, st0, hp1, e6, e4, st0.curs, sel)) by {
                reveal(greedy_finish);
            }
            assert(n == greedy_step(src@, GreedyKind::Swift, st0));
            assert(greedy_progress(src@, st0, n));
            assert(greedy_run(src@, GreedyKind::Swift, st0) == greedy_run(src@, GreedyKind::Swift, n)) by {
                reveal(greedy_run);
            }
        }
    }
    proof {
        assert(greedy_run(src@, GreedyKind::Swift, GreedyState {
            pos: pos as int,
            hpos: hpos as int,
            lit: lit as int,
            miss_run: miss_run as int,
            cand_pos: cand_pos as int,
            cand_len: cand_len as int,
            cand_lst: cand_lst as int,
            regime: regime as int,
            ents: ht6@,
            ents4: ht4@,
            curs: Seq::empty(),
            ts,
        }) == ts) by {
            reveal(greedy_run);
        }
    }
    finish_light(src, dst, dst_cap, dlpos, drpos, literal_suffix_pos, lit, Ghost(ts))
}

/// The ring-table encoders of levels 1 and 2: probe every slot of a ring of
/// recent positions per four-byte hash; the keen variant (level 2) also looks
/// one and two positions ahead for a longer match.
#[verifier::rlimit(60)]
pub(crate) fn ring_adaptive_compress(src: &[u8], dst: &mut [u8], width: usize, keen: bool) -> (r: usize)
    requires
        old(dst).len() >= light_room(src.len() as int),
        src.len() <= isize::MAX,
        1 <= width <= 256,
    ensures
        r <= final(dst).len(),
        final(dst).len() == old(dst).len(),
        is_light_encoding(src@, final(dst)@.take(r as int)),
        src.len() <= SMALL_LIM ==> final(dst)@.take(r as int) == raw_stream(src@),
        src.len() > SMALL_LIM ==> final(dst)@.take(r as int) == light_stream(
            src@,
            ring_parse(src@, width as int, keen),
        ),
{
    let src_size = src.len();
    if src_size <= SMALL_LIM {
        return store_raw(src, dst);
    }
    start_light(src, dst);
    let literal_suffix_pos = HEADER_SIZE;
    let mut dlpos: usize = EXT_HEADER_SIZE;
    let dst_cap = dst.len();
    let mut drpos = dst_cap;
    let match_end_limit = src_size - LITERAL_SUFFIX;
    let mut ht = RingHashTable::new(width);
    let mut pos: usize = 0;
    let mut hpos: usize = 0;
    let mut lit: usize = 0;
    let mut miss_run: usize = 0;
    let mut cand_pos: usize = 0;
    let mut cand_len: usize = 0;
    let mut cand_lst: usize = 0;
    let mut regime: i32 = 0;
    let ghost mut ts: Seq<Token> = Seq::empty();
    proof {
        assert(ring_parse(src@, width as int, keen) == greedy_run(src@, GreedyKind::Ring { width: width as int, keen },
            GreedyState {
                pos: 0,
                hpos: 0,
                lit: 0,
                miss_run: 0,
                cand_pos: 0,
                cand_len: 0,
                cand_lst: 0,
                regime: 0,
                ents: ht@,
                ents4: Seq::empty(),
                curs: ht.cursors(),
                ts,
            },
        ));
    }
    while pos + MAX_MATCH_LEN <= match_end_limit
        invariant
            src_size == src.len(),
            src_size > SMALL_LIM,
            src_size <= isize::MAX,
            match_end_limit == src_size - LITERAL_SUFFIX,
            dst_cap == dst.len(),
            light_writer_ok(src@, dst@, dlpos as int, drpos as int, ts),
            lit == parse_end(ts),
            lit <= pos,
            pos <= src_size + src_size / 32,
            ht.wf(),
            table_ok(ht@, hpos as int),
            hpos <= pos,
            hpos == 0 || hpos + HASHTAB_LAG <= pos,
            miss_run <= pos,
            0 <= regime <= LIGHT_REGIME_CAP,
            cand_len != 0 ==> match_ok(src@, cand_pos as int, cand_len as int, cand_lst as int, lit as int, match_end_limit as int),
            ht.spec_width() == width,
            1 <= width <= 256,
            greedy_run(src@, GreedyKind::Ring { width: width as int, keen },
                GreedyState {
                    pos: pos as int,
                    hpos: hpos as int,
                    lit: lit as int,
                    miss_run: miss_run as int,
                    cand_pos: cand_pos as int,
                    cand_len: cand_len as int,
                    cand_lst: cand_lst as int,
                    regime: regime as int,
                    ents: ht@,
                    ents4: Seq::empty(),
                    curs: ht.cursors(),
                    ts,
                },
            ) == ring_parse(src@, width as int, keen),
        decreases (if match_end_limit >= pos { match_end_limit - pos } else { 0 }), match_end_limit - lit,
    {
        let ghost st0 = GreedyState {
            pos: pos as int,
            hpos: hpos as int,
            lit: lit as int,
            miss_run: miss_run as int,
            cand_pos: cand_pos as int,
            cand_len: cand_len as int,
            cand_lst: cand_lst as int,
            regime: regime as int,
            ents: ht@,
            ents4: Seq::empty(),
            curs: ht.cursors(),
            ts,
        };
        batch_insert_ring(src, &mut ht, &mut hpos, pos);
        let ghost hp1 = hpos as int;
        let ghost ents1 = ht@;
        let ghost curs1 = ht.cursors();
        proof {
            if pos > HASHTAB_LAG {
                lemma_table_fresh(ht@, hpos as int, pos as int);
            }
        }
        let (mut match_len, mut lst) = if pos > HASHTAB_LAG {
            find_ring_match(src, &ht, pos)
        } else {
            (0, 0)
        };
        let pos_safe_bound = pos;
        let accept_len = if keen && regime >= LIGHT_REGIME_THRESHOLD {
            MIN_MATCH_LEN
        } else if keen {
            6
        } else {
            7
        };
        let mut accept = match_len >= accept_len;
        let ghost pr = (match_len as int, lst as int);
        if accept && keen {
            let base_pos = pos;
            let mut npos = base_pos + 1;
            let ghost mut stopped = false;
            while npos <= base_pos + 2 && npos + MAX_MATCH_LEN <= match_end_limit && match_len < 16
                invariant_except_break
                    !stopped,
                invariant
                    base_pos == pos_safe_bound,
                    base_pos + MAX_MATCH_LEN <= match_end_limit,
                    base_pos > HASHTAB_LAG,
                    base_pos < npos <= base_pos + 3,
                    base_pos <= pos < npos,
                    match_end_limit + LITERAL_SUFFIX == src.len(),
                    ht.wf(),
                    forall|i: int| 0 <= i < ht@.len() ==> crate::match_find::entry_fresh(#[trigger] ht@[i], base_pos as int),
                    match_len >= MIN_MATCH_LEN,
                    pos + MAX_MATCH_LEN <= match_end_limit,
                    probe_ok(src@, pos as int, (match_len, lst)),
                    ht.spec_width() == width,
                    keen_look(
                        src@,
                        ht@,
                        width as int,
                        match_end_limit as int,
                        base_pos as int,
                        base_pos + 1,
                        base_pos as int,
                        pr.0,
                        pr.1,
                    ) == keen_look(
                        src@,
                        ht@,
                        width as int,
                        match_end_limit as int,
                        base_pos as int,
                        npos as int,
                        pos as int,
                        match_len as int,
                        lst as int,
                    ),
                    stopped ==> keen_look(
                        src@,
                        ht@,
                        width as int,
                        match_end_limit as int,
                        base_pos as int,
                        npos as int,
                        pos as int,
                        match_len as int,
                        lst as int,
                    ) == (pos as int, match_len as int, lst as int),
                ensures
                    stopped || !(npos <= base_pos + 2 && npos + MAX_MATCH_LEN <= match_end_limit
                        && match_len < 16),
                decreases base_pos + 3 - npos,
            {
                let (nmatch_len, nlst) = find_ring_match(src, &ht, npos);
                let improved = nmatch_len > match_len;
                if improved {
                    pos = npos;
                    lst = nlst;
                    match_len = nmatch_len;
                }
                if !improved && match_len >= 8 {
                    proof {
                        stopped = true;
                    }
                    break;
                }
                npos += 1;
            }
            proof {
                assert(keen_look(
                    src@,
                    ht@,
                    width as int,
                    match_end_limit as int,
                    base_pos as int,
                    base_pos + 1,
                    base_pos as int,
                    pr.0,
                    pr.1,
                ) == (pos as int, match_len as int, lst as int));
            }
        } else if !accept {
            let pend = pos - lit;
            let fire = if keen || regime >= LIGHT_REGIME_THRESHOLD {
                pend >= 6
            } else {
                pend == 6
            };
            if fire {
                if cand_len != 0 && (match_len < MIN_MATCH_LEN || cand_pos + cand_len >= pos
                    + match_len) {
                    pos = cand_pos;
                    lst = cand_lst;
                    match_len = cand_len;
                }
                accept = match_len >= MIN_MATCH_LEN;
            } else if match_len >= MIN_MATCH_LEN && (cand_len == 0 || pos + match_len >= cand_pos
                + cand_len) {
                cand_pos = pos;
                cand_len = match_len;
                cand_lst = lst;
            }
        }
        let ghost sel = (
            pos as int,
            match_len as int,
            lst as int,
            accept,
            cand_pos as int,
            cand_len as int,
            cand_lst as int,
        );
        proof {
            assert(sel == ring_select(src@, width as int, keen, st0, ents1)) by {
                reveal(ring_select);
            }
        }
        if !accept {
            proof {
                assert(miss_run >> 6usize == miss_run / 64) by (bit_vector);
            }
            assert(pos + 1 + miss_run / 64 <= src_size + src_size / 32) by (nonlinear_arith)
                requires
                    pos + 64 <= src_size,
                    miss_run <= pos,
            ;
            pos += 1 + (miss_run >> 6);
            miss_run += 1;
            proof {
                let n = GreedyState {
                    pos: pos as int,
                    hpos: hpos as int,
                    lit: lit as int,
                    miss_run: miss_run as int,
                    cand_pos: cand_pos as int,
                    cand_len: cand_len as int,
                    cand_lst: cand_lst as int,
                    regime: regime as int,
                    ents: ht@,
                    ents4: Seq::empty(),
                    curs: ht.cursors(),
                    ts,
                };
                assert(n == greedy_finish(src@, 1, if keen { 2 } else { 1 }, st0, hp1, ents1, st0.ents4, curs1, sel)) by {
                    reveal(greedy_finish);
                }
                assert(n == greedy_step(src@, GreedyKind::Ring { width: width as int, keen }, st0));
                assert(greedy_progress(src@, st0, n));
                assert(greedy_run(src@, GreedyKind::Ring { width: width as int, keen }, st0) == greedy_run(
                    src@,
                    GreedyKind::Ring { width: width as int, keen },
                    n,
                )) by {
                    reveal(greedy_run);
                }
            }
            continue;
        }
        miss_run = 0;
        extend_backward(src, lit, &mut pos, &mut lst, &mut match_len);
        let lit_len = pos - lit;
        let dis = pos - lst;
        if keen {
            vote_keen_regime(&mut regime, lit_len);
        } else {
            vote_loose_regime(&mut regime, lit_len);
        }
        emit_token(dst, &mut dlpos, &mut drpos, src, lit, lit_len, match_len, dis, Ghost(ts));
        proof {
            lemma_push_token(src@, ts, (lit_len as int, match_len as int, dis as int));
            ts = ts.push((lit_len as int, match_len as int, dis as int));
        }
        pos += match_len;
        lit = pos;
        if pos < pos_safe_bound {
            pos = pos_safe_bound;
        }
        cand_len = 0;
        proof {
            let n = GreedyState {
                pos: pos as int,
                hpos: hpos as int,
                lit: lit as int,
                miss_run: miss_run as int,
                cand_pos: cand_pos as int,
                cand_len: cand_len as int,
                cand_lst: cand_lst as int,
                regime: regime as int,
                ents: ht@,
                ents4: Seq::empty(),
                curs: ht.cursors(),
                ts,
            };
            assert(n == greedy_finish(src@, 1, if keen { 2 } else { 1 }, st0, hp1, ents1, st0.ents4, curs1, sel)) by {
                reveal(greedy_finish);
            }
            assert(n == greedy_step(src@, GreedyKind::Ring { width: width as int, keen }, st0));
            assert(greedy_progress(src@, st0, n));
            assert(greedy_run(src@, GreedyKind::Ring { width: width as int, keen }, st0) == greedy_run(
                    src@,
                    GreedyKind::Ring { width: width as int, keen },
                    n,
                )) by {
                reveal(greedy_run);
            }
        }
    }
    proof {
        assert(greedy_run(src@, GreedyKind::Ring { width: width as int, keen }, GreedyState {
                pos: pos as int,
                hpos: hpos as int,
                lit: lit as int,
                miss_run: miss_run as int,
                cand_pos: cand_pos as int,
                cand_len: cand_len as int,
                cand_lst: cand_lst as int,
                regime: regime as int,
                ents: ht@,
                ents4: Seq::empty(),
                curs: ht.cursors(),
                ts,
            }) == ts) by {
            reveal(greedy_run);
        }
    }
    finish_light(src, dst, dst_cap, dlpos, drpos, literal_suffix_pos, lit, Ghost(ts))
}

/// The level 1 encoder: rings of 16 positions per hash.
pub(crate) fn loose_compress(src: &[u8], dst: &mut [u8]) -> (r: usize)
    requires
        old(dst).len() >= light_room(src.len() as int),
        src.len() <= isize::MAX,
    ensures
        r <= final(dst).len(),
        final(dst).len() == old(dst).len(),
        is_light_encoding(src@, final(dst)@.take(r as int)),
        src.len() <= SMALL_LIM ==> final(dst)@.take(r as int) == raw_stream(src@),
        src.len() > SMALL_LIM ==> final(dst)@.take(r as int) == light_stream(src@, ring_parse(src@, 16, false)),
{
    ring_adaptive_compress(src, dst, LOOSE_RING_WIDTH, false)
}

/// The level 2 encoder: rings of 20 positions per hash, with lookahead.
pub(crate) fn keen_compress(src: &[u8], dst: &mut [u8]) -> (r: usize)
    requires
        old(dst).len() >= light_room(src.len() as int),
        src.len() <= isize::MAX,
    ensures
        r <= final(dst).len(),
        final(dst).len() == old(dst).len(),
        is_light_encoding(src@, final(dst)@.take(r as int)),
        src.len() <= SMALL_LIM ==> final(dst)@.take(r as int) == raw_stream(src@),
        src.len() > SMALL_LIM ==> final(dst)@.take(r as int) == light_stream(src@, ring_parse(src@, 20, true)),
{
    ring_adaptive_compress(src, dst, KEEN_RING_WIDTH, true)
}

/// Ring width of the level 1 tables.
pub const LOOSE_RING_WIDTH: usize = 16;

/// Ring width of the level 2 tables.
pub const KEEN_RING_WIDTH: usize = 20;

} // verus!
