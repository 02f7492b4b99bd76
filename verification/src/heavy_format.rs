//! The heavy stream layout: what a sequence of heavy tokens encodes as, and
//! the proof that decoding such an encoding gives back its input.
use vstd::prelude::*;
use crate::decode_spec::{
    decode_heavy, decode_spec, forward_copy, header_flags, header_size, heavy_run, heavy_step,
    heavy_token, spec_header_fields,
};
use crate::error::Error;
use crate::format::{
    code_floor, heavy_len_of, is_code_floor, HEAVY_LITERAL_SUFFIX,
    HEAVY_MAX_DISTANCE, HEAVY_MAX_MATCH_LEN, HEAVY_MIN_DISTANCE, HEAVY_SMALL_LIM,
    HEAVY_TOKEN_LIT_MAX, MIN_MATCH_LEN, VECTOR_WIDTH,
};
use crate::light_format::{
    ext_bytes, lemma_ext_run_reads, lemma_forward_copy_rebuilds, lemma_u64_le, lit_area, parse_end,
    u64_le, Token,
};
use crate::primitives::{le32, le56, le64};

verus! {

/// The four little-endian bytes of `v` (for `0 <= v < 2^32`).
pub open spec fn u32_bytes(v: int) -> Seq<u8> {
    seq![(v % 256) as u8, ((v / 256) % 256) as u8, ((v / 65536) % 256) as u8, (v / 16777216) as u8]
}

/// Reading back the four bytes of `v` gives `v`.
pub proof fn lemma_u32_bytes(v: int)
    requires
        0 <= v < 0x1_0000_0000,
    ensures
        u32_bytes(v).len() == 4,
        le32(u32_bytes(v), 0) == v,
{
    let s = u32_bytes(v);
    assert(0 <= v / 16777216 < 256);
    assert(s[0] == v % 256);
    assert(s[1] == (v / 256) % 256);
    assert(s[2] == (v / 65536) % 256);
    assert(s[3] == v / 16777216);
    assert(v % 256 + 256 * ((v / 256) % 256) + 65536 * (((v / 65536) % 256) + 256 * (v
        / 16777216)) == v) by (nonlinear_arith)
        requires
            0 <= v,
    ;
}

/// The heavy match code of an encodable match length.
pub open spec fn heavy_code(ml: int) -> int {
    code_floor(ml)
}

/// The 32-bit word of one heavy token: inline literal length, match code and
/// distance.
pub open spec fn heavy_token_word(t: Token) -> int {
    let lit = t.0;
    let lrem = if lit < HEAVY_TOKEN_LIT_MAX { lit } else { HEAVY_TOKEN_LIT_MAX as int };
    lrem * 67108864 + heavy_code(t.1) * 1048576 + (t.2 - HEAVY_MIN_DISTANCE)
}

/// The control bytes of one heavy token.
pub open spec fn heavy_token_bytes(t: Token) -> Seq<u8> {
    let head = u32_bytes(heavy_token_word(t));
    if t.0 >= HEAVY_TOKEN_LIT_MAX {
        head + ext_bytes(t.0 - HEAVY_TOKEN_LIT_MAX)
    } else {
        head
    }
}

/// The control stream of a heavy token sequence.
pub open spec fn heavy_ctrl(ts: Seq<Token>) -> Seq<u8>
    decreases ts.len(),
{
    if ts.len() == 0 {
        Seq::empty()
    } else {
        heavy_ctrl(ts.drop_last()) + heavy_token_bytes(ts.last())
    }
}

/// `ml` is a match length the heavy format can state.
pub open spec fn heavy_len_ok(ml: int) -> bool {
    &&& MIN_MATCH_LEN <= ml <= HEAVY_MAX_MATCH_LEN
    &&& heavy_len_of(heavy_code(ml)) == ml
}

/// A heavy token that starts at input position `p` is well formed and its
/// match repeats the input `dis` bytes back.
pub open spec fn heavy_token_ok(x: Seq<u8>, p: int, t: Token) -> bool {
    let lit = t.0;
    let ml = t.1;
    let dis = t.2;
    &&& 0 <= lit
    &&& heavy_len_ok(ml)
    &&& HEAVY_MIN_DISTANCE <= dis <= HEAVY_MAX_DISTANCE
    &&& dis <= p + lit
    &&& p + lit + ml <= x.len()
    &&& forall|k: int| 0 <= k < ml ==> #[trigger] x[p + lit + k] == x[p + lit + k - dis]
}

/// Every token of `ts`, laid end to end from input position 0, is a
/// well-formed heavy token.
pub open spec fn heavy_parse_ok(x: Seq<u8>, ts: Seq<Token>) -> bool
    decreases ts.len(),
{
    if ts.len() == 0 {
        true
    } else {
        heavy_parse_ok(x, ts.drop_last()) && heavy_token_ok(x, parse_end(ts.drop_last()), ts.last())
    }
}

/// The header word of a heavy stream: the size, the heavy flag and, when
/// `cond`, the flag that says long matches are rare.
pub open spec fn heavy_header(n: int, cond: bool) -> Seq<u8> {
    u64_le((n as u64) | ((if cond { 3u64 } else { 1u64 }) << 56u64))
}

/// The heavy stream for input `x` parsed as `ts`.
pub open spec fn heavy_stream(x: Seq<u8>, ts: Seq<Token>, cond: bool) -> Seq<u8> {
    let n = x.len();
    let pe = parse_end(ts);
    heavy_header(n as int, cond) + u64_le((n - pe) as u64) + heavy_ctrl(ts) + lit_area(x, ts)
        + x.subrange(pe, n as int)
}

/// The heavy raw stream of a small input: its size with the heavy flag, then
/// its bytes.
pub open spec fn heavy_raw_stream(x: Seq<u8>) -> Seq<u8> {
    heavy_header(x.len() as int, false) + x
}

/// The number of tokens of `ts` whose match is longer than 32 bytes.
pub open spec fn long_count(ts: Seq<Token>) -> int
    decreases ts.len(),
{
    if ts.len() == 0 {
        0
    } else {
        long_count(ts.drop_last()) + (if ts.last().1 > VECTOR_WIDTH { 1int } else { 0int })
    }
}

/// The flag that says long matches are rare: there are tokens, and fewer
/// than 14 in 100 of them have a match longer than 32 bytes.
pub open spec fn heavy_cond(ts: Seq<Token>) -> bool {
    ts.len() != 0 && long_count(ts) * 100 < 14 * ts.len()
}

/// `s` is a heavy-format encoding of `x`: raw for small inputs, otherwise a
/// well-formed heavy token parse followed by a literal suffix of at least 64
/// bytes, flagged by `heavy_cond`.
pub open spec fn is_heavy_encoding(x: Seq<u8>, s: Seq<u8>) -> bool {
    if x.len() <= HEAVY_SMALL_LIM {
        s == heavy_raw_stream(x)
    } else {
        exists|ts: Seq<Token>|
            #[trigger] heavy_parse_ok(x, ts) && x.len() - parse_end(ts) >= HEAVY_LITERAL_SUFFIX
                && s == heavy_stream(x, ts, heavy_cond(ts))
    }
}

/// Taking one more token appends that token's control bytes, literal run and
/// input span.
pub proof fn lemma_heavy_take_step(x: Seq<u8>, ts: Seq<Token>, i: int)
    requires
        0 <= i < ts.len(),
    ensures
        heavy_ctrl(ts.take(i + 1)) == heavy_ctrl(ts.take(i)) + heavy_token_bytes(ts[i]),
        parse_end(ts.take(i + 1)) == parse_end(ts.take(i)) + ts[i].0 + ts[i].1,
        lit_area(x, ts.take(i + 1)) == x.subrange(
            parse_end(ts.take(i)),
            parse_end(ts.take(i)) + ts[i].0,
        ) + lit_area(x, ts.take(i)),
{
    assert(ts.take(i + 1).drop_last() =~= ts.take(i));
    assert(ts.take(i + 1).last() == ts[i]);
}

/// The control stream of a prefix of the tokens is a prefix of the control
/// stream of a longer prefix.
pub proof fn lemma_heavy_ctrl_prefix(ts: Seq<Token>, j: int, k: int)
    requires
        0 <= j <= k <= ts.len(),
    ensures
        heavy_ctrl(ts.take(j)).len() <= heavy_ctrl(ts.take(k)).len(),
        forall|q: int|
            0 <= q < heavy_ctrl(ts.take(j)).len() ==> #[trigger] heavy_ctrl(ts.take(k))[q]
                == heavy_ctrl(ts.take(j))[q],
    decreases k - j,
{
    if j < k {
        lemma_heavy_ctrl_prefix(ts, j, k - 1);
        lemma_heavy_take_step(Seq::empty(), ts, k - 1);
    }
}

/// The prefixes of a well-formed heavy parse are well formed, and each token
/// of it is well formed where it starts.
pub proof fn lemma_heavy_parse_prefix(x: Seq<u8>, ts: Seq<Token>, i: int)
    requires
        heavy_parse_ok(x, ts),
        0 <= i <= ts.len(),
    ensures
        heavy_parse_ok(x, ts.take(i)),
        0 <= parse_end(ts.take(i)) <= parse_end(ts) <= x.len(),
        i < ts.len() ==> heavy_token_ok(x, parse_end(ts.take(i)), ts[i]),
    decreases ts.len(),
{
    if ts.len() > 0 {
        let ts2 = ts.drop_last();
        if i == ts.len() {
            assert(ts.take(i) =~= ts);
            lemma_heavy_parse_prefix(x, ts2, 0);
        } else {
            lemma_heavy_parse_prefix(x, ts2, i);
            assert(ts2.take(i) =~= ts.take(i));
            if i < ts2.len() {
                assert(ts2[i] == ts[i]);
            } else {
                assert(ts2 =~= ts.take(i));
            }
            lemma_heavy_parse_prefix(x, ts2, ts2.len() as int);
            assert(ts2.take(ts2.len() as int) =~= ts2);
        }
    } else {
        assert(ts.take(i) =~= ts);
    }
}

/// The literal stream of a prefix of the tokens is a suffix of the literal
/// stream of a longer prefix.
pub proof fn lemma_heavy_area_suffix(x: Seq<u8>, ts: Seq<Token>, j: int, k: int)
    requires
        heavy_parse_ok(x, ts),
        0 <= j <= k <= ts.len(),
    ensures
        lit_area(x, ts.take(k)).subrange(
            lit_area(x, ts.take(k)).len() - lit_area(x, ts.take(j)).len(),
            lit_area(x, ts.take(k)).len() as int,
        ) == lit_area(x, ts.take(j)),
        lit_area(x, ts.take(j)).len() <= lit_area(x, ts.take(k)).len(),
    decreases k - j,
{
    if j < k {
        lemma_heavy_area_suffix(x, ts, j, k - 1);
        lemma_heavy_take_step(x, ts, k - 1);
        lemma_heavy_parse_prefix(x, ts, k - 1);
        let a = lit_area(x, ts.take(k - 1));
        let b = lit_area(x, ts.take(j));
        let p = parse_end(ts.take(k - 1));
        let c = x.subrange(p, p + ts[k - 1].0);
        assert((c + a).subrange((c + a).len() - b.len(), (c + a).len() as int) =~= a.subrange(
            a.len() - b.len(),
            a.len() as int,
        ));
    } else {
        let a = lit_area(x, ts.take(k));
        assert(a.subrange(0, a.len() as int) =~= a);
    }
}

/// The bytes of a heavy stream: the control stream starts at 16, the literal
/// stream right after it.
pub proof fn lemma_heavy_stream_bytes(x: Seq<u8>, ts: Seq<Token>, cond: bool)
    requires
        0 <= parse_end(ts) <= x.len(),
    ensures
        ({
            let s = heavy_stream(x, ts, cond);
            let c = heavy_ctrl(ts);
            let a = lit_area(x, ts);
            &&& forall|q: int| 0 <= q < c.len() ==> #[trigger] s[16 + q] == c[q]
            &&& forall|q: int| 0 <= q < a.len() ==> #[trigger] s[16 + c.len() + q] == a[q]
            &&& s.len() == 16 + c.len() + a.len() + (x.len() - parse_end(ts))
            &&& s.subrange((16 + c.len() + a.len()) as int, s.len() as int) == x.subrange(
                parse_end(ts),
                x.len() as int,
            )
        }),
{
    let n = x.len();
    let pe = parse_end(ts);
    let hv = (n as u64) | ((if cond { 3u64 } else { 1u64 }) << 56u64);
    lemma_u64_le(hv);
    lemma_u64_le((n - pe) as u64);
    let s = heavy_stream(x, ts, cond);
    let c = heavy_ctrl(ts);
    let a = lit_area(x, ts);
    let h = heavy_header(n as int, cond) + u64_le((n - pe) as u64);
    let suf = x.subrange(pe, n as int);
    assert(s == ((h + c) + a) + suf);
    assert(h.len() == 16);
    assert forall|q: int| 0 <= q < c.len() implies #[trigger] s[16 + q] == c[q] by {
        assert((h + c)[16 + q] == c[q]);
        assert(((h + c) + a)[16 + q] == (h + c)[16 + q]);
    }
    assert forall|q: int| 0 <= q < a.len() implies #[trigger] s[16 + c.len() + q] == a[q] by {
        assert(((h + c) + a)[16 + c.len() + q] == a[q]);
    }
    assert(s.subrange((16 + c.len() + a.len()) as int, s.len() as int) =~= x.subrange(pe, n as int));
}

/// The fields of a heavy token word read back as its literal field, code and
/// distance.
pub proof fn lemma_heavy_word_fields(lrem: int, code: int, d: int)
    requires
        0 <= lrem < 64,
        0 <= code < 64,
        0 <= d < 1048576,
    ensures
        0 <= lrem * 67108864 + code * 1048576 + d < 0x1_0000_0000,
        (lrem * 67108864 + code * 1048576 + d) / 67108864 == lrem,
        ((lrem * 67108864 + code * 1048576 + d) / 1048576) % 64 == code,
        (lrem * 67108864 + code * 1048576 + d) % 1048576 == d,
{
    assert((lrem * 67108864 + code * 1048576 + d) / 67108864 == lrem) by (nonlinear_arith)
        requires
            0 <= lrem < 64,
            0 <= code < 64,
            0 <= d < 1048576,
    ;
    assert((lrem * 67108864 + code * 1048576 + d) / 1048576 == lrem * 64 + code) by (nonlinear_arith)
        requires
            0 <= lrem < 64,
            0 <= code < 64,
            0 <= d < 1048576,
    ;
    assert((lrem * 64 + code) % 64 == code) by (nonlinear_arith)
        requires
            0 <= lrem < 64,
            0 <= code < 64,
    ;
    assert((lrem * 67108864 + code * 1048576 + d) % 1048576 == d) by (nonlinear_arith)
        requires
            0 <= lrem < 64,
            0 <= code < 64,
            0 <= d < 1048576,
    ;
}

/// The heavy token at control position `control` of a stream holding the
/// control bytes of token `t` there parses as `t`.
pub proof fn lemma_heavy_token_at(s: Seq<u8>, control: int, literals: int, t: Token)
    requires
        0 <= t.0 <= usize::MAX,
        heavy_len_ok(t.1),
        HEAVY_MIN_DISTANCE <= t.2 <= HEAVY_MAX_DISTANCE,
        0 <= control,
        control + heavy_token_bytes(t).len() <= literals,
        forall|q: int|
            0 <= q < heavy_token_bytes(t).len() ==> #[trigger] s[control + q]
                == heavy_token_bytes(t)[q],
    ensures
        heavy_token(s, control, literals) == Some(
            (t.0, t.1, t.2, control + heavy_token_bytes(t).len()),
        ),
{
    let lit = t.0;
    let ml = t.1;
    let dis = t.2;
    let tb = heavy_token_bytes(t);
    let lrem = if lit < HEAVY_TOKEN_LIT_MAX { lit } else { HEAVY_TOKEN_LIT_MAX as int };
    let code = heavy_code(ml);
    lemma_code_exists(ml);
    assert(is_code_floor(ml, code));
    assert(code >= 1) by {
        if code == 0 {
            assert(heavy_len_of(0) == 0);
        }
    }
    let w = heavy_token_word(t);
    lemma_heavy_word_fields(lrem, code, dis - HEAVY_MIN_DISTANCE);
    lemma_u32_bytes(w);
    let head = u32_bytes(w);
    assert(tb.len() >= 4);
    assert(tb[0] == head[0] && tb[1] == head[1] && tb[2] == head[2] && tb[3] == head[3]);
    assert(s[control + 0] == tb[0]);
    assert(s[control + 1] == tb[1]);
    assert(s[control + 2] == tb[2]);
    assert(s[control + 3] == tb[3]);
    assert(le32(s, control) == le32(head, 0));
    if lit >= HEAVY_TOKEN_LIT_MAX {
        let r = lit - HEAVY_TOKEN_LIT_MAX;
        let e = ext_bytes(r);
        assert(tb.len() == 4 + e.len());
        assert forall|j: int| 0 <= j < r / 255 implies #[trigger] s[control + 4 + j] == 255 by {
            assert(s[control + (4 + j)] == tb[4 + j]);
        }
        assert(s[control + 4 + r / 255] == r % 255) by {
            assert(s[control + (4 + r / 255)] == tb[4 + r / 255]);
        }
        lemma_ext_run_reads(s, control + 4, literals, HEAVY_TOKEN_LIT_MAX as int, r);
    }
}

/// Every length has a largest code at or below it.
pub proof fn lemma_code_exists(len: int)
    requires
        MIN_MATCH_LEN <= len,
    ensures
        exists|c: int| is_code_floor(len, c),
{
    lemma_code_below(len, 63);
}

/// Searching down from `c`, past codes whose lengths all exceed `len`, finds
/// the largest code at or below `len`.
proof fn lemma_code_below(len: int, c: int)
    requires
        MIN_MATCH_LEN <= len,
        0 <= c < 64,
        forall|c2: int| c < c2 < 64 ==> heavy_len_of(c2) > len,
    ensures
        exists|c: int| is_code_floor(len, c),
    decreases c,
{
    if heavy_len_of(c) <= len {
        assert(is_code_floor(len, c));
    } else {
        lemma_code_below(len, c - 1);
    }
}

/// The decoder state after the first `i` tokens of a heavy stream: control
/// position, literal position and output.
pub open spec fn heavy_state(x: Seq<u8>, ts: Seq<Token>, i: int) -> (int, int, Seq<u8>) {
    (
        16 + heavy_ctrl(ts.take(i)).len() as int,
        16 + heavy_ctrl(ts).len() + lit_area(x, ts).len() - lit_area(x, ts.take(i)).len(),
        x.take(parse_end(ts.take(i))),
    )
}

/// One decoder step on a heavy stream moves from the state after `i` tokens
/// to the state after `i + 1`.
#[verifier::rlimit(40)]
pub proof fn lemma_heavy_step_at(x: Seq<u8>, ts: Seq<Token>, cond: bool, i: int)
    requires
        heavy_parse_ok(x, ts),
        x.len() <= usize::MAX,
        0 <= i < ts.len(),
    ensures
        heavy_state(x, ts, i).0 < heavy_state(x, ts, i).1,
        heavy_step(
            heavy_stream(x, ts, cond),
            parse_end(ts),
            heavy_state(x, ts, i).0,
            heavy_state(x, ts, i).1,
            heavy_state(x, ts, i).2,
        ) == Some(heavy_state(x, ts, i + 1)),
        heavy_state(x, ts, i).0 < heavy_state(x, ts, i + 1).0,
        heavy_state(x, ts, i + 1).1 <= heavy_state(x, ts, i).1,
{
    let n = ts.len() as int;
    let s = heavy_stream(x, ts, cond);
    let c = heavy_ctrl(ts);
    let a = lit_area(x, ts);
    let pe = parse_end(ts);
    assert(ts.take(n) =~= ts);
    lemma_heavy_parse_prefix(x, ts, i);
    lemma_heavy_parse_prefix(x, ts, n);
    lemma_heavy_stream_bytes(x, ts, cond);
    let control = heavy_state(x, ts, i).0;
    let literals = heavy_state(x, ts, i).1;
    let t = ts[i];
    let tb = heavy_token_bytes(t);
    let p = parse_end(ts.take(i));
    lemma_heavy_take_step(x, ts, i);
    lemma_heavy_ctrl_prefix(ts, i + 1, n);
    lemma_heavy_area_suffix(x, ts, i + 1, n);
    lemma_heavy_area_suffix(x, ts, i, i + 1);
    lemma_heavy_parse_prefix(x, ts, i + 1);
    let ci = heavy_ctrl(ts.take(i));
    assert forall|q: int| 0 <= q < tb.len() implies #[trigger] s[control + q] == tb[q] by {
        assert(heavy_ctrl(ts.take(i + 1))[ci.len() + q] == tb[q]);
        assert(c[ci.len() + q] == heavy_ctrl(ts.take(i + 1))[ci.len() + q]);
        assert(s[16 + (ci.len() + q)] == c[ci.len() + q]);
    }
    assert(heavy_token_ok(x, p, t));
    lemma_heavy_token_at(s, control, literals, t);
    let lit = t.0;
    let ml = t.1;
    let dis = t.2;
    let next = control + tb.len();
    let lits = literals - lit;
    let ai1 = lit_area(x, ts.take(i + 1));
    let chunk = x.subrange(p, p + lit);
    assert(s.subrange(lits, literals) =~= chunk) by {
        assert forall|q: int| 0 <= q < lit implies #[trigger] s.subrange(lits, literals)[q]
            == chunk[q] by {
            assert(ai1[q] == chunk[q]);
            assert(a[a.len() - ai1.len() + q] == ai1[q]);
            assert(s[16 + c.len() + (a.len() - ai1.len() + q)] == a[a.len() - ai1.len() + q]);
        }
    }
    let out2 = x.take(p) + chunk;
    assert(out2 =~= x.take(p + lit));
    lemma_forward_copy_rebuilds(x, p + lit, dis, ml);
    assert(forward_copy(out2, dis, ml) =~= x.take(parse_end(ts.take(i + 1))));
}

/// Decoding a heavy stream from the state reached after its first `i` tokens
/// yields the whole covered input.
pub proof fn lemma_heavy_decode_from(x: Seq<u8>, ts: Seq<Token>, cond: bool, i: int)
    requires
        heavy_parse_ok(x, ts),
        x.len() <= usize::MAX,
        0 <= i <= ts.len(),
    ensures
        heavy_run(
            heavy_stream(x, ts, cond),
            parse_end(ts),
            heavy_state(x, ts, i).0,
            heavy_state(x, ts, i).1,
            heavy_state(x, ts, i).2,
        ) == Some(x.take(parse_end(ts))),
    decreases ts.len() - i,
{
    if i < ts.len() {
        lemma_heavy_step_at(x, ts, cond, i);
        lemma_heavy_decode_from(x, ts, cond, i + 1);
    } else {
        assert(ts.take(i) =~= ts);
    }
}

/// The header of a heavy stream declares the input's size and the heavy flag.
pub proof fn lemma_heavy_header(x: Seq<u8>, s: Seq<u8>, cond: bool)
    requires
        s.len() >= 8,
        s.subrange(0, 8) == heavy_header(x.len() as int, cond),
        x.len() < 0x100000000000000,
    ensures
        header_size(s) == x.len(),
        s[7] == (if cond { 3u8 } else { 1u8 }),
{
    let n = x.len() as int;
    let f: int = if cond { 3 } else { 1 };
    let nn = n as u64;
    let ff: u64 = if cond { 3u64 } else { 1u64 };
    let v = nn | (ff << 56u64);
    assert(nn < 0x100000000000000 && ff < 4 ==> nn | (ff << 56u64) == nn + ff * 0x100000000000000)
        by (bit_vector);
    assert(v == n + f * 0x100000000000000);
    lemma_u64_le(v);
    assert(v % 0x100000000000000 == n);
    assert(v / 0x100000000000000 == f);
    let h = heavy_header(n, cond);
    assert forall|q: int| 0 <= q < 8 implies #[trigger] s[q] == h[q] by {
        assert(s.subrange(0, 8)[q] == s[q]);
    }
    assert(le56(s, 0) == le56(h, 0));
}

/// Decoding the heavy stream of a well-formed parse of a large input gives
/// back the input.
pub proof fn lemma_heavy_stream_decodes(x: Seq<u8>, ts: Seq<Token>, cond: bool)
    requires
        heavy_parse_ok(x, ts),
        x.len() - parse_end(ts) >= HEAVY_LITERAL_SUFFIX,
        HEAVY_SMALL_LIM < x.len() < 0x100000000000000,
        x.len() <= usize::MAX,
        heavy_stream(x, ts, cond).len() <= usize::MAX,
    ensures
        decode_heavy(heavy_stream(x, ts, cond), x.len() as int) == Ok::<Seq<u8>, Error>(x),
{
    let n = x.len() as int;
    let s = heavy_stream(x, ts, cond);
    let pe = parse_end(ts);
    lemma_heavy_parse_prefix(x, ts, 0);
    lemma_heavy_stream_bytes(x, ts, cond);
    let h1 = heavy_header(n, cond);
    let h2 = u64_le((n - pe) as u64);
    lemma_u64_le((n - pe) as u64);
    assert forall|q: int| 0 <= q < 8 implies #[trigger] s[8 + q] == h2[q] by {
        let h = h1 + h2;
        assert(h[8 + q] == h2[q]);
    }
    assert(s[8 + 0int] == h2[0]);
    assert(le64(s, 8) == n - pe);
    assert(ts.take(0) =~= Seq::<Token>::empty());
    lemma_heavy_decode_from(x, ts, cond, 0);
    assert(x.take(0) =~= Seq::<u8>::empty());
    assert(heavy_state(x, ts, 0) == (16int, s.len() - (n - pe), Seq::<u8>::empty()));
    assert(x.take(pe) + x.subrange(pe, n) =~= x);
}

/// Decoding the heavy stream of a well-formed parse of a large input, into
/// any buffer that can hold the input, gives back the input.
pub proof fn lemma_heavy_stream_roundtrip(x: Seq<u8>, ts: Seq<Token>, cond: bool, dst0: Seq<u8>)
    requires
        heavy_parse_ok(x, ts),
        x.len() - parse_end(ts) >= HEAVY_LITERAL_SUFFIX,
        HEAVY_SMALL_LIM < x.len() < 0x100000000000000,
        x.len() <= usize::MAX,
        heavy_stream(x, ts, cond).len() <= usize::MAX,
        dst0.len() >= x.len(),
    ensures
        decode_spec(heavy_stream(x, ts, cond), dst0) == Ok::<Seq<u8>, Error>(x),
{
    let n = x.len() as int;
    let s = heavy_stream(x, ts, cond);
    lemma_heavy_parse_prefix(x, ts, 0);
    assert(s.subrange(0, 8) =~= heavy_header(n, cond));
    lemma_heavy_header(x, s, cond);
    let f: u8 = if cond { 3u8 } else { 1u8 };
    assert(spec_header_fields(s) == Ok::<(usize, u8), Error>((n as usize, f)));
    assert(header_flags(s) % 2 == 1);
    lemma_heavy_stream_decodes(x, ts, cond);
}

/// Decoding the heavy raw stream of a small input gives back the input.
pub proof fn lemma_heavy_raw_roundtrip(x: Seq<u8>, dst0: Seq<u8>)
    requires
        x.len() <= HEAVY_SMALL_LIM,
        dst0.len() >= x.len(),
    ensures
        decode_spec(heavy_raw_stream(x), dst0) == Ok::<Seq<u8>, Error>(x),
{
    let s = heavy_raw_stream(x);
    let n = x.len() as int;
    assert(s.subrange(0, 8) =~= heavy_header(n, false));
    lemma_heavy_header(x, s, false);
    assert(s.subrange(8, 8 + n) =~= x);
    assert(spec_header_fields(s) == Ok::<(usize, u8), Error>((n as usize, 1u8)));
    if n == 0 {
        assert(x =~= Seq::<u8>::empty());
    } else {
        assert(decode_heavy(s, n) == Ok::<Seq<u8>, Error>(x));
    }
}

/// Decoding a heavy-format encoding of `x`, into any buffer that can hold
/// `x`, gives back `x`.
pub proof fn lemma_heavy_roundtrip(x: Seq<u8>, s: Seq<u8>, dst0: Seq<u8>)
    requires
        is_heavy_encoding(x, s),
        x.len() < 0x100000000000000,
        x.len() <= usize::MAX,
        s.len() <= usize::MAX,
        dst0.len() >= x.len(),
    ensures
        decode_spec(s, dst0) == Ok::<Seq<u8>, Error>(x),
{
    if x.len() <= HEAVY_SMALL_LIM {
        lemma_heavy_raw_roundtrip(x, dst0);
    } else {
        let ts = choose|ts: Seq<Token>|
            #[trigger] heavy_parse_ok(x, ts) && x.len() - parse_end(ts) >= HEAVY_LITERAL_SUFFIX
                && s == heavy_stream(x, ts, heavy_cond(ts));
        lemma_heavy_stream_roundtrip(x, ts, heavy_cond(ts), dst0);
    }
}

/// The header of a heavy stream of an input over 64 bytes declares the
/// input's size and the heavy flag, with the second flag set exactly when
/// there are tokens and fewer than 14 in 100 of them have a match longer
/// than 32 bytes; the literal suffix it declares is at least 64 bytes long.
pub proof fn law_heavy_stream_header(x: Seq<u8>, s: Seq<u8>)
    requires
        is_heavy_encoding(x, s),
        HEAVY_SMALL_LIM < x.len() < 0x100000000000000,
    ensures
        exists|ts: Seq<Token>|
            #[trigger] heavy_parse_ok(x, ts) && s[7] == (if heavy_cond(ts) {
                3u8
            } else {
                1u8
            }) && header_size(s) == x.len() && le64(s, 8) == x.len() - parse_end(ts) && le64(s, 8)
                >= HEAVY_LITERAL_SUFFIX,
{
    let ts = choose|ts: Seq<Token>|
        #[trigger] heavy_parse_ok(x, ts) && x.len() - parse_end(ts) >= HEAVY_LITERAL_SUFFIX && s
            == heavy_stream(x, ts, heavy_cond(ts));
    let cond = heavy_cond(ts);
    let n = x.len() as int;
    let pe = parse_end(ts);
    let h = heavy_header(n, cond);
    let v = (n - pe) as u64;
    let sc = u64_le(v);
    lemma_u64_le((n as u64) | ((if cond { 3u64 } else { 1u64 }) << 56u64));
    lemma_u64_le(v);
    let rest = heavy_ctrl(ts) + lit_area(x, ts) + x.subrange(pe, n);
    assert(s =~= h + sc + rest);
    assert(s.subrange(0, 8) =~= h);
    lemma_heavy_header(x, s, cond);
    assert forall|q: int| 0 <= q < 8 implies #[trigger] s[8 + q] == sc[q] by {
        assert((h + sc)[8 + q] == sc[q]);
    }
    assert(s[8 + 0int] == sc[0]);
    assert(le64(s, 8) == le64(sc, 0));
}

} // verus!
