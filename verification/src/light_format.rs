//! The light stream layout: what a sequence of light tokens encodes as, and
//! the proof that decoding such an encoding gives back its input.
use vstd::prelude::*;
use crate::decode_spec::{
    decode_light, decode_spec, ext_run, forward_copy, header_flags, header_size, light_run, light_step, light_token,
    spec_header_fields,
};
use crate::error::Error;
use crate::format::{
    LITERAL_SUFFIX, MAX_DISTANCE, MAX_MATCH_LEN, MIN_DISTANCE, MIN_MATCH_LEN,
    SMALL_LIM, TOKEN_LIT_MAX,
};
use crate::primitives::{le16, le56, le64};

verus! {

/// A parsed sequence: literal run length, match length and match distance.
pub type Token = (int, int, int);

/// The eight little-endian bytes of `v`.
pub open spec fn u64_le(v: u64) -> Seq<u8> {
    seq![
        (v & 0xff) as u8,
        ((v >> 8u64) & 0xff) as u8,
        ((v >> 16u64) & 0xff) as u8,
        ((v >> 24u64) & 0xff) as u8,
        ((v >> 32u64) & 0xff) as u8,
        ((v >> 40u64) & 0xff) as u8,
        ((v >> 48u64) & 0xff) as u8,
        ((v >> 56u64) & 0xff) as u8,
    ]
}

/// Reading back the eight bytes of `v` gives `v`.
pub proof fn lemma_u64_le(v: u64)
    ensures
        u64_le(v).len() == 8,
        le64(u64_le(v), 0) == v,
        le56(u64_le(v), 0) == v % 0x100000000000000,
        u64_le(v)[7] == v / 0x100000000000000,
{
    assert(v == (v & 0xff) + 256 * ((v >> 8u64) & 0xff) + 65536 * ((v >> 16u64) & 0xff) + 16777216
        * ((v >> 24u64) & 0xff) + 4294967296 * ((v >> 32u64) & 0xff) + 1099511627776 * ((v
        >> 40u64) & 0xff) + 281474976710656 * ((v >> 48u64) & 0xff) + 72057594037927936 * ((v
        >> 56u64) & 0xff)) by (bit_vector);
    assert(v % 0x100000000000000 == (v & 0xff) + 256 * ((v >> 8u64) & 0xff) + 65536 * ((v >> 16u64)
        & 0xff) + 16777216 * ((v >> 24u64) & 0xff) + 4294967296 * ((v >> 32u64) & 0xff)
        + 1099511627776 * ((v >> 40u64) & 0xff) + 281474976710656 * ((v >> 48u64) & 0xff))
        by (bit_vector);
    assert(v / 0x100000000000000 == (v >> 56u64) & 0xff) by (bit_vector);
    assert forall|k: u64| #[trigger] (v >> k) & 0xff < 256 by {
        assert((v >> k) & 0xff < 256) by (bit_vector);
    }
    let s = u64_le(v);
    assert(s[0] == v & 0xff) by {
        assert(v & 0xff < 256) by (bit_vector);
    }
    assert(s[1] == (v >> 8u64) & 0xff);
    assert(s[2] == (v >> 16u64) & 0xff);
    assert(s[3] == (v >> 24u64) & 0xff);
    assert(s[4] == (v >> 32u64) & 0xff);
    assert(s[5] == (v >> 40u64) & 0xff);
    assert(s[6] == (v >> 48u64) & 0xff);
    assert(s[7] == (v >> 56u64) & 0xff);
}

/// The extension bytes of a literal run `r` past its inline part: one 255 for
/// each full 255, then the remainder.
pub open spec fn ext_bytes(r: int) -> Seq<u8> {
    Seq::new((r / 255) as nat, |i: int| 255u8).push((r % 255) as u8)
}

/// The control bytes of one light token.
pub open spec fn light_token_bytes(t: Token) -> Seq<u8> {
    let lit = t.0;
    let ml = t.1;
    let dis = t.2;
    let lrem = if lit < TOKEN_LIT_MAX { lit } else { TOKEN_LIT_MAX as int };
    let head = seq![
        (lrem * 32 + ml - 3) as u8,
        ((dis - MIN_DISTANCE) % 256) as u8,
        ((dis - MIN_DISTANCE) / 256) as u8,
    ];
    if lit >= TOKEN_LIT_MAX {
        head + ext_bytes(lit - TOKEN_LIT_MAX)
    } else {
        head
    }
}

/// The control stream of a token sequence.
pub open spec fn light_ctrl(ts: Seq<Token>) -> Seq<u8>
    decreases ts.len(),
{
    if ts.len() == 0 {
        Seq::empty()
    } else {
        light_ctrl(ts.drop_last()) + light_token_bytes(ts.last())
    }
}

/// The number of input bytes a token sequence covers.
pub open spec fn parse_end(ts: Seq<Token>) -> int
    decreases ts.len(),
{
    if ts.len() == 0 {
        0
    } else {
        parse_end(ts.drop_last()) + ts.last().0 + ts.last().1
    }
}

/// The literal stream of a token sequence over input `x`: the literal runs of
/// the tokens, the last token's run first.
pub open spec fn lit_area(x: Seq<u8>, ts: Seq<Token>) -> Seq<u8>
    decreases ts.len(),
{
    if ts.len() == 0 {
        Seq::empty()
    } else {
        let p = parse_end(ts.drop_last());
        x.subrange(p, p + ts.last().0) + lit_area(x, ts.drop_last())
    }
}

/// A light token that starts at input position `p` is well formed and its
/// match repeats the input `dis` bytes back.
pub open spec fn light_token_ok(x: Seq<u8>, p: int, t: Token) -> bool {
    let lit = t.0;
    let ml = t.1;
    let dis = t.2;
    &&& 0 <= lit
    &&& MIN_MATCH_LEN <= ml <= MAX_MATCH_LEN
    &&& MIN_DISTANCE <= dis <= MAX_DISTANCE
    &&& dis <= p + lit
    &&& p + lit + ml <= x.len()
    &&& forall|k: int| 0 <= k < ml ==> #[trigger] x[p + lit + k] == x[p + lit + k - dis]
}

/// Every token of `ts`, laid end to end from input position 0, is well formed.
pub open spec fn light_parse_ok(x: Seq<u8>, ts: Seq<Token>) -> bool
    decreases ts.len(),
{
    if ts.len() == 0 {
        true
    } else {
        light_parse_ok(x, ts.drop_last()) && light_token_ok(x, parse_end(ts.drop_last()), ts.last())
    }
}

/// The light stream for input `x` parsed as `ts`: header, suffix count,
/// control stream, literal stream, then the literal suffix.
pub open spec fn light_stream(x: Seq<u8>, ts: Seq<Token>) -> Seq<u8> {
    let n = x.len();
    let pe = parse_end(ts);
    u64_le(n as u64) + u64_le((n - pe) as u64) + light_ctrl(ts) + lit_area(x, ts) + x.subrange(
        pe,
        n as int,
    )
}

/// The raw stream of a small input: its size, then its bytes.
pub open spec fn raw_stream(x: Seq<u8>) -> Seq<u8> {
    u64_le(x.len() as u64) + x
}

/// `s` is a light-format encoding of `x`: raw for small inputs, otherwise a
/// well-formed token parse followed by a literal suffix of at least 32 bytes.
pub open spec fn is_light_encoding(x: Seq<u8>, s: Seq<u8>) -> bool {
    if x.len() <= SMALL_LIM {
        s == raw_stream(x)
    } else {
        exists|ts: Seq<Token>|
            #[trigger] light_parse_ok(x, ts) && x.len() - parse_end(ts) >= LITERAL_SUFFIX && s
                == light_stream(x, ts)
    }
}

/// Taking one more token appends that token's control bytes, literal run and
/// input span.
pub proof fn lemma_take_step(x: Seq<u8>, ts: Seq<Token>, i: int)
    requires
        0 <= i < ts.len(),
    ensures
        light_ctrl(ts.take(i + 1)) == light_ctrl(ts.take(i)) + light_token_bytes(ts[i]),
        parse_end(ts.take(i + 1)) == parse_end(ts.take(i)) + ts[i].0 + ts[i].1,
        lit_area(x, ts.take(i + 1)) == x.subrange(
            parse_end(ts.take(i)),
            parse_end(ts.take(i)) + ts[i].0,
        ) + lit_area(x, ts.take(i)),
{
    assert(ts.take(i + 1).drop_last() =~= ts.take(i));
    assert(ts.take(i + 1).last() == ts[i]);
}

/// The control stream of a prefix of the tokens is a prefix of the control
/// stream of a longer prefix.
pub proof fn lemma_ctrl_prefix(ts: Seq<Token>, j: int, k: int)
    requires
        0 <= j <= k <= ts.len(),
    ensures
        light_ctrl(ts.take(j)).len() <= light_ctrl(ts.take(k)).len(),
        forall|q: int|
            0 <= q < light_ctrl(ts.take(j)).len() ==> #[trigger] light_ctrl(ts.take(k))[q]
                == light_ctrl(ts.take(j))[q],
    decreases k - j,
{
    if j < k {
        lemma_ctrl_prefix(ts, j, k - 1);
        lemma_take_step(Seq::empty(), ts, k - 1);
    }
}

/// The prefixes of a well-formed parse are well formed, and each token of it
/// is well formed where it starts.
pub proof fn lemma_parse_prefix(x: Seq<u8>, ts: Seq<Token>, i: int)
    requires
        light_parse_ok(x, ts),
        0 <= i <= ts.len(),
    ensures
        light_parse_ok(x, ts.take(i)),
        0 <= parse_end(ts.take(i)) <= parse_end(ts) <= x.len(),
        i < ts.len() ==> light_token_ok(x, parse_end(ts.take(i)), ts[i]),
    decreases ts.len(),
{
    if ts.len() > 0 {
        let ts2 = ts.drop_last();
        if i == ts.len() {
            assert(ts.take(i) =~= ts);
            lemma_parse_prefix(x, ts2, 0);
        } else {
            lemma_parse_prefix(x, ts2, i);
            assert(ts2.take(i) =~= ts.take(i));
            if i < ts2.len() {
                assert(ts2[i] == ts[i]);
            } else {
                assert(ts2 =~= ts.take(i));
            }
            lemma_parse_prefix(x, ts2, ts2.len() as int);
            assert(ts2.take(ts2.len() as int) =~= ts2);
        }
    } else {
        assert(ts.take(i) =~= ts);
    }
}

/// The literal stream of a prefix of the tokens is a suffix of the literal
/// stream of a longer prefix.
pub proof fn lemma_area_suffix(x: Seq<u8>, ts: Seq<Token>, j: int, k: int)
    requires
        light_parse_ok(x, ts),
        0 <= j <= k <= ts.len(),
    ensures
        lit_area(x, ts.take(k)).subrange(
            lit_area(x, ts.take(k)).len() - lit_area(x, ts.take(j)).len(),
            lit_area(x, ts.take(k)).len() as int,
        ) == lit_area(x, ts.take(j)),
        lit_area(x, ts.take(j)).len() <= lit_area(x, ts.take(k)).len(),
    decreases k - j,
{
    if j < k {
        lemma_area_suffix(x, ts, j, k - 1);
        lemma_take_step(x, ts, k - 1);
        lemma_parse_prefix(x, ts, k - 1);
        let a = lit_area(x, ts.take(k - 1));
        let b = lit_area(x, ts.take(j));
        let p = parse_end(ts.take(k - 1));
        let c = x.subrange(p, p + ts[k - 1].0);
        assert((c + a).subrange((c + a).len() - b.len(), (c + a).len() as int) =~= a.subrange(
            a.len() - b.len(),
            a.len() as int,
        ));
    } else {
        let a = lit_area(x, ts.take(k));
        assert(a.subrange(0, a.len() as int) =~= a);
    }
}

/// Reading the extension bytes of a run `r` gives back `acc + r`.
pub proof fn lemma_ext_run_reads(s: Seq<u8>, c: int, limit: int, acc: int, r: int)
    requires
        0 <= r,
        0 <= acc,
        acc + r <= usize::MAX,
        c + r / 255 < limit,
        forall|j: int| 0 <= j < r / 255 ==> #[trigger] s[c + j] == 255,
        s[c + r / 255] == r % 255,
    ensures
        ext_run(s, c, limit, acc) == Some((acc + r, c + r / 255 + 1)),
    decreases r,
{
    if r >= 255 {
        assert(r / 255 >= 1 && (r - 255) / 255 == r / 255 - 1 && (r - 255) % 255 == r % 255)
            by (nonlinear_arith)
            requires
                r >= 255,
        ;
        assert(s[c + 0] == 255);
        assert forall|j: int| 0 <= j < (r - 255) / 255 implies #[trigger] s[c + 1 + j] == 255 by {
            assert(s[c + (j + 1)] == 255);
        }
        assert(s[c + 1 + (r - 255) / 255] == s[c + r / 255]);
        lemma_ext_run_reads(s, c + 1, limit, acc + 255, r - 255);
    } else {
        assert(r / 255 == 0 && r % 255 == r) by (nonlinear_arith)
            requires
                0 <= r < 255,
        ;
    }
}

/// Copying `m` bytes back-referenced at distance `dis` after `x[..a]`
/// rebuilds `x[..a + m]` when those bytes repeat at that distance.
pub proof fn lemma_forward_copy_rebuilds(x: Seq<u8>, a: int, dis: int, m: int)
    requires
        1 <= dis <= a,
        0 <= m,
        a + m <= x.len(),
        forall|k: int| 0 <= k < m ==> #[trigger] x[a + k] == x[a + k - dis],
    ensures
        forward_copy(x.take(a), dis, m) == x.take(a + m),
    decreases m,
{
    if m > 0 {
        lemma_forward_copy_rebuilds(x, a, dis, m - 1);
        let p = x.take(a + m - 1);
        assert(x[a + (m - 1)] == x[a + (m - 1) - dis]);
        assert(p.push(p[p.len() - dis]) =~= x.take(a + m));
    }
}

/// The bytes of a light stream: the control stream starts at 16, the literal
/// stream right after it.
pub proof fn lemma_light_stream_bytes(x: Seq<u8>, ts: Seq<Token>)
    requires
        0 <= parse_end(ts) <= x.len(),
    ensures
        ({
            let s = light_stream(x, ts);
            let c = light_ctrl(ts);
            let a = lit_area(x, ts);
            &&& forall|q: int| 0 <= q < c.len() ==> #[trigger] s[16 + q] == c[q]
            &&& forall|q: int| 0 <= q < a.len() ==> #[trigger] s[16 + c.len() + q] == a[q]
            &&& s.len() == 16 + c.len() + a.len() + (x.len() - parse_end(ts))
            &&& s.subrange((16 + c.len() + a.len()) as int, s.len() as int) == x.subrange(
                parse_end(ts),
                x.len() as int,
            )
        }),
{
    let n = x.len();
    let pe = parse_end(ts);
    lemma_u64_le(n as u64);
    lemma_u64_le((n - pe) as u64);
    let s = light_stream(x, ts);
    let c = light_ctrl(ts);
    let a = lit_area(x, ts);
    let h = u64_le(n as u64) + u64_le((n - pe) as u64);
    let suf = x.subrange(pe, n as int);
    assert(s == ((h + c) + a) + suf);
    assert(h.len() == 16);
    assert forall|q: int| 0 <= q < c.len() implies #[trigger] s[16 + q] == c[q] by {
        assert((h + c)[16 + q] == c[q]);
        assert(((h + c) + a)[16 + q] == (h + c)[16 + q]);
    }
    assert forall|q: int| 0 <= q < a.len() implies #[trigger] s[16 + c.len() + q] == a[q] by {
        assert(((h + c) + a)[16 + c.len() + q] == a[q]);
    }
    assert(s.subrange((16 + c.len() + a.len()) as int, s.len() as int) =~= x.subrange(pe, n as int));
}

/// The light token at control position `control` of a stream holding the
/// control bytes of token `t` there parses as `t`.
pub proof fn lemma_light_token_at(s: Seq<u8>, control: int, literals: int, t: Token)
    requires
        0 <= t.0 <= usize::MAX,
        MIN_MATCH_LEN <= t.1 <= MAX_MATCH_LEN,
        MIN_DISTANCE <= t.2 <= MAX_DISTANCE,
        0 <= control,
        control + light_token_bytes(t).len() <= literals,
        forall|q: int|
            0 <= q < light_token_bytes(t).len() ==> #[trigger] s[control + q]
                == light_token_bytes(t)[q],
    ensures
        light_token(s, control, literals) == Some(
            (t.0, t.1, t.2, control + light_token_bytes(t).len()),
        ),
{
    let lit = t.0;
    let ml = t.1;
    let dis = t.2;
    let tb = light_token_bytes(t);
    let lrem = if lit < TOKEN_LIT_MAX { lit } else { TOKEN_LIT_MAX as int };
    assert(s[control + 0] == tb[0]);
    assert(s[control + 1] == tb[1]);
    assert(s[control + 2] == tb[2]);
    assert(tb[0] == lrem * 32 + ml - 3);
    assert(le16(s, control + 1) == dis - MIN_DISTANCE);
    if lit >= TOKEN_LIT_MAX {
        let r = lit - TOKEN_LIT_MAX;
        let e = ext_bytes(r);
        assert(tb.len() == 3 + e.len());
        assert forall|j: int| 0 <= j < r / 255 implies #[trigger] s[control + 3 + j] == 255 by {
            assert(s[control + (3 + j)] == tb[3 + j]);
        }
        assert(s[control + 3 + r / 255] == r % 255) by {
            assert(s[control + (3 + r / 255)] == tb[3 + r / 255]);
        }
        lemma_ext_run_reads(s, control + 3, literals, TOKEN_LIT_MAX as int, r);
    }
}

/// The decoder state after the first `i` tokens of a light stream: control
/// position, literal position and output.
pub open spec fn light_state(x: Seq<u8>, ts: Seq<Token>, i: int) -> (int, int, Seq<u8>) {
    (
        16 + light_ctrl(ts.take(i)).len() as int,
        16 + light_ctrl(ts).len() + lit_area(x, ts).len() - lit_area(x, ts.take(i)).len(),
        x.take(parse_end(ts.take(i))),
    )
}

/// One decoder step on a light stream moves from the state after `i` tokens
/// to the state after `i + 1`.
#[verifier::rlimit(40)]
pub proof fn lemma_light_step_at(x: Seq<u8>, ts: Seq<Token>, dst0: Seq<u8>, i: int)
    requires
        light_parse_ok(x, ts),
        x.len() <= usize::MAX,
        dst0.len() >= x.len(),
        0 <= i < ts.len(),
    ensures
        light_state(x, ts, i).0 + 3 <= light_state(x, ts, i).1,
        light_step(
            light_stream(x, ts),
            dst0,
            parse_end(ts),
            light_state(x, ts, i).0,
            light_state(x, ts, i).1,
            light_state(x, ts, i).2,
        ) == Some(light_state(x, ts, i + 1)),
        light_state(x, ts, i).0 < light_state(x, ts, i + 1).0,
        light_state(x, ts, i + 1).1 <= light_state(x, ts, i).1,
{
    let n = ts.len() as int;
    let s = light_stream(x, ts);
    let c = light_ctrl(ts);
    let a = lit_area(x, ts);
    let pe = parse_end(ts);
    assert(ts.take(n) =~= ts);
    lemma_parse_prefix(x, ts, i);
    lemma_parse_prefix(x, ts, n);
    lemma_light_stream_bytes(x, ts);
    let control = light_state(x, ts, i).0;
    let literals = light_state(x, ts, i).1;
    let t = ts[i];
    let tb = light_token_bytes(t);
    let p = parse_end(ts.take(i));
    lemma_take_step(x, ts, i);
    lemma_ctrl_prefix(ts, i + 1, n);
    lemma_area_suffix(x, ts, i + 1, n);
    lemma_parse_prefix(x, ts, i + 1);
    let ci = light_ctrl(ts.take(i));
    assert forall|q: int| 0 <= q < tb.len() implies #[trigger] s[control + q] == tb[q] by {
        assert(light_ctrl(ts.take(i + 1))[ci.len() + q] == tb[q]);
        assert(c[ci.len() + q] == light_ctrl(ts.take(i + 1))[ci.len() + q]);
        assert(s[16 + (ci.len() + q)] == c[ci.len() + q]);
    }
    assert(light_token_ok(x, p, t));
    lemma_light_token_at(s, control, literals, t);
    let lit = t.0;
    let ml = t.1;
    let dis = t.2;
    let next = control + tb.len();
    let lits = literals - lit;
    let ai1 = lit_area(x, ts.take(i + 1));
    let chunk = x.subrange(p, p + lit);
    assert(s.subrange(lits, literals) =~= chunk) by {
        assert forall|q: int| 0 <= q < lit implies #[trigger] s.subrange(lits, literals)[q]
            == chunk[q] by {
            assert(ai1[q] == chunk[q]);
            assert(a[a.len() - ai1.len() + q] == ai1[q]);
            assert(s[16 + c.len() + (a.len() - ai1.len() + q)] == a[a.len() - ai1.len() + q]);
        }
    }
    let out2 = x.take(p) + chunk;
    assert(out2 =~= x.take(p + lit));
    lemma_forward_copy_rebuilds(x, p + lit, dis, ml);
    let nn = if ml < 32 { ml } else { 32 };
    assert(nn == ml);
    let o = forward_copy(out2, dis, nn) + dst0.subrange(p + lit + nn, p + lit + ml);
    assert(dst0.subrange(p + lit + nn, p + lit + ml) =~= Seq::<u8>::empty());
    assert(o =~= x.take(parse_end(ts.take(i + 1))));
}

/// Decoding a light stream from the state reached after its first `i`
/// tokens yields the whole covered input.
pub proof fn lemma_light_decode_from(x: Seq<u8>, ts: Seq<Token>, dst0: Seq<u8>, i: int)
    requires
        light_parse_ok(x, ts),
        x.len() <= usize::MAX,
        dst0.len() >= x.len(),
        0 <= i <= ts.len(),
    ensures
        light_run(
            light_stream(x, ts),
            dst0,
            parse_end(ts),
            light_state(x, ts, i).0,
            light_state(x, ts, i).1,
            light_state(x, ts, i).2,
        ) == Some(x.take(parse_end(ts))),
    decreases ts.len() - i,
{
    if i < ts.len() {
        lemma_light_step_at(x, ts, dst0, i);
        lemma_light_decode_from(x, ts, dst0, i + 1);
    } else {
        assert(ts.take(i) =~= ts);
    }
}

/// Decoding the light stream of a well-formed parse of a large input gives
/// back the input.
pub proof fn lemma_light_stream_decodes(x: Seq<u8>, ts: Seq<Token>, dst0: Seq<u8>)
    requires
        light_parse_ok(x, ts),
        x.len() - parse_end(ts) >= LITERAL_SUFFIX,
        SMALL_LIM < x.len() < 0x100000000000000,
        x.len() <= usize::MAX,
        light_stream(x, ts).len() <= usize::MAX,
        dst0.len() >= x.len(),
    ensures
        decode_light(light_stream(x, ts), dst0, x.len() as int) == Ok::<Seq<u8>, Error>(x),
{
    let n = x.len() as int;
    let s = light_stream(x, ts);
    let pe = parse_end(ts);
    lemma_parse_prefix(x, ts, 0);
    lemma_u64_le((n - pe) as u64);
    lemma_light_stream_bytes(x, ts);
    let h2 = u64_le((n - pe) as u64);
    assert forall|q: int| 0 <= q < 8 implies #[trigger] s[8 + q] == h2[q] by {
        let h = u64_le(n as u64) + h2;
        assert(h[8 + q] == h2[q]);
    }
    assert(s[8 + 0int] == h2[0]);
    assert(le64(s, 8) == n - pe);
    assert(ts.take(0) =~= Seq::<Token>::empty());
    lemma_light_decode_from(x, ts, dst0, 0);
    assert(x.take(0) =~= Seq::<u8>::empty());
    assert(light_state(x, ts, 0) == (16int, s.len() - (n - pe), Seq::<u8>::empty()));
    assert(x.take(pe) + x.subrange(pe, n) =~= x);
}

/// The header of a light stream declares the input's size and no flags.
pub proof fn lemma_light_stream_header(x: Seq<u8>, s: Seq<u8>)
    requires
        s.len() >= 8,
        s.subrange(0, 8) == u64_le(x.len() as u64),
        x.len() < 0x100000000000000,
    ensures
        header_size(s) == x.len(),
        s[7] == 0,
{
    lemma_u64_le(x.len() as u64);
    let h = u64_le(x.len() as u64);
    assert forall|q: int| 0 <= q < 8 implies #[trigger] s[q] == h[q] by {
        assert(s.subrange(0, 8)[q] == s[q]);
    }
}

/// Decoding the raw stream of a small input gives back the input.
pub proof fn lemma_raw_roundtrip(x: Seq<u8>, dst0: Seq<u8>)
    requires
        x.len() <= SMALL_LIM,
        dst0.len() >= x.len(),
    ensures
        decode_spec(raw_stream(x), dst0) == Ok::<Seq<u8>, Error>(x),
{
    let s = raw_stream(x);
    let n = x.len() as int;
    assert(s.subrange(0, 8) =~= u64_le(n as u64));
    lemma_light_stream_header(x, s);
    assert(s.subrange(8, 8 + n) =~= x);
    assert(spec_header_fields(s) == Ok::<(usize, u8), Error>((n as usize, 0u8)));
    assert(decode_light(s, dst0, n) == Ok::<Seq<u8>, Error>(x));
    if n == 0 {
        assert(x =~= Seq::<u8>::empty());
    } else {
        assert(header_flags(s) % 2 == 0);
    }
}

/// Decoding the light stream of a well-formed parse of a large input, into
/// any buffer that can hold the input, gives back the input.
pub proof fn lemma_light_stream_roundtrip(x: Seq<u8>, ts: Seq<Token>, dst0: Seq<u8>)
    requires
        light_parse_ok(x, ts),
        x.len() - parse_end(ts) >= LITERAL_SUFFIX,
        SMALL_LIM < x.len() < 0x100000000000000,
        x.len() <= usize::MAX,
        light_stream(x, ts).len() <= usize::MAX,
        dst0.len() >= x.len(),
    ensures
        decode_spec(light_stream(x, ts), dst0) == Ok::<Seq<u8>, Error>(x),
{
    let s = light_stream(x, ts);
    let n = x.len() as int;
    lemma_parse_prefix(x, ts, 0);
    assert(s.subrange(0, 8) =~= u64_le(n as u64));
    lemma_light_stream_header(x, s);
    assert(spec_header_fields(s) == Ok::<(usize, u8), Error>((n as usize, 0u8)));
    lemma_light_stream_decodes(x, ts, dst0);
}

/// Decoding a light-format encoding of `x`, into any buffer that can hold
/// `x`, gives back `x`.
pub proof fn lemma_light_roundtrip(x: Seq<u8>, s: Seq<u8>, dst0: Seq<u8>)
    requires
        is_light_encoding(x, s),
        x.len() < 0x100000000000000,
        x.len() <= usize::MAX,
        s.len() <= usize::MAX,
        dst0.len() >= x.len(),
    ensures
        decode_spec(s, dst0) == Ok::<Seq<u8>, Error>(x),
{
    if x.len() <= SMALL_LIM {
        lemma_raw_roundtrip(x, dst0);
    } else {
        let ts = choose|ts: Seq<Token>|
            #[trigger] light_parse_ok(x, ts) && x.len() - parse_end(ts) >= LITERAL_SUFFIX && s
                == light_stream(x, ts);
        lemma_light_stream_roundtrip(x, ts, dst0);
    }
}

} // verus!
