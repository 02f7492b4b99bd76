//! The parses the greedy light encoders write, as functions of the input:
//! each encoder is a loop over a state, and its parse is the token sequence
//! that stepping the state to the end of the input gives.
use vstd::prelude::*;
use crate::format::{HASHTAB_LAG, LITERAL_SUFFIX, MAX_MATCH_LEN, MIN_MATCH_LEN, TOKEN_LIT_MAX};
use crate::light_encode::{back_steps, regime_clamp, LIGHT_REGIME_THRESHOLD};
use crate::light_format::Token;
use crate::match_find::{
    batch_end, even4_filled, hash4_of, latest6_filled, latest6_probe, probe_len, ring_best,
    ring_filled, swift_candidate, HASH_SIZE,
};
use crate::primitives::le32;
use crate::match_find::law_probe_len_at_least;

verus! {

/// The state of a greedy light encoder between two steps: the position it
/// probes, how far the hash tables are filled, where the pending literals
/// start, the run of misses, the pending candidate match, the regime
/// counter, the hash tables and the tokens written so far.
pub struct GreedyState {
    pub pos: int,
    pub hpos: int,
    pub lit: int,
    pub miss_run: int,
    pub cand_pos: int,
    pub cand_len: int,
    pub cand_lst: int,
    pub regime: int,
    pub ents: Seq<u16>,
    pub ents4: Seq<u16>,
    pub curs: Seq<u8>,
    pub ts: Seq<Token>,
}

/// Which greedy encoder: level -1's six-byte-hash one, level 0's two-table
/// one, or a ring encoder of width `width`, keen (level 2) or loose
/// (level 1).
pub enum GreedyKind {
    Blitz,
    Swift,
    Ring { width: int, keen: bool },
}

/// The first longest match among the ring slots of `pos`'s four-byte hash
/// (its length and candidate), or `(0, 0)` before the tables can be probed.
pub open spec fn ring_probe(x: Seq<u8>, ents: Seq<u16>, width: int, pos: int) -> (int, int) {
    if pos > HASHTAB_LAG {
        ring_best(x, ents, hash4_of(le32(x, pos) as u32) * width, pos, width)
    } else {
        (0, 0)
    }
}

/// The keen encoder's look ahead from a match at `pos` (length `mlen`,
/// candidate `lst`), probing `npos` onward up to two bytes past `base`
/// while the match is under 16 bytes: a strictly longer match moves it;
/// the look ahead stops at the first probe that does not improve a match of
/// at least 8 bytes. Gives the position, length and candidate.
pub open spec fn keen_look(
    x: Seq<u8>,
    ents: Seq<u16>,
    width: int,
    mel: int,
    base: int,
    npos: int,
    pos: int,
    mlen: int,
    lst: int,
) -> (int, int, int)
    decreases base + 3 - npos,
{
    if npos <= base + 2 && npos + MAX_MATCH_LEN <= mel && mlen < 16 {
        let probe = ring_best(x, ents, hash4_of(le32(x, npos) as u32) * width, npos, width);
        let improved = probe.0 > mlen;
        let p2 = if improved {
            npos
        } else {
            pos
        };
        let m2 = if improved {
            probe.0
        } else {
            mlen
        };
        let l2 = if improved {
            probe.1
        } else {
            lst
        };
        if !improved && m2 >= 8 {
            (p2, m2, l2)
        } else {
            keen_look(x, ents, width, mel, base, npos + 1, p2, m2, l2)
        }
    } else {
        (pos, mlen, lst)
    }
}

/// The regime vote for a token after a literal run of `lit_len` bytes:
/// none (`vote` 0), the loose vote (1) or the keen vote (2).
pub open spec fn regime_vote(vote: int, lit_len: int) -> int {
    if vote == 2 {
        if lit_len >= TOKEN_LIT_MAX {
            3
        } else {
            -1
        }
    } else if vote == 1 {
        if 7 <= lit_len <= 32 {
            2
        } else {
            -1
        }
    } else {
        0
    }
}

/// The match the ring encoder settles on at `st.pos`, probing the filled
/// rings `ents`: the position, length and candidate of the match, whether it
/// is taken, and the pending candidate after the step. A probe as long as
/// the acceptance length is taken (keen, after looking ahead); otherwise,
/// once literals have piled up, the pending candidate or the probe is
/// taken when long enough; otherwise a long enough probe may become the
/// pending candidate.
#[verifier::opaque]
pub open spec fn ring_select(x: Seq<u8>, width: int, keen: bool, st: GreedyState, ents: Seq<u16>) -> (
    int,
    int,
    int,
    bool,
    int,
    int,
    int,
) {
    let mel = x.len() - LITERAL_SUFFIX;
    let pr = ring_probe(x, ents, width, st.pos);
    let accept_len: int = if keen && st.regime >= LIGHT_REGIME_THRESHOLD {
        MIN_MATCH_LEN as int
    } else if keen {
        6
    } else {
        7
    };
    let accept0 = pr.0 >= accept_len;
    if accept0 && keen {
        let k = keen_look(x, ents, width, mel, st.pos, st.pos + 1, st.pos, pr.0, pr.1);
        (k.0, k.1, k.2, true, st.cand_pos, st.cand_len, st.cand_lst)
    } else if !accept0 {
        let pend = st.pos - st.lit;
        let fire = if keen || st.regime >= LIGHT_REGIME_THRESHOLD {
            pend >= 6
        } else {
            pend == 6
        };
        if fire {
            let take = st.cand_len != 0 && (pr.0 < MIN_MATCH_LEN || st.cand_pos + st.cand_len >= st.pos
                + pr.0);
            if take {
                (
                    st.cand_pos,
                    st.cand_len,
                    st.cand_lst,
                    st.cand_len >= MIN_MATCH_LEN,
                    st.cand_pos,
                    st.cand_len,
                    st.cand_lst,
                )
            } else {
                (st.pos, pr.0, pr.1, pr.0 >= MIN_MATCH_LEN, st.cand_pos, st.cand_len, st.cand_lst)
            }
        } else if pr.0 >= MIN_MATCH_LEN && (st.cand_len == 0 || st.pos + pr.0 >= st.cand_pos
            + st.cand_len) {
            (st.pos, pr.0, pr.1, false, st.pos, pr.0, pr.1)
        } else {
            (st.pos, pr.0, pr.1, false, st.cand_pos, st.cand_len, st.cand_lst)
        }
    } else {
        (st.pos, pr.0, pr.1, true, st.cand_pos, st.cand_len, st.cand_lst)
    }
}

/// The state after a greedy step from `st` that filled the tables up to
/// `hpos1` (giving `ents`, `ents4` and `curs`) and settled on `sel`
/// (position, length, candidate, taken, pending candidate): on a miss the
/// probe moves on by `miss_step` plus a byte per 64 misses in a row; on a
/// match, it is extended backwards, its token written (with the regime vote
/// `vote`), and the probe moves past it.
#[verifier::opaque]
pub open spec fn greedy_finish(
    x: Seq<u8>,
    miss_step: int,
    vote: int,
    st: GreedyState,
    hpos1: int,
    ents: Seq<u16>,
    ents4: Seq<u16>,
    curs: Seq<u8>,
    sel: (int, int, int, bool, int, int, int),
) -> GreedyState {
    if !sel.3 {
        GreedyState {
            pos: sel.0 + miss_step + st.miss_run / 64,
            hpos: hpos1,
            lit: st.lit,
            miss_run: st.miss_run + 1,
            cand_pos: sel.4,
            cand_len: sel.5,
            cand_lst: sel.6,
            regime: st.regime,
            ents,
            ents4,
            curs,
            ts: st.ts,
        }
    } else {
        let k = back_steps(x, st.lit, sel.0, sel.2, sel.1);
        let p = sel.0 - k;
        let l = sel.2 - k;
        let m = sel.1 + k;
        let lit_len = p - st.lit;
        let end = p + m;
        GreedyState {
            pos: if end < st.pos {
                st.pos
            } else {
                end
            },
            hpos: hpos1,
            lit: end,
            miss_run: 0,
            cand_pos: sel.4,
            cand_len: 0,
            cand_lst: sel.6,
            regime: if vote == 0 {
                st.regime
            } else {
                regime_clamp(st.regime + regime_vote(vote, lit_len))
            },
            ents,
            ents4,
            curs,
            ts: st.ts.push((lit_len, m, p - l)),
        }
    }
}

/// The match a non-keen greedy encoder settles on at `st.pos`, given its
/// probe `pr` (length and candidate), whether the probe is long enough to
/// take at once, and whether literals have piled up (`fire`): the probe,
/// or once literals have piled up the pending candidate or the probe when
/// long enough; otherwise a long enough probe may become the pending
/// candidate. Gives the position, length and candidate of the match,
/// whether it is taken, and the pending candidate after the step.
pub open spec fn greedy_select(st: GreedyState, pr: (int, int), accept0: bool, fire: bool) -> (
    int,
    int,
    int,
    bool,
    int,
    int,
    int,
) {
    if accept0 {
        (st.pos, pr.0, pr.1, true, st.cand_pos, st.cand_len, st.cand_lst)
    } else if fire {
        let take = st.cand_len != 0 && (pr.0 < MIN_MATCH_LEN || st.cand_pos + st.cand_len >= st.pos
            + pr.0);
        if take {
            (
                st.cand_pos,
                st.cand_len,
                st.cand_lst,
                st.cand_len >= MIN_MATCH_LEN,
                st.cand_pos,
                st.cand_len,
                st.cand_lst,
            )
        } else {
            (st.pos, pr.0, pr.1, pr.0 >= MIN_MATCH_LEN, st.cand_pos, st.cand_len, st.cand_lst)
        }
    } else if pr.0 >= MIN_MATCH_LEN && (st.cand_len == 0 || st.pos + pr.0 >= st.cand_pos
        + st.cand_len) {
        (st.pos, pr.0, pr.1, false, st.pos, pr.0, pr.1)
    } else {
        (st.pos, pr.0, pr.1, false, st.cand_pos, st.cand_len, st.cand_lst)
    }
}

/// The match level -1 settles on at `st.pos`, probing the six-byte-hash
/// table `ents`: a probe of 9 bytes or more is taken at once; literals
/// count as piled up from 5 on.
#[verifier::opaque]
pub open spec fn blitz_select(x: Seq<u8>, st: GreedyState, ents: Seq<u16>) -> (int, int, int, bool, int, int, int) {
    let pr: (int, int) = if st.pos > HASHTAB_LAG {
        let c = latest6_probe(x, ents, st.pos);
        (probe_len(x, st.pos, c), c)
    } else {
        (0, 0)
    };
    greedy_select(st, pr, pr.0 >= 9, st.pos - st.lit + 2 > 6)
}

/// The match level 0 settles on at `st.pos`, probing the six-byte and
/// four-byte hash tables: a probe of 7 bytes or more is taken at once;
/// literals count as piled up at 6 (from 6 on once the regime has reached
/// its threshold).
#[verifier::opaque]
pub open spec fn swift_select(x: Seq<u8>, st: GreedyState, e6: Seq<u16>, e4: Seq<u16>) -> (int, int, int, bool, int, int, int) {
    let pr: (int, int) = if st.pos > HASHTAB_LAG {
        let c = swift_candidate(x, e6, e4, st.pos, st.cand_len);
        (probe_len(x, st.pos, c), c)
    } else {
        (0, 0)
    };
    let pend = st.pos - st.lit;
    let fire = if st.regime >= LIGHT_REGIME_THRESHOLD {
        pend >= 6
    } else {
        pend == 6
    };
    greedy_select(st, pr, pr.0 >= 7, fire)
}

/// One step of a greedy encoder on input `x`: fill its tables up to
/// `st.pos`, settle on a match there, and finish the step.
pub open spec fn greedy_step(x: Seq<u8>, kind: GreedyKind, st: GreedyState) -> GreedyState {
    let hpos1 = batch_end(st.hpos, st.pos, 8);
    match kind {
        GreedyKind::Blitz => {
            let e = latest6_filled(st.ents, x, st.hpos, hpos1);
            greedy_finish(x, 2, 0, st, hpos1, e, st.ents4, st.curs, blitz_select(x, st, e))
        },
        GreedyKind::Swift => {
            let e6 = latest6_filled(st.ents, x, st.hpos, hpos1);
            let e4 = even4_filled(st.ents4, x, st.hpos, hpos1);
            greedy_finish(x, 1, 1, st, hpos1, e6, e4, st.curs, swift_select(x, st, e6, e4))
        },
        GreedyKind::Ring { width, keen } => {
            let tab = ring_filled((st.ents, st.curs), width, x, st.hpos, hpos1);
            greedy_finish(
                x,
                1,
                if keen {
                    2
                } else {
                    1
                },
                st,
                hpos1,
                tab.0,
                st.ents4,
                tab.1,
                ring_select(x, width, keen, st, tab.0),
            )
        },
    }
}

/// The first part of the greedy encoders' progress measure: how far the
/// probe position is from the last position a match may start at.
pub open spec fn probe_room(x: Seq<u8>, st: GreedyState) -> int {
    let mel = x.len() - LITERAL_SUFFIX;
    if mel >= st.pos {
        mel - st.pos
    } else {
        0
    }
}

/// The second part of the greedy encoders' progress measure: how many
/// bytes the pending literals may still grow by.
pub open spec fn literal_room(x: Seq<u8>, st: GreedyState) -> int {
    x.len() - LITERAL_SUFFIX - st.lit
}

/// `n` is a step forward from `st`: the probe room shrinks, or it stays and
/// the literal room shrinks.
pub open spec fn greedy_progress(x: Seq<u8>, st: GreedyState, n: GreedyState) -> bool {
    ||| 0 <= probe_room(x, n) < probe_room(x, st)
    ||| probe_room(x, n) == probe_room(x, st) && 0 <= literal_room(x, n) < literal_room(x, st)
}

/// The tokens a greedy encoder writes from state `st` on: it steps while a
/// whole match still fits before the literal suffix.
#[verifier::opaque]
pub open spec fn greedy_run(x: Seq<u8>, kind: GreedyKind, st: GreedyState) -> Seq<Token>
    decreases probe_room(x, st), literal_room(x, st),
{
    if st.pos + MAX_MATCH_LEN > x.len() - LITERAL_SUFFIX {
        st.ts
    } else {
        let n = greedy_step(x, kind, st);
        if greedy_progress(x, st, n) {
            greedy_run(x, kind, n)
        } else {
            n.ts
        }
    }
}

/// The state a greedy encoder starts from, with its tables empty.
pub open spec fn greedy_start(ents: Seq<u16>, ents4: Seq<u16>, curs: Seq<u8>) -> GreedyState {
    GreedyState {
        pos: 0,
        hpos: 0,
        lit: 0,
        miss_run: 0,
        cand_pos: 0,
        cand_len: 0,
        cand_lst: 0,
        regime: 0,
        ents,
        ents4,
        curs,
        ts: Seq::empty(),
    }
}

/// The parse the ring encoder of width `width` (keen or loose) writes for
/// input `x`.
pub open spec fn ring_parse(x: Seq<u8>, width: int, keen: bool) -> Seq<Token> {
    greedy_run(
        x,
        GreedyKind::Ring { width, keen },
        greedy_start(
            Seq::new((HASH_SIZE * width) as nat, |i: int| 0u16),
            Seq::empty(),
            Seq::new(HASH_SIZE as nat, |i: int| 0u8),
        ),
    )
}

/// The parse the level -1 encoder writes for input `x`.
pub open spec fn blitz_parse(x: Seq<u8>) -> Seq<Token> {
    greedy_run(
        x,
        GreedyKind::Blitz,
        greedy_start(Seq::new(HASH_SIZE as nat, |i: int| 0u16), Seq::empty(), Seq::empty()),
    )
}

/// The parse the level 0 encoder writes for input `x`.
pub open spec fn swift_parse(x: Seq<u8>) -> Seq<Token> {
    greedy_run(
        x,
        GreedyKind::Swift,
        greedy_start(
            Seq::new(HASH_SIZE as nat, |i: int| 0u16),
            Seq::new(HASH_SIZE as nat, |i: int| 0u16),
            Seq::empty(),
        ),
    )
}

/// A match extends backwards by no more bytes than lie between the pending
/// literals' start and it.
pub proof fn lemma_back_steps_range(s: Seq<u8>, lit: int, pos: int, lst: int, ml: int)
    requires
        0 <= lit <= pos,
    ensures
        0 <= back_steps(s, lit, pos, lst, ml) <= pos - lit,
    decreases pos,
{
    reveal(back_steps);
    if 0 <= lit < pos && lst > 0 && ml < MAX_MATCH_LEN && s[pos - 1] == s[lst - 1] {
        lemma_back_steps_range(s, lit, pos - 1, lst - 1, ml + 1);
    }
}

/// A step that takes the match `sel` writes one token: its match repeats the
/// bytes `sel.0 - sel.2` back, starts at or before `sel.0` (after the
/// pending literals) and ends where the match `sel` ends.
pub proof fn lemma_finish_takes(
    x: Seq<u8>,
    miss_step: int,
    vote: int,
    st: GreedyState,
    hpos1: int,
    ents: Seq<u16>,
    ents4: Seq<u16>,
    curs: Seq<u8>,
    sel: (int, int, int, bool, int, int, int),
)
    requires
        sel.3,
        0 <= st.lit <= sel.0,
    ensures
        ({
            let n = greedy_finish(x, miss_step, vote, st, hpos1, ents, ents4, curs, sel);
            let t = n.ts.last();
            &&& n.ts.len() == st.ts.len() + 1
            &&& n.ts.drop_last() == st.ts
            &&& t.2 == sel.0 - sel.2
            &&& st.lit <= st.lit + t.0 <= sel.0
            &&& st.lit + t.0 + t.1 == sel.0 + sel.1
            &&& t.1 >= sel.1
        }),
{
    reveal(greedy_finish);
    lemma_back_steps_range(x, st.lit, sel.0, sel.2, sel.1);
    let n = greedy_finish(x, miss_step, vote, st, hpos1, ents, ents4, curs, sel);
    assert(n.ts.drop_last() =~= st.ts);
}

/// The candidate a level -1 step from `st` probes: the six-byte-hash table,
/// filled up to the step, looked up at `st.pos`.
pub open spec fn blitz_candidate(x: Seq<u8>, st: GreedyState) -> int {
    latest6_probe(x, latest6_filled(st.ents, x, st.hpos, batch_end(st.hpos, st.pos, 8)), st.pos)
}

/// At level -1, when nothing is pending and the candidate of the six-byte
/// hash agrees with the probed position over `len` bytes (4 to 32), however
/// far back it lies, the step uses that match: once it reaches 9 bytes, or
/// literals have piled up, the step writes a token repeating the bytes at
/// the candidate's distance, whose match starts at or before the position
/// and reaches at least `len` bytes past it; otherwise it either does that
/// or keeps the match, at least `len` bytes long, as the pending candidate.
pub proof fn law_blitz_probe_used(x: Seq<u8>, st: GreedyState, len: int)
    requires
        st.pos > HASHTAB_LAG,
        0 <= st.lit <= st.pos,
        st.cand_len == 0,
        MIN_MATCH_LEN <= len <= MAX_MATCH_LEN,
        forall|k: int| 0 <= k < len ==> #[trigger] x[st.pos + k] == x[blitz_candidate(x, st) + k],
    ensures
        ({
            let n = greedy_step(x, GreedyKind::Blitz, st);
            let c = blitz_candidate(x, st);
            let t = n.ts.last();
            let taken = {
                &&& n.ts.len() == st.ts.len() + 1
                &&& n.ts.drop_last() == st.ts
                &&& t.2 == st.pos - c
                &&& st.lit + t.0 <= st.pos
                &&& st.lit + t.0 + t.1 >= st.pos + len
            };
            let pending = {
                &&& n.ts == st.ts
                &&& n.cand_pos == st.pos
                &&& n.cand_lst == c
                &&& n.cand_len >= len
            };
            &&& len >= 9 || st.pos - st.lit + 2 > 6 ==> taken
            &&& taken || pending
        }),
{
    let hpos1 = batch_end(st.hpos, st.pos, 8);
    let e = latest6_filled(st.ents, x, st.hpos, hpos1);
    let c = blitz_candidate(x, st);
    law_probe_len_at_least(x, st.pos, c, len);
    reveal(blitz_select);
    let sel = blitz_select(x, st, e);
    assert(sel.0 == st.pos && sel.2 == c && sel.1 >= len);
    assert(greedy_step(x, GreedyKind::Blitz, st) == greedy_finish(x, 2, 0, st, hpos1, e, st.ents4, st.curs, sel));
    if sel.3 {
        lemma_finish_takes(x, 2, 0, st, hpos1, e, st.ents4, st.curs, sel);
    } else {
        assert(sel.4 == st.pos && sel.5 >= len && sel.6 == c);
        reveal(greedy_finish);
    }
}

/// The candidate a level 0 step from `st` probes: the six-byte-hash table's,
/// or, when its first four bytes differ and nothing is pending, the
/// four-byte-hash table's, both filled up to the step.
pub open spec fn swift_step_candidate(x: Seq<u8>, st: GreedyState) -> int {
    let hpos1 = batch_end(st.hpos, st.pos, 8);
    swift_candidate(
        x,
        latest6_filled(st.ents, x, st.hpos, hpos1),
        even4_filled(st.ents4, x, st.hpos, hpos1),
        st.pos,
        st.cand_len,
    )
}

/// At level 0, when nothing is pending and the probed candidate agrees with
/// the position over `len` bytes (4 to 32), however far back it lies, the
/// step uses that match: from 7 bytes on it writes a token repeating the
/// bytes at the candidate's distance, whose match starts at or before the
/// position and reaches at least `len` bytes past it; below that it either
/// does so or keeps the match, at least `len` bytes long, as the pending
/// candidate.
pub proof fn law_swift_probe_used(x: Seq<u8>, st: GreedyState, len: int)
    requires
        st.pos > HASHTAB_LAG,
        0 <= st.lit <= st.pos,
        st.cand_len == 0,
        MIN_MATCH_LEN <= len <= MAX_MATCH_LEN,
        forall|k: int| 0 <= k < len ==> #[trigger] x[st.pos + k] == x[swift_step_candidate(x, st) + k],
    ensures
        ({
            let n = greedy_step(x, GreedyKind::Swift, st);
            let c = swift_step_candidate(x, st);
            let t = n.ts.last();
            let taken = {
                &&& n.ts.len() == st.ts.len() + 1
                &&& n.ts.drop_last() == st.ts
                &&& t.2 == st.pos - c
                &&& st.lit + t.0 <= st.pos
                &&& st.lit + t.0 + t.1 >= st.pos + len
            };
            let pending = {
                &&& n.ts == st.ts
                &&& n.cand_pos == st.pos
                &&& n.cand_lst == c
                &&& n.cand_len >= len
            };
            &&& len >= 7 ==> taken
            &&& taken || pending
        }),
{
    let hpos1 = batch_end(st.hpos, st.pos, 8);
    let e6 = latest6_filled(st.ents, x, st.hpos, hpos1);
    let e4 = even4_filled(st.ents4, x, st.hpos, hpos1);
    let c = swift_step_candidate(x, st);
    law_probe_len_at_least(x, st.pos, c, len);
    reveal(swift_select);
    let sel = swift_select(x, st, e6, e4);
    assert(sel.0 == st.pos && sel.2 == c && sel.1 >= len);
    assert(greedy_step(x, GreedyKind::Swift, st) == greedy_finish(x, 1, 1, st, hpos1, e6, e4, st.curs, sel));
    if sel.3 {
        lemma_finish_takes(x, 1, 1, st, hpos1, e6, e4, st.curs, sel);
    } else {
        assert(sel.4 == st.pos && sel.5 >= len && sel.6 == c);
        reveal(greedy_finish);
    }
}

/// The ring probe a ring step of width `width` from `st` makes at `pos`:
/// the rings, filled up to the step, probed at `pos`.
pub open spec fn ring_step_probe(x: Seq<u8>, width: int, st: GreedyState, pos: int) -> (int, int) {
    ring_probe(
        x,
        ring_filled((st.ents, st.curs), width, x, st.hpos, batch_end(st.hpos, st.pos, 8)).0,
        width,
        pos,
    )
}

/// At level 1, a ring probe of 7 bytes or more is taken at once: the step
/// writes a token repeating the bytes at the probe's distance, whose match
/// starts at or before the probed position and ends where the probe's does.
pub proof fn law_loose_takes_probe(x: Seq<u8>, width: int, st: GreedyState)
    requires
        st.pos > HASHTAB_LAG,
        0 <= st.lit <= st.pos,
        ring_step_probe(x, width, st, st.pos).0 >= 7,
    ensures
        ({
            let n = greedy_step(x, GreedyKind::Ring { width, keen: false }, st);
            let pr = ring_step_probe(x, width, st, st.pos);
            let t = n.ts.last();
            &&& n.ts.len() == st.ts.len() + 1
            &&& n.ts.drop_last() == st.ts
            &&& t.2 == st.pos - pr.1
            &&& st.lit + t.0 <= st.pos
            &&& st.lit + t.0 + t.1 == st.pos + pr.0
        }),
{
    let hpos1 = batch_end(st.hpos, st.pos, 8);
    let tab = ring_filled((st.ents, st.curs), width, x, st.hpos, hpos1);
    reveal(ring_select);
    let sel = ring_select(x, width, false, st, tab.0);
    lemma_finish_takes(x, 1, 1, st, hpos1, tab.0, st.ents4, tab.1, sel);
}

/// The keen look ahead never shortens the match, and never moves it before
/// the position it looks ahead from.
pub proof fn lemma_keen_look_mono(
    x: Seq<u8>,
    ents: Seq<u16>,
    width: int,
    mel: int,
    base: int,
    npos: int,
    pos: int,
    mlen: int,
    lst: int,
)
    requires
        base <= pos,
        base < npos,
    ensures
        keen_look(x, ents, width, mel, base, npos, pos, mlen, lst).1 >= mlen,
        keen_look(x, ents, width, mel, base, npos, pos, mlen, lst).0 >= base,
    decreases base + 3 - npos,
{
    if npos <= base + 2 && npos + MAX_MATCH_LEN <= mel && mlen < 16 {
        let probe = ring_best(x, ents, hash4_of(le32(x, npos) as u32) * width, npos, width);
        let improved = probe.0 > mlen;
        let p2 = if improved { npos } else { pos };
        let m2 = if improved { probe.0 } else { mlen };
        let l2 = if improved { probe.1 } else { lst };
        if !(!improved && m2 >= 8) {
            lemma_keen_look_mono(x, ents, width, mel, base, npos + 1, p2, m2, l2);
        }
    }
}

/// At level 2, a match accepted at the probed position while under 16
/// bytes is weighed against the ring probes one and two positions on: the
/// token written is at least as long as the accepted match, at least as
/// long as the probe one position on (where a match there fits before the
/// literal suffix), and at least as long as the probe two positions on
/// (where that fits), unless the look ahead stopped before it: the match
/// after the first look ahead reached 16 bytes, or the probe one position
/// on was no longer than a match of 8 bytes or more.
pub proof fn law_keen_lookahead(x: Seq<u8>, width: int, st: GreedyState)
    requires
        st.pos > HASHTAB_LAG,
        0 <= st.lit <= st.pos,
        ring_step_probe(x, width, st, st.pos).0 >= (if st.regime >= LIGHT_REGIME_THRESHOLD {
            MIN_MATCH_LEN as int
        } else {
            6
        }),
        ring_step_probe(x, width, st, st.pos).0 < 16,
    ensures
        ({
            let n = greedy_step(x, GreedyKind::Ring { width, keen: true }, st);
            let mel = x.len() - LITERAL_SUFFIX;
            let m0 = ring_step_probe(x, width, st, st.pos).0;
            let r1 = ring_step_probe(x, width, st, st.pos + 1).0;
            let r2 = ring_step_probe(x, width, st, st.pos + 2).0;
            let m1 = if r1 > m0 {
                r1
            } else {
                m0
            };
            let t = n.ts.last();
            &&& n.ts.len() == st.ts.len() + 1
            &&& n.ts.drop_last() == st.ts
            &&& t.1 >= m0
            &&& st.pos + 1 + MAX_MATCH_LEN <= mel ==> t.1 >= r1
            &&& st.pos + 2 + MAX_MATCH_LEN <= mel && m1 < 16 && !(r1 <= m0 && m0 >= 8) ==> t.1 >= r2
        }),
{
    let mel = x.len() - LITERAL_SUFFIX;
    let hpos1 = batch_end(st.hpos, st.pos, 8);
    let tab = ring_filled((st.ents, st.curs), width, x, st.hpos, hpos1);
    let e = tab.0;
    let base = st.pos;
    let pr = ring_probe(x, e, width, base);
    reveal(ring_select);
    let sel = ring_select(x, width, true, st, e);
    let k = keen_look(x, e, width, mel, base, base + 1, base, pr.0, pr.1);
    assert(sel.0 == k.0 && sel.1 == k.1 && sel.2 == k.2 && sel.3);
    lemma_keen_look_mono(x, e, width, mel, base, base + 1, base, pr.0, pr.1);
    let m0 = pr.0;
    let r1 = ring_probe(x, e, width, base + 1);
    let r2 = ring_probe(x, e, width, base + 2);
    if base + 1 + MAX_MATCH_LEN <= mel {
        let improved = r1.0 > m0;
        let p2 = if improved { base + 1 } else { base };
        let m2 = if improved { r1.0 } else { m0 };
        let l2 = if improved { r1.1 } else { pr.1 };
        if !improved && m2 >= 8 {
            assert(k == (p2, m2, l2));
        } else {
            assert(k == keen_look(x, e, width, mel, base, base + 2, p2, m2, l2));
            lemma_keen_look_mono(x, e, width, mel, base, base + 2, p2, m2, l2);
            if base + 2 + MAX_MATCH_LEN <= mel && m2 < 16 {
                let improved2 = r2.0 > m2;
                let p3 = if improved2 { base + 2 } else { p2 };
                let m3 = if improved2 { r2.0 } else { m2 };
                let l3 = if improved2 { r2.1 } else { l2 };
                if !improved2 && m3 >= 8 {
                    assert(keen_look(x, e, width, mel, base, base + 2, p2, m2, l2) == (p3, m3, l3));
                } else {
                    assert(keen_look(x, e, width, mel, base, base + 2, p2, m2, l2) == keen_look(
                        x,
                        e,
                        width,
                        mel,
                        base,
                        base + 3,
                        p3,
                        m3,
                        l3,
                    ));
                    lemma_keen_look_mono(x, e, width, mel, base, base + 3, p3, m3, l3);
                }
            }
        }
    }
    lemma_finish_takes(x, 1, 2, st, hpos1, e, st.ents4, tab.1, sel);
}

/// A greedy encoder's parse from a state where a whole match still fits
/// before the literal suffix is its parse from the state one step on (each
/// step moves it forward); where none fits, the parse is the tokens written
/// so far.
pub proof fn law_greedy_run_steps(x: Seq<u8>, kind: GreedyKind, st: GreedyState)
    ensures
        st.pos + MAX_MATCH_LEN > x.len() - LITERAL_SUFFIX ==> greedy_run(x, kind, st) == st.ts,
        st.pos + MAX_MATCH_LEN <= x.len() - LITERAL_SUFFIX && greedy_progress(
            x,
            st,
            greedy_step(x, kind, st),
        ) ==> greedy_run(x, kind, st) == greedy_run(x, kind, greedy_step(x, kind, st)),
{
    reveal(greedy_run);
}

} // verus!
