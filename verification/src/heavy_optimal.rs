//! The level 4 encoder: for each block, the cheapest heavy parse over the
//! suffix-array match tables, found by dynamic programming over the heavy
//! match lengths and then traced back into tokens.
use vstd::prelude::*;
use crate::format::{
    code_floor, heavy_code_floor_table, heavy_len, heavy_len_of, is_code_floor, lemma_code_floor_unique,
    lemma_heavy_len_increasing, EXT_HEADER_SIZE, HEADER_SIZE, HEAVY_LITERAL_SUFFIX,
    HEAVY_MAX_DISTANCE, HEAVY_MAX_MATCH_LEN, HEAVY_MIN_DISTANCE, HEAVY_SMALL_LIM,
    HEAVY_NDIS, HEAVY_TOKEN_LIT_MAX, MIN_MATCH_LEN, VECTOR_WIDTH,
};
use crate::heavy_encode::{
    emit_heavy_token, finish_heavy, heavy_raw, heavy_room, heavy_writer_ok, lemma_heavy_code_of,
    start_heavy,
};
use crate::heavy_format::{
    heavy_cond, heavy_ctrl, heavy_len_ok, heavy_parse_ok, heavy_raw_stream, heavy_stream,
    heavy_token_bytes, heavy_token_ok, is_heavy_encoding, lemma_heavy_stream_bytes, long_count,
};
use crate::light_format::{ext_bytes, lit_area};
use crate::light_format::{parse_end, Token};
use crate::light_optimal::{
    anchor_ok, cost_bound, final_commit_of, lemma_extras_bound, lemma_extras_step,
    lemma_final_commit_unique, literal_extras, next_extra,
};
use crate::live_set::HeavyLiveSet;
use crate::optimal::{finder_dists, finder_lens, heavy_find_matches, lemma_finder_tables, in_window, live_covers, live_window, match_entry_ok, match_table_ok};
use crate::sais::sorted_suffix_array;
use crate::block_parse::{
    block_end_of, hard_end_of, heavy_block_tables_ok, heavy_opt_prefix, heavy_opt_tables_ok,
    heavy_optimal_parse, lemma_heavy_block_tables, seg_end_of, seg_start_of,
};
use crate::sais::{sa_rank_ok, sa_sorted};

verus! {

/// Input bytes per block of the heavy parser.
pub const HEAVY_BLOCK_SIZE: usize = 2097152;

/// Bytes of lookahead past a block that its suffix array covers.
pub const HEAVY_PAD_LEN: usize = 193;

/// The cost of a position no parse reaches.
pub const HEAVY_DP_INF: usize = usize::MAX;

/// The extension bytes of a heavy literal run.
pub fn heavy_literal_extras(run: usize) -> (e: usize)
    ensures
        e == literal_extras(run as int, HEAVY_TOKEN_LIT_MAX as int),
{
    if run < HEAVY_TOKEN_LIT_MAX {
        0
    } else {
        1 + (run - HEAVY_TOKEN_LIT_MAX) / 255
    }
}

/// The cost at which a parse stands at anchor `p`: the committed cost at
/// `qstar`, or the reached cost of a block position.
pub open spec fn cost_at(dp: Seq<usize>, p: int, block_start: int, qstar: int, qstar_cost: int) -> int {
    if p == qstar {
        qstar_cost
    } else {
        dp[p - block_start] as int
    }
}

/// The arrival at reached block position `t`: a heavy match length from the
/// tables, reached after a literal run from anchor `anc[t]` whose cost plus
/// the run and the token is exactly `dp[t]`.
pub open spec fn heavy_entry_ok(
    dp: Seq<usize>,
    alen: Seq<u8>,
    anc: Seq<int>,
    max_len: Seq<u8>,
    block_start: int,
    qstar: int,
    qstar_cost: int,
    t: int,
) -> bool {
    &&& dp[t] <= cost_bound(block_start + t)
    &&& t == 0 ==> block_start == 0 && qstar == 0 && dp[0] == qstar_cost
    &&& t > 0 ==> {
        let len = alen[t] as int;
        let ms = block_start + t - len;
        let p = anc[t];
        &&& MIN_MATCH_LEN <= len <= t
        &&& len <= max_len[t - len]
        &&& heavy_len_ok(len)
        &&& qstar <= p <= ms
        &&& anchor_ok(dp, p, block_start, qstar)
        &&& cost_at(dp, p, block_start, qstar, qstar_cost) + (ms - p) + literal_extras(
            ms - p,
            HEAVY_TOKEN_LIT_MAX as int,
        ) + 4 == dp[t]
    }
}

/// The anchors of the reached positions are at or before `upto`.
pub open spec fn anchors_before(dp: Seq<usize>, anc: Seq<int>, upto: int) -> bool {
    forall|t: int| 0 < t < dp.len() && dp[t] != HEAVY_DP_INF ==> #[trigger] anc[t] <= upto
}

/// Every reached position of the block has a valid arrival.
pub open spec fn heavy_dp_ok(
    dp: Seq<usize>,
    alen: Seq<u8>,
    anc: Seq<int>,
    max_len: Seq<u8>,
    block_start: int,
    qstar: int,
    qstar_cost: int,
) -> bool {
    &&& dp.len() == max_len.len() + 1
    &&& alen.len() == dp.len()
    &&& anc.len() == dp.len()
    &&& forall|t: int|
        0 <= t < dp.len() && dp[t] != HEAVY_DP_INF ==> #[trigger] heavy_entry_ok(
            dp,
            alen,
            anc,
            max_len,
            block_start,
            qstar,
            qstar_cost,
            t,
        )
}

/// The block's cost table and arrival lengths after the match codes
/// `code..=top` at block index `i` are weighed, in that order: the match of
/// each code's length is reached at `cost`, and replaces what the table
/// holds at its end only when strictly cheaper.
#[verifier::opaque]
pub open spec fn heavy_relax(
    dp: Seq<usize>,
    alen: Seq<u8>,
    i: int,
    cost: int,
    code: int,
    top: int,
) -> (Seq<usize>, Seq<u8>)
    decreases top + 1 - code,
{
    if code > top {
        (dp, alen)
    } else {
        let len = heavy_len_of(code);
        let t = i + len;
        if cost < dp[t] {
            heavy_relax(dp.update(t, cost as usize), alen.update(t, len as u8), i, cost, code + 1, top)
        } else {
            heavy_relax(dp, alen, i, cost, code + 1, top)
        }
    }
}

/// One position `pos` of the heavy block's cost minimisation, from the state
/// `st` (cost table, arrival lengths, literal run and its cost): past the
/// block's start the literal run grows by a byte, or restarts at `pos` when
/// the table reaches `pos` no dearer; then every match code up to the
/// longest match the tables offer at `pos` is weighed after that run.
#[verifier::opaque]
pub open spec fn heavy_dp_step(
    max_len: Seq<u8>,
    block_start: int,
    st: (Seq<usize>, Seq<u8>, int, int),
    pos: int,
) -> (Seq<usize>, Seq<u8>, int, int) {
    let i = pos - block_start;
    let dp = st.0;
    let alen = st.1;
    let lr = st.2;
    let lc = st.3;
    let run_cost: (int, int) = if pos > block_start {
        let r = lr + 1;
        let c = lc + 1 + (if r >= next_extra(lr, HEAVY_TOKEN_LIT_MAX as int) {
            1int
        } else {
            0int
        });
        if dp[i] <= c {
            (0, dp[i] as int)
        } else {
            (r, c)
        }
    } else {
        (lr, lc)
    };
    let longest: int = if i < max_len.len() {
        max_len[i] as int
    } else {
        0
    };
    if longest >= MIN_MATCH_LEN {
        let relaxed = heavy_relax(dp, alen, i, run_cost.1 + 4, 1, code_floor(longest));
        (relaxed.0, relaxed.1, run_cost.0, run_cost.1)
    } else {
        (dp, alen, run_cost.0, run_cost.1)
    }
}

/// The state of the heavy block's cost minimisation before position `pos`,
/// starting from the table `dp0` and arrival lengths `alen0`, with the
/// literal run from the committed start `qstar` (whose cost is `qstar_cost`).
#[verifier::opaque]
pub open spec fn heavy_dp_state(
    max_len: Seq<u8>,
    block_start: int,
    qstar: int,
    qstar_cost: int,
    dp0: Seq<usize>,
    alen0: Seq<u8>,
    pos: int,
) -> (Seq<usize>, Seq<u8>, int, int)
    decreases pos - block_start,
{
    if pos <= block_start {
        let run = block_start - qstar;
        (
            if block_start == 0 {
                dp0.update(0, qstar_cost as usize)
            } else {
                dp0
            },
            alen0,
            run,
            qstar_cost + run + literal_extras(run, HEAVY_TOKEN_LIT_MAX as int),
        )
    } else {
        heavy_dp_step(
            max_len,
            block_start,
            heavy_dp_state(max_len, block_start, qstar, qstar_cost, dp0, alen0, pos - 1),
            pos - 1,
        )
    }
}

/// Runs the cost minimisation over one block of the heavy parser. Returns
/// the literal run and cost that stand at the block's end, with the ghost
/// anchors of the arrivals.
#[verifier::rlimit(40)]
fn heavy_block_dp(
    max_len: &Vec<u8>,
    dp: &mut Vec<usize>,
    arrival_len: &mut Vec<u8>,
    code_floor: &[u8; 256],
    block_start: usize,
    block_end: usize,
    qstar: usize,
    qstar_cost: usize,
) -> (r: (usize, usize, Ghost<int>, Ghost<Seq<int>>))
    requires
        block_start < block_end <= isize::MAX,
        max_len.len() == block_end - block_start,
        old(dp).len() == max_len.len() + 1,
        old(arrival_len).len() == old(dp).len(),
        forall|t: int| 0 <= t < old(dp).len() ==> old(dp)@[t] == HEAVY_DP_INF,
        forall|i: int|
            0 <= i < max_len.len() ==> (max_len@[i] == 0 || (MIN_MATCH_LEN <= max_len@[i]
                <= HEAVY_MAX_MATCH_LEN && block_start + i + max_len@[i] <= block_end)),
        forall|len: int| 0 <= len < 256 ==> is_code_floor(len, #[trigger] code_floor@[len] as int),
        qstar <= block_start,
        qstar_cost <= cost_bound(qstar as int),
        block_start == 0 ==> qstar == 0 && qstar_cost == EXT_HEADER_SIZE,
    ensures
        heavy_dp_ok(
            final(dp)@,
            final(arrival_len)@,
            r.3@,
            max_len@,
            block_start as int,
            qstar as int,
            qstar_cost as int,
        ),
        ({
            let (literal_run, literal_cost, anchor, anc) = r;
            &&& anchor@ == block_end - literal_run
            &&& anchor_ok(final(dp)@, anchor@, block_start as int, qstar as int)
            &&& literal_cost == cost_at(final(dp)@, anchor@, block_start as int, qstar as int, qstar_cost as int) + literal_run + literal_extras(
                literal_run as int,
                HEAVY_TOKEN_LIT_MAX as int,
            )
            &&& 0 <= cost_at(final(dp)@, anchor@, block_start as int, qstar as int, qstar_cost as int) <= cost_bound(anchor@)
            &&& qstar <= anchor@ <= block_end
        }),
        (final(dp)@, final(arrival_len)@, r.0 as int, r.1 as int) == heavy_dp_state(
            max_len@,
            block_start as int,
            qstar as int,
            qstar_cost as int,
            old(dp)@,
            old(arrival_len)@,
            block_end + 1,
        ),
{
    let block_len = block_end - block_start;
    let mut literal_run = block_start - qstar;
    proof {
        lemma_extras_bound(literal_run as int, HEAVY_TOKEN_LIT_MAX as int);
        assert(qstar_cost + literal_run + literal_run / 2 <= cost_bound(block_start as int))
            by (nonlinear_arith)
            requires
                qstar_cost <= cost_bound(qstar as int),
                literal_run == block_start - qstar,
                qstar <= block_start,
        ;
    }
    let mut literal_cost = qstar_cost + literal_run + heavy_literal_extras(literal_run);
    let mut next_extra_at = if literal_run < HEAVY_TOKEN_LIT_MAX {
        HEAVY_TOKEN_LIT_MAX
    } else {
        literal_run + 255 - (literal_run - HEAVY_TOKEN_LIT_MAX) % 255
    };
    let ghost mut anchor: int = qstar as int;
    let ghost mut anc: Seq<int> = Seq::new((block_len + 1) as nat, |t: int| 0int);
    let ghost dp0 = dp@;
    let ghost alen0 = arrival_len@;
    if block_start == 0 {
        dp.set(0, qstar_cost);
    }
    let mut pos = block_start;
    proof {
        reveal(heavy_dp_state);
    }
    while pos <= block_end
        invariant
            block_start < block_end <= isize::MAX,
            block_len == block_end - block_start,
            max_len.len() == block_len,
            forall|i: int|
                0 <= i < max_len.len() ==> (max_len@[i] == 0 || (MIN_MATCH_LEN <= max_len@[i]
                    <= HEAVY_MAX_MATCH_LEN && block_start + i + max_len@[i] <= block_end)),
            forall|len: int| 0 <= len < 256 ==> is_code_floor(len, #[trigger] code_floor@[len] as int),
            qstar <= block_start,
            qstar_cost <= cost_bound(qstar as int),
            block_start == 0 ==> qstar == 0 && qstar_cost == EXT_HEADER_SIZE,
            block_start <= pos <= block_end + 1,
            heavy_dp_ok(dp@, arrival_len@, anc, max_len@, block_start as int, qstar as int, qstar_cost as int),
            anchors_before(dp@, anc, pos as int),
            anchor + literal_run == (if pos == block_start {
                pos as int
            } else {
                pos - 1
            }),
            anchor_ok(dp@, anchor, block_start as int, qstar as int),
            qstar <= anchor,
            literal_cost == cost_at(dp@, anchor, block_start as int, qstar as int, qstar_cost as int) + literal_run + literal_extras(
                literal_run as int,
                HEAVY_TOKEN_LIT_MAX as int,
            ),
            next_extra_at == next_extra(literal_run as int, HEAVY_TOKEN_LIT_MAX as int),
            0 <= cost_at(dp@, anchor, block_start as int, qstar as int, qstar_cost as int) <= cost_bound(anchor),
            literal_cost <= cost_bound(anchor + literal_run),
            dp0 == old(dp)@,
            alen0 == old(arrival_len)@,
            (dp@, arrival_len@, literal_run as int, literal_cost as int) == heavy_dp_state(
                max_len@,
                block_start as int,
                qstar as int,
                qstar_cost as int,
                dp0,
                alen0,
                pos as int,
            ),
        decreases block_end + 1 - pos,
    {
        let i = pos - block_start;
        let ghost st0 = (dp@, arrival_len@, literal_run as int, literal_cost as int);
        if pos > block_start {
            proof {
                lemma_extras_step(literal_run as int, HEAVY_TOKEN_LIT_MAX as int);
                lemma_extras_bound(literal_run + 1, HEAVY_TOKEN_LIT_MAX as int);
                let ac = cost_at(dp@, anchor, block_start as int, qstar as int, qstar_cost as int);
                assert(ac + (literal_run + 1) + (literal_run + 1) / 2 <= cost_bound(
                    anchor + literal_run + 1,
                )) by (nonlinear_arith)
                    requires
                        ac <= cost_bound(anchor),
                        anchor >= 0,
                        literal_run >= 0,
                ;
            }
            literal_run += 1;
            if literal_run >= next_extra_at {
                literal_cost += 1;
                next_extra_at = literal_run + 255;
            }
            literal_cost += 1;
            let current = dp[i];
            if current <= literal_cost {
                proof {
                    assert(heavy_entry_ok(
                        dp@,
                        arrival_len@,
                        anc,
                        max_len@,
                        block_start as int,
                        qstar as int,
                        qstar_cost as int,
                        i as int,
                    ));
                    anchor = pos as int;
                }
                literal_cost = current;
                literal_run = 0;
                next_extra_at = HEAVY_TOKEN_LIT_MAX;
            }
        }
        let longest = if i < block_len {
            max_len[i] as usize
        } else {
            0
        };
        let ghost dp_in = dp@;
        let ghost alen_in = arrival_len@;
        if longest >= MIN_MATCH_LEN {
            let cost = literal_cost + 4;
            let top_code = code_floor[longest] as usize;
            proof {
                assert(is_code_floor(longest as int, top_code as int));
                lemma_code_floor_unique(longest as int, top_code as int);
            }
            let mut code: usize = 1;
            while code <= top_code
                invariant
                    1 <= code <= top_code + 1,
                    top_code < 64,
                    is_code_floor(longest as int, top_code as int),
                    MIN_MATCH_LEN <= longest <= HEAVY_MAX_MATCH_LEN,
                    i < block_len,
                    longest == max_len@[i as int],
                    i + longest <= block_len,
                    pos == block_start + i,
                    block_len == block_end - block_start,
                    block_end <= isize::MAX,
                    max_len.len() == block_len,
                    qstar <= block_start,
                    block_start == 0 ==> qstar == 0,
                    cost == literal_cost + 4,
                    literal_cost <= cost_bound(pos as int),
                    anchor + literal_run == pos,
                    qstar <= anchor,
                    anchor_ok(dp@, anchor, block_start as int, qstar as int),
                    literal_cost == cost_at(dp@, anchor, block_start as int, qstar as int, qstar_cost as int) + literal_run + literal_extras(
                        literal_run as int,
                        HEAVY_TOKEN_LIT_MAX as int,
                    ),
                    0 <= cost_at(dp@, anchor, block_start as int, qstar as int, qstar_cost as int) <= cost_bound(anchor),
                    heavy_dp_ok(dp@, arrival_len@, anc, max_len@, block_start as int, qstar as int, qstar_cost as int),
            anchors_before(dp@, anc, pos as int),
                    heavy_relax(dp_in, alen_in, i as int, cost as int, 1, top_code as int) == heavy_relax(
                        dp@,
                        arrival_len@,
                        i as int,
                        cost as int,
                        code as int,
                        top_code as int,
                    ),
                decreases top_code + 1 - code,
            {
                let len = heavy_len(code);
                let target = i + len as usize;
                proof {
                    lemma_heavy_code_of(code as int);
                    if code < top_code {
                        lemma_heavy_len_increasing(code as int, top_code as int);
                    }
                }
                proof {
                    reveal(heavy_relax);
                }
                if cost < dp[target] {
                    let ghost dp0 = dp@;
                    let ghost al0 = arrival_len@;
                    let ghost anc0 = anc;
                    dp.set(target, cost);
                    arrival_len.set(target, len);
                    proof {
                        anc = anc.update(target as int, anchor);
                        assert(cost <= cost_bound(block_start + target)) by (nonlinear_arith)
                            requires
                                cost == literal_cost + 4,
                                literal_cost <= cost_bound(pos as int),
                                target >= i + 4,
                                pos == block_start + i,
                        ;
                        assert(cost_at(dp@, anchor, block_start as int, qstar as int, qstar_cost as int)
                            == cost_at(dp0, anchor, block_start as int, qstar as int, qstar_cost as int));
                        assert(len as int <= longest);
                        assert(arrival_len@[target as int] == len);
                        assert(block_start + target - len == pos);
                        assert(anchor_ok(dp@, anchor, block_start as int, qstar as int));
                        assert(heavy_entry_ok(
                            dp@,
                            arrival_len@,
                            anc,
                            max_len@,
                            block_start as int,
                            qstar as int,
                            qstar_cost as int,
                            target as int,
                        ));
                        assert forall|t: int|
                            0 <= t < dp@.len() && dp@[t] != HEAVY_DP_INF implies #[trigger] heavy_entry_ok(
                            dp@,
                            arrival_len@,
                            anc,
                            max_len@,
                            block_start as int,
                            qstar as int,
                            qstar_cost as int,
                            t,
                        ) by {
                            if t != target {
                                assert(heavy_entry_ok(
                                    dp0,
                                    al0,
                                    anc0,
                                    max_len@,
                                    block_start as int,
                                    qstar as int,
                                    qstar_cost as int,
                                    t,
                                ));
                                if t > 0 {
                                    let p = anc0[t];
                                    assert(cost_at(dp@, p, block_start as int, qstar as int, qstar_cost as int)
                                        == cost_at(dp0, p, block_start as int, qstar as int, qstar_cost as int));
                                }
                            }
                        }
                    }
                }
                code += 1;
            }
            proof {
                reveal(heavy_relax);
            }
        }
        proof {
            reveal(heavy_dp_state);
            reveal(heavy_dp_step);
        }
        pos += 1;
    }
    (literal_run, literal_cost, Ghost(anchor), Ghost(anc))
}

/// Where the last block's heavy parse ends its matches: the reached
/// position, or the committed start, whose cost plus the literal suffix
/// behind it is least (the earliest such position on ties).
fn heavy_final_commit(
    dp: &Vec<usize>,
    arrival_len: &Vec<u8>,
    max_len: &Vec<u8>,
    block_start: usize,
    block_end: usize,
    src_size: usize,
    qstar: usize,
    qstar_cost: usize,
    Ghost(anc): Ghost<Seq<int>>,
) -> (r: (usize, usize))
    requires
        heavy_dp_ok(dp@, arrival_len@, anc, max_len@, block_start as int, qstar as int, qstar_cost as int),
        block_end == block_start + max_len.len(),
        block_end == src_size,
        src_size <= isize::MAX,
        qstar <= block_start,
        qstar_cost <= cost_bound(qstar as int),
    ensures
        anchor_ok(dp@, r.0 as int, block_start as int, qstar as int),
        qstar <= r.0 <= block_end,
        r.1 <= cost_bound(r.0 as int),
        forall|p: int|
            block_start <= p <= block_end && #[trigger] dp@[p - block_start] != HEAVY_DP_INF ==> r.1 + (
            src_size - r.0) <= dp@[p - block_start] + (src_size - p) && (p < r.0 ==> r.1 + (src_size
            - r.0) < dp@[p - block_start] + (src_size - p)),
        r.0 != qstar ==> r.1 + (src_size - r.0) < qstar_cost + (src_size - qstar),
        r.1 == cost_at(dp@, r.0 as int, block_start as int, qstar as int, qstar_cost as int),
        r.1 + (src_size - r.0) <= qstar_cost + (src_size - qstar),
        r.0 == final_commit_of(
            dp@,
            block_start as int,
            block_end as int,
            src_size as int,
            qstar as int,
            qstar_cost as int,
        ),
{
    let mut best_total = qstar_cost + (src_size - qstar);
    let mut best_commit = qstar;
    let mut best_commit_cost = qstar_cost;
    let mut pos = block_start;
    while pos <= block_end
        invariant
            heavy_dp_ok(dp@, arrival_len@, anc, max_len@, block_start as int, qstar as int, qstar_cost as int),
            block_end == block_start + max_len.len(),
            block_end == src_size,
            src_size <= isize::MAX,
            qstar <= block_start,
            block_start <= pos <= block_end + 1,
            anchor_ok(dp@, best_commit as int, block_start as int, qstar as int),
            qstar <= best_commit <= block_end,
            best_commit_cost <= cost_bound(best_commit as int),
            best_total == best_commit_cost + (src_size - best_commit),
            best_commit <= pos,
            forall|p: int|
                block_start <= p < pos && #[trigger] dp@[p - block_start] != HEAVY_DP_INF ==> best_total
                    <= dp@[p - block_start] + (src_size - p) && (p < best_commit ==> best_total
                    < dp@[p - block_start] + (src_size - p)),
            best_commit != qstar ==> best_total < qstar_cost + (src_size - qstar),
            best_total <= qstar_cost + (src_size - qstar),
            best_commit_cost == cost_at(
                dp@,
                best_commit as int,
                block_start as int,
                qstar as int,
                qstar_cost as int,
            ),
        decreases block_end + 1 - pos,
    {
        let cost = dp[pos - block_start];
        if cost != HEAVY_DP_INF {
            proof {
                assert(heavy_entry_ok(
                    dp@,
                    arrival_len@,
                    anc,
                    max_len@,
                    block_start as int,
                    qstar as int,
                    qstar_cost as int,
                    pos - block_start,
                ));
                assert(cost + (src_size - pos) <= usize::MAX) by (nonlinear_arith)
                    requires
                        cost <= cost_bound(pos as int),
                        pos <= src_size <= isize::MAX,
                ;
            }
            let total = cost + (src_size - pos);
            if total < best_total {
                best_total = total;
                best_commit = pos;
                best_commit_cost = cost;
            }
        }
        pos += 1;
    }
    proof {
        lemma_final_commit_unique(
            dp@,
            block_start as int,
            block_end as int,
            src_size as int,
            qstar as int,
            qstar_cost as int,
            best_commit as int,
        );
    }
    (best_commit, best_commit_cost)
}

/// A chosen heavy token: where its match starts, its length and distance.
#[derive(Clone, Copy)]
pub struct HeavyTokenRecord {
    pub match_start: usize,
    pub len: u8,
    pub dis: u32,
}

/// A chosen token lies in the block and uses the block's match tables.
pub open spec fn heavy_token_in_table(
    t: HeavyTokenRecord,
    max_len: Seq<u8>,
    match_dis: Seq<u32>,
    block_start: int,
) -> bool {
    &&& block_start <= t.match_start
    &&& t.match_start - block_start < max_len.len()
    &&& MIN_MATCH_LEN <= t.len <= max_len[t.match_start - block_start]
    &&& heavy_len_ok(t.len as int)
    &&& t.dis == match_dis[t.match_start - block_start]
}

/// The heavy tokens of a block, last first: each from the tables, each
/// ending by the start of the one after it, the last ending at `commit` and
/// the first starting at or after `qstar`.
pub open spec fn heavy_chain_ok(
    toks: Seq<HeavyTokenRecord>,
    max_len: Seq<u8>,
    match_dis: Seq<u32>,
    block_start: int,
    qstar: int,
    commit: int,
) -> bool {
    &&& forall|k: int| 0 <= k < toks.len() ==> heavy_token_in_table(#[trigger] toks[k], max_len, match_dis, block_start)
    &&& toks.len() == 0 ==> commit == qstar
    &&& toks.len() > 0 ==> toks[0].match_start + toks[0].len == commit && qstar <= toks.last().match_start
    &&& forall|k: int| 0 <= k < toks.len() - 1 ==> toks[k + 1].match_start + toks[k + 1].len <= #[trigger] toks[k].match_start
}

/// The stream bytes of one heavy token whose literal run is `run` bytes:
/// its four bytes, its extension bytes and its literals.
pub open spec fn heavy_token_cost(run: int) -> int {
    4 + run + literal_extras(run, HEAVY_TOKEN_LIT_MAX as int)
}

/// The stream bytes of a block's heavy tokens (last first): each token's
/// bytes, its literal run reaching back to the end of the token before it,
/// or to `qstar` for the first.
#[verifier::opaque]
pub open spec fn heavy_chain_bytes(toks: Seq<HeavyTokenRecord>, qstar: int) -> int
    decreases toks.len(),
{
    if toks.len() == 0 {
        0
    } else {
        let rest = toks.drop_first();
        let prev_end = if rest.len() == 0 {
            qstar
        } else {
            rest[0].match_start + rest[0].len
        };
        heavy_chain_bytes(rest, qstar) + heavy_token_cost(toks[0].match_start - prev_end)
    }
}

/// The stream tokens of a block's heavy tokens (last first), in stream
/// order: each with its literal run reaching back to the end of the token
/// before it, or to `qstar` for the first.
#[verifier::opaque]
pub open spec fn heavy_chain_tokens(toks: Seq<HeavyTokenRecord>, qstar: int) -> Seq<Token>
    decreases toks.len(),
{
    if toks.len() == 0 {
        Seq::empty()
    } else {
        let rest = toks.drop_first();
        let prev_end = if rest.len() == 0 {
            qstar
        } else {
            rest[0].match_start + rest[0].len
        };
        heavy_chain_tokens(rest, qstar).push(
            (toks[0].match_start - prev_end, toks[0].len as int, toks[0].dis as int),
        )
    }
}

/// Pushing onto a concatenation pushes onto its second part.
pub proof fn lemma_concat_push(a: Seq<Token>, b: Seq<Token>, t: Token)
    ensures
        (a + b).push(t) == a + b.push(t),
{
    assert((a + b).push(t) =~= a + b.push(t));
}

/// A chain's tokens from the `k`-th on are those from the next on, then the
/// `k`-th one's token, its literal run reaching back to the end of the next
/// one (or to `qstar` for the last); its bytes grow by that token's.
pub proof fn lemma_heavy_chain_step(toks: Seq<HeavyTokenRecord>, k: int, qstar: int)
    requires
        0 <= k < toks.len(),
    ensures
        ({
            let before = toks.subrange(k + 1, toks.len() as int);
            let after = toks.subrange(k, toks.len() as int);
            let prev_end = if k + 1 == toks.len() {
                qstar
            } else {
                toks[k + 1].match_start + toks[k + 1].len
            };
            &&& heavy_chain_tokens(after, qstar) == heavy_chain_tokens(before, qstar).push(
                (toks[k].match_start - prev_end, toks[k].len as int, toks[k].dis as int),
            )
            &&& heavy_chain_bytes(after, qstar) == heavy_chain_bytes(before, qstar) + heavy_token_cost(
                toks[k].match_start - prev_end,
            )
        }),
{
    let before = toks.subrange(k + 1, toks.len() as int);
    let after = toks.subrange(k, toks.len() as int);
    reveal(heavy_chain_tokens);
    reveal(heavy_chain_bytes);
    assert(after.drop_first() =~= before);
    assert(after[0] == toks[k]);
    if before.len() > 0 {
        assert(before[0] == toks[k + 1]);
    }
}

/// Putting a token `e` before the first of a chain adds its bytes, its
/// literal run reaching back from `e` to `start`.
pub proof fn lemma_heavy_chain_push(toks: Seq<HeavyTokenRecord>, e: HeavyTokenRecord, start: int)
    ensures
        heavy_chain_bytes(toks.push(e), start) == heavy_chain_bytes(toks, e.match_start + e.len)
            + heavy_token_cost(e.match_start - start),
    decreases toks.len(),
{
    reveal(heavy_chain_bytes);
    if toks.len() > 0 {
        let q = toks.drop_first().push(e);
        assert(toks.push(e).drop_first() =~= q);
        assert(toks.push(e)[0] == toks[0]);
        if toks.len() == 1 {
            assert(q[0] == e);
        } else {
            assert(q[0] == toks.drop_first()[0]);
        }
        lemma_heavy_chain_push(toks.drop_first(), e, start);
        let big = e.match_start + e.len;
        let pe = if toks.len() == 1 {
            big
        } else {
            toks[1].match_start + toks[1].len
        };
        assert(toks.drop_first().len() > 0 ==> toks.drop_first()[0] == toks[1]);
        assert(heavy_chain_bytes(toks, big) == heavy_chain_bytes(toks.drop_first(), big)
            + heavy_token_cost(toks[0].match_start - pe));
        assert(heavy_chain_bytes(toks.push(e), start) == heavy_chain_bytes(q, start)
            + heavy_token_cost(toks[0].match_start - pe));
        assert(heavy_chain_bytes(q, start) == heavy_chain_bytes(toks.drop_first(), big)
            + heavy_token_cost(e.match_start - start));
    } else {
        assert(toks.push(e).drop_first() =~= Seq::<HeavyTokenRecord>::empty());
        assert(toks.push(e)[0] == e);
        assert(heavy_chain_bytes(toks.push(e).drop_first(), start) == 0);
        assert(heavy_chain_bytes(toks.push(e), start) == heavy_token_cost(e.match_start - start));
    }
}

/// The cost of a literal run of `run` bytes starting at a position of
/// cost `prev_cost`, and whether it is the cost `literal_cost` a token's
/// arrival was reached with.
fn run_cost_matches(prev_cost: usize, run: usize, literal_cost: usize) -> (b: bool)
    ensures
        b == (prev_cost + run + literal_extras(run as int, HEAVY_TOKEN_LIT_MAX as int) == literal_cost),
{
    (prev_cost as u128) + (run as u128) + (heavy_literal_extras(run) as u128) == literal_cost as u128
}

/// The latest position from `match_start` down to `block_start` that is
/// reached at a cost which, with the literal run from it to `match_start`,
/// makes `literal_cost`; or `block_start` and `false` when there is none.
fn find_prev_boundary(
    dp: &Vec<usize>,
    block_start: usize,
    match_start: usize,
    literal_cost: usize,
) -> (r: (usize, bool))
    requires
        block_start <= match_start,
        match_start - block_start < dp.len(),
    ensures
        block_start <= r.0 <= match_start,
        r.1 ==> dp@[r.0 - block_start] != HEAVY_DP_INF && dp@[r.0 - block_start] + (match_start
            - r.0) + literal_extras(match_start - r.0, HEAVY_TOKEN_LIT_MAX as int) == literal_cost,
        r.1 ==> forall|q: int|
            r.0 < q <= match_start ==> !(dp@[q - block_start] != HEAVY_DP_INF && #[trigger] dp@[q
                - block_start] + (match_start - q) + literal_extras(
                match_start - q,
                HEAVY_TOKEN_LIT_MAX as int,
            ) == literal_cost),
        !r.1 ==> r.0 == block_start && forall|q: int|
            block_start <= q <= match_start ==> !(dp@[q - block_start] != HEAVY_DP_INF
                && #[trigger] dp@[q - block_start] + (match_start - q) + literal_extras(
                match_start - q,
                HEAVY_TOKEN_LIT_MAX as int,
            ) == literal_cost),
{
    let mut prev_boundary = match_start;
    let mut found = false;
    loop
        invariant_except_break
            block_start <= prev_boundary <= match_start,
            match_start - block_start < dp.len(),
            !found,
            forall|q: int|
                prev_boundary < q <= match_start ==> !(dp@[q - block_start] != HEAVY_DP_INF && #[trigger] dp@[q
                    - block_start] + (match_start - q) + literal_extras(
                    match_start - q,
                    HEAVY_TOKEN_LIT_MAX as int,
                ) == literal_cost),
        ensures
            block_start <= prev_boundary <= match_start,
            found ==> dp@[prev_boundary - block_start] != HEAVY_DP_INF && dp@[prev_boundary
                - block_start] + (match_start - prev_boundary) + literal_extras(
                match_start - prev_boundary,
                HEAVY_TOKEN_LIT_MAX as int,
            ) == literal_cost,
            found ==> forall|q: int|
                prev_boundary < q <= match_start ==> !(dp@[q - block_start] != HEAVY_DP_INF && #[trigger] dp@[q
                    - block_start] + (match_start - q) + literal_extras(
                    match_start - q,
                    HEAVY_TOKEN_LIT_MAX as int,
                ) == literal_cost),
            !found ==> prev_boundary == block_start && forall|q: int|
                block_start <= q <= match_start ==> !(dp@[q - block_start] != HEAVY_DP_INF
                    && #[trigger] dp@[q - block_start] + (match_start - q) + literal_extras(
                    match_start - q,
                    HEAVY_TOKEN_LIT_MAX as int,
                ) == literal_cost),
        decreases prev_boundary,
    {
        let run = match_start - prev_boundary;
        let prev_cost = dp[prev_boundary - block_start];
        if prev_cost != HEAVY_DP_INF && run_cost_matches(prev_cost, run, literal_cost) {
            found = true;
            break;
        }
        if prev_boundary == block_start {
            break;
        }
        prev_boundary -= 1;
    }
    (prev_boundary, found)
}

/// Block position `q` is reached at a cost which, with the literal run from
/// it to `match_start`, makes `literal_cost`.
pub open spec fn explains(dp: Seq<usize>, block_start: int, match_start: int, literal_cost: int, q: int) -> bool {
    &&& block_start <= q <= match_start
    &&& dp[q - block_start] != HEAVY_DP_INF
    &&& dp[q - block_start] + (match_start - q) + literal_extras(
        match_start - q,
        HEAVY_TOKEN_LIT_MAX as int,
    ) == literal_cost
}

/// `q` is the latest block position that explains `literal_cost`.
pub open spec fn latest_explains(dp: Seq<usize>, block_start: int, match_start: int, literal_cost: int, q: int) -> bool {
    &&& explains(dp, block_start, match_start, literal_cost, q)
    &&& forall|p: int| q < p <= match_start ==> !#[trigger] explains(dp, block_start, match_start, literal_cost, p)
}

/// The tokens that the heavy arrivals lead back through from `boundary` to
/// the committed start `qstar`, last first: at each reached boundary, the
/// match of its arrival, then on from the latest position whose cost, with
/// the literal run up to that match, explains the arrival's cost (or from
/// `qstar` when its cost does and no block position does).
#[verifier::opaque]
pub open spec fn heavy_trace(
    dp: Seq<usize>,
    alen: Seq<u8>,
    match_dis: Seq<u32>,
    block_start: int,
    qstar: int,
    qstar_cost: int,
    boundary: int,
) -> Seq<HeavyTokenRecord>
    decreases boundary - qstar,
{
    let t = boundary - block_start;
    let len = alen[t] as int;
    let ms = boundary - len;
    let lc = dp[t] - 4;
    if boundary <= qstar || boundary < block_start || len < MIN_MATCH_LEN || ms < block_start || dp[t]
        < 4 {
        Seq::empty()
    } else {
        let found = exists|q: int| #[trigger] latest_explains(dp, block_start, ms, lc, q);
        let prev = if found {
            choose|q: int| #[trigger] latest_explains(dp, block_start, ms, lc, q)
        } else {
            qstar
        };
        if !found && qstar_cost + (ms - qstar) + literal_extras(ms - qstar, HEAVY_TOKEN_LIT_MAX as int)
            != lc {
            Seq::empty()
        } else if prev < qstar {
            Seq::empty()
        } else {
            seq![
                HeavyTokenRecord {
                    match_start: ms as usize,
                    len: len as u8,
                    dis: match_dis[ms - block_start],
                },
            ] + heavy_trace(dp, alen, match_dis, block_start, qstar, qstar_cost, prev)
        }
    }
}

/// Traces the heavy arrivals back from `commit` to `qstar`, collecting the
/// block's tokens last first. The literal run before each match is found
/// again as the latest earlier position whose cost explains the arrival's
/// cost. `None` if the costs do not lead back (which the cost minimisation
/// never leaves).
fn heavy_block_backtrack(
    dp: &Vec<usize>,
    arrival_len: &Vec<u8>,
    max_len: &Vec<u8>,
    match_dis: &Vec<u32>,
    block_start: usize,
    block_end: usize,
    qstar: usize,
    qstar_cost: usize,
    commit: usize,
    Ghost(anc): Ghost<Seq<int>>,
) -> (r: Option<Vec<HeavyTokenRecord>>)
    requires
        heavy_dp_ok(dp@, arrival_len@, anc, max_len@, block_start as int, qstar as int, qstar_cost as int),
        anchor_ok(dp@, commit as int, block_start as int, qstar as int),
        block_end == block_start + max_len.len(),
        block_end <= isize::MAX,
        match_dis.len() == max_len.len(),
        qstar <= commit,
        qstar <= block_start,
        qstar_cost <= cost_bound(qstar as int),
    ensures
        r is Some,
        r matches Some(toks) ==> heavy_chain_ok(
            toks@,
            max_len@,
            match_dis@,
            block_start as int,
            qstar as int,
            commit as int,
        ),
        r matches Some(toks) ==> cost_at(dp@, commit as int, block_start as int, qstar as int, qstar_cost as int)
            == qstar_cost + heavy_chain_bytes(toks@, qstar as int),
        r matches Some(toks) ==> toks@ == heavy_trace(
            dp@,
            arrival_len@,
            match_dis@,
            block_start as int,
            qstar as int,
            qstar_cost as int,
            commit as int,
        ),
{
    let mut block_tokens: Vec<HeavyTokenRecord> = Vec::new();
    let mut boundary = commit;
    proof {
        reveal(heavy_chain_bytes);
        assert(block_tokens@ + heavy_trace(
            dp@,
            arrival_len@,
            match_dis@,
            block_start as int,
            qstar as int,
            qstar_cost as int,
            boundary as int,
        ) =~= heavy_trace(
            dp@,
            arrival_len@,
            match_dis@,
            block_start as int,
            qstar as int,
            qstar_cost as int,
            boundary as int,
        ));
    }
    while boundary > qstar
        invariant
            heavy_dp_ok(dp@, arrival_len@, anc, max_len@, block_start as int, qstar as int, qstar_cost as int),
            anchor_ok(dp@, boundary as int, block_start as int, qstar as int),
            block_end == block_start + max_len.len(),
            block_end <= isize::MAX,
            match_dis.len() == max_len.len(),
            qstar <= boundary <= commit,
            qstar <= block_start,
            qstar_cost <= cost_bound(qstar as int),
            forall|k: int| 0 <= k < block_tokens.len() ==> heavy_token_in_table(#[trigger] block_tokens@[k], max_len@, match_dis@, block_start as int),
            block_tokens.len() == 0 ==> boundary == commit,
            block_tokens.len() > 0 ==> block_tokens@[0].match_start + block_tokens@[0].len == commit
                && boundary <= block_tokens@.last().match_start,
            forall|k: int| 0 <= k < block_tokens.len() - 1 ==> block_tokens@[k + 1].match_start + block_tokens@[k + 1].len <= #[trigger] block_tokens@[k].match_start,
            cost_at(dp@, commit as int, block_start as int, qstar as int, qstar_cost as int) == cost_at(
                dp@,
                boundary as int,
                block_start as int,
                qstar as int,
                qstar_cost as int,
            ) + heavy_chain_bytes(block_tokens@, boundary as int),
            heavy_trace(
                dp@,
                arrival_len@,
                match_dis@,
                block_start as int,
                qstar as int,
                qstar_cost as int,
                commit as int,
            ) == block_tokens@ + heavy_trace(
                dp@,
                arrival_len@,
                match_dis@,
                block_start as int,
                qstar as int,
                qstar_cost as int,
                boundary as int,
            ),
        decreases boundary,
    {
        if boundary < block_start {
            return None;
        }
        let arrival_index = boundary - block_start;
        proof {
            assert(heavy_entry_ok(
                dp@,
                arrival_len@,
                anc,
                max_len@,
                block_start as int,
                qstar as int,
                qstar_cost as int,
                arrival_index as int,
            ));
        }
        let arrival = arrival_len[arrival_index] as usize;
        if arrival < MIN_MATCH_LEN {
            return None;
        }
        if boundary < arrival {
            return None;
        }
        let match_start = boundary - arrival;
        if match_start < block_start {
            return None;
        }
        if dp[arrival_index] < 4 {
            return None;
        }
        let literal_cost = dp[arrival_index] - 4;
        let ghost p = anc[arrival_index as int];
        let (mut prev_boundary, found) = find_prev_boundary(dp, block_start, match_start, literal_cost);
        if !found {
            let run = match_start - qstar;
            proof {
                assert(qstar <= p);
                if p != qstar {
                    assert(dp@[p - block_start] != HEAVY_DP_INF);
                    assert(block_start <= p <= match_start);
                    assert(false);
                } else if p == block_start {
                    if dp@[0] != HEAVY_DP_INF {
                        assert(heavy_entry_ok(
                            dp@,
                            arrival_len@,
                            anc,
                            max_len@,
                            block_start as int,
                            qstar as int,
                            qstar_cost as int,
                            0,
                        ));
                        let q = block_start as int;
                        assert(!(dp@[q - block_start] != HEAVY_DP_INF && dp@[q - block_start] + (
                        match_start - q) + literal_extras(match_start - q, HEAVY_TOKEN_LIT_MAX as int)
                            == literal_cost));
                        assert(false);
                    }
                }
            }
            if qstar <= block_start && run_cost_matches(qstar_cost, run, literal_cost) {
                prev_boundary = qstar;
            } else {
                return None;
            }
        } else {
            proof {
                if prev_boundary == block_start {
                    assert(heavy_entry_ok(
                        dp@,
                        arrival_len@,
                        anc,
                        max_len@,
                        block_start as int,
                        qstar as int,
                        qstar_cost as int,
                        0,
                    ));
                }
            }
        }
        proof {
            assert(cost_at(dp@, boundary as int, block_start as int, qstar as int, qstar_cost as int)
                == cost_at(dp@, prev_boundary as int, block_start as int, qstar as int, qstar_cost as int)
                + heavy_token_cost(match_start - prev_boundary)) by {
                if prev_boundary == qstar && found {
                    assert(heavy_entry_ok(
                        dp@,
                        arrival_len@,
                        anc,
                        max_len@,
                        block_start as int,
                        qstar as int,
                        qstar_cost as int,
                        0,
                    ));
                }
            }
        }
        let origin_index = match_start - block_start;
        let ghost old_toks = block_tokens@;
        let record = HeavyTokenRecord { match_start, len: arrival as u8, dis: match_dis[origin_index] };
        block_tokens.push(record);
        proof {
            let tr = heavy_trace(
                dp@,
                arrival_len@,
                match_dis@,
                block_start as int,
                qstar as int,
                qstar_cost as int,
                prev_boundary as int,
            );
            assert(heavy_trace(
                dp@,
                arrival_len@,
                match_dis@,
                block_start as int,
                qstar as int,
                qstar_cost as int,
                boundary as int,
            ) == seq![record] + tr) by {
                reveal(heavy_trace);
                let lc = dp@[arrival_index as int] - 4;
                if found {
                    assert(latest_explains(dp@, block_start as int, match_start as int, lc, prev_boundary as int));
                    let c = choose|q: int| #[trigger] latest_explains(dp@, block_start as int, match_start as int, lc, q);
                    assert(latest_explains(dp@, block_start as int, match_start as int, lc, c));
                    if c < prev_boundary {
                        assert(!explains(dp@, block_start as int, match_start as int, lc, prev_boundary as int));
                    }
                    if c > prev_boundary {
                        assert(!explains(dp@, block_start as int, match_start as int, lc, c));
                    }
                } else {
                    assert forall|q: int| !#[trigger] latest_explains(dp@, block_start as int, match_start as int, lc, q) by {
                        if latest_explains(dp@, block_start as int, match_start as int, lc, q) {
                            assert(explains(dp@, block_start as int, match_start as int, lc, q));
                        }
                    }
                }
            }
            assert(old_toks + (seq![record] + tr) =~= block_tokens@ + tr);
            lemma_heavy_chain_push(old_toks, record, prev_boundary as int);
            assert(block_tokens@.last() == block_tokens@[block_tokens.len() - 1]);
            assert forall|k: int| 0 <= k < block_tokens.len() - 1 implies block_tokens@[k + 1].match_start + block_tokens@[k + 1].len <= #[trigger] block_tokens@[k].match_start by {
                if k + 1 < old_toks.len() {
                    assert(old_toks[k + 1] == block_tokens@[k + 1]);
                    assert(old_toks[k] == block_tokens@[k]);
                } else {
                    assert(old_toks[k] == block_tokens@[k]);
                    assert(old_toks.last() == old_toks[k]);
                }
            }
        }
        boundary = prev_boundary;
    }
    proof {
        assert(heavy_trace(
            dp@,
            arrival_len@,
            match_dis@,
            block_start as int,
            qstar as int,
            qstar_cost as int,
            boundary as int,
        ) =~= Seq::<HeavyTokenRecord>::empty()) by {
            reveal(heavy_trace);
        }
        assert(block_tokens@ + Seq::<HeavyTokenRecord>::empty() =~= block_tokens@);
    }
    Some(block_tokens)
}

/// The `k`-th token of a block's chain (last first), written after the end
/// `lit` of the token after it in the chain (or after `qstar`), is a well
/// formed heavy token of the input, with its length's code `code`.
proof fn lemma_heavy_block_token(
    x: Seq<u8>,
    max_len: Seq<u8>,
    match_dis: Seq<u32>,
    toks: Seq<HeavyTokenRecord>,
    k: int,
    lit: int,
    block_start: int,
    qstar: int,
    commit: int,
    hard_end: int,
    sorted: bool,
    code: int,
)
    requires
        heavy_chain_ok(toks, max_len, match_dis, block_start, qstar, commit),
        sorted ==> match_table_ok(
            x,
            max_len,
            match_dis,
            block_start,
            HEAVY_MIN_DISTANCE as int,
            HEAVY_MAX_DISTANCE as int,
            HEAVY_MAX_MATCH_LEN as int,
            hard_end,
        ),
        !sorted ==> forall|i: int| 0 <= i < max_len.len() ==> max_len[i] == 0,
        0 <= k < toks.len(),
        k + 1 < toks.len() ==> lit == toks[k + 1].match_start + toks[k + 1].len,
        k + 1 == toks.len() ==> lit == qstar,
        is_code_floor(toks[k].len as int, code),
        0 <= qstar,
        hard_end <= x.len(),
    ensures
        lit <= toks[k].match_start,
        1 <= code < 64,
        heavy_len_of(code) == toks[k].len,
        heavy_token_ok(x, lit, (toks[k].match_start - lit, heavy_len_of(code), toks[k].dis as int)),
{
    let token = toks[k];
    let i = token.match_start - block_start;
    assert(heavy_token_in_table(toks[k], max_len, match_dis, block_start));
    if !sorted {
        assert(max_len[i] == 0);
    }
    assert(match_entry_ok(
        x,
        block_start + i,
        max_len[i] as int,
        match_dis[i] as int,
        HEAVY_MIN_DISTANCE as int,
        HEAVY_MAX_DISTANCE as int,
        HEAVY_MAX_MATCH_LEN as int,
        hard_end,
    ));
    if k + 1 < toks.len() {
        assert(toks[k + 1].match_start + toks[k + 1].len <= toks[k].match_start);
    } else {
        assert(toks.last() == toks[k]);
    }
    lemma_code_floor_unique(token.len as int, code);
    assert(code >= 1) by {
        if code == 0 {
            assert(heavy_len_of(0) == 0);
        }
    }
    let lit_len = token.match_start - lit;
    assert forall|q: int| 0 <= q < token.len implies #[trigger] x[lit + lit_len + q] == x[lit + lit_len
        + q - token.dis] by {
        assert(x[(block_start + i) + q] == x[(block_start + i) + q - match_dis[i]]);
    }
}

/// Writes the `k`-th of a block's heavy tokens (held last first) after the
/// stream written so far, with the literal run from the end of the token
/// after it in the chain (or from `qstar` for the last), counting it.
#[verifier::rlimit(60)]
#[verifier::spinoff_prover]
fn emit_heavy_chain_token(
    src: &[u8],
    dst: &mut [u8],
    dlpos: &mut usize,
    drpos: &mut usize,
    lit: &mut usize,
    tokens: &mut usize,
    long_matches: &mut usize,
    block_tokens: &Vec<HeavyTokenRecord>,
    max_len: &Vec<u8>,
    match_dis: &Vec<u32>,
    code_floor: &[u8; 256],
    block_start: usize,
    qstar: usize,
    commit: usize,
    hard_end: usize,
    sorted: bool,
    k: usize,
    Ghost(ts0): Ghost<Seq<Token>>,
    Ghost(ts1): Ghost<Seq<Token>>,
    Ghost(qstar_cost): Ghost<int>,
) -> (new_ts: Ghost<Seq<Token>>)
    requires
        src.len() <= isize::MAX,
        hard_end + HEAVY_LITERAL_SUFFIX <= src.len(),
        k < block_tokens.len(),
        forall|len: int| 0 <= len < 256 ==> is_code_floor(len, #[trigger] code_floor@[len] as int),
        heavy_chain_ok(
            block_tokens@,
            max_len@,
            match_dis@,
            block_start as int,
            qstar as int,
            commit as int,
        ),
        sorted ==> match_table_ok(
            src@,
            max_len@,
            match_dis@,
            block_start as int,
            HEAVY_MIN_DISTANCE as int,
            HEAVY_MAX_DISTANCE as int,
            HEAVY_MAX_MATCH_LEN as int,
            hard_end as int,
        ),
        !sorted ==> forall|i: int| 0 <= i < max_len.len() ==> max_len@[i] == 0,
        heavy_writer_ok(src@, old(dst)@, *old(dlpos) as int, *old(drpos) as int, ts1),
        *old(lit) == parse_end(ts1),
        *old(tokens) == ts1.len(),
        *old(long_matches) == long_count(ts1),
        *old(tokens) <= *old(lit),
        *old(long_matches) <= *old(tokens),
        k + 1 < block_tokens.len() ==> *old(lit) == block_tokens@[k + 1].match_start + block_tokens@[k + 1].len,
        k + 1 == block_tokens.len() ==> *old(lit) == qstar,
        *old(dlpos) + (old(dst).len() - *old(drpos)) == qstar_cost + heavy_chain_bytes(
            block_tokens@.subrange(k + 1, block_tokens.len() as int),
            qstar as int,
        ),
        ts1 == ts0 + heavy_chain_tokens(
            block_tokens@.subrange(k + 1, block_tokens.len() as int),
            qstar as int,
        ),
    ensures
        final(dst).len() == old(dst).len(),
        heavy_writer_ok(src@, final(dst)@, *final(dlpos) as int, *final(drpos) as int, new_ts@),
        *final(lit) == parse_end(new_ts@),
        *final(tokens) == new_ts@.len(),
        *final(long_matches) == long_count(new_ts@),
        *final(tokens) <= *final(lit),
        *final(long_matches) <= *final(tokens),
        *final(lit) == block_tokens@[k as int].match_start + block_tokens@[k as int].len,
        *final(dlpos) + (final(dst).len() - *final(drpos)) == qstar_cost + heavy_chain_bytes(
            block_tokens@.subrange(k as int, block_tokens.len() as int),
            qstar as int,
        ),
        new_ts@ == ts0 + heavy_chain_tokens(
            block_tokens@.subrange(k as int, block_tokens.len() as int),
            qstar as int,
        ),
{
    let token = block_tokens[k];
    let dst_cap = dst.len();
    let ghost mut ts = ts1;
    let ghost i = token.match_start - block_start;
    let token_len = token.len as usize;
    let code = code_floor[token_len] as usize;
    proof {
        assert(is_code_floor(token_len as int, code as int));
        lemma_heavy_block_token(
            src@,
            max_len@,
            match_dis@,
            block_tokens@,
            k as int,
            *lit as int,
            block_start as int,
            qstar as int,
            commit as int,
            hard_end as int,
            sorted,
            code as int,
        );
    }
    let lit_len = token.match_start - *lit;
    let ghost before = block_tokens@.subrange(k + 1, block_tokens.len() as int);
    let ghost after = block_tokens@.subrange(k as int, block_tokens.len() as int);
    proof {
        lemma_heavy_chain_step(block_tokens@, k as int, qstar as int);
        let t: Token = (lit_len as int, token_len as int, token.dis as int);
        assert(heavy_token_bytes(t).len() == 4 + literal_extras(lit_len as int, HEAVY_TOKEN_LIT_MAX as int)) by {
            if lit_len >= HEAVY_TOKEN_LIT_MAX {
                assert(ext_bytes(lit_len - HEAVY_TOKEN_LIT_MAX).len() == (lit_len - HEAVY_TOKEN_LIT_MAX) / 255 + 1);
            }
        }
    }
    let ghost sum0 = *dlpos + (dst_cap - *drpos);
    emit_heavy_token(
        dst,
        dlpos,
        drpos,
        src,
        *lit,
        lit_len,
        code,
        token.dis as usize,
        Ghost(ts),
    );
    proof {
        crate::heavy_encode::lemma_push_heavy_token(src@, ts, (lit_len as int, token_len as int, token.dis as int));
        assert(*dlpos + (dst_cap - *drpos) == sum0 + heavy_token_cost(lit_len as int));
        lemma_concat_push(
            ts0,
            heavy_chain_tokens(before, qstar as int),
            (lit_len as int, token_len as int, token.dis as int),
        );
        ts = ts.push((lit_len as int, token_len as int, token.dis as int));
    }
    *tokens += 1;
    *long_matches += if token_len > VECTOR_WIDTH {
        1
    } else {
        0
    };
    *lit = token.match_start + token_len;
    Ghost(ts)
}

/// Writes a block's heavy tokens (held last first) after the stream written
/// so far, each with the literal run from the end of the token before it,
/// counting the tokens and those with long matches.
#[verifier::rlimit(100)]
#[verifier::spinoff_prover]
fn emit_heavy_block_tokens(
    src: &[u8],
    dst: &mut [u8],
    dlpos: &mut usize,
    drpos: &mut usize,
    lit: &mut usize,
    tokens: &mut usize,
    long_matches: &mut usize,
    block_tokens: &Vec<HeavyTokenRecord>,
    max_len: &Vec<u8>,
    match_dis: &Vec<u32>,
    code_floor: &[u8; 256],
    block_start: usize,
    qstar: usize,
    commit: usize,
    hard_end: usize,
    sorted: bool,
    Ghost(ts0): Ghost<Seq<Token>>,
    Ghost(qstar_cost): Ghost<int>,
) -> (new_ts: Ghost<Seq<Token>>)
    requires
        src.len() <= isize::MAX,
        hard_end + HEAVY_LITERAL_SUFFIX <= src.len(),
        forall|len: int| 0 <= len < 256 ==> is_code_floor(len, #[trigger] code_floor@[len] as int),
        heavy_chain_ok(
            block_tokens@,
            max_len@,
            match_dis@,
            block_start as int,
            qstar as int,
            commit as int,
        ),
        sorted ==> match_table_ok(
            src@,
            max_len@,
            match_dis@,
            block_start as int,
            HEAVY_MIN_DISTANCE as int,
            HEAVY_MAX_DISTANCE as int,
            HEAVY_MAX_MATCH_LEN as int,
            hard_end as int,
        ),
        !sorted ==> forall|i: int| 0 <= i < max_len.len() ==> max_len@[i] == 0,
        heavy_writer_ok(src@, old(dst)@, *old(dlpos) as int, *old(drpos) as int, ts0),
        *old(lit) == parse_end(ts0),
        *old(tokens) == ts0.len(),
        *old(long_matches) == long_count(ts0),
        *old(tokens) <= *old(lit),
        *old(long_matches) <= *old(tokens),
        *old(lit) == qstar,
        *old(dlpos) + (old(dst).len() - *old(drpos)) == qstar_cost,
    ensures
        final(dst).len() == old(dst).len(),
        heavy_writer_ok(src@, final(dst)@, *final(dlpos) as int, *final(drpos) as int, new_ts@),
        *final(lit) == parse_end(new_ts@),
        *final(tokens) == new_ts@.len(),
        *final(long_matches) == long_count(new_ts@),
        *final(tokens) <= *final(lit),
        *final(long_matches) <= *final(tokens),
        *final(lit) == commit,
        *final(dlpos) + (final(dst).len() - *final(drpos)) == qstar_cost + heavy_chain_bytes(
            block_tokens@,
            qstar as int,
        ),
        new_ts@ == ts0 + heavy_chain_tokens(block_tokens@, qstar as int),
{
    let dst_cap = dst.len();
    let ghost mut ts = ts0;
    let mut k = block_tokens.len();
    proof {
        reveal(heavy_chain_bytes);
        reveal(heavy_chain_tokens);
        assert(block_tokens@.subrange(k as int, block_tokens.len() as int).len() == 0);
        assert(ts0 + heavy_chain_tokens(block_tokens@.subrange(k as int, block_tokens.len() as int), qstar as int)
            =~= ts0);
    }
    while k > 0
        invariant
            src.len() <= isize::MAX,
            hard_end + HEAVY_LITERAL_SUFFIX <= src.len(),
            k <= block_tokens.len(),
            forall|len: int| 0 <= len < 256 ==> is_code_floor(len, #[trigger] code_floor@[len] as int),
            heavy_chain_ok(
                block_tokens@,
                max_len@,
                match_dis@,
                block_start as int,
                qstar as int,
                commit as int,
            ),
            sorted ==> match_table_ok(
                src@,
                max_len@,
                match_dis@,
                block_start as int,
                HEAVY_MIN_DISTANCE as int,
                HEAVY_MAX_DISTANCE as int,
                HEAVY_MAX_MATCH_LEN as int,
                hard_end as int,
            ),
            !sorted ==> forall|i: int| 0 <= i < max_len.len() ==> max_len@[i] == 0,
            dst.len() == dst_cap,
            dst_cap == old(dst).len(),
            heavy_writer_ok(src@, dst@, *dlpos as int, *drpos as int, ts),
            *lit == parse_end(ts),
            *tokens == ts.len(),
            *long_matches == long_count(ts),
            *tokens <= *lit,
            *long_matches <= *tokens,
            k < block_tokens.len() ==> *lit == block_tokens@[k as int].match_start + block_tokens@[k as int].len,
            k == block_tokens.len() ==> *lit == qstar,
            *dlpos + (dst_cap - *drpos) == qstar_cost + heavy_chain_bytes(
                block_tokens@.subrange(k as int, block_tokens.len() as int),
                qstar as int,
            ),
            ts == ts0 + heavy_chain_tokens(
                block_tokens@.subrange(k as int, block_tokens.len() as int),
                qstar as int,
            ),
        decreases k,
    {
        k -= 1;
        let next_ts = emit_heavy_chain_token(
            src,
            dst,
            dlpos,
            drpos,
            lit,
            tokens,
            long_matches,
            block_tokens,
            max_len,
            match_dis,
            code_floor,
            block_start,
            qstar,
            commit,
            hard_end,
            sorted,
            k,
            Ghost(ts0),
            Ghost(ts),
            Ghost(qstar_cost),
        );
        proof {
            ts = next_ts@;
        }
    }
    proof {
        if block_tokens.len() > 0 {
            assert(*lit == commit);
        }
        assert(block_tokens@.subrange(0, block_tokens.len() as int) =~= block_tokens@);
    }
    Ghost(ts)
}

/// Fills a level 4 block's match tables from what the suffix-array call
/// gave: with a sorted suffix array `sa` (and its inverse `rank`) of the
/// block's segment (`sorted`), the finder's tables over it; without one,
/// the tables stay empty.
fn heavy_block_tables(
    src: &[u8],
    sa: &[i32],
    rank: &[u32],
    live: &mut HeavyLiveSet,
    max_len: &mut [u8],
    match_dis: &mut [u32],
    block_start: usize,
    block_end: usize,
    seg_start: usize,
    seg_end: usize,
    hard_end: usize,
)
    requires
        src.len() <= isize::MAX,
        HEAVY_SMALL_LIM < src.len(),
        block_start < src.len(),
        block_end == block_end_of(src.len() as int, block_start as int, HEAVY_BLOCK_SIZE as int),
        seg_start == seg_start_of(block_start as int, HEAVY_MAX_DISTANCE as int),
        seg_end == seg_end_of(src.len() as int, block_end as int, HEAVY_PAD_LEN as int),
        hard_end == hard_end_of(src.len() as int, block_end as int, HEAVY_LITERAL_SUFFIX as int),
        sa.len() == seg_end - seg_start,
        rank.len() == sa.len(),
        old(max_len)@ == Seq::new((block_end - block_start) as nat, |i: int| 0u8),
        old(match_dis)@ == Seq::new((block_end - block_start) as nat, |i: int| 0u32),
        sa_rank_ok(src@.subrange(seg_start as int, seg_end as int), sa@, rank@)
            && sa_sorted(src@.subrange(seg_start as int, seg_end as int), sa@),
    ensures
        final(max_len).len() == old(max_len).len(),
        final(match_dis).len() == old(match_dis).len(),
        match_table_ok(
            src@,
            final(max_len)@,
            final(match_dis)@,
            block_start as int,
            HEAVY_MIN_DISTANCE as int,
            HEAVY_MAX_DISTANCE as int,
            HEAVY_MAX_MATCH_LEN as int,
            hard_end as int,
        ),
        final(max_len)@ == finder_lens(
            src@,
            sa@,
            rank@,
            seg_start as int,
            hard_end as int,
            HEAVY_MIN_DISTANCE as int,
            HEAVY_MAX_DISTANCE as int,
            HEAVY_MAX_MATCH_LEN as int,
            HEAVY_NDIS as int,
            block_start as int,
            block_end - block_start,
        ) && final(match_dis)@ == finder_dists(
            src@,
            sa@,
            rank@,
            seg_start as int,
            hard_end as int,
            HEAVY_MIN_DISTANCE as int,
            HEAVY_MAX_DISTANCE as int,
            HEAVY_MAX_MATCH_LEN as int,
            HEAVY_NDIS as int,
            block_start as int,
            block_end - block_start,
        ),
        heavy_block_tables_ok(src@, block_start as int, final(max_len)@, final(match_dis)@),
{
    let ghost md_zero = match_dis@;
    {
        let init_limit: u32 = if block_start >= HEAVY_MIN_DISTANCE && block_start
            - HEAVY_MIN_DISTANCE >= seg_start {
            (block_start - HEAVY_MIN_DISTANCE - seg_start + 1) as u32
        } else {
            0
        };
        live.build(sa, seg_end - seg_start, init_limit);
        proof {
            assert forall|r: int| #[trigger] live.has(r) implies 0 <= r < sa@.len() && block_start
                - 1 - HEAVY_MAX_DISTANCE <= seg_start + sa@[r] <= block_start - HEAVY_MIN_DISTANCE by {
                assert(0 <= sa@[r]);
            }
            assert(live_window(*live, sa@, seg_start as int, block_start - 1 - HEAVY_MAX_DISTANCE, block_start - HEAVY_MIN_DISTANCE));
            assert forall|r: int| #[trigger] in_window(sa@, seg_start as int, block_start - 1 - HEAVY_MAX_DISTANCE, block_start - HEAVY_MIN_DISTANCE - 1, r) implies live.has(r) by {
                assert(0 <= sa@[r]);
            }
            assert(live_covers(*live, sa@, seg_start as int, block_start - 1 - HEAVY_MAX_DISTANCE, block_start - HEAVY_MIN_DISTANCE - 1));
            assert(src@.subrange(seg_start as int, seg_end as int) == src@.subrange(seg_start as int, seg_start + sa.len()));
        }
        heavy_find_matches(
            src,
            sa,
            rank,
            live,
            max_len,
            match_dis,
            block_start,
            block_end,
            seg_start,
            hard_end,
        );
    }

    proof {
        lemma_heavy_block_tables(
            src@,
            sa@,
            rank@,
            block_start as int,
            max_len@,
            match_dis@,
            md_zero,
        );
        {
            lemma_finder_tables(
                src@,
                sa@,
                rank@,
                seg_start as int,
                hard_end as int,
                HEAVY_MIN_DISTANCE as int,
                HEAVY_MAX_DISTANCE as int,
                HEAVY_MAX_MATCH_LEN as int,
                HEAVY_NDIS as int,
                block_start as int,
                max_len@,
                match_dis@,
                block_end - block_start,
            );
        }
    }
}

/// The level 4 encoder: splits the input into blocks, finds each block's
/// matches over a suffix array of the block and the window before it, and
/// writes the cheapest heavy parse the block's cost minimisation finds.
pub(crate) fn heavy_compress(src: &[u8], dst: &mut [u8]) -> (r: usize)
    requires
        old(dst).len() >= heavy_room(src.len() as int),
        src.len() <= isize::MAX,
    ensures
        r <= final(dst).len(),
        final(dst).len() == old(dst).len(),
        is_heavy_encoding(src@, final(dst)@.take(r as int)),
        src.len() <= HEAVY_BLOCK_SIZE ==> r <= EXT_HEADER_SIZE + src.len(),
        src.len() <= HEAVY_SMALL_LIM ==> final(dst)@.take(r as int) == heavy_raw_stream(src@),
        src.len() > HEAVY_SMALL_LIM ==> exists|ts: Seq<Token>|
            #[trigger] heavy_optimal_parse(src@, ts) && final(dst)@.take(r as int) == heavy_stream(
                src@,
                ts,
                heavy_cond(ts),
            ),
{
    heavy_compress_body(src, dst)
}

/// The block loop of the level 4 encoder.
#[verifier::rlimit(50)]
fn heavy_compress_body(src: &[u8], dst: &mut [u8]) -> (r: usize)
    requires
        old(dst).len() >= heavy_room(src.len() as int),
        src.len() <= isize::MAX,
    ensures
        r <= final(dst).len(),
        final(dst).len() == old(dst).len(),
        is_heavy_encoding(src@, final(dst)@.take(r as int)),
        src.len() <= HEAVY_BLOCK_SIZE ==> r <= EXT_HEADER_SIZE + src.len(),
        src.len() <= HEAVY_SMALL_LIM ==> final(dst)@.take(r as int) == heavy_raw_stream(src@),
        src.len() > HEAVY_SMALL_LIM ==> exists|ts: Seq<Token>|
            #[trigger] heavy_optimal_parse(src@, ts) && final(dst)@.take(r as int) == heavy_stream(
                src@,
                ts,
                heavy_cond(ts),
            ),
{
    let src_size = src.len();
    if src_size <= HEAVY_SMALL_LIM {
        let r = heavy_raw(src, dst);
        assert(dst@.take(r as int).len() == r);
        return r;
    }
    start_heavy(src, dst);
    let dst_cap = dst.len();
    let mut drpos = dst_cap;
    let literal_suffix_pos = HEADER_SIZE;
    let mut dlpos = HEADER_SIZE + 8;
    let match_end_limit = src_size - HEAVY_LITERAL_SUFFIX;
    let mut lit: usize = 0;
    let mut tokens: usize = 0;
    let mut long_matches: usize = 0;
    let ghost mut ts: Seq<Token> = Seq::empty();
    let code_floor = heavy_code_floor_table();
    let ghost mut tabs: Seq<(Seq<u8>, Seq<u32>)> = Seq::empty();

    let mut sa: Vec<i32> = Vec::new();
    let mut rank: Vec<u32> = Vec::new();
    let mut live = HeavyLiveSet::new();
    let mut max_len: Vec<u8> = Vec::new();
    let mut match_dis: Vec<u32> = Vec::new();
    let mut dp: Vec<usize> = Vec::new();
    let mut arrival_len: Vec<u8> = Vec::new();

    let mut qstar: usize = 0;
    let mut qstar_cost: usize = EXT_HEADER_SIZE;
    let mut block_start: usize = 0;
    while block_start < src_size
        invariant
            src_size == src.len(),
            src_size <= isize::MAX,
            src_size > HEAVY_SMALL_LIM,
            match_end_limit == src_size - HEAVY_LITERAL_SUFFIX,
            dst.len() == dst_cap,
            literal_suffix_pos == HEADER_SIZE,
            forall|len: int| 0 <= len < 256 ==> is_code_floor(len, #[trigger] code_floor@[len] as int),
            heavy_writer_ok(src@, dst@, dlpos as int, drpos as int, ts),
            lit == parse_end(ts),
            tokens == ts.len(),
            long_matches == long_count(ts),
            tokens <= lit,
            long_matches <= tokens,
            lit <= qstar <= block_start <= src_size,
            lit == qstar,
            qstar_cost <= cost_bound(qstar as int),
            block_start == 0 ==> qstar == 0 && qstar_cost == EXT_HEADER_SIZE,
            qstar_cost == dlpos + (dst_cap - drpos),
            src_size <= HEAVY_BLOCK_SIZE ==> block_start == 0 || block_start == src_size,
            src_size <= HEAVY_BLOCK_SIZE && block_start == src_size ==> qstar_cost + (src_size
                - qstar) <= EXT_HEADER_SIZE + src_size,
            block_start < src_size ==> block_start == tabs.len() * HEAVY_BLOCK_SIZE,
            block_start == src_size ==> heavy_opt_tables_ok(src@, tabs),
            forall|k: int|
                0 <= k < tabs.len() ==> heavy_block_tables_ok(
                    src@,
                    k * HEAVY_BLOCK_SIZE,
                    #[trigger] tabs[k].0,
                    tabs[k].1,
                ),
            heavy_opt_prefix(src@, tabs) == (ts, qstar as int, qstar_cost as int),
        decreases src_size - block_start,
    {
        let block_end = if block_start + HEAVY_BLOCK_SIZE < src_size {
            block_start + HEAVY_BLOCK_SIZE
        } else {
            src_size
        };
        let block_len = block_end - block_start;
        let seg_start = if block_start > HEAVY_MAX_DISTANCE {
            block_start - HEAVY_MAX_DISTANCE
        } else {
            0
        };
        let seg_end = if src_size < block_end + HEAVY_PAD_LEN {
            src_size
        } else {
            block_end + HEAVY_PAD_LEN
        };
        let seg_len = seg_end - seg_start;

        sa.resize(seg_len, 0);
        rank.resize(seg_len, 0);
        sorted_suffix_array(
            &src[seg_start..seg_end],
            sa.as_mut_slice(),
            rank.as_mut_slice(),
        );

        max_len.clear();
        max_len.resize(block_len, 0);
        match_dis.clear();
        match_dis.resize(block_len, 0);
        proof {
            assert(max_len@ =~= Seq::new(block_len as nat, |i: int| 0u8));
            assert(match_dis@ =~= Seq::new(block_len as nat, |i: int| 0u32));
        }

        let hard_end = if block_end < match_end_limit {
            block_end
        } else {
            match_end_limit
        };
        heavy_block_tables(
            src,
            sa.as_slice(),
            rank.as_slice(),
            &mut live,
            max_len.as_mut_slice(),
            match_dis.as_mut_slice(),
            block_start,
            block_end,
            seg_start,
            seg_end,
            hard_end,
        );

        dp.clear();
        dp.resize(block_len + 1, HEAVY_DP_INF);
        arrival_len.clear();
        arrival_len.resize(block_len + 1, 0);
        proof {
            assert(dp@ =~= Seq::new((block_len + 1) as nat, |i: int| HEAVY_DP_INF));
            assert(arrival_len@ =~= Seq::new((block_len + 1) as nat, |i: int| 0u8));
        }
        proof {
            assert forall|i: int| 0 <= i < max_len.len() implies (max_len@[i] == 0 || (MIN_MATCH_LEN
                <= max_len@[i] <= HEAVY_MAX_MATCH_LEN && block_start + i + max_len@[i] <= block_end)) by {
                {
                    assert(match_entry_ok(
                        src@,
                        block_start + i,
                        max_len@[i] as int,
                        match_dis@[i] as int,
                        HEAVY_MIN_DISTANCE as int,
                        HEAVY_MAX_DISTANCE as int,
                        HEAVY_MAX_MATCH_LEN as int,
                        hard_end as int,
                    ));
                }
            }
        }
        let (literal_run, literal_cost, Ghost(anchor), Ghost(anc)) = heavy_block_dp(
            &max_len,
            &mut dp,
            &mut arrival_len,
            &code_floor,
            block_start,
            block_end,
            qstar,
            qstar_cost,
        );

        let (commit, commit_cost) = if block_end < src_size {
            (block_end - literal_run, literal_cost - literal_run - heavy_literal_extras(literal_run))
        } else {
            heavy_final_commit(
                &dp,
                &arrival_len,
                &max_len,
                block_start,
                block_end,
                src_size,
                qstar,
                qstar_cost,
                Ghost(anc),
            )
        };

        let block_tokens = match heavy_block_backtrack(
            &dp,
            &arrival_len,
            &max_len,
            &match_dis,
            block_start,
            block_end,
            qstar,
            qstar_cost,
            commit,
            Ghost(anc),
        ) {
            Some(t) => t,
            None => {
                return 0;
            },
        };

        let new_ts = emit_heavy_block_tokens(
            src,
            dst,
            &mut dlpos,
            &mut drpos,
            &mut lit,
            &mut tokens,
            &mut long_matches,
            &block_tokens,
            &max_len,
            &match_dis,
            &code_floor,
            block_start,
            qstar,
            commit,
            hard_end,
            true,
            Ghost(ts),
            Ghost(qstar_cost as int),
        );
        proof {
            let tabs2 = tabs.push((max_len@, match_dis@));
            assert(tabs2.drop_last() =~= tabs);
            assert(heavy_opt_prefix(src@, tabs2) == (new_ts@, commit as int, commit_cost as int));
            assert forall|k: int| 0 <= k < tabs2.len() implies heavy_block_tables_ok(
                src@,
                k * HEAVY_BLOCK_SIZE,
                #[trigger] tabs2[k].0,
                tabs2[k].1,
            ) by {
                if k < tabs.len() {
                    assert(tabs2[k] == tabs[k]);
                }
            }
            ts = new_ts@;
            tabs = tabs2;
        }

        qstar = commit;
        qstar_cost = commit_cost;
        block_start = block_end;
    }

    let r = finish_heavy(
        src,
        dst,
        dst_cap,
        dlpos,
        drpos,
        literal_suffix_pos,
        lit,
        tokens,
        long_matches,
        Ghost(ts),
    );
    proof {
        assert(heavy_parse_ok(src@, ts));
        assert(dst@.take(r as int).len() == r);
        lemma_heavy_stream_bytes(src@, ts, crate::heavy_format::heavy_cond(ts));
        assert(heavy_optimal_parse(src@, ts));
    }
    r
}

} // verus!
