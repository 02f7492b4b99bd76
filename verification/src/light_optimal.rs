//! The level 3 encoder: for each block, the cheapest light parse over the
//! suffix-array match tables, found by dynamic programming and then traced
//! back into tokens.
use vstd::prelude::*;
use crate::format::{
    DIS_LIM, EXT_HEADER_SIZE, HEADER_SIZE, LITERAL_SUFFIX, MAX_DISTANCE, MAX_MATCH_LEN,
    MIN_DISTANCE, MIN_MATCH_LEN, SMALL_LIM, TOKEN_LIT_MAX,
};
use crate::light_encode::{emit_token, finish_light, light_room, light_writer_ok, start_light, store_raw};
use crate::light_format::{
    ext_bytes, is_light_encoding, light_ctrl, light_stream, light_token_ok, lit_area, parse_end,
    raw_stream, Token,
};
use crate::live_set::HeavyLiveSet;
use crate::optimal::{finder_dists, finder_lens, lemma_finder_tables, light_find_matches, in_window, live_covers, live_window, match_entry_ok, match_table_ok};
use crate::sais::sorted_suffix_array;
use crate::block_parse::{
    block_end_of, hard_end_of, lemma_light_block_tables, light_block_tables_ok, light_opt_prefix,
    light_opt_tables_ok, light_optimal_parse, seg_end_of, seg_start_of,
};
use crate::sais::{sa_rank_ok, sa_sorted};

verus! {

/// Input bytes per block of the light optimal parser.
pub const LIGHT_OPTIMAL_BLOCK_SIZE: usize = 393216;

/// Bytes of lookahead past a block that its suffix array covers.
pub const LIGHT_OPTIMAL_PAD_LEN: usize = 33;

/// The cost of a position no parse reaches.
pub const LIGHT_OPTIMAL_DP_INF: usize = usize::MAX;

/// The extension bytes a literal run of `run` bytes needs when the token
/// holds runs below `lit_max` inline.
pub open spec fn literal_extras(run: int, lit_max: int) -> int {
    if run < lit_max {
        0
    } else {
        1 + (run - lit_max) / 255
    }
}

/// The first run length above `run` that needs one more extension byte.
pub open spec fn next_extra(run: int, lit_max: int) -> int {
    if run < lit_max {
        lit_max
    } else {
        run + 255 - (run - lit_max) % 255
    }
}

/// Growing a literal run by one byte adds an extension byte exactly when
/// the run reaches `next_extra`.
pub proof fn lemma_extras_step(run: int, lit_max: int)
    requires
        0 <= run,
        1 <= lit_max,
    ensures
        next_extra(run, lit_max) > run,
        literal_extras(run + 1, lit_max) == literal_extras(run, lit_max) + (if run + 1 >= next_extra(
            run,
            lit_max,
        ) {
            1int
        } else {
            0int
        }),
        next_extra(run + 1, lit_max) == (if run + 1 >= next_extra(run, lit_max) {
            run + 1 + 255
        } else {
            next_extra(run, lit_max)
        }),
{
    if run >= lit_max {
        let d = run - lit_max;
        assert(d % 255 == 254 ==> (d + 1) % 255 == 0 && (d + 1) / 255 == d / 255 + 1)
            by (nonlinear_arith)
            requires
                d >= 0,
        ;
        assert(d % 255 < 254 ==> (d + 1) % 255 == d % 255 + 1 && (d + 1) / 255 == d / 255)
            by (nonlinear_arith)
            requires
                d >= 0,
        ;
        assert(0 <= d % 255 < 255) by (nonlinear_arith)
            requires
                d >= 0,
        ;
    }
}

/// A literal run needs at most one extension byte per two bytes.
pub proof fn lemma_extras_bound(run: int, lit_max: int)
    requires
        0 <= run,
        2 <= lit_max,
    ensures
        0 <= literal_extras(run, lit_max) <= run / 2,
{
    if run >= lit_max {
        assert(1 + (run - lit_max) / 255 <= run / 2) by (nonlinear_arith)
            requires
                run >= lit_max,
                lit_max >= 2,
        ;
        assert((run - lit_max) / 255 >= 0) by (nonlinear_arith)
            requires
                run >= lit_max,
        ;
    }
}

/// The extension bytes of a light literal run.
pub fn light_literal_extras(run: usize) -> (e: usize)
    ensures
        e == literal_extras(run as int, TOKEN_LIT_MAX as int),
{
    if run < TOKEN_LIT_MAX {
        0
    } else {
        1 + (run - TOKEN_LIT_MAX) / 255
    }
}

/// The most a parse of the first `p` input bytes can cost, in stream bytes.
pub open spec fn cost_bound(p: int) -> int {
    EXT_HEADER_SIZE + p + p / 2
}

/// How the cheapest known parse reaches a block position: the distance and
/// length of its last match, and the literal run before that match.
#[derive(Clone, Copy)]
pub struct LightArrival {
    pub dis: u32,
    pub len: u8,
    pub lit_run: usize,
}

/// A token chosen for a block: where its match starts, its length and its
/// distance.
#[derive(Clone, Copy)]
pub struct LightTokenRecord {
    pub match_start: usize,
    pub len: u8,
    pub dis: u32,
}

/// Position `p` is a place a parse of the block can start a literal run
/// from: the committed start `qstar`, or a reached position of the block.
pub open spec fn anchor_ok(dp: Seq<usize>, p: int, block_start: int, qstar: int) -> bool {
    p == qstar || (block_start < p && p - block_start < dp.len() && dp[p - block_start]
        != LIGHT_OPTIMAL_DP_INF)
}

/// The stream bytes of one light token whose literal run is `run` bytes:
/// its three bytes, its extension bytes and its literals.
pub open spec fn light_token_cost(run: int) -> int {
    3 + run + literal_extras(run, TOKEN_LIT_MAX as int)
}

/// The cost of the parse that reaches anchor `b`: the committed cost at the
/// committed start, otherwise the cost the block's table holds.
pub open spec fn dp_cost(dp: Seq<usize>, b: int, block_start: int, qstar: int, qstar_cost: int) -> int {
    if b == qstar {
        qstar_cost
    } else {
        dp[b - block_start] as int
    }
}

/// The arrival at reached block position `t` is a match from the tables
/// after a literal run from an anchor, at no more than the cost bound; its
/// cost is the anchor's plus that token's bytes.
pub open spec fn light_entry_ok(
    dp: Seq<usize>,
    arr: Seq<LightArrival>,
    max_len: Seq<u8>,
    match_dis: Seq<u32>,
    block_start: int,
    qstar: int,
    qstar_cost: int,
    t: int,
) -> bool {
    &&& dp[t] <= cost_bound(block_start + t)
    &&& t == 0 ==> block_start == 0 && qstar == 0 && dp[t] == qstar_cost
    &&& t > 0 ==> {
        let a = arr[t];
        let anchor = block_start + t - a.len - a.lit_run;
        &&& MIN_MATCH_LEN <= a.len <= t
        &&& a.len <= max_len[t - a.len]
        &&& a.dis == match_dis[t - a.len]
        &&& a.lit_run <= block_start + t - a.len - qstar
        &&& anchor_ok(dp, anchor, block_start, qstar)
        &&& dp[t] == dp_cost(dp, anchor, block_start, qstar, qstar_cost) + light_token_cost(
            a.lit_run as int,
        )
    }
}

/// Every reached position of the block has a valid arrival.
pub open spec fn light_dp_ok(
    dp: Seq<usize>,
    arr: Seq<LightArrival>,
    max_len: Seq<u8>,
    match_dis: Seq<u32>,
    block_start: int,
    qstar: int,
    qstar_cost: int,
) -> bool {
    &&& dp.len() == max_len.len() + 1
    &&& arr.len() == dp.len()
    &&& forall|t: int|
        0 <= t < dp.len() && dp[t] != LIGHT_OPTIMAL_DP_INF ==> #[trigger] light_entry_ok(
            dp,
            arr,
            max_len,
            match_dis,
            block_start,
            qstar,
            qstar_cost,
            t,
        )
}

/// The block's cost table and arrivals after the matches of lengths
/// `len..=longest` at block index `i` are weighed, in that order: each is
/// reached at `cost` after a literal run of `lit_run`, and replaces what the
/// table holds at its end only when strictly cheaper.
#[verifier::opaque]
pub open spec fn light_relax(
    dp: Seq<usize>,
    arr: Seq<LightArrival>,
    i: int,
    cost: int,
    lit_run: int,
    dis: u32,
    len: int,
    longest: int,
) -> (Seq<usize>, Seq<LightArrival>)
    decreases longest + 1 - len,
{
    if len > longest {
        (dp, arr)
    } else {
        let t = i + len;
        if cost < dp[t] {
            light_relax(
                dp.update(t, cost as usize),
                arr.update(t, LightArrival { dis: dis, len: len as u8, lit_run: lit_run as usize }),
                i,
                cost,
                lit_run,
                dis,
                len + 1,
                longest,
            )
        } else {
            light_relax(dp, arr, i, cost, lit_run, dis, len + 1, longest)
        }
    }
}

/// One position `pos` of the block's cost minimisation, from the state `st`
/// (cost table, arrivals, literal run and its cost): past the block's start
/// the literal run grows by a byte, or restarts at `pos` when the table
/// reaches `pos` no dearer; then the matches the tables offer at `pos` are
/// weighed after that run.
#[verifier::opaque]
pub open spec fn light_dp_step(
    max_len: Seq<u8>,
    match_dis: Seq<u32>,
    block_start: int,
    st: (Seq<usize>, Seq<LightArrival>, int, int),
    pos: int,
) -> (Seq<usize>, Seq<LightArrival>, int, int) {
    let i = pos - block_start;
    let dp = st.0;
    let arr = st.1;
    let lr = st.2;
    let lc = st.3;
    let run_cost: (int, int) = if pos > block_start {
        let r = lr + 1;
        let c = lc + 1 + (if r >= next_extra(lr, TOKEN_LIT_MAX as int) {
            1int
        } else {
            0int
        });
        if dp[i] <= c {
            (0, dp[i] as int)
        } else {
            (r, c)
        }
    } else {
        (lr, lc)
    };
    let longest: int = if i < max_len.len() {
        max_len[i] as int
    } else {
        0
    };
    if longest >= MIN_MATCH_LEN {
        let relaxed = light_relax(dp, arr, i, run_cost.1 + 3, run_cost.0, match_dis[i], MIN_MATCH_LEN as int, longest);
        (relaxed.0, relaxed.1, run_cost.0, run_cost.1)
    } else {
        (dp, arr, run_cost.0, run_cost.1)
    }
}

/// The state of the block's cost minimisation before position `pos`,
/// starting from the table `dp0` and arrivals `arr0`, with the literal run
/// from the committed start `qstar` (whose cost is `qstar_cost`).
#[verifier::opaque]
pub open spec fn light_dp_state(
    max_len: Seq<u8>,
    match_dis: Seq<u32>,
    block_start: int,
    qstar: int,
    qstar_cost: int,
    dp0: Seq<usize>,
    arr0: Seq<LightArrival>,
    pos: int,
) -> (Seq<usize>, Seq<LightArrival>, int, int)
    decreases pos - block_start,
{
    if pos <= block_start {
        let run = block_start - qstar;
        (
            if block_start == 0 {
                dp0.update(0, qstar_cost as usize)
            } else {
                dp0
            },
            arr0,
            run,
            qstar_cost + run + literal_extras(run, TOKEN_LIT_MAX as int),
        )
    } else {
        light_dp_step(
            max_len,
            match_dis,
            block_start,
            light_dp_state(max_len, match_dis, block_start, qstar, qstar_cost, dp0, arr0, pos - 1),
            pos - 1,
        )
    }
}

/// Runs the cost minimisation over one block: `dp[i]` becomes the least cost
/// found for a parse that ends a match at `block_start + i`, and
/// `arrivals[i]` how it gets there. Returns the literal run and cost that
/// stand at the block's end.
#[verifier::rlimit(40)]
fn light_block_dp(
    max_len: &Vec<u8>,
    match_dis: &Vec<u32>,
    dp: &mut Vec<usize>,
    arrivals: &mut Vec<LightArrival>,
    block_start: usize,
    block_end: usize,
    qstar: usize,
    qstar_cost: usize,
) -> (r: (usize, usize, Ghost<int>, Ghost<int>))
    requires
        block_start < block_end <= isize::MAX,
        max_len.len() == block_end - block_start,
        match_dis.len() == max_len.len(),
        old(dp).len() == max_len.len() + 1,
        old(arrivals).len() == old(dp).len(),
        forall|t: int| 0 <= t < old(dp).len() ==> old(dp)@[t] == LIGHT_OPTIMAL_DP_INF,
        forall|i: int|
            0 <= i < max_len.len() ==> (max_len@[i] == 0 || (MIN_MATCH_LEN <= max_len@[i]
                <= MAX_MATCH_LEN && block_start + i + max_len@[i] <= block_end)),
        qstar <= block_start,
        qstar_cost <= cost_bound(qstar as int),
        block_start == 0 ==> qstar == 0 && qstar_cost == EXT_HEADER_SIZE,
    ensures
        light_dp_ok(
            final(dp)@,
            final(arrivals)@,
            max_len@,
            match_dis@,
            block_start as int,
            qstar as int, qstar_cost as int,
        ),
        ({
            let (literal_run, literal_cost, anchor, anchor_cost) = r;
            &&& anchor@ == block_end - literal_run
            &&& anchor_ok(final(dp)@, anchor@, block_start as int, qstar as int)
            &&& anchor_cost@ == dp_cost(
                final(dp)@,
                anchor@,
                block_start as int,
                qstar as int,
                qstar_cost as int,
            )
            &&& literal_cost == anchor_cost@ + literal_run + literal_extras(
                literal_run as int,
                TOKEN_LIT_MAX as int,
            )
            &&& 0 <= anchor_cost@ <= cost_bound(anchor@)
            &&& qstar <= anchor@ <= block_end
        }),
        (final(dp)@, final(arrivals)@, r.0 as int, r.1 as int) == light_dp_state(
            max_len@,
            match_dis@,
            block_start as int,
            qstar as int,
            qstar_cost as int,
            old(dp)@,
            old(arrivals)@,
            block_end + 1,
        ),
{
    let block_len = block_end - block_start;
    let mut literal_run = block_start - qstar;
    proof {
        lemma_extras_bound(literal_run as int, TOKEN_LIT_MAX as int);
        assert(qstar_cost + literal_run + literal_run / 2 <= cost_bound(block_start as int))
            by (nonlinear_arith)
            requires
                qstar_cost <= cost_bound(qstar as int),
                literal_run == block_start - qstar,
                qstar <= block_start,
        ;
    }
    let mut literal_cost = qstar_cost + literal_run + light_literal_extras(literal_run);
    let mut next_extra_at = if literal_run < TOKEN_LIT_MAX {
        TOKEN_LIT_MAX
    } else {
        literal_run + 255 - (literal_run - TOKEN_LIT_MAX) % 255
    };
    let ghost mut anchor: int = qstar as int;
    let ghost mut anchor_cost: int = qstar_cost as int;
    let ghost dp0 = dp@;
    let ghost arr0 = arrivals@;
    if block_start == 0 {
        dp.set(0, qstar_cost);
    }
    let mut pos = block_start;
    proof {
        reveal(light_dp_state);
    }
    while pos <= block_end
        invariant
            block_start < block_end <= isize::MAX,
            block_len == block_end - block_start,
            max_len.len() == block_len,
            match_dis.len() == block_len,
            forall|i: int|
                0 <= i < max_len.len() ==> (max_len@[i] == 0 || (MIN_MATCH_LEN <= max_len@[i]
                    <= MAX_MATCH_LEN && block_start + i + max_len@[i] <= block_end)),
            qstar <= block_start,
            qstar_cost <= cost_bound(qstar as int),
            block_start == 0 ==> qstar == 0 && qstar_cost == EXT_HEADER_SIZE,
            block_start <= pos <= block_end + 1,
            light_dp_ok(dp@, arrivals@, max_len@, match_dis@, block_start as int, qstar as int, qstar_cost as int),
            anchor + literal_run == (if pos == block_start {
                pos as int
            } else {
                pos - 1
            }),
            anchor_ok(dp@, anchor, block_start as int, qstar as int),
            anchor_cost == dp_cost(dp@, anchor, block_start as int, qstar as int, qstar_cost as int),
            anchor <= pos,
            dp@.len() == block_len + 1,
            forall|t: int|
                0 < t < dp@.len() && dp@[t] != LIGHT_OPTIMAL_DP_INF ==> block_start + t
                    - #[trigger] arrivals@[t].len < pos,
            qstar <= anchor,
            literal_cost == anchor_cost + literal_run + literal_extras(
                literal_run as int,
                TOKEN_LIT_MAX as int,
            ),
            next_extra_at == next_extra(literal_run as int, TOKEN_LIT_MAX as int),
            0 <= anchor_cost <= cost_bound(anchor),
            literal_cost <= cost_bound(anchor + literal_run),
            dp0 == old(dp)@,
            arr0 == old(arrivals)@,
            (dp@, arrivals@, literal_run as int, literal_cost as int) == light_dp_state(
                max_len@,
                match_dis@,
                block_start as int,
                qstar as int,
                qstar_cost as int,
                dp0,
                arr0,
                pos as int,
            ),
        decreases block_end + 1 - pos,
    {
        let i = pos - block_start;
        let ghost st0 = (dp@, arrivals@, literal_run as int, literal_cost as int);
        let ghost lr0 = literal_run as int;
        if pos > block_start {
            proof {
                lemma_extras_step(literal_run as int, TOKEN_LIT_MAX as int);
                lemma_extras_bound(literal_run + 1, TOKEN_LIT_MAX as int);
                assert(anchor_cost + (literal_run + 1) + (literal_run + 1) / 2 <= cost_bound(
                    anchor + literal_run + 1,
                )) by (nonlinear_arith)
                    requires
                        anchor_cost <= cost_bound(anchor),
                        anchor >= 0,
                        literal_run >= 0,
                ;
            }
            literal_run += 1;
            if literal_run >= next_extra_at {
                literal_cost += 1;
                next_extra_at = literal_run + 255;
            }
            literal_cost += 1;
            if dp[i] <= literal_cost {
                proof {
                    assert(light_entry_ok(
                        dp@,
                        arrivals@,
                        max_len@,
                        match_dis@,
                        block_start as int,
                        qstar as int,
                        qstar_cost as int,
                        i as int,
                    ));
                    anchor = pos as int;
                    anchor_cost = dp@[i as int] as int;
                }
                literal_cost = dp[i];
                literal_run = 0;
                next_extra_at = TOKEN_LIT_MAX;
            }
        }
        let longest = if i < block_len {
            max_len[i] as usize
        } else {
            0
        };
        let ghost dp_in = dp@;
        let ghost arr_in = arrivals@;
        if longest >= MIN_MATCH_LEN {
            let cost = literal_cost + 3;
            let mut len = MIN_MATCH_LEN;
            let ghost dis_i = match_dis@[i as int];
            while len <= longest
                invariant
                    MIN_MATCH_LEN <= len <= longest + 1,
                    longest <= MAX_MATCH_LEN,
                    i < block_len,
                    longest == max_len@[i as int],
                    i + longest <= block_len,
                    pos == block_start + i,
                    block_len == block_end - block_start,
                    block_end <= isize::MAX,
                    max_len.len() == block_len,
                    match_dis.len() == block_len,
                    qstar <= block_start,
                    block_start == 0 ==> qstar == 0,
                    cost == literal_cost + 3,
                    literal_cost <= cost_bound(pos as int),
                    anchor + literal_run == pos,
                    qstar <= anchor,
                    anchor_ok(dp@, anchor, block_start as int, qstar as int),
                    literal_cost == anchor_cost + literal_run + literal_extras(
                        literal_run as int,
                        TOKEN_LIT_MAX as int,
                    ),
                    anchor_cost == dp_cost(dp@, anchor, block_start as int, qstar as int, qstar_cost as int),
                    dp@.len() == block_len + 1,
                    forall|t: int|
                        0 < t < dp@.len() && dp@[t] != LIGHT_OPTIMAL_DP_INF ==> block_start + t
                            - #[trigger] arrivals@[t].len <= pos,
                    light_dp_ok(dp@, arrivals@, max_len@, match_dis@, block_start as int, qstar as int, qstar_cost as int),
                    dis_i == match_dis@[i as int],
                    light_relax(dp_in, arr_in, i as int, cost as int, literal_run as int, dis_i, MIN_MATCH_LEN as int, longest as int)
                        == light_relax(dp@, arrivals@, i as int, cost as int, literal_run as int, dis_i, len as int, longest as int),
                decreases longest + 1 - len,
            {
                let target = i + len;
                proof {
                    reveal(light_relax);
                }
                if cost < dp[target] {
                    let ghost dp0 = dp@;
                    let ghost arr0 = arrivals@;
                    dp.set(target, cost);
                    arrivals.set(
                        target,
                        LightArrival { dis: match_dis[i], len: len as u8, lit_run: literal_run },
                    );
                    proof {
                        assert(cost <= cost_bound(block_start + target)) by (nonlinear_arith)
                            requires
                                cost == literal_cost + 3,
                                literal_cost <= cost_bound(pos as int),
                                target >= i + 4,
                                pos == block_start + i,
                        ;
                        assert forall|t: int|
                            0 <= t < dp@.len() && dp@[t] != LIGHT_OPTIMAL_DP_INF implies #[trigger] light_entry_ok(
                            dp@,
                            arrivals@,
                            max_len@,
                            match_dis@,
                            block_start as int,
                            qstar as int,
                        qstar_cost as int,
                            t,
                        ) by {
                            if t != target {
                                assert(light_entry_ok(
                                    dp0,
                                    arr0,
                                    max_len@,
                                    match_dis@,
                                    block_start as int,
                                    qstar as int,
                        qstar_cost as int,
                                    t,
                                ));
                            }
                        }
                    }
                }
                len += 1;
            }
            proof {
                reveal(light_relax);
            }
        }
        proof {
            reveal(light_dp_state);
            reveal(light_dp_step);
            assert(lr0 == st0.2);
        }
        pos += 1;
    }
    (literal_run, literal_cost, Ghost(anchor), Ghost(anchor_cost))
}

/// `c` is where the last block's parse ends its matches: of the committed
/// start and the reached positions of the block, one whose cost plus the
/// literal suffix behind it is least, the earliest on ties (the committed
/// start before all).
pub open spec fn is_final_commit(
    dp: Seq<usize>,
    block_start: int,
    block_end: int,
    n: int,
    qstar: int,
    qstar_cost: int,
    c: int,
) -> bool {
    let total = dp_cost(dp, c, block_start, qstar, qstar_cost) + (n - c);
    &&& qstar <= c <= block_end
    &&& anchor_ok(dp, c, block_start, qstar)
    &&& forall|p: int|
        block_start <= p <= block_end && #[trigger] dp[p - block_start] != LIGHT_OPTIMAL_DP_INF
            ==> total <= dp[p - block_start] + (n - p) && (p < c ==> total < dp[p - block_start] + (n
            - p))
    &&& c != qstar ==> total < qstar_cost + (n - qstar)
}

/// Where the last block's parse ends its matches.
pub open spec fn final_commit_of(
    dp: Seq<usize>,
    block_start: int,
    block_end: int,
    n: int,
    qstar: int,
    qstar_cost: int,
) -> int {
    choose|c: int| is_final_commit(dp, block_start, block_end, n, qstar, qstar_cost, c)
}

/// Only one position is where the last block's parse ends its matches.
pub proof fn lemma_final_commit_unique(
    dp: Seq<usize>,
    block_start: int,
    block_end: int,
    n: int,
    qstar: int,
    qstar_cost: int,
    c: int,
)
    requires
        qstar <= block_start,
        is_final_commit(dp, block_start, block_end, n, qstar, qstar_cost, c),
    ensures
        final_commit_of(dp, block_start, block_end, n, qstar, qstar_cost) == c,
{
    let d = final_commit_of(dp, block_start, block_end, n, qstar, qstar_cost);
    assert(is_final_commit(dp, block_start, block_end, n, qstar, qstar_cost, d));
    if d < c {
        if d != qstar {
            assert(dp[d - block_start] != LIGHT_OPTIMAL_DP_INF);
        }
        assert(dp[c - block_start] != LIGHT_OPTIMAL_DP_INF);
    }
    if c < d {
        if c != qstar {
            assert(dp[c - block_start] != LIGHT_OPTIMAL_DP_INF);
        }
        assert(dp[d - block_start] != LIGHT_OPTIMAL_DP_INF);
    }
}

/// Where the last block's parse ends its matches: the reached position, or
/// the committed start, whose cost plus the literal suffix behind it is
/// least (the earliest such position on ties).
fn light_final_commit(
    dp: &Vec<usize>,
    arrivals: &Vec<LightArrival>,
    max_len: &Vec<u8>,
    match_dis: &Vec<u32>,
    block_start: usize,
    block_end: usize,
    src_size: usize,
    qstar: usize,
    qstar_cost: usize,
) -> (r: (usize, usize))
    requires
        light_dp_ok(dp@, arrivals@, max_len@, match_dis@, block_start as int, qstar as int, qstar_cost as int),
        block_end == block_start + max_len.len(),
        block_end == src_size,
        src_size <= isize::MAX,
        qstar <= block_start,
        qstar_cost <= cost_bound(qstar as int),
    ensures
        anchor_ok(dp@, r.0 as int, block_start as int, qstar as int),
        qstar <= r.0 <= block_end,
        r.1 <= cost_bound(r.0 as int),
        forall|p: int|
            block_start <= p <= block_end && #[trigger] dp@[p - block_start] != LIGHT_OPTIMAL_DP_INF ==> r.1 + (
            src_size - r.0) <= dp@[p - block_start] + (src_size - p) && (p < r.0 ==> r.1 + (src_size
            - r.0) < dp@[p - block_start] + (src_size - p)),
        r.0 != qstar ==> r.1 + (src_size - r.0) < qstar_cost + (src_size - qstar),
        r.1 == dp_cost(dp@, r.0 as int, block_start as int, qstar as int, qstar_cost as int),
        r.1 + (src_size - r.0) <= qstar_cost + (src_size - qstar),
        r.0 == final_commit_of(
            dp@,
            block_start as int,
            block_end as int,
            src_size as int,
            qstar as int,
            qstar_cost as int,
        ),
{
    let mut best_total = qstar_cost + (src_size - qstar);
    let mut best_commit = qstar;
    let mut best_commit_cost = qstar_cost;
    let mut pos = block_start;
    while pos <= block_end
        invariant
            light_dp_ok(dp@, arrivals@, max_len@, match_dis@, block_start as int, qstar as int, qstar_cost as int),
            block_end == block_start + max_len.len(),
            block_end == src_size,
            src_size <= isize::MAX,
            qstar <= block_start,
            block_start <= pos <= block_end + 1,
            anchor_ok(dp@, best_commit as int, block_start as int, qstar as int),
            qstar <= best_commit <= block_end,
            best_commit_cost <= cost_bound(best_commit as int),
            best_total == best_commit_cost + (src_size - best_commit),
            best_commit <= pos,
            forall|p: int|
                block_start <= p < pos && #[trigger] dp@[p - block_start] != LIGHT_OPTIMAL_DP_INF ==> best_total
                    <= dp@[p - block_start] + (src_size - p) && (p < best_commit ==> best_total
                    < dp@[p - block_start] + (src_size - p)),
            best_commit != qstar ==> best_total < qstar_cost + (src_size - qstar),
            qstar_cost <= cost_bound(qstar as int),
            best_commit_cost == dp_cost(
                dp@,
                best_commit as int,
                block_start as int,
                qstar as int,
                qstar_cost as int,
            ),
            best_total == best_commit_cost + (src_size - best_commit),
            best_total <= qstar_cost + (src_size - qstar),
        decreases block_end + 1 - pos,
    {
        let cost = dp[pos - block_start];
        if cost != LIGHT_OPTIMAL_DP_INF {
            proof {
                assert(light_entry_ok(
                    dp@,
                    arrivals@,
                    max_len@,
                    match_dis@,
                    block_start as int,
                    qstar as int,
                        qstar_cost as int,
                    pos - block_start,
                ));
                assert(cost + (src_size - pos) <= usize::MAX) by (nonlinear_arith)
                    requires
                        cost <= cost_bound(pos as int),
                        pos <= src_size <= isize::MAX,
                ;
            }
            let total = cost + (src_size - pos);
            if total < best_total {
                best_total = total;
                best_commit = pos;
                best_commit_cost = cost;
            }
        }
        pos += 1;
    }
    proof {
        lemma_final_commit_unique(
            dp@,
            block_start as int,
            block_end as int,
            src_size as int,
            qstar as int,
            qstar_cost as int,
            best_commit as int,
        );
    }
    (best_commit, best_commit_cost)
}

/// A chosen token lies in the block and uses the block's match tables.
pub open spec fn token_in_table(
    t: LightTokenRecord,
    max_len: Seq<u8>,
    match_dis: Seq<u32>,
    block_start: int,
) -> bool {
    &&& block_start <= t.match_start
    &&& t.match_start - block_start < max_len.len()
    &&& MIN_MATCH_LEN <= t.len <= max_len[t.match_start - block_start]
    &&& t.dis == match_dis[t.match_start - block_start]
}

/// The tokens of a block, last first: each from the tables, each ending by
/// the start of the one after it, the last ending at `commit` and the first
/// starting at or after `qstar`.
pub open spec fn light_chain_ok(
    toks: Seq<LightTokenRecord>,
    max_len: Seq<u8>,
    match_dis: Seq<u32>,
    block_start: int,
    qstar: int,
    commit: int,
) -> bool {
    &&& forall|k: int| 0 <= k < toks.len() ==> token_in_table(#[trigger] toks[k], max_len, match_dis, block_start)
    &&& toks.len() == 0 ==> commit == qstar
    &&& toks.len() > 0 ==> toks[0].match_start + toks[0].len == commit && qstar <= toks.last().match_start
    &&& forall|k: int| 0 <= k < toks.len() - 1 ==> toks[k + 1].match_start + toks[k + 1].len <= #[trigger] toks[k].match_start
}

/// The stream bytes of a block's tokens (last first): each token's bytes,
/// its literal run reaching back to the end of the token before it, or to
/// `qstar` for the first.
#[verifier::opaque]
pub open spec fn chain_bytes(toks: Seq<LightTokenRecord>, qstar: int) -> int
    decreases toks.len(),
{
    if toks.len() == 0 {
        0
    } else {
        let rest = toks.drop_first();
        let prev_end = if rest.len() == 0 {
            qstar
        } else {
            rest[0].match_start + rest[0].len
        };
        chain_bytes(rest, qstar) + light_token_cost(toks[0].match_start - prev_end)
    }
}

/// The stream tokens of a block's tokens (last first), in stream order:
/// each with its literal run reaching back to the end of the token before
/// it, or to `qstar` for the first.
#[verifier::opaque]
pub open spec fn chain_tokens(toks: Seq<LightTokenRecord>, qstar: int) -> Seq<Token>
    decreases toks.len(),
{
    if toks.len() == 0 {
        Seq::empty()
    } else {
        let rest = toks.drop_first();
        let prev_end = if rest.len() == 0 {
            qstar
        } else {
            rest[0].match_start + rest[0].len
        };
        chain_tokens(rest, qstar).push(
            (toks[0].match_start - prev_end, toks[0].len as int, toks[0].dis as int),
        )
    }
}

/// Putting a token `e` before the first of a chain adds its bytes, its
/// literal run reaching back from `e` to `start`.
pub proof fn lemma_chain_push(toks: Seq<LightTokenRecord>, e: LightTokenRecord, start: int)
    ensures
        chain_bytes(toks.push(e), start) == chain_bytes(toks, e.match_start + e.len)
            + light_token_cost(e.match_start - start),
    decreases toks.len(),
{
    reveal(chain_bytes);
    if toks.len() > 0 {
        let q = toks.drop_first().push(e);
        assert(toks.push(e).drop_first() =~= q);
        assert(toks.push(e)[0] == toks[0]);
        if toks.len() == 1 {
            assert(q[0] == e);
        } else {
            assert(q[0] == toks.drop_first()[0]);
        }
        lemma_chain_push(toks.drop_first(), e, start);
        let big = e.match_start + e.len;
        let pe = if toks.len() == 1 {
            big
        } else {
            toks[1].match_start + toks[1].len
        };
        assert(toks.drop_first().len() > 0 ==> toks.drop_first()[0] == toks[1]);
        assert(chain_bytes(toks, big) == chain_bytes(toks.drop_first(), big) + light_token_cost(
            toks[0].match_start - pe,
        ));
        assert(chain_bytes(toks.push(e), start) == chain_bytes(q, start) + light_token_cost(
            toks[0].match_start - pe,
        ));
        assert(chain_bytes(q, start) == chain_bytes(toks.drop_first(), big) + light_token_cost(
            e.match_start - start,
        ));
    } else {
        assert(toks.push(e).drop_first() =~= Seq::<LightTokenRecord>::empty());
        assert(toks.push(e)[0] == e);
        assert(chain_bytes(toks.push(e).drop_first(), start) == 0);
        assert(chain_bytes(toks.push(e), start) == light_token_cost(e.match_start - start));
    }
}

/// Writing one more token `t` after the tokens `ts` adds its three bytes and
/// extension bytes to the control stream and its literal run to the literal
/// stream.
pub proof fn lemma_token_stream_bytes(x: Seq<u8>, ts: Seq<Token>, t: Token)
    requires
        0 <= t.0,
        0 <= parse_end(ts),
        parse_end(ts) + t.0 <= x.len(),
    ensures
        light_ctrl(ts.push(t)).len() + lit_area(x, ts.push(t)).len() == light_ctrl(ts).len()
            + lit_area(x, ts).len() + light_token_cost(t.0),
{
    assert(ts.push(t).drop_last() =~= ts);
    assert(ts.push(t).last() == t);
    if t.0 >= TOKEN_LIT_MAX {
        assert(ext_bytes(t.0 - TOKEN_LIT_MAX).len() == (t.0 - TOKEN_LIT_MAX) / 255 + 1);
    }
}

/// The tokens that the arrivals lead back through from `boundary` to the
/// committed start `qstar`, last first: at each reached boundary, the match
/// of its arrival, then on from the start of that match's literal run.
#[verifier::opaque]
pub open spec fn light_trace(arr: Seq<LightArrival>, block_start: int, qstar: int, boundary: int) -> Seq<
    LightTokenRecord,
>
    decreases boundary - qstar,
{
    let a = arr[boundary - block_start];
    let next = boundary - a.len - a.lit_run;
    if boundary <= qstar || a.len < MIN_MATCH_LEN || next < qstar {
        Seq::empty()
    } else {
        seq![LightTokenRecord { match_start: (boundary - a.len) as usize, len: a.len, dis: a.dis }]
            + light_trace(arr, block_start, qstar, next)
    }
}

/// Traces the arrivals back from `commit` to `qstar`, collecting the
/// block's tokens last first; `None` if the arrivals do not lead back (which
/// the cost minimisation never leaves).
#[verifier::rlimit(40)]
fn light_block_backtrack(
    dp: &Vec<usize>,
    arrivals: &Vec<LightArrival>,
    max_len: &Vec<u8>,
    match_dis: &Vec<u32>,
    block_start: usize,
    qstar: usize,
    commit: usize,
    Ghost(qstar_cost): Ghost<int>,
) -> (r: Option<Vec<LightTokenRecord>>)
    requires
        light_dp_ok(dp@, arrivals@, max_len@, match_dis@, block_start as int, qstar as int, qstar_cost as int),
        anchor_ok(dp@, commit as int, block_start as int, qstar as int),
        qstar <= commit,
        qstar <= block_start,
    ensures
        r is Some,
        r matches Some(toks) ==> light_chain_ok(
            toks@,
            max_len@,
            match_dis@,
            block_start as int,
            qstar as int,
            commit as int,
        ),
        r matches Some(toks) ==> dp_cost(dp@, commit as int, block_start as int, qstar as int, qstar_cost)
            == qstar_cost + chain_bytes(toks@, qstar as int),
        r matches Some(toks) ==> toks@ == light_trace(arrivals@, block_start as int, qstar as int, commit as int),
{
    let mut block_tokens: Vec<LightTokenRecord> = Vec::new();
    let mut boundary = commit;
    proof {
        reveal(chain_bytes);
        assert(block_tokens@ + light_trace(arrivals@, block_start as int, qstar as int, boundary as int)
            =~= light_trace(arrivals@, block_start as int, qstar as int, boundary as int));
    }
    while boundary > qstar
        invariant
            light_dp_ok(dp@, arrivals@, max_len@, match_dis@, block_start as int, qstar as int, qstar_cost as int),
            anchor_ok(dp@, boundary as int, block_start as int, qstar as int),
            qstar <= boundary <= commit,
            qstar <= block_start,
            forall|k: int| 0 <= k < block_tokens.len() ==> token_in_table(#[trigger] block_tokens@[k], max_len@, match_dis@, block_start as int),
            block_tokens.len() == 0 ==> boundary == commit,
            block_tokens.len() > 0 ==> block_tokens@[0].match_start + block_tokens@[0].len == commit
                && boundary <= block_tokens@.last().match_start,
            forall|k: int| 0 <= k < block_tokens.len() - 1 ==> block_tokens@[k + 1].match_start + block_tokens@[k + 1].len <= #[trigger] block_tokens@[k].match_start,
            dp_cost(dp@, commit as int, block_start as int, qstar as int, qstar_cost) == dp_cost(
                dp@,
                boundary as int,
                block_start as int,
                qstar as int,
                qstar_cost,
            ) + chain_bytes(block_tokens@, boundary as int),
            light_trace(arrivals@, block_start as int, qstar as int, commit as int) == block_tokens@
                + light_trace(arrivals@, block_start as int, qstar as int, boundary as int),
        decreases boundary,
    {
        let t = boundary - block_start;
        proof {
            assert(light_entry_ok(
                dp@,
                arrivals@,
                max_len@,
                match_dis@,
                block_start as int,
                qstar as int,
                        qstar_cost as int,
                t as int,
            ));
        }
        let arrival = arrivals[t];
        let matched_len = arrival.len as usize;
        if boundary < matched_len || boundary - matched_len < arrival.lit_run {
            return None;
        }
        let next = boundary - matched_len - arrival.lit_run;
        if matched_len < MIN_MATCH_LEN || (next < block_start && next != qstar) {
            return None;
        }
        let ghost old_toks = block_tokens@;
        let record = LightTokenRecord {
            match_start: boundary - matched_len,
            len: arrival.len,
            dis: arrival.dis,
        };
        block_tokens.push(record);
        proof {
            assert(light_trace(arrivals@, block_start as int, qstar as int, boundary as int) == seq![
                record,
            ] + light_trace(arrivals@, block_start as int, qstar as int, next as int)) by {
                reveal(light_trace);
            }
            assert(old_toks + (seq![record] + light_trace(arrivals@, block_start as int, qstar as int, next as int))
                =~= block_tokens@ + light_trace(arrivals@, block_start as int, qstar as int, next as int));
            assert(dp_cost(dp@, commit as int, block_start as int, qstar as int, qstar_cost) == dp_cost(
                dp@,
                next as int,
                block_start as int,
                qstar as int,
                qstar_cost,
            ) + chain_bytes(block_tokens@, next as int)) by {
                assert(dp_cost(dp@, boundary as int, block_start as int, qstar as int, qstar_cost)
                    == dp_cost(dp@, next as int, block_start as int, qstar as int, qstar_cost)
                    + light_token_cost(arrival.lit_run as int));
                lemma_chain_push(old_toks, record, next as int);
            }
            assert(block_tokens@.last() == block_tokens@[block_tokens.len() - 1]);
            assert forall|k: int| 0 <= k < block_tokens.len() - 1 implies block_tokens@[k + 1].match_start + block_tokens@[k + 1].len <= #[trigger] block_tokens@[k].match_start by {
                if k + 1 < old_toks.len() {
                    assert(old_toks[k + 1] == block_tokens@[k + 1]);
                    assert(old_toks[k] == block_tokens@[k]);
                } else {
                    assert(old_toks[k] == block_tokens@[k]);
                    assert(old_toks.last() == old_toks[k]);
                }
            }
        }
        boundary = next;
    }
    proof {
        assert(light_trace(arrivals@, block_start as int, qstar as int, boundary as int) =~= Seq::<
            LightTokenRecord,
        >::empty()) by {
            reveal(light_trace);
        }
        assert(block_tokens@ + Seq::<LightTokenRecord>::empty() =~= block_tokens@);
    }
    Some(block_tokens)
}

/// Writes a block's tokens (held last first) after the stream written so
/// far, each with the literal run from the end of the token before it.
#[verifier::rlimit(60)]
#[verifier::spinoff_prover]
fn emit_block_tokens(
    src: &[u8],
    dst: &mut [u8],
    dlpos: &mut usize,
    drpos: &mut usize,
    lit: &mut usize,
    block_tokens: &Vec<LightTokenRecord>,
    max_len: &Vec<u8>,
    match_dis: &Vec<u32>,
    block_start: usize,
    qstar: usize,
    commit: usize,
    hard_end: usize,
    Ghost(ts0): Ghost<Seq<Token>>,
    Ghost(qstar_cost): Ghost<int>,
) -> (new_ts: Ghost<Seq<Token>>)
    requires
        src.len() <= isize::MAX,
        hard_end + LITERAL_SUFFIX <= src.len(),
        light_chain_ok(
            block_tokens@,
            max_len@,
            match_dis@,
            block_start as int,
            qstar as int,
            commit as int,
        ),
        match_table_ok(
            src@,
            max_len@,
            match_dis@,
            block_start as int,
            MIN_DISTANCE as int,
            MAX_DISTANCE as int,
            MAX_MATCH_LEN as int,
            hard_end as int,
        ),
        light_writer_ok(src@, old(dst)@, *old(dlpos) as int, *old(drpos) as int, ts0),
        *old(lit) == parse_end(ts0),
        *old(lit) == qstar,
        *old(dlpos) + (old(dst).len() - *old(drpos)) == qstar_cost,
    ensures
        final(dst).len() == old(dst).len(),
        light_writer_ok(src@, final(dst)@, *final(dlpos) as int, *final(drpos) as int, new_ts@),
        *final(lit) == parse_end(new_ts@),
        *final(lit) == commit,
        *final(dlpos) + (final(dst).len() - *final(drpos)) == qstar_cost + chain_bytes(
            block_tokens@,
            qstar as int,
        ),
        new_ts@ == ts0 + chain_tokens(block_tokens@, qstar as int),
{
    let dst_cap = dst.len();
    let ghost mut ts = ts0;
    let mut k = block_tokens.len();
    proof {
        reveal(chain_bytes);
        reveal(chain_tokens);
        assert(block_tokens@.subrange(k as int, block_tokens.len() as int).len() == 0);
        assert(ts0 + chain_tokens(block_tokens@.subrange(k as int, block_tokens.len() as int), qstar as int)
            =~= ts0);
    }
    while k > 0
        invariant
            src.len() <= isize::MAX,
            hard_end + LITERAL_SUFFIX <= src.len(),
            k <= block_tokens.len(),
            light_chain_ok(
                block_tokens@,
                max_len@,
                match_dis@,
                block_start as int,
                qstar as int,
                commit as int,
            ),
            match_table_ok(
                src@,
                max_len@,
                match_dis@,
                block_start as int,
                MIN_DISTANCE as int,
                MAX_DISTANCE as int,
                MAX_MATCH_LEN as int,
                hard_end as int,
            ),
            dst.len() == dst_cap,
            dst_cap == old(dst).len(),
            light_writer_ok(src@, dst@, *dlpos as int, *drpos as int, ts),
            *lit == parse_end(ts),
            k < block_tokens.len() ==> *lit == block_tokens@[k as int].match_start + block_tokens@[k as int].len,
            k == block_tokens.len() ==> *lit == qstar,
            *dlpos + (dst_cap - *drpos) == qstar_cost + chain_bytes(
                block_tokens@.subrange(k as int, block_tokens.len() as int),
                qstar as int,
            ),
            ts == ts0 + chain_tokens(
                block_tokens@.subrange(k as int, block_tokens.len() as int),
                qstar as int,
            ),
        decreases k,
    {
        k -= 1;
        let token = block_tokens[k];
        let ghost i = token.match_start - block_start;
        proof {
            assert(*lit <= token.match_start && light_token_ok(
                src@,
                *lit as int,
                ((token.match_start - *lit) as int, token.len as int, token.dis as int),
            )) by {
                assert(token_in_table(block_tokens@[k as int], max_len@, match_dis@, block_start as int));
                assert(match_entry_ok(
                    src@,
                    block_start + i,
                    max_len@[i] as int,
                    match_dis@[i] as int,
                    MIN_DISTANCE as int,
                    MAX_DISTANCE as int,
                    MAX_MATCH_LEN as int,
                    hard_end as int,
                ));
                if k + 1 < block_tokens.len() {
                    assert(block_tokens@[k + 1].match_start + block_tokens@[k + 1].len <= block_tokens@[k as int].match_start);
                } else {
                    assert(block_tokens@.last() == block_tokens@[k as int]);
                }
                assert(*lit <= token.match_start);
                let lit_len = token.match_start - *lit;
                assert forall|q: int| 0 <= q < token.len implies #[trigger] src@[*lit + lit_len + q]
                    == src@[*lit + lit_len + q - token.dis] by {
                    assert(src@[(block_start + i) + q] == src@[(block_start + i) + q - match_dis@[i]]);
                }
            }
        }
        let lit_len = token.match_start - *lit;
        let ghost before = block_tokens@.subrange(k + 1, block_tokens.len() as int);
        let ghost after = block_tokens@.subrange(k as int, block_tokens.len() as int);
        proof {
            assert(chain_tokens(after, qstar as int) == chain_tokens(before, qstar as int).push(
                (lit_len as int, token.len as int, token.dis as int),
            )) by {
                reveal(chain_tokens);
                assert(after.drop_first() =~= before);
                assert(after[0] == token);
                if before.len() > 0 {
                    assert(before[0] == block_tokens@[k + 1]);
                }
            }
            assert(chain_bytes(after, qstar as int) == chain_bytes(before, qstar as int)
                + light_token_cost(lit_len as int)) by {
                reveal(chain_bytes);
                assert(after.drop_first() =~= before);
                assert(after[0] == token);
                if before.len() > 0 {
                    assert(before[0] == block_tokens@[k + 1]);
                }
            }
            lemma_token_stream_bytes(src@, ts, (lit_len as int, token.len as int, token.dis as int));
        }
        emit_token(
            dst,
            dlpos,
            drpos,
            src,
            *lit,
            lit_len,
            token.len as usize,
            token.dis as usize,
            Ghost(ts),
        );
        proof {
            crate::light_encode::lemma_push_token(src@, ts, (lit_len as int, token.len as int, token.dis as int));
            assert(ts.push((lit_len as int, token.len as int, token.dis as int)) =~= ts0 + chain_tokens(
                after,
                qstar as int,
            ));
            ts = ts.push((lit_len as int, token.len as int, token.dis as int));
        }
        *lit = token.match_start + token.len as usize;
    }
    proof {
        if block_tokens.len() > 0 {
            assert(*lit == commit);
        }
        assert(block_tokens@.subrange(0, block_tokens.len() as int) =~= block_tokens@);
    }

    Ghost(ts)
}

/// Fills a level 3 block's match tables from what the suffix-array call
/// gave: with a sorted suffix array `sa` (and its inverse `rank`) of the
/// block's segment (`sorted`), the finder's tables over it; without one,
/// the tables stay empty.
fn light_block_tables(
    src: &[u8],
    sa: &[i32],
    rank: &[u32],
    live: &mut HeavyLiveSet,
    max_len: &mut [u8],
    match_dis: &mut [u32],
    block_start: usize,
    block_end: usize,
    seg_start: usize,
    seg_end: usize,
    hard_end: usize,
)
    requires
        src.len() <= isize::MAX,
        SMALL_LIM < src.len(),
        block_start < src.len(),
        block_end == block_end_of(src.len() as int, block_start as int, LIGHT_OPTIMAL_BLOCK_SIZE as int),
        seg_start == seg_start_of(block_start as int, MAX_DISTANCE as int),
        seg_end == seg_end_of(src.len() as int, block_end as int, LIGHT_OPTIMAL_PAD_LEN as int),
        hard_end == hard_end_of(src.len() as int, block_end as int, LITERAL_SUFFIX as int),
        sa.len() == seg_end - seg_start,
        rank.len() == sa.len(),
        old(max_len)@ == Seq::new((block_end - block_start) as nat, |i: int| 0u8),
        old(match_dis)@ == Seq::new((block_end - block_start) as nat, |i: int| 0u32),
        sa_rank_ok(src@.subrange(seg_start as int, seg_end as int), sa@, rank@)
            && sa_sorted(src@.subrange(seg_start as int, seg_end as int), sa@),
    ensures
        final(max_len).len() == old(max_len).len(),
        final(match_dis).len() == old(match_dis).len(),
        match_table_ok(
            src@,
            final(max_len)@,
            final(match_dis)@,
            block_start as int,
            MIN_DISTANCE as int,
            MAX_DISTANCE as int,
            MAX_MATCH_LEN as int,
            hard_end as int,
        ),
        final(max_len)@ == finder_lens(
            src@,
            sa@,
            rank@,
            seg_start as int,
            hard_end as int,
            MIN_DISTANCE as int,
            MAX_DISTANCE as int,
            MAX_MATCH_LEN as int,
            DIS_LIM as int,
            block_start as int,
            block_end - block_start,
        ) && final(match_dis)@ == finder_dists(
            src@,
            sa@,
            rank@,
            seg_start as int,
            hard_end as int,
            MIN_DISTANCE as int,
            MAX_DISTANCE as int,
            MAX_MATCH_LEN as int,
            DIS_LIM as int,
            block_start as int,
            block_end - block_start,
        ),
        light_block_tables_ok(src@, block_start as int, final(max_len)@, final(match_dis)@),
{
    let ghost md_zero = match_dis@;
    {
        let init_limit: u32 = if block_start >= MIN_DISTANCE && block_start - MIN_DISTANCE
            >= seg_start {
            (block_start - MIN_DISTANCE - seg_start + 1) as u32
        } else {
            0
        };
        live.build(sa, seg_end - seg_start, init_limit);
        proof {
            assert forall|r: int| #[trigger] live.has(r) implies 0 <= r < sa@.len() && block_start
                - 1 - MAX_DISTANCE <= seg_start + sa@[r] <= block_start - MIN_DISTANCE by {
                assert(0 <= sa@[r]);
            }
            assert(live_window(*live, sa@, seg_start as int, block_start - 1 - MAX_DISTANCE, block_start - MIN_DISTANCE));
            assert forall|r: int| #[trigger] in_window(sa@, seg_start as int, block_start - 1 - MAX_DISTANCE, block_start - MIN_DISTANCE - 1, r) implies live.has(r) by {
                assert(0 <= sa@[r]);
            }
            assert(live_covers(*live, sa@, seg_start as int, block_start - 1 - MAX_DISTANCE, block_start - MIN_DISTANCE - 1));
            assert(src@.subrange(seg_start as int, seg_end as int) == src@.subrange(seg_start as int, seg_start + sa.len()));
        }
        light_find_matches(
            src,
            sa,
            rank,
            live,
            max_len,
            match_dis,
            block_start,
            block_end,
            seg_start,
            hard_end,
        );
    }

    proof {
        lemma_light_block_tables(
            src@,
            sa@,
            rank@,
            block_start as int,
            max_len@,
            match_dis@,
            md_zero,
        );
        {
            lemma_finder_tables(
                src@,
                sa@,
                rank@,
                seg_start as int,
                hard_end as int,
                MIN_DISTANCE as int,
                MAX_DISTANCE as int,
                MAX_MATCH_LEN as int,
                DIS_LIM as int,
                block_start as int,
                max_len@,
                match_dis@,
                block_end - block_start,
            );
        }
    }
}

/// The level 3 encoder: splits the input into blocks, finds each block's
/// matches over a suffix array of the block and the window before it, and
/// writes the cheapest light parse the block's cost minimisation finds.
pub(crate) fn light_optimal_compress(src: &[u8], dst: &mut [u8]) -> (r: usize)
    requires
        old(dst).len() >= light_room(src.len() as int),
        src.len() <= isize::MAX,
    ensures
        r <= final(dst).len(),
        final(dst).len() == old(dst).len(),
        is_light_encoding(src@, final(dst)@.take(r as int)),
        src.len() <= LIGHT_OPTIMAL_BLOCK_SIZE ==> r <= EXT_HEADER_SIZE + src.len(),
        src.len() <= SMALL_LIM ==> final(dst)@.take(r as int) == raw_stream(src@),
        SMALL_LIM < src.len() ==> exists|ts: Seq<Token>|
            #[trigger] light_optimal_parse(src@, ts) && final(dst)@.take(r as int)
                == light_stream(src@, ts),
{
    light_optimal_body(src, dst)
}

/// The block loop of the level 3 encoder.
#[verifier::rlimit(50)]
fn light_optimal_body(src: &[u8], dst: &mut [u8]) -> (r: usize)
    requires
        old(dst).len() >= light_room(src.len() as int),
        src.len() <= isize::MAX,
    ensures
        r <= final(dst).len(),
        final(dst).len() == old(dst).len(),
        is_light_encoding(src@, final(dst)@.take(r as int)),
        src.len() <= LIGHT_OPTIMAL_BLOCK_SIZE ==> r <= EXT_HEADER_SIZE + src.len(),
        src.len() <= SMALL_LIM ==> final(dst)@.take(r as int) == raw_stream(src@),
        SMALL_LIM < src.len() ==> exists|ts: Seq<Token>|
            #[trigger] light_optimal_parse(src@, ts) && final(dst)@.take(r as int)
                == light_stream(src@, ts),
{
    let src_size = src.len();
    if src_size <= SMALL_LIM {
        let r = store_raw(src, dst);
        assert(dst@.take(r as int).len() == r);
        return r;
    }
    start_light(src, dst);
    let dst_cap = dst.len();
    let mut drpos = dst_cap;
    let literal_suffix_pos = HEADER_SIZE;
    let mut dlpos = HEADER_SIZE + 8;
    let match_end_limit = src_size - LITERAL_SUFFIX;
    let mut lit: usize = 0;
    let ghost mut ts: Seq<Token> = Seq::empty();
    let ghost mut tabs: Seq<(Seq<u8>, Seq<u32>)> = Seq::empty();

    let mut sa: Vec<i32> = Vec::new();
    let mut rank: Vec<u32> = Vec::new();
    let mut live = HeavyLiveSet::new();
    let mut max_len: Vec<u8> = Vec::new();
    let mut match_dis: Vec<u32> = Vec::new();
    let mut dp: Vec<usize> = Vec::new();
    let mut arrivals: Vec<LightArrival> = Vec::new();

    let mut qstar: usize = 0;
    let mut qstar_cost: usize = EXT_HEADER_SIZE;
    let mut block_start: usize = 0;
    while block_start < src_size
        invariant
            src_size == src.len(),
            src_size <= isize::MAX,
            src_size > SMALL_LIM,
            match_end_limit == src_size - LITERAL_SUFFIX,
            dst.len() == dst_cap,
            literal_suffix_pos == HEADER_SIZE,
            light_writer_ok(src@, dst@, dlpos as int, drpos as int, ts),
            lit == parse_end(ts),
            lit <= qstar <= block_start <= src_size,
            lit == qstar,
            qstar_cost <= cost_bound(qstar as int),
            block_start == 0 ==> qstar == 0 && qstar_cost == EXT_HEADER_SIZE,
            qstar_cost == dlpos + (dst_cap - drpos),
            src_size <= LIGHT_OPTIMAL_BLOCK_SIZE ==> block_start == 0 || block_start == src_size,
            src_size <= LIGHT_OPTIMAL_BLOCK_SIZE && block_start == src_size ==> qstar_cost + (
            src_size - qstar) <= EXT_HEADER_SIZE + src_size,
            block_start == 0 ==> ts == Seq::<Token>::empty(),
            block_start < src_size ==> block_start == tabs.len() * LIGHT_OPTIMAL_BLOCK_SIZE,
            block_start == src_size ==> light_opt_tables_ok(src@, tabs),
            forall|k: int|
                0 <= k < tabs.len() ==> light_block_tables_ok(
                    src@,
                    k * LIGHT_OPTIMAL_BLOCK_SIZE,
                    #[trigger] tabs[k].0,
                    tabs[k].1,
                ),
            light_opt_prefix(src@, tabs) == (ts, qstar as int, qstar_cost as int),
        decreases src_size - block_start,
    {
        let block_end = if block_start + LIGHT_OPTIMAL_BLOCK_SIZE < src_size {
            block_start + LIGHT_OPTIMAL_BLOCK_SIZE
        } else {
            src_size
        };
        let block_len = block_end - block_start;
        let seg_start = if block_start > MAX_DISTANCE {
            block_start - MAX_DISTANCE
        } else {
            0
        };
        let seg_end = if src_size < block_end + LIGHT_OPTIMAL_PAD_LEN {
            src_size
        } else {
            block_end + LIGHT_OPTIMAL_PAD_LEN
        };
        let seg_len = seg_end - seg_start;

        sa.resize(seg_len, 0);
        rank.resize(seg_len, 0);
        sorted_suffix_array(
            &src[seg_start..seg_end],
            sa.as_mut_slice(),
            rank.as_mut_slice(),
        );

        max_len.clear();
        max_len.resize(block_len, 0);
        match_dis.clear();
        match_dis.resize(block_len, 0);
        proof {
            assert(max_len@ =~= Seq::new(block_len as nat, |i: int| 0u8));
            assert(match_dis@ =~= Seq::new(block_len as nat, |i: int| 0u32));
        }

        let hard_end = if block_end < match_end_limit {
            block_end
        } else {
            match_end_limit
        };
        light_block_tables(
            src,
            sa.as_slice(),
            rank.as_slice(),
            &mut live,
            max_len.as_mut_slice(),
            match_dis.as_mut_slice(),
            block_start,
            block_end,
            seg_start,
            seg_end,
            hard_end,
        );

        dp.clear();
        dp.resize(block_len + 1, LIGHT_OPTIMAL_DP_INF);
        arrivals.clear();
        arrivals.resize(block_len + 1, LightArrival { dis: 0, len: 0, lit_run: 0 });
        let ghost dp_init = dp@;
        let ghost arr_init = arrivals@;
        proof {
            assert(dp@ =~= Seq::new((block_len + 1) as nat, |i: int| LIGHT_OPTIMAL_DP_INF));
            assert(arrivals@ =~= Seq::new(
                (block_len + 1) as nat,
                |i: int| LightArrival { dis: 0, len: 0, lit_run: 0 },
            ));
        }
        proof {
            assert forall|i: int| 0 <= i < max_len.len() implies (max_len@[i] == 0 || (MIN_MATCH_LEN
                <= max_len@[i] <= MAX_MATCH_LEN && block_start + i + max_len@[i] <= block_end)) by {
                {
                    assert(match_entry_ok(
                        src@,
                        block_start + i,
                        max_len@[i] as int,
                        match_dis@[i] as int,
                        MIN_DISTANCE as int,
                        MAX_DISTANCE as int,
                        MAX_MATCH_LEN as int,
                        hard_end as int,
                    ));
                }
            }
        }
        let (literal_run, literal_cost, Ghost(anchor), Ghost(anchor_cost)) = light_block_dp(
            &max_len,
            &match_dis,
            &mut dp,
            &mut arrivals,
            block_start,
            block_end,
            qstar,
            qstar_cost,
        );

        let (commit, commit_cost) = if block_end < src_size {
            (block_end - literal_run, literal_cost - literal_run - light_literal_extras(literal_run))
        } else {
            light_final_commit(
                &dp,
                &arrivals,
                &max_len,
                &match_dis,
                block_start,
                block_end,
                src_size,
                qstar,
                qstar_cost,
            )
        };

        let block_tokens = match light_block_backtrack(
            &dp,
            &arrivals,
            &max_len,
            &match_dis,
            block_start,
            qstar,
            commit,
            Ghost(qstar_cost as int),
        ) {
            Some(t) => t,
            None => {
                return 0;
            },
        };

        let new_ts = emit_block_tokens(
            src,
            dst,
            &mut dlpos,
            &mut drpos,
            &mut lit,
            &block_tokens,
            &max_len,
            &match_dis,
            block_start,
            qstar,
            commit,
            hard_end,
            Ghost(ts),
            Ghost(qstar_cost as int),
        );
        proof {
            let tabs2 = tabs.push((max_len@, match_dis@));
            assert(tabs2.drop_last() =~= tabs);
            assert(light_opt_prefix(src@, tabs2) == (new_ts@, commit as int, commit_cost as int));
            assert forall|k: int| 0 <= k < tabs2.len() implies light_block_tables_ok(
                src@,
                k * LIGHT_OPTIMAL_BLOCK_SIZE,
                #[trigger] tabs2[k].0,
                tabs2[k].1,
            ) by {
                if k < tabs.len() {
                    assert(tabs2[k] == tabs[k]);
                }
            }
            ts = new_ts@;
            tabs = tabs2;
        }

        qstar = commit;
        qstar_cost = commit_cost;
        block_start = block_end;
    }

    let r = finish_light(src, dst, dst_cap, dlpos, drpos, literal_suffix_pos, lit, Ghost(ts));
    proof {
        assert(crate::light_format::light_parse_ok(src@, ts));
        assert(dst@.take(r as int).len() == r);
        assert(light_optimal_parse(src@, ts));
        assert(light_stream(src@, ts).len() == 16 + light_ctrl(ts).len() + lit_area(src@, ts).len()
            + (src_size - lit));
    }
    r
}

} // verus!
