//! The parses the block-wise least-cost encoders (levels 3 and 4) write, as
//! functions of the input and of the match tables each block is parsed
//! over: a block's tables are those the sorted suffix array of its segment
//! gives.
use vstd::prelude::*;
use crate::format::{
    DIS_LIM, EXT_HEADER_SIZE, HEAVY_LITERAL_SUFFIX, HEAVY_MAX_DISTANCE, HEAVY_MAX_MATCH_LEN,
    HEAVY_MIN_DISTANCE, HEAVY_NDIS, HEAVY_TOKEN_LIT_MAX, LITERAL_SUFFIX, MAX_DISTANCE,
    MAX_MATCH_LEN, MIN_DISTANCE, TOKEN_LIT_MAX,
};
use crate::heavy_optimal::{
    cost_at, heavy_chain_tokens, heavy_dp_state, heavy_trace, HEAVY_BLOCK_SIZE, HEAVY_DP_INF,
    HEAVY_PAD_LEN,
};
use crate::light_format::Token;
use crate::light_optimal::{
    chain_tokens, dp_cost, final_commit_of, light_dp_state, light_trace, literal_extras,
    LightArrival, LIGHT_OPTIMAL_BLOCK_SIZE, LIGHT_OPTIMAL_DP_INF, LIGHT_OPTIMAL_PAD_LEN,
};
use crate::optimal::{finder_dists, finder_lens, finder_table_ok, lemma_finder_tables};
use crate::sais::{lemma_sa_rank_unique, sa_rank_ok, sa_sorted};

verus! {

/// Where the block that starts at `bs` ends, for an input of `n` bytes and
/// blocks of `size` bytes.
pub open spec fn block_end_of(n: int, bs: int, size: int) -> int {
    if bs + size < n {
        bs + size
    } else {
        n
    }
}

/// Where the segment a block's suffix array covers starts: the window of
/// `max_dis` bytes before the block.
pub open spec fn seg_start_of(bs: int, max_dis: int) -> int {
    if bs > max_dis {
        bs - max_dis
    } else {
        0
    }
}

/// Where the segment a block's suffix array covers ends: `pad` bytes past
/// the block, within the input.
pub open spec fn seg_end_of(n: int, be: int, pad: int) -> int {
    if n < be + pad {
        n
    } else {
        be + pad
    }
}

/// Where a block's matches must end by: its end, or the start of the
/// literal suffix of `suffix` bytes.
pub open spec fn hard_end_of(n: int, be: int, suffix: int) -> int {
    if be < n - suffix {
        be
    } else {
        n - suffix
    }
}

/// `sa`, `rank` are a sorted suffix array (and its inverse) of the segment of
/// the level 3 block starting at `bs`, and `ml`, `md` the finder's tables
/// over them.
pub open spec fn light_tables_over(
    x: Seq<u8>,
    bs: int,
    sa: Seq<i32>,
    rank: Seq<u32>,
    ml: Seq<u8>,
    md: Seq<u32>,
) -> bool {
    let n = x.len() as int;
    let be = block_end_of(n, bs, LIGHT_OPTIMAL_BLOCK_SIZE as int);
    let ss = seg_start_of(bs, MAX_DISTANCE as int);
    let se = seg_end_of(n, be, LIGHT_OPTIMAL_PAD_LEN as int);
    let he = hard_end_of(n, be, LITERAL_SUFFIX as int);
    let seg = x.subrange(ss, se);
    &&& sa_rank_ok(seg, sa, rank)
    &&& sa_sorted(seg, sa)
    &&& ml == finder_lens(
            x,
            sa,
            rank,
            ss,
            he,
            MIN_DISTANCE as int,
            MAX_DISTANCE as int,
            MAX_MATCH_LEN as int,
            DIS_LIM as int,
            bs,
            be - bs,
        )
    &&& md == finder_dists(
            x,
            sa,
            rank,
            ss,
            he,
            MIN_DISTANCE as int,
            MAX_DISTANCE as int,
            MAX_MATCH_LEN as int,
            DIS_LIM as int,
            bs,
            be - bs,
        )
}

/// `ml`, `md` are match tables the level 3 block starting at `bs` may be
/// parsed over: those the sorted suffix array of its segment gives.
pub open spec fn light_block_tables_ok(x: Seq<u8>, bs: int, ml: Seq<u8>, md: Seq<u32>) -> bool {
    exists|sa: Seq<i32>, rank: Seq<u32>| #[trigger] light_tables_over(x, bs, sa, rank, ml, md)
}

/// What the level 3 block starting at `bs` writes over the tables `ml`,
/// `md`, after the parse so far committed to `qstar` at cost `qcost`: the
/// position its parse commits to, that position's cost, and its tokens.
/// A block before the last commits where its final literal run starts; the
/// last block commits where `final_commit_of` says.
pub open spec fn light_block_step(n: int, ml: Seq<u8>, md: Seq<u32>, bs: int, qstar: int, qcost: int) -> (
    int,
    int,
    Seq<Token>,
) {
    let be = bs + ml.len();
    let st = light_dp_state(
        ml,
        md,
        bs,
        qstar,
        qcost,
        Seq::new((ml.len() + 1) as nat, |i: int| LIGHT_OPTIMAL_DP_INF),
        Seq::new((ml.len() + 1) as nat, |i: int| LightArrival { dis: 0, len: 0, lit_run: 0 }),
        be + 1,
    );
    let commit = if be < n {
        be - st.2
    } else {
        final_commit_of(st.0, bs, be, n, qstar, qcost)
    };
    let cost = if be < n {
        st.3 - st.2 - literal_extras(st.2, TOKEN_LIT_MAX as int)
    } else {
        dp_cost(st.0, commit, bs, qstar, qcost)
    };
    (commit, cost, chain_tokens(light_trace(st.1, bs, qstar, commit), qstar))
}

/// The tokens the level 3 encoder has written after parsing its first
/// `tabs.len()` blocks over the tables `tabs`, with the position and cost
/// it committed to.
pub open spec fn light_opt_prefix(x: Seq<u8>, tabs: Seq<(Seq<u8>, Seq<u32>)>) -> (Seq<Token>, int, int)
    decreases tabs.len(),
{
    if tabs.len() == 0 {
        (Seq::empty(), 0, EXT_HEADER_SIZE as int)
    } else {
        let prev = light_opt_prefix(x, tabs.drop_last());
        let bs = (tabs.len() - 1) * LIGHT_OPTIMAL_BLOCK_SIZE;
        let step = light_block_step(x.len() as int, tabs.last().0, tabs.last().1, bs, prev.1, prev.2);
        (prev.0 + step.2, step.0, step.1)
    }
}

/// `tabs` holds tables the level 3 encoder may parse each block of `x`
/// over, one per block.
pub open spec fn light_opt_tables_ok(x: Seq<u8>, tabs: Seq<(Seq<u8>, Seq<u32>)>) -> bool {
    &&& (tabs.len() - 1) * LIGHT_OPTIMAL_BLOCK_SIZE < x.len() <= tabs.len() * LIGHT_OPTIMAL_BLOCK_SIZE
    &&& forall|k: int|
        0 <= k < tabs.len() ==> light_block_tables_ok(
            x,
            k * LIGHT_OPTIMAL_BLOCK_SIZE,
            #[trigger] tabs[k].0,
            tabs[k].1,
        )
}

/// The parse `ts` is one the level 3 encoder writes for `x`: block by
/// block, over the match tables of each block's suffix array.
pub open spec fn light_optimal_parse(x: Seq<u8>, ts: Seq<Token>) -> bool {
    exists|tabs: Seq<(Seq<u8>, Seq<u32>)>|
        #[trigger] light_opt_tables_ok(x, tabs) && light_opt_prefix(x, tabs).0 == ts
}

/// The tables a level 3 block was parsed over are ones it may be parsed
/// over: the finder's tables over a sorted suffix array of its segment.
pub proof fn lemma_light_block_tables(
    x: Seq<u8>,
    sa: Seq<i32>,
    rank: Seq<u32>,
    bs: int,
    ml: Seq<u8>,
    md: Seq<u32>,
    md0: Seq<u32>,
)
    requires
        0 <= bs < x.len(),
        ml.len() == block_end_of(x.len() as int, bs, LIGHT_OPTIMAL_BLOCK_SIZE as int) - bs,
        md.len() == ml.len(),
        md0 == Seq::new(ml.len(), |i: int| 0u32),
        ({
            let n = x.len() as int;
            let be = block_end_of(n, bs, LIGHT_OPTIMAL_BLOCK_SIZE as int);
            let ss = seg_start_of(bs, MAX_DISTANCE as int);
            let seg = x.subrange(ss, seg_end_of(n, be, LIGHT_OPTIMAL_PAD_LEN as int));
            &&& sa_rank_ok(seg, sa, rank)
            &&& sa_sorted(seg, sa)
            &&& finder_table_ok(
                x,
                sa,
                rank,
                ss,
                hard_end_of(n, be, LITERAL_SUFFIX as int),
                MIN_DISTANCE as int,
                MAX_DISTANCE as int,
                MAX_MATCH_LEN as int,
                DIS_LIM as int,
                bs,
                ml,
                md,
                md0,
                be - bs,
            )
        }),
    ensures
        light_block_tables_ok(x, bs, ml, md),
{
    let n = x.len() as int;
    let be = block_end_of(n, bs, LIGHT_OPTIMAL_BLOCK_SIZE as int);
    let ss = seg_start_of(bs, MAX_DISTANCE as int);
    let he = hard_end_of(n, be, LITERAL_SUFFIX as int);
    let seg = x.subrange(ss, seg_end_of(n, be, LIGHT_OPTIMAL_PAD_LEN as int));
    {
        lemma_finder_tables(
            x,
            sa,
            rank,
            ss,
            he,
            MIN_DISTANCE as int,
            MAX_DISTANCE as int,
            MAX_MATCH_LEN as int,
            DIS_LIM as int,
            bs,
            ml,
            md,
            be - bs,
        );
        assert(sa_rank_ok(seg, sa, rank) && sa_sorted(seg, sa));
        assert(light_tables_over(x, bs, sa, rank, ml, md));
    }
}

/// `sa`, `rank` are a sorted suffix array (and its inverse) of the segment of
/// the level 4 block starting at `bs`, and `ml`, `md` the finder's tables
/// over them.
pub open spec fn heavy_tables_over(
    x: Seq<u8>,
    bs: int,
    sa: Seq<i32>,
    rank: Seq<u32>,
    ml: Seq<u8>,
    md: Seq<u32>,
) -> bool {
    let n = x.len() as int;
    let be = block_end_of(n, bs, HEAVY_BLOCK_SIZE as int);
    let ss = seg_start_of(bs, HEAVY_MAX_DISTANCE as int);
    let se = seg_end_of(n, be, HEAVY_PAD_LEN as int);
    let he = hard_end_of(n, be, HEAVY_LITERAL_SUFFIX as int);
    let seg = x.subrange(ss, se);
    &&& sa_rank_ok(seg, sa, rank)
    &&& sa_sorted(seg, sa)
    &&& ml == finder_lens(
            x,
            sa,
            rank,
            ss,
            he,
            HEAVY_MIN_DISTANCE as int,
            HEAVY_MAX_DISTANCE as int,
            HEAVY_MAX_MATCH_LEN as int,
            HEAVY_NDIS as int,
            bs,
            be - bs,
        )
    &&& md == finder_dists(
            x,
            sa,
            rank,
            ss,
            he,
            HEAVY_MIN_DISTANCE as int,
            HEAVY_MAX_DISTANCE as int,
            HEAVY_MAX_MATCH_LEN as int,
            HEAVY_NDIS as int,
            bs,
            be - bs,
        )
}

/// `ml`, `md` are match tables the level 4 block starting at `bs` may be
/// parsed over: those the sorted suffix array of its segment gives.
pub open spec fn heavy_block_tables_ok(x: Seq<u8>, bs: int, ml: Seq<u8>, md: Seq<u32>) -> bool {
    exists|sa: Seq<i32>, rank: Seq<u32>| #[trigger] heavy_tables_over(x, bs, sa, rank, ml, md)
}

/// What the level 4 block starting at `bs` writes over the tables `ml`,
/// `md`, after the parse so far committed to `qstar` at cost `qcost`: the
/// position its parse commits to, that position's cost, and its tokens.
/// A block before the last commits where its final literal run starts; the
/// last block commits where `final_commit_of` says.
pub open spec fn heavy_block_step(n: int, ml: Seq<u8>, md: Seq<u32>, bs: int, qstar: int, qcost: int) -> (
    int,
    int,
    Seq<Token>,
) {
    let be = bs + ml.len();
    let st = heavy_dp_state(
        ml,
        bs,
        qstar,
        qcost,
        Seq::new((ml.len() + 1) as nat, |i: int| HEAVY_DP_INF),
        Seq::new((ml.len() + 1) as nat, |i: int| 0u8),
        be + 1,
    );
    let commit = if be < n {
        be - st.2
    } else {
        final_commit_of(st.0, bs, be, n, qstar, qcost)
    };
    let cost = if be < n {
        st.3 - st.2 - literal_extras(st.2, HEAVY_TOKEN_LIT_MAX as int)
    } else {
        cost_at(st.0, commit, bs, qstar, qcost)
    };
    (commit, cost, heavy_chain_tokens(heavy_trace(st.0, st.1, md, bs, qstar, qcost, commit), qstar))
}

/// The tokens the level 4 encoder has written after parsing its first
/// `tabs.len()` blocks over the tables `tabs`, with the position and cost
/// it committed to.
pub open spec fn heavy_opt_prefix(x: Seq<u8>, tabs: Seq<(Seq<u8>, Seq<u32>)>) -> (Seq<Token>, int, int)
    decreases tabs.len(),
{
    if tabs.len() == 0 {
        (Seq::empty(), 0, EXT_HEADER_SIZE as int)
    } else {
        let prev = heavy_opt_prefix(x, tabs.drop_last());
        let bs = (tabs.len() - 1) * HEAVY_BLOCK_SIZE;
        let step = heavy_block_step(x.len() as int, tabs.last().0, tabs.last().1, bs, prev.1, prev.2);
        (prev.0 + step.2, step.0, step.1)
    }
}

/// `tabs` holds tables the level 4 encoder may parse each block of `x`
/// over, one per block.
pub open spec fn heavy_opt_tables_ok(x: Seq<u8>, tabs: Seq<(Seq<u8>, Seq<u32>)>) -> bool {
    &&& (tabs.len() - 1) * HEAVY_BLOCK_SIZE < x.len() <= tabs.len() * HEAVY_BLOCK_SIZE
    &&& forall|k: int|
        0 <= k < tabs.len() ==> heavy_block_tables_ok(
            x,
            k * HEAVY_BLOCK_SIZE,
            #[trigger] tabs[k].0,
            tabs[k].1,
        )
}

/// The parse `ts` is one the level 4 encoder writes for `x`: block by
/// block, over the match tables of each block's suffix array.
pub open spec fn heavy_optimal_parse(x: Seq<u8>, ts: Seq<Token>) -> bool {
    exists|tabs: Seq<(Seq<u8>, Seq<u32>)>|
        #[trigger] heavy_opt_tables_ok(x, tabs) && heavy_opt_prefix(x, tabs).0 == ts
}

/// The tables a level 4 block was parsed over are ones it may be parsed
/// over: the finder's tables over a sorted suffix array of its segment.
pub proof fn lemma_heavy_block_tables(
    x: Seq<u8>,
    sa: Seq<i32>,
    rank: Seq<u32>,
    bs: int,
    ml: Seq<u8>,
    md: Seq<u32>,
    md0: Seq<u32>,
)
    requires
        0 <= bs < x.len(),
        ml.len() == block_end_of(x.len() as int, bs, HEAVY_BLOCK_SIZE as int) - bs,
        md.len() == ml.len(),
        md0 == Seq::new(ml.len(), |i: int| 0u32),
        ({
            let n = x.len() as int;
            let be = block_end_of(n, bs, HEAVY_BLOCK_SIZE as int);
            let ss = seg_start_of(bs, HEAVY_MAX_DISTANCE as int);
            let seg = x.subrange(ss, seg_end_of(n, be, HEAVY_PAD_LEN as int));
            &&& sa_rank_ok(seg, sa, rank)
            &&& sa_sorted(seg, sa)
            &&& finder_table_ok(
                x,
                sa,
                rank,
                ss,
                hard_end_of(n, be, HEAVY_LITERAL_SUFFIX as int),
                HEAVY_MIN_DISTANCE as int,
                HEAVY_MAX_DISTANCE as int,
                HEAVY_MAX_MATCH_LEN as int,
                HEAVY_NDIS as int,
                bs,
                ml,
                md,
                md0,
                be - bs,
            )
        }),
    ensures
        heavy_block_tables_ok(x, bs, ml, md),
{
    let n = x.len() as int;
    let be = block_end_of(n, bs, HEAVY_BLOCK_SIZE as int);
    let ss = seg_start_of(bs, HEAVY_MAX_DISTANCE as int);
    let he = hard_end_of(n, be, HEAVY_LITERAL_SUFFIX as int);
    let seg = x.subrange(ss, seg_end_of(n, be, HEAVY_PAD_LEN as int));
    {
        lemma_finder_tables(
            x,
            sa,
            rank,
            ss,
            he,
            HEAVY_MIN_DISTANCE as int,
            HEAVY_MAX_DISTANCE as int,
            HEAVY_MAX_MATCH_LEN as int,
            HEAVY_NDIS as int,
            bs,
            ml,
            md,
            be - bs,
        );
        assert(sa_rank_ok(seg, sa, rank) && sa_sorted(seg, sa));
        assert(heavy_tables_over(x, bs, sa, rank, ml, md));
    }
}

/// The tables a level 3 block is parsed over are determined by the
/// input: any two tables that block may be parsed over are the same, those
/// of the one suffix array of its segment.
pub proof fn law_light_block_tables_unique(
    x: Seq<u8>,
    bs: int,
    ml1: Seq<u8>,
    md1: Seq<u32>,
    ml2: Seq<u8>,
    md2: Seq<u32>,
)
    requires
        light_block_tables_ok(x, bs, ml1, md1),
        light_block_tables_ok(x, bs, ml2, md2),
    ensures
        ml1 == ml2,
        md1 == md2,
{
    let (sa1, r1) = choose|sa: Seq<i32>, rank: Seq<u32>| #[trigger] light_tables_over(x, bs, sa, rank, ml1, md1);
    let (sa2, r2) = choose|sa: Seq<i32>, rank: Seq<u32>| #[trigger] light_tables_over(x, bs, sa, rank, ml2, md2);
    let n = x.len() as int;
    let be = block_end_of(n, bs, LIGHT_OPTIMAL_BLOCK_SIZE as int);
    let seg = x.subrange(seg_start_of(bs, MAX_DISTANCE as int), seg_end_of(n, be, LIGHT_OPTIMAL_PAD_LEN as int));
    lemma_sa_rank_unique(seg, sa1, r1, sa2, r2);
}

/// Level 3 writes one parse per input: any two parses it may write for
/// `x` are the same.
pub proof fn law_light_optimal_one_parse(x: Seq<u8>, ts1: Seq<Token>, ts2: Seq<Token>)
    requires
        light_optimal_parse(x, ts1),
        light_optimal_parse(x, ts2),
    ensures
        ts1 == ts2,
{
    let t1 = choose|tabs: Seq<(Seq<u8>, Seq<u32>)>|
        #[trigger] light_opt_tables_ok(x, tabs) && light_opt_prefix(x, tabs).0 == ts1;
    let t2 = choose|tabs: Seq<(Seq<u8>, Seq<u32>)>|
        #[trigger] light_opt_tables_ok(x, tabs) && light_opt_prefix(x, tabs).0 == ts2;
    assert(t1.len() == t2.len());
    assert forall|k: int| 0 <= k < t1.len() implies t1[k] == t2[k] by {
        assert(light_block_tables_ok(x, k * LIGHT_OPTIMAL_BLOCK_SIZE, t1[k].0, t1[k].1));
        assert(light_block_tables_ok(x, k * LIGHT_OPTIMAL_BLOCK_SIZE, t2[k].0, t2[k].1));
        law_light_block_tables_unique(x, k * LIGHT_OPTIMAL_BLOCK_SIZE, t1[k].0, t1[k].1, t2[k].0, t2[k].1);
    }
    assert(t1 =~= t2);
}

/// The tables a level 4 block is parsed over are determined by the
/// input: any two tables that block may be parsed over are the same, those
/// of the one suffix array of its segment.
pub proof fn law_heavy_block_tables_unique(
    x: Seq<u8>,
    bs: int,
    ml1: Seq<u8>,
    md1: Seq<u32>,
    ml2: Seq<u8>,
    md2: Seq<u32>,
)
    requires
        heavy_block_tables_ok(x, bs, ml1, md1),
        heavy_block_tables_ok(x, bs, ml2, md2),
    ensures
        ml1 == ml2,
        md1 == md2,
{
    let (sa1, r1) = choose|sa: Seq<i32>, rank: Seq<u32>| #[trigger] heavy_tables_over(x, bs, sa, rank, ml1, md1);
    let (sa2, r2) = choose|sa: Seq<i32>, rank: Seq<u32>| #[trigger] heavy_tables_over(x, bs, sa, rank, ml2, md2);
    let n = x.len() as int;
    let be = block_end_of(n, bs, HEAVY_BLOCK_SIZE as int);
    let seg = x.subrange(seg_start_of(bs, HEAVY_MAX_DISTANCE as int), seg_end_of(n, be, HEAVY_PAD_LEN as int));
    lemma_sa_rank_unique(seg, sa1, r1, sa2, r2);
}

/// Level 4 writes one parse per input: any two parses it may write for
/// `x` are the same.
pub proof fn law_heavy_optimal_one_parse(x: Seq<u8>, ts1: Seq<Token>, ts2: Seq<Token>)
    requires
        heavy_optimal_parse(x, ts1),
        heavy_optimal_parse(x, ts2),
    ensures
        ts1 == ts2,
{
    let t1 = choose|tabs: Seq<(Seq<u8>, Seq<u32>)>|
        #[trigger] heavy_opt_tables_ok(x, tabs) && heavy_opt_prefix(x, tabs).0 == ts1;
    let t2 = choose|tabs: Seq<(Seq<u8>, Seq<u32>)>|
        #[trigger] heavy_opt_tables_ok(x, tabs) && heavy_opt_prefix(x, tabs).0 == ts2;
    assert(t1.len() == t2.len());
    assert forall|k: int| 0 <= k < t1.len() implies t1[k] == t2[k] by {
        assert(heavy_block_tables_ok(x, k * HEAVY_BLOCK_SIZE, t1[k].0, t1[k].1));
        assert(heavy_block_tables_ok(x, k * HEAVY_BLOCK_SIZE, t2[k].0, t2[k].1));
        law_heavy_block_tables_unique(x, k * HEAVY_BLOCK_SIZE, t1[k].0, t1[k].1, t2[k].0, t2[k].1);
    }
    assert(t1 =~= t2);
}

} // verus!
