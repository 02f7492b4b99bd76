//! The optimal parsers: suffix-array match finding over a sliding window of
//! live ranks, and the block-wise cost minimisation that picks the tokens.
use vstd::prelude::*;
use crate::format::{
    DIS_LIM, HEAVY_MAX_DISTANCE, HEAVY_MAX_MATCH_LEN, HEAVY_MIN_DISTANCE, HEAVY_NDIS, MAX_DISTANCE,
    MAX_MATCH_LEN, MIN_DISTANCE, MIN_MATCH_LEN,
};
use crate::live_set::HeavyLiveSet;
use crate::match_find::{common_prefix, lcp_heavy};
use crate::sais::{rank_inverse, sa_rank_ok};

verus! {

/// A match table entry at input position `pos`: no match, or a match of
/// `len` bytes ending by `hard_end` that repeats the bytes `dis` back, at a
/// distance in `[min_dis, max_dis]`.
pub open spec fn match_entry_ok(
    src: Seq<u8>,
    pos: int,
    len: int,
    dis: int,
    min_dis: int,
    max_dis: int,
    max_match: int,
    hard_end: int,
) -> bool {
    len == 0 || {
        &&& MIN_MATCH_LEN <= len <= max_match
        &&& pos + len <= hard_end
        &&& min_dis <= dis <= max_dis
        &&& dis <= pos
        &&& forall|k: int| 0 <= k < len ==> #[trigger] src[pos + k] == src[pos + k - dis]
    }
}

/// Every entry of a block's match tables is a valid match entry.
pub open spec fn match_table_ok(
    src: Seq<u8>,
    max_len: Seq<u8>,
    match_dis: Seq<u32>,
    block_start: int,
    min_dis: int,
    max_dis: int,
    max_match: int,
    hard_end: int,
) -> bool {
    &&& max_len.len() == match_dis.len()
    &&& forall|i: int|
        0 <= i < max_len.len() ==> match_entry_ok(
            src,
            block_start + i,
            #[trigger] max_len[i] as int,
            match_dis[i] as int,
            min_dis,
            max_dis,
            max_match,
            hard_end,
        )
}

/// Every rank of `live` is a rank of the segment whose position lies in
/// `[lo, hi]`.
pub open spec fn live_window(
    live: HeavyLiveSet,
    sa: Seq<i32>,
    seg_start: int,
    lo: int,
    hi: int,
) -> bool {
    forall|r: int|
        #[trigger] live.has(r) ==> 0 <= r < sa.len() && lo <= seg_start + sa[r] <= hi
}

/// Rank `r` is the rank of a segment position in `[lo, hi]`.
pub open spec fn in_window(sa: Seq<i32>, seg_start: int, lo: int, hi: int, r: int) -> bool {
    0 <= r < sa.len() && lo <= seg_start + sa[r] <= hi
}

/// The ranks of `live` are exactly those of the segment positions in
/// `[lo, hi]`.
pub open spec fn live_exact(live: HeavyLiveSet, sa: Seq<i32>, seg_start: int, lo: int, hi: int) -> bool {
    forall|r: int| #[trigger] live.has(r) <==> in_window(sa, seg_start, lo, hi, r)
}

/// `live` holds every rank of the segment positions in `[lo, hi]`.
pub open spec fn live_covers(live: HeavyLiveSet, sa: Seq<i32>, seg_start: int, lo: int, hi: int) -> bool {
    forall|r: int| #[trigger] in_window(sa, seg_start, lo, hi, r) ==> live.has(r)
}

/// `p` is the greatest rank below `index` whose position lies in `[lo, hi]`.
pub open spec fn is_window_prev(sa: Seq<i32>, seg_start: int, lo: int, hi: int, p: int, index: int) -> bool {
    &&& p < index
    &&& in_window(sa, seg_start, lo, hi, p)
    &&& forall|j: int| p < j < index ==> !#[trigger] in_window(sa, seg_start, lo, hi, j)
}

/// `p` is the least rank above `index` whose position lies in `[lo, hi]`.
pub open spec fn is_window_next(sa: Seq<i32>, seg_start: int, lo: int, hi: int, p: int, index: int) -> bool {
    &&& index < p
    &&& in_window(sa, seg_start, lo, hi, p)
    &&& forall|j: int| index < j < p ==> !#[trigger] in_window(sa, seg_start, lo, hi, j)
}

/// The greatest rank below `index` whose position lies in `[lo, hi]`, if any.
pub open spec fn window_prev(sa: Seq<i32>, seg_start: int, lo: int, hi: int, index: int) -> Option<int> {
    if exists|p: int| #[trigger] is_window_prev(sa, seg_start, lo, hi, p, index) {
        Some(choose|p: int| #[trigger] is_window_prev(sa, seg_start, lo, hi, p, index))
    } else {
        None
    }
}

/// The least rank above `index` whose position lies in `[lo, hi]`, if any.
pub open spec fn window_next(sa: Seq<i32>, seg_start: int, lo: int, hi: int, index: int) -> Option<int> {
    if exists|p: int| #[trigger] is_window_next(sa, seg_start, lo, hi, p, index) {
        Some(choose|p: int| #[trigger] is_window_next(sa, seg_start, lo, hi, p, index))
    } else {
        None
    }
}

/// A set holding exactly the ranks of a window has that window's
/// neighbours of `index` as its own.
proof fn lemma_window_neighbours(live: HeavyLiveSet, sa: Seq<i32>, seg_start: int, lo: int, hi: int, index: int)
    requires
        live_exact(live, sa, seg_start, lo, hi),
    ensures
        live.prev_of(index) == window_prev(sa, seg_start, lo, hi, index),
        live.next_of(index) == window_next(sa, seg_start, lo, hi, index),
{
    assert forall|p: int| #[trigger] live.is_prev(p, index) <==> is_window_prev(sa, seg_start, lo, hi, p, index) by {
        if live.is_prev(p, index) {
            assert forall|j: int| p < j < index implies !#[trigger] in_window(sa, seg_start, lo, hi, j) by {
                assert(!live.has(j));
            }
        }
        if is_window_prev(sa, seg_start, lo, hi, p, index) {
            assert(live.has(p));
            assert forall|j: int| p + 1 <= j < index implies !#[trigger] live.has(j) by {
                assert(!in_window(sa, seg_start, lo, hi, j));
            }
        }
    }
    assert forall|p: int| #[trigger] live.is_next(p, index) <==> is_window_next(sa, seg_start, lo, hi, p, index) by {
        if live.is_next(p, index) {
            assert forall|j: int| index < j < p implies !#[trigger] in_window(sa, seg_start, lo, hi, j) by {
                assert(!live.has(j));
            }
        }
        if is_window_next(sa, seg_start, lo, hi, p, index) {
            assert(live.has(p));
            assert forall|j: int| index + 1 <= j < p implies !#[trigger] live.has(j) by {
                assert(!in_window(sa, seg_start, lo, hi, j));
            }
        }
    }
    if exists|p: int| #[trigger] live.is_prev(p, index) {
        let a = choose|p: int| #[trigger] live.is_prev(p, index);
        assert(is_window_prev(sa, seg_start, lo, hi, a, index));
        let b = choose|p: int| #[trigger] is_window_prev(sa, seg_start, lo, hi, p, index);
        assert(is_window_prev(sa, seg_start, lo, hi, b, index));
        if a < b {
            assert(!in_window(sa, seg_start, lo, hi, b));
        }
        if b < a {
            assert(!in_window(sa, seg_start, lo, hi, a));
        }
    } else {
        assert forall|p: int| !#[trigger] is_window_prev(sa, seg_start, lo, hi, p, index) by {
            if is_window_prev(sa, seg_start, lo, hi, p, index) {
                assert(live.is_prev(p, index));
            }
        }
    }
    if exists|p: int| #[trigger] live.is_next(p, index) {
        let a = choose|p: int| #[trigger] live.is_next(p, index);
        assert(is_window_next(sa, seg_start, lo, hi, a, index));
        let b = choose|p: int| #[trigger] is_window_next(sa, seg_start, lo, hi, p, index);
        assert(is_window_next(sa, seg_start, lo, hi, b, index));
        if a < b {
            assert(!in_window(sa, seg_start, lo, hi, a));
        }
        if b < a {
            assert(!in_window(sa, seg_start, lo, hi, b));
        }
    } else {
        assert forall|p: int| !#[trigger] is_window_next(sa, seg_start, lo, hi, p, index) by {
            if is_window_next(sa, seg_start, lo, hi, p, index) {
                assert(live.is_next(p, index));
            }
        }
    }
}

/// The requirements shared by the match finders for one block.
pub open spec fn finder_ready(
    src: Seq<u8>,
    sa: Seq<i32>,
    rank: Seq<u32>,
    live: HeavyLiveSet,
    block_start: int,
    block_end: int,
    seg_start: int,
    hard_end: int,
    min_dis: int,
    max_dis: int,
) -> bool {
    &&& src.len() <= isize::MAX
    &&& seg_start <= block_start <= block_end
    &&& block_end <= seg_start + sa.len() <= src.len()
    &&& hard_end <= block_end
    &&& sa_rank_ok(src.subrange(seg_start, seg_start + sa.len()), sa, rank)
    &&& live.wf()
    &&& live.universe() >= sa.len()
    &&& live_window(live, sa, seg_start, block_start - 1 - max_dis, block_start - min_dis)
    &&& live_covers(live, sa, seg_start, block_start - 1 - max_dis, block_start - min_dis - 1)
}

/// A match of `len` bytes at `pos` leaves one of `len - 1` bytes at `pos + 1`.
proof fn lemma_match_shift(src: Seq<u8>, pos: int, len: int, dis: int)
    requires
        forall|k: int| 0 <= k < len ==> #[trigger] src[pos + k] == src[pos + k - dis],
    ensures
        forall|k: int| 0 <= k < len - 1 ==> #[trigger] src[pos + 1 + k] == src[pos + 1 + k - dis],
{
    assert forall|k: int| 0 <= k < len - 1 implies #[trigger] src[pos + 1 + k] == src[pos + 1 + k
        - dis] by {
        assert(src[pos + (k + 1)] == src[pos + (k + 1) - dis]);
    }
}

/// Moves the window of live ranks to position `pos`: the rank of
/// `pos - min_dis` joins, the rank of `pos - max_dis - 1` leaves.
fn slide_window(
    sa: &[i32],
    rank: &[u32],
    live: &mut HeavyLiveSet,
    pos: usize,
    seg_start: usize,
    set_start: usize,
    clear_start: usize,
    min_dis: usize,
    max_dis: usize,
)
    requires
        seg_start <= pos < seg_start + sa.len(),
        rank_inverse(sa@, rank@),
        set_start >= seg_start + min_dis,
        clear_start >= seg_start + max_dis + 1,
        pos >= clear_start || pos <= seg_start + max_dis,
        min_dis <= max_dis,
        old(live).wf(),
        old(live).universe() >= sa.len(),
        live_window(*old(live), sa@, seg_start as int, pos - 1 - max_dis, pos - min_dis),
        live_covers(*old(live), sa@, seg_start as int, pos - 1 - max_dis, pos - min_dis - 1),
        pos >= set_start || pos < seg_start + min_dis,
    ensures
        final(live).wf(),
        final(live).universe() == old(live).universe(),
        live_window(*final(live), sa@, seg_start as int, pos - max_dis, pos - min_dis),
        live_exact(*final(live), sa@, seg_start as int, pos - max_dis, pos - min_dis),
{
    let ghost live0 = *live;
    if pos >= set_start {
        let j = pos - min_dis - seg_start;
        let live_rank = rank[j];
        proof {
            assert(sa@[live_rank as int] == j);
        }
        live.set(live_rank as usize);
    }
    proof {
        assert(live_window(*live, sa@, seg_start as int, pos - 1 - max_dis, pos - min_dis));
        assert forall|r: int| #[trigger] live.has(r) <==> in_window(sa@, seg_start as int, pos - 1 - max_dis, pos - min_dis, r) by {
            if in_window(sa@, seg_start as int, pos - 1 - max_dis, pos - min_dis, r) && seg_start + sa@[r] == pos - min_dis {
                assert(pos >= set_start);
                assert(rank@[sa@[r] as int] == r);
            }
            if live.has(r) && !live0.has(r) {
                assert(sa@[r] == pos - min_dis - seg_start);
            }
            if in_window(sa@, seg_start as int, pos - 1 - max_dis, pos - min_dis - 1, r) {
                assert(live0.has(r));
            }
        }
    }
    let ghost live1 = *live;
    if pos >= clear_start {
        let j = pos - max_dis - 1 - seg_start;
        let dead_rank = rank[j];
        proof {
            assert(sa@[dead_rank as int] == j);
        }
        live.clear(dead_rank as usize);
        proof {
            assert forall|r: int| #[trigger] live.has(r) implies 0 <= r < sa@.len() && pos - max_dis
                <= seg_start + sa@[r] <= pos - min_dis by {
                assert(live1.has(r));
                if seg_start + sa@[r] == pos - 1 - max_dis {
                    assert(rank@[sa@[r] as int] == r);
                }
            }
            assert forall|r: int| #[trigger] live.has(r) <==> in_window(sa@, seg_start as int, pos - max_dis, pos - min_dis, r) by {
                if in_window(sa@, seg_start as int, pos - max_dis, pos - min_dis, r) {
                    assert(live1.has(r));
                    assert(r != dead_rank);
                }
            }
        }
    } else {
        proof {
            assert forall|r: int| #[trigger] live.has(r) implies 0 <= r < sa@.len() && pos - max_dis
                <= seg_start + sa@[r] <= pos - min_dis by {
                assert(live1.has(r));
            }
            assert forall|r: int| #[trigger] live.has(r) <==> in_window(sa@, seg_start as int, pos - max_dis, pos - min_dis, r) by {
                if in_window(sa@, seg_start as int, pos - 1 - max_dis, pos - min_dis, r) {
                    assert(0 <= sa@[r]);
                }
            }
        }
    }
}

/// `best` (a length and a distance) weighed against the live rank `cr`, if
/// any: the common prefix (up to `limit`) of `pos` with the candidate of that
/// rank, and its distance, replace `best` only when longer.
pub open spec fn weigh_rank(
    src: Seq<u8>,
    sa: Seq<i32>,
    seg_start: int,
    pos: int,
    limit: int,
    best: (int, int),
    cr: Option<int>,
) -> (int, int) {
    match cr {
        Some(c) => {
            let cand = seg_start + sa[c];
            let len = common_prefix(src, pos, cand, limit);
            if len > best.0 {
                (len, pos - cand)
            } else {
                best
            }
        },
        None => best,
    }
}

/// The better of the two live ranks next to `rank_pos`, the one before it
/// weighed first, starting from a length and distance of zero.
pub open spec fn best_neighbour(
    src: Seq<u8>,
    sa: Seq<i32>,
    live: HeavyLiveSet,
    rank_pos: int,
    pos: int,
    seg_start: int,
    limit: int,
) -> (int, int) {
    let before = weigh_rank(src, sa, seg_start, pos, limit, (0, 0), live.prev_of(rank_pos));
    weigh_rank(src, sa, seg_start, pos, limit, before, live.next_of(rank_pos))
}

/// The better of the two live ranks next to `rank_pos` in suffix order:
/// the length of its common prefix with `pos` (up to `limit`) and its
/// distance, or a length of zero.
fn best_candidate(
    src: &[u8],
    sa: &[i32],
    live: &HeavyLiveSet,
    rank_pos: usize,
    pos: usize,
    seg_start: usize,
    limit: usize,
    min_dis: usize,
    max_dis: usize,
) -> (r: (usize, u32))
    requires
        live.wf(),
        rank_pos < live.universe(),
        live_window(*live, sa@, seg_start as int, pos - max_dis, pos - min_dis),
        forall|q: int| 0 <= q < sa.len() ==> 0 <= #[trigger] sa@[q],
        pos + limit <= src.len(),
        MIN_DISTANCE <= min_dis <= max_dis <= HEAVY_MAX_DISTANCE,
    ensures
        r.0 <= limit,
        r.0 > 0 ==> min_dis <= r.1 <= max_dis && r.1 <= pos && forall|k: int|
            0 <= k < r.0 ==> #[trigger] src@[pos + k] == src@[pos + k - r.1],
        (r.0 as int, r.1 as int) == best_neighbour(
            src@,
            sa@,
            *live,
            rank_pos as int,
            pos as int,
            seg_start as int,
            limit as int,
        ),
{
    let mut best_len: usize = 0;
    let mut best_dis: u32 = 0;
    let before = live.prev(rank_pos);
    proof {
        live.lemma_prev_of(rank_pos as int, before);
    }
    match before {
        Some(candidate_rank) => {
            let candidate = seg_start + sa[candidate_rank] as u32 as usize;
            let len = lcp_heavy(src, pos, candidate, limit);
            if len > best_len {
                best_len = len;
                best_dis = (pos - candidate) as u32;
            }
        },
        None => {},
    }
    let after = live.next(rank_pos);
    proof {
        live.lemma_next_of(rank_pos as int, after);
    }
    match after {
        Some(candidate_rank) => {
            let candidate = seg_start + sa[candidate_rank] as u32 as usize;
            let len = lcp_heavy(src, pos, candidate, limit);
            if len > best_len {
                best_len = len;
                best_dis = (pos - candidate) as u32;
            }
        },
        None => {},
    }
    (best_len, best_dis)
}

/// The match that the window of live ranks offers at `pos`: the better of
/// the ranks of the positions `[pos - max_dis, pos - min_dis]` next to the
/// rank of `pos` in suffix order, the one before it weighed first, as a
/// length (up to `limit`) and a distance.
#[verifier::opaque]
pub open spec fn window_best(
    src: Seq<u8>,
    sa: Seq<i32>,
    rank: Seq<u32>,
    seg_start: int,
    pos: int,
    limit: int,
    min_dis: int,
    max_dis: int,
) -> (int, int) {
    let lo = pos - max_dis;
    let hi = pos - min_dis;
    let rp = rank[pos - seg_start] as int;
    let before = weigh_rank(src, sa, seg_start, pos, limit, (0, 0), window_prev(sa, seg_start, lo, hi, rp));
    weigh_rank(src, sa, seg_start, pos, limit, before, window_next(sa, seg_start, lo, hi, rp))
}

/// One position of the match finder, given the match `carry` (length,
/// distance) carried in from the positions before: the table entry at `pos`
/// (a length, and a distance unless the entry keeps the one the table held),
/// and the match carried on. A carried match at least as long as the limit
/// is taken, shortened to it; otherwise the window's best match, when long
/// enough; a best match that reaches the limit is looked up further (up to
/// `ext_cap` bytes) to carry it on.
#[verifier::opaque]
pub open spec fn finder_step(
    src: Seq<u8>,
    sa: Seq<i32>,
    rank: Seq<u32>,
    seg_start: int,
    hard_end: int,
    min_dis: int,
    max_dis: int,
    max_match: int,
    ext_cap: int,
    pos: int,
    carry: (int, int),
) -> (int, Option<int>, (int, int)) {
    if pos + MIN_MATCH_LEN > hard_end {
        (0, None, carry)
    } else {
        let limit = if max_match < hard_end - pos {
            max_match
        } else {
            hard_end - pos
        };
        if carry.0 >= limit {
            (limit, Some(carry.1), (carry.0 - 1, carry.1))
        } else {
            let best = window_best(src, sa, rank, seg_start, pos, limit, min_dis, max_dis);
            if best.0 >= MIN_MATCH_LEN {
                if best.0 >= limit {
                    let room = src.len() - (pos + limit);
                    let ext_limit = if room < ext_cap {
                        room
                    } else {
                        ext_cap
                    };
                    let ext = common_prefix(src, pos + limit, pos - best.1 + limit, ext_limit);
                    (best.0, Some(best.1), (limit + ext - 1, best.1))
                } else {
                    (best.0, Some(best.1), (best.0 - 1, best.1))
                }
            } else {
                (
                    0,
                    None,
                    (
                        if carry.0 > 0 {
                            carry.0 - 1
                        } else {
                            0
                        },
                        carry.1,
                    ),
                )
            }
        }
    }
}

/// The match the finder carries into `pos` of a block that starts at
/// `block_start` with nothing carried.
#[verifier::opaque]
pub open spec fn carry_at(
    src: Seq<u8>,
    sa: Seq<i32>,
    rank: Seq<u32>,
    seg_start: int,
    hard_end: int,
    min_dis: int,
    max_dis: int,
    max_match: int,
    ext_cap: int,
    block_start: int,
    pos: int,
) -> (int, int)
    decreases pos - block_start,
{
    if pos <= block_start {
        (0, 0)
    } else {
        finder_step(
            src,
            sa,
            rank,
            seg_start,
            hard_end,
            min_dis,
            max_dis,
            max_match,
            ext_cap,
            pos - 1,
            carry_at(src, sa, rank, seg_start, hard_end, min_dis, max_dis, max_match, ext_cap, block_start, pos - 1),
        ).2
    }
}

/// The finder's entry at `pos`: its step there, from the match carried in.
pub open spec fn finder_entry(
    src: Seq<u8>,
    sa: Seq<i32>,
    rank: Seq<u32>,
    seg_start: int,
    hard_end: int,
    min_dis: int,
    max_dis: int,
    max_match: int,
    ext_cap: int,
    block_start: int,
    pos: int,
) -> (int, Option<int>) {
    let st = finder_step(
        src,
        sa,
        rank,
        seg_start,
        hard_end,
        min_dis,
        max_dis,
        max_match,
        ext_cap,
        pos,
        carry_at(src, sa, rank, seg_start, hard_end, min_dis, max_dis, max_match, ext_cap, block_start, pos),
    );
    (st.0, st.1)
}

/// The first `n` entries of a block's tables are the finder's: each length,
/// and each distance, or what `dis0` held where the entry keeps it.
#[verifier::opaque]
pub open spec fn finder_table_ok(
    src: Seq<u8>,
    sa: Seq<i32>,
    rank: Seq<u32>,
    seg_start: int,
    hard_end: int,
    min_dis: int,
    max_dis: int,
    max_match: int,
    ext_cap: int,
    block_start: int,
    max_len: Seq<u8>,
    match_dis: Seq<u32>,
    dis0: Seq<u32>,
    n: int,
) -> bool {
    forall|i: int|
        0 <= i < n ==> {
            let e = finder_entry(
                src,
                sa,
                rank,
                seg_start,
                hard_end,
                min_dis,
                max_dis,
                max_match,
                ext_cap,
                block_start,
                block_start + i,
            );
            &&& #[trigger] max_len[i] == e.0
            &&& match_dis[i] == match e.1 {
                Some(d) => d,
                None => dis0[i] as int,
            }
        }
}

/// The lengths the finder gives the first `n` positions of a block.
pub open spec fn finder_lens(
    src: Seq<u8>,
    sa: Seq<i32>,
    rank: Seq<u32>,
    seg_start: int,
    hard_end: int,
    min_dis: int,
    max_dis: int,
    max_match: int,
    ext_cap: int,
    block_start: int,
    n: int,
) -> Seq<u8> {
    Seq::new(
        n as nat,
        |i: int|
            finder_entry(
                src,
                sa,
                rank,
                seg_start,
                hard_end,
                min_dis,
                max_dis,
                max_match,
                ext_cap,
                block_start,
                block_start + i,
            ).0 as u8,
    )
}

/// The distances the finder gives the first `n` positions of a block, zero
/// where it gives none.
pub open spec fn finder_dists(
    src: Seq<u8>,
    sa: Seq<i32>,
    rank: Seq<u32>,
    seg_start: int,
    hard_end: int,
    min_dis: int,
    max_dis: int,
    max_match: int,
    ext_cap: int,
    block_start: int,
    n: int,
) -> Seq<u32> {
    Seq::new(
        n as nat,
        |i: int|
            match finder_entry(
                src,
                sa,
                rank,
                seg_start,
                hard_end,
                min_dis,
                max_dis,
                max_match,
                ext_cap,
                block_start,
                block_start + i,
            ).1 {
                Some(d) => d as u32,
                None => 0u32,
            },
    )
}

/// Tables that the finder filled from zeroed distances are its lengths and
/// distances.
pub proof fn lemma_finder_tables(
    src: Seq<u8>,
    sa: Seq<i32>,
    rank: Seq<u32>,
    seg_start: int,
    hard_end: int,
    min_dis: int,
    max_dis: int,
    max_match: int,
    ext_cap: int,
    block_start: int,
    ml: Seq<u8>,
    md: Seq<u32>,
    n: int,
)
    requires
        finder_table_ok(
            src,
            sa,
            rank,
            seg_start,
            hard_end,
            min_dis,
            max_dis,
            max_match,
            ext_cap,
            block_start,
            ml,
            md,
            Seq::new(n as nat, |i: int| 0u32),
            n,
        ),
        0 <= n,
        ml.len() == n,
        md.len() == n,
    ensures
        ml == finder_lens(src, sa, rank, seg_start, hard_end, min_dis, max_dis, max_match, ext_cap, block_start, n),
        md == finder_dists(src, sa, rank, seg_start, hard_end, min_dis, max_dis, max_match, ext_cap, block_start, n),
{
    reveal(finder_table_ok);
    let fl = finder_lens(src, sa, rank, seg_start, hard_end, min_dis, max_dis, max_match, ext_cap, block_start, n);
    let fd = finder_dists(src, sa, rank, seg_start, hard_end, min_dis, max_dis, max_match, ext_cap, block_start, n);
    assert forall|i: int| 0 <= i < n implies ml[i] == fl[i] && md[i] == fd[i] by {
        let e = finder_entry(src, sa, rank, seg_start, hard_end, min_dis, max_dis, max_match, ext_cap, block_start, block_start + i);
        assert(ml[i] == e.0);
        assert(fl[i] == e.0 as u8);
        assert(Seq::new(n as nat, |j: int| 0u32)[i] == 0u32);
        match e.1 {
            Some(d) => {
                assert(md[i] == d);
                assert(fd[i] == d as u32);
            },
            None => {
                assert(fd[i] == 0u32);
            },
        }
    }
    assert(ml =~= fl);
    assert(md =~= fd);
}

/// One more entry of the finder's, with the entries before it kept, extends
/// the finder's tables by one.
proof fn lemma_finder_table_grow(
    src: Seq<u8>,
    sa: Seq<i32>,
    rank: Seq<u32>,
    seg_start: int,
    hard_end: int,
    min_dis: int,
    max_dis: int,
    max_match: int,
    ext_cap: int,
    block_start: int,
    ml: Seq<u8>,
    md: Seq<u32>,
    ml2: Seq<u8>,
    md2: Seq<u32>,
    dis0: Seq<u32>,
    n: int,
)
    requires
        finder_table_ok(src, sa, rank, seg_start, hard_end, min_dis, max_dis, max_match, ext_cap, block_start, ml, md, dis0, n),
        0 <= n,
        forall|i: int| 0 <= i < n ==> ml2[i] == ml[i] && md2[i] == md[i],
        ml2[n] == finder_entry(src, sa, rank, seg_start, hard_end, min_dis, max_dis, max_match, ext_cap, block_start, block_start + n).0,
        md2[n] == match finder_entry(src, sa, rank, seg_start, hard_end, min_dis, max_dis, max_match, ext_cap, block_start, block_start + n).1 {
            Some(d) => d,
            None => dis0[n] as int,
        },
    ensures
        finder_table_ok(src, sa, rank, seg_start, hard_end, min_dis, max_dis, max_match, ext_cap, block_start, ml2, md2, dis0, n + 1),
{
    reveal(finder_table_ok);
    assert forall|i: int| 0 <= i < n + 1 implies {
        let e = finder_entry(src, sa, rank, seg_start, hard_end, min_dis, max_dis, max_match, ext_cap, block_start, block_start + i);
        &&& #[trigger] ml2[i] == e.0
        &&& md2[i] == match e.1 {
            Some(d) => d,
            None => dis0[i] as int,
        }
    } by {
        if i < n {
            assert(ml[i] == ml2[i]);
        }
    }
}

/// Fills the match tables of a block: for each position, the longest match
/// that the live ranks next to it in suffix order offer, at a distance in
/// `[min_dis, max_dis]`, of at most `max_match` bytes and ending by
/// `hard_end`. A match that reaches its limit is carried to the following
/// positions, shortened by one each time, as far as it runs on (looked up to
/// `ext_cap` bytes further).
#[verifier::rlimit(30)]
fn find_matches_in(
    src: &[u8],
    sa: &[i32],
    rank: &[u32],
    live: &mut HeavyLiveSet,
    max_len: &mut [u8],
    match_dis: &mut [u32],
    block_start: usize,
    block_end: usize,
    seg_start: usize,
    hard_end: usize,
    min_dis: usize,
    max_dis: usize,
    max_match: usize,
    ext_cap: usize,
)
    requires
        finder_ready(
            src@,
            sa@,
            rank@,
            *old(live),
            block_start as int,
            block_end as int,
            seg_start as int,
            hard_end as int,
            min_dis as int,
            max_dis as int,
        ),
        old(max_len).len() == block_end - block_start,
        old(match_dis).len() == block_end - block_start,
        MIN_DISTANCE <= min_dis <= max_dis <= HEAVY_MAX_DISTANCE,
        MIN_MATCH_LEN <= max_match <= 255,
        ext_cap <= HEAVY_NDIS,
    ensures
        final(max_len).len() == old(max_len).len(),
        final(match_dis).len() == old(match_dis).len(),
        final(live).wf(),
        final(live).universe() == old(live).universe(),
        match_table_ok(
            src@,
            final(max_len)@,
            final(match_dis)@,
            block_start as int,
            min_dis as int,
            max_dis as int,
            max_match as int,
            hard_end as int,
        ),
        finder_table_ok(
            src@, sa@, rank@, seg_start as int, hard_end as int, min_dis as int, max_dis as int, max_match as int, ext_cap as int,
            block_start as int,
            final(max_len)@,
            final(match_dis)@,
            old(match_dis)@,
            block_end - block_start,
        ),
{
    let ghost seg_len = sa.len() as int;
    let ghost seg = src@.subrange(seg_start as int, seg_start + seg_len);
    let mut carry_len: usize = 0;
    let mut carry_dis: u32 = 0;
    let set_start = if block_start > seg_start + min_dis {
        block_start
    } else {
        seg_start + min_dis
    };
    let clear_start = if block_start > seg_start + max_dis + 1 {
        block_start
    } else {
        seg_start + max_dis + 1
    };
    let mut pos = block_start;
    proof {
        reveal(carry_at);
        reveal(finder_table_ok);
    }
    while pos < block_end
        invariant
            block_start <= pos <= block_end,
            seg_start <= block_start,
            block_end <= seg_start + seg_len <= src.len(),
            src.len() <= isize::MAX,
            hard_end <= block_end,
            seg_len == sa.len(),
            seg == src@.subrange(seg_start as int, seg_start + seg_len),
            sa_rank_ok(seg, sa@, rank@),
            set_start >= block_start && set_start >= seg_start + min_dis,
            set_start == block_start || set_start == seg_start + min_dis,
            clear_start >= block_start && clear_start >= seg_start + max_dis + 1,
            clear_start == block_start || clear_start == seg_start + max_dis + 1,
            MIN_DISTANCE <= min_dis <= max_dis <= HEAVY_MAX_DISTANCE,
            MIN_MATCH_LEN <= max_match <= 255,
            ext_cap <= HEAVY_NDIS,
            live.wf(),
            live.universe() == old(live).universe(),
            live.universe() >= seg_len,
            live_window(*live, sa@, seg_start as int, pos - 1 - max_dis, pos - min_dis),
            live_covers(*live, sa@, seg_start as int, pos - 1 - max_dis, pos - min_dis - 1),
            max_len.len() == block_end - block_start,
            match_dis.len() == block_end - block_start,
            (carry_len as int, carry_dis as int) == carry_at(src@, sa@, rank@, seg_start as int, hard_end as int, min_dis as int, max_dis as int, max_match as int, ext_cap as int, block_start as int, pos as int),
            finder_table_ok(
                src@, sa@, rank@, seg_start as int, hard_end as int, min_dis as int, max_dis as int, max_match as int, ext_cap as int,
                block_start as int,
                max_len@,
                match_dis@,
                old(match_dis)@,
                pos - block_start,
            ),
            forall|i: int| pos - block_start <= i < match_dis.len() ==> #[trigger] match_dis@[i] == old(match_dis)@[i],
            old(match_dis).len() == block_end - block_start,
            pos + MIN_MATCH_LEN <= hard_end && carry_len > 0 ==> {
                &&& min_dis <= carry_dis <= max_dis
                &&& carry_dis <= pos
                &&& pos + carry_len <= src.len()
                &&& forall|k: int|
                    0 <= k < carry_len ==> #[trigger] src@[pos + k] == src@[pos + k - carry_dis]
            },
            forall|i: int|
                0 <= i < pos - block_start ==> match_entry_ok(
                    src@,
                    block_start + i,
                    #[trigger] max_len@[i] as int,
                    match_dis@[i] as int,
                    min_dis as int,
                    max_dis as int,
                    max_match as int,
                    hard_end as int,
                ),
        decreases block_end - pos,
    {
        let block_pos = pos - block_start;
        slide_window(sa, rank, live, pos, seg_start, set_start, clear_start, min_dis, max_dis);
        let ghost st = finder_step(src@, sa@, rank@, seg_start as int, hard_end as int, min_dis as int, max_dis as int, max_match as int, ext_cap as int, pos as int, (carry_len as int, carry_dis as int));
        let ghost ml0 = max_len@;
        let ghost md0 = match_dis@;
        proof {
            reveal(carry_at);
            assert(carry_at(src@, sa@, rank@, seg_start as int, hard_end as int, min_dis as int, max_dis as int, max_match as int, ext_cap as int, block_start as int, pos + 1) == st.2);
        }

        if pos + MIN_MATCH_LEN > hard_end {
            max_len[block_pos] = 0;
            proof {
            assert(st == (0int, None::<int>, (carry_len as int, carry_dis as int))) by {
                reveal(finder_step);
            }

                lemma_finder_table_grow(src@, sa@, rank@, seg_start as int, hard_end as int, min_dis as int, max_dis as int, max_match as int, ext_cap as int, block_start as int, ml0, md0, max_len@, match_dis@, old(match_dis)@, block_pos as int);
            }
            pos += 1;
            continue;
        }
        let limit = if max_match < hard_end - pos {
            max_match
        } else {
            hard_end - pos
        };

        if carry_len >= limit {
            proof {
                lemma_match_shift(src@, pos as int, carry_len as int, carry_dis as int);
            }
            max_len[block_pos] = limit as u8;
            match_dis[block_pos] = carry_dis;
            carry_len -= 1;
            proof {
            assert(st == (limit as int, Some(carry_dis as int), (carry_len as int, carry_dis as int))) by {
                reveal(finder_step);
            }

                lemma_finder_table_grow(src@, sa@, rank@, seg_start as int, hard_end as int, min_dis as int, max_dis as int, max_match as int, ext_cap as int, block_start as int, ml0, md0, max_len@, match_dis@, old(match_dis)@, block_pos as int);
            }
            pos += 1;
            continue;
        }

        let rank_pos = rank[pos - seg_start] as usize;
        let (best_len, best_dis) = best_candidate(
            src,
            sa,
            live,
            rank_pos,
            pos,
            seg_start,
            limit,
            min_dis,
            max_dis,
        );
        proof {
            lemma_window_neighbours(*live, sa@, seg_start as int, pos - max_dis, pos - min_dis, rank_pos as int);
            reveal(window_best);
            assert((best_len as int, best_dis as int) == window_best(
                src@,
                sa@,
                rank@,
                seg_start as int,
                pos as int,
                limit as int,
                min_dis as int,
                max_dis as int,
            ));
        }

        if best_len >= MIN_MATCH_LEN {
            max_len[block_pos] = best_len as u8;
            match_dis[block_pos] = best_dis;
            if best_len >= limit {
                let room = src.len() - (pos + limit);
                let ext_limit = if room < ext_cap {
                    room
                } else {
                    ext_cap
                };
                let ext = lcp_heavy(src, pos + limit, pos - best_dis as usize + limit, ext_limit);
                proof {
                    assert forall|k: int| 0 <= k < limit + ext - 1 implies #[trigger] src@[pos + 1 + k]
                        == src@[pos + 1 + k - best_dis] by {
                        if k + 1 < limit {
                            assert(src@[pos + (k + 1)] == src@[pos + (k + 1) - best_dis]);
                        } else {
                            assert(src@[(pos + limit) + (k + 1 - limit)] == src@[(pos - best_dis
                                + limit) + (k + 1 - limit)]);
                        }
                    }
                }
                carry_len = limit + ext - 1;
                carry_dis = best_dis;
                proof {
                assert(st == (best_len as int, Some(best_dis as int), (carry_len as int, carry_dis as int))) by {
                    reveal(finder_step);
                }
                }
            } else {
                proof {
                    lemma_match_shift(src@, pos as int, best_len as int, best_dis as int);
                }
                carry_len = best_len - 1;
                carry_dis = best_dis;
                proof {
                assert(st == (best_len as int, Some(best_dis as int), (carry_len as int, carry_dis as int))) by {
                    reveal(finder_step);
                }
                }
            }
        } else {
            proof {
                if carry_len > 0 && pos + MIN_MATCH_LEN <= hard_end {
                    lemma_match_shift(src@, pos as int, carry_len as int, carry_dis as int);
                }
            }
            max_len[block_pos] = 0;
            carry_len = if carry_len > 0 {
                carry_len - 1
            } else {
                0
            };
            proof {
            assert(st == (0int, None::<int>, (carry_len as int, carry_dis as int))) by {
                reveal(finder_step);
            }
            }
        }
        proof {
            lemma_finder_table_grow(src@, sa@, rank@, seg_start as int, hard_end as int, min_dis as int, max_dis as int, max_match as int, ext_cap as int, block_start as int, ml0, md0, max_len@, match_dis@, old(match_dis)@, block_pos as int);
        }
        pos += 1;
    }
}

/// Fills the match tables of a block for the light optimal parser.
pub(crate) fn light_find_matches(
    src: &[u8],
    sa: &[i32],
    rank: &[u32],
    live: &mut HeavyLiveSet,
    max_len: &mut [u8],
    match_dis: &mut [u32],
    block_start: usize,
    block_end: usize,
    seg_start: usize,
    hard_end: usize,
)
    requires
        finder_ready(
            src@,
            sa@,
            rank@,
            *old(live),
            block_start as int,
            block_end as int,
            seg_start as int,
            hard_end as int,
            MIN_DISTANCE as int,
            MAX_DISTANCE as int,
        ),
        old(max_len).len() == block_end - block_start,
        old(match_dis).len() == block_end - block_start,
    ensures
        final(max_len).len() == old(max_len).len(),
        final(match_dis).len() == old(match_dis).len(),
        final(live).wf(),
        final(live).universe() == old(live).universe(),
        match_table_ok(
            src@,
            final(max_len)@,
            final(match_dis)@,
            block_start as int,
            MIN_DISTANCE as int,
            MAX_DISTANCE as int,
            MAX_MATCH_LEN as int,
            hard_end as int,
        ),
        finder_table_ok(
            src@,
            sa@,
            rank@,
            seg_start as int,
            hard_end as int,
            MIN_DISTANCE as int,
            MAX_DISTANCE as int,
            MAX_MATCH_LEN as int,
            DIS_LIM as int,
            block_start as int,
            final(max_len)@,
            final(match_dis)@,
            old(match_dis)@,
            block_end - block_start,
        ),
{
    find_matches_in(
        src,
        sa,
        rank,
        live,
        max_len,
        match_dis,
        block_start,
        block_end,
        seg_start,
        hard_end,
        MIN_DISTANCE,
        MAX_DISTANCE,
        MAX_MATCH_LEN,
        DIS_LIM,
    );
}

/// Fills the match tables of a block for the heavy parser.
pub(crate) fn heavy_find_matches(
    src: &[u8],
    sa: &[i32],
    rank: &[u32],
    live: &mut HeavyLiveSet,
    max_len: &mut [u8],
    match_dis: &mut [u32],
    block_start: usize,
    block_end: usize,
    seg_start: usize,
    hard_end: usize,
)
    requires
        finder_ready(
            src@,
            sa@,
            rank@,
            *old(live),
            block_start as int,
            block_end as int,
            seg_start as int,
            hard_end as int,
            HEAVY_MIN_DISTANCE as int,
            HEAVY_MAX_DISTANCE as int,
        ),
        old(max_len).len() == block_end - block_start,
        old(match_dis).len() == block_end - block_start,
    ensures
        final(max_len).len() == old(max_len).len(),
        final(match_dis).len() == old(match_dis).len(),
        final(live).wf(),
        final(live).universe() == old(live).universe(),
        match_table_ok(
            src@,
            final(max_len)@,
            final(match_dis)@,
            block_start as int,
            HEAVY_MIN_DISTANCE as int,
            HEAVY_MAX_DISTANCE as int,
            HEAVY_MAX_MATCH_LEN as int,
            hard_end as int,
        ),
        finder_table_ok(
            src@,
            sa@,
            rank@,
            seg_start as int,
            hard_end as int,
            HEAVY_MIN_DISTANCE as int,
            HEAVY_MAX_DISTANCE as int,
            HEAVY_MAX_MATCH_LEN as int,
            HEAVY_NDIS as int,
            block_start as int,
            final(max_len)@,
            final(match_dis)@,
            old(match_dis)@,
            block_end - block_start,
        ),
{
    find_matches_in(
        src,
        sa,
        rank,
        live,
        max_len,
        match_dis,
        block_start,
        block_end,
        seg_start,
        hard_end,
        HEAVY_MIN_DISTANCE,
        HEAVY_MAX_DISTANCE,
        HEAVY_MAX_MATCH_LEN,
        HEAVY_NDIS,
    );
}

} // verus!
