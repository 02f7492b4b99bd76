//! Hash tables of earlier input positions and the match probes of the light
//! encoders.
use vstd::prelude::*;
use crate::format::{HASHTAB_LAG, MAX_DISTANCE, MAX_MATCH_LEN, MIN_DISTANCE, MIN_MATCH_LEN};
use crate::primitives::{le32, le64, read_u32_le, read_u64_le};

verus! {

/// Number of slots (or buckets) of a hash table.
pub const HASH_SIZE: usize = 65536;

/// Multiplier of the four-byte hash.
pub const HASH_MUL: u32 = 2654435761;

/// Multiplier of the six-byte hash.
pub const HASH6_MUL: u64 = 0x9E37_79B1_85EB_CA87;

/// Mask of the six bytes the six-byte hash reads.
pub const HASH6_MASK: u64 = 0xFFFF_FFFF_FFFF;

/// Positions are inserted in batches of this many.
pub const LATEST_BATCH: usize = 8;

/// Positions are inserted into ring tables in batches of this many.
pub const RING_BATCH: usize = 8;

/// The four-byte hash of `val`.
pub open spec fn hash4_of(val: u32) -> int {
    (val.wrapping_mul(HASH_MUL) >> 16u32) as int
}

/// The six-byte hash of the low six bytes of `val`.
pub open spec fn hash6_of(val: u64) -> int {
    ((val & HASH6_MASK).wrapping_mul(HASH6_MUL) >> 48u64) as int
}

/// Hash of four input bytes.
pub fn hash4(val: u32) -> (h: usize)
    ensures
        h == hash4_of(val),
        h < HASH_SIZE,
{
    let v = val.wrapping_mul(HASH_MUL) >> 16;
    proof {
        let w = val.wrapping_mul(HASH_MUL);
        assert(w >> 16u32 < 65536) by (bit_vector);
    }
    v as usize
}

/// Hash of the low six of eight input bytes.
pub fn hash6(val: u64) -> (h: usize)
    ensures
        h == hash6_of(val),
        h < HASH_SIZE,
{
    let v = (val & HASH6_MASK).wrapping_mul(HASH6_MUL) >> 48;
    proof {
        let w = (val & HASH6_MASK).wrapping_mul(HASH6_MUL);
        assert(w >> 48u64 < 65536) by (bit_vector);
    }
    v as usize
}

/// A table entry `e` (the low 16 bits of an earlier position) can stand for
/// a position at least `MIN_DISTANCE` before `pos`.
pub open spec fn entry_fresh(e: u16, pos: int) -> bool {
    e + MIN_DISTANCE <= pos || pos >= MAX_DISTANCE
}

/// Every entry of a table is zero, below `h`, or `h` has passed 65536: the
/// invariant of a table whose inserted positions are all below `h`.
pub open spec fn table_ok(t: Seq<u16>, h: int) -> bool {
    forall|i: int| 0 <= i < t.len() ==> #[trigger] t[i] == 0 || (t[i] as int) < h || h >= 65536
}

/// A table whose inserted positions are below `h` is fresh at any position
/// at least `HASHTAB_LAG` past `h` (or at any position past it while `h` is 0).
pub proof fn lemma_table_fresh(t: Seq<u16>, h: int, pos: int)
    requires
        table_ok(t, h),
        pos > HASHTAB_LAG,
        h == 0 || h + HASHTAB_LAG <= pos,
    ensures
        forall|i: int| 0 <= i < t.len() ==> entry_fresh(#[trigger] t[i], pos),
{
}

/// The position an entry stands for, seen from `pos`: the latest position
/// with the entry's low 16 bits that lies at least `MIN_DISTANCE` before
/// `pos`.
pub open spec fn recovered_pos(entry: u16, pos: int) -> int {
    pos - MIN_DISTANCE - (pos - MIN_DISTANCE - entry) % 65536
}

/// The position an entry stands for, seen from `pos`: the latest position
/// with the entry's low 16 bits that lies at least `MIN_DISTANCE` before
/// `pos`.
pub fn recover_entry_pos(entry: u16, pos: usize) -> (r: usize)
    requires
        pos >= MIN_DISTANCE,
        entry_fresh(entry, pos as int),
    ensures
        r == recovered_pos(entry, pos as int),
        r + MIN_DISTANCE <= pos,
        pos <= r + MAX_DISTANCE,
        pos < MAX_DISTANCE ==> r == entry,
{
    let d = (pos as u16).wrapping_sub(entry).wrapping_sub((HASHTAB_LAG + 1) as u16);
    proof {
        let p = pos as u16;
        assert((pos as u16) as usize == pos & 0xffff) by (bit_vector);
        assert(pos & 0xffff == pos % 65536) by (bit_vector);
        assert(p as int == pos % 65536);
        assert(d == p.wrapping_sub(entry).wrapping_sub(33u16));
        assert(d as int == (pos - entry - 33) % 65536);
        if pos < 65568 {
            assert(d as int == pos - entry - 33);
        }
    }
    pos.wrapping_sub(MAX_MATCH_LEN + 1).wrapping_sub(d as usize)
}

/// A direct-mapped table of the latest position (low 16 bits) seen per hash.
pub struct LatestHashTable {
    entries: Vec<u16>,
}

impl LatestHashTable {
    /// The table's entries.
    pub closed spec fn view(&self) -> Seq<u16> {
        self.entries@
    }

    /// An empty table: every entry is 0.
    pub fn new() -> (t: Self)
        ensures
            t@.len() == HASH_SIZE,
            table_ok(t@, 0),
            t@ == Seq::new(HASH_SIZE as nat, |i: int| 0u16),
    {
        let entries = vec![0u16; HASH_SIZE];
        assert(entries@ =~= Seq::new(HASH_SIZE as nat, |i: int| 0u16));
        LatestHashTable { entries }
    }

    /// Records `pos` (its low 16 bits) under hash `hsh`.
    pub fn insert(&mut self, hsh: usize, pos: usize)
        requires
            hsh < old(self)@.len(),
        ensures
            final(self)@ == old(self)@.update(hsh as int, pos as u16),
    {
        self.entries.set(hsh, pos as u16);
    }

    /// The position recorded under hash `hsh`, seen from `pos`.
    pub fn recover_pos(&self, hsh: usize, pos: usize) -> (r: usize)
        requires
            hsh < self@.len(),
            pos >= MIN_DISTANCE,
            entry_fresh(self@[hsh as int], pos as int),
        ensures
            r == recovered_pos(self@[hsh as int], pos as int),
            r + MIN_DISTANCE <= pos,
            pos <= r + MAX_DISTANCE,
    {
        recover_entry_pos(self.entries[hsh], pos)
    }
}

/// Inserting position `p` into a table whose positions are below `h` keeps
/// them below any `h2 > p` with `h2 >= h`.
pub proof fn lemma_table_insert(t: Seq<u16>, h: int, i: int, p: usize, h2: int)
    requires
        table_ok(t, h),
        0 <= i < t.len(),
        p < h2,
        h <= h2,
    ensures
        table_ok(t.update(i, p as u16), h2),
{
    if p < 65536 {
        assert((p as u16) as int == p);
    }
}

/// One insertion into ring tables of width `w` whose slots and cursors are
/// `st`: position `p` (its low 16 bits) replaces the slot under the cursor of
/// hash `hsh`, and that cursor moves on by one around the ring.
pub open spec fn ring_step(st: (Seq<u16>, Seq<u8>), w: int, hsh: int, p: int) -> (Seq<u16>, Seq<u8>) {
    let c = st.1[hsh] as int;
    (st.0.update(hsh * w + c, p as u16), st.1.update(hsh, ((c + 1) % w) as u8))
}

/// A hash table holding, per hash, a ring of the last `width` positions.
pub struct RingHashTable {
    entries: Vec<u16>,
    next: Vec<u8>,
    width: usize,
}

/// The bucket of hash `hsh` in a ring table of width `width` starts at
/// `hsh * width` and ends within the table.
pub proof fn lemma_bucket_bounds(hsh: int, width: int, j: int)
    requires
        0 <= hsh < HASH_SIZE,
        0 <= j < width,
    ensures
        0 <= hsh * width + j < HASH_SIZE * width,
        hsh * width <= HASH_SIZE * width,
{
    assert(0 <= hsh * width + j < HASH_SIZE * width) by (nonlinear_arith)
        requires
            0 <= hsh < HASH_SIZE,
            0 <= j < width,
    ;
    assert(hsh * width <= HASH_SIZE * width) by (nonlinear_arith)
        requires
            0 <= hsh < HASH_SIZE,
            0 <= j < width,
    ;
}

impl RingHashTable {
    /// All ring slots, bucket after bucket.
    pub closed spec fn view(&self) -> Seq<u16> {
        self.entries@
    }

    /// The ring width.
    pub closed spec fn spec_width(&self) -> int {
        self.width as int
    }

    /// The slot of the ring of hash `hsh` that the next insertion replaces.
    pub closed spec fn cursor(&self, hsh: int) -> int {
        self.next@[hsh] as int
    }

    /// The cursors of all rings, one per hash.
    pub closed spec fn cursors(&self) -> Seq<u8> {
        self.next@
    }

    /// The table's shape: `HASH_SIZE` buckets of `width` slots, each with a
    /// cursor inside its ring.
    pub closed spec fn wf(&self) -> bool {
        &&& 1 <= self.width <= 256
        &&& self.entries@.len() == HASH_SIZE * self.width
        &&& self.next@.len() == HASH_SIZE
        &&& forall|i: int| 0 <= i < HASH_SIZE ==> (#[trigger] self.next@[i] as int) < self.width
    }

    /// An empty table: every slot is 0.
    pub fn new(width: usize) -> (t: Self)
        requires
            1 <= width <= 256,
        ensures
            t.wf(),
            t.spec_width() == width,
            table_ok(t@, 0),
            t@ == Seq::new((HASH_SIZE * width) as nat, |i: int| 0u16),
            t.cursors() == Seq::new(HASH_SIZE as nat, |i: int| 0u8),
    {
        proof {
            assert(HASH_SIZE * width <= HASH_SIZE * 256) by (nonlinear_arith)
                requires
                    width <= 256,
            ;
        }
        let entries = vec![0u16; HASH_SIZE * width];
        let next = vec![0u8; HASH_SIZE];
        assert(entries@ =~= Seq::new((HASH_SIZE * width) as nat, |i: int| 0u16));
        assert(next@ =~= Seq::new(HASH_SIZE as nat, |i: int| 0u8));
        RingHashTable { entries, next, width }
    }

    /// Records `pos` (its low 16 bits) in the ring of hash `hsh`, replacing
    /// the oldest slot.
    pub fn insert(&mut self, hsh: usize, pos: usize)
        requires
            old(self).wf(),
            hsh < HASH_SIZE,
        ensures
            final(self).wf(),
            final(self).spec_width() == old(self).spec_width(),
            final(self)@ == old(self)@.update(
                hsh * old(self).spec_width() + old(self).cursor(hsh as int),
                pos as u16,
            ),
            final(self).cursor(hsh as int) == (old(self).cursor(hsh as int) + 1) % old(
                self,
            ).spec_width(),
            forall|h: int| 0 <= h < HASH_SIZE && h != hsh ==> #[trigger] final(self).cursor(h) == old(self).cursor(h),
            final(self).cursors() == ring_step(
                (old(self)@, old(self).cursors()),
                old(self).spec_width(),
                hsh as int,
                pos as int,
            ).1,
            exists|i: int|
                0 <= i < old(self)@.len() && final(self)@ == #[trigger] old(self)@.update(
                    i,
                    pos as u16,
                ),
    {
        let next = self.next[hsh] as usize;
        proof {
            lemma_bucket_bounds(hsh as int, self.width as int, next as int);
        }
        let slot = hsh * self.width + next;
        self.entries.set(slot, pos as u16);
        let new_next: u8 = if next == self.width - 1 {
            0
        } else {
            (next + 1) as u8
        };
        self.next.set(hsh, new_next);
        assert(self@ == old(self)@.update(slot as int, pos as u16));
        let ghost w = self.width as int;
        assert(new_next == (next + 1) % w) by (nonlinear_arith)
            requires
                0 <= next < w,
                next == w - 1 ==> new_next == 0,
                next != w - 1 ==> new_next == next + 1,
        ;
    }

    /// Slot `j` of the ring of hash `hsh`.
    pub fn entry(&self, hsh: usize, j: usize) -> (e: u16)
        requires
            self.wf(),
            hsh < HASH_SIZE,
            j < self.spec_width(),
        ensures
            e == self@[hsh * self.spec_width() + j],
            exists|i: int| 0 <= i < self@.len() && e == #[trigger] self@[i],
    {
        proof {
            lemma_bucket_bounds(hsh as int, self.width as int, j as int);
        }
        let e = self.entries[hsh * self.width + j];
        assert(e == self@[hsh * self.width + j]);
        e
    }

    /// The ring width.
    pub fn width(&self) -> (w: usize)
        ensures
            w == self.spec_width(),
    {
        self.width
    }
}

/// The length of the common prefix of `s[a..]` and `s[b..]`, up to `limit`.
pub open spec fn common_prefix(s: Seq<u8>, a: int, b: int, limit: int) -> int
    decreases limit,
{
    if limit <= 0 || s[a] != s[b] {
        0
    } else {
        1 + common_prefix(s, a + 1, b + 1, limit - 1)
    }
}

/// A length `r` up to `limit` over which `s[a..]` and `s[b..]` agree, and
/// after which they differ unless `r` reached `limit`, is their common prefix.
pub proof fn lemma_common_prefix(s: Seq<u8>, a: int, b: int, limit: int, r: int)
    requires
        0 <= r <= limit,
        forall|k: int| 0 <= k < r ==> #[trigger] s[a + k] == s[b + k],
        r < limit ==> s[a + r] != s[b + r],
    ensures
        common_prefix(s, a, b, limit) == r,
    decreases r,
{
    if r > 0 {
        assert(s[a + 0] == s[b + 0]);
        assert forall|k: int| 0 <= k < r - 1 implies #[trigger] s[(a + 1) + k] == s[(b + 1) + k] by {
            assert(s[a + (k + 1)] == s[b + (k + 1)]);
        }
        lemma_common_prefix(s, a + 1, b + 1, limit - 1, r - 1);
    }
}

/// The length of the common prefix of `src[a..]` and `src[b..]`, up to 32.
pub fn lcp_loaded(src: &[u8], a: usize, b: usize) -> (r: usize)
    requires
        a + MAX_MATCH_LEN <= src.len(),
        b + MAX_MATCH_LEN <= src.len(),
    ensures
        r <= MAX_MATCH_LEN,
        forall|k: int| 0 <= k < r ==> #[trigger] src@[a + k] == src@[b + k],
        r < MAX_MATCH_LEN ==> src@[a + r] != src@[b + r],
        r == common_prefix(src@, a as int, b as int, MAX_MATCH_LEN as int),
{
    let mut k: usize = 0;
    while k < MAX_MATCH_LEN && src[a + k] == src[b + k]
        invariant
            k <= MAX_MATCH_LEN,
            a + MAX_MATCH_LEN <= src.len(),
            b + MAX_MATCH_LEN <= src.len(),
            forall|q: int| 0 <= q < k ==> #[trigger] src@[a + q] == src@[b + q],
        decreases MAX_MATCH_LEN - k,
    {
        k = k + 1;
    }
    proof {
        lemma_common_prefix(src@, a as int, b as int, MAX_MATCH_LEN as int, k as int);
    }
    k
}

/// The length of the common prefix of `src[a..]` and `src[b..]`, up to
/// `limit`.
pub fn lcp_portable(src: &[u8], a: usize, b: usize, limit: usize) -> (r: usize)
    requires
        a + limit <= src.len(),
        b + limit <= src.len(),
    ensures
        r <= limit,
        forall|k: int| 0 <= k < r ==> #[trigger] src@[a + k] == src@[b + k],
        r < limit ==> src@[a + r] != src@[b + r],
        r == common_prefix(src@, a as int, b as int, limit as int),
{
    let mut k: usize = 0;
    while k < limit && src[a + k] == src[b + k]
        invariant
            k <= limit,
            a + limit <= src.len(),
            b + limit <= src.len(),
            forall|q: int| 0 <= q < k ==> #[trigger] src@[a + q] == src@[b + q],
        decreases limit - k,
    {
        k = k + 1;
    }
    proof {
        lemma_common_prefix(src@, a as int, b as int, limit as int, k as int);
    }
    k
}

/// The length of the common prefix of `src[a..]` and `src[b..]`, up to
/// `limit`, as the optimal parsers measure it.
pub fn lcp_heavy(src: &[u8], a: usize, b: usize, limit: usize) -> (r: usize)
    requires
        a + limit <= src.len(),
        b + limit <= src.len(),
    ensures
        r <= limit,
        forall|k: int| 0 <= k < r ==> #[trigger] src@[a + k] == src@[b + k],
        r < limit ==> src@[a + r] != src@[b + r],
        r == common_prefix(src@, a as int, b as int, limit as int),
{
    lcp_portable(src, a, b, limit)
}

/// A match probe's result at `pos`: the length, and when it is not zero, a
/// candidate position whose bytes repeat at a legal light distance.
pub open spec fn probe_ok(src: Seq<u8>, pos: int, r: (usize, usize)) -> bool {
    &&& r.0 <= MAX_MATCH_LEN
    &&& r.0 > 0 ==> {
        &&& r.1 + MIN_DISTANCE <= pos <= r.1 + MAX_DISTANCE
        &&& forall|k: int| 0 <= k < r.0 ==> #[trigger] src[pos + k] == src[r.1 + k]
    }
}

/// The candidate that a six-byte-hash table offers at `pos`.
pub open spec fn latest6_probe(src: Seq<u8>, t: Seq<u16>, pos: int) -> int {
    recovered_pos(t[hash6_of(le64(src, pos) as u64)], pos)
}

/// The candidate that a four-byte-hash table offers at `pos`.
pub open spec fn latest4_probe(src: Seq<u8>, t: Seq<u16>, pos: int) -> int {
    recovered_pos(t[hash4_of(le32(src, pos) as u32)], pos)
}

/// The match length at `pos` against candidate `c`: their common prefix (up
/// to 32 bytes) when their first four bytes agree, else zero.
pub open spec fn probe_len(src: Seq<u8>, pos: int, c: int) -> int {
    if le32(src, c) == le32(src, pos) {
        common_prefix(src, pos, c, MAX_MATCH_LEN as int)
    } else {
        0
    }
}

/// The candidate of the two-table probe: the six-byte-hash one, unless its
/// first four bytes differ and no candidate is pending, when the four-byte-hash
/// one.
pub open spec fn swift_candidate(src: Seq<u8>, t6: Seq<u16>, t4: Seq<u16>, pos: int, cand_len: int) -> int {
    let c6 = latest6_probe(src, t6, pos);
    if le32(src, c6) != le32(src, pos) && cand_len == 0 {
        latest4_probe(src, t4, pos)
    } else {
        c6
    }
}

/// Probes the six-byte-hash table at `pos`.
pub(crate) fn find_latest_match6(src: &[u8], ht: &LatestHashTable, pos: usize) -> (r: (usize, usize))
    requires
        pos > HASHTAB_LAG,
        pos + MAX_MATCH_LEN <= src.len(),
        ht@.len() == HASH_SIZE,
        forall|i: int| 0 <= i < ht@.len() ==> entry_fresh(#[trigger] ht@[i], pos as int),
    ensures
        probe_ok(src@, pos as int, r),
        r.1 == latest6_probe(src@, ht@, pos as int),
        r.0 == probe_len(src@, pos as int, r.1 as int),
{
    let cur = read_u32_le(src, pos);
    let hsh = hash6(read_u64_le(src, pos));
    let lst = ht.recover_pos(hsh, pos);
    if read_u32_le(src, lst) != cur {
        return (0, lst);
    }
    (lcp_loaded(src, pos, lst), lst)
}

/// Probes the six-byte-hash table at `pos`, then, when that misses and no
/// candidate is pending, the four-byte-hash table.
pub(crate) fn find_swift_match(
    src: &[u8],
    ht6: &LatestHashTable,
    ht4: &LatestHashTable,
    pos: usize,
    cand_len: usize,
) -> (r: (usize, usize))
    requires
        pos > HASHTAB_LAG,
        pos + MAX_MATCH_LEN <= src.len(),
        ht6@.len() == HASH_SIZE,
        ht4@.len() == HASH_SIZE,
        forall|i: int| 0 <= i < ht6@.len() ==> entry_fresh(#[trigger] ht6@[i], pos as int),
        forall|i: int| 0 <= i < ht4@.len() ==> entry_fresh(#[trigger] ht4@[i], pos as int),
    ensures
        probe_ok(src@, pos as int, r),
        r.1 == swift_candidate(src@, ht6@, ht4@, pos as int, cand_len as int),
        r.0 == probe_len(src@, pos as int, r.1 as int),
{
    let cur = read_u32_le(src, pos);
    let mut lst = ht6.recover_pos(hash6(read_u64_le(src, pos)), pos);
    let mut hit = read_u32_le(src, lst) == cur;
    if !hit && cand_len == 0 {
        lst = ht4.recover_pos(hash4(cur), pos);
        hit = read_u32_le(src, lst) == cur;
    }
    if !hit {
        return (0, lst);
    }
    (lcp_loaded(src, pos, lst), lst)
}

/// The first longest match at `pos` among the first `n` slots of the ring
/// that starts at `base`: its length (up to 32) and candidate, or `(0, 0)`.
#[verifier::opaque]
pub open spec fn ring_best(src: Seq<u8>, t: Seq<u16>, base: int, pos: int, n: int) -> (int, int)
    decreases n,
{
    if n <= 0 {
        (0, 0)
    } else {
        let prev = ring_best(src, t, base, pos, n - 1);
        let c = recovered_pos(t[base + n - 1], pos);
        let len = common_prefix(src, pos, c, MAX_MATCH_LEN as int);
        if len > prev.0 {
            (len, c)
        } else {
            prev
        }
    }
}

/// A common prefix is never negative.
pub proof fn lemma_common_prefix_nonneg(s: Seq<u8>, a: int, b: int, limit: int)
    ensures
        common_prefix(s, a, b, limit) >= 0,
    decreases limit,
{
    if limit > 0 && s[a] == s[b] {
        lemma_common_prefix_nonneg(s, a + 1, b + 1, limit - 1);
    }
}

/// Two positions that agree over their first `len` bytes (`len` within the
/// limit) have a common prefix of at least `len` bytes.
pub proof fn lemma_common_prefix_at_least(s: Seq<u8>, a: int, b: int, limit: int, len: int)
    requires
        0 <= len <= limit,
        forall|k: int| 0 <= k < len ==> #[trigger] s[a + k] == s[b + k],
    ensures
        common_prefix(s, a, b, limit) >= len,
    decreases len,
{
    if len == 0 {
        lemma_common_prefix_nonneg(s, a, b, limit);
    } else {
        assert(s[a + 0] == s[b + 0]);
        assert(s[a] == s[b]);
        assert forall|k: int| 0 <= k < len - 1 implies #[trigger] s[(a + 1) + k] == s[(b + 1) + k] by {
            assert(s[a + (k + 1)] == s[b + (k + 1)]);
        }
        lemma_common_prefix_at_least(s, a + 1, b + 1, limit - 1, len - 1);
    }
}

/// The ring probe finds the longest match its slots offer: whenever the
/// position a slot stands for agrees with `pos` over `len` bytes (up to 32),
/// the probe's match is at least `len` bytes long, however far back (within
/// the window) that position lies.
pub proof fn law_ring_probe_longest(x: Seq<u8>, t: Seq<u16>, base: int, pos: int, n: int, j: int, len: int)
    requires
        0 <= j < n,
        0 <= len <= MAX_MATCH_LEN,
        forall|k: int| 0 <= k < len ==> #[trigger] x[pos + k] == x[recovered_pos(t[base + j], pos) + k],
    ensures
        ring_best(x, t, base, pos, n).0 >= len,
    decreases n,
{
    reveal(ring_best);
    if j == n - 1 {
        let c = recovered_pos(t[base + j], pos);
        assert forall|k: int| 0 <= k < len implies #[trigger] x[pos + k] == x[c + k] by {}
        lemma_common_prefix_at_least(x, pos, c, MAX_MATCH_LEN as int, len);
        assert(c == recovered_pos(t[base + n - 1], pos));
    } else {
        law_ring_probe_longest(x, t, base, pos, n - 1, j, len);
    }
    assert(ring_best(x, t, base, pos, n).0 >= ring_best(x, t, base, pos, n - 1).0);
}

/// A candidate that agrees with `pos` over `len` bytes (4 to 32) gives a
/// probe of at least `len` bytes, wherever it lies.
pub proof fn law_probe_len_at_least(x: Seq<u8>, pos: int, c: int, len: int)
    requires
        MIN_MATCH_LEN <= len <= MAX_MATCH_LEN,
        forall|k: int| 0 <= k < len ==> #[trigger] x[pos + k] == x[c + k],
    ensures
        probe_len(x, pos, c) >= len,
{
    assert(x[pos + 0] == x[c + 0] && x[pos + 1] == x[c + 1] && x[pos + 2] == x[c + 2] && x[pos + 3]
        == x[c + 3]);
    assert(le32(x, c) == le32(x, pos));
    lemma_common_prefix_at_least(x, pos, c, MAX_MATCH_LEN as int, len);
}

/// Probes every slot of the ring of `pos`'s four-byte hash and keeps the
/// first longest match.
pub(crate) fn find_ring_match(src: &[u8], ht: &RingHashTable, pos: usize) -> (r: (usize, usize))
    requires
        pos > HASHTAB_LAG,
        pos + MAX_MATCH_LEN <= src.len(),
        ht.wf(),
        forall|i: int| 0 <= i < ht@.len() ==> entry_fresh(#[trigger] ht@[i], pos as int),
    ensures
        probe_ok(src@, pos as int, r),
        (r.0 as int, r.1 as int) == ring_best(
            src@,
            ht@,
            hash4_of(le32(src@, pos as int) as u32) * ht.spec_width(),
            pos as int,
            ht.spec_width(),
        ),
{
    let hsh = hash4(read_u32_le(src, pos));
    let mut lst: usize = 0;
    let mut match_len: usize = 0;
    let width = ht.width();
    let mut j: usize = 0;
    proof {
        reveal(ring_best);
    }
    while j < width
        invariant
            j <= width,
            width == ht.spec_width(),
            ht.wf(),
            hsh < HASH_SIZE,
            pos > HASHTAB_LAG,
            pos + MAX_MATCH_LEN <= src.len(),
            forall|i: int| 0 <= i < ht@.len() ==> entry_fresh(#[trigger] ht@[i], pos as int),
            probe_ok(src@, pos as int, (match_len, lst)),
            hsh == hash4_of(le32(src@, pos as int) as u32),
            (match_len as int, lst as int) == ring_best(src@, ht@, hsh * width, pos as int, j as int),
        decreases width - j,
    {
        let entry = ht.entry(hsh, j);
        proof {
            reveal(ring_best);
        }
        let ilst = recover_entry_pos(entry, pos);
        let imatch_len = lcp_loaded(src, pos, ilst);
        if imatch_len > match_len {
            lst = ilst;
            match_len = imatch_len;
        }
        j = j + 1;
    }
    (match_len, lst)
}

/// Where batched insertion from `h` stops at `pos`: whole batches of `batch`
/// positions are inserted while the next batch ends at least `HASHTAB_LAG`
/// before `pos`.
pub open spec fn batch_end(h: int, pos: int, batch: int) -> int {
    if pos >= h + HASHTAB_LAG {
        h + batch * ((pos - h - HASHTAB_LAG) / batch)
    } else {
        h
    }
}

/// Inserting one more batch leaves where batched insertion stops unchanged.
proof fn lemma_batch_end_step(h: int, pos: int)
    requires
        pos >= h + HASHTAB_LAG + 8,
    ensures
        batch_end(h + 8, pos, 8) == batch_end(h, pos, 8),
{
    let x = pos - h - HASHTAB_LAG;
    assert((x - 8) / 8 == x / 8 - 1);
}

/// A six-byte-hash table `t` after the positions `[from, to)` of `src` are
/// inserted in order.
#[verifier::opaque]
pub open spec fn latest6_filled(t: Seq<u16>, src: Seq<u8>, from: int, to: int) -> Seq<u16>
    decreases to - from,
{
    if to <= from {
        t
    } else {
        latest6_filled(t, src, from, to - 1).update(
            hash6_of(le64(src, to - 1) as u64),
            (to - 1) as u16,
        )
    }
}

/// A four-byte-hash table `t` after the even positions of `[from, to)` of
/// `src` are inserted in order.
#[verifier::opaque]
pub open spec fn even4_filled(t: Seq<u16>, src: Seq<u8>, from: int, to: int) -> Seq<u16>
    decreases to - from,
{
    if to <= from {
        t
    } else {
        let prev = even4_filled(t, src, from, to - 1);
        if (to - 1) % 2 == 0 {
            prev.update(hash4_of(le32(src, to - 1) as u32), (to - 1) as u16)
        } else {
            prev
        }
    }
}

/// Ring tables of width `w` with slots and cursors `st`, after the positions
/// `[from, to)` of `src` are inserted in order.
#[verifier::opaque]
pub open spec fn ring_filled(st: (Seq<u16>, Seq<u8>), w: int, src: Seq<u8>, from: int, to: int) -> (
    Seq<u16>,
    Seq<u8>,
)
    decreases to - from,
{
    if to <= from {
        st
    } else {
        ring_step(ring_filled(st, w, src, from, to - 1), w, hash4_of(le32(src, to - 1) as u32), to - 1)
    }
}

/// Inserts, in batches of eight, every position that is `HASHTAB_LAG` or
/// more behind `pos` into the six-byte-hash table.
pub(crate) fn batch_insert_latest6(src: &[u8], ht: &mut LatestHashTable, hpos: &mut usize, pos: usize)
    requires
        pos + 2 * MAX_MATCH_LEN <= src.len(),
        old(ht)@.len() == HASH_SIZE,
        table_ok(old(ht)@, *old(hpos) as int),
        *old(hpos) <= pos,
    ensures
        final(ht)@.len() == HASH_SIZE,
        table_ok(final(ht)@, *final(hpos) as int),
        *final(hpos) >= *old(hpos),
        *final(hpos) == *old(hpos) || *final(hpos) + HASHTAB_LAG <= pos,
        *final(hpos) == batch_end(*old(hpos) as int, pos as int, LATEST_BATCH as int),
        final(ht)@ == latest6_filled(old(ht)@, src@, *old(hpos) as int, *final(hpos) as int),
{
    proof {
        reveal(latest6_filled);
    }
    while pos >= *hpos + HASHTAB_LAG + LATEST_BATCH
        invariant
            pos + 2 * MAX_MATCH_LEN <= src.len(),
            ht@.len() == HASH_SIZE,
            table_ok(ht@, *hpos as int),
            *hpos >= *old(hpos),
            *hpos <= pos,
            *hpos == *old(hpos) || *hpos + HASHTAB_LAG <= pos,
            batch_end(*hpos as int, pos as int, 8) == batch_end(*old(hpos) as int, pos as int, 8),
            ht@ == latest6_filled(old(ht)@, src@, *old(hpos) as int, *hpos as int),
        decreases pos - *hpos,
    {
        let mut i: usize = 0;
        while i < LATEST_BATCH
            invariant
                i <= LATEST_BATCH,
                pos >= *hpos + HASHTAB_LAG + LATEST_BATCH,
                pos + 2 * MAX_MATCH_LEN <= src.len(),
                ht@.len() == HASH_SIZE,
                table_ok(ht@, *hpos + i),
                *hpos >= *old(hpos),
                ht@ == latest6_filled(old(ht)@, src@, *old(hpos) as int, *hpos + i),
            decreases LATEST_BATCH - i,
        {
            let insert_pos = *hpos + i;
            let hsh = hash6(read_u64_le(src, insert_pos));
            proof {
                reveal(latest6_filled);
                lemma_table_insert(ht@, *hpos + i, hsh as int, insert_pos, *hpos + i + 1);
            }
            ht.insert(hsh, insert_pos);
            i = i + 1;
        }
        proof {
            lemma_batch_end_step(*hpos as int, pos as int);
        }
        *hpos += LATEST_BATCH;
    }
}

/// Inserts, in batches of eight, every position that is `HASHTAB_LAG` or
/// more behind `pos` into the six-byte-hash table, and the even ones into the
/// four-byte-hash table.
pub(crate) fn batch_insert_swift(
    src: &[u8],
    ht6: &mut LatestHashTable,
    ht4: &mut LatestHashTable,
    hpos: &mut usize,
    pos: usize,
)
    requires
        pos + 2 * MAX_MATCH_LEN <= src.len(),
        old(ht6)@.len() == HASH_SIZE,
        old(ht4)@.len() == HASH_SIZE,
        table_ok(old(ht6)@, *old(hpos) as int),
        table_ok(old(ht4)@, *old(hpos) as int),
        *old(hpos) <= pos,
    ensures
        final(ht6)@.len() == HASH_SIZE,
        final(ht4)@.len() == HASH_SIZE,
        table_ok(final(ht6)@, *final(hpos) as int),
        table_ok(final(ht4)@, *final(hpos) as int),
        *final(hpos) >= *old(hpos),
        *final(hpos) == *old(hpos) || *final(hpos) + HASHTAB_LAG <= pos,
        *final(hpos) == batch_end(*old(hpos) as int, pos as int, LATEST_BATCH as int),
        final(ht6)@ == latest6_filled(old(ht6)@, src@, *old(hpos) as int, *final(hpos) as int),
        final(ht4)@ == even4_filled(old(ht4)@, src@, *old(hpos) as int, *final(hpos) as int),
{
    proof {
        reveal(latest6_filled);
        reveal(even4_filled);
    }
    while pos >= *hpos + HASHTAB_LAG + LATEST_BATCH
        invariant
            pos + 2 * MAX_MATCH_LEN <= src.len(),
            ht6@.len() == HASH_SIZE,
            ht4@.len() == HASH_SIZE,
            table_ok(ht6@, *hpos as int),
            table_ok(ht4@, *hpos as int),
            *hpos >= *old(hpos),
            *hpos <= pos,
            *hpos == *old(hpos) || *hpos + HASHTAB_LAG <= pos,
            batch_end(*hpos as int, pos as int, 8) == batch_end(*old(hpos) as int, pos as int, 8),
            ht6@ == latest6_filled(old(ht6)@, src@, *old(hpos) as int, *hpos as int),
            ht4@ == even4_filled(old(ht4)@, src@, *old(hpos) as int, *hpos as int),
        decreases pos - *hpos,
    {
        let mut i: usize = 0;
        while i < LATEST_BATCH
            invariant
                i <= LATEST_BATCH,
                pos >= *hpos + HASHTAB_LAG + LATEST_BATCH,
                pos + 2 * MAX_MATCH_LEN <= src.len(),
                ht6@.len() == HASH_SIZE,
                ht4@.len() == HASH_SIZE,
                table_ok(ht6@, *hpos + i),
                table_ok(ht4@, *hpos + i),
                *hpos >= *old(hpos),
                ht6@ == latest6_filled(old(ht6)@, src@, *old(hpos) as int, *hpos + i),
                ht4@ == even4_filled(old(ht4)@, src@, *old(hpos) as int, *hpos + i),
            decreases LATEST_BATCH - i,
        {
            let insert_pos = *hpos + i;
            let h6 = hash6(read_u64_le(src, insert_pos));
            proof {
                reveal(latest6_filled);
                reveal(even4_filled);
                lemma_table_insert(ht6@, *hpos + i, h6 as int, insert_pos, *hpos + i + 1);
                assert(insert_pos & 1 == 0 <==> insert_pos % 2 == 0) by (bit_vector);
            }
            ht6.insert(h6, insert_pos);
            if insert_pos & 1 == 0 {
                let val = read_u32_le(src, insert_pos);
                let h4 = hash4(val);
                proof {
                    lemma_table_insert(ht4@, *hpos + i, h4 as int, insert_pos, *hpos + i + 1);
                }
                ht4.insert(h4, insert_pos);
            } else {
                proof {
                    assert(table_ok(ht4@, *hpos + i + 1));
                }
            }
            i = i + 1;
        }
        proof {
            lemma_batch_end_step(*hpos as int, pos as int);
        }
        *hpos += LATEST_BATCH;
    }
}

/// Inserts, in batches of eight, every position that is `HASHTAB_LAG` or
/// more behind `pos` into a ring table.
pub(crate) fn batch_insert_ring(src: &[u8], ht: &mut RingHashTable, hpos: &mut usize, pos: usize)
    requires
        pos + 2 * MAX_MATCH_LEN <= src.len(),
        old(ht).wf(),
        table_ok(old(ht)@, *old(hpos) as int),
        *old(hpos) <= pos,
    ensures
        final(ht).wf(),
        final(ht).spec_width() == old(ht).spec_width(),
        table_ok(final(ht)@, *final(hpos) as int),
        *final(hpos) >= *old(hpos),
        *final(hpos) == *old(hpos) || *final(hpos) + HASHTAB_LAG <= pos,
        *final(hpos) == batch_end(*old(hpos) as int, pos as int, RING_BATCH as int),
        (final(ht)@, final(ht).cursors()) == ring_filled(
            (old(ht)@, old(ht).cursors()),
            old(ht).spec_width(),
            src@,
            *old(hpos) as int,
            *final(hpos) as int,
        ),
{
    proof {
        reveal(ring_filled);
    }
    while pos >= *hpos + HASHTAB_LAG + RING_BATCH
        invariant
            pos + 2 * MAX_MATCH_LEN <= src.len(),
            ht.wf(),
            ht.spec_width() == old(ht).spec_width(),
            table_ok(ht@, *hpos as int),
            *hpos >= *old(hpos),
            *hpos <= pos,
            *hpos == *old(hpos) || *hpos + HASHTAB_LAG <= pos,
            batch_end(*hpos as int, pos as int, 8) == batch_end(*old(hpos) as int, pos as int, 8),
            (ht@, ht.cursors()) == ring_filled(
                (old(ht)@, old(ht).cursors()),
                old(ht).spec_width(),
                src@,
                *old(hpos) as int,
                *hpos as int,
            ),
        decreases pos - *hpos,
    {
        let mut i: usize = 0;
        while i < RING_BATCH
            invariant
                i <= RING_BATCH,
                pos >= *hpos + HASHTAB_LAG + RING_BATCH,
                pos + 2 * MAX_MATCH_LEN <= src.len(),
                ht.wf(),
                ht.spec_width() == old(ht).spec_width(),
                table_ok(ht@, *hpos + i),
                *hpos >= *old(hpos),
                (ht@, ht.cursors()) == ring_filled(
                    (old(ht)@, old(ht).cursors()),
                    old(ht).spec_width(),
                    src@,
                    *old(hpos) as int,
                    *hpos + i,
                ),
            decreases RING_BATCH - i,
        {
            let insert_pos = *hpos + i;
            let hsh = hash4(read_u32_le(src, insert_pos));
            let ghost before = ht@;
            ht.insert(hsh, insert_pos);
            proof {
                reveal(ring_filled);
                let k = choose|k: int|
                    0 <= k < before.len() && ht@ == #[trigger] before.update(k, insert_pos as u16);
                lemma_table_insert(before, *hpos + i, k, insert_pos, *hpos + i + 1);
            }
            i = i + 1;
        }
        proof {
            lemma_batch_end_step(*hpos as int, pos as int);
        }
        *hpos += RING_BATCH;
    }
}

} // verus!
