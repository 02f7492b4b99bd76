//! A set of suffix-array ranks kept as a three-level bitmap, with
//! predecessor and successor queries that skip empty words a level up.
use vstd::prelude::*;

verus! {

broadcast use vstd::std_specs::bits::axiom_u64_leading_zeros, vstd::std_specs::bits::axiom_u64_trailing_zeros;

/// Bit `j` of `w` is set.
pub open spec fn bit_at(w: u64, j: int) -> bool {
    0 <= j < 64 && (w >> (j as u64)) & 1u64 == 1u64
}

/// The mask of the bits of a word below bit `k`.
pub open spec fn low_mask(k: u64) -> u64 {
    if k == 0 {
        0u64
    } else {
        ((1u64 << k) - 1) as u64
    }
}

/// The mask of the bits of a word above bit `k`.
pub open spec fn high_mask(k: u64) -> u64 {
    if k == 63 {
        0u64
    } else {
        u64::MAX << ((k + 1) as u64)
    }
}

proof fn lemma_bit_or(w: u64, k: u64, j: u64)
    requires
        k < 64,
        j < 64,
    ensures
        bit_at(w | (1u64 << k), j as int) == (j == k || bit_at(w, j as int)),
{
    assert(((w | (1u64 << k)) >> j) & 1u64 == 1u64 <==> (j == k || (w >> j) & 1u64 == 1u64))
        by (bit_vector)
        requires
            k < 64,
            j < 64,
    ;
}

proof fn lemma_bit_and_not(w: u64, k: u64, j: u64)
    requires
        k < 64,
        j < 64,
    ensures
        bit_at(w & !(1u64 << k), j as int) == (j != k && bit_at(w, j as int)),
{
    assert(((w & !(1u64 << k)) >> j) & 1u64 == 1u64 <==> (j != k && (w >> j) & 1u64 == 1u64))
        by (bit_vector)
        requires
            k < 64,
            j < 64,
    ;
}

proof fn lemma_bit_low(w: u64, k: u64, j: u64)
    requires
        k < 64,
        j < 64,
    ensures
        bit_at(w & low_mask(k), j as int) == (j < k && bit_at(w, j as int)),
{
    if k == 0 {
        assert(((w & 0u64) >> j) & 1u64 == 0u64) by (bit_vector);
    } else {
        assert(((w & ((1u64 << k) - 1) as u64) >> j) & 1u64 == 1u64 <==> (j < k && (w >> j) & 1u64
            == 1u64)) by (bit_vector)
            requires
                0 < k < 64,
                j < 64,
        ;
    }
}

proof fn lemma_bit_high(w: u64, k: u64, j: u64)
    requires
        k < 64,
        j < 64,
    ensures
        bit_at(w & high_mask(k), j as int) == (j > k && bit_at(w, j as int)),
{
    if k == 63 {
        assert(((w & 0u64) >> j) & 1u64 == 0u64) by (bit_vector);
    } else {
        assert(((w & (u64::MAX << ((k + 1) as u64))) >> j) & 1u64 == 1u64 <==> (j > k && (w >> j)
            & 1u64 == 1u64)) by (bit_vector)
            requires
                k < 63,
                j < 64,
        ;
    }
}

proof fn lemma_bit_all(w: u64, j: u64)
    requires
        j < 64,
    ensures
        bit_at(w & u64::MAX, j as int) == bit_at(w, j as int),
        !bit_at(0u64, j as int),
{
    assert(w & u64::MAX == w) by (bit_vector);
    assert((0u64 >> j) & 1u64 == 0u64) by (bit_vector);
}

/// Every bit of `w | (1 << k)`: the bits of `w` and bit `k`.
proof fn lemma_bits_or(w: u64, k: u64)
    requires
        k < 64,
    ensures
        forall|j: int| 0 <= j < 64 ==> #[trigger] bit_at(w | (1u64 << k), j) == (j == k || bit_at(w, j)),
{
    assert forall|j: int| 0 <= j < 64 implies #[trigger] bit_at(w | (1u64 << k), j) == (j == k
        || bit_at(w, j)) by {
        lemma_bit_or(w, k, j as u64);
    }
}

/// Every bit of `w & !(1 << k)`: the bits of `w` but bit `k`.
proof fn lemma_bits_and_not(w: u64, k: u64)
    requires
        k < 64,
    ensures
        forall|j: int| 0 <= j < 64 ==> #[trigger] bit_at(w & !(1u64 << k), j) == (j != k && bit_at(w, j)),
{
    assert forall|j: int| 0 <= j < 64 implies #[trigger] bit_at(w & !(1u64 << k), j) == (j != k
        && bit_at(w, j)) by {
        lemma_bit_and_not(w, k, j as u64);
    }
}

/// Every bit of `w & low_mask(k)`: the bits of `w` below `k`.
proof fn lemma_bits_low(w: u64, k: u64)
    requires
        k < 64,
    ensures
        forall|j: int| 0 <= j < 64 ==> #[trigger] bit_at(w & low_mask(k), j) == (j < k && bit_at(w, j)),
{
    assert forall|j: int| 0 <= j < 64 implies #[trigger] bit_at(w & low_mask(k), j) == (j < k
        && bit_at(w, j)) by {
        lemma_bit_low(w, k, j as u64);
    }
}

/// Every bit of `w & high_mask(k)`: the bits of `w` above `k`.
proof fn lemma_bits_high(w: u64, k: u64)
    requires
        k < 64,
    ensures
        forall|j: int| 0 <= j < 64 ==> #[trigger] bit_at(w & high_mask(k), j) == (j > k && bit_at(w, j)),
{
    assert forall|j: int| 0 <= j < 64 implies #[trigger] bit_at(w & high_mask(k), j) == (j > k
        && bit_at(w, j)) by {
        lemma_bit_high(w, k, j as u64);
    }
}

/// Masking with all ones keeps every bit, and zero has no bits.
proof fn lemma_bits_all(w: u64)
    ensures
        forall|j: int| 0 <= j < 64 ==> #[trigger] bit_at(w & u64::MAX, j) == bit_at(w, j),
        forall|j: int| 0 <= j < 64 ==> !#[trigger] bit_at(0u64, j),
{
    assert forall|j: int| 0 <= j < 64 implies #[trigger] bit_at(w & u64::MAX, j) == bit_at(w, j) by {
        lemma_bit_all(w, j as u64);
    }
    assert forall|j: int| 0 <= j < 64 implies !#[trigger] bit_at(0u64, j) by {
        lemma_bit_all(w, j as u64);
    }
}

/// The index of the highest set bit of a nonzero word.
pub fn high_bit_index(bits: u64) -> (r: usize)
    requires
        bits != 0,
    ensures
        r < 64,
        bit_at(bits, r as int),
        forall|j: int| r < j < 64 ==> !#[trigger] bit_at(bits, j),
{
    let lz = bits.leading_zeros();
    proof {
        let z = lz as u64;
        assert(z < 64 ==> (z ^ 63u64) == 63 - z) by (bit_vector);
        assert(((bits >> ((63 - z) as u64)) & 1u64) != 0u64 ==> ((bits >> ((63 - z) as u64)) & 1u64)
            == 1u64) by (bit_vector);
        assert forall|j: int| 63 - z < j < 64 implies !#[trigger] bit_at(bits, j) by {
            assert((bits >> (j as u64)) & 1u64 == 0u64);
        }
    }
    (lz as usize) ^ 63
}

/// The index of the lowest set bit of a nonzero word.
pub fn low_bit_index(bits: u64) -> (r: usize)
    requires
        bits != 0,
    ensures
        r < 64,
        bit_at(bits, r as int),
        forall|j: int| 0 <= j < r ==> !#[trigger] bit_at(bits, j),
{
    let tz = bits.trailing_zeros();
    proof {
        assert forall|j: int| 0 <= j < tz implies !#[trigger] bit_at(bits, j) by {
            assert((bits >> (j as u64)) & 1u64 == 0u64);
        }
    }
    tz as usize
}

/// A word with a set bit is not zero; a word that is not zero has one.
proof fn lemma_nonzero_bit(w: u64)
    ensures
        w != 0 <==> exists|j: int| 0 <= j < 64 && #[trigger] bit_at(w, j),
{
    lemma_bits_all(w);
    if w != 0 {
        let z = vstd::std_specs::bits::u64_leading_zeros(w);
        let zz = (63 - z) as u64;
        assert(((w >> zz) & 1u64) != 0u64 ==> ((w >> zz) & 1u64) == 1u64) by (bit_vector);
        assert(bit_at(w, 63 - z));
    }
}

/// A set of ranks below `64 * l0.len()`: bit `i % 64` of word `i / 64` of
/// `l0` marks rank `i`; a bit of `l1` marks a nonzero word of `l0`, and a bit
/// of `l2` a nonzero word of `l1`.
pub struct HeavyLiveSet {
    l0: Vec<u64>,
    l1: Vec<u64>,
    l2: Vec<u64>,
}

impl HeavyLiveSet {
    /// Rank `i` is in the set.
    pub closed spec fn has(&self, i: int) -> bool {
        0 <= i < 64 * self.l0@.len() && bit_at(self.l0@[i / 64], i % 64)
    }

    /// Every rank of the set is below this bound.
    pub closed spec fn universe(&self) -> int {
        64 * self.l0@.len() as int
    }

    /// No rank in `[a, b)` is in the set.
    pub open spec fn none_in(&self, a: int, b: int) -> bool {
        forall|j: int| a <= j < b ==> !#[trigger] self.has(j)
    }

    /// `p` is the greatest rank of the set below `index`.
    pub open spec fn is_prev(&self, p: int, index: int) -> bool {
        p < index && self.has(p) && self.none_in(p + 1, index)
    }

    /// `p` is the least rank of the set above `index`.
    pub open spec fn is_next(&self, p: int, index: int) -> bool {
        index < p && self.has(p) && self.none_in(index + 1, p)
    }

    /// The greatest rank of the set below `index`, if there is one.
    pub open spec fn prev_of(&self, index: int) -> Option<int> {
        if exists|p: int| #[trigger] self.is_prev(p, index) {
            Some(choose|p: int| #[trigger] self.is_prev(p, index))
        } else {
            None
        }
    }

    /// The least rank of the set above `index`, if there is one.
    pub open spec fn next_of(&self, index: int) -> Option<int> {
        if exists|p: int| #[trigger] self.is_next(p, index) {
            Some(choose|p: int| #[trigger] self.is_next(p, index))
        } else {
            None
        }
    }

    /// A rank below `index` with none of the set between it and `index`, or
    /// none at all when the set holds nothing below `index`, is `prev_of`.
    pub proof fn lemma_prev_of(&self, index: int, r: Option<usize>)
        requires
            r matches Some(p) ==> p < index && self.has(p as int) && self.none_in(p + 1, index),
            r is None ==> self.none_in(0, index),
        ensures
            self.prev_of(index) == (match r {
                Some(p) => Some(p as int),
                None => None,
            }),
    {
        match r {
            Some(p) => {
                assert(self.is_prev(p as int, index));
                let q = choose|q: int| #[trigger] self.is_prev(q, index);
                assert(self.is_prev(q, index));
                if q < p {
                    assert(!self.has(p as int));
                }
                if q > p {
                    assert(!self.has(q));
                }
            },
            None => {
                assert forall|q: int| !#[trigger] self.is_prev(q, index) by {
                    if self.is_prev(q, index) {
                        assert(0 <= q);
                        assert(!self.has(q));
                    }
                }
            },
        }
    }

    /// A rank above `index` with none of the set between `index` and it, or
    /// none at all when the set holds nothing above `index`, is `next_of`.
    pub proof fn lemma_next_of(&self, index: int, r: Option<usize>)
        requires
            r matches Some(p) ==> index < p && self.has(p as int) && self.none_in(index + 1, p as int),
            r is None ==> self.none_in(index + 1, self.universe()),
        ensures
            self.next_of(index) == (match r {
                Some(p) => Some(p as int),
                None => None,
            }),
    {
        match r {
            Some(p) => {
                assert(self.is_next(p as int, index));
                let q = choose|q: int| #[trigger] self.is_next(q, index);
                assert(self.is_next(q, index));
                if q < p {
                    assert(!self.has(q));
                }
                if q > p {
                    assert(!self.has(p as int));
                }
            },
            None => {
                assert forall|q: int| !#[trigger] self.is_next(q, index) by {
                    if self.is_next(q, index) {
                        assert(q < self.universe());
                        assert(!self.has(q));
                    }
                }
            },
        }
    }

    /// The summary levels agree with the words below them.
    pub closed spec fn wf(&self) -> bool {
        &&& 64 * self.l0@.len() <= usize::MAX
        &&& self.l1@.len() == (self.l0@.len() + 63) / 64
        &&& self.l2@.len() == (self.l1@.len() + 63) / 64
        &&& forall|a: int, b: int|
            0 <= a < self.l1@.len() && 0 <= b < 64 ==> (#[trigger] bit_at(self.l1@[a], b) <==> (64
                * a + b < self.l0@.len() && self.l0@[64 * a + b] != 0))
        &&& forall|a: int, b: int|
            0 <= a < self.l2@.len() && 0 <= b < 64 ==> (#[trigger] bit_at(self.l2@[a], b) <==> (64
                * a + b < self.l1@.len() && self.l1@[64 * a + b] != 0))
    }

    /// An empty set over no ranks.
    pub fn new() -> (s: Self)
        ensures
            s.wf(),
            s.universe() == 0,
    {
        HeavyLiveSet { l0: Vec::new(), l1: Vec::new(), l2: Vec::new() }
    }

    /// A zero word of `l0` holds no rank.
    proof fn lemma_word_empty(&self, v: int)
        requires
            0 <= v < self.l0@.len(),
            self.l0@[v] == 0,
        ensures
            self.none_in(64 * v, 64 * v + 64),
    {
        lemma_bits_all(0u64);
        assert forall|j: int| 64 * v <= j < 64 * v + 64 implies !#[trigger] self.has(j) by {
            assert(j / 64 == v);
        }
    }

    /// The words of `l0` whose `l1` bits are clear hold no rank.
    proof fn lemma_l1_clear(&self, a: int, lo: int, hi: int)
        requires
            self.wf(),
            0 <= a < self.l1@.len(),
            0 <= lo <= hi <= 64,
            forall|b: int| lo <= b < hi ==> !#[trigger] bit_at(self.l1@[a], b),
        ensures
            self.none_in(64 * (64 * a + lo), 64 * (64 * a + hi)),
    {
        lemma_bits_all(0u64);
        assert forall|j: int| 64 * (64 * a + lo) <= j < 64 * (64 * a + hi) implies !#[trigger] self.has(j) by {
            let v = j / 64;
            let b = v - 64 * a;
            assert(lo <= b < hi);
            assert(!bit_at(self.l1@[a], b));
            if v < self.l0@.len() {
                assert(self.l0@[64 * a + b] == 0);
                self.lemma_word_empty(v);
            }
        }
    }

    /// The words of `l1` whose `l2` bits are clear are zero, so their ranks
    /// are not in the set.
    proof fn lemma_l2_clear(&self, a: int, lo: int, hi: int)
        requires
            self.wf(),
            0 <= a < self.l2@.len(),
            0 <= lo <= hi <= 64,
            forall|b: int| lo <= b < hi ==> !#[trigger] bit_at(self.l2@[a], b),
        ensures
            self.none_in(4096 * (64 * a + lo), 4096 * (64 * a + hi)),
    {
        lemma_bits_all(0u64);
        assert forall|j: int| 4096 * (64 * a + lo) <= j < 4096 * (64 * a + hi) implies !#[trigger] self.has(j) by {
            let u = j / 4096;
            let b = u - 64 * a;
            assert(lo <= b < hi);
            assert(!bit_at(self.l2@[a], b));
            if u < self.l1@.len() {
                assert(self.l1@[64 * a + b] == 0);
                self.lemma_l1_clear(u, 0, 64);
            } else {
                assert(j >= 64 * self.l0@.len());
            }
        }
    }
    /// Adds rank `index` to the set.
    pub fn set(&mut self, index: usize)
        requires
            old(self).wf(),
            index < old(self).universe(),
        ensures
            final(self).wf(),
            final(self).universe() == old(self).universe(),
            forall|i: int| #[trigger] final(self).has(i) == (old(self).has(i) || i == index),
    {
        let ghost s0 = *self;
        let word0 = index / 64;
        let k0 = (index % 64) as u64;
        let old0 = self.l0[word0];
        proof {
            lemma_bits_or(old0, k0);
        }
        self.l0.set(word0, old0 | (1u64 << k0));
        proof {
            assert forall|i: int| #[trigger] self.has(i) == (s0.has(i) || i == index) by {
                if 0 <= i < self.universe() && i / 64 != word0 {
                    assert(self.l0@[i / 64] == s0.l0@[i / 64]);
                }
            }
            lemma_nonzero_bit(old0 | (1u64 << k0));
            assert(bit_at(old0 | (1u64 << k0), k0 as int));
        }
        if old0 != 0 {
            proof {
                assert forall|a: int, b: int| 0 <= a < self.l1@.len() && 0 <= b < 64 implies (
                #[trigger] bit_at(self.l1@[a], b) <==> (64 * a + b < self.l0@.len() && self.l0@[64
                    * a + b] != 0)) by {
                    assert(bit_at(s0.l1@[a], b) <==> (64 * a + b < s0.l0@.len() && s0.l0@[64 * a
                        + b] != 0));
                }
            }
            return;
        }
        let word1 = word0 / 64;
        let k1 = (word0 % 64) as u64;
        let old1 = self.l1[word1];
        proof {
            lemma_bits_or(old1, k1);
        }
        self.l1.set(word1, old1 | (1u64 << k1));
        proof {
            assert forall|a: int, b: int| 0 <= a < self.l1@.len() && 0 <= b < 64 implies (
            #[trigger] bit_at(self.l1@[a], b) <==> (64 * a + b < self.l0@.len() && self.l0@[64 * a
                + b] != 0)) by {
                assert(bit_at(s0.l1@[a], b) <==> (64 * a + b < s0.l0@.len() && s0.l0@[64 * a + b]
                    != 0));
            }
            lemma_nonzero_bit(old1 | (1u64 << k1));
            assert(bit_at(old1 | (1u64 << k1), k1 as int));
        }
        if old1 != 0 {
            proof {
                assert forall|a: int, b: int| 0 <= a < self.l2@.len() && 0 <= b < 64 implies (
                #[trigger] bit_at(self.l2@[a], b) <==> (64 * a + b < self.l1@.len() && self.l1@[64
                    * a + b] != 0)) by {
                    assert(bit_at(s0.l2@[a], b) <==> (64 * a + b < s0.l1@.len() && s0.l1@[64 * a
                        + b] != 0));
                }
            }
            return;
        }
        let word2 = word1 / 64;
        let k2 = (word1 % 64) as u64;
        let old2 = self.l2[word2];
        proof {
            lemma_bits_or(old2, k2);
        }
        self.l2.set(word2, old2 | (1u64 << k2));
        proof {
            assert forall|a: int, b: int| 0 <= a < self.l2@.len() && 0 <= b < 64 implies (
            #[trigger] bit_at(self.l2@[a], b) <==> (64 * a + b < self.l1@.len() && self.l1@[64 * a
                + b] != 0)) by {
                assert(bit_at(s0.l2@[a], b) <==> (64 * a + b < s0.l1@.len() && s0.l1@[64 * a + b]
                    != 0));
            }
        }
    }

    /// Removes rank `index` from the set.
    pub fn clear(&mut self, index: usize)
        requires
            old(self).wf(),
            index < old(self).universe(),
        ensures
            final(self).wf(),
            final(self).universe() == old(self).universe(),
            forall|i: int| #[trigger] final(self).has(i) == (old(self).has(i) && i != index),
    {
        let ghost s0 = *self;
        let word0 = index / 64;
        let k0 = (index % 64) as u64;
        let old0 = self.l0[word0];
        let new0 = old0 & !(1u64 << k0);
        proof {
            lemma_bits_and_not(old0, k0);
        }
        self.l0.set(word0, new0);
        proof {
            assert forall|i: int| #[trigger] self.has(i) == (s0.has(i) && i != index) by {
                if 0 <= i < self.universe() && i / 64 != word0 {
                    assert(self.l0@[i / 64] == s0.l0@[i / 64]);
                }
            }
        }
        if new0 != 0 {
            proof {
                let m = !(1u64 << k0);
                assert(old0 == 0 ==> old0 & m == 0) by (bit_vector);
                assert forall|a: int, b: int| 0 <= a < self.l1@.len() && 0 <= b < 64 implies (
                #[trigger] bit_at(self.l1@[a], b) <==> (64 * a + b < self.l0@.len() && self.l0@[64
                    * a + b] != 0)) by {
                    assert(bit_at(s0.l1@[a], b) <==> (64 * a + b < s0.l0@.len() && s0.l0@[64 * a
                        + b] != 0));
                }
            }
            return;
        }
        let word1 = word0 / 64;
        let k1 = (word0 % 64) as u64;
        let old1 = self.l1[word1];
        let new1 = old1 & !(1u64 << k1);
        proof {
            lemma_bits_and_not(old1, k1);
        }
        self.l1.set(word1, new1);
        proof {
            assert forall|a: int, b: int| 0 <= a < self.l1@.len() && 0 <= b < 64 implies (
            #[trigger] bit_at(self.l1@[a], b) <==> (64 * a + b < self.l0@.len() && self.l0@[64 * a
                + b] != 0)) by {
                assert(bit_at(s0.l1@[a], b) <==> (64 * a + b < s0.l0@.len() && s0.l0@[64 * a + b]
                    != 0));
            }
        }
        if new1 != 0 {
            proof {
                let m = !(1u64 << k1);
                assert(old1 == 0 ==> old1 & m == 0) by (bit_vector);
                assert forall|a: int, b: int| 0 <= a < self.l2@.len() && 0 <= b < 64 implies (
                #[trigger] bit_at(self.l2@[a], b) <==> (64 * a + b < self.l1@.len() && self.l1@[64
                    * a + b] != 0)) by {
                    assert(bit_at(s0.l2@[a], b) <==> (64 * a + b < s0.l1@.len() && s0.l1@[64 * a
                        + b] != 0));
                }
            }
            return;
        }
        let word2 = word1 / 64;
        let k2 = (word1 % 64) as u64;
        let old2 = self.l2[word2];
        proof {
            lemma_bits_and_not(old2, k2);
        }
        self.l2.set(word2, old2 & !(1u64 << k2));
        proof {
            assert forall|a: int, b: int| 0 <= a < self.l2@.len() && 0 <= b < 64 implies (
            #[trigger] bit_at(self.l2@[a], b) <==> (64 * a + b < self.l1@.len() && self.l1@[64 * a
                + b] != 0)) by {
                assert(bit_at(s0.l2@[a], b) <==> (64 * a + b < s0.l1@.len() && s0.l1@[64 * a + b]
                    != 0));
            }
        }
    }
    /// The largest rank of the set below `index`, if any.
    pub fn prev(&self, index: usize) -> (r: Option<usize>)
        requires
            self.wf(),
            index < self.universe(),
        ensures
            r matches Some(p) ==> p < index && self.has(p as int) && self.none_in(p + 1, index as int),
            r is None ==> self.none_in(0, index as int),
    {
        let word0 = index / 64;
        let bit0 = (index % 64) as u64;
        proof {
            assert(0 < bit0 < 64 ==> (1u64 << bit0) >= 1) by (bit_vector);
        }
        let mask0 = if bit0 == 0 {
            0
        } else {
            (1u64 << bit0) - 1
        };
        let bits0 = self.l0[word0] & mask0;
        proof {
            lemma_bits_low(self.l0@[word0 as int], bit0);
            assert(mask0 == low_mask(bit0));
        }
        if bits0 != 0 {
            let hb = high_bit_index(bits0);
            proof {
                assert forall|j: int| word0 * 64 + hb + 1 <= j < index implies !#[trigger] self.has(j) by {
                    assert(j / 64 == word0);
                    assert(!bit_at(bits0, j % 64));
                }
            }
            return Some(word0 * 64 + hb);
        }
        proof {
            lemma_bits_all(0u64);
            assert forall|j: int| word0 * 64 <= j < index implies !#[trigger] self.has(j) by {
                assert(j / 64 == word0);
                assert(!bit_at(bits0, j % 64));
            }
        }
        let word1 = word0 / 64;
        let bit1 = (word0 % 64) as u64;
        proof {
            assert(0 < bit1 < 64 ==> (1u64 << bit1) >= 1) by (bit_vector);
        }
        let mask1 = if bit1 == 0 {
            0
        } else {
            (1u64 << bit1) - 1
        };
        let bits1 = self.l1[word1] & mask1;
        proof {
            lemma_bits_low(self.l1@[word1 as int], bit1);
            assert(mask1 == low_mask(bit1));
        }
        if bits1 != 0 {
            let hb1 = high_bit_index(bits1);
            let w = word1 * 64 + hb1;
            let bits = self.l0[w];
            proof {
                assert(bit_at(self.l1@[word1 as int], hb1 as int));
                lemma_nonzero_bit(bits);
            }
            let hb = high_bit_index(bits);
            proof {
                assert forall|b: int| hb1 + 1 <= b < bit1 implies !#[trigger] bit_at(
                    self.l1@[word1 as int],
                    b,
                ) by {
                    assert(!bit_at(bits1, b));
                }
                self.lemma_l1_clear(word1 as int, hb1 + 1, bit1 as int);
                assert forall|j: int| w * 64 + hb + 1 <= j < w * 64 + 64 implies !#[trigger] self.has(j) by {
                    assert(j / 64 == w);
                }
            }
            return Some(w * 64 + hb);
        }
        proof {
            lemma_bits_all(0u64);
            assert forall|b: int| 0 <= b < bit1 implies !#[trigger] bit_at(self.l1@[word1 as int], b) by {
                assert(!bit_at(bits1, b));
            }
            self.lemma_l1_clear(word1 as int, 0, bit1 as int);
        }
        let word2 = word1 / 64;
        let bit2 = (word1 % 64) as u64;
        proof {
            assert(0 < bit2 < 64 ==> (1u64 << bit2) >= 1) by (bit_vector);
        }
        let mask2 = if bit2 == 0 {
            0
        } else {
            (1u64 << bit2) - 1
        };
        proof {
            assert(mask2 == low_mask(bit2));
        }
        let mut level2 = word2 + 1;
        while level2 > 0
            invariant
                self.wf(),
                index < self.universe(),
                word1 == index / 4096,
                word2 == word1 / 64,
                bit2 == word1 % 64,
                mask2 == low_mask(bit2),
                level2 <= word2 + 1,
                self.none_in(
                    if level2 == word2 + 1 {
                        4096 * word1
                    } else {
                        262144 * level2
                    },
                    index as int,
                ),
            decreases level2,
        {
            level2 -= 1;
            let m = if level2 == word2 {
                mask2
            } else {
                u64::MAX
            };
            let bits2 = self.l2[level2] & m;
            proof {
                lemma_bits_low(self.l2@[level2 as int], bit2);
                lemma_bits_all(self.l2@[level2 as int]);
            }
            if bits2 != 0 {
                let hb2 = high_bit_index(bits2);
                let next1 = level2 * 64 + hb2;
                let bits1b = self.l1[next1];
                proof {
                    assert(bit_at(self.l2@[level2 as int], hb2 as int));
                    lemma_nonzero_bit(bits1b);
                }
                let hbb1 = high_bit_index(bits1b);
                let next0 = next1 * 64 + hbb1;
                let bits0b = self.l0[next0];
                proof {
                    lemma_nonzero_bit(bits0b);
                }
                let hbb0 = high_bit_index(bits0b);
                proof {
                    let top: int = if level2 == word2 { bit2 as int } else { 64 };
                    assert forall|b: int| hb2 + 1 <= b < top implies !#[trigger] bit_at(
                        self.l2@[level2 as int],
                        b,
                    ) by {
                        assert(!bit_at(bits2, b));
                    }
                    self.lemma_l2_clear(level2 as int, hb2 + 1, top);
                    self.lemma_l1_clear(next1 as int, hbb1 + 1, 64);
                    assert forall|j: int| next0 * 64 + hbb0 + 1 <= j < next0 * 64 + 64 implies !#[trigger] self.has(j) by {
                        assert(j / 64 == next0);
                    }
                }
                return Some(next0 * 64 + hbb0);
            }
            proof {
                lemma_bits_all(0u64);
                let top: int = if level2 == word2 { bit2 as int } else { 64 };
                assert forall|b: int| 0 <= b < top implies !#[trigger] bit_at(self.l2@[level2 as int], b) by {
                    assert(!bit_at(bits2, b));
                }
                self.lemma_l2_clear(level2 as int, 0, top);
            }
        }
        None
    }
    /// The smallest rank of the set above `index`, if any.
    pub fn next(&self, index: usize) -> (r: Option<usize>)
        requires
            self.wf(),
            index < self.universe(),
        ensures
            r matches Some(p) ==> index < p && self.has(p as int) && self.none_in(index + 1, p as int),
            r is None ==> self.none_in(index + 1, self.universe()),
    {
        let word0 = index / 64;
        let bit0 = (index % 64) as u64;
        let mask0 = if bit0 == 63 {
            0
        } else {
            u64::MAX << (bit0 + 1)
        };
        let bits0 = self.l0[word0] & mask0;
        proof {
            lemma_bits_high(self.l0@[word0 as int], bit0);
            assert(mask0 == high_mask(bit0));
        }
        if bits0 != 0 {
            let lb = low_bit_index(bits0);
            proof {
                assert forall|j: int| index + 1 <= j < word0 * 64 + lb implies !#[trigger] self.has(j) by {
                    assert(j / 64 == word0);
                    assert(!bit_at(bits0, j % 64));
                }
            }
            return Some(word0 * 64 + lb);
        }
        proof {
            lemma_bits_all(0u64);
            assert forall|j: int| index + 1 <= j < word0 * 64 + 64 implies !#[trigger] self.has(j) by {
                assert(j / 64 == word0);
                assert(!bit_at(bits0, j % 64));
            }
        }
        let word1 = word0 / 64;
        let bit1 = (word0 % 64) as u64;
        let mask1 = if bit1 == 63 {
            0
        } else {
            u64::MAX << (bit1 + 1)
        };
        let bits1 = self.l1[word1] & mask1;
        proof {
            lemma_bits_high(self.l1@[word1 as int], bit1);
            assert(mask1 == high_mask(bit1));
        }
        if bits1 != 0 {
            let lb1 = low_bit_index(bits1);
            let w = word1 * 64 + lb1;
            let bits = self.l0[w];
            proof {
                assert(bit_at(self.l1@[word1 as int], lb1 as int));
                lemma_nonzero_bit(bits);
            }
            let lb = low_bit_index(bits);
            proof {
                assert forall|b: int| bit1 + 1 <= b < lb1 implies !#[trigger] bit_at(
                    self.l1@[word1 as int],
                    b,
                ) by {
                    assert(!bit_at(bits1, b));
                }
                self.lemma_l1_clear(word1 as int, bit1 + 1, lb1 as int);
                assert forall|j: int| w * 64 <= j < w * 64 + lb implies !#[trigger] self.has(j) by {
                    assert(j / 64 == w);
                }
            }
            return Some(w * 64 + lb);
        }
        proof {
            lemma_bits_all(0u64);
            assert forall|b: int| bit1 + 1 <= b < 64 implies !#[trigger] bit_at(self.l1@[word1 as int], b) by {
                assert(!bit_at(bits1, b));
            }
            self.lemma_l1_clear(word1 as int, bit1 + 1, 64);
        }
        let word2 = word1 / 64;
        let bit2 = (word1 % 64) as u64;
        let mask2 = if bit2 == 63 {
            0
        } else {
            u64::MAX << (bit2 + 1)
        };
        proof {
            assert(mask2 == high_mask(bit2));
        }
        let l2_len = self.l2.len();
        let l1_len = self.l1.len();
        let l0_len = self.l0.len();
        let mut level2 = word2;
        while level2 < l2_len
            invariant
                self.wf(),
                l1_len == self.l1@.len(),
                l0_len == self.l0@.len(),
                index < self.universe(),
                l2_len == self.l2@.len(),
                word1 == index / 4096,
                word2 == word1 / 64,
                bit2 == word1 % 64,
                mask2 == high_mask(bit2),
                word2 <= level2 <= l2_len,
                self.none_in(
                    index + 1,
                    if level2 == word2 {
                        4096 * (word1 + 1)
                    } else {
                        262144 * level2
                    },
                ),
            decreases l2_len - level2,
        {
            let m = if level2 == word2 {
                mask2
            } else {
                u64::MAX
            };
            let bits2 = self.l2[level2] & m;
            proof {
                lemma_bits_high(self.l2@[level2 as int], bit2);
                lemma_bits_all(self.l2@[level2 as int]);
            }
            if bits2 != 0 {
                let lb2 = low_bit_index(bits2);
                proof {
                    assert(bit_at(self.l2@[level2 as int], lb2 as int));
                }
                let next1 = level2 * 64 + lb2;
                let bits1b = self.l1[next1];
                proof {
                    lemma_nonzero_bit(bits1b);
                }
                let lbb1 = low_bit_index(bits1b);
                proof {
                    assert(bit_at(self.l1@[next1 as int], lbb1 as int));
                }
                let next0 = next1 * 64 + lbb1;
                let bits0b = self.l0[next0];
                proof {
                    lemma_nonzero_bit(bits0b);
                }
                let lbb0 = low_bit_index(bits0b);
                proof {
                    let start: int = if level2 == word2 { bit2 + 1 } else { 0 };
                    assert forall|b: int| start <= b < lb2 implies !#[trigger] bit_at(
                        self.l2@[level2 as int],
                        b,
                    ) by {
                        assert(!bit_at(bits2, b));
                    }
                    self.lemma_l2_clear(level2 as int, start, lb2 as int);
                    self.lemma_l1_clear(next1 as int, 0, lbb1 as int);
                    assert forall|j: int| next0 * 64 <= j < next0 * 64 + lbb0 implies !#[trigger] self.has(j) by {
                        assert(j / 64 == next0);
                    }
                }
                return Some(next0 * 64 + lbb0);
            }
            proof {
                lemma_bits_all(0u64);
                let start: int = if level2 == word2 { bit2 + 1 } else { 0 };
                assert forall|b: int| start <= b < 64 implies !#[trigger] bit_at(self.l2@[level2 as int], b) by {
                    assert(!bit_at(bits2, b));
                }
                self.lemma_l2_clear(level2 as int, start, 64);
            }
            level2 += 1;
        }
        proof {
            assert(self.universe() <= 262144 * l2_len) by (nonlinear_arith)
                requires
                    self.universe() == 64 * self.l0@.len(),
                    self.l1@.len() == (self.l0@.len() + 63) / 64,
                    l2_len == (self.l1@.len() + 63) / 64,
            ;
        }
        None
    }
    /// Rebuilds the set over ranks below `len`, rounded up to whole words,
    /// holding the ranks `r` with `sa[r] < limit`.
    pub fn build(&mut self, sa: &[i32], len: usize, limit: u32)
        requires
            len <= sa.len(),
            len + 64 <= usize::MAX,
        ensures
            final(self).wf(),
            final(self).universe() == 64 * ((len + 63) / 64),
            forall|i: int| #[trigger] final(self).has(i) <==> (0 <= i < len && (sa@[i] as u32) < limit),
    {
        let n0 = (len + 63) / 64;
        self.l0.clear();
        self.l0.resize(n0, 0);
        let n1 = (n0 + 63) / 64;
        self.l1.clear();
        self.l1.resize(n1, 0);
        let n2 = (n1 + 63) / 64;
        self.l2.clear();
        self.l2.resize(n2, 0);
        proof {
            lemma_bits_all(0u64);
            assert(64 * n0 <= len + 63);
        }
        if limit == 0 {
            proof {
                assert forall|a: int, b: int| 0 <= a < self.l1@.len() && 0 <= b < 64 implies (
                #[trigger] bit_at(self.l1@[a], b) <==> (64 * a + b < self.l0@.len() && self.l0@[64
                    * a + b] != 0)) by {
                    assert(self.l1@[a] == 0u64);
                    if 64 * a + b < self.l0@.len() {
                        assert(self.l0@[64 * a + b] == 0u64);
                    }
                }
                assert forall|a: int, b: int| 0 <= a < self.l2@.len() && 0 <= b < 64 implies (
                #[trigger] bit_at(self.l2@[a], b) <==> (64 * a + b < self.l1@.len() && self.l1@[64
                    * a + b] != 0)) by {
                    assert(self.l2@[a] == 0u64);
                    if 64 * a + b < self.l1@.len() {
                        assert(self.l1@[64 * a + b] == 0u64);
                    }
                }
                assert forall|i: int| #[trigger] self.has(i) <==> (0 <= i < len && (sa@[i] as u32)
                    < limit) by {
                    if 0 <= i < self.universe() {
                        assert(self.l0@[i / 64] == 0u64);
                    }
                }
            }
            return;
        }
        let mut word: usize = 0;
        while word < n0
            invariant
                len <= sa.len(),
                len + 64 <= usize::MAX,
                n0 == (len + 63) / 64,
                64 * n0 <= len + 63,
                word <= n0,
                self.l0@.len() == n0,
                self.l1@.len() == n1,
                self.l2@.len() == n2,
                forall|a: int| 0 <= a < n1 ==> self.l1@[a] == 0u64,
                forall|a: int| 0 <= a < n2 ==> self.l2@[a] == 0u64,
                forall|w: int, b: int|
                    0 <= w < word && 0 <= b < 64 ==> (#[trigger] bit_at(self.l0@[w], b) <==> (64 * w
                        + b < len && (sa@[64 * w + b] as u32) < limit)),
                forall|w: int| word <= w < n0 ==> self.l0@[w] == 0u64,
            decreases n0 - word,
        {
            let base = word * 64;
            let top = if 64 < len - base {
                64
            } else {
                len - base
            };
            let mut bits = 0u64;
            let mut bit: usize = 0;
            proof {
                lemma_bits_all(0u64);
            }
            while bit < top
                invariant
                    top <= 64,
                    base + top <= len,
                    len <= sa.len(),
                    bit <= top,
                    forall|b: int| 0 <= b < 64 ==> (#[trigger] bit_at(bits, b) <==> (b < bit && (sa@[base
                        + b] as u32) < limit)),
                decreases top - bit,
            {
                proof {
                    lemma_bits_or(bits, bit as u64);
                }
                if (sa[base + bit] as u32) < limit {
                    bits = bits | (1u64 << (bit as u64));
                }
                bit += 1;
            }
            self.l0.set(word, bits);
            proof {
                assert forall|b: int| 0 <= b < 64 implies (#[trigger] bit_at(bits, b) <==> (64 * word
                    + b < len && (sa@[64 * word + b] as u32) < limit)) by {
                    if b >= top {
                        assert(64 * word + b >= len);
                    }
                }
            }
            word += 1;
        }
        let mut word: usize = 0;
        proof {
            lemma_bits_all(0u64);
        }
        while word < n0
            invariant
                word <= n0,
                self.l0@.len() == n0,
                n1 == (n0 + 63) / 64,
                self.l1@.len() == n1,
                self.l2@.len() == n2,
                forall|a: int| 0 <= a < n2 ==> self.l2@[a] == 0u64,
                forall|w: int, b: int|
                    0 <= w < n0 && 0 <= b < 64 ==> (#[trigger] bit_at(self.l0@[w], b) <==> (64 * w
                        + b < len && (sa@[64 * w + b] as u32) < limit)),

                forall|a: int, b: int|
                    0 <= a < n1 && 0 <= b < 64 ==> (#[trigger] bit_at(self.l1@[a], b) <==> (64 * a + b
                        < word && self.l0@[64 * a + b] != 0)),
            decreases n0 - word,
        {
            if self.l0[word] != 0 {
                let a = word / 64;
                let k = (word % 64) as u64;
                let old = self.l1[a];
                proof {
                    lemma_bits_or(old, k);
                }
                self.l1.set(a, old | (1u64 << k));
            }
            word += 1;
        }
        let mut word: usize = 0;
        proof {
            lemma_bits_all(0u64);
        }
        while word < n1
            invariant
                word <= n1,
                self.l0@.len() == n0,
                n1 == (n0 + 63) / 64,
                self.l1@.len() == n1,
                forall|a: int, b: int|
                    0 <= a < n1 && 0 <= b < 64 ==> (#[trigger] bit_at(self.l1@[a], b) <==> (64 * a + b
                        < n0 && self.l0@[64 * a + b] != 0)),
                forall|w: int, b: int|
                    0 <= w < n0 && 0 <= b < 64 ==> (#[trigger] bit_at(self.l0@[w], b) <==> (64 * w
                        + b < len && (sa@[64 * w + b] as u32) < limit)),

                n2 == (n1 + 63) / 64,
                self.l2@.len() == n2,
                forall|a: int, b: int|
                    0 <= a < n2 && 0 <= b < 64 ==> (#[trigger] bit_at(self.l2@[a], b) <==> (64 * a + b
                        < word && self.l1@[64 * a + b] != 0)),
            decreases n1 - word,
        {
            if self.l1[word] != 0 {
                let a = word / 64;
                let k = (word % 64) as u64;
                let old = self.l2[a];
                proof {
                    lemma_bits_or(old, k);
                }
                self.l2.set(a, old | (1u64 << k));
            }
            word += 1;
        }
        proof {
            assert forall|i: int| #[trigger] self.has(i) <==> (0 <= i < len && (sa@[i] as u32) < limit) by {
                if 0 <= i < self.universe() {
                    let w = i / 64;
                    let b = i % 64;
                    assert(bit_at(self.l0@[w], b) <==> (64 * w + b < len && (sa@[64 * w + b] as u32)
                        < limit));
                }
            }
        }
    }
}

} // verus!
