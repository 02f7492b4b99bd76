//! Suffix arrays, built by the `libsais` crate (or, where it reports an
//! error, by sorting the suffixes here), and their inverse permutation.
use vstd::prelude::*;
use libsais::{LibsaisError, SuffixArrayConstruction};

verus! {

/// The error `libsais` reports for a failed construction
/// (`libsais::LibsaisError`), carried without looking inside.
#[verifier::external_type_specification]
#[verifier::external_body]
pub struct ExLibsaisError(LibsaisError);

/// The suffix of `t` at `a` sorts before the suffix at `b`: after a common
/// prefix, the first one ends first or has the smaller byte.
pub open spec fn suffix_lt(t: Seq<u8>, a: int, b: int) -> bool {
    exists|k: int|
        0 <= k && (forall|j: int| 0 <= j < k ==> #[trigger] t[a + j] == t[b + j]) && ((a + k
            == t.len() && b + k < t.len()) || (a + k < t.len() && b + k < t.len() && #[trigger] t[a
            + k] < t[b + k]))
}

/// Position `p` occurs in `sa`.
pub open spec fn sa_has(sa: Seq<i32>, p: int) -> bool {
    exists|i: int| 0 <= i < sa.len() && #[trigger] sa[i] == p
}

/// Every position of `t` occurs in `sa`, and `sa` holds positions of `t`
/// only.
pub open spec fn sa_covers(t: Seq<u8>, sa: Seq<i32>) -> bool {
    &&& sa.len() == t.len()
    &&& forall|i: int| 0 <= i < sa.len() ==> 0 <= #[trigger] sa[i] < t.len()
    &&& forall|p: int| 0 <= p < t.len() ==> #[trigger] sa_has(sa, p)
}

/// The suffixes of `t` at the positions of `sa` are in strictly increasing
/// order.
pub open spec fn sa_sorted(t: Seq<u8>, sa: Seq<i32>) -> bool {
    forall|i: int, j: int| 0 <= i < j < sa.len() ==> suffix_lt(t, #[trigger] sa[i] as int, #[trigger] sa[j] as int)
}

/// No suffix sorts before itself.
proof fn lemma_suffix_lt_irreflexive(t: Seq<u8>, a: int)
    ensures
        !suffix_lt(t, a, a),
{
}

/// The positions of a sorted suffix array are pairwise distinct.
proof fn lemma_sa_distinct(t: Seq<u8>, sa: Seq<i32>)
    requires
        sa_sorted(t, sa),
    ensures
        forall|i: int, j: int| 0 <= i < sa.len() && 0 <= j < sa.len() && i != j ==> sa[i] != sa[j],
{
    assert forall|i: int, j: int| 0 <= i < sa.len() && 0 <= j < sa.len() && i != j implies sa[i]
        != sa[j] by {
        if i < j {
            assert(suffix_lt(t, sa[i] as int, sa[j] as int));
            lemma_suffix_lt_irreflexive(t, sa[i] as int);
        } else {
            assert(suffix_lt(t, sa[j] as int, sa[i] as int));
            lemma_suffix_lt_irreflexive(t, sa[j] as int);
        }
    }
}

/// Builds the suffix array of `input` in `sa` with `libsais`
/// (`SuffixArrayConstruction::for_text(..).in_borrowed_buffer(..)
/// .single_threaded().run()`). On success the crate
/// documents `sa` as the suffix array: every position once, in the sorted
/// order of the suffixes that start there, a suffix that ends first sorting
/// first. The crate panics when the text is longer than `i32::MAX`, so that
/// input is left out. Nothing is said of `sa` after an error.
#[verifier::external_body]
fn build_suffix_array(input: &[u8], sa: &mut [i32]) -> (r: Result<(), LibsaisError>)
    requires
        old(sa).len() == input.len(),
        input.len() <= i32::MAX,
    ensures
        final(sa).len() == input.len(),
        r is Ok ==> sa_covers(input@, final(sa)@) && sa_sorted(input@, final(sa)@),
{
    match SuffixArrayConstruction::for_text(input).in_borrowed_buffer(sa).single_threaded().run() {
        Ok(_) => Ok(()),
        Err(e) => Err(e),
    }
}

/// `sa` and `rank` are permutations of `0..sa.len()`, each the inverse of
/// the other.
pub open spec fn rank_inverse(sa: Seq<i32>, rank: Seq<u32>) -> bool {
    &&& rank.len() == sa.len()
    &&& forall|r: int| 0 <= r < sa.len() ==> 0 <= #[trigger] sa[r] < sa.len() && rank[sa[r] as int] == r
    &&& forall|p: int| 0 <= p < sa.len() ==> #[trigger] rank[p] < sa.len() && sa[rank[p] as int] == p
}

/// `sa` is the suffix array of `t` and `rank` its inverse permutation.
pub open spec fn sa_rank_ok(t: Seq<u8>, sa: Seq<i32>, rank: Seq<u32>) -> bool {
    &&& sa.len() == t.len()
    &&& rank_inverse(sa, rank)
}

/// Builds the suffix array of `input` in `sa` and its inverse in `rank`.
/// Returns `false`, with nothing promised of `sa` and `rank`, when `libsais`
/// reports an error; an empty input needs no work.
pub fn suffix_array_with_rank(input: &[u8], sa: &mut [i32], rank: &mut [u32]) -> (ok: bool)
    requires
        old(sa).len() == input.len(),
        old(rank).len() == input.len(),
        input.len() <= i32::MAX,
    ensures
        final(sa).len() == input.len(),
        final(rank).len() == input.len(),
        ok ==> sa_rank_ok(input@, final(sa)@, final(rank)@) && sa_sorted(input@, final(sa)@),
        input.len() == 0 ==> ok,
{
    if input.len() == 0 {
        return true;
    }
    match build_suffix_array(input, sa) {
        Ok(()) => {},
        Err(_) => {
            return false;
        },
    }
    fill_rank(input, sa, rank);
    true
}

/// Fills `rank` with the inverse of the suffix array `sa` of `input`.
fn fill_rank(input: &[u8], sa: &[i32], rank: &mut [u32])
    requires
        sa.len() == input.len(),
        old(rank).len() == input.len(),
        input.len() <= i32::MAX,
        sa_covers(input@, sa@),
        sa_sorted(input@, sa@),
    ensures
        final(rank).len() == input.len(),
        sa_rank_ok(input@, sa@, final(rank)@),
{
    proof {
        lemma_sa_distinct(input@, sa@);
    }
    let len = sa.len();
    let mut i: usize = 0;
    while i < len
        invariant
            i <= len,
            len == sa.len(),
            len == input.len(),
            len <= i32::MAX,
            rank.len() == len,
            sa_covers(input@, sa@),
            sa_sorted(input@, sa@),
            forall|a: int, b: int| 0 <= a < len && 0 <= b < len && a != b ==> sa[a] != sa[b],
            forall|k: int| 0 <= k < i ==> #[trigger] rank[sa[k] as int] == k,
        decreases len - i,
    {
        let pos = sa[i];
        rank[pos as usize] = i as u32;
        proof {
            assert forall|k: int| 0 <= k < i + 1 implies #[trigger] rank[sa[k] as int] == k by {
                if k < i {
                    assert(sa[k] != sa[i as int]);
                }
            }
        }
        i = i + 1;
    }
    proof {
        assert forall|p: int| 0 <= p < input.len() implies #[trigger] rank[p] < input.len()
            && sa[rank[p] as int] == p by {
            assert(sa_has(sa@, p));
            let k = choose|k: int| 0 <= k < sa.len() && #[trigger] sa[k] == p;
            assert(rank[sa[k] as int] == k);
        }
    }
}

/// The suffix at `a` sorts before the one at `b` with witness `k`: they
/// agree over `k` bytes, after which the one at `a` ends first or has the
/// smaller byte.
pub open spec fn suffix_lt_at(t: Seq<u8>, a: int, b: int, k: int) -> bool {
    &&& 0 <= k
    &&& forall|j: int| 0 <= j < k ==> #[trigger] t[a + j] == t[b + j]
    &&& ((a + k == t.len() && b + k < t.len()) || (a + k < t.len() && b + k < t.len() && t[a + k]
        < t[b + k]))
}

/// A witness makes one suffix sort before the other.
proof fn lemma_suffix_lt_from(t: Seq<u8>, a: int, b: int, k: int)
    requires
        suffix_lt_at(t, a, b, k),
    ensures
        suffix_lt(t, a, b),
{
    assert(t[a + k] == t[a + k] && t[b + k] == t[b + k]);
    assert(forall|j: int| 0 <= j < k ==> #[trigger] t[a + j] == t[b + j]);
    assert((a + k == t.len() && b + k < t.len()) || (a + k < t.len() && b + k < t.len() && t[a + k] < t[b + k]));
    assert(exists|kk: int|
        0 <= kk && (forall|j: int| 0 <= j < kk ==> #[trigger] t[a + j] == t[b + j]) && ((a + kk
            == t.len() && b + kk < t.len()) || (a + kk < t.len() && b + kk < t.len() && #[trigger] t[a
            + kk] < t[b + kk])));
}

/// Suffix order is transitive.
pub proof fn lemma_suffix_lt_trans(t: Seq<u8>, a: int, b: int, c: int)
    requires
        suffix_lt(t, a, b),
        suffix_lt(t, b, c),
    ensures
        suffix_lt(t, a, c),
{
    let k1 = choose|k: int|
        0 <= k && (forall|j: int| 0 <= j < k ==> #[trigger] t[a + j] == t[b + j]) && ((a + k
            == t.len() && b + k < t.len()) || (a + k < t.len() && b + k < t.len() && #[trigger] t[a
            + k] < t[b + k]));
    let k2 = choose|k: int|
        0 <= k && (forall|j: int| 0 <= j < k ==> #[trigger] t[b + j] == t[c + j]) && ((b + k
            == t.len() && c + k < t.len()) || (b + k < t.len() && c + k < t.len() && #[trigger] t[b
            + k] < t[c + k]));
    let k = if k1 < k2 {
        k1
    } else {
        k2
    };
    assert forall|j: int| 0 <= j < k implies #[trigger] t[a + j] == t[c + j] by {
        assert(t[a + j] == t[b + j]);
        assert(t[b + j] == t[c + j]);
    }
    if k1 < k2 {
        assert(t[b + k1] == t[c + k1]);
    } else if k2 < k1 {
        assert(t[a + k2] == t[b + k2]);
    }
    lemma_suffix_lt_from(t, a, c, k);
}

/// Compares the suffixes of `t` at two distinct positions: `true` when the
/// one at `a` sorts first, `false` when the one at `b` does.
fn suffix_less(t: &[u8], a: usize, b: usize) -> (r: bool)
    requires
        a < t.len(),
        b < t.len(),
        a != b,
    ensures
        r ==> suffix_lt(t@, a as int, b as int),
        !r ==> suffix_lt(t@, b as int, a as int),
{
    let n = t.len();
    let mut k: usize = 0;
    while a + k < n && b + k < n && t[a + k] == t[b + k]
        invariant
            n == t.len(),
            a < n,
            b < n,
            a + k <= n,
            b + k <= n,
            forall|j: int| 0 <= j < k ==> #[trigger] t@[a + j] == t@[b + j],
        decreases n - a - k,
    {
        k += 1;
    }
    proof {
        assert forall|j: int| 0 <= j < k implies #[trigger] t@[b + j] == t@[a + j] by {
            assert(t@[a + j] == t@[b + j]);
        }
    }
    if a + k == n {
        proof {
            lemma_suffix_lt_from(t@, a as int, b as int, k as int);
        }
        true
    } else if b + k == n {
        proof {
            lemma_suffix_lt_from(t@, b as int, a as int, k as int);
        }
        false
    } else if t[a + k] < t[b + k] {
        proof {
            lemma_suffix_lt_from(t@, a as int, b as int, k as int);
        }
        true
    } else {
        proof {
            lemma_suffix_lt_from(t@, b as int, a as int, k as int);
        }
        false
    }
}

/// Sorts the suffixes of `t` into `sa` by inserting each position into
/// the sorted positions before it.
fn sort_suffixes(t: &[u8], sa: &mut [i32])
    requires
        old(sa).len() == t.len(),
        t.len() <= i32::MAX,
    ensures
        final(sa).len() == t.len(),
        sa_covers(t@, final(sa)@),
        sa_sorted(t@, final(sa)@),
{
    let n = t.len();
    let mut v: Vec<i32> = Vec::new();
    let mut i: usize = 0;
    while i < n
        invariant
            i <= n,
            n == t.len(),
            n <= i32::MAX,
            v.len() == i,
            forall|j: int| 0 <= j < v.len() ==> 0 <= #[trigger] v@[j] < i,
            forall|p: int| 0 <= p < i ==> #[trigger] sa_has(v@, p),
            sa_sorted(t@, v@),
        decreases n - i,
    {
        let mut q: usize = i;
        loop
            invariant
                q <= i,
                i < n,
                n == t.len(),
                v.len() == i,
                forall|j: int| 0 <= j < v.len() ==> 0 <= #[trigger] v@[j] < i,
                forall|j: int| q <= j < i ==> suffix_lt(t@, i as int, #[trigger] v@[j] as int),
            ensures
                q <= i,
                forall|j: int| q <= j < i ==> suffix_lt(t@, i as int, #[trigger] v@[j] as int),
                q == 0 || suffix_lt(t@, v@[q - 1] as int, i as int),
            decreases q,
        {
            if q == 0 {
                break;
            }
            if suffix_less(t, i, v[q - 1] as usize) {
                q -= 1;
            } else {
                break;
            }
        }
        let ghost old_v = v@;
        v.insert(q, i as i32);
        proof {
            let nv = v@;
            assert(nv == old_v.insert(q as int, i as i32));
            assert forall|x: int, y: int| 0 <= x < y < nv.len() implies suffix_lt(
                t@,
                #[trigger] nv[x] as int,
                #[trigger] nv[y] as int,
            ) by {
                if y < q {
                    assert(nv[x] == old_v[x] && nv[y] == old_v[y]);
                } else if y == q {
                    assert(nv[x] == old_v[x]);
                    if x < q - 1 {
                        assert(suffix_lt(t@, old_v[x] as int, old_v[q - 1] as int));
                        lemma_suffix_lt_trans(t@, old_v[x] as int, old_v[q - 1] as int, i as int);
                    }
                } else if x < q {
                    assert(nv[x] == old_v[x] && nv[y] == old_v[y - 1]);
                } else if x == q {
                    assert(nv[y] == old_v[y - 1]);
                } else {
                    assert(nv[x] == old_v[x - 1] && nv[y] == old_v[y - 1]);
                }
            }
            assert forall|p: int| 0 <= p < i + 1 implies #[trigger] sa_has(nv, p) by {
                if p == i {
                    assert(nv[q as int] == p);
                } else {
                    assert(sa_has(old_v, p));
                    let j = choose|j: int| 0 <= j < old_v.len() && #[trigger] old_v[j] == p;
                    if j < q {
                        assert(nv[j] == p);
                    } else {
                        assert(nv[j + 1] == p);
                    }
                }
            }
            assert forall|j: int| 0 <= j < nv.len() implies 0 <= #[trigger] nv[j] < i + 1 by {
                if j < q {
                    assert(nv[j] == old_v[j]);
                } else if j > q {
                    assert(nv[j] == old_v[j - 1]);
                }
            }
        }
        i += 1;
    }
    let mut j: usize = 0;
    while j < n
        invariant
            j <= n,
            n == t.len(),
            sa.len() == n,
            v.len() == n,
            forall|k: int| 0 <= k < j ==> sa@[k] == v@[k],
        decreases n - j,
    {
        sa[j] = v[j];
        j += 1;
    }
    proof {
        assert(sa@ =~= v@);
    }
}

/// Builds the suffix array of `input` in `sa` and its inverse in `rank`
/// with `libsais`; where `libsais` reports an error, the suffixes are
/// sorted here instead, so the result is the suffix array either way.
pub fn sorted_suffix_array(input: &[u8], sa: &mut [i32], rank: &mut [u32])
    requires
        old(sa).len() == input.len(),
        old(rank).len() == input.len(),
        input.len() <= i32::MAX,
    ensures
        final(sa).len() == input.len(),
        final(rank).len() == input.len(),
        sa_rank_ok(input@, final(sa)@, final(rank)@),
        sa_sorted(input@, final(sa)@),
{
    if !suffix_array_with_rank(input, sa, rank) {
        sort_suffixes(input, sa);
        fill_rank(input, sa, rank);
    }
}

/// The suffix array of a text is unique: two arrays that each hold every
/// position of `t` once, in the sorted order of its suffixes, are equal.
pub proof fn lemma_sa_unique(t: Seq<u8>, sa1: Seq<i32>, sa2: Seq<i32>)
    requires
        sa_covers(t, sa1),
        sa_sorted(t, sa1),
        sa_covers(t, sa2),
        sa_sorted(t, sa2),
    ensures
        sa1 == sa2,
{
    if sa1.len() > 0 {
        lemma_sa_agree(t, sa1, sa2, sa1.len() - 1);
    }
    assert(sa1 =~= sa2);
}

/// Two sorted suffix arrays of `t` agree up to index `i`.
proof fn lemma_sa_agree(t: Seq<u8>, sa1: Seq<i32>, sa2: Seq<i32>, i: int)
    requires
        sa_covers(t, sa1),
        sa_sorted(t, sa1),
        sa_covers(t, sa2),
        sa_sorted(t, sa2),
        0 <= i < sa1.len(),
    ensures
        forall|j: int| 0 <= j <= i ==> #[trigger] sa1[j] == sa2[j],
    decreases i,
{
    if i > 0 {
        lemma_sa_agree(t, sa1, sa2, i - 1);
    }
    lemma_sa_distinct(t, sa1);
    lemma_sa_distinct(t, sa2);
    let a = sa1[i];
    let b = sa2[i];
    if a != b {
        assert(sa_has(sa2, a as int));
        let j = choose|j: int| 0 <= j < sa2.len() && #[trigger] sa2[j] == a;
        if j < i {
            assert(sa1[j] == sa2[j]);
        }
        assert(j > i);
        assert(suffix_lt(t, sa2[i] as int, sa2[j] as int));
        assert(sa_has(sa1, b as int));
        let k = choose|k: int| 0 <= k < sa1.len() && #[trigger] sa1[k] == b;
        if k < i {
            assert(sa1[k] == sa2[k]);
        }
        assert(k > i);
        assert(suffix_lt(t, sa1[i] as int, sa1[k] as int));
        lemma_suffix_lt_trans(t, a as int, b as int, a as int);
        lemma_suffix_lt_irreflexive(t, a as int);
    }
}

/// A suffix array and its inverse that `sa_rank_ok` and `sa_sorted` accept
/// are the suffix array of `t` and its inverse: any two such pairs are equal.
pub proof fn lemma_sa_rank_unique(t: Seq<u8>, sa1: Seq<i32>, rank1: Seq<u32>, sa2: Seq<i32>, rank2: Seq<u32>)
    requires
        sa_rank_ok(t, sa1, rank1),
        sa_sorted(t, sa1),
        sa_rank_ok(t, sa2, rank2),
        sa_sorted(t, sa2),
    ensures
        sa1 == sa2,
        rank1 == rank2,
{
    lemma_rank_covers(t, sa1, rank1);
    lemma_rank_covers(t, sa2, rank2);
    lemma_sa_unique(t, sa1, sa2);
    assert forall|p: int| 0 <= p < rank1.len() implies rank1[p] == rank2[p] by {
        let r2 = rank2[p] as int;
        assert(sa2[r2] == p);
        assert(rank1[sa1[r2] as int] == r2);
    }
    assert(rank1 =~= rank2);
}

/// A suffix array with an inverse holds every position of the text once.
proof fn lemma_rank_covers(t: Seq<u8>, sa: Seq<i32>, rank: Seq<u32>)
    requires
        sa_rank_ok(t, sa, rank),
    ensures
        sa_covers(t, sa),
{
    assert forall|p: int| 0 <= p < t.len() implies #[trigger] sa_has(sa, p) by {
        assert(sa[rank[p] as int] == p);
    }
}

} // verus!
