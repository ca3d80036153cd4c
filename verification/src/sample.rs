//! The weighted sampler: a weighted-random total order over a sequence.
//!
//! Each item receives one uniform draw `u` from the random source; the item
//! is ranked by an exponential-race key, a fixed-point rendering of
//! `-log2(u) / weight`, and the items are sorted by ascending key with ties
//! broken by input position.  An item's chance of an early position grows
//! with its weight; a weight of zero yields the largest possible key, so
//! such items always sort after every positively weighted one.  The order
//! is a pure function of the drawn words, so a seeded source reproduces it.

use vstd::prelude::*;

verus! {

use vstd::arithmetic::div_mod::{lemma_div_is_ordered, lemma_div_is_ordered_by_denominator};
use vstd::arithmetic::power2::{lemma2_to64, lemma_pow2_adds, lemma_pow2_strictly_increases, pow2};
use crate::rng::next_u64;

/// The 32 fraction bits, in fixed point, of `log2(m / 2^63)` for a
/// normalized mantissa `m`.
fn log2_frac(m0: u64) -> (frac: u64)
    requires
        m0 >= 0x8000_0000_0000_0000,
    ensures
        frac < 0x1_0000_0000,
{
    let mut m: u64 = m0;
    let mut frac: u64 = 0;
    let mut i: usize = 0;
    proof {
        lemma2_to64();
    }
    while i < 32
        invariant
            i <= 32,
            m >= 0x8000_0000_0000_0000,
            frac < pow2(i as nat),
        decreases 32 - i,
    {
        proof {
            assert((m as u128) * (m as u128) >= 0x4000_0000_0000_0000_0000_0000_0000_0000u128)
                by (nonlinear_arith)
                requires
                    m >= 0x8000_0000_0000_0000u64,
            ;
            assert((m as u128) * (m as u128) <= 0xFFFF_FFFF_FFFF_FFFF_FFFF_FFFF_FFFF_FFFFu128)
                by (nonlinear_arith)
                requires
                    m <= 0xFFFF_FFFF_FFFF_FFFFu64,
            ;
        }
        let sq: u128 = (m as u128) * (m as u128);
        let sq63: u128 = sq / 0x8000_0000_0000_0000u128;
        proof {
            lemma_div_is_ordered(
                0x4000_0000_0000_0000_0000_0000_0000_0000int,
                sq as int,
                0x8000_0000_0000_0000int,
            );
            lemma_div_is_ordered(
                sq as int,
                0xFFFF_FFFF_FFFF_FFFF_FFFF_FFFF_FFFF_FFFFint,
                0x8000_0000_0000_0000int,
            );
            assert(pow2((i + 1) as nat) == 2 * pow2(i as nat)) by {
                lemma_pow2_adds(1, i as nat);
                lemma2_to64();
            }
        }
        proof {
            if (i as nat) < 31 {
                lemma_pow2_strictly_increases(i as nat, 31);
            }
            lemma2_to64();
            assert(frac < 0x8000_0000);
        }
        if sq63 >= 0x1_0000_0000_0000_0000u128 {
            m = (sq63 / 2) as u64;
            frac = frac * 2 + 1;
        } else {
            m = sq63 as u64;
            frac = frac * 2;
        }
        i = i + 1;
    }
    proof {
        lemma2_to64();
    }
    frac
}

/// The negated base-2 logarithm of `u / 2^64`, in unsigned Q32 fixed
/// point: a value in `(0, 64]` scaled by `2^32`.  Larger draws give
/// smaller results.
fn neg_log2_q32(u: u64) -> (l: u64)
    requires
        u >= 1,
    ensures
        1 <= l <= 64 * 0x1_0000_0000,
{
    let mut m: u64 = u;
    let mut e: u64 = 0;
    proof {
        lemma2_to64();
    }
    while m < 0x8000_0000_0000_0000
        invariant
            m >= 1,
            e <= 63,
            m >= pow2(e as nat),
        decreases 64 - e,
    {
        proof {
            assert(pow2((e + 1) as nat) == 2 * pow2(e as nat)) by {
                lemma_pow2_adds(1, e as nat);
                lemma2_to64();
            }
            if e == 63 {
                lemma2_to64();
                assert(pow2(63) == 0x8000_0000_0000_0000);
                assert(false);
            }
        }
        m = m * 2;
        e = e + 1;
    }
    let frac = log2_frac(m);
    (e + 1) * 0x1_0000_0000 - frac
}

/// The sort key of one item: a fixed-point rendering of
/// `-log2(u) / weight`, or the maximum key when the weight is zero.
fn sort_key(u: u64, w: u128) -> (k: u128)
    requires
        u >= 1,
    ensures
        w == 0 ==> k == u128::MAX,
        w != 0 ==> k < u128::MAX,
{
    if w == 0 {
        u128::MAX
    } else {
        let l = neg_log2_q32(u);
        let num: u128 = (l as u128) * 0x1_0000_0000_0000_0000u128;
        proof {
            assert(num <= 0x100_0000_0000_0000_0000_0000_0000u128) by (nonlinear_arith)
                requires
                    num == (l as u128) * 0x1_0000_0000_0000_0000u128,
                    l <= 64 * 0x1_0000_0000u64,
            ;
            lemma_div_is_ordered_by_denominator(num as int, 1, w as int);
        }
        num / w
    }
}

/// Ascending order on `(key, position)` pairs: by key, ties by position.
pub open spec fn pair_le(a: (u128, usize), b: (u128, usize)) -> bool {
    a.0 < b.0 || (a.0 == b.0 && a.1 <= b.1)
}

/// A sequence of pairs sorted by `pair_le`.
pub open spec fn pairs_sorted(s: Seq<(u128, usize)>) -> bool {
    forall|i: int, j: int| 0 <= i <= j < s.len() ==> pair_le(#[trigger] s[i], #[trigger] s[j])
}

/// Inserts a pair into a sorted vector, keeping it sorted.
fn sorted_insert(out: &mut Vec<(u128, usize)>, p: (u128, usize))
    requires
        pairs_sorted(old(out)@),
    ensures
        pairs_sorted(final(out)@),
        final(out)@.to_multiset() == old(out)@.to_multiset().insert(p),
        final(out)@.len() == old(out)@.len() + 1,
{
    broadcast use vstd::seq_lib::group_to_multiset_ensures;

    let mut pos: usize = 0;
    while pos < out.len() && (out[pos].0 < p.0 || (out[pos].0 == p.0 && out[pos].1 <= p.1))
        invariant
            pos <= out@.len(),
            forall|i: int| 0 <= i < pos ==> pair_le(#[trigger] out@[i], p),
            pairs_sorted(out@),
            out@ == old(out)@,
        decreases out@.len() - pos,
    {
        pos = pos + 1;
    }
    proof {
        assert(pos == out@.len() || pair_le(p, out@[pos as int]));
    }
    let ghost prev = out@;
    out.insert(pos, p);
    proof {
        assert(out@ =~= prev.insert(pos as int, p));
        assert forall|i: int, j: int| 0 <= i <= j < out@.len() implies pair_le(
            #[trigger] out@[i],
            #[trigger] out@[j],
        ) by {
            if i < pos && j < pos {
                assert(out@[i] == prev[i] && out@[j] == prev[j]);
            } else if i < pos && j == pos {
                assert(out@[i] == prev[i]);
            } else if i < pos && j > pos {
                assert(out@[i] == prev[i] && out@[j] == prev[j - 1]);
                assert(pair_le(prev[i], prev[j - 1]));
            } else if i == pos && j > pos {
                assert(out@[j] == prev[j - 1]);
            } else if i > pos && j > pos {
                assert(out@[i] == prev[i - 1] && out@[j] == prev[j - 1]);
            }
        }
        assert(prev.insert(pos as int, p).to_multiset() =~= prev.to_multiset().insert(p)) by {
            assert(prev.insert(pos as int, p) =~= prev.take(pos as int).push(p) + prev.skip(
                pos as int,
            ));
            vstd::seq_lib::lemma_multiset_commutative(prev.take(pos as int).push(p), prev.skip(pos as int));
            vstd::seq_lib::lemma_multiset_commutative(prev.take(pos as int), prev.skip(pos as int));
            assert(prev.take(pos as int).push(p).to_multiset() =~= prev.take(
                pos as int,
            ).to_multiset().insert(p));
            assert(prev.take(pos as int) + prev.skip(pos as int) =~= prev);
        }
    }
}

/// An index permutation: every position below `n` appears exactly once.
pub open spec fn is_permutation(p: Seq<int>, n: int) -> bool {
    &&& p.len() == n
    &&& forall|k: int| 0 <= k < p.len() ==> 0 <= #[trigger] p[k] < n
    &&& forall|k1: int, k2: int| 0 <= k1 < k2 < p.len() ==> p[k1] != p[k2]
    &&& forall|j: int| 0 <= j < n ==> p.contains(j)
}

/// `r` rearranges `items` by the permutation `p`, and no zero-weight item
/// stands before a positively weighted one.
pub open spec fn is_shuffle_of<T>(
    r: Seq<T>,
    items: Seq<T>,
    weights: Seq<u128>,
    p: Seq<int>,
) -> bool {
    &&& is_permutation(p, items.len() as int)
    &&& r.len() == items.len()
    &&& forall|k: int| 0 <= k < r.len() ==> r[k] == items[#[trigger] p[k]]
    &&& forall|k1: int, k2: int|
        0 <= k1 < k2 < r.len() ==> !(weights[#[trigger] p[k1]] == 0 && weights[#[trigger] p[k2]]
            != 0)
}

/// Weighted-random shuffle: one uniform draw per item, one comparison sort.
/// The result is a permutation of `items`; items of weight zero always come
/// after every item of positive weight.
pub fn weighted_shuffle<T: Copy>(
    items: &Vec<T>,
    weights: &Vec<u128>,
    rng: &mut rand_xoshiro::Xoshiro256PlusPlus,
) -> (r: Vec<T>)
    requires
        weights@.len() == items@.len(),
    ensures
        exists|p: Seq<int>| is_shuffle_of(r@, items@, weights@, p),
{
    broadcast use vstd::seq_lib::group_to_multiset_ensures;

    let n = items.len();
    let mut pairs: Vec<(u128, usize)> = Vec::new();
    let mut i: usize = 0;
    while i < n
        invariant
            n == items@.len(),
            weights@.len() == n,
            i <= n,
            pairs@.len() == i,
            forall|t: int|
                0 <= t < i ==> (#[trigger] pairs@[t]).1 == t && (weights@[t] == 0 <==> pairs@[t].0
                    == u128::MAX),
        decreases n - i,
    {
        let raw = next_u64(rng);
        let u = if raw == 0 {
            1
        } else {
            raw
        };
        let k = sort_key(u, weights[i]);
        pairs.push((k, i));
        i = i + 1;
    }
    let mut sorted: Vec<(u128, usize)> = Vec::new();
    let mut i2: usize = 0;
    proof {
        assert(pairs@.take(0).to_multiset() =~= Seq::<(u128, usize)>::empty().to_multiset());
    }
    while i2 < n
        invariant
            n == pairs@.len(),
            i2 <= n,
            pairs_sorted(sorted@),
            sorted@.len() == i2,
            sorted@.to_multiset() == pairs@.take(i2 as int).to_multiset(),
        decreases n - i2,
    {
        let p = pairs[i2];
        sorted_insert(&mut sorted, p);
        proof {
            assert(pairs@.take(i2 + 1) =~= pairs@.take(i2 as int).push(p));
            vstd::seq_lib::to_multiset_build(pairs@.take(i2 as int), p);
            assert(pairs@.take(i2 as int).push(p).to_multiset() =~= pairs@.take(
                i2 as int,
            ).to_multiset().insert(p));
            assert(pairs@.take(i2 + 1).to_multiset() =~= pairs@.take(
                i2 as int,
            ).to_multiset().insert(p));
        }
        i2 = i2 + 1;
    }
    proof {
        assert(pairs@.take(n as int) =~= pairs@);
    }
    let ghost pairs_v = pairs@;
    let ghost sorted_v = sorted@;
    proof {
        assert forall|pos: int| 0 <= pos < n implies pairs_v.contains(#[trigger] sorted_v[pos])
            && sorted_v[pos] == pairs_v[sorted_v[pos].1 as int] && sorted_v[pos].1 < n by {
            assert(sorted_v.contains(sorted_v[pos]));
            assert(sorted_v.to_multiset().count(sorted_v[pos]) > 0);
            assert(pairs_v.contains(sorted_v[pos]));
            let t = choose|t: int| 0 <= t < pairs_v.len() && pairs_v[t] == sorted_v[pos];
            assert(pairs_v[t].1 == t);
        }
        assert forall|pos1: int, pos2: int| 0 <= pos1 < pos2 < n implies sorted_v[pos1].1 != sorted_v[pos2].1 by {
            if sorted_v[pos1].1 == sorted_v[pos2].1 {
                assert(sorted_v[pos1] == pairs_v[sorted_v[pos1].1 as int]);
                assert(sorted_v[pos2] == pairs_v[sorted_v[pos2].1 as int]);
                assert(sorted_v[pos1] == sorted_v[pos2]);
                assert forall|t1: int, t2: int| 0 <= t1 < t2 < pairs_v.len() implies pairs_v[t1]
                    != pairs_v[t2] by {
                    assert(pairs_v[t1].1 == t1 && pairs_v[t2].1 == t2);
                }
                pairs_v.lemma_multiset_has_no_duplicates();
                sorted_v.lemma_multiset_has_no_duplicates_conv();
            }
        }
    }
    let mut r: Vec<T> = Vec::new();
    let mut pos: usize = 0;
    while pos < n
        invariant
            n == items@.len(),
            n == sorted@.len(),
            sorted_v == sorted@,
            pos <= n,
            r@.len() == pos,
            forall|k: int| 0 <= k < n ==> (#[trigger] sorted_v[k]).1 < n,
            forall|k: int| 0 <= k < pos ==> #[trigger] r@[k] == items@[sorted_v[k].1 as int],
        decreases n - pos,
    {
        let idx = sorted[pos].1;
        r.push(items[idx]);
        pos = pos + 1;
    }
    let ghost p = Seq::new(n as nat, |k: int| sorted_v[k].1 as int);
    proof {
        assert forall|j: int| 0 <= j < n implies p.contains(j) by {
            assert(pairs_v[j] == (pairs_v[j].0, j as usize));
            assert(pairs_v.contains(pairs_v[j]));
            assert(pairs_v.to_multiset().count(pairs_v[j]) > 0);
            assert(sorted_v.contains(pairs_v[j]));
            let pos2 = choose|pos2: int|
                0 <= pos2 < sorted_v.len() && sorted_v[pos2] == pairs_v[j];
            assert(p[pos2] == j);
        }
        assert forall|k1: int, k2: int| 0 <= k1 < k2 < r@.len() implies !(weights@[
        #[trigger] p[k1]] == 0 && weights@[#[trigger] p[k2]] != 0) by {
            if weights@[p[k1]] == 0 && weights@[p[k2]] != 0 {
                assert(sorted_v[k1] == pairs_v[sorted_v[k1].1 as int]);
                assert(sorted_v[k2] == pairs_v[sorted_v[k2].1 as int]);
                assert(sorted_v[k1].0 == u128::MAX);
                assert(sorted_v[k2].0 != u128::MAX);
                assert(pair_le(sorted_v[k1], sorted_v[k2]));
            }
        }
        assert(is_shuffle_of(r@, items@, weights@, p));
    }
    r
}

} // verus!
