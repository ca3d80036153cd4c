//! The priority partitioner and the diagonal enumerator.
//!
//! `split` divides a sequence into `n` contiguous, order-preserving chunks
//! whose lengths differ by at most one.  `multi_cartesian_diagonal`
//! enumerates every index tuple of an n-dimensional box exactly once, in
//! non-decreasing order of coordinate sum, so that combinations of
//! top-ranked entries are tried before less preferred ones.

use vstd::prelude::*;

verus! {

use vstd::arithmetic::div_mod::lemma_fundamental_div_mod;

/// The element-level views of a sequence of vectors.
pub open spec fn views_of<T>(r: Seq<Vec<T>>) -> Seq<Seq<T>> {
    r.map_values(|v: Vec<T>| v@)
}

/// Greedy chunking into `k` contiguous chunks: `rem` leading chunks of
/// length `q + 1`, then chunks of length `q`; once the sequence is
/// exhausted the surplus chunks are empty.
pub open spec fn split_rec<T>(s: Seq<T>, q: nat, rem: nat, k: nat) -> Seq<Seq<T>>
    decreases k,
{
    if k == 0 {
        Seq::empty()
    } else {
        let l: nat = if rem > 0 {
            q + 1
        } else {
            q
        };
        seq![s.take(l as int)] + split_rec(
            s.skip(l as int),
            q,
            if rem > 0 {
                (rem - 1) as nat
            } else {
                0nat
            },
            (k - 1) as nat,
        )
    }
}

/// The partition of `s` into exactly `n` contiguous chunks: lengths are
/// `s.len() / n` or one more, the longer chunks standing first; when fewer
/// items than chunks exist, the trailing chunks are empty.
pub open spec fn split_spec<T>(s: Seq<T>, n: nat) -> Seq<Seq<T>>
    recommends
        n >= 1,
{
    split_rec(s, s.len() / n, s.len() % n, n)
}

/// `split_rec` on a sequence of length `q * k + rem` yields `k` chunks of
/// the stated lengths that concatenate back to the sequence.
proof fn lemma_split_rec_props<T>(s: Seq<T>, q: nat, rem: nat, k: nat)
    requires
        s.len() == q * k + rem,
        rem <= k,
    ensures
        split_rec(s, q, rem, k).len() == k,
        forall|i: int|
            0 <= i < k ==> (#[trigger] split_rec(s, q, rem, k)[i]).len() == q + if i < rem {
                1int
            } else {
                0int
            },
        split_rec(s, q, rem, k).flatten() == s,
    decreases k,
{
    let r = split_rec(s, q, rem, k);
    if k == 0 {
        assert(rem == 0);
        assert(q * 0 == 0) by (nonlinear_arith);
        assert(s =~= Seq::<T>::empty());
        assert(r.flatten() =~= s);
    } else {
        let l: nat = if rem > 0 {
            q + 1
        } else {
            q
        };
        if rem > 0 {
            assert(q <= q * k) by (nonlinear_arith)
                requires
                    k >= 1,
                    q >= 0,
            ;
        } else {
            assert(q <= q * k) by (nonlinear_arith)
                requires
                    k >= 1,
                    q >= 0,
            ;
        }
        assert(l <= s.len());
        let rest = s.skip(l as int);
        let rem2: nat = if rem > 0 {
            (rem - 1) as nat
        } else {
            0nat
        };
        assert(rest.len() == q * (k - 1) + rem2) by (nonlinear_arith)
            requires
                s.len() == q * k + rem,
                rest.len() == s.len() - l,
                l == if rem > 0 {
                    q + 1
                } else {
                    q
                },
                rem2 == if rem > 0 {
                    (rem - 1) as int
                } else {
                    0int
                },
                k >= 1,
        ;
        lemma_split_rec_props(rest, q, rem2, (k - 1) as nat);
        let tail = split_rec(rest, q, rem2, (k - 1) as nat);
        assert(r =~= seq![s.take(l as int)] + tail);
        assert forall|i: int| 0 <= i < k implies (#[trigger] r[i]).len() == q + if i < rem {
            1int
        } else {
            0int
        } by {
            if i == 0 {
                assert(r[0] == s.take(l as int));
            } else {
                assert(r[i] == tail[i - 1]);
            }
        }
        assert((seq![s.take(l as int)] + tail).flatten() =~= s.take(l as int) + tail.flatten()) by {
            vstd::seq_lib::lemma_flatten_concat(seq![s.take(l as int)], tail);
            seq![s.take(l as int)].lemma_flatten_one_element();
        }
        assert(s.take(l as int) + rest =~= s);
    }
}

/// The chunk count, chunk lengths, and the concatenation identity of
/// `split_spec`.
pub proof fn lemma_split_spec_props<T>(s: Seq<T>, n: nat)
    requires
        n >= 1,
    ensures
        split_spec(s, n).len() == n,
        forall|i: int|
            0 <= i < split_spec(s, n).len() ==> (#[trigger] split_spec(s, n)[i]).len() == s.len()
                / n + if i < s.len() % n {
                1int
            } else {
                0int
            },
        split_spec(s, n).flatten() == s,
        s.len() >= n ==> s.len() / n >= 1,
{
    let q = s.len() / n;
    let rem = s.len() % n;
    lemma_fundamental_div_mod(s.len() as int, n as int);
    assert(q == (s.len() as int) / (n as int));
    assert(rem == (s.len() as int) % (n as int));
    assert(q * n == n * q) by (nonlinear_arith);
    assert(s.len() == q * n + rem);
    lemma_split_rec_props(s, q, rem, n);
    if s.len() >= n {
        assert(q >= 1) by (nonlinear_arith)
            requires
                s.len() == q * n + rem,
                rem < n,
                s.len() >= n,
                q >= 0,
        ;
    }
}

/// The partition law: the partition has exactly `n` chunks, they
/// concatenate back to the sequence in order, and any two chunk lengths
/// differ by at most one.
pub proof fn lemma_partition_law<T>(s: Seq<T>, n: nat)
    requires
        n >= 1,
    ensures
        split_spec(s, n).len() == n,
        split_spec(s, n).flatten() == s,
        forall|i: int, j: int|
            0 <= i < split_spec(s, n).len() && 0 <= j < split_spec(s, n).len() ==> (
            #[trigger] split_spec(s, n)[i]).len() <= (#[trigger] split_spec(s, n)[j]).len() + 1,
{
    lemma_split_spec_props(s, n);
}

/// Splits `items` into exactly `n` contiguous chunks preserving order;
/// chunk lengths are `len / n` or `len / n + 1`, the extra element going
/// to the first `len % n` chunks.  When fewer than `n` items exist, each
/// item forms a chunk of its own and the trailing chunks are empty.
pub fn split<T: Copy>(items: &Vec<T>, n: usize) -> (r: Vec<Vec<T>>)
    requires
        n >= 1,
    ensures
        views_of(r@) == split_spec(items@, n as nat),
        r@.len() == n,
{
    let len = items.len();
    let q = len / n;
    let mut rem = len % n;
    let mut r: Vec<Vec<T>> = Vec::new();
    let mut pos: usize = 0;
    let mut c: usize = 0;
    proof {
        lemma_fundamental_div_mod(len as int, n as int);
        assert(items@.skip(0) =~= items@);
        assert(views_of(r@) =~~= Seq::<Seq<T>>::empty());
    }
    while c < n
        invariant
            len == items@.len(),
            q as nat == items@.len() / (n as nat),
            c <= n,
            pos <= len,
            rem <= n - c,
            len - pos == q * (n - c) + rem,
            r@.len() == c,
            views_of(r@) + split_rec(
                items@.skip(pos as int),
                q as nat,
                rem as nat,
                (n - c) as nat,
            ) == split_spec(items@, n as nat),
        decreases n - c,
    {
        proof {
            if rem > 0 {
                assert(q + rem <= len - pos) by (nonlinear_arith)
                    requires
                        len - pos == q * (n - c) + rem,
                        n - c >= rem,
                        rem >= 1,
                        q >= 0,
                ;
            } else {
                assert(q <= q * (n - c)) by (nonlinear_arith)
                    requires
                        q >= 0,
                        n - c >= 1,
                ;
            }
        }
        let l: usize = if rem > 0 {
            q + 1
        } else {
            q
        };
        proof {
            assert(l <= len - pos);
        }
        let mut chunk: Vec<T> = Vec::new();
        let mut kk: usize = 0;
        while kk < l
            invariant
                pos + l <= len,
                len == items@.len(),
                kk <= l,
                chunk@ == items@.subrange(pos as int, pos + kk),
            decreases l - kk,
        {
            chunk.push(items[pos + kk]);
            proof {
                assert(items@.subrange(pos as int, pos + kk + 1) =~= items@.subrange(
                    pos as int,
                    pos + kk,
                ).push(items@[pos + kk]));
            }
            kk = kk + 1;
        }
        proof {
            let sk = items@.skip(pos as int);
            assert(sk.take(l as int) =~= items@.subrange(pos as int, pos + l));
            assert(sk.skip(l as int) =~= items@.skip(pos + l));
            assert(split_rec(sk, q as nat, rem as nat, (n - c) as nat) == seq![chunk@]
                + split_rec(
                items@.skip(pos + l),
                q as nat,
                if rem > 0 {
                    (rem - 1) as nat
                } else {
                    0nat
                },
                (n - c - 1) as nat,
            ));
        }
        let ghost old_views = views_of(r@);
        r.push(chunk);
        proof {
            assert(views_of(r@) =~~= old_views + seq![chunk@]);
            assert(old_views + seq![chunk@] + split_rec(
                items@.skip(pos + l),
                q as nat,
                if rem > 0 {
                    (rem - 1) as nat
                } else {
                    0nat
                },
                (n - c - 1) as nat,
            ) =~~= split_spec(items@, n as nat));
            assert((len - pos) - l == q * ((n - c) - 1) + (if rem > 0 {
                (rem - 1) as int
            } else {
                0int
            })) by (nonlinear_arith)
                requires
                    len - pos == q * (n - c) + rem,
                    l == if rem > 0 {
                        (q + 1) as int
                    } else {
                        q as int
                    },
                    n - c >= 1,
            ;
        }
        pos = pos + l;
        if rem > 0 {
            rem = rem - 1;
        }
        c = c + 1;
    }
    proof {
        assert(split_rec(items@.skip(pos as int), q as nat, rem as nat, 0nat) =~= Seq::<
            Seq<T>,
        >::empty());
        assert(views_of(r@) =~~= split_spec(items@, n as nat));
    }
    r
}

/// The sum of a tuple's coordinates.
pub open spec fn tuple_sum(t: Seq<usize>) -> int
    decreases t.len(),
{
    if t.len() == 0 {
        0
    } else {
        t[0] + tuple_sum(t.drop_first())
    }
}

/// `h` prepended to every tuple of `ts`.
pub open spec fn prepend_all(h: usize, ts: Seq<Seq<usize>>) -> Seq<Seq<usize>> {
    ts.map_values(|t: Seq<usize>| seq![h] + t)
}

/// The tuples of the box `dims` whose coordinates sum to `s` and whose
/// coordinates past the first sum to less than `jn`, ordered by ascending
/// tail sum; with a single dimension, just the tuple `[s]` when it fits.
pub open spec fn diag_upto_j(s: int, jn: int, dims: Seq<usize>) -> Seq<Seq<usize>>
    decreases dims.len(), jn,
{
    if dims.len() == 0 || jn <= 0 || s < 0 {
        Seq::empty()
    } else if dims.len() == 1 {
        if s < dims[0] {
            seq![seq![s as usize]]
        } else {
            Seq::empty()
        }
    } else {
        let j = jn - 1;
        diag_upto_j(s, j, dims) + (if s - j >= 0 && s - j < dims[0] {
            prepend_all((s - j) as usize, diag_upto_j(j, j + 1, dims.drop_first()))
        } else {
            Seq::empty()
        })
    }
}

/// All tuples of the box summing to exactly `s`, in the enumerator's order:
/// descending first coordinate, recursively decomposed on the rest.
pub open spec fn diag_step_spec(s: int, dims: Seq<usize>) -> Seq<Seq<usize>> {
    diag_upto_j(s, s + 1, dims)
}

/// The sum of the dimensions.
pub open spec fn dims_sum(dims: Seq<usize>) -> int
    decreases dims.len(),
{
    if dims.len() == 0 {
        0
    } else {
        dims[0] + dims_sum(dims.drop_first())
    }
}

/// The product of the dimensions.
pub open spec fn dims_product(dims: Seq<usize>) -> int
    decreases dims.len(),
{
    if dims.len() == 0 {
        1
    } else {
        dims[0] * dims_product(dims.drop_first())
    }
}

/// All tuples whose sum is below `smax`, grouped by ascending sum.
pub open spec fn diag_upto_s(smax: int, dims: Seq<usize>) -> Seq<Seq<usize>>
    decreases smax,
{
    if smax <= 0 {
        Seq::empty()
    } else {
        diag_upto_s(smax - 1, dims) + diag_step_spec(smax - 1, dims)
    }
}

/// Every index tuple of the box, ordered by non-decreasing coordinate sum.
pub open spec fn diagonal_spec(dims: Seq<usize>) -> Seq<Seq<usize>> {
    diag_upto_s(dims_sum(dims) + 1, dims)
}

proof fn lemma_dims_sum_push(t: Seq<usize>, x: usize)
    ensures
        dims_sum(t.push(x)) == dims_sum(t) + x,
    decreases t.len(),
{
    if t.len() == 0 {
        assert(t.push(x).drop_first() =~= Seq::<usize>::empty());
        assert(t.push(x)[0] == x);
        assert(dims_sum(Seq::<usize>::empty()) == 0);
        assert(dims_sum(t.push(x)) == x + dims_sum(Seq::<usize>::empty()));
    } else {
        assert(t.push(x).drop_first() =~= t.drop_first().push(x));
        assert(t.push(x)[0] == t[0]);
        lemma_dims_sum_push(t.drop_first(), x);
    }
}

proof fn lemma_dims_sum_nonneg(t: Seq<usize>)
    ensures
        dims_sum(t) >= 0,
    decreases t.len(),
{
    if t.len() > 0 {
        lemma_dims_sum_nonneg(t.drop_first());
    }
}

proof fn lemma_dims_sum_take_le(t: Seq<usize>, i: int)
    requires
        0 <= i <= t.len(),
    ensures
        dims_sum(t.take(i)) <= dims_sum(t),
    decreases t.len() - i,
{
    if i < t.len() {
        assert(t.take(i + 1) =~= t.take(i).push(t[i]));
        lemma_dims_sum_push(t.take(i), t[i]);
        lemma_dims_sum_take_le(t, i + 1);
    } else {
        assert(t.take(i) =~= t);
    }
}

/// One layer of the diagonal enumeration: every tuple over the dimensions
/// from `from` onward whose coordinates sum to exactly `s`.
fn diag_step_exec(s: usize, dims: &Vec<usize>, from: usize) -> (r: Vec<Vec<usize>>)
    requires
        from < dims@.len(),
        s < usize::MAX,
    ensures
        views_of(r@) == diag_step_spec(s as int, dims@.skip(from as int)),
    decreases dims@.len() - from,
{
    let ghost dtail = dims@.skip(from as int);
    let n = dims.len();
    let mut r: Vec<Vec<usize>> = Vec::new();
    if from == n - 1 {
        if s < dims[from] {
            let mut t: Vec<usize> = Vec::new();
            t.push(s);
            r.push(t);
        }
        proof {
            assert(dtail.len() == 1);
            assert(dtail[0] == dims@[from as int]);
            assert(views_of(r@) =~~= diag_step_spec(s as int, dtail));
        }
    } else {
        let mut j: usize = 0;
        while j <= s
            invariant
                n == dims@.len(),
                from + 1 < n,
                s < usize::MAX,
                dtail == dims@.skip(from as int),
                j <= s + 1,
                views_of(r@) == diag_upto_j(s as int, j as int, dtail),
            decreases s + 1 - j,
        {
            let head = s - j;
            proof {
                assert(dtail.len() >= 2);
                assert(dtail[0] == dims@[from as int]);
                assert(dtail.drop_first() =~= dims@.skip(from + 1));
            }
            if head < dims[from] {
                let tails = diag_step_exec(j, dims, from + 1);
                let ghost tails_v = views_of(tails@);
                let mut k: usize = 0;
                while k < tails.len()
                    invariant
                        tails_v == views_of(tails@),
                        k <= tails@.len(),
                        views_of(r@) == diag_upto_j(s as int, j as int, dtail) + prepend_all(
                            head,
                            tails_v.take(k as int),
                        ),
                        head == s - j,
                    decreases tails@.len() - k,
                {
                    let mut t: Vec<usize> = Vec::new();
                    t.push(head);
                    let mut m: usize = 0;
                    while m < tails[k].len()
                        invariant
                            k < tails@.len(),
                            m <= tails@[k as int]@.len(),
                            head == s - j,
                            t@ == seq![head] + tails@[k as int]@.take(m as int),
                        decreases tails@[k as int]@.len() - m,
                    {
                        t.push(tails[k][m]);
                        proof {
                            assert(seq![head] + tails@[k as int]@.take(m + 1) =~= (seq![head]
                                + tails@[k as int]@.take(m as int)).push(tails@[k as int]@[
                            m as int]));
                        }
                        m = m + 1;
                    }
                    proof {
                        assert(tails@[k as int]@.take(tails@[k as int]@.len() as int) =~= tails@[
                        k as int]@);
                    }
                    let ghost old_views = views_of(r@);
                    r.push(t);
                    proof {
                        assert(t@ == seq![head] + tails_v[k as int]);
                        assert(views_of(r@) =~~= old_views.push(t@));
                        assert(prepend_all(head, tails_v.take(k + 1)) =~~= prepend_all(
                            head,
                            tails_v.take(k as int),
                        ).push(seq![head] + tails_v[k as int]));
                        assert(views_of(r@) =~~= diag_upto_j(s as int, j as int, dtail)
                            + prepend_all(head, tails_v.take(k + 1)));
                    }
                    k = k + 1;
                }
                proof {
                    assert(tails_v.take(tails_v.len() as int) =~= tails_v);
                    assert(diag_upto_j(j as int, j + 1, dtail.drop_first()) == diag_step_spec(
                        j as int,
                        dims@.skip(from + 1),
                    ));
                    assert(views_of(r@) =~~= diag_upto_j(s as int, j + 1, dtail));
                }
            } else {
                proof {
                    assert(diag_upto_j(s as int, j + 1, dtail) =~~= diag_upto_j(
                        s as int,
                        j as int,
                        dtail,
                    ));
                }
            }
            j = j + 1;
        }
    }
    r
}

/// Enumerates the index tuples of an n-dimensional box in diagonal order:
/// every tuple appears exactly once, ordered by non-decreasing coordinate
/// sum, most-preferred (all-zero) combination first.
pub fn multi_cartesian_diagonal(dims: &Vec<usize>) -> (r: Vec<Vec<usize>>)
    requires
        dims@.len() >= 1,
        dims_sum(dims@) < usize::MAX,
    ensures
        views_of(r@) == diagonal_spec(dims@),
{
    let mut total: usize = 0;
    let mut i: usize = 0;
    proof {
        assert(dims@.take(0) =~= Seq::<usize>::empty());
    }
    while i < dims.len()
        invariant
            i <= dims@.len(),
            dims_sum(dims@) < usize::MAX,
            total == dims_sum(dims@.take(i as int)),
        decreases dims@.len() - i,
    {
        proof {
            assert(dims@.take(i + 1) =~= dims@.take(i as int).push(dims@[i as int]));
            lemma_dims_sum_push(dims@.take(i as int), dims@[i as int]);
            lemma_dims_sum_take_le(dims@, i + 1);
        }
        total = total + dims[i];
        i = i + 1;
    }
    proof {
        assert(dims@.take(dims@.len() as int) =~= dims@);
    }
    let mut r: Vec<Vec<usize>> = Vec::new();
    let mut s: usize = 0;
    proof {
        assert(views_of(r@) =~~= Seq::<Seq<usize>>::empty());
    }
    while s <= total
        invariant
            dims@.len() >= 1,
            total == dims_sum(dims@),
            total < usize::MAX,
            s <= total + 1,
            views_of(r@) == diag_upto_s(s as int, dims@),
        decreases total + 1 - s,
    {
        let mut part = diag_step_exec(s, dims, 0);
        let ghost old_views = views_of(r@);
        let ghost part_views = views_of(part@);
        proof {
            assert(dims@.skip(0) =~= dims@);
        }
        r.append(&mut part);
        proof {
            assert(views_of(r@) =~~= old_views + part_views);
            assert(views_of(r@) =~~= diag_upto_s(s + 1, dims@));
        }
        s = s + 1;
    }
    r
}

/// The sum of a tuple's coordinates is never negative.
proof fn lemma_tuple_sum_nonneg(t: Seq<usize>)
    ensures
        tuple_sum(t) >= 0,
    decreases t.len(),
{
    if t.len() > 0 {
        lemma_tuple_sum_nonneg(t.drop_first());
    }
}

/// A tuple lying in the box sums to less than the sum of the dimensions.
proof fn lemma_tuple_sum_lt_dims_sum(t: Seq<usize>, dims: Seq<usize>)
    requires
        t.len() == dims.len(),
        dims.len() >= 1,
        forall|m: int| 0 <= m < t.len() ==> t[m] < dims[m],
    ensures
        tuple_sum(t) < dims_sum(dims),
    decreases t.len(),
{
    if t.len() == 1 {
        assert(tuple_sum(t.drop_first()) == 0);
        assert(dims_sum(dims.drop_first()) == 0);
    } else {
        assert forall|m: int| 0 <= m < t.drop_first().len() implies t.drop_first()[m]
            < dims.drop_first()[m] by {
            assert(t.drop_first()[m] == t[m + 1]);
        }
        lemma_tuple_sum_lt_dims_sum(t.drop_first(), dims.drop_first());
    }
}

/// Every enumerated tuple lies in the box, sums to `s`, and its tail sums
/// to less than `jn`.
proof fn lemma_diag_elems(s: int, jn: int, dims: Seq<usize>)
    ensures
        forall|idx: int|
            0 <= idx < diag_upto_j(s, jn, dims).len() ==> {
                let t = #[trigger] diag_upto_j(s, jn, dims)[idx];
                &&& t.len() == dims.len()
                &&& tuple_sum(t) == s
                &&& (forall|m: int| 0 <= m < t.len() ==> t[m] < dims[m])
                &&& tuple_sum(t.drop_first()) < jn
            },
    decreases dims.len(), jn,
{
    let d = diag_upto_j(s, jn, dims);
    if dims.len() == 0 || jn <= 0 || s < 0 {
    } else if dims.len() == 1 {
        if s < dims[0] {
            assert forall|idx: int| 0 <= idx < d.len() implies {
                let t = #[trigger] d[idx];
                &&& t.len() == dims.len()
                &&& tuple_sum(t) == s
                &&& (forall|m: int| 0 <= m < t.len() ==> t[m] < dims[m])
                &&& tuple_sum(t.drop_first()) < jn
            } by {
                assert(d[idx] == seq![s as usize]);
                assert(d[idx].drop_first() =~= Seq::<usize>::empty());
                assert(tuple_sum(d[idx]) == s + tuple_sum(Seq::<usize>::empty()));
            }
        }
    } else {
        let j = jn - 1;
        let prefix = diag_upto_j(s, j, dims);
        lemma_diag_elems(s, j, dims);
        lemma_diag_elems(j, j + 1, dims.drop_first());
        let tails = diag_upto_j(j, j + 1, dims.drop_first());
        assert forall|idx: int| 0 <= idx < d.len() implies {
            let t = #[trigger] d[idx];
            &&& t.len() == dims.len()
            &&& tuple_sum(t) == s
            &&& (forall|m: int| 0 <= m < t.len() ==> t[m] < dims[m])
            &&& tuple_sum(t.drop_first()) < jn
        } by {
            if idx < prefix.len() {
                assert(d[idx] == prefix[idx]);
            } else {
                let k = idx - prefix.len();
                let h = (s - j) as usize;
                assert(d[idx] == prepend_all(h, tails)[k]);
                assert(prepend_all(h, tails)[k] == seq![h] + tails[k]);
                let t = seq![h] + tails[k];
                assert(t.drop_first() =~= tails[k]);
                assert(t[0] == h);
                assert(tuple_sum(t) == h + tuple_sum(tails[k]));
                assert(tails[k].len() == dims.drop_first().len());
                assert(tuple_sum(tails[k]) == j);
                assert forall|m: int| 0 <= m < t.len() implies t[m] < dims[m] by {
                    if m >= 1 {
                        assert(t[m] == tails[k][m - 1]);
                        assert(tails[k][m - 1] < dims.drop_first()[m - 1]);
                    }
                }
            }
        }
    }
}

/// Raising the tail-sum bound extends the enumeration: the shorter list is
/// a prefix of the longer.
proof fn lemma_diag_prefix(s: int, j1: int, j2: int, dims: Seq<usize>)
    requires
        0 <= j1 <= j2,
    ensures
        diag_upto_j(s, j1, dims).len() <= diag_upto_j(s, j2, dims).len(),
        forall|idx: int|
            0 <= idx < diag_upto_j(s, j1, dims).len() ==> #[trigger] diag_upto_j(s, j2, dims)[idx]
                == diag_upto_j(s, j1, dims)[idx],
    decreases j2 - j1,
{
    if j1 < j2 {
        lemma_diag_prefix(s, j1, j2 - 1, dims);
        if dims.len() == 0 || s < 0 {
        } else if dims.len() == 1 {
        } else {
        }
    }
}

/// Every tuple of the box summing to `s` is enumerated by the step for `s`.
proof fn lemma_diag_step_complete(t: Seq<usize>, dims: Seq<usize>)
    requires
        dims.len() >= 1,
        t.len() == dims.len(),
        forall|m: int| 0 <= m < t.len() ==> t[m] < dims[m],
    ensures
        diag_step_spec(tuple_sum(t), dims).contains(t),
    decreases dims.len(),
{
    let s = tuple_sum(t);
    lemma_tuple_sum_nonneg(t);
    lemma_tuple_sum_nonneg(t.drop_first());
    assert(tuple_sum(t) == t[0] + tuple_sum(t.drop_first()));
    if dims.len() == 1 {
        assert(t.drop_first() =~= Seq::<usize>::empty());
        assert(s == t[0]);
        assert(t =~= seq![t[0]]);
        let d = diag_step_spec(s, dims);
        assert(d == seq![seq![s as usize]]);
        assert(d[0] == t);
        assert(d.contains(t));
    } else {
        let tail = t.drop_first();
        let j = tuple_sum(tail);
        let h = t[0];
        assert forall|m: int| 0 <= m < tail.len() implies tail[m] < dims.drop_first()[m] by {
            assert(tail[m] == t[m + 1]);
        }
        lemma_diag_step_complete(tail, dims.drop_first());
        let tails = diag_step_spec(j, dims.drop_first());
        let k = choose|k: int| 0 <= k < tails.len() && tails[k] == tail;
        let prefix = diag_upto_j(s, j, dims);
        let d1 = diag_upto_j(s, j + 1, dims);
        assert(s - j == h);
        assert(d1 == prefix + prepend_all(h as usize, tails));
        assert(prepend_all(h as usize, tails)[k] == seq![h as usize] + tails[k]);
        assert(seq![h as usize] + tail =~= t);
        assert(d1[prefix.len() + k] == t);
        lemma_diag_prefix(s, j + 1, s + 1, dims);
        assert(diag_step_spec(s, dims)[prefix.len() + k] == t);
        assert(diag_step_spec(s, dims).contains(t));
    }
}

/// No tuple repeats within one enumeration layer.
proof fn lemma_diag_upto_j_no_dup(s: int, jn: int, dims: Seq<usize>)
    ensures
        diag_upto_j(s, jn, dims).no_duplicates(),
    decreases dims.len(), jn,
{
    let d = diag_upto_j(s, jn, dims);
    if dims.len() == 0 || jn <= 0 || s < 0 {
    } else if dims.len() == 1 {
    } else {
        let j = jn - 1;
        let prefix = diag_upto_j(s, j, dims);
        lemma_diag_upto_j_no_dup(s, j, dims);
        lemma_diag_upto_j_no_dup(j, j + 1, dims.drop_first());
        lemma_diag_elems(s, j, dims);
        lemma_diag_elems(j, j + 1, dims.drop_first());
        let tails = diag_upto_j(j, j + 1, dims.drop_first());
        let h = (s - j) as usize;
        assert forall|i1: int, i2: int| 0 <= i1 < i2 < d.len() implies d[i1] != d[i2] by {
            if i1 < prefix.len() && i2 < prefix.len() {
                assert(d[i1] == prefix[i1] && d[i2] == prefix[i2]);
            } else if i1 >= prefix.len() && i2 >= prefix.len() {
                let k1 = i1 - prefix.len();
                let k2 = i2 - prefix.len();
                assert(d[i1] == prepend_all(h, tails)[k1]);
                assert(d[i2] == prepend_all(h, tails)[k2]);
                assert(prepend_all(h, tails)[k1] == seq![h] + tails[k1]);
                assert(prepend_all(h, tails)[k2] == seq![h] + tails[k2]);
                assert(tails[k1] != tails[k2]);
                assert((seq![h] + tails[k1]).drop_first() =~= tails[k1]);
                assert((seq![h] + tails[k2]).drop_first() =~= tails[k2]);
            } else {
                let k2 = i2 - prefix.len();
                assert(d[i1] == prefix[i1]);
                assert(d[i2] == prepend_all(h, tails)[k2]);
                assert(prepend_all(h, tails)[k2] == seq![h] + tails[k2]);
                assert(tuple_sum(prefix[i1].drop_first()) < j);
                assert((seq![h] + tails[k2]).drop_first() =~= tails[k2]);
                assert(tuple_sum(tails[k2]) == j);
            }
        }
    }
}

/// Properties of the grouped enumeration below `smax`: tuples lie in the
/// box, sums ascend with position, and nothing repeats.
proof fn lemma_diag_upto_s_props(smax: int, dims: Seq<usize>)
    ensures
        forall|idx: int|
            0 <= idx < diag_upto_s(smax, dims).len() ==> {
                let t = #[trigger] diag_upto_s(smax, dims)[idx];
                &&& t.len() == dims.len()
                &&& 0 <= tuple_sum(t) < smax
                &&& (forall|m: int| 0 <= m < t.len() ==> t[m] < dims[m])
            },
        forall|i1: int, i2: int|
            0 <= i1 <= i2 < diag_upto_s(smax, dims).len() ==> tuple_sum(
                #[trigger] diag_upto_s(smax, dims)[i1],
            ) <= tuple_sum(#[trigger] diag_upto_s(smax, dims)[i2]),
        diag_upto_s(smax, dims).no_duplicates(),
    decreases smax,
{
    let d = diag_upto_s(smax, dims);
    if smax <= 0 {
    } else {
        let prev = diag_upto_s(smax - 1, dims);
        let step = diag_step_spec(smax - 1, dims);
        lemma_diag_upto_s_props(smax - 1, dims);
        lemma_diag_elems(smax - 1, smax, dims);
        lemma_diag_upto_j_no_dup(smax - 1, smax, dims);
        assert forall|idx: int| 0 <= idx < d.len() implies {
            let t = #[trigger] d[idx];
            &&& t.len() == dims.len()
            &&& 0 <= tuple_sum(t) < smax
            &&& (forall|m: int| 0 <= m < t.len() ==> t[m] < dims[m])
        } by {
            if idx < prev.len() {
                assert(d[idx] == prev[idx]);
            } else {
                assert(d[idx] == step[idx - prev.len()]);
                lemma_tuple_sum_nonneg(d[idx]);
            }
        }
        assert forall|i1: int, i2: int| 0 <= i1 <= i2 < d.len() implies tuple_sum(#[trigger] d[i1])
            <= tuple_sum(#[trigger] d[i2]) by {
            if i1 < prev.len() {
                assert(d[i1] == prev[i1]);
            } else {
                assert(d[i1] == step[i1 - prev.len()]);
            }
            if i2 < prev.len() {
                assert(d[i2] == prev[i2]);
            } else {
                assert(d[i2] == step[i2 - prev.len()]);
            }
        }
        assert forall|i1: int, i2: int| 0 <= i1 < i2 < d.len() implies d[i1] != d[i2] by {
            if i1 < prev.len() && i2 < prev.len() {
                assert(d[i1] == prev[i1] && d[i2] == prev[i2]);
            } else if i1 >= prev.len() && i2 >= prev.len() {
                assert(d[i1] == step[i1 - prev.len()] && d[i2] == step[i2 - prev.len()]);
            } else {
                assert(d[i1] == prev[i1] && d[i2] == step[i2 - prev.len()]);
                assert(tuple_sum(d[i1]) < smax - 1);
                assert(tuple_sum(d[i2]) == smax - 1);
            }
        }
    }
}

/// Every tuple of the box appears in the diagonal enumeration.
pub proof fn lemma_diagonal_complete(t: Seq<usize>, dims: Seq<usize>)
    requires
        dims.len() >= 1,
        t.len() == dims.len(),
        forall|m: int| 0 <= m < t.len() ==> t[m] < dims[m],
    ensures
        diagonal_spec(dims).contains(t),
{
    let s = tuple_sum(t);
    lemma_tuple_sum_nonneg(t);
    lemma_tuple_sum_lt_dims_sum(t, dims);
    lemma_diag_step_complete(t, dims);
    lemma_diag_contained_in_upto_s(t, s, dims_sum(dims) + 1, dims);
}

/// A tuple enumerated by the step for `s` appears among all tuples grouped
/// below any larger bound.
proof fn lemma_diag_contained_in_upto_s(t: Seq<usize>, s: int, smax: int, dims: Seq<usize>)
    requires
        0 <= s < smax,
        diag_step_spec(s, dims).contains(t),
    ensures
        diag_upto_s(smax, dims).contains(t),
    decreases smax,
{
    let prev = diag_upto_s(smax - 1, dims);
    let step = diag_step_spec(smax - 1, dims);
    if s == smax - 1 {
        let k = choose|k: int| 0 <= k < step.len() && step[k] == t;
        assert(diag_upto_s(smax, dims)[prev.len() + k] == t);
    } else {
        lemma_diag_contained_in_upto_s(t, s, smax - 1, dims);
        let k = choose|k: int| 0 <= k < prev.len() && prev[k] == t;
        assert(diag_upto_s(smax, dims)[k] == t);
    }
}

/// The set of all tuples lying in the box `dims`.
pub open spec fn box_set(dims: Seq<usize>) -> Set<Seq<usize>> {
    Set::new(
        |t: Seq<usize>|
            t.len() == dims.len() && forall|m: int| 0 <= m < t.len() ==> #[trigger] t[m] < dims[m],
    )
}

/// Tuples of the box whose first coordinate is below `v`, the rest free.
spec fn partial_box(v: int, dims: Seq<usize>) -> Set<Seq<usize>>
    recommends
        dims.len() >= 1,
{
    Set::new(
        |t: Seq<usize>|
            t.len() == dims.len() && t.len() >= 1 && t[0] < v && box_set(
                dims.drop_first(),
            ).contains(t.drop_first()),
    )
}

/// Cardinality of the partial box: `v` choices for the first coordinate.
proof fn lemma_partial_box_card(v: int, dims: Seq<usize>)
    requires
        dims.len() >= 1,
        0 <= v <= usize::MAX,
        box_set(dims.drop_first()).finite(),
        box_set(dims.drop_first()).len() == dims_product(dims.drop_first()),
    ensures
        partial_box(v, dims).finite(),
        partial_box(v, dims).len() == v * dims_product(dims.drop_first()),
    decreases v,
{
    let rest = dims.drop_first();
    let p = dims_product(rest);
    if v == 0 {
        assert(partial_box(0, dims) =~= Set::<Seq<usize>>::empty());
        assert(0 * p == 0) by (nonlinear_arith);
    } else {
        lemma_partial_box_card(v - 1, dims);
        let f = |t: Seq<usize>| seq![(v - 1) as usize] + t;
        let mapped = box_set(rest).map(f);
        assert(vstd::relations::injective_on(f, box_set(rest))) by {
            assert forall|a1: Seq<usize>, a2: Seq<usize>|
                box_set(rest).contains(a1) && box_set(rest).contains(a2) && #[trigger] f(a1)
                    == #[trigger] f(a2) implies a1 == a2 by {
                assert((seq![(v - 1) as usize] + a1).drop_first() =~= a1);
                assert((seq![(v - 1) as usize] + a2).drop_first() =~= a2);
            }
        }
        vstd::set_lib::lemma_map_size(box_set(rest), mapped, f);
        assert forall|t: Seq<usize>| #[trigger] partial_box(v, dims).contains(t) implies (
        partial_box(v - 1, dims) + mapped).contains(t) by {
            if t[0] == v - 1 {
                assert(f(t.drop_first()) =~= t);
                assert(mapped.contains(t));
            }
        }
        assert forall|t: Seq<usize>| #[trigger] (partial_box(v - 1, dims) + mapped).contains(t)
            implies partial_box(v, dims).contains(t) by {
            if mapped.contains(t) {
                let a = choose|a: Seq<usize>| box_set(rest).contains(a) && f(a) == t;
                assert(t == seq![(v - 1) as usize] + a);
                assert(t.drop_first() =~= a);
                assert(t[0] == v - 1);
            }
        }
        assert(partial_box(v, dims) =~= partial_box(v - 1, dims) + mapped);
        assert(partial_box(v - 1, dims).disjoint(mapped)) by {
            assert forall|t: Seq<usize>| #[trigger] partial_box(v - 1, dims).contains(t) implies !mapped.contains(
                t,
            ) by {
                if mapped.contains(t) {
                    let a = choose|a: Seq<usize>| box_set(rest).contains(a) && f(a) == t;
                    assert(t == f(a));
                    assert(t[0] == v - 1);
                }
            }
        }
        vstd::set_lib::lemma_set_disjoint_lens(partial_box(v - 1, dims), mapped);
        assert((v - 1) * p + p == v * p) by (nonlinear_arith);
    }
}

/// The box holds exactly the product of the dimensions many tuples.
proof fn lemma_box_set_card(dims: Seq<usize>)
    ensures
        box_set(dims).finite(),
        box_set(dims).len() == dims_product(dims),
    decreases dims.len(),
{
    if dims.len() == 0 {
        assert(box_set(dims) =~= Set::<Seq<usize>>::empty().insert(Seq::<usize>::empty())) by {
            assert forall|t: Seq<usize>| #[trigger] box_set(dims).contains(t) implies t == Seq::<
                usize,
            >::empty() by {
                assert(t =~= Seq::<usize>::empty());
            }
            assert(box_set(dims).contains(Seq::<usize>::empty()));
        }
    } else {
        lemma_box_set_card(dims.drop_first());
        lemma_partial_box_card(dims[0] as int, dims);
        assert forall|t: Seq<usize>| #[trigger] box_set(dims).contains(t) implies partial_box(
            dims[0] as int,
            dims,
        ).contains(t) by {
            assert forall|m: int| 0 <= m < t.drop_first().len() implies #[trigger] t.drop_first()[m]
                < dims.drop_first()[m] by {
                assert(t.drop_first()[m] == t[m + 1]);
            }
        }
        assert forall|t: Seq<usize>| #[trigger] partial_box(dims[0] as int, dims).contains(t)
            implies box_set(dims).contains(t) by {
            assert forall|m: int| 0 <= m < t.len() implies #[trigger] t[m] < dims[m] by {
                if m >= 1 {
                    assert(t.drop_first()[m - 1] == t[m]);
                    assert(t.drop_first()[m - 1] < dims.drop_first()[m - 1]);
                }
            }
        }
        assert(box_set(dims) =~= partial_box(dims[0] as int, dims));
    }
}

/// The diagonal enumeration of a box: every tuple lies in the box, sums
/// never decrease along the enumeration, no tuple repeats, and exactly the
/// product of the dimensions many tuples are produced.
pub proof fn lemma_diagonal_props(dims: Seq<usize>)
    requires
        dims.len() >= 1,
    ensures
        forall|idx: int|
            0 <= idx < diagonal_spec(dims).len() ==> {
                let t = #[trigger] diagonal_spec(dims)[idx];
                &&& t.len() == dims.len()
                &&& (forall|m: int| 0 <= m < t.len() ==> t[m] < dims[m])
            },
        forall|i1: int, i2: int|
            0 <= i1 <= i2 < diagonal_spec(dims).len() ==> tuple_sum(
                #[trigger] diagonal_spec(dims)[i1],
            ) <= tuple_sum(#[trigger] diagonal_spec(dims)[i2]),
        diagonal_spec(dims).no_duplicates(),
        diagonal_spec(dims).len() == dims_product(dims),
{
    let d = diagonal_spec(dims);
    lemma_diag_upto_s_props(dims_sum(dims) + 1, dims);
    lemma_box_set_card(dims);
    d.unique_seq_to_set();
    assert forall|t: Seq<usize>| #[trigger] box_set(dims).contains(t) implies d.to_set().contains(
        t,
    ) by {
        lemma_diagonal_complete(t, dims);
    }
    assert forall|t: Seq<usize>| #[trigger] d.to_set().contains(t) implies box_set(dims).contains(
        t,
    ) by {
        let idx = choose|idx: int| 0 <= idx < d.len() && d[idx] == t;
        assert(d[idx].len() == dims.len() && forall|m: int|
            0 <= m < d[idx].len() ==> #[trigger] d[idx][m] < dims[m]);
    }
    assert(d.to_set() =~= box_set(dims));
}

/// An element of any chunk is an element of the flattened sequence.
pub proof fn lemma_flatten_contains<T>(x: Seq<Seq<T>>, i: int, j: int)
    requires
        0 <= i < x.len(),
        0 <= j < x[i].len(),
    ensures
        x.flatten().contains(x[i][j]),
    decreases x.len(),
{
    let e = x[i][j];
    assert(x.flatten() == x.first().add(x.drop_first().flatten()));
    if i == 0 {
        assert(x.flatten()[j] == e);
    } else {
        assert(x.drop_first()[i - 1] == x[i]);
        lemma_flatten_contains(x.drop_first(), i - 1, j);
        let idx = choose|idx: int|
            0 <= idx < x.drop_first().flatten().len() && x.drop_first().flatten()[idx] == e;
        assert(x.flatten()[x.first().len() + idx] == e);
    }
}

/// The total of chunk lengths of the stated shape.
pub proof fn lemma_chunk_lens_sum(dims: Seq<usize>, q: int, rem: int)
    requires
        q >= 0,
        rem >= 0,
        forall|t: int|
            0 <= t < dims.len() ==> #[trigger] dims[t] == q + if t < rem {
                1int
            } else {
                0int
            },
    ensures
        dims_sum(dims) == dims.len() * q + (if dims.len() <= rem {
            dims.len() as int
        } else {
            rem
        }),
    decreases dims.len(),
{
    if dims.len() == 0 {
        assert(0 * q == 0) by (nonlinear_arith);
    } else {
        let prev = dims.drop_last();
        assert forall|t: int| 0 <= t < prev.len() implies #[trigger] prev[t] == q + if t < rem {
            1int
        } else {
            0int
        } by {
            assert(prev[t] == dims[t]);
        }
        lemma_chunk_lens_sum(prev, q, rem);
        assert(dims =~= prev.push(dims.last()));
        lemma_dims_sum_push(prev, dims.last());
        assert(dims.len() * q == prev.len() * q + q) by (nonlinear_arith)
            requires
                dims.len() == prev.len() + 1,
        ;
    }
}

} // verus!
