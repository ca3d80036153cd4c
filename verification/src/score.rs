//! The irregularity scorer: how far a compound's reading deviates from a
//! literal concatenation of its two characters' known readings.
//!
//! For a character, its reading-candidate set is every on reading plus, for
//! every kun reading, the bare stem and the stem+suffix form.  Every pair
//! from candidate-set(first) x candidate-set(second) is concatenated into a
//! candidate reconstruction; candidates of the same character length as the
//! compound's reading are scored by their per-character mismatch count.  The
//! score is the least such count over the reading's length; if no candidate
//! has the right length the score is 1 (no literal reconstruction exists).
//! The score is an exact rational `num / den`, always within [0, 1].

use vstd::prelude::*;

verus! {

use vstd::string::StrSliceExecFns;
use crate::data::{KanjiMeta, Kun};

/// An exact reading-irregularity score: the rational `num / den`.
/// `0/den` means some literal reconstruction reproduces the reading exactly;
/// `den/den` means no reconstruction of the right length exists.
#[derive(Debug, Clone, Copy, PartialEq, Eq, Structural)]
pub struct Irregularity {
    pub num: usize,
    pub den: usize,
}

impl Irregularity {
    /// The score is a well-formed fraction within [0, 1].
    pub open spec fn wf(self) -> bool {
        1 <= self.den && self.num <= self.den
    }

    /// A compound is flagged irregular when its reading cannot be literally
    /// reconstructed, that is when its score is positive.
    pub open spec fn is_irregular_spec(self) -> bool {
        self.num > 0
    }

    pub fn is_irregular(&self) -> (r: bool)
        ensures
            r == self.is_irregular_spec(),
    {
        self.num > 0
    }
}

/// The reading forms contributed by one kun reading: the bare stem and, if
/// an okurigana suffix is listed, also the stem followed by the suffix.
pub open spec fn forms_of_kun(k: Kun) -> Seq<Seq<char>> {
    match k.1 {
        Option::None => seq![k.0@],
        Option::Some(sfx) => seq![k.0@, k.0@ + sfx@],
    }
}

/// The reading forms of a list of kun readings, in listed order.
pub open spec fn kun_forms(kuns: Seq<Kun>) -> Seq<Seq<char>>
    decreases kuns.len(),
{
    if kuns.len() == 0 {
        Seq::empty()
    } else {
        kun_forms(kuns.drop_last()) + forms_of_kun(kuns.last())
    }
}

/// The reading forms of a list of on readings: each taken literally.
pub open spec fn on_forms(ons: Seq<String>) -> Seq<Seq<char>>
    decreases ons.len(),
{
    if ons.len() == 0 {
        Seq::empty()
    } else {
        on_forms(ons.drop_last()).push(ons.last()@)
    }
}

/// Every reading candidate of one character: the on readings first, then the
/// kun forms.
pub open spec fn reading_forms(meta: KanjiMeta) -> Seq<Seq<char>> {
    on_forms(meta.on@) + kun_forms(meta.kun@)
}

/// `ra` concatenated with every form of `fb`, in order.
pub open spec fn pairs_with(ra: Seq<char>, fb: Seq<Seq<char>>) -> Seq<Seq<char>>
    decreases fb.len(),
{
    if fb.len() == 0 {
        Seq::empty()
    } else {
        pairs_with(ra, fb.drop_last()).push(ra + fb.last())
    }
}

/// Every concatenation of a form of `fa` with a form of `fb`, `fa`-major.
pub open spec fn candidates(fa: Seq<Seq<char>>, fb: Seq<Seq<char>>) -> Seq<Seq<char>>
    decreases fa.len(),
{
    if fa.len() == 0 {
        Seq::empty()
    } else {
        candidates(fa.drop_last(), fb) + pairs_with(fa.last(), fb)
    }
}

/// The number of positions at which two equal-length sequences differ.
pub open spec fn mismatch_count(s: Seq<char>, t: Seq<char>) -> nat
    decreases s.len(),
{
    if s.len() == 0 {
        0
    } else {
        mismatch_count(s.drop_last(), t.drop_last()) + (if s.last() == t.last() {
            0nat
        } else {
            1nat
        })
    }
}

/// The smaller of two optional values, treating `None` as absent.
pub open spec fn opt_min(x: Option<nat>, y: Option<nat>) -> Option<nat> {
    match (x, y) {
        (Option::None, _) => y,
        (Option::Some(a), Option::None) => x,
        (Option::Some(a), Option::Some(b)) => Option::Some(if a <= b {
            a
        } else {
            b
        }),
    }
}

/// The least mismatch count over the candidates whose length equals the
/// reading's, or `None` when no candidate has the right length.
pub open spec fn min_same_len_dist(cands: Seq<Seq<char>>, reading: Seq<char>) -> Option<nat>
    decreases cands.len(),
{
    if cands.len() == 0 {
        Option::None
    } else {
        opt_min(
            min_same_len_dist(cands.drop_last(), reading),
            if cands.last().len() == reading.len() {
                Option::Some(mismatch_count(cands.last(), reading))
            } else {
                Option::None
            },
        )
    }
}

/// The denominator of the score: the reading's character length, or 1 for an
/// empty reading so that the fraction stays well formed.
pub open spec fn score_den(reading: Seq<char>) -> nat {
    if reading.len() == 0 {
        1nat
    } else {
        reading.len()
    }
}

/// The numerator of the score: the least same-length mismatch count, or the
/// full denominator when no candidate has the reading's length.
pub open spec fn score_num(reading: Seq<char>, a: KanjiMeta, b: KanjiMeta) -> nat {
    match min_same_len_dist(candidates(reading_forms(a), reading_forms(b)), reading) {
        Option::Some(m) => m,
        Option::None => score_den(reading),
    }
}

/// Collects the characters of a string slice into a vector.
pub fn string_chars(s: &str) -> (r: Vec<char>)
    ensures
        r@ == s@,
{
    let n = s.unicode_len();
    let mut r: Vec<char> = Vec::new();
    let mut i: usize = 0;
    while i < n
        invariant
            n == s@.len(),
            i <= n,
            r@ == s@.take(i as int),
        decreases n - i,
    {
        r.push(s.get_char(i));
        proof {
            assert(s@.take(i + 1) =~= s@.take(i as int).push(s@[i as int]));
        }
        i = i + 1;
    }
    proof {
        assert(s@.take(n as int) =~= s@);
    }
    r
}

/// Concatenates two character vectors into a fresh one.
fn concat_chars(x: &Vec<char>, y: &Vec<char>) -> (r: Vec<char>)
    ensures
        r@ == x@ + y@,
{
    let mut r: Vec<char> = Vec::new();
    let mut i: usize = 0;
    while i < x.len()
        invariant
            i <= x@.len(),
            r@ == x@.take(i as int),
        decreases x@.len() - i,
    {
        r.push(x[i]);
        proof {
            assert(x@.take(i + 1) =~= x@.take(i as int).push(x@[i as int]));
        }
        i = i + 1;
    }
    let mut j: usize = 0;
    while j < y.len()
        invariant
            j <= y@.len(),
            r@ == x@.take(x@.len() as int) + y@.take(j as int),
        decreases y@.len() - j,
    {
        r.push(y[j]);
        proof {
            assert(y@.take(j + 1) =~= y@.take(j as int).push(y@[j as int]));
            assert(x@.take(x@.len() as int) + y@.take(j + 1) =~= (x@.take(x@.len() as int)
                + y@.take(j as int)).push(y@[j as int]));
        }
        j = j + 1;
    }
    proof {
        assert(x@.take(x@.len() as int) + y@.take(y@.len() as int) =~= x@ + y@);
    }
    r
}

/// The reading candidates of one character, as executable data.
fn reading_forms_exec(meta: &KanjiMeta) -> (r: Vec<Vec<char>>)
    ensures
        r.deep_view() == reading_forms(*meta),
{
    let mut r: Vec<Vec<char>> = Vec::new();
    let mut i: usize = 0;
    while i < meta.on.len()
        invariant
            i <= meta.on@.len(),
            r.deep_view() == on_forms(meta.on@.take(i as int)),
        decreases meta.on@.len() - i,
    {
        let form = string_chars(meta.on[i].as_str());
        r.push(form);
        proof {
            assert(meta.on@.take(i + 1).drop_last() =~= meta.on@.take(i as int));
            assert(r.deep_view() =~~= on_forms(meta.on@.take(i + 1)));
        }
        i = i + 1;
    }
    proof {
        assert(meta.on@.take(meta.on@.len() as int) =~= meta.on@);
        assert(kun_forms(meta.kun@.take(0)) =~= Seq::<Seq<char>>::empty());
        assert(r.deep_view() =~~= on_forms(meta.on@) + kun_forms(meta.kun@.take(0)));
    }
    let mut j: usize = 0;
    while j < meta.kun.len()
        invariant
            j <= meta.kun@.len(),
            r.deep_view() == on_forms(meta.on@) + kun_forms(meta.kun@.take(j as int)),
        decreases meta.kun@.len() - j,
    {
        let ghost prev = r.deep_view();
        let ghost k = meta.kun@[j as int];
        let stem = string_chars(meta.kun[j].0.as_str());
        match &meta.kun[j].1 {
            None => {
                r.push(stem);
                proof {
                    assert(forms_of_kun(k) =~~= seq![k.0@]);
                    assert(r.deep_view() =~~= prev + forms_of_kun(k));
                }
            },
            Some(sfx) => {
                let sfx_chars = string_chars(sfx.as_str());
                let full = concat_chars(&stem, &sfx_chars);
                r.push(stem);
                r.push(full);
                proof {
                    assert(k.1 == Option::Some(*sfx));
                    assert(forms_of_kun(k) =~~= seq![k.0@, k.0@ + sfx@]);
                    assert(r.deep_view() =~~= prev + forms_of_kun(k));
                }
            },
        }
        proof {
            assert(meta.kun@.take(j + 1).drop_last() =~= meta.kun@.take(j as int));
            assert(meta.kun@.take(j + 1).last() == k);
            assert(r.deep_view() =~~= on_forms(meta.on@) + kun_forms(meta.kun@.take(j + 1)));
        }
        j = j + 1;
    }
    proof {
        assert(meta.kun@.take(meta.kun@.len() as int) =~= meta.kun@);
    }
    r
}

/// The number of differing positions between two equal-length vectors.
fn mismatch_exec(s: &Vec<char>, t: &Vec<char>) -> (r: usize)
    requires
        s@.len() == t@.len(),
    ensures
        r == mismatch_count(s@, t@),
{
    let mut cnt: usize = 0;
    let mut i: usize = 0;
    proof {
        lemma_mismatch_le(s@.take(0), t@.take(0));
    }
    while i < s.len()
        invariant
            s@.len() == t@.len(),
            i <= s@.len(),
            cnt == mismatch_count(s@.take(i as int), t@.take(i as int)),
            cnt <= i,
        decreases s@.len() - i,
    {
        proof {
            assert(s@.take(i + 1).drop_last() =~= s@.take(i as int));
            assert(t@.take(i + 1).drop_last() =~= t@.take(i as int));
        }
        if s[i] != t[i] {
            cnt = cnt + 1;
        }
        i = i + 1;
    }
    proof {
        assert(s@.take(s@.len() as int) =~= s@);
        assert(t@.take(t@.len() as int) =~= t@);
    }
    cnt
}

/// A mismatch count never exceeds the length compared.
proof fn lemma_mismatch_le(s: Seq<char>, t: Seq<char>)
    requires
        s.len() == t.len(),
    ensures
        mismatch_count(s, t) <= s.len(),
    decreases s.len(),
{
    if s.len() > 0 {
        lemma_mismatch_le(s.drop_last(), t.drop_last());
    }
}

/// Taking the minimum is associative-compatible with splitting the candidate
/// list: the minimum over a concatenation combines the two minima.
proof fn lemma_min_dist_concat(c1: Seq<Seq<char>>, c2: Seq<Seq<char>>, reading: Seq<char>)
    ensures
        min_same_len_dist(c1 + c2, reading) == opt_min(
            min_same_len_dist(c1, reading),
            min_same_len_dist(c2, reading),
        ),
    decreases c2.len(),
{
    if c2.len() == 0 {
        assert(c1 + c2 =~= c1);
    } else {
        lemma_min_dist_concat(c1, c2.drop_last(), reading);
        assert((c1 + c2).drop_last() =~= c1 + c2.drop_last());
        assert((c1 + c2).last() == c2.last());
    }
}

/// A minimum over candidates that includes a same-length candidate is
/// defined and no larger than that candidate's mismatch count.
proof fn lemma_min_dist_le_member(cands: Seq<Seq<char>>, reading: Seq<char>, k: int)
    requires
        0 <= k < cands.len(),
        cands[k].len() == reading.len(),
    ensures
        min_same_len_dist(cands, reading) is Some,
        min_same_len_dist(cands, reading)->Some_0 <= mismatch_count(cands[k], reading),
    decreases cands.len(),
{
    if k == cands.len() - 1 {
        assert(cands.last() == cands[k]);
    } else {
        lemma_min_dist_le_member(cands.drop_last(), reading, k);
        assert(cands.drop_last()[k] == cands[k]);
    }
}

/// Any defined minimum is the mismatch count of some same-length candidate.
proof fn lemma_min_dist_witness(cands: Seq<Seq<char>>, reading: Seq<char>)
    requires
        min_same_len_dist(cands, reading) is Some,
    ensures
        exists|k: int|
            0 <= k < cands.len() && cands[k].len() == reading.len() && mismatch_count(
                cands[k],
                reading,
            ) == min_same_len_dist(cands, reading)->Some_0,
    decreases cands.len(),
{
    let m = min_same_len_dist(cands, reading)->Some_0;
    let rest = min_same_len_dist(cands.drop_last(), reading);
    if cands.last().len() == reading.len() && (rest is None || m == mismatch_count(
        cands.last(),
        reading,
    )) {
        assert(cands[cands.len() - 1] == cands.last());
    } else {
        lemma_min_dist_witness(cands.drop_last(), reading);
        let k = choose|k: int|
            0 <= k < cands.drop_last().len() && cands.drop_last()[k].len() == reading.len()
                && mismatch_count(cands.drop_last()[k], reading) == rest->Some_0;
        assert(cands[k] == cands.drop_last()[k]);
    }
}

/// Computes the irregularity score of a compound's reading against the
/// metadata of its two characters.
pub fn irregularness(reading: &str, a: &KanjiMeta, b: &KanjiMeta) -> (r: Irregularity)
    ensures
        r.num == score_num(reading@, *a, *b),
        r.den == score_den(reading@),
        r.wf(),
{
    let rd = string_chars(reading);
    let fa = reading_forms_exec(a);
    let fb = reading_forms_exec(b);
    let ghost fa_s = reading_forms(*a);
    let ghost fb_s = reading_forms(*b);
    let mut best: Option<usize> = None;
    let mut ia: usize = 0;
    while ia < fa.len()
        invariant
            fa.deep_view() == fa_s,
            fb.deep_view() == fb_s,
            rd@ == reading@,
            ia <= fa_s.len(),
            opt_usize_as_nat(best) == min_same_len_dist(
                candidates(fa_s.take(ia as int), fb_s),
                reading@,
            ),
            match best {
                Option::Some(v) => v <= reading@.len(),
                Option::None => true,
            },
        decreases fa_s.len() - ia,
    {
        let mut ib: usize = 0;
        while ib < fb.len()
            invariant
                fa.deep_view() == fa_s,
                fb.deep_view() == fb_s,
                rd@ == reading@,
                ia < fa_s.len(),
                ib <= fb_s.len(),
                opt_usize_as_nat(best) == opt_min(
                    min_same_len_dist(candidates(fa_s.take(ia as int), fb_s), reading@),
                    min_same_len_dist(pairs_with(fa_s[ia as int], fb_s.take(ib as int)), reading@),
                ),
                match best {
                    Option::Some(v) => v <= reading@.len(),
                    Option::None => true,
                },
            decreases fb_s.len() - ib,
        {
            let cand = concat_chars(&fa[ia], &fb[ib]);
            proof {
                assert(fa@[ia as int]@ == fa_s[ia as int]);
                assert(fb@[ib as int]@ == fb_s[ib as int]);
                assert(fb_s.take(ib + 1).drop_last() =~= fb_s.take(ib as int));
            }
            if cand.len() == rd.len() {
                let d = mismatch_exec(&cand, &rd);
                proof {
                    lemma_mismatch_le(cand@, rd@);
                }
                best = match best {
                    Option::None => Some(d),
                    Option::Some(v) => if d < v {
                        Some(d)
                    } else {
                        Some(v)
                    },
                };
            }
            proof {
                let ra = fa_s[ia as int];
                let p1 = pairs_with(ra, fb_s.take(ib as int));
                let p2 = pairs_with(ra, fb_s.take(ib + 1));
                assert(p2 =~~= p1.push(ra + fb_s[ib as int]));
                assert(p2.drop_last() =~~= p1);
                assert(p2.last() == ra + fb_s[ib as int]);
            }
            ib = ib + 1;
        }
        proof {
            assert(fb_s.take(fb_s.len() as int) =~= fb_s);
            assert(fa_s.take(ia + 1).drop_last() =~= fa_s.take(ia as int));
            assert(fa_s.take(ia + 1).last() == fa_s[ia as int]);
            lemma_min_dist_concat(
                candidates(fa_s.take(ia as int), fb_s),
                pairs_with(fa_s[ia as int], fb_s),
                reading@,
            );
            assert(candidates(fa_s.take(ia + 1), fb_s) =~= candidates(fa_s.take(ia as int), fb_s)
                + pairs_with(fa_s[ia as int], fb_s));
        }
        ia = ia + 1;
    }
    proof {
        assert(fa_s.take(fa_s.len() as int) =~= fa_s);
    }
    let den = if rd.len() == 0 {
        1
    } else {
        rd.len()
    };
    match best {
        Some(m) => Irregularity { num: m, den },
        None => Irregularity { num: den, den },
    }
}

/// Lifts an optional machine integer to an optional mathematical one.
pub open spec fn opt_usize_as_nat(x: Option<usize>) -> Option<nat> {
    match x {
        Option::None => Option::None,
        Option::Some(v) => Option::Some(v as nat),
    }
}

/// The irregularity score always lies within [0, 1]: the numerator never
/// exceeds the denominator, which is positive.
pub proof fn lemma_score_bounds(reading: Seq<char>, a: KanjiMeta, b: KanjiMeta)
    ensures
        score_den(reading) >= 1,
        score_num(reading, a, b) <= score_den(reading),
{
    let cands = candidates(reading_forms(a), reading_forms(b));
    match min_same_len_dist(cands, reading) {
        Option::Some(m) => {
            lemma_min_dist_witness(cands, reading);
            let k = choose|k: int|
                0 <= k < cands.len() && cands[k].len() == reading.len() && mismatch_count(
                    cands[k],
                    reading,
                ) == m;
            lemma_mismatch_le(cands[k], reading);
        },
        Option::None => {},
    }
}

/// Position-for-position, `pairs_with` concatenates `ra` before each form.
proof fn lemma_pairs_with_index(ra: Seq<char>, fb: Seq<Seq<char>>)
    ensures
        pairs_with(ra, fb).len() == fb.len(),
        forall|j: int| 0 <= j < fb.len() ==> pairs_with(ra, fb)[j] == ra + fb[j],
    decreases fb.len(),
{
    if fb.len() > 0 {
        lemma_pairs_with_index(ra, fb.drop_last());
        assert forall|j: int| 0 <= j < fb.len() implies pairs_with(ra, fb)[j] == ra + fb[j] by {
            if j < fb.len() - 1 {
                assert(fb.drop_last()[j] == fb[j]);
            }
        }
    }
}

/// Every pairing of a form of `fa` with a form of `fb` is a candidate.
proof fn lemma_candidates_contains(fa: Seq<Seq<char>>, fb: Seq<Seq<char>>, i: int, j: int)
    requires
        0 <= i < fa.len(),
        0 <= j < fb.len(),
    ensures
        candidates(fa, fb).contains(fa[i] + fb[j]),
    decreases fa.len(),
{
    if i == fa.len() - 1 {
        lemma_pairs_with_index(fa[i], fb);
        let prefix = candidates(fa.drop_last(), fb);
        assert(candidates(fa, fb)[prefix.len() + j] == fa[i] + fb[j]);
    } else {
        lemma_candidates_contains(fa.drop_last(), fb, i, j);
        assert(fa.drop_last()[i] == fa[i]);
        let c = fa[i] + fb[j];
        let k = choose|k: int| 0 <= k < candidates(fa.drop_last(), fb).len() && candidates(
            fa.drop_last(),
            fb,
        )[k] == c;
        assert(candidates(fa, fb)[k] == c);
    }
}

/// On readings appear among a character's reading forms, literally.
proof fn lemma_on_forms_index(ons: Seq<String>)
    ensures
        on_forms(ons).len() == ons.len(),
        forall|i: int| 0 <= i < ons.len() ==> on_forms(ons)[i] == ons[i]@,
    decreases ons.len(),
{
    if ons.len() > 0 {
        lemma_on_forms_index(ons.drop_last());
        assert forall|i: int| 0 <= i < ons.len() implies on_forms(ons)[i] == ons[i]@ by {
            if i < ons.len() - 1 {
                assert(ons.drop_last()[i] == ons[i]);
            }
        }
    }
}

/// A sequence matches itself exactly.
proof fn lemma_mismatch_self(s: Seq<char>)
    ensures
        mismatch_count(s, s) == 0,
    decreases s.len(),
{
    if s.len() > 0 {
        lemma_mismatch_self(s.drop_last());
    }
}

/// A compound whose reading is literally an on reading of its first
/// character followed by an on reading of its second scores zero.
pub proof fn lemma_literal_on_reading_scores_zero(
    reading: Seq<char>,
    a: KanjiMeta,
    b: KanjiMeta,
    i: int,
    j: int,
)
    requires
        0 <= i < a.on@.len(),
        0 <= j < b.on@.len(),
        a.on@[i]@ + b.on@[j]@ == reading,
    ensures
        score_num(reading, a, b) == 0,
{
    let fa = reading_forms(a);
    let fb = reading_forms(b);
    lemma_on_forms_index(a.on@);
    lemma_on_forms_index(b.on@);
    assert(fa[i] == a.on@[i]@);
    assert(fb[j] == b.on@[j]@);
    lemma_candidates_contains(fa, fb, i, j);
    let cands = candidates(fa, fb);
    let k = choose|k: int| 0 <= k < cands.len() && cands[k] == fa[i] + fb[j];
    lemma_mismatch_self(reading);
    lemma_min_dist_le_member(cands, reading, k);
}

/// A score of zero means some candidate reconstruction reproduces the
/// reading exactly.
pub proof fn lemma_zero_score_has_exact_reconstruction(
    reading: Seq<char>,
    a: KanjiMeta,
    b: KanjiMeta,
)
    requires
        score_num(reading, a, b) == 0,
    ensures
        exists|c: Seq<char>|
            candidates(reading_forms(a), reading_forms(b)).contains(c) && c == reading,
{
    let cands = candidates(reading_forms(a), reading_forms(b));
    lemma_score_bounds(reading, a, b);
    assert(min_same_len_dist(cands, reading) is Some);
    lemma_min_dist_witness(cands, reading);
    let k = choose|k: int|
        0 <= k < cands.len() && cands[k].len() == reading.len() && mismatch_count(
            cands[k],
            reading,
        ) == 0;
    lemma_zero_mismatch_equal(cands[k], reading);
    assert(cands.contains(cands[k]));
}

/// Equal-length sequences with no mismatching position are equal.
proof fn lemma_zero_mismatch_equal(s: Seq<char>, t: Seq<char>)
    requires
        s.len() == t.len(),
        mismatch_count(s, t) == 0,
    ensures
        s == t,
    decreases s.len(),
{
    if s.len() == 0 {
        assert(s =~= t);
    } else {
        lemma_zero_mismatch_equal(s.drop_last(), t.drop_last());
        assert(s =~= s.drop_last().push(s.last()));
        assert(t =~= t.drop_last().push(t.last()));
    }
}

} // verus!
