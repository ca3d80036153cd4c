//! The puzzle generator: ranks candidate answer characters, extracts usable
//! hints, tiers and shuffles them, searches hint combinations in diagonal
//! order, and accepts the first combination that pins the answer down
//! uniquely without presenting two written forms of one character.

use vstd::prelude::*;

verus! {

use crate::data::{Ji, KanjiClass, KanjiData, Loc, WordData};
use crate::sample::{is_shuffle_of, weighted_shuffle};
use crate::search::{
    diagonal_spec, dims_sum, lemma_chunk_lens_sum, lemma_diagonal_complete,
    lemma_diagonal_props, lemma_flatten_contains, lemma_split_spec_props, multi_cartesian_diagonal,
    split, split_spec, views_of,
};

/// Configuration of one generation call.  Bias weights are per-mille:
/// 1000 stands for a neutral weight of one.
#[derive(Debug, Clone, Copy, PartialEq, Eq, Structural)]
pub struct PuzzleOptions {
    pub min_kanji_class: KanjiClass,
    pub max_kanji_class: KanjiClass,
    pub rare_kanji_rank: usize,
    pub rare_kanji_bias: u64,
    pub min_word_rarity: usize,
    pub max_word_rarity: usize,
    pub min_word_kanji_class: KanjiClass,
    pub max_word_kanji_class: KanjiClass,
    pub irregular_hint_bias: u64,
    pub rare_kanji_hint_rank: usize,
    pub rare_kanji_hint_bias: u64,
    pub rare_word_hint_rank: usize,
    pub rare_word_hint_bias: u64,
    pub num_hints: usize,
    pub guarantee_answer_by: usize,
}

impl PuzzleOptions {
    /// Bounds that keep the combined hint weight within machine range, and
    /// a sensible puzzle shape: at least one guaranteed hint, and no more
    /// guaranteed hints than hints overall.
    pub open spec fn wf(self) -> bool {
        &&& 1 <= self.guarantee_answer_by <= self.num_hints
        &&& self.rare_kanji_bias <= 0xFFFF_FFFF
        &&& self.irregular_hint_bias <= 0xFFFF_FFFF
        &&& self.rare_kanji_hint_bias <= 0xFFFF_FFFF
        &&& self.rare_word_hint_bias <= 0xFFFF_FFFF
    }
}

/// One hint: a compound containing the answer character, reduced to the
/// other character, the answer's side, the word's rank, and whether the
/// compound's reading is irregular.
#[derive(Debug, Clone, Copy, PartialEq, Eq, Hash, Structural)]
pub struct Hint {
    pub answer: Ji,
    pub answer_location: Loc,
    pub hint: Ji,
    pub rank: usize,
    pub irregular: bool,
}

/// A generated puzzle: the answer, the guaranteed hints that pin it down
/// uniquely, and the extra hints beyond the guarantee point.
#[derive(Debug, Clone, PartialEq, Eq)]
pub struct Puzzle {
    pub answer: Ji,
    pub hints: Vec<Hint>,
    pub extra_hints: Vec<Hint>,
}

/// A generation call: a random source plus shared read-only corpus tables.
#[derive(Debug)]
pub struct Generator<'a> {
    pub rng: rand_xoshiro::Xoshiro256PlusPlus,
    pub kanji_data: &'a KanjiData,
    pub word_data: &'a WordData,
}

/// The corpus invariant a generation call relies on: both tables are well
/// formed and every compound's characters have entries in the character
/// tables.
pub open spec fn corpus_wf(kd: KanjiData, wd: WordData) -> bool {
    &&& kd.wf()
    &&& wd.wf()
    &&& forall|i: int|
        0 <= i < wd.twos@.len() ==> kd.has_ji((#[trigger] wd.twos@[i]).a) && kd.has_ji(
            wd.twos@[i].b,
        )
}

/// `c` lies within `[lo, hi]` in the class order.
pub open spec fn class_between(c: KanjiClass, lo: KanjiClass, hi: KanjiClass) -> bool {
    lo.le_spec(c) && c.le_spec(hi)
}

/// `ji` may serve as an answer: it is in the corpus and its class lies
/// within the configured bounds.
pub open spec fn answer_eligible(kd: KanjiData, opts: PuzzleOptions, ji: Ji) -> bool {
    &&& kd.has_ji(ji)
    &&& class_between(kd.meta_of_spec(ji).class, opts.min_kanji_class, opts.max_kanji_class)
}

/// The compound contains the candidate answer character.
pub open spec fn compound_gives_hint(c: crate::data::Compound2, answer: Ji) -> bool {
    c.a == answer || c.b == answer
}

/// The hint derived from a compound containing the answer: the other
/// character, and the side the answer stands on.
pub open spec fn hint_of(c: crate::data::Compound2, answer: Ji) -> Hint {
    if c.a == answer {
        Hint {
            answer,
            answer_location: Loc::L,
            hint: c.b,
            rank: c.word.rank,
            irregular: c.irregularness.is_irregular_spec(),
        }
    } else {
        Hint {
            answer,
            answer_location: Loc::R,
            hint: c.a,
            rank: c.word.rank,
            irregular: c.irregularness.is_irregular_spec(),
        }
    }
}

/// The compound's rank lies in the configured window and both its
/// characters' classes lie within the configured bounds.
pub open spec fn hint_window_ok(c: crate::data::Compound2, kd: KanjiData, opts: PuzzleOptions) -> bool {
    &&& opts.min_word_rarity <= c.word.rank <= opts.max_word_rarity
    &&& class_between(
        kd.meta_of_spec(c.a).class,
        opts.min_word_kanji_class,
        opts.max_word_kanji_class,
    )
    &&& class_between(
        kd.meta_of_spec(c.b).class,
        opts.min_word_kanji_class,
        opts.max_word_kanji_class,
    )
}

/// The hints extracted from a prefix of the compound table, in table order.
pub open spec fn hints_from(
    twos: Seq<crate::data::Compound2>,
    kd: KanjiData,
    answer: Ji,
    opts: PuzzleOptions,
) -> Seq<Hint>
    decreases twos.len(),
{
    if twos.len() == 0 {
        Seq::empty()
    } else {
        hints_from(twos.drop_last(), kd, answer, opts) + (if hint_window_ok(twos.last(), kd, opts)
            && compound_gives_hint(twos.last(), answer) {
            seq![hint_of(twos.last(), answer)]
        } else {
            Seq::empty()
        })
    }
}

/// Every usable hint of the candidate answer, in compound-table order.
pub open spec fn usable_hints_spec(
    kd: KanjiData,
    wd: WordData,
    answer: Ji,
    opts: PuzzleOptions,
) -> Seq<Hint> {
    hints_from(wd.twos@, kd, answer, opts)
}

/// `y` is listed among the variant characters of `x`.
pub open spec fn is_variant_of(kd: KanjiData, x: Ji, y: Ji) -> bool {
    kd.meta_of_spec(x).variants@.contains(y)
}

/// Some two chosen hints present each other's written variants: duplicate
/// information, checked in both directions.
pub open spec fn has_variant_pair(kd: KanjiData, sel: Seq<Hint>) -> bool {
    exists|i: int, j: int|
        0 <= i < sel.len() && 0 <= j < sel.len() && i != j && is_variant_of(
            kd,
            sel[i].hint,
            sel[j].hint,
        )
}

/// Substituting `k` for the answer at the hint's location still forms a
/// compound present in the corpus.
pub open spec fn matches_hint(wd: WordData, h: Hint, k: Ji) -> bool {
    match h.answer_location {
        Loc::L => wd.has_pair(k, h.hint),
        Loc::R => wd.has_pair(h.hint, k),
    }
}

/// `k` is an unintended solution: a different character that still fits
/// every chosen hint.
pub open spec fn unintended(wd: WordData, answer: Ji, sel: Seq<Hint>, k: Ji) -> bool {
    k != answer && forall|t: int| 0 <= t < sel.len() ==> matches_hint(wd, #[trigger] sel[t], k)
}

/// No character of the corpus other than the answer fits every chosen hint.
pub open spec fn no_unintended(kd: KanjiData, wd: WordData, answer: Ji, sel: Seq<Hint>) -> bool {
    forall|k: Ji| #[trigger] kd.has_ji(k) ==> !unintended(wd, answer, sel, k)
}

impl<'a> Generator<'a> {
    pub fn new(
        rng: rand_xoshiro::Xoshiro256PlusPlus,
        kanji_data: &'a KanjiData,
        word_data: &'a WordData,
    ) -> (g: Generator<'a>)
        ensures
            g.rng == rng,
            g.kanji_data == kanji_data,
            g.word_data == word_data,
    {
        Generator { rng, kanji_data, word_data }
    }

    /// Whether two written forms of the same character appear among the
    /// chosen hints, checking each pair in both directions.
    pub fn contains_same_hint(&self, hints: &Vec<Hint>) -> (r: bool)
        requires
            self.kanji_data.wf(),
            forall|t: int| 0 <= t < hints@.len() ==> self.kanji_data.has_ji((#[trigger] hints@[t]).hint),
        ensures
            r == has_variant_pair(*self.kanji_data, hints@),
    {
        let n = hints.len();
        let mut i: usize = 0;
        while i < n
            invariant
                n == hints@.len(),
                self.kanji_data.wf(),
                forall|t: int|
                    0 <= t < hints@.len() ==> self.kanji_data.has_ji((#[trigger] hints@[t]).hint),
                i <= n,
                forall|p: int, q: int|
                    0 <= p < i && 0 <= q < n && p != q ==> !is_variant_of(
                        *self.kanji_data,
                        (#[trigger] hints@[p]).hint,
                        (#[trigger] hints@[q]).hint,
                    ),
            decreases n - i,
        {
            let mut j: usize = 0;
            while j < n
                invariant
                    n == hints@.len(),
                    self.kanji_data.wf(),
                    forall|t: int|
                        0 <= t < hints@.len() ==> self.kanji_data.has_ji(
                            (#[trigger] hints@[t]).hint,
                        ),
                    i < n,
                    j <= n,
                    forall|q: int|
                        0 <= q < j && q != i ==> !is_variant_of(
                            *self.kanji_data,
                            hints@[i as int].hint,
                            (#[trigger] hints@[q]).hint,
                        ),
                decreases n - j,
            {
                if j != i {
                    if self.is_variant(hints[i].hint, hints[j].hint) {
                        return true;
                    }
                }
                j = j + 1;
            }
            i = i + 1;
        }
        false
    }

    /// Whether `y` is listed among the variants of `x`.
    fn is_variant(&self, x: Ji, y: Ji) -> (r: bool)
        requires
            self.kanji_data.wf(),
            self.kanji_data.has_ji(x),
        ensures
            r == is_variant_of(*self.kanji_data, x, y),
    {
        let meta = match self.kanji_data.meta_of(x) {
            Some(m) => m,
            None => {
                return false;
            },
        };
        let mut t: usize = 0;
        while t < meta.variants.len()
            invariant
                meta == self.kanji_data.meta_of_spec(x),
                t <= meta.variants@.len(),
                forall|u: int| 0 <= u < t ==> meta.variants@[u] != y,
            decreases meta.variants@.len() - t,
        {
            if meta.variants[t].0 == y.0 {
                return true;
            }
            t = t + 1;
        }
        false
    }

    /// Every character of the corpus, other than the answer, that still
    /// fits all chosen hints: a non-empty result means the puzzle would be
    /// ambiguous.
    pub fn find_unintended_solutions(&self, answer: Ji, hints: &Vec<Hint>) -> (r: Vec<Ji>)
        ensures
            forall|k: Ji|
                r@.contains(k) <==> (self.kanji_data.has_ji(k) && unintended(
                    *self.word_data,
                    answer,
                    hints@,
                    k,
                )),
            r@.len() == 0 <==> no_unintended(*self.kanji_data, *self.word_data, answer, hints@),
    {
        let kd = self.kanji_data;
        let wd = self.word_data;
        let n = kd.kanjis.len();
        let mut r: Vec<Ji> = Vec::new();
        let mut i: usize = 0;
        while i < n
            invariant
                n == kd.kanjis@.len(),
                i <= n,
                forall|k: Ji|
                    r@.contains(k) <==> exists|idx: int|
                        0 <= idx < i && (#[trigger] kd.kanjis@[idx]).ji == k && unintended(
                            *wd,
                            answer,
                            hints@,
                            k,
                        ),
            decreases n - i,
        {
            let k = kd.kanjis[i].ji;
            if k.0 != answer.0 {
                let m = hints.len();
                let mut all = true;
                let mut t: usize = 0;
                while t < m
                    invariant
                        m == hints@.len(),
                        t <= m,
                        all <==> (forall|u: int|
                            0 <= u < t ==> matches_hint(*wd, #[trigger] hints@[u], k)),
                    decreases m - t,
                {
                    let h = hints[t];
                    let ok = match h.answer_location {
                        Loc::L => wd.contains_pair(k, h.hint),
                        Loc::R => wd.contains_pair(h.hint, k),
                    };
                    if !ok {
                        all = false;
                    }
                    t = t + 1;
                }
                if all {
                    let ghost prev = r@;
                    r.push(k);
                    proof {
                        assert(r@ =~= prev.push(k));
                        assert forall|kk: Ji| #[trigger] r@.contains(kk) implies (exists|idx: int|
                            0 <= idx < i + 1 && (#[trigger] kd.kanjis@[idx]).ji == kk && unintended(
                                *wd,
                                answer,
                                hints@,
                                kk,
                            )) by {
                            if kk == k {
                                assert(kd.kanjis@[i as int].ji == kk);
                            } else {
                                assert(prev.contains(kk));
                            }
                        }
                        assert forall|kk: Ji|
                            (exists|idx: int|
                                0 <= idx < i + 1 && (#[trigger] kd.kanjis@[idx]).ji == kk
                                    && unintended(*wd, answer, hints@, kk)) implies r@.contains(
                            kk,
                        ) by {
                            let idx = choose|idx: int|
                                0 <= idx < i + 1 && (#[trigger] kd.kanjis@[idx]).ji == kk
                                    && unintended(*wd, answer, hints@, kk);
                            if idx < i {
                                assert(prev.contains(kk));
                                let w = choose|w: int| 0 <= w < prev.len() && prev[w] == kk;
                                assert(r@[w] == kk);
                            } else {
                                assert(r@[prev.len() as int] == kk);
                            }
                        }
                    }
                }
            }
            i = i + 1;
        }
        proof {
            assert forall|k: Ji| #[trigger] r@.contains(k) implies (kd.has_ji(k) && unintended(
                *wd,
                answer,
                hints@,
                k,
            )) by {}
            assert forall|k: Ji| kd.has_ji(k) && unintended(*wd, answer, hints@, k) implies r@.contains(
                k,
            ) by {
                let idx = choose|idx: int| 0 <= idx < kd.kanjis@.len() && kd.kanjis@[idx].ji == k;
                assert(0 <= idx < i && kd.kanjis@[idx].ji == k);
            }
            if r@.len() == 0 {
                assert forall|k: Ji| kd.has_ji(k) implies !unintended(*wd, answer, hints@, k) by {
                    if unintended(*wd, answer, hints@, k) {
                        assert(r@.contains(k));
                    }
                }
            } else {
                assert(r@.contains(r@[0]));
            }
        }
        r
    }
}

/// In a well-formed character table, a position is recovered from its
/// character.
proof fn lemma_index_unique(kd: KanjiData, idx: int)
    requires
        kd.wf(),
        0 <= idx < kd.kanjis@.len(),
    ensures
        kd.has_ji(kd.kanjis@[idx].ji),
        kd.index_of_spec(kd.kanjis@[idx].ji) == idx,
        kd.meta_of_spec(kd.kanjis@[idx].ji) == kd.kanji_metas@[idx],
        kd.kanji_of_spec(kd.kanjis@[idx].ji) == kd.kanjis@[idx],
{
    let ji = kd.kanjis@[idx].ji;
    assert(kd.has_ji(ji));
    let chosen = kd.index_of_spec(ji);
    if chosen != idx {
        assert(kd.kanjis@[chosen].ji == ji);
    }
}

/// Every extracted hint names the candidate answer and a hint character
/// present in the character table.
proof fn lemma_hints_from_props(
    twos: Seq<crate::data::Compound2>,
    kd: KanjiData,
    answer: Ji,
    opts: PuzzleOptions,
)
    requires
        forall|i: int|
            0 <= i < twos.len() ==> kd.has_ji((#[trigger] twos[i]).a) && kd.has_ji(twos[i].b),
    ensures
        forall|t: int|
            0 <= t < hints_from(twos, kd, answer, opts).len() ==> {
                let h = #[trigger] hints_from(twos, kd, answer, opts)[t];
                h.answer == answer && kd.has_ji(h.hint)
            },
    decreases twos.len(),
{
    if twos.len() > 0 {
        assert forall|i: int| 0 <= i < twos.drop_last().len() implies kd.has_ji(
            (#[trigger] twos.drop_last()[i]).a,
        ) && kd.has_ji(twos.drop_last()[i].b) by {
            assert(twos.drop_last()[i] == twos[i]);
        }
        lemma_hints_from_props(twos.drop_last(), kd, answer, opts);
        assert(twos[twos.len() - 1] == twos.last());
    }
}

impl<'a> Generator<'a> {
    /// Scans the compound table for hints usable for the candidate answer:
    /// compounds in the configured rarity window whose characters' classes
    /// lie within the configured bounds and which contain the candidate.
    pub fn find_usable_hints(&self, answer: Ji, options: &PuzzleOptions) -> (r: Vec<Hint>)
        requires
            corpus_wf(*self.kanji_data, *self.word_data),
        ensures
            r@ == usable_hints_spec(*self.kanji_data, *self.word_data, answer, *options),
    {
        let kd = self.kanji_data;
        let wd = self.word_data;
        let n = wd.twos.len();
        let mut r: Vec<Hint> = Vec::new();
        let mut i: usize = 0;
        proof {
            assert(wd.twos@.take(0) =~= Seq::<crate::data::Compound2>::empty());
        }
        while i < n
            invariant
                corpus_wf(*kd, *wd),
                n == wd.twos@.len(),
                i <= n,
                r@ == hints_from(wd.twos@.take(i as int), *kd, answer, *options),
            decreases n - i,
        {
            let c = &wd.twos[i];
            let ma = match kd.meta_of(c.a) {
                Some(m) => m,
                None => {
                    proof {
                        assert(false);
                    }
                    return r;
                },
            };
            let mb = match kd.meta_of(c.b) {
                Some(m) => m,
                None => {
                    proof {
                        assert(false);
                    }
                    return r;
                },
            };
            let wok = options.min_word_rarity <= c.word.rank && c.word.rank
                <= options.max_word_rarity && options.min_word_kanji_class.le(ma.class)
                && ma.class.le(options.max_word_kanji_class) && options.min_word_kanji_class.le(
                mb.class,
            ) && mb.class.le(options.max_word_kanji_class);
            if wok {
                if c.a.0 == answer.0 {
                    r.push(
                        Hint {
                            answer,
                            answer_location: Loc::L,
                            hint: c.b,
                            rank: c.word.rank,
                            irregular: c.irregularness.is_irregular(),
                        },
                    );
                } else if c.b.0 == answer.0 {
                    r.push(
                        Hint {
                            answer,
                            answer_location: Loc::R,
                            hint: c.a,
                            rank: c.word.rank,
                            irregular: c.irregularness.is_irregular(),
                        },
                    );
                }
            }
            proof {
                assert(wd.twos@.take(i + 1).drop_last() =~= wd.twos@.take(i as int));
                assert(wd.twos@.take(i + 1).last() == wd.twos@[i as int]);
                assert(r@ =~= hints_from(wd.twos@.take(i + 1), *kd, answer, *options));
            }
            i = i + 1;
        }
        proof {
            assert(wd.twos@.take(n as int) =~= wd.twos@);
        }
        r
    }

    /// Ranks the candidate answers: filters the character table to the
    /// configured class window and weighted-shuffles it, boosting
    /// characters rarer than the configured rank by the configured bias.
    pub fn choose_kanji(&mut self, options: &PuzzleOptions) -> (r: Vec<Ji>)
        requires
            old(self).kanji_data.wf(),
        ensures
            final(self).kanji_data == old(self).kanji_data,
            final(self).word_data == old(self).word_data,
            r@.no_duplicates(),
            forall|ji: Ji|
                #[trigger] r@.contains(ji) <==> answer_eligible(
                    *old(self).kanji_data,
                    *options,
                    ji,
                ),
    {
        let kd = self.kanji_data;
        let n = kd.kanjis.len();
        let mut elig: Vec<Ji> = Vec::new();
        let mut weights: Vec<u128> = Vec::new();
        let mut i: usize = 0;
        while i < n
            invariant
                kd.wf(),
                n == kd.kanjis@.len(),
                i <= n,
                weights@.len() == elig@.len(),
                forall|t: int|
                    0 <= t < elig@.len() ==> answer_eligible(*kd, *options, #[trigger] elig@[t]),
                forall|t: int|
                    0 <= t < elig@.len() ==> exists|idx: int|
                        0 <= idx < i && kd.kanjis@[idx].ji == #[trigger] elig@[t],
                forall|t1: int, t2: int| 0 <= t1 < t2 < elig@.len() ==> elig@[t1] != elig@[t2],
                forall|idx: int|
                    0 <= idx < i && answer_eligible(*kd, *options, (#[trigger] kd.kanjis@[idx]).ji)
                        ==> elig@.contains(kd.kanjis@[idx].ji),
            decreases n - i,
        {
            let k = kd.kanjis[i];
            proof {
                lemma_index_unique(*kd, i as int);
            }
            let cls = kd.kanji_metas[i].class;
            if options.min_kanji_class.le(cls) && cls.le(options.max_kanji_class) {
                let ghost prev = elig@;
                elig.push(k.ji);
                weights.push(
                    if k.rank > options.rare_kanji_rank {
                        options.rare_kanji_bias as u128
                    } else {
                        1000
                    },
                );
                proof {
                    assert(elig@ =~= prev.push(k.ji));
                    assert forall|t1: int, t2: int| 0 <= t1 < t2 < elig@.len() implies elig@[t1]
                        != elig@[t2] by {
                        if t2 == elig@.len() - 1 {
                            let idx = choose|idx: int|
                                0 <= idx < i && kd.kanjis@[idx].ji == prev[t1];
                            if prev[t1] == k.ji {
                                assert(kd.kanjis@[idx].ji == kd.kanjis@[i as int].ji);
                            }
                        }
                    }
                    assert forall|idx: int|
                        0 <= idx < i + 1 && answer_eligible(
                            *kd,
                            *options,
                            (#[trigger] kd.kanjis@[idx]).ji,
                        ) implies elig@.contains(kd.kanjis@[idx].ji) by {
                        if idx < i {
                            assert(prev.contains(kd.kanjis@[idx].ji));
                            let w = choose|w: int|
                                0 <= w < prev.len() && prev[w] == kd.kanjis@[idx].ji;
                            assert(elig@[w] == kd.kanjis@[idx].ji);
                        } else {
                            assert(elig@[prev.len() as int] == k.ji);
                        }
                    }
                }
            }
            i = i + 1;
        }
        let shuffled = weighted_shuffle(&elig, &weights, &mut self.rng);
        proof {
            let p = choose|p: Seq<int>| is_shuffle_of(shuffled@, elig@, weights@, p);
            assert forall|ji: Ji| #[trigger] shuffled@.contains(ji) implies answer_eligible(
                *kd,
                *options,
                ji,
            ) by {
                let pos = choose|pos: int| 0 <= pos < shuffled@.len() && shuffled@[pos] == ji;
                assert(shuffled@[pos] == elig@[p[pos]]);
            }
            assert forall|ji: Ji| answer_eligible(*kd, *options, ji) implies #[trigger] shuffled@.contains(
                ji,
            ) by {
                let idx = choose|idx: int| 0 <= idx < kd.kanjis@.len() && kd.kanjis@[idx].ji == ji;
                assert(elig@.contains(kd.kanjis@[idx].ji));
                let t = choose|t: int| 0 <= t < elig@.len() && elig@[t] == ji;
                assert(p.contains(t));
                let pos = choose|pos: int| 0 <= pos < p.len() && p[pos] == t;
                assert(shuffled@[pos] == ji);
            }
            assert forall|pos1: int, pos2: int| 0 <= pos1 < pos2 < shuffled@.len() implies shuffled@[pos1]
                != shuffled@[pos2] by {
                assert(shuffled@[pos1] == elig@[p[pos1]]);
                assert(shuffled@[pos2] == elig@[p[pos2]]);
                assert(p[pos1] != p[pos2]);
            }
        }
        shuffled
    }
}

/// Tier `t` of the hint pool: the hint list reversed (so rarer words come
/// first) and partitioned into `num` near-equal chunks.
pub open spec fn tier(hints: Seq<Hint>, num: nat, t: int) -> Seq<Hint> {
    split_spec(hints.reverse(), num)[t]
}

/// `a` holds exactly the members of `b`, with equal length.
pub open spec fn same_members<T>(a: Seq<T>, b: Seq<T>) -> bool {
    &&& a.len() == b.len()
    &&& forall|x: T| #[trigger] a.contains(x) ==> b.contains(x)
    &&& forall|x: T| #[trigger] b.contains(x) ==> a.contains(x)
}

/// A choice of one hint from each leading tier that yields a sound puzzle:
/// no chosen hint characters are written variants of one another, and no
/// other corpus character fits all chosen hints.
pub open spec fn valid_selection(
    kd: KanjiData,
    wd: WordData,
    answer: Ji,
    hints: Seq<Hint>,
    opts: PuzzleOptions,
    sel: Seq<Hint>,
) -> bool {
    &&& sel.len() == opts.guarantee_answer_by
    &&& forall|t: int|
        0 <= t < sel.len() ==> tier(hints, opts.num_hints as nat, t).contains(#[trigger] sel[t])
    &&& !has_variant_pair(kd, sel)
    &&& no_unintended(kd, wd, answer, sel)
}

/// What a returned puzzle promises: its guaranteed hints form a valid
/// selection, and each extra hint comes from one of the remaining tiers.
pub open spec fn puzzle_ok(
    kd: KanjiData,
    wd: WordData,
    answer: Ji,
    hints: Seq<Hint>,
    opts: PuzzleOptions,
    p: Puzzle,
) -> bool {
    &&& p.answer == answer
    &&& valid_selection(kd, wd, answer, hints, opts, p.hints@)
    &&& p.extra_hints@.len() == opts.num_hints - opts.guarantee_answer_by
    &&& forall|t: int|
        0 <= t < p.extra_hints@.len() ==> tier(
            hints,
            opts.num_hints as nat,
            opts.guarantee_answer_by + t,
        ).contains(#[trigger] p.extra_hints@[t])
}

/// The hints a combination of tier indices selects.
pub open spec fn combo_sel(tiers: Seq<Seq<Hint>>, combo: Seq<usize>) -> Seq<Hint> {
    Seq::new(combo.len() as nat, |t: int| tiers[t][combo[t] as int])
}

impl<'a> Generator<'a> {
    /// Searches for a puzzle around one candidate answer: tiers the hint
    /// pool, weighted-shuffles each tier, and tries hint combinations in
    /// diagonal order, accepting the first that is free of variant pairs
    /// and of unintended solutions.  Returns `None` exactly when too few
    /// hints exist or no combination from the leading tiers is acceptable.
    pub fn choose_puzzle_from(&mut self, answer: Ji, hints: &Vec<Hint>, options: &PuzzleOptions) -> (r:
        Option<Puzzle>)
        requires
            corpus_wf(*old(self).kanji_data, *old(self).word_data),
            options.wf(),
            hints@.len() < usize::MAX,
            forall|t: int|
                0 <= t < hints@.len() ==> old(self).kanji_data.has_ji(
                    (#[trigger] hints@[t]).hint,
                ),
        ensures
            final(self).kanji_data == old(self).kanji_data,
            final(self).word_data == old(self).word_data,
            hints@.len() < options.num_hints ==> final(self).rng == old(self).rng,
            match r {
                Some(p) => hints@.len() >= options.num_hints && puzzle_ok(
                    *old(self).kanji_data,
                    *old(self).word_data,
                    answer,
                    hints@,
                    *options,
                    p,
                ),
                None => !(hints@.len() >= options.num_hints && exists|sel: Seq<Hint>|
                    valid_selection(
                        *old(self).kanji_data,
                        *old(self).word_data,
                        answer,
                        hints@,
                        *options,
                        sel,
                    )),
            },
    {
        let kd = self.kanji_data;
        let wd = self.word_data;
        let num = options.num_hints;
        let g = options.guarantee_answer_by;
        let n = hints.len();
        if n < num {
            return None;
        }
        let ghost hs = hints@;
        let mut rev: Vec<Hint> = Vec::new();
        let mut i: usize = 0;
        while i < n
            invariant
                n == hs.len(),
                hs == hints@,
                i <= n,
                rev@.len() == i,
                forall|t: int| 0 <= t < i ==> #[trigger] rev@[t] == hs[n - 1 - t],
            decreases n - i,
        {
            rev.push(hints[n - 1 - i]);
            i = i + 1;
        }
        proof {
            assert(rev@ =~= hs.reverse());
        }
        let tiers_raw = split(&rev, num);
        proof {
            lemma_split_spec_props(rev@, num as nat);
        }
        let ghost tiers_spec = split_spec(hs.reverse(), num as nat);
        let ghost q = hs.len() / (num as nat);
        let ghost rem = hs.len() % (num as nat);
        proof {
            assert(views_of(tiers_raw@) == tiers_spec);
            assert(tiers_raw@.len() == views_of(tiers_raw@).len());
            assert(tiers_spec.len() == num);
            // every tier element is one of the given hints
            assert forall|u: int, x: Hint|
                0 <= u < num && #[trigger] tier(hs, num as nat, u).contains(x) implies kd.has_ji(
                x.hint,
            ) && hs.contains(x) by {
                let j = choose|j: int|
                    0 <= j < tier(hs, num as nat, u).len() && tier(hs, num as nat, u)[j] == x;
                lemma_flatten_contains(tiers_spec, u, j);
                let w = choose|w: int|
                    0 <= w < hs.reverse().len() && hs.reverse()[w] == x;
                assert(hs[n - 1 - w] == x);
            }
        }
        let mut tiers: Vec<Vec<Hint>> = Vec::new();
        let mut t: usize = 0;
        while t < num
            invariant
                corpus_wf(*kd, *wd),
                options.wf(),
                self.kanji_data == kd,
                self.word_data == wd,
                num == options.num_hints,
                n == hs.len(),
                n >= num,
                views_of(tiers_raw@) == tiers_spec,
                tiers_spec == split_spec(hs.reverse(), num as nat),
                tiers_raw@.len() == num,
                forall|u: int, x: Hint|
                    0 <= u < num && #[trigger] tier(hs, num as nat, u).contains(x) ==> kd.has_ji(
                        x.hint,
                    ),
                t <= num,
                tiers@.len() == t,
                forall|u: int|
                    0 <= u < t ==> same_members(
                        (#[trigger] tiers@[u])@,
                        tier(hs, num as nat, u),
                    ),
            decreases num - t,
        {
            let chunk = &tiers_raw[t];
            proof {
                assert(chunk@ == tiers_spec[t as int]);
                assert(chunk@ == tier(hs, num as nat, t as int));
                assert forall|idx: int| 0 <= idx < chunk@.len() implies kd.has_ji(
                    (#[trigger] chunk@[idx]).hint,
                ) by {
                    assert(tier(hs, num as nat, t as int).contains(chunk@[idx]));
                }
            }
            let mut ws: Vec<u128> = Vec::new();
            let mut u: usize = 0;
            while u < chunk.len()
                invariant
                    corpus_wf(*kd, *wd),
                    options.wf(),
                    u <= chunk@.len(),
                    ws@.len() == u,
                    forall|idx: int|
                        0 <= idx < chunk@.len() ==> kd.has_ji((#[trigger] chunk@[idx]).hint),
                decreases chunk@.len() - u,
            {
                let h = chunk[u];
                let b1: u64 = if h.irregular {
                    options.irregular_hint_bias
                } else {
                    1000
                };
                let kan = match kd.kanji_of(h.hint) {
                    Some(k) => *k,
                    None => {
                        proof {
                            assert(false);
                        }
                        return None;
                    },
                };
                let b2: u64 = if kan.rank > options.rare_kanji_hint_rank {
                    options.rare_kanji_hint_bias
                } else {
                    1000
                };
                let b3: u64 = if h.rank >= options.rare_word_hint_rank {
                    options.rare_word_hint_bias
                } else {
                    1000
                };
                proof {
                    assert((b1 as u128) * (b2 as u128) <= 0x1_0000_0000_0000_0000u128)
                        by (nonlinear_arith)
                        requires
                            b1 <= 0x1_0000_0000u64,
                            b2 <= 0x1_0000_0000u64,
                    ;
                    assert((b1 as u128) * (b2 as u128) * (b3 as u128)
                        <= 0x1_0000_0000_0000_0000_0000_0000u128) by (nonlinear_arith)
                        requires
                            (b1 as u128) * (b2 as u128) <= 0x1_0000_0000_0000_0000u128,
                            b3 <= 0x1_0000_0000u64,
                    ;
                }
                let w = (b1 as u128) * (b2 as u128) * (b3 as u128);
                ws.push(w);
                u = u + 1;
            }
            let shuffled = weighted_shuffle(chunk, &ws, &mut self.rng);
            proof {
                let p = choose|p: Seq<int>| is_shuffle_of(shuffled@, chunk@, ws@, p);
                assert forall|x: Hint| #[trigger] shuffled@.contains(x) implies chunk@.contains(
                    x,
                ) by {
                    let pos = choose|pos: int| 0 <= pos < shuffled@.len() && shuffled@[pos] == x;
                    assert(shuffled@[pos] == chunk@[p[pos]]);
                }
                assert forall|x: Hint| #[trigger] chunk@.contains(x) implies shuffled@.contains(
                    x,
                ) by {
                    let w2 = choose|w2: int| 0 <= w2 < chunk@.len() && chunk@[w2] == x;
                    assert(p.contains(w2));
                    let pos = choose|pos: int| 0 <= pos < p.len() && p[pos] == w2;
                    assert(shuffled@[pos] == x);
                }
                assert(same_members(shuffled@, tier(hs, num as nat, t as int)));
            }
            tiers.push(shuffled);
            t = t + 1;
        }
        let mut dims: Vec<usize> = Vec::new();
        let mut t2: usize = 0;
        while t2 < g
            invariant
                g <= num,
                num == options.num_hints,
                tiers@.len() == num,
                t2 <= g,
                dims@.len() == t2,
                forall|u: int| 0 <= u < t2 ==> #[trigger] dims@[u] == (#[trigger] tiers@[u])@.len(),
            decreases g - t2,
        {
            let l = tiers[t2].len();
            dims.push(l);
            t2 = t2 + 1;
        }
        proof {
            assert forall|u: int| 0 <= u < g implies #[trigger] dims@[u] == q + if u < rem {
                1int
            } else {
                0int
            } by {
                assert(same_members(tiers@[u]@, tier(hs, num as nat, u)));
                assert(tiers_spec[u].len() == q + if u < rem {
                    1int
                } else {
                    0int
                });
            }
            lemma_chunk_lens_sum(dims@, q as int, rem as int);
            assert(g * q <= num * q) by (nonlinear_arith)
                requires
                    0 <= g <= num,
                    q >= 0,
            ;
            vstd::arithmetic::div_mod::lemma_fundamental_div_mod(hs.len() as int, num as int);
            assert(dims_sum(dims@) <= hs.len());
        }
        let combos = multi_cartesian_diagonal(&dims);
        proof {
            lemma_diagonal_props(dims@);
        }
        let ghost tiers_vs = views_of(tiers@);
        let nc = combos.len();
        let mut c: usize = 0;
        while c < nc
            invariant
                corpus_wf(*kd, *wd),
                options.wf(),
                self.kanji_data == kd,
                self.word_data == wd,
                kd == old(self).kanji_data,
                wd == old(self).word_data,
                hs == hints@,
                num == options.num_hints,
                g == options.guarantee_answer_by,
                1 <= g <= num,
                n == hs.len(),
                n >= num,
                tiers@.len() == num,
                tiers_vs == views_of(tiers@),
                forall|u: int|
                    0 <= u < num ==> same_members(
                        (#[trigger] tiers@[u])@,
                        tier(hs, num as nat, u),
                    ),
                forall|u: int, x: Hint|
                    0 <= u < num && #[trigger] tier(hs, num as nat, u).contains(x) ==> kd.has_ji(
                        x.hint,
                    ),
                forall|u: int| 0 <= u < num ==> (#[trigger] tiers@[u])@.len() >= 1,
                dims@.len() == g,
                forall|u: int| 0 <= u < g ==> #[trigger] dims@[u] == (#[trigger] tiers@[u])@.len(),
                nc == combos@.len(),
                views_of(combos@) == diagonal_spec(dims@),
                forall|idx: int|
                    0 <= idx < views_of(combos@).len() ==> {
                        let tu = #[trigger] views_of(combos@)[idx];
                        tu.len() == g && (forall|m: int| 0 <= m < tu.len() ==> tu[m] < dims@[m])
                    },
                c <= nc,
                forall|cc: int|
                    0 <= cc < c ==> {
                        let sel = combo_sel(tiers_vs, #[trigger] views_of(combos@)[cc]);
                        has_variant_pair(*kd, sel) || !no_unintended(*kd, *wd, answer, sel)
                    },
            decreases nc - c,
        {
            let combo = &combos[c];
            let ghost combo_v = views_of(combos@)[c as int];
            proof {
                assert(combo@ == combo_v);
            }
            let mut chosen: Vec<Hint> = Vec::new();
            let mut t3: usize = 0;
            while t3 < g
                invariant
                    g <= tiers@.len(),
                    dims@.len() == g,
                    forall|u: int|
                        0 <= u < g ==> #[trigger] dims@[u] == (#[trigger] tiers@[u])@.len(),
                    combo_v == combo@,
                    combo_v.len() == g,
                    forall|m: int| 0 <= m < g ==> #[trigger] combo_v[m] < dims@[m],
                    tiers_vs == views_of(tiers@),
                    t3 <= g,
                    chosen@.len() == t3,
                    forall|m: int|
                        0 <= m < t3 ==> #[trigger] chosen@[m] == tiers_vs[m][combo_v[m] as int],
                decreases g - t3,
            {
                let idx = combo[t3];
                chosen.push(tiers[t3][idx]);
                t3 = t3 + 1;
            }
            proof {
                assert(chosen@ =~= combo_sel(tiers_vs, combo_v));
                assert forall|m: int| 0 <= m < chosen@.len() implies kd.has_ji(
                    (#[trigger] chosen@[m]).hint,
                ) by {
                    assert(tiers@[m]@.contains(chosen@[m]));
                    assert(tier(hs, num as nat, m).contains(chosen@[m]));
                }
            }
            let mut accept = false;
            if !self.contains_same_hint(&chosen) {
                let un = self.find_unintended_solutions(answer, &chosen);
                if un.len() == 0 {
                    accept = true;
                }
            }
            if accept {
                let mut extra: Vec<Hint> = Vec::new();
                let mut t4: usize = g;
                while t4 < num
                    invariant
                        g <= num,
                        tiers@.len() == num,
                        tiers_vs == views_of(tiers@),
                        forall|u: int| 0 <= u < num ==> (#[trigger] tiers@[u])@.len() >= 1,
                        g <= t4 <= num,
                        extra@.len() == t4 - g,
                        forall|m: int|
                            0 <= m < extra@.len() ==> #[trigger] extra@[m] == tiers_vs[g + m][0],
                    decreases num - t4,
                {
                    let e = tiers[t4][0];
                    extra.push(e);
                    t4 = t4 + 1;
                }
                proof {
                    assert forall|m: int| 0 <= m < extra@.len() implies tier(
                        hs,
                        num as nat,
                        g + m,
                    ).contains(#[trigger] extra@[m]) by {
                        assert(extra@[m] == tiers@[g + m]@[0]);
                        assert(tiers@[g + m]@.contains(extra@[m]));
                    }
                    assert forall|m: int| 0 <= m < chosen@.len() implies tier(
                        hs,
                        num as nat,
                        m,
                    ).contains(#[trigger] chosen@[m]) by {
                        assert(tiers@[m]@.contains(chosen@[m]));
                    }
                }
                return Some(Puzzle { answer, hints: chosen, extra_hints: extra });
            }
            c = c + 1;
        }
        proof {
            if exists|sel: Seq<Hint>| valid_selection(*kd, *wd, answer, hs, *options, sel) {
                let sel = choose|sel: Seq<Hint>| valid_selection(*kd, *wd, answer, hs, *options, sel);
                let ix = Seq::new(g as nat, |m: int| pick_index(tiers_vs[m], sel[m]) as usize);
                assert forall|m: int| 0 <= m < g implies #[trigger] ix[m] < dims@[m] by {
                    assert(tier(hs, num as nat, m).contains(sel[m]));
                    assert(tiers@[m]@.contains(sel[m]));
                    lemma_pick_index(tiers_vs[m], sel[m]);
                }
                lemma_diagonal_complete(ix, dims@);
                let cc = choose|cc: int|
                    0 <= cc < views_of(combos@).len() && views_of(combos@)[cc] == ix;
                let sel2 = combo_sel(tiers_vs, ix);
                assert forall|m: int| 0 <= m < g implies #[trigger] sel2[m] == sel[m] by {
                    lemma_pick_index(tiers_vs[m], sel[m]);
                }
                assert(sel2 =~= sel);
                assert(has_variant_pair(*kd, sel2) || !no_unintended(*kd, *wd, answer, sel2));
            }
        }
        None
    }
}

/// A candidate answer works: it yields at least `num_hints` usable hints
/// and some selection from the leading tiers is acceptable.
pub open spec fn candidate_works(kd: KanjiData, wd: WordData, ji: Ji, opts: PuzzleOptions) -> bool {
    &&& usable_hints_spec(kd, wd, ji, opts).len() >= opts.num_hints
    &&& exists|sel: Seq<Hint>|
        valid_selection(kd, wd, ji, usable_hints_spec(kd, wd, ji, opts), opts, sel)
}

/// No more hints can be extracted than there are compounds.
proof fn lemma_hints_from_len(
    twos: Seq<crate::data::Compound2>,
    kd: KanjiData,
    answer: Ji,
    opts: PuzzleOptions,
)
    ensures
        hints_from(twos, kd, answer, opts).len() <= twos.len(),
    decreases twos.len(),
{
    if twos.len() > 0 {
        lemma_hints_from_len(twos.drop_last(), kd, answer, opts);
    }
}

impl<'a> Generator<'a> {
    /// Generates a puzzle: ranks the eligible answer characters by
    /// weighted shuffle and, for each in order, searches for an acceptable
    /// hint combination, returning the first puzzle found.  Returns `None`
    /// exactly when no eligible character admits a valid puzzle under the
    /// given options: the unrecoverable configuration or corpus
    /// insufficiency fault.
    pub fn choose_puzzle(&mut self, options: &PuzzleOptions) -> (r: Option<Puzzle>)
        requires
            corpus_wf(*old(self).kanji_data, *old(self).word_data),
            options.wf(),
            old(self).word_data.twos@.len() < usize::MAX,
        ensures
            final(self).kanji_data == old(self).kanji_data,
            final(self).word_data == old(self).word_data,
            match r {
                Some(p) => {
                    &&& answer_eligible(*old(self).kanji_data, *options, p.answer)
                    &&& candidate_works(
                        *old(self).kanji_data,
                        *old(self).word_data,
                        p.answer,
                        *options,
                    )
                    &&& puzzle_ok(
                        *old(self).kanji_data,
                        *old(self).word_data,
                        p.answer,
                        usable_hints_spec(
                            *old(self).kanji_data,
                            *old(self).word_data,
                            p.answer,
                            *options,
                        ),
                        *options,
                        p,
                    )
                },
                None => forall|ji: Ji|
                    answer_eligible(*old(self).kanji_data, *options, ji)
                        ==> !candidate_works(
                        *old(self).kanji_data,
                        *old(self).word_data,
                        ji,
                        *options,
                    ),
            },
    {
        let kd = self.kanji_data;
        let wd = self.word_data;
        let ks = self.choose_kanji(options);
        let n = ks.len();
        let mut i: usize = 0;
        while i < n
            invariant
                corpus_wf(*kd, *wd),
                options.wf(),
                self.kanji_data == kd,
                self.word_data == wd,
                kd == old(self).kanji_data,
                wd == old(self).word_data,
                wd.twos@.len() < usize::MAX,
                n == ks@.len(),
                forall|ji: Ji|
                    #[trigger] ks@.contains(ji) <==> answer_eligible(*kd, *options, ji),
                i <= n,
                forall|idx: int|
                    0 <= idx < i ==> !candidate_works(*kd, *wd, #[trigger] ks@[idx], *options),
            decreases n - i,
        {
            let answer = ks[i];
            let hs = self.find_usable_hints(answer, options);
            proof {
                lemma_hints_from_len(wd.twos@, *kd, answer, *options);
                lemma_hints_from_props(wd.twos@, *kd, answer, *options);
            }
            match self.choose_puzzle_from(answer, &hs, options) {
                Some(p) => {
                    proof {
                        assert(ks@.contains(ks@[i as int]));
                    }
                    return Some(p);
                },
                None => {
                    proof {
                        assert(!candidate_works(*kd, *wd, answer, *options));
                    }
                },
            }
            i = i + 1;
        }
        proof {
            assert forall|ji: Ji| answer_eligible(*kd, *options, ji) implies !candidate_works(
                *kd,
                *wd,
                ji,
                *options,
            ) by {
                assert(ks@.contains(ji));
                let idx = choose|idx: int| 0 <= idx < ks@.len() && ks@[idx] == ji;
                assert(!candidate_works(*kd, *wd, ks@[idx], *options));
            }
        }
        None
    }
}

/// An accepted puzzle presents sound guaranteed hints: no two of their
/// characters are written variants of one another, and no corpus character
/// other than the answer fits all of them.
pub proof fn lemma_accepted_puzzle_sound(
    kd: KanjiData,
    wd: WordData,
    answer: Ji,
    hints: Seq<Hint>,
    opts: PuzzleOptions,
    p: Puzzle,
)
    requires
        puzzle_ok(kd, wd, answer, hints, opts, p),
    ensures
        !has_variant_pair(kd, p.hints@),
        no_unintended(kd, wd, answer, p.hints@),
{
}

/// The position of `x` in `s`, where `x` is known to occur.
spec fn pick_index<T>(s: Seq<T>, x: T) -> int {
    choose|idx: int| 0 <= idx < s.len() && s[idx] == x
}

/// The picked position is in range and yields `x` back.
proof fn lemma_pick_index<T>(s: Seq<T>, x: T)
    requires
        s.contains(x),
    ensures
        0 <= pick_index(s, x) < s.len(),
        s[pick_index(s, x)] == x,
{
}

} // verus!
