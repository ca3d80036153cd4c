use kanjidle::api::ResHint;
use kanjidle::data::{
    Compound2, Ji, Kanji, KanjiClass, KanjiData, KanjiMeta, Loc, Word, WordData,
};
use kanjidle::generate::{Generator, Hint, PuzzleOptions};
use kanjidle::score::Irregularity;
use rand_xoshiro::rand_core::SeedableRng;
use rand_xoshiro::Xoshiro256PlusPlus;

fn meta(class: KanjiClass, variants: &[char]) -> KanjiMeta {
    KanjiMeta {
        level: String::new(),
        class,
        stroke_count: 1,
        radical: String::new(),
        on: vec!["on".to_string()],
        kun: Vec::new(),
        variants: variants.iter().map(|&c| Ji(c)).collect(),
    }
}

fn kanji(c: char, rank: usize) -> Kanji {
    Kanji { ji: Ji(c), rank, count: 1 }
}

fn compound(a: char, b: char, rank: usize) -> Compound2 {
    let text: String = [a, b].iter().collect();
    Compound2 {
        word: Word { text, reading: String::new(), rank },
        a: Ji(a),
        b: Ji(b),
        irregularness: Irregularity { num: 0, den: 1 },
    }
}

fn corpus(chars: &[(char, &[char])], twos: Vec<Compound2>) -> (KanjiData, WordData) {
    let kanjis: Vec<Kanji> = chars.iter().enumerate().map(|(i, &(c, _))| kanji(c, i + 1)).collect();
    let metas: Vec<KanjiMeta> =
        chars.iter().map(|&(_, vs)| meta(KanjiClass::Kyoiku, vs)).collect();
    let kd = KanjiData::new(kanjis, metas).expect("character tables");
    let wd = WordData::new(twos).expect("compound table");
    (kd, wd)
}

fn options(num_hints: usize, guarantee_answer_by: usize) -> PuzzleOptions {
    PuzzleOptions {
        min_kanji_class: KanjiClass::Kyoiku,
        max_kanji_class: KanjiClass::All,
        rare_kanji_rank: 1_000,
        rare_kanji_bias: 1_000,
        min_word_rarity: 0,
        max_word_rarity: 1_000_000,
        min_word_kanji_class: KanjiClass::Kyoiku,
        max_word_kanji_class: KanjiClass::All,
        irregular_hint_bias: 1_000,
        rare_kanji_hint_rank: 1_000,
        rare_kanji_hint_bias: 1_000,
        rare_word_hint_rank: 1_000,
        rare_word_hint_bias: 1_000,
        num_hints,
        guarantee_answer_by,
    }
}

const A: char = '\u{65E5}';
const B: char = '\u{672C}';
const C: char = '\u{4EBA}';
const D: char = '\u{4E2D}';
const E: char = '\u{5C71}';
const X: char = '\u{5DDD}';

fn hint(answer: char, loc: Loc, h: char, rank: usize) -> Hint {
    Hint { answer: Ji(answer), answer_location: loc, hint: Ji(h), rank, irregular: false }
}

#[test]
fn uniqueness_check_on_hand_built_corpus() {
    // compounds AB and AC exist and nothing else forms matching compounds
    let (kd, wd) = corpus(
        &[(A, &[]), (B, &[]), (C, &[])],
        vec![compound(A, B, 1), compound(A, C, 2)],
    );
    let gen = Generator::new(Xoshiro256PlusPlus::seed_from_u64(0), &kd, &wd);
    let hints = vec![hint(A, Loc::L, B, 1), hint(A, Loc::L, C, 2)];
    assert!(gen.find_unintended_solutions(Ji(A), &hints).is_empty());
}

#[test]
fn uniqueness_check_finds_intruder() {
    // adding XB and XC makes X fit the same guaranteed hints as A
    let (kd, wd) = corpus(
        &[(A, &[]), (B, &[]), (C, &[]), (X, &[])],
        vec![
            compound(A, B, 1),
            compound(A, C, 2),
            compound(X, B, 3),
            compound(X, C, 4),
        ],
    );
    let gen = Generator::new(Xoshiro256PlusPlus::seed_from_u64(0), &kd, &wd);
    let hints = vec![hint(A, Loc::L, B, 1), hint(A, Loc::L, C, 2)];
    let intruders = gen.find_unintended_solutions(Ji(A), &hints);
    assert_eq!(intruders, vec![Ji(X)]);
}

#[test]
fn variant_rejection_is_symmetric() {
    // only B lists C as a variant, yet both orders are rejected
    let (kd, wd) = corpus(
        &[(A, &[]), (B, &[C]), (C, &[])],
        vec![compound(A, B, 1), compound(A, C, 2)],
    );
    let gen = Generator::new(Xoshiro256PlusPlus::seed_from_u64(0), &kd, &wd);
    let fwd = vec![hint(A, Loc::L, B, 1), hint(A, Loc::L, C, 2)];
    let bwd = vec![hint(A, Loc::L, C, 2), hint(A, Loc::L, B, 1)];
    assert!(gen.contains_same_hint(&fwd));
    assert!(gen.contains_same_hint(&bwd));
    let unrelated = vec![hint(A, Loc::L, B, 1), hint(A, Loc::R, A, 2)];
    assert!(!gen.contains_same_hint(&unrelated));
}

#[test]
fn find_usable_hints_window_and_sides() {
    let (kd, wd) = corpus(
        &[(A, &[]), (B, &[]), (C, &[])],
        vec![compound(A, B, 10), compound(C, A, 20), compound(B, C, 30)],
    );
    let gen = Generator::new(Xoshiro256PlusPlus::seed_from_u64(0), &kd, &wd);
    let mut opts = options(2, 1);
    let hs = gen.find_usable_hints(Ji(A), &opts);
    assert_eq!(hs.len(), 2);
    assert_eq!(hs[0], hint(A, Loc::L, B, 10));
    assert_eq!(hs[1], hint(A, Loc::R, C, 20));
    // the rank window is inclusive on both ends
    opts.min_word_rarity = 20;
    opts.max_word_rarity = 20;
    let windowed = gen.find_usable_hints(Ji(A), &opts);
    assert_eq!(windowed, vec![hint(A, Loc::R, C, 20)]);
}

#[test]
fn choose_kanji_filters_by_class() {
    let kd = KanjiData::new(
        vec![kanji(A, 1), kanji(B, 2), kanji(C, 3)],
        vec![
            meta(KanjiClass::Kyoiku, &[]),
            meta(KanjiClass::Kentei, &[]),
            meta(KanjiClass::Joyo, &[]),
        ],
    )
    .unwrap();
    let wd = WordData::new(vec![]).unwrap();
    let mut gen = Generator::new(Xoshiro256PlusPlus::seed_from_u64(0), &kd, &wd);
    let mut opts = options(1, 1);
    opts.min_kanji_class = KanjiClass::Kyoiku;
    opts.max_kanji_class = KanjiClass::Joyo;
    let mut ks = gen.choose_kanji(&opts);
    ks.sort();
    let mut expected = vec![Ji(A), Ji(C)];
    expected.sort();
    assert_eq!(ks, expected);
}

#[test]
fn end_to_end_determinism() {
    let (kd, wd) = corpus(
        &[(A, &[]), (B, &[]), (C, &[]), (D, &[]), (E, &[])],
        vec![
            compound(A, B, 1),
            compound(A, C, 2),
            compound(D, E, 3),
            compound(D, C, 4),
        ],
    );
    let opts = options(2, 2);
    let mut puzzles = Vec::new();
    for seed in 0..16u64 {
        let mut g1 = Generator::new(Xoshiro256PlusPlus::seed_from_u64(seed), &kd, &wd);
        let mut g2 = Generator::new(Xoshiro256PlusPlus::seed_from_u64(seed), &kd, &wd);
        let p1 = g1.choose_puzzle(&opts).expect("a puzzle");
        let p2 = g2.choose_puzzle(&opts).expect("a puzzle");
        assert_eq!(p1, p2);
        assert_eq!(p1.hints.len(), 2);
        assert!(p1.extra_hints.is_empty());
        assert!(p1.answer == Ji(A) || p1.answer == Ji(C) || p1.answer == Ji(D));
        puzzles.push(p1);
    }
    // across seeds, more than one distinct puzzle comes out
    assert!(puzzles.iter().any(|p| p != &puzzles[0]));
}

#[test]
fn insufficient_hints_is_a_fault() {
    // every eligible answer offers at most three usable compounds, so a
    // request for five hints must abort rather than degrade
    let (kd, wd) = corpus(
        &[(A, &[]), (B, &[]), (C, &[]), (D, &[])],
        vec![compound(A, B, 1), compound(A, C, 2), compound(A, D, 3)],
    );
    let opts = options(5, 2);
    let mut gen = Generator::new(Xoshiro256PlusPlus::seed_from_u64(3), &kd, &wd);
    assert!(gen.choose_puzzle(&opts).is_none());
}

#[test]
fn ambiguous_corpus_yields_no_puzzle() {
    // X fits every hint combination that fits A and vice versa; B is too
    // rare a class to serve as an answer, so nothing can be pinned down
    let kd = KanjiData::new(
        vec![kanji(A, 1), kanji(B, 2), kanji(X, 3)],
        vec![
            meta(KanjiClass::Kyoiku, &[]),
            meta(KanjiClass::Kentei, &[]),
            meta(KanjiClass::Kyoiku, &[]),
        ],
    )
    .unwrap();
    let wd = WordData::new(vec![compound(A, B, 1), compound(X, B, 2)]).unwrap();
    let mut opts = options(1, 1);
    opts.max_kanji_class = KanjiClass::Joyo;
    let mut gen = Generator::new(Xoshiro256PlusPlus::seed_from_u64(5), &kd, &wd);
    assert!(gen.choose_puzzle(&opts).is_none());
}

#[test]
fn generated_puzzle_is_unique_and_variant_free() {
    let (kd, wd) = corpus(
        &[(A, &[]), (B, &[]), (C, &[]), (D, &[]), (E, &[])],
        vec![
            compound(A, B, 1),
            compound(A, C, 2),
            compound(D, E, 3),
            compound(D, C, 4),
        ],
    );
    let opts = options(2, 2);
    for seed in 0..8u64 {
        let mut gen = Generator::new(Xoshiro256PlusPlus::seed_from_u64(seed), &kd, &wd);
        let p = gen.choose_puzzle(&opts).expect("a puzzle");
        let checker = Generator::new(Xoshiro256PlusPlus::seed_from_u64(0), &kd, &wd);
        assert!(!checker.contains_same_hint(&p.hints));
        assert!(checker.find_unintended_solutions(p.answer, &p.hints).is_empty());
    }
}

#[test]
fn res_hint_reduces_a_hint() {
    let h = hint(A, Loc::R, B, 9);
    let r = ResHint::new_from_hint(&h);
    assert_eq!(r.answer, Loc::R);
    assert_eq!(r.hint, Ji(B));
}
