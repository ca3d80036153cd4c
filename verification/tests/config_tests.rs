use kanjidle::config::{get_difficulty, get_seed, to_puzzle_options, Difficulty, Mode};
use kanjidle::data::KanjiClass;

#[test]
fn presets_follow_mode_shape() {
    let classic = to_puzzle_options(Mode::Classic, Difficulty::Normal);
    assert_eq!(classic.num_hints, 4);
    assert_eq!(classic.guarantee_answer_by, 4);
    let hidden = to_puzzle_options(Mode::Hidden, Difficulty::Normal);
    assert_eq!(hidden.num_hints, 8);
    assert_eq!(hidden.guarantee_answer_by, 4);
}

#[test]
fn presets_widen_with_difficulty() {
    let simple = to_puzzle_options(Mode::Classic, Difficulty::Simple);
    assert_eq!(simple.max_kanji_class, KanjiClass::Kyoiku);
    assert_eq!(simple.max_word_rarity, 6_000);
    assert_eq!(simple.rare_kanji_bias, 500);
    let hard = to_puzzle_options(Mode::Classic, Difficulty::Hard);
    assert_eq!(hard.min_word_rarity, 6_000);
    assert_eq!(hard.max_word_rarity, 48_000);
    assert_eq!(hard.irregular_hint_bias, 2_000);
    let lunatic2 = to_puzzle_options(Mode::Classic, Difficulty::Lunatic2);
    assert_eq!(lunatic2.max_kanji_class, KanjiClass::All);
    assert_eq!(lunatic2.max_word_rarity, 400_000);
}

#[test]
fn seed_formula_is_exact() {
    assert_eq!(get_seed(1_000, Mode::Classic, Difficulty::Simple), 1_000);
    assert_eq!(get_seed(1_000, Mode::Hidden, Difficulty::Normal), 1_102);
    assert_eq!(get_seed(0, Mode::Hidden, Difficulty::Lunatic2), 105);
}

#[test]
fn weekday_schedule() {
    assert_eq!(get_difficulty(0), Difficulty::Easy);
    assert_eq!(get_difficulty(1), Difficulty::Normal);
    assert_eq!(get_difficulty(3), Difficulty::Hard);
    assert_eq!(get_difficulty(5), Difficulty::Lunatic);
    assert_eq!(get_difficulty(6), Difficulty::Normal);
}
