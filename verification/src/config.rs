//! The preset policy table: named mode and difficulty combinations mapped
//! to concrete generation options, and the deterministic daily seed.

use vstd::prelude::*;

verus! {

use crate::data::{KanjiClass, MAX_WORD_RANK};
use crate::generate::PuzzleOptions;

/// The puzzle shape: how many hints are produced and how many leading
/// tiers must jointly pin the answer down.
#[derive(Debug, Clone, Copy, PartialEq, Eq, Structural)]
pub enum Mode {
    Classic,
    Hidden,
}

/// Named difficulty, selecting every option other than the puzzle shape.
#[derive(Debug, Clone, Copy, PartialEq, Eq, Structural)]
pub enum Difficulty {
    Simple,
    Easy,
    Normal,
    Hard,
    Lunatic,
    Lunatic2,
}

impl Mode {
    /// Ordinal of the mode in the seed formula.
    pub open spec fn ord_spec(self) -> int {
        match self {
            Mode::Classic => 0,
            Mode::Hidden => 1,
        }
    }
}

impl Difficulty {
    /// Ordinal of the difficulty in the seed formula.
    pub open spec fn ord_spec(self) -> int {
        match self {
            Difficulty::Simple => 0,
            Difficulty::Easy => 1,
            Difficulty::Normal => 2,
            Difficulty::Hard => 3,
            Difficulty::Lunatic => 4,
            Difficulty::Lunatic2 => 5,
        }
    }
}

/// The hint counts of a mode: total hints and the guarantee point.
pub open spec fn mode_shape(mode: Mode) -> (usize, usize) {
    match mode {
        Mode::Classic => (4usize, 4usize),
        Mode::Hidden => (8usize, 4usize),
    }
}

/// The preset option table.  Bias weights are per-mille; the rarity
/// thresholds are fixed policy values.
pub open spec fn preset_options(mode: Mode, difficulty: Difficulty) -> PuzzleOptions {
    let shape = mode_shape(mode);
    match difficulty {
        Difficulty::Simple => PuzzleOptions {
            min_kanji_class: KanjiClass::Kyoiku,
            max_kanji_class: KanjiClass::Kyoiku,
            rare_kanji_rank: 1_500,
            rare_kanji_bias: 500,
            min_word_rarity: 0,
            max_word_rarity: 6_000,
            min_word_kanji_class: KanjiClass::Kyoiku,
            max_word_kanji_class: KanjiClass::Kyoiku,
            irregular_hint_bias: 500,
            rare_kanji_hint_rank: 1_500,
            rare_kanji_hint_bias: 500,
            rare_word_hint_rank: 3_000,
            rare_word_hint_bias: 500,
            num_hints: shape.0,
            guarantee_answer_by: shape.1,
        },
        Difficulty::Easy => PuzzleOptions {
            min_kanji_class: KanjiClass::Kyoiku,
            max_kanji_class: KanjiClass::Kyoiku,
            rare_kanji_rank: 1_500,
            rare_kanji_bias: 1_000,
            min_word_rarity: 0,
            max_word_rarity: 12_000,
            min_word_kanji_class: KanjiClass::Kyoiku,
            max_word_kanji_class: KanjiClass::Kyoiku,
            irregular_hint_bias: 1_000,
            rare_kanji_hint_rank: 1_500,
            rare_kanji_hint_bias: 1_000,
            rare_word_hint_rank: 6_000,
            rare_word_hint_bias: 1_000,
            num_hints: shape.0,
            guarantee_answer_by: shape.1,
        },
        Difficulty::Normal => PuzzleOptions {
            min_kanji_class: KanjiClass::Kyoiku,
            max_kanji_class: KanjiClass::Joyo,
            rare_kanji_rank: 1_500,
            rare_kanji_bias: 1_000,
            min_word_rarity: 0,
            max_word_rarity: 24_000,
            min_word_kanji_class: KanjiClass::Kyoiku,
            max_word_kanji_class: KanjiClass::Joyo,
            irregular_hint_bias: 1_000,
            rare_kanji_hint_rank: 1_500,
            rare_kanji_hint_bias: 1_000,
            rare_word_hint_rank: 12_000,
            rare_word_hint_bias: 1_000,
            num_hints: shape.0,
            guarantee_answer_by: shape.1,
        },
        Difficulty::Hard => PuzzleOptions {
            min_kanji_class: KanjiClass::Kyoiku,
            max_kanji_class: KanjiClass::Joyo,
            rare_kanji_rank: 1_500,
            rare_kanji_bias: 2_000,
            min_word_rarity: 6_000,
            max_word_rarity: 48_000,
            min_word_kanji_class: KanjiClass::Kyoiku,
            max_word_kanji_class: KanjiClass::Joyo,
            irregular_hint_bias: 2_000,
            rare_kanji_hint_rank: 1_500,
            rare_kanji_hint_bias: 2_000,
            rare_word_hint_rank: 24_000,
            rare_word_hint_bias: 2_000,
            num_hints: shape.0,
            guarantee_answer_by: shape.1,
        },
        Difficulty::Lunatic => PuzzleOptions {
            min_kanji_class: KanjiClass::Joyo,
            max_kanji_class: KanjiClass::Kentei,
            rare_kanji_rank: 1_500,
            rare_kanji_bias: 2_000,
            min_word_rarity: 12_000,
            max_word_rarity: 120_000,
            min_word_kanji_class: KanjiClass::Kyoiku,
            max_word_kanji_class: KanjiClass::Kentei,
            irregular_hint_bias: 2_000,
            rare_kanji_hint_rank: 1_500,
            rare_kanji_hint_bias: 2_000,
            rare_word_hint_rank: 60_000,
            rare_word_hint_bias: 2_000,
            num_hints: shape.0,
            guarantee_answer_by: shape.1,
        },
        Difficulty::Lunatic2 => PuzzleOptions {
            min_kanji_class: KanjiClass::Joyo,
            max_kanji_class: KanjiClass::All,
            rare_kanji_rank: 1_500,
            rare_kanji_bias: 2_000,
            min_word_rarity: 12_000,
            max_word_rarity: MAX_WORD_RANK,
            min_word_kanji_class: KanjiClass::Kyoiku,
            max_word_kanji_class: KanjiClass::All,
            irregular_hint_bias: 2_000,
            rare_kanji_hint_rank: 1_500,
            rare_kanji_hint_bias: 2_000,
            rare_word_hint_rank: 200_000,
            rare_word_hint_bias: 2_000,
            num_hints: shape.0,
            guarantee_answer_by: shape.1,
        },
    }
}

/// Builds the concrete options of a named mode and difficulty; the result
/// is always well formed for generation.
pub fn to_puzzle_options(mode: Mode, difficulty: Difficulty) -> (r: PuzzleOptions)
    ensures
        r == preset_options(mode, difficulty),
        r.wf(),
{
    let shape: (usize, usize) = match mode {
        Mode::Classic => (4, 4),
        Mode::Hidden => (8, 4),
    };
    match difficulty {
        Difficulty::Simple => PuzzleOptions {
            min_kanji_class: KanjiClass::Kyoiku,
            max_kanji_class: KanjiClass::Kyoiku,
            rare_kanji_rank: 1_500,
            rare_kanji_bias: 500,
            min_word_rarity: 0,
            max_word_rarity: 6_000,
            min_word_kanji_class: KanjiClass::Kyoiku,
            max_word_kanji_class: KanjiClass::Kyoiku,
            irregular_hint_bias: 500,
            rare_kanji_hint_rank: 1_500,
            rare_kanji_hint_bias: 500,
            rare_word_hint_rank: 3_000,
            rare_word_hint_bias: 500,
            num_hints: shape.0,
            guarantee_answer_by: shape.1,
        },
        Difficulty::Easy => PuzzleOptions {
            min_kanji_class: KanjiClass::Kyoiku,
            max_kanji_class: KanjiClass::Kyoiku,
            rare_kanji_rank: 1_500,
            rare_kanji_bias: 1_000,
            min_word_rarity: 0,
            max_word_rarity: 12_000,
            min_word_kanji_class: KanjiClass::Kyoiku,
            max_word_kanji_class: KanjiClass::Kyoiku,
            irregular_hint_bias: 1_000,
            rare_kanji_hint_rank: 1_500,
            rare_kanji_hint_bias: 1_000,
            rare_word_hint_rank: 6_000,
            rare_word_hint_bias: 1_000,
            num_hints: shape.0,
            guarantee_answer_by: shape.1,
        },
        Difficulty::Normal => PuzzleOptions {
            min_kanji_class: KanjiClass::Kyoiku,
            max_kanji_class: KanjiClass::Joyo,
            rare_kanji_rank: 1_500,
            rare_kanji_bias: 1_000,
            min_word_rarity: 0,
            max_word_rarity: 24_000,
            min_word_kanji_class: KanjiClass::Kyoiku,
            max_word_kanji_class: KanjiClass::Joyo,
            irregular_hint_bias: 1_000,
            rare_kanji_hint_rank: 1_500,
            rare_kanji_hint_bias: 1_000,
            rare_word_hint_rank: 12_000,
            rare_word_hint_bias: 1_000,
            num_hints: shape.0,
            guarantee_answer_by: shape.1,
        },
        Difficulty::Hard => PuzzleOptions {
            min_kanji_class: KanjiClass::Kyoiku,
            max_kanji_class: KanjiClass::Joyo,
            rare_kanji_rank: 1_500,
            rare_kanji_bias: 2_000,
            min_word_rarity: 6_000,
            max_word_rarity: 48_000,
            min_word_kanji_class: KanjiClass::Kyoiku,
            max_word_kanji_class: KanjiClass::Joyo,
            irregular_hint_bias: 2_000,
            rare_kanji_hint_rank: 1_500,
            rare_kanji_hint_bias: 2_000,
            rare_word_hint_rank: 24_000,
            rare_word_hint_bias: 2_000,
            num_hints: shape.0,
            guarantee_answer_by: shape.1,
        },
        Difficulty::Lunatic => PuzzleOptions {
            min_kanji_class: KanjiClass::Joyo,
            max_kanji_class: KanjiClass::Kentei,
            rare_kanji_rank: 1_500,
            rare_kanji_bias: 2_000,
            min_word_rarity: 12_000,
            max_word_rarity: 120_000,
            min_word_kanji_class: KanjiClass::Kyoiku,
            max_word_kanji_class: KanjiClass::Kentei,
            irregular_hint_bias: 2_000,
            rare_kanji_hint_rank: 1_500,
            rare_kanji_hint_bias: 2_000,
            rare_word_hint_rank: 60_000,
            rare_word_hint_bias: 2_000,
            num_hints: shape.0,
            guarantee_answer_by: shape.1,
        },
        Difficulty::Lunatic2 => PuzzleOptions {
            min_kanji_class: KanjiClass::Joyo,
            max_kanji_class: KanjiClass::All,
            rare_kanji_rank: 1_500,
            rare_kanji_bias: 2_000,
            min_word_rarity: 12_000,
            max_word_rarity: MAX_WORD_RANK,
            min_word_kanji_class: KanjiClass::Kyoiku,
            max_word_kanji_class: KanjiClass::All,
            irregular_hint_bias: 2_000,
            rare_kanji_hint_rank: 1_500,
            rare_kanji_hint_bias: 2_000,
            rare_word_hint_rank: 200_000,
            rare_word_hint_bias: 2_000,
            num_hints: shape.0,
            guarantee_answer_by: shape.1,
        },
    }
}

/// The deterministic daily seed: the epoch milliseconds of the target
/// day's UTC midnight, offset by the mode and difficulty ordinals.
pub fn get_seed(midnight_millis: u64, mode: Mode, difficulty: Difficulty) -> (r: u64)
    requires
        midnight_millis <= u64::MAX - 200,
    ensures
        r == midnight_millis + 100 * mode.ord_spec() + difficulty.ord_spec(),
{
    let m: u64 = match mode {
        Mode::Classic => 0,
        Mode::Hidden => 1,
    };
    let d: u64 = match difficulty {
        Difficulty::Simple => 0,
        Difficulty::Easy => 1,
        Difficulty::Normal => 2,
        Difficulty::Hard => 3,
        Difficulty::Lunatic => 4,
        Difficulty::Lunatic2 => 5,
    };
    midnight_millis + 100 * m + d
}

/// The difficulty scheduled for a day of the week, counted from Monday.
pub fn get_difficulty(days_from_monday: u8) -> (r: Difficulty)
    requires
        days_from_monday < 7,
    ensures
        r == (match days_from_monday {
            0u8 => Difficulty::Easy,
            1u8 => Difficulty::Normal,
            2u8 => Difficulty::Normal,
            3u8 => Difficulty::Hard,
            4u8 => Difficulty::Hard,
            5u8 => Difficulty::Lunatic,
            _ => Difficulty::Normal,
        }),
{
    match days_from_monday {
        0 => Difficulty::Easy,
        1 => Difficulty::Normal,
        2 => Difficulty::Normal,
        3 => Difficulty::Hard,
        4 => Difficulty::Hard,
        5 => Difficulty::Lunatic,
        _ => Difficulty::Normal,
    }
}

} // verus!
