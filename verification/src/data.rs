//! The corpus model: characters, their statistics and metadata, and
//! two-character compound words annotated with a reading-irregularity score.
//!
//! The corpus is built once by an external loader, validated by the checked
//! constructors here, and then shared read-only by all generation calls.

use vstd::prelude::*;

verus! {

use vstd::string::StrSliceExecFns;
use crate::score::{irregularness, score_den, score_num, Irregularity};

/// One ideographic character; its identity is its Unicode scalar value.
#[derive(Debug, Clone, Copy, PartialEq, Eq, PartialOrd, Ord, Hash, Structural)]
pub struct Ji(pub char);

impl From<char> for Ji {
    fn from(value: char) -> (r: Ji) {
        Ji(value)
    }
}

impl vstd::std_specs::convert::FromSpecImpl<char> for Ji {
    open spec fn obeys_from_spec() -> bool {
        true
    }

    open spec fn from_spec(value: char) -> Ji {
        Ji(value)
    }
}

impl From<Ji> for char {
    fn from(value: Ji) -> (r: char) {
        value.0
    }
}

impl vstd::std_specs::convert::FromSpecImpl<Ji> for char {
    open spec fn obeys_from_spec() -> bool {
        true
    }

    open spec fn from_spec(value: Ji) -> char {
        value.0
    }
}

/// Ordered tier of character commonality: Kyoiku < Joyo < Kentei < All.
#[derive(Debug, Clone, Copy, PartialEq, Eq, Hash, Structural)]
pub enum KanjiClass {
    Kyoiku,
    Joyo,
    Kentei,
    All,
}

impl KanjiClass {
    /// Position of the class in the commonality order.
    pub open spec fn ord_spec(self) -> int {
        match self {
            KanjiClass::Kyoiku => 0,
            KanjiClass::Joyo => 1,
            KanjiClass::Kentei => 2,
            KanjiClass::All => 3,
        }
    }

    /// `self` is at or below `other` in the commonality order.
    pub open spec fn le_spec(self, other: KanjiClass) -> bool {
        self.ord_spec() <= other.ord_spec()
    }

    pub fn ord(self) -> (r: usize)
        ensures
            r == self.ord_spec(),
    {
        match self {
            KanjiClass::Kyoiku => 0,
            KanjiClass::Joyo => 1,
            KanjiClass::Kentei => 2,
            KanjiClass::All => 3,
        }
    }

    pub fn le(self, other: KanjiClass) -> (r: bool)
        ensures
            r == self.le_spec(other),
    {
        self.ord() <= other.ord()
    }
}

/// Frequency statistics of one character: a rank (ascending means more
/// common) and an occurrence count.
#[derive(Debug, Clone, Copy, PartialEq, Eq, Structural)]
pub struct Kanji {
    pub ji: Ji,
    pub rank: usize,
    pub count: usize,
}

/// One kun reading: a stem and an optional okurigana suffix.
#[derive(Debug, Clone)]
pub struct Kun(pub String, pub Option<String>);

/// Classification and reading metadata of one character.
#[derive(Debug, Clone)]
pub struct KanjiMeta {
    pub level: String,
    pub class: KanjiClass,
    pub stroke_count: usize,
    pub radical: String,
    pub on: Vec<String>,
    pub kun: Vec<Kun>,
    pub variants: Vec<Ji>,
}

/// Which side of a compound the answer character stands on.
#[derive(Debug, Clone, Copy, PartialEq, Eq, Hash, Structural)]
pub enum Loc {
    L,
    R,
}

/// A word as read from the frequency list: surface text, reading, rank.
#[derive(Debug, Clone)]
pub struct Word {
    pub text: String,
    pub reading: String,
    pub rank: usize,
}

/// No character rarer than this rank appears in the character table.
pub const MAX_KANJI_RANK: usize = 3_000;

/// Rank assigned to a compound known only from the dictionary, so that it
/// sorts after every compound with real frequency data.
pub const MAX_WORD_RANK: usize = 400_000;

/// The iteration mark, which repeats the previous character and is excluded
/// as the second character of a compound.
pub open spec fn iteration_mark() -> char {
    '\u{3005}'
}

/// Whether a character carries the Unicode Han script property.  The
/// ranges transcribe the Script=Han assignment: the CJK radical blocks,
/// the Han marks and numerals, the unified ideograph blocks with their
/// extensions, and the compatibility ideographs.
pub open spec fn is_han(c: char) -> bool {
    let u = c as u32;
    ||| (0x2E80 <= u <= 0x2E99)
    ||| (0x2E9B <= u <= 0x2EF3)
    ||| (0x2F00 <= u <= 0x2FD5)
    ||| u == 0x3005
    ||| u == 0x3007
    ||| (0x3021 <= u <= 0x3029)
    ||| (0x3038 <= u <= 0x303B)
    ||| (0x3400 <= u <= 0x4DBF)
    ||| (0x4E00 <= u <= 0x9FFF)
    ||| (0xF900 <= u <= 0xFA6D)
    ||| (0xFA70 <= u <= 0xFAD9)
    ||| (0x16FE2 <= u <= 0x16FE3)
    ||| (0x16FF0 <= u <= 0x16FF1)
    ||| (0x20000 <= u <= 0x2A6DF)
    ||| (0x2A700 <= u <= 0x2B739)
    ||| (0x2B740 <= u <= 0x2B81D)
    ||| (0x2B820 <= u <= 0x2CEA1)
    ||| (0x2CEB0 <= u <= 0x2EBE0)
    ||| (0x2EBF0 <= u <= 0x2EE5D)
    ||| (0x2F800 <= u <= 0x2FA1D)
    ||| (0x30000 <= u <= 0x3134A)
    ||| (0x31350 <= u <= 0x323AF)
}

/// Decides `is_han` for a concrete character.
pub fn is_han_exec(c: char) -> (r: bool)
    ensures
        r == is_han(c),
{
    let u = c as u32;
    ((0x2E80 <= u && u <= 0x2E99)
        || (0x2E9B <= u && u <= 0x2EF3)
        || (0x2F00 <= u && u <= 0x2FD5)
        || u == 0x3005
        || u == 0x3007
        || (0x3021 <= u && u <= 0x3029)
        || (0x3038 <= u && u <= 0x303B)
        || (0x3400 <= u && u <= 0x4DBF)
        || (0x4E00 <= u && u <= 0x9FFF)
        || (0xF900 <= u && u <= 0xFA6D)
        || (0xFA70 <= u && u <= 0xFAD9)
        || (0x16FE2 <= u && u <= 0x16FE3)
        || (0x16FF0 <= u && u <= 0x16FF1)
        || (0x20000 <= u && u <= 0x2A6DF)
        || (0x2A700 <= u && u <= 0x2B739)
        || (0x2B740 <= u && u <= 0x2B81D)
        || (0x2B820 <= u && u <= 0x2CEA1)
        || (0x2CEB0 <= u && u <= 0x2EBE0)
        || (0x2EBF0 <= u && u <= 0x2EE5D)
        || (0x2F800 <= u && u <= 0x2FA1D)
        || (0x30000 <= u && u <= 0x3134A)
        || (0x31350 <= u && u <= 0x323AF))
}

/// The character table and the metadata table, aligned entry for entry:
/// `kanji_metas[i]` describes `kanjis[i].ji`.  Every character with
/// statistics has exactly one metadata record and vice versa.
#[derive(Debug)]
pub struct KanjiData {
    pub kanjis: Vec<Kanji>,
    pub kanji_metas: Vec<KanjiMeta>,
}

impl KanjiData {
    /// Well-formedness: the tables are aligned and characters are unique.
    pub open spec fn wf(self) -> bool {
        &&& self.kanjis@.len() == self.kanji_metas@.len()
        &&& forall|i: int, j: int|
            0 <= i < j < self.kanjis@.len() ==> self.kanjis@[i].ji != self.kanjis@[j].ji
    }

    /// The character table has an entry for `ji`.
    pub open spec fn has_ji(self, ji: Ji) -> bool {
        exists|i: int| 0 <= i < self.kanjis@.len() && self.kanjis@[i].ji == ji
    }

    /// The position of `ji` in the tables.
    pub open spec fn index_of_spec(self, ji: Ji) -> int {
        choose|i: int| 0 <= i < self.kanjis@.len() && self.kanjis@[i].ji == ji
    }

    /// The statistics record of `ji`.
    pub open spec fn kanji_of_spec(self, ji: Ji) -> Kanji {
        self.kanjis@[self.index_of_spec(ji)]
    }

    /// The metadata record of `ji`.
    pub open spec fn meta_of_spec(self, ji: Ji) -> KanjiMeta {
        self.kanji_metas@[self.index_of_spec(ji)]
    }

    /// Finds the position of `ji` in the tables.
    pub fn index_of(&self, ji: Ji) -> (r: Option<usize>)
        requires
            self.wf(),
        ensures
            match r {
                Some(i) => self.has_ji(ji) && i == self.index_of_spec(ji) && i
                    < self.kanjis@.len() && self.kanjis@[i as int].ji == ji,
                None => !self.has_ji(ji),
            },
    {
        let mut i: usize = 0;
        while i < self.kanjis.len()
            invariant
                self.wf(),
                i <= self.kanjis@.len(),
                forall|k: int| 0 <= k < i ==> self.kanjis@[k].ji != ji,
            decreases self.kanjis@.len() - i,
        {
            if self.kanjis[i].ji.0 == ji.0 {
                return Some(i);
            }
            i = i + 1;
        }
        None
    }

    /// Looks up the metadata record of `ji`.
    pub fn meta_of(&self, ji: Ji) -> (r: Option<&KanjiMeta>)
        requires
            self.wf(),
        ensures
            match r {
                Some(m) => self.has_ji(ji) && *m == self.meta_of_spec(ji),
                None => !self.has_ji(ji),
            },
    {
        match self.index_of(ji) {
            Some(i) => Some(&self.kanji_metas[i]),
            None => None,
        }
    }

    /// Looks up the statistics record of `ji`.
    pub fn kanji_of(&self, ji: Ji) -> (r: Option<&Kanji>)
        requires
            self.wf(),
        ensures
            match r {
                Some(k) => self.has_ji(ji) && *k == self.kanji_of_spec(ji),
                None => !self.has_ji(ji),
            },
    {
        match self.index_of(ji) {
            Some(i) => Some(&self.kanjis[i]),
            None => None,
        }
    }

    /// Assembles and validates the character tables; `None` exactly when the
    /// tables are not aligned or a character repeats.
    pub fn new(kanjis: Vec<Kanji>, kanji_metas: Vec<KanjiMeta>) -> (r: Option<KanjiData>)
        ensures
            match r {
                Some(kd) => kd.kanjis == kanjis && kd.kanji_metas == kanji_metas && kd.wf(),
                None => !(KanjiData { kanjis, kanji_metas }).wf(),
            },
    {
        if kanjis.len() != kanji_metas.len() {
            return None;
        }
        let mut i: usize = 0;
        while i < kanjis.len()
            invariant
                kanjis@.len() == kanji_metas@.len(),
                i <= kanjis@.len(),
                forall|p: int, q: int| 0 <= p < q < i ==> kanjis@[p].ji != kanjis@[q].ji,
            decreases kanjis@.len() - i,
        {
            let mut j: usize = 0;
            while j < i
                invariant
                    i < kanjis@.len(),
                    j <= i,
                    forall|q: int| 0 <= q < j ==> kanjis@[q].ji != kanjis@[i as int].ji,
                decreases i - j,
            {
                if kanjis[j].ji.0 == kanjis[i].ji.0 {
                    return None;
                }
                j = j + 1;
            }
            i = i + 1;
        }
        Some(KanjiData { kanjis, kanji_metas })
    }
}

/// A two-character compound word: its word record, its two characters, and
/// its reading-irregularity score.
#[derive(Debug, Clone)]
pub struct Compound2 {
    pub word: Word,
    pub a: Ji,
    pub b: Ji,
    pub irregularness: Irregularity,
}

/// Structural validity of one compound: the surface text is exactly its two
/// distinct Han characters, the second is not the iteration mark, and the
/// score is a well-formed fraction.
pub open spec fn compound_wf(c: Compound2) -> bool {
    &&& c.word.text@ =~= seq![c.a.0, c.b.0]
    &&& c.a.0 != c.b.0
    &&& c.b.0 != iteration_mark()
    &&& is_han(c.a.0)
    &&& is_han(c.b.0)
    &&& c.irregularness.wf()
}

/// The compound table, ordered by non-decreasing word rank; compounds known
/// only from the dictionary carry the sentinel maximum rank and stand last.
#[derive(Debug)]
pub struct WordData {
    pub twos: Vec<Compound2>,
}

impl WordData {
    /// Well-formedness: every compound is structurally valid, no character
    /// pair repeats, and ranks are non-decreasing.
    pub open spec fn wf(self) -> bool {
        &&& forall|i: int| 0 <= i < self.twos@.len() ==> compound_wf(#[trigger] self.twos@[i])
        &&& forall|i: int, j: int|
            0 <= i < j < self.twos@.len() ==> !(self.twos@[i].a == self.twos@[j].a
                && self.twos@[i].b == self.twos@[j].b)
        &&& forall|i: int, j: int|
            0 <= i <= j < self.twos@.len() ==> self.twos@[i].word.rank <= self.twos@[j].word.rank
    }

    /// The corpus has a compound whose characters are `a` then `b`.
    pub open spec fn has_pair(self, a: Ji, b: Ji) -> bool {
        exists|i: int|
            0 <= i < self.twos@.len() && self.twos@[i].a == a && self.twos@[i].b == b
    }

    /// Decides whether a compound with characters `a` then `b` exists.
    pub fn contains_pair(&self, a: Ji, b: Ji) -> (r: bool)
        ensures
            r == self.has_pair(a, b),
    {
        let mut i: usize = 0;
        while i < self.twos.len()
            invariant
                i <= self.twos@.len(),
                forall|k: int|
                    0 <= k < i ==> !(self.twos@[k].a == a && self.twos@[k].b == b),
            decreases self.twos@.len() - i,
        {
            if self.twos[i].a.0 == a.0 && self.twos[i].b.0 == b.0 {
                return true;
            }
            i = i + 1;
        }
        false
    }

    /// Assembles and validates the compound table; `None` exactly when some
    /// compound is malformed, a pair repeats, or the order is broken.
    pub fn new(twos: Vec<Compound2>) -> (r: Option<WordData>)
        ensures
            match r {
                Some(wd) => wd.twos == twos && wd.wf(),
                None => !(WordData { twos }).wf(),
            },
    {
        let mut i: usize = 0;
        while i < twos.len()
            invariant
                i <= twos@.len(),
                forall|k: int| 0 <= k < i ==> compound_wf(#[trigger] twos@[k]),
                forall|p: int, q: int|
                    0 <= p < q < i ==> !(twos@[p].a == twos@[q].a && twos@[p].b == twos@[q].b),
                forall|k: int|
                    0 <= k && k + 1 < i ==> #[trigger] twos@[k].word.rank <= twos@[k
                        + 1].word.rank,
            decreases twos@.len() - i,
        {
            let ghost wd = WordData { twos };
            let c = &twos[i];
            let text_ok = c.word.text.unicode_len() == 2 && c.word.text.get_char(0) == c.a.0
                && c.word.text.get_char(1) == c.b.0;
            if !text_ok {
                proof {
                    assert(wd.twos@[i as int] == twos@[i as int]);
                    assert(!compound_wf(wd.twos@[i as int]));
                    assert(!wd.wf());
                }
                return None;
            }
            proof {
                assert(c.word.text@ =~= seq![c.a.0, c.b.0]);
            }
            if c.a.0 == c.b.0 || c.b.0 == '\u{3005}' || !is_han_exec(c.a.0) || !is_han_exec(c.b.0)
                || !(c.irregularness.den >= 1 && c.irregularness.num <= c.irregularness.den) {
                proof {
                    assert(wd.twos@[i as int] == twos@[i as int]);
                    assert(!compound_wf(wd.twos@[i as int]));
                    assert(!wd.wf());
                }
                return None;
            }
            if i > 0 && twos[i - 1].word.rank > twos[i].word.rank {
                proof {
                    assert(wd.twos@[i - 1].word.rank > wd.twos@[i as int].word.rank);
                    assert(!wd.wf());
                }
                return None;
            }
            let mut j: usize = 0;
            while j < i
                invariant
                    i < twos@.len(),
                    j <= i,
                    forall|q: int|
                        0 <= q < j ==> !(twos@[q].a == twos@[i as int].a && twos@[q].b
                            == twos@[i as int].b),
                decreases i - j,
            {
                if twos[j].a.0 == twos[i].a.0 && twos[j].b.0 == twos[i].b.0 {
                    proof {
                        let wd2 = WordData { twos };
                        assert(wd2.twos@[j as int].a == wd2.twos@[i as int].a && wd2.twos@[
                        j as int].b == wd2.twos@[i as int].b);
                        assert(!wd2.wf());
                    }
                    return None;
                }
                j = j + 1;
            }
            i = i + 1;
        }
        proof {
            lemma_sorted_from_adjacent(twos@);
        }
        Some(WordData { twos })
    }
}

/// Adjacent order everywhere gives global order.
proof fn lemma_sorted_from_adjacent(s: Seq<Compound2>)
    requires
        forall|k: int|
            0 <= k && k + 1 < s.len() ==> #[trigger] s[k].word.rank <= s[k + 1].word.rank,
    ensures
        forall|i: int, j: int| 0 <= i <= j < s.len() ==> s[i].word.rank <= s[j].word.rank,
{
    assert forall|i: int, j: int| 0 <= i <= j < s.len() implies s[i].word.rank <= s[j].word.rank by {
        lemma_rank_chain(s, i, j);
    }
}

/// Ranks chain transitively from `i` up to `j`.
proof fn lemma_rank_chain(s: Seq<Compound2>, i: int, j: int)
    requires
        forall|k: int|
            0 <= k && k + 1 < s.len() ==> #[trigger] s[k].word.rank <= s[k + 1].word.rank,
        0 <= i <= j < s.len(),
    ensures
        s[i].word.rank <= s[j].word.rank,
    decreases j - i,
{
    if i < j {
        lemma_rank_chain(s, i + 1, j);
    }
}

/// Extracts a compound record from a word: the word must consist of exactly
/// two distinct Han characters, the second not the iteration mark, and both
/// characters must be present in the character tables.  The compound carries
/// the irregularity score of the word's reading.
pub fn extract_compound2(word: Word, kanji_data: &KanjiData) -> (r: Option<Compound2>)
    requires
        kanji_data.wf(),
    ensures
        match r {
            Some(c) => {
                &&& word.text@.len() == 2
                &&& c.word == word
                &&& c.a == Ji(word.text@[0])
                &&& c.b == Ji(word.text@[1])
                &&& compound_wf(c)
                &&& kanji_data.has_ji(c.a)
                &&& kanji_data.has_ji(c.b)
                &&& c.irregularness.num == score_num(
                    word.reading@,
                    kanji_data.meta_of_spec(c.a),
                    kanji_data.meta_of_spec(c.b),
                )
                &&& c.irregularness.den == score_den(word.reading@)
            },
            None => !({
                &&& word.text@.len() == 2
                &&& is_han(word.text@[0])
                &&& is_han(word.text@[1])
                &&& word.text@[0] != word.text@[1]
                &&& word.text@[1] != iteration_mark()
                &&& kanji_data.has_ji(Ji(word.text@[0]))
                &&& kanji_data.has_ji(Ji(word.text@[1]))
            }),
        },
{
    if word.text.unicode_len() != 2 {
        return None;
    }
    let c0 = word.text.get_char(0);
    let c1 = word.text.get_char(1);
    if !is_han_exec(c0) || !is_han_exec(c1) {
        return None;
    }
    if c0 == c1 || c1 == '\u{3005}' {
        return None;
    }
    let a = Ji(c0);
    let b = Ji(c1);
    let ia = match kanji_data.index_of(a) {
        Some(ia) => ia,
        None => {
            return None;
        },
    };
    let ib = match kanji_data.index_of(b) {
        Some(ib) => ib,
        None => {
            return None;
        },
    };
    let irr = irregularness(
        word.reading.as_str(),
        &kanji_data.kanji_metas[ia],
        &kanji_data.kanji_metas[ib],
    );
    proof {
        assert(word.text@ =~= seq![c0, c1]);
    }
    Some(Compound2 { a, b, irregularness: irr, word })
}

/// Returns the only character of a one-character string, if there is one.
pub fn extract_only_char(x: &str) -> (r: Option<char>)
    ensures
        r == (if x@.len() == 1 {
            Some(x@[0])
        } else {
            None::<char>
        }),
{
    if x.unicode_len() == 1 {
        Some(x.get_char(0))
    } else {
        None
    }
}

} // verus!
