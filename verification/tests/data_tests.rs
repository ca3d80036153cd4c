use kanjidle::data::{
    extract_compound2, extract_only_char, is_han_exec, Compound2, Ji, Kanji, KanjiClass,
    KanjiData, KanjiMeta, Word, WordData,
};
use kanjidle::score::Irregularity;

fn plain_meta(class: KanjiClass) -> KanjiMeta {
    KanjiMeta {
        level: String::new(),
        class,
        stroke_count: 1,
        radical: String::new(),
        on: vec!["on".to_string()],
        kun: Vec::new(),
        variants: Vec::new(),
    }
}

fn kanji(c: char, rank: usize) -> Kanji {
    Kanji { ji: Ji(c), rank, count: 1 }
}

fn compound(a: char, b: char, rank: usize) -> Compound2 {
    let text: String = [a, b].iter().collect();
    Compound2 {
        word: Word { text, reading: "on'on".to_string(), rank },
        a: Ji(a),
        b: Ji(b),
        irregularness: Irregularity { num: 0, den: 1 },
    }
}

#[test]
fn extract_only_char_cases() {
    assert_eq!(extract_only_char("a"), Some('a'));
    assert_eq!(extract_only_char(""), None);
    assert_eq!(extract_only_char("ab"), None);
    assert_eq!(extract_only_char("\u{65E5}"), Some('\u{65E5}'));
}

#[test]
fn is_han_ranges() {
    assert!(is_han_exec('\u{65E5}'));
    assert!(is_han_exec('\u{4E00}'));
    assert!(is_han_exec('\u{3005}'));
    assert!(is_han_exec('\u{2F00}'));
    assert!(is_han_exec('\u{20000}'));
    assert!(!is_han_exec('a'));
    assert!(!is_han_exec('\u{3042}'));
    assert!(!is_han_exec('\u{30A2}'));
    assert!(!is_han_exec('\u{FA6E}'));
}

#[test]
fn kanji_data_rejects_duplicates_and_misalignment() {
    let a = '\u{65E5}';
    let m = plain_meta(KanjiClass::Kyoiku);
    assert!(KanjiData::new(vec![kanji(a, 1), kanji(a, 2)], vec![m.clone(), m.clone()]).is_none());
    assert!(KanjiData::new(vec![kanji(a, 1)], vec![]).is_none());
    let kd = KanjiData::new(vec![kanji(a, 1)], vec![m]).unwrap();
    assert_eq!(kd.kanjis.len(), 1);
}

#[test]
fn word_data_rejects_bad_tables() {
    let a = '\u{65E5}';
    let b = '\u{672C}';
    let c = '\u{4EBA}';
    // out of rank order
    assert!(WordData::new(vec![compound(a, b, 5), compound(a, c, 1)]).is_none());
    // repeated pair
    assert!(WordData::new(vec![compound(a, b, 1), compound(a, b, 2)]).is_none());
    // identical characters
    let mut same = compound(a, b, 1);
    same.b = Ji(a);
    same.word.text = [a, a].iter().collect();
    assert!(WordData::new(vec![same]).is_none());
    // iteration mark as second character
    let mut iter_mark = compound(a, '\u{3005}', 1);
    iter_mark.word.text = [a, '\u{3005}'].iter().collect();
    assert!(WordData::new(vec![iter_mark]).is_none());
    // a sound table
    let wd = WordData::new(vec![compound(a, b, 1), compound(a, c, 2)]).unwrap();
    assert_eq!(wd.twos.len(), 2);
}

#[test]
fn extract_compound2_accepts_two_han_characters() {
    let a = '\u{65E5}';
    let b = '\u{672C}';
    let kd = KanjiData::new(
        vec![kanji(a, 1), kanji(b, 2)],
        vec![plain_meta(KanjiClass::Kyoiku), plain_meta(KanjiClass::Kyoiku)],
    )
    .unwrap();
    let word = Word { text: [a, b].iter().collect(), reading: "onon".to_string(), rank: 3 };
    let c = extract_compound2(word, &kd).unwrap();
    assert_eq!(c.a, Ji(a));
    assert_eq!(c.b, Ji(b));
    assert_eq!(c.word.rank, 3);
    assert_eq!(c.irregularness.num, 0);
    assert_eq!(c.irregularness.den, 4);
}

#[test]
fn extract_compound2_rejections() {
    let a = '\u{65E5}';
    let b = '\u{672C}';
    let kd = KanjiData::new(
        vec![kanji(a, 1), kanji(b, 2)],
        vec![plain_meta(KanjiClass::Kyoiku), plain_meta(KanjiClass::Kyoiku)],
    )
    .unwrap();
    let mk = |text: String| Word { text, reading: String::new(), rank: 1 };
    // wrong length
    assert!(extract_compound2(mk([a].iter().collect()), &kd).is_none());
    assert!(extract_compound2(mk([a, b, a].iter().collect()), &kd).is_none());
    // repeated character
    assert!(extract_compound2(mk([a, a].iter().collect()), &kd).is_none());
    // iteration mark second
    assert!(extract_compound2(mk([a, '\u{3005}'].iter().collect()), &kd).is_none());
    // not ideographs
    assert!(extract_compound2(mk("ab".to_string()), &kd).is_none());
    // character missing from the tables
    assert!(extract_compound2(mk([a, '\u{4EBA}'].iter().collect()), &kd).is_none());
}

#[test]
fn corpus_lookups_find_records() {
    let a = '\u{65E5}';
    let b = '\u{672C}';
    let kd = KanjiData::new(
        vec![kanji(a, 1), kanji(b, 7)],
        vec![plain_meta(KanjiClass::Kyoiku), plain_meta(KanjiClass::Joyo)],
    )
    .unwrap();
    assert_eq!(kd.kanji_of(Ji(b)).unwrap().rank, 7);
    assert_eq!(kd.meta_of(Ji(b)).unwrap().class, KanjiClass::Joyo);
    assert!(kd.kanji_of(Ji('\u{4EBA}')).is_none());
    let wd = WordData::new(vec![compound(a, b, 1)]).unwrap();
    assert!(wd.contains_pair(Ji(a), Ji(b)));
    assert!(!wd.contains_pair(Ji(b), Ji(a)));
}
