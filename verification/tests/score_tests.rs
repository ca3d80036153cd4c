use kanjidle::data::{KanjiClass, KanjiMeta, Kun};
use kanjidle::score::irregularness;

fn meta_with(on: &[&str], kun: &[(&str, Option<&str>)]) -> KanjiMeta {
    KanjiMeta {
        level: String::new(),
        class: KanjiClass::Kyoiku,
        stroke_count: 1,
        radical: String::new(),
        on: on.iter().map(|s| s.to_string()).collect(),
        kun: kun.iter().map(|(s, t)| Kun(s.to_string(), t.map(|x| x.to_string()))).collect(),
        variants: Vec::new(),
    }
}

#[test]
fn literal_on_reading_scores_zero() {
    let a = meta_with(&["ko"], &[]);
    let b = meta_with(&["zan"], &[]);
    let score = irregularness("kozan", &a, &b);
    assert_eq!(score.num, 0);
    assert_eq!(score.den, 5);
    assert!(!score.is_irregular());
}

#[test]
fn one_mismatch_scores_one_over_len() {
    let a = meta_with(&["ko"], &[]);
    let b = meta_with(&["zan"], &[]);
    let score = irregularness("kosan", &a, &b);
    assert_eq!(score.num, 1);
    assert_eq!(score.den, 5);
    assert!(score.is_irregular());
}

#[test]
fn no_same_length_candidate_scores_one() {
    let a = meta_with(&["ko"], &[]);
    let b = meta_with(&["zan"], &[]);
    let score = irregularness("ko", &a, &b);
    assert_eq!(score.num, score.den);
    assert_eq!(score.den, 2);
}

#[test]
fn kun_stem_and_suffix_forms_count() {
    // kun reading "aka" with suffix "rui": both "aka" and "akarui" are
    // candidate forms for the first character
    let a = meta_with(&[], &[("aka", Some("rui"))]);
    let b = meta_with(&["x"], &[]);
    assert_eq!(irregularness("akax", &a, &b).num, 0);
    assert_eq!(irregularness("akaruix", &a, &b).num, 0);
    // the best same-length candidate for "akaruiy" differs in one place
    let s = irregularness("akaruiy", &a, &b);
    assert_eq!((s.num, s.den), (1, 7));
}

#[test]
fn score_always_within_bounds() {
    let metas = [
        meta_with(&[], &[]),
        meta_with(&["a", "bb"], &[("c", None)]),
        meta_with(&["xyz"], &[("pq", Some("r"))]),
    ];
    let readings = ["", "a", "abc", "abbc", "zzzzzz"];
    for a in &metas {
        for b in &metas {
            for r in &readings {
                let s = irregularness(r, a, b);
                assert!(s.den >= 1);
                assert!(s.num <= s.den);
            }
        }
    }
}

#[test]
fn empty_candidate_sets_score_one() {
    let a = meta_with(&[], &[]);
    let b = meta_with(&[], &[]);
    let s = irregularness("abc", &a, &b);
    assert_eq!((s.num, s.den), (3, 3));
}
