use wordule::letters::LetterSet;
use wordule::scoring::Scoring;
use wordule::session::{top_k, validate_pick, PickError, Session};

fn w(s: &str) -> Vec<u8> {
    s.bytes().collect()
}

fn dictionary() -> Vec<Vec<u8>> {
    vec![w("crane"), w("crate"), w("slate"), w("plate"), w("stair"), w("atone")]
}

fn early_scores(words: &[Vec<u8>]) -> Vec<isize> {
    let pool: Vec<Vec<u8>> = words.to_vec();
    let score = Scoring::new(&pool);
    words.iter().map(|word| score.word_score(word, &LetterSet::empty(), true)).collect()
}

#[test]
fn pick_prompt_guard_rejects_patterns() {
    assert_eq!(validate_pick(&w("oxoxo"), 5), Some(PickError::PatternOnly));
    assert_eq!(validate_pick(&w("xxxxx"), 5), Some(PickError::PatternOnly));
    assert_eq!(validate_pick(&w("ooooo"), 5), Some(PickError::PatternOnly));
}

#[test]
fn pick_prompt_checks_length_first() {
    assert_eq!(validate_pick(&w("oxox"), 5), Some(PickError::WrongLength));
    assert_eq!(validate_pick(&w("cranes"), 5), Some(PickError::WrongLength));
    assert_eq!(validate_pick(&w(""), 5), Some(PickError::WrongLength));
}

#[test]
fn pick_prompt_rejects_invalid_characters() {
    assert_eq!(validate_pick(&w("cran3"), 5), Some(PickError::InvalidChar));
    assert_eq!(validate_pick(&w("CRANE"), 5), Some(PickError::InvalidChar));
    assert_eq!(validate_pick(&w("ox ox"), 5), Some(PickError::InvalidChar));
}

#[test]
fn pick_prompt_accepts_ordinary_words() {
    assert_eq!(validate_pick(&w("crane"), 5), None);
    // A word merely containing `o` and `x` among others is fine.
    assert_eq!(validate_pick(&w("toxin"), 5), None);
}

#[test]
fn ranked_early_is_sorted_by_descending_score() {
    let session = Session::new(dictionary(), 5);
    let ranked = session.ranked(true);
    assert_eq!(ranked.len(), 6);
    let scores = early_scores(&ranked);
    for pair in scores.windows(2) {
        assert!(pair[0] >= pair[1]);
    }
    // With nothing known, "crane" scores highest: c+r+a+n+e = 2+3+0+2+1.
    assert_eq!(ranked[0], w("crane"));
    assert_eq!(scores[0], 8);
    // The ranked list holds exactly the dictionary words.
    let mut sorted_ranked = ranked.clone();
    sorted_ranked.sort();
    let mut sorted_dict = dictionary();
    sorted_dict.sort();
    assert_eq!(sorted_ranked, sorted_dict);
}

#[test]
fn ranked_late_covers_candidates() {
    let session = Session::new(dictionary(), 5);
    let ranked = session.ranked(false);
    // With no feedback yet, no letter is known present, so early and late
    // scores coincide.
    assert_eq!(ranked.len(), 6);
    let scores = early_scores(&ranked);
    for pair in scores.windows(2) {
        assert!(pair[0] >= pair[1]);
    }
}

#[test]
fn top_k_truncates_and_keeps_order() {
    let session = Session::new(dictionary(), 5);
    let ranked = session.ranked(true);
    let top = top_k(&ranked, 3);
    assert_eq!(top.len(), 3);
    assert_eq!(top[0], ranked[0]);
    assert_eq!(top[1], ranked[1]);
    assert_eq!(top[2], ranked[2]);
    let all = top_k(&ranked, 10);
    assert_eq!(all, ranked);
}

#[test]
fn a_round_narrows_the_candidates() {
    let mut session = Session::new(dictionary(), 5);
    let bad = session.apply_round(&w("crimp"), &w("ooxxx"));
    assert!(bad.is_empty());
    assert_eq!(session.candidates_list(), vec![w("crane"), w("crate")]);
    // The dictionary still feeds the early list in full.
    assert_eq!(session.ranked(true).len(), 6);
    assert_eq!(session.ranked(false).len(), 2);
}

#[test]
fn a_round_can_exhaust_the_candidates() {
    let mut session = Session::new(vec![w("sassy"), w("sissy")], 5);
    let bad = session.apply_round(&w("sassy"), &w("oxxox"));
    assert!(bad.is_empty());
    assert!(session.candidates_list().is_empty());
}

#[test]
fn rounds_accumulate_and_filtering_is_stable() {
    let mut session = Session::new(dictionary(), 5);
    session.apply_round(&w("crane"), &w("x?o.."));
    assert_eq!(session.candidates_list(), vec![w("slate"), w("plate"), w("stair")]);
    session.apply_round(&w("slate"), &w("xxx?o"));
    assert!(session.candidates_list().is_empty());
}

#[test]
fn late_ranking_reweights_known_present_letters() {
    // After `t` is known present, a word containing `t` gains exactly
    // 2 * letter_score(t) in the late list relative to the early list; a
    // word without `t` is scored the same in both.
    let mut session = Session::new(dictionary(), 5);
    let bad = session.apply_round(&w("ttttt"), &w("?...."));
    assert_eq!(bad, vec![1, 2, 3, 4]);
    let candidates = session.candidates_list();
    assert_eq!(candidates.len(), 6);
    let score = Scoring::new(&candidates);
    let mut present = LetterSet::empty();
    present.insert(b't');
    for word in &candidates {
        let early = score.word_score(word, &present, true);
        let late = score.word_score(word, &present, false);
        if word.contains(&b't') {
            assert_eq!(late - early, 2 * score.letter_score(b't'));
        } else {
            assert_eq!(late, early);
        }
    }
}
