use wordule::letters::{is_valid_word, to_ascii_index, LetterCount, LetterSet};

fn w(s: &str) -> Vec<u8> {
    s.bytes().collect()
}

#[test]
fn ascii_index_of_alphabet_ends() {
    assert_eq!(to_ascii_index(b'a'), 0);
    assert_eq!(to_ascii_index(b'm'), 12);
    assert_eq!(to_ascii_index(b'z'), 25);
}

#[test]
fn from_word_contains_exactly_its_letters() {
    let set = LetterSet::from_word(&w("crane"));
    for letter in b'a'..=b'z' {
        let expected = b"crane".contains(&letter);
        assert_eq!(set.contains(letter), expected);
    }
}

#[test]
fn from_word_ignores_duplicates() {
    let once = LetterSet::from_word(&w("sassy"));
    assert!(once.contains(b's'));
    assert!(once.contains(b'a'));
    assert!(once.contains(b'y'));
    assert!(!once.contains(b'i'));
}

#[test]
fn empty_set_contains_nothing() {
    let set = LetterSet::empty();
    for letter in b'a'..=b'z' {
        assert!(!set.contains(letter));
    }
}

#[test]
fn insert_ignores_bytes_outside_alphabet() {
    let mut set = LetterSet::empty();
    set.insert(b'A');
    set.insert(b'0');
    set.insert(b'!');
    for letter in b'a'..=b'z' {
        assert!(!set.contains(letter));
    }
    assert!(!set.contains(b'A'));
}

#[test]
fn contains_is_false_outside_alphabet() {
    let set = LetterSet::from_word(&w("abc"));
    assert!(!set.contains(b'A'));
    assert!(!set.contains(b'0'));
    assert!(!set.contains(0));
}

#[test]
fn letter_count_increments_per_letter() {
    let mut count = LetterCount::new();
    assert_eq!(count.get(b'q'), 0);
    count.increment(b'q');
    count.increment(b'q');
    count.increment(b'r');
    assert_eq!(count.get(b'q'), 2);
    assert_eq!(count.get(b'r'), 1);
    assert_eq!(count.get(b's'), 0);
}

#[test]
fn letter_count_ignores_bytes_outside_alphabet() {
    let mut count = LetterCount::new();
    count.increment(b'#');
    assert_eq!(count.get(b'#'), 0);
    for letter in b'a'..=b'z' {
        assert_eq!(count.get(letter), 0);
    }
}

#[test]
fn valid_word_checks_length_and_alphabet() {
    assert!(is_valid_word(&w("crane"), 5));
    assert!(!is_valid_word(&w("cranes"), 5));
    assert!(!is_valid_word(&w("cran"), 5));
    assert!(!is_valid_word(&w("cran3"), 5));
    assert!(!is_valid_word(&w("Crane"), 5));
    assert!(!is_valid_word(&w(""), 5));
    assert!(is_valid_word(&w("abc"), 3));
}
