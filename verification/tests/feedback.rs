use wordule::constraints::Constraints;

fn w(s: &str) -> Vec<u8> {
    s.bytes().collect()
}

#[test]
fn green_propagation() {
    // Pick "crane", feedback "ooxxx": c and r fixed; a, n, e greyed with no
    // conflicting green, so banned everywhere.
    let mut c = Constraints::new(5);
    let bad = c.apply_feedback(&w("crane"), &w("ooxxx"));
    assert!(bad.is_empty());
    assert_eq!(c.fixed_at(0), Some(b'c'));
    assert_eq!(c.fixed_at(1), Some(b'r'));
    assert_eq!(c.fixed_at(2), None);
    assert_eq!(c.fixed_at(3), None);
    assert_eq!(c.fixed_at(4), None);
    assert!(c.fixed_anywhere().contains(b'c'));
    assert!(c.fixed_anywhere().contains(b'r'));
    assert!(!c.fixed_anywhere().contains(b'a'));
    for letter in [b'a', b'n', b'e'] {
        assert!(c.forbidden_everywhere().contains(letter));
    }
    for letter in [b'c', b'r'] {
        assert!(!c.forbidden_everywhere().contains(letter));
        assert!(c.present_everywhere().contains(letter));
    }
    for i in 0..5 {
        for letter in b'a'..=b'z' {
            assert!(!c.forbidden_position_at(i).contains(letter));
        }
    }
}

#[test]
fn orange_forbids_position_and_marks_present() {
    let mut c = Constraints::new(5);
    let bad = c.apply_feedback(&w("crane"), &w("?xxxx"));
    assert!(bad.is_empty());
    assert!(c.forbidden_position_at(0).contains(b'c'));
    assert!(!c.forbidden_position_at(1).contains(b'c'));
    assert!(c.present_everywhere().contains(b'c'));
    assert!(!c.forbidden_everywhere().contains(b'c'));
    assert_eq!(c.fixed_at(0), None);
}

#[test]
fn grey_after_green_is_positional_not_global() {
    // Pick "sassy", feedback "oxxox": the grey `s` at position 1 conflicts
    // with the greens, so `s` must not be banned everywhere; the grey `y` has
    // no green and is banned outright.
    let mut c = Constraints::new(5);
    let bad = c.apply_feedback(&w("sassy"), &w("oxxox"));
    assert!(bad.is_empty());
    assert_eq!(c.fixed_at(0), Some(b's'));
    assert_eq!(c.fixed_at(3), Some(b's'));
    assert_eq!(c.fixed_at(1), None);
    assert!(c.fixed_anywhere().contains(b's'));
    assert!(!c.forbidden_everywhere().contains(b's'));
    assert!(c.forbidden_everywhere().contains(b'a'));
    assert!(c.forbidden_everywhere().contains(b'y'));
    assert!(c.present_everywhere().contains(b's'));
    // Both fixed positions hold `s` itself, so the grey spreads no
    // positional forbiddance.
    for i in 0..5 {
        assert!(!c.forbidden_position_at(i).contains(b's'));
    }
}

#[test]
fn grey_after_green_spreads_to_other_fixed_positions() {
    // First round fixes `e` at position 0. A later grey on `e` (picked at
    // position 1) forbids `e` at every position fixed to another letter.
    let mut c = Constraints::new(3);
    let bad1 = c.apply_feedback(&w("eat"), &w("oxo"));
    assert!(bad1.is_empty());
    assert_eq!(c.fixed_at(0), Some(b'e'));
    assert_eq!(c.fixed_at(2), Some(b't'));
    let bad2 = c.apply_feedback(&w("set"), &w("xxo"));
    assert!(bad2.is_empty());
    // `e` was fixed anywhere, so the grey is positional: position 2 (fixed
    // to `t`) now forbids `e`; position 0 (fixed to `e` itself) does not.
    assert!(!c.forbidden_everywhere().contains(b'e'));
    assert!(c.forbidden_position_at(2).contains(b'e'));
    assert!(!c.forbidden_position_at(0).contains(b'e'));
    // `s` had no green and is banned outright.
    assert!(c.forbidden_everywhere().contains(b's'));
}

#[test]
fn invalid_bytes_are_reported_and_skipped() {
    let mut c = Constraints::new(5);
    let bad = c.apply_feedback(&w("crane"), &w("o.x!o"));
    assert_eq!(bad, vec![1, 3]);
    // The valid positions still applied.
    assert_eq!(c.fixed_at(0), Some(b'c'));
    assert_eq!(c.fixed_at(4), Some(b'e'));
    assert!(c.forbidden_everywhere().contains(b'a'));
    // The invalid positions changed nothing.
    assert_eq!(c.fixed_at(1), None);
    assert!(!c.forbidden_everywhere().contains(b'r'));
    assert!(!c.forbidden_everywhere().contains(b'n'));
    assert!(!c.present_everywhere().contains(b'r'));
}

#[test]
fn unentangled_positions_apply_in_any_order() {
    // The same green and orange applied in either order (using an invalid
    // byte as "skip this position") leave identical constraints.
    let mut first_green = Constraints::new(2);
    first_green.apply_feedback(&w("ab"), &w("o."));
    first_green.apply_feedback(&w("ab"), &w(".?"));

    let mut first_orange = Constraints::new(2);
    first_orange.apply_feedback(&w("ab"), &w(".?"));
    first_orange.apply_feedback(&w("ab"), &w("o."));

    assert_eq!(first_green.fixed_at(0), first_orange.fixed_at(0));
    assert_eq!(first_green.fixed_at(1), first_orange.fixed_at(1));
    for letter in b'a'..=b'z' {
        assert_eq!(
            first_green.fixed_anywhere().contains(letter),
            first_orange.fixed_anywhere().contains(letter)
        );
        assert_eq!(
            first_green.forbidden_everywhere().contains(letter),
            first_orange.forbidden_everywhere().contains(letter)
        );
        assert_eq!(
            first_green.present_everywhere().contains(letter),
            first_orange.present_everywhere().contains(letter)
        );
        for i in 0..2 {
            assert_eq!(
                first_green.forbidden_position_at(i).contains(letter),
                first_orange.forbidden_position_at(i).contains(letter)
            );
        }
    }
}

#[test]
fn entangled_grey_depends_on_green_before_it() {
    // A grey on a letter fixed in the same pass must see the green first:
    // "ssa" with "oxx" bans `a` but not `s`.
    let mut c = Constraints::new(3);
    c.apply_feedback(&w("ssa"), &w("oxx"));
    assert!(!c.forbidden_everywhere().contains(b's'));
    assert!(c.forbidden_everywhere().contains(b'a'));
}
