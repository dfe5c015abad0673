use gaffer::Selector;

const LEFT_ID: &str = "00:00:5E:00:53:01";
const LEFT_NAME: &str = "Elgato Key Light Left";
const RIGHT_ID: &str = "00:00:5E:00:53:02";
const RIGHT_NAME: &str = "Elgato Key Light Right";

#[test]
fn all_is_spelled_several_ways() {
    assert_eq!(Selector::parse("all"), Selector::All);
    assert_eq!(Selector::parse("ALL"), Selector::All);
    assert_eq!(Selector::parse("*"), Selector::All);
    assert_eq!(Selector::parse("  all  "), Selector::All);
    assert!(Selector::parse("all").matches(LEFT_ID, LEFT_NAME));
}

#[test]
fn a_name_substring_matches_case_insensitively() {
    let left = Selector::parse("left");
    assert!(left.matches(LEFT_ID, LEFT_NAME));
    assert!(!left.matches(RIGHT_ID, RIGHT_NAME));

    assert!(Selector::parse("LEFT").matches(LEFT_ID, LEFT_NAME));
    assert!(Selector::parse("key light").matches(LEFT_ID, LEFT_NAME));
}

#[test]
fn a_substring_may_legitimately_match_several_lights() {
    let both = Selector::parse("elgato");
    assert!(both.matches(LEFT_ID, LEFT_NAME));
    assert!(both.matches(RIGHT_ID, RIGHT_NAME));
}

#[test]
fn ids_match_with_or_without_separators() {
    assert!(Selector::parse(LEFT_ID).matches(LEFT_ID, LEFT_NAME));
    assert!(Selector::parse("00005e005301").matches(LEFT_ID, LEFT_NAME));
    assert!(Selector::parse("00005E005301").matches(LEFT_ID, LEFT_NAME));
    assert!(!Selector::parse("00005e005301").matches(RIGHT_ID, RIGHT_NAME));
}

#[test]
fn an_id_must_match_whole_not_as_a_prefix() {
    // Substring matching applies to names only; a partial MAC is a typo,
    // and silently hitting the wrong light would be worse than no match.
    assert!(!Selector::parse("00005e").matches(LEFT_ID, LEFT_NAME));
}

#[test]
fn an_empty_pattern_matches_nothing() {
    assert!(!Selector::parse("").matches(LEFT_ID, LEFT_NAME));
}
