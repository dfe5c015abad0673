use gaffer::cli::{call_for, split_selector, Call};

fn owned(args: &[&str]) -> Vec<String> {
    args.iter().map(|s| (*s).to_string()).collect()
}

#[test]
fn a_leading_name_is_taken_as_the_selector() {
    let (selector, tokens) = split_selector(&owned(&["left", "42%"]));
    assert_eq!(selector, "left");
    assert_eq!(tokens, owned(&["42%"]));
}

#[test]
fn a_leading_value_implies_the_all_selector() {
    let (selector, tokens) = split_selector(&owned(&["42%", "4200k"]));
    assert_eq!(selector, "all");
    assert_eq!(tokens, owned(&["42%", "4200k"]));
}

#[test]
fn a_leading_negative_value_is_not_mistaken_for_a_selector() {
    let (selector, tokens) = split_selector(&owned(&["-10%"]));
    assert_eq!(selector, "all");
    assert_eq!(tokens, owned(&["-10%"]));
}

#[test]
fn no_arguments_selects_everything_with_nothing_to_apply() {
    let (selector, tokens) = split_selector(&[]);
    assert_eq!(selector, "all");
    assert!(tokens.is_empty());
}

#[test]
fn a_bare_selector_yields_no_tokens() {
    let (selector, tokens) = split_selector(&owned(&["left"]));
    assert_eq!(selector, "left");
    assert!(tokens.is_empty());
}

#[test]
fn power_words_are_values_not_selectors() {
    // `gaffer set on` means "turn everything on", not "select a light
    // whose name contains `on`".
    let (selector, tokens) = split_selector(&owned(&["on"]));
    assert_eq!(selector, "all");
    assert_eq!(tokens, owned(&["on"]));
}

#[test]
fn a_hex_id_is_a_selector_not_a_value() {
    let (selector, tokens) = split_selector(&owned(&["00005e005301", "42%"]));
    assert_eq!(selector, "00005e005301");
    assert_eq!(tokens, owned(&["42%"]));
}

#[test]
fn a_bare_invocation_means_list() {
    assert!(matches!(call_for(None), Ok(Call::List { json: false })));
}
