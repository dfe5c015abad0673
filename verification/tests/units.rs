use gaffer::{parse_patch, parse_token, Adjust, ParseError, Power, Token};

#[test]
fn power_words_are_case_insensitive() {
    assert_eq!(parse_token("on").unwrap(), Token::Power(Power::On));
    assert_eq!(parse_token("OFF").unwrap(), Token::Power(Power::Off));
    assert_eq!(parse_token("Toggle").unwrap(), Token::Power(Power::Toggle));
}

#[test]
fn suffixes_choose_the_field() {
    assert_eq!(parse_token("42%").unwrap(), Token::Brightness(Adjust::To(42)));
    assert_eq!(parse_token("4200k").unwrap(), Token::Kelvin(Adjust::To(4200)));
    assert_eq!(parse_token("4200K").unwrap(), Token::Kelvin(Adjust::To(4200)));
}

#[test]
fn signs_make_an_adjustment_relative() {
    assert_eq!(parse_token("+10%").unwrap(), Token::Brightness(Adjust::By(10)));
    assert_eq!(parse_token("-10%").unwrap(), Token::Brightness(Adjust::By(-10)));
    assert_eq!(parse_token("+200k").unwrap(), Token::Kelvin(Adjust::By(200)));
    assert_eq!(parse_token("-200k").unwrap(), Token::Kelvin(Adjust::By(-200)));
}

#[test]
fn bare_numbers_resolve_by_range() {
    assert_eq!(parse_token("0").unwrap(), Token::Brightness(Adjust::To(0)));
    assert_eq!(parse_token("100").unwrap(), Token::Brightness(Adjust::To(100)));
    assert_eq!(parse_token("2900").unwrap(), Token::Kelvin(Adjust::To(2900)));
    assert_eq!(parse_token("7000").unwrap(), Token::Kelvin(Adjust::To(7000)));
}

#[test]
fn a_bare_number_in_neither_range_is_rejected() {
    // 500 is too bright to be brightness and too cold to be Kelvin.
    assert!(matches!(parse_token("500"), Err(ParseError::Ambiguous(_))));
    assert!(matches!(parse_token("-5"), Err(ParseError::RelativeNeedsUnit(_))));
}

#[test]
fn absolute_values_outside_the_hardware_range_are_rejected_not_clamped() {
    // Catches the unit mix-up `4200%`, which clamping would silently accept.
    assert!(matches!(parse_token("4200%"), Err(ParseError::OutOfRange { .. })));
    assert!(matches!(parse_token("42k"), Err(ParseError::OutOfRange { .. })));
    assert!(matches!(parse_token("9000k"), Err(ParseError::OutOfRange { .. })));
}

#[test]
fn relative_values_are_not_range_checked() {
    // They clamp against the live value at apply time instead.
    assert_eq!(parse_token("+9000k").unwrap(), Token::Kelvin(Adjust::By(9000)));
    assert_eq!(parse_token("-500%").unwrap(), Token::Brightness(Adjust::By(-500)));
}

#[test]
fn garbage_is_reported_with_the_whole_token() {
    assert_eq!(parse_token("abc"), Err(ParseError::NotANumber("abc".into())));
    assert_eq!(parse_token("12x%"), Err(ParseError::NotANumber("12x%".into())));
    assert_eq!(parse_token("   "), Err(ParseError::Empty));
}

#[test]
fn a_patch_collects_tokens_in_any_order() {
    let forward = parse_patch(&["on", "42%", "4200k"]).unwrap();
    let shuffled = parse_patch(&["4200k", "on", "42%"]).unwrap();
    assert_eq!(forward, shuffled);
    assert_eq!(forward.power, Some(Power::On));
    assert_eq!(forward.brightness, Some(Adjust::To(42)));
    assert_eq!(forward.kelvin, Some(Adjust::To(4200)));
}

#[test]
fn repeating_a_field_is_an_error_rather_than_last_wins() {
    assert_eq!(parse_patch(&["42%", "50%"]), Err(ParseError::Repeated("brightness")));
    assert_eq!(parse_patch(&["on", "off"]), Err(ParseError::Repeated("power")));
    assert_eq!(
        parse_patch(&["4200k", "5000k"]),
        Err(ParseError::Repeated("colour temperature"))
    );
}

#[test]
fn no_tokens_yields_an_empty_patch() {
    let empty: [&str; 0] = [];
    assert!(parse_patch(&empty).unwrap().is_empty());
}
