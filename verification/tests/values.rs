use gaffer::color::{clamp_kelvin, same_mired};
use gaffer::config::{config_home, file_text, ConfigHome};
use gaffer::elgato::PartialState;
use gaffer::endpoint::{Address, Endpoint};
use gaffer::group::aggregate;
use gaffer::record::{Changed, LightRecord};
use gaffer::{
    kelvin_to_mired, mired_to_kelvin, normalize_id, parse_patch, parse_token, sanitize, Adjust,
    LightState, Power, StatePatch, Token,
};

fn state(on: bool, brightness: u8, kelvin: u16) -> LightState {
    LightState { on, brightness, kelvin }
}

fn record(desired: LightState, reported: Option<LightState>) -> LightRecord {
    LightRecord {
        id: "A1".to_string(),
        fullname: String::new(),
        name: "Left".to_string(),
        model: String::new(),
        firmware: String::new(),
        endpoint: Endpoint { addr: Address::V4(0), port: 1 },
        desired,
        reported,
        last_error: String::new(),
        dirty_since: None,
    }
}

#[test]
fn warmer_is_never_a_lower_mired() {
    let mut last = u16::MAX;
    for kelvin in 2900u16..=7000 {
        let mired = kelvin_to_mired(kelvin);
        assert!(mired <= last);
        last = mired;
        assert!(same_mired(kelvin, mired_to_kelvin(mired)), "{kelvin}");
    }
}

#[test]
fn kelvin_is_clamped_at_both_ends() {
    assert_eq!(clamp_kelvin(0), 2900);
    assert_eq!(clamp_kelvin(4321), 4321);
    assert_eq!(clamp_kelvin(u16::MAX), 7000);
}

#[test]
fn a_state_is_clamped_field_by_field() {
    assert_eq!(state(true, 255, 1).clamped(), state(true, 100, 2900));
    assert_eq!(state(false, 7, 4200).clamped(), state(false, 7, 4200));
}

#[test]
fn an_adjustment_stays_between_its_bounds() {
    assert_eq!(Adjust::To(7).apply(0, 0, 10), 7);
    assert_eq!(Adjust::To(-7).apply(0, 0, 10), 0);
    assert_eq!(Adjust::By(4).apply(8, 0, 10), 10);
    assert_eq!(Adjust::By(i32::MIN).apply(-1, -5, 10), -5);
}

#[test]
fn toggling_twice_comes_back() {
    let toggle = StatePatch::power(Power::Toggle);
    let base = state(true, 42, 4200);
    assert_eq!(toggle.apply(toggle.apply(base)), base);
    assert_ne!(toggle.apply(base), base);
}

#[test]
fn fields_a_patch_does_not_name_stay() {
    let patch = StatePatch { kelvin: Some(Adjust::By(100)), ..StatePatch::default() };
    assert_eq!(patch.apply(state(true, 42, 4200)), state(true, 42, 4300));
    assert!(!patch.is_empty());
}

#[test]
fn an_aggregate_lies_between_its_members() {
    let group = aggregate(&[state(true, 10, 3000), state(true, 20, 3001), state(true, 90, 6999)]);
    assert_eq!(group, Some(state(true, 40, 4333)));
}

#[test]
fn tokens_may_come_in_any_order() {
    let orders = [["on", "+5%", "4200k"], ["4200K", "+5%", "ON"], ["+5%", "on", " 4200k "]];
    for tokens in orders {
        assert_eq!(parse_patch(&tokens), parse_patch(&orders[0]));
    }
    assert_eq!(parse_patch(&["+5%"]).unwrap().brightness, Some(Adjust::By(5)));
}

#[test]
fn signs_and_zeros_are_read_as_numbers() {
    assert_eq!(parse_token("007%"), Ok(Token::Brightness(Adjust::To(7))));
    assert_eq!(parse_token("-0%"), Ok(Token::Brightness(Adjust::By(0))));
    assert_eq!(parse_token("+2147483647%"), Ok(Token::Brightness(Adjust::By(i32::MAX))));
    assert_eq!(parse_token("-2147483648k"), Ok(Token::Kelvin(Adjust::By(i32::MIN))));
    assert!(parse_token("+-5%").is_err());
    assert!(parse_token("4 2%").is_err());
}

#[test]
fn sanitising_twice_is_sanitising_once() {
    for raw in ["  a\u{85}b ", "\u{9}x", &"y ".repeat(100), "\u{2028}z"] {
        let once = sanitize(raw);
        assert_eq!(sanitize(&once), once);
        assert!(!once.chars().any(char::is_control));
        assert!(once.chars().count() <= 128);
    }
    assert_eq!(sanitize("  a\u{85}b "), "ab");
}

#[test]
fn a_canonical_id_is_its_own_canonical_form() {
    let id = normalize_id("3c:6a:9d-é-0b").unwrap();
    assert_eq!(id, "3C6A9D0B");
    assert_eq!(normalize_id(&id), Some(id.clone()));
}

#[test]
fn a_light_is_pushed_unless_it_already_agrees() {
    let asked = state(true, 50, 4200);
    let mut agrees = record(asked, Some(asked));
    assert_eq!(agrees.set_desired_alone(asked, 3), None);
    assert_eq!(agrees.dirty_since, None);

    let mut offline = record(asked, None);
    assert_eq!(offline.set_desired_alone(asked, 3), Some(Changed::default()));
    assert_eq!(offline.dirty_since, Some(3));
    assert_eq!(offline.set_desired_alone(asked, 4), Some(Changed::default()));
    assert_eq!(offline.dirty_since, Some(3), "asking again is asking once");
}

#[test]
fn a_partial_report_is_clamped_when_merged() {
    let told = PartialState { on: None, brightness: Some(200), kelvin: Some(1) };
    assert_eq!(told.merge_into(state(true, 1, 4200)), state(true, 100, 2900));
}

#[test]
fn the_configuration_lives_under_an_absolute_home() {
    assert!(matches!(config_home(true, true), Some(ConfigHome::Xdg)));
    assert!(matches!(config_home(false, true), Some(ConfigHome::Home)));
    assert!(config_home(false, false).is_none());
}

#[test]
fn a_written_file_says_whose_it_is() {
    assert_eq!(
        file_text("x = 1\n"),
        "# gaffer — written by the daemon, safe to edit by hand.\n\
         # Gangs: which lamps move together, and the brightness difference\n\
         # each keeps from the gang's level.\n\nx = 1\n"
    );
}
