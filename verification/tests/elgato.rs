use gaffer::elgato::{first_light, put_body, LightEntry, LightsEnvelope, PartialState};
use gaffer::{kelvin_to_mired, mired_to_kelvin, LightState};
use serde_json::Value;

fn byte(value: &Value) -> Option<u8> {
    value.as_u64().map(|n| u8::try_from(n).expect("a byte"))
}

fn word(value: &Value) -> Option<u16> {
    value.as_u64().map(|n| u16::try_from(n).expect("a word"))
}

fn decoded(json: &str) -> Value {
    serde_json::from_str(json).expect("valid json")
}

fn parse(json: &str) -> PartialState {
    let root = decoded(json);
    let mut lights = Vec::new();
    if let Some(entries) = root["lights"].as_array() {
        for entry in entries {
            lights.push(LightEntry {
                on: byte(&entry["on"]),
                brightness: byte(&entry["brightness"]),
                temperature: word(&entry["temperature"]),
            });
        }
    }
    first_light(LightsEnvelope { lights })
}

#[test]
fn a_normal_response_parses_and_converts_to_kelvin() {
    let state =
        parse(r#"{"numberOfLights":1,"lights":[{"on":1,"brightness":75,"temperature":213}]}"#);
    assert_eq!(state.on, Some(true));
    assert_eq!(state.brightness, Some(75));
    assert_eq!(state.kelvin, Some(mired_to_kelvin(213)));
}

#[test]
fn zero_means_off_rather_than_missing() {
    let state = parse(r#"{"lights":[{"on":0,"brightness":0,"temperature":344}]}"#);
    assert_eq!(state.on, Some(false));
    assert_eq!(state.brightness, Some(0));
}

#[test]
fn missing_fields_stay_missing_instead_of_defaulting_to_off() {
    // The dangerous case: `{"on": ...}` absent must not read as "turn off".
    let state = parse(r#"{"lights":[{"brightness":50}]}"#);
    assert_eq!(state.on, None);
    assert_eq!(state.brightness, Some(50));
    assert_eq!(state.kelvin, None);

    let base = LightState { on: true, brightness: 10, kelvin: 4000 };
    assert_eq!(state.merge_into(base), LightState { on: true, brightness: 50, kelvin: 4000 });
}

#[test]
fn an_empty_light_list_yields_nothing_to_merge() {
    let state = parse(r#"{"numberOfLights":0,"lights":[]}"#);
    assert_eq!(state, PartialState::default());

    let base = LightState { on: true, brightness: 42, kelvin: 4200 };
    assert_eq!(state.merge_into(base), base, "an empty response must not disturb state");
}

#[test]
fn a_response_without_a_lights_key_does_not_fail() {
    assert_eq!(parse(r#"{"numberOfLights":0}"#), PartialState::default());
}

#[test]
fn only_the_first_light_is_used() {
    // Key Lights report one; a strip reporting several is out of scope, and
    // silently averaging them would be worse than ignoring the extras.
    let state = parse(r#"{"lights":[{"brightness":10},{"brightness":90}]}"#);
    assert_eq!(state.brightness, Some(10));
}

#[test]
fn the_put_body_matches_the_documented_wire_format() {
    let state = LightState { on: true, brightness: 42, kelvin: 4200 };
    let json = decoded(&put_body(state));

    assert_eq!(json["numberOfLights"], 1);
    assert_eq!(json["lights"][0]["on"], 1);
    assert_eq!(json["lights"][0]["brightness"], 42);
    assert_eq!(json["lights"][0]["temperature"], 238, "must be mireds, not Kelvin");
}

#[test]
fn power_is_serialised_as_an_integer_not_a_bool() {
    let off = LightState { on: false, brightness: 0, kelvin: 4000 };
    let json = decoded(&put_body(off));
    assert_eq!(json["lights"][0]["on"], 0);
    assert!(json["lights"][0]["on"].is_number());
}

#[test]
fn a_state_pushed_then_echoed_round_trips_without_drift() {
    // The reconciler adopts the echoed state as the new desired state, so a
    // value that shifts on every cycle would oscillate forever.
    let mut state = LightState { on: true, brightness: 42, kelvin: 4200 };
    for _ in 0..10 {
        let wire = kelvin_to_mired(state.kelvin);
        let echoed = PartialState {
            on: Some(true),
            brightness: Some(42),
            kelvin: Some(mired_to_kelvin(wire)),
        };
        let next = echoed.merge_into(state);
        if next == state {
            return; // converged
        }
        state = next;
    }
    panic!("state never converged: {state:?}");
}
