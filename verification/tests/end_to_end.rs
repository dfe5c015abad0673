use gaffer::{group, kelvin_to_mired, parse_patch, LightState, Power, StatePatch};

#[test]
fn a_cli_invocation_resolves_end_to_end() {
    // `gaffer set left +10% -200k` against a light reporting 50% at 4200K.
    let reported = LightState { on: true, brightness: 50, kelvin: 4200 };
    let patch = parse_patch(&["+10%", "-200k"]).unwrap();
    let desired = patch.apply(reported);

    assert_eq!(desired, LightState { on: true, brightness: 60, kelvin: 4000 });
    assert_eq!(kelvin_to_mired(desired.kelvin), 250);
}

#[test]
fn a_toggle_of_a_two_light_group_uses_the_aggregate() {
    // One light on, one off: the group reads as off, so a toggle turns the
    // pair on rather than flipping each member independently.
    let members = [
        LightState { on: true, ..Default::default() },
        LightState { on: false, ..Default::default() },
    ];
    let group = group::aggregate(&members).unwrap();
    assert!(!group.on);

    let toggled = StatePatch::power(Power::Toggle).apply(group);
    assert!(toggled.on);
}
