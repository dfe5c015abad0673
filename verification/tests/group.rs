use gaffer::group::aggregate;
use gaffer::LightState;

fn light(on: bool, brightness: u8, kelvin: u16) -> LightState {
    LightState { on, brightness, kelvin }
}

#[test]
fn no_members_means_no_state() {
    assert_eq!(aggregate(&[]), None);
}

#[test]
fn a_lone_member_is_reported_verbatim() {
    let only = light(true, 42, 4200);
    assert_eq!(aggregate(&[only]), Some(only));
}

#[test]
fn power_is_the_conjunction_of_members() {
    let on = |a, b| aggregate(&[light(a, 50, 4000), light(b, 50, 4000)]).unwrap().on;

    assert!(on(true, true));
    // One member off is enough to read the group as off. The asymmetry is
    // what makes a group toggle behave predictably from a mixed state.
    assert!(!on(true, false));
    assert!(!on(false, true));
    assert!(!on(false, false));
}

#[test]
fn brightness_and_temperature_are_averaged() {
    let group = aggregate(&[light(true, 40, 4000), light(true, 60, 5000)]).unwrap();
    assert_eq!(group.brightness, 50);
    assert_eq!(group.kelvin, 4500);
}

#[test]
fn averages_round_half_up_rather_than_truncating() {
    let group = aggregate(&[light(true, 40, 4000), light(true, 41, 4001)]).unwrap();
    assert_eq!(group.brightness, 41, "40.5 should round to 41, not 40");
    assert_eq!(group.kelvin, 4001);
}

#[test]
fn a_large_group_does_not_overflow_the_running_sum() {
    let members = vec![light(true, 100, 7000); 1000];
    let group = aggregate(&members).unwrap();
    assert_eq!(group.brightness, 100);
    assert_eq!(group.kelvin, 7000);
}

#[test]
fn the_aggregate_is_always_a_valid_state() {
    let group = aggregate(&[light(true, 100, 7000), light(true, 0, 2900)]).unwrap();
    assert_eq!(group, group.clamped());
}
