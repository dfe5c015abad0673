use gaffer::{Adjust, LightState, Power, StatePatch, MAX_KELVIN, MIN_KELVIN};

const BASE: LightState = LightState { on: false, brightness: 50, kelvin: 4000 };

#[test]
fn an_empty_patch_changes_nothing() {
    assert!(StatePatch::empty().is_empty());
    assert_eq!(StatePatch::empty().apply(BASE), BASE);
}

#[test]
fn setting_brightness_leaves_power_alone() {
    let patch = StatePatch { brightness: Some(Adjust::To(42)), ..StatePatch::empty() };
    let next = patch.apply(BASE);
    assert_eq!(next.brightness, 42);
    assert!(!next.on, "set must not implicitly power a light on");
    assert_eq!(next.kelvin, BASE.kelvin);
}

#[test]
fn toggle_reads_the_base_state() {
    assert!(StatePatch::power(Power::Toggle).apply(BASE).on);
    let on = LightState { on: true, ..BASE };
    assert!(!StatePatch::power(Power::Toggle).apply(on).on);
}

#[test]
fn relative_adjustments_accumulate_from_the_base() {
    let patch = StatePatch { brightness: Some(Adjust::By(10)), ..StatePatch::empty() };
    assert_eq!(patch.apply(BASE).brightness, 60);

    let patch = StatePatch { brightness: Some(Adjust::By(-10)), ..StatePatch::empty() };
    assert_eq!(patch.apply(BASE).brightness, 40);
}

#[test]
fn relative_adjustments_saturate_at_the_bounds() {
    let dim = LightState { brightness: 5, ..BASE };
    let patch = StatePatch { brightness: Some(Adjust::By(-40)), ..StatePatch::empty() };
    assert_eq!(patch.apply(dim).brightness, 0, "must clamp, not underflow");

    let bright = LightState { brightness: 95, ..BASE };
    let patch = StatePatch { brightness: Some(Adjust::By(40)), ..StatePatch::empty() };
    assert_eq!(patch.apply(bright).brightness, 100);
}

#[test]
fn kelvin_is_clamped_to_the_hardware_range() {
    let patch = StatePatch { kelvin: Some(Adjust::To(9000)), ..StatePatch::empty() };
    assert_eq!(patch.apply(BASE).kelvin, MAX_KELVIN);

    let patch = StatePatch { kelvin: Some(Adjust::To(1000)), ..StatePatch::empty() };
    assert_eq!(patch.apply(BASE).kelvin, MIN_KELVIN);

    let patch = StatePatch { kelvin: Some(Adjust::By(-5000)), ..StatePatch::empty() };
    assert_eq!(patch.apply(BASE).kelvin, MIN_KELVIN);
}

#[test]
fn a_full_patch_moves_every_field_at_once() {
    let patch = StatePatch {
        power: Some(Power::On),
        brightness: Some(Adjust::To(42)),
        kelvin: Some(Adjust::To(4200)),
    };
    assert_eq!(patch.apply(BASE), LightState { on: true, brightness: 42, kelvin: 4200 });
}

#[test]
fn extreme_deltas_do_not_overflow() {
    let patch = StatePatch { brightness: Some(Adjust::By(i32::MAX)), ..StatePatch::empty() };
    assert_eq!(patch.apply(BASE).brightness, 100);
    let patch = StatePatch { kelvin: Some(Adjust::By(i32::MIN)), ..StatePatch::empty() };
    assert_eq!(patch.apply(BASE).kelvin, MIN_KELVIN);
}
