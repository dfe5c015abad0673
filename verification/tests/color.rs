use gaffer::color::{
    kelvin_to_mired, mired_to_kelvin, same_mired, MAX_KELVIN, MAX_MIRED, MIN_KELVIN, MIN_MIRED,
};

#[test]
fn endpoints_map_to_the_documented_mireds() {
    // 2900K computes to 345 before clamping, so the clamp is what produces
    // the documented 344. Removing it would send an out-of-range value.
    assert_eq!(kelvin_to_mired(MIN_KELVIN), MAX_MIRED);
    assert_eq!(kelvin_to_mired(MAX_KELVIN), MIN_MIRED);
    // The reverse is not symmetric: the mired grid is coarser than the
    // Kelvin range, so the endpoints land just inside it.
    assert_eq!(mired_to_kelvin(MAX_MIRED), 2907);
    assert_eq!(mired_to_kelvin(MIN_MIRED), 6993);
}

#[test]
fn known_values_match_the_reference_implementations() {
    assert_eq!(kelvin_to_mired(4200), 238);
    assert_eq!(kelvin_to_mired(4000), 250);
    assert_eq!(kelvin_to_mired(5000), 200);
    assert_eq!(mired_to_kelvin(238), 4202);
    assert_eq!(mired_to_kelvin(250), 4000);
    assert_eq!(mired_to_kelvin(200), 5000);
}

#[test]
fn kelvin_values_within_one_mired_step_are_the_same_setting() {
    // The case this exists for: asking for 4200K and having the device echo
    // back 4202K is not a change, it is the same wire value.
    assert!(same_mired(4200, 4202));
    assert!(same_mired(4200, 4200));
    // A genuine move — someone used the Elgato app — must still register.
    assert!(!same_mired(4200, 4400));
    assert!(!same_mired(MIN_KELVIN, MAX_KELVIN));
}

#[test]
fn out_of_range_input_is_clamped_not_wrapped() {
    assert_eq!(kelvin_to_mired(0), MAX_MIRED);
    assert_eq!(kelvin_to_mired(u16::MAX), MIN_MIRED);
    assert_eq!(mired_to_kelvin(0), MAX_KELVIN);
    assert_eq!(mired_to_kelvin(u16::MAX), MIN_KELVIN);
}

#[test]
fn kelvin_round_trip_stays_within_one_mired_step() {
    // A mired step near the warm end is worth ~25K, so exact round-tripping
    // is impossible; assert the error never exceeds one step.
    for kelvin in MIN_KELVIN..=MAX_KELVIN {
        let back = mired_to_kelvin(kelvin_to_mired(kelvin));
        let step = kelvin_step_at(kelvin);
        let drift = i32::from(back).abs_diff(i32::from(kelvin));
        assert!(
            drift <= step,
            "{kelvin}K round-tripped to {back}K (drift {drift} > step {step})"
        );
    }
}

#[test]
fn mired_round_trip_is_exact() {
    // The other direction *is* exact: every mired maps to a distinct Kelvin
    // that maps back to itself. This is the property the daemon relies on
    // when reconciling reported state against desired state.
    for mired in MIN_MIRED..=MAX_MIRED {
        let kelvin = mired_to_kelvin(mired);
        assert_eq!(kelvin_to_mired(kelvin), mired, "mired {mired} did not survive");
    }
}

/// Kelvin distance covered by one mired step at the given temperature.
fn kelvin_step_at(kelvin: u16) -> u32 {
    let m = u32::from(kelvin_to_mired(kelvin));
    let hi = 1_000_000 / m.saturating_sub(1).max(1);
    let lo = 1_000_000 / (m + 1);
    hi - lo
}
