use gaffer::dbus::{light_path, matched_in_order, scene_name, GROUP_PATH, MAX_SCENE_NAME};
use gaffer::endpoint::{Address, Endpoint};
use gaffer::record::LightRecord;
use gaffer::world::World;
use gaffer::LightState;

#[test]
fn object_paths_are_valid_dbus_elements() {
    // MAC separators are not legal in a path element.
    assert_eq!(light_path("00:00:5E:00:53:01"), "/io/mineiro/gaffer/lights/00005E005301");
    assert_eq!(light_path("00005e005301"), "/io/mineiro/gaffer/lights/00005E005301");
}

#[test]
fn paths_are_stable_across_id_formatting() {
    // The same hardware must land on the same path however its id is
    // punctuated, or a client would see it vanish and reappear.
    assert_eq!(light_path("00:00:5E:00:53:01"), light_path("00-00-5e-00-53-01"));
}

#[test]
fn a_light_path_never_collides_with_the_group() {
    assert_ne!(light_path("all"), GROUP_PATH);
}

/// A world whose lamp ids sort the *opposite* way to their names, so a
/// stray sort cannot pass by coincidence. Documentation MACs per RFC 7042.
fn two_lamps() -> World {
    let mut world = World::default();
    for (id, name) in [("00005E0053FF", "Key Light Left"), ("00005E005301", "Key Light Right")]
    {
        world.insert(LightRecord {
            id: id.to_string(),
            fullname: format!("{name}._elg._tcp.local."),
            name: name.to_string(),
            model: String::new(),
            firmware: String::new(),
            endpoint: Endpoint { addr: Address::V4(0xC000_020A), port: 9123 },
            desired: LightState { on: true, brightness: 40, kelvin: 4200 },
            reported: None,
            last_error: String::new(),
            dirty_since: None,
        });
    }
    world
}

#[test]
fn the_first_selector_names_the_gangs_reference() {
    // `link left right` reads "link right onto left", so left leads —
    // regardless of how the hardware ids happen to sort. Left's id is the
    // *higher* of the two here, which is what a sort would get wrong.
    let world = two_lamps();
    let matched = matched_in_order(&world, &["left".to_string(), "right".to_string()]);
    assert_eq!(matched, vec!["00005E0053FF".to_string(), "00005E005301".to_string()]);
}

#[test]
fn naming_the_lamps_the_other_way_round_builds_the_other_gang() {
    // The two orders must be distinguishable — this is the whole point.
    let world = two_lamps();
    let matched = matched_in_order(&world, &["right".to_string(), "left".to_string()]);
    assert_eq!(matched, vec!["00005E005301".to_string(), "00005E0053FF".to_string()]);
}

#[test]
fn overlapping_selectors_keep_the_first_mention() {
    let world = two_lamps();
    let matched =
        matched_in_order(&world, &["left".to_string(), "key".to_string(), "left".to_string()]);
    assert_eq!(matched.len(), 2, "no duplicates: {matched:?}");
    assert_eq!(matched[0], "00005E0053FF", "and left still leads");
}

#[test]
fn a_scene_name_cannot_smuggle_a_terminal_escape() {
    assert!(scene_name("studio\u{1b}[2Kfake").is_err());
    assert!(scene_name("studio\ntwo").is_err());
    assert!(scene_name("   ").is_err());
    assert!(scene_name(&"x".repeat(MAX_SCENE_NAME + 1)).is_err());
    // Surrounding whitespace is trimmed, not rejected.
    assert_eq!(scene_name("  on camera  ").unwrap(), "on camera");
    // Ordinary names with punctuation and non-ASCII are fine.
    assert_eq!(scene_name("gravação — 2ª câmera").unwrap(), "gravação — 2ª câmera");
}
