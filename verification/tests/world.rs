use gaffer::endpoint::{Address, Endpoint};
use gaffer::names::NameMap;
use gaffer::record::{Changed, LightId, LightRecord};
use gaffer::world::{GroupSnapshot, Target, World};
use gaffer::{Adjust, LightState, Power, Scene, Selector, StatePatch};

fn record(id: &str, name: &str, state: LightState, online: bool) -> LightRecord {
    LightRecord {
        id: id.to_string(),
        fullname: format!("{name}._elg._tcp.local."),
        name: name.to_string(),
        model: "Elgato Key Light MK.2".to_string(),
        firmware: String::new(),
        endpoint: Endpoint { addr: Address::V4(0xC000_020A), port: 9123 },
        desired: state,
        reported: if online { Some(state) } else { None },
        last_error: String::new(),
        dirty_since: None,
    }
}

fn ids(touched: &[(LightId, Changed)]) -> Vec<String> {
    touched.iter().map(|(id, _)| id.clone()).collect()
}

fn world() -> World {
    let mut world = World::default();
    world.insert(record(
        "a",
        "Key Light Left",
        LightState { on: true, brightness: 40, kelvin: 4000 },
        true,
    ));
    world.insert(record(
        "b",
        "Key Light Right",
        LightState { on: true, brightness: 60, kelvin: 5000 },
        true,
    ));
    world
}

#[test]
fn a_base_url_is_built_only_from_an_address_and_a_port() {
    let v4 = Endpoint { addr: Address::V4(0xC000_020A), port: 9123 };
    assert_eq!(v4.base_url(), "http://192.0.2.10:9123");
}

#[test]
fn ipv6_literals_are_bracketed() {
    // Without brackets the address's own colons would be read as a port.
    let v6 = Endpoint { addr: Address::V6(0x2001_0db8 << 96 | 1), port: 9123 };
    assert_eq!(v6.base_url(), "http://[2001:db8::1]:9123");
}

#[test]
fn a_url_cannot_carry_a_path_however_hostile_discovery_was() {
    // The endpoint holds a parsed address, so there is no string an mDNS
    // advertisement could supply that adds a path, query or userinfo.
    for addr in [Address::V4(0x7F00_0001), Address::V6(1), Address::V4(0xC000_020A)] {
        let url = Endpoint { addr, port: 11434 }.base_url();
        let after_scheme = url.trim_start_matches("http://");
        assert!(!after_scheme.contains('/'), "{url} gained a path");
        assert!(!after_scheme.contains('#') && !after_scheme.contains('?'), "{url}");
        assert!(!after_scheme.contains('@'), "{url} gained userinfo");
    }
}

#[test]
fn a_named_selector_adjusts_relative_to_that_light() {
    let mut world = world();
    let patch = StatePatch { brightness: Some(Adjust::By(10)), ..StatePatch::empty() };
    let touched = world.apply(&Target::Select(Selector::parse("left")), &patch, 0);

    assert_eq!(ids(&touched), vec!["a".to_string()]);
    assert!(touched[0].1.brightness, "the change must be announced to clients");
    assert_eq!(world.get("a").unwrap().desired.brightness, 50);
    assert_eq!(world.get("b").unwrap().desired.brightness, 60, "right must not move");
}

#[test]
fn all_resolves_once_against_the_aggregate_then_fans_out() {
    let mut world = world();
    // Aggregate brightness is 50; +10 makes 60 for *both*, rather than
    // 50 and 70. The group behaves as one device.
    let patch = StatePatch { brightness: Some(Adjust::By(10)), ..StatePatch::empty() };
    let touched = world.apply(&Target::Select(Selector::All), &patch, 0);

    assert_eq!(touched.len(), 2);
    assert_eq!(world.get("a").unwrap().desired.brightness, 60);
    assert_eq!(world.get("b").unwrap().desired.brightness, 60);
}

#[test]
fn toggling_a_mixed_group_turns_everything_on() {
    let mut world = World::default();
    world.insert(record("a", "Left", LightState { on: true, ..Default::default() }, true));
    world.insert(record("b", "Right", LightState { on: false, ..Default::default() }, true));

    let touched =
        world.apply(&Target::Select(Selector::All), &StatePatch::power(Power::Toggle), 0);

    assert!(world.get("a").unwrap().desired.on);
    assert!(world.get("b").unwrap().desired.on, "the off light must come on, not flip off");
    // Only "b" actually moved. "a" was already in the target state, so the
    // fan-out owes it no push — a group command must not generate needless
    // HTTP traffic to lights that already agree.
    assert_eq!(ids(&touched), vec!["b".to_string()]);
}

#[test]
fn a_command_matching_nothing_touches_nothing() {
    let mut world = world();
    let touched = world.apply(&Target::Select(Selector::parse("nonexistent")), &StatePatch::power(Power::On), 0);
    assert!(touched.is_empty());
}

#[test]
fn re_issuing_a_command_still_pushes_when_hardware_disagrees() {
    let mut world = world();
    // Simulate someone changing the light behind gaffer's back.
    world.get_mut("a").unwrap().reported =
        Some(LightState { on: true, brightness: 5, kelvin: 4000 });

    let patch = StatePatch { brightness: Some(Adjust::To(40)), ..StatePatch::empty() };
    let touched = world.apply(&Target::Id("a".into()), &patch, 0);

    assert_eq!(
        ids(&touched),
        vec!["a".to_string()],
        "desired was already 40 but hardware was not"
    );
    assert!(world.get("a").unwrap().dirty_since.is_some());
    assert!(!touched[0].1.any(), "a corrective push nobody can see emits no signal");
}

#[test]
fn a_genuine_no_op_does_not_mark_the_light_dirty() {
    let mut world = world();
    let patch = StatePatch { brightness: Some(Adjust::To(40)), ..StatePatch::empty() };
    assert!(world.apply(&Target::Id("a".into()), &patch, 0).is_empty());
    assert!(world.get("a").unwrap().dirty_since.is_none());
}

#[test]
fn offline_members_are_excluded_from_the_aggregate() {
    let mut world = world();
    world.get_mut("b").unwrap().reported = None;

    // Only "a" (40%) is online, so the group reads 40 rather than 50.
    assert_eq!(world.group_state().unwrap().brightness, 40);
    assert_eq!(world.online_count(), 1);
}

#[test]
fn the_group_falls_back_to_all_members_when_none_are_online() {
    let mut world = world();
    for id in ["a", "b"] {
        world.get_mut(id).unwrap().reported = None;
    }
    assert_eq!(
        world.group_state().unwrap().brightness,
        50,
        "should show last known, not blank"
    );
    assert_eq!(world.online_count(), 0);
}

#[test]
fn an_empty_world_has_no_group_state() {
    assert_eq!(World::default().group_state(), None);
}

#[test]
fn the_change_diff_reports_only_what_moved() {
    let before =
        record("a", "Left", LightState { on: true, brightness: 40, kelvin: 4000 }, true);
    let mut after = before.clone();
    after.desired.brightness = 50;

    let changed = Changed::between(&before, &after);
    assert!(changed.brightness);
    assert!(!changed.on && !changed.kelvin && !changed.meta && !changed.online);
    assert!(changed.any());

    assert!(!Changed::between(&before, &before).any());
}

fn snapshot(state: Option<LightState>, online: usize, members: usize) -> GroupSnapshot {
    GroupSnapshot { state, online, members }
}

#[test]
fn an_unchanged_group_emits_nothing() {
    let before = snapshot(Some(LightState { on: true, brightness: 40, kelvin: 4000 }), 2, 2);
    assert!(!GroupSnapshot::diff(before, before).any());
}

#[test]
fn a_group_brightness_move_is_reported_alone() {
    let before = snapshot(Some(LightState { on: true, brightness: 40, kelvin: 4000 }), 2, 2);
    let after = snapshot(Some(LightState { on: true, brightness: 50, kelvin: 4000 }), 2, 2);

    let changed = GroupSnapshot::diff(before, after);
    assert!(changed.brightness);
    assert!(!changed.on && !changed.kelvin && !changed.online);
}

#[test]
fn a_member_going_offline_changes_the_group() {
    let state = Some(LightState { on: true, brightness: 40, kelvin: 4000 });
    let (before, after) = (snapshot(state, 2, 2), snapshot(state, 1, 2));
    assert!(GroupSnapshot::diff(before, after).online);
    assert!(GroupSnapshot::membership_changed(before, after));
}

#[test]
fn an_empty_group_compares_against_defaults_without_panicking() {
    assert!(!GroupSnapshot::diff(snapshot(None, 0, 0), snapshot(None, 0, 0)).any());

    let appeared =
        GroupSnapshot::diff(snapshot(None, 0, 0), snapshot(Some(LightState::default()), 1, 1));
    assert!(appeared.online);
}

#[test]
fn ganging_learns_the_current_difference() {
    let mut world = world(); // a=40%, b=60%
    assert_eq!(world.link(&["a".into(), "b".into()]).len(), 2);

    let link = world.link_of("a").expect("a should be ganged");
    assert_eq!(link.offset_of("a"), Some(0));
    assert_eq!(link.offset_of("b"), Some(20));
}

#[test]
fn moving_either_member_moves_the_whole_gang() {
    let mut world = world();
    world.link(&["a".into(), "b".into()]);

    let patch = StatePatch { brightness: Some(Adjust::To(50)), ..StatePatch::empty() };
    let touched = world.apply(&Target::Id("a".into()), &patch, 0);

    assert_eq!(ids(&touched), vec!["a".to_string(), "b".to_string()]);
    assert_eq!(world.get("a").unwrap().desired.brightness, 50);
    assert_eq!(world.get("b").unwrap().desired.brightness, 70, "offset +20 preserved");
}

#[test]
fn power_gangs_so_the_pair_is_one_instrument() {
    let mut world = world();
    world.link(&["a".into(), "b".into()]);

    world.apply(&Target::Id("a".into()), &StatePatch::power(Power::Off), 0);
    assert!(!world.get("a").unwrap().desired.on);
    assert!(!world.get("b").unwrap().desired.on, "turning the gang off turns both off");
}

#[test]
fn temperature_mirrors_across_the_gang() {
    let mut world = world(); // a=4000K, b=5000K
    world.link(&["a".into(), "b".into()]);

    let patch = StatePatch { kelvin: Some(Adjust::To(4200)), ..StatePatch::empty() };
    world.apply(&Target::Id("a".into()), &patch, 0);

    assert_eq!(world.get("a").unwrap().desired.kelvin, 4200);
    assert_eq!(
        world.get("b").unwrap().desired.kelvin,
        4200,
        "temperature mirrors, never offsets"
    );
}

#[test]
fn applying_the_resolved_state_again_changes_nothing() {
    // The oscillation guard at world level: a gang that has settled must
    // not keep generating work when the same command arrives twice.
    let mut world = world();
    world.link(&["a".into(), "b".into()]);
    let patch = StatePatch { brightness: Some(Adjust::To(50)), ..StatePatch::empty() };

    world.apply(&Target::Id("a".into()), &patch, 0);
    for id in ["a", "b"] {
        let light = world.get_mut(id).unwrap();
        light.reported = Some(light.desired);
        light.dirty_since = None;
    }

    assert!(world.apply(&Target::Id("a".into()), &patch, 0).is_empty());
    assert!(world.apply(&Target::Id("b".into()), &StatePatch::empty(), 0).is_empty());
}

#[test]
fn a_lamp_belongs_to_at_most_one_gang() {
    let mut world = world();
    world.insert(record(
        "c",
        "Mini",
        LightState { on: true, brightness: 10, kelvin: 4000 },
        true,
    ));

    world.link(&["a".into(), "b".into()]);
    world.link(&["b".into(), "c".into()]);

    assert!(world.link_of("a").is_none(), "a's gang dissolved when b left it");
    assert!(world.link_of("b").is_some());
    assert!(world.link_of("c").is_some());
    assert_eq!(world.links().len(), 1);
}

#[test]
fn unlinking_dissolves_a_pair_entirely() {
    let mut world = world();
    world.link(&["a".into(), "b".into()]);

    let affected = world.unlink("a");
    assert_eq!(affected.len(), 2, "both lamps are affected when a pair breaks");
    assert!(world.link_of("a").is_none());
    assert!(world.link_of("b").is_none(), "a gang of one is not a gang");
}

#[test]
fn ganging_needs_at_least_two_present_lamps() {
    let mut world = world();
    assert!(world.link(&["a".into()]).is_empty());
    assert!(world.link(&["a".into(), "nonexistent".into()]).is_empty());
    assert!(world.link_of("a").is_none());
}

#[test]
fn alt_drag_relearns_the_spacing() {
    let mut world = world();
    world.link(&["a".into(), "b".into()]); // offset +20

    // b is dragged alone to 45 while a stays at 40.
    world.get_mut("b").unwrap().desired.brightness = 45;
    assert!(world.relearn("b", 45));
    assert_eq!(world.link_of("b").unwrap().offset_of("b"), Some(5));

    let patch = StatePatch { brightness: Some(Adjust::To(60)), ..StatePatch::empty() };
    world.apply(&Target::Id("a".into()), &patch, 0);
    assert_eq!(world.get("b").unwrap().desired.brightness, 65);
}

#[test]
fn all_still_addresses_every_lamp_with_a_gang_present() {
    // `all` touches both members, so the lowest id acts as the mover and
    // the gang keeps its shape rather than being flattened.
    let mut world = world();
    world.link(&["a".into(), "b".into()]); // offset +20

    let patch = StatePatch { brightness: Some(Adjust::To(50)), ..StatePatch::empty() };
    world.apply(&Target::Select(Selector::All), &patch, 0);

    assert_eq!(world.get("a").unwrap().desired.brightness, 50);
    assert_eq!(world.get("b").unwrap().desired.brightness, 70);
}

#[test]
fn leaving_a_gang_moves_no_lamp() {
    // Scene apply leans on this: removing a named lamp from a gang must
    // never disturb anyone's brightness, only the topology.
    let mut world = world();
    world.insert(record(
        "c",
        "Mini",
        LightState { on: true, brightness: 10, kelvin: 4000 },
        true,
    ));
    world.link(&["a".into(), "b".into(), "c".into()]);

    let before: Vec<LightState> =
        ["a", "b", "c"].iter().map(|id| world.get(id).unwrap().desired).collect();

    world.unlink("a");

    let after: Vec<LightState> =
        ["a", "b", "c"].iter().map(|id| world.get(id).unwrap().desired).collect();
    assert_eq!(before, after, "unlinking must not move values");
}

#[test]
fn a_remnant_of_two_or_more_survives_one_member_leaving() {
    let mut world = world();
    world.insert(record(
        "c",
        "Mini",
        LightState { on: true, brightness: 10, kelvin: 4000 },
        true,
    ));
    world.link(&["a".into(), "b".into(), "c".into()]);

    world.unlink("a");

    assert!(world.link_of("a").is_none(), "the named lamp leaves");
    assert!(world.link_of("b").is_some(), "the remnant survives");
    assert!(world.link_of("c").is_some());
    assert_eq!(world.link_of("b").unwrap().len(), 2);
}

#[test]
fn a_gang_survives_a_member_disappearing_and_resumes_when_it_returns() {
    // Scene apply relies on stored offsets outliving an absent lamp.
    let mut world = world();
    world.link(&["a".into(), "b".into()]); // b rides +20

    let vanished = world.remove("b").expect("b was present");
    assert!(world.link_of("a").is_some(), "the gang outlives the missing member");

    world.insert(vanished);
    let patch = StatePatch { brightness: Some(Adjust::To(50)), ..StatePatch::empty() };
    world.apply(&Target::Id("a".into()), &patch, 0);
    assert_eq!(world.get("b").unwrap().desired.brightness, 70, "the offset survived");
}

#[test]
fn a_gang_can_be_driven_by_its_level() {
    let mut world = world(); // a=40, b=60 -> b rides +20
    world.link(&["a".into(), "b".into()]);
    assert_eq!(world.link_level("a"), Some(40));

    world.set_link_level("a", 55, 0);
    assert_eq!(world.get("a").unwrap().desired.brightness, 55);
    assert_eq!(world.get("b").unwrap().desired.brightness, 75);
    assert_eq!(world.link_level("b"), Some(55), "readable from either member");
}

#[test]
fn a_scene_restores_both_the_values_and_the_gang() {
    let mut world = world();
    world.link(&["a".to_string(), "b".to_string()]);
    let scene = world.capture_scene();

    // Wreck it: pull the gang apart and move both lamps.
    world.unlink("a");
    world.apply(
        &Target::Select(Selector::All),
        &StatePatch { brightness: Some(Adjust::To(5)), ..Default::default() },
        0,
    );
    assert!(world.link_of("a").is_none());

    world.apply_scene(&scene, 0);
    assert_eq!(world.get("a").unwrap().desired.brightness, 40);
    assert_eq!(world.get("b").unwrap().desired.brightness, 60);
    assert!(world.link_of("a").is_some(), "the gang is back");
    assert_eq!(world.links().len(), 1, "and there is only one of it");
}

#[test]
fn a_scene_can_rebuild_a_gang_from_lamps_that_are_ganged_elsewhere() {
    // Why detach runs before form: at capture time {a,b} were one gang,
    // but by apply time a is ganged to c instead. Applying has to take a
    // out of that gang before it can go back into this one.
    let mut world = world();
    world.insert(record(
        "c",
        "Mini",
        LightState { on: true, brightness: 20, kelvin: 4000 },
        true,
    ));
    world.link(&["a".to_string(), "b".to_string()]);
    let scene = world.capture_scene();

    world.unlink("a");
    world.link(&["a".to_string(), "c".to_string()]);
    world.apply_scene(&scene, 0);

    let gang = world.link_of("a").expect("a is ganged");
    assert!(gang.contains("b"), "to b, as the scene says");
    assert!(!gang.contains("c"), "and c has been let go");
}

#[test]
fn a_lamp_the_scene_never_names_keeps_its_brightness() {
    // c is not in the scene. Applying may dissolve the gang it happens to
    // be in — that is topology — but must not move it.
    let mut world = world();
    world.insert(record(
        "c",
        "Mini",
        LightState { on: true, brightness: 20, kelvin: 4000 },
        true,
    ));
    let mut states = NameMap::new();
    states.insert("a".to_string(), world.get("a").unwrap().desired);
    let scene = Scene::capture(&states, &[]);

    world.link(&["a".to_string(), "c".to_string()]);
    let touched = world.apply_scene(&scene, 0);

    assert!(!ids(&touched).contains(&"c".to_string()));
    assert_eq!(world.get("c").unwrap().desired.brightness, 20);
    assert!(world.link_of("c").is_none(), "though its gang is gone");
}

#[test]
fn a_scene_survives_a_lamp_being_absent_and_re_forms_when_it_returns() {
    let mut world = world();
    world.link(&["a".to_string(), "b".to_string()]);
    let scene = world.capture_scene();

    world.remove("b");
    world.apply_scene(&scene, 0);
    assert!(world.link_of("a").is_none(), "one lamp cannot be a gang");
    assert_eq!(world.get("a").unwrap().desired.brightness, 40, "but it still takes its value");

    world.insert(record(
        "b",
        "Key Light Right",
        LightState { on: false, brightness: 1, kelvin: 7000 },
        true,
    ));
    world.apply_scene(&scene, 0);
    assert!(world.link_of("a").is_some_and(|gang| gang.contains("b")), "the gang re-forms");
    assert_eq!(world.get("b").unwrap().desired.brightness, 60);
}

#[test]
fn applying_a_scene_twice_changes_nothing_the_second_time() {
    let mut world = world();
    world.link(&["a".to_string(), "b".to_string()]);
    let scene = world.capture_scene();
    world.apply(
        &Target::Select(Selector::All),
        &StatePatch { brightness: Some(Adjust::To(5)), ..Default::default() },
        0,
    );

    assert!(
        world.apply_scene(&scene, 0).iter().any(|(_, changed)| changed.any()),
        "the first apply moves lamps"
    );
    // The second still owes hardware a corrective push — `reported` only
    // converges once the reconciler runs — but nothing a client can see has
    // moved, so every reported change is empty.
    assert!(
        world.apply_scene(&scene, 0).iter().all(|(_, changed)| !changed.any()),
        "the second changes nothing observable"
    );
    assert_eq!(world.links().len(), 1, "and does not stack a duplicate gang");
}

#[test]
fn a_light_answers_to_the_id_it_carries() {
    let mut world = world();
    world.get_mut("a").unwrap().id = "z".to_string();
    assert_eq!(world.select(&Selector::All), ["z", "b"], "filed first, whatever it carries");
    assert_eq!(world.select(&Selector::parse("z")), ["z"]);
    assert_eq!(world.select(&Selector::parse("left")), ["z"]);
    assert_eq!(world.ids(), ["a", "b"]);

    let off = StatePatch::power(Power::Off);
    assert!(world.apply(&Target::Select(Selector::parse("z")), &off, 0).is_empty());
    assert!(world.get("a").unwrap().desired.on, "no light is filed under what was asked for");
    assert_eq!(ids(&world.apply(&Target::Select(Selector::All), &off, 0)), ["b"]);
}

#[test]
fn of_two_lights_that_carry_one_id_the_later_counts() {
    let mut world = world();
    world.get_mut("a").unwrap().id = "b".to_string();
    let dim = StatePatch { brightness: Some(Adjust::By(5)), ..StatePatch::empty() };
    assert_eq!(ids(&world.apply(&Target::Select(Selector::parse("key")), &dim, 0)), ["b"]);
    assert_eq!(world.get("b").unwrap().desired.brightness, 65);
    assert_eq!(world.get("a").unwrap().desired.brightness, 40);
}
