use gaffer::names::{NameMap, NameSet};
use gaffer::{LightState, Link, LinkMode, Scene, SceneLamp};

fn at<V: vstd::view::View + Copy>(map: &NameMap<V>, name: &str) -> V {
    *map.get(name).unwrap()
}

fn state(brightness: u8) -> LightState {
    LightState { on: true, brightness, kelvin: 4200 }
}

fn states(pairs: &[(&str, u8)]) -> NameMap<LightState> {
    let mut map = NameMap::new();
    for (id, b) in pairs {
        map.insert((*id).to_string(), state(*b));
    }
    map
}

fn present(ids: &[&str]) -> NameSet {
    let mut set = NameSet::new();
    for id in ids {
        set.insert((*id).to_string());
    }
    set
}

fn keys_link() -> Link {
    Link::learn(&[("left".to_string(), state(42)), ("right".to_string(), state(35))])
}

#[test]
fn a_gang_is_captured_as_topology_not_as_two_brightnesses() {
    let scene = Scene::capture(&states(&[("left", 42), ("right", 35)]), &[keys_link()]);

    assert_eq!(scene.gangs.len(), 1);
    assert!(scene.lamps.is_empty(), "ganged lamps are not also stored individually");

    let gang = &scene.gangs[0];
    assert_eq!(gang.members, vec!["left".to_string(), "right".to_string()]);
    assert_eq!(gang.level, 42);
    assert_eq!(at(&gang.offsets, "right"), -7);
    assert_eq!(gang.mode, LinkMode::Offset);
}

#[test]
fn the_reference_leads_so_a_mirror_stays_reproducible() {
    // `link right left` makes right the reference; capture must preserve it.
    let link =
        Link::learn(&[("right".to_string(), state(35)), ("left".to_string(), state(42))]);
    let scene = Scene::capture(&states(&[("left", 42), ("right", 35)]), &[link]);
    assert_eq!(scene.gangs[0].members.first().unwrap(), "right");
    assert_eq!(scene.gangs[0].to_link().reference(), "right");
}

#[test]
fn an_ungangeed_lamp_is_captured_with_absolute_values() {
    let scene = Scene::capture(&states(&[("mini", 64)]), &[]);
    assert!(scene.gangs.is_empty());
    assert_eq!(
        scene.lamps[0],
        SceneLamp { id: "mini".into(), brightness: 64, kelvin: 4200, on: true }
    );
}

#[test]
fn applying_restores_the_level_and_offsets_exactly() {
    let scene = Scene::capture(&states(&[("left", 42), ("right", 35)]), &[keys_link()]);
    let plan = scene.plan(&present(&["left", "right"]));

    assert_eq!(plan.form.len(), 1);
    let gang = &plan.form[0];
    let resolved = gang.to_link().resolve_from_level(gang.level, gang.template());
    assert_eq!(at(&resolved, "left").brightness, 42);
    assert_eq!(at(&resolved, "right").brightness, 35);
}

#[test]
fn a_level_beyond_the_ceiling_survives_a_round_trip() {
    // A gang compressed against the top keeps its spacing, because the
    // stored level is signed and unclamped.
    let mut link = keys_link();
    link.relearn("right", 100, &states(&[("left", 42)])); // right +58
    let captured = Scene::capture(&states(&[("left", 42), ("right", 100)]), &[link]);
    let gang = &captured.gangs[0];

    let resolved = gang.to_link().resolve_from_level(gang.level, gang.template());
    assert_eq!(at(&resolved, "left").brightness, 42);
    assert_eq!(at(&resolved, "right").brightness, 100);
}

#[test]
fn every_named_lamp_is_detached_before_anything_is_formed() {
    let scene =
        Scene::capture(&states(&[("left", 42), ("right", 35), ("mini", 64)]), &[keys_link()]);
    let plan = scene.plan(&present(&["left", "right", "mini"]));

    assert_eq!(plan.detach, vec!["left".to_string(), "mini".to_string(), "right".to_string()]);
    assert_eq!(scene.names().len(), 3);
}

#[test]
fn a_lamp_the_scene_never_mentions_is_absent_from_the_plan() {
    // The bound that keeps applying a scene about "keys" from touching the
    // rest of the desk.
    let scene = Scene::capture(&states(&[("left", 42), ("right", 35)]), &[keys_link()]);
    let plan = scene.plan(&present(&["left", "right", "stranger"]));

    assert!(!plan.detach.contains(&"stranger".to_string()));
    assert!(!plan.lamps.contains_key("stranger"));
    assert!(plan.form.iter().all(|g| !g.members.contains(&"stranger".to_string())));
}

#[test]
fn a_missing_member_leaves_the_gang_unformed_but_still_lights_the_survivor() {
    let scene = Scene::capture(&states(&[("left", 42), ("right", 35)]), &[keys_link()]);
    let plan = scene.plan(&present(&["left"]));

    assert!(plan.form.is_empty(), "two members are needed to form a gang");
    assert_eq!(at(&plan.lamps, "left").brightness, 42, "the survivor still takes its value");
    // The scene itself is untouched, so the gang re-forms when right returns.
    assert_eq!(at(&scene.gangs[0].offsets, "right"), -7);
}

#[test]
fn a_scene_captured_and_replanned_is_stable() {
    let before = states(&[("left", 42), ("right", 35), ("mini", 64)]);
    let scene = Scene::capture(&before, &[keys_link()]);
    let plan = scene.plan(&present(&["left", "right", "mini"]));

    let mut after: NameMap<LightState> = plan.lamps.clone();
    for gang in &plan.form {
        let resolved = gang.to_link().resolve_from_level(gang.level, gang.template());
        for i in 0..resolved.len() {
            after.insert(resolved.name_at(i).clone(), *resolved.value_at(i));
        }
    }
    assert_eq!(after, before, "applying a scene captured from a desk must not move it");
}

#[test]
fn a_half_covered_gang_is_not_captured_as_a_gang() {
    // Only one member is in the capture set, so storing it as a gang would
    // promise a topology the scene cannot reproduce.
    let scene = Scene::capture(&states(&[("left", 42)]), &[keys_link()]);
    assert!(scene.gangs.is_empty());
    assert_eq!(scene.lamps.len(), 1);
    assert_eq!(scene.lamps[0].brightness, 42);
}

#[test]
fn temperature_and_power_are_stored_once_per_gang() {
    let mut dark = NameMap::new();
    dark.insert("left".to_string(), LightState { on: false, brightness: 42, kelvin: 2900 });
    dark.insert("right".to_string(), LightState { on: false, brightness: 35, kelvin: 2900 });
    let scene = Scene::capture(&dark, &[keys_link()]);
    assert_eq!(scene.gangs[0].kelvin, 2900);
    assert!(!scene.gangs[0].on);

    let gang = &scene.gangs[0];
    let resolved = gang.to_link().resolve_from_level(gang.level, gang.template());
    assert_eq!(resolved.len(), 2);
    for i in 0..resolved.len() {
        let s = resolved.value_at(i);
        assert!(!s.on && s.kelvin == 2900);
    }
}
