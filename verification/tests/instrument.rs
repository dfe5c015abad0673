use gaffer::endpoint::{Address, Endpoint};
use gaffer::names::{NameMap, NameSet};
use gaffer::record::LightRecord;
use gaffer::world::{Target, World};
use gaffer::{Adjust, LightState, Link, LinkMode, Power, Scene, Selector, StatePatch};

fn lit(brightness: u8) -> LightState {
    LightState { on: true, brightness, kelvin: 4200 }
}

fn pair(a: u8, b: u8) -> Link {
    Link::learn(&[("a".to_string(), lit(a)), ("b".to_string(), lit(b))])
}

fn positions(pairs: &[(&str, u8)]) -> NameMap<LightState> {
    let mut map = NameMap::new();
    for (id, brightness) in pairs {
        map.insert((*id).to_string(), lit(*brightness));
    }
    map
}

fn level_of(map: &NameMap<LightState>, id: &str) -> u8 {
    map.get(id).unwrap().brightness
}

fn lamp(id: &str, brightness: u8) -> LightRecord {
    LightRecord {
        id: id.to_string(),
        fullname: format!("{id}._elg._tcp.local."),
        name: format!("Lamp {id}"),
        model: String::new(),
        firmware: String::new(),
        endpoint: Endpoint { addr: Address::V4(0xC000_020A), port: 9123 },
        desired: lit(brightness),
        reported: Some(lit(brightness)),
        last_error: String::new(),
        dirty_since: None,
    }
}

fn desk(lamps: &[(&str, u8)]) -> World {
    let mut world = World::default();
    for (id, brightness) in lamps {
        world.insert(lamp(id, *brightness));
    }
    world
}

fn ids(names: &[&str]) -> Vec<String> {
    names.iter().map(|n| (*n).to_string()).collect()
}

fn to(value: i32) -> StatePatch {
    StatePatch { brightness: Some(Adjust::To(value)), ..StatePatch::empty() }
}

fn at(world: &World, id: &str) -> u8 {
    world.get(id).unwrap().desired.brightness
}

#[test]
fn the_mover_keeps_exactly_what_it_was_given() {
    for value in [0u8, 1, 50, 99, 100] {
        assert_eq!(level_of(&pair(90, 20).resolve("b", lit(value)), "b"), value);
    }
}

#[test]
fn a_compressed_gang_comes_back_to_its_spacing() {
    let link = pair(30, 60); // b rides +30
    assert_eq!(level_of(&link.resolve("a", lit(90)), "b"), 100);
    assert_eq!(level_of(&link.resolve("a", lit(60)), "b"), 90);
    assert_eq!(link.offset_of("b"), Some(30));
}

#[test]
fn the_level_is_read_through_a_member_that_is_free() {
    let link = pair(40, 60);
    assert_eq!(link.level(&positions(&[("a", 55), ("b", 75)])), Some(55));
    // a is held by the ceiling, so it cannot tell; b can.
    let tall = Link::learn(&[("a".to_string(), lit(90)), ("b".to_string(), lit(20))]);
    assert_eq!(tall.level(&positions(&[("a", 100), ("b", 45)])), Some(115));
    assert_eq!(link.level(&NameMap::new()), None);
}

#[test]
fn a_level_that_is_set_is_the_level_that_is_read() {
    let link = pair(40, 60);
    for level in [5, 40, 79] {
        let spread = link.resolve_from_level(level, lit(0));
        assert_eq!(link.level(&spread), Some(level));
    }
    assert_eq!(level_of(&link.resolve_from_level(-15, lit(0)), "b"), 5);
    assert_eq!(level_of(&link.resolve_from_level(i32::MAX, lit(0)), "a"), 100);
    assert_eq!(level_of(&link.resolve_from_level(i32::MIN, lit(0)), "a"), 0);
}

#[test]
fn matching_lamps_gang_like_a_mirror() {
    let learned = pair(40, 40);
    let mirror = Link::mirror(&["a", "b"]);
    for value in [0u8, 33, 100] {
        assert_eq!(learned.resolve("a", lit(value)), mirror.resolve("a", lit(value)));
    }
}

#[test]
fn a_mirror_is_led_by_the_lamp_named_first() {
    assert_eq!(Link::mirror(&["b", "a"]).reference(), "b");
    assert_eq!(Link::mirror(&["b", "a"]).mode(), LinkMode::Mirror);
    assert!(Link::mirror(&[]).is_empty());
    assert_eq!(LinkMode::Mirror.as_str(), "mirror");
    assert_eq!(LinkMode::Offset.as_str(), "offset");
}

#[test]
fn members_and_offsets_are_listed_in_order() {
    let link = Link::learn(&[("z".to_string(), lit(10)), ("a".to_string(), lit(4))]);
    assert_eq!(link.members(), ids(&["a", "z"]));
    assert_eq!(link.offsets(), vec![("a".to_string(), -6), ("z".to_string(), 0)]);
    assert_eq!(link.len(), 2);
    assert_eq!(link.member_at(1), "z");
}

#[test]
fn mirroring_without_the_reference_changes_nothing() {
    let mut link = pair(40, 60);
    assert!(link.set_mode(LinkMode::Mirror, &positions(&[("b", 60)])).is_none());
    assert_eq!(link.mode(), LinkMode::Offset);
    assert_eq!(link.offset_of("b"), Some(20));
}

#[test]
fn a_command_moves_only_those_addressed_and_their_gangs() {
    let mut world = desk(&[("a", 40), ("b", 60), ("c", 10)]);
    world.link(&ids(&["a", "b"]));
    world.apply(&Target::Id("b".to_string()), &to(80), 1);
    assert_eq!((at(&world, "a"), at(&world, "b"), at(&world, "c")), (60, 80, 10));
}

#[test]
fn a_gang_and_a_loose_lamp_answer_all_together() {
    let mut world = desk(&[("a", 40), ("b", 60), ("c", 11)]);
    world.link(&ids(&["b", "a"]));
    // The aggregate is 37 and resolves once; the first touched member leads.
    world.apply(&Target::Select(Selector::All), &StatePatch {
        brightness: Some(Adjust::By(3)),
        ..StatePatch::empty()
    }, 1);
    assert_eq!((at(&world, "a"), at(&world, "b"), at(&world, "c")), (40, 60, 40));
}

#[test]
fn repeating_an_absolute_command_owes_nothing_new() {
    let mut world = desk(&[("a", 40), ("b", 60)]);
    world.link(&ids(&["a", "b"]));
    assert_eq!(world.apply(&Target::Id("a".to_string()), &to(50), 7).len(), 2);
    let again = world.apply(&Target::Id("a".to_string()), &to(50), 9);
    assert!(again.iter().all(|(_, changed)| !changed.any()));
    assert_eq!(world.get("a").unwrap().dirty_since, Some(7), "the first request counts");
}

#[test]
fn repeating_a_command_to_all_moves_nothing_further() {
    let mut world = desk(&[("a", 40), ("b", 60), ("c", 11)]);
    world.link(&ids(&["a", "b"]));
    let everyone = Target::Select(Selector::All);
    world.apply(&everyone, &to(30), 1);
    assert_eq!((at(&world, "a"), at(&world, "b"), at(&world, "c")), (30, 50, 30));
    let again = world.apply(&everyone, &to(30), 2);
    assert!(again.iter().all(|(_, changed)| !changed.any()));
    assert_eq!((at(&world, "a"), at(&world, "b"), at(&world, "c")), (30, 50, 30));
}

#[test]
fn a_scene_applied_again_stacks_no_gang() {
    let mut world = desk(&[("a", 40), ("b", 60), ("c", 7), ("d", 9)]);
    world.link(&ids(&["a", "b"]));
    let scene = world.capture_scene();
    world.link(&ids(&["c", "d"]));
    world.apply_scene(&scene, 1);
    let once: Vec<Link> = world.links().to_vec();
    world.apply_scene(&scene, 2);
    assert_eq!(world.links(), once.as_slice());
}

#[test]
fn extreme_commands_stay_within_the_hardware() {
    let mut world = desk(&[("a", 40), ("b", 60)]);
    world.link(&ids(&["a", "b"]));
    let wild = StatePatch {
        power: Some(Power::Toggle),
        brightness: Some(Adjust::By(i32::MAX)),
        kelvin: Some(Adjust::To(i32::MIN)),
    };
    world.apply(&Target::Select(Selector::All), &wild, 0);
    world.set_link_level("a", i32::MIN, 0);
    for id in ["a", "b"] {
        let state = world.get(id).unwrap().desired;
        assert!(state.brightness <= 100 && (2900..=7000).contains(&state.kelvin));
        assert_eq!(state.brightness, 0);
    }
}

#[test]
fn ganging_takes_lamps_out_of_their_old_gangs() {
    let mut world = desk(&[("a", 1), ("b", 2), ("c", 3), ("d", 4), ("e", 5)]);
    world.link(&ids(&["a", "b", "c"]));
    world.link(&ids(&["d", "e"]));
    assert_eq!(world.link(&ids(&["c", "d", "ghost"])), ids(&["c", "d"]));
    assert_eq!(world.links().len(), 2);
    assert!(world.link_of("e").is_none(), "left alone by d");
    assert_eq!(world.link_of("a").unwrap().members(), ids(&["a", "b"]));
    assert_eq!(world.link_of("d").unwrap().reference(), "c");
}

#[test]
fn changing_mode_or_spacing_keeps_the_members() {
    let mut world = desk(&[("a", 40), ("b", 60)]);
    world.link(&ids(&["a", "b"]));
    world.set_link_mode("b", LinkMode::Mirror, 0);
    assert_eq!(at(&world, "b"), 40);
    assert!(world.relearn("b", 10));
    assert!(!world.relearn("ghost", 10));
    let link = world.link_of("a").unwrap();
    assert_eq!(link.members(), ids(&["a", "b"]));
    assert_eq!(link.offset_of("b"), Some(-30));
    assert!(world.set_link_mode("ghost", LinkMode::Mirror, 0).is_empty());
    assert!(world.set_link_level("ghost", 5, 0).is_empty());
    assert_eq!(world.link_level("ghost"), None);
}

#[test]
fn a_desk_survives_being_wrecked() {
    let mut world = desk(&[("a", 40), ("b", 60), ("c", 7)]);
    world.link(&ids(&["b", "a"]));
    let scene = world.capture_scene();

    world.link(&ids(&["a", "c"]));
    world.apply(&Target::Select(Selector::All), &to(99), 1);
    world.apply_scene(&scene, 2);

    assert_eq!((at(&world, "a"), at(&world, "b"), at(&world, "c")), (40, 60, 7));
    assert_eq!(world.links().len(), 1);
    assert_eq!(world.link_of("a").unwrap().reference(), "b");
    assert_eq!(world.capture_scene(), scene, "photographed again, it looks the same");
}

#[test]
fn a_plan_names_only_what_the_scene_names() {
    let scene = Scene::capture(&positions(&[("a", 40), ("b", 60)]), &[pair(40, 60)]);
    let mut present = NameSet::new();
    present.insert("a".to_string());
    present.insert("stranger".to_string());
    let plan = scene.plan(&present);
    assert_eq!(plan.detach, ids(&["a"]));
    assert!(plan.form.is_empty());
    assert_eq!(plan.lamps.len(), 1);
    assert_eq!(plan.lamps.get("a").unwrap().brightness, 40);
    assert_eq!(scene.names().names(), ids(&["a", "b"]));
}

#[test]
fn a_gang_whose_reference_is_missing_is_led_by_the_first_that_is_there() {
    let link = Link::learn(&[
        ("c".to_string(), lit(10)),
        ("a".to_string(), lit(42)),
        ("b".to_string(), lit(35)),
    ]);
    let scene = Scene::capture(&positions(&[("a", 42), ("b", 35)]), &[link]);
    assert_eq!(scene.gangs.len(), 1);
    assert!(scene.lamps.is_empty());
    let gang = &scene.gangs[0];
    assert_eq!(gang.members, ids(&["a", "b"]));
    assert_eq!(gang.mode, LinkMode::Offset);
    assert_eq!(gang.offsets.len(), 2);
    assert_eq!(gang.offsets.get("a").unwrap() - gang.offsets.get("b").unwrap(), 7);
    assert_eq!((gang.kelvin, gang.on), (4200, true));
}

#[test]
fn a_gang_with_one_member_there_is_captured_as_a_lamp() {
    let link = Link::learn(&[("gone".to_string(), lit(50)), ("a".to_string(), lit(40))]);
    let scene = Scene::capture(&positions(&[("a", 40), ("b", 60)]), &[link]);
    assert!(scene.gangs.is_empty());
    assert_eq!(scene.lamps.len(), 2);
}

#[test]
fn a_gang_without_its_reference_survives_being_wrecked() {
    let mut world = desk(&[("a", 42), ("b", 35), ("c", 10)]);
    world.link(&ids(&["c", "a", "b"]));
    world.remove("c");
    let scene = world.capture_scene();

    world.unlink("a");
    world.apply(&Target::Select(Selector::All), &to(99), 1);
    world.apply_scene(&scene, 2);

    assert_eq!((at(&world, "a"), at(&world, "b")), (42, 35));
    let link = world.link_of("b").unwrap();
    assert_eq!(link.members(), ids(&["a", "b"]));
    assert_eq!(link.reference(), "a");
    assert_eq!(world.capture_scene(), scene, "photographed again, it looks the same");
}

#[test]
fn a_scene_with_an_extreme_level_stays_within_the_hardware() {
    let mut world = desk(&[("a", 40), ("b", 60), ("c", 7)]);
    world.link(&ids(&["a", "b"]));
    let mut scene = world.capture_scene();
    for (level, expected) in [(1_000, 100), (i32::MAX, 100), (-1_000, 0), (i32::MIN, 0)] {
        scene.gangs[0].level = level;
        world.apply_scene(&scene, 1);
        assert_eq!((at(&world, "a"), at(&world, "b"), at(&world, "c")), (expected, expected, 7));
    }
    world.remove("b");
    scene.gangs[0].level = i32::MAX;
    world.apply_scene(&scene, 2);
    assert_eq!(at(&world, "a"), 100, "the only one there of its gang");
}

#[test]
fn a_map_is_walked_in_order_of_its_names() {
    let mut map: NameMap<i32> = NameMap::new();
    assert_eq!(map.insert("b".to_string(), 1), None);
    assert_eq!(map.insert("a".to_string(), 2), None);
    assert_eq!(map.insert("ab".to_string(), 3), None);
    assert_eq!(map.insert("b".to_string(), 4), Some(1));
    assert_eq!(map.names(), ids(&["a", "ab", "b"]));
    assert_eq!(map.name_at(2), "b");
    assert_eq!(*map.value_at(2), 4);
    *map.get_mut("ab").unwrap() += 10;
    assert_eq!(map.remove("ab"), Some(13));
    assert_eq!(map.remove("ab"), None);
    assert!(!map.contains_key("ab"));
    assert_eq!(map.len(), 2);
}

#[test]
fn a_set_holds_each_name_once() {
    let mut set = NameSet::new();
    assert!(set.insert("é".to_string()));
    assert!(set.insert("z".to_string()));
    assert!(!set.insert("z".to_string()));
    assert_eq!(set.names(), ids(&["z", "é"]));
    assert!(set.contains("é") && !set.contains("e"));
    assert_eq!(set.name_at(0), "z");
    assert_eq!(set.len(), 2);
}
