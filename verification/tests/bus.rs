use gaffer::dbus::{
    apply_and_snapshot, light_path, properties_changed, Light1, Manager1, Property, Request,
    Subject,
};
use gaffer::endpoint::{Address, Endpoint};
use gaffer::record::{Changed, LightRecord};
use gaffer::world::{Target, World};
use gaffer::{LightState, LinkMode, Selector, StatePatch};

fn on_desk(id: &str, name: &str, brightness: u8) -> LightRecord {
    let state = LightState { on: true, brightness, kelvin: 4000 };
    LightRecord {
        id: id.to_string(),
        fullname: format!("{name}._elg._tcp.local."),
        name: name.to_string(),
        model: "Key Light".to_string(),
        firmware: "1.0.3".to_string(),
        endpoint: Endpoint { addr: Address::V4(0xC000_020A), port: 9123 },
        desired: state,
        reported: Some(state),
        last_error: String::new(),
        dirty_since: None,
    }
}

/// The ids sort the other way round from the names.
fn desk() -> World {
    let mut world = World::default();
    world.insert(on_desk("B1", "Left", 40));
    world.insert(on_desk("A1", "Right", 60));
    world
}

fn named(args: &[&str]) -> Vec<String> {
    args.iter().map(|s| (*s).to_string()).collect()
}

fn one(id: &str) -> Light1 {
    Light1::new(Subject::One(id.to_string()))
}

fn brightness(world: &World, id: &str) -> u8 {
    world.get(id).unwrap().desired.brightness
}

#[test]
fn a_light_reads_through_to_the_world() {
    let world = desk();
    let light = one("B1");
    assert_eq!(light.id(), "B1");
    assert_eq!(light.name(&world), "Left");
    assert_eq!(light.model(&world), "Key Light");
    assert_eq!(light.firmware(&world), "1.0.3");
    assert_eq!(light.address(&world), "http://192.0.2.10:9123");
    assert!(light.online(&world));
    assert_eq!(light.online_count(&world), 1);
    assert_eq!(light.last_error(&world), "");
    assert!(light.on(&world));
    assert_eq!(light.brightness(&world), 40);
    assert_eq!(light.kelvin(&world), 4000);
    assert_eq!((light.min_kelvin(), light.max_kelvin()), (2900, 7000));
}

#[test]
fn a_light_that_is_gone_reads_as_nothing() {
    let world = World::default();
    let light = one("B1");
    assert_eq!(light.id(), "B1", "its identity is its own");
    assert_eq!(light.name(&world), "");
    assert!(!light.online(&world));
    assert_eq!(light.state(&world), LightState::default());
}

#[test]
fn the_group_is_a_light_like_any_other() {
    let world = desk();
    let group = Light1::new(Subject::Group);
    assert_eq!(group.id(), "");
    assert_eq!(group.name(&world), "All Lights");
    assert_eq!(group.model(&world), "");
    assert_eq!(group.address(&world), "");
    assert_eq!(group.online_count(&world), 2);
    assert_eq!(group.brightness(&world), 50);
}

#[test]
fn writing_a_property_moves_the_light_and_owes_an_announcement() {
    let mut world = desk();
    let requests = one("B1").set_brightness(&mut world, 77, 5);
    assert_eq!(brightness(&world, "B1"), 77);
    assert_eq!(brightness(&world, "A1"), 60);
    assert_eq!(world.get("B1").unwrap().dirty_since, Some(5));
    match &requests[0] {
        Request::Applied { changes, group_before, group_after } => {
            assert_eq!(changes.len(), 1);
            assert_eq!(changes[0].0, "B1");
            assert!(changes[0].1.brightness && !changes[0].1.kelvin);
            assert_eq!(group_before.state.unwrap().brightness, 50);
            assert_eq!(group_after.state.unwrap().brightness, 69);
        }
        other => panic!("unexpected request: {other:?}"),
    }
    assert_eq!(requests.len(), 1);

    one("B1").set_kelvin(&mut world, 9999, 6);
    assert_eq!(world.get("B1").unwrap().desired.kelvin, 7000);
    one("B1").set_on(&mut world, false, 6);
    assert!(!world.get("B1").unwrap().desired.on);
}

#[test]
fn a_write_that_moves_nothing_is_not_announced() {
    let mut world = desk();
    assert!(one("B1").set_brightness(&mut world, 40, 5).is_empty());
    assert!(apply_and_snapshot(
        &mut world,
        &Target::Select(Selector::parse("attic")),
        &StatePatch::empty(),
        5
    )
    .is_empty());
}

#[test]
fn moving_a_lamp_alone_teaches_its_gang_the_difference() {
    let mut world = desk();
    world.link(&named(&["B1", "A1"])); // A1 rides +20
    let requests = one("A1").set_brightness_alone(&mut world, 45, 9).unwrap();
    assert_eq!(brightness(&world, "A1"), 45);
    assert_eq!(brightness(&world, "B1"), 40, "the gang stays where it is");
    assert_eq!(world.link_of("A1").unwrap().offset_of("A1"), Some(5));
    assert_eq!(requests.len(), 2);
    assert!(matches!(requests[0], Request::Applied { .. }));
    assert!(matches!(requests[1], Request::LinksChanged));
}

#[test]
fn moving_a_lamp_alone_stays_within_the_hardware() {
    let mut world = desk();
    world.link(&named(&["B1", "A1"]));
    one("A1").set_brightness_alone(&mut world, 255, 9).unwrap();
    assert_eq!(brightness(&world, "A1"), 100);
    assert_eq!(world.link_of("A1").unwrap().offset_of("A1"), Some(60));
}

#[test]
fn tokens_resolve_against_the_light_they_reach() {
    let mut world = desk();
    let applied = one("A1").apply(&mut world, &named(&["+10%", "5000k"]), 1).unwrap();
    assert_eq!(applied.len(), 1);
    assert_eq!(world.get("A1").unwrap().desired, LightState { on: true, brightness: 70, kelvin: 5000 });
}

#[test]
fn the_manager_says_whom_a_command_reached() {
    let manager = Manager1::new();
    let mut world = desk();
    let (matched, requests) =
        manager.set_state(&mut world, "right", &named(&["off"]), 1).unwrap();
    assert_eq!(matched, named(&["A1"]));
    assert_eq!(requests.len(), 1);
    assert!(!world.get("A1").unwrap().desired.on);

    let (nobody, silence) = manager.set_state(&mut world, "attic", &named(&["off"]), 1).unwrap();
    assert!(nobody.is_empty() && silence.is_empty());

    let (blinking, request) = manager.identify(&world, "all");
    assert_eq!(blinking, named(&["A1", "B1"]));
    assert!(matches!(request, Request::Identify(ids) if ids == named(&["A1", "B1"])));
    assert!(matches!(manager.rescan(), Request::Rescan));
    assert!(matches!(one("A1").refresh(), Request::RefreshAll));
    assert!(matches!(Light1::new(Subject::Group).identify(&world), Request::Identify(ids) if ids.len() == 2));
}

#[test]
fn the_lamp_named_first_leads_the_gang_on_the_bus() {
    let manager = Manager1::new();
    let mut world = desk();
    let (members, request) = manager.link(&mut world, &named(&["left", "right"])).unwrap();
    assert_eq!(members, named(&["B1", "A1"]));
    assert!(matches!(request, Request::LinksChanged));
    assert_eq!(
        manager.links(&world),
        vec![("offset".to_string(), vec![("B1".to_string(), 0), ("A1".to_string(), 20)])]
    );

    let requests = manager.set_link_mode(&mut world, "right", "mirror", 3).unwrap();
    assert_eq!(requests.len(), 2);
    assert_eq!(brightness(&world, "A1"), 40, "right snaps onto left");
    assert_eq!(world.link_of("A1").unwrap().mode(), LinkMode::Mirror);

    let back = manager.set_link_mode(&mut world, "right", "offset", 4).unwrap();
    assert_eq!(back.len(), 1, "switching to offset moves nothing");
}

#[test]
fn a_gang_is_driven_by_its_level_from_the_bus() {
    let manager = Manager1::new();
    let mut world = desk();
    manager.link(&mut world, &named(&["left", "right"])).unwrap();
    assert_eq!(manager.link_level(&world, "right").unwrap(), 40);
    manager.set_link_level(&mut world, "right", 90, 1).unwrap();
    assert_eq!((brightness(&world, "B1"), brightness(&world, "A1")), (90, 100));
    assert_eq!(manager.link_level(&world, "left").unwrap(), 90);
    manager.set_link_level(&mut world, "right", 30, 1).unwrap();
    assert_eq!((brightness(&world, "B1"), brightness(&world, "A1")), (30, 50));
}

#[test]
fn breaking_gangs_reports_each_lamp_once() {
    let manager = Manager1::new();
    let mut world = desk();
    world.insert(on_desk("C1", "Mini", 10));
    manager.link(&mut world, &named(&["left", "right", "mini"])).unwrap();
    let (affected, request) = manager.unlink(&mut world, "all");
    assert_eq!(affected, named(&["A1", "B1", "C1"]));
    assert!(matches!(request, Request::LinksChanged));
    assert!(manager.links(&world).is_empty());
    assert!(manager.unlink(&mut world, "all").0.is_empty());
}

#[test]
fn scenes_live_on_the_manager() {
    let manager = Manager1::new();
    let mut world = desk();
    manager.link(&mut world, &named(&["left", "right"])).unwrap();
    assert!(matches!(manager.save_scene(&mut world, " b "), Ok(Request::ScenesChanged)));
    manager.save_scene(&mut world, "a").unwrap();
    assert_eq!(manager.scenes(&world), named(&["a", "b"]));

    manager.unlink(&mut world, "all");
    manager.set_state(&mut world, "all", &named(&["5%"]), 1).unwrap();
    let requests = manager.apply_scene(&mut world, "b", 2).unwrap();
    assert_eq!(requests.len(), 2);
    assert!(matches!(requests[0], Request::Applied { .. }));
    assert!(matches!(requests[1], Request::LinksChanged));
    assert_eq!((brightness(&world, "B1"), brightness(&world, "A1")), (40, 60));
    assert_eq!(world.link_of("A1").unwrap().reference(), "B1");

    assert!(matches!(manager.delete_scene(&mut world, "b"), Ok(Request::ScenesChanged)));
    assert_eq!(manager.scenes(&world), named(&["a"]));
}

#[test]
fn counters_count_lights() {
    let manager = Manager1::new();
    let mut world = desk();
    world.get_mut("A1").unwrap().reported = None;
    assert_eq!(manager.light_count(&world), 2);
    assert_eq!(manager.online_count(&world), 1);
}

#[test]
fn a_change_names_exactly_the_properties_it_concerns() {
    assert!(properties_changed(Changed::default()).is_empty());
    let meta = Changed { meta: true, ..Changed::default() };
    assert_eq!(
        properties_changed(meta),
        vec![Property::Name, Property::Model, Property::Firmware, Property::Address]
    );
    let rest = Changed {
        meta: false,
        online: true,
        on: true,
        brightness: true,
        kelvin: true,
        error: true,
    };
    assert_eq!(
        properties_changed(rest),
        vec![
            Property::Online,
            Property::OnlineCount,
            Property::On,
            Property::Brightness,
            Property::Kelvin,
            Property::LastError
        ]
    );
}

#[test]
fn different_hardware_has_different_paths() {
    assert_ne!(light_path("00005E005301"), light_path("00005E005302"));
    assert_eq!(light_path("a-b"), light_path(":AB:"));
    assert_ne!(light_path("a-b"), light_path("a-c"));
    assert_eq!(light_path("a-b"), "/io/mineiro/gaffer/lights/AB");
}
