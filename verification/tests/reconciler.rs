use gaffer::discovery::{Discovered, DiscoveryEvent};
use gaffer::elgato::{AccessoryInfo, PartialState};
use gaffer::dbus::Request;
use gaffer::endpoint::{Address, Endpoint};
use gaffer::record::LightRecord;
use gaffer::supervisor::{persisted, restored, Action, Io, Supervisor, DEBOUNCE_MS, REFRESH_INTERVAL_MS};
use gaffer::world::{GroupSnapshot, Target, World};
use gaffer::{Adjust, LightState, StatePatch};

fn seen(id: &str, name: &str) -> Discovered {
    Discovered {
        id: id.to_string(),
        fullname: format!("{name}._elg._tcp.local."),
        name: name.to_string(),
        model: "Key Light".to_string(),
        addr: Address::V4(0xC000_020A),
        port: 9123,
    }
}

fn known(id: &str, brightness: u8) -> LightRecord {
    let state = LightState { on: true, brightness, kelvin: 4200 };
    LightRecord {
        id: id.to_string(),
        fullname: format!("{id}._elg._tcp.local."),
        name: id.to_string(),
        model: String::new(),
        firmware: "1.0.3".to_string(),
        endpoint: Endpoint { addr: Address::V4(0xC000_020A), port: 9123 },
        desired: state,
        reported: Some(state),
        last_error: String::new(),
        dirty_since: None,
    }
}

fn brighten(world: &mut World, id: &str, value: i32, now: u64) {
    let patch = StatePatch { brightness: Some(Adjust::To(value)), ..StatePatch::empty() };
    world.apply(&Target::Id(id.to_string()), &patch, now);
}

#[test]
fn a_new_light_is_published_and_read() {
    let supervisor = Supervisor::new(0);
    let mut world = World::default();
    let actions = supervisor.on_discovery(&mut world, &DiscoveryEvent::Found(Box::new(seen("A1", "Left"))));

    let light = world.get("A1").unwrap();
    assert_eq!(light.name, "Left");
    assert_eq!(light.desired, LightState::default());
    assert!(!light.online(), "nothing has been heard of it yet");

    assert!(matches!(&actions[0], Action::Publish(id) if id == "A1"));
    let reads = actions.iter().filter(|a| matches!(a, Action::ReadState { .. })).count();
    let infos = actions.iter().filter(|a| matches!(a, Action::ReadInfo { .. })).count();
    assert_eq!((reads, infos), (1, 1));
    assert!(actions.iter().any(|a| matches!(a, Action::NotifyManager)), "the count moved");
    assert!(actions
        .iter()
        .any(|a| matches!(a, Action::ReadState { url, .. } if url == "http://192.0.2.10:9123")));
}

#[test]
fn a_light_that_moved_keeps_its_state() {
    let supervisor = Supervisor::new(0);
    let mut world = World::default();
    world.insert(known("A1", 33));
    let mut moved = seen("A1", "Renamed");
    moved.addr = Address::V4(0xC000_020B);
    moved.model = String::new();
    let actions = supervisor.on_found(&mut world, &moved);

    let light = world.get("A1").unwrap();
    assert_eq!(light.desired.brightness, 33);
    assert_eq!(light.endpoint.base_url(), "http://192.0.2.11:9123");
    assert_eq!(light.name, "A1", "the device names itself");
    assert!(!actions.iter().any(|a| matches!(a, Action::Publish(_))));
    assert!(actions.iter().any(|a| matches!(a, Action::Notify { changed, .. } if changed.meta)));
    assert!(actions.iter().any(|a| matches!(a, Action::ReadState { .. })));
    assert!(!actions.iter().any(|a| matches!(a, Action::ReadInfo { .. })), "firmware is known");
}

#[test]
fn a_lost_light_is_withdrawn_once() {
    let supervisor = Supervisor::new(0);
    let mut world = World::default();
    world.insert(known("A1", 33));
    world.insert(known("B1", 43));
    world.link(&["A1".to_string(), "B1".to_string()]);
    let actions = supervisor.on_discovery(&mut world, &DiscoveryEvent::Lost("B1".to_string()));
    assert!(world.get("B1").is_none());
    assert!(matches!(&actions[0], Action::Withdraw(id) if id == "B1"));
    assert!(world.link_of("A1").is_some(), "the gang waits for it");
    assert!(supervisor.on_lost(&mut world, "B1").is_empty());
}

#[test]
fn an_echo_confirms_what_was_asked() {
    let supervisor = Supervisor::new(0);
    let mut world = World::default();
    world.insert(known("A1", 33));
    brighten(&mut world, "A1", 60, 5);
    world.get_mut("A1").unwrap().dirty_since = None; // the push went out

    let echo = PartialState { on: Some(true), brightness: Some(60), kelvin: Some(4202) };
    let io = Io::State { id: "A1".to_string(), result: Ok(echo), pushed: true };
    let actions = supervisor.on_io(&mut world, &io);
    let light = world.get("A1").unwrap();
    assert_eq!(light.desired, LightState { on: true, brightness: 60, kelvin: 4200 });
    assert_eq!(light.reported, Some(light.desired), "4202K is the 4200K that was asked for");
    assert!(actions.is_empty(), "nothing a client could see has changed");
}

#[test]
fn an_answer_does_not_undo_a_newer_command() {
    let supervisor = Supervisor::new(0);
    let mut world = World::default();
    world.insert(known("A1", 33));
    brighten(&mut world, "A1", 60, 5);
    let old = PartialState { on: Some(true), brightness: Some(33), kelvin: None };
    supervisor.on_io(&mut world, &Io::State { id: "A1".to_string(), result: Ok(old), pushed: false });
    assert_eq!(world.get("A1").unwrap().desired.brightness, 60);
    assert_eq!(world.get("A1").unwrap().reported.unwrap().brightness, 33);
}

#[test]
fn a_change_made_elsewhere_is_adopted() {
    let supervisor = Supervisor::new(0);
    let mut world = World::default();
    world.insert(known("A1", 33));
    let told = PartialState { on: Some(false), brightness: None, kelvin: Some(5000) };
    let actions =
        supervisor.on_io(&mut world, &Io::State { id: "A1".to_string(), result: Ok(told), pushed: false });
    assert_eq!(world.get("A1").unwrap().desired, LightState { on: false, brightness: 33, kelvin: 5000 });
    assert!(matches!(&actions[0], Action::Notify { id, changed } if id == "A1" && changed.on && changed.kelvin));
    assert!(matches!(&actions[1], Action::NotifyGroup(changed) if changed.on));
}

#[test]
fn silence_is_offline() {
    let supervisor = Supervisor::new(0);
    let mut world = World::default();
    world.insert(known("A1", 33));
    let io = Io::State { id: "A1".to_string(), result: Err("timed out".to_string()), pushed: false };
    let actions = supervisor.on_io(&mut world, &io);
    let light = world.get("A1").unwrap();
    assert!(!light.online());
    assert_eq!(light.last_error, "timed out");
    assert_eq!(light.desired.brightness, 33, "what was asked stands");
    assert!(matches!(&actions[0], Action::Notify { changed, .. } if changed.online && changed.error));
    assert!(actions.iter().any(|a| matches!(a, Action::NotifyManager)));
    // The same failure again is no news.
    assert!(supervisor.on_io(&mut world, &io).is_empty());
}

#[test]
fn an_answer_for_an_unknown_light_is_dropped() {
    let supervisor = Supervisor::new(0);
    let mut world = World::default();
    let io = Io::Info { id: "A1".to_string(), info: AccessoryInfo::default() };
    assert!(supervisor.on_io(&mut world, &io).is_empty());
    assert!(world.is_empty());
}

#[test]
fn device_text_is_cleaned_before_it_is_kept() {
    let supervisor = Supervisor::new(0);
    let mut world = World::default();
    world.insert(known("A1", 33));
    let info = AccessoryInfo {
        display_name: "Left\u{1b}[2K".to_string(),
        product_name: "\u{0}".to_string(),
        firmware_version: "1.0.3\n".to_string(),
    };
    supervisor.on_io(&mut world, &Io::Info { id: "A1".to_string(), info });
    let light = world.get("A1").unwrap();
    assert_eq!(light.name, "Left[2K");
    assert_eq!(light.model, "", "an empty model keeps what was there");
    assert_eq!(light.firmware, "1.0.3");
}

#[test]
fn a_drag_becomes_one_push() {
    let mut supervisor = Supervisor::new(1_000);
    let mut world = World::default();
    world.insert(known("A1", 33));
    brighten(&mut world, "A1", 40, 1_000);
    brighten(&mut world, "A1", 50, 1_050);
    assert_eq!(supervisor.deadline(&world), 1_000 + DEBOUNCE_MS);

    assert!(supervisor.on_deadline(&mut world, 1_089).is_empty(), "still coalescing");
    let actions = supervisor.on_deadline(&mut world, 1_090);
    assert_eq!(actions.len(), 1);
    assert!(matches!(&actions[0], Action::Push { id, url, state }
        if id == "A1" && url == "http://192.0.2.10:9123" && state.brightness == 50));
    assert_eq!(world.get("A1").unwrap().dirty_since, None);
    assert!(supervisor.on_deadline(&mut world, 1_091).is_empty());
}

#[test]
fn a_push_goes_to_the_id_a_light_carries() {
    let mut supervisor = Supervisor::new(1_000);
    let mut world = World::default();
    world.insert(known("A1", 33));
    world.insert(known("B1", 43));
    brighten(&mut world, "A1", 50, 1_000);
    world.get_mut("A1").unwrap().id = "B1".to_string();
    let actions = supervisor.on_deadline(&mut world, 1_090);
    assert_eq!(actions.len(), 1);
    assert!(matches!(&actions[0], Action::Push { id, state, .. }
        if id == "B1" && state.brightness == 43));
    assert_eq!(world.get("A1").unwrap().dirty_since, Some(1_000));

    world.get_mut("A1").unwrap().id = "gone".to_string();
    assert!(supervisor.on_deadline(&mut world, 1_091).is_empty());
}

#[test]
fn every_light_is_read_again_on_schedule() {
    let mut supervisor = Supervisor::new(0);
    let mut world = World::default();
    world.insert(known("A1", 33));
    world.insert(known("B1", 33));
    world.get_mut("B1").unwrap().firmware = String::new();
    assert_eq!(supervisor.deadline(&world), REFRESH_INTERVAL_MS);
    let actions = supervisor.on_deadline(&mut world, REFRESH_INTERVAL_MS);
    assert_eq!(supervisor.next_refresh, 2 * REFRESH_INTERVAL_MS);
    assert_eq!(actions.len(), 3);
    assert!(matches!(&actions[0], Action::ReadState { id, .. } if id == "A1"));
    assert!(matches!(&actions[1], Action::ReadState { id, .. } if id == "B1"));
    assert!(matches!(&actions[2], Action::ReadInfo { id, .. } if id == "B1"));
}

#[test]
fn the_clock_may_stand_at_its_end() {
    let supervisor = Supervisor::new(u64::MAX);
    assert_eq!(supervisor.next_refresh, u64::MAX);
    let mut world = World::default();
    world.insert(known("A1", 33));
    brighten(&mut world, "A1", 40, u64::MAX);
    assert_eq!(supervisor.deadline(&world), u64::MAX);
}

#[test]
fn requests_become_actions() {
    let supervisor = Supervisor::new(0);
    let mut world = World::default();
    world.insert(known("A1", 33));
    world.insert(known("B1", 33));

    let blink = supervisor
        .on_request(&world, &Request::Identify(vec!["B1".to_string(), "gone".to_string()]));
    assert_eq!(blink.len(), 1);
    assert!(matches!(&blink[0], Action::Blink { id, .. } if id == "B1"));

    let rescan = supervisor.on_request(&world, &Request::Rescan);
    assert!(matches!(&rescan[0], Action::Probe(names)
        if names[0] == "A1._elg._tcp.local." && names.len() == 2));
    assert_eq!(rescan.len(), 3);
    assert_eq!(supervisor.on_request(&world, &Request::RefreshAll).len(), 2);

    let links = supervisor.on_request(&world, &Request::LinksChanged);
    assert!(links.iter().any(|a| matches!(a, Action::Persist)));
    assert!(links.iter().any(|a| matches!(a, Action::NotifyLinks)));
    let scenes = supervisor.on_request(&world, &Request::ScenesChanged);
    assert!(scenes.iter().any(|a| matches!(a, Action::Persist)));
    assert!(scenes.iter().any(|a| matches!(a, Action::NotifyScenes)));
    assert!(!scenes.iter().any(|a| matches!(a, Action::NotifyLinks)));
}

#[test]
fn applied_changes_are_announced_light_by_light() {
    let supervisor = Supervisor::new(0);
    let mut world = World::default();
    world.insert(known("A1", 33));
    let group_before = GroupSnapshot::of(&world);
    let patch = StatePatch { brightness: Some(Adjust::By(7)), ..StatePatch::empty() };
    let changes = world.apply(&Target::Id("A1".to_string()), &patch, 0);
    let group_after = GroupSnapshot::of(&world);
    let actions =
        supervisor.on_request(&world, &Request::Applied { changes, group_before, group_after });
    assert_eq!(actions.len(), 2);
    assert!(matches!(&actions[0], Action::Notify { id, changed } if id == "A1" && changed.brightness));
    assert!(matches!(&actions[1], Action::NotifyGroup(changed) if changed.brightness));
}

#[test]
fn gangs_and_scenes_outlive_a_restart() {
    let mut world = World::default();
    world.insert(known("A1", 33));
    world.insert(known("B1", 43));
    world.link(&["B1".to_string(), "A1".to_string()]);
    world.save_scene("evening");

    let again = restored(&persisted(&world));
    assert!(again.is_empty(), "lights are discovered anew");
    assert_eq!(again.links(), world.links());
    assert_eq!(again.links()[0].reference(), "B1");
    assert_eq!(again.scene("evening"), world.scene("evening"));
}
