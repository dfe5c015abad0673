use gaffer::dbus::Request;
use gaffer::discovery::{Discovered, DiscoveryEvent};
use gaffer::elgato::AccessoryInfo;
use gaffer::endpoint::Address;
use gaffer::names::{NameMap, NameSet};
use gaffer::proxy::{Gang, LightInfo};
use gaffer::record::Changed;
use gaffer::world::{GroupSnapshot, Target, World};
use gaffer::{LightState, Link, Scene, ScenePlan, Selector};

fn plan() -> ScenePlan {
    let mut states = NameMap::new();
    let mut present = NameSet::new();
    for (id, brightness) in [("a", 40), ("b", 60), ("c", 7)] {
        states.insert(id.to_string(), LightState { on: true, brightness, kelvin: 4200 });
        present.insert(id.to_string());
    }
    let link = Link::learn(&[
        ("b".to_string(), *states.get("b").unwrap()),
        ("a".to_string(), *states.get("a").unwrap()),
    ]);
    Scene::capture(&states, &[link]).plan(&present)
}

#[test]
fn a_plan_is_copied_whole() {
    let plan = plan();
    assert_eq!(plan.form.len(), 1);
    assert_eq!(plan.lamps.len(), 1);
    assert_eq!(plan.clone(), plan);
}

#[test]
fn a_request_is_copied_whole() {
    let group = GroupSnapshot::of(&World::default());
    let moved = Changed { brightness: true, ..Changed::default() };
    for request in [
        Request::Applied {
            changes: vec![("a".to_string(), moved), ("b".to_string(), Changed::default())],
            group_before: group,
            group_after: GroupSnapshot { members: 2, ..group },
        },
        Request::RefreshAll,
        Request::Rescan,
        Request::Identify(vec!["a".to_string(), "b".to_string()]),
        Request::LinksChanged,
        Request::ScenesChanged,
    ] {
        assert_eq!(format!("{:?}", request.clone()), format!("{request:?}"));
    }
}

#[test]
fn a_target_is_copied_whole() {
    for target in [
        Target::Id("a".to_string()),
        Target::Select(Selector::All),
        Target::Select(Selector::parse("left")),
    ] {
        assert_eq!(format!("{:?}", target.clone()), format!("{target:?}"));
    }
}

#[test]
fn what_the_network_said_is_copied_whole() {
    let found = Discovered {
        id: "A1".to_string(),
        fullname: "Left._elg._tcp.local.".to_string(),
        name: "Left".to_string(),
        model: "Key Light".to_string(),
        addr: Address::V4(0xC000_020A),
        port: 9123,
    };
    for event in [DiscoveryEvent::Found(Box::new(found)), DiscoveryEvent::Lost("A1".to_string())] {
        assert_eq!(format!("{:?}", event.clone()), format!("{event:?}"));
    }
    let info = AccessoryInfo {
        display_name: "Left".to_string(),
        product_name: "Key Light".to_string(),
        firmware_version: "1.0.3".to_string(),
    };
    assert_eq!(format!("{:?}", info.clone()), format!("{info:?}"));
}

#[test]
fn what_a_client_sees_is_copied_whole() {
    let gang = Gang {
        mode: "offset".to_string(),
        reference: "b".to_string(),
        members: vec![("b".to_string(), 0), ("a".to_string(), -7)],
    };
    let light = LightInfo {
        id: "a".to_string(),
        name: "Left".to_string(),
        brightness: 42,
        kelvin: 4200,
        online_count: 3,
        gang: Some(gang),
        ..Default::default()
    };
    assert_eq!(format!("{:?}", light.clone()), format!("{light:?}"));
}
