use gaffer::discovery::{
    instance_name, resolve, unescape, DiscoveryEvent, ServiceNews, ServiceRecord, Sightings,
    DEFAULT_PORT,
};
use gaffer::elgato::{identify_url, info_url, lights_url, put_body};
use gaffer::endpoint::Address;
use gaffer::LightState;

fn advert(id: &str, name: &str) -> ServiceRecord {
    ServiceRecord {
        fullname: format!("{name}._elg._tcp.local."),
        id: Some(id.to_string()),
        model: Some("Elgato Key Light".to_string()),
        addresses: vec![Address::V6(1), Address::V4(0xC000_0214), Address::V4(0xC000_020A)],
        port: 9124,
    }
}

#[test]
fn an_advert_becomes_a_light() {
    let found = resolve(&advert("00:00:5e:00:53:01", "Key\\032Light")).unwrap();
    assert_eq!(found.id, "00005E005301");
    assert_eq!(found.name, "Key Light");
    assert_eq!(found.model, "Elgato Key Light");
    assert_eq!(found.fullname, "Key\\032Light._elg._tcp.local.");
    assert_eq!(found.addr, Address::V4(0xC000_020A), "the lowest IPv4 address");
    assert_eq!(found.port, 9124);
}

#[test]
fn ipv6_is_taken_only_when_that_is_all_there_is() {
    let mut six = advert("A1", "Left");
    six.addresses = vec![Address::V6(9), Address::V6(3)];
    assert_eq!(resolve(&six).unwrap().addr, Address::V6(3));
}

#[test]
fn an_advert_without_the_essentials_is_ignored() {
    let mut nowhere = advert("A1", "Left");
    nowhere.addresses = Vec::new();
    assert!(resolve(&nowhere).is_none());
    assert!(resolve(&advert("::", "Left")).is_none());
    let mut nameless = advert("A1", "Left");
    nameless.id = None;
    assert!(resolve(&nameless).is_none());
}

#[test]
fn a_missing_port_falls_back() {
    let mut silent = advert("A1", "Left");
    silent.port = 0;
    silent.model = None;
    let found = resolve(&silent).unwrap();
    assert_eq!(found.port, DEFAULT_PORT);
    assert_eq!(found.port, 9123);
    assert_eq!(found.model, "");
}

#[test]
fn a_hostile_advert_cannot_reach_a_terminal() {
    let mut hostile = advert("A1", "Left\\027[2K\\010FAKE");
    hostile.model = Some("x\u{1b}[31m".to_string());
    let found = resolve(&hostile).unwrap();
    assert_eq!(found.name, "Left[2KFAKE");
    assert_eq!(found.model, "x[31m");
}

#[test]
fn only_the_first_sighting_is_new() {
    let mut sightings = Sightings::new();
    let (found, first) = sightings.on_resolved(&advert("A1", "Left")).unwrap();
    assert!(first);
    assert_eq!(found.id, "A1");
    assert!(!sightings.on_resolved(&advert("A1", "Left")).unwrap().1);
    assert_eq!(sightings.on_removed("Left._elg._tcp.local."), Some("A1".to_string()));
    assert_eq!(sightings.on_removed("Left._elg._tcp.local."), None);
    assert!(sightings.on_resolved(&advert("A1", "Left")).unwrap().1, "back again");
    assert!(sightings.on_resolved(&advert("::", "Left")).is_none());
}

#[test]
fn a_renamed_light_is_the_same_light() {
    let before = resolve(&advert("00:00:5E:00:53:01", "Left")).unwrap();
    let after = resolve(&advert("00-00-5e-00-53-01", "Window")).unwrap();
    assert_eq!(before.id, after.id);
    assert_ne!(before.name, after.name);
}

#[test]
fn escapes_beyond_a_byte_are_taken_literally() {
    assert_eq!(unescape("\\255"), "\u{ff}");
    assert_eq!(unescape("\\256"), "256");
    assert_eq!(unescape("a\\\\032b"), "a\\032b");
    assert_eq!(instance_name("a._elg._tcp.local._elg._tcp."), "a");
}

#[test]
fn requests_go_to_the_documented_paths() {
    assert_eq!(lights_url("http://192.0.2.10:9123"), "http://192.0.2.10:9123/elgato/lights");
    assert_eq!(info_url("http://[::1]:1"), "http://[::1]:1/elgato/accessory-info");
    assert_eq!(identify_url("http://[::1]:1"), "http://[::1]:1/elgato/identify");
}

#[test]
fn the_put_body_is_exact() {
    assert_eq!(
        put_body(LightState { on: false, brightness: 0, kelvin: 7000 }),
        "{\"numberOfLights\":1,\"lights\":[{\"on\":0,\"brightness\":0,\"temperature\":143}]}"
    );
}

#[test]
fn the_put_body_names_its_fields_in_the_documented_order() {
    assert_eq!(
        put_body(LightState { on: true, brightness: 42, kelvin: 4200 }),
        r#"{"numberOfLights":1,"lights":[{"on":1,"brightness":42,"temperature":238}]}"#
    );
}

#[test]
fn a_browse_becomes_events_for_the_supervisor() {
    let mut sightings = Sightings::new();
    let news = sightings.on_event(&ServiceNews::Resolved(advert("A1", "Left")));
    assert!(matches!(&news, Some((DiscoveryEvent::Found(found), true)) if found.id == "A1"));
    let again = sightings.on_event(&ServiceNews::Resolved(advert("A1", "Left")));
    assert!(matches!(&again, Some((DiscoveryEvent::Found(_), false))));
    assert!(sightings.on_event(&ServiceNews::Other).is_none());
    let gone = ServiceNews::Removed("Left._elg._tcp.local.".to_string());
    assert!(matches!(sightings.on_event(&gone), Some((DiscoveryEvent::Lost(id), true)) if id == "A1"));
    assert!(sightings.on_event(&gone).is_none());
}
