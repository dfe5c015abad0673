use gaffer::proxy::{arrange, from_properties, Gang, LightInfo, Properties};
use gaffer::render;
use serde_json::Value;

fn shown(id: &str, name: &str) -> LightInfo {
    LightInfo {
        id: id.to_string(),
        name: name.to_string(),
        address: "http://192.0.2.10:9123".to_string(),
        online: true,
        on: true,
        brightness: 42,
        kelvin: 4200,
        ..Default::default()
    }
}

fn everything(online_count: u32) -> LightInfo {
    LightInfo {
        name: "All Lights".to_string(),
        online: online_count > 0,
        online_count,
        on: true,
        brightness: 42,
        kelvin: 4200,
        ..Default::default()
    }
}

fn nothing_known() -> Properties {
    Properties {
        id: None,
        name: None,
        model: None,
        firmware: None,
        address: None,
        online: None,
        online_count: None,
        on: None,
        brightness: None,
        kelvin: None,
        last_error: None,
    }
}

#[test]
fn the_table_reads_as_documented() {
    let mut right = shown("B", "Elgato Key Light Right");
    right.address = "http://192.0.2.11:9123".to_string();
    let rendered = render::table(&[shown("A", "Elgato Key Light Left"), right, everything(2)]);
    assert_eq!(
        rendered,
        "NAME                    STATE    BRIGHT    TEMP  ADDRESS\n\
         Elgato Key Light Left   on          42%   4200K  http://192.0.2.10:9123\n\
         Elgato Key Light Right  on          42%   4200K  http://192.0.2.11:9123\n\
         All Lights              on          42%   4200K  2 of 2 online\n"
    );
}

#[test]
fn a_column_is_as_wide_as_its_longest_name_in_bytes() {
    let rendered = render::table(&[shown("A", "é")]);
    assert!(rendered.starts_with("NAME  STATE"), "two bytes are narrower than the heading");
    assert!(rendered.contains("\né     on       "), "filled up by characters");
}

#[test]
fn a_light_that_fails_keeps_its_address_beside_the_error() {
    let mut broken = shown("A", "Left");
    broken.online = false;
    broken.last_error = "timed out\r\nwhile waiting".to_string();
    let rendered = render::table(&[broken]);
    assert!(rendered.ends_with("http://192.0.2.10:9123  (timed out)\n"), "{rendered:?}");
    assert_eq!(rendered.lines().count(), 2);
}

#[test]
fn scripts_see_gang_membership() {
    let mut left = shown("A", "Left");
    left.gang = Some(Gang {
        mode: "offset".to_string(),
        reference: "B".to_string(),
        members: vec![("B".to_string(), 0), ("A".to_string(), -7)],
    });
    let parsed: Vec<Value> =
        serde_json::from_str(&render::json(&[left, shown("C", "Loose")])).unwrap();
    assert_eq!(parsed[0]["gang"]["mode"], "offset");
    assert_eq!(parsed[0]["gang"]["reference"], "B");
    assert_eq!(parsed[0]["gang"]["offset"], -7);
    assert_eq!(parsed[0]["gang"]["members"][0]["id"], "B");
    assert_eq!(parsed[0]["gang"]["members"][1]["offset"], -7);
    assert!(parsed[1]["gang"].is_null());
    assert_eq!(parsed[1]["id"], "C");
    assert_eq!(parsed[1]["kelvin"], 4200);
    assert_eq!(parsed[1]["lastError"], "");
}

#[test]
fn the_json_form_is_laid_out_over_lines() {
    let rendered = render::json(&[shown("A", "Left \"key\"")]);
    assert!(rendered.starts_with("[\n  {\n"), "{rendered}");
    assert!(rendered.contains("\"name\": \"Left \\\"key\\\"\""), "{rendered}");
}

#[test]
fn the_panel_shows_one_exact_object() {
    let rendered = render::waybar(&[shown("A", "Left"), everything(1)]);
    assert_eq!(
        rendered,
        "{\"class\":\"on\",\"percentage\":42,\"text\":\"42%\",\"tooltip\":\"Left: on 42% 4200K\"}"
    );
}

#[test]
fn the_terminal_line_joins_every_light() {
    let mut right = shown("B", "Right");
    right.online = false;
    assert_eq!(
        render::line(&[shown("A", "Left"), right, everything(1)]),
        "Left on 42% 4200K  |  Right offline"
    );
    assert_eq!(render::line(&[everything(0)]), "no lights");
}

#[test]
fn a_light_without_properties_is_blank() {
    let info = from_properties("/io/mineiro/gaffer/lights/A", nothing_known());
    assert_eq!(info.path, "/io/mineiro/gaffer/lights/A");
    assert!(info.is_group(), "no id is what tells the group");
    assert_eq!(info.state_word(), "offline");
    assert_eq!(info.brightness, 0);
    assert!(info.gang.is_none());
}

#[test]
fn properties_are_taken_over_one_by_one() {
    let mut known = nothing_known();
    known.id = Some("A".to_string());
    known.online = Some(true);
    known.brightness = Some(7);
    known.last_error = Some("none".to_string());
    let info = from_properties("/p", known);
    assert_eq!(info.id, "A");
    assert_eq!(info.state_word(), "off");
    assert_eq!(info.brightness, 7);
    assert_eq!(info.last_error, "none");
    assert_eq!(info.name, "");
}

#[test]
fn lights_are_arranged_by_name_with_the_group_last() {
    let gangs = vec![(
        "mirror".to_string(),
        vec![("B".to_string(), 0), ("C".to_string(), 0)],
    )];
    let lights =
        arrange(vec![everything(3), shown("C", "c"), shown("B", "B"), shown("A", "a")], &gangs);
    let names: Vec<&str> = lights.iter().map(|l| l.name.as_str()).collect();
    assert_eq!(names, vec!["B", "a", "c", "All Lights"]);
    assert!(lights[1].gang.is_none());
    let gang = lights[2].gang.as_ref().unwrap();
    assert_eq!(gang.mode, "mirror");
    assert_eq!(gang.reference, "B", "the first member leads");
    assert!(lights[3].gang.is_none());
}

#[test]
fn lights_of_one_name_keep_their_order() {
    let lights = arrange(vec![shown("2", "Same"), shown("1", "Same")], &Vec::new());
    assert_eq!(lights[0].id, "2");
    assert_eq!(lights[1].id, "1");
}

#[test]
fn an_unlisted_light_has_no_offset() {
    let gang = Gang {
        mode: "offset".to_string(),
        reference: "A".to_string(),
        members: vec![("A".to_string(), 0), ("B".to_string(), 9)],
    };
    assert_eq!(gang.offset_of("B"), 9);
    assert_eq!(gang.offset_of("Z"), 0);
}
