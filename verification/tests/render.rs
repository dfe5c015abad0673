use gaffer::proxy::LightInfo;
use gaffer::render;
use serde_json::Value;

fn light(name: &str, on: bool, online: bool) -> LightInfo {
    LightInfo {
        id: "00:00:5E:00:53:01".into(),
        name: name.into(),
        address: "http://192.168.1.63:9123".into(),
        online,
        on,
        brightness: 42,
        kelvin: 4200,
        ..Default::default()
    }
}

fn group(on: bool, online_count: u32) -> LightInfo {
    LightInfo {
        id: String::new(),
        name: "All Lights".into(),
        online: online_count > 0,
        online_count,
        on,
        brightness: 42,
        kelvin: 4200,
        ..Default::default()
    }
}

#[test]
fn an_empty_world_still_renders() {
    assert_eq!(render::table(&[]), "no lights found\n");
    assert_eq!(render::json(&[]), "[]");
}

#[test]
fn the_table_has_one_row_per_light_plus_a_header() {
    let rendered = render::table(&[light("Left", true, true), group(true, 1)]);
    assert_eq!(rendered.lines().count(), 3);
    assert!(rendered.starts_with("NAME"));
    assert!(rendered.contains("Left"));
    assert!(rendered.contains("42%"));
    assert!(rendered.contains("4200K"));
}

#[test]
fn an_offline_light_reads_as_offline_not_off() {
    let rendered = render::table(&[light("Left", true, false)]);
    assert!(rendered.contains("offline"));
}

#[test]
fn a_transport_error_is_shown_next_to_the_light() {
    let mut broken = light("Left", true, false);
    broken.last_error = "connection refused\nbacktrace...".into();
    let rendered = render::table(&[broken]);
    assert!(rendered.contains("connection refused"));
    assert!(!rendered.contains("backtrace"), "only the first line belongs in a table");
}

#[test]
fn waybar_output_is_a_single_line_of_valid_json() {
    let rendered = render::waybar(&[light("Left", true, true), group(true, 1)]);
    assert!(!rendered.contains('\n'), "waybar reads one object per line");

    let parsed: Value = serde_json::from_str(&rendered).expect("valid json");
    assert_eq!(parsed["text"], "42%");
    assert_eq!(parsed["class"], "on");
    assert_eq!(parsed["percentage"], 42);
    assert!(parsed["tooltip"].as_str().unwrap().contains("Left"));
}

#[test]
fn waybar_distinguishes_off_from_offline() {
    let off = render::waybar(&[light("Left", false, true), group(false, 1)]);
    assert_eq!(serde_json::from_str::<Value>(&off).unwrap()["class"], "off");

    let offline = render::waybar(&[light("Left", false, false), group(false, 0)]);
    assert_eq!(serde_json::from_str::<Value>(&offline).unwrap()["class"], "offline");
}

#[test]
fn waybar_survives_having_no_lights_at_all() {
    let rendered = render::waybar(&[]);
    let parsed: Value = serde_json::from_str(&rendered).expect("valid json");
    assert_eq!(parsed["class"], "empty");
    assert!(parsed["tooltip"].as_str().unwrap().contains("no lights"));
}

#[test]
fn tooltip_newlines_are_escaped_rather_than_breaking_the_line() {
    let rendered =
        render::waybar(&[light("Left", true, true), light("Right", true, true), group(true, 2)]);
    assert!(!rendered.contains('\n'));
    let parsed: Value = serde_json::from_str(&rendered).unwrap();
    assert!(
        parsed["tooltip"].as_str().unwrap().contains('\n'),
        "the value itself is multi-line"
    );
}

#[test]
fn the_json_form_omits_the_group_flag_confusion() {
    let rendered = render::json(&[light("Left", true, true), group(true, 1)]);
    let parsed: Vec<Value> = serde_json::from_str(&rendered).unwrap();
    assert_eq!(parsed[0]["group"], false);
    assert_eq!(parsed[1]["group"], true);
}

#[test]
fn the_watch_line_excludes_the_group() {
    let rendered = render::line(&[light("Left", true, true), group(true, 1)]);
    assert!(rendered.contains("Left"));
    assert!(!rendered.contains("All Lights"));
}
