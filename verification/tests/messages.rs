use gaffer::cli::{ganged_line, is_news, is_replaced, no_match, none_ganged, unganged_line};
use gaffer::dbus::{scene_name, too_few_lights, Light1, Manager1, Refusal, Subject};
use gaffer::endpoint::{Address, Endpoint};
use gaffer::record::LightRecord;
use gaffer::world::World;
use gaffer::{parse_patch, parse_token, LightState, ParseError, Selector};

fn owned(args: &[&str]) -> Vec<String> {
    args.iter().map(|s| (*s).to_string()).collect()
}

fn lamp(id: &str, name: &str) -> LightRecord {
    LightRecord {
        id: id.to_string(),
        fullname: format!("{name}._elg._tcp.local."),
        name: name.to_string(),
        model: String::new(),
        firmware: String::new(),
        endpoint: Endpoint { addr: Address::V4(0xC000_020A), port: 9123 },
        desired: LightState { on: true, brightness: 40, kelvin: 4200 },
        reported: None,
        last_error: String::new(),
        dirty_since: None,
    }
}

fn refused(token: &str) -> String {
    parse_token(token).unwrap_err().message()
}

#[test]
fn every_unreadable_value_is_explained() {
    assert_eq!(refused(" "), "empty value");
    assert_eq!(refused("abc"), "`abc` is not a number");
    assert_eq!(
        refused("500"),
        "`500` is neither a brightness (0-100) nor a colour temperature (2900-7000); add a `%` or `k` suffix"
    );
    assert_eq!(refused("+10"), "`+10` needs a unit — did you mean `+10%` or `+10k`?");
    assert_eq!(refused("4200%"), "`4200%` is out of range; brightness must be 0-100");
    assert_eq!(refused("42k"), "`42k` is out of range; colour temperature must be 2900-7000");
    assert_eq!(
        parse_patch(&["on", "off"]).unwrap_err().message(),
        "power was given more than once"
    );
}

#[test]
fn a_value_error_carries_its_range() {
    assert_eq!(
        parse_token("101%"),
        Err(ParseError::OutOfRange {
            token: "101%".to_string(),
            unit: "brightness",
            min: 0,
            max: 100
        })
    );
}

#[test]
fn a_number_too_large_for_the_machine_is_not_a_number() {
    assert_eq!(parse_token("99999999999"), Err(ParseError::NotANumber("99999999999".to_string())));
    assert_eq!(parse_token("%"), Err(ParseError::NotANumber("%".to_string())));
    assert_eq!(parse_token("+%"), Err(ParseError::NotANumber("+%".to_string())));
}

#[test]
fn scene_names_are_refused_for_three_reasons() {
    assert_eq!(scene_name("  ").unwrap_err().message(), "a scene needs a name");
    assert_eq!(
        scene_name(&"x".repeat(65)).unwrap_err().message(),
        "scene names are limited to 64 characters"
    );
    assert_eq!(
        scene_name("a\u{1b}b").unwrap_err().message(),
        "scene names cannot contain control characters (found U+001B)"
    );
    assert_eq!(scene_name(&"é".repeat(64)).unwrap(), "é".repeat(64));
}

#[test]
fn ganging_too_few_lights_names_the_selectors() {
    let mut world = World::default();
    world.insert(lamp("A1", "Key Light Left"));
    let refusal = Manager1::new().link(&mut world, &owned(&["left", "a \"quoted\" one"])).unwrap_err();
    assert_eq!(
        refusal.message(),
        "[\"left\", \"a \\\"quoted\\\" one\"] matched 0 light(s); a gang needs at least two"
    );
    assert!(matches!(refusal, Refusal::TooFewLights { count: 0, .. }));
    assert!(world.links().is_empty());
    assert_eq!(
        too_few_lights("[\"key\"]", 1),
        "[\"key\"] matched 1 light(s); a gang needs at least two"
    );
}

#[test]
fn gang_commands_say_what_is_missing() {
    let manager = Manager1::new();
    let mut world = World::default();
    world.insert(lamp("A1", "Key Light Left"));

    assert_eq!(
        manager.set_link_mode(&mut world, "left", "sideways", 0).unwrap_err().message(),
        "unknown link mode `sideways`; expected `offset` or `mirror`"
    );
    assert_eq!(
        manager.set_link_mode(&mut world, "attic", "mirror", 0).unwrap_err().message(),
        "`attic` matched no light"
    );
    assert_eq!(
        manager.set_link_level(&mut world, "left", 10, 0).unwrap_err().message(),
        "`left` is not in a gang"
    );
    assert_eq!(manager.link_level(&world, "left").unwrap_err().message(), "`left` is not in a gang");
    assert_eq!(
        manager.link_level(&world, "attic").unwrap_err().message(),
        "`attic` matched no light"
    );
    assert_eq!(
        manager.apply_scene(&mut world, " evening ", 0).unwrap_err().message(),
        "no scene named `evening`"
    );
    assert_eq!(
        manager.delete_scene(&mut world, "evening").unwrap_err().message(),
        "no scene named `evening`"
    );
}

#[test]
fn empty_and_misspelled_commands_are_refused() {
    let mut world = World::default();
    world.insert(lamp("A1", "Left"));
    let light = Light1::new(Subject::One("A1".to_string()));
    assert_eq!(light.apply(&mut world, &[], 0).unwrap_err().message(), "no values given");
    assert_eq!(
        light.apply(&mut world, &owned(&["12x%"]), 0).unwrap_err().message(),
        "`12x%` is not a number"
    );
    assert_eq!(
        Manager1::new().set_state(&mut world, "left", &[], 0).unwrap_err().message(),
        "no values given"
    );
    assert_eq!(
        Light1::new(Subject::Group).set_brightness_alone(&mut world, 5, 0).unwrap_err().message(),
        "the group has no gang of its own to re-learn"
    );
    assert_eq!(world.get("A1").unwrap().desired.brightness, 40, "nothing moved");
}

#[test]
fn the_command_line_reports_in_sentences() {
    assert_eq!(no_match("attic"), "no light matches `attic`");
    assert_eq!(none_ganged("all"), "`all` matched no ganged light");
    assert_eq!(ganged_line(&owned(&["A1", "B2"])), "ganged 2 lights: A1, B2");
    assert_eq!(ganged_line(&[]), "ganged 0 lights: ");
    assert_eq!(unganged_line(12), "unganged 12 lights");
}

#[test]
fn a_replaced_executable_is_recognised_by_its_mark() {
    assert!(is_replaced("/usr/bin/gafferd (deleted)"));
    assert!(!is_replaced("/usr/bin/gafferd"));
    assert!(!is_replaced("(deleted)"));
    assert!(!is_replaced(""));
}

#[test]
fn only_a_different_rendering_is_news() {
    assert!(!is_news("Left on 42%", "Left on 42%"));
    assert!(is_news("Left on 42%", "Left on 43%"));
}

#[test]
fn lower_casing_follows_unicode() {
    // Outside ASCII too: the pattern and the name meet in lower case.
    assert!(Selector::parse("STRAẞE").matches("00", "Straße links"));
    assert!(Selector::parse("Éclairage").matches("00", "ÉCLAIRAGE gauche"));
    assert!(!Selector::parse("Éclairage").matches("00", "eclairage gauche"));
}

#[test]
fn a_shown_selector_reads_back() {
    assert_eq!(Selector::parse(" * ").to_text(), "all");
    let left = Selector::parse("  Left ");
    assert_eq!(left.to_text(), "Left");
    assert_eq!(Selector::parse(&left.to_text()), left);
}
