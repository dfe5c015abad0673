use gaffer::cli::{
    build_id, call_for, daemon_verb, plain_message, Call, DaemonVerb, Stir, Verb, Watcher,
};
use gaffer::proxy::LightInfo;

fn typed(args: &[&str]) -> Vec<String> {
    args.iter().map(|s| (*s).to_string()).collect()
}

fn sets(verb: Verb) -> (String, Vec<String>) {
    match call_for(Some(verb)) {
        Ok(Call::SetState { selector, tokens }) => (selector, tokens),
        other => panic!("unexpected call: {other:?}"),
    }
}

#[test]
fn assigning_needs_a_value() {
    assert_eq!(sets(Verb::Assign { args: typed(&["left", "+10%"]) }), ("left".to_string(), typed(&["+10%"])));
    assert_eq!(
        call_for(Some(Verb::Assign { args: typed(&["left"]) })).unwrap_err(),
        "nothing to set — try `gaffer set left 42%`"
    );
    assert_eq!(
        call_for(Some(Verb::Assign { args: Vec::new() })).unwrap_err(),
        "nothing to set — try `gaffer set all 42%`"
    );
}

#[test]
fn power_verbs_put_their_word_first() {
    assert_eq!(
        sets(Verb::On { args: typed(&["right", "80%"]) }),
        ("right".to_string(), typed(&["on", "80%"]))
    );
    assert_eq!(sets(Verb::Off { args: Vec::new() }), ("all".to_string(), typed(&["off"])));
    assert_eq!(sets(Verb::Toggle { args: typed(&["left"]) }), ("left".to_string(), typed(&["toggle"])));
    assert_eq!(sets(Verb::On { args: typed(&["60%"]) }), ("all".to_string(), typed(&["on", "60%"])));
}

#[test]
fn a_missing_selector_means_everything() {
    assert!(matches!(
        call_for(Some(Verb::Identify { selector: None })),
        Ok(Call::Identify(s)) if s == "all"
    ));
    assert!(matches!(
        call_for(Some(Verb::Unlink { selector: Some("left".to_string()) })),
        Ok(Call::Unlink(s)) if s == "left"
    ));
    assert!(matches!(
        call_for(Some(Verb::Unlink { selector: None })),
        Ok(Call::Unlink(s)) if s == "all"
    ));
}

#[test]
fn mirroring_snaps_onto_the_first_selector() {
    match call_for(Some(Verb::Link { mirror: true, selectors: typed(&["b", "a"]) })) {
        Ok(Call::Link { selectors, mirror }) => {
            assert_eq!(selectors, typed(&["b", "a"]));
            assert_eq!(mirror, Some("b".to_string()));
        }
        other => panic!("unexpected call: {other:?}"),
    }
    assert!(matches!(
        call_for(Some(Verb::Link { mirror: false, selectors: typed(&["b", "a"]) })),
        Ok(Call::Link { mirror: None, .. })
    ));
}

#[test]
fn scenes_are_saved_and_restored_by_name() {
    assert!(matches!(
        call_for(Some(Verb::Scene { args: typed(&["save", "on camera"]) })),
        Ok(Call::SaveScene(name)) if name == "on camera"
    ));
    assert!(matches!(
        call_for(Some(Verb::Scene { args: typed(&["on camera"]) })),
        Ok(Call::ApplyScene(name)) if name == "on camera"
    ));
    // A scene may even be called `save`.
    assert!(matches!(
        call_for(Some(Verb::Scene { args: typed(&["save"]) })),
        Ok(Call::ApplyScene(name)) if name == "save"
    ));
    assert!(call_for(Some(Verb::Scene { args: typed(&["drop", "on camera"]) })).is_err());
    assert!(call_for(Some(Verb::Scene { args: Vec::new() })).is_err());
}

#[test]
fn the_remaining_verbs_carry_their_flags() {
    assert!(matches!(call_for(Some(Verb::List { json: true })), Ok(Call::List { json: true })));
    assert!(matches!(call_for(Some(Verb::Watch { waybar: true })), Ok(Call::Watch { waybar: true })));
    assert!(matches!(call_for(Some(Verb::Rescan)), Ok(Call::Rescan)));
}

#[test]
fn the_daemon_takes_no_options() {
    assert!(matches!(daemon_verb(None), DaemonVerb::Run));
    assert!(matches!(daemon_verb(Some("-V")), DaemonVerb::Version));
    assert!(matches!(daemon_verb(Some("--version")), DaemonVerb::Version));
    assert!(matches!(daemon_verb(Some("-h")), DaemonVerb::Help));
    assert!(matches!(daemon_verb(Some("--help")), DaemonVerb::Help));
    assert!(matches!(daemon_verb(Some("--hlep")), DaemonVerb::Unexpected(arg) if arg == "--hlep"));
}

#[test]
fn a_mistyped_value_is_told_plainly() {
    let name = "org.freedesktop.DBus.Error.InvalidArgs";
    assert_eq!(plain_message(name, Some("no values given")), Some("no values given".to_string()));
    assert_eq!(plain_message(name, None), None);
    assert_eq!(plain_message("org.freedesktop.DBus.Error.NoReply", Some("x")), None);
}

#[test]
fn a_build_is_named_after_the_best_source() {
    assert_eq!(build_id(Some(" 0.2.1-1.fc44 "), Some("abc"), true), "0.2.1-1.fc44");
    assert_eq!(build_id(Some("  "), Some("abc"), true), "gitabc-dirty");
    assert_eq!(build_id(None, Some("abc"), false), "gitabc");
    assert_eq!(build_id(None, None, true), "unknown");
}

#[test]
fn a_watch_prints_only_what_changed() {
    let mut light = LightInfo {
        id: "A1".to_string(),
        name: "Left".to_string(),
        online: true,
        on: true,
        brightness: 42,
        kelvin: 4200,
        ..Default::default()
    };
    let lights = vec![light];
    let mut watcher = Watcher::new(false, &lights);
    assert_eq!(watcher.previous, "Left on 42% 4200K");
    assert_eq!(watcher.on_lights(&lights), None);

    light = lights.into_iter().next().unwrap();
    light.on = false;
    assert_eq!(watcher.on_lights(&[light]), Some("Left off 42% 4200K".to_string()));
    assert_eq!(watcher.on_lights(&[]), Some("no lights".to_string()));
    assert_eq!(watcher.on_lights(&[]), None);

    assert!(!watcher.must_rearm(Stir::Changed));
    assert!(watcher.must_rearm(Stir::Appeared) && watcher.must_rearm(Stir::Vanished));
    assert!(Watcher::new(true, &[]).previous.contains("\"class\":\"empty\""));
}
