use gaffer::discovery::{instance_name, unescape};

#[test]
fn instance_names_are_unescaped() {
    assert_eq!(
        instance_name("Elgato\\032Key\\032Light\\032Left._elg._tcp.local."),
        "Elgato Key Light Left"
    );
    assert_eq!(instance_name("Ring\\032Light._elg._tcp.local."), "Ring Light");
}

#[test]
fn an_unescaped_name_survives_unchanged() {
    assert_eq!(instance_name("KeyLight._elg._tcp.local."), "KeyLight");
}

#[test]
fn a_fullname_without_the_service_suffix_is_used_whole() {
    assert_eq!(instance_name("Weird Name"), "Weird Name");
}

#[test]
fn literal_escapes_are_handled() {
    assert_eq!(unescape("Studio\\.One"), "Studio.One");
    assert_eq!(unescape("back\\\\slash"), "back\\slash");
}

#[test]
fn a_trailing_backslash_does_not_panic() {
    assert_eq!(unescape("trailing\\"), "trailing");
    assert_eq!(unescape("short\\12"), "short12");
}
