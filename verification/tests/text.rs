use gaffer::text::{normalize_id, sanitize, MAX_DISPLAY_LEN};

#[test]
fn punctuation_variants_of_one_mac_canonicalise_together() {
    let canonical = normalize_id("00:00:5E:00:53:01");
    assert_eq!(canonical.as_deref(), Some("00005E005301"));
    assert_eq!(normalize_id("00-00-5e-00-53-01"), canonical);
    assert_eq!(normalize_id("00005e005301"), canonical);
}

#[test]
fn distinct_hardware_stays_distinct() {
    assert_ne!(normalize_id("00:00:5E:00:53:01"), normalize_id("00:00:5E:00:53:02"));
}

#[test]
fn an_id_with_nothing_usable_is_rejected() {
    // Would otherwise yield the invalid object path `…/lights/`.
    assert_eq!(normalize_id("::::"), None);
    assert_eq!(normalize_id(""), None);
    assert_eq!(normalize_id("  -- "), None);
}

#[test]
fn the_canonical_form_is_a_valid_dbus_path_element() {
    let id = normalize_id("00:00:5E:00:53:01").unwrap();
    assert!(id.chars().all(|c| c.is_ascii_alphanumeric()));
    assert!(!id.is_empty());
}

#[test]
fn ordinary_names_are_untouched() {
    assert_eq!(sanitize("Elgato Key Light Left"), "Elgato Key Light Left");
    assert_eq!(sanitize("Ring Light — desk"), "Ring Light — desk");
}

#[test]
fn ansi_escapes_cannot_reach_a_terminal() {
    // The reported attack: erase the line and forge a sudo prompt.
    let hostile = "Key Light\u{1b}[2K\r  \u{1b}[32m[sudo] password:\u{1b}[0m";
    let clean = sanitize(hostile);
    assert!(!clean.contains('\u{1b}'), "ESC must not survive: {clean:?}");
    assert!(!clean.contains('\r'));
    assert_eq!(clean, "Key Light[2K  [32m[sudo] password:[0m");
}

#[test]
fn nul_is_removed_so_dbus_serialisation_cannot_fail() {
    // A D-Bus string cannot contain NUL; emitting one would produce a
    // malformed message and disconnect the daemon from the bus.
    assert_eq!(sanitize("a\0b"), "ab");
    assert!(!sanitize("\0\0\0").contains('\0'));
}

#[test]
fn newlines_cannot_forge_extra_log_or_table_lines() {
    assert_eq!(sanitize("Left\nFAKE  on  100%"), "LeftFAKE  on  100%");
}

#[test]
fn absurdly_long_names_are_clamped() {
    let long = "x".repeat(10_000);
    assert_eq!(sanitize(&long).len(), MAX_DISPLAY_LEN);
}

#[test]
fn clamping_counts_characters_not_bytes() {
    // Truncating by bytes would split a multi-byte character; `take` on
    // chars cannot, so this must not panic and must stay valid UTF-8.
    let long = "é".repeat(10_000);
    assert_eq!(sanitize(&long).chars().count(), MAX_DISPLAY_LEN);
}

#[test]
fn surrounding_whitespace_is_trimmed() {
    assert_eq!(sanitize("  Left  "), "Left");
}

#[test]
fn a_string_of_only_control_characters_becomes_empty() {
    // Callers treat empty as "no name reported" and keep what they had.
    assert!(sanitize("\u{1b}\r\n\0").is_empty());
}
