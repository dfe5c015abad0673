use gaffer::names::NameMap;
use gaffer::{LightState, Link, LinkMode};

fn at<V: vstd::view::View + Copy>(map: &NameMap<V>, name: &str) -> V {
    *map.get(name).unwrap()
}

fn state(brightness: u8, kelvin: u16) -> LightState {
    LightState { on: true, brightness, kelvin }
}

fn states(pairs: &[(&str, u8)]) -> NameMap<LightState> {
    let mut map = NameMap::new();
    for (id, b) in pairs {
        map.insert((*id).to_string(), state(*b, 4200));
    }
    map
}

/// Ordered members.
fn ordered(pairs: &[(&str, u8)]) -> Vec<(String, LightState)> {
    pairs.iter().map(|(id, b)| ((*id).to_string(), state(*b, 4200))).collect()
}

/// The sketch's own example: key left 42%, key right 35%, offset −7.
fn keys() -> Link {
    Link::learn(&ordered(&[("left", 42), ("right", 35)]))
}

#[test]
fn learning_captures_the_difference_the_sketch_shows() {
    let link = keys();
    assert_eq!(link.mode(), LinkMode::Offset);
    assert_eq!(link.offset_of("left"), Some(0));
    assert_eq!(link.offset_of("right"), Some(-7));
}

#[test]
fn moving_either_lamp_moves_both_and_keeps_the_difference() {
    let link = keys();

    let from_left = link.resolve("left", state(60, 4200));
    assert_eq!(at(&from_left, "left").brightness, 60);
    assert_eq!(at(&from_left, "right").brightness, 53);

    // Symmetric: dragging the follower drags the leader too.
    let from_right = link.resolve("right", state(53, 4200));
    assert_eq!(at(&from_right, "left").brightness, 60);
    assert_eq!(at(&from_right, "right").brightness, 53);
}

#[test]
fn temperature_and_power_mirror_rather_than_offsetting() {
    let link = keys();
    let resolved = link.resolve("left", LightState { on: false, brightness: 50, kelvin: 5600 });

    for member in ["left", "right"] {
        assert_eq!(at(&resolved, member).kelvin, 5600, "{member} should mirror temperature");
        assert!(!at(&resolved, member).on, "{member} should mirror power");
    }
    // …while brightness still differs by the learned offset.
    assert_eq!(at(&resolved, "left").brightness - at(&resolved, "right").brightness, 7);
}

#[test]
fn a_mirror_link_moves_every_member_to_the_same_value() {
    let link = Link::mirror(&["left", "right", "mini"]);
    let resolved = link.resolve("mini", state(70, 4200));
    for member in ["left", "right", "mini"] {
        assert_eq!(at(&resolved, member).brightness, 70);
    }
}

#[test]
fn the_gang_compresses_at_the_ceiling_instead_of_losing_the_offset() {
    let link = keys();

    // Pushing the leader to 100 pins the follower there too.
    let at_top = link.resolve("left", state(100, 4200));
    assert_eq!(at(&at_top, "left").brightness, 100);
    assert_eq!(at(&at_top, "right").brightness, 93);

    // Pushing the *follower* to 100 would put the leader past the ceiling,
    // so it clamps — but the stored offset is untouched…
    let over = link.resolve("right", state(100, 4200));
    assert_eq!(at(&over, "left").brightness, 100);
    assert_eq!(at(&over, "right").brightness, 100);
    assert_eq!(link.offset_of("right"), Some(-7), "clamping must not rewrite the link");

    // …so coming back down restores the spacing immediately.
    let back = link.resolve("right", state(80, 4200));
    assert_eq!(at(&back, "left").brightness, 87);
    assert_eq!(at(&back, "right").brightness, 80);
}

#[test]
fn the_gang_compresses_at_the_floor_too() {
    let link = keys();
    let at_bottom = link.resolve("left", state(3, 4200));
    assert_eq!(at(&at_bottom, "left").brightness, 3);
    assert_eq!(at(&at_bottom, "right").brightness, 0);
}

#[test]
fn resolving_is_idempotent_so_a_link_cannot_oscillate() {
    // Feeding a resolved value back in must produce the same result. If it
    // did not, propagation would chase itself between members forever.
    let link = keys();
    let once = link.resolve("left", state(60, 4200));
    let twice = link.resolve("left", at(&once, "left"));
    assert_eq!(once, twice);

    // And re-resolving from the *other* member's resolved value agrees.
    let from_other = link.resolve("right", at(&once, "right"));
    assert_eq!(from_other, once);
}

#[test]
fn a_light_outside_the_link_moves_nothing() {
    assert!(keys().resolve("mini", state(50, 4200)).is_empty());
}

#[test]
fn alt_drag_teaches_the_link_a_new_difference() {
    let mut link = keys();
    // left stays at 42; right is dragged alone to 30.
    assert!(link.relearn("right", 30, &states(&[("left", 42)])));
    assert_eq!(link.offset_of("right"), Some(-12));

    // The pair now rides with the new spacing.
    let resolved = link.resolve("left", state(50, 4200));
    assert_eq!(at(&resolved, "right").brightness, 38);
}

#[test]
fn re_learning_turns_a_mirror_into_an_offset_link() {
    // The panel draws this as the wire changing from solid to dashed.
    let mut link = Link::mirror(&["left", "right"]);
    assert!(link.relearn("right", 30, &states(&[("left", 42)])));
    assert_eq!(link.mode(), LinkMode::Offset);
    assert_eq!(link.offset_of("right"), Some(-12));
}

#[test]
fn re_learning_needs_an_unmoved_member_to_fix_the_level() {
    let mut link = keys();
    // Nothing known about the other member: refuse rather than guess.
    assert!(!link.relearn("right", 30, &NameMap::new()));
    assert_eq!(link.offset_of("right"), Some(-7), "the link must be unchanged");
}

#[test]
fn re_learning_a_light_outside_the_link_is_refused() {
    let mut link = keys();
    assert!(!link.relearn("mini", 30, &states(&[("left", 42)])));
}

#[test]
fn removing_a_member_leaves_the_rest_intact() {
    let mut link = Link::learn(&ordered(&[("left", 42), ("right", 35), ("mini", 20)]));
    link.remove("right");
    assert_eq!(link.len(), 2);
    assert!(!link.contains("right"));
    assert_eq!(link.offset_of("mini"), Some(-22));
}

#[test]
fn a_three_lamp_gang_keeps_every_spacing() {
    let link = Link::learn(&ordered(&[("left", 42), ("mini", 20), ("right", 35)]));
    // "left" is named first, so it is the reference at offset 0.
    let resolved = link.resolve("left", state(52, 4200));
    assert_eq!(at(&resolved, "left").brightness, 52);
    assert_eq!(at(&resolved, "right").brightness, 45);
    assert_eq!(at(&resolved, "mini").brightness, 30);
}

#[test]
fn the_first_lamp_named_is_the_reference() {
    // `link a b` reads "link b onto a" — argument order, not id order.
    let forward = Link::learn(&ordered(&[("right", 35), ("left", 42)]));
    assert_eq!(forward.reference(), "right");
    assert_eq!(forward.offset_of("right"), Some(0));
    assert_eq!(forward.offset_of("left"), Some(7));

    // Sorting by id would have picked "left" in both cases; it must not.
    let reversed = Link::learn(&ordered(&[("left", 42), ("right", 35)]));
    assert_eq!(reversed.reference(), "left");
}

#[test]
fn mirroring_snaps_every_lamp_onto_the_reference() {
    let mut link = keys(); // left 42 is the reference, right 35
    let moved = link
        .set_mode(LinkMode::Mirror, &states(&[("left", 42), ("right", 35)]))
        .expect("mirror moves lamps");

    assert_eq!(link.mode(), LinkMode::Mirror);
    assert_eq!(at(&moved, "left").brightness, 42);
    assert_eq!(at(&moved, "right").brightness, 42, "the reference wins");
    assert_eq!(link.offset_of("right"), Some(0));
}

#[test]
fn switching_back_to_offset_learns_what_is_there_now() {
    let mut link = Link::mirror(&["left", "right"]);
    // The lamps have since drifted apart.
    assert!(link.set_mode(LinkMode::Offset, &states(&[("left", 50), ("right", 38)])).is_none());
    assert_eq!(link.mode(), LinkMode::Offset);
    assert_eq!(link.offset_of("right"), Some(-12));
}

#[test]
fn switching_to_offset_moves_nothing() {
    // Only mirror is destructive. Offset simply adopts the current shape.
    let mut link = Link::mirror(&["left", "right"]);
    assert!(link.set_mode(LinkMode::Offset, &states(&[("left", 50), ("right", 38)])).is_none());
}

#[test]
fn dropping_the_reference_promotes_another_member() {
    let mut link = Link::learn(&ordered(&[("left", 42), ("right", 35), ("mini", 20)]));
    assert_eq!(link.reference(), "left");
    link.remove("left");
    assert_ne!(link.reference(), "left");
    assert!(link.contains(link.reference()), "the reference must still be a member");
}

#[test]
fn a_restored_link_with_an_unknown_reference_falls_back() {
    let mut offsets: NameMap<i32> = NameMap::new();
    offsets.insert("a".to_string(), 0);
    offsets.insert("b".to_string(), -7);
    let link = Link::from_parts(LinkMode::Offset, Some("gone".into()), offsets.clone());
    assert!(link.contains(link.reference()));

    let no_reference = Link::from_parts(LinkMode::Offset, None, offsets);
    assert!(no_reference.contains(no_reference.reference()));
}
