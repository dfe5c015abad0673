use gaffer::config::{Config, StoredGang, StoredLink, StoredScene};
use gaffer::names::NameMap;
use gaffer::scene::{Scene, SceneLamp};
use gaffer::{LightState, Link, LinkMode};
use toml::{Table, Value};

fn named(pairs: &[(&str, i32)]) -> NameMap<i32> {
    let mut map = NameMap::new();
    for (id, offset) in pairs {
        map.insert((*id).to_string(), *offset);
    }
    map
}

fn text(value: &str) -> Value {
    Value::String(value.to_string())
}

fn number(value: i64) -> Value {
    Value::Integer(value)
}

fn offset_table(offsets: &NameMap<i32>) -> Value {
    let mut table = Table::new();
    for i in 0..offsets.len() {
        table.insert(offsets.name_at(i).clone(), number(i64::from(*offsets.value_at(i))));
    }
    Value::Table(table)
}

fn offsets_in(table: &Table) -> NameMap<i32> {
    let mut map = NameMap::new();
    if let Some(Value::Table(offsets)) = table.get("offsets") {
        for (id, offset) in offsets {
            map.insert(id.clone(), i32::try_from(offset.as_integer().unwrap()).unwrap());
        }
    }
    map
}

fn string_in(table: &Table, key: &str) -> String {
    table.get(key).and_then(Value::as_str).unwrap_or("").to_string()
}

fn integer_in(table: &Table, key: &str) -> i64 {
    table.get(key).and_then(Value::as_integer).unwrap()
}

fn tables_in(table: &Table, key: &str) -> Vec<Table> {
    match table.get(key) {
        Some(Value::Array(items)) => items.iter().map(|t| t.as_table().unwrap().clone()).collect(),
        _ => Vec::new(),
    }
}

/// The configuration as the text of a file.
fn written(config: &Config) -> String {
    let mut root = Table::new();
    let mut links = Vec::new();
    for link in &config.links {
        let mut table = Table::new();
        table.insert("mode".to_string(), text(&link.mode));
        if let Some(reference) = &link.reference {
            table.insert("reference".to_string(), text(reference));
        }
        table.insert("offsets".to_string(), offset_table(&link.offsets));
        links.push(Value::Table(table));
    }
    if !links.is_empty() {
        root.insert("link".to_string(), Value::Array(links));
    }
    let mut scenes = Vec::new();
    for scene in &config.scenes {
        let mut table = Table::new();
        table.insert("name".to_string(), text(&scene.name));
        let mut gangs = Vec::new();
        for gang in &scene.gangs {
            let mut entry = Table::new();
            let members = gang.members.iter().map(|m| text(m)).collect();
            entry.insert("members".to_string(), Value::Array(members));
            entry.insert("mode".to_string(), text(&gang.mode));
            entry.insert("offsets".to_string(), offset_table(&gang.offsets));
            entry.insert("level".to_string(), number(i64::from(gang.level)));
            entry.insert("kelvin".to_string(), number(i64::from(gang.kelvin)));
            entry.insert("on".to_string(), Value::Boolean(gang.on));
            gangs.push(Value::Table(entry));
        }
        table.insert("gang".to_string(), Value::Array(gangs));
        let mut lamps = Vec::new();
        for lamp in &scene.lamps {
            let mut entry = Table::new();
            entry.insert("id".to_string(), text(&lamp.id));
            entry.insert("brightness".to_string(), number(i64::from(lamp.brightness)));
            entry.insert("kelvin".to_string(), number(i64::from(lamp.kelvin)));
            entry.insert("on".to_string(), Value::Boolean(lamp.on));
            lamps.push(Value::Table(entry));
        }
        table.insert("lamp".to_string(), Value::Array(lamps));
        scenes.push(Value::Table(table));
    }
    if !scenes.is_empty() {
        root.insert("scene".to_string(), Value::Array(scenes));
    }
    toml::to_string_pretty(&root).unwrap()
}

/// What the text of a file says.
fn read(file: &str) -> Config {
    let root: Table = toml::from_str(file).unwrap();
    let mut config = Config::default();
    for table in tables_in(&root, "link") {
        let reference = table.get("reference").and_then(Value::as_str).map(str::to_string);
        config.links.push(StoredLink {
            mode: string_in(&table, "mode"),
            reference,
            offsets: offsets_in(&table),
        });
    }
    for table in tables_in(&root, "scene") {
        let mut gangs = Vec::new();
        for gang in tables_in(&table, "gang") {
            let members = match gang.get("members") {
                Some(Value::Array(ids)) => ids.iter().map(|m| m.as_str().unwrap().to_string()).collect(),
                _ => Vec::new(),
            };
            gangs.push(StoredGang {
                members,
                mode: string_in(&gang, "mode"),
                offsets: offsets_in(&gang),
                level: i32::try_from(integer_in(&gang, "level")).unwrap(),
                kelvin: u16::try_from(integer_in(&gang, "kelvin")).unwrap(),
                on: gang.get("on").and_then(Value::as_bool).unwrap(),
            });
        }
        let mut lamps = Vec::new();
        for lamp in tables_in(&table, "lamp") {
            lamps.push(SceneLamp {
                id: string_in(&lamp, "id"),
                brightness: u8::try_from(integer_in(&lamp, "brightness")).unwrap(),
                kelvin: u16::try_from(integer_in(&lamp, "kelvin")).unwrap(),
                on: lamp.get("on").and_then(Value::as_bool).unwrap(),
            });
        }
        config.scenes.push(StoredScene { name: string_in(&table, "name"), gangs, lamps });
    }
    config
}

fn link_of(pairs: &[(&str, i32)], mode: LinkMode) -> Link {
    Link::from_parts(
        mode,
        pairs.first().map(|(id, _)| (*id).to_string()),
        named(pairs),
    )
}

#[test]
fn a_gang_survives_a_round_trip() {
    let mut config = Config::default();
    let link = link_of(&[("left", 0), ("right", -7)], LinkMode::Offset);
    config.set_links(&[link.clone()]);

    let text = written(&config);
    let back: Config = read(&text);

    assert_eq!(back.links(), vec![link]);
}

#[test]
fn the_written_form_is_legible() {
    let mut config = Config::default();
    config.set_links(&[link_of(&[("left", 0), ("right", -7)], LinkMode::Offset)]);

    let text = written(&config);
    assert!(text.contains("mode = \"offset\""), "{text}");
    assert!(text.contains("right = -7"), "{text}");
}

#[test]
fn mirror_mode_round_trips_distinctly_from_offset() {
    let mut config = Config::default();
    config.set_links(&[link_of(&[("a", 0), ("b", 0)], LinkMode::Mirror)]);
    let back: Config = read(&written(&config));
    assert_eq!(back.links()[0].mode(), LinkMode::Mirror);
}

#[test]
fn an_unknown_mode_reads_as_offset_rather_than_failing() {
    // Offset is the resting state; a typo should not cost the gang.
    let config: Config =
        read("[[link]]\nmode = \"nonsense\"\n[link.offsets]\na = 0\nb = -7\n");
    assert_eq!(config.links()[0].mode(), LinkMode::Offset);
}

#[test]
fn a_gang_of_one_is_discarded() {
    let config: Config =
        read("[[link]]\nmode = \"offset\"\n[link.offsets]\nonly = 0\n");
    assert!(config.links().is_empty());
}

#[test]
fn only_the_smaller_gangs_are_lost_in_a_round_trip() {
    let first = link_of(&[("b", 0), ("a", 4)], LinkMode::Mirror);
    let last = link_of(&[("c", 0), ("d", -7), ("e", 3)], LinkMode::Offset);
    let single = link_of(&[("only", 0)], LinkMode::Offset);
    let mut config = Config::default();
    config.set_links(&[first.clone(), single, last.clone()]);
    assert_eq!(read(&written(&config)).links(), vec![first, last]);
}

#[test]
fn an_empty_config_has_no_links_and_writes_nothing_extra() {
    let config = Config::default();
    assert!(config.links().is_empty());
    assert_eq!(written(&config).trim(), "");
}

#[test]
fn a_scene_survives_a_round_trip_through_the_file() {
    let mut states = NameMap::new();
    states.insert("left".to_string(), LightState { on: true, brightness: 42, kelvin: 4200 });
    states.insert("right".to_string(), LightState { on: true, brightness: 35, kelvin: 4200 });
    states.insert("mini".to_string(), LightState { on: false, brightness: 64, kelvin: 5600 });
    let link = link_of(&[("right", 0), ("left", 7)], LinkMode::Offset);
    let mut scenes = NameMap::new();
    scenes.insert("on camera".to_string(), Scene::capture(&states, &[link]));

    let mut config = Config::default();
    config.set_scenes(&scenes);
    let back = read(&written(&config)).scenes();

    assert_eq!(back.len(), 1);
    let scene = back.get("on camera").unwrap();
    assert_eq!(scene, scenes.get("on camera").unwrap());
    assert_eq!(scene.gangs[0].members, vec!["right".to_string(), "left".to_string()]);
    assert_eq!(scene.gangs[0].level, 35);
    assert_eq!(scene.lamps[0].brightness, 64);
}

#[test]
fn the_reference_survives_a_round_trip() {
    // Sorting by id would make "a" the lamp that wins a mirror.
    let mut config = Config::default();
    config.set_links(&[link_of(&[("b", 0), ("a", 4)], LinkMode::Mirror)]);
    assert_eq!(read(&written(&config)).links()[0].reference(), "b");
}

#[test]
fn an_older_file_without_a_reference_still_loads() {
    let config = read("[[link]]\nmode = \"mirror\"\n[link.offsets]\nb = 0\na = 0\n");
    let links = config.links();
    assert_eq!(links[0].reference(), "a");
    assert_eq!(links[0].mode(), LinkMode::Mirror);
}

#[test]
fn gangs_keep_their_order_and_short_ones_are_dropped_between_them() {
    let mut config = Config::default();
    config.set_links(&[
        link_of(&[("a", 0), ("b", 3)], LinkMode::Offset),
        link_of(&[("lone", 0)], LinkMode::Offset),
        link_of(&[("c", 0), ("d", -3)], LinkMode::Offset),
    ]);
    assert_eq!(config.links.len(), 3);
    let back = config.links();
    assert_eq!(back.len(), 2);
    assert_eq!(back[0].reference(), "a");
    assert_eq!(back[1].offset_of("d"), Some(-3));
}
