//! Output formats.
//!
//! Three consumers, three shapes: a human at a terminal, `jq` in a script, and
//! Waybar's `custom/` module — which reads newline-delimited JSON from a
//! subprocess's stdout. On Wayland there is no system tray to put a light
//! control in, so the panel integration is a program that prints JSON forever.

use vstd::prelude::*;
use vstd::string::*;
use vstd::utf8::encode_utf8;

use crate::json::{add_item, add_member, compact, compact_text, list_view, pretty, pretty_text,
    text_node, Json, JsonView};
use crate::proxy::{info_views, listed_offset, ClientGang, Gang, InfoView, LightInfo};
use crate::strings::{chars_of, decimal, join, joined, left_aligned, numeral, part, push_decimal,
    push_left_aligned, push_numeral, push_right_aligned, right_aligned, spaces, string_of, text_of,
    texts};

verus! {

broadcast use vstd::string::group_string_axioms;

// ---------------------------------------------------------------------------
// The table
// ---------------------------------------------------------------------------

/// How many bytes a text takes.
pub open spec fn byte_len(text: Seq<char>) -> usize {
    encode_utf8(text).len() as usize
}

/// How wide the column of names is: as wide as the longest name, and never
/// narrower than its heading.
pub open spec fn name_width(lights: Seq<InfoView>) -> usize
    decreases lights.len(),
{
    if lights.len() == 0 {
        4
    } else {
        let before = name_width(lights.drop_last());
        if byte_len(lights.last().name) > before {
            byte_len(lights.last().name)
        } else {
            before
        }
    }
}

/// The part of a text before its first line break.
pub open spec fn first_line_of(text: Seq<char>) -> Seq<char> {
    if text.contains('\n') {
        let head = text.take(text.index_of_first('\n')->0);
        if head.len() > 0 && head.last() == '\r' {
            head.drop_last()
        } else {
            head
        }
    } else {
        text
    }
}

/// What the last column says of a light: how many are reachable for the group,
/// else where it is, with what went wrong there if anything did.
pub open spec fn place_of(light: InfoView, total: int) -> Seq<char> {
    if light.is_group() {
        decimal(light.online_count as int) + " of "@ + decimal(
            if total > 0 {
                total - 1
            } else {
                0
            },
        ) + " online"@
    } else if light.last_error.len() == 0 {
        light.address
    } else {
        light.address + "  ("@ + first_line_of(light.last_error) + ")"@
    }
}

/// One row of the table.
pub open spec fn row(light: InfoView, width: int, total: int) -> Seq<char> {
    left_aligned(light.name, width) + "  "@ + left_aligned(light.state_word(), 7) + "  "@
        + right_aligned(decimal(light.brightness as int), 5) + "%  "@ + right_aligned(
        decimal(light.kelvin as int),
        5,
    ) + "K  "@ + place_of(light, total) + "\n"@
}

/// Several rows of the table.
pub open spec fn rows(lights: Seq<InfoView>, width: int, total: int) -> Seq<char>
    decreases lights.len(),
{
    if lights.len() == 0 {
        seq![]
    } else {
        rows(lights.drop_last(), width, total) + row(lights.last(), width, total)
    }
}

/// The heading of the table.
pub open spec fn heading(width: int) -> Seq<char> {
    left_aligned("NAME"@, width) + "  "@ + left_aligned("STATE"@, 7) + "  "@ + right_aligned(
        "BRIGHT"@,
        6,
    ) + "  "@ + right_aligned("TEMP"@, 6) + "  "@ + "ADDRESS"@ + "\n"@
}

/// The whole table.
pub open spec fn table_text(lights: Seq<InfoView>) -> Seq<char> {
    if lights.len() == 0 {
        "no lights found\n"@
    } else {
        let width = name_width(lights) as int;
        heading(width) + rows(lights, width, lights.len() as int)
    }
}

fn first_line(text: &str) -> (r: String)
    ensures
        r@ == first_line_of(text@),
{
    let chars = chars_of(text);
    let mut i: usize = 0;
    while i < chars.len()
        invariant
            i <= chars@.len(),
            chars@ == text@,
            forall|j: int| 0 <= j < i ==> text@[j] != '\n',
        decreases chars@.len() - i,
    {
        if chars[i] == '\n' {
            proof {
                assert(text@.contains('\n'));
                assert(text@.index_of_first('\n') == Some(i as int)) by {
                    text@.index_of_first_ensures('\n');
                }
            }
            let end: usize = if i > 0 && chars[i - 1] == '\r' {
                i - 1
            } else {
                i
            };
            let head = part(chars.as_slice(), 0, end);
            assert(head@ =~= first_line_of(text@));
            return string_of(head.as_slice());
        }
        i += 1;
    }
    assert(!text@.contains('\n'));
    text.to_owned()
}

fn push_place(out: &mut String, light: &LightInfo, total: usize)
    ensures
        final(out)@ == old(out)@ + place_of(light@, total as int),
{
    if light.is_group() {
        push_decimal(out, light.online_count as i64);
        out.append(" of ");
        push_numeral(
            out,
            if total > 0 {
                (total - 1) as u64
            } else {
                0
            },
            10,
            false,
        );
        out.append(" online");
    } else if light.last_error.as_str().unicode_len() == 0 {
        out.append(light.address.as_str());
    } else {
        // A failing light is the case you most want explained in place.
        out.append(light.address.as_str());
        out.append("  (");
        out.append(first_line(light.last_error.as_str()).as_str());
        out.append(")");
    }
    assert(out@ =~= old(out)@ + place_of(light@, total as int));
}

fn push_number(out: &mut String, value: u16)
    ensures
        final(out)@ == old(out)@ + right_aligned(decimal(value as int), 5),
{
    let mut digits = String::new();
    push_decimal(&mut digits, value as i64);
    assert(digits@ =~= decimal(value as int));
    push_right_aligned(out, digits.as_str(), 5);
}

fn push_row(out: &mut String, light: &LightInfo, width: usize, total: usize)
    ensures
        final(out)@ == old(out)@ + row(light@, width as int, total as int),
{
    let mut line = String::new();
    push_left_aligned(&mut line, light.name.as_str(), width);
    assert(line@ =~= left_aligned(light@.name, width as int));
    line.append("  ");
    push_left_aligned(&mut line, light.state_word(), 7);
    line.append("  ");
    push_number(&mut line, light.brightness as u16);
    line.append("%  ");
    push_number(&mut line, light.kelvin);
    line.append("K  ");
    push_place(&mut line, light, total);
    line.append("\n");
    assert(line@ == row(light@, width as int, total as int));
    out.append(line.as_str());
}

/// Aligned table for a terminal.
pub fn table(lights: &[LightInfo]) -> (r: String)
    ensures
        r@ == table_text(info_views(lights@)),
{
    if lights.len() == 0 {
        return "no lights found\n".to_owned();
    }
    let ghost all = info_views(lights@);
    let mut width: usize = 4;
    let mut i: usize = 0;
    assert(all.take(0) =~= Seq::empty());
    while i < lights.len()
        invariant
            i <= lights@.len(),
            all == info_views(lights@),
            width == name_width(all.take(i as int)),
        decreases lights@.len() - i,
    {
        proof {
            assert(all.take(i + 1).drop_last() =~= all.take(i as int));
            assert(all.take(i + 1).last() == lights@[i as int]@);
        }
        let len: usize = lights[i].name.as_str().len();
        if len > width {
            width = len;
        }
        i += 1;
    }
    assert(all.take(i as int) =~= all);
    let mut out = String::new();
    push_left_aligned(&mut out, "NAME", width);
    out.append("  ");
    push_left_aligned(&mut out, "STATE", 7);
    out.append("  ");
    push_right_aligned(&mut out, "BRIGHT", 6);
    out.append("  ");
    push_right_aligned(&mut out, "TEMP", 6);
    out.append("  ");
    out.append("ADDRESS");
    out.append("\n");
    assert(out@ =~= heading(width as int));
    let mut k: usize = 0;
    assert(all.take(0) =~= Seq::empty());
    assert(out@ =~= heading(width as int) + rows(all.take(0), width as int, all.len() as int));
    while k < lights.len()
        invariant
            k <= lights@.len(),
            all == info_views(lights@),
            out@ == heading(width as int) + rows(
                all.take(k as int),
                width as int,
                all.len() as int,
            ),
        decreases lights@.len() - k,
    {
        proof {
            assert(all.take(k + 1).drop_last() =~= all.take(k as int));
            assert(all.take(k + 1).last() == lights@[k as int]@);
        }
        push_row(&mut out, &lights[k], width, lights.len());
        k += 1;
        assert(out@ =~= heading(width as int) + rows(
            all.take(k as int),
            width as int,
            all.len() as int,
        ));
    }
    assert(all.take(k as int) =~= all);
    out
}

// ---------------------------------------------------------------------------
// JSON for scripts
// ---------------------------------------------------------------------------

/// A member of a gang as scripts read it.
pub open spec fn member_tree(member: (Seq<char>, i32)) -> JsonView {
    JsonView::Object(
        Map::empty().insert("id"@, JsonView::Text(member.0)).insert(
            "offset"@,
            JsonView::Number(member.1 as int),
        ),
    )
}

/// A lamp's gang as scripts read it: how it tracks, who leads, this lamp's own
/// offset, and everyone in it.
pub open spec fn gang_tree(gang: Option<ClientGang>, id: Seq<char>) -> JsonView {
    match gang {
        None => JsonView::Null,
        Some(gang) => JsonView::Object(
            Map::empty().insert("mode"@, JsonView::Text(gang.mode)).insert(
                "reference"@,
                JsonView::Text(gang.reference),
            ).insert("offset"@, JsonView::Number(listed_offset(gang.members, id) as int)).insert(
                "members"@,
                JsonView::List(
                    gang.members.map_values(|member: (Seq<char>, i32)| member_tree(member)),
                ),
            ),
        ),
    }
}

/// A light as scripts read it.
pub open spec fn light_tree(light: InfoView) -> JsonView {
    JsonView::Object(
        Map::empty().insert("id"@, JsonView::Text(light.id)).insert(
            "name"@,
            JsonView::Text(light.name),
        ).insert("model"@, JsonView::Text(light.model)).insert(
            "firmware"@,
            JsonView::Text(light.firmware),
        ).insert("address"@, JsonView::Text(light.address)).insert(
            "online"@,
            JsonView::Bool(light.online),
        ).insert("on"@, JsonView::Bool(light.on)).insert(
            "brightness"@,
            JsonView::Number(light.brightness as int),
        ).insert("kelvin"@, JsonView::Number(light.kelvin as int)).insert(
            "group"@,
            JsonView::Bool(light.is_group()),
        ).insert("lastError"@, JsonView::Text(light.last_error)).insert(
            "gang"@,
            gang_tree(light.gang, light.id),
        ),
    )
}

/// The whole world as scripts read it.
pub open spec fn world_tree(lights: Seq<InfoView>) -> JsonView {
    JsonView::List(lights.map_values(|light: InfoView| light_tree(light)))
}

fn gang_json(gang: &Gang, id: &str) -> (r: Json)
    ensures
        r@ == gang_tree(Some(gang@), id@),
{
    let ghost all = gang@.members;
    let mut members: Vec<Json> = Vec::new();
    let mut i: usize = 0;
    assert(list_view(members@) =~= all.take(0).map_values(
        |member: (Seq<char>, i32)| member_tree(member),
    ));
    while i < gang.members.len()
        invariant
            i <= gang.members@.len(),
            all == gang@.members,
            list_view(members@) == all.take(i as int).map_values(
                |member: (Seq<char>, i32)| member_tree(member),
            ),
        decreases gang.members@.len() - i,
    {
        let mut entry: Vec<(String, Json)> = Vec::new();
        add_member(&mut entry, "id", text_node(gang.members[i].0.as_str()));
        add_member(&mut entry, "offset", Json::Number(gang.members[i].1 as i64));
        let node = Json::Object(entry);
        proof {
            assert(all[i as int] == gang.members@[i as int]@);
            assert(node@ == member_tree(all[i as int]));
        }
        add_item(&mut members, node);
        i += 1;
        assert(list_view(members@) =~= all.take(i as int).map_values(
            |member: (Seq<char>, i32)| member_tree(member),
        ));
    }
    assert(all.take(i as int) =~= all);
    let mut out: Vec<(String, Json)> = Vec::new();
    add_member(&mut out, "mode", text_node(gang.mode.as_str()));
    add_member(&mut out, "reference", text_node(gang.reference.as_str()));
    add_member(&mut out, "offset", Json::Number(gang.offset_of(id) as i64));
    add_member(&mut out, "members", Json::List(members));
    Json::Object(out)
}

fn light_json(light: &LightInfo) -> (r: Json)
    ensures
        r@ == light_tree(light@),
{
    let mut out: Vec<(String, Json)> = Vec::new();
    add_member(&mut out, "id", text_node(light.id.as_str()));
    add_member(&mut out, "name", text_node(light.name.as_str()));
    add_member(&mut out, "model", text_node(light.model.as_str()));
    add_member(&mut out, "firmware", text_node(light.firmware.as_str()));
    add_member(&mut out, "address", text_node(light.address.as_str()));
    add_member(&mut out, "online", Json::Bool(light.online));
    add_member(&mut out, "on", Json::Bool(light.on));
    add_member(&mut out, "brightness", Json::Number(light.brightness as i64));
    add_member(&mut out, "kelvin", Json::Number(light.kelvin as i64));
    add_member(&mut out, "group", Json::Bool(light.is_group()));
    add_member(&mut out, "lastError", text_node(light.last_error.as_str()));
    let gang = match &light.gang {
        Some(gang) => gang_json(gang, light.id.as_str()),
        None => Json::Null,
    };
    add_member(&mut out, "gang", gang);
    Json::Object(out)
}

/// The whole world as a tree.
pub fn world_json(lights: &[LightInfo]) -> (r: Json)
    ensures
        r@ == world_tree(info_views(lights@)),
{
    let ghost all = info_views(lights@);
    let mut items: Vec<Json> = Vec::new();
    let mut i: usize = 0;
    assert(list_view(items@) =~= all.take(0).map_values(|light: InfoView| light_tree(light)));
    while i < lights.len()
        invariant
            i <= lights@.len(),
            all == info_views(lights@),
            list_view(items@) == all.take(i as int).map_values(
                |light: InfoView| light_tree(light),
            ),
        decreases lights@.len() - i,
    {
        add_item(&mut items, light_json(&lights[i]));
        i += 1;
        assert(list_view(items@) =~= all.take(i as int).map_values(
            |light: InfoView| light_tree(light),
        ));
    }
    assert(all.take(i as int) =~= all);
    Json::List(items)
}

/// A listing as it was written, or an empty one when it could not be.
pub fn or_empty_list(written: Option<String>) -> (r: String)
    ensures
        r@ == match text_of(written) {
            Some(text) => text,
            None => "[]"@,
        },
{
    match written {
        Some(text) => text,
        None => "[]".to_owned(),
    }
}

/// Machine-readable form of the whole world.
pub fn json(lights: &[LightInfo]) -> (r: String)
    ensures
        r@ == match pretty_text(world_tree(info_views(lights@))) {
            Some(text) => text,
            None => "[]"@,
        },
{
    or_empty_list(pretty(&world_json(lights)))
}

// ---------------------------------------------------------------------------
// Waybar
// ---------------------------------------------------------------------------

/// The group among the lights.
pub open spec fn group_of(lights: Seq<InfoView>) -> Option<InfoView>
    decreases lights.len(),
{
    if lights.len() == 0 {
        None
    } else if lights[0].is_group() {
        Some(lights[0])
    } else {
        group_of(lights.drop_first())
    }
}

/// What the panel shows of the group: its text, its style and a percentage.
pub open spec fn badge(group: Option<InfoView>) -> (Seq<char>, Seq<char>, int) {
    match group {
        None => ("no lights"@, "empty"@, 0),
        Some(group) => if group.online_count == 0 {
            ("offline"@, "offline"@, 0)
        } else if !group.on {
            ("off"@, "off"@, 0)
        } else {
            (decimal(group.brightness as int) + "%"@, "on"@, group.brightness as int)
        },
    }
}

/// A light in a few words, after its name and a separator.
pub open spec fn summary(light: InfoView, separator: Seq<char>) -> Seq<char> {
    if light.online {
        light.name + separator + light.state_word() + " "@ + decimal(light.brightness as int)
            + "% "@ + decimal(light.kelvin as int) + "K"@
    } else {
        light.name + separator + "offline"@
    }
}

/// The summaries of the lights that are not the group.
pub open spec fn summaries(lights: Seq<InfoView>, separator: Seq<char>) -> Seq<Seq<char>>
    decreases lights.len(),
{
    if lights.len() == 0 {
        seq![]
    } else if lights.last().is_group() {
        summaries(lights.drop_last(), separator)
    } else {
        summaries(lights.drop_last(), separator).push(summary(lights.last(), separator))
    }
}

/// What the panel shows when hovered.
pub open spec fn tooltip(lights: Seq<InfoView>) -> Seq<char> {
    let lines = summaries(lights, ": "@);
    if lines.len() == 0 {
        "no lights discovered"@
    } else {
        joined(lines, "\n"@)
    }
}

/// What Waybar is told.
pub open spec fn waybar_tree(lights: Seq<InfoView>) -> JsonView {
    let shown = badge(group_of(lights));
    JsonView::Object(
        Map::empty().insert("text"@, JsonView::Text(shown.0)).insert(
            "class"@,
            JsonView::Text(shown.1),
        ).insert("percentage"@, JsonView::Number(shown.2)).insert(
            "tooltip"@,
            JsonView::Text(tooltip(lights)),
        ),
    )
}

fn find_group(lights: &[LightInfo]) -> (r: Option<&LightInfo>)
    ensures
        match r {
            Some(group) => group_of(info_views(lights@)) == Some(group@),
            None => group_of(info_views(lights@)) is None,
        },
{
    let ghost all = info_views(lights@);
    let mut i: usize = 0;
    assert(all.skip(0) =~= all);
    while i < lights.len()
        invariant
            i <= lights@.len(),
            all == info_views(lights@),
            group_of(all) == group_of(all.skip(i as int)),
        decreases lights@.len() - i,
    {
        assert(all.skip(i as int)[0] == lights@[i as int]@);
        if lights[i].is_group() {
            return Some(&lights[i]);
        }
        assert(all.skip(i as int).drop_first() =~= all.skip(i + 1));
        i += 1;
    }
    None
}

fn summarise(light: &LightInfo, separator: &str) -> (r: String)
    ensures
        r@ == summary(light@, separator@),
{
    let mut out = light.name.clone();
    out.append(separator);
    if light.online {
        out.append(light.state_word());
        out.append(" ");
        push_decimal(&mut out, light.brightness as i64);
        out.append("% ");
        push_decimal(&mut out, light.kelvin as i64);
        out.append("K");
    } else {
        out.append("offline");
    }
    assert(out@ =~= summary(light@, separator@));
    out
}

fn summarise_all(lights: &[LightInfo], separator: &str) -> (r: Vec<String>)
    ensures
        texts(r@) == summaries(info_views(lights@), separator@),
{
    let ghost all = info_views(lights@);
    let mut out: Vec<String> = Vec::new();
    let mut i: usize = 0;
    assert(all.take(0) =~= Seq::empty());
    assert(texts(out@) =~= seq![]);
    while i < lights.len()
        invariant
            i <= lights@.len(),
            all == info_views(lights@),
            texts(out@) == summaries(all.take(i as int), separator@),
        decreases lights@.len() - i,
    {
        proof {
            assert(all.take(i + 1).drop_last() =~= all.take(i as int));
            assert(all.take(i + 1).last() == lights@[i as int]@);
        }
        if !lights[i].is_group() {
            let ghost before = out@;
            let line = summarise(&lights[i], separator);
            let ghost added = line@;
            out.push(line);
            assert(texts(out@) =~= texts(before).push(added));
        }
        i += 1;
    }
    assert(all.take(i as int) =~= all);
    out
}

/// What Waybar is told, as a tree.
pub fn waybar_json(lights: &[LightInfo]) -> (r: Json)
    ensures
        r@ == waybar_tree(info_views(lights@)),
{
    let group = find_group(lights);
    let mut shown = String::new();
    let mut class = "empty";
    let mut percentage: i64 = 0;
    match group {
        None => {
            shown.append("no lights");
        },
        Some(group) => {
            if group.online_count == 0 {
                shown.append("offline");
                class = "offline";
            } else if !group.on {
                shown.append("off");
                class = "off";
            } else {
                push_decimal(&mut shown, group.brightness as i64);
                shown.append("%");
                class = "on";
                percentage = group.brightness as i64;
            }
        },
    }
    proof {
        let wanted = badge(group_of(info_views(lights@)));
        assert(shown@ =~= wanted.0);
        assert(class@ == wanted.1);
        assert(percentage == wanted.2);
    }
    let lines = summarise_all(lights, ": ");
    assert(texts(lines@).len() == lines@.len());
    let hover = if lines.len() == 0 {
        "no lights discovered".to_owned()
    } else {
        join(lines.as_slice(), "\n")
    };
    let mut out: Vec<(String, Json)> = Vec::new();
    add_member(&mut out, "text", Json::Text(shown));
    add_member(&mut out, "class", text_node(class));
    add_member(&mut out, "percentage", Json::Number(percentage));
    add_member(&mut out, "tooltip", Json::Text(hover));
    Json::Object(out)
}

/// One line of Waybar's `custom/` module protocol.
pub fn waybar(lights: &[LightInfo]) -> (r: String)
    ensures
        r@ == compact_text(waybar_tree(info_views(lights@))),
        !r@.contains('\n'),
{
    compact(&waybar_json(lights))
}

// ---------------------------------------------------------------------------
// A terminal
// ---------------------------------------------------------------------------

/// The lights on one line.
pub open spec fn line_text(lights: Seq<InfoView>) -> Seq<char> {
    let parts = summaries(lights, " "@);
    if parts.len() == 0 {
        "no lights"@
    } else {
        joined(parts, "  |  "@)
    }
}

/// Compact single line for `gaffer watch` at a terminal.
pub fn line(lights: &[LightInfo]) -> (r: String)
    ensures
        r@ == line_text(info_views(lights@)),
{
    let parts = summarise_all(lights, " ");
    assert(texts(parts@).len() == parts@.len());
    if parts.len() == 0 {
        "no lights".to_owned()
    } else {
        join(parts.as_slice(), "  |  ")
    }
}

// ---------------------------------------------------------------------------
// What a reader of the output can rely on
// ---------------------------------------------------------------------------

/// How many line breaks a text holds.
pub open spec fn breaks(text: Seq<char>) -> nat
    decreases text.len(),
{
    if text.len() == 0 {
        0
    } else if text.last() == '\n' {
        breaks(text.drop_last()) + 1
    } else {
        breaks(text.drop_last())
    }
}

proof fn lemma_breaks_of_both(a: Seq<char>, b: Seq<char>)
    ensures
        breaks(a + b) == breaks(a) + breaks(b),
    decreases b.len(),
{
    if b.len() == 0 {
        assert(a + b =~= a);
    } else {
        lemma_breaks_of_both(a, b.drop_last());
        assert((a + b).drop_last() =~= a + b.drop_last());
    }
}

proof fn lemma_unbroken(text: Seq<char>)
    ensures
        breaks(text) == 0 <==> !text.contains('\n'),
    decreases text.len(),
{
    if text.len() > 0 {
        lemma_unbroken(text.drop_last());
        if text.contains('\n') {
            let i = choose|i: int| 0 <= i < text.len() && text[i] == '\n';
            if i < text.len() - 1 {
                assert(text.drop_last()[i] == '\n');
            }
        }
        if text.drop_last().contains('\n') {
            let i = choose|i: int|
                0 <= i < text.drop_last().len() && text.drop_last()[i] == '\n';
            assert(text[i] == '\n');
        }
        if text.last() == '\n' {
            assert(text[text.len() - 1] == '\n');
        }
    }
}

proof fn lemma_numeral_is_unbroken(value: int)
    requires
        value >= 0,
    ensures
        breaks(decimal(value)) == 0,
    decreases value,
{
    let text = numeral(value, 10, false);
    reveal_with_fuel(breaks, 2);
    if value >= 10 {
        lemma_numeral_is_unbroken(value / 10);
        assert(text.drop_last() =~= numeral(value / 10, 10, false));
    }
}

proof fn lemma_spaces_are_unbroken(count: int)
    ensures
        breaks(spaces(count)) == 0,
{
    lemma_unbroken(spaces(count));
}

proof fn lemma_first_line_is_unbroken(text: Seq<char>)
    ensures
        breaks(first_line_of(text)) == 0,
{
    if text.contains('\n') {
        text.index_of_first_ensures('\n');
    }
    lemma_unbroken(first_line_of(text));
}

proof fn lemma_state_word_is_unbroken(light: InfoView)
    ensures
        breaks(light.state_word()) == 0,
{
    reveal_strlit("offline");
    reveal_strlit("off");
    reveal_strlit("on");
    lemma_unbroken(light.state_word());
}

proof fn lemma_place_is_unbroken(light: InfoView, total: int)
    requires
        !light.address.contains('\n'),
    ensures
        breaks(place_of(light, total)) == 0,
{
    reveal_strlit(" of ");
    reveal_strlit(" online");
    reveal_strlit("  (");
    reveal_strlit(")");
    lemma_unbroken(" of "@);
    lemma_unbroken(" online"@);
    lemma_unbroken("  ("@);
    lemma_unbroken(")"@);
    lemma_unbroken(light.address);
    if light.is_group() {
        let others = if total > 0 {
            total - 1
        } else {
            0
        };
        let count = decimal(light.online_count as int);
        lemma_numeral_is_unbroken(light.online_count as int);
        lemma_numeral_is_unbroken(others);
        lemma_breaks_of_both(count, " of "@);
        lemma_breaks_of_both(count + " of "@, decimal(others));
        lemma_breaks_of_both(count + " of "@ + decimal(others), " online"@);
    } else if light.last_error.len() > 0 {
        let error = first_line_of(light.last_error);
        lemma_first_line_is_unbroken(light.last_error);
        lemma_breaks_of_both(light.address, "  ("@);
        lemma_breaks_of_both(light.address + "  ("@, error);
        lemma_breaks_of_both(light.address + "  ("@ + error, ")"@);
    }
}

proof fn lemma_row_is_one_line(light: InfoView, width: int, total: int)
    requires
        !light.name.contains('\n'),
        !light.address.contains('\n'),
    ensures
        breaks(row(light, width, total)) == 1,
{
    reveal_strlit("  ");
    reveal_strlit("%  ");
    reveal_strlit("K  ");
    reveal_strlit("\n");
    lemma_unbroken("  "@);
    lemma_unbroken("%  "@);
    lemma_unbroken("K  "@);
    lemma_unbroken(light.name);
    lemma_state_word_is_unbroken(light);
    lemma_numeral_is_unbroken(light.brightness as int);
    lemma_numeral_is_unbroken(light.kelvin as int);
    lemma_place_is_unbroken(light, total);
    let word = light.state_word();
    let bright = decimal(light.brightness as int);
    let warm = decimal(light.kelvin as int);
    lemma_spaces_are_unbroken(width - light.name.len());
    lemma_spaces_are_unbroken(7 - word.len());
    lemma_spaces_are_unbroken(5 - bright.len());
    lemma_spaces_are_unbroken(5 - warm.len());
    lemma_breaks_of_both(light.name, spaces(width - light.name.len()));
    lemma_breaks_of_both(word, spaces(7 - word.len()));
    lemma_breaks_of_both(spaces(5 - bright.len()), bright);
    lemma_breaks_of_both(spaces(5 - warm.len()), warm);
    let a = left_aligned(light.name, width);
    let b = a + "  "@;
    let c = b + left_aligned(word, 7);
    let d = c + "  "@;
    let e = d + right_aligned(bright, 5);
    let f = e + "%  "@;
    let g = f + right_aligned(warm, 5);
    let h = g + "K  "@;
    let k = h + place_of(light, total);
    lemma_breaks_of_both(a, "  "@);
    lemma_breaks_of_both(b, left_aligned(word, 7));
    lemma_breaks_of_both(c, "  "@);
    lemma_breaks_of_both(d, right_aligned(bright, 5));
    lemma_breaks_of_both(e, "%  "@);
    lemma_breaks_of_both(f, right_aligned(warm, 5));
    lemma_breaks_of_both(g, "K  "@);
    lemma_breaks_of_both(h, place_of(light, total));
    lemma_breaks_of_both(k, "\n"@);
    assert("\n"@.drop_last() =~= seq![]);
    assert(breaks("\n"@.drop_last()) == 0);
    assert(breaks("\n"@) == 1);
}

proof fn lemma_heading_is_one_line(width: int)
    ensures
        breaks(heading(width)) == 1,
{
    reveal_strlit("NAME");
    reveal_strlit("STATE");
    reveal_strlit("BRIGHT");
    reveal_strlit("TEMP");
    reveal_strlit("ADDRESS");
    reveal_strlit("  ");
    reveal_strlit("\n");
    lemma_spaces_are_unbroken(width - "NAME"@.len());
    let a = left_aligned("NAME"@, width);
    let rest = "  "@ + left_aligned("STATE"@, 7) + "  "@ + right_aligned("BRIGHT"@, 6) + "  "@
        + right_aligned("TEMP"@, 6) + "  "@ + "ADDRESS"@;
    lemma_unbroken(a);
    lemma_unbroken(rest);
    lemma_breaks_of_both(a, rest);
    lemma_breaks_of_both(a + rest, "\n"@);
    assert("\n"@.drop_last() =~= seq![]);
    assert(breaks("\n"@.drop_last()) == 0);
    assert(breaks("\n"@) == 1);
    assert(heading(width) =~= a + rest + "\n"@);
}

proof fn lemma_rows_are_one_line_each(lights: Seq<InfoView>, width: int, total: int)
    requires
        forall|i: int|
            0 <= i < lights.len() ==> !(#[trigger] lights[i]).name.contains('\n')
                && !lights[i].address.contains('\n'),
    ensures
        breaks(rows(lights, width, total)) == lights.len(),
    decreases lights.len(),
{
    if lights.len() > 0 {
        let before = lights.drop_last();
        assert forall|i: int| 0 <= i < before.len() implies !(
        #[trigger] before[i]).name.contains('\n') && !before[i].address.contains('\n') by {
            assert(before[i] == lights[i]);
        }
        lemma_rows_are_one_line_each(before, width, total);
        lemma_row_is_one_line(lights.last(), width, total);
        lemma_breaks_of_both(rows(before, width, total), row(lights.last(), width, total));
    }
}

/// The table has one line per light plus a heading, however many lines a
/// transport error ran to: as long as no name and no address is broken, nothing
/// can forge or swallow a row.
pub proof fn law_the_table_has_one_row_per_light(lights: Seq<InfoView>)
    requires
        lights.len() > 0,
        forall|i: int|
            0 <= i < lights.len() ==> !(#[trigger] lights[i]).name.contains('\n')
                && !lights[i].address.contains('\n'),
    ensures
        breaks(table_text(lights)) == lights.len() + 1,
        table_text(lights).last() == '\n',
{
    let width = name_width(lights) as int;
    let total = lights.len() as int;
    lemma_heading_is_one_line(width);
    lemma_rows_are_one_line_each(lights, width, total);
    lemma_breaks_of_both(heading(width), rows(lights, width, total));
    reveal_strlit("\n");
    assert(rows(lights, width, total).last() == row(lights.last(), width, total).last());
}

/// The panel's style is always one of the four it is styled for, and it shows a
/// percentage only when the lights are on.
pub proof fn law_the_panel_style_is_one_of_four(group: Option<InfoView>)
    ensures
        ({
            let class = badge(group).1;
            class == "on"@ || class == "off"@ || class == "offline"@ || class == "empty"@
        }),
        badge(group).1 == "empty"@ <==> group is None,
        badge(group).1 == "offline"@ <==> (group matches Some(g) && g.online_count == 0),
        badge(group).1 == "on"@ <==> (group matches Some(g) && g.online_count > 0 && g.on),
        badge(group).1 != "on"@ ==> badge(group).2 == 0,
{
    reveal_strlit("on");
    reveal_strlit("off");
    reveal_strlit("offline");
    reveal_strlit("empty");
    assert("on"@.len() == 2);
    assert("off"@.len() == 3);
    assert("offline"@.len() == 7);
    assert("empty"@.len() == 5);
}

proof fn lemma_summary_is_unbroken(light: InfoView, separator: Seq<char>)
    requires
        !light.name.contains('\n'),
        !separator.contains('\n'),
    ensures
        breaks(summary(light, separator)) == 0,
{
    reveal_strlit("offline");
    reveal_strlit(" ");
    reveal_strlit("% ");
    reveal_strlit("K");
    lemma_unbroken(light.name);
    lemma_unbroken(separator);
    let head = light.name + separator;
    lemma_breaks_of_both(light.name, separator);
    if light.online {
        let bright = decimal(light.brightness as int);
        let warm = decimal(light.kelvin as int);
        lemma_state_word_is_unbroken(light);
        lemma_numeral_is_unbroken(light.brightness as int);
        lemma_numeral_is_unbroken(light.kelvin as int);
        lemma_unbroken(" "@);
        lemma_unbroken("% "@);
        lemma_unbroken("K"@);
        let a = head + light.state_word();
        let b = a + " "@;
        let c = b + bright;
        let d = c + "% "@;
        let e = d + warm;
        lemma_breaks_of_both(head, light.state_word());
        lemma_breaks_of_both(a, " "@);
        lemma_breaks_of_both(b, bright);
        lemma_breaks_of_both(c, "% "@);
        lemma_breaks_of_both(d, warm);
        lemma_breaks_of_both(e, "K"@);
    } else {
        lemma_unbroken("offline"@);
        lemma_breaks_of_both(head, "offline"@);
    }
}

proof fn lemma_summaries_are_unbroken(lights: Seq<InfoView>, separator: Seq<char>)
    requires
        forall|i: int| 0 <= i < lights.len() ==> !(#[trigger] lights[i]).name.contains('\n'),
        !separator.contains('\n'),
    ensures
        forall|i: int|
            0 <= i < summaries(lights, separator).len() ==> breaks(
                #[trigger] summaries(lights, separator)[i],
            ) == 0,
    decreases lights.len(),
{
    if lights.len() > 0 {
        let before = lights.drop_last();
        assert forall|i: int| 0 <= i < before.len() implies !(
        #[trigger] before[i]).name.contains('\n') by {
            assert(before[i] == lights[i]);
        }
        lemma_summaries_are_unbroken(before, separator);
        lemma_summary_is_unbroken(lights.last(), separator);
        let earlier = summaries(before, separator);
        assert forall|i: int| 0 <= i < summaries(lights, separator).len() implies breaks(
            #[trigger] summaries(lights, separator)[i],
        ) == 0 by {
            if i < earlier.len() {
                assert(summaries(lights, separator)[i] == earlier[i]);
            }
        }
    }
}

proof fn lemma_joined_is_unbroken(parts: Seq<Seq<char>>, separator: Seq<char>)
    requires
        forall|i: int| 0 <= i < parts.len() ==> breaks(#[trigger] parts[i]) == 0,
        breaks(separator) == 0,
    ensures
        breaks(joined(parts, separator)) == 0,
    decreases parts.len(),
{
    if parts.len() > 1 {
        let before = parts.drop_last();
        lemma_joined_is_unbroken(before, separator);
        lemma_breaks_of_both(joined(before, separator), separator);
        lemma_breaks_of_both(joined(before, separator) + separator, parts.last());
    }
}

/// The line for a terminal is a single line as long as no name is broken.
pub proof fn law_the_watch_line_is_one_line(lights: Seq<InfoView>)
    requires
        forall|i: int| 0 <= i < lights.len() ==> !(#[trigger] lights[i]).name.contains('\n'),
    ensures
        !line_text(lights).contains('\n'),
{
    reveal_strlit(" ");
    reveal_strlit("  |  ");
    reveal_strlit("no lights");
    lemma_unbroken("  |  "@);
    lemma_unbroken("no lights"@);
    lemma_summaries_are_unbroken(lights, " "@);
    lemma_joined_is_unbroken(summaries(lights, " "@), "  |  "@);
    lemma_unbroken(line_text(lights));
}

// ---------------------------------------------------------------------------
// What can be read off what is shown
// ---------------------------------------------------------------------------

/// The member of an object that goes by a name.
pub open spec fn member(tree: JsonView, name: Seq<char>) -> JsonView {
    tree->Object_0[name]
}

/// The text that a member holds.
pub open spec fn text_in(tree: JsonView, name: Seq<char>) -> Seq<char> {
    member(tree, name)->Text_0
}

/// Whether a member holds true.
pub open spec fn holds_true(tree: JsonView, name: Seq<char>) -> bool {
    member(tree, name) == JsonView::Bool(true)
}

/// The number that a member holds.
pub open spec fn number_in(tree: JsonView, name: Seq<char>) -> int {
    member(tree, name)->Number_0
}

/// The gang that a listing shows for a light.
pub open spec fn gang_read(tree: JsonView) -> Option<ClientGang> {
    if tree is Null {
        None
    } else {
        Some(
            ClientGang {
                mode: text_in(tree, "mode"@),
                reference: text_in(tree, "reference"@),
                members: member(tree, "members"@)->List_0.map_values(
                    |entry: JsonView| (text_in(entry, "id"@), number_in(entry, "offset"@) as i32),
                ),
            },
        )
    }
}

/// The light that an entry of a listing shows. Its path and the group's count are
/// not part of a listing.
pub open spec fn light_read(tree: JsonView) -> InfoView {
    InfoView {
        path: seq![],
        id: text_in(tree, "id"@),
        name: text_in(tree, "name"@),
        model: text_in(tree, "model"@),
        firmware: text_in(tree, "firmware"@),
        address: text_in(tree, "address"@),
        online: holds_true(tree, "online"@),
        online_count: 0,
        on: holds_true(tree, "on"@),
        brightness: number_in(tree, "brightness"@) as u8,
        kelvin: number_in(tree, "kelvin"@) as u16,
        last_error: text_in(tree, "lastError"@),
        gang: gang_read(member(tree, "gang"@)),
    }
}

/// The names of a listing's members are all different.
proof fn lemma_member_names()
    ensures
        seq![
            "id"@,
            "name"@,
            "model"@,
            "firmware"@,
            "address"@,
            "online"@,
            "on"@,
            "brightness"@,
            "kelvin"@,
            "group"@,
            "lastError"@,
            "gang"@,
        ].no_duplicates(),
        seq!["mode"@, "reference"@, "offset"@, "members"@, "id"@].no_duplicates(),
        seq!["text"@, "class"@, "percentage"@, "tooltip"@].no_duplicates(),
{
    reveal_strlit("id");
    reveal_strlit("name");
    reveal_strlit("model");
    reveal_strlit("firmware");
    reveal_strlit("address");
    reveal_strlit("online");
    reveal_strlit("on");
    reveal_strlit("brightness");
    reveal_strlit("kelvin");
    reveal_strlit("group");
    reveal_strlit("lastError");
    reveal_strlit("gang");
    reveal_strlit("mode");
    reveal_strlit("reference");
    reveal_strlit("offset");
    reveal_strlit("members");
    reveal_strlit("text");
    reveal_strlit("class");
    reveal_strlit("percentage");
    reveal_strlit("tooltip");
    assert("id"@.len() == 2 && "on"@.len() == 2 && "name"@.len() == 4 && "gang"@.len() == 4);
    assert("mode"@.len() == 4 && "model"@.len() == 5 && "group"@.len() == 5);
    assert("online"@.len() == 6 && "kelvin"@.len() == 6 && "offset"@.len() == 6);
    assert("address"@.len() == 7 && "members"@.len() == 7 && "firmware"@.len() == 8);
    assert("lastError"@.len() == 9 && "reference"@.len() == 9 && "brightness"@.len() == 10);
    assert("id"@[0] == 'i' && "on"@[0] == 'o');
    assert("name"@[0] == 'n' && "gang"@[0] == 'g' && "mode"@[0] == 'm');
    assert("model"@[0] == 'm' && "group"@[0] == 'g');
    assert("online"@[0] == 'o' && "kelvin"@[0] == 'k');
    assert("text"@.len() == 4 && "class"@.len() == 5 && "percentage"@.len() == 10
        && "tooltip"@.len() == 7);
}

proof fn lemma_gang_reads_back(gang: Option<ClientGang>, id: Seq<char>)
    ensures
        gang_read(gang_tree(gang, id)) == gang,
        gang matches Some(g) ==> number_in(gang_tree(gang, id), "offset"@) == listed_offset(
            g.members,
            id,
        ),
{
    lemma_member_names();
    let names = seq!["mode"@, "reference"@, "offset"@, "members"@, "id"@];
    assert(names[0] != names[1] && names[0] != names[2] && names[0] != names[3]);
    assert(names[1] != names[2] && names[1] != names[3] && names[2] != names[3]);
    assert(names[2] != names[4]);
    if let Some(shown) = gang {
        let tree = gang_tree(gang, id);
        let entries = shown.members.map_values(|entry: (Seq<char>, i32)| member_tree(entry));
        assert(member(tree, "members"@)->List_0 == entries);
        let back = gang_read(tree)->0;
        assert forall|k: int| 0 <= k < shown.members.len() implies #[trigger] back.members[k]
            == shown.members[k] by {
            assert(entries[k] == member_tree(shown.members[k]));
        }
        assert(back.members =~= shown.members);
        assert(back =~= shown);
    }
}

/// The JSON listing can be read back: it has one entry for each light, in order,
/// and from each entry every field of its light that is shown comes back — power
/// and reachability each for itself — along with its gang, its own difference in
/// the gang, and whether it is the group.
pub proof fn law_the_listing_reads_back(lights: Seq<InfoView>, i: int)
    requires
        0 <= i < lights.len(),
    ensures
        world_tree(lights) matches JsonView::List(entries) && {
            &&& entries.len() == lights.len()
            &&& light_read(entries[i]) == (InfoView { path: seq![], online_count: 0, ..lights[i] })
            &&& holds_true(entries[i], "on"@) <==> lights[i].on
            &&& holds_true(entries[i], "online"@) <==> lights[i].online
            &&& holds_true(entries[i], "group"@) <==> lights[i].id.len() == 0
            &&& number_in(entries[i], "brightness"@) == lights[i].brightness
            &&& number_in(entries[i], "kelvin"@) == lights[i].kelvin
            &&& lights[i].gang matches Some(gang) ==> number_in(
                member(entries[i], "gang"@),
                "offset"@,
            ) == listed_offset(gang.members, lights[i].id)
        },
{
    let light = lights[i];
    let tree = light_tree(light);
    lemma_member_names();
    let names = seq![
        "id"@,
        "name"@,
        "model"@,
        "firmware"@,
        "address"@,
        "online"@,
        "on"@,
        "brightness"@,
        "kelvin"@,
        "group"@,
        "lastError"@,
        "gang"@,
    ];
    assert forall|a: int, b: int| 0 <= a < 12 && 0 <= b < 12 && a != b implies names[a]
        != names[b] by {}
    assert(names[0] == "id"@ && names[1] == "name"@ && names[2] == "model"@ && names[3]
        == "firmware"@);
    assert(names[4] == "address"@ && names[5] == "online"@ && names[6] == "on"@ && names[7]
        == "brightness"@);
    assert(names[8] == "kelvin"@ && names[9] == "group"@ && names[10] == "lastError"@
        && names[11] == "gang"@);
    assert(member(tree, names[0]) == JsonView::Text(light.id));
    assert(member(tree, names[1]) == JsonView::Text(light.name));
    assert(member(tree, names[2]) == JsonView::Text(light.model));
    assert(member(tree, names[3]) == JsonView::Text(light.firmware));
    assert(member(tree, names[4]) == JsonView::Text(light.address));
    assert(member(tree, names[5]) == JsonView::Bool(light.online));
    assert(member(tree, names[6]) == JsonView::Bool(light.on));
    assert(member(tree, names[7]) == JsonView::Number(light.brightness as int));
    assert(member(tree, names[8]) == JsonView::Number(light.kelvin as int));
    assert(member(tree, names[9]) == JsonView::Bool(light.is_group()));
    assert(member(tree, names[10]) == JsonView::Text(light.last_error));
    assert(member(tree, names[11]) == gang_tree(light.gang, light.id));
    lemma_gang_reads_back(light.gang, light.id);
    assert(light_read(tree) =~= (InfoView { path: seq![], online_count: 0, ..light }));
}

/// What the panel shows of the group: nothing to show without one, offline while
/// no light can be reached, off while it is off, and otherwise its brightness both
/// as text and as a number.
pub proof fn law_the_panel_shows_the_group(lights: Seq<InfoView>)
    ensures
        ({
            let tree = waybar_tree(lights);
            let group = group_of(lights);
            let text = text_in(tree, "text"@);
            let class = text_in(tree, "class"@);
            let percentage = number_in(tree, "percentage"@);
            &&& group is None ==> text == "no lights"@ && class == "empty"@ && percentage == 0
            &&& group matches Some(g) ==> {
                &&& g.online_count == 0 ==> text == "offline"@ && class == "offline"@ && percentage
                    == 0
                &&& g.online_count > 0 && !g.on ==> text == "off"@ && class == "off"@ && percentage
                    == 0
                &&& g.online_count > 0 && g.on ==> text == decimal(g.brightness as int).push('%')
                    && class == "on"@ && percentage == g.brightness
            }
            &&& text_in(tree, "tooltip"@) == tooltip(lights)
        }),
{
    lemma_member_names();
    let names = seq!["text"@, "class"@, "percentage"@, "tooltip"@];
    assert(names[0] != names[1] && names[0] != names[2] && names[0] != names[3]);
    assert(names[1] != names[2] && names[1] != names[3] && names[2] != names[3]);
    reveal_strlit("%");
    if let Some(g) = group_of(lights) {
        assert(decimal(g.brightness as int) + "%"@ =~= decimal(g.brightness as int).push('%'));
    }
}

/// The group that is shown is the first light without an id, and there is none
/// exactly when every light has one.
pub proof fn law_the_group_is_the_light_without_an_id(lights: Seq<InfoView>, i: int)
    ensures
        group_of(lights) is None <==> forall|k: int|
            0 <= k < lights.len() ==> (#[trigger] lights[k]).id.len() > 0,
        0 <= i < lights.len() && lights[i].id.len() == 0 && (forall|k: int|
            0 <= k < i ==> (#[trigger] lights[k]).id.len() > 0) ==> group_of(lights) == Some(
            lights[i],
        ),
    decreases lights.len(),
{
    if lights.len() > 0 && !lights[0].is_group() {
        let rest = lights.drop_first();
        law_the_group_is_the_light_without_an_id(rest, i - 1);
        assert forall|k: int| 0 <= k < rest.len() implies #[trigger] rest[k] == lights[k + 1] by {}
        if group_of(rest) is None {
            assert forall|k: int| 0 <= k < lights.len() implies (
            #[trigger] lights[k]).id.len() > 0 by {
                if k > 0 {
                    assert(rest[k - 1] == lights[k]);
                }
            }
        } else if forall|k: int|
            0 <= k < lights.len() ==> (#[trigger] lights[k]).id.len() > 0 {
            assert forall|k: int| 0 <= k < rest.len() implies (#[trigger] rest[k]).id.len() > 0 by {
                assert(rest[k] == lights[k + 1]);
            }
        }
        if 0 <= i < lights.len() && lights[i].id.len() == 0 && (forall|k: int|
            0 <= k < i ==> (#[trigger] lights[k]).id.len() > 0) {
            assert(rest[i - 1] == lights[i]);
            assert forall|k: int| 0 <= k < i - 1 implies (#[trigger] rest[k]).id.len() > 0 by {
                assert(rest[k] == lights[k + 1]);
            }
        }
    } else if lights.len() > 0 {
        assert(lights[0].id.len() == 0);
    }
}

/// A light is summed up by its name and its state: offline and nothing more while
/// it cannot be reached, and otherwise whether it is on or off, how bright and how
/// warm.
pub proof fn law_a_summary_says_how_the_light_is(light: InfoView, separator: Seq<char>)
    ensures
        !light.online ==> summary(light, separator) == light.name + separator + "offline"@,
        light.online && light.on ==> summary(light, separator) == light.name + separator + "on "@
            + decimal(light.brightness as int) + "% "@ + decimal(light.kelvin as int) + "K"@,
        light.online && !light.on ==> summary(light, separator) == light.name + separator + "off "@
            + decimal(light.brightness as int) + "% "@ + decimal(light.kelvin as int) + "K"@,
{
    reveal_strlit("on");
    reveal_strlit("on ");
    reveal_strlit("off");
    reveal_strlit("off ");
    reveal_strlit(" ");
    assert("on "@ =~= "on"@ + " "@);
    assert("off "@ =~= "off"@ + " "@);
    if light.online {
        let rest = decimal(light.brightness as int) + "% "@ + decimal(light.kelvin as int) + "K"@;
        let word = if light.on {
            "on "@
        } else {
            "off "@
        };
        assert(summary(light, separator) =~= light.name + separator + word + decimal(
            light.brightness as int,
        ) + "% "@ + decimal(light.kelvin as int) + "K"@);
    }
}

/// Every light but the group is summed up, each once and in order.
pub proof fn law_every_light_is_summed_up_but_the_group(
    lights: Seq<InfoView>,
    light: InfoView,
    separator: Seq<char>,
)
    ensures
        summaries(seq![], separator).len() == 0,
        light.id.len() == 0 ==> summaries(lights.push(light), separator) == summaries(
            lights,
            separator,
        ),
        light.id.len() > 0 ==> summaries(lights.push(light), separator) == summaries(
            lights,
            separator,
        ).push(summary(light, separator)),
{
    assert(lights.push(light).drop_last() =~= lights);
}

/// The tooltip has a line for each light and the watch line a part for each, put
/// together by what separates them; without any light each says so.
pub proof fn law_summaries_are_put_together(lights: Seq<InfoView>, light: InfoView)
    requires
        light.id.len() > 0,
    ensures
        summaries(lights, ": "@).len() > 0 ==> tooltip(lights.push(light)) == tooltip(lights)
            + "\n"@ + summary(light, ": "@),
        summaries(lights, ": "@).len() == 0 ==> tooltip(lights.push(light)) == summary(
            light,
            ": "@,
        ) && tooltip(lights) == "no lights discovered"@,
        summaries(lights, " "@).len() > 0 ==> line_text(lights.push(light)) == line_text(lights)
            + "  |  "@ + summary(light, " "@),
        summaries(lights, " "@).len() == 0 ==> line_text(lights.push(light)) == summary(light, " "@)
            && line_text(lights) == "no lights"@,
{
    law_every_light_is_summed_up_but_the_group(lights, light, ": "@);
    law_every_light_is_summed_up_but_the_group(lights, light, " "@);
    let lines = summaries(lights, ": "@);
    let parts = summaries(lights, " "@);
    assert(lines.push(summary(light, ": "@)).drop_last() =~= lines);
    assert(parts.push(summary(light, " "@)).drop_last() =~= parts);
}

/// A light's state in a word.
pub proof fn law_a_state_in_a_word(light: InfoView)
    ensures
        !light.online ==> light.state_word() == "offline"@,
        light.online && light.on ==> light.state_word() == "on"@,
        light.online && !light.on ==> light.state_word() == "off"@,
{
}

/// The name column is as wide as the longest name, and no narrower than its
/// heading.
pub proof fn law_the_name_column_fits_every_name(lights: Seq<InfoView>, i: int)
    ensures
        name_width(lights) >= 4,
        0 <= i < lights.len() ==> byte_len(lights[i].name) <= name_width(lights),
        name_width(lights) == 4 || exists|k: int|
            0 <= k < lights.len() && byte_len((#[trigger] lights[k]).name) == name_width(lights),
    decreases lights.len(),
{
    if lights.len() > 0 {
        let short = lights.drop_last();
        law_the_name_column_fits_every_name(short, i);
        assert(lights[lights.len() - 1] == lights.last());
        if 0 <= i < short.len() {
            assert(short[i] == lights[i]);
        }
        if name_width(short) != 4 {
            let k = choose|k: int|
                0 <= k < short.len() && byte_len((#[trigger] short[k]).name) == name_width(short);
            assert(short[k] == lights[k]);
        }
    }
}

/// A row shows, in this order, the light's name, its state in a word, its
/// brightness, its temperature and where it is, each in its column.
pub proof fn law_a_row_shows_the_light(light: InfoView, width: int, count: int)
    ensures
        row(light, width, count) == joined(
            seq![
                left_aligned(light.name, width),
                left_aligned(
                    if !light.online {
                        "offline"@
                    } else if light.on {
                        "on"@
                    } else {
                        "off"@
                    },
                    7,
                ),
                right_aligned(decimal(light.brightness as int), 5) + "%"@,
                right_aligned(decimal(light.kelvin as int), 5) + "K"@,
                place_of(light, count) + "\n"@,
            ],
            "  "@,
        ),
{
    let cells = seq![
        left_aligned(light.name, width),
        left_aligned(
            if !light.online {
                "offline"@
            } else if light.on {
                "on"@
            } else {
                "off"@
            },
            7,
        ),
        right_aligned(decimal(light.brightness as int), 5) + "%"@,
        right_aligned(decimal(light.kelvin as int), 5) + "K"@,
        place_of(light, count) + "\n"@,
    ];
    reveal_with_fuel(joined, 6);
    assert(cells.drop_last() =~= cells.take(4));
    assert(cells.take(4).drop_last() =~= cells.take(3));
    assert(cells.take(3).drop_last() =~= cells.take(2));
    assert(cells.take(2).drop_last() =~= cells.take(1));
    reveal_strlit("%  ");
    reveal_strlit("%");
    reveal_strlit("K  ");
    reveal_strlit("K");
    reveal_strlit("  ");
    assert("%  "@ =~= "%"@ + "  "@);
    assert("K  "@ =~= "K"@ + "  "@);
    assert(row(light, width, count) =~= joined(cells, "  "@));
}

/// The table is its heading and a row for each light, in order; a light more is a
/// row more.
pub proof fn law_the_table_shows_every_light(
    lights: Seq<InfoView>,
    light: InfoView,
    width: int,
    count: int,
)
    ensures
        rows(lights.push(light), width, count) == rows(lights, width, count) + row(
            light,
            width,
            count,
        ),
        rows(seq![], width, count).len() == 0,
        lights.len() > 0 ==> table_text(lights) == heading(name_width(lights) as int) + rows(
            lights,
            name_width(lights) as int,
            lights.len() as int,
        ),
        table_text(seq![]) == "no lights found\n"@,
{
    assert(lights.push(light).drop_last() =~= lights);
}

/// Where a light is: the group says how many of the others can be reached, a light
/// gives its address, and the first line of its last failure behind it if there
/// was one.
pub proof fn law_a_light_says_where_it_is(light: InfoView, count: int)
    requires
        count > 0,
    ensures
        light.id.len() == 0 ==> place_of(light, count) == decimal(light.online_count as int)
            + " of "@ + decimal(count - 1) + " online"@,
        light.id.len() > 0 && light.last_error.len() == 0 ==> place_of(light, count)
            == light.address,
        light.id.len() > 0 && light.last_error.len() > 0 ==> place_of(light, count)
            == light.address + "  ("@ + first_line_of(light.last_error) + ")"@,
{
}

/// The first line of a text has no line break, and a text without one is its own
/// first line.
pub proof fn law_a_first_line_is_one_line(head: Seq<char>, rest: Seq<char>)
    requires
        !head.contains('\n'),
    ensures
        first_line_of(head) == head,
        !first_line_of(head.push('\n') + rest).contains('\n'),
        head.len() == 0 || head.last() != '\r' ==> first_line_of(head.push('\n') + rest) == head,
        first_line_of(head.push('\r').push('\n') + rest) == head,
{
    lemma_line_ends(head, rest);
    let carried = head.push('\r');
    assert(!carried.contains('\n')) by {
        if carried.contains('\n') {
            let k = choose|k: int| 0 <= k < carried.len() && carried[k] == '\n';
            assert(head[k] == '\n');
        }
    }
    lemma_line_ends(carried, rest);
    assert(carried.drop_last() =~= head);
    if head.len() > 0 {
        assert forall|k: int| 0 <= k < head.drop_last().len() implies head.drop_last()[k]
            != '\n' by {
            assert(head.contains(head[k]));
        }
    }
}

proof fn lemma_line_ends(head: Seq<char>, rest: Seq<char>)
    requires
        !head.contains('\n'),
    ensures
        ({
            let text = head.push('\n') + rest;
            &&& text.contains('\n')
            &&& text.index_of_first('\n') == Some(head.len() as int)
            &&& text.take(head.len() as int) == head
        }),
{
    let text = head.push('\n') + rest;
    assert(text[head.len() as int] == '\n');
    assert(text.take(head.len() as int) =~= head);
    assert forall|k: int| 0 <= k < head.len() implies text[k] != '\n' by {
        assert(head.contains(head[k]));
    }
    text.index_of_first_ensures('\n');
    let at = text.index_of_first('\n')->0;
    assert(at == head.len());
}

} // verus!
