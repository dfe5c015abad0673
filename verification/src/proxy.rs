//! The world as a client of the D-Bus API sees it.

use vstd::prelude::*;
use vstd::string::*;

use crate::dbus::{gang_rows, member_views};
use crate::strings::{is_before, precedes, same};

verus! {

broadcast use vstd::string::group_string_axioms;

/// Interface every light — and the group — implements.
pub const LIGHT_INTERFACE: &'static str = "io.mineiro.gaffer.Light1";

/// A gang as a client sees it.
#[derive(Debug)]
pub struct Gang {
    pub mode: String,
    /// The lamp whose values win when the gang is mirrored.
    pub reference: String,
    pub members: Vec<(String, i32)>,
}

/// A [`Gang`] as mathematics.
#[verifier::ext_equal]
pub struct ClientGang {
    pub mode: Seq<char>,
    pub reference: Seq<char>,
    pub members: Seq<(Seq<char>, i32)>,
}

impl View for Gang {
    type V = ClientGang;

    open spec fn view(&self) -> ClientGang {
        ClientGang {
            mode: self.mode@,
            reference: self.reference@,
            members: member_views(self.members@),
        }
    }
}

/// The offset listed for a member; zero for a lamp that is not listed.
pub open spec fn listed_offset(members: Seq<(Seq<char>, i32)>, id: Seq<char>) -> i32
    decreases members.len(),
{
    if members.len() == 0 {
        0
    } else if members[0].0 == id {
        members[0].1
    } else {
        listed_offset(members.drop_first(), id)
    }
}

impl Gang {
    /// This light's own offset from the gang's level.
    pub fn offset_of(&self, id: &str) -> (r: i32)
        ensures
            r == listed_offset(self@.members, id@),
    {
        let ghost all = member_views(self.members@);
        let mut i: usize = 0;
        assert(all.skip(0) =~= all);
        while i < self.members.len()
            invariant
                i <= self.members@.len(),
                all == member_views(self.members@),
                listed_offset(all, id@) == listed_offset(all.skip(i as int), id@),
            decreases self.members@.len() - i,
        {
            assert(all.skip(i as int)[0] == self.members@[i as int]@);
            if same(self.members[i].0.as_str(), id) {
                return self.members[i].1;
            }
            assert(all.skip(i as int).drop_first() =~= all.skip(i + 1));
            i += 1;
        }
        0
    }
}

fn copy_members(members: &Vec<(String, i32)>) -> (r: Vec<(String, i32)>)
    ensures
        member_views(r@) == member_views(members@),
{
    let mut out: Vec<(String, i32)> = Vec::new();
    let mut i: usize = 0;
    while i < members.len()
        invariant
            i <= members@.len(),
            out@.len() == i,
            forall|j: int| 0 <= j < i ==> (#[trigger] out@[j])@ == members@[j]@,
        decreases members@.len() - i,
    {
        out.push((members[i].0.clone(), members[i].1));
        i += 1;
    }
    assert(member_views(out@) =~= member_views(members@));
    out
}

impl Clone for Gang {
    fn clone(&self) -> (r: Self)
        ensures
            r@ == self@,
    {
        Gang {
            mode: self.mode.clone(),
            reference: self.reference.clone(),
            members: copy_members(&self.members),
        }
    }
}

/// A snapshot of one light as the daemon sees it.
#[derive(Debug)]
pub struct LightInfo {
    /// D-Bus object path, used to subscribe to this light's property changes.
    pub path: String,
    pub id: String,
    pub name: String,
    pub model: String,
    pub firmware: String,
    pub address: String,
    pub online: bool,
    pub online_count: u32,
    pub on: bool,
    pub brightness: u8,
    pub kelvin: u16,
    pub last_error: String,
    /// The gang this light belongs to, if any: mode plus every member's
    /// brightness offset from the gang's level.
    pub gang: Option<Gang>,
}

/// A [`LightInfo`] as mathematics.
#[verifier::ext_equal]
pub struct InfoView {
    pub path: Seq<char>,
    pub id: Seq<char>,
    pub name: Seq<char>,
    pub model: Seq<char>,
    pub firmware: Seq<char>,
    pub address: Seq<char>,
    pub online: bool,
    pub online_count: u32,
    pub on: bool,
    pub brightness: u8,
    pub kelvin: u16,
    pub last_error: Seq<char>,
    pub gang: Option<ClientGang>,
}

impl View for LightInfo {
    type V = InfoView;

    open spec fn view(&self) -> InfoView {
        InfoView {
            path: self.path@,
            id: self.id@,
            name: self.name@,
            model: self.model@,
            firmware: self.firmware@,
            address: self.address@,
            online: self.online,
            online_count: self.online_count,
            on: self.on,
            brightness: self.brightness,
            kelvin: self.kelvin,
            last_error: self.last_error@,
            gang: match self.gang {
                Some(gang) => Some(gang@),
                None => None,
            },
        }
    }
}

/// Several lights as mathematics.
pub open spec fn info_views(lights: Seq<LightInfo>) -> Seq<InfoView> {
    lights.map_values(|light: LightInfo| light@)
}

impl InfoView {
    /// A light of which nothing is known.
    pub open spec fn blank() -> InfoView {
        InfoView {
            path: seq![],
            id: seq![],
            name: seq![],
            model: seq![],
            firmware: seq![],
            address: seq![],
            online: false,
            online_count: 0,
            on: false,
            brightness: 0,
            kelvin: 0,
            last_error: seq![],
            gang: None,
        }
    }

    /// The group object has no hardware id; that is what distinguishes it.
    pub open spec fn is_group(self) -> bool {
        self.id.len() == 0
    }

    /// One-word summary for display.
    pub open spec fn state_word(self) -> Seq<char> {
        if !self.online {
            "offline"@
        } else if self.on {
            "on"@
        } else {
            "off"@
        }
    }
}

impl Clone for LightInfo {
    fn clone(&self) -> (r: Self)
        ensures
            r@ == self@,
    {
        LightInfo {
            path: self.path.clone(),
            id: self.id.clone(),
            name: self.name.clone(),
            model: self.model.clone(),
            firmware: self.firmware.clone(),
            address: self.address.clone(),
            online: self.online,
            online_count: self.online_count,
            on: self.on,
            brightness: self.brightness,
            kelvin: self.kelvin,
            last_error: self.last_error.clone(),
            gang: match &self.gang {
                Some(gang) => Some(gang.clone()),
                None => None,
            },
        }
    }
}

impl Default for LightInfo {
    fn default() -> (r: Self)
        ensures
            r@ == InfoView::blank(),
    {
        let r = LightInfo {
            path: String::new(),
            id: String::new(),
            name: String::new(),
            model: String::new(),
            firmware: String::new(),
            address: String::new(),
            online: false,
            online_count: 0,
            on: false,
            brightness: 0,
            kelvin: 0,
            last_error: String::new(),
            gang: None,
        };
        assert(r@ =~= InfoView::blank());
        r
    }
}

impl LightInfo {
    /// The group object has no hardware id; that is what distinguishes it.
    pub fn is_group(&self) -> (r: bool)
        ensures
            r == self@.is_group(),
    {
        self.id.as_str().unicode_len() == 0
    }

    /// One-word summary for display.
    pub fn state_word(&self) -> (r: &'static str)
        ensures
            r@ == self@.state_word(),
    {
        if !self.online {
            "offline"
        } else if self.on {
            "on"
        } else {
            "off"
        }
    }
}

/// The properties of a light object, each as far as it was there and of its own
/// type.
#[derive(Debug)]
pub struct Properties {
    pub id: Option<String>,
    pub name: Option<String>,
    pub model: Option<String>,
    pub firmware: Option<String>,
    pub address: Option<String>,
    pub online: Option<bool>,
    pub online_count: Option<u32>,
    pub on: Option<bool>,
    pub brightness: Option<u8>,
    pub kelvin: Option<u16>,
    pub last_error: Option<String>,
}

/// A text, or the empty one in its place.
pub open spec fn or_blank(text: Option<String>) -> Seq<char> {
    match text {
        Some(text) => text@,
        None => seq![],
    }
}

fn string(value: Option<String>) -> (r: String)
    ensures
        r@ == or_blank(value),
{
    match value {
        Some(text) => text,
        None => {
            let r = String::new();
            assert(r@ =~= seq![]);
            r
        },
    }
}

fn boolean(value: Option<bool>) -> (r: bool)
    ensures
        r == (value == Some(true)),
{
    match value {
        Some(flag) => flag,
        None => false,
    }
}

impl Properties {
    /// The light that properties at a path describe: whatever is missing reads
    /// as empty, false or zero.
    pub open spec fn described(self, path: Seq<char>) -> InfoView {
        InfoView {
            path,
            id: or_blank(self.id),
            name: or_blank(self.name),
            model: or_blank(self.model),
            firmware: or_blank(self.firmware),
            address: or_blank(self.address),
            online: self.online == Some(true),
            online_count: match self.online_count {
                Some(count) => count,
                None => 0,
            },
            on: self.on == Some(true),
            brightness: match self.brightness {
                Some(brightness) => brightness,
                None => 0,
            },
            kelvin: match self.kelvin {
                Some(kelvin) => kelvin,
                None => 0,
            },
            last_error: or_blank(self.last_error),
            gang: None,
        }
    }
}

/// Read a light off its properties.
pub fn from_properties(path: &str, properties: Properties) -> (r: LightInfo)
    ensures
        r@ == properties.described(path@),
{
    LightInfo {
        path: path.to_owned(),
        id: string(properties.id),
        name: string(properties.name),
        model: string(properties.model),
        firmware: string(properties.firmware),
        address: string(properties.address),
        online: boolean(properties.online),
        online_count: match properties.online_count {
            Some(count) => count,
            None => 0,
        },
        on: boolean(properties.on),
        brightness: match properties.brightness {
            Some(brightness) => brightness,
            None => 0,
        },
        kelvin: match properties.kelvin {
            Some(kelvin) => kelvin,
            None => 0,
        },
        last_error: string(properties.last_error),
        // Filled in by `arrange` once the gangs have been fetched.
        gang: None,
    }
}

// ---------------------------------------------------------------------------
// Joining and arranging
// ---------------------------------------------------------------------------

/// Whether a lamp is among the listed members.
pub open spec fn listed(members: Seq<(Seq<char>, i32)>, id: Seq<char>) -> bool {
    exists|i: int| 0 <= i < members.len() && (#[trigger] members[i]).0 == id
}

/// The gang a lamp is in, out of the manager's list: the first that lists it. By
/// contract the first member is the gang's reference.
pub open spec fn gang_for(
    rows: Seq<(Seq<char>, Seq<(Seq<char>, i32)>)>,
    id: Seq<char>,
) -> Option<ClientGang>
    decreases rows.len(),
{
    if rows.len() == 0 {
        None
    } else if listed(rows[0].1, id) {
        Some(
            ClientGang {
                mode: rows[0].0,
                reference: if rows[0].1.len() == 0 {
                    seq![]
                } else {
                    rows[0].1[0].0
                },
                members: rows[0].1,
            },
        )
    } else {
        gang_for(rows.drop_first(), id)
    }
}

/// Whether one light is shown before another: group last, then alphabetical.
pub open spec fn shown_before(a: InfoView, b: InfoView) -> bool {
    if a.is_group() != b.is_group() {
        b.is_group()
    } else {
        precedes(a.name, b.name)
    }
}

/// A light put in its place among lights that already are, behind those it ties
/// with.
pub open spec fn inserted(lights: Seq<InfoView>, light: InfoView) -> Seq<InfoView>
    decreases lights.len(),
{
    if lights.len() > 0 && shown_before(light, lights.last()) {
        inserted(lights.drop_last(), light).push(lights.last())
    } else {
        lights.push(light)
    }
}

/// Lights in the order they are shown. Lights that tie keep the order they had.
pub open spec fn arranged(lights: Seq<InfoView>) -> Seq<InfoView>
    decreases lights.len(),
{
    if lights.len() == 0 {
        seq![]
    } else {
        inserted(arranged(lights.drop_last()), lights.last())
    }
}

/// Each light with its gang.
pub open spec fn stitched(
    lights: Seq<InfoView>,
    rows: Seq<(Seq<char>, Seq<(Seq<char>, i32)>)>,
) -> Seq<InfoView> {
    lights.map_values(|light: InfoView| InfoView { gang: gang_for(rows, light.id), ..light })
}

fn is_listed(members: &Vec<(String, i32)>, id: &str) -> (r: bool)
    ensures
        r == listed(member_views(members@), id@),
{
    let ghost all = member_views(members@);
    let mut i: usize = 0;
    while i < members.len()
        invariant
            i <= members@.len(),
            all == member_views(members@),
            forall|j: int| 0 <= j < i ==> (#[trigger] all[j]).0 != id@,
        decreases members@.len() - i,
    {
        assert(all[i as int] == members@[i as int]@);
        if same(members[i].0.as_str(), id) {
            return true;
        }
        i += 1;
    }
    false
}

fn find_gang(rows: &Vec<(String, Vec<(String, i32)>)>, id: &str) -> (r: Option<Gang>)
    ensures
        match r {
            Some(gang) => gang_for(gang_rows(rows@), id@) == Some(gang@),
            None => gang_for(gang_rows(rows@), id@) is None,
        },
{
    let ghost all = gang_rows(rows@);
    let mut i: usize = 0;
    assert(all.skip(0) =~= all);
    while i < rows.len()
        invariant
            i <= rows@.len(),
            all == gang_rows(rows@),
            gang_for(all, id@) == gang_for(all.skip(i as int), id@),
        decreases rows@.len() - i,
    {
        let ghost row = all.skip(i as int)[0];
        assert(row == (rows@[i as int].0@, member_views(rows@[i as int].1@)));
        if is_listed(&rows[i].1, id) {
            let members = copy_members(&rows[i].1);
            let reference = if members.len() == 0 {
                string(None)
            } else {
                members[0].0.clone()
            };
            assert(member_views(members@).len() == members@.len());
            assert(members@.len() > 0 ==> member_views(members@)[0] == members@[0]@);
            return Some(Gang { mode: rows[i].0.clone(), reference, members });
        }
        assert(all.skip(i as int).drop_first() =~= all.skip(i + 1));
        i += 1;
    }
    None
}

/// Give each light its gang and put the lights in the order they are shown.
///
/// Gangs live on the manager, not on each light, so they are stitched in here —
/// otherwise every consumer would have to do the join itself. The individual
/// lights are what you scan for, and the summary reads better as a footer.
pub fn arrange(lights: Vec<LightInfo>, gangs: &Vec<(String, Vec<(String, i32)>)>) -> (r: Vec<
    LightInfo,
>)
    ensures
        info_views(r@) == arranged(stitched(info_views(lights@), gang_rows(gangs@))),
{
    let ghost goal = stitched(info_views(lights@), gang_rows(gangs@));
    let ghost given = info_views(lights@);
    let mut rest = lights;
    let mut out: Vec<LightInfo> = Vec::new();
    assert(info_views(out@) =~= arranged(goal.take(0)));
    assert(given.skip(0) =~= given);
    while rest.len() > 0
        invariant
            rest@.len() + out@.len() == given.len(),
            goal == stitched(given, gang_rows(gangs@)),
            info_views(rest@) == given.skip(out@.len() as int),
            info_views(out@) == arranged(goal.take(out@.len() as int)),
        decreases rest@.len(),
    {
        let ghost before = rest@;
        let ghost n = out@.len() as int;
        let mut light = rest.remove(0);
        proof {
            assert(info_views(before)[0] == light@);
            assert(light@ == given[n]);
            assert forall|j: int| 0 <= j < rest@.len() implies info_views(rest@)[j] == given.skip(
                n + 1,
            )[j] by {
                assert(rest@[j] == before[j + 1]);
                assert(info_views(before)[j + 1] == given.skip(n)[j + 1]);
            }
            assert(info_views(rest@) =~= given.skip(n + 1));
        }
        light.gang = find_gang(gangs, light.id.as_str());
        assert(light@ =~= goal[n]);
        place(&mut out, light);
        proof {
            assert(goal.take(n + 1).drop_last() =~= goal.take(n));
            assert(goal.take(n + 1).last() == goal[n]);
        }
    }
    assert(goal.take(out@.len() as int) =~= goal);
    out
}

/// Put a light in its place among lights that already are.
fn place(lights: &mut Vec<LightInfo>, light: LightInfo)
    ensures
        info_views(final(lights)@) == inserted(info_views(old(lights)@), light@),
        final(lights)@.len() == old(lights)@.len() + 1,
{
    let ghost all = info_views(lights@);
    let mut at: usize = lights.len();
    assert(all.take(at as int) =~= all);
    assert(inserted(all, light@) =~= inserted(all.take(at as int), light@) + all.skip(at as int));
    while at > 0 && goes_before(&light, &lights[at - 1])
        invariant
            at <= lights@.len(),
            all == info_views(lights@),
            inserted(all, light@) == inserted(all.take(at as int), light@) + all.skip(at as int),
        decreases at,
    {
        proof {
            let head = all.take(at as int);
            assert(head.last() == lights@[at - 1]@);
            assert(head.drop_last() =~= all.take(at - 1));
            assert(inserted(head, light@) == inserted(all.take(at - 1), light@).push(head.last()));
            assert(inserted(all.take(at - 1), light@).push(head.last()) + all.skip(at as int)
                =~= inserted(all.take(at - 1), light@) + all.skip(at - 1));
        }
        at -= 1;
    }
    proof {
        let head = all.take(at as int);
        if at > 0 {
            assert(head.last() == lights@[at - 1]@);
        }
        assert(inserted(head, light@) == head.push(light@));
    }
    let ghost before = lights@;
    lights.insert(at, light);
    assert(info_views(lights@) =~= all.take(at as int).push(light@) + all.skip(at as int));
}

fn goes_before(a: &LightInfo, b: &LightInfo) -> (r: bool)
    ensures
        r == shown_before(a@, b@),
{
    let last_a = a.is_group();
    let last_b = b.is_group();
    if last_a != last_b {
        last_b
    } else {
        is_before(a.name.as_str(), b.name.as_str())
    }
}

/// Arranging shows every light once: nothing is lost, nothing is made up.
pub proof fn law_arranging_loses_nothing(lights: Seq<InfoView>)
    ensures
        arranged(lights).to_multiset() == lights.to_multiset(),
        arranged(lights).len() == lights.len(),
    decreases lights.len(),
{
    broadcast use vstd::seq_lib::group_to_multiset_ensures;

    if lights.len() == 0 {
        assert(arranged(lights) =~= lights);
    } else {
        law_arranging_loses_nothing(lights.drop_last());
        lemma_inserted(arranged(lights.drop_last()), lights.last());
        assert(lights =~= lights.drop_last().push(lights.last()));
        assert(arranged(lights).to_multiset() =~= lights.to_multiset());
    }
}

proof fn lemma_inserted(lights: Seq<InfoView>, light: InfoView)
    ensures
        inserted(lights, light).to_multiset() == lights.to_multiset().insert(light),
        inserted(lights, light).len() == lights.len() + 1,
    decreases lights.len(),
{
    broadcast use vstd::seq_lib::group_to_multiset_ensures;

    if lights.len() > 0 && shown_before(light, lights.last()) {
        lemma_inserted(lights.drop_last(), light);
        assert(lights =~= lights.drop_last().push(lights.last()));
        assert(inserted(lights, light).to_multiset() =~= lights.to_multiset().insert(light));
    }
}

/// Whether no light is shown before one that belongs in front of it.
pub open spec fn in_show_order(lights: Seq<InfoView>) -> bool {
    forall|i: int, j: int|
        0 <= i < j < lights.len() ==> !shown_before(#[trigger] lights[j], #[trigger] lights[i])
}

/// Lights are shown group last, then alphabetically.
pub proof fn law_lights_are_shown_in_order(lights: Seq<InfoView>)
    ensures
        in_show_order(arranged(lights)),
    decreases lights.len(),
{
    if lights.len() > 0 {
        law_lights_are_shown_in_order(lights.drop_last());
        lemma_inserted_in_order(arranged(lights.drop_last()), lights.last());
    }
}

proof fn lemma_shown_transitive(a: InfoView, b: InfoView, c: InfoView)
    requires
        shown_before(a, b),
        !shown_before(c, b),
    ensures
        shown_before(a, c),
{
    if a.is_group() == b.is_group() && b.is_group() == c.is_group() {
        crate::strings::lemma_precedes_total(b.name, c.name);
        if b.name != c.name {
            crate::strings::lemma_precedes_transitive(a.name, b.name, c.name);
        }
    }
}

proof fn lemma_shown_asymmetric(a: InfoView, b: InfoView)
    requires
        shown_before(a, b),
    ensures
        !shown_before(b, a),
{
    if a.is_group() == b.is_group() && precedes(b.name, a.name) {
        crate::strings::lemma_precedes_transitive(a.name, b.name, a.name);
        crate::strings::lemma_precedes_irreflexive(a.name);
    }
}

proof fn lemma_inserted_in_order(lights: Seq<InfoView>, light: InfoView)
    requires
        in_show_order(lights),
    ensures
        in_show_order(inserted(lights, light)),
        forall|i: int|
            0 <= i < inserted(lights, light).len() ==> #[trigger] inserted(lights, light)[i]
                == light || lights.contains(inserted(lights, light)[i]),
    decreases lights.len(),
{
    let after = inserted(lights, light);
    if lights.len() > 0 && shown_before(light, lights.last()) {
        let short = lights.drop_last();
        let last = lights.last();
        assert forall|i: int, j: int| 0 <= i < j < short.len() implies !shown_before(
            #[trigger] short[j],
            #[trigger] short[i],
        ) by {
            assert(short[i] == lights[i] && short[j] == lights[j]);
        }
        lemma_inserted_in_order(short, light);
        let before = inserted(short, light);
        assert(after == before.push(last));
        assert forall|i: int| 0 <= i < after.len() implies #[trigger] after[i] == light
            || lights.contains(after[i]) by {
            if i < before.len() && before[i] != light {
                let k = choose|k: int| 0 <= k < short.len() && short[k] == before[i];
                assert(lights[k] == after[i]);
            } else if i == before.len() {
                assert(lights[lights.len() - 1] == last);
            }
        }
        assert forall|i: int, j: int| 0 <= i < j < after.len() implies !shown_before(
            #[trigger] after[j],
            #[trigger] after[i],
        ) by {
            if j == before.len() {
                if before[i] == light {
                    lemma_shown_asymmetric(light, last);
                } else {
                    assert(short.contains(before[i]));
                    let k = choose|k: int| 0 <= k < short.len() && short[k] == before[i];
                    assert(!shown_before(lights[lights.len() - 1], lights[k]));
                }
            } else {
                assert(!shown_before(before[j], before[i]));
            }
        }
    } else {
        assert forall|i: int| 0 <= i < after.len() implies #[trigger] after[i] == light
            || lights.contains(after[i]) by {
            if i < lights.len() {
                assert(lights[i] == after[i]);
            }
        }
        assert forall|i: int, j: int| 0 <= i < j < after.len() implies !shown_before(
            #[trigger] after[j],
            #[trigger] after[i],
        ) by {
            if j == lights.len() {
                if shown_before(light, lights[i]) {
                    if i < lights.len() - 1 {
                        assert(!shown_before(lights[lights.len() - 1], lights[i]));
                        lemma_shown_transitive(light, lights[i], lights.last());
                    }
                }
            } else {
                assert(!shown_before(lights[j], lights[i]));
            }
        }
    }
}

/// Every property a light gives is shown as it is, each under its own name, and
/// what it does not give is blank. A light read this way is in no gang yet.
pub proof fn law_properties_are_shown_as_they_are(properties: Properties, path: Seq<char>)
    ensures
        ({
            let light = properties.described(path);
            &&& light.path == path
            &&& properties.id matches Some(text) ==> light.id == text@
            &&& properties.name matches Some(text) ==> light.name == text@
            &&& properties.model matches Some(text) ==> light.model == text@
            &&& properties.firmware matches Some(text) ==> light.firmware == text@
            &&& properties.address matches Some(text) ==> light.address == text@
            &&& properties.last_error matches Some(text) ==> light.last_error == text@
            &&& properties.online matches Some(value) ==> light.online == value
            &&& properties.on matches Some(value) ==> light.on == value
            &&& properties.online_count matches Some(value) ==> light.online_count == value
            &&& properties.brightness matches Some(value) ==> light.brightness == value
            &&& properties.kelvin matches Some(value) ==> light.kelvin == value
            &&& properties.id is None ==> light.id.len() == 0
            &&& properties.name is None ==> light.name.len() == 0
            &&& properties.model is None ==> light.model.len() == 0
            &&& properties.firmware is None ==> light.firmware.len() == 0
            &&& properties.address is None ==> light.address.len() == 0
            &&& properties.last_error is None ==> light.last_error.len() == 0
            &&& properties.online is None ==> !light.online
            &&& properties.on is None ==> !light.on
            &&& properties.online_count is None ==> light.online_count == 0
            &&& properties.brightness is None ==> light.brightness == 0
            &&& properties.kelvin is None ==> light.kelvin == 0
            &&& light.gang is None
        }),
{
}

/// A light's gang is the first that lists it, as it is listed and led by whoever it
/// lists first; a light that none lists is in none.
pub proof fn law_a_lights_gang_is_the_first_that_lists_it(
    rows: Seq<(Seq<char>, Seq<(Seq<char>, i32)>)>,
    id: Seq<char>,
    i: int,
)
    ensures
        gang_for(rows, id) is None <==> forall|k: int|
            0 <= k < rows.len() ==> !listed((#[trigger] rows[k]).1, id),
        0 <= i < rows.len() && listed(rows[i].1, id) && (forall|k: int|
            0 <= k < i ==> !listed((#[trigger] rows[k]).1, id)) ==> gang_for(rows, id) == Some(
            ClientGang { mode: rows[i].0, reference: rows[i].1[0].0, members: rows[i].1 },
        ),
    decreases rows.len(),
{
    if rows.len() > 0 && !listed(rows[0].1, id) {
        let rest = rows.drop_first();
        law_a_lights_gang_is_the_first_that_lists_it(rest, id, i - 1);
        assert forall|k: int| 0 <= k < rest.len() implies #[trigger] rest[k] == rows[k + 1] by {}
        if gang_for(rest, id) is None {
            assert forall|k: int| 0 <= k < rows.len() implies !listed(
                (#[trigger] rows[k]).1,
                id,
            ) by {
                if k > 0 {
                    assert(rest[k - 1] == rows[k]);
                }
            }
        } else if forall|k: int| 0 <= k < rows.len() ==> !listed((#[trigger] rows[k]).1, id) {
            assert forall|k: int| 0 <= k < rest.len() implies !listed(
                (#[trigger] rest[k]).1,
                id,
            ) by {
                assert(rest[k] == rows[k + 1]);
            }
        }
        if 0 <= i < rows.len() && listed(rows[i].1, id) && (forall|k: int|
            0 <= k < i ==> !listed((#[trigger] rows[k]).1, id)) {
            assert(rest[i - 1] == rows[i]);
            assert forall|k: int| 0 <= k < i - 1 implies !listed((#[trigger] rest[k]).1, id) by {
                assert(rest[k] == rows[k + 1]);
            }
        }
    }
}

/// A light's difference in a gang is the one listed for it first, and none for a
/// light that is not listed.
pub proof fn law_a_difference_is_the_one_listed(
    members: Seq<(Seq<char>, i32)>,
    id: Seq<char>,
    i: int,
)
    ensures
        0 <= i < members.len() && members[i].0 == id && (forall|k: int|
            0 <= k < i ==> (#[trigger] members[k]).0 != id) ==> listed_offset(members, id)
            == members[i].1,
        (forall|k: int| 0 <= k < members.len() ==> (#[trigger] members[k]).0 != id)
            ==> listed_offset(members, id) == 0,
    decreases members.len(),
{
    if members.len() > 0 && members[0].0 != id {
        let rest = members.drop_first();
        law_a_difference_is_the_one_listed(rest, id, i - 1);
        if 0 <= i < members.len() && members[i].0 == id && (forall|k: int|
            0 <= k < i ==> (#[trigger] members[k]).0 != id) {
            assert(rest[i - 1] == members[i]);
            assert forall|k: int| 0 <= k < i - 1 implies (#[trigger] rest[k]).0 != id by {
                assert(rest[k] == members[k + 1]);
            }
        }
        if forall|k: int| 0 <= k < members.len() ==> (#[trigger] members[k]).0 != id {
            assert forall|k: int| 0 <= k < rest.len() implies (#[trigger] rest[k]).0 != id by {
                assert(rest[k] == members[k + 1]);
            }
        }
    }
}

/// Telling lights their gangs changes nothing else about them.
pub proof fn law_a_light_told_its_gang_is_the_same_light(
    lights: Seq<InfoView>,
    rows: Seq<(Seq<char>, Seq<(Seq<char>, i32)>)>,
    i: int,
)
    requires
        0 <= i < lights.len(),
    ensures
        stitched(lights, rows).len() == lights.len(),
        stitched(lights, rows)[i].gang == gang_for(rows, lights[i].id),
        (InfoView { gang: lights[i].gang, ..stitched(lights, rows)[i] }) == lights[i],
{
    assert((InfoView { gang: lights[i].gang, ..stitched(lights, rows)[i] }) =~= lights[i]);
}

/// The group is shown behind every light, and the lights by name.
pub proof fn law_the_group_is_shown_last(lights: Seq<InfoView>, i: int, j: int)
    requires
        0 <= i < j < arranged(lights).len(),
    ensures
        arranged(lights)[i].id.len() == 0 ==> arranged(lights)[j].id.len() == 0,
        (arranged(lights)[i].id.len() == 0) == (arranged(lights)[j].id.len() == 0) ==> !precedes(
            arranged(lights)[j].name,
            arranged(lights)[i].name,
        ),
{
    law_lights_are_shown_in_order(lights);
    assert(!shown_before(arranged(lights)[j], arranged(lights)[i]));
}

/// A light of which nothing was read is shown as nothing: unreachable, off, without
/// a name, and in no gang.
pub proof fn law_nothing_read_is_nothing_shown()
    ensures
        ({
            let blank = InfoView::blank();
            &&& !blank.online && !blank.on
            &&& blank.brightness == 0 && blank.kelvin == 0 && blank.online_count == 0
            &&& blank.path.len() == 0 && blank.id.len() == 0 && blank.name.len() == 0
            &&& blank.model.len() == 0 && blank.firmware.len() == 0 && blank.address.len() == 0
            &&& blank.last_error.len() == 0
            &&& blank.gang is None
        }),
{
}

} // verus!
