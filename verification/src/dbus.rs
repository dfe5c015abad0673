//! The D-Bus surface: gaffer's only client API.
//!
//! ```text
//! io.mineiro.gaffer                       bus name
//!  /io/mineiro/gaffer                     Manager1 + org.freedesktop.DBus.ObjectManager
//!    ├── /lights/00005E005301             Light1
//!    ├── /lights/00005E005302             Light1
//!    └── /lights/all                      Light1  (the group, as a light)
//! ```
//!
//! **The group implements the same interface as a light.** Clients need no
//! special case to control every light at once.
//!
//! What each method and property does to the world is decided here; the objects
//! on the bus hold the lock, call in, and hand the resulting [`Request`]s to the
//! supervisor.

use vstd::prelude::*;
use vstd::string::*;

use crate::color::{MAX_KELVIN, MIN_KELVIN};
use crate::link::{LinkMode, LinkView};
use crate::names::{in_order, lemma_listed, NameSet};
use crate::proxy::{gang_for, law_a_difference_is_the_one_listed,
    law_a_lights_gang_is_the_first_that_lists_it, listed, listed_offset, ClientGang};
use crate::record::{Changed, LightId, RecordView};
use crate::selector::{Choice, Selector};
use crate::state::{unreported, valid_brightness, Adjust, LightState, Power, StatePatch,
    MAX_BRIGHTNESS};
use crate::strings::{borrowed, chars_of, control, decimal, is_control,
    law_a_text_occurs_where_it_stands, numeral, occurs_in, push_decimal, push_numeral, same,
    string_of, texts, trim, trimmed};
use crate::text::{canonical, normalize_id};
use crate::units::{parse_patch, patch_of, Fault, ParseError};
use crate::world::{all_unlinked, announced, existing, gang_index, lemma_all_existing, lemma_filed,
    online_ids, touched, Aim, GroupSnapshot, Target, World, WorldView};

verus! {

broadcast use vstd::string::group_string_axioms;

/// The well-known bus name gaffer owns.
pub const BUS_NAME: &'static str = "io.mineiro.gaffer";

/// Root object, carrying the manager and the object manager.
pub const ROOT_PATH: &'static str = "/io/mineiro/gaffer";

/// The "all lights" pseudo-device.
pub const GROUP_PATH: &'static str = "/io/mineiro/gaffer/lights/all";

/// Longest scene name accepted. Generous for anything a person would type,
/// and short enough that a client cannot quietly grow the config file.
pub const MAX_SCENE_NAME: usize = 64;

// ---------------------------------------------------------------------------
// Requests
// ---------------------------------------------------------------------------

/// Work the supervisor must do on the caller's behalf.
#[derive(Debug)]
pub enum Request {
    /// A client changed desired state. The world has already been mutated
    /// optimistically; the supervisor owes the network push *and* the
    /// `PropertiesChanged` signals describing what moved.
    ///
    /// Emission is deliberately not done by the interface that made the change.
    /// Keeping one writer of the object server means there is a single place
    /// where a change can fail to be announced.
    Applied {
        changes: Vec<(LightId, Changed)>,
        group_before: GroupSnapshot,
        group_after: GroupSnapshot,
    },
    /// Re-read every light's state now.
    RefreshAll,
    /// Re-probe the network now.
    Rescan,
    /// Physically blink these lights.
    Identify(Vec<LightId>),
    /// Gangs changed: persist them and emit Manager1.Links.
    ///
    /// Carries no light ids, because ganging moves no lamp by itself. When a
    /// mode change *does* move lamps, those travel as an ordinary `Applied`.
    LinksChanged,
    /// The set of saved scenes changed: persist it and emit Manager1.Scenes.
    ///
    /// Saving or deleting a scene moves no lamp. *Applying* one does, and that
    /// travels as an ordinary `Applied` plus a `LinksChanged` — applying a
    /// scene does not change which scenes exist.
    ScenesChanged,
}

/// A [`Request`] as mathematics.
pub enum RequestView {
    Applied {
        changes: Seq<(Seq<char>, Changed)>,
        group_before: GroupSnapshot,
        group_after: GroupSnapshot,
    },
    RefreshAll,
    Rescan,
    Identify(Seq<Seq<char>>),
    LinksChanged,
    ScenesChanged,
}

impl View for Request {
    type V = RequestView;

    open spec fn view(&self) -> RequestView {
        match self {
            Request::Applied { changes, group_before, group_after } => RequestView::Applied {
                changes: touched(changes@),
                group_before: *group_before,
                group_after: *group_after,
            },
            Request::RefreshAll => RequestView::RefreshAll,
            Request::Rescan => RequestView::Rescan,
            Request::Identify(ids) => RequestView::Identify(texts(ids@)),
            Request::LinksChanged => RequestView::LinksChanged,
            Request::ScenesChanged => RequestView::ScenesChanged,
        }
    }
}

impl Clone for Request {
    fn clone(&self) -> (r: Self)
        ensures
            r@ == self@,
    {
        match self {
            Request::Applied { changes, group_before, group_after } => Request::Applied {
                changes: copy_changes(changes),
                group_before: *group_before,
                group_after: *group_after,
            },
            Request::RefreshAll => Request::RefreshAll,
            Request::Rescan => Request::Rescan,
            Request::Identify(ids) => Request::Identify(copy_all(ids.as_slice())),
            Request::LinksChanged => Request::LinksChanged,
            Request::ScenesChanged => Request::ScenesChanged,
        }
    }
}

fn copy_changes(changes: &Vec<(LightId, Changed)>) -> (r: Vec<(LightId, Changed)>)
    ensures
        touched(r@) == touched(changes@),
{
    let mut out: Vec<(LightId, Changed)> = Vec::new();
    let mut i: usize = 0;
    while i < changes.len()
        invariant
            i <= changes@.len(),
            out@.len() == i,
            forall|j: int| 0 <= j < i ==> (#[trigger] out@[j])@ == changes@[j]@,
        decreases changes@.len() - i,
    {
        out.push((changes[i].0.clone(), changes[i].1));
        i += 1;
    }
    assert(touched(out@) =~= touched(changes@));
    out
}

/// Several requests as mathematics.
pub open spec fn request_views(requests: Seq<Request>) -> Seq<RequestView> {
    requests.map_values(|request: Request| request@)
}

/// What the supervisor is told of a mutation: what moved and how the group
/// looked on either side of it — or nothing, when nothing moved.
pub open spec fn told(
    changes: Seq<(Seq<char>, Changed)>,
    before: WorldView,
    after: WorldView,
) -> Seq<RequestView> {
    let group_before = GroupSnapshot::taken(before);
    let group_after = GroupSnapshot::taken(after);
    if changes.len() == 0 && GroupSnapshot::difference(group_before, group_after)
        == Changed::nothing() {
        seq![]
    } else {
        seq![RequestView::Applied { changes, group_before, group_after }]
    }
}

/// Hand a completed mutation to the supervisor to push and announce.
fn announce(
    changes: Vec<(LightId, Changed)>,
    group_before: GroupSnapshot,
    group_after: GroupSnapshot,
) -> (r: Vec<Request>)
    ensures
        request_views(r@) == if changes@.len() == 0 && GroupSnapshot::difference(
            group_before,
            group_after,
        ) == Changed::nothing() {
            seq![]
        } else {
            seq![RequestView::Applied { changes: touched(changes@), group_before, group_after }]
        },
{
    let mut out: Vec<Request> = Vec::new();
    let ghost moved = touched(changes@);
    if changes.len() == 0 && !GroupSnapshot::diff(group_before, group_after).any() {
        // Nothing moved; nothing to push or announce.
        assert(request_views(out@) =~= seq![]);
        return out;
    }
    out.push(Request::Applied { changes, group_before, group_after });
    assert(request_views(out@) =~= seq![
        RequestView::Applied { changes: moved, group_before, group_after },
    ]);
    out
}

/// Mutate the world and capture the group's before/after state in one go.
///
/// The group aggregate is derived from every member, so it has to be sampled
/// either side of the mutation.
pub fn apply_and_snapshot(world: &mut World, target: &Target, patch: &StatePatch, now: u64) -> (r:
    Vec<Request>)
    ensures
        ({
            let effect = old(world)@.effect(target@, *patch);
            &&& final(world)@ == old(world)@.drive(effect, now)
            &&& request_views(r@) == told(
                announced(old(world)@.lights, effect),
                old(world)@,
                final(world)@,
            )
        }),
{
    let group_before = GroupSnapshot::of(world);
    let changes = world.apply(target, patch, now);
    let group_after = GroupSnapshot::of(world);
    assert(touched(changes@).len() == changes@.len());
    announce(changes, group_before, group_after)
}

/// One request on its own.
fn only(request: Request) -> (r: Vec<Request>)
    ensures
        request_views(r@) == seq![request@],
{
    let mut out: Vec<Request> = Vec::new();
    out.push(request);
    assert(request_views(out@) =~= seq![request@]);
    out
}

/// Requests with one more behind them.
fn and_also(first: Vec<Request>, last: Request) -> (r: Vec<Request>)
    ensures
        request_views(r@) == request_views(first@).push(last@),
{
    let mut out = first;
    out.push(last);
    assert(request_views(out@) =~= request_views(first@).push(last@));
    out
}

// ---------------------------------------------------------------------------
// Refusals
// ---------------------------------------------------------------------------

/// Why a call is refused as badly argued.
#[derive(Debug)]
pub enum Refusal {
    /// A value token could not be understood.
    Value(ParseError),
    NoValues,
    SceneUnnamed,
    SceneNameTooLong,
    SceneNameControl(char),
    /// Fewer than two lights matched these selectors.
    TooFewLights { selectors: Vec<String>, count: usize },
    UnknownMode(String),
    NoMatch(String),
    NotGanged(String),
    NoScene(String),
    GroupHasNoGang,
}

/// A [`Refusal`] as mathematics.
pub enum RefusalView {
    Value(Fault),
    NoValues,
    SceneUnnamed,
    SceneNameTooLong,
    SceneNameControl(char),
    TooFewLights { selectors: Seq<Seq<char>>, count: int },
    UnknownMode(Seq<char>),
    NoMatch(Seq<char>),
    NotGanged(Seq<char>),
    NoScene(Seq<char>),
    GroupHasNoGang,
}

impl View for Refusal {
    type V = RefusalView;

    open spec fn view(&self) -> RefusalView {
        match self {
            Refusal::Value(error) => RefusalView::Value(error@),
            Refusal::NoValues => RefusalView::NoValues,
            Refusal::SceneUnnamed => RefusalView::SceneUnnamed,
            Refusal::SceneNameTooLong => RefusalView::SceneNameTooLong,
            Refusal::SceneNameControl(c) => RefusalView::SceneNameControl(*c),
            Refusal::TooFewLights { selectors, count } => RefusalView::TooFewLights {
                selectors: texts(selectors@),
                count: *count as int,
            },
            Refusal::UnknownMode(mode) => RefusalView::UnknownMode(mode@),
            Refusal::NoMatch(selector) => RefusalView::NoMatch(selector@),
            Refusal::NotGanged(selector) => RefusalView::NotGanged(selector@),
            Refusal::NoScene(name) => RefusalView::NoScene(name@),
            Refusal::GroupHasNoGang => RefusalView::GroupHasNoGang,
        }
    }
}

/// How a list of strings is written for a person to read back, each quoted.
pub uninterp spec fn debug_text(strings: Seq<Seq<char>>) -> Seq<char>;

/// `format!` of a `Vec<String>` with `{:?}` depends on the strings alone; its
/// text is called [`debug_text`].
#[verifier::external_body]
fn debug_list(strings: &Vec<String>) -> (r: String)
    ensures
        r@ == debug_text(texts(strings@)),
{
    format!("{:?}", strings)
}

/// A number in hexadecimal, upper case, filled up with zeros to four digits.
pub open spec fn four_hex(value: int) -> Seq<char> {
    let text = numeral(value, 16, true);
    Seq::new(
        if text.len() < 4 {
            (4 - text.len()) as nat
        } else {
            0
        },
        |i: int| '0',
    ) + text
}

impl RefusalView {
    /// The sentence that tells a person what is wrong.
    pub open spec fn sentence(self) -> Seq<char> {
        match self {
            RefusalView::Value(fault) => fault.sentence(),
            RefusalView::NoValues => "no values given"@,
            RefusalView::SceneUnnamed => "a scene needs a name"@,
            RefusalView::SceneNameTooLong => "scene names are limited to "@ + decimal(
                MAX_SCENE_NAME as int,
            ) + " characters"@,
            RefusalView::SceneNameControl(c) =>
                "scene names cannot contain control characters (found U+"@ + four_hex(c as int)
                + ")"@,
            RefusalView::TooFewLights { selectors, count } => debug_text(selectors) + " matched "@
                + decimal(count) + " light(s); a gang needs at least two"@,
            RefusalView::UnknownMode(mode) => "unknown link mode `"@ + mode
                + "`; expected `offset` or `mirror`"@,
            RefusalView::NoMatch(selector) => "`"@ + selector + "` matched no light"@,
            RefusalView::NotGanged(selector) => "`"@ + selector + "` is not in a gang"@,
            RefusalView::NoScene(name) => "no scene named `"@ + name + "`"@,
            RefusalView::GroupHasNoGang => "the group has no gang of its own to re-learn"@,
        }
    }
}

fn push_four_hex(out: &mut String, value: u32)
    ensures
        final(out)@ == old(out)@ + four_hex(value as int),
{
    let mut digits = String::new();
    push_numeral(&mut digits, value as u64, 16, true);
    let ghost text = numeral(value as int, 16, true);
    assert(digits@ =~= text);
    let mut missing: usize = digits.as_str().unicode_len();
    let ghost zeros = four_hex(value as int).take(four_hex(value as int).len() - text.len());
    assert(out@ =~= old(out)@ + zeros.take(0));
    let mut written: usize = 0;
    while missing < 4
        invariant
            missing == text.len() + written,
            text.len() <= 4 ==> missing <= 4,
            written <= zeros.len(),
            zeros.len() == if text.len() < 4 {
                4 - text.len()
            } else {
                0
            },
            forall|i: int| 0 <= i < zeros.len() ==> zeros[i] == '0',
            out@ == old(out)@ + zeros.take(written as int),
        decreases 4 - missing,
    {
        out.push('0');
        missing += 1;
        written += 1;
        assert(out@ =~= old(out)@ + zeros.take(written as int));
    }
    out.append(digits.as_str());
    assert(out@ =~= old(out)@ + four_hex(value as int));
}

/// What is said when too few lights matched, given the selectors as they are
/// written for a person to read back.
pub fn too_few_lights(selectors: &str, count: usize) -> (r: String)
    ensures
        r@ == selectors@ + " matched "@ + decimal(count as int)
            + " light(s); a gang needs at least two"@,
{
    let mut out = selectors.to_owned();
    out.append(" matched ");
    push_numeral(&mut out, count as u64, 10, false);
    out.append(" light(s); a gang needs at least two");
    assert(out@ =~= selectors@ + " matched "@ + decimal(count as int)
        + " light(s); a gang needs at least two"@);
    out
}

impl Refusal {
    /// The sentence that tells a person what is wrong.
    pub fn message(&self) -> (r: String)
        ensures
            r@ == self@.sentence(),
    {
        let mut out = String::new();
        match self {
            Refusal::Value(error) => {
                return error.message();
            },
            Refusal::NoValues => {
                out.append("no values given");
            },
            Refusal::SceneUnnamed => {
                out.append("a scene needs a name");
            },
            Refusal::SceneNameTooLong => {
                out.append("scene names are limited to ");
                push_decimal(&mut out, MAX_SCENE_NAME as i64);
                out.append(" characters");
            },
            Refusal::SceneNameControl(c) => {
                out.append("scene names cannot contain control characters (found U+");
                push_four_hex(&mut out, *c as u32);
                out.append(")");
            },
            Refusal::TooFewLights { selectors, count } => {
                return too_few_lights(debug_list(selectors).as_str(), *count);
            },
            Refusal::UnknownMode(mode) => {
                out.append("unknown link mode `");
                out.append(mode.as_str());
                out.append("`; expected `offset` or `mirror`");
            },
            Refusal::NoMatch(selector) => {
                out.append("`");
                out.append(selector.as_str());
                out.append("` matched no light");
            },
            Refusal::NotGanged(selector) => {
                out.append("`");
                out.append(selector.as_str());
                out.append("` is not in a gang");
            },
            Refusal::NoScene(name) => {
                out.append("no scene named `");
                out.append(name.as_str());
                out.append("`");
            },
            Refusal::GroupHasNoGang => {
                out.append("the group has no gang of its own to re-learn");
            },
        }
        assert(out@ =~= self@.sentence());
        out
    }
}

// ---------------------------------------------------------------------------
// Names and paths
// ---------------------------------------------------------------------------

/// Object path for a light, derived from its hardware id.
pub open spec fn path_of(id: Seq<char>) -> Seq<char> {
    ROOT_PATH@ + "/lights/"@ + canonical(id)
}

/// Object path for a light, derived from its hardware id.
pub fn light_path(id: &str) -> (r: String)
    ensures
        r@ == path_of(id@),
{
    let mut out = String::new();
    out.append(ROOT_PATH);
    out.append("/lights/");
    if let Some(element) = normalize_id(id) {
        out.append(element.as_str());
    }
    assert(out@ =~= path_of(id@));
    out
}

/// What a scene name is taken as, or why it is refused.
pub open spec fn named_scene(raw: Seq<char>) -> Result<Seq<char>, RefusalView> {
    let name = trimmed(raw);
    if name.len() == 0 {
        Err(RefusalView::SceneUnnamed)
    } else if name.len() > MAX_SCENE_NAME {
        Err(RefusalView::SceneNameTooLong)
    } else {
        match first_control(name) {
            Some(bad) => Err(RefusalView::SceneNameControl(bad)),
            None => Ok(name),
        }
    }
}

/// The first control character of a text.
pub open spec fn first_control(text: Seq<char>) -> Option<char>
    decreases text.len(),
{
    if text.len() == 0 {
        None
    } else if control(text[0]) {
        Some(text[0])
    } else {
        first_control(text.drop_first())
    }
}

/// Validate and normalise a scene name at the one place names enter gaffer.
///
/// Control characters are refused rather than escaped at each display site.
/// Scene names are echoed back by every client that lists them, including
/// terminal ones, and a name carrying an ANSI escape would let whoever set it
/// rewrite that output. Sanitising on the way out means every future client has
/// to remember to; refusing on the way in means none of them do.
///
/// Deliberately *rejects* where [`crate::text`] cleans. Names arriving from
/// mDNS are attacker-supplied with nobody to complain to, so they are stripped
/// and kept. A scene name was typed by the user, who can be told — and silently
/// storing something other than what they typed is its own bug.
pub fn scene_name(raw: &str) -> (r: Result<String, Refusal>)
    ensures
        match r {
            Ok(name) => named_scene(raw@) == Ok::<Seq<char>, RefusalView>(name@),
            Err(refusal) => named_scene(raw@) == Err::<Seq<char>, RefusalView>(refusal@),
        },
{
    let all = chars_of(raw);
    let name = trim(all.as_slice());
    if name.len() == 0 {
        return Err(Refusal::SceneUnnamed);
    }
    if name.len() > MAX_SCENE_NAME {
        return Err(Refusal::SceneNameTooLong);
    }
    let mut i: usize = 0;
    assert(name@.skip(0) =~= name@);
    while i < name.len()
        invariant
            i <= name@.len(),
            name@ == trimmed(raw@),
            0 < name@.len() <= MAX_SCENE_NAME,
            first_control(name@) == first_control(name@.skip(i as int)),
        decreases name@.len() - i,
    {
        if is_control(name[i]) {
            return Err(Refusal::SceneNameControl(name[i]));
        }
        assert(name@.skip(i as int).drop_first() =~= name@.skip(i + 1));
        i += 1;
    }
    Ok(string_of(name.as_slice()))
}

// ---------------------------------------------------------------------------
// Selecting
// ---------------------------------------------------------------------------

/// A list with the names that are not on it yet put behind it, in order.
pub open spec fn merged(list: Seq<Seq<char>>, names: Seq<Seq<char>>) -> Seq<Seq<char>>
    decreases names.len(),
{
    if names.len() == 0 {
        list
    } else {
        let before = merged(list, names.drop_last());
        if before.contains(names.last()) {
            before
        } else {
            before.push(names.last())
        }
    }
}

/// The ids of the lights that one selector, as typed, matches, in the order the
/// lights are filed.
pub open spec fn matches_of(world: WorldView, selector: Seq<char>) -> Seq<Seq<char>> {
    world.selected(Choice::typed(selector))
}

/// The lights that several selectors match, in the order the caller named them.
pub open spec fn matched(world: WorldView, selectors: Seq<Seq<char>>) -> Seq<Seq<char>>
    decreases selectors.len(),
{
    if selectors.len() == 0 {
        seq![]
    } else {
        merged(matched(world, selectors.drop_last()), matches_of(world, selectors.last()))
    }
}

fn holds(list: &Vec<String>, name: &str) -> (r: bool)
    ensures
        r == texts(list@).contains(name@),
{
    let mut i: usize = 0;
    while i < list.len()
        invariant
            i <= list@.len(),
            forall|j: int| 0 <= j < i ==> (#[trigger] list@[j])@ != name@,
        decreases list@.len() - i,
    {
        if same(list[i].as_str(), name) {
            assert(texts(list@)[i as int] == name@);
            return true;
        }
        i += 1;
    }
    assert forall|j: int| 0 <= j < texts(list@).len() implies texts(list@)[j] != name@ by {
        assert(list@[j]@ != name@);
    }
    false
}

/// Ids matched by these selectors, in the order the caller named them.
///
/// Union, so both `link left right` and `link key` work, and deduplicated
/// because two selectors may overlap.
///
/// **Order is the contract.** The first lamp is the gang's reference — `link a
/// b` reads "link b onto a" — and it is what a later `SetLinkMode(mirror)`
/// snaps everything else onto. [`World::link`] preserves the order it is given,
/// so this is the only place the intent can be lost.
pub fn matched_in_order(world: &World, selectors: &[String]) -> (r: Vec<String>)
    ensures
        texts(r@) == matched(world@, texts(selectors@)),
        world@.lights.dom().finite(),
{
    let ghost all = texts(selectors@);
    let mut out: Vec<String> = Vec::new();
    if world.is_empty() {
        proof {
            lemma_nothing_matches(world@, all);
            assert(texts(out@) =~= Seq::empty());
        }
        return out;
    }
    let mut i: usize = 0;
    assert(all.take(0) =~= Seq::empty());
    assert(texts(out@) =~= Seq::empty());
    while i < selectors.len()
        invariant
            i <= selectors@.len(),
            all == texts(selectors@),
            world@.lights.dom().finite(),
            texts(out@) == matched(world@, all.take(i as int)),
        decreases selectors@.len() - i,
    {
        proof {
            assert(all.take(i + 1).drop_last() =~= all.take(i as int));
            assert(all.take(i + 1).last() == selectors@[i as int]@);
        }
        let found = world.select(&Selector::parse(selectors[i].as_str()));
        let ghost before = texts(out@);
        let ghost names = texts(found@);
        let mut k: usize = 0;
        assert(names.take(0) =~= Seq::empty());
        while k < found.len()
            invariant
                k <= found@.len(),
                names == texts(found@),
                texts(out@) == merged(before, names.take(k as int)),
            decreases found@.len() - k,
        {
            proof {
                assert(names.take(k + 1).drop_last() =~= names.take(k as int));
                assert(names.take(k + 1).last() == found@[k as int]@);
            }
            if !holds(&out, found[k].as_str()) {
                let ghost shorter = out@;
                out.push(found[k].clone());
                assert(texts(out@) =~= texts(shorter).push(found@[k as int]@));
            }
            k += 1;
        }
        assert(names.take(k as int) =~= names);
        i += 1;
    }
    assert(all.take(i as int) =~= all);
    out
}

proof fn lemma_nothing_matches(world: WorldView, selectors: Seq<Seq<char>>)
    requires
        world.lights.dom().finite(),
        world.lights.dom().len() == 0,
    ensures
        matched(world, selectors) == Seq::<Seq<char>>::empty(),
{
    let all = matched(world, selectors);
    assert(world.lights.dom() =~= Set::empty());
    lemma_matched_exist(world, selectors);
    if all.len() > 0 {
        assert(all.contains(all[0]));
    }
    assert(all =~= Seq::empty());
}

/// What a client that asks for a gang's level is told.
pub open spec fn level_reply(world: WorldView, selector: Seq<char>) -> Result<i32, RefusalView> {
    let found = matches_of(world, selector);
    if found.len() == 0 {
        Err(RefusalView::NoMatch(selector))
    } else {
        match world.level(found[0]) {
            Some(level) => Ok(level),
            None => Err(RefusalView::NotGanged(selector)),
        }
    }
}

/// The light that a command on one gang is aimed at: the first that the selector
/// matches, which has to be in a gang.
pub open spec fn ganged_match(world: WorldView, selector: Seq<char>) -> Result<
    Seq<char>,
    RefusalView,
> {
    let found = matches_of(world, selector);
    if found.len() == 0 {
        Err(RefusalView::NoMatch(selector))
    } else if world.gang(found[0]) is None {
        Err(RefusalView::NotGanged(selector))
    } else {
        Ok(found[0])
    }
}

fn find_ganged(world: &World, selector: &str) -> (r: Result<String, Refusal>)
    ensures
        match r {
            Ok(id) => ganged_match(world@, selector@) == Ok::<Seq<char>, RefusalView>(id@),
            Err(refusal) => ganged_match(world@, selector@) == Err::<Seq<char>, RefusalView>(
                refusal@,
            ),
        },
{
    let found = world.select(&Selector::parse(selector));
    assert(texts(found@).len() == found@.len());
    if found.len() == 0 {
        return Err(Refusal::NoMatch(selector.to_owned()));
    }
    assert(texts(found@)[0] == found@[0]@);
    let id = found[0].clone();
    if world.link_of(id.as_str()).is_none() {
        return Err(Refusal::NotGanged(selector.to_owned()));
    }
    Ok(id)
}

/// The patch that value tokens ask for; a command has to name some value.
pub open spec fn asked_patch(tokens: Seq<Seq<char>>) -> Result<StatePatch, RefusalView> {
    match patch_of(tokens) {
        Err(fault) => Err(RefusalView::Value(fault)),
        Ok(patch) => if patch == StatePatch::nothing() {
            Err(RefusalView::NoValues)
        } else {
            Ok(patch)
        },
    }
}

fn read_patch(tokens: &[String]) -> (r: Result<StatePatch, Refusal>)
    ensures
        match r {
            Ok(patch) => asked_patch(texts(tokens@)) == Ok::<StatePatch, RefusalView>(patch),
            Err(refusal) => asked_patch(texts(tokens@)) == Err::<StatePatch, RefusalView>(
                refusal@,
            ),
        },
{
    let words = borrowed(tokens);
    match parse_patch(words.as_slice()) {
        Err(error) => Err(Refusal::Value(error)),
        Ok(patch) => if patch.is_empty() {
            Err(Refusal::NoValues)
        } else {
            Ok(patch)
        },
    }
}

// ---------------------------------------------------------------------------
// Lights
// ---------------------------------------------------------------------------

/// Which light an interface object is a view of.
#[derive(Debug)]
pub enum Subject {
    One(LightId),
    Group,
}

/// A [`Subject`] as mathematics.
pub enum SubjectView {
    One(Seq<char>),
    Group,
}

impl View for Subject {
    type V = SubjectView;

    open spec fn view(&self) -> SubjectView {
        match self {
            Subject::One(id) => SubjectView::One(id@),
            Subject::Group => SubjectView::Group,
        }
    }
}

impl SubjectView {
    /// The record the object shows, if it shows one that exists.
    pub open spec fn record(self, world: WorldView) -> Option<RecordView> {
        match self {
            SubjectView::One(id) => if world.lights.contains_key(id) {
                Some(world.lights[id])
            } else {
                None
            },
            SubjectView::Group => None,
        }
    }

    /// The state the object presents.
    pub open spec fn state(self, world: WorldView) -> LightState {
        match self {
            SubjectView::One(_) => match self.record(world) {
                Some(record) => record.desired,
                None => unreported(),
            },
            SubjectView::Group => match world.group_state() {
                Some(state) => state,
                None => unreported(),
            },
        }
    }

    /// How many members are reachable. Always 1 or 0 for a single light.
    pub open spec fn online_count(self, world: WorldView) -> int {
        match self {
            SubjectView::One(_) => match self.record(world) {
                Some(record) => if record.online() {
                    1
                } else {
                    0
                },
                None => 0,
            },
            SubjectView::Group => online_ids(world.lights).len() as int,
        }
    }

    /// What commands to the object are aimed at.
    pub open spec fn aim(self) -> Aim {
        match self {
            SubjectView::One(id) => Aim::Id(id),
            SubjectView::Group => Aim::Select(Choice::All),
        }
    }

    /// The hardware id the object shows.
    pub open spec fn shown_id(self) -> Seq<char> {
        match self {
            SubjectView::One(id) => id,
            SubjectView::Group => seq![],
        }
    }

    /// The name the object shows.
    pub open spec fn shown_name(self, world: WorldView) -> Seq<char> {
        match self {
            SubjectView::One(_) => match self.record(world) {
                Some(record) => record.name,
                None => seq![],
            },
            SubjectView::Group => "All Lights"@,
        }
    }

    /// The model the object shows.
    pub open spec fn shown_model(self, world: WorldView) -> Seq<char> {
        match self.record(world) {
            Some(record) => record.model,
            None => seq![],
        }
    }

    /// The firmware the object shows.
    pub open spec fn shown_firmware(self, world: WorldView) -> Seq<char> {
        match self.record(world) {
            Some(record) => record.firmware,
            None => seq![],
        }
    }

    /// The address the object shows.
    pub open spec fn shown_address(self, world: WorldView) -> Seq<char> {
        match self.record(world) {
            Some(record) => record.endpoint.url(),
            None => seq![],
        }
    }

    /// The last failure the object shows.
    pub open spec fn shown_error(self, world: WorldView) -> Seq<char> {
        match self.record(world) {
            Some(record) => record.last_error,
            None => seq![],
        }
    }
}

/// The patch that switches a light on or off.
pub open spec fn switched(value: bool) -> StatePatch {
    StatePatch {
        power: Some(
            if value {
                Power::On
            } else {
                Power::Off
            },
        ),
        ..StatePatch::nothing()
    }
}

/// The patch that sets a light's brightness.
pub open spec fn dimmed(value: u8) -> StatePatch {
    StatePatch { brightness: Some(Adjust::To(value as i32)), ..StatePatch::nothing() }
}

/// The patch that sets a light's colour temperature.
pub open spec fn warmed(value: u16) -> StatePatch {
    StatePatch { kelvin: Some(Adjust::To(value as i32)), ..StatePatch::nothing() }
}

/// What asking the object for a change does to the world, and what the
/// supervisor is told of it.
pub open spec fn mutated(
    subject: SubjectView,
    before: WorldView,
    patch: StatePatch,
    now: u64,
    after: WorldView,
    requests: Seq<RequestView>,
) -> bool {
    let effect = before.effect(subject.aim(), patch);
    &&& after == before.drive(effect, now)
    &&& requests == told(announced(before.lights, effect), before, after)
}

/// The state a lamp moved on its own is asked for.
pub open spec fn alone(record: RecordView, value: u8) -> LightState {
    LightState { brightness: valid_brightness(value as int) as u8, ..record.desired }
}

/// What moving a lamp on its own announces.
pub open spec fn alone_announced(world: WorldView, id: Seq<char>, value: u8) -> Seq<
    (Seq<char>, Changed),
> {
    if world.lights.contains_key(id) {
        match world.lights[id].announcement(alone(world.lights[id], value)) {
            Some(changed) => seq![(id, changed)],
            None => seq![],
        }
    } else {
        seq![]
    }
}

/// The world after a lamp was moved on its own and its gang taught the new
/// difference.
pub open spec fn moved_alone(world: WorldView, id: Seq<char>, value: u8, now: u64) -> WorldView {
    let moved = if world.lights.contains_key(id) {
        WorldView {
            lights: world.lights.insert(
                id,
                world.lights[id].driven(alone(world.lights[id], value), now),
            ),
            ..world
        }
    } else {
        world
    };
    moved.respaced(id, valid_brightness(value as int) as u8)
}

/// A light — or the group — as seen over D-Bus.
///
/// Holds no state of its own: every getter reads through to the world it is
/// given, so there is exactly one source of truth and no cache to invalidate.
#[derive(Debug)]
pub struct Light1 {
    pub subject: Subject,
}

impl Light1 {
    /// The object for a light or for the group.
    pub fn new(subject: Subject) -> (r: Self)
        ensures
            r.subject == subject,
    {
        Light1 { subject }
    }

    /// The state this object presents.
    pub fn state(&self, world: &World) -> (r: LightState)
        ensures
            r == self.subject@.state(world@),
    {
        match &self.subject {
            Subject::One(id) => match world.get(id.as_str()) {
                Some(light) => light.desired,
                None => LightState::default(),
            },
            Subject::Group => match world.group_state() {
                Some(state) => state,
                None => LightState::default(),
            },
        }
    }

    /// Stable hardware id. Empty for the group.
    pub fn id(&self) -> (r: String)
        ensures
            r@ == self.subject@.shown_id(),
    {
        match &self.subject {
            Subject::One(id) => id.clone(),
            Subject::Group => nothing(),
        }
    }

    /// The name shown for the object.
    pub fn name(&self, world: &World) -> (r: String)
        ensures
            r@ == self.subject@.shown_name(world@),
    {
        match &self.subject {
            Subject::One(id) => match world.get(id.as_str()) {
                Some(light) => light.name.clone(),
                None => nothing(),
            },
            Subject::Group => "All Lights".to_owned(),
        }
    }

    /// The model, empty for the group.
    pub fn model(&self, world: &World) -> (r: String)
        ensures
            r@ == self.subject@.shown_model(world@),
    {
        match &self.subject {
            Subject::One(id) => match world.get(id.as_str()) {
                Some(light) => light.model.clone(),
                None => nothing(),
            },
            Subject::Group => nothing(),
        }
    }

    /// The firmware version, empty for the group.
    pub fn firmware(&self, world: &World) -> (r: String)
        ensures
            r@ == self.subject@.shown_firmware(world@),
    {
        match &self.subject {
            Subject::One(id) => match world.get(id.as_str()) {
                Some(light) => light.firmware.clone(),
                None => nothing(),
            },
            Subject::Group => nothing(),
        }
    }

    /// Where the daemon is talking to the light. Empty for the group.
    pub fn address(&self, world: &World) -> (r: String)
        ensures
            r@ == self.subject@.shown_address(world@),
    {
        match &self.subject {
            Subject::One(id) => match world.get(id.as_str()) {
                Some(light) => light.endpoint.base_url(),
                None => nothing(),
            },
            Subject::Group => nothing(),
        }
    }

    /// Whether the hardware is currently reachable. For the group, whether *any*
    /// member is.
    pub fn online(&self, world: &World) -> (r: bool)
        ensures
            r == (self.subject@.online_count(world@) > 0),
    {
        match &self.subject {
            Subject::One(id) => match world.get(id.as_str()) {
                Some(light) => light.online(),
                None => false,
            },
            Subject::Group => world.online_count() > 0,
        }
    }

    /// How many members are reachable. Always 1 or 0 for a single light.
    pub fn online_count(&self, world: &World) -> (r: usize)
        ensures
            r == self.subject@.online_count(world@),
    {
        match &self.subject {
            Subject::One(id) => match world.get(id.as_str()) {
                Some(light) => if light.online() {
                    1
                } else {
                    0
                },
                None => 0,
            },
            Subject::Group => world.online_count(),
        }
    }

    /// Last transport error, or empty when healthy.
    pub fn last_error(&self, world: &World) -> (r: String)
        ensures
            r@ == self.subject@.shown_error(world@),
    {
        match &self.subject {
            Subject::One(id) => match world.get(id.as_str()) {
                Some(light) => light.last_error.clone(),
                None => nothing(),
            },
            Subject::Group => nothing(),
        }
    }

    /// Whether the object is on.
    pub fn on(&self, world: &World) -> (r: bool)
        ensures
            r == self.subject@.state(world@).on,
    {
        self.state(world).on
    }

    /// Turn the object on or off.
    pub fn set_on(&self, world: &mut World, value: bool, now: u64) -> (r: Vec<Request>)
        ensures
            mutated(
                self.subject@,
                old(world)@,
                switched(value),
                now,
                final(world)@,
                request_views(r@),
            ),
    {
        let patch = StatePatch::power(
            if value {
                Power::On
            } else {
                Power::Off
            },
        );
        self.mutate(world, &patch, now)
    }

    /// The object's brightness.
    pub fn brightness(&self, world: &World) -> (r: u8)
        ensures
            r == self.subject@.state(world@).brightness,
    {
        self.state(world).brightness
    }

    /// Set the object's brightness.
    pub fn set_brightness(&self, world: &mut World, value: u8, now: u64) -> (r: Vec<Request>)
        ensures
            mutated(
                self.subject@,
                old(world)@,
                dimmed(value),
                now,
                final(world)@,
                request_views(r@),
            ),
    {
        let patch = StatePatch {
            power: None,
            brightness: Some(Adjust::To(value as i32)),
            kelvin: None,
        };
        self.mutate(world, &patch, now)
    }

    /// The object's colour temperature.
    pub fn kelvin(&self, world: &World) -> (r: u16)
        ensures
            r == self.subject@.state(world@).kelvin,
    {
        self.state(world).kelvin
    }

    /// Set the object's colour temperature.
    pub fn set_kelvin(&self, world: &mut World, value: u16, now: u64) -> (r: Vec<Request>)
        ensures
            mutated(
                self.subject@,
                old(world)@,
                warmed(value),
                now,
                final(world)@,
                request_views(r@),
            ),
    {
        let patch = StatePatch {
            power: None,
            brightness: None,
            kelvin: Some(Adjust::To(value as i32)),
        };
        self.mutate(world, &patch, now)
    }

    /// The warmest setting the hardware has.
    pub fn min_kelvin(&self) -> (r: u16)
        ensures
            r == MIN_KELVIN,
    {
        MIN_KELVIN
    }

    /// The coolest setting the hardware has.
    pub fn max_kelvin(&self) -> (r: u16)
        ensures
            r == MAX_KELVIN,
    {
        MAX_KELVIN
    }

    /// Apply a patch optimistically and nudge the supervisor to push it.
    ///
    /// Deliberately does not wait for hardware: the D-Bus reply means
    /// "accepted", and `PropertiesChanged` is what confirms the light actually
    /// moved.
    fn mutate(&self, world: &mut World, patch: &StatePatch, now: u64) -> (r: Vec<Request>)
        ensures
            mutated(
                self.subject@,
                old(world)@,
                *patch,
                now,
                final(world)@,
                request_views(r@),
            ),
    {
        let target = match &self.subject {
            Subject::One(id) => Target::Id(id.clone()),
            Subject::Group => Target::Select(Selector::All),
        };
        apply_and_snapshot(world, &target, patch, now)
    }

    /// Apply suffix-typed value tokens such as `["on", "42%", "4200k"]`.
    ///
    /// Tokens are parsed daemon-side so relative adjustments resolve against
    /// live state without a read-then-write race.
    pub fn apply(&self, world: &mut World, tokens: &[String], now: u64) -> (r: Result<
        Vec<Request>,
        Refusal,
    >)
        ensures
            match asked_patch(texts(tokens@)) {
                Ok(patch) => r matches Ok(requests) && mutated(
                    self.subject@,
                    old(world)@,
                    patch,
                    now,
                    final(world)@,
                    request_views(requests@),
                ),
                Err(refusal) => r matches Err(e) && e@ == refusal && final(world)@ == old(world)@,
            },
    {
        match read_patch(tokens) {
            Ok(patch) => Ok(self.mutate(world, &patch, now)),
            Err(refusal) => Err(refusal),
        }
    }

    /// Set this light's brightness *without* dragging its gang, and teach the
    /// gang the new difference.
    ///
    /// This is alt-drag. An ordinary brightness write moves the whole
    /// instrument; this one moves a single lamp and re-learns the spacing, so
    /// the ratio the user just dialled in becomes the one the gang keeps.
    pub fn set_brightness_alone(&self, world: &mut World, value: u8, now: u64) -> (r: Result<
        Vec<Request>,
        Refusal,
    >)
        ensures
            match self.subject@ {
                SubjectView::One(id) => {
                    &&& final(world)@ == moved_alone(old(world)@, id, value, now)
                    &&& r matches Ok(requests) && request_views(requests@) == told(
                        alone_announced(old(world)@, id, value),
                        old(world)@,
                        final(world)@,
                    ).push(RequestView::LinksChanged)
                },
                SubjectView::Group => {
                    &&& final(world)@ == old(world)@
                    &&& r matches Err(refusal) && refusal@ is GroupHasNoGang
                },
            },
    {
        let id = match &self.subject {
            Subject::One(id) => id,
            Subject::Group => return Err(Refusal::GroupHasNoGang),
        };
        let ghost before = world@;
        let brightness: u8 = if value > MAX_BRIGHTNESS {
            MAX_BRIGHTNESS
        } else {
            value
        };
        let group_before = GroupSnapshot::of(world);
        let mut changes: Vec<(LightId, Changed)> = Vec::new();
        if let Some(light) = world.get_mut(id.as_str()) {
            let next = LightState {
                on: light.desired.on,
                brightness,
                kelvin: light.desired.kelvin,
            };
            let change = light.set_desired_alone(next, now);
            if let Some(changed) = change {
                changes.push((id.clone(), changed));
            }
        }
        assert(touched(changes@) =~= alone_announced(before, id@, value));
        let _ = world.relearn(id.as_str(), brightness);
        let group_after = GroupSnapshot::of(world);
        assert(touched(changes@).len() == changes@.len());
        Ok(and_also(announce(changes, group_before, group_after), Request::LinksChanged))
    }

    /// Physically blink the light.
    pub fn identify(&self, world: &World) -> (r: Request)
        ensures
            r@ == RequestView::Identify(
                match self.subject@ {
                    SubjectView::One(id) => seq![id],
                    SubjectView::Group => in_order(world@.lights.dom()),
                },
            ),
    {
        match &self.subject {
            Subject::One(id) => {
                let mut ids: Vec<LightId> = Vec::new();
                ids.push(id.clone());
                assert(texts(ids@) =~= seq![id@]);
                Request::Identify(ids)
            },
            Subject::Group => Request::Identify(world.ids()),
        }
    }

    /// Re-read this light's state from hardware now.
    pub fn refresh(&self) -> (r: Request)
        ensures
            r@ == RequestView::RefreshAll,
    {
        Request::RefreshAll
    }
}

fn nothing() -> (r: String)
    ensures
        r@ == Seq::<char>::empty(),
{
    let r = String::new();
    assert(r@ =~= Seq::<char>::empty());
    r
}

// ---------------------------------------------------------------------------
// The manager
// ---------------------------------------------------------------------------

/// The lamps of every gang that lost a member while these lamps left theirs one
/// after another.
pub open spec fn disbanded(links: Seq<LinkView>, ids: Seq<Seq<char>>) -> Set<Seq<char>>
    decreases ids.len(),
{
    if ids.len() == 0 {
        Set::empty()
    } else {
        let left = all_unlinked(links, ids.drop_last());
        let at = gang_index(left, ids.last());
        let lost = if at < left.len() {
            left[at].offsets.dom()
        } else {
            Set::empty()
        };
        disbanded(links, ids.drop_last()).union(lost)
    }
}

/// The mode a word names.
pub open spec fn named_mode(word: Seq<char>) -> Result<LinkMode, RefusalView> {
    if word == "mirror"@ {
        Ok(LinkMode::Mirror)
    } else if word == "offset"@ {
        Ok(LinkMode::Offset)
    } else {
        Err(RefusalView::UnknownMode(word))
    }
}

/// A gang as clients are shown it: its mode, and each member with its offset.
/// The reference comes first.
pub open spec fn shown_gang(link: LinkView) -> (Seq<char>, Seq<(Seq<char>, i32)>) {
    let others = in_order(link.offsets.dom().remove(link.reference)).map_values(
        |id: Seq<char>| (id, link.offsets[id]),
    );
    (
        link.mode.word(),
        if link.offsets.contains_key(link.reference) {
            seq![(link.reference, link.offsets[link.reference])] + others
        } else {
            others
        },
    )
}

/// Members with their offsets as mathematics.
pub open spec fn member_views(members: Seq<(String, i32)>) -> Seq<(Seq<char>, i32)> {
    members.map_values(|member: (String, i32)| member@)
}

/// Gangs as clients are shown them, as mathematics.
pub open spec fn gang_rows(rows: Seq<(String, Vec<(String, i32)>)>) -> Seq<
    (Seq<char>, Seq<(Seq<char>, i32)>),
> {
    rows.map_values(|row: (String, Vec<(String, i32)>)| (row.0@, member_views(row.1@)))
}

/// The daemon itself.
#[derive(Debug)]
pub struct Manager1 {}

impl Manager1 {
    /// The manager object.
    pub fn new() -> (r: Self)
        ensures
            r == (Manager1 {  }),
    {
        Manager1 {  }
    }

    /// Apply value tokens to whatever a selector matches.
    ///
    /// Returns the ids of the lights that matched, so a caller can tell the
    /// difference between "done" and "that selector matched nothing".
    pub fn set_state(&self, world: &mut World, selector: &str, tokens: &[String], now: u64) -> (r:
        Result<(Vec<String>, Vec<Request>), Refusal>)
        ensures
            match asked_patch(texts(tokens@)) {
                Ok(patch) => {
                    let effect = old(world)@.effect(Aim::Select(Choice::typed(selector@)), patch);
                    &&& final(world)@ == old(world)@.drive(effect, now)
                    &&& r matches Ok((ids, requests)) && texts(ids@) == matches_of(
                        old(world)@,
                        selector@,
                    ) && request_views(requests@) == told(
                        announced(old(world)@.lights, effect),
                        old(world)@,
                        final(world)@,
                    )
                },
                Err(refusal) => r matches Err(e) && e@ == refusal && final(world)@ == old(world)@,
            },
    {
        let patch = match read_patch(tokens) {
            Ok(patch) => patch,
            Err(refusal) => return Err(refusal),
        };
        let chosen = Selector::parse(selector);
        let found = world.select(&chosen);
        let requests = apply_and_snapshot(world, &Target::Select(chosen), &patch, now);
        Ok((found, requests))
    }

    /// Blink whatever a selector matches.
    pub fn identify(&self, world: &World, selector: &str) -> (r: (Vec<String>, Request))
        ensures
            texts(r.0@) == matches_of(world@, selector@),
            r.1@ == RequestView::Identify(matches_of(world@, selector@)),
    {
        let chosen = Selector::parse(selector);
        let found = world.select(&chosen);
        (found, Request::Identify(world.select(&chosen)))
    }

    /// Re-probe the network and re-read every light.
    pub fn rescan(&self) -> (r: Request)
        ensures
            r@ == RequestView::Rescan,
    {
        Request::Rescan
    }

    /// Gang the lights a selector matches, learning their current differences.
    ///
    /// Offset is the only way in, deliberately: a pair that already matches
    /// learns an offset of zero and behaves exactly like a mirror, so the
    /// friendly default is also the non-destructive one. `Mirror` is a separate,
    /// explicit act because it overwrites one lamp's values with another's.
    pub fn link(&self, world: &mut World, selectors: &[String]) -> (r: Result<
        (Vec<String>, Request),
        Refusal,
    >)
        ensures
            ({
                let members = existing(
                    old(world)@.lights,
                    matched(old(world)@, texts(selectors@)),
                );
                if members.len() < 2 {
                    &&& final(world)@ == old(world)@.linked(matched(old(world)@, texts(selectors@)))
                    &&& r matches Err(refusal) && refusal@ == (RefusalView::TooFewLights {
                        selectors: texts(selectors@),
                        count: 0,
                    })
                } else {
                    &&& final(world)@ == old(world)@.linked(matched(old(world)@, texts(selectors@)))
                    &&& r matches Ok((ids, request)) && texts(ids@) == members && request@
                        == RequestView::LinksChanged
                }
            }),
    {
        let found = matched_in_order(world, selectors);
        let members = world.link(found.as_slice());
        assert(texts(found@).len() == found@.len());
        assert(texts(members@).len() == members@.len());
        if members.len() < 2 {
            let refusal = Refusal::TooFewLights {
                selectors: copy_all(selectors),
                count: members.len(),
            };
            return Err(refusal);
        }
        Ok((members, Request::LinksChanged))
    }

    /// Break the gang a light belongs to. Returns every light affected.
    pub fn unlink(&self, world: &mut World, selector: &str) -> (r: (Vec<String>, Request))
        ensures
            final(world)@ == (WorldView {
                links: all_unlinked(old(world)@.links, matches_of(old(world)@, selector@)),
                ..old(world)@
            }),
            texts(r.0@) == in_order(
                disbanded(old(world)@.links, matches_of(old(world)@, selector@)),
            ),
            r.1@ == RequestView::LinksChanged,
    {
        let ghost before = world@;
        let found = world.select(&Selector::parse(selector));
        let ghost names = texts(found@);
        let mut affected = NameSet::new();
        let mut i: usize = 0;
        assert(names.take(0) =~= Seq::empty());
        while i < found.len()
            invariant
                i <= found@.len(),
                names == texts(found@),
                world@ == (WorldView {
                    links: all_unlinked(before.links, names.take(i as int)),
                    ..before
                }),
                affected@ == disbanded(before.links, names.take(i as int)),
            decreases found@.len() - i,
        {
            proof {
                assert(names.take(i + 1).drop_last() =~= names.take(i as int));
                assert(names.take(i + 1).last() == found@[i as int]@);
            }
            let ghost there = world@;
            let lost = match world.link_of(found[i].as_str()) {
                Some(link) => members_of(link),
                None => NameSet::new(),
            };
            let _ = world.unlink(found[i].as_str());
            let total: usize = lost.len();
            let ghost known = affected@;
            let mut k: usize = 0;
            proof {
                lemma_listed(lost@);
                assert(affected@ =~= known.union(in_order(lost@).take(0).to_set()));
            }
            while k < total
                invariant
                    k <= total,
                    total == lost@.len(),
                    total == in_order(lost@).len(),
                    affected@ == known.union(in_order(lost@).take(k as int).to_set()),
                decreases total - k,
            {
                proof {
                    crate::names::lemma_taken(in_order(lost@), k as int);
                }
                let ghost shorter = affected@;
                let _ = affected.insert(lost.name_at(k).clone());
                k += 1;
                assert(affected@ =~= known.union(in_order(lost@).take(k as int).to_set())) by {
                    assert forall|id: Seq<char>| #[trigger] affected@.contains(id)
                        <==> known.union(in_order(lost@).take(k as int).to_set()).contains(id) by {
                        assert(in_order(lost@).take(k as int).contains(id) <==> in_order(
                            lost@,
                        ).take(k - 1).contains(id) || id == in_order(lost@)[k - 1]);
                        assert(shorter.contains(id) <==> known.union(
                            in_order(lost@).take(k - 1).to_set(),
                        ).contains(id));
                        assert(in_order(lost@).take(k as int).to_set().contains(id) <==> in_order(
                            lost@,
                        ).take(k as int).contains(id));
                        assert(in_order(lost@).take(k - 1).to_set().contains(id) <==> in_order(
                            lost@,
                        ).take(k - 1).contains(id));
                    }
                }
            }
            proof {
                assert(in_order(lost@).take(k as int) =~= in_order(lost@));
                assert(in_order(lost@).to_set() =~= lost@) by {
                    assert forall|id: Seq<char>| in_order(lost@).to_set().contains(id)
                        <==> lost@.contains(id) by {
                        assert(in_order(lost@).contains(id) <==> lost@.contains(id));
                    }
                }
            }
            i += 1;
        }
        assert(names.take(i as int) =~= names);
        (affected.names(), Request::LinksChanged)
    }

    /// Change how a gang tracks: `offset` or `mirror`.
    ///
    /// Mirroring is destructive — every member snaps onto the gang's reference,
    /// the lamp named first when it was made — so it is a deliberate verb
    /// rather than an argument on `Link`. It also matches the interaction: the
    /// editor changes mode on a gang that already exists.
    pub fn set_link_mode(&self, world: &mut World, selector: &str, mode: &str, now: u64) -> (r:
        Result<Vec<Request>, Refusal>)
        ensures
            match (named_mode(mode@), ganged_match(old(world)@, selector@)) {
                (Err(refusal), _) => r matches Err(e) && e@ == refusal && final(world)@
                    == old(world)@,
                (Ok(_), Err(refusal)) => r matches Err(e) && e@ == refusal && final(world)@
                    == old(world)@,
                (Ok(mode), Ok(id)) => {
                    &&& final(world)@ == old(world)@.remoded(id, mode, now)
                    &&& r matches Ok(requests) && request_views(requests@) == told(
                        announced(old(world)@.lights, old(world)@.mode_values(id, mode)),
                        old(world)@,
                        final(world)@,
                    ).push(RequestView::LinksChanged)
                },
            },
    {
        let wanted = if same(mode, "mirror") {
            LinkMode::Mirror
        } else if same(mode, "offset") {
            LinkMode::Offset
        } else {
            return Err(Refusal::UnknownMode(mode.to_owned()));
        };
        let group_before = GroupSnapshot::of(world);
        let id = match find_ganged(world, selector) {
            Ok(id) => id,
            Err(refusal) => return Err(refusal),
        };
        let changes = world.set_link_mode(id.as_str(), wanted, now);
        let group_after = GroupSnapshot::of(world);
        assert(touched(changes@).len() == changes@.len());
        Ok(and_also(announce(changes, group_before, group_after), Request::LinksChanged))
    }

    /// Set a gang's level — its position as one fader.
    ///
    /// Prefer this to writing a member's `Brightness` when driving a gang from
    /// a single control. Going through a member requires knowing its offset,
    /// and after alt-drags there may be no member at the level at all, so a
    /// fader driven that way lands elsewhere and springs back.
    ///
    /// The level may fall outside 0–100: members clamp individually, so a gang
    /// compresses at the ends and recovers its spacing coming back.
    pub fn set_link_level(&self, world: &mut World, selector: &str, level: i32, now: u64) -> (r:
        Result<Vec<Request>, Refusal>)
        ensures
            match ganged_match(old(world)@, selector@) {
                Err(refusal) => r matches Err(e) && e@ == refusal && final(world)@ == old(world)@,
                Ok(id) => {
                    let values = old(world)@.level_values(id, level as int);
                    &&& final(world)@ == old(world)@.drive(values, now)
                    &&& r matches Ok(requests) && request_views(requests@) == told(
                        announced(old(world)@.lights, values),
                        old(world)@,
                        final(world)@,
                    )
                },
            },
    {
        let group_before = GroupSnapshot::of(world);
        let id = match find_ganged(world, selector) {
            Ok(id) => id,
            Err(refusal) => return Err(refusal),
        };
        let changes = world.set_link_level(id.as_str(), level, now);
        let group_after = GroupSnapshot::of(world);
        assert(touched(changes@).len() == changes@.len());
        Ok(announce(changes, group_before, group_after))
    }

    /// A gang's current level.
    ///
    /// The counterpart to `SetLinkLevel`. Offered rather than left to be
    /// reconstructed from `Links` and a member's `Brightness`, because the
    /// obvious reconstruction — read through the member at offset zero — is
    /// wrong once alt-drags have moved every offset off zero, and a write-only
    /// level invites exactly that mistake.
    pub fn link_level(&self, world: &World, selector: &str) -> (r: Result<i32, Refusal>)
        ensures
            match level_reply(world@, selector@) {
                Ok(level) => r == Ok::<i32, Refusal>(level),
                Err(refusal) => r matches Err(e) && e@ == refusal,
            },
    {
        let found = world.select(&Selector::parse(selector));
        assert(texts(found@).len() == found@.len());
        if found.len() == 0 {
            return Err(Refusal::NoMatch(selector.to_owned()));
        }
        assert(texts(found@)[0] == found@[0]@);
        match world.link_level(found[0].as_str()) {
            Some(level) => Ok(level),
            None => Err(Refusal::NotGanged(selector.to_owned())),
        }
    }

    /// Photograph the whole desk and save it under `name`.
    ///
    /// Whole-desk on purpose, with no selector: a scene is "how my desk looks",
    /// and the panel has no notion of a subset to pass. An existing scene of
    /// the same name is replaced — re-saving is how you update one.
    ///
    /// What is stored is topology plus values: each gang's members, mode,
    /// offsets and level, then whatever lamps are left over. Restoring
    /// therefore brings back the *instrument*, not just a row of brightnesses.
    pub fn save_scene(&self, world: &mut World, name: &str) -> (r: Result<Request, Refusal>)
        ensures
            match named_scene(name@) {
                Err(refusal) => r matches Err(e) && e@ == refusal && final(world)@ == old(world)@,
                Ok(name) => {
                    &&& final(world)@ == old(world)@.remembering(name)
                    &&& r matches Ok(request) && request@ == RequestView::ScenesChanged
                },
            },
    {
        let kept = match scene_name(name) {
            Ok(kept) => kept,
            Err(refusal) => return Err(refusal),
        };
        world.save_scene(kept.as_str());
        Ok(Request::ScenesChanged)
    }

    /// Restore a saved scene.
    ///
    /// Every lamp the scene names is detached from its current gang, the
    /// scene's gangs are formed, and then values are driven. Lamps the scene
    /// does not name are never re-ganged and never moved — though one ganged to
    /// a lamp the scene *does* name will lose that partner, and its gang
    /// dissolves if fewer than two members remain.
    ///
    /// Missing lamps are not an error. A gang re-forms from whichever members
    /// are present, and the absent one's offset is kept, so plugging it back in
    /// and re-applying restores the gang whole.
    pub fn apply_scene(&self, world: &mut World, name: &str, now: u64) -> (r: Result<
        Vec<Request>,
        Refusal,
    >)
        ensures
            match named_scene(name@) {
                Err(refusal) => r matches Err(e) && e@ == refusal && final(world)@ == old(world)@,
                Ok(name) => if old(world)@.scenes.contains_key(name) {
                    let plan = old(world)@.scenes[name].planned(old(world)@.lights.dom());
                    &&& final(world)@ == old(world)@.carried_out(plan, now)
                    &&& r matches Ok(requests) && request_views(requests@) == told(
                        old(world)@.plan_announced(plan, now),
                        old(world)@,
                        final(world)@,
                    ).push(RequestView::LinksChanged)
                } else {
                    &&& final(world)@ == old(world)@
                    &&& r matches Err(e) && e@ == RefusalView::NoScene(name)
                },
            },
    {
        let wanted = match scene_name(name) {
            Ok(wanted) => wanted,
            Err(refusal) => return Err(refusal),
        };
        let scene = match world.scene(wanted.as_str()) {
            Some(scene) => scene.clone(),
            None => return Err(Refusal::NoScene(wanted)),
        };
        let group_before = GroupSnapshot::of(world);
        let changes = world.apply_scene(&scene, now);
        let group_after = GroupSnapshot::of(world);
        assert(touched(changes@).len() == changes@.len());
        // Applying rearranges gangs, so `Links` owes an emission — but the set
        // of saved scenes is untouched, so `Scenes` does not.
        Ok(and_also(announce(changes, group_before, group_after), Request::LinksChanged))
    }

    /// Forget a saved scene.
    pub fn delete_scene(&self, world: &mut World, name: &str) -> (r: Result<Request, Refusal>)
        ensures
            match named_scene(name@) {
                Err(refusal) => r matches Err(e) && e@ == refusal && final(world)@ == old(world)@,
                Ok(name) => {
                    &&& final(world)@ == old(world)@.forgetting(name)
                    &&& if old(world)@.scenes.contains_key(name) {
                        r matches Ok(request) && request@ == RequestView::ScenesChanged
                    } else {
                        r matches Err(e) && e@ == RefusalView::NoScene(name)
                    }
                },
            },
    {
        let doomed = match scene_name(name) {
            Ok(doomed) => doomed,
            Err(refusal) => return Err(refusal),
        };
        if !world.forget_scene(doomed.as_str()) {
            return Err(Refusal::NoScene(doomed));
        }
        Ok(Request::ScenesChanged)
    }

    /// The names of the saved scenes, sorted.
    ///
    /// Names only: a scene's contents are gaffer's business, and a panel that
    /// wants one applies it rather than rendering it.
    pub fn scenes(&self, world: &World) -> (r: Vec<String>)
        ensures
            texts(r@) == in_order(world@.scenes.dom()),
    {
        world.scenes().names()
    }

    /// The gangs, as member-id lists with each member's brightness offset.
    ///
    /// Shaped for a panel drawing wires: `(mode, [(id, offset)])`.
    ///
    /// **The first member is the gang's reference** — the lamp whose values win
    /// a mirror, which is the one named first when the gang was made. Carrying
    /// it by position rather than as a separate field keeps this property's
    /// signature stable for clients already reading it, and matches the mental
    /// model: `link a b` reads "link b onto a".
    pub fn links(&self, world: &World) -> (r: Vec<(String, Vec<(String, i32)>)>)
        ensures
            gang_rows(r@) == world@.links.map_values(|link: LinkView| shown_gang(link)),
    {
        let links = world.links();
        let mut out: Vec<(String, Vec<(String, i32)>)> = Vec::new();
        let mut i: usize = 0;
        while i < links.len()
            invariant
                i <= links@.len(),
                out@.len() == i,
                forall|j: int|
                    0 <= j < i ==> (
                        (#[trigger] out@[j]).0@,
                        member_views(out@[j].1@),
                    ) == shown_gang(links@[j]@),
            decreases links@.len() - i,
        {
            out.push(gang_row(&links[i]));
            i += 1;
        }
        proof {
            let goal = world@.links.map_values(|link: LinkView| shown_gang(link));
            assert forall|j: int| 0 <= j < goal.len() implies gang_rows(out@)[j] == goal[j] by {
                assert(crate::scene::link_views(links@)[j] == links@[j]@);
            }
            assert(gang_rows(out@) =~= goal);
        }
        out
    }

    /// How many lights there are.
    pub fn light_count(&self, world: &World) -> (r: usize)
        ensures
            r == world@.lights.dom().len(),
    {
        world.len()
    }

    /// How many lights can be reached.
    pub fn online_count(&self, world: &World) -> (r: usize)
        ensures
            r == online_ids(world@.lights).len(),
    {
        world.online_count()
    }
}

fn copy_all(strings: &[String]) -> (r: Vec<String>)
    ensures
        texts(r@) == texts(strings@),
{
    let mut out: Vec<String> = Vec::new();
    let mut i: usize = 0;
    while i < strings.len()
        invariant
            i <= strings@.len(),
            out@.len() == i,
            forall|j: int| 0 <= j < i ==> (#[trigger] out@[j])@ == strings@[j]@,
        decreases strings@.len() - i,
    {
        out.push(strings[i].clone());
        i += 1;
    }
    assert(texts(out@) =~= texts(strings@));
    out
}

/// The members of a gang.
fn members_of(link: &crate::link::Link) -> (r: NameSet)
    ensures
        r@ == link@.offsets.dom(),
{
    let ghost order = in_order(link@.offsets.dom());
    let total: usize = link.len();
    proof {
        lemma_listed(link@.offsets.dom());
    }
    let mut out = NameSet::new();
    let mut i: usize = 0;
    while i < total
        invariant
            i <= total,
            total == link@.offsets.dom().len(),
            total == order.len(),
            order == in_order(link@.offsets.dom()),
            forall|id: Seq<char>| #[trigger]
                out@.contains(id) <==> order.take(i as int).contains(id),
        decreases total - i,
    {
        proof {
            crate::names::lemma_taken(order, i as int);
        }
        let _ = out.insert(link.member_at(i).clone());
        i += 1;
    }
    proof {
        assert(order.take(i as int) =~= order);
        assert(out@ =~= link@.offsets.dom());
    }
    out
}

/// One gang as clients are shown it.
fn gang_row(link: &crate::link::Link) -> (r: (String, Vec<(String, i32)>))
    ensures
        (r.0@, member_views(r.1@)) == shown_gang(link@),
{
    let ghost view = link@;
    let reference = link.reference();
    let members = members_of(link);
    let mut followers = NameSet::new();
    let ghost order = in_order(view.offsets.dom());
    let total: usize = members.len();
    proof {
        lemma_listed(view.offsets.dom());
    }
    let mut i: usize = 0;
    while i < total
        invariant
            i <= total,
            members@ == view.offsets.dom(),
            total == members@.len(),
            total == order.len(),
            order == in_order(view.offsets.dom()),
            reference@ == view.reference,
            forall|id: Seq<char>| #[trigger]
                followers@.contains(id) <==> order.take(i as int).contains(id) && id
                    != view.reference,
        decreases total - i,
    {
        proof {
            crate::names::lemma_taken(order, i as int);
        }
        let id = members.name_at(i);
        if !same(id.as_str(), reference) {
            let _ = followers.insert(id.clone());
        }
        i += 1;
    }
    proof {
        assert(order.take(i as int) =~= order);
        assert(followers@ =~= view.offsets.dom().remove(view.reference));
    }
    let mut out: Vec<(String, i32)> = Vec::new();
    if let Some(offset) = link.offset_of(reference) {
        out.push((reference.to_owned(), offset));
    }
    let ghost lead = member_views(out@);
    let rest = followers.names();
    let ghost others = in_order(followers@);
    proof {
        lemma_listed(followers@);
    }
    let mut k: usize = 0;
    assert(lead =~= lead + others.take(0).map_values(|id: Seq<char>| (id, view.offsets[id])));
    while k < rest.len()
        invariant
            k <= rest@.len(),
            view == link@,
            texts(rest@) == others,
            others == in_order(followers@),
            followers@ == view.offsets.dom().remove(view.reference),
            forall|j: int| 0 <= j < others.len() ==> followers@.contains(#[trigger] others[j]),
            member_views(out@) == lead + others.take(k as int).map_values(
                |id: Seq<char>| (id, view.offsets[id]),
            ),
        decreases rest@.len() - k,
    {
        let ghost before = out@;
        assert(others[k as int] == rest@[k as int]@);
        assert(followers@.contains(others[k as int]));
        if let Some(offset) = link.offset_of(rest[k].as_str()) {
            out.push((rest[k].clone(), offset));
        }
        k += 1;
        proof {
            assert(member_views(out@) =~= member_views(before).push(
                (others[k - 1], view.offsets[others[k - 1]]),
            ));
            assert(member_views(out@) =~= lead + others.take(k as int).map_values(
                |id: Seq<char>| (id, view.offsets[id]),
            ));
        }
    }
    proof {
        assert(texts(rest@).len() == rest@.len());
        assert(others.take(k as int) =~= others);
        assert(member_views(out@) =~= shown_gang(view).1);
    }
    (link.mode().as_str().to_owned(), out)
}

proof fn lemma_merged(list: Seq<Seq<char>>, names: Seq<Seq<char>>)
    ensures
        forall|id: Seq<char>| #[trigger]
            merged(list, names).contains(id) <==> list.contains(id) || names.contains(id),
        list.no_duplicates() ==> merged(list, names).no_duplicates(),
        merged(list, names).len() >= list.len(),
        merged(list, names).take(list.len() as int) == list,
    decreases names.len(),
{
    if names.len() == 0 {
        assert(list.take(list.len() as int) =~= list);
    } else {
        let short = names.drop_last();
        lemma_merged(list, short);
        let before = merged(list, short);
        let last = names.last();
        let after = merged(list, names);
        assert forall|id: Seq<char>| names.contains(id) <==> short.contains(id) || id == last by {
            if short.contains(id) {
                let k = choose|k: int| 0 <= k < short.len() && short[k] == id;
                assert(names[k] == id);
            }
            if names.contains(id) {
                let k = choose|k: int| 0 <= k < names.len() && names[k] == id;
                if k < short.len() {
                    assert(short[k] == id);
                }
            }
            assert(names[names.len() - 1] == last);
        }
        if !before.contains(last) {
            assert forall|id: Seq<char>| #[trigger] after.contains(id) <==> list.contains(id)
                || names.contains(id) by {
                if before.contains(id) {
                    let k = choose|k: int| 0 <= k < before.len() && before[k] == id;
                    assert(after[k] == id);
                }
                assert(after[before.len() as int] == last);
            }
            assert(after.take(list.len() as int) =~= before.take(list.len() as int));
        }
    }
}

/// Where every light is filed under its own id, whatever is matched exists.
proof fn lemma_matched_exist(world: WorldView, selectors: Seq<Seq<char>>)
    requires
        world.wf(),
    ensures
        forall|id: Seq<char>| #[trigger]
            matched(world, selectors).contains(id) ==> world.lights.contains_key(id),
    decreases selectors.len(),
{
    if selectors.len() > 0 {
        let short = selectors.drop_last();
        lemma_matched_exist(world, short);
        let choice = Choice::typed(selectors.last());
        lemma_filed(world, choice, StatePatch::nothing());
        lemma_listed(world.addressed(choice));
        lemma_merged(matched(world, short), matches_of(world, selectors.last()));
    }
}

// ---------------------------------------------------------------------------
// Signals
// ---------------------------------------------------------------------------

/// A property of a light object.
#[derive(Clone, Copy, Debug, PartialEq, Eq, Structural)]
pub enum Property {
    Name,
    Model,
    Firmware,
    Address,
    Online,
    OnlineCount,
    On,
    Brightness,
    Kelvin,
    LastError,
}

/// Some properties, or none.
pub open spec fn provided(wanted: bool, properties: Seq<Property>) -> Seq<Property> {
    if wanted {
        properties
    } else {
        seq![]
    }
}

/// The properties that a change is announced as, in order.
pub open spec fn signalled(changed: Changed) -> Seq<Property> {
    provided(
        changed.meta,
        seq![Property::Name, Property::Model, Property::Firmware, Property::Address],
    ) + provided(changed.online, seq![Property::Online, Property::OnlineCount]) + provided(
        changed.on,
        seq![Property::On],
    ) + provided(changed.brightness, seq![Property::Brightness]) + provided(
        changed.kelvin,
        seq![Property::Kelvin],
    ) + provided(changed.error, seq![Property::LastError])
}

/// Which properties to emit `PropertiesChanged` for.
pub fn properties_changed(changed: Changed) -> (r: Vec<Property>)
    ensures
        r@ == signalled(changed),
        r@.len() == 0 <==> changed == Changed::nothing(),
{
    let mut out: Vec<Property> = Vec::new();
    if changed.meta {
        out.push(Property::Name);
        out.push(Property::Model);
        out.push(Property::Firmware);
        out.push(Property::Address);
    }
    if changed.online {
        out.push(Property::Online);
        out.push(Property::OnlineCount);
    }
    if changed.on {
        out.push(Property::On);
    }
    if changed.brightness {
        out.push(Property::Brightness);
    }
    if changed.kelvin {
        out.push(Property::Kelvin);
    }
    if changed.error {
        out.push(Property::LastError);
    }
    assert(out@ =~= signalled(changed));
    out
}

// ---------------------------------------------------------------------------
// Laws
// ---------------------------------------------------------------------------

/// No light's path is the group's, whatever its id.
pub proof fn law_a_light_path_never_collides_with_the_group(id: Seq<char>)
    ensures
        path_of(id) != GROUP_PATH@,
{
    reveal_strlit("/io/mineiro/gaffer");
    reveal_strlit("/lights/");
    reveal_strlit("/io/mineiro/gaffer/lights/all");
    let path = path_of(id);
    let group = GROUP_PATH@;
    if path == group {
        assert(path.len() == 29);
        assert(canonical(id).len() == 3);
        assert(path[26] == canonical(id)[0]);
        assert(group[26] == 'a');
        let letters = id.filter(|c: char| crate::strings::ascii_alphanumeric(c));
        assert(canonical(id)[0] == crate::strings::upper(letters[0]));
    }
}

/// Two ids land on the same path exactly when they canonicalise alike: the same
/// hardware keeps its path however its id is punctuated, and one light never
/// shadows another.
pub proof fn law_paths_tell_hardware_apart(a: Seq<char>, b: Seq<char>)
    ensures
        path_of(a) == path_of(b) <==> canonical(a) == canonical(b),
{
    let root = ROOT_PATH@ + "/lights/"@;
    assert(path_of(a).skip(root.len() as int) =~= canonical(a));
    assert(path_of(b).skip(root.len() as int) =~= canonical(b));
}

/// A scene name that is accepted is not blank, is not too long, and cannot
/// smuggle a terminal escape.
pub proof fn law_an_accepted_scene_name_is_plain(raw: Seq<char>)
    requires
        named_scene(raw) is Ok,
    ensures
        ({
            let name = named_scene(raw)->Ok_0;
            &&& 0 < name.len() <= MAX_SCENE_NAME
            &&& name == trimmed(raw)
            &&& forall|i: int| 0 <= i < name.len() ==> !control(#[trigger] name[i])
            &&& named_scene(name) == Ok::<Seq<char>, RefusalView>(name)
        }),
{
    let name = trimmed(raw);
    lemma_first_control(name);
    crate::strings::lemma_trimmed_within(raw);
}

proof fn lemma_first_control(text: Seq<char>)
    requires
        first_control(text) is None,
    ensures
        forall|i: int| 0 <= i < text.len() ==> !control(#[trigger] text[i]),
    decreases text.len(),
{
    if text.len() > 0 {
        lemma_first_control(text.drop_first());
        assert forall|i: int| 0 <= i < text.len() implies !control(#[trigger] text[i]) by {
            if i > 0 {
                assert(text.drop_first()[i - 1] == text[i]);
            }
        }
    }
}

/// Order is the contract: whatever further selectors match comes behind what the
/// earlier ones matched, no lamp is named twice, and every lamp is one that some
/// selector matches.
pub proof fn law_selectors_keep_their_order(world: WorldView, selectors: Seq<Seq<char>>, n: int)
    requires
        0 <= n <= selectors.len(),
    ensures
        matched(world, selectors).no_duplicates(),
        matched(world, selectors).len() >= matched(world, selectors.take(n)).len(),
        matched(world, selectors).take(matched(world, selectors.take(n)).len() as int) == matched(
            world,
            selectors.take(n),
        ),
        forall|id: Seq<char>|
            matched(world, selectors).contains(id) <==> exists|i: int|
                0 <= i < selectors.len() && matches_of(world, #[trigger] selectors[i]).contains(id),
    decreases selectors.len(),
{
    let all = matched(world, selectors);
    if selectors.len() == 0 {
        assert(selectors.take(n) =~= selectors);
        assert(all.take(all.len() as int) =~= all);
    } else {
        let short = selectors.drop_last();
        let before = matched(world, short);
        let last = selectors.last();
        lemma_merged(before, matches_of(world, last));
        if n == selectors.len() {
            assert(selectors.take(n) =~= selectors);
            assert(all.take(all.len() as int) =~= all);
            law_selectors_keep_their_order(world, short, short.len() as int);
        } else {
            law_selectors_keep_their_order(world, short, n);
            assert(short.take(n) =~= selectors.take(n));
            let first = matched(world, selectors.take(n));
            assert(all.take(first.len() as int) =~= all.take(before.len() as int).take(
                first.len() as int,
            ));
        }
        assert forall|id: Seq<char>| all.contains(id) <==> exists|i: int|
            0 <= i < selectors.len() && matches_of(world, #[trigger] selectors[i]).contains(id) by {
            if before.contains(id) {
                let i = choose|i: int|
                    0 <= i < short.len() && matches_of(world, #[trigger] short[i]).contains(id);
                assert(selectors[i] == short[i]);
            }
            if matches_of(world, last).contains(id) {
                assert(selectors[selectors.len() - 1] == last);
            }
            if exists|i: int|
                0 <= i < selectors.len() && matches_of(world, #[trigger] selectors[i]).contains(
                    id,
                ) {
                let i = choose|i: int|
                    0 <= i < selectors.len() && matches_of(world, #[trigger] selectors[i]).contains(
                        id,
                    );
                if i < short.len() {
                    assert(short[i] == selectors[i]);
                }
            }
        }
    }
}

/// The first lamp of the first selector leads the gang that `link` makes, and
/// every lamp that was matched is in it.
pub proof fn law_the_first_selector_names_the_reference(
    world: WorldView,
    selectors: Seq<Seq<char>>,
)
    requires
        world.wf(),
        selectors.len() > 0,
        matches_of(world, selectors[0]).len() > 0,
    ensures
        matched(world, selectors).len() > 0,
        matched(world, selectors)[0] == matches_of(world, selectors[0])[0],
        existing(world.lights, matched(world, selectors)) == matched(
            world,
            selectors,
        ),
        LinkView::learned(
            crate::world::with_desires(world.lights, matched(world, selectors)),
        ).reference == matches_of(world, selectors[0])[0],
{
    law_selectors_keep_their_order(world, selectors, 1);
    lemma_matched_exist(world, selectors);
    let all = matched(world, selectors);
    assert forall|k: int| 0 <= k < all.len() implies world.lights.contains_key(
        #[trigger] all[k],
    ) by {
        assert(all.contains(all[k]));
    }
    lemma_all_existing(world.lights, all);
    let one = selectors.take(1);
    let none = matched(world, one.drop_last());
    assert(one.drop_last() =~= Seq::empty());
    assert(none =~= Seq::empty());
    let found = matches_of(world, selectors[0]);
    assert(one.last() == selectors[0]);
    lemma_first_merged(found);
    let first = matched(world, one);
    assert(first == merged(none, found));
    assert(matched(world, selectors).take(first.len() as int)[0] == first[0]);
}

proof fn lemma_first_merged(names: Seq<Seq<char>>)
    requires
        names.len() > 0,
    ensures
        merged(seq![], names).len() > 0,
        merged(seq![], names)[0] == names[0],
    decreases names.len(),
{
    let short = names.drop_last();
    if short.len() > 0 {
        lemma_first_merged(short);
        assert(short[0] == names[0]);
    } else {
        assert(merged(seq![], short) =~= seq![]);
    }
}

/// A light's object shows what is known of that light: what is asked of it,
/// whether it can be reached, and how it describes itself. The object of a light
/// that is gone is blank.
pub proof fn law_an_object_reads_through_to_its_light(world: WorldView, id: Seq<char>)
    ensures
        ({
            let subject = SubjectView::One(id);
            &&& subject.shown_id() == id
            &&& subject.aim() == Aim::Id(id)
            &&& world.lights.contains_key(id) ==> {
                let light = world.lights[id];
                &&& subject.state(world) == light.desired
                &&& subject.online_count(world) == 1 <==> light.reported is Some
                &&& subject.online_count(world) == 0 <==> light.reported is None
                &&& subject.shown_name(world) == light.name
                &&& subject.shown_model(world) == light.model
                &&& subject.shown_firmware(world) == light.firmware
                &&& subject.shown_address(world) == light.endpoint.url()
                &&& subject.shown_error(world) == light.last_error
            }
            &&& !world.lights.contains_key(id) ==> {
                &&& subject.state(world) == (LightState { on: false, brightness: 20, kelvin: 4000 })
                &&& subject.online_count(world) == 0
                &&& subject.shown_name(world).len() == 0
                &&& subject.shown_model(world).len() == 0
                &&& subject.shown_firmware(world).len() == 0
                &&& subject.shown_address(world).len() == 0
                &&& subject.shown_error(world).len() == 0
            }
        }),
{
}

/// The group's object shows the group's state, counts the lights that can be
/// reached, has a name of its own and neither id nor hardware.
pub proof fn law_the_groups_object_shows_the_group(world: WorldView)
    ensures
        ({
            let subject = SubjectView::Group;
            &&& subject.aim() == Aim::Select(Choice::All)
            &&& world.group_state() matches Some(state) ==> subject.state(world) == state
            &&& world.group_state() is None ==> subject.state(world) == (LightState {
                on: false,
                brightness: 20,
                kelvin: 4000,
            })
            &&& subject.online_count(world) == world.lights.dom().filter(
                |id: Seq<char>| world.lights[id].reported is Some,
            ).len()
            &&& subject.shown_id().len() == 0
            &&& subject.shown_name(world) == "All Lights"@
            &&& subject.shown_model(world).len() == 0
            &&& subject.shown_firmware(world).len() == 0
            &&& subject.shown_address(world).len() == 0
            &&& subject.shown_error(world).len() == 0
        }),
{
    assert(online_ids(world.lights) =~= world.lights.dom().filter(
        |id: Seq<char>| world.lights[id].reported is Some,
    ));
}

/// A property that is written to a light reads back as it was written, within what
/// the hardware can do, and the light's other properties stay as they were.
pub proof fn law_a_written_property_reads_back(
    before: WorldView,
    id: Seq<char>,
    on: bool,
    brightness: u8,
    kelvin: u16,
    now: u64,
    after: WorldView,
    requests: Seq<RequestView>,
)
    requires
        crate::laws::gangs_are_finite(before.links),
        crate::laws::separate(before.links),
        before.lights.contains_key(id),
        before.lights[id].desired.valid(),
    ensures
        ({
            let subject = SubjectView::One(id);
            let was = subject.state(before);
            let is = subject.state(after);
            &&& mutated(subject, before, switched(on), now, after, requests) ==> is
                == (LightState { on, ..was })
            &&& mutated(subject, before, dimmed(brightness), now, after, requests) ==> {
                &&& brightness <= 100 ==> is == (LightState { brightness, ..was })
                &&& brightness > 100 ==> is == (LightState { brightness: 100, ..was })
            }
            &&& mutated(subject, before, warmed(kelvin), now, after, requests) ==> {
                &&& 2900 <= kelvin <= 7000 ==> is == (LightState { kelvin, ..was })
                &&& kelvin < 2900 ==> is == (LightState { kelvin: 2900, ..was })
                &&& kelvin > 7000 ==> is == (LightState { kelvin: 7000, ..was })
            }
        }),
{
    crate::laws::law_a_lamp_becomes_what_was_asked(before, id, switched(on), now);
    crate::laws::law_a_lamp_becomes_what_was_asked(before, id, dimmed(brightness), now);
    crate::laws::law_a_lamp_becomes_what_was_asked(before, id, warmed(kelvin), now);
}

/// Which properties are signalled: those of what changed, and no other.
pub proof fn law_signals_name_what_changed(changed: Changed)
    ensures
        ({
            let all = signalled(changed);
            &&& all.contains(Property::Name) <==> changed.meta
            &&& all.contains(Property::Model) <==> changed.meta
            &&& all.contains(Property::Firmware) <==> changed.meta
            &&& all.contains(Property::Address) <==> changed.meta
            &&& all.contains(Property::Online) <==> changed.online
            &&& all.contains(Property::OnlineCount) <==> changed.online
            &&& all.contains(Property::On) <==> changed.on
            &&& all.contains(Property::Brightness) <==> changed.brightness
            &&& all.contains(Property::Kelvin) <==> changed.kelvin
            &&& all.contains(Property::LastError) <==> changed.error
        }),
{
    lemma_signalled(changed, Property::Name);
    lemma_signalled(changed, Property::Model);
    lemma_signalled(changed, Property::Firmware);
    lemma_signalled(changed, Property::Address);
    lemma_signalled(changed, Property::Online);
    lemma_signalled(changed, Property::OnlineCount);
    lemma_signalled(changed, Property::On);
    lemma_signalled(changed, Property::Brightness);
    lemma_signalled(changed, Property::Kelvin);
    lemma_signalled(changed, Property::LastError);
}

proof fn lemma_signalled(changed: Changed, property: Property)
    ensures
        signalled(changed).contains(property) <==> match property {
            Property::Name | Property::Model | Property::Firmware | Property::Address => {
                changed.meta
            },
            Property::Online | Property::OnlineCount => changed.online,
            Property::On => changed.on,
            Property::Brightness => changed.brightness,
            Property::Kelvin => changed.kelvin,
            Property::LastError => changed.error,
        },
{
    let meta = provided(
        changed.meta,
        seq![Property::Name, Property::Model, Property::Firmware, Property::Address],
    );
    let online = provided(changed.online, seq![Property::Online, Property::OnlineCount]);
    let on = provided(changed.on, seq![Property::On]);
    let brightness = provided(changed.brightness, seq![Property::Brightness]);
    let kelvin = provided(changed.kelvin, seq![Property::Kelvin]);
    let error = provided(changed.error, seq![Property::LastError]);
    lemma_four_provided(changed.meta, property);
    lemma_two_provided(changed.online, property);
    lemma_one_provided(changed.on, Property::On, property);
    lemma_one_provided(changed.brightness, Property::Brightness, property);
    lemma_one_provided(changed.kelvin, Property::Kelvin, property);
    lemma_one_provided(changed.error, Property::LastError, property);
    lemma_in_either(meta, online, property);
    lemma_in_either(meta + online, on, property);
    lemma_in_either(meta + online + on, brightness, property);
    lemma_in_either(meta + online + on + brightness, kelvin, property);
    lemma_in_either(meta + online + on + brightness + kelvin, error, property);
}

proof fn lemma_one_provided(wanted: bool, one: Property, property: Property)
    ensures
        provided(wanted, seq![one]).contains(property) <==> wanted && property == one,
{
    assert(seq![one][0] == one);
}

proof fn lemma_two_provided(wanted: bool, property: Property)
    ensures
        provided(wanted, seq![Property::Online, Property::OnlineCount]).contains(property)
            <==> wanted && (property is Online || property is OnlineCount),
{
    let all = seq![Property::Online, Property::OnlineCount];
    assert(all[0] == Property::Online && all[1] == Property::OnlineCount);
}

proof fn lemma_four_provided(wanted: bool, property: Property)
    ensures
        provided(
            wanted,
            seq![Property::Name, Property::Model, Property::Firmware, Property::Address],
        ).contains(property) <==> wanted && (property is Name || property is Model
            || property is Firmware || property is Address),
{
    let all = seq![Property::Name, Property::Model, Property::Firmware, Property::Address];
    assert(all[0] == Property::Name && all[1] == Property::Model);
    assert(all[2] == Property::Firmware && all[3] == Property::Address);
}

proof fn lemma_in_either(a: Seq<Property>, b: Seq<Property>, property: Property)
    ensures
        (a + b).contains(property) <==> a.contains(property) || b.contains(property),
{
    let both = a + b;
    if a.contains(property) {
        let k = choose|k: int| 0 <= k < a.len() && a[k] == property;
        assert(both[k] == property);
    }
    if b.contains(property) {
        let k = choose|k: int| 0 <= k < b.len() && b[k] == property;
        assert(both[a.len() + k] == property);
    }
}

/// A client sees a gang as it is: every member once with its own difference, the
/// reference first, and the name of its mode.
pub proof fn law_clients_see_the_gang_as_it_is(link: LinkView, id: Seq<char>)
    requires
        link.wf(),
        link.offsets.dom().finite(),
        link.offsets.contains_key(id),
    ensures
        ({
            let (mode, members) = shown_gang(link);
            &&& mode == link.mode.word()
            &&& members.len() == link.offsets.dom().len()
            &&& members[0].0 == link.reference
            &&& listed_offset(members, id) == link.offsets[id]
            &&& listed_offset(members, link.reference) == link.offsets[link.reference]
            &&& gang_for(seq![(mode, members)], id) == Some(
                ClientGang { mode, reference: link.reference, members },
            )
            &&& forall|k: int|
                0 <= k < members.len() ==> link.offsets.contains_key((#[trigger] members[k]).0)
        }),
{
    let rest = link.offsets.dom().remove(link.reference);
    let order = in_order(rest);
    let (mode, members) = shown_gang(link);
    lemma_listed(rest);
    assert(link.offsets.contains_key(link.reference));
    assert forall|k: int| 0 < k < members.len() implies #[trigger] members[k] == (
        order[k - 1],
        link.offsets[order[k - 1]],
    ) by {}
    assert forall|k: int| 0 <= k < members.len() implies link.offsets.contains_key(
        (#[trigger] members[k]).0,
    ) by {
        if k > 0 {
            assert(rest.contains(order[k - 1]));
        }
    }
    law_a_difference_is_the_one_listed(members, link.reference, 0);
    let at = if id == link.reference {
        0
    } else {
        assert(order.contains(id));
        let k = choose|k: int| 0 <= k < order.len() && order[k] == id;
        k + 1
    };
    assert(members[at].0 == id);
    assert forall|k: int| 0 <= k < at implies (#[trigger] members[k]).0 != id by {
        if k > 0 {
            assert(order[k - 1] != order[at - 1]);
        }
    }
    law_a_difference_is_the_one_listed(members, id, at);
    assert(listed(members, id));
    let rows = seq![(mode, members)];
    assert(rows[0].1 == members);
    law_a_lights_gang_is_the_first_that_lists_it(rows, id, 0);
}

/// A mode goes by its name and no other word is one.
pub proof fn law_a_mode_goes_by_its_name(mode: LinkMode, word: Seq<char>)
    ensures
        named_mode(mode.word()) == Ok::<LinkMode, RefusalView>(mode),
        LinkMode::Mirror.word() == "mirror"@,
        LinkMode::Offset.word() == "offset"@,
        word != "mirror"@ && word != "offset"@ ==> named_mode(word) == Err::<LinkMode, RefusalView>(
            RefusalView::UnknownMode(word),
        ),
{
    reveal_strlit("mirror");
    reveal_strlit("offset");
    let (a, b) = ("mirror"@, "offset"@);
    assert(a[0] == 'm' && b[0] == 'o');
}

/// A scene name is refused exactly when it is blank, longer than 64 characters or
/// holds a control character, and is otherwise taken without the space around it.
pub proof fn law_scene_names_are_refused_for_cause(raw: Seq<char>)
    ensures
        ({
            let name = trimmed(raw);
            let plain = forall|i: int| 0 <= i < name.len() ==> !control(#[trigger] name[i]);
            &&& name.len() == 0 <==> named_scene(raw) == Err::<Seq<char>, RefusalView>(
                RefusalView::SceneUnnamed,
            )
            &&& name.len() > 64 <==> named_scene(raw) == Err::<Seq<char>, RefusalView>(
                RefusalView::SceneNameTooLong,
            )
            &&& 0 < name.len() <= 64 && !plain <==> (named_scene(raw) matches Err(
                RefusalView::SceneNameControl(bad),
            ) && control(bad) && name.contains(bad))
            &&& 0 < name.len() <= 64 && plain <==> named_scene(raw) == Ok::<Seq<char>, RefusalView>(
                name,
            )
        }),
{
    lemma_control_found(trimmed(raw));
}

proof fn lemma_control_found(text: Seq<char>)
    ensures
        first_control(text) is None <==> forall|i: int|
            0 <= i < text.len() ==> !control(#[trigger] text[i]),
        first_control(text) matches Some(bad) ==> control(bad) && text.contains(bad),
    decreases text.len(),
{
    if text.len() > 0 {
        let rest = text.drop_first();
        lemma_control_found(rest);
        if control(text[0]) {
            assert(text.contains(text[0]));
        } else {
            if let Some(bad) = first_control(rest) {
                let k = choose|k: int| 0 <= k < rest.len() && rest[k] == bad;
                assert(text[k + 1] == bad);
            } else {
                lemma_first_control(text);
            }
        }
    }
}

/// The supervisor is told of a mutation exactly when a light owes a push for it or
/// the group looks different.
pub proof fn law_the_supervisor_is_told_what_moved(
    changes: Seq<(Seq<char>, Changed)>,
    before: WorldView,
    after: WorldView,
)
    ensures
        told(changes, before, after).len() == 0 <==> changes.len() == 0
            && GroupSnapshot::difference(GroupSnapshot::taken(before), GroupSnapshot::taken(after))
            == Changed::nothing(),
        told(changes, before, after).len() > 0 ==> told(changes, before, after) == seq![
            RequestView::Applied {
                changes,
                group_before: GroupSnapshot::taken(before),
                group_after: GroupSnapshot::taken(after),
            },
        ],
{
}

/// A command has to name a value, and is refused for the first token that is none.
pub proof fn law_a_command_has_to_name_a_value(tokens: Seq<Seq<char>>)
    ensures
        patch_of(tokens) matches Err(fault) ==> asked_patch(tokens) == Err::<
            StatePatch,
            RefusalView,
        >(RefusalView::Value(fault)),
        patch_of(tokens) matches Ok(patch) ==> {
            let says_something = patch.power is Some || patch.brightness is Some
                || patch.kelvin is Some;
            &&& says_something ==> asked_patch(tokens) == Ok::<StatePatch, RefusalView>(patch)
            &&& !says_something ==> asked_patch(tokens) == Err::<StatePatch, RefusalView>(
                RefusalView::NoValues,
            )
        },
{
}

/// A command on one gang is aimed at the first light its selector matches, which
/// has to be in a gang.
pub proof fn law_a_gang_is_named_by_its_first_match(world: WorldView, selector: Seq<char>)
    requires
        crate::laws::separate(world.links),
    ensures
        ({
            let found = matches_of(world, selector);
            &&& found.len() == 0 ==> ganged_match(world, selector) == Err::<
                Seq<char>,
                RefusalView,
            >(RefusalView::NoMatch(selector))
            &&& found.len() > 0 && crate::laws::in_gang(world.links, found[0])
                ==> ganged_match(world, selector) == Ok::<Seq<char>, RefusalView>(found[0])
            &&& found.len() > 0 && !crate::laws::in_gang(world.links, found[0])
                ==> ganged_match(world, selector) == Err::<Seq<char>, RefusalView>(
                RefusalView::NotGanged(selector),
            )
        }),
{
    let found = matches_of(world, selector);
    if found.len() > 0 {
        crate::laws::law_a_lamps_gang_is_the_one_that_holds_it(world, 0, found[0]);
        if crate::laws::in_gang(world.links, found[0]) {
            let i = choose|i: int|
                0 <= i < world.links.len() && (#[trigger] world.links[i]).offsets.contains_key(
                    found[0],
                );
            crate::laws::law_a_lamps_gang_is_the_one_that_holds_it(world, i, found[0]);
        }
    }
}

/// Breaking up a light's gang affects every light that was in it.
pub proof fn law_unlinking_affects_the_whole_gang(links: Seq<LinkView>, i: int, id: Seq<char>)
    requires
        crate::laws::separate(links),
    ensures
        0 <= i < links.len() && links[i].offsets.contains_key(id) ==> disbanded(links, seq![id])
            == links[i].offsets.dom(),
        !crate::laws::in_gang(links, id) ==> disbanded(links, seq![id]) == Set::<
            Seq<char>,
        >::empty(),
{
    let ids = seq![id];
    let world = WorldView { links, ..WorldView::blank() };
    assert(ids.drop_last() =~= Seq::empty());
    assert(ids.last() == id);
    reveal_with_fuel(disbanded, 2);
    reveal_with_fuel(all_unlinked, 2);
    crate::laws::law_a_lamps_gang_is_the_one_that_holds_it(world, i, id);
    crate::world::lemma_gang_index(links, id);
    if 0 <= i < links.len() && links[i].offsets.contains_key(id) {
        assert(disbanded(links, ids) =~= links[i].offsets.dom());
    }
    if !crate::laws::in_gang(links, id) {
        assert(disbanded(links, ids) =~= Set::empty());
    }
}

/// Moving a lamp alone announces that lamp and no other, with its brightness where
/// that moves, and nothing at all where no push is owed.
pub proof fn law_moving_a_lamp_alone_announces_that_lamp(
    world: WorldView,
    id: Seq<char>,
    value: u8,
)
    requires
        world.lights.contains_key(id),
    ensures
        ({
            let light = world.lights[id];
            let shown: int = if value > 100 {
                100
            } else {
                value as int
            };
            let news = alone_announced(world, id, value);
            let agreed = light.desired.brightness == shown && light.reported == Some(
                light.desired,
            );
            &&& agreed ==> news.len() == 0
            &&& !agreed ==> news.len() == 1 && news[0].0 == id && (news[0].1.brightness
                <==> light.desired.brightness != shown) && !news[0].1.on && !news[0].1.kelvin
                && !news[0].1.meta && !news[0].1.online && !news[0].1.error
        }),
{
}

/// A refusal says what was refused: the selector, the mode or the scene that was
/// asked for stands in its sentence.
pub proof fn law_a_refusal_names_what_was_refused(
    name: Seq<char>,
    selectors: Seq<Seq<char>>,
    count: int,
)
    ensures
        occurs_in(name, RefusalView::NoMatch(name).sentence()),
        occurs_in(name, RefusalView::NotGanged(name).sentence()),
        occurs_in(name, RefusalView::UnknownMode(name).sentence()),
        occurs_in(name, RefusalView::NoScene(name).sentence()),
        occurs_in(
            debug_text(selectors),
            RefusalView::TooFewLights { selectors, count }.sentence(),
        ),
        occurs_in(decimal(count), RefusalView::TooFewLights { selectors, count }.sentence()),
{
    law_a_text_occurs_where_it_stands("`"@, name, "` matched no light"@, seq![]);
    law_a_text_occurs_where_it_stands("`"@, name, "` is not in a gang"@, seq![]);
    law_a_text_occurs_where_it_stands(
        "unknown link mode `"@,
        name,
        "`; expected `offset` or `mirror`"@,
        seq![],
    );
    law_a_text_occurs_where_it_stands("no scene named `"@, name, "`"@, seq![]);
    let list = debug_text(selectors);
    let tail = " matched "@ + decimal(count) + " light(s); a gang needs at least two"@;
    law_a_text_occurs_where_it_stands(seq![], list, tail, seq![]);
    let sentence = RefusalView::TooFewLights { selectors, count }.sentence();
    assert(sentence =~= seq![] + list + tail);
    law_a_text_occurs_where_it_stands(
        list + " matched "@,
        decimal(count),
        " light(s); a gang needs at least two"@,
        seq![],
    );
}

/// A client that asks for a level is told that of the first match's gang, and
/// otherwise which of the two was missing, a match or a gang.
pub proof fn law_a_level_is_the_first_matchs(world: WorldView, selector: Seq<char>)
    ensures
        ({
            let found = matches_of(world, selector);
            let reply = level_reply(world, selector);
            &&& reply == Err::<i32, RefusalView>(RefusalView::NoMatch(selector)) <==> found.len()
                == 0
            &&& found.len() > 0 && world.level(found[0]) is None <==> reply == Err::<
                i32,
                RefusalView,
            >(RefusalView::NotGanged(selector))
            &&& reply matches Ok(level) ==> found.len() > 0 && world.level(found[0]) == Some(level)
        }),
{
}

/// The character that spoils a scene's name is the first one that does.
pub proof fn law_the_first_offender_is_named(name: Seq<char>)
    ensures
        first_control(name) is None <==> forall|i: int|
            0 <= i < name.len() ==> !control(#[trigger] name[i]),
        first_control(name) matches Some(bad) ==> control(bad) && exists|i: int|
            0 <= i < name.len() && #[trigger] name[i] == bad && forall|k: int|
                0 <= k < i ==> !control(#[trigger] name[k]),
    decreases name.len(),
{
    if name.len() > 0 {
        let rest = name.drop_first();
        law_the_first_offender_is_named(rest);
        if control(name[0]) {
            assert(name[0] == first_control(name)->0);
        } else {
            assert forall|i: int| 0 <= i < rest.len() implies rest[i] == #[trigger] name[i + 1] by {
            }
            if let Some(bad) = first_control(rest) {
                let i = choose|i: int|
                    0 <= i < rest.len() && #[trigger] rest[i] == bad && forall|k: int|
                        0 <= k < i ==> !control(#[trigger] rest[k]);
                assert(name[i + 1] == bad);
                assert forall|k: int| 0 <= k < i + 1 implies !control(#[trigger] name[k]) by {
                    if k > 0 {
                        assert(rest[k - 1] == name[k]);
                    }
                }
            } else {
                assert forall|i: int| 0 <= i < name.len() implies !control(#[trigger] name[i]) by {
                    if i > 0 {
                        assert(rest[i - 1] == name[i]);
                    }
                }
            }
        }
    }
}

/// A refused scene name is told what the limit is, or which character by its
/// number, in four digits of base 16 or more where four are too few.
pub proof fn law_a_refused_name_is_told_why(c: char)
    ensures
        occurs_in(decimal(64), RefusalView::SceneNameTooLong.sentence()),
        occurs_in("U+"@ + four_hex(c as int), RefusalView::SceneNameControl(c).sentence()),
        ({
            let digits = numeral(c as int, 16, true);
            let shown = four_hex(c as int);
            &&& shown.len() >= 4
            &&& shown.len() == 4 || shown == digits
            &&& shown.skip(shown.len() - digits.len()) == digits
            &&& forall|i: int| 0 <= i < shown.len() - digits.len() ==> #[trigger] shown[i] == '0'
        }),
{
    law_a_text_occurs_where_it_stands(
        "scene names are limited to "@,
        decimal(64),
        " characters"@,
        seq![],
    );
    let shown = four_hex(c as int);
    let digits = numeral(c as int, 16, true);
    assert(shown.skip(shown.len() - digits.len()) =~= digits);
    if digits.len() >= 4 {
        assert(shown =~= digits);
    }
    let told = "scene names cannot contain control characters (found U+"@;
    reveal_strlit("scene names cannot contain control characters (found U+");
    reveal_strlit("U+");
    assert(told =~= told.take(told.len() - 2) + "U+"@);
    let opening = told.take(told.len() - 2);
    assert(told + shown + ")"@ =~= opening + ("U+"@ + shown) + ")"@);
    law_a_text_occurs_where_it_stands(opening, "U+"@ + shown, ")"@, seq![]);
}

} // verus!
