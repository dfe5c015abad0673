//! The reconciler: what is owed to the hardware, to the bus and to the disk.
//!
//! One loop drives it. Everything that mutates the world does so synchronously
//! and hands the supervisor a nudge; the supervisor decides what has to happen
//! next, as a list of [`Action`]s, and the loop around it carries them out
//! without ever letting a slow or unreachable light stall it.
//!
//! The cadences are tuned to the hardware rather than to any framework:
//!
//! * **90 ms** debounce — coalesces a slider drag or a key held down into one PUT.
//! * **15 s** refresh — catches changes made from the Elgato app or another host.

use vstd::prelude::*;
use vstd::string::*;

use crate::color::{kelvin_of, law_echo_is_the_same_setting, mired_of, same_mired, valid_kelvin};
use crate::config::{law_gangs_survive_a_round_trip, law_scenes_survive_a_round_trip, links_in,
    scenes_in, writes, Config};
use crate::dbus::{Request, RequestView};
use crate::discovery::{Discovered, DiscoveredView, DiscoveryEvent};
use crate::elgato::{AccessoryInfo, LightEntry, PartialState, PutEnvelope};
use crate::endpoint::Endpoint;
use crate::names::{in_order, lemma_listed, lemma_taken, NameSet};
use crate::record::{Changed, LightId, LightRecord, RecordView};
use crate::scene::link_views;
use crate::state::{unreported, LightState};
use crate::strings::{control, texts};
use crate::text::{law_sanitized_text_is_displayable, sanitize, sanitized, MAX_DISPLAY_LEN};
use crate::world::{carried_ids, existing, lemma_all_existing, touched, GroupSnapshot, World,
    WorldView};

verus! {

broadcast use vstd::string::group_string_axioms;

/// Coalesce rapid changes into a single PUT: how long, in milliseconds.
pub const DEBOUNCE_MS: u64 = 90;

/// How often to re-read every light's authoritative state, in milliseconds.
pub const REFRESH_INTERVAL_MS: u64 = 15_000;

/// The result of a piece of hardware I/O, reported back to the loop.
#[derive(Debug)]
pub enum Io {
    State { id: LightId, result: Result<PartialState, String>, pushed: bool },
    Info { id: LightId, info: AccessoryInfo },
}

/// Something the loop has to carry out.
#[derive(Debug)]
pub enum Action {
    /// Emit `PropertiesChanged` for a light.
    Notify { id: LightId, changed: Changed },
    /// Emit `PropertiesChanged` for the group object.
    NotifyGroup(Changed),
    /// Emit `PropertiesChanged` for the manager's counters.
    NotifyManager,
    /// Emit `PropertiesChanged` for `Manager1.Links`.
    NotifyLinks,
    /// Emit `PropertiesChanged` for `Manager1.Scenes`.
    NotifyScenes,
    /// Write gangs and scenes down.
    Persist,
    /// Put a newly discovered light on the bus.
    Publish(LightId),
    /// Take a light off the bus.
    Withdraw(LightId),
    /// Re-probe these mDNS instances.
    Probe(Vec<String>),
    /// Read a light's state.
    ReadState { id: LightId, url: String },
    /// Read a light's name and firmware.
    ReadInfo { id: LightId, url: String },
    /// Push a complete state to a light.
    Push { id: LightId, url: String, state: LightState },
    /// Ask a light to blink.
    Blink { id: LightId, url: String },
}

/// An [`Action`] as mathematics.
pub enum ActionView {
    Notify { id: Seq<char>, changed: Changed },
    NotifyGroup(Changed),
    NotifyManager,
    NotifyLinks,
    NotifyScenes,
    Persist,
    Publish(Seq<char>),
    Withdraw(Seq<char>),
    Probe(Seq<Seq<char>>),
    ReadState { id: Seq<char>, url: Seq<char> },
    ReadInfo { id: Seq<char>, url: Seq<char> },
    Push { id: Seq<char>, url: Seq<char>, state: LightState },
    Blink { id: Seq<char>, url: Seq<char> },
}

impl View for Action {
    type V = ActionView;

    open spec fn view(&self) -> ActionView {
        match self {
            Action::Notify { id, changed } => ActionView::Notify { id: id@, changed: *changed },
            Action::NotifyGroup(changed) => ActionView::NotifyGroup(*changed),
            Action::NotifyManager => ActionView::NotifyManager,
            Action::NotifyLinks => ActionView::NotifyLinks,
            Action::NotifyScenes => ActionView::NotifyScenes,
            Action::Persist => ActionView::Persist,
            Action::Publish(id) => ActionView::Publish(id@),
            Action::Withdraw(id) => ActionView::Withdraw(id@),
            Action::Probe(fullnames) => ActionView::Probe(texts(fullnames@)),
            Action::ReadState { id, url } => ActionView::ReadState { id: id@, url: url@ },
            Action::ReadInfo { id, url } => ActionView::ReadInfo { id: id@, url: url@ },
            Action::Push { id, url, state } => ActionView::Push {
                id: id@,
                url: url@,
                state: *state,
            },
            Action::Blink { id, url } => ActionView::Blink { id: id@, url: url@ },
        }
    }
}

/// Several actions as mathematics.
pub open spec fn action_views(actions: Seq<Action>) -> Seq<ActionView> {
    actions.map_values(|action: Action| action@)
}

/// Add an action to those already decided on.
fn decide(actions: &mut Vec<Action>, action: Action)
    ensures
        action_views(final(actions)@) == action_views(old(actions)@).push(action@),
{
    let ghost before = actions@;
    actions.push(action);
    assert(action_views(actions@) =~= action_views(before).push(action@));
}

// ---------------------------------------------------------------------------
// Announcing
// ---------------------------------------------------------------------------

/// What is emitted for a light that changed: nothing when no property did.
pub open spec fn light_news(id: Seq<char>, changed: Changed) -> Seq<ActionView> {
    if changed == Changed::nothing() {
        seq![]
    } else {
        seq![ActionView::Notify { id, changed }]
    }
}

/// What is emitted for several lights that changed.
pub open spec fn lights_news(changes: Seq<(Seq<char>, Changed)>) -> Seq<ActionView>
    decreases changes.len(),
{
    if changes.len() == 0 {
        seq![]
    } else {
        lights_news(changes.drop_last()) + light_news(changes.last().0, changes.last().1)
    }
}

/// What is emitted for the group and the manager when the group went from one
/// look to another.
pub open spec fn group_news(before: GroupSnapshot, after: GroupSnapshot) -> Seq<ActionView> {
    let changed = GroupSnapshot::difference(before, after);
    let group = if changed == Changed::nothing() {
        seq![]
    } else {
        seq![ActionView::NotifyGroup(changed)]
    };
    if before.members != after.members || before.online != after.online {
        group.push(ActionView::NotifyManager)
    } else {
        group
    }
}

fn emit_light(actions: &mut Vec<Action>, id: &str, changed: Changed)
    ensures
        action_views(final(actions)@) == action_views(old(actions)@) + light_news(id@, changed),
{
    if changed.any() {
        decide(actions, Action::Notify { id: id.to_owned(), changed });
    }
    assert(action_views(actions@) =~= action_views(old(actions)@) + light_news(id@, changed));
}

fn emit_group_diff(actions: &mut Vec<Action>, before: GroupSnapshot, after: GroupSnapshot)
    ensures
        action_views(final(actions)@) == action_views(old(actions)@) + group_news(before, after),
{
    let changed = GroupSnapshot::diff(before, after);
    if changed.any() {
        decide(actions, Action::NotifyGroup(changed));
    }
    if GroupSnapshot::membership_changed(before, after) {
        decide(actions, Action::NotifyManager);
    }
    assert(action_views(actions@) =~= action_views(old(actions)@) + group_news(before, after));
}

// ---------------------------------------------------------------------------
// Reading back
// ---------------------------------------------------------------------------

/// What reading one light takes: its state, and its name and firmware as long as
/// they are not known.
pub open spec fn reading(world: WorldView, id: Seq<char>) -> Seq<ActionView> {
    if world.lights.contains_key(id) {
        let url = world.lights[id].endpoint.url();
        if world.lights[id].firmware.len() == 0 {
            seq![ActionView::ReadState { id, url }, ActionView::ReadInfo { id, url }]
        } else {
            seq![ActionView::ReadState { id, url }]
        }
    } else {
        seq![]
    }
}

/// What reading several lights takes.
pub open spec fn readings(world: WorldView, ids: Seq<Seq<char>>) -> Seq<ActionView>
    decreases ids.len(),
{
    if ids.len() == 0 {
        seq![]
    } else {
        readings(world, ids.drop_last()) + reading(world, ids.last())
    }
}

fn refresh_one(actions: &mut Vec<Action>, world: &World, id: &str)
    ensures
        action_views(final(actions)@) == action_views(old(actions)@) + reading(world@, id@),
{
    if let Some(light) = world.get(id) {
        let url = light.endpoint.base_url();
        decide(actions, Action::ReadState { id: id.to_owned(), url: url.clone() });
        if light.firmware.as_str().unicode_len() == 0 {
            decide(actions, Action::ReadInfo { id: id.to_owned(), url });
        }
    }
    assert(action_views(actions@) =~= action_views(old(actions)@) + reading(world@, id@));
}

fn refresh_all(actions: &mut Vec<Action>, world: &World)
    ensures
        action_views(final(actions)@) == action_views(old(actions)@) + readings(
            world@,
            in_order(world@.lights.dom()),
        ),
{
    let ghost before = action_views(actions@);
    let ids = world.ids();
    let ghost names = texts(ids@);
    let mut i: usize = 0;
    assert(names.take(0) =~= Seq::empty());
    assert(action_views(actions@) =~= before + readings(world@, names.take(0)));
    while i < ids.len()
        invariant
            i <= ids@.len(),
            names == texts(ids@),
            action_views(actions@) == before + readings(world@, names.take(i as int)),
        decreases ids@.len() - i,
    {
        proof {
            assert(names.take(i + 1).drop_last() =~= names.take(i as int));
            assert(names.take(i + 1).last() == ids@[i as int]@);
        }
        refresh_one(actions, world, ids[i].as_str());
        i += 1;
        assert(action_views(actions@) =~= before + readings(world@, names.take(i as int)));
    }
    assert(names.take(i as int) =~= names);
}

// ---------------------------------------------------------------------------
// Pushing
// ---------------------------------------------------------------------------

/// Whether a light's debounce window has elapsed.
pub open spec fn ripe(record: RecordView, now: u64) -> bool {
    record.dirty_since matches Some(since) && now - since >= DEBOUNCE_MS
}

/// Where the lights are filed whose debounce window has elapsed.
pub open spec fn due(world: WorldView, now: u64) -> Set<Seq<char>> {
    world.lights.dom().filter(|place: Seq<char>| ripe(world.lights[place], now))
}

/// The ids of the lights that are to be pushed now, in the order they are filed.
pub open spec fn due_ids(world: WorldView, now: u64) -> Seq<Seq<char>> {
    carried_ids(world.lights, in_order(due(world, now)))
}

/// The pushes that are due: one for each id that is due and that a light is
/// filed under.
pub open spec fn pushes(world: WorldView, now: u64) -> Seq<ActionView> {
    push_views(world, existing(world.lights, due_ids(world, now)))
}

/// A push for each of some lights, to where the light is and of what is desired
/// of it.
pub open spec fn push_views(world: WorldView, ids: Seq<Seq<char>>) -> Seq<ActionView> {
    ids.map_values(
        |id: Seq<char>|
            ActionView::Push {
                id,
                url: world.lights[id].endpoint.url(),
                state: world.lights[id].desired,
            },
    )
}

/// The world once the pushes that are due went out.
pub open spec fn flushed(world: WorldView, now: u64) -> WorldView {
    WorldView {
        lights: Map::new(
            |id: Seq<char>| world.lights.contains_key(id),
            |id: Seq<char>|
                if due_ids(world, now).contains(id) {
                    RecordView { dirty_since: None, ..world.lights[id] }
                } else {
                    world.lights[id]
                },
        ),
        ..world
    }
}

/// The earliest of a moment and the end of every pending light's debounce
/// window.
pub open spec fn earliest(lights: Map<Seq<char>, RecordView>, ids: Seq<Seq<char>>, first: int) -> int
    decreases ids.len(),
{
    if ids.len() == 0 {
        first
    } else {
        let before = earliest(lights, ids.drop_last(), first);
        match lights[ids.last()].dirty_since {
            Some(since) => if since + DEBOUNCE_MS < before {
                since + DEBOUNCE_MS
            } else {
                before
            },
            None => before,
        }
    }
}

// ---------------------------------------------------------------------------
// What the hardware says
// ---------------------------------------------------------------------------

/// What a report means for a light: the fields it gives, over what was asked
/// for. A temperature on the same mired as the one asked for is that one: the
/// two are one hardware setting.
pub open spec fn heard(record: RecordView, partial: PartialState) -> LightState {
    let merged = partial.over(record.desired);
    if mired_of(merged.kelvin as int) == mired_of(record.desired.kelvin as int) {
        LightState { kelvin: record.desired.kelvin, ..merged }
    } else {
        merged
    }
}

/// The light after it reported its state.
pub open spec fn after_report(record: RecordView, partial: PartialState) -> RecordView {
    let merged = heard(record, partial);
    RecordView {
        reported: Some(merged),
        last_error: seq![],
        desired: if record.dirty_since is None {
            merged
        } else {
            record.desired
        },
        ..record
    }
}

/// The light after it could not be reached.
pub open spec fn after_failure(record: RecordView, error: Seq<char>) -> RecordView {
    RecordView { reported: None, last_error: error, ..record }
}

/// A text, unless it is empty and another is to be kept.
pub open spec fn unless_empty(text: Seq<char>, kept: Seq<char>) -> Seq<char> {
    if text.len() == 0 {
        kept
    } else {
        text
    }
}

/// The light after it told its name and firmware. Text that comes to nothing
/// once it is fit to show does not replace a name or a model.
pub open spec fn after_info(
    record: RecordView,
    display_name: Seq<char>,
    product_name: Seq<char>,
    firmware_version: Seq<char>,
) -> RecordView {
    RecordView {
        name: unless_empty(sanitized(display_name), record.name),
        model: unless_empty(sanitized(product_name), record.model),
        firmware: sanitized(firmware_version),
        ..record
    }
}

/// What an answer makes of a light.
pub open spec fn after_io(record: RecordView, io: Io) -> RecordView {
    match io {
        Io::State { id, result, pushed } => match result {
            Ok(partial) => after_report(record, partial),
            Err(error) => after_failure(record, error@),
        },
        Io::Info { id, info } => after_info(
            record,
            info.display_name@,
            info.product_name@,
            info.firmware_version@,
        ),
    }
}

/// The light that answered.
pub open spec fn io_id(io: Io) -> Seq<char> {
    match io {
        Io::State { id, result, pushed } => id@,
        Io::Info { id, info } => id@,
    }
}

/// The world with one light edited, if it exists.
pub open spec fn edited(world: WorldView, id: Seq<char>, next: RecordView) -> WorldView {
    if world.lights.contains_key(id) {
        WorldView { lights: world.lights.insert(id, next), ..world }
    } else {
        world
    }
}

/// What is emitted when one light was edited: exactly the property changes that
/// resulted.
pub open spec fn edit_news(world: WorldView, id: Seq<char>, next: RecordView) -> Seq<ActionView> {
    if world.lights.contains_key(id) {
        light_news(id, Changed::difference(world.lights[id], next)) + group_news(
            GroupSnapshot::taken(world),
            GroupSnapshot::taken(edited(world, id, next)),
        )
    } else {
        seq![]
    }
}

/// Edit one light, then emit exactly the property changes that resulted.
fn update(actions: &mut Vec<Action>, world: &mut World, id: &str, next: LightRecord)
    ensures
        final(world)@ == edited(old(world)@, id@, next@),
        action_views(final(actions)@) == action_views(old(actions)@) + edit_news(
            old(world)@,
            id@,
            next@,
        ),
{
    let ghost start = action_views(actions@);
    let before = GroupSnapshot::of(world);
    let ghost was = world@;
    let changed = match world.get(id) {
        Some(light) => Changed::between(light, &next),
        None => {
            assert(action_views(actions@) =~= start + edit_news(was, id@, next@));
            return ;
        },
    };
    if let Some(light) = world.get_mut(id) {
        *light = next;
    }
    let after = GroupSnapshot::of(world);
    emit_light(actions, id, changed);
    emit_group_diff(actions, before, after);
    assert(action_views(actions@) =~= start + edit_news(was, id@, next@));
}

// ---------------------------------------------------------------------------
// What discovery says
// ---------------------------------------------------------------------------

/// The record of a light that was just found.
pub open spec fn newcomer(found: DiscoveredView) -> RecordView {
    RecordView {
        id: found.id,
        fullname: found.fullname,
        name: found.name,
        model: found.model,
        firmware: seq![],
        endpoint: Endpoint { addr: found.addr, port: found.port },
        desired: unreported(),
        reported: None,
        last_error: seq![],
        dirty_since: None,
    }
}

/// The record of a known light that was found again: the address may have moved,
/// its state is kept.
pub open spec fn rerouted(record: RecordView, found: DiscoveredView) -> RecordView {
    RecordView {
        endpoint: Endpoint { addr: found.addr, port: found.port },
        fullname: found.fullname,
        model: unless_empty(found.model, record.model),
        ..record
    }
}

/// The world after a light was found.
pub open spec fn after_found(world: WorldView, found: DiscoveredView) -> WorldView {
    if world.lights.contains_key(found.id) {
        edited(world, found.id, rerouted(world.lights[found.id], found))
    } else {
        WorldView { lights: world.lights.insert(found.id, newcomer(found)), ..world }
    }
}

/// What finding a light calls for: publish or announce it, then read it.
pub open spec fn found_actions(world: WorldView, found: DiscoveredView) -> Seq<ActionView> {
    let after = after_found(world, found);
    if world.lights.contains_key(found.id) {
        edit_news(world, found.id, rerouted(world.lights[found.id], found)) + reading(
            after,
            found.id,
        )
    } else {
        seq![ActionView::Publish(found.id)] + group_news(
            GroupSnapshot::taken(world),
            GroupSnapshot::taken(after),
        ) + reading(after, found.id)
    }
}

/// The world after a light went away.
pub open spec fn after_lost(world: WorldView, id: Seq<char>) -> WorldView {
    WorldView { lights: world.lights.remove(id), ..world }
}

/// What a light going away calls for.
pub open spec fn lost_actions(world: WorldView, id: Seq<char>) -> Seq<ActionView> {
    if world.lights.contains_key(id) {
        seq![ActionView::Withdraw(id)] + group_news(
            GroupSnapshot::taken(world),
            GroupSnapshot::taken(after_lost(world, id)),
        )
    } else {
        seq![]
    }
}

// ---------------------------------------------------------------------------
// What clients ask for
// ---------------------------------------------------------------------------

/// The mDNS instances of every light, in order of their ids.
pub open spec fn fullnames(world: WorldView) -> Seq<Seq<char>> {
    in_order(world.lights.dom()).map_values(|id: Seq<char>| world.lights[id].fullname)
}

/// What blinking several lights takes; a light that is gone is passed over.
pub open spec fn blinks(world: WorldView, ids: Seq<Seq<char>>) -> Seq<ActionView>
    decreases ids.len(),
{
    if ids.len() == 0 {
        seq![]
    } else if world.lights.contains_key(ids.last()) {
        blinks(world, ids.drop_last()).push(
            ActionView::Blink { id: ids.last(), url: world.lights[ids.last()].endpoint.url() },
        )
    } else {
        blinks(world, ids.drop_last())
    }
}

/// What a request calls for. The world was already changed by the interface that
/// took the command; what is owed here is the announcement. The push itself
/// follows from the deadline noticing the newly dirty lights.
pub open spec fn request_actions(world: WorldView, request: RequestView) -> Seq<ActionView> {
    match request {
        RequestView::Applied { changes, group_before, group_after } => lights_news(changes)
            + group_news(group_before, group_after),
        RequestView::RefreshAll => readings(world, in_order(world.lights.dom())),
        RequestView::Rescan => seq![ActionView::Probe(fullnames(world))] + readings(
            world,
            in_order(world.lights.dom()),
        ),
        RequestView::Identify(ids) => blinks(world, ids),
        RequestView::LinksChanged => seq![ActionView::Persist, ActionView::NotifyLinks],
        RequestView::ScenesChanged => seq![ActionView::Persist, ActionView::NotifyScenes],
    }
}

/// A moment some time after another, or the last there is.
pub open spec fn later(now: u64, delay: u64) -> u64 {
    if now + delay > u64::MAX {
        u64::MAX
    } else {
        (now + delay) as u64
    }
}

/// When every light is read again, once scheduled work fell due.
pub open spec fn refresh_after(now: u64, next_refresh: u64) -> u64 {
    if now >= next_refresh {
        later(now, REFRESH_INTERVAL_MS)
    } else {
        next_refresh
    }
}

/// The scheduled work that is due: the pushes, and the reading of every light once
/// it is time for that.
pub open spec fn due_actions(world: WorldView, now: u64, next_refresh: u64) -> Seq<ActionView> {
    if now >= next_refresh {
        pushes(world, now) + readings(flushed(world, now), in_order(world.lights.dom()))
    } else {
        pushes(world, now)
    }
}

fn after_delay(now: u64, delay: u64) -> (r: u64)
    ensures
        r == later(now, delay),
{
    if now > u64::MAX - delay {
        u64::MAX
    } else {
        now + delay
    }
}

/// The reconcile schedule.
#[derive(Clone, Copy, Debug, PartialEq, Eq, Structural)]
pub struct Supervisor {
    /// When every light is read again, in milliseconds of the daemon's clock.
    pub next_refresh: u64,
}

impl Supervisor {
    /// Start the schedule.
    pub fn new(now: u64) -> (r: Self)
        ensures
            r.next_refresh == later(now, REFRESH_INTERVAL_MS),
    {
        Supervisor { next_refresh: after_delay(now, REFRESH_INTERVAL_MS) }
    }

    /// When the loop next has scheduled work: the earliest pending push, or the
    /// next refresh, whichever comes first.
    pub fn deadline(&self, world: &World) -> (r: u64)
        ensures
            r == earliest(
                world@.lights,
                in_order(world@.lights.dom()),
                self.next_refresh as int,
            ),
    {
        let ghost order = in_order(world@.lights.dom());
        let total: usize = world.len();
        let mut first: u64 = self.next_refresh;
        let mut i: usize = 0;
        assert(order.take(0) =~= Seq::empty());
        while i < total
            invariant
                i <= total,
                total == world@.lights.dom().len(),
                total == order.len(),
                order == in_order(world@.lights.dom()),
                first == earliest(
                    world@.lights,
                    order.take(i as int),
                    self.next_refresh as int,
                ),
            decreases total - i,
        {
            proof {
                assert(order.take(i + 1).drop_last() =~= order.take(i as int));
                assert(order.take(i + 1).last() == order[i as int]);
            }
            if let Some(since) = world.at(i).dirty_since {
                if since <= u64::MAX - DEBOUNCE_MS && since + DEBOUNCE_MS < first {
                    first = since + DEBOUNCE_MS;
                }
            }
            i += 1;
        }
        assert(order.take(i as int) =~= order);
        first
    }

    /// Scheduled work fell due.
    pub fn on_deadline(&mut self, world: &mut World, now: u64) -> (r: Vec<Action>)
        ensures
            final(world)@ == flushed(old(world)@, now),
            final(self).next_refresh == refresh_after(now, old(self).next_refresh),
            action_views(r@) == due_actions(old(world)@, now, old(self).next_refresh),
            old(world)@.wf() ==> final(world)@.wf(),
    {
        let ghost was = world@;
        let mut actions = flush_dirty(world, now);
        if now >= self.next_refresh {
            self.next_refresh = after_delay(now, REFRESH_INTERVAL_MS);
            refresh_all(&mut actions, world);
        }
        assert(flushed(was, now).lights.dom() =~= was.lights.dom());
        actions
    }

    /// A client asked for something.
    pub fn on_request(&self, world: &World, request: &Request) -> (r: Vec<Action>)
        ensures
            action_views(r@) == request_actions(world@, request@),
    {
        let mut actions: Vec<Action> = Vec::new();
        assert(action_views(actions@) =~= seq![]);
        match request {
            Request::Applied { changes, group_before, group_after } => {
                let ghost moved = touched(changes@);
                let mut i: usize = 0;
                assert(moved.take(0) =~= Seq::empty());
                while i < changes.len()
                    invariant
                        i <= changes@.len(),
                        moved == touched(changes@),
                        action_views(actions@) == lights_news(moved.take(i as int)),
                    decreases changes@.len() - i,
                {
                    proof {
                        assert(moved.take(i + 1).drop_last() =~= moved.take(i as int));
                        assert(moved.take(i + 1).last() == changes@[i as int]@);
                    }
                    emit_light(&mut actions, changes[i].0.as_str(), changes[i].1);
                    i += 1;
                }
                assert(moved.take(i as int) =~= moved);
                emit_group_diff(&mut actions, *group_before, *group_after);
            },
            Request::RefreshAll => {
                refresh_all(&mut actions, world);
                assert(action_views(actions@) =~= readings(
                    world@,
                    in_order(world@.lights.dom()),
                ));
            },
            Request::Rescan => {
                decide(&mut actions, Action::Probe(list_fullnames(world)));
                refresh_all(&mut actions, world);
                assert(action_views(actions@) =~= seq![ActionView::Probe(fullnames(world@))]
                    + readings(world@, in_order(world@.lights.dom())));
            },
            Request::Identify(ids) => {
                let ghost names = texts(ids@);
                let mut i: usize = 0;
                assert(names.take(0) =~= Seq::empty());
                while i < ids.len()
                    invariant
                        i <= ids@.len(),
                        names == texts(ids@),
                        action_views(actions@) == blinks(world@, names.take(i as int)),
                    decreases ids@.len() - i,
                {
                    proof {
                        assert(names.take(i + 1).drop_last() =~= names.take(i as int));
                        assert(names.take(i + 1).last() == ids@[i as int]@);
                    }
                    if let Some(light) = world.get(ids[i].as_str()) {
                        decide(
                            &mut actions,
                            Action::Blink { id: ids[i].clone(), url: light.endpoint.base_url() },
                        );
                    }
                    i += 1;
                }
                assert(names.take(i as int) =~= names);
            },
            Request::LinksChanged => {
                decide(&mut actions, Action::Persist);
                decide(&mut actions, Action::NotifyLinks);
                assert(action_views(actions@) =~= seq![
                    ActionView::Persist,
                    ActionView::NotifyLinks,
                ]);
            },
            Request::ScenesChanged => {
                decide(&mut actions, Action::Persist);
                decide(&mut actions, Action::NotifyScenes);
                assert(action_views(actions@) =~= seq![
                    ActionView::Persist,
                    ActionView::NotifyScenes,
                ]);
            },
        }
        actions
    }

    /// Something changed on the network.
    pub fn on_discovery(&self, world: &mut World, event: &DiscoveryEvent) -> (r: Vec<Action>)
        ensures
            match event {
                DiscoveryEvent::Found(found) => {
                    &&& final(world)@ == after_found(old(world)@, found@)
                    &&& action_views(r@) == found_actions(old(world)@, found@)
                },
                DiscoveryEvent::Lost(id) => {
                    &&& final(world)@ == after_lost(old(world)@, id@)
                    &&& action_views(r@) == lost_actions(old(world)@, id@)
                },
            },
            old(world)@.wf() ==> final(world)@.wf(),
    {
        match event {
            DiscoveryEvent::Found(found) => self.on_found(world, found),
            DiscoveryEvent::Lost(id) => self.on_lost(world, id.as_str()),
        }
    }

    /// A light was found, for the first time or again.
    pub fn on_found(&self, world: &mut World, found: &Discovered) -> (r: Vec<Action>)
        ensures
            final(world)@ == after_found(old(world)@, found@),
            action_views(r@) == found_actions(old(world)@, found@),
            old(world)@.wf() ==> final(world)@.wf(),
    {
        let ghost was = world@;
        let endpoint = Endpoint { addr: found.addr, port: found.port };
        let mut actions: Vec<Action> = Vec::new();
        assert(action_views(actions@) =~= seq![]);
        let known = match world.get(found.id.as_str()) {
            Some(light) => Some(light.clone()),
            None => None,
        };
        match known {
            Some(light) => {
                // A re-resolve: the address may have moved. Keep state, update
                // route.
                let mut next = light;
                next.endpoint = endpoint;
                next.fullname = found.fullname.clone();
                if found.model.as_str().unicode_len() > 0 {
                    next.model = found.model.clone();
                }
                assert(next@ =~= rerouted(was.lights[found@.id], found@));
                update(&mut actions, world, found.id.as_str(), next);
            },
            None => {
                let record = LightRecord {
                    id: found.id.clone(),
                    fullname: found.fullname.clone(),
                    name: found.name.clone(),
                    model: found.model.clone(),
                    firmware: String::new(),
                    endpoint,
                    desired: LightState::default(),
                    reported: None,
                    last_error: String::new(),
                    dirty_since: None,
                };
                assert(record@ =~= newcomer(found@));
                let before = GroupSnapshot::of(world);
                let _ = world.insert(record);
                let after = GroupSnapshot::of(world);
                decide(&mut actions, Action::Publish(found.id.clone()));
                emit_group_diff(&mut actions, before, after);
            },
        }
        refresh_one(&mut actions, world, found.id.as_str());
        assert(action_views(actions@) =~= found_actions(was, found@));
        actions
    }

    /// A light went away.
    pub fn on_lost(&self, world: &mut World, id: &str) -> (r: Vec<Action>)
        ensures
            final(world)@ == after_lost(old(world)@, id@),
            action_views(r@) == lost_actions(old(world)@, id@),
            old(world)@.wf() ==> final(world)@.wf(),
    {
        let ghost was = world@;
        let mut actions: Vec<Action> = Vec::new();
        assert(action_views(actions@) =~= seq![]);
        let before = GroupSnapshot::of(world);
        if world.remove(id).is_none() {
            return actions;
        }
        let after = GroupSnapshot::of(world);
        decide(&mut actions, Action::Withdraw(id.to_owned()));
        emit_group_diff(&mut actions, before, after);
        assert(action_views(actions@) =~= lost_actions(was, id@));
        actions
    }

    /// A light answered, or failed to.
    pub fn on_io(&self, world: &mut World, io: &Io) -> (r: Vec<Action>)
        ensures
            ({
                let id = io_id(*io);
                let next = after_io(old(world)@.lights[id], *io);
                &&& final(world)@ == edited(old(world)@, id, next)
                &&& action_views(r@) == edit_news(old(world)@, id, next)
            }),
            old(world)@.wf() ==> final(world)@.wf(),
    {
        let ghost was = world@;
        let ghost id = io_id(*io);
        let mut actions: Vec<Action> = Vec::new();
        assert(action_views(actions@) =~= seq![]);
        let name = match io {
            Io::State { id, result, pushed } => id.as_str(),
            Io::Info { id, info } => id.as_str(),
        };
        let mut next = match world.get(name) {
            Some(light) => light.clone(),
            None => return actions,
        };
        match io {
            Io::State { id, result, pushed } => match result {
                Ok(partial) => {
                    let mut merged = partial.merge_into(next.desired);
                    // Keep the requested Kelvin when the echo lands on the same
                    // mired: the two are one hardware setting, and showing 4202K
                    // after the user typed 4200k is an artifact of reciprocal
                    // rounding, not information.
                    if same_mired(merged.kelvin, next.desired.kelvin) {
                        merged.kelvin = next.desired.kelvin;
                    }
                    next.reported = Some(merged);
                    next.last_error = String::new();
                    // Adopt the hardware's truth only when no push is owed.
                    // Mid-flight, `desired` is the more recent intent and
                    // overwriting it would undo the user's command.
                    if next.dirty_since.is_none() {
                        next.desired = merged;
                    }
                },
                Err(error) => {
                    next.reported = None;  // no report *is* offline
                    next.last_error = error.clone();
                },
            },
            Io::Info { id, info } => {
                let display_name = sanitize(info.display_name.as_str());
                if display_name.as_str().unicode_len() > 0 {
                    next.name = display_name;
                }
                let product_name = sanitize(info.product_name.as_str());
                if product_name.as_str().unicode_len() > 0 {
                    next.model = product_name;
                }
                next.firmware = sanitize(info.firmware_version.as_str());
            },
        }
        assert(next@ =~= after_io(was.lights[id], *io));
        update(&mut actions, world, name, next);
        assert(action_views(actions@) =~= edit_news(was, id, after_io(was.lights[id], *io)));
        actions
    }
}

fn list_fullnames(world: &World) -> (r: Vec<String>)
    ensures
        texts(r@) == fullnames(world@),
{
    let ghost order = in_order(world@.lights.dom());
    let total: usize = world.len();
    let mut out: Vec<String> = Vec::new();
    let mut i: usize = 0;
    while i < total
        invariant
            i <= total,
            total == world@.lights.dom().len(),
            total == order.len(),
            order == in_order(world@.lights.dom()),
            out@.len() == i,
            forall|j: int| 0 <= j < i ==> (#[trigger] out@[j])@ == world@.lights[order[j]].fullname,
        decreases total - i,
    {
        out.push(world.at(i).fullname.clone());
        i += 1;
    }
    assert(texts(out@) =~= fullnames(world@));
    out
}

/// Push every light whose debounce window has elapsed.
///
/// The mark is cleared *before* the request goes out, so a command arriving
/// mid-flight marks the light dirty again and gets its own push rather than
/// being swallowed.
fn flush_dirty(world: &mut World, now: u64) -> (r: Vec<Action>)
    ensures
        final(world)@ == flushed(old(world)@, now),
        action_views(r@) == pushes(old(world)@, now),
{
    let ghost was = world@;
    let ghost goal = due(was, now);
    let ghost all = in_order(was.lights.dom());
    let total: usize = world.len();
    proof {
        lemma_listed(was.lights.dom());
        vstd::set_lib::lemma_set_subset_finite(was.lights.dom(), goal);
        lemma_listed(goal);
    }
    let mut chosen = NameSet::new();
    let ids = world.ids();
    let mut i: usize = 0;
    while i < ids.len()
        invariant
            i <= ids@.len(),
            world@ == was,
            texts(ids@) == all,
            goal == due(was, now),
            total == all.len(),
            all == in_order(was.lights.dom()),
            forall|j: int| 0 <= j < all.len() ==> was.lights.contains_key(#[trigger] all[j]),
            forall|id: Seq<char>| #[trigger]
                chosen@.contains(id) <==> all.take(i as int).contains(id) && goal.contains(id),
        decreases ids@.len() - i,
    {
        proof {
            lemma_taken(all, i as int);
            assert(all[i as int] == ids@[i as int]@);
            assert(was.lights.contains_key(all[i as int]));
        }
        if let Some(light) = world.get(ids[i].as_str()) {
            if let Some(since) = light.dirty_since {
                if now >= since && now - since >= DEBOUNCE_MS {
                    let _ = chosen.insert(ids[i].clone());
                }
            }
        }
        i += 1;
    }
    proof {
        assert(texts(ids@).len() == ids@.len());
        assert(all.take(i as int) =~= all);
        assert(chosen@ =~= goal);
    }
    let places = chosen.names();
    let ghost filed = in_order(goal);
    let ghost names = due_ids(was, now);
    let mut order: Vec<String> = Vec::new();
    let mut n: usize = 0;
    assert(texts(places@).len() == places@.len());
    while n < places.len()
        invariant
            n <= places@.len(),
            world@ == was,
            texts(places@) == filed,
            filed.len() == places@.len(),
            forall|j: int| 0 <= j < filed.len() ==> was.lights.contains_key(#[trigger] filed[j]),
            order@.len() == n,
            forall|j: int| 0 <= j < n ==> (#[trigger] order@[j])@ == was.lights[filed[j]].id,
        decreases places@.len() - n,
    {
        assert(filed[n as int] == places@[n as int]@);
        if let Some(light) = world.get(places[n].as_str()) {
            order.push(light.id.clone());
        }
        n += 1;
    }
    assert(texts(order@) =~= names);
    let mut actions: Vec<Action> = Vec::new();
    let mut k: usize = 0;
    proof {
        reveal(Seq::filter);
        assert(names.take(0) =~= Seq::empty());
        assert(action_views(actions@) =~= push_views(was, existing(was.lights, names.take(0))));
    }
    while k < order.len()
        invariant
            k <= order@.len(),
            texts(order@) == names,
            world@.links == was.links,
            world@.scenes == was.scenes,
            world@.lights.dom() == was.lights.dom(),
            forall|id: Seq<char>| #[trigger]
                was.lights.contains_key(id) ==> world@.lights[id] == if names.take(
                    k as int,
                ).contains(id) {
                    RecordView { dirty_since: None, ..was.lights[id] }
                } else {
                    was.lights[id]
                },
            action_views(actions@) == push_views(was, existing(was.lights, names.take(k as int))),
        decreases order@.len() - k,
    {
        let ghost before = existing(was.lights, names.take(k as int));
        proof {
            reveal(Seq::filter);
            lemma_taken(names, k as int);
            assert(names[k as int] == order@[k as int]@);
            assert(names.take(k + 1).drop_last() =~= names.take(k as int));
            assert(names.take(k + 1).last() == names[k as int]);
        }
        if let Some(light) = world.get_mut(order[k].as_str()) {
            light.dirty_since = None;
            let url = light.endpoint.base_url();
            let state = light.desired;
            decide(&mut actions, Action::Push { id: order[k].clone(), url, state });
            proof {
                let id = names[k as int];
                assert(push_views(was, before.push(id)) =~= push_views(was, before).push(
                    ActionView::Push {
                        id,
                        url: was.lights[id].endpoint.url(),
                        state: was.lights[id].desired,
                    },
                ));
            }
        }
        k += 1;
        assert(world@.lights.dom() =~= was.lights.dom());
    }
    proof {
        assert(texts(order@).len() == order@.len());
        assert(names.take(k as int) =~= names);
        assert(world@.lights =~= flushed(was, now).lights);
    }
    actions
}

// ---------------------------------------------------------------------------
// What outlives a restart
// ---------------------------------------------------------------------------

/// What is written down of the world: gangs and scenes are user intent and
/// outlive a restart; everything else about a light is re-discovered.
pub fn persisted(world: &World) -> (r: Config)
    ensures
        r.links@.len() == world@.links.len(),
        forall|i: int|
            0 <= i < world@.links.len() ==> writes(#[trigger] r.links@[i], world@.links[i]),
        r.scenes@.len() == in_order(world@.scenes.dom()).len(),
        forall|i: int|
            0 <= i < r.scenes@.len() ==> {
                &&& (#[trigger] r.scenes@[i]).name@ == in_order(world@.scenes.dom())[i]
                &&& r.scenes@[i].scene() == world@.scenes[in_order(world@.scenes.dom())[i]]
            },
        world@.scenes.dom().finite(),
{
    let mut config = Config::default();
    let links = world.links();
    config.set_links(links);
    proof {
        assert forall|i: int| 0 <= i < world@.links.len() implies writes(
            #[trigger] config.links@[i],
            world@.links[i],
        ) by {
            assert(link_views(links@)[i] == links@[i]@);
        }
        assert(link_views(links@).len() == links@.len());
    }
    config.set_scenes(world.scenes());
    config
}

/// The world a daemon starts with: what was written down, and no lights yet.
pub fn restored(config: &Config) -> (r: World)
    ensures
        r@ == (WorldView {
            links: links_in(config.links@),
            scenes: scenes_in(config.scenes@),
            ..WorldView::blank()
        }),
        r@.wf(),
{
    let mut world = World::default();
    world.set_links(config.links());
    world.set_scenes(config.scenes());
    world
}

// ---------------------------------------------------------------------------
// Laws
// ---------------------------------------------------------------------------

/// What a light answers when it took a state: the body it was sent.
pub open spec fn echo(state: LightState) -> PartialState {
    let sent = PutEnvelope::of(state).light;
    LightEntry {
        on: Some(sent.on),
        brightness: Some(sent.brightness),
        temperature: Some(sent.temperature),
    }.partial()
}

/// A light that echoes what it was sent has converged: what was asked for stands
/// exactly as it was asked, down to the Kelvin, the hardware agrees with it, and
/// no further push is owed.
pub proof fn law_an_echo_leaves_the_request_standing(record: RecordView)
    requires
        record.desired.valid(),
    ensures
        heard(record, echo(record.desired)) == record.desired,
        after_report(record, echo(record.desired)).desired == record.desired,
        after_report(record, echo(record.desired)).reported == Some(record.desired),
        !after_report(record, echo(record.desired)).owes(record.desired),
{
    law_echo_is_the_same_setting(record.desired.kelvin as int);
    let merged = echo(record.desired).over(record.desired);
    assert(merged.kelvin == valid_kelvin(kelvin_of(mired_of(record.desired.kelvin as int))));
    assert(mired_of(merged.kelvin as int) == mired_of(record.desired.kelvin as int));
}

/// Whatever a light answers, what it is asked for and what it is held to have
/// reported stay within what its hardware can do, and it stays the same light.
pub proof fn law_answers_stay_within_the_hardware(record: RecordView, io: Io)
    requires
        record.desired.valid(),
        record.reported matches Some(state) ==> state.valid(),
    ensures
        after_io(record, io).desired.valid(),
        after_io(record, io).reported matches Some(state) ==> state.valid(),
        after_io(record, io).id == record.id,
{
}

/// A command that arrived mid-flight is never undone by an older answer.
pub proof fn law_intent_in_flight_survives(record: RecordView, io: Io)
    requires
        record.dirty_since is Some,
    ensures
        after_io(record, io).desired == record.desired,
        after_io(record, io).dirty_since == record.dirty_since,
{
}

/// A light is online exactly when its last read or push was answered.
pub proof fn law_no_report_is_offline(record: RecordView, partial: PartialState, error: Seq<char>)
    ensures
        after_report(record, partial).online(),
        after_report(record, partial).last_error.len() == 0,
        !after_failure(record, error).online(),
        after_failure(record, error).desired == record.desired,
{
}

/// Whatever a device calls itself, what is shown of it is fit to show as long as
/// it was before.
pub proof fn law_device_text_is_fit_to_show(
    record: RecordView,
    display_name: Seq<char>,
    product_name: Seq<char>,
    firmware_version: Seq<char>,
)
    requires
        fit(record.name),
        fit(record.model),
    ensures
        ({
            let after = after_info(record, display_name, product_name, firmware_version);
            &&& fit(after.name)
            &&& fit(after.model)
            &&& fit(after.firmware)
        }),
{
    law_sanitized_text_is_displayable(display_name);
    law_sanitized_text_is_displayable(product_name);
    law_sanitized_text_is_displayable(firmware_version);
}

/// Whether a text holds no control character and is no longer than a display
/// takes.
pub open spec fn fit(text: Seq<char>) -> bool {
    &&& text.len() <= MAX_DISPLAY_LEN
    &&& forall|i: int| 0 <= i < text.len() ==> !control(#[trigger] text[i])
}

/// The loop wakes in time for every pending push, and once a light's window has
/// elapsed the light is pushed, with what is desired of it by then.
pub proof fn law_a_pending_push_goes_out_in_time(
    world: WorldView,
    next_refresh: u64,
    id: Seq<char>,
    since: u64,
    now: u64,
)
    requires
        world.wf(),
        world.lights.contains_key(id),
        world.lights[id].dirty_since == Some(since),
    ensures
        earliest(world.lights, in_order(world.lights.dom()), next_refresh as int) <= since
            + DEBOUNCE_MS,
        now >= since + DEBOUNCE_MS ==> pushes(world, now).contains(
            ActionView::Push {
                id,
                url: world.lights[id].endpoint.url(),
                state: world.lights[id].desired,
            },
        ),
{
    let order = in_order(world.lights.dom());
    lemma_listed(world.lights.dom());
    assert(order.contains(id));
    let k = choose|k: int| 0 <= k < order.len() && order[k] == id;
    lemma_earliest(world.lights, order, next_refresh as int, k);
    if now >= since + DEBOUNCE_MS {
        lemma_due_filed(world, now);
        assert(due(world, now).contains(id));
        let ready = due_ids(world, now);
        assert(ready.contains(id));
        let j = choose|j: int| 0 <= j < ready.len() && ready[j] == id;
        assert(pushes(world, now)[j] == (ActionView::Push {
            id,
            url: world.lights[id].endpoint.url(),
            state: world.lights[id].desired,
        }));
    }
}

/// Where every light is filed under its own id, what is due is pushed under the
/// id it is filed under.
proof fn lemma_due_filed(world: WorldView, now: u64)
    requires
        world.wf(),
    ensures
        due_ids(world, now) == in_order(due(world, now)),
        existing(world.lights, due_ids(world, now)) == due_ids(world, now),
        forall|id: Seq<char>| #[trigger]
            due(world, now).contains(id) <==> due_ids(world, now).contains(id),
{
    let ready = due(world, now);
    vstd::set_lib::lemma_set_subset_finite(world.lights.dom(), ready);
    lemma_listed(ready);
    let order = in_order(ready);
    assert forall|k: int| 0 <= k < order.len() implies world.lights.contains_key(
        #[trigger] order[k],
    ) by {
        assert(ready.contains(order[k]));
    }
    assert(due_ids(world, now) =~= order);
    lemma_all_existing(world.lights, order);
}

proof fn lemma_earliest(
    lights: Map<Seq<char>, RecordView>,
    ids: Seq<Seq<char>>,
    first: int,
    k: int,
)
    requires
        0 <= k < ids.len(),
    ensures
        earliest(lights, ids, first) <= first,
        lights[ids[k]].dirty_since matches Some(since) ==> earliest(lights, ids, first) <= since
            + DEBOUNCE_MS,
    decreases ids.len(),
{
    reveal_with_fuel(earliest, 2);
    let short = ids.drop_last();
    if k < short.len() {
        assert(short[k] == ids[k]);
        lemma_earliest(lights, short, first, k);
    } else if short.len() > 0 {
        lemma_earliest(lights, short, first, 0);
    }
}

/// A drag is one push: a light that was pushed is not due again until something
/// changes it.
pub proof fn law_a_push_clears_what_was_owed(world: WorldView, now: u64, later: u64, id: Seq<char>)
    requires
        world.wf(),
        due(world, now).contains(id),
    ensures
        !due(flushed(world, now), later).contains(id),
        flushed(world, now).lights[id].desired == world.lights[id].desired,
{
    lemma_due_filed(world, now);
}

/// A gang outlives a member that disappears and is found again, and so does
/// every scene.
pub proof fn law_a_gang_outlives_a_missing_member(
    world: WorldView,
    id: Seq<char>,
    found: DiscoveredView,
)
    ensures
        after_found(after_lost(world, id), found).links == world.links,
        after_found(after_lost(world, id), found).scenes == world.scenes,
{
}

/// A light that is found again keeps its state, whatever its address became.
pub proof fn law_a_move_keeps_the_state(world: WorldView, found: DiscoveredView)
    requires
        world.lights.contains_key(found.id),
    ensures
        ({
            let before = world.lights[found.id];
            let after = after_found(world, found).lights[found.id];
            &&& after.desired == before.desired
            &&& after.reported == before.reported
            &&& after.dirty_since == before.dirty_since
            &&& after.name == before.name
            &&& after.endpoint == (Endpoint { addr: found.addr, port: found.port })
        }),
{
}

/// Gangs and scenes survive a restart exactly.
pub proof fn law_gangs_and_scenes_survive_a_restart(config: Config, world: WorldView)
    requires
        config.links@.len() == world.links.len(),
        forall|i: int|
            0 <= i < world.links.len() ==> writes(#[trigger] config.links@[i], world.links[i]),
        forall|i: int|
            0 <= i < world.links.len() ==> (#[trigger] world.links[i]).wf()
                && world.links[i].offsets.dom().len() >= 2,
        world.scenes.dom().finite(),
        config.scenes@.len() == in_order(world.scenes.dom()).len(),
        forall|i: int|
            0 <= i < config.scenes@.len() ==> {
                &&& (#[trigger] config.scenes@[i]).name@ == in_order(world.scenes.dom())[i]
                &&& config.scenes@[i].scene() == world.scenes[in_order(world.scenes.dom())[i]]
            },
    ensures
        links_in(config.links@) == world.links,
        scenes_in(config.scenes@) == world.scenes,
{
    law_gangs_survive_a_round_trip(config.links@, world.links);
    law_scenes_survive_a_round_trip(config.scenes@, world.scenes);
}

/// What a light reports is what it is held to have reported, field by field: power
/// and brightness as given, what it leaves out as it was asked for, and a
/// temperature that is the one asked for where both are one hardware setting.
pub proof fn law_a_report_is_taken_field_by_field(record: RecordView, partial: PartialState)
    ensures
        ({
            let after = after_report(record, partial);
            let brightness = match partial.brightness {
                Some(value) => value,
                None => record.desired.brightness,
            };
            let kelvin = match partial.kelvin {
                Some(value) => value,
                None => record.desired.kelvin,
            };
            after.reported matches Some(reported) && {
                &&& partial.on matches Some(on) ==> reported.on == on
                &&& partial.on is None ==> reported.on == record.desired.on
                &&& brightness <= 100 ==> reported.brightness == brightness
                &&& brightness > 100 ==> reported.brightness == 100
                &&& mired_of(reported.kelvin as int) == mired_of(kelvin as int)
                &&& mired_of(kelvin as int) == mired_of(record.desired.kelvin as int)
                    ==> reported.kelvin == record.desired.kelvin
                &&& mired_of(kelvin as int) != mired_of(record.desired.kelvin as int) && 2900
                    <= kelvin <= 7000 ==> reported.kelvin == kelvin
            }
        }),
{
}

/// The hardware's truth is adopted while no push is owed, every field of it, and
/// what clients ask for is left alone while one is. Nothing else about the light
/// changes but that it has answered and its last failure is forgotten.
pub proof fn law_a_report_is_adopted_unless_a_push_is_owed(
    record: RecordView,
    partial: PartialState,
)
    ensures
        ({
            let after = after_report(record, partial);
            &&& after.reported is Some
            &&& record.dirty_since is None ==> Some(after.desired) == after.reported
            &&& record.dirty_since is Some ==> after.desired == record.desired
            &&& after.dirty_since == record.dirty_since
            &&& after.last_error.len() == 0
            &&& after.id == record.id
            &&& after.fullname == record.fullname
            &&& after.name == record.name
            &&& after.model == record.model
            &&& after.firmware == record.firmware
            &&& after.endpoint == record.endpoint
        }),
{
}

/// A change made elsewhere reaches clients: with no push owed, the power and the
/// brightness a light reports are what it is asked for from then on, and a
/// difference from before is announced.
pub proof fn law_a_change_made_elsewhere_is_adopted(
    record: RecordView,
    on: bool,
    brightness: u8,
    kelvin: Option<u16>,
)
    requires
        record.dirty_since is None,
        brightness <= 100,
    ensures
        ({
            let partial = PartialState { on: Some(on), brightness: Some(brightness), kelvin };
            let after = after_report(record, partial);
            let changed = Changed::difference(record, after);
            &&& after.desired.on == on
            &&& after.desired.brightness == brightness
            &&& kelvin matches Some(k) ==> mired_of(after.desired.kelvin as int) == mired_of(
                k as int,
            )
            &&& changed.on <==> record.desired.on != on
            &&& changed.brightness <==> record.desired.brightness != brightness
            &&& changed.online <==> record.reported is None
        }),
{
}

/// A light that cannot be reached is offline with the reason at hand, and is
/// otherwise as it was: what is asked of it, and since when, is kept.
pub proof fn law_a_failure_keeps_everything_but_the_report(record: RecordView, error: Seq<char>)
    ensures
        ({
            let after = after_failure(record, error);
            &&& after.reported is None
            &&& after.last_error == error
            &&& after.desired == record.desired
            &&& after.dirty_since == record.dirty_since
            &&& after.id == record.id
            &&& after.fullname == record.fullname
            &&& after.name == record.name
            &&& after.model == record.model
            &&& after.firmware == record.firmware
            &&& after.endpoint == record.endpoint
        }),
{
}

/// A light's own name and model replace what was known unless they come to
/// nothing, its firmware always does, and its state is not touched.
pub proof fn law_a_light_names_itself(
    record: RecordView,
    display_name: Seq<char>,
    product_name: Seq<char>,
    firmware_version: Seq<char>,
)
    ensures
        ({
            let after = after_info(record, display_name, product_name, firmware_version);
            &&& sanitized(display_name).len() > 0 ==> after.name == sanitized(display_name)
            &&& sanitized(display_name).len() == 0 ==> after.name == record.name
            &&& sanitized(product_name).len() > 0 ==> after.model == sanitized(product_name)
            &&& sanitized(product_name).len() == 0 ==> after.model == record.model
            &&& after.firmware == sanitized(firmware_version)
            &&& after.desired == record.desired
            &&& after.reported == record.reported
            &&& after.dirty_since == record.dirty_since
            &&& after.last_error == record.last_error
            &&& after.id == record.id
            &&& after.fullname == record.fullname
            &&& after.endpoint == record.endpoint
        }),
{
}

/// An answer is read for what it is: a state as a report, an error as a failure, a
/// description as a description. Whether a push or a reading asked for it makes no
/// difference.
pub proof fn law_an_answer_is_read_for_what_it_is(record: RecordView, io: Io)
    ensures
        io matches Io::State { id, result, pushed } ==> {
            &&& io_id(io) == id@
            &&& result matches Ok(partial) ==> after_io(record, io) == after_report(
                record,
                partial,
            )
            &&& result matches Err(error) ==> after_io(record, io) == after_failure(record, error@)
        },
        io matches Io::Info { id, info } ==> {
            &&& io_id(io) == id@
            &&& after_io(record, io) == after_info(
                record,
                info.display_name@,
                info.product_name@,
                info.firmware_version@,
            )
        },
{
}

/// An answer edits the one light it comes from and no other; an answer from a
/// light that is gone edits nothing and announces nothing.
pub proof fn law_an_answer_edits_one_light(
    world: WorldView,
    id: Seq<char>,
    next: RecordView,
    other: Seq<char>,
)
    ensures
        ({
            let after = edited(world, id, next);
            &&& after.lights.contains_key(other) <==> world.lights.contains_key(other)
            &&& world.lights.contains_key(id) ==> after.lights[id] == next
            &&& other != id && world.lights.contains_key(other) ==> after.lights[other]
                == world.lights[other]
            &&& !world.lights.contains_key(id) ==> after == world && edit_news(world, id, next).len()
                == 0
            &&& after.links == world.links
            &&& after.scenes == world.scenes
        }),
{
}

/// What changes about a light is announced, with exactly the properties that
/// changed, and nothing is announced of a light that stayed as it was.
pub proof fn law_what_changes_about_a_light_is_announced(
    world: WorldView,
    id: Seq<char>,
    next: RecordView,
    k: int,
)
    requires
        world.lights.contains_key(id),
    ensures
        ({
            let changed = Changed::difference(world.lights[id], next);
            let news = edit_news(world, id, next);
            &&& changed != Changed::nothing() ==> news.contains(ActionView::Notify { id, changed })
            &&& 0 <= k < news.len() && news[k] is Notify ==> changed != Changed::nothing()
                && news[k] == (ActionView::Notify { id, changed })
        }),
{
    let changed = Changed::difference(world.lights[id], next);
    let news = edit_news(world, id, next);
    if changed != Changed::nothing() {
        assert(news[0] == (ActionView::Notify { id, changed }));
    }
}

/// The group's news follows the lights': its changes are announced exactly when
/// there are any, and the counts exactly when one of them moved.
pub proof fn law_what_changes_about_the_group_is_announced(
    before: GroupSnapshot,
    after: GroupSnapshot,
    k: int,
)
    ensures
        ({
            let changed = GroupSnapshot::difference(before, after);
            let news = group_news(before, after);
            &&& changed != Changed::nothing() ==> news.contains(ActionView::NotifyGroup(changed))
            &&& 0 <= k < news.len() && news[k] != ActionView::NotifyManager ==> changed
                != Changed::nothing() && news[k] == ActionView::NotifyGroup(changed)
            &&& before.members != after.members || before.online != after.online
                ==> news.contains(ActionView::NotifyManager)
            &&& before.members == after.members && before.online == after.online
                ==> !news.contains(ActionView::NotifyManager)
        }),
{
    let changed = GroupSnapshot::difference(before, after);
    let news = group_news(before, after);
    if changed != Changed::nothing() {
        assert(news[0] == ActionView::NotifyGroup(changed));
    }
    if before.members != after.members || before.online != after.online {
        assert(news[news.len() - 1] == ActionView::NotifyManager);
    }
}

/// Several lights' news is each light's own, in order, and a light of which nothing
/// changed has none.
pub proof fn law_each_lights_news_is_its_own(
    changes: Seq<(Seq<char>, Changed)>,
    id: Seq<char>,
    changed: Changed,
)
    ensures
        lights_news(changes.push((id, changed))) == if changed == Changed::nothing() {
            lights_news(changes)
        } else {
            lights_news(changes).push(ActionView::Notify { id, changed })
        },
        lights_news(seq![]).len() == 0,
{
    let all = changes.push((id, changed));
    assert(all.drop_last() =~= changes);
    assert(lights_news(all) =~= if changed == Changed::nothing() {
        lights_news(changes)
    } else {
        lights_news(changes).push(ActionView::Notify { id, changed })
    });
}

/// A push goes out once a light's window of 90 milliseconds has passed and not
/// before, with what is asked of that light and to where it is, and to no light
/// that owes none.
pub proof fn law_a_push_waits_for_its_window(world: WorldView, now: u64, id: Seq<char>)
    requires
        world.wf(),
        world.lights.contains_key(id),
    ensures
        ({
            let owed = world.lights[id].dirty_since matches Some(since) && now >= since + 90;
            &&& owed <==> exists|k: int|
                0 <= k < pushes(world, now).len() && (#[trigger] pushes(world, now)[k]) == (
                ActionView::Push {
                    id,
                    url: world.lights[id].endpoint.url(),
                    state: world.lights[id].desired,
                })
            &&& owed ==> flushed(world, now).lights[id].dirty_since is None
            &&& !owed ==> flushed(world, now).lights[id] == world.lights[id]
        }),
        forall|k: int|
            0 <= k < pushes(world, now).len() ==> (#[trigger] pushes(world, now)[k] matches ActionView::Push {
                id: lamp,
                url,
                state,
            } && world.lights.contains_key(lamp) && url == world.lights[lamp].endpoint.url()
                && state == world.lights[lamp].desired),
{
    lemma_due_filed(world, now);
    let ready = due_ids(world, now);
    let all = pushes(world, now);
    vstd::set_lib::lemma_set_subset_finite(world.lights.dom(), due(world, now));
    lemma_listed(due(world, now));
    assert(due(world, now).contains(id) <==> ready.contains(id));
    if ready.contains(id) {
        let k = choose|k: int| 0 <= k < ready.len() && ready[k] == id;
        assert(all[k] == (ActionView::Push {
            id,
            url: world.lights[id].endpoint.url(),
            state: world.lights[id].desired,
        }));
    }
    assert forall|k: int| 0 <= k < all.len() implies due(world, now).contains(
        #[trigger] ready[k],
    ) by {
        assert(ready.contains(ready[k]));
    }
    if exists|k: int|
        0 <= k < all.len() && (#[trigger] all[k]) == (ActionView::Push {
            id,
            url: world.lights[id].endpoint.url(),
            state: world.lights[id].desired,
        }) {
        let k = choose|k: int|
            0 <= k < all.len() && (#[trigger] all[k]) == (ActionView::Push {
                id,
                url: world.lights[id].endpoint.url(),
                state: world.lights[id].desired,
            });
        assert(ready[k] == id);
    }
    assert forall|k: int| 0 <= k < all.len() implies (#[trigger] all[k] matches ActionView::Push {
        id: lamp,
        url,
        state,
    } && world.lights.contains_key(lamp) && url == world.lights[lamp].endpoint.url() && state
        == world.lights[lamp].desired) by {
        assert(due(world, now).contains(ready[k]));
    }
}

/// Sending what is owed changes nothing but that it is no longer owed.
pub proof fn law_pushing_moves_no_light(world: WorldView, now: u64, id: Seq<char>)
    requires
        world.lights.contains_key(id),
    ensures
        ({
            let before = world.lights[id];
            let after = flushed(world, now).lights[id];
            &&& after.desired == before.desired
            &&& after.reported == before.reported
            &&& after.last_error == before.last_error
            &&& after.id == before.id
            &&& after.fullname == before.fullname
            &&& after.name == before.name
            &&& after.model == before.model
            &&& after.firmware == before.firmware
            &&& after.endpoint == before.endpoint
        }),
        flushed(world, now).lights.dom() == world.lights.dom(),
        flushed(world, now).links == world.links,
        flushed(world, now).scenes == world.scenes,
{
    assert(flushed(world, now).lights.dom() =~= world.lights.dom());
}

/// The loop sleeps until the next refresh or until the first window of a pending
/// push has passed, whichever comes first, and no shorter.
pub proof fn law_the_loop_sleeps_until_something_is_due(
    lights: Map<Seq<char>, RecordView>,
    ids: Seq<Seq<char>>,
    next_refresh: int,
    k: int,
)
    ensures
        earliest(lights, ids, next_refresh) <= next_refresh,
        0 <= k < ids.len() && lights[ids[k]].dirty_since is Some ==> earliest(
            lights,
            ids,
            next_refresh,
        ) <= lights[ids[k]].dirty_since->0 + 90,
        earliest(lights, ids, next_refresh) == next_refresh || exists|j: int|
            0 <= j < ids.len() && lights[#[trigger] ids[j]].dirty_since is Some && earliest(
                lights,
                ids,
                next_refresh,
            ) == lights[ids[j]].dirty_since->0 + 90,
    decreases ids.len(),
{
    if ids.len() > 0 {
        let short = ids.drop_last();
        let last = ids.len() - 1;
        law_the_loop_sleeps_until_something_is_due(lights, short, next_refresh, k);
        assert(ids[last] == ids.last());
        if 0 <= k < short.len() {
            assert(short[k] == ids[k]);
        }
        if earliest(lights, short, next_refresh) != next_refresh {
            let j = choose|j: int|
                0 <= j < short.len() && lights[#[trigger] short[j]].dirty_since is Some
                    && earliest(lights, short, next_refresh) == lights[short[j]].dirty_since->0 + 90;
            assert(ids[j] == short[j]);
        }
    }
}

/// A delay is added to a moment as far as the clock goes.
pub proof fn law_a_delay_is_added(now: u64, delay: u64)
    ensures
        now + delay <= u64::MAX ==> later(now, delay) == now + delay,
        now + delay > u64::MAX ==> later(now, delay) == u64::MAX,
{
}

/// A light that is found for the first time is taken in as it was found, off,
/// unheard and owing nothing, beside the lights that are there.
pub proof fn law_a_new_light_is_taken_in(
    world: WorldView,
    found: DiscoveredView,
    other: Seq<char>,
)
    requires
        !world.lights.contains_key(found.id),
    ensures
        ({
            let after = after_found(world, found);
            let light = after.lights[found.id];
            &&& after.lights.dom() == world.lights.dom().insert(found.id)
            &&& other != found.id && world.lights.contains_key(other) ==> after.lights[other]
                == world.lights[other]
            &&& light.id == found.id
            &&& light.fullname == found.fullname
            &&& light.name == found.name
            &&& light.model == found.model
            &&& light.firmware.len() == 0
            &&& light.endpoint.addr == found.addr
            &&& light.endpoint.port == found.port
            &&& light.desired == (LightState { on: false, brightness: 20, kelvin: 4000 })
            &&& light.reported is None
            &&& light.last_error.len() == 0
            &&& light.dirty_since is None
            &&& after.links == world.links
            &&& after.scenes == world.scenes
        }),
{
    assert(after_found(world, found).lights.dom() =~= world.lights.dom().insert(found.id));
}

/// A light that is found again is the same light at the address it was found at:
/// it takes the new name it goes by on the network and the model it gives, keeps
/// everything else, and no other light changes.
pub proof fn law_a_light_found_again_is_the_same_light(
    world: WorldView,
    found: DiscoveredView,
    other: Seq<char>,
)
    requires
        world.lights.contains_key(found.id),
    ensures
        ({
            let before = world.lights[found.id];
            let after = after_found(world, found);
            let light = after.lights[found.id];
            &&& after.lights.dom() == world.lights.dom()
            &&& other != found.id && world.lights.contains_key(other) ==> after.lights[other]
                == world.lights[other]
            &&& light.endpoint.addr == found.addr
            &&& light.endpoint.port == found.port
            &&& light.fullname == found.fullname
            &&& found.model.len() > 0 ==> light.model == found.model
            &&& found.model.len() == 0 ==> light.model == before.model
            &&& light.id == before.id
            &&& light.name == before.name
            &&& light.firmware == before.firmware
            &&& light.desired == before.desired
            &&& light.reported == before.reported
            &&& light.last_error == before.last_error
            &&& light.dirty_since == before.dirty_since
        }),
{
    assert(after_found(world, found).lights.dom() =~= world.lights.dom());
}

/// A light that goes away is gone, and every other light, gang and scene stays.
pub proof fn law_losing_a_light_loses_one_light(world: WorldView, id: Seq<char>, other: Seq<char>)
    ensures
        ({
            let after = after_lost(world, id);
            &&& !after.lights.contains_key(id)
            &&& other != id ==> (after.lights.contains_key(other) <==> world.lights.contains_key(
                other,
            ))
            &&& other != id && world.lights.contains_key(other) ==> after.lights[other]
                == world.lights[other]
            &&& after.links == world.links
            &&& after.scenes == world.scenes
        }),
{
}

/// A light that is found is read at once, and is asked for its name and firmware
/// as long as those are not known; a new one is published first, and only a new
/// one is.
pub proof fn law_a_found_light_is_published_and_read(world: WorldView, found: DiscoveredView)
    ensures
        ({
            let actions = found_actions(world, found);
            let light = after_found(world, found).lights[found.id];
            let url = (Endpoint { addr: found.addr, port: found.port }).url();
            &&& actions.contains(ActionView::ReadState { id: found.id, url })
            &&& light.firmware.len() == 0 <==> actions.contains(
                ActionView::ReadInfo { id: found.id, url },
            )
            &&& !world.lights.contains_key(found.id) ==> actions[0] == ActionView::Publish(found.id)
            &&& actions.contains(ActionView::Publish(found.id)) ==> !world.lights.contains_key(
                found.id,
            )
        }),
{
    let actions = found_actions(world, found);
    let after = after_found(world, found);
    let light = after.lights[found.id];
    let url = light.endpoint.url();
    let tail = reading(after, found.id);
    let head = (actions.len() - tail.len()) as int;
    assert(actions.skip(head) =~= tail);
    assert(actions[head] == tail[0]);
    if light.firmware.len() == 0 {
        assert(actions[head + 1] == tail[1]);
    } else {
        assert forall|k: int| 0 <= k < actions.len() implies !(#[trigger] actions[k] is ReadInfo) by {
            if k >= head {
                assert(actions[k] == tail[k - head]);
            }
        }
    }
    if world.lights.contains_key(found.id) {
        assert forall|k: int| 0 <= k < actions.len() implies !(#[trigger] actions[k] is Publish) by {
            if k >= head {
                assert(actions[k] == tail[k - head]);
            }
        }
    }
}

/// A light that goes away is withdrawn if it was there, and nothing is done if it
/// was not.
pub proof fn law_a_lost_light_is_withdrawn(world: WorldView, id: Seq<char>)
    ensures
        world.lights.contains_key(id) ==> lost_actions(world, id).len() > 0 && lost_actions(
            world,
            id,
        )[0] == ActionView::Withdraw(id),
        !world.lights.contains_key(id) ==> lost_actions(world, id).len() == 0,
{
}

/// Reading several lights reads each that exists, where it is.
pub proof fn law_every_light_is_read(world: WorldView, ids: Seq<Seq<char>>, k: int)
    requires
        0 <= k < ids.len(),
        world.lights.contains_key(ids[k]),
    ensures
        ({
            let light = world.lights[ids[k]];
            &&& readings(world, ids).contains(
                ActionView::ReadState { id: ids[k], url: light.endpoint.url() },
            )
            &&& light.firmware.len() == 0 ==> readings(world, ids).contains(
                ActionView::ReadInfo { id: ids[k], url: light.endpoint.url() },
            )
        }),
    decreases ids.len(),
{
    let short = ids.drop_last();
    let before = readings(world, short);
    let all = readings(world, ids);
    let light = world.lights[ids[k]];
    let url = light.endpoint.url();
    if k < short.len() {
        assert(short[k] == ids[k]);
        law_every_light_is_read(world, short, k);
        let j = choose|j: int|
            0 <= j < before.len() && before[j] == (ActionView::ReadState { id: ids[k], url });
        assert(all[j] == before[j]);
        if light.firmware.len() == 0 {
            let i = choose|i: int|
                0 <= i < before.len() && before[i] == (ActionView::ReadInfo { id: ids[k], url });
            assert(all[i] == before[i]);
        }
    } else {
        let one = reading(world, ids[k]);
        assert(all[before.len() as int] == one[0]);
        if light.firmware.len() == 0 {
            assert(all[before.len() as int + 1] == one[1]);
        }
    }
}

/// Blinking several lights blinks each that exists, in order and where it is, and
/// passes over the others.
pub proof fn law_every_light_named_blinks(world: WorldView, ids: Seq<Seq<char>>, id: Seq<char>)
    ensures
        blinks(world, ids.push(id)) == if world.lights.contains_key(id) {
            blinks(world, ids).push(
                ActionView::Blink { id, url: world.lights[id].endpoint.url() },
            )
        } else {
            blinks(world, ids)
        },
        blinks(world, seq![]).len() == 0,
{
    assert(ids.push(id).drop_last() =~= ids);
}

/// What requests call for: changed gangs and scenes are saved and announced, a
/// refresh reads every light, and a rescan also probes for every light by the name
/// it goes by on the network.
pub proof fn law_requests_are_carried_out(world: WorldView, id: Seq<char>)
    requires
        world.lights.dom().finite(),
        world.lights.contains_key(id),
    ensures
        request_actions(world, RequestView::LinksChanged).contains(ActionView::Persist),
        request_actions(world, RequestView::LinksChanged).contains(ActionView::NotifyLinks),
        !request_actions(world, RequestView::LinksChanged).contains(ActionView::NotifyScenes),
        request_actions(world, RequestView::ScenesChanged).contains(ActionView::Persist),
        request_actions(world, RequestView::ScenesChanged).contains(ActionView::NotifyScenes),
        !request_actions(world, RequestView::ScenesChanged).contains(ActionView::NotifyLinks),
        request_actions(world, RequestView::RefreshAll).contains(
            ActionView::ReadState { id, url: world.lights[id].endpoint.url() },
        ),
        request_actions(world, RequestView::Rescan).contains(
            ActionView::ReadState { id, url: world.lights[id].endpoint.url() },
        ),
        request_actions(world, RequestView::Rescan)[0] matches ActionView::Probe(names)
            && names.len() == world.lights.dom().len() && names.contains(
            world.lights[id].fullname,
        ),
        request_actions(world, RequestView::Identify(seq![id])) == seq![
            ActionView::Blink { id, url: world.lights[id].endpoint.url() },
        ],
{
    let links = request_actions(world, RequestView::LinksChanged);
    assert(links[0] == ActionView::Persist && links[1] == ActionView::NotifyLinks);
    let scenes = request_actions(world, RequestView::ScenesChanged);
    assert(scenes[0] == ActionView::Persist && scenes[1] == ActionView::NotifyScenes);
    let order = in_order(world.lights.dom());
    lemma_listed(world.lights.dom());
    assert(order.contains(id));
    let k = choose|k: int| 0 <= k < order.len() && order[k] == id;
    law_every_light_is_read(world, order, k);
    let all = readings(world, order);
    let read = ActionView::ReadState { id, url: world.lights[id].endpoint.url() };
    let j = choose|j: int| 0 <= j < all.len() && all[j] == read;
    let rescan = request_actions(world, RequestView::Rescan);
    assert(rescan[j + 1] == read);
    assert(fullnames(world)[k] == world.lights[id].fullname);
    law_every_light_named_blinks(world, seq![], id);
    assert(Seq::<Seq<char>>::empty().push(id) =~= seq![id]);
    assert(request_actions(world, RequestView::Identify(seq![id])) =~= seq![
        ActionView::Blink { id, url: world.lights[id].endpoint.url() },
    ]);
}

/// A change that clients made is announced light by light and for the group.
pub proof fn law_an_applied_change_is_announced(
    world: WorldView,
    changes: Seq<(Seq<char>, Changed)>,
    group_before: GroupSnapshot,
    group_after: GroupSnapshot,
    k: int,
)
    requires
        0 <= k < changes.len(),
        changes[k].1 != Changed::nothing(),
    ensures
        request_actions(
            world,
            RequestView::Applied { changes, group_before, group_after },
        ).contains(ActionView::Notify { id: changes[k].0, changed: changes[k].1 }),
        GroupSnapshot::difference(group_before, group_after) != Changed::nothing()
            ==> request_actions(
            world,
            RequestView::Applied { changes, group_before, group_after },
        ).contains(ActionView::NotifyGroup(GroupSnapshot::difference(group_before, group_after))),
{
    lemma_noticed(changes, k);
    let lights = lights_news(changes);
    let group = group_news(group_before, group_after);
    let all = request_actions(world, RequestView::Applied { changes, group_before, group_after });
    let note = ActionView::Notify { id: changes[k].0, changed: changes[k].1 };
    let j = choose|j: int| 0 <= j < lights.len() && lights[j] == note;
    assert(all[j] == note);
    if GroupSnapshot::difference(group_before, group_after) != Changed::nothing() {
        assert(all[lights.len() as int] == group[0]);
    }
}

proof fn lemma_noticed(changes: Seq<(Seq<char>, Changed)>, k: int)
    requires
        0 <= k < changes.len(),
        changes[k].1 != Changed::nothing(),
    ensures
        lights_news(changes).contains(
            ActionView::Notify { id: changes[k].0, changed: changes[k].1 },
        ),
    decreases changes.len(),
{
    let short = changes.drop_last();
    let note = ActionView::Notify { id: changes[k].0, changed: changes[k].1 };
    let before = lights_news(short);
    let all = lights_news(changes);
    if k < short.len() {
        assert(short[k] == changes[k]);
        lemma_noticed(short, k);
        let j = choose|j: int| 0 <= j < before.len() && before[j] == note;
        assert(all[j] == note);
    } else {
        assert(all[before.len() as int] == note);
    }
}

/// Whatever falls due, the pushes come first and every one of them goes out; every
/// light is read exactly when it is time, 15 seconds after the last time, and a
/// wake-up before that leaves the schedule alone.
pub proof fn law_scheduled_work_is_done_when_it_is_due(
    world: WorldView,
    now: u64,
    next_refresh: u64,
    id: Seq<char>,
)
    requires
        world.lights.dom().finite(),
        world.lights.contains_key(id),
    ensures
        ({
            let actions = due_actions(world, now, next_refresh);
            let read = ActionView::ReadState { id, url: world.lights[id].endpoint.url() };
            &&& actions.len() >= pushes(world, now).len()
            &&& actions.take(pushes(world, now).len() as int) == pushes(world, now)
            &&& now >= next_refresh <==> actions.contains(read)
            &&& now < next_refresh ==> actions == pushes(world, now) && refresh_after(
                now,
                next_refresh,
            ) == next_refresh
            &&& now >= next_refresh && now + 15_000 <= u64::MAX ==> refresh_after(now, next_refresh)
                == now + 15_000
        }),
{
    let actions = due_actions(world, now, next_refresh);
    let first = pushes(world, now);
    let read = ActionView::ReadState { id, url: world.lights[id].endpoint.url() };
    assert(actions.take(first.len() as int) =~= first);
    let order = in_order(world.lights.dom());
    lemma_listed(world.lights.dom());
    assert(order.contains(id));
    let k = choose|k: int| 0 <= k < order.len() && order[k] == id;
    let after = flushed(world, now);
    assert(after.lights.contains_key(id));
    law_every_light_is_read(after, order, k);
    assert(after.lights[id].endpoint == world.lights[id].endpoint);
    let rest = readings(after, order);
    let j = choose|j: int| 0 <= j < rest.len() && rest[j] == read;
    if now >= next_refresh {
        assert(actions[first.len() + j] == read);
    }
}

} // verus!
