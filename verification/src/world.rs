//! The daemon's authoritative picture of every known light.
//!
//! Commands change what is *desired* here, synchronously; pushing it to the
//! hardware is the supervisor's business. Gangs and scenes are the user's
//! intent and live beside the lights.

use vstd::prelude::*;
use vstd::string::*;

use crate::group::{aggregate, collapsed};
use crate::link::{saturated, Link, LinkMode, LinkView};
use crate::names::{in_order, least, lemma_first_match, lemma_listed, lemma_no_match, lemma_taken,
    NameMap, NameSet};
use crate::record::{Changed, LightId, LightRecord, RecordView};
use crate::scene::{link_views, GangView, PlanView, Scene, SceneView};
use crate::selector::{Choice, Selector};
use crate::state::{Adjust, LightState, Power, StatePatch};
use crate::strings::texts;

verus! {

broadcast use vstd::string::group_string_axioms;

/// Which lights a mutation addresses.
#[derive(Debug)]
pub enum Target {
    /// One specific light, by id. Used by the per-light D-Bus objects.
    Id(LightId),
    /// Whatever a selector matches.
    Select(Selector),
}

/// A [`Target`] as mathematics.
pub enum Aim {
    Id(Seq<char>),
    Select(Choice),
}

impl View for Target {
    type V = Aim;

    open spec fn view(&self) -> Aim {
        match self {
            Target::Id(id) => Aim::Id(id@),
            Target::Select(selector) => Aim::Select(selector@),
        }
    }
}

impl Clone for Target {
    fn clone(&self) -> (r: Self)
        ensures
            r@ == self@,
    {
        match self {
            Target::Id(id) => Target::Id(id.clone()),
            Target::Select(selector) => Target::Select(selector.clone()),
        }
    }
}

/// Every light gaffer currently knows about.
#[derive(Debug)]
pub struct World {
    lights: NameMap<LightRecord>,
    /// Gangs. A lamp belongs to at most one, which is what lets the panel draw
    /// a single wire per port and a gang collapse into one card.
    links: Vec<Link>,
    /// Saved scenes, by name. User intent like gangs, so they sit beside them
    /// and are persisted by the same path.
    scenes: NameMap<Scene>,
}

/// A [`World`] as mathematics.
#[verifier::ext_equal]
pub struct WorldView {
    pub lights: Map<Seq<char>, RecordView>,
    pub links: Seq<LinkView>,
    pub scenes: Map<Seq<char>, SceneView>,
}

impl View for World {
    type V = WorldView;

    closed spec fn view(&self) -> WorldView {
        WorldView {
            lights: self.lights@,
            links: link_views(self.links@),
            scenes: self.scenes@,
        }
    }
}

// ---------------------------------------------------------------------------
// Lights
// ---------------------------------------------------------------------------

/// What each light is asked to be.
pub open spec fn desires(lights: Map<Seq<char>, RecordView>) -> Map<Seq<char>, LightState> {
    Map::new(|id: Seq<char>| lights.contains_key(id), |id: Seq<char>| lights[id].desired)
}

/// The lights that can be reached.
pub open spec fn online_ids(lights: Map<Seq<char>, RecordView>) -> Set<Seq<char>> {
    lights.dom().filter(|id: Seq<char>| lights[id].online())
}

/// What some of the lights are asked to be, in order of their ids.
pub open spec fn desires_of(lights: Map<Seq<char>, RecordView>, ids: Set<Seq<char>>) -> Seq<
    LightState,
> {
    in_order(ids).map_values(|id: Seq<char>| lights[id].desired)
}

/// The lights after some of them were asked for a state.
pub open spec fn driven(
    lights: Map<Seq<char>, RecordView>,
    values: Map<Seq<char>, LightState>,
    now: u64,
) -> Map<Seq<char>, RecordView> {
    Map::new(
        |id: Seq<char>| lights.contains_key(id),
        |id: Seq<char>|
            if values.contains_key(id) {
                lights[id].driven(values[id], now)
            } else {
                lights[id]
            },
    )
}

/// The lights that exist and owe a push once asked for these states.
pub open spec fn owing(
    lights: Map<Seq<char>, RecordView>,
    values: Map<Seq<char>, LightState>,
) -> Set<Seq<char>> {
    values.dom().filter(|id: Seq<char>| lights.contains_key(id) && lights[id].owes(values[id]))
}

/// The lights that owe a push, in order of their ids, each with what its clients
/// would see change.
pub open spec fn announced(
    lights: Map<Seq<char>, RecordView>,
    values: Map<Seq<char>, LightState>,
) -> Seq<(Seq<char>, Changed)> {
    in_order(owing(lights, values)).map_values(
        |id: Seq<char>| (id, Changed::moved(lights[id].desired, values[id])),
    )
}

/// A list of touched lights as mathematics.
pub open spec fn touched(changes: Seq<(LightId, Changed)>) -> Seq<(Seq<char>, Changed)> {
    changes.map_values(|change: (LightId, Changed)| change@)
}

// ---------------------------------------------------------------------------
// Gangs
// ---------------------------------------------------------------------------

/// Which gang a lamp is in: the position of the first that has it, or the number
/// of gangs when none does.
pub open spec fn gang_index(links: Seq<LinkView>, id: Seq<char>) -> int
    decreases links.len(),
{
    if links.len() == 0 {
        0
    } else {
        let before = gang_index(links.drop_last(), id);
        if before < links.len() - 1 {
            before
        } else if links.last().offsets.contains_key(id) {
            links.len() - 1
        } else {
            links.len() as int
        }
    }
}

/// The gangs after a lamp left the one it was in. What is left of that gang
/// survives at two or more members and is dissolved otherwise.
pub open spec fn unlinked(links: Seq<LinkView>, id: Seq<char>) -> Seq<LinkView> {
    let at = gang_index(links, id);
    if at >= links.len() {
        links
    } else {
        let rest = links.remove(at);
        let remnant = links[at].without(id);
        if remnant.offsets.dom().len() >= 2 {
            rest.push(remnant)
        } else {
            rest
        }
    }
}

/// The gangs after several lamps left theirs, one after another.
pub open spec fn all_unlinked(links: Seq<LinkView>, ids: Seq<Seq<char>>) -> Seq<LinkView>
    decreases ids.len(),
{
    if ids.len() == 0 {
        links
    } else {
        unlinked(all_unlinked(links, ids.drop_last()), ids.last())
    }
}

/// The given lamps that exist, in the order they were named.
pub open spec fn existing(lights: Map<Seq<char>, RecordView>, ids: Seq<Seq<char>>) -> Seq<
    Seq<char>,
> {
    ids.filter(|id: Seq<char>| lights.contains_key(id))
}

/// Lamps with the state each is asked to be in.
pub open spec fn with_desires(lights: Map<Seq<char>, RecordView>, ids: Seq<Seq<char>>) -> Seq<
    (Seq<char>, LightState),
> {
    ids.map_values(|id: Seq<char>| (id, lights[id].desired))
}

// ---------------------------------------------------------------------------
// Commands
// ---------------------------------------------------------------------------

/// The states asked for, widened so that every gang one of whose members is
/// touched moves as one instrument. The first touched member leads, so the
/// outcome does not depend on iteration order.
pub open spec fn expanded(
    links: Seq<LinkView>,
    asked: Map<Seq<char>, LightState>,
    lights: Map<Seq<char>, RecordView>,
) -> Map<Seq<char>, LightState>
    decreases links.len(),
{
    if links.len() == 0 {
        asked
    } else {
        let out = expanded(links.drop_last(), asked, lights);
        match least(links.last().offsets.dom().intersect(asked.dom())) {
            Some(mover) => out.union_prefer_right(
                links.last().resolved(mover, asked[mover]).restrict(lights.dom()),
            ),
            None => out,
        }
    }
}

/// The ids that the lights filed at some places carry.
pub open spec fn carried_ids(
    lights: Map<Seq<char>, RecordView>,
    places: Seq<Seq<char>>,
) -> Seq<Seq<char>> {
    places.map_values(|place: Seq<char>| lights[place].id)
}

/// What a patch makes of the lights filed at some places, by the ids they carry;
/// of two that carry the same id the later one counts.
pub open spec fn patched(
    lights: Map<Seq<char>, RecordView>,
    places: Seq<Seq<char>>,
    patch: StatePatch,
) -> Map<Seq<char>, LightState>
    decreases places.len(),
{
    if places.len() == 0 {
        Map::empty()
    } else {
        patched(lights, places.drop_last(), patch).insert(
            lights[places.last()].id,
            patch.applied(lights[places.last()].desired),
        )
    }
}

/// The lights after several gangs were driven to their stored levels, one after
/// another.
pub open spec fn gangs_driven(
    lights: Map<Seq<char>, RecordView>,
    gangs: Seq<GangView>,
    now: u64,
) -> Map<Seq<char>, RecordView>
    decreases gangs.len(),
{
    if gangs.len() == 0 {
        lights
    } else {
        driven(gangs_driven(lights, gangs.drop_last(), now), gangs.last().values(), now)
    }
}

/// What driving several gangs to their stored levels announces.
pub open spec fn gangs_announced(
    lights: Map<Seq<char>, RecordView>,
    gangs: Seq<GangView>,
    now: u64,
) -> Seq<(Seq<char>, Changed)>
    decreases gangs.len(),
{
    if gangs.len() == 0 {
        seq![]
    } else {
        gangs_announced(lights, gangs.drop_last(), now) + announced(
            gangs_driven(lights, gangs.drop_last(), now),
            gangs.last().values(),
        )
    }
}

/// The links that several stored gangs describe.
pub open spec fn links_of(gangs: Seq<GangView>) -> Seq<LinkView> {
    gangs.map_values(|gang: GangView| gang.link())
}

impl WorldView {
    /// A world without lights, gangs or scenes.
    pub open spec fn blank() -> WorldView {
        WorldView { lights: Map::empty(), links: seq![], scenes: Map::empty() }
    }

    /// Every light is filed under its own id.
    pub open spec fn wf(self) -> bool {
        &&& self.lights.dom().finite()
        &&& forall|id: Seq<char>| #[trigger]
            self.lights.contains_key(id) ==> self.lights[id].id == id
    }

    /// Where the lights are filed that a selector addresses, by the id and the
    /// name they carry.
    pub open spec fn addressed(self, choice: Choice) -> Set<Seq<char>> {
        self.lights.dom().filter(
            |place: Seq<char>| choice.addresses(self.lights[place].id, self.lights[place].name),
        )
    }

    /// The ids of the lights a selector addresses, in the order they are filed.
    pub open spec fn selected(self, choice: Choice) -> Seq<Seq<char>> {
        carried_ids(self.lights, in_order(self.addressed(choice)))
    }

    /// The state of the "all lights" pseudo-device: that of the lights that can
    /// be reached, or of every light when none can.
    pub open spec fn group_state(self) -> Option<LightState> {
        if online_ids(self.lights).len() > 0 {
            collapsed(desires_of(self.lights, online_ids(self.lights)))
        } else {
            collapsed(desires_of(self.lights, self.lights.dom()))
        }
    }

    /// The gang a lamp belongs to, if any.
    pub open spec fn gang(self, id: Seq<char>) -> Option<LinkView> {
        let at = gang_index(self.links, id);
        if at < self.links.len() {
            Some(self.links[at])
        } else {
            None
        }
    }

    /// What a command asks for, before gangs are considered: `all` resolves once
    /// against the group's state and gives every light the result, anything else
    /// resolves against each light.
    pub open spec fn asked(self, aim: Aim, patch: StatePatch) -> Map<Seq<char>, LightState> {
        match aim {
            Aim::Id(id) => if self.lights.contains_key(id) {
                Map::empty().insert(id, patch.applied(self.lights[id].desired))
            } else {
                Map::empty()
            },
            Aim::Select(Choice::All) => match self.group_state() {
                Some(base) => Map::new(
                    |id: Seq<char>|
                        carried_ids(self.lights, in_order(self.lights.dom())).contains(id),
                    |id: Seq<char>| patch.applied(base),
                ),
                None => Map::empty(),
            },
            Aim::Select(choice) => patched(self.lights, in_order(self.addressed(choice)), patch),
        }
    }

    /// What a command drives each light to, gangs included.
    pub open spec fn effect(self, aim: Aim, patch: StatePatch) -> Map<Seq<char>, LightState> {
        expanded(self.links, self.asked(aim, patch), self.lights)
    }

    /// The world with some of its lights asked for a state.
    pub open spec fn drive(self, values: Map<Seq<char>, LightState>, now: u64) -> WorldView {
        WorldView { lights: driven(self.lights, values, now), ..self }
    }

    /// What driving a lamp's gang to a level asks of its members.
    pub open spec fn level_values(self, id: Seq<char>, level: int) -> Map<Seq<char>, LightState> {
        match self.gang(id) {
            Some(link) => match least(link.known(desires(self.lights))) {
                Some(any) => link.spread(level, self.lights[any].desired),
                None => Map::empty(),
            },
            None => Map::empty(),
        }
    }

    /// The world with a lamp's gang replaced by what it becomes.
    pub open spec fn with_gang(self, id: Seq<char>, link: LinkView) -> WorldView {
        WorldView { links: self.links.update(gang_index(self.links, id), link), ..self }
    }

    /// The world after a lamp's gang was taught a new difference, as far as there
    /// is one to learn.
    pub open spec fn respaced(self, id: Seq<char>, brightness: u8) -> WorldView {
        match self.gang(id) {
            Some(link) => match link.relearned(id, brightness, desires(self.lights).remove(id)) {
                Some(next) => self.with_gang(id, next),
                None => self,
            },
            None => self,
        }
    }

    /// The world after a lamp's gang changed how it tracks.
    pub open spec fn remoded(self, id: Seq<char>, mode: LinkMode, now: u64) -> WorldView {
        match self.gang(id) {
            Some(link) => self.with_gang(id, link.tracking(mode, desires(self.lights))).drive(
                self.mode_values(id, mode),
                now,
            ),
            None => self,
        }
    }

    /// A lamp's gang level, if it is ganged and any member's state is known.
    pub open spec fn level(self, id: Seq<char>) -> Option<i32> {
        match self.gang(id) {
            Some(link) => match link.level_of(desires(self.lights)) {
                Some(level) => Some(saturated(level)),
                None => None,
            },
            None => None,
        }
    }

    /// What changing how a lamp's gang tracks asks of its members: mirroring
    /// snaps them onto the reference, and nothing else moves them.
    pub open spec fn mode_values(self, id: Seq<char>, mode: LinkMode) -> Map<
        Seq<char>,
        LightState,
    > {
        match self.gang(id) {
            Some(link) => if mode == LinkMode::Mirror && self.lights.contains_key(link.reference) {
                link.tracking(mode, desires(self.lights)).resolved(
                    link.reference,
                    self.lights[link.reference].desired,
                )
            } else {
                Map::empty()
            },
            None => Map::empty(),
        }
    }

    /// The world after lamps were ganged, if at least two of them exist.
    pub open spec fn linked(self, members: Seq<Seq<char>>) -> WorldView {
        let present = existing(self.lights, members);
        if present.len() < 2 {
            self
        } else {
            WorldView {
                links: all_unlinked(self.links, present).push(
                    LinkView::learned(with_desires(self.lights, present)),
                ),
                ..self
            }
        }
    }

    /// The world after the desk was saved under a name.
    pub open spec fn remembering(self, name: Seq<char>) -> WorldView {
        WorldView {
            scenes: self.scenes.insert(
                name,
                SceneView::captured(desires(self.lights), self.links),
            ),
            ..self
        }
    }

    /// The world after a scene was forgotten.
    pub open spec fn forgetting(self, name: Seq<char>) -> WorldView {
        WorldView { scenes: self.scenes.remove(name), ..self }
    }

    /// The gangs once a plan's lamps were detached and its gangs formed.
    pub open spec fn replanned(self, plan: PlanView) -> Seq<LinkView> {
        all_unlinked(self.links, plan.detach) + links_of(plan.form)
    }

    /// The world after a plan was carried out: detach, form, then drive values.
    pub open spec fn carried_out(self, plan: PlanView, now: u64) -> WorldView {
        WorldView {
            lights: driven(gangs_driven(self.lights, plan.form, now), plan.lamps, now),
            links: self.replanned(plan),
            scenes: self.scenes,
        }
    }

    /// What carrying out a plan announces.
    pub open spec fn plan_announced(self, plan: PlanView, now: u64) -> Seq<(Seq<char>, Changed)> {
        gangs_announced(self.lights, plan.form, now) + announced(
            gangs_driven(self.lights, plan.form, now),
            plan.lamps,
        )
    }
}

impl Default for World {
    fn default() -> (r: Self)
        ensures
            r@ == WorldView::blank(),
            r@.wf(),
    {
        let r = World { lights: NameMap::new(), links: Vec::new(), scenes: NameMap::new() };
        assert(r@ =~= WorldView::blank());
        r
    }
}

impl World {
    /// What is known about a light.
    pub fn get(&self, id: &str) -> (r: Option<&LightRecord>)
        ensures
            match r {
                Some(light) => self@.lights.contains_key(id@) && light@ == self@.lights[id@],
                None => !self@.lights.contains_key(id@),
            },
            self@.lights.dom().finite(),
    {
        self.lights.get(id)
    }

    /// How many lights there are.
    pub fn len(&self) -> (r: usize)
        ensures
            r == self@.lights.dom().len(),
            r == in_order(self@.lights.dom()).len(),
            self@.lights.dom().finite(),
    {
        self.lights.len()
    }

    /// Whether there are no lights.
    pub fn is_empty(&self) -> (r: bool)
        ensures
            r == (self@.lights.dom().len() == 0),
            self@.lights.dom().finite(),
    {
        self.lights.is_empty()
    }

    /// The light at a position of the listing.
    pub fn at(&self, i: usize) -> (r: &LightRecord)
        requires
            i < self@.lights.dom().len(),
        ensures
            self@.lights.contains_key(in_order(self@.lights.dom())[i as int]),
            r@ == self@.lights[in_order(self@.lights.dom())[i as int]],
            self@.lights.dom().finite(),
    {
        self.lights.value_at(i)
    }

    /// Every light, in order of their ids.
    pub fn iter(&self) -> (r: Vec<&LightRecord>)
        ensures
            r@.len() == in_order(self@.lights.dom()).len(),
            forall|i: int|
                0 <= i < r@.len() ==> (#[trigger] r@[i])@ == self@.lights[in_order(
                    self@.lights.dom(),
                )[i]],
            self@.lights.dom().finite(),
    {
        let total: usize = self.lights.len();
        let mut out: Vec<&LightRecord> = Vec::new();
        let mut i: usize = 0;
        while i < total
            invariant
                i <= total,
                total == self@.lights.dom().len(),
                total == in_order(self@.lights.dom()).len(),
                out@.len() == i,
                forall|j: int|
                    0 <= j < i ==> (#[trigger] out@[j])@ == self@.lights[in_order(
                        self@.lights.dom(),
                    )[j]],
            decreases total - i,
        {
            out.push(self.lights.value_at(i));
            i += 1;
        }
        out
    }

    /// Every light's id, in order.
    pub fn ids(&self) -> (r: Vec<LightId>)
        ensures
            texts(r@) == in_order(self@.lights.dom()),
            self@.lights.dom().finite(),
    {
        self.lights.names()
    }

    /// File a light under its id, returning the record it replaces.
    pub fn insert(&mut self, record: LightRecord) -> (r: Option<LightRecord>)
        ensures
            final(self)@ == (WorldView {
                lights: old(self)@.lights.insert(record@.id, record@),
                ..old(self)@
            }),
            match r {
                Some(previous) => old(self)@.lights.contains_key(record@.id) && previous@
                    == old(self)@.lights[record@.id],
                None => !old(self)@.lights.contains_key(record@.id),
            },
            old(self)@.wf() ==> final(self)@.wf(),
    {
        let id = record.id.clone();
        self.lights.insert(id, record)
    }

    /// Forget a light, returning its record.
    pub fn remove(&mut self, id: &str) -> (r: Option<LightRecord>)
        ensures
            final(self)@ == (WorldView { lights: old(self)@.lights.remove(id@), ..old(self)@ }),
            match r {
                Some(previous) => old(self)@.lights.contains_key(id@) && previous@
                    == old(self)@.lights[id@],
                None => !old(self)@.lights.contains_key(id@),
            },
            old(self)@.wf() ==> final(self)@.wf(),
    {
        self.lights.remove(id)
    }

    /// What is known about a light, borrowed to be changed in place. A light
    /// whose id is changed stays filed where it was.
    pub fn get_mut(&mut self, id: &str) -> (r: Option<&mut LightRecord>)
        ensures
            match r {
                Some(light) => {
                    &&& old(self)@.lights.contains_key(id@)
                    &&& light@ == old(self)@.lights[id@]
                    &&& final(self)@ == (WorldView {
                        lights: old(self)@.lights.insert(id@, final(light)@),
                        ..old(self)@
                    })
                    &&& old(self)@.wf() && final(light)@.id == id@ ==> final(self)@.wf()
                },
                None => !old(self)@.lights.contains_key(id@) && final(self)@ == old(self)@,
            },
    {
        self.lights.get_mut(id)
    }

    /// Where the lights are filed that a selector addresses.
    fn matching(&self, selector: &Selector) -> (r: NameSet)
        ensures
            r@ == self@.addressed(selector@),
            self@.lights.dom().finite(),
    {
        let ghost goal = self@.addressed(selector@);
        let ghost order = in_order(self@.lights.dom());
        let total: usize = self.lights.len();
        proof {
            lemma_listed(self@.lights.dom());
        }
        let mut out = NameSet::new();
        let mut i: usize = 0;
        while i < total
            invariant
                i <= total,
                total == self@.lights.dom().len(),
                total == order.len(),
                order == in_order(self@.lights.dom()),
                goal == self@.addressed(selector@),
                forall|place: Seq<char>| #[trigger]
                    out@.contains(place) <==> order.take(i as int).contains(place)
                        && goal.contains(place),
            decreases total - i,
        {
            proof {
                lemma_taken(order, i as int);
            }
            let light = self.lights.value_at(i);
            if selector.matches(light.id.as_str(), light.name.as_str()) {
                let _ = out.insert(self.lights.name_at(i).clone());
            }
            i += 1;
        }
        proof {
            assert(order.take(i as int) =~= order);
            assert(out@ =~= goal);
        }
        out
    }

    /// The lights a selector addresses.
    pub fn select(&self, selector: &Selector) -> (r: Vec<LightId>)
        ensures
            texts(r@) == self@.selected(selector@),
            self@.lights.dom().finite(),
    {
        let ghost lights = self@.lights;
        let places = self.matching(selector);
        let ghost order = in_order(places@);
        let count: usize = places.len();
        proof {
            lemma_listed(places@);
        }
        let mut out: Vec<LightId> = Vec::new();
        let mut k: usize = 0;
        while k < count
            invariant
                k <= count,
                lights == self@.lights,
                lights.dom().finite(),
                places@ == self@.addressed(selector@),
                order == in_order(places@),
                count == places@.len(),
                count == order.len(),
                forall|j: int| 0 <= j < order.len() ==> places@.contains(#[trigger] order[j]),
                out@.len() == k,
                forall|j: int| 0 <= j < k ==> (#[trigger] out@[j])@ == lights[order[j]].id,
            decreases count - k,
        {
            assert(places@.contains(order[k as int]));
            if let Some(light) = self.lights.get(places.name_at(k).as_str()) {
                out.push(light.id.clone());
            }
            k += 1;
        }
        assert(texts(out@) =~= self@.selected(selector@));
        out
    }

    /// What some of the lights are asked to be, in order of their ids.
    fn desires_listed(&self, online_only: bool) -> (r: Vec<LightState>)
        ensures
            r@ == desires_of(
                self@.lights,
                if online_only {
                    online_ids(self@.lights)
                } else {
                    self@.lights.dom()
                },
            ),
            online_only ==> r@.len() == online_ids(self@.lights).len(),
            online_ids(self@.lights).finite(),
    {
        let ghost lights = self@.lights;
        let ghost goal = if online_only {
            online_ids(lights)
        } else {
            lights.dom()
        };
        let ghost order = in_order(lights.dom());
        let total: usize = self.lights.len();
        proof {
            lemma_listed(lights.dom());
            vstd::set_lib::lemma_set_subset_finite(lights.dom(), online_ids(lights));
            vstd::set_lib::lemma_set_subset_finite(lights.dom(), goal);
        }
        let mut chosen = NameSet::new();
        let mut i: usize = 0;
        while i < total
            invariant
                i <= total,
                lights == self@.lights,
                lights.dom().finite(),
                total == lights.dom().len(),
                total == order.len(),
                order == in_order(lights.dom()),
                goal == if online_only {
                    online_ids(lights)
                } else {
                    lights.dom()
                },
                forall|id: Seq<char>| #[trigger]
                    chosen@.contains(id) <==> order.take(i as int).contains(id) && goal.contains(
                        id,
                    ),
            decreases total - i,
        {
            proof {
                lemma_taken(order, i as int);
                assert(lights.contains_key(order[i as int])) by {
                    lemma_listed(lights.dom());
                }
            }
            if !online_only || self.lights.value_at(i).online() {
                let _ = chosen.insert(self.lights.name_at(i).clone());
            }
            i += 1;
        }
        proof {
            assert(order.take(i as int) =~= order);
            assert(chosen@ =~= goal);
            lemma_listed(goal);
        }
        let mut out: Vec<LightState> = Vec::new();
        let count: usize = chosen.len();
        let mut k: usize = 0;
        while k < count
            invariant
                k <= count,
                lights == self@.lights,
                chosen@ == goal,
                goal.subset_of(lights.dom()),
                goal.finite(),
                count == goal.len(),
                count == in_order(goal).len(),
                out@.len() == k,
                forall|j: int|
                    0 <= j < k ==> #[trigger] out@[j] == lights[in_order(goal)[j]].desired,
            decreases count - k,
        {
            let id = chosen.name_at(k);
            if let Some(light) = self.lights.get(id.as_str()) {
                out.push(light.desired);
            }
            k += 1;
        }
        assert(out@ =~= desires_of(lights, goal));
        out
    }

    /// The state of the "all lights" pseudo-device.
    ///
    /// Aggregates online members only, so an unreachable light does not drag the
    /// average around. Falls back to every light when none are online, so the
    /// group reads as the last known state rather than going blank.
    pub fn group_state(&self) -> (r: Option<LightState>)
        ensures
            r == self@.group_state(),
    {
        let online = self.desires_listed(true);
        if online.len() > 0 {
            return aggregate(online.as_slice());
        }
        let all = self.desires_listed(false);
        aggregate(all.as_slice())
    }

    /// Number of members currently reachable.
    pub fn online_count(&self) -> (r: usize)
        ensures
            r == online_ids(self@.lights).len(),
            online_ids(self@.lights).finite(),
    {
        let online = self.desires_listed(true);
        online.len()
    }
}

/// Where the first gang with a lamp is: no earlier one has it.
pub proof fn lemma_gang_index(links: Seq<LinkView>, id: Seq<char>)
    ensures
        0 <= gang_index(links, id) <= links.len(),
        gang_index(links, id) < links.len() ==> links[gang_index(
            links,
            id,
        )].offsets.contains_key(id),
        forall|i: int|
            0 <= i < gang_index(links, id) ==> !(#[trigger] links[i]).offsets.contains_key(id),
    decreases links.len(),
{
    if links.len() > 0 {
        let short = links.drop_last();
        lemma_gang_index(short, id);
        assert forall|i: int| 0 <= i < gang_index(links, id) implies !(
        #[trigger] links[i]).offsets.contains_key(id) by {
            if i < short.len() {
                assert(short[i] == links[i]);
            }
        }
        if gang_index(short, id) < short.len() {
            assert(short[gang_index(short, id)] == links[gang_index(short, id)]);
        }
    }
}

proof fn lemma_gang_index_is(links: Seq<LinkView>, id: Seq<char>, at: int)
    requires
        0 <= at <= links.len(),
        at < links.len() ==> links[at].offsets.contains_key(id),
        forall|i: int| 0 <= i < at ==> !(#[trigger] links[i]).offsets.contains_key(id),
    ensures
        gang_index(links, id) == at,
{
    lemma_gang_index(links, id);
}

impl World {
    /// Where the gang of a lamp is.
    fn link_index(&self, id: &str) -> (r: usize)
        ensures
            r == gang_index(self@.links, id@),
            r <= self@.links.len(),
            self@.links.len() == self.links@.len(),
    {
        let ghost links = self@.links;
        let mut i: usize = 0;
        while i < self.links.len()
            invariant
                i <= self.links@.len(),
                links == link_views(self.links@),
                forall|j: int| 0 <= j < i ==> !(#[trigger] links[j]).offsets.contains_key(id@),
            decreases self.links@.len() - i,
        {
            assert(links[i as int] == self.links@[i as int]@);
            if self.links[i].contains(id) {
                proof {
                    lemma_gang_index_is(links, id@, i as int);
                }
                return i;
            }
            i += 1;
        }
        proof {
            lemma_gang_index_is(links, id@, i as int);
        }
        i
    }

    /// The gang a lamp belongs to, if any.
    pub fn link_of(&self, id: &str) -> (r: Option<&Link>)
        ensures
            match r {
                Some(link) => self@.gang(id@) == Some(link@),
                None => self@.gang(id@) is None,
            },
    {
        let at: usize = self.link_index(id);
        if at < self.links.len() {
            assert(self@.links[at as int] == self.links@[at as int]@);
            Some(&self.links[at])
        } else {
            None
        }
    }

    /// Every gang.
    pub fn links(&self) -> (r: &[Link])
        ensures
            link_views(r@) == self@.links,
    {
        self.links.as_slice()
    }

    /// Gang these lamps, learning the brightness differences they have now.
    ///
    /// Any lamp already in a gang leaves it first — a lamp is in at most one,
    /// which is what lets the panel draw one wire per port. Returns the members
    /// actually ganged.
    pub fn link(&mut self, members: &[LightId]) -> (r: Vec<LightId>)
        ensures
            ({
                let present = existing(old(self)@.lights, texts(members@));
                if present.len() < 2 {
                    r@.len() == 0
                } else {
                    texts(r@) == present
                }
            }),
            final(self)@ == old(self)@.linked(texts(members@)),
    {
        let ghost before = self@;
        let present = self.existing_of(members);
        let ghost names = existing(before.lights, texts(members@));
        assert(names.len() == present@.len());
        if present.len() < 2 {
            return Vec::new();
        }
        self.unlink_all(&present);

        // Ordered, not a map: the first lamp named is the reference, so
        // `link a b` reads "link b onto a" and a later mirror snaps onto a.
        let mut pairs: Vec<(String, LightState)> = Vec::new();
        let mut i: usize = 0;
        proof {
            lemma_existing(before.lights, texts(members@));
        }
        while i < present.len()
            invariant
                i <= present@.len(),
                names == texts(present@),
                self@.lights == before.lights,
                forall|j: int| 0 <= j < names.len() ==> before.lights.contains_key(#[trigger] names[j]),
                pairs@.len() == i,
                forall|j: int|
                    0 <= j < i ==> (#[trigger] pairs@[j])@ == (
                        names[j],
                        before.lights[names[j]].desired,
                    ),
            decreases present@.len() - i,
        {
            assert(names[i as int] == present@[i as int]@);
            if let Some(light) = self.lights.get(present[i].as_str()) {
                pairs.push((present[i].clone(), light.desired));
            }
            i += 1;
        }
        proof {
            assert(pairs@.map_values(|m: (String, LightState)| m@) =~= with_desires(
                before.lights,
                names,
            ));
        }
        let ghost detached = self.links@;
        let link = Link::learn(pairs.as_slice());
        let ghost made = link@;
        self.links.push(link);
        assert(link_views(self.links@) =~= link_views(detached).push(made));
        present
    }

    /// The given lamps that exist, in the order they were named.
    fn existing_of(&self, members: &[LightId]) -> (r: Vec<LightId>)
        ensures
            texts(r@) == existing(self@.lights, texts(members@)),
    {
        let ghost all = texts(members@);
        let ghost keep = |id: Seq<char>| self@.lights.contains_key(id);
        let mut out: Vec<LightId> = Vec::new();
        let mut i: usize = 0;
        proof {
            reveal(Seq::filter);
            assert(all.take(0) =~= Seq::empty());
            assert(texts(out@) =~= Seq::empty());
        }
        while i < members.len()
            invariant
                i <= members@.len(),
                all == texts(members@),
                keep == (|id: Seq<char>| self@.lights.contains_key(id)),
                texts(out@) == all.take(i as int).filter(keep),
            decreases members@.len() - i,
        {
            proof {
                reveal(Seq::filter);
                assert(all.take(i + 1).drop_last() =~= all.take(i as int));
                assert(all.take(i + 1).last() == members@[i as int]@);
            }
            if self.lights.contains_key(members[i].as_str()) {
                let ghost before = out@;
                out.push(members[i].clone());
                assert(texts(out@) =~= texts(before).push(members@[i as int]@));
            }
            i += 1;
        }
        assert(all.take(i as int) =~= all);
        out
    }

    /// Take several lamps out of their gangs, one after another.
    fn unlink_all(&mut self, ids: &Vec<LightId>)
        ensures
            final(self)@ == (WorldView {
                links: all_unlinked(old(self)@.links, texts(ids@)),
                ..old(self)@
            }),
    {
        let ghost before = self@;
        let ghost all = texts(ids@);
        let mut i: usize = 0;
        assert(all.take(0) =~= Seq::empty());
        while i < ids.len()
            invariant
                i <= ids@.len(),
                all == texts(ids@),
                self@ == (WorldView {
                    links: all_unlinked(before.links, all.take(i as int)),
                    ..before
                }),
            decreases ids@.len() - i,
        {
            proof {
                assert(all.take(i + 1).drop_last() =~= all.take(i as int));
                assert(all.take(i + 1).last() == ids@[i as int]@);
            }
            let _ = self.unlink(ids[i].as_str());
            i += 1;
        }
        assert(all.take(i as int) =~= all);
    }

    /// Take a lamp out of its gang, returning the members that were in it.
    ///
    /// A gang of one is not a gang, so the remainder is dissolved too.
    pub fn unlink(&mut self, id: &str) -> (r: Vec<LightId>)
        ensures
            final(self)@ == (WorldView { links: unlinked(old(self)@.links, id@), ..old(self)@ }),
            texts(r@) == match old(self)@.gang(id@) {
                Some(link) => in_order(link.offsets.dom()),
                None => seq![],
            },
    {
        let ghost before = self@;
        let at: usize = self.link_index(id);
        if at >= self.links.len() {
            let none: Vec<LightId> = Vec::new();
            assert(texts(none@) =~= seq![]);
            return none;
        }
        assert(before.links[at as int] == self.links@[at as int]@);
        let ghost all = self.links@;
        let mut link = self.links.remove(at);
        let affected = link.members();
        link.remove(id);
        assert(link_views(self.links@) =~= before.links.remove(at as int));
        if link.len() >= 2 {
            let ghost rest = self.links@;
            let ghost remnant = link@;
            self.links.push(link);
            assert(link_views(self.links@) =~= link_views(rest).push(remnant));
        }
        assert(self@ =~= (WorldView { links: unlinked(before.links, id@), ..before }));
        affected
    }

    /// Replace the stored links wholesale, for restoring from config.
    pub fn set_links(&mut self, links: Vec<Link>)
        ensures
            final(self)@ == (WorldView { links: link_views(links@), ..old(self)@ }),
    {
        self.links = links;
    }

    /// What each light is asked to be.
    fn desired_states(&self) -> (r: NameMap<LightState>)
        ensures
            r@ == desires(self@.lights),
            self@.lights.dom().finite(),
    {
        let ghost lights = self@.lights;
        let ghost order = in_order(lights.dom());
        let total: usize = self.lights.len();
        proof {
            lemma_listed(lights.dom());
        }
        let mut out: NameMap<LightState> = NameMap::new();
        let mut i: usize = 0;
        while i < total
            invariant
                i <= total,
                lights == self@.lights,
                total == lights.dom().len(),
                total == order.len(),
                order == in_order(lights.dom()),
                forall|id: Seq<char>| #[trigger]
                    out@.contains_key(id) <==> order.take(i as int).contains(id),
                forall|id: Seq<char>| #[trigger]
                    out@.contains_key(id) ==> out@[id] == lights[id].desired,
            decreases total - i,
        {
            proof {
                lemma_taken(order, i as int);
            }
            let _ = out.insert(self.lights.name_at(i).clone(), self.lights.value_at(i).desired);
            i += 1;
        }
        proof {
            assert(order.take(i as int) =~= order);
            assert(out@ =~= desires(lights));
        }
        out
    }

    /// Ask lights for states, returning those that now owe a push and what each
    /// one's clients would see change.
    fn drive(&mut self, values: &NameMap<LightState>, now: u64) -> (r: Vec<(LightId, Changed)>)
        ensures
            final(self)@ == old(self)@.drive(values@, now),
            touched(r@) == announced(old(self)@.lights, values@),
    {
        let ghost before = self@;
        let ghost order = in_order(values@.dom());
        let ghost due = owing(before.lights, values@);
        let total: usize = values.len();
        proof {
            lemma_listed(values@.dom());
            vstd::set_lib::lemma_set_subset_finite(values@.dom(), due);
        }
        let mut out: Vec<(LightId, Changed)> = Vec::new();
        let ghost mut ids: Seq<Seq<char>> = Seq::empty();
        let mut i: usize = 0;
        assert(driven(before.lights, Map::empty(), now) =~= before.lights);
        while i < total
            invariant
                i <= total,
                total == order.len(),
                total == values@.dom().len(),
                values@.dom().finite(),
                order == in_order(values@.dom()),
                crate::names::ascending(order),
                order.no_duplicates(),
                due == owing(before.lights, values@),
                self@.links == before.links,
                self@.scenes == before.scenes,
                self@.lights.dom() == before.lights.dom(),
                forall|id: Seq<char>| #[trigger]
                    before.lights.contains_key(id) ==> self@.lights[id] == if order.take(
                        i as int,
                    ).contains(id) {
                        before.lights[id].driven(values@[id], now)
                    } else {
                        before.lights[id]
                    },
                crate::names::ascending(ids),
                forall|id: Seq<char>| #[trigger]
                    ids.contains(id) <==> order.take(i as int).contains(id) && due.contains(id),
                out@.len() == ids.len(),
                forall|j: int|
                    0 <= j < ids.len() ==> (#[trigger] out@[j])@ == (
                        ids[j],
                        Changed::moved(before.lights[ids[j]].desired, values@[ids[j]]),
                    ),
            decreases total - i,
        {
            let ghost shown = ids;
            proof {
                lemma_taken(order, i as int);
                lemma_listed(values@.dom());
            }
            let id = values.name_at(i);
            let next = *values.value_at(i);
            assert(id@ == order[i as int]);
            assert(values@.contains_key(id@) && next == values@[id@]);
            let ghost there = self@.lights;
            if let Some(light) = self.lights.get_mut(id.as_str()) {
                let change = light.set_desired(next, now);
                if let Some(changed) = change {
                    out.push((id.clone(), changed));
                    proof {
                        ids = shown.push(id@);
                        lemma_extends(order, i as int, shown, due);
                    }
                }
            }
            i += 1;
            proof {
                assert(self@.lights.dom() =~= before.lights.dom());
                if ids == shown {
                    assert(!due.contains(id@));
                } else {
                    assert(due.contains(id@));
                    assert(ids.contains(id@)) by {
                        assert(ids[shown.len() as int] == id@);
                    }
                    assert forall|other: Seq<char>| #[trigger] ids.contains(other)
                        <==> order.take(i as int).contains(other) && due.contains(other) by {
                        lemma_pushed(shown, id@, other);
                    }
                }
            }
        }
        proof {
            assert(order.take(i as int) =~= order);
            assert(self@.lights =~= driven(before.lights, values@, now));
            assert(ids.to_set() =~= due);
            crate::names::lemma_in_order(ids);
            assert(touched(out@) =~= announced(before.lights, values@));
        }
        out
    }

    /// Drive a lamp's gang by its level — the gang's position as one fader.
    ///
    /// The honest way to move a gang from a single control. Writing a member's
    /// brightness instead requires knowing that member's offset, and there may
    /// be no member sitting at the level at all once alt-drags have moved the
    /// offsets around.
    pub fn set_link_level(&mut self, id: &str, level: i32, now: u64) -> (r: Vec<
        (LightId, Changed),
    >)
        ensures
            final(self)@ == old(self)@.drive(old(self)@.level_values(id@, level as int), now),
            touched(r@) == announced(
                old(self)@.lights,
                old(self)@.level_values(id@, level as int),
            ),
    {
        let states = self.desired_states();
        let ghost before = self@;
        let at: usize = self.link_index(id);
        let resolved = if at < self.links.len() {
            assert(before.links[at as int] == self.links@[at as int]@);
            // Temperature and power mirror, so any member supplies them.
            match first_known(&self.links[at], &states) {
                Some(template) => self.links[at].resolve_from_level(level, template),
                None => NameMap::new(),
            }
        } else {
            NameMap::new()
        };
        assert(resolved@ == before.level_values(id@, level as int));
        self.drive(&resolved, now)
    }

    /// A lamp's gang level, if it is ganged.
    pub fn link_level(&self, id: &str) -> (r: Option<i32>)
        ensures
            r == self@.level(id@),
    {
        let states = self.desired_states();
        match self.link_of(id) {
            Some(link) => link.level(&states),
            None => None,
        }
    }

    /// Change how a lamp's gang tracks.
    ///
    /// Mirroring is destructive — every member snaps onto the gang's reference,
    /// the lamp named first when it was made — so the moved lamps are returned
    /// as ordinary changes for the caller to push and announce.
    pub fn set_link_mode(&mut self, id: &str, mode: LinkMode, now: u64) -> (r: Vec<
        (LightId, Changed),
    >)
        ensures
            final(self)@ == old(self)@.remoded(id@, mode, now),
            touched(r@) == announced(old(self)@.lights, old(self)@.mode_values(id@, mode)),
    {
        let states = self.desired_states();
        let ghost before = self@;
        let at: usize = self.link_index(id);
        if at >= self.links.len() {
            let none: Vec<(LightId, Changed)> = Vec::new();
            proof {
                lemma_nothing_announced(before.lights);
                assert(touched(none@) =~= Seq::empty());
            }
            return none;
        }
        assert(before.links[at as int] == self.links@[at as int]@);
        let ghost links = self.links@;
        let mut link = self.links[at].clone();
        let moved = link.set_mode(mode, &states);
        let ghost after = link@;
        self.links.set(at, link);
        assert(link_views(self.links@) =~= before.links.update(at as int, after));
        match moved {
            Some(values) => self.drive(&values, now),
            None => {
                // Switching to offset moves nothing.
                let none: Vec<(LightId, Changed)> = Vec::new();
                proof {
                    lemma_nothing_announced(before.lights);
                    assert(touched(none@) =~= Seq::empty());
                    assert(driven(before.lights, Map::empty(), now) =~= before.lights);
                }
                none
            },
        }
    }

    /// Teach a lamp's gang a new difference after it moved on its own.
    ///
    /// This is alt-drag: the lamp keeps the value it was just given and the
    /// gang adopts the new spacing, rather than dragging the lamp back.
    pub fn relearn(&mut self, id: &str, brightness: u8) -> (r: bool)
        ensures
            final(self)@ == old(self)@.respaced(id@, brightness),
            r == (old(self)@.gang(id@) matches Some(link) && link.relearned(
                id@,
                brightness,
                desires(old(self)@.lights).remove(id@),
            ) is Some),
    {
        let ghost before = self@;
        let mut others = self.desired_states();
        let _ = others.remove(id);
        let at: usize = self.link_index(id);
        if at >= self.links.len() {
            return false;
        }
        assert(before.links[at as int] == self.links@[at as int]@);
        let mut link = self.links[at].clone();
        let learned = link.relearn(id, brightness, &others);
        let ghost after = link@;
        self.links.set(at, link);
        proof {
            assert(link_views(self.links@) =~= before.links.update(at as int, after));
            if !learned {
                assert(before.links.update(at as int, after) =~= before.links);
            }
        }
        learned
    }
}

/// The desired state of the first member that has one.
fn first_known(link: &Link, states: &NameMap<LightState>) -> (r: Option<LightState>)
    ensures
        match r {
            Some(state) => least(link@.known(states@)) matches Some(id) && state == states@[id]
                && states@.contains_key(id),
            None => least(link@.known(states@)) is None,
        },
{
    let ghost order = in_order(link@.offsets.dom());
    let ghost known = link@.known(states@);
    let total: usize = link.len();
    let mut i: usize = 0;
    while i < total
        invariant
            i <= total,
            total == order.len(),
            total == link@.offsets.dom().len(),
            link@.offsets.dom().finite(),
            order == in_order(link@.offsets.dom()),
            known == link@.known(states@),
            forall|j: int| 0 <= j < i ==> !known.contains(#[trigger] order[j]),
        decreases total - i,
    {
        let id = link.member_at(i);
        assert(id@ == order[i as int]);
        if let Some(state) = states.get(id.as_str()) {
            proof {
                assert(known.contains(order[i as int]));
                lemma_first_match(link@.offsets.dom(), known, i as int);
            }
            return Some(*state);
        }
        i += 1;
    }
    proof {
        lemma_no_match(link@.offsets.dom(), known);
    }
    None
}

proof fn lemma_existing(lights: Map<Seq<char>, RecordView>, ids: Seq<Seq<char>>)
    ensures
        forall|i: int|
            0 <= i < existing(lights, ids).len() ==> lights.contains_key(
                #[trigger] existing(lights, ids)[i],
            ),
    decreases ids.len(),
{
    reveal(Seq::filter);
    if ids.len() > 0 {
        lemma_existing(lights, ids.drop_last());
        let before = existing(lights, ids.drop_last());
        assert forall|i: int| 0 <= i < existing(lights, ids).len() implies lights.contains_key(
            #[trigger] existing(lights, ids)[i],
        ) by {
            if i < before.len() {
                assert(lights.contains_key(before[i]));
            }
        }
    }
}

/// Lights that all exist are all there.
pub proof fn lemma_all_existing(lights: Map<Seq<char>, RecordView>, ids: Seq<Seq<char>>)
    requires
        forall|k: int| 0 <= k < ids.len() ==> lights.contains_key(#[trigger] ids[k]),
    ensures
        existing(lights, ids) == ids,
    decreases ids.len(),
{
    reveal(Seq::filter);
    if ids.len() > 0 {
        let short = ids.drop_last();
        assert forall|k: int| 0 <= k < short.len() implies lights.contains_key(
            #[trigger] short[k],
        ) by {
            assert(ids[k] == short[k]);
        }
        lemma_all_existing(lights, short);
        assert(ids[ids.len() - 1] == ids.last());
        assert(short.push(ids.last()) =~= ids);
    }
}

proof fn lemma_pushed(names: Seq<Seq<char>>, name: Seq<char>, other: Seq<char>)
    ensures
        names.push(name).contains(other) <==> names.contains(other) || other == name,
{
    let grown = names.push(name);
    if names.contains(other) {
        let k = choose|k: int| 0 <= k < names.len() && names[k] == other;
        assert(grown[k] == other);
    }
    assert(grown[names.len() as int] == name);
}

/// A listing of part of what came before a name, with that name added, is still
/// in order.
proof fn lemma_extends(
    order: Seq<Seq<char>>,
    i: int,
    shown: Seq<Seq<char>>,
    due: Set<Seq<char>>,
)
    requires
        crate::names::ascending(order),
        crate::names::ascending(shown),
        0 <= i < order.len(),
        forall|id: Seq<char>| #[trigger]
            shown.contains(id) <==> order.take(i).contains(id) && due.contains(id),
    ensures
        crate::names::ascending(shown.push(order[i])),
{
    let grown = shown.push(order[i]);
    assert forall|a: int, b: int| 0 <= a < b < grown.len() implies crate::strings::precedes(
        #[trigger] grown[a],
        #[trigger] grown[b],
    ) by {
        if b == shown.len() {
            assert(shown.contains(shown[a]));
            let before = order.take(i);
            assert(before.contains(shown[a]));
            let k = choose|k: int| 0 <= k < before.len() && before[k] == shown[a];
            assert(crate::strings::precedes(order[k], order[i]));
        } else {
            assert(crate::strings::precedes(shown[a], shown[b]));
        }
    }
}

/// What is patched is what the lights carry as ids, each with what the patch
/// makes of a light that carries it.
pub proof fn lemma_patched(
    lights: Map<Seq<char>, RecordView>,
    places: Seq<Seq<char>>,
    patch: StatePatch,
)
    ensures
        forall|id: Seq<char>| #[trigger]
            patched(lights, places, patch).contains_key(id) <==> carried_ids(
                lights,
                places,
            ).contains(id),
        forall|id: Seq<char>| #[trigger]
            patched(lights, places, patch).contains_key(id) ==> exists|k: int|
                0 <= k < places.len() && lights[#[trigger] places[k]].id == id && patched(
                    lights,
                    places,
                    patch,
                )[id] == patch.applied(lights[places[k]].desired),
    decreases places.len(),
{
    let all = patched(lights, places, patch);
    let ids = carried_ids(lights, places);
    if places.len() > 0 {
        let short = places.drop_last();
        let last = places.len() - 1;
        let fewer = carried_ids(lights, short);
        lemma_patched(lights, short, patch);
        assert(ids =~= fewer.push(lights[places[last]].id));
        assert forall|id: Seq<char>| #[trigger] all.contains_key(id) <==> ids.contains(id) by {
            lemma_pushed(fewer, lights[places[last]].id, id);
            assert(patched(lights, short, patch).contains_key(id) <==> fewer.contains(id));
        }
        assert forall|id: Seq<char>| #[trigger] all.contains_key(id) implies exists|k: int|
            0 <= k < places.len() && lights[#[trigger] places[k]].id == id && all[id]
                == patch.applied(lights[places[k]].desired) by {
            if id == lights[places[last]].id {
                assert(lights[places[last]].id == id);
            } else {
                assert(patched(lights, short, patch).contains_key(id));
                let k = choose|k: int|
                    0 <= k < short.len() && lights[#[trigger] short[k]].id == id && patched(
                        lights,
                        short,
                        patch,
                    )[id] == patch.applied(lights[short[k]].desired);
                assert(places[k] == short[k]);
            }
        }
    }
}

/// Where every light is filed under its own id, a selector selects the places it
/// addresses, and a command asks each of them for what the patch makes of it.
pub proof fn lemma_filed(world: WorldView, choice: Choice, patch: StatePatch)
    requires
        world.wf(),
    ensures
        world.addressed(choice).finite(),
        world.selected(choice) == in_order(world.addressed(choice)),
        carried_ids(world.lights, in_order(world.lights.dom())) == in_order(world.lights.dom()),
        patched(world.lights, in_order(world.addressed(choice)), patch) == Map::new(
            |id: Seq<char>| world.addressed(choice).contains(id),
            |id: Seq<char>| patch.applied(world.lights[id].desired),
        ),
{
    let places = in_order(world.addressed(choice));
    vstd::set_lib::lemma_set_subset_finite(world.lights.dom(), world.addressed(choice));
    lemma_listed(world.addressed(choice));
    lemma_listed(world.lights.dom());
    assert forall|k: int| 0 <= k < places.len() implies world.lights[#[trigger] places[k]].id
        == places[k] by {
        assert(world.addressed(choice).contains(places[k]));
    }
    assert(world.selected(choice) =~= places);
    assert(carried_ids(world.lights, in_order(world.lights.dom())) =~= in_order(
        world.lights.dom(),
    ));
    lemma_patched(world.lights, places, patch);
    assert(patched(world.lights, places, patch) =~= Map::new(
        |id: Seq<char>| world.addressed(choice).contains(id),
        |id: Seq<char>| patch.applied(world.lights[id].desired),
    ));
}

proof fn lemma_nothing_announced(lights: Map<Seq<char>, RecordView>)
    ensures
        announced(lights, Map::empty()) == Seq::<(Seq<char>, Changed)>::empty(),
{
    let none = owing(lights, Map::empty());
    assert(none =~= Set::empty());
    lemma_listed(none);
    assert(announced(lights, Map::empty()) =~= Seq::<(Seq<char>, Changed)>::empty());
}

impl World {
    /// Saved scenes, by name.
    pub fn scenes(&self) -> (r: &NameMap<Scene>)
        ensures
            r@ == self@.scenes,
    {
        &self.scenes
    }

    /// The scene of a name.
    pub fn scene(&self, name: &str) -> (r: Option<&Scene>)
        ensures
            match r {
                Some(scene) => self@.scenes.contains_key(name@) && scene@ == self@.scenes[name@],
                None => !self@.scenes.contains_key(name@),
            },
    {
        self.scenes.get(name)
    }

    /// Save the whole desk under a name, replacing any scene already there.
    pub fn save_scene(&mut self, name: &str)
        ensures
            final(self)@ == old(self)@.remembering(name@),
    {
        let scene = self.capture_scene();
        let _ = self.scenes.insert(name.to_owned(), scene);
    }

    /// Forget a scene. `false` if there was none by that name.
    pub fn forget_scene(&mut self, name: &str) -> (r: bool)
        ensures
            r == old(self)@.scenes.contains_key(name@),
            final(self)@ == old(self)@.forgetting(name@),
    {
        self.scenes.remove(name).is_some()
    }

    /// Replace the stored scenes wholesale, for restoring from config.
    pub fn set_scenes(&mut self, scenes: NameMap<Scene>)
        ensures
            final(self)@ == (WorldView { scenes: scenes@, ..old(self)@ }),
    {
        self.scenes = scenes;
    }

    /// Photograph the whole desk: every lamp's desired state, and the gangs.
    ///
    /// Desired rather than reported, so a scene taken while a lamp is offline
    /// records what the user asked for and not the last thing the hardware
    /// managed to say.
    pub fn capture_scene(&self) -> (r: Scene)
        ensures
            r@ == SceneView::captured(desires(self@.lights), self@.links),
    {
        let states = self.desired_states();
        Scene::capture(&states, self.links.as_slice())
    }

    /// Restore a scene: detach, form, then drive values.
    ///
    /// The order is load-bearing. Detaching every named lamp first means a
    /// gang can be rebuilt from lamps that are currently spread across two
    /// other gangs, without the intermediate states mattering. Values come last
    /// so nothing is pushed through a link that is about to be replaced.
    ///
    /// Lamps the scene does not name are left entirely alone — not re-ganged,
    /// not moved. A lamp *is* touched if it was ganged to one the scene names:
    /// its gang loses that member, and dissolves if fewer than two remain. That
    /// is a topology change, not a value change; the lamp keeps its brightness.
    pub fn apply_scene(&mut self, scene: &Scene, now: u64) -> (r: Vec<(LightId, Changed)>)
        ensures
            final(self)@ == old(self)@.carried_out(
                scene@.planned(old(self)@.lights.dom()),
                now,
            ),
            touched(r@) == old(self)@.plan_announced(
                scene@.planned(old(self)@.lights.dom()),
                now,
            ),
    {
        let ghost before = self@;
        let present = self.present();
        let plan = scene.plan(&present);
        let ghost planned = plan@;
        self.unlink_all(&plan.detach);

        let mut i: usize = 0;
        let ghost kept = self@.links;
        assert(planned.form.take(0) =~= Seq::empty());
        assert(self@.links =~= kept + links_of(planned.form.take(0)));
        while i < plan.form.len()
            invariant
                i <= plan.form@.len(),
                planned == plan@,
                self@.lights == before.lights,
                self@.scenes == before.scenes,
                self@.links == kept + links_of(planned.form.take(i as int)),
            decreases plan.form@.len() - i,
        {
            let ghost here = self.links@;
            assert(planned.form[i as int] == plan.form@[i as int]@);
            let link = plan.form[i].to_link();
            let ghost made = link@;
            self.links.push(link);
            i += 1;
            proof {
                assert(link_views(self.links@) =~= link_views(here).push(made));
                assert(links_of(planned.form.take(i as int)) =~= links_of(
                    planned.form.take(i - 1),
                ).push(made));
                assert(self@.links =~= kept + links_of(planned.form.take(i as int)));
            }
        }
        assert(planned.form.take(i as int) =~= planned.form);

        // Gangs are driven by level rather than per-member brightness, so the
        // stored offsets are reproduced exactly even where a member's value
        // would clamp. Loose lamps carry absolute values already.
        let ghost links = self@.links;
        let mut out: Vec<(LightId, Changed)> = Vec::new();
        let mut k: usize = 0;
        assert(planned.form.take(0) =~= Seq::empty());
        assert(touched(out@) =~= Seq::empty());
        while k < plan.form.len()
            invariant
                k <= plan.form@.len(),
                planned == plan@,
                self@ == (WorldView {
                    lights: gangs_driven(before.lights, planned.form.take(k as int), now),
                    links,
                    scenes: before.scenes,
                }),
                touched(out@) == gangs_announced(
                    before.lights,
                    planned.form.take(k as int),
                    now,
                ),
            decreases plan.form@.len() - k,
        {
            proof {
                assert(planned.form.take(k + 1).drop_last() =~= planned.form.take(k as int));
                assert(planned.form.take(k + 1).last() == plan.form@[k as int]@);
            }
            let gang = &plan.form[k];
            let values = gang.to_link().resolve_from_level(gang.level, gang.template());
            let mut more = self.drive(&values, now);
            let ghost earlier = out@;
            let ghost later = more@;
            out.append(&mut more);
            assert(touched(out@) =~= touched(earlier) + touched(later));
            k += 1;
        }
        assert(planned.form.take(k as int) =~= planned.form);
        let mut last = self.drive(&plan.lamps, now);
        let ghost earlier = out@;
        let ghost later = last@;
        out.append(&mut last);
        assert(touched(out@) =~= touched(earlier) + touched(later));
        out
    }

    /// The ids of every light.
    fn present(&self) -> (r: NameSet)
        ensures
            r@ == self@.lights.dom(),
            r@.finite(),
    {
        let ghost order = in_order(self@.lights.dom());
        let total: usize = self.lights.len();
        proof {
            lemma_listed(self@.lights.dom());
        }
        let mut out = NameSet::new();
        let mut i: usize = 0;
        while i < total
            invariant
                i <= total,
                total == self@.lights.dom().len(),
                total == order.len(),
                order == in_order(self@.lights.dom()),
                forall|id: Seq<char>| #[trigger]
                    out@.contains(id) <==> order.take(i as int).contains(id),
            decreases total - i,
        {
            proof {
                lemma_taken(order, i as int);
            }
            let _ = out.insert(self.lights.name_at(i).clone());
            i += 1;
        }
        proof {
            assert(order.take(i as int) =~= order);
            assert(out@ =~= self@.lights.dom());
        }
        out
    }

    /// Apply a patch, returning the lights that now owe a push and what each
    /// one's clients would see change.
    ///
    /// `all` uses **group semantics**: the patch resolves once against the
    /// aggregate state and the resulting absolute state fans out to every
    /// member. That is what makes `gaffer toggle` do the obvious thing when one
    /// light is on and one is off, and it keeps the `all` selector consistent
    /// with the `/lights/all` D-Bus object. A named selector instead resolves
    /// per light, so `gaffer set left +10%` is relative to *that* light.
    ///
    /// Gangs are then expanded over the result: touching any member moves the
    /// whole instrument. Propagation happens here, once, inside a single apply
    /// — it never re-enters, so a symmetric link cannot chase itself.
    pub fn apply(&mut self, target: &Target, patch: &StatePatch, now: u64) -> (r: Vec<
        (LightId, Changed),
    >)
        ensures
            final(self)@ == old(self)@.drive(old(self)@.effect(target@, *patch), now),
            touched(r@) == announced(old(self)@.lights, old(self)@.effect(target@, *patch)),
    {
        let intended = self.intended(target, patch);
        let expanded = self.expand_through_links(intended);
        self.drive(&expanded, now)
    }

    /// What the command asks for, before gangs are considered.
    fn intended(&self, target: &Target, patch: &StatePatch) -> (r: NameMap<LightState>)
        ensures
            r@ == self@.asked(target@, *patch),
    {
        let mut out: NameMap<LightState> = NameMap::new();
        match target {
            Target::Id(id) => {
                if let Some(light) = self.lights.get(id.as_str()) {
                    let _ = out.insert(id.clone(), patch.apply(light.desired));
                }
                assert(out@ =~= self@.asked(target@, *patch));
                out
            },
            Target::Select(Selector::All) => {
                let base = match self.group_state() {
                    Some(base) => base,
                    None => return out,
                };
                let absolute = as_absolute(patch.apply(base));
                let all = self.each_patched(&Selector::All, &absolute);
                proof {
                    assert(self@.addressed(Choice::All) =~= self@.lights.dom());
                    lemma_patched(self@.lights, in_order(self@.lights.dom()), absolute);
                    assert(all@ =~= self@.asked(target@, *patch));
                }
                all
            },
            Target::Select(selector) => self.each_patched(selector, patch),
        }
    }

    /// What a patch makes of each light a selector matches.
    fn each_patched(&self, selector: &Selector, patch: &StatePatch) -> (r: NameMap<LightState>)
        ensures
            r@ == patched(self@.lights, in_order(self@.addressed(selector@)), *patch),
    {
        let ghost lights = self@.lights;
        let places = self.matching(selector);
        let ghost order = in_order(places@);
        let count: usize = places.len();
        proof {
            lemma_listed(places@);
            assert(order.take(0) =~= Seq::empty());
        }
        let mut out: NameMap<LightState> = NameMap::new();
        let mut k: usize = 0;
        while k < count
            invariant
                k <= count,
                lights == self@.lights,
                places@ == self@.addressed(selector@),
                order == in_order(places@),
                count == places@.len(),
                count == order.len(),
                forall|j: int| 0 <= j < order.len() ==> places@.contains(#[trigger] order[j]),
                out@ == patched(lights, order.take(k as int), *patch),
            decreases count - k,
        {
            proof {
                assert(order.take(k + 1).drop_last() =~= order.take(k as int));
                assert(order.take(k + 1).last() == order[k as int]);
                assert(places@.contains(order[k as int]));
            }
            if let Some(light) = self.lights.get(places.name_at(k).as_str()) {
                let _ = out.insert(light.id.clone(), patch.apply(light.desired));
            }
            k += 1;
        }
        assert(order.take(k as int) =~= order);
        out
    }

    /// Widen a set of intended states so every gang moves as one instrument.
    ///
    /// When a command touches several members of one gang — `all` does — the
    /// lowest-id member acts as the mover, so the outcome is deterministic
    /// rather than depending on iteration order.
    fn expand_through_links(&self, intended: NameMap<LightState>) -> (r: NameMap<LightState>)
        ensures
            r@ == expanded(self@.links, intended@, self@.lights),
    {
        let ghost links = self@.links;
        let mut out = intended.clone();
        let mut i: usize = 0;
        assert(links.take(0) =~= Seq::empty());
        while i < self.links.len()
            invariant
                i <= self.links@.len(),
                links == link_views(self.links@),
                links == self@.links,
                out@ == expanded(links.take(i as int), intended@, self@.lights),
            decreases self.links@.len() - i,
        {
            proof {
                assert(links.take(i + 1).drop_last() =~= links.take(i as int));
                assert(links.take(i + 1).last() == self.links@[i as int]@);
            }
            let link = &self.links[i];
            if let Some(mover) = first_among(link, &intended) {
                if let Some(next) = intended.get(mover.as_str()) {
                    let moved = link.resolve(mover.as_str(), *next);
                    self.overlay(&mut out, &moved);
                }
            }
            i += 1;
        }
        assert(links.take(i as int) =~= links);
        out
    }

    /// Put the states of the lights that exist over others.
    fn overlay(&self, out: &mut NameMap<LightState>, moved: &NameMap<LightState>)
        ensures
            final(out)@ == old(out)@.union_prefer_right(moved@.restrict(self@.lights.dom())),
    {
        let ghost before = out@;
        let ghost order = in_order(moved@.dom());
        let total: usize = moved.len();
        proof {
            lemma_listed(moved@.dom());
        }
        let mut i: usize = 0;
        while i < total
            invariant
                i <= total,
                total == moved@.dom().len(),
                total == order.len(),
                order == in_order(moved@.dom()),
                forall|id: Seq<char>| #[trigger]
                    out@.contains_key(id) <==> before.contains_key(id) || (order.take(
                        i as int,
                    ).contains(id) && self@.lights.contains_key(id)),
                forall|id: Seq<char>| #[trigger]
                    out@.contains_key(id) ==> out@[id] == if order.take(i as int).contains(id)
                        && self@.lights.contains_key(id) {
                        moved@[id]
                    } else {
                        before[id]
                    },
            decreases total - i,
        {
            proof {
                lemma_taken(order, i as int);
            }
            let id = moved.name_at(i);
            if self.lights.contains_key(id.as_str()) {
                let _ = out.insert(id.clone(), *moved.value_at(i));
            }
            i += 1;
        }
        proof {
            assert(order.take(i as int) =~= order);
            assert(out@ =~= before.union_prefer_right(moved@.restrict(self@.lights.dom())));
        }
    }
}

/// The first member of a gang that a map mentions.
fn first_among(link: &Link, states: &NameMap<LightState>) -> (r: Option<LightId>)
    ensures
        match r {
            Some(id) => least(link@.offsets.dom().intersect(states@.dom())) == Some(id@)
                && states@.contains_key(id@),
            None => least(link@.offsets.dom().intersect(states@.dom())) is None,
        },
{
    let ghost order = in_order(link@.offsets.dom());
    let ghost both = link@.offsets.dom().intersect(states@.dom());
    let total: usize = link.len();
    let mut i: usize = 0;
    while i < total
        invariant
            i <= total,
            total == order.len(),
            total == link@.offsets.dom().len(),
            link@.offsets.dom().finite(),
            order == in_order(link@.offsets.dom()),
            both == link@.offsets.dom().intersect(states@.dom()),
            forall|j: int| 0 <= j < i ==> !both.contains(#[trigger] order[j]),
        decreases total - i,
    {
        let id = link.member_at(i);
        assert(id@ == order[i as int]);
        if states.contains_key(id.as_str()) {
            proof {
                assert(both.contains(order[i as int]));
                lemma_first_match(link@.offsets.dom(), both, i as int);
            }
            return Some(id.clone());
        }
        i += 1;
    }
    proof {
        lemma_no_match(link@.offsets.dom(), both);
    }
    None
}

/// Turn a resolved state into a patch that sets every field absolutely.
fn as_absolute(state: LightState) -> (r: StatePatch)
    ensures
        state.valid() ==> forall|base: LightState| #[trigger] r.applied(base) == state,
{
    StatePatch {
        power: Some(
            if state.on {
                Power::On
            } else {
                Power::Off
            },
        ),
        brightness: Some(Adjust::To(state.brightness as i32)),
        kelvin: Some(Adjust::To(state.kelvin as i32)),
    }
}

/// What the group looked like at a point in time, for change detection.
///
/// Any per-light change moves the aggregate, so the group object needs its own
/// before/after comparison rather than reusing a member's diff.
#[derive(Clone, Copy, Debug, PartialEq, Eq, Structural)]
pub struct GroupSnapshot {
    pub state: Option<LightState>,
    pub online: usize,
    pub members: usize,
}

impl GroupSnapshot {
    /// What the group of a world looks like.
    pub open spec fn taken(world: WorldView) -> GroupSnapshot {
        GroupSnapshot {
            state: world.group_state(),
            online: online_ids(world.lights).len() as usize,
            members: world.lights.dom().len() as usize,
        }
    }

    /// The state shown for a group, the default when it has no members.
    pub open spec fn shown(self) -> LightState {
        match self.state {
            Some(state) => state,
            None => crate::state::unreported(),
        }
    }

    /// Which of the group's properties differ between two snapshots.
    pub open spec fn difference(before: GroupSnapshot, after: GroupSnapshot) -> Changed {
        Changed {
            online: before.online != after.online,
            ..Changed::moved(before.shown(), after.shown())
        }
    }

    /// What the group looks like now.
    pub fn of(world: &World) -> (r: Self)
        ensures
            r == GroupSnapshot::taken(world@),
            r.online == online_ids(world@.lights).len(),
            r.members == world@.lights.dom().len(),
    {
        GroupSnapshot {
            state: world.group_state(),
            online: world.online_count(),
            members: world.len(),
        }
    }

    /// Whether membership or reachability moved, which the manager also exposes.
    pub fn membership_changed(before: Self, after: Self) -> (r: bool)
        ensures
            r == (before.members != after.members || before.online != after.online),
    {
        before.members != after.members || before.online != after.online
    }

    /// Which of the group object's properties differ between two snapshots.
    pub fn diff(before: Self, after: Self) -> (r: Changed)
        ensures
            r == GroupSnapshot::difference(before, after),
    {
        let b = match before.state {
            Some(state) => state,
            None => LightState::default(),
        };
        let a = match after.state {
            Some(state) => state,
            None => LightState::default(),
        };
        Changed {
            meta: false,
            online: before.online != after.online,
            on: b.on != a.on,
            brightness: b.brightness != a.brightness,
            kelvin: b.kelvin != a.kelvin,
            error: false,
        }
    }
}

} // verus!
