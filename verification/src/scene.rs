//! Named looks you return to.
//!
//! A scene stores **topology, not per-lamp values** — the gangs, their modes
//! and offsets, and each gang's level. That is not a stylistic choice: replaying
//! absolute brightnesses into a live gang is ill-defined, because every write
//! fans out. Setting A re-derives the level and drags B; setting B then does it
//! again. The result is last-write-wins with the others sitting at
//! `level + offset`, not at the values that were stored. Writing each lamp
//! *alone* avoids the fan-out but re-learns the offsets, so the ratio is lost
//! either way — and neither approach can restore membership or mode at all.
//!
//! The two schemes are not rivals on storage: `level + offset_i == brightness_i`
//! carries the same information. The difference is only what apply restores, and
//! topology is the part that cannot be reconstructed.
//!
//! # Scope
//!
//! Applying is bounded to the lamps a scene names, with one unavoidable
//! exception. Gang membership is symmetric, so a named lamp cannot leave a gang
//! without affecting the lamps it leaves behind. The rule:
//!
//! * Named lamps are removed from whatever gang they are in.
//! * The remnant survives at two or more members, and dissolves otherwise.
//! * Unnamed lamps are never re-ganged and never moved.
//!
//! Because offsets are stored against a notional level, dropping a member needs
//! no re-basing and changes nobody's brightness.

use vstd::prelude::*;
use vstd::string::*;

use crate::link::{law_the_level_restores_the_gang, saturated, Link, LinkMode, LinkView};
use crate::names::{ascending, in_order, least, lemma_ascending_distinct, lemma_least,
    lemma_least_is, lemma_listed, lemma_taken, NameMap, NameSet};
use crate::state::{valid_brightness, LightState, MAX_BRIGHTNESS};
use crate::strings::{precedes, same, texts};

verus! {

broadcast use vstd::string::group_string_axioms;

/// A gang, as a scene remembers it.
#[derive(Debug, PartialEq, Eq)]
pub struct SceneGang {
    /// Members in order; the first is the reference whose values win a mirror.
    pub members: Vec<String>,
    pub mode: LinkMode,
    /// Each member's brightness offset from the gang's level.
    pub offsets: NameMap<i32>,
    /// The gang's position as one fader. Deliberately signed and unclamped, so
    /// a gang compressed against the ceiling restores exactly as captured.
    pub level: i32,
    /// Temperature and power mirror across a gang, so one each is enough.
    pub kelvin: u16,
    pub on: bool,
}

/// A lamp that belongs to no gang.
#[derive(Debug, PartialEq, Eq)]
pub struct SceneLamp {
    pub id: String,
    pub brightness: u8,
    pub kelvin: u16,
    pub on: bool,
}

/// A named look.
#[derive(Debug, PartialEq, Eq)]
pub struct Scene {
    pub gangs: Vec<SceneGang>,
    pub lamps: Vec<SceneLamp>,
}

/// What applying a scene requires, in the order it must happen.
///
/// Topology first, then values — so the level write fans out through the gang
/// that was just re-formed and the offsets land exactly as captured. Doing it
/// the other way round would write values into whatever gang happened to exist.
#[derive(Debug, PartialEq, Eq)]
pub struct ScenePlan {
    /// Lamps to remove from whatever gang they are currently in.
    pub detach: Vec<String>,
    /// Gangs to form. Members are ordered; the first is the reference.
    pub form: Vec<SceneGang>,
    /// Absolute states for lamps the scene names individually.
    pub lamps: NameMap<LightState>,
}

/// A [`SceneGang`] as mathematics.
#[verifier::ext_equal]
pub struct GangView {
    pub members: Seq<Seq<char>>,
    pub mode: LinkMode,
    pub offsets: Map<Seq<char>, i32>,
    pub level: i32,
    pub kelvin: u16,
    pub on: bool,
}

/// A [`SceneLamp`] as mathematics.
pub struct LampView {
    pub id: Seq<char>,
    pub state: LightState,
}

/// A [`Scene`] as mathematics.
#[verifier::ext_equal]
pub struct SceneView {
    pub gangs: Seq<GangView>,
    pub lamps: Seq<LampView>,
}

/// A [`ScenePlan`] as mathematics.
#[verifier::ext_equal]
pub struct PlanView {
    pub detach: Seq<Seq<char>>,
    pub form: Seq<GangView>,
    pub lamps: Map<Seq<char>, LightState>,
}

impl View for SceneGang {
    type V = GangView;

    open spec fn view(&self) -> GangView {
        GangView {
            members: texts(self.members@),
            mode: self.mode,
            offsets: self.offsets@,
            level: self.level,
            kelvin: self.kelvin,
            on: self.on,
        }
    }
}

impl View for SceneLamp {
    type V = LampView;

    open spec fn view(&self) -> LampView {
        LampView {
            id: self.id@,
            state: LightState { on: self.on, brightness: self.brightness, kelvin: self.kelvin },
        }
    }
}

/// Several gangs as mathematics.
pub open spec fn gang_views(gangs: Seq<SceneGang>) -> Seq<GangView> {
    gangs.map_values(|gang: SceneGang| gang@)
}

/// Several lamps as mathematics.
pub open spec fn lamp_views(lamps: Seq<SceneLamp>) -> Seq<LampView> {
    lamps.map_values(|lamp: SceneLamp| lamp@)
}

/// Several links as mathematics.
pub open spec fn link_views(links: Seq<Link>) -> Seq<LinkView> {
    links.map_values(|link: Link| link@)
}

impl View for Scene {
    type V = SceneView;

    open spec fn view(&self) -> SceneView {
        SceneView { gangs: gang_views(self.gangs@), lamps: lamp_views(self.lamps@) }
    }
}

impl View for ScenePlan {
    type V = PlanView;

    open spec fn view(&self) -> PlanView {
        PlanView {
            detach: texts(self.detach@),
            form: gang_views(self.form@),
            lamps: self.lamps@,
        }
    }
}

/// The names of a listing that are in a set, in the listing's order.
pub open spec fn among(names: Seq<Seq<char>>, present: Set<Seq<char>>) -> Seq<Seq<char>> {
    names.filter(|id: Seq<char>| present.contains(id))
}

impl GangView {
    /// The link this gang describes: its members that have an offset, the first
    /// of them leading.
    pub open spec fn link(self) -> LinkView {
        LinkView::restored(
            self.mode,
            if self.members.len() == 0 {
                None
            } else {
                Some(self.members[0])
            },
            self.offsets.restrict(self.members.to_set()),
        )
    }

    /// The state the gang's level stands for.
    pub open spec fn template(self) -> LightState {
        LightState {
            on: self.on,
            brightness: valid_brightness(self.level as int) as u8,
            kelvin: self.kelvin,
        }
    }

    /// What each member becomes when the gang is driven to its stored level.
    pub open spec fn values(self) -> Map<Seq<char>, LightState> {
        self.link().spread(self.level as int, self.template())
    }

    /// The state a member takes when too little of the gang is here to form it.
    pub open spec fn alone(self, member: Seq<char>) -> LightState {
        let offset: int = if self.offsets.contains_key(member) {
            self.offsets[member] as int
        } else {
            0
        };
        LightState {
            on: self.on,
            brightness: valid_brightness(self.level + offset) as u8,
            kelvin: self.kelvin,
        }
    }

    /// The members that are here, in order.
    pub open spec fn here(self, present: Set<Seq<char>>) -> Seq<Seq<char>> {
        among(self.members, present)
    }

    /// The gang with only the members that are here; its offsets are untouched.
    pub open spec fn reduced(self, present: Set<Seq<char>>) -> GangView {
        GangView { members: self.here(present), ..self }
    }
}

/// The lamp that leads what is captured of a gang: its reference, or the first
/// of the captured members when the reference is not among them.
pub open spec fn lead(link: LinkView, states: Map<Seq<char>, LightState>) -> Seq<char> {
    if states.contains_key(link.reference) {
        link.reference
    } else {
        in_order(link.known(states))[0]
    }
}

/// What of a gang is captured: its captured members, led by its lead.
pub open spec fn captured_part(link: LinkView, states: Map<Seq<char>, LightState>) -> LinkView {
    LinkView {
        mode: link.mode,
        reference: lead(link, states),
        offsets: link.offsets.restrict(states.dom()),
    }
}

/// What a scene remembers of a link: nothing unless two or more of its members
/// were captured. The lead comes first, so the ordering that decides a mirror
/// survives into storage.
pub open spec fn gang_of(link: LinkView, states: Map<Seq<char>, LightState>) -> Option<GangView> {
    if link.known(states).len() < 2 {
        None
    } else {
        let lead = lead(link, states);
        Some(
            GangView {
                members: seq![lead] + in_order(link.known(states).remove(lead)),
                mode: link.mode,
                offsets: link.offsets.restrict(states.dom()),
                level: saturated(link.level_of(states)->0),
                kelvin: states[lead].kelvin,
                on: states[lead].on,
            },
        )
    }
}

/// The gangs a scene remembers, in the order of the links.
pub open spec fn gangs_of(links: Seq<LinkView>, states: Map<Seq<char>, LightState>) -> Seq<
    GangView,
>
    decreases links.len(),
{
    if links.len() == 0 {
        seq![]
    } else {
        match gang_of(links.last(), states) {
            Some(gang) => gangs_of(links.drop_last(), states).push(gang),
            None => gangs_of(links.drop_last(), states),
        }
    }
}

/// The lamps that belong to any of several gangs.
pub open spec fn ganged(gangs: Seq<GangView>) -> Set<Seq<char>>
    decreases gangs.len(),
{
    if gangs.len() == 0 {
        Set::empty()
    } else {
        ganged(gangs.drop_last()).union(gangs.last().members.to_set())
    }
}

/// The lamps named one by one.
pub open spec fn loose(lamps: Seq<LampView>) -> Set<Seq<char>>
    decreases lamps.len(),
{
    if lamps.len() == 0 {
        Set::empty()
    } else {
        loose(lamps.drop_last()).insert(lamps.last().id)
    }
}

/// The gangs of which two or more members are here.
pub open spec fn formed(gangs: Seq<GangView>, present: Set<Seq<char>>) -> Seq<GangView>
    decreases gangs.len(),
{
    if gangs.len() == 0 {
        seq![]
    } else if gangs.last().here(present).len() >= 2 {
        formed(gangs.drop_last(), present).push(gangs.last().reduced(present))
    } else {
        formed(gangs.drop_last(), present)
    }
}

/// The states of the lamps that are the only ones here of their gang.
pub open spec fn survivors(gangs: Seq<GangView>, present: Set<Seq<char>>) -> Map<
    Seq<char>,
    LightState,
>
    decreases gangs.len(),
{
    if gangs.len() == 0 {
        Map::empty()
    } else if gangs.last().here(present).len() == 1 {
        let only = gangs.last().here(present)[0];
        survivors(gangs.drop_last(), present).insert(only, gangs.last().alone(only))
    } else {
        survivors(gangs.drop_last(), present)
    }
}

/// The given states, with those of the lamps that are here put over them.
pub open spec fn overlaid(
    base: Map<Seq<char>, LightState>,
    lamps: Seq<LampView>,
    present: Set<Seq<char>>,
) -> Map<Seq<char>, LightState>
    decreases lamps.len(),
{
    if lamps.len() == 0 {
        base
    } else if present.contains(lamps.last().id) {
        overlaid(base, lamps.drop_last(), present).insert(lamps.last().id, lamps.last().state)
    } else {
        overlaid(base, lamps.drop_last(), present)
    }
}

/// What several gangs drive their members to, a later gang over an earlier one.
pub open spec fn gang_values(gangs: Seq<GangView>) -> Map<Seq<char>, LightState>
    decreases gangs.len(),
{
    if gangs.len() == 0 {
        Map::empty()
    } else {
        gang_values(gangs.drop_last()).union_prefer_right(gangs.last().values())
    }
}

impl PlanView {
    /// What carrying out the plan drives each lamp to.
    pub open spec fn values(self) -> Map<Seq<char>, LightState> {
        gang_values(self.form).union_prefer_right(self.lamps)
    }
}

impl SceneView {
    /// The look of the given lamps: gangs as topology, every other lamp by its
    /// own values.
    pub open spec fn captured(
        states: Map<Seq<char>, LightState>,
        links: Seq<LinkView>,
    ) -> SceneView {
        let gangs = gangs_of(links, states);
        let rest = in_order(states.dom().difference(ganged(gangs)));
        SceneView {
            gangs,
            lamps: rest.map_values(|id: Seq<char>| LampView { id, state: states[id] }),
        }
    }

    /// Every lamp this scene names.
    pub open spec fn named(self) -> Set<Seq<char>> {
        ganged(self.gangs).union(loose(self.lamps))
    }

    /// What applying this scene requires, given the lamps that exist.
    pub open spec fn planned(self, present: Set<Seq<char>>) -> PlanView {
        PlanView {
            detach: in_order(self.named().intersect(present)),
            form: formed(self.gangs, present),
            lamps: overlaid(survivors(self.gangs, present), self.lamps, present),
        }
    }
}

impl Clone for SceneGang {
    fn clone(&self) -> (r: Self)
        ensures
            r@ == self@,
    {
        let r = SceneGang {
            members: copied(&self.members),
            mode: self.mode,
            offsets: self.offsets.clone(),
            level: self.level,
            kelvin: self.kelvin,
            on: self.on,
        };
        r
    }
}

impl Clone for SceneLamp {
    fn clone(&self) -> (r: Self)
        ensures
            r@ == self@,
    {
        SceneLamp {
            id: self.id.clone(),
            brightness: self.brightness,
            kelvin: self.kelvin,
            on: self.on,
        }
    }
}

impl Clone for Scene {
    fn clone(&self) -> (r: Self)
        ensures
            r@ == self@,
    {
        let mut lamps: Vec<SceneLamp> = Vec::new();
        let mut k: usize = 0;
        while k < self.lamps.len()
            invariant
                k <= self.lamps@.len(),
                lamps@.len() == k,
                forall|j: int| 0 <= j < k ==> (#[trigger] lamps@[j])@ == self.lamps@[j]@,
            decreases self.lamps@.len() - k,
        {
            lamps.push(self.lamps[k].clone());
            k += 1;
        }
        let r = Scene { gangs: copied_gangs(&self.gangs), lamps };
        assert(lamp_views(r.lamps@) =~= lamp_views(self.lamps@));
        r
    }
}

impl Clone for ScenePlan {
    fn clone(&self) -> (r: Self)
        ensures
            r@ == self@,
    {
        ScenePlan {
            detach: copied(&self.detach),
            form: copied_gangs(&self.form),
            lamps: self.lamps.clone(),
        }
    }
}

impl Default for Scene {
    fn default() -> (r: Self)
        ensures
            r@ == (SceneView { gangs: seq![], lamps: seq![] }),
    {
        let r = Scene { gangs: Vec::new(), lamps: Vec::new() };
        assert(r@ =~= (SceneView { gangs: seq![], lamps: seq![] }));
        r
    }
}

impl Default for ScenePlan {
    fn default() -> (r: Self)
        ensures
            r@ == (PlanView { detach: seq![], form: seq![], lamps: Map::empty() }),
    {
        let r = ScenePlan { detach: Vec::new(), form: Vec::new(), lamps: NameMap::new() };
        assert(r@ =~= (PlanView { detach: seq![], form: seq![], lamps: Map::empty() }));
        r
    }
}

/// The same strings again.
fn copied(strings: &Vec<String>) -> (r: Vec<String>)
    ensures
        texts(r@) == texts(strings@),
{
    let mut out: Vec<String> = Vec::new();
    let mut i: usize = 0;
    while i < strings.len()
        invariant
            i <= strings@.len(),
            out@.len() == i,
            forall|j: int| 0 <= j < i ==> (#[trigger] out@[j])@ == strings@[j]@,
        decreases strings@.len() - i,
    {
        out.push(strings[i].clone());
        i += 1;
    }
    assert(texts(out@) =~= texts(strings@));
    out
}

fn copied_gangs(gangs: &Vec<SceneGang>) -> (r: Vec<SceneGang>)
    ensures
        gang_views(r@) == gang_views(gangs@),
{
    let mut out: Vec<SceneGang> = Vec::new();
    let mut i: usize = 0;
    while i < gangs.len()
        invariant
            i <= gangs@.len(),
            out@.len() == i,
            forall|j: int| 0 <= j < i ==> (#[trigger] out@[j])@ == gangs@[j]@,
        decreases gangs@.len() - i,
    {
        out.push(gangs[i].clone());
        i += 1;
    }
    assert(gang_views(out@) =~= gang_views(gangs@));
    out
}

fn clamp_u8(value: i64) -> (r: u8)
    ensures
        r == valid_brightness(value as int),
{
    if value < 0 {
        0
    } else if value > MAX_BRIGHTNESS as i64 {
        MAX_BRIGHTNESS
    } else {
        value as u8
    }
}

/// Put several names into a set.
fn add_all(set: &mut NameSet, names: &Vec<String>)
    ensures
        final(set)@ == old(set)@.union(texts(names@).to_set()),
{
    let ghost before = set@;
    let ghost all = texts(names@);
    let mut i: usize = 0;
    assert(set@ =~= before.union(all.take(0).to_set()));
    while i < names.len()
        invariant
            i <= names@.len(),
            all == texts(names@),
            set@ == before.union(all.take(i as int).to_set()),
        decreases names@.len() - i,
    {
        proof {
            lemma_taken(all, i as int);
        }
        let ghost here = set@;
        let _ = set.insert(names[i].clone());
        i += 1;
        proof {
            assert forall|id: Seq<char>| #[trigger] set@.contains(id) <==> before.union(
                all.take(i as int).to_set(),
            ).contains(id) by {
                assert(all.take(i as int).to_set().contains(id) <==> all.take(i as int).contains(
                    id,
                ));
                assert(all.take(i - 1).to_set().contains(id) <==> all.take(i - 1).contains(id));
                assert(here.contains(id) <==> before.union(all.take(i - 1).to_set()).contains(id));
            }
            assert(set@ =~= before.union(all.take(i as int).to_set()));
        }
    }
    assert(all.take(i as int) =~= all);
}

/// What a scene remembers of one link.
fn capture_gang(link: &Link, states: &NameMap<LightState>) -> (r: Option<SceneGang>)
    ensures
        match r {
            Some(gang) => gang_of(link@, states@) == Some(gang@),
            None => gang_of(link@, states@) is None,
        },
{
    let ghost view = link@;
    let ghost order = in_order(view.offsets.dom());
    let total: usize = link.len();
    proof {
        lemma_listed(view.offsets.dom());
    }
    let mut known = NameSet::new();
    let mut offsets: NameMap<i32> = NameMap::new();
    let mut i: usize = 0;
    while i < total
        invariant
            i <= total,
            view == link@,
            order == in_order(view.offsets.dom()),
            total == order.len(),
            total == view.offsets.dom().len(),
            forall|id: Seq<char>| #[trigger]
                known@.contains(id) <==> order.take(i as int).contains(id) && states@.contains_key(
                    id,
                ),
            forall|id: Seq<char>| #[trigger]
                offsets@.contains_key(id) <==> known@.contains(id),
            forall|id: Seq<char>| #[trigger]
                offsets@.contains_key(id) ==> offsets@[id] == view.offsets[id],
        decreases total - i,
    {
        proof {
            lemma_taken(order, i as int);
        }
        let id = link.member_at(i);
        if states.contains_key(id.as_str()) {
            let _ = known.insert(id.clone());
            if let Some(offset) = link.offset_of(id.as_str()) {
                let _ = offsets.insert(id.clone(), offset);
            }
        }
        i += 1;
    }
    proof {
        assert(order.take(i as int) =~= order);
        assert(known@ =~= view.known(states@));
        assert(offsets@ =~= view.offsets.restrict(states@.dom()));
    }
    if known.len() < 2 {
        return None;
    }
    let level: i32 = match link.level(states) {
        Some(level) => level,
        None => return None,
    };

    // The reference leads, so the ordering that decides a mirror survives into
    // storage; when it was not captured, the first member that was steps in.
    let ghost leader = lead(view, states@);
    let first = if states.contains_key(link.reference()) {
        link.reference().to_owned()
    } else {
        known.name_at(0).clone()
    };
    proof {
        lemma_listed(known@);
        assert(known@.contains(in_order(known@)[0]));
    }
    let template = match states.get(first.as_str()) {
        Some(state) => *state,
        None => return None,
    };
    let followers = others(&known, first.as_str());
    let mut members: Vec<String> = Vec::new();
    members.push(first);
    let mut k: usize = 0;
    while k < followers.len()
        invariant
            k <= followers@.len(),
            members@.len() == k + 1,
            members@[0]@ == leader,
            forall|j: int| 1 <= j <= k ==> (#[trigger] members@[j])@ == followers@[j - 1]@,
        decreases followers@.len() - k,
    {
        members.push(followers[k].clone());
        k += 1;
    }
    let gang = SceneGang {
        members,
        mode: link.mode(),
        offsets,
        level,
        kelvin: template.kelvin,
        on: template.on,
    };
    proof {
        let wanted = seq![leader] + in_order(view.known(states@).remove(leader));
        assert(texts(followers@).len() == followers@.len());
        assert forall|j: int| 0 <= j < wanted.len() implies texts(members@)[j]
            == #[trigger] wanted[j] by {
            if j > 0 {
                assert(texts(followers@)[j - 1] == followers@[j - 1]@);
            }
        }
        assert(gang@.members =~= wanted);
    }
    Some(gang)
}

/// The names of a set but for one, in order.
fn others(names: &NameSet, one: &str) -> (r: Vec<String>)
    ensures
        texts(r@) == in_order(names@.remove(one@)),
{
    let ghost order = in_order(names@);
    let total: usize = names.len();
    proof {
        lemma_listed(names@);
    }
    let mut rest = NameSet::new();
    let mut i: usize = 0;
    while i < total
        invariant
            i <= total,
            order == in_order(names@),
            total == order.len(),
            total == names@.len(),
            forall|id: Seq<char>| #[trigger]
                rest@.contains(id) <==> order.take(i as int).contains(id) && id != one@,
        decreases total - i,
    {
        proof {
            lemma_taken(order, i as int);
        }
        let id = names.name_at(i);
        if !same(id.as_str(), one) {
            let _ = rest.insert(id.clone());
        }
        i += 1;
    }
    proof {
        assert(order.take(i as int) =~= order);
        assert(rest@ =~= names@.remove(one@));
    }
    rest.names()
}

impl Scene {
    /// Capture the current look of the given lamps.
    ///
    /// `links` supplies whatever gangs exist; a lamp in one is captured as part
    /// of that gang, and only gangs with two or more captured members are kept
    /// — a gang the scene half-covers would be neither reproducible nor honest.
    /// The reference leads what is kept; where it is not among the captured
    /// members, the first of them leads in its place.
    pub fn capture(states: &NameMap<LightState>, links: &[Link]) -> (r: Self)
        ensures
            r@ == SceneView::captured(states@, link_views(links@)),
    {
        let ghost all = link_views(links@);
        let mut gangs: Vec<SceneGang> = Vec::new();
        let mut spoken_for = NameSet::new();
        let mut i: usize = 0;
        assert(all.take(0) =~= Seq::empty());
        assert(gang_views(gangs@) =~= Seq::empty());
        while i < links.len()
            invariant
                i <= links@.len(),
                all == link_views(links@),
                gang_views(gangs@) == gangs_of(all.take(i as int), states@),
                spoken_for@ == ganged(gang_views(gangs@)),
            decreases links@.len() - i,
        {
            proof {
                assert(all.take(i + 1).drop_last() =~= all.take(i as int));
                assert(all.take(i + 1).last() == links@[i as int]@);
            }
            if let Some(gang) = capture_gang(&links[i], states) {
                add_all(&mut spoken_for, &gang.members);
                let ghost before = gangs@;
                let ghost added = gang@;
                gangs.push(gang);
                proof {
                    assert(gang_views(gangs@) =~= gang_views(before).push(added));
                    assert(gang_views(gangs@).drop_last() =~= gang_views(before));
                }
            }
            i += 1;
        }
        assert(all.take(i as int) =~= all);
        let ghost taken = ganged(gang_views(gangs@));
        let ghost goal = states@.dom().difference(taken);

        let total: usize = states.len();
        let ghost order = in_order(states@.dom());
        proof {
            lemma_listed(states@.dom());
        }
        let mut rest = NameSet::new();
        let mut k: usize = 0;
        while k < total
            invariant
                k <= total,
                order == in_order(states@.dom()),
                total == order.len(),
                total == states@.dom().len(),
                spoken_for@ == taken,
                forall|id: Seq<char>| #[trigger]
                    rest@.contains(id) <==> order.take(k as int).contains(id) && !taken.contains(
                        id,
                    ),
            decreases total - k,
        {
            proof {
                lemma_taken(order, k as int);
            }
            let id = states.name_at(k);
            if !spoken_for.contains(id.as_str()) {
                let _ = rest.insert(id.clone());
            }
            k += 1;
        }
        proof {
            assert(order.take(k as int) =~= order);
            assert(rest@ =~= goal);
        }
        let ids = rest.names();
        let mut lamps: Vec<SceneLamp> = Vec::new();
        let mut n: usize = 0;
        while n < ids.len()
            invariant
                n <= ids@.len(),
                texts(ids@) == in_order(goal),
                goal.finite(),
                goal.subset_of(states@.dom()),
                lamps@.len() == n,
                forall|j: int|
                    0 <= j < n ==> (#[trigger] lamps@[j])@ == (LampView {
                        id: in_order(goal)[j],
                        state: states@[in_order(goal)[j]],
                    }),
            decreases ids@.len() - n,
        {
            proof {
                lemma_listed(goal);
                assert(texts(ids@)[n as int] == ids@[n as int]@);
                assert(goal.contains(in_order(goal)[n as int]));
            }
            if let Some(state) = states.get(ids[n].as_str()) {
                lamps.push(
                    SceneLamp {
                        id: ids[n].clone(),
                        brightness: state.brightness,
                        kelvin: state.kelvin,
                        on: state.on,
                    },
                );
            }
            n += 1;
        }
        let scene = Scene { gangs, lamps };
        proof {
            assert(texts(ids@).len() == ids@.len());
            assert(scene@.lamps =~= SceneView::captured(states@, all).lamps);
        }
        scene
    }

    /// Every lamp this scene names.
    pub fn names(&self) -> (r: NameSet)
        ensures
            r@ == self@.named(),
            r@.finite(),
    {
        let ghost gangs = gang_views(self.gangs@);
        let ghost lamps = lamp_views(self.lamps@);
        let mut out = NameSet::new();
        let mut i: usize = 0;
        assert(gangs.take(0) =~= Seq::empty());
        while i < self.gangs.len()
            invariant
                i <= self.gangs@.len(),
                gangs == gang_views(self.gangs@),
                out@ == ganged(gangs.take(i as int)),
            decreases self.gangs@.len() - i,
        {
            proof {
                assert(gangs.take(i + 1).drop_last() =~= gangs.take(i as int));
                assert(gangs.take(i + 1).last() == self.gangs@[i as int]@);
            }
            add_all(&mut out, &self.gangs[i].members);
            i += 1;
        }
        assert(gangs.take(i as int) =~= gangs);
        let mut k: usize = 0;
        assert(lamps.take(0) =~= Seq::empty());
        assert(out@ =~= ganged(gangs).union(loose(lamps.take(0))));
        while k < self.lamps.len()
            invariant
                k <= self.lamps@.len(),
                lamps == lamp_views(self.lamps@),
                out@ == ganged(gangs).union(loose(lamps.take(k as int))),
            decreases self.lamps@.len() - k,
        {
            proof {
                assert(lamps.take(k + 1).drop_last() =~= lamps.take(k as int));
                assert(lamps.take(k + 1).last() == self.lamps@[k as int]@);
            }
            let ghost before = out@;
            let _ = out.insert(self.lamps[k].id.clone());
            k += 1;
            assert(out@ =~= ganged(gangs).union(loose(lamps.take(k as int))));
        }
        assert(lamps.take(k as int) =~= lamps);
        let _ = out.len();
        out
    }

    /// Work out what applying this scene requires.
    ///
    /// `present` is the set of lamps that actually exist right now. A missing
    /// member is simply left out of the gang that gets formed, while its stored
    /// offset is preserved in the scene — so the gang re-forms correctly when
    /// the lamp comes back.
    pub fn plan(&self, present: &NameSet) -> (r: ScenePlan)
        ensures
            r@ == self@.planned(present@),
    {
        // Every named lamp leaves its current gang first. Whether it was in one
        // is the caller's business; detaching a lamp that is not ganged is a
        // no-op.
        let named = self.names();
        let ghost order = in_order(named@);
        let total: usize = named.len();
        proof {
            lemma_listed(named@);
        }
        let mut leaving = NameSet::new();
        let mut n: usize = 0;
        while n < total
            invariant
                n <= total,
                order == in_order(named@),
                total == order.len(),
                total == named@.len(),
                forall|id: Seq<char>| #[trigger]
                    leaving@.contains(id) <==> order.take(n as int).contains(id)
                        && present@.contains(id),
            decreases total - n,
        {
            proof {
                lemma_taken(order, n as int);
            }
            let id = named.name_at(n);
            if present.contains(id.as_str()) {
                let _ = leaving.insert(id.clone());
            }
            n += 1;
        }
        proof {
            assert(order.take(n as int) =~= order);
            assert(leaving@ =~= self@.named().intersect(present@));
        }
        let detach = leaving.names();

        let ghost gangs = gang_views(self.gangs@);
        let ghost loners = lamp_views(self.lamps@);
        let mut form: Vec<SceneGang> = Vec::new();
        let mut lamps: NameMap<LightState> = NameMap::new();
        let mut i: usize = 0;
        assert(gangs.take(0) =~= Seq::empty());
        assert(gang_views(form@) =~= Seq::empty());
        while i < self.gangs.len()
            invariant
                i <= self.gangs@.len(),
                gangs == gang_views(self.gangs@),
                gang_views(form@) == formed(gangs.take(i as int), present@),
                lamps@ == survivors(gangs.take(i as int), present@),
            decreases self.gangs@.len() - i,
        {
            let ghost gang = self.gangs@[i as int]@;
            proof {
                assert(gangs.take(i + 1).drop_last() =~= gangs.take(i as int));
                assert(gangs.take(i + 1).last() == gang);
            }
            let members = self.gangs[i].members_here(present);
            if members.len() < 2 {
                // Not enough of the gang is here to form it. The remaining lamp
                // still takes the scene's values.
                if members.len() == 1 {
                    assert(texts(members@)[0] == members@[0]@);
                    let only = members[0].clone();
                    let offset: i32 = match self.gangs[i].offsets.get(only.as_str()) {
                        Some(offset) => *offset,
                        None => 0,
                    };
                    let state = LightState {
                        on: self.gangs[i].on,
                        brightness: clamp_u8(self.gangs[i].level as i64 + offset as i64),
                        kelvin: self.gangs[i].kelvin,
                    };
                    assert(state == gang.alone(only@));
                    let _ = lamps.insert(only, state);
                }
            } else {
                let ghost before = form@;
                let mut reduced = self.gangs[i].clone();
                reduced.members = members;
                assert(reduced@ =~= gang.reduced(present@));
                form.push(reduced);
                assert(gang_views(form@) =~= gang_views(before).push(gang.reduced(present@)));
            }
            i += 1;
        }
        assert(gangs.take(i as int) =~= gangs);

        let ghost base = lamps@;
        let mut k: usize = 0;
        assert(loners.take(0) =~= Seq::empty());
        while k < self.lamps.len()
            invariant
                k <= self.lamps@.len(),
                loners == lamp_views(self.lamps@),
                lamps@ == overlaid(base, loners.take(k as int), present@),
            decreases self.lamps@.len() - k,
        {
            proof {
                assert(loners.take(k + 1).drop_last() =~= loners.take(k as int));
                assert(loners.take(k + 1).last() == self.lamps@[k as int]@);
            }
            let lamp = &self.lamps[k];
            if present.contains(lamp.id.as_str()) {
                let _ = lamps.insert(
                    lamp.id.clone(),
                    LightState { on: lamp.on, brightness: lamp.brightness, kelvin: lamp.kelvin },
                );
            }
            k += 1;
        }
        assert(loners.take(k as int) =~= loners);
        ScenePlan { detach, form, lamps }
    }
}

impl SceneGang {
    /// The members that are here, in order.
    fn members_here(&self, present: &NameSet) -> (r: Vec<String>)
        ensures
            texts(r@) == self@.here(present@),
    {
        let ghost all = texts(self.members@);
        let ghost keep = |id: Seq<char>| present@.contains(id);
        let mut out: Vec<String> = Vec::new();
        let mut i: usize = 0;
        proof {
            reveal(Seq::filter);
            assert(all.take(0) =~= Seq::empty());
            assert(texts(out@) =~= Seq::empty());
        }
        while i < self.members.len()
            invariant
                i <= self.members@.len(),
                all == texts(self.members@),
                keep == (|id: Seq<char>| present@.contains(id)),
                texts(out@) == all.take(i as int).filter(keep),
            decreases self.members@.len() - i,
        {
            proof {
                reveal(Seq::filter);
                assert(all.take(i + 1).drop_last() =~= all.take(i as int));
                assert(all.take(i + 1).last() == self.members@[i as int]@);
            }
            if present.contains(self.members[i].as_str()) {
                let ghost before = out@;
                out.push(self.members[i].clone());
                assert(texts(out@) =~= texts(before).push(self.members@[i as int]@));
            }
            i += 1;
        }
        assert(all.take(i as int) =~= all);
        out
    }

    /// The link this gang describes, ready to be installed.
    pub fn to_link(&self) -> (r: Link)
        ensures
            r@ == self@.link(),
            r@.wf(),
    {
        let ghost all = texts(self.members@);
        let mut offsets: NameMap<i32> = NameMap::new();
        let mut i: usize = 0;
        while i < self.members.len()
            invariant
                i <= self.members@.len(),
                all == texts(self.members@),
                forall|id: Seq<char>| #[trigger]
                    offsets@.contains_key(id) <==> all.take(i as int).contains(id)
                        && self.offsets@.contains_key(id),
                forall|id: Seq<char>| #[trigger]
                    offsets@.contains_key(id) ==> offsets@[id] == self.offsets@[id],
            decreases self.members@.len() - i,
        {
            proof {
                lemma_taken(all, i as int);
            }
            if let Some(offset) = self.offsets.get(self.members[i].as_str()) {
                let _ = offsets.insert(self.members[i].clone(), *offset);
            }
            i += 1;
        }
        proof {
            assert(all.take(i as int) =~= all);
            assert(offsets@ =~= self.offsets@.restrict(all.to_set()));
        }
        let reference = if self.members.len() == 0 {
            None
        } else {
            Some(self.members[0].clone())
        };
        Link::from_parts(self.mode, reference, offsets)
    }

    /// The state to drive the formed gang to, as a template for its level.
    pub fn template(&self) -> (r: LightState)
        ensures
            r == self@.template(),
    {
        LightState { on: self.on, brightness: clamp_u8(self.level as i64), kelvin: self.kelvin }
    }
}

pub proof fn lemma_here(members: Seq<Seq<char>>, present: Set<Seq<char>>)
    ensures
        forall|id: Seq<char>| #[trigger]
            among(members, present).contains(id) <==> members.contains(id) && present.contains(id),
        members.to_set().subset_of(present) ==> among(members, present) == members,
    decreases members.len(),
{
    reveal(Seq::filter);
    let keep = |id: Seq<char>| present.contains(id);
    if members.len() > 0 {
        let short = members.drop_last();
        lemma_here(short, present);
        let kept = among(short, present);
        assert(members =~= short.push(members.last()));
        assert forall|id: Seq<char>| #[trigger] among(members, present).contains(id)
            <==> members.contains(id) && present.contains(id) by {
            assert(members.contains(id) <==> short.contains(id) || id == members.last()) by {
                if short.contains(id) {
                    let k = choose|k: int| 0 <= k < short.len() && short[k] == id;
                    assert(members[k] == id);
                }
                if members.contains(id) {
                    let k = choose|k: int| 0 <= k < members.len() && members[k] == id;
                    if k < short.len() {
                        assert(short[k] == id);
                    }
                }
                assert(members[members.len() - 1] == members.last());
            }
            if keep(members.last()) {
                let grown = kept.push(members.last());
                assert(grown.contains(id) <==> kept.contains(id) || id == members.last()) by {
                    if kept.contains(id) {
                        let k = choose|k: int| 0 <= k < kept.len() && kept[k] == id;
                        assert(grown[k] == id);
                    }
                    assert(grown[kept.len() as int] == members.last());
                }
            }
        }
        if members.to_set().subset_of(present) {
            assert(short.to_set().subset_of(present)) by {
                assert forall|id: Seq<char>| short.to_set().contains(id) implies present.contains(
                    id,
                ) by {
                    let k = choose|k: int| 0 <= k < short.len() && short[k] == id;
                    assert(members[k] == id);
                    assert(members.to_set().contains(id));
                }
            }
            assert(members.contains(members.last()));
            assert(members.to_set().contains(members.last()));
        }
    }
}

pub proof fn lemma_formed_within(gangs: Seq<GangView>, present: Set<Seq<char>>)
    ensures
        forall|g: int, id: Seq<char>|
            0 <= g < formed(gangs, present).len() && (#[trigger] formed(
                gangs,
                present,
            )[g]).members.contains(id) ==> #[trigger] ganged(gangs).contains(id)
                && present.contains(id),
        forall|id: Seq<char>| #[trigger]
            survivors(gangs, present).contains_key(id) ==> ganged(gangs).contains(id)
                && present.contains(id),
    decreases gangs.len(),
{
    if gangs.len() > 0 {
        lemma_formed_within(gangs.drop_last(), present);
        let last = gangs.last();
        lemma_here(last.members, present);
        let before = formed(gangs.drop_last(), present);
        assert forall|g: int, id: Seq<char>|
            0 <= g < formed(gangs, present).len() && (#[trigger] formed(
                gangs,
                present,
            )[g]).members.contains(id) implies #[trigger] ganged(gangs).contains(id)
            && present.contains(id) by {
            if g < before.len() {
                assert(before[g].members.contains(id));
                assert(ganged(gangs.drop_last()).contains(id));
            } else {
                assert(last.here(present).contains(id));
                assert(last.members.to_set().contains(id));
            }
        }
        if last.here(present).len() == 1 {
            let only = last.here(present)[0];
            assert(last.here(present).contains(only));
            assert(last.members.to_set().contains(only));
        }
        assert forall|id: Seq<char>| #[trigger]
            survivors(gangs, present).contains_key(id) implies ganged(gangs).contains(id)
            && present.contains(id) by {
            if survivors(gangs.drop_last(), present).contains_key(id) {
                assert(ganged(gangs.drop_last()).contains(id));
            }
        }
    }
}

pub proof fn lemma_overlaid_within(
    base: Map<Seq<char>, LightState>,
    lamps: Seq<LampView>,
    present: Set<Seq<char>>,
)
    ensures
        forall|id: Seq<char>| #[trigger]
            overlaid(base, lamps, present).contains_key(id) <==> base.contains_key(id) || (loose(
                lamps,
            ).contains(id) && present.contains(id)),
    decreases lamps.len(),
{
    if lamps.len() > 0 {
        let short = lamps.drop_last();
        lemma_overlaid_within(base, short, present);
        assert forall|id: Seq<char>| #[trigger]
            overlaid(base, lamps, present).contains_key(id) <==> base.contains_key(id) || (loose(
            lamps,
        ).contains(id) && present.contains(id)) by {
            assert(overlaid(base, short, present).contains_key(id) <==> base.contains_key(id) || (
            loose(short).contains(id) && present.contains(id)));
        }
    }
}

proof fn lemma_named_finite(scene: SceneView)
    ensures
        scene.named().finite(),
{
    lemma_ganged_finite(scene.gangs);
    lemma_loose_finite(scene.lamps);
}

proof fn lemma_ganged_finite(gangs: Seq<GangView>)
    ensures
        ganged(gangs).finite(),
    decreases gangs.len(),
{
    if gangs.len() > 0 {
        lemma_ganged_finite(gangs.drop_last());
        vstd::seq_lib::seq_to_set_is_finite(gangs.last().members);
    }
}

proof fn lemma_loose_finite(lamps: Seq<LampView>)
    ensures
        loose(lamps).finite(),
    decreases lamps.len(),
{
    if lamps.len() > 0 {
        lemma_loose_finite(lamps.drop_last());
    }
}

/// A lamp the scene never mentions is absent from the plan, and so is one that
/// does not exist: nothing else is detached, ganged or driven.
pub proof fn law_a_plan_stays_within_what_the_scene_names(
    scene: SceneView,
    present: Set<Seq<char>>,
    id: Seq<char>,
)
    requires
        !scene.named().contains(id) || !present.contains(id),
    ensures
        !scene.planned(present).detach.contains(id),
        !scene.planned(present).lamps.contains_key(id),
        forall|g: int|
            0 <= g < scene.planned(present).form.len() ==> !(#[trigger] scene.planned(
                present,
            ).form[g]).members.contains(id),
{
    lemma_named_finite(scene);
    lemma_listed(scene.named().intersect(present));
    lemma_formed_within(scene.gangs, present);
    lemma_overlaid_within(survivors(scene.gangs, present), scene.lamps, present);
}

/// Every named lamp that exists is detached before anything is formed.
pub proof fn law_every_named_lamp_is_detached(
    scene: SceneView,
    present: Set<Seq<char>>,
    id: Seq<char>,
)
    requires
        scene.named().contains(id),
        present.contains(id),
    ensures
        scene.planned(present).detach.contains(id),
{
    lemma_named_finite(scene);
    lemma_listed(scene.named().intersect(present));
}

/// Whether a gang's members stand where one level puts them, sharing power and
/// temperature.
pub open spec fn in_step(link: LinkView, states: Map<Seq<char>, LightState>) -> bool {
    exists|level: int| stands_at(link, states, level)
}

/// Whether a gang's known members stand where this level puts them, with the
/// power and temperature of the lamp that leads them.
pub open spec fn stands_at(
    link: LinkView,
    states: Map<Seq<char>, LightState>,
    level: int,
) -> bool {
    forall|id: Seq<char>| #[trigger]
        link.known(states).contains(id) ==> states[id] == link.spread(
            level,
            states[lead(link, states)],
        )[id]
}

/// A gang whose offsets leave room for its level to be stored.
pub open spec fn storable(link: LinkView) -> bool {
    &&& link.wf()
    &&& link.offsets.dom().finite()
    &&& forall|id: Seq<char>| #[trigger]
        link.offsets.contains_key(id) ==> MAX_BRIGHTNESS - link.offsets[id] <= i32::MAX
}

pub proof fn lemma_captured_gang(link: LinkView, states: Map<Seq<char>, LightState>)
    requires
        storable(link),
        gang_of(link, states) is Some,
    ensures
        ({
            let gang = gang_of(link, states)->0;
            &&& gang.members.to_set() == link.known(states)
            &&& gang.members.len() >= 2
            &&& gang.link() == captured_part(link, states)
            &&& in_step(link, states) ==> gang.values() == states.restrict(link.known(states))
        }),
{
    let gang = gang_of(link, states)->0;
    let known = link.known(states);
    let first = lead(link, states);
    let rest = known.remove(first);
    vstd::set_lib::lemma_set_subset_finite(link.offsets.dom(), known);
    lemma_listed(known);
    lemma_listed(rest);
    assert(link.offsets.contains_key(link.reference)) by {
        if link.offsets.dom() =~= Set::empty() {
            assert(known =~= Set::empty());
        }
    }
    assert(known.contains(first)) by {
        assert(known.contains(in_order(known)[0]));
    }
    let members = gang.members;
    assert forall|id: Seq<char>| members.to_set().contains(id) <==> known.contains(id) by {
        if known.contains(id) {
            if id == first {
                assert(members[0] == id);
            } else {
                assert(in_order(rest).contains(id));
                let k = choose|k: int| 0 <= k < in_order(rest).len() && in_order(rest)[k] == id;
                assert(members[k + 1] == id);
            }
        }
        if members.contains(id) {
            let k = choose|k: int| 0 <= k < members.len() && members[k] == id;
            if k > 0 {
                assert(in_order(rest).contains(in_order(rest)[k - 1]));
            }
        }
    }
    assert(members.to_set() =~= known);
    assert(gang.link().offsets =~= link.offsets.restrict(states.dom()));
    assert(gang.link().offsets.contains_key(first));
    if in_step(link, states) {
        let level = choose|level: int| stands_at(link, states, level);
        assert forall|id: Seq<char>| known.contains(id) implies #[trigger] gang.values()[id]
            == states[id] by {
            law_the_level_restores_the_gang(link, states, level, states[first], id);
        }
        assert(gang.values() =~= states.restrict(known));
    }
}

/// What is captured of a gang is that part of it again: mode, offsets and the
/// lamp that leads. A gang captured whole is the same gang.
pub proof fn law_capturing_keeps_the_topology(link: LinkView, states: Map<Seq<char>, LightState>)
    requires
        storable(link),
        link.known(states).len() >= 2,
    ensures
        gang_of(link, states) is Some,
        (gang_of(link, states)->0).link() == captured_part(link, states),
        captured_part(link, states).offsets.dom() == link.known(states),
        link.offsets.dom().subset_of(states.dom()) ==> captured_part(link, states) == link,
{
    lemma_captured_gang(link, states);
    assert(captured_part(link, states).offsets.dom() =~= link.known(states));
    if link.offsets.dom().subset_of(states.dom()) {
        assert(link.known(states) =~= link.offsets.dom());
        assert(!(link.offsets.dom() =~= Set::empty()));
        assert(link.offsets.restrict(states.dom()) =~= link.offsets);
    }
}

/// Whether every gang of which two or more members are known is in step.
pub open spec fn all_in_step(links: Seq<LinkView>, states: Map<Seq<char>, LightState>) -> bool {
    forall|i: int|
        0 <= i < links.len() && (#[trigger] links[i]).known(states).len() >= 2 ==> in_step(
            links[i],
            states,
        )
}

pub proof fn lemma_gangs_of(links: Seq<LinkView>, states: Map<Seq<char>, LightState>)
    requires
        forall|i: int| 0 <= i < links.len() ==> storable(#[trigger] links[i]),
    ensures
        ganged(gangs_of(links, states)).subset_of(states.dom()),
        formed(gangs_of(links, states), states.dom()) == gangs_of(links, states),
        survivors(gangs_of(links, states), states.dom()) == Map::<Seq<char>, LightState>::empty(),
        all_in_step(links, states) ==> gang_values(gangs_of(links, states)) == states.restrict(
            ganged(gangs_of(links, states)),
        ),
    decreases links.len(),
{
    if links.len() == 0 {
        assert(gang_values(gangs_of(links, states)) =~= states.restrict(
            ganged(gangs_of(links, states)),
        ));
    } else {
        let short = links.drop_last();
        assert forall|i: int| 0 <= i < short.len() implies storable(#[trigger] short[i]) by {
            assert(short[i] == links[i]);
        }
        lemma_gangs_of(short, states);
        let link = links.last();
        assert(storable(links[links.len() - 1]));
        let before = gangs_of(short, states);
        let stepping = all_in_step(links, states);
        assert(link == links[links.len() - 1]);
        if stepping {
            assert forall|i: int|
                0 <= i < short.len() && (#[trigger] short[i]).known(states).len()
                    >= 2 implies in_step(short[i], states) by {
                assert(short[i] == links[i]);
            }
        }
        if gang_of(link, states) is Some {
            let gang = gang_of(link, states)->0;
            lemma_captured_gang(link, states);
            lemma_here(gang.members, states.dom());
            let after = gangs_of(links, states);
            assert(after == before.push(gang));
            assert(after.drop_last() =~= before);
            assert(after.last() == gang);
            assert(gang.members.to_set().subset_of(states.dom()));
            assert(gang.reduced(states.dom()) =~= gang);
            if stepping {
                assert(gang_values(after) =~= states.restrict(ganged(after)));
            }
        }
    }
}

proof fn lemma_overlaid_copies(
    states: Map<Seq<char>, LightState>,
    order: Seq<Seq<char>>,
    n: int,
)
    requires
        0 <= n <= order.len(),
        forall|i: int| 0 <= i < order.len() ==> states.contains_key(#[trigger] order[i]),
    ensures
        ({
            let lamps = order.map_values(|id: Seq<char>| LampView { id, state: states[id] });
            &&& loose(lamps.take(n)) == order.take(n).to_set()
            &&& overlaid(Map::empty(), lamps.take(n), states.dom()) == states.restrict(
                order.take(n).to_set(),
            )
        }),
    decreases n,
{
    let lamps = order.map_values(|id: Seq<char>| LampView { id, state: states[id] });
    if n == 0 {
        assert(lamps.take(0) =~= Seq::empty());
        assert(loose(lamps.take(0)) =~= order.take(0).to_set());
        assert(overlaid(Map::empty(), lamps.take(0), states.dom()) =~= states.restrict(
            order.take(0).to_set(),
        ));
    } else {
        lemma_overlaid_copies(states, order, n - 1);
        lemma_taken(order, n - 1);
        assert(lamps.take(n).drop_last() =~= lamps.take(n - 1));
        assert(lamps.take(n).last() == lamps[n - 1]);
        assert forall|id: Seq<char>| order.take(n).to_set().contains(id) <==> order.take(
            n - 1,
        ).to_set().contains(id) || id == order[n - 1] by {
            assert(order.take(n).contains(id) <==> order.take(n - 1).contains(id) || id == order[n
                - 1]);
        }
        assert(loose(lamps.take(n)) =~= order.take(n).to_set());
        assert(overlaid(Map::empty(), lamps.take(n), states.dom()) =~= states.restrict(
            order.take(n).to_set(),
        ));
    }
}

pub proof fn lemma_captured_lamps(states: Map<Seq<char>, LightState>, links: Seq<LinkView>)
    requires
        states.dom().finite(),
    ensures
        ({
            let scene = SceneView::captured(states, links);
            let rest = states.dom().difference(ganged(scene.gangs));
            &&& loose(scene.lamps) == rest
            &&& overlaid(Map::empty(), scene.lamps, states.dom()) == states.restrict(rest)
        }),
{
    let scene = SceneView::captured(states, links);
    let rest = states.dom().difference(ganged(scene.gangs));
    let order = in_order(rest);
    vstd::set_lib::lemma_set_subset_finite(states.dom(), rest);
    lemma_listed(rest);
    assert(order.take(order.len() as int) =~= order);
    assert(scene.lamps.take(order.len() as int) =~= scene.lamps);
    lemma_overlaid_copies(states, order, order.len() as int);
    assert(order.to_set() =~= rest) by {
        assert forall|id: Seq<char>| order.to_set().contains(id) <==> rest.contains(id) by {
            assert(order.contains(id) <==> rest.contains(id));
        }
    }
}

/// A scene names exactly the lamps it was captured from.
pub proof fn law_a_captured_scene_names_its_lamps(
    states: Map<Seq<char>, LightState>,
    links: Seq<LinkView>,
)
    requires
        states.dom().finite(),
        forall|i: int| 0 <= i < links.len() ==> storable(#[trigger] links[i]),
    ensures
        SceneView::captured(states, links).named() == states.dom(),
{
    lemma_gangs_of(links, states);
    lemma_captured_lamps(states, links);
    assert(SceneView::captured(states, links).named() =~= states.dom());
}

/// Applying a scene captured from a desk does not move it: every lamp is driven
/// to where it already stands.
///
/// The gangs have to be in step — one level, one power, one temperature — as
/// every move of a member leaves them.
pub proof fn law_a_captured_scene_moves_nothing(
    states: Map<Seq<char>, LightState>,
    links: Seq<LinkView>,
)
    requires
        states.dom().finite(),
        forall|i: int| 0 <= i < links.len() ==> storable(#[trigger] links[i]),
        all_in_step(links, states),
    ensures
        SceneView::captured(states, links).planned(states.dom()).values() == states,
{
    lemma_gangs_of(links, states);
    lemma_captured_lamps(states, links);
    let plan = SceneView::captured(states, links).planned(states.dom());
    assert(plan.values() =~= states);
}

/// What is here of an ascending listing is ascending too.
proof fn lemma_among_ascending(names: Seq<Seq<char>>, present: Set<Seq<char>>)
    requires
        ascending(names),
    ensures
        ascending(among(names, present)),
    decreases names.len(),
{
    reveal(Seq::filter);
    if names.len() > 0 {
        let short = names.drop_last();
        assert(ascending(short)) by {
            assert forall|i: int, j: int| 0 <= i < j < short.len() implies precedes(
                #[trigger] short[i],
                #[trigger] short[j],
            ) by {
                assert(precedes(names[i], names[j]));
            }
        }
        lemma_among_ascending(short, present);
        lemma_here(short, present);
        let kept = among(short, present);
        let all = among(names, present);
        assert forall|i: int, j: int| 0 <= i < j < all.len() implies precedes(
            #[trigger] all[i],
            #[trigger] all[j],
        ) by {
            if j < kept.len() {
                assert(precedes(kept[i], kept[j]));
            } else {
                assert(kept.contains(kept[i]));
                assert(short.contains(kept[i]));
                let k = choose|k: int| 0 <= k < short.len() && short[k] == kept[i];
                assert(precedes(names[k], names[names.len() - 1]));
            }
        }
    }
}

/// Names found behind another one are found after it.
proof fn lemma_among_joined(
    first: Seq<char>,
    rest: Seq<Seq<char>>,
    present: Set<Seq<char>>,
)
    ensures
        among(seq![first] + rest, present) == if present.contains(first) {
            seq![first] + among(rest, present)
        } else {
            among(rest, present)
        },
    decreases rest.len(),
{
    reveal(Seq::filter);
    let all = seq![first] + rest;
    if rest.len() == 0 {
        assert(all =~= seq![first]);
        assert(all.drop_last() =~= Seq::empty());
        assert(all.last() == first);
        reveal_with_fuel(Seq::filter, 2);
        assert(among(all, present) =~= if present.contains(first) {
            seq![first] + among(rest, present)
        } else {
            among(rest, present)
        });
    } else {
        lemma_among_joined(first, rest.drop_last(), present);
        assert(all.drop_last() =~= seq![first] + rest.drop_last());
        assert(all.last() == rest.last());
        assert(among(all, present) =~= if present.contains(first) {
            seq![first] + among(rest, present)
        } else {
            among(rest, present)
        });
    }
}

/// Who leads what is here of a captured gang.
proof fn lemma_lead_here(
    link: LinkView,
    states: Map<Seq<char>, LightState>,
    present: Set<Seq<char>>,
)
    requires
        storable(link),
        gang_of(link, states) is Some,
        link.known(states).intersect(present).len() >= 2,
    ensures
        ({
            let gang = gang_of(link, states)->0;
            let there = link.known(states).intersect(present);
            &&& gang.here(present).to_set() == there
            &&& gang.here(present).len() == there.len()
            &&& gang.reduced(present).link() == (LinkView {
                mode: link.mode,
                reference: if there.contains(link.reference) {
                    link.reference
                } else {
                    least(there)->0
                },
                offsets: link.offsets.restrict(there),
            })
        }),
{
    let gang = gang_of(link, states)->0;
    let known = link.known(states);
    let there = known.intersect(present);
    let first = lead(link, states);
    let rest = known.remove(first);
    let here = gang.here(present);
    lemma_captured_gang(link, states);
    lemma_here(gang.members, present);
    vstd::set_lib::lemma_set_subset_finite(link.offsets.dom(), known);
    vstd::set_lib::lemma_set_subset_finite(known, there);
    vstd::set_lib::lemma_set_subset_finite(known, rest);
    lemma_listed(known);
    lemma_listed(rest);
    lemma_listed(there);
    assert(here.to_set() =~= there) by {
        assert forall|id: Seq<char>| here.to_set().contains(id) <==> there.contains(id) by {
            assert(here.contains(id) <==> gang.members.contains(id) && present.contains(id));
            assert(gang.members.to_set().contains(id) <==> gang.members.contains(id));
        }
    }
    lemma_among_joined(first, in_order(rest), present);
    lemma_among_ascending(in_order(rest), present);
    lemma_here(in_order(rest), present);
    let tail = among(in_order(rest), present);
    lemma_ascending_distinct(tail);
    assert(known.contains(first)) by {
        assert(known.contains(in_order(known)[0]));
    }
    assert(!tail.contains(first));
    assert(here.no_duplicates()) by {
        if present.contains(first) {
            assert forall|i: int, j: int|
                0 <= i < here.len() && 0 <= j < here.len() && i != j implies here[i] != here[j] by {
                if i > 0 {
                    assert(tail.contains(tail[i - 1]));
                }
                if j > 0 {
                    assert(tail.contains(tail[j - 1]));
                }
            }
        }
    }
    here.unique_seq_to_set();
    lemma_least(there);
    let part = gang.reduced(present);
    assert(part.link().offsets =~= link.offsets.restrict(there));
    assert(there.contains(here[0])) by {
        assert(here.to_set().contains(here[0]));
    }
    let leader = here[0];
    if present.contains(first) {
        assert(leader == first);
        if !there.contains(link.reference) {
            // The reference was not captured, so the lead is the first of all.
            assert(!states.contains_key(link.reference)) by {
                if states.contains_key(link.reference) {
                    assert(link.offsets.contains_key(link.reference));
                }
            }
            lemma_least(known);
            lemma_first_is_least(there, known, first);
        }
    } else {
        assert(here == tail);
        assert(!there.contains(link.reference)) by {
            if there.contains(link.reference) {
                assert(states.contains_key(link.reference));
            }
        }
        assert forall|other: Seq<char>| #![auto] there.contains(other) && other
            != leader implies precedes(leader, other) by {
            assert(here.to_set().contains(other));
            let k = choose|k: int| 0 <= k < here.len() && here[k] == other;
            assert(precedes(tail[0], tail[k]));
        }
        lemma_least_is(there, leader);
    }
}

/// The first of a set is the first of any part of it that holds it.
proof fn lemma_first_is_least(part: Set<Seq<char>>, whole: Set<Seq<char>>, first: Seq<char>)
    requires
        whole.finite(),
        part.subset_of(whole),
        part.contains(first),
        least(whole) == Some(first),
    ensures
        least(part) == Some(first),
{
    vstd::set_lib::lemma_set_subset_finite(whole, part);
    lemma_least(whole);
    assert forall|other: Seq<char>| #![auto] part.contains(other) && other
        != first implies precedes(first, other) by {
        assert(whole.contains(other));
    }
    lemma_least_is(part, first);
}

/// What is planned for the captured gangs, whichever lamps are here.
proof fn lemma_gangs_planned(
    links: Seq<LinkView>,
    states: Map<Seq<char>, LightState>,
    present: Set<Seq<char>>,
)
    requires
        forall|i: int| 0 <= i < links.len() ==> storable(#[trigger] links[i]),
        all_in_step(links, states),
    ensures
        ({
            let gangs = gangs_of(links, states);
            let driven = gang_values(formed(gangs, present));
            let alone = survivors(gangs, present);
            &&& forall|id: Seq<char>| #[trigger]
                driven.contains_key(id) ==> states.contains_key(id) && present.contains(id)
                    && driven[id] == states[id]
            &&& forall|id: Seq<char>| #[trigger]
                alone.contains_key(id) ==> states.contains_key(id) && present.contains(id)
                    && alone[id] == states[id]
            &&& forall|id: Seq<char>| #[trigger]
                ganged(gangs).contains(id) && present.contains(id) ==> driven.contains_key(id)
                    || alone.contains_key(id)
        }),
    decreases links.len(),
{
    if links.len() > 0 {
        let short = links.drop_last();
        assert forall|i: int| 0 <= i < short.len() implies storable(#[trigger] short[i]) by {
            assert(short[i] == links[i]);
        }
        assert forall|i: int|
            0 <= i < short.len() && (#[trigger] short[i]).known(states).len() >= 2 implies in_step(
            short[i],
            states,
        ) by {
            assert(short[i] == links[i]);
        }
        lemma_gangs_planned(short, states, present);
        let link = links[links.len() - 1];
        assert(link == links.last());
        assert(storable(link));
        if gang_of(link, states) is Some {
            let gang = gang_of(link, states)->0;
            let before = gangs_of(short, states);
            let gangs = gangs_of(links, states);
            assert(gangs.drop_last() =~= before);
            assert(gangs.last() == gang);
            lemma_captured_gang(link, states);
            lemma_here(gang.members, present);
            let here = gang.here(present);
            assert forall|id: Seq<char>| #[trigger] here.contains(id) <==> gang.values().contains_key(
                id,
            ) && present.contains(id) by {
                assert(gang.members.to_set().contains(id) <==> gang.members.contains(id));
            }
            let part = gang.reduced(present);
            assert forall|id: Seq<char>| #[trigger] here.contains(id) implies part.values().contains_key(
                id,
            ) && part.values()[id] == states[id] && gang.alone(id) == states[id] by {
                assert(here.to_set().contains(id));
                assert(gang.members.to_set().contains(id));
                assert(gang.values()[id] == states[id]);
            }
            assert forall|id: Seq<char>| #[trigger] part.values().contains_key(
                id,
            ) implies here.contains(id) by {
                assert(here.to_set().contains(id));
            }
            let driven = gang_values(formed(gangs, present));
            let alone = survivors(gangs, present);
            if here.len() >= 2 {
                assert(formed(gangs, present).drop_last() =~= formed(before, present));
                assert forall|id: Seq<char>| #[trigger] driven.contains_key(
                    id,
                ) implies states.contains_key(id) && present.contains(id) && driven[id]
                    == states[id] by {
                    assert(part.values().contains_key(id) ==> here.contains(id));
                    if !here.contains(id) {
                        assert(gang_values(formed(before, present)).contains_key(id));
                    }
                }
            } else {
                assert(formed(gangs, present) == formed(before, present));
            }
            assert forall|id: Seq<char>| #[trigger] alone.contains_key(
                id,
            ) implies states.contains_key(id) && present.contains(id) && alone[id]
                == states[id] by {
                if here.len() == 1 && id == here[0] {
                    assert(here.contains(id));
                    assert(gang.values().contains_key(id));
                } else {
                    assert(survivors(before, present).contains_key(id));
                }
            }
            assert forall|id: Seq<char>| #[trigger] ganged(gangs).contains(id) && present.contains(
                id,
            ) implies driven.contains_key(id) || alone.contains_key(id) by {
                if gang.members.to_set().contains(id) {
                    assert(here.contains(id));
                    if here.len() == 1 {
                        let k = choose|k: int| 0 <= k < here.len() && here[k] == id;
                        assert(here[0] == id);
                    } else {
                        assert(part.values().contains_key(id));
                    }
                } else {
                    assert(ganged(before).contains(id));
                    if gang_values(formed(before, present)).contains_key(id) {
                        assert(driven.contains_key(id));
                    } else {
                        assert(survivors(before, present).contains_key(id));
                    }
                }
            }
        }
    }
}

/// What is planned for a lamp that was captured by itself, if it is here.
proof fn lemma_lamp_planned(
    base: Map<Seq<char>, LightState>,
    states: Map<Seq<char>, LightState>,
    lamps: Seq<LampView>,
    present: Set<Seq<char>>,
    id: Seq<char>,
)
    requires
        forall|k: int|
            0 <= k < lamps.len() ==> (#[trigger] lamps[k]).state == states[lamps[k].id],
    ensures
        ({
            let all = overlaid(base, lamps, present);
            let named = present.contains(id) && exists|k: int|
                0 <= k < lamps.len() && (#[trigger] lamps[k]).id == id;
            &&& all.contains_key(id) <==> named || base.contains_key(id)
            &&& named ==> all[id] == states[id]
            &&& !named && base.contains_key(id) ==> all[id] == base[id]
        }),
    decreases lamps.len(),
{
    if lamps.len() > 0 {
        let short = lamps.drop_last();
        assert forall|k: int| 0 <= k < short.len() implies (#[trigger] short[k]).state
            == states[short[k].id] by {
            assert(short[k] == lamps[k]);
        }
        lemma_lamp_planned(base, states, short, present, id);
        let last = lamps[lamps.len() - 1];
        assert(lamps.last() == last);
        if exists|k: int| 0 <= k < lamps.len() && (#[trigger] lamps[k]).id == id {
            let k = choose|k: int| 0 <= k < lamps.len() && (#[trigger] lamps[k]).id == id;
            if k < short.len() {
                assert(short[k].id == id);
            }
        }
        if exists|k: int| 0 <= k < short.len() && (#[trigger] short[k]).id == id {
            let k = choose|k: int| 0 <= k < short.len() && (#[trigger] short[k]).id == id;
            assert(lamps[k].id == id);
        }
    }
}

/// A scene puts back what is there: captured from a desk whose gangs were in step
/// and planned for any set of lamps, it drives every lamp that was captured and is
/// there to exactly the state it was captured in, and no other lamp at all.
pub proof fn law_a_scene_puts_back_whatever_is_there(
    states: Map<Seq<char>, LightState>,
    links: Seq<LinkView>,
    present: Set<Seq<char>>,
    id: Seq<char>,
)
    requires
        states.dom().finite(),
        forall|i: int| 0 <= i < links.len() ==> storable(#[trigger] links[i]),
        all_in_step(links, states),
    ensures
        ({
            let values = SceneView::captured(states, links).planned(present).values();
            &&& values.contains_key(id) <==> states.contains_key(id) && present.contains(id)
            &&& states.contains_key(id) && present.contains(id) ==> values[id] == states[id]
        }),
{
    let scene = SceneView::captured(states, links);
    let gangs = scene.gangs;
    let rest = states.dom().difference(ganged(gangs));
    let order = in_order(rest);
    let base = survivors(gangs, present);
    vstd::set_lib::lemma_set_subset_finite(states.dom(), rest);
    lemma_listed(rest);
    lemma_gangs_of(links, states);
    lemma_gangs_planned(links, states, present);
    assert forall|k: int| 0 <= k < scene.lamps.len() implies (#[trigger] scene.lamps[k]).state
        == states[scene.lamps[k].id] && scene.lamps[k].id == order[k] by {
    }
    assert(scene.lamps.len() == order.len());
    lemma_lamp_planned(base, states, scene.lamps, present, id);
    if order.contains(id) {
        let k = choose|k: int| 0 <= k < order.len() && order[k] == id;
        assert(scene.lamps[k].id == id);
    }
    let driven = gang_values(formed(gangs, present));
    let lamps = scene.planned(present).lamps;
    assert(lamps.contains_key(id) <==> (order.contains(id) && present.contains(id))
        || base.contains_key(id));
    assert(driven.contains_key(id) ==> states.contains_key(id));
    assert(base.contains_key(id) ==> states.contains_key(id));
    assert(order.contains(id) <==> rest.contains(id));
    if states.contains_key(id) && present.contains(id) && !rest.contains(id) {
        assert(ganged(gangs).contains(id));
    }
}

/// A gang of which two or more captured lamps are there is planned again with
/// those lamps: the same mode, the same difference for each, led by its reference
/// where that is there and otherwise by the first that is.
pub proof fn law_a_scene_forms_what_is_there_of_a_gang(
    states: Map<Seq<char>, LightState>,
    links: Seq<LinkView>,
    present: Set<Seq<char>>,
    i: int,
)
    requires
        0 <= i < links.len(),
        storable(links[i]),
        links[i].offsets.dom().intersect(states.dom()).intersect(present).len() >= 2,
    ensures
        ({
            let there = links[i].offsets.dom().intersect(states.dom()).intersect(present);
            let plan = SceneView::captured(states, links).planned(present);
            exists|g: int|
                0 <= g < plan.form.len() && (#[trigger] plan.form[g]).link() == (LinkView {
                    mode: links[i].mode,
                    reference: if there.contains(links[i].reference) {
                        links[i].reference
                    } else {
                        least(there)->0
                    },
                    offsets: links[i].offsets.restrict(there),
                }) && plan.form[g].members.to_set() == there
        }),
{
    let link = links[i];
    let known = link.known(states);
    let there = known.intersect(present);
    vstd::set_lib::lemma_set_subset_finite(link.offsets.dom(), known);
    vstd::set_lib::lemma_len_subset(there, known);
    lemma_lead_here(link, states, present);
    lemma_formed_among(links, states, present, i);
    let plan = SceneView::captured(states, links).planned(present);
    let part = (gang_of(link, states)->0).reduced(present);
    let g = choose|g: int| 0 <= g < plan.form.len() && plan.form[g] == part;
    assert(plan.form[g].members.to_set() == there);
}

proof fn lemma_formed_among(
    links: Seq<LinkView>,
    states: Map<Seq<char>, LightState>,
    present: Set<Seq<char>>,
    i: int,
)
    requires
        0 <= i < links.len(),
        gang_of(links[i], states) is Some,
        (gang_of(links[i], states)->0).here(present).len() >= 2,
    ensures
        formed(gangs_of(links, states), present).contains(
            (gang_of(links[i], states)->0).reduced(present),
        ),
    decreases links.len(),
{
    let part = (gang_of(links[i], states)->0).reduced(present);
    let short = links.drop_last();
    let gangs = gangs_of(links, states);
    let before = gangs_of(short, states);
    let all = formed(gangs, present);
    if gang_of(links.last(), states) is Some {
        assert(gangs.drop_last() =~= before);
    }
    if i < short.len() {
        assert(short[i] == links[i]);
        lemma_formed_among(short, states, present, i);
        let g = choose|g: int|
            0 <= g < formed(before, present).len() && formed(before, present)[g] == part;
        assert(all[g] == part);
    } else {
        assert(all[all.len() - 1] == part);
    }
}

/// A stored gang drives exactly its members that have a difference, each to the
/// level and its own difference, with the gang's power and temperature; and it is
/// led by its first member where that has a difference.
pub proof fn law_a_stored_gang_stands_at_its_level(gang: GangView, id: Seq<char>)
    ensures
        gang.values().contains_key(id) <==> gang.members.contains(id) && gang.offsets.contains_key(
            id,
        ),
        gang.values().contains_key(id) ==> {
            let state = gang.values()[id];
            let sum = gang.level + gang.offsets[id];
            &&& 0 <= sum <= 100 ==> state.brightness == sum
            &&& sum < 0 ==> state.brightness == 0
            &&& sum > 100 ==> state.brightness == 100
            &&& state.on == gang.on
            &&& state.kelvin == gang.kelvin
        },
        gang.link().mode == gang.mode,
        gang.values().contains_key(id) ==> gang.link().offsets.contains_key(id)
            && gang.link().offsets[id] == gang.offsets[id],
        gang.members.len() > 0 && gang.offsets.contains_key(gang.members[0])
            ==> gang.link().reference == gang.members[0],
{
    assert(gang.members.to_set().contains(id) <==> gang.members.contains(id));
    if gang.members.len() > 0 {
        assert(gang.members.contains(gang.members[0]));
        assert(gang.members.to_set().contains(gang.members[0]));
    }
}

/// What is planned for one stored gang: with two or more members there the gang
/// again, with only those members; with one, that lamp by itself where the gang
/// would have put it; with none, nothing.
pub proof fn law_a_gang_is_planned_by_who_is_there(gang: GangView, present: Set<Seq<char>>)
    ensures
        ({
            let plan = SceneView { gangs: seq![gang], lamps: seq![] }.planned(present);
            let here = gang.members.filter(|id: Seq<char>| present.contains(id));
            &&& here.len() >= 2 ==> plan.form == seq![GangView { members: here, ..gang }]
                && plan.lamps == Map::<Seq<char>, LightState>::empty()
            &&& here.len() < 2 ==> plan.form.len() == 0
            &&& here.len() == 0 ==> plan.lamps == Map::<Seq<char>, LightState>::empty()
            &&& here.len() == 1 ==> {
                let state = plan.lamps[here[0]];
                let sum = gang.level + if gang.offsets.contains_key(here[0]) {
                    gang.offsets[here[0]] as int
                } else {
                    0
                };
                &&& plan.lamps.dom() == set![here[0]]
                &&& state.on == gang.on
                &&& state.kelvin == gang.kelvin
                &&& 0 <= sum <= 100 ==> state.brightness == sum
                &&& sum < 0 ==> state.brightness == 0
                &&& sum > 100 ==> state.brightness == 100
            }
        }),
{
    let gangs = seq![gang];
    assert(gangs.drop_last() =~= Seq::empty());
    assert(gangs.last() == gang);
    reveal_with_fuel(formed, 2);
    reveal_with_fuel(survivors, 2);
    reveal_with_fuel(overlaid, 1);
    let plan = SceneView { gangs, lamps: seq![] }.planned(present);
    let here = gang.members.filter(|id: Seq<char>| present.contains(id));
    assert(gang.here(present) =~= here);
    if here.len() >= 2 {
        assert(plan.form =~= seq![GangView { members: here, ..gang }]);
    }
    assert(plan.lamps =~= survivors(gangs, present));
    if here.len() == 1 {
        assert(plan.lamps.dom() =~= set![here[0]]);
    }
}

/// Gangs are planned one by one: planning two lists of gangs together forms the
/// gangs of the first and then those of the second.
pub proof fn law_gangs_are_planned_one_by_one(
    a: Seq<GangView>,
    b: Seq<GangView>,
    present: Set<Seq<char>>,
)
    ensures
        formed(a + b, present) == formed(a, present) + formed(b, present),
        survivors(a + b, present) == survivors(a, present).union_prefer_right(
            survivors(b, present),
        ),
    decreases b.len(),
{
    if b.len() == 0 {
        assert(a + b =~= a);
        assert(formed(a + b, present) =~= formed(a, present) + formed(b, present));
        assert(survivors(a + b, present) =~= survivors(a, present).union_prefer_right(
            survivors(b, present),
        ));
    } else {
        law_gangs_are_planned_one_by_one(a, b.drop_last(), present);
        assert((a + b).drop_last() =~= a + b.drop_last());
        assert((a + b).last() == b.last());
        assert(formed(a + b, present) =~= formed(a, present) + formed(b, present));
        assert(survivors(a + b, present) =~= survivors(a, present).union_prefer_right(
            survivors(b, present),
        ));
    }
}

/// A lamp that a scene names by itself and that is there gets the state stored
/// for it, the last one where it is named twice; a lamp it does not name by itself
/// gets what its gang leaves it.
pub proof fn law_a_lamp_named_by_itself_gets_its_state(
    scene: SceneView,
    present: Set<Seq<char>>,
    i: int,
)
    requires
        0 <= i < scene.lamps.len(),
        present.contains(scene.lamps[i].id),
        forall|k: int|
            i < k < scene.lamps.len() ==> (#[trigger] scene.lamps[k]).id != scene.lamps[i].id,
    ensures
        scene.planned(present).lamps.contains_key(scene.lamps[i].id),
        scene.planned(present).lamps[scene.lamps[i].id] == scene.lamps[i].state,
        scene.planned(present).values()[scene.lamps[i].id] == scene.lamps[i].state,
{
    lemma_last_named(survivors(scene.gangs, present), scene.lamps, present, i);
}

proof fn lemma_last_named(
    base: Map<Seq<char>, LightState>,
    lamps: Seq<LampView>,
    present: Set<Seq<char>>,
    i: int,
)
    requires
        0 <= i < lamps.len(),
        present.contains(lamps[i].id),
        forall|k: int| i < k < lamps.len() ==> (#[trigger] lamps[k]).id != lamps[i].id,
    ensures
        overlaid(base, lamps, present).contains_key(lamps[i].id),
        overlaid(base, lamps, present)[lamps[i].id] == lamps[i].state,
    decreases lamps.len(),
{
    let short = lamps.drop_last();
    if i < short.len() {
        assert(short[i] == lamps[i]);
        assert forall|k: int| i < k < short.len() implies (#[trigger] short[k]).id
            != short[i].id by {
            assert(short[k] == lamps[k]);
        }
        lemma_last_named(base, short, present, i);
        assert(lamps[lamps.len() - 1].id != lamps[i].id);
    }
}

/// A scene names the members of its gangs and the lamps it lists, and no other.
pub proof fn law_a_scene_names_members_and_lamps(scene: SceneView, id: Seq<char>)
    ensures
        scene.named().contains(id) <==> (exists|g: int|
            0 <= g < scene.gangs.len() && (#[trigger] scene.gangs[g]).members.contains(id)) || (
        exists|k: int| 0 <= k < scene.lamps.len() && (#[trigger] scene.lamps[k]).id == id),
{
    lemma_ganged_is(scene.gangs, id);
    lemma_loose_is(scene.lamps, id);
}

proof fn lemma_ganged_is(gangs: Seq<GangView>, id: Seq<char>)
    ensures
        ganged(gangs).contains(id) <==> exists|g: int|
            0 <= g < gangs.len() && (#[trigger] gangs[g]).members.contains(id),
    decreases gangs.len(),
{
    if gangs.len() > 0 {
        let short = gangs.drop_last();
        lemma_ganged_is(short, id);
        assert(gangs[gangs.len() - 1] == gangs.last());
        if ganged(short).contains(id) {
            let g = choose|g: int|
                0 <= g < short.len() && (#[trigger] short[g]).members.contains(id);
            assert(gangs[g] == short[g]);
        }
        if exists|g: int| 0 <= g < gangs.len() && (#[trigger] gangs[g]).members.contains(id) {
            let g = choose|g: int|
                0 <= g < gangs.len() && (#[trigger] gangs[g]).members.contains(id);
            if g < short.len() {
                assert(short[g] == gangs[g]);
            }
        }
    }
}

proof fn lemma_loose_is(lamps: Seq<LampView>, id: Seq<char>)
    ensures
        loose(lamps).contains(id) <==> exists|k: int|
            0 <= k < lamps.len() && (#[trigger] lamps[k]).id == id,
    decreases lamps.len(),
{
    if lamps.len() > 0 {
        let short = lamps.drop_last();
        lemma_loose_is(short, id);
        assert(lamps[lamps.len() - 1] == lamps.last());
        if loose(short).contains(id) {
            let k = choose|k: int| 0 <= k < short.len() && (#[trigger] short[k]).id == id;
            assert(lamps[k] == short[k]);
        }
        if exists|k: int| 0 <= k < lamps.len() && (#[trigger] lamps[k]).id == id {
            let k = choose|k: int| 0 <= k < lamps.len() && (#[trigger] lamps[k]).id == id;
            if k < short.len() {
                assert(short[k] == lamps[k]);
            }
        }
    }
}

/// What is captured of a gang: nothing where fewer than two members are known;
/// otherwise its known members, its mode, their differences, and the power and
/// temperature of its reference — of the first known member where the reference
/// is not known.
pub proof fn law_capturing_reads_the_gang(
    link: LinkView,
    states: Map<Seq<char>, LightState>,
    id: Seq<char>,
)
    requires
        storable(link),
    ensures
        gang_of(link, states) is None <==> link.offsets.dom().intersect(states.dom()).len() < 2,
        gang_of(link, states) matches Some(gang) ==> {
            let known = link.offsets.dom().intersect(states.dom());
            let first = if states.contains_key(link.reference) {
                link.reference
            } else {
                least(known)->0
            };
            &&& gang.mode == link.mode
            &&& gang.members.len() == known.len()
            &&& gang.members[0] == first
            &&& gang.members.contains(id) <==> known.contains(id)
            &&& gang.offsets == link.offsets.restrict(known)
            &&& gang.on == states[first].on
            &&& gang.kelvin == states[first].kelvin
            &&& link.level_of(states) is Some
            &&& gang.level == saturated(link.level_of(states)->0)
        },
{
    let known = link.known(states);
    vstd::set_lib::lemma_set_subset_finite(link.offsets.dom(), known);
    lemma_listed(known);
    if let Some(gang) = gang_of(link, states) {
        lemma_captured_gang(link, states);
        assert(gang.members.to_set().contains(id) <==> gang.members.contains(id));
        assert(link.offsets.restrict(states.dom()) =~= link.offsets.restrict(known));
        let first = lead(link, states);
        assert(known.contains(in_order(known)[0]));
        assert(states.contains_key(link.reference) ==> link.offsets.contains_key(link.reference));
        assert(known.contains(first));
        lemma_listed(known.remove(first));
    }
}

} // verus!
