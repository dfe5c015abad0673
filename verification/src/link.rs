//! Ganging lamps so they move as one instrument.
//!
//! Two modes, from the panel sketches:
//!
//! * **Mirror** — every member takes identical values.
//! * **Offset** — members ride together keeping the brightness difference they
//!   had when the link was made, so a key/fill ratio survives.
//!
//! Brightness carries the offset; **colour temperature and power mirror in both
//! modes**.
//!
//! # The level
//!
//! Offsets are stored per member relative to a notional *level* — the link's
//! position as one fader. A member's brightness is `level + offset`, so moving
//! any member re-derives the level and every other member follows:
//!
//! ```text
//! level  = mover_brightness - offset[mover]
//! each m = clamp(level + offset[m])
//! ```
//!
//! Deriving the level from the mover on every change, rather than accumulating
//! it, is what keeps the link stable. The level is deliberately *not* clamped —
//! only the members are. Pushing one lamp to the ceiling therefore compresses
//! the gang against it and restores the spacing on the way back down, instead
//! of quietly rewriting the offsets or leaving dead travel.

use vstd::prelude::*;
use vstd::string::*;

use crate::names::{in_order, least, lemma_first_match, lemma_least, lemma_least_is, lemma_listed,
    lemma_no_match, lemma_taken, NameMap};
use crate::state::{valid_brightness, LightState, MAX_BRIGHTNESS};
use crate::strings::{precedes, same, slices, text_of, texts};

verus! {

broadcast use vstd::string::group_string_axioms;

/// How linked lamps track each other.
#[derive(Clone, Copy, Debug, PartialEq, Eq, Structural)]
pub enum LinkMode {
    /// Identical values.
    Mirror,
    /// Ride together, keeping the learned brightness difference.
    Offset,
}

impl LinkMode {
    /// The mode's name.
    pub open spec fn word(self) -> Seq<char> {
        match self {
            LinkMode::Mirror => "mirror"@,
            LinkMode::Offset => "offset"@,
        }
    }

    /// The wire's ink in the panel: solid for mirror, dashed for offset.
    pub fn as_str(self) -> (r: &'static str)
        ensures
            r@ == self.word(),
    {
        match self {
            LinkMode::Mirror => "mirror",
            LinkMode::Offset => "offset",
        }
    }
}

/// A gang of lamps that move together.
#[derive(Debug, PartialEq, Eq)]
pub struct Link {
    pub mode: LinkMode,
    /// The member whose values win when the gang is mirrored.
    ///
    /// Stored rather than derived, because "which lamp wins" must stay
    /// answerable after alt-drags have moved the offsets around. It is the
    /// first lamp named when the gang was made: `link a b` reads
    /// "link b onto a".
    reference: String,
    /// Members, each with its brightness offset from the link's level.
    /// Mirror links hold every offset at zero.
    offsets: NameMap<i32>,
}

/// A [`Link`] as mathematics: its members are the keys of `offsets`.
#[verifier::ext_equal]
pub struct LinkView {
    pub mode: LinkMode,
    pub reference: Seq<char>,
    pub offsets: Map<Seq<char>, i32>,
}

impl View for Link {
    type V = LinkView;

    closed spec fn view(&self) -> LinkView {
        LinkView { mode: self.mode, reference: self.reference@, offsets: self.offsets@ }
    }
}

/// The nearest 32-bit integer.
pub open spec fn saturated(value: int) -> i32 {
    if value < i32::MIN {
        i32::MIN
    } else if value > i32::MAX {
        i32::MAX
    } else {
        value as i32
    }
}

fn saturate(value: i64) -> (r: i32)
    ensures
        r == saturated(value as int),
{
    if value < i32::MIN as i64 {
        i32::MIN
    } else if value > i32::MAX as i64 {
        i32::MAX
    } else {
        value as i32
    }
}

/// Each member's brightness measured from a level, a lamp named again later
/// counting as named last.
pub open spec fn differences(members: Seq<(Seq<char>, LightState)>, level: int) -> Map<
    Seq<char>,
    i32,
>
    decreases members.len(),
{
    if members.len() == 0 {
        Map::empty()
    } else {
        differences(members.drop_last(), level).insert(
            members.last().0,
            (members.last().1.brightness - level) as i32,
        )
    }
}

impl LinkView {
    /// The reference is a member as long as there are members at all.
    pub open spec fn wf(self) -> bool {
        if self.offsets.dom() =~= Set::empty() {
            self.reference.len() == 0
        } else {
            self.offsets.contains_key(self.reference)
        }
    }

    /// The reference a gang has when none is given: its alphabetically first
    /// member.
    pub open spec fn fallback(offsets: Map<Seq<char>, i32>) -> Seq<char> {
        match least(offsets.dom()) {
            Some(name) => name,
            None => seq![],
        }
    }

    /// Members that take identical values.
    pub open spec fn mirrored(members: Seq<Seq<char>>) -> LinkView {
        LinkView {
            mode: LinkMode::Mirror,
            reference: if members.len() == 0 {
                seq![]
            } else {
                members[0]
            },
            offsets: Map::new(|id: Seq<char>| members.contains(id), |id: Seq<char>| 0i32),
        }
    }

    /// Members that keep the differences they have.
    pub open spec fn learned(members: Seq<(Seq<char>, LightState)>) -> LinkView {
        LinkView {
            mode: LinkMode::Offset,
            reference: if members.len() == 0 {
                seq![]
            } else {
                members[0].0
            },
            offsets: differences(
                members,
                if members.len() == 0 {
                    0
                } else {
                    members[0].1.brightness as int
                },
            ),
        }
    }

    /// A gang put together from stored parts.
    pub open spec fn restored(
        mode: LinkMode,
        reference: Option<Seq<char>>,
        offsets: Map<Seq<char>, i32>,
    ) -> LinkView {
        LinkView {
            mode,
            reference: match reference {
                Some(name) => if offsets.contains_key(name) {
                    name
                } else {
                    LinkView::fallback(offsets)
                },
                None => LinkView::fallback(offsets),
            },
            offsets,
        }
    }

    /// What every member becomes at a level: brightness rides at its offset,
    /// everything else is the template's.
    pub open spec fn spread(self, level: int, template: LightState) -> Map<Seq<char>, LightState> {
        Map::new(
            |id: Seq<char>| self.offsets.contains_key(id),
            |id: Seq<char>|
                LightState {
                    brightness: valid_brightness(level + self.offsets[id]) as u8,
                    ..template
                },
        )
    }

    /// What every member becomes when one of them is set; nothing when the lamp
    /// is not a member.
    pub open spec fn resolved(self, mover: Seq<char>, next: LightState) -> Map<
        Seq<char>,
        LightState,
    > {
        if self.offsets.contains_key(mover) {
            self.spread(next.brightness - self.offsets[mover], next)
        } else {
            Map::empty()
        }
    }

    /// The gang once it tracks in another mode, given what its members are set
    /// to now.
    pub open spec fn tracking(self, mode: LinkMode, states: Map<Seq<char>, LightState>) -> LinkView {
        if !states.contains_key(self.reference) {
            self
        } else {
            LinkView {
                mode,
                reference: self.reference,
                offsets: Map::new(
                    |id: Seq<char>| self.offsets.contains_key(id),
                    |id: Seq<char>|
                        match mode {
                            LinkMode::Mirror => 0i32,
                            LinkMode::Offset => if states.contains_key(id) {
                                (states[id].brightness - states[self.reference].brightness) as i32
                            } else {
                                self.offsets[id]
                            },
                        },
                ),
            }
        }
    }

    /// The gang without one of its members; losing the reference promotes the
    /// first of those left.
    pub open spec fn without(self, member: Seq<char>) -> LinkView {
        LinkView {
            mode: self.mode,
            reference: if self.reference == member {
                LinkView::fallback(self.offsets.remove(member))
            } else {
                self.reference
            },
            offsets: self.offsets.remove(member),
        }
    }

    /// The member that fixes the level while another one moves alone: the first
    /// of those whose state is known.
    pub open spec fn anchor(
        self,
        member: Seq<char>,
        others: Map<Seq<char>, LightState>,
    ) -> Option<Seq<char>> {
        least(self.offsets.dom().intersect(others.dom()).remove(member))
    }

    /// The gang after one member was moved on its own and its new difference
    /// adopted, if there is an unmoved member to measure it from.
    pub open spec fn relearned(
        self,
        member: Seq<char>,
        brightness: u8,
        others: Map<Seq<char>, LightState>,
    ) -> Option<LinkView> {
        match self.anchor(member, others) {
            Some(anchor) => if self.offsets.contains_key(member) {
                let level = others[anchor].brightness - self.offsets[anchor];
                Some(
                    LinkView {
                        mode: LinkMode::Offset,
                        reference: self.reference,
                        offsets: self.offsets.insert(member, saturated(brightness - level)),
                    },
                )
            } else {
                None
            },
            None => None,
        }
    }

    /// The members whose state is known.
    pub open spec fn known(self, states: Map<Seq<char>, LightState>) -> Set<Seq<char>> {
        self.offsets.dom().intersect(states.dom())
    }

    /// The known members that are held by neither end of the range.
    pub open spec fn free(self, states: Map<Seq<char>, LightState>) -> Set<Seq<char>> {
        self.known(states).filter(
            |id: Seq<char>| 0 < states[id].brightness < MAX_BRIGHTNESS,
        )
    }

    /// The known members held by the ceiling.
    pub open spec fn topped(self, states: Map<Seq<char>, LightState>) -> Set<Seq<char>> {
        self.known(states).filter(|id: Seq<char>| states[id].brightness >= MAX_BRIGHTNESS)
    }

    /// Whether a number is the gang's level, given what its members are set to.
    ///
    /// A member that is not held by either end tells it exactly. Where every
    /// member is pinned, it is the level nearest the middle that pins them all:
    /// the lowest that holds every member at the ceiling there, or failing any,
    /// the highest that holds every member at the floor.
    pub open spec fn level_is(self, states: Map<Seq<char>, LightState>, level: int) -> bool {
        match least(self.free(states)) {
            Some(id) => level == states[id].brightness - self.offsets[id],
            None => if self.topped(states) != Set::<Seq<char>>::empty() {
                &&& exists|id: Seq<char>| #[trigger]
                    self.topped(states).contains(id) && level == MAX_BRIGHTNESS - self.offsets[id]
                &&& forall|id: Seq<char>| #[trigger]
                    self.topped(states).contains(id) ==> level >= MAX_BRIGHTNESS - self.offsets[id]
            } else {
                &&& exists|id: Seq<char>| #[trigger]
                    self.known(states).contains(id) && level == -self.offsets[id]
                &&& forall|id: Seq<char>| #[trigger]
                    self.known(states).contains(id) ==> level <= -self.offsets[id]
            },
        }
    }

    /// The gang's level, if the state of any member is known.
    pub open spec fn level_of(self, states: Map<Seq<char>, LightState>) -> Option<int> {
        if self.known(states) == Set::<Seq<char>>::empty() {
            None
        } else {
            Some(choose|level: int| self.level_is(states, level))
        }
    }
}

/// A number that meets the definition of the level is the level.
proof fn lemma_level_is(link: LinkView, states: Map<Seq<char>, LightState>, level: int)
    requires
        link.known(states) != Set::<Seq<char>>::empty(),
        link.level_is(states, level),
    ensures
        link.level_of(states) == Some(level),
{
    let chosen = choose|level: int| link.level_is(states, level);
    assert(link.level_is(states, chosen));
    if least(link.free(states)) is None {
        if link.topped(states) != Set::<Seq<char>>::empty() {
            let a = choose|id: Seq<char>| #[trigger]
                link.topped(states).contains(id) && level == MAX_BRIGHTNESS - link.offsets[id];
            let b = choose|id: Seq<char>| #[trigger]
                link.topped(states).contains(id) && chosen == MAX_BRIGHTNESS - link.offsets[id];
            assert(link.topped(states).contains(a) && link.topped(states).contains(b));
        } else {
            let a = choose|id: Seq<char>| #[trigger]
                link.known(states).contains(id) && level == -link.offsets[id];
            let b = choose|id: Seq<char>| #[trigger]
                link.known(states).contains(id) && chosen == -link.offsets[id];
            assert(link.known(states).contains(a) && link.known(states).contains(b));
        }
    }
}

impl Clone for Link {
    fn clone(&self) -> (r: Self)
        ensures
            r@ == self@,
    {
        Link { mode: self.mode, reference: self.reference.clone(), offsets: self.offsets.clone() }
    }
}

/// The alphabetically first member, or nothing.
fn first_of(offsets: &NameMap<i32>) -> (r: String)
    ensures
        r@ == LinkView::fallback(offsets@),
        offsets@.dom().finite(),
        offsets@.dom() =~= Set::empty() ==> r@.len() == 0,
        !(offsets@.dom() =~= Set::empty()) ==> offsets@.contains_key(r@),
{
    let count: usize = offsets.len();
    proof {
        lemma_least(offsets@.dom());
        lemma_listed(offsets@.dom());
    }
    if count == 0 {
        String::new()
    } else {
        offsets.name_at(0).clone()
    }
}

impl Link {
    /// Gang these members so they take identical values. The first wins.
    pub fn mirror(members: &[&str]) -> (r: Self)
        ensures
            r@ == LinkView::mirrored(slices(members@)),
            r@.wf(),
    {
        let ghost all = slices(members@);
        let mut offsets: NameMap<i32> = NameMap::new();
        let mut i: usize = 0;
        while i < members.len()
            invariant
                i <= members@.len(),
                all == slices(members@),
                forall|id: Seq<char>| #[trigger]
                    offsets@.contains_key(id) <==> all.take(i as int).contains(id),
                forall|id: Seq<char>| #[trigger] offsets@.contains_key(id) ==> offsets@[id] == 0i32,
            decreases members@.len() - i,
        {
            proof {
                lemma_taken(all, i as int);
            }
            let _ = offsets.insert(members[i].to_owned(), 0);
            i += 1;
        }
        assert(all.take(i as int) =~= all);
        let reference = if members.len() == 0 {
            String::new()
        } else {
            members[0].to_owned()
        };
        let r = Link { mode: LinkMode::Mirror, reference, offsets };
        proof {
            assert(r@.offsets =~= LinkView::mirrored(all).offsets);
            if all.len() > 0 {
                assert(all.contains(all[0]));
            } else {
                assert(r@.offsets.dom() =~= Set::empty());
            }
        }
        r
    }

    /// Gang these members, learning the brightness differences they have now.
    ///
    /// Takes an **ordered** slice, not a map: the first entry is the reference,
    /// so `link a b` reads "link b onto a". Sorting by id here instead would
    /// pick an arbitrary MAC as the lamp whose values win a mirror.
    pub fn learn(members: &[(String, LightState)]) -> (r: Self)
        ensures
            r@ == LinkView::learned(members@.map_values(|m: (String, LightState)| m@)),
            r@.wf(),
    {
        let ghost all = members@.map_values(|m: (String, LightState)| m@);
        let level: i32 = if members.len() == 0 {
            0
        } else {
            members[0].1.brightness as i32
        };
        let mut offsets: NameMap<i32> = NameMap::new();
        let mut i: usize = 0;
        assert(all.take(0) =~= Seq::empty());
        while i < members.len()
            invariant
                i <= members@.len(),
                0 <= level <= 255,
                all == members@.map_values(|m: (String, LightState)| m@),
                offsets@ == differences(all.take(i as int), level as int),
                i > 0 ==> offsets@.contains_key(all[0].0),
            decreases members@.len() - i,
        {
            proof {
                lemma_taken(all, i as int);
                assert(all.take(i + 1).drop_last() =~= all.take(i as int));
                assert(all.take(i + 1).last() == all[i as int]);
            }
            let _ = offsets.insert(
                members[i].0.clone(),
                members[i].1.brightness as i32 - level,
            );
            i += 1;
        }
        assert(all.take(i as int) =~= all);
        let reference = if members.len() == 0 {
            String::new()
        } else {
            members[0].0.clone()
        };
        let r = Link { mode: LinkMode::Offset, reference, offsets };
        assert(all.len() == 0 ==> r@.offsets.dom() =~= Set::empty());
        r
    }

    /// The member whose values win when mirrored.
    pub fn reference(&self) -> (r: &str)
        ensures
            r@ == self@.reference,
    {
        self.reference.as_str()
    }

    /// How the gang tracks.
    pub fn mode(&self) -> (r: LinkMode)
        ensures
            r == self@.mode,
    {
        self.mode
    }

    /// Rebuild a link from stored parts. The configuration owns the
    /// serialisation.
    ///
    /// A reference that is missing or unknown falls back to the first member,
    /// so a hand-edited or older config still loads.
    pub fn from_parts(mode: LinkMode, reference: Option<String>, offsets: NameMap<i32>) -> (r: Self)
        ensures
            r@ == LinkView::restored(mode, text_of(reference), offsets@),
            r@.wf(),
    {
        let winner = match reference {
            Some(name) => if offsets.contains_key(name.as_str()) {
                name
            } else {
                first_of(&offsets)
            },
            None => first_of(&offsets),
        };
        Link { mode, reference: winner, offsets }
    }

    /// Change how the gang tracks, returning the states members must move to.
    ///
    /// Switching to **mirror is destructive**: every member takes the
    /// reference's values, which is exactly why it is never a default and why
    /// the reference is remembered rather than guessed. Switching back to
    /// offset is not — it simply learns whatever differences exist now, which
    /// for a mirrored gang is all zeroes until someone alt-drags.
    pub fn set_mode(&mut self, mode: LinkMode, states: &NameMap<LightState>) -> (r: Option<
        NameMap<LightState>,
    >)
        ensures
            final(self)@ == old(self)@.tracking(mode, states@),
            r is Some <==> mode == LinkMode::Mirror && states@.contains_key(old(self)@.reference),
            r matches Some(moved) ==> moved@ == final(self)@.resolved(
                old(self)@.reference,
                states@[old(self)@.reference],
            ),
            old(self)@.wf() ==> final(self)@.wf(),
    {
        let ghost before = self@;
        let reference_state = match states.get(self.reference.as_str()) {
            Some(state) => *state,
            None => return None,
        };
        let level: i32 = reference_state.brightness as i32;
        let total: usize = self.offsets.len();
        let ghost order = in_order(before.offsets.dom());
        let ghost goal = before.tracking(mode, states@);
        proof {
            lemma_listed(before.offsets.dom());
        }
        let mut offsets: NameMap<i32> = NameMap::new();
        let mut i: usize = 0;
        while i < total
            invariant
                i <= total,
                self@ == before,
                total == order.len(),
                total == before.offsets.dom().len(),
                order == in_order(before.offsets.dom()),
                goal == before.tracking(mode, states@),
                states@.contains_key(before.reference),
                level == states@[before.reference].brightness,
                forall|id: Seq<char>| #[trigger]
                    offsets@.contains_key(id) <==> order.take(i as int).contains(id),
                forall|id: Seq<char>| #[trigger]
                    offsets@.contains_key(id) ==> offsets@[id] == goal.offsets[id],
                forall|j: int| 0 <= j < total ==> goal.offsets.contains_key(#[trigger] order[j]),
            decreases total - i,
        {
            proof {
                lemma_taken(order, i as int);
                assert(goal.offsets.contains_key(order[i as int]));
            }
            let id = self.offsets.name_at(i);
            let offset: i32 = match mode {
                LinkMode::Mirror => 0,
                LinkMode::Offset => match states.get(id.as_str()) {
                    Some(state) => state.brightness as i32 - level,
                    None => *self.offsets.value_at(i),
                },
            };
            let _ = offsets.insert(id.clone(), offset);
            i += 1;
        }
        proof {
            assert(order.take(i as int) =~= order);
            assert(offsets@ =~= goal.offsets);
        }
        self.mode = mode;
        self.offsets = offsets;
        match mode {
            LinkMode::Mirror => {
                let reference = self.reference.clone();
                Some(self.resolve(reference.as_str(), reference_state))
            },
            LinkMode::Offset => None,
        }
    }

    /// Members and their offsets, for storage.
    pub fn offsets(&self) -> (r: Vec<(String, i32)>)
        ensures
            r@.len() == in_order(self@.offsets.dom()).len(),
            forall|i: int|
                0 <= i < r@.len() ==> (#[trigger] r@[i])@ == (
                    in_order(self@.offsets.dom())[i],
                    self@.offsets[in_order(self@.offsets.dom())[i]],
                ),
            self@.offsets.dom().finite(),
    {
        let total: usize = self.offsets.len();
        let mut out: Vec<(String, i32)> = Vec::new();
        let mut i: usize = 0;
        while i < total
            invariant
                i <= total,
                total == self@.offsets.dom().len(),
                total == in_order(self@.offsets.dom()).len(),
                out@.len() == i,
                forall|j: int|
                    0 <= j < i ==> (#[trigger] out@[j])@ == (
                        in_order(self@.offsets.dom())[j],
                        self@.offsets[in_order(self@.offsets.dom())[j]],
                    ),
            decreases total - i,
        {
            out.push((self.offsets.name_at(i).clone(), *self.offsets.value_at(i)));
            i += 1;
        }
        out
    }

    /// The members, in order.
    pub fn members(&self) -> (r: Vec<String>)
        ensures
            texts(r@) == in_order(self@.offsets.dom()),
            self@.offsets.dom().finite(),
    {
        self.offsets.names()
    }

    /// How many members there are.
    pub fn len(&self) -> (r: usize)
        ensures
            r == self@.offsets.dom().len(),
            r == in_order(self@.offsets.dom()).len(),
            self@.offsets.dom().finite(),
    {
        self.offsets.len()
    }

    /// Whether there are no members.
    pub fn is_empty(&self) -> (r: bool)
        ensures
            r == (self@.offsets.dom().len() == 0),
            self@.offsets.dom().finite(),
    {
        self.offsets.is_empty()
    }

    /// Whether a lamp is a member.
    pub fn contains(&self, member: &str) -> (r: bool)
        ensures
            r == self@.offsets.contains_key(member@),
            self@.offsets.dom().finite(),
    {
        self.offsets.contains_key(member)
    }

    /// The member at a position of the listing.
    pub fn member_at(&self, i: usize) -> (r: &String)
        requires
            i < self@.offsets.dom().len(),
        ensures
            r@ == in_order(self@.offsets.dom())[i as int],
            self@.offsets.contains_key(r@),
            self@.offsets.dom().finite(),
    {
        self.offsets.name_at(i)
    }

    /// This member's brightness offset from the link's level.
    pub fn offset_of(&self, member: &str) -> (r: Option<i32>)
        ensures
            r == if self@.offsets.contains_key(member@) {
                Some(self@.offsets[member@])
            } else {
                None
            },
            self@.offsets.dom().finite(),
    {
        match self.offsets.get(member) {
            Some(offset) => Some(*offset),
            None => None,
        }
    }

    /// Drop a member. The link is meaningless below two, which the caller
    /// should check with [`Link::len`].
    pub fn remove(&mut self, member: &str)
        ensures
            final(self)@ == old(self)@.without(member@),
            old(self)@.wf() ==> final(self)@.wf(),
    {
        let ghost before = self@;
        let _ = self.offsets.remove(member);
        // Losing the reference would leave the gang unable to say which lamp
        // wins a mirror; promote the next member rather than dangle.
        if same(self.reference.as_str(), member) {
            self.reference = first_of(&self.offsets);
        }
        proof {
            assert(self@ =~= before.without(member@));
            if before.wf() && before.reference != member@ {
                if before.offsets.dom() =~= Set::empty() {
                    assert(self@.offsets.dom() =~= Set::empty());
                } else {
                    assert(self@.offsets.contains_key(before.reference));
                }
            }
        }
    }

    /// What every member becomes at a level, which need not be a brightness.
    fn spread(&self, level: i64, template: LightState) -> (r: NameMap<LightState>)
        requires
            -0x1_0000_0000 <= level <= 0x1_0000_0000,
        ensures
            r@ == self@.spread(level as int, template),
    {
        let ghost link = self@;
        let ghost goal = link.spread(level as int, template);
        let ghost order = in_order(link.offsets.dom());
        let total: usize = self.offsets.len();
        proof {
            lemma_listed(link.offsets.dom());
        }
        let mut out: NameMap<LightState> = NameMap::new();
        let mut i: usize = 0;
        while i < total
            invariant
                i <= total,
                link == self@,
                -0x1_0000_0000 <= level <= 0x1_0000_0000,
                goal == link.spread(level as int, template),
                order == in_order(link.offsets.dom()),
                total == order.len(),
                total == link.offsets.dom().len(),
                forall|id: Seq<char>| #[trigger]
                    out@.contains_key(id) <==> order.take(i as int).contains(id),
                forall|id: Seq<char>| #[trigger] out@.contains_key(id) ==> out@[id] == goal[id],
            decreases total - i,
        {
            proof {
                lemma_taken(order, i as int);
            }
            let id = self.offsets.name_at(i);
            let offset: i32 = *self.offsets.value_at(i);
            let raw: i64 = level + offset as i64;
            let brightness: u8 = if raw < 0 {
                0
            } else if raw > MAX_BRIGHTNESS as i64 {
                MAX_BRIGHTNESS
            } else {
                raw as u8
            };
            // Temperature and power mirror; only brightness carries an offset.
            let state = LightState { on: template.on, brightness, kelvin: template.kelvin };
            proof {
                assert(goal.contains_key(id@));
                assert(state == goal[id@]);
            }
            let _ = out.insert(id.clone(), state);
            i += 1;
        }
        proof {
            assert(order.take(i as int) =~= order);
            assert(out@ =~= goal);
        }
        out
    }

    /// What every member becomes when the gang is driven to a level. Only the
    /// members are clamped, never the level.
    pub fn resolve_from_level(&self, level: i32, template: LightState) -> (r: NameMap<LightState>)
        ensures
            r@ == self@.spread(level as int, template),
    {
        self.spread(level as i64, template)
    }

    /// What every member becomes when `mover` is set to `next`.
    ///
    /// Returns nothing when `mover` is not a member — a caller applying this
    /// blindly must not silently move a whole gang for an unrelated light.
    pub fn resolve(&self, mover: &str, next: LightState) -> (r: NameMap<LightState>)
        ensures
            r@ == self@.resolved(mover@, next),
    {
        match self.offset_of(mover) {
            Some(offset) => self.spread(next.brightness as i64 - offset as i64, next),
            None => NameMap::new(),
        }
    }

    /// The gang's position as one fader, read off what its members are set to.
    pub fn level(&self, states: &NameMap<LightState>) -> (r: Option<i32>)
        ensures
            r == match self@.level_of(states@) {
                Some(level) => Some(saturated(level)),
                None => None,
            },
    {
        let ghost link = self@;
        let ghost known = link.known(states@);
        let ghost free = link.free(states@);
        let ghost topped = link.topped(states@);
        let ghost order = in_order(link.offsets.dom());
        let total: usize = self.offsets.len();
        proof {
            lemma_listed(link.offsets.dom());
            assert(free.subset_of(link.offsets.dom()));
            assert(known.subset_of(link.offsets.dom()));
            assert(topped.subset_of(link.offsets.dom()));
        }
        let mut ceiling: Option<i64> = None;
        let mut floor: Option<i64> = None;
        let mut i: usize = 0;
        while i < total
            invariant
                i <= total,
                link == self@,
                known == link.known(states@),
                free == link.free(states@),
                topped == link.topped(states@),
                order == in_order(link.offsets.dom()),
                total == order.len(),
                total == link.offsets.dom().len(),
                link.offsets.dom().finite(),
                free.subset_of(link.offsets.dom()),
                forall|j: int| 0 <= j < i ==> !free.contains(#[trigger] order[j]),
                ceiling is None ==> forall|j: int|
                    0 <= j < i ==> !topped.contains(#[trigger] order[j]),
                ceiling matches Some(level) ==> {
                    &&& exists|j: int|
                        0 <= j < i && topped.contains(#[trigger] order[j]) && level
                            == MAX_BRIGHTNESS - link.offsets[order[j]]
                    &&& forall|j: int|
                        0 <= j < i && topped.contains(#[trigger] order[j]) ==> level
                            >= MAX_BRIGHTNESS - link.offsets[order[j]]
                },
                floor is None ==> forall|j: int|
                    0 <= j < i && known.contains(#[trigger] order[j]) ==> topped.contains(order[j]),
                floor matches Some(level) ==> {
                    &&& exists|j: int|
                        0 <= j < i && known.contains(#[trigger] order[j]) && !topped.contains(
                            order[j],
                        ) && level == -link.offsets[order[j]]
                    &&& forall|j: int|
                        0 <= j < i && known.contains(#[trigger] order[j]) && !topped.contains(
                            order[j],
                        ) ==> level <= -link.offsets[order[j]]
                },
                -0x1_0000_0000 <= (if ceiling is Some { ceiling->0 as int } else { 0 }) <= 0x1_0000_0000,
                -0x1_0000_0000 <= (if floor is Some { floor->0 as int } else { 0 }) <= 0x1_0000_0000,
            decreases total - i,
        {
            let id = self.offsets.name_at(i);
            let offset: i64 = *self.offsets.value_at(i) as i64;
            assert(order[i as int] == id@);
            match states.get(id.as_str()) {
                Some(state) => {
                    assert(known.contains(id@));
                    if 0 < state.brightness && state.brightness < MAX_BRIGHTNESS {
                        let level: i64 = state.brightness as i64 - offset;
                        proof {
                            assert(free.contains(order[i as int]));
                            lemma_first_match(link.offsets.dom(), free, i as int);
                            lemma_level_is(link, states@, level as int);
                        }
                        return Some(saturate(level));
                    } else if state.brightness >= MAX_BRIGHTNESS {
                        let level: i64 = MAX_BRIGHTNESS as i64 - offset;
                        assert(topped.contains(order[i as int]));
                        ceiling =
                            match ceiling {
                                Some(best) => if level > best {
                                    Some(level)
                                } else {
                                    Some(best)
                                },
                                None => Some(level),
                            };
                    } else {
                        let level: i64 = -offset;
                        assert(!topped.contains(order[i as int]));
                        floor =
                            match floor {
                                Some(best) => if level < best {
                                    Some(level)
                                } else {
                                    Some(best)
                                },
                                None => Some(level),
                            };
                    }
                },
                None => {
                    assert(!known.contains(id@));
                },
            }
            i += 1;
        }
        proof {
            lemma_no_match(link.offsets.dom(), free);
            assert forall|id: Seq<char>| known.contains(id) implies exists|j: int|
                0 <= j < total && #[trigger] order[j] == id by {
                assert(order.contains(id));
            }
        }
        match (ceiling, floor) {
            (Some(level), _) => {
                proof {
                    assert forall|id: Seq<char>| #[trigger] topped.contains(id) implies level
                        >= MAX_BRIGHTNESS - link.offsets[id] by {
                        assert(known.contains(id));
                        let j = choose|j: int| 0 <= j < total && #[trigger] order[j] == id;
                        assert(topped.contains(order[j]));
                    }
                    lemma_level_is(link, states@, level as int);
                }
                Some(saturate(level))
            },
            (None, Some(level)) => {
                proof {
                    assert forall|id: Seq<char>| !topped.contains(id) by {
                        if topped.contains(id) {
                            assert(known.contains(id));
                            let j = choose|j: int| 0 <= j < total && #[trigger] order[j] == id;
                            assert(topped.contains(order[j]));
                        }
                    }
                    assert(topped =~= Set::empty());
                    assert forall|id: Seq<char>| #[trigger] known.contains(id) implies level
                        <= -link.offsets[id] by {
                        let j = choose|j: int| 0 <= j < total && #[trigger] order[j] == id;
                        assert(known.contains(order[j]));
                    }
                    lemma_level_is(link, states@, level as int);
                }
                Some(saturate(level))
            },
            (None, None) => {
                proof {
                    assert forall|id: Seq<char>| !known.contains(id) by {
                        if known.contains(id) {
                            let j = choose|j: int| 0 <= j < total && #[trigger] order[j] == id;
                            assert(known.contains(order[j]));
                            assert(topped.contains(order[j]));
                        }
                    }
                    assert(known =~= Set::empty());
                }
                None
            },
        }
    }

    /// Re-learn one member's offset after it was adjusted on its own.
    ///
    /// This is what alt-drag means: the user moves a single lamp out of step,
    /// and the link adopts the new difference rather than dragging the lamp
    /// back. The level is taken from any *other* member, since that member did
    /// not move.
    ///
    /// A mirror link becomes an offset link, because it now has a difference to
    /// keep — which is also what the panel shows, the wire changing from solid
    /// to dashed.
    pub fn relearn(&mut self, member: &str, brightness: u8, others: &NameMap<LightState>) -> (r:
        bool)
        ensures
            match old(self)@.relearned(member@, brightness, others@) {
                Some(next) => r && final(self)@ == next,
                None => !r && final(self)@ == old(self)@,
            },
            old(self)@.wf() ==> final(self)@.wf(),
    {
        let ghost link = self@;
        if !self.contains(member) {
            return false;
        }
        let ghost order = in_order(link.offsets.dom());
        let ghost chosen = link.offsets.dom().intersect(others@.dom()).remove(member@);
        let total: usize = self.offsets.len();
        proof {
            lemma_listed(link.offsets.dom());
        }
        // Any unmoved member fixes the level.
        let mut i: usize = 0;
        while i < total
            invariant
                i <= total,
                self@ == link,
                link == old(self)@,
                link.offsets.contains_key(member@),
                link.offsets.dom().finite(),
                chosen == link.offsets.dom().intersect(others@.dom()).remove(member@),
                order == in_order(link.offsets.dom()),
                total == order.len(),
                total == link.offsets.dom().len(),
                forall|j: int| 0 <= j < i ==> !chosen.contains(#[trigger] order[j]),
            decreases total - i,
        {
            let id = self.offsets.name_at(i);
            assert(id@ == order[i as int]);
            if !same(id.as_str(), member) {
                if let Some(state) = others.get(id.as_str()) {
                    let level: i64 = state.brightness as i64 - *self.offsets.value_at(i) as i64;
                    proof {
                        assert(chosen.contains(order[i as int]));
                        lemma_first_match(link.offsets.dom(), chosen, i as int);
                    }
                    let _ = self.offsets.insert(
                        member.to_owned(),
                        saturate(brightness as i64 - level),
                    );
                    self.mode = LinkMode::Offset;
                    proof {
                        assert(self@.offsets.contains_key(member@));
                        assert(!(self@.offsets.dom() =~= Set::empty()));
                        assert(!(link.offsets.dom() =~= Set::empty()));
                    }
                    return true;
                }
            }
            i += 1;
        }
        proof {
            lemma_no_match(link.offsets.dom(), chosen);
        }
        false
    }
}

/// The lamp that is moved gets exactly what was asked of it.
pub proof fn law_the_mover_keeps_its_value(link: LinkView, mover: Seq<char>, next: LightState)
    requires
        link.offsets.contains_key(mover),
        next.valid(),
    ensures
        link.resolved(mover, next)[mover] == next,
{
}

/// Feeding a resolved value back in produces the same result, so a link cannot
/// chase itself between members.
pub proof fn law_resolving_is_idempotent(link: LinkView, mover: Seq<char>, next: LightState)
    requires
        link.offsets.contains_key(mover),
        next.valid(),
    ensures
        link.resolved(mover, link.resolved(mover, next)[mover]) == link.resolved(mover, next),
{
}

/// Resolving again from any member that is not held by the end of its range
/// agrees with the first resolution: either lamp may lead.
pub proof fn law_any_free_member_agrees(
    link: LinkView,
    mover: Seq<char>,
    next: LightState,
    other: Seq<char>,
)
    requires
        link.offsets.contains_key(mover),
        link.offsets.contains_key(other),
        0 < link.resolved(mover, next)[other].brightness < MAX_BRIGHTNESS,
    ensures
        link.resolved(other, link.resolved(mover, next)[other]) == link.resolved(mover, next),
{
    let first = link.resolved(mover, next);
    let level = next.brightness - link.offsets[mover];
    assert(first[other].brightness == level + link.offsets[other]);
    assert(link.resolved(other, first[other]) =~= first);
}

/// Two members that are not held by the end of their range differ by exactly
/// their learned offset.
pub proof fn law_spacing_survives_every_move(
    link: LinkView,
    mover: Seq<char>,
    next: LightState,
    a: Seq<char>,
    b: Seq<char>,
)
    requires
        link.offsets.contains_key(mover),
        link.offsets.contains_key(a),
        link.offsets.contains_key(b),
        0 < link.resolved(mover, next)[a].brightness < MAX_BRIGHTNESS,
        0 < link.resolved(mover, next)[b].brightness < MAX_BRIGHTNESS,
    ensures
        link.resolved(mover, next)[a].brightness - link.resolved(mover, next)[b].brightness
            == link.offsets[a] - link.offsets[b],
{
}

/// Temperature and power mirror in both modes, brightness stays in range, and
/// exactly the members move.
pub proof fn law_temperature_and_power_mirror(link: LinkView, mover: Seq<char>, next: LightState)
    requires
        link.offsets.contains_key(mover),
    ensures
        link.resolved(mover, next).dom() == link.offsets.dom(),
        forall|id: Seq<char>| #[trigger]
            link.offsets.contains_key(id) ==> {
                &&& link.resolved(mover, next)[id].kelvin == next.kelvin
                &&& link.resolved(mover, next)[id].on == next.on
                &&& link.resolved(mover, next)[id].brightness <= MAX_BRIGHTNESS
            },
{
    assert(link.resolved(mover, next).dom() =~= link.offsets.dom());
}

/// A lamp outside the gang moves nothing.
pub proof fn law_a_stranger_moves_nothing(link: LinkView, mover: Seq<char>, next: LightState)
    requires
        !link.offsets.contains_key(mover),
    ensures
        link.resolved(mover, next) == Map::<Seq<char>, LightState>::empty(),
{
}

/// In a mirrored gang every member takes the mover's values.
pub proof fn law_a_mirror_moves_every_member_to_the_same_value(
    members: Seq<Seq<char>>,
    mover: Seq<char>,
    next: LightState,
    other: Seq<char>,
)
    requires
        members.contains(mover),
        members.contains(other),
        next.valid(),
    ensures
        LinkView::mirrored(members).resolved(mover, next)[other] == next,
{
}

/// Mirroring snaps every lamp onto the reference.
pub proof fn law_mirroring_snaps_onto_the_reference(
    link: LinkView,
    states: Map<Seq<char>, LightState>,
    member: Seq<char>,
)
    requires
        link.wf(),
        link.offsets.contains_key(member),
        states.contains_key(link.reference),
        states[link.reference].valid(),
    ensures
        ({
            let mirrored = link.tracking(LinkMode::Mirror, states);
            &&& mirrored.mode == LinkMode::Mirror
            &&& mirrored.offsets[member] == 0
            &&& mirrored.resolved(link.reference, states[link.reference])[member]
                == states[link.reference]
        }),
{
}

pub proof fn lemma_differences(members: Seq<(Seq<char>, LightState)>, level: int, i: int)
    requires
        0 <= i < members.len(),
        0 <= level <= 255,
        forall|a: int, b: int|
            0 <= a < b < members.len() ==> (#[trigger] members[a]).0 != (#[trigger] members[b]).0,
    ensures
        differences(members, level).contains_key(members[i].0),
        differences(members, level)[members[i].0] == members[i].1.brightness - level,
    decreases members.len(),
{
    let short = members.drop_last();
    if i < short.len() {
        assert(short[i] == members[i]);
        assert forall|a: int, b: int| 0 <= a < b < short.len() implies (#[trigger] short[a]).0 != (
        #[trigger] short[b]).0 by {
            assert(short[a] == members[a] && short[b] == members[b]);
        }
        lemma_differences(short, level, i);
        assert(members[i].0 != members[members.len() - 1].0);
    }
}

/// Making a gang moves no lamp: resolving it from any member's own state gives
/// every member the brightness it already had.
pub proof fn law_learning_moves_no_lamp(
    members: Seq<(Seq<char>, LightState)>,
    mover: int,
    other: int,
)
    requires
        0 <= mover < members.len(),
        0 <= other < members.len(),
        forall|a: int, b: int|
            0 <= a < b < members.len() ==> (#[trigger] members[a]).0 != (#[trigger] members[b]).0,
        members[mover].1.valid(),
        members[other].1.valid(),
    ensures
        LinkView::learned(members).resolved(members[mover].0, members[mover].1).contains_key(
            members[other].0,
        ),
        LinkView::learned(members).resolved(
            members[mover].0,
            members[mover].1,
        )[members[other].0].brightness == members[other].1.brightness,
{
    let level = members[0].1.brightness as int;
    lemma_differences(members, level, mover);
    lemma_differences(members, level, other);
}

/// A lamp dragged on its own keeps the value it was given, and the lamp that
/// fixed the level does not move either.
pub proof fn law_relearning_keeps_the_value_given(
    link: LinkView,
    member: Seq<char>,
    brightness: u8,
    others: Map<Seq<char>, LightState>,
)
    requires
        link.offsets.dom().finite(),
        brightness <= MAX_BRIGHTNESS,
        link.relearned(member, brightness, others) is Some,
        ({
            let anchor = link.anchor(member, others)->0;
            let level = others[anchor].brightness - link.offsets[anchor];
            &&& others[anchor].valid()
            &&& i32::MIN <= brightness - level <= i32::MAX
        }),
    ensures
        ({
            let anchor = link.anchor(member, others)->0;
            let next = link.relearned(member, brightness, others)->0;
            let moved = next.resolved(anchor, others[anchor]);
            &&& next.mode == LinkMode::Offset
            &&& moved[member].brightness == brightness
            &&& moved[anchor] == others[anchor]
        }),
{
    lemma_least(link.offsets.dom().intersect(others.dom()).remove(member));
}

/// Nobody's offset changes when a member leaves.
pub proof fn law_leaving_disturbs_no_one_else(link: LinkView, member: Seq<char>, other: Seq<char>)
    requires
        link.offsets.contains_key(other),
        other != member,
    ensures
        link.without(member).offsets.contains_key(other),
        link.without(member).offsets[other] == link.offsets[other],
        !link.without(member).offsets.contains_key(member),
{
}

/// The level read off a gang puts every member back exactly where it was, even
/// one pressed against the end of its range.
///
/// The offsets have to leave room for the level itself to be stored, which any
/// difference of two brightnesses does.
pub proof fn law_the_level_restores_the_gang(
    link: LinkView,
    states: Map<Seq<char>, LightState>,
    level: int,
    template: LightState,
    member: Seq<char>,
)
    requires
        link.offsets.dom().finite(),
        link.offsets.contains_key(member),
        states.contains_key(member),
        forall|id: Seq<char>| #[trigger]
            link.offsets.contains_key(id) ==> MAX_BRIGHTNESS - link.offsets[id] <= i32::MAX,
        forall|id: Seq<char>| #[trigger]
            link.known(states).contains(id) ==> states[id] == link.spread(level, template)[id],
    ensures
        link.level_of(states) is Some,
        link.spread(saturated(link.level_of(states)->0) as int, template)[member]
            == states[member],
{
    let known = link.known(states);
    let free = link.free(states);
    let topped = link.topped(states);
    assert(known.contains(member));
    assert(known != Set::<Seq<char>>::empty());
    assert(free.subset_of(link.offsets.dom()));
    vstd::set_lib::lemma_set_subset_finite(link.offsets.dom(), free);
    lemma_least(free);
    if least(free) is Some {
        let id = least(free)->0;
        assert(known.contains(id));
        lemma_level_is(link, states, level);
        assert(link.offsets.contains_key(id));
    } else if topped != Set::<Seq<char>>::empty() {
        lemma_extreme(link, states, true);
        let found = link.level_of(states)->0;
        let id = choose|id: Seq<char>| #[trigger]
            topped.contains(id) && found == MAX_BRIGHTNESS - link.offsets[id];
        assert(known.contains(id));
        assert(link.offsets.contains_key(id));
        assert(link.offsets.contains_key(member));
        assert(!free.contains(member));
        assert(topped.contains(member) ==> found >= MAX_BRIGHTNESS - link.offsets[member]);
    } else {
        lemma_extreme(link, states, false);
        let found = link.level_of(states)->0;
        let id = choose|id: Seq<char>| #[trigger]
            known.contains(id) && found == -link.offsets[id];
        assert(link.offsets.contains_key(id));
        assert(link.offsets.contains_key(member));
        assert(!free.contains(member));
        assert(!topped.contains(member));
    }
}

/// Where every known member is pinned, some level pins them all.
proof fn lemma_extreme(link: LinkView, states: Map<Seq<char>, LightState>, top: bool)
    requires
        link.offsets.dom().finite(),
        link.known(states) != Set::<Seq<char>>::empty(),
        least(link.free(states)) is None,
        top == (link.topped(states) != Set::<Seq<char>>::empty()),
    ensures
        link.level_of(states) is Some,
        link.level_is(states, link.level_of(states)->0),
{
    let pinned = if top {
        link.topped(states)
    } else {
        link.known(states)
    };
    assert(pinned.subset_of(link.offsets.dom()));
    vstd::set_lib::lemma_set_subset_finite(link.offsets.dom(), pinned);
    lemma_smallest(link, pinned);
    let id = choose|id: Seq<char>| #[trigger]
        pinned.contains(id) && forall|other: Seq<char>| #[trigger]
            pinned.contains(other) ==> link.offsets[id] <= link.offsets[other];
    lemma_largest(link, pinned);
    let high = choose|id: Seq<char>| #[trigger]
        pinned.contains(id) && forall|other: Seq<char>| #[trigger]
            pinned.contains(other) ==> link.offsets[other] <= link.offsets[id];
    if top {
        lemma_level_is(link, states, MAX_BRIGHTNESS - link.offsets[id]);
    } else {
        lemma_level_is(link, states, -link.offsets[high]);
    }
}

proof fn lemma_smallest(link: LinkView, members: Set<Seq<char>>)
    requires
        members.finite(),
        members != Set::<Seq<char>>::empty(),
    ensures
        exists|id: Seq<char>| #[trigger]
            members.contains(id) && forall|other: Seq<char>| #[trigger]
                members.contains(other) ==> link.offsets[id] <= link.offsets[other],
    decreases members.len(),
{
    let one = members.choose();
    assert(members.contains(one)) by {
        if forall|id: Seq<char>| !members.contains(id) {
            assert(members =~= Set::empty());
        }
    }
    let rest = members.remove(one);
    if rest =~= Set::empty() {
        assert forall|other: Seq<char>| #[trigger] members.contains(other) implies other == one by {
            if other != one {
                assert(rest.contains(other));
            }
        }
    } else {
        lemma_smallest(link, rest);
        let low = choose|id: Seq<char>| #[trigger]
            rest.contains(id) && forall|other: Seq<char>| #[trigger]
                rest.contains(other) ==> link.offsets[id] <= link.offsets[other];
        let best = if link.offsets[low] <= link.offsets[one] {
            low
        } else {
            one
        };
        assert(members.contains(best));
        assert forall|other: Seq<char>| #[trigger] members.contains(other) implies link.offsets[best]
            <= link.offsets[other] by {
            if other != one {
                assert(rest.contains(other));
            }
        }
    }
}

proof fn lemma_largest(link: LinkView, members: Set<Seq<char>>)
    requires
        members.finite(),
        members != Set::<Seq<char>>::empty(),
    ensures
        exists|id: Seq<char>| #[trigger]
            members.contains(id) && forall|other: Seq<char>| #[trigger]
                members.contains(other) ==> link.offsets[other] <= link.offsets[id],
    decreases members.len(),
{
    let one = members.choose();
    assert(members.contains(one)) by {
        if forall|id: Seq<char>| !members.contains(id) {
            assert(members =~= Set::empty());
        }
    }
    let rest = members.remove(one);
    if rest =~= Set::empty() {
        assert forall|other: Seq<char>| #[trigger] members.contains(other) implies other == one by {
            if other != one {
                assert(rest.contains(other));
            }
        }
    } else {
        lemma_largest(link, rest);
        let high = choose|id: Seq<char>| #[trigger]
            rest.contains(id) && forall|other: Seq<char>| #[trigger]
                rest.contains(other) ==> link.offsets[other] <= link.offsets[id];
        let best = if link.offsets[one] <= link.offsets[high] {
            high
        } else {
            one
        };
        assert(members.contains(best));
        assert forall|other: Seq<char>| #[trigger] members.contains(other) implies link.offsets[other]
            <= link.offsets[best] by {
            if other != one {
                assert(rest.contains(other));
            }
        }
    }
}

/// A level that any member can show is read back as it was set.
pub proof fn law_a_level_set_is_the_level_read(
    link: LinkView,
    level: int,
    template: LightState,
    member: Seq<char>,
)
    requires
        link.offsets.dom().finite(),
        link.offsets.contains_key(member),
        0 < level + link.offsets[member] < MAX_BRIGHTNESS,
    ensures
        link.level_of(link.spread(level, template)) == Some(level),
{
    let states = link.spread(level, template);
    let free = link.free(states);
    assert(link.known(states).contains(member));
    assert(free.contains(member));
    assert(free.subset_of(link.offsets.dom()));
    vstd::set_lib::lemma_set_subset_finite(link.offsets.dom(), free);
    lemma_least(free);
    lemma_level_is(link, states, level);
}

/// Lamps that already match learn an offset of zero and behave exactly like a
/// mirrored gang.
pub proof fn law_matching_lamps_gang_like_a_mirror(
    members: Seq<(Seq<char>, LightState)>,
    mover: Seq<char>,
    next: LightState,
)
    requires
        members.len() > 0,
        forall|i: int|
            0 <= i < members.len() ==> (#[trigger] members[i]).1.brightness
                == members[0].1.brightness,
    ensures
        LinkView::learned(members).resolved(mover, next) == LinkView::mirrored(
            members.map_values(|member: (Seq<char>, LightState)| member.0),
        ).resolved(mover, next),
        LinkView::learned(members).reference == LinkView::mirrored(
            members.map_values(|member: (Seq<char>, LightState)| member.0),
        ).reference,
{
    let names = members.map_values(|member: (Seq<char>, LightState)| member.0);
    let level = members[0].1.brightness as int;
    lemma_level_differences(members, level);
    assert forall|id: Seq<char>| differences(members, level).contains_key(id) <==> names.contains(
        id,
    ) by {
        if names.contains(id) {
            let k = choose|k: int| 0 <= k < names.len() && names[k] == id;
            assert(members[k].0 == id);
        }
        if exists|k: int| 0 <= k < members.len() && (#[trigger] members[k]).0 == id {
            let k = choose|k: int| 0 <= k < members.len() && (#[trigger] members[k]).0 == id;
            assert(names[k] == id);
        }
    }
    assert(LinkView::learned(members).offsets =~= LinkView::mirrored(names).offsets);
}

proof fn lemma_level_differences(members: Seq<(Seq<char>, LightState)>, level: int)
    requires
        forall|i: int|
            0 <= i < members.len() ==> (#[trigger] members[i]).1.brightness == level,
    ensures
        forall|id: Seq<char>| #[trigger]
            differences(members, level).contains_key(id) <==> exists|k: int|
                0 <= k < members.len() && (#[trigger] members[k]).0 == id,
        forall|id: Seq<char>| #[trigger]
            differences(members, level).contains_key(id) ==> differences(members, level)[id] == 0,
    decreases members.len(),
{
    if members.len() > 0 {
        let short = members.drop_last();
        assert forall|i: int| 0 <= i < short.len() implies (#[trigger] short[i]).1.brightness
            == level by {
            assert(short[i] == members[i]);
        }
        lemma_level_differences(short, level);
        let last = members[members.len() - 1];
        assert(last.1.brightness == level);
        assert forall|id: Seq<char>| #[trigger] differences(members, level).contains_key(id)
            <==> exists|k: int| 0 <= k < members.len() && (#[trigger] members[k]).0 == id by {
            if differences(short, level).contains_key(id) {
                let k = choose|k: int| 0 <= k < short.len() && (#[trigger] short[k]).0 == id;
                assert(members[k].0 == id);
            }
            if exists|k: int| 0 <= k < members.len() && (#[trigger] members[k]).0 == id {
                let k = choose|k: int| 0 <= k < members.len() && (#[trigger] members[k]).0 == id;
                if k < short.len() {
                    assert(short[k].0 == id);
                }
            }
            assert(last.0 == members.last().0);
        }
        assert forall|id: Seq<char>| #[trigger]
            differences(members, level).contains_key(id) implies differences(members, level)[id]
            == 0 by {
            if id != last.0 {
                assert(differences(short, level).contains_key(id));
            }
        }
    }
}

/// A gang at a level: every member and no one else, each as bright as the level
/// and its own difference make it, within what the hardware can do, with the
/// power and temperature of the template.
pub proof fn law_a_gang_stands_at_its_level(
    link: LinkView,
    level: int,
    template: LightState,
    id: Seq<char>,
)
    ensures
        link.spread(level, template).contains_key(id) <==> link.offsets.contains_key(id),
        link.offsets.contains_key(id) ==> {
            let state = link.spread(level, template)[id];
            let sum = level + link.offsets[id];
            &&& 0 <= sum <= 100 ==> state.brightness == sum
            &&& sum < 0 ==> state.brightness == 0
            &&& sum > 100 ==> state.brightness == 100
            &&& state.on == template.on
            &&& state.kelvin == template.kelvin
        },
{
}

/// Moving a member moves every other by as much: each ends as far from the mover
/// as their differences are apart, within what the hardware can do.
pub proof fn law_every_member_follows_the_mover(
    link: LinkView,
    mover: Seq<char>,
    next: LightState,
    id: Seq<char>,
)
    requires
        link.offsets.contains_key(mover),
        link.offsets.contains_key(id),
    ensures
        ({
            let state = link.resolved(mover, next)[id];
            let place = next.brightness + link.offsets[id] - link.offsets[mover];
            &&& 0 <= place <= 100 ==> state.brightness == place
            &&& place < 0 ==> state.brightness == 0
            &&& place > 100 ==> state.brightness == 100
        }),
{
}

/// Moving a member with the gang and then moving it back brings back every member
/// that met no end of the range on the way.
pub proof fn law_a_move_and_the_move_back_cancel(
    link: LinkView,
    mover: Seq<char>,
    start: LightState,
    next: LightState,
    id: Seq<char>,
)
    requires
        link.offsets.contains_key(mover),
        link.offsets.contains_key(id),
        start.valid(),
        next.valid(),
        0 < link.resolved(mover, next)[id].brightness < 100,
    ensures
        link.resolved(
            id,
            LightState { brightness: link.resolved(mover, start)[id].brightness, ..start },
        )[mover].brightness == start.brightness || link.resolved(mover, start)[id].brightness == 0
            || link.resolved(mover, start)[id].brightness == 100,
        link.resolved(id, link.resolved(mover, next)[id]) == link.resolved(mover, next),
{
    law_any_free_member_agrees(link, mover, next, id);
}

/// A gang that is learned holds the lamps it was given and no other, led by the
/// first, each at its own difference from the first.
pub proof fn law_learning_measures_from_the_first(
    members: Seq<(Seq<char>, LightState)>,
    i: int,
    id: Seq<char>,
)
    requires
        0 <= i < members.len(),
        forall|a: int, b: int|
            0 <= a < b < members.len() ==> (#[trigger] members[a]).0 != (#[trigger] members[b]).0,
    ensures
        LinkView::learned(members).mode == LinkMode::Offset,
        LinkView::learned(members).reference == members[0].0,
        LinkView::learned(members).offsets.contains_key(members[i].0),
        LinkView::learned(members).offsets[members[i].0] == members[i].1.brightness
            - members[0].1.brightness,
        LinkView::learned(members).offsets.contains_key(id) <==> exists|k: int|
            0 <= k < members.len() && (#[trigger] members[k]).0 == id,
{
    let level = members[0].1.brightness as int;
    lemma_differences(members, level, i);
    lemma_differences_held(members, level, id);
}

proof fn lemma_differences_held(members: Seq<(Seq<char>, LightState)>, level: int, id: Seq<char>)
    ensures
        differences(members, level).contains_key(id) <==> exists|k: int|
            0 <= k < members.len() && (#[trigger] members[k]).0 == id,
    decreases members.len(),
{
    if members.len() > 0 {
        let short = members.drop_last();
        lemma_differences_held(short, level, id);
        if differences(short, level).contains_key(id) {
            let k = choose|k: int| 0 <= k < short.len() && (#[trigger] short[k]).0 == id;
            assert(members[k].0 == id);
        }
        assert(members[members.len() - 1] == members.last());
        if exists|k: int| 0 <= k < members.len() && (#[trigger] members[k]).0 == id {
            let k = choose|k: int| 0 <= k < members.len() && (#[trigger] members[k]).0 == id;
            if k < short.len() {
                assert(short[k].0 == id);
            }
        }
    }
}

/// A mirror holds the lamps it was given and no other, led by the first, without
/// any difference between them.
pub proof fn law_a_mirror_has_no_differences(members: Seq<Seq<char>>, id: Seq<char>)
    requires
        members.len() > 0,
    ensures
        LinkView::mirrored(members).mode == LinkMode::Mirror,
        LinkView::mirrored(members).reference == members[0],
        LinkView::mirrored(members).offsets.contains_key(id) <==> members.contains(id),
        members.contains(id) ==> LinkView::mirrored(members).offsets[id] == 0,
{
}

/// A gang that is put back together is led by the lamp that is named if it is a
/// member, and otherwise by the alphabetically first member.
pub proof fn law_a_restored_gang_is_led_by_a_member(
    mode: LinkMode,
    reference: Option<Seq<char>>,
    offsets: Map<Seq<char>, i32>,
)
    requires
        offsets.dom().finite(),
    ensures
        ({
            let link = LinkView::restored(mode, reference, offsets);
            let named = reference is Some && offsets.contains_key(reference->0);
            &&& link.mode == mode
            &&& link.offsets == offsets
            &&& named ==> Some(link.reference) == reference
            &&& !named && offsets.dom().len() > 0 ==> offsets.contains_key(link.reference)
                && forall|other: Seq<char>| #[trigger]
                offsets.contains_key(other) && other != link.reference ==> precedes(
                    link.reference,
                    other,
                )
            &&& offsets.dom().len() == 0 ==> link.reference.len() == 0
        }),
{
    lemma_least(offsets.dom());
    lemma_listed(offsets.dom());
}

/// Changing how a gang tracks keeps its members and its reference. Mirroring
/// drops every difference; tracking offsets measures each known member from the
/// reference and keeps what is remembered of the others. Without the reference
/// nothing changes.
pub proof fn law_tracking_measures_from_the_reference(
    link: LinkView,
    mode: LinkMode,
    states: Map<Seq<char>, LightState>,
    id: Seq<char>,
)
    requires
        link.offsets.contains_key(id),
    ensures
        ({
            let next = link.tracking(mode, states);
            &&& next.reference == link.reference
            &&& next.offsets.dom() == link.offsets.dom()
            &&& !states.contains_key(link.reference) ==> next == link
            &&& states.contains_key(link.reference) ==> {
                &&& next.mode == mode
                &&& mode == LinkMode::Mirror ==> next.offsets[id] == 0
                &&& mode == LinkMode::Offset && states.contains_key(id) ==> next.offsets[id]
                    == states[id].brightness - states[link.reference].brightness
                &&& mode == LinkMode::Offset && !states.contains_key(id) ==> next.offsets[id]
                    == link.offsets[id]
            }
        }),
{
    assert(link.tracking(mode, states).offsets.dom() =~= link.offsets.dom());
}

/// A gang keeps its mode and its reference when a member leaves, unless the
/// reference is the one that leaves: then the first of those who stay leads.
pub proof fn law_the_lead_passes_on(link: LinkView, member: Seq<char>)
    requires
        link.wf(),
        link.offsets.dom().finite(),
    ensures
        link.without(member).mode == link.mode,
        link.without(member).offsets.dom() == link.offsets.dom().remove(member),
        member != link.reference ==> link.without(member).reference == link.reference,
        member == link.reference && link.offsets.dom().remove(member).len() > 0 ==> {
            let next = link.without(member).reference;
            &&& next != member
            &&& link.offsets.contains_key(next)
            &&& forall|other: Seq<char>| #[trigger]
                link.offsets.contains_key(other) && other != member && other != next ==> precedes(
                    next,
                    other,
                )
        },
{
    let rest = link.offsets.remove(member);
    assert(rest.dom() =~= link.offsets.dom().remove(member));
    lemma_least(rest.dom());
    lemma_listed(rest.dom());
    if member == link.reference && rest.dom().len() > 0 {
        let next = link.without(member).reference;
        assert(rest.dom().contains(next));
        assert forall|other: Seq<char>| #[trigger]
            link.offsets.contains_key(other) && other != member && other != next implies precedes(
            next,
            other,
        ) by {
            assert(rest.dom().contains(other));
        }
    }
}

/// Teaching a gang a difference needs a member to teach and another to measure
/// from. It changes that one difference, makes the gang track offsets, and leaves
/// the rest of it as it was.
pub proof fn law_relearning_changes_one_difference(
    link: LinkView,
    member: Seq<char>,
    brightness: u8,
    others: Map<Seq<char>, LightState>,
    id: Seq<char>,
)
    requires
        link.offsets.dom().finite(),
    ensures
        link.relearned(member, brightness, others) is Some <==> {
            &&& link.offsets.contains_key(member)
            &&& exists|other: Seq<char>| #[trigger]
                link.offsets.contains_key(other) && others.contains_key(other) && other != member
        },
        link.relearned(member, brightness, others) matches Some(next) ==> {
            &&& next.mode == LinkMode::Offset
            &&& next.reference == link.reference
            &&& next.offsets.dom() == link.offsets.dom()
            &&& id != member && link.offsets.contains_key(id) ==> next.offsets[id]
                == link.offsets[id]
        },
{
    let candidates = link.offsets.dom().intersect(others.dom()).remove(member);
    vstd::set_lib::lemma_set_subset_finite(link.offsets.dom(), candidates);
    lemma_least(candidates);
    if candidates =~= Set::empty() {
        assert forall|other: Seq<char>| #[trigger]
            link.offsets.contains_key(other) && others.contains_key(
                other,
            ) implies other == member by {
            if other != member {
                assert(candidates.contains(other));
            }
        }
    } else {
        let other = least(candidates)->0;
        assert(link.offsets.contains_key(other) && others.contains_key(other) && other != member);
    }
    if let Some(next) = link.relearned(member, brightness, others) {
        assert(next.offsets.dom() =~= link.offsets.dom());
    }
}

/// The difference a gang is taught is what the lamp shows over the level the
/// others stand at: where every other known member stands at one level without
/// meeting an end of the range, that level decides.
pub proof fn law_relearning_measures_from_the_level(
    link: LinkView,
    member: Seq<char>,
    brightness: u8,
    others: Map<Seq<char>, LightState>,
    level: int,
)
    requires
        link.offsets.dom().finite(),
        link.relearned(member, brightness, others) is Some,
        forall|id: Seq<char>| #[trigger]
            link.offsets.contains_key(id) && others.contains_key(id) && id != member
                ==> others[id].brightness == level + link.offsets[id],
        i32::MIN <= brightness - level <= i32::MAX,
    ensures
        (link.relearned(member, brightness, others)->0).offsets[member] == brightness - level,
{
    let candidates = link.offsets.dom().intersect(others.dom()).remove(member);
    vstd::set_lib::lemma_set_subset_finite(link.offsets.dom(), candidates);
    lemma_least(candidates);
    let anchor = link.anchor(member, others)->0;
    assert(link.offsets.contains_key(anchor) && others.contains_key(anchor) && anchor != member);
}

/// A gang's level is what any member shows less its difference, as far as that
/// member shows it: the first member away from the ends of the range decides.
pub proof fn law_the_level_reads_off_a_free_member(
    link: LinkView,
    states: Map<Seq<char>, LightState>,
    id: Seq<char>,
)
    requires
        link.offsets.dom().finite(),
        link.offsets.contains_key(id),
        states.contains_key(id),
        0 < states[id].brightness < 100,
        forall|other: Seq<char>| #[trigger]
            link.offsets.contains_key(other) && states.contains_key(other) && 0
                < states[other].brightness < 100 && other != id ==> precedes(id, other),
    ensures
        link.level_of(states) == Some(states[id].brightness - link.offsets[id]),
{
    let free = link.free(states);
    vstd::set_lib::lemma_set_subset_finite(link.offsets.dom(), free);
    assert forall|other: Seq<char>| #![auto] free.contains(other) && other != id implies precedes(
        id,
        other,
    ) by {
        assert(link.offsets.contains_key(other));
    }
    lemma_least_is(free, id);
    assert(link.known(states).contains(id));
    lemma_level_is(link, states, states[id].brightness - link.offsets[id]);
}

/// Where every known member is at an end of the range, the level is the nearest
/// one that holds them there: high enough for all that are full, or low enough
/// for all when none is.
pub proof fn law_the_level_of_a_pinned_gang(
    link: LinkView,
    states: Map<Seq<char>, LightState>,
    one: Seq<char>,
)
    requires
        link.offsets.dom().finite(),
        link.offsets.contains_key(one),
        states.contains_key(one),
        forall|id: Seq<char>| #[trigger]
            link.offsets.contains_key(id) && states.contains_key(id) ==> states[id].brightness == 0
                || states[id].brightness >= 100,
    ensures
        link.level_of(states) is Some,
        ({
            let level = link.level_of(states)->0;
            let full = |id: Seq<char>|
                link.offsets.contains_key(id) && states.contains_key(id) && states[id].brightness
                    >= 100;
            if exists|id: Seq<char>| #[trigger] link.offsets.contains_key(id) && full(id) {
                &&& forall|id: Seq<char>| #[trigger]
                    link.offsets.contains_key(id) && full(id) ==> level + link.offsets[id] >= 100
                &&& exists|id: Seq<char>| #[trigger]
                    link.offsets.contains_key(id) && full(id) && level + link.offsets[id] == 100
            } else {
                &&& forall|id: Seq<char>| #[trigger]
                    link.offsets.contains_key(id) && states.contains_key(id) ==> level
                        + link.offsets[id] <= 0
                &&& exists|id: Seq<char>| #[trigger]
                    link.offsets.contains_key(id) && states.contains_key(id) && level
                        + link.offsets[id] == 0
            }
        }),
{
    let known = link.known(states);
    let free = link.free(states);
    let topped = link.topped(states);
    assert(known.contains(one));
    assert(free =~= Set::empty()) by {
        assert forall|id: Seq<char>| !free.contains(id) by {
            if free.contains(id) {
                assert(link.offsets.contains_key(id));
            }
        }
    }
    lemma_least(free);
    lemma_extreme(link, states, topped != Set::<Seq<char>>::empty());
    let level = link.level_of(states)->0;
    let full = |id: Seq<char>|
        link.offsets.contains_key(id) && states.contains_key(id) && states[id].brightness >= 100;
    assert forall|id: Seq<char>| #[trigger] topped.contains(id) <==> full(id) by {}
    if exists|id: Seq<char>| #[trigger] link.offsets.contains_key(id) && full(id) {
        let some = choose|id: Seq<char>| #[trigger] link.offsets.contains_key(id) && full(id);
        assert(topped.contains(some));
        let edge = choose|id: Seq<char>| #[trigger]
            topped.contains(id) && level == MAX_BRIGHTNESS - link.offsets[id];
        assert(link.offsets.contains_key(edge) && full(edge));
        assert forall|id: Seq<char>| #[trigger]
            link.offsets.contains_key(id) && full(id) implies level + link.offsets[id] >= 100 by {
            assert(topped.contains(id));
        }
    } else {
        assert(topped =~= Set::empty()) by {
            assert forall|id: Seq<char>| !topped.contains(id) by {
                if topped.contains(id) {
                    assert(link.offsets.contains_key(id) && full(id));
                }
            }
        }
        let edge = choose|id: Seq<char>| #[trigger]
            known.contains(id) && level == -link.offsets[id];
        assert(link.offsets.contains_key(edge) && states.contains_key(edge));
        assert forall|id: Seq<char>| #[trigger]
            link.offsets.contains_key(id) && states.contains_key(id) implies level
            + link.offsets[id] <= 0 by {
            assert(known.contains(id));
        }
    }
}

/// A gang has no level exactly when nothing is known of any member.
pub proof fn law_an_unknown_gang_has_no_level(link: LinkView, states: Map<Seq<char>, LightState>)
    ensures
        link.level_of(states) is None <==> forall|id: Seq<char>| #[trigger]
            link.offsets.contains_key(id) ==> !states.contains_key(id),
{
    let known = link.known(states);
    if known == Set::<Seq<char>>::empty() {
        assert forall|id: Seq<char>| #[trigger] link.offsets.contains_key(
            id,
        ) implies !states.contains_key(id) by {
            assert(!known.contains(id));
        }
    } else if forall|id: Seq<char>| #[trigger]
        link.offsets.contains_key(id) ==> !states.contains_key(id) {
        assert(known =~= Set::empty());
    }
}

/// A number that does not fit becomes the nearest that does.
pub proof fn law_saturating_keeps_what_fits(value: int)
    ensures
        i32::MIN <= value <= i32::MAX ==> saturated(value) == value,
        value < i32::MIN ==> saturated(value) == i32::MIN,
        value > i32::MAX ==> saturated(value) == i32::MAX,
{
}

} // verus!
