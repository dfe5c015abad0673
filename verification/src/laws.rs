//! Laws of the whole desk: how commands, gangs and scenes fit together.
//!
//! Each is stated over the same models that the contracts of [`crate::world`]
//! speak of, so what holds here holds of every call made there.

use vstd::prelude::*;

use crate::dbus::moved_alone;
use crate::discovery::DiscoveredView;
use crate::group::{collapsed, law_aggregate_stays_between_members,
    law_the_group_is_the_average_of_all_its_members, total};
use crate::link::{differences, law_every_member_follows_the_mover,
    law_learning_measures_from_the_first,
    law_mirroring_snaps_onto_the_reference, law_relearning_changes_one_difference,
    law_relearning_measures_from_the_level, law_temperature_and_power_mirror,
    law_the_level_reads_off_a_free_member, law_the_mover_keeps_its_value,
    law_tracking_measures_from_the_reference, LinkMode, LinkView};
use crate::names::{in_order, least, lemma_least, lemma_least_is, lemma_listed};
use crate::record::{Changed, RecordView};
use crate::scene::{all_in_step, captured_part, formed, gang_of, gang_values, ganged, gangs_of,
    in_step, law_a_captured_scene_moves_nothing, law_a_plan_stays_within_what_the_scene_names,
    law_a_scene_forms_what_is_there_of_a_gang, law_a_scene_puts_back_whatever_is_there,
    law_capturing_keeps_the_topology, law_every_named_lamp_is_detached, lead, lemma_captured_gang,
    lemma_captured_lamps, lemma_formed_within, lemma_gangs_of, lemma_here, lemma_overlaid_within,
    loose, overlaid, stands_at, storable, survivors, GangView, LampView, PlanView,
    SceneView};
use crate::selector::Choice;
use crate::state::{law_absolute_patch_is_idempotent, valid_brightness, Adjust, LightState, Power,
    StatePatch, MAX_BRIGHTNESS};
use crate::strings::precedes;
use crate::supervisor::{after_found, after_lost};
use crate::world::{all_unlinked, announced, desires, desires_of, driven, existing, expanded,
    gang_index, gangs_announced, gangs_driven, lemma_filed, lemma_gang_index, lemma_patched,
    links_of, online_ids, owing, unlinked, with_desires, Aim, GroupSnapshot, WorldView};

verus! {

// ---------------------------------------------------------------------------
// A lamp is in at most one gang
// ---------------------------------------------------------------------------

/// Whether a lamp is in any gang.
pub open spec fn in_gang(links: Seq<LinkView>, id: Seq<char>) -> bool {
    exists|i: int| 0 <= i < links.len() && (#[trigger] links[i]).offsets.contains_key(id)
}

/// No lamp is in two gangs.
pub open spec fn separate(links: Seq<LinkView>) -> bool {
    forall|i: int, j: int, id: Seq<char>|
        0 <= i < j < links.len() ==> !(#[trigger] links[i].offsets.contains_key(id)
            && #[trigger] links[j].offsets.contains_key(id))
}

/// Every gang has two members or more.
pub open spec fn gangs_have_two(links: Seq<LinkView>) -> bool {
    forall|i: int|
        0 <= i < links.len() ==> (#[trigger] links[i]).offsets.dom().finite()
            && links[i].offsets.dom().len() >= 2
}

/// Leaving a gang takes the lamp out of every gang, puts no lamp into any, and
/// keeps lamps in one gang and gangs at two members.
pub proof fn law_leaving_a_gang(links: Seq<LinkView>, id: Seq<char>)
    requires
        separate(links),
    ensures
        separate(unlinked(links, id)),
        !in_gang(unlinked(links, id), id),
        forall|other: Seq<char>|
            in_gang(unlinked(links, id), other) ==> #[trigger] in_gang(links, other),
        gangs_have_two(links) ==> gangs_have_two(unlinked(links, id)),
{
    lemma_gang_index(links, id);
    let at = gang_index(links, id);
    let after = unlinked(links, id);
    if at < links.len() {
        let rest = links.remove(at);
        let remnant = links[at].without(id);
        assert forall|i: int, x: Seq<char>|
            0 <= i < after.len() && #[trigger] after[i].offsets.contains_key(x) implies {
            &&& x != id
            &&& in_gang(links, x)
        } by {
            if i < rest.len() {
                let k = if i < at {
                    i
                } else {
                    i + 1
                };
                assert(rest[i] == links[k]);
                if x == id {
                    if k < at {
                        assert(!links[k].offsets.contains_key(id));
                    } else {
                        assert(links[at].offsets.contains_key(id)
                            && links[k].offsets.contains_key(id));
                    }
                }
                assert(links[k].offsets.contains_key(x));
            } else {
                assert(links[at].offsets.contains_key(x));
            }
        }
        assert forall|i: int, j: int, x: Seq<char>|
            0 <= i < j < after.len() implies !(#[trigger] after[i].offsets.contains_key(x)
            && #[trigger] after[j].offsets.contains_key(x)) by {
            let a = if i < at {
                i
            } else {
                i + 1
            };
            assert(rest[i] == links[a]);
            if j < rest.len() {
                let b = if j < at {
                    j
                } else {
                    j + 1
                };
                assert(rest[j] == links[b]);
                assert(!(links[a].offsets.contains_key(x) && links[b].offsets.contains_key(x)));
            } else if after[i].offsets.contains_key(x) && after[j].offsets.contains_key(x) {
                assert(links[at].offsets.contains_key(x) && links[a].offsets.contains_key(x));
            }
        }
        if gangs_have_two(links) {
            assert forall|i: int| 0 <= i < after.len() implies (
            #[trigger] after[i]).offsets.dom().finite() && after[i].offsets.dom().len() >= 2 by {
                if i < rest.len() {
                    let k = if i < at {
                        i
                    } else {
                        i + 1
                    };
                    assert(rest[i] == links[k]);
                } else {
                    assert(links[at].offsets.dom().finite());
                    assert(remnant.offsets.dom() =~= links[at].offsets.dom().remove(id));
                }
            }
        }
    }
}

/// The same of several lamps leaving one after another.
pub proof fn law_leaving_one_after_another(links: Seq<LinkView>, ids: Seq<Seq<char>>)
    requires
        separate(links),
    ensures
        separate(all_unlinked(links, ids)),
        forall|i: int|
            0 <= i < ids.len() ==> !in_gang(all_unlinked(links, ids), #[trigger] ids[i]),
        forall|other: Seq<char>|
            in_gang(all_unlinked(links, ids), other) ==> #[trigger] in_gang(links, other),
        gangs_have_two(links) ==> gangs_have_two(all_unlinked(links, ids)),
    decreases ids.len(),
{
    if ids.len() > 0 {
        let short = ids.drop_last();
        let before = all_unlinked(links, short);
        law_leaving_one_after_another(links, short);
        law_leaving_a_gang(before, ids.last());
        assert forall|other: Seq<char>| in_gang(all_unlinked(links, ids), other) implies
            #[trigger] in_gang(links, other) by {
            assert(in_gang(before, other));
        }
        assert forall|i: int| 0 <= i < ids.len() implies !in_gang(
            all_unlinked(links, ids),
            #[trigger] ids[i],
        ) by {
            if i < short.len() {
                assert(short[i] == ids[i]);
                assert(!in_gang(before, short[i]));
            }
        }
    }
}

proof fn lemma_learned_members(members: Seq<(Seq<char>, LightState)>, level: int, id: Seq<char>)
    ensures
        differences(members, level).contains_key(id) <==> exists|i: int|
            0 <= i < members.len() && (#[trigger] members[i]).0 == id,
        differences(members, level).dom().finite(),
    decreases members.len(),
{
    if members.len() > 0 {
        let short = members.drop_last();
        lemma_learned_members(short, level, id);
        if exists|i: int| 0 <= i < short.len() && (#[trigger] short[i]).0 == id {
            let i = choose|i: int| 0 <= i < short.len() && (#[trigger] short[i]).0 == id;
            assert(members[i].0 == id);
        }
        if exists|i: int| 0 <= i < members.len() && (#[trigger] members[i]).0 == id {
            let i = choose|i: int| 0 <= i < members.len() && (#[trigger] members[i]).0 == id;
            if i < short.len() {
                assert(short[i].0 == id);
            }
        }
        assert(members[members.len() - 1].0 == members.last().0);
    }
}

/// Making a gang keeps every lamp in at most one: whoever joins has left the
/// gang it was in.
pub proof fn law_ganging_keeps_lamps_in_one_gang(
    links: Seq<LinkView>,
    lights: Map<Seq<char>, RecordView>,
    ids: Seq<Seq<char>>,
)
    requires
        separate(links),
    ensures
        separate(
            all_unlinked(links, ids).push(LinkView::learned(with_desires(lights, ids))),
        ),
{
    law_leaving_one_after_another(links, ids);
    let before = all_unlinked(links, ids);
    let made = LinkView::learned(with_desires(lights, ids));
    let after = before.push(made);
    assert forall|i: int, j: int, x: Seq<char>|
        0 <= i < j < after.len() implies !(#[trigger] after[i].offsets.contains_key(x)
        && #[trigger] after[j].offsets.contains_key(x)) by {
        if j < before.len() {
            assert(!(before[i].offsets.contains_key(x) && before[j].offsets.contains_key(x)));
        } else if made.offsets.contains_key(x) {
            let pairs = with_desires(lights, ids);
            let level = if pairs.len() == 0 {
                0
            } else {
                pairs[0].1.brightness as int
            };
            lemma_learned_members(pairs, level, x);
            let k = choose|k: int| 0 <= k < pairs.len() && (#[trigger] pairs[k]).0 == x;
            assert(ids[k] == x);
            assert(!in_gang(before, ids[k]));
        }
    }
}

/// Making a gang of different lamps keeps every gang at two members or more.
pub proof fn law_ganging_makes_gangs_of_two(
    links: Seq<LinkView>,
    lights: Map<Seq<char>, RecordView>,
    ids: Seq<Seq<char>>,
)
    requires
        separate(links),
        gangs_have_two(links),
        ids.len() >= 2,
        ids.no_duplicates(),
    ensures
        gangs_have_two(
            all_unlinked(links, ids).push(LinkView::learned(with_desires(lights, ids))),
        ),
{
    law_leaving_one_after_another(links, ids);
    let made = LinkView::learned(with_desires(lights, ids));
    let pairs = with_desires(lights, ids);
    let level = pairs[0].1.brightness as int;
    assert(pairs[0].0 == ids[0] && pairs[1].0 == ids[1]);
    lemma_learned_members(pairs, level, ids[0]);
    lemma_learned_members(pairs, level, ids[1]);
    let pair = set![ids[0], ids[1]];
    assert(pair.subset_of(made.offsets.dom()));
    vstd::set_lib::lemma_len_subset(pair, made.offsets.dom());
    assert(pair.len() == 2);
}

/// Changing how a gang tracks, or teaching it a new difference, changes no
/// membership.
pub proof fn law_membership_outlives_mode_and_spacing(
    link: LinkView,
    mode: LinkMode,
    states: Map<Seq<char>, LightState>,
    member: Seq<char>,
    brightness: u8,
)
    ensures
        link.tracking(mode, states).offsets.dom() == link.offsets.dom(),
        link.relearned(member, brightness, states) matches Some(next) ==> next.offsets.dom()
            == link.offsets.dom(),
{
    assert(link.tracking(mode, states).offsets.dom() =~= link.offsets.dom());
    if link.relearned(member, brightness, states) is Some {
        let next = link.relearned(member, brightness, states)->0;
        assert(next.offsets.dom() =~= link.offsets.dom());
    }
}

// ---------------------------------------------------------------------------
// What a command reaches
// ---------------------------------------------------------------------------

proof fn lemma_expanded_in(
    links: Seq<LinkView>,
    asked: Map<Seq<char>, LightState>,
    lights: Map<Seq<char>, RecordView>,
    i: int,
    id: Seq<char>,
)
    requires
        separate(links),
        0 <= i < links.len(),
        links[i].offsets.contains_key(id),
        lights.contains_key(id),
        least(links[i].offsets.dom().intersect(asked.dom())) is Some,
        links[i].offsets.contains_key(
            least(links[i].offsets.dom().intersect(asked.dom()))->0,
        ),
    ensures
        ({
            let mover = least(links[i].offsets.dom().intersect(asked.dom()))->0;
            &&& expanded(links, asked, lights).contains_key(id)
            &&& expanded(links, asked, lights)[id] == links[i].resolved(mover, asked[mover])[id]
        }),
    decreases links.len(),
{
    if i < links.len() - 1 {
        let short = links.drop_last();
        assert(short[i] == links[i]);
        assert forall|a: int, b: int, x: Seq<char>|
            0 <= a < b < short.len() implies !(#[trigger] short[a].offsets.contains_key(x)
            && #[trigger] short[b].offsets.contains_key(x)) by {
            assert(short[a] == links[a] && short[b] == links[b]);
        }
        lemma_expanded_in(short, asked, lights, i, id);
        assert(!links[links.len() - 1].offsets.contains_key(id));
    }
}

proof fn lemma_expanded_out(
    links: Seq<LinkView>,
    asked: Map<Seq<char>, LightState>,
    lights: Map<Seq<char>, RecordView>,
    id: Seq<char>,
)
    requires
        forall|i: int|
            0 <= i < links.len() && (#[trigger] links[i]).offsets.contains_key(id) ==> least(
                links[i].offsets.dom().intersect(asked.dom()),
            ) is None,
    ensures
        expanded(links, asked, lights).contains_key(id) <==> asked.contains_key(id),
        asked.contains_key(id) ==> expanded(links, asked, lights)[id] == asked[id],
    decreases links.len(),
{
    if links.len() > 0 {
        let short = links.drop_last();
        assert forall|i: int|
            0 <= i < short.len() && (#[trigger] short[i]).offsets.contains_key(id) implies least(
            short[i].offsets.dom().intersect(asked.dom()),
        ) is None by {
            assert(short[i] == links[i]);
        }
        lemma_expanded_out(short, asked, lights, id);
        let last = links[links.len() - 1];
        assert(last == links.last());
        assert(last.offsets.contains_key(id) ==> least(
            last.offsets.dom().intersect(asked.dom()),
        ) is None);
    }
}

/// The members of a gang that a command addresses, in a gang whose membership
/// is finite, have a first one exactly when there are any.
proof fn lemma_mover(link: LinkView, asked: Map<Seq<char>, LightState>)
    requires
        link.offsets.dom().finite(),
    ensures
        least(link.offsets.dom().intersect(asked.dom())) is None <==> forall|id: Seq<char>|
            !(#[trigger] link.offsets.contains_key(id) && asked.contains_key(id)),
        least(link.offsets.dom().intersect(asked.dom())) matches Some(mover)
            ==> link.offsets.contains_key(mover) && asked.contains_key(mover),
{
    let both = link.offsets.dom().intersect(asked.dom());
    lemma_least(both);
    if least(both) is None {
        assert forall|id: Seq<char>| !(#[trigger] link.offsets.contains_key(id)
            && asked.contains_key(id)) by {
            assert(!both.contains(id));
        }
    } else {
        assert(both.contains(least(both)->0));
    }
}

/// Every gang's membership is finite.
pub open spec fn gangs_are_finite(links: Seq<LinkView>) -> bool {
    forall|i: int| 0 <= i < links.len() ==> (#[trigger] links[i]).offsets.dom().finite()
}

/// A lamp that is not addressed, and in no gang with one that is, is not touched
/// by a command.
pub proof fn law_only_the_addressed_and_their_gangs_move(
    world: WorldView,
    aim: Aim,
    patch: StatePatch,
    now: u64,
    id: Seq<char>,
)
    requires
        gangs_are_finite(world.links),
        world.lights.contains_key(id),
        !world.asked(aim, patch).contains_key(id),
        forall|i: int, other: Seq<char>|
            0 <= i < world.links.len() && world.links[i].offsets.contains_key(id)
                && #[trigger] world.links[i].offsets.contains_key(other) ==> !world.asked(
                aim,
                patch,
            ).contains_key(other),
    ensures
        world.drive(world.effect(aim, patch), now).lights[id] == world.lights[id],
        !world.effect(aim, patch).contains_key(id),
{
    let asked = world.asked(aim, patch);
    assert forall|i: int|
        0 <= i < world.links.len() && (#[trigger] world.links[i]).offsets.contains_key(
            id,
        ) implies least(world.links[i].offsets.dom().intersect(asked.dom())) is None by {
        lemma_mover(world.links[i], asked);
    }
    lemma_expanded_out(world.links, asked, world.lights, id);
}

/// Touching any member moves the whole gang: every member that exists takes what
/// the gang resolves to, led by its first addressed member.
pub proof fn law_touching_a_member_moves_the_gang(
    world: WorldView,
    aim: Aim,
    patch: StatePatch,
    i: int,
    touched: Seq<char>,
    id: Seq<char>,
)
    requires
        gangs_are_finite(world.links),
        separate(world.links),
        0 <= i < world.links.len(),
        world.links[i].offsets.contains_key(touched),
        world.asked(aim, patch).contains_key(touched),
        world.links[i].offsets.contains_key(id),
        world.lights.contains_key(id),
    ensures
        ({
            let asked = world.asked(aim, patch);
            let mover = least(world.links[i].offsets.dom().intersect(asked.dom()));
            &&& mover is Some
            &&& world.effect(aim, patch).contains_key(id)
            &&& world.effect(aim, patch)[id] == world.links[i].resolved(
                mover->0,
                asked[mover->0],
            )[id]
        }),
{
    lemma_mover(world.links[i], world.asked(aim, patch));
    lemma_expanded_in(world.links, world.asked(aim, patch), world.lights, i, id);
}

/// A lamp addressed by its id becomes exactly what the patch makes of it,
/// ganged or not.
pub proof fn law_a_lamp_becomes_what_was_asked(
    world: WorldView,
    id: Seq<char>,
    patch: StatePatch,
    now: u64,
)
    requires
        gangs_are_finite(world.links),
        separate(world.links),
        world.lights.contains_key(id),
    ensures
        world.drive(world.effect(Aim::Id(id), patch), now).lights[id].desired == patch.applied(
            world.lights[id].desired,
        ),
{
    let asked = world.asked(Aim::Id(id), patch);
    lemma_led_lamp(world.links, asked, world.lights, id);
}

/// A lamp that is alone in being asked, or leads its gang, gets what it asks.
proof fn lemma_led_lamp(
    links: Seq<LinkView>,
    asked: Map<Seq<char>, LightState>,
    lights: Map<Seq<char>, RecordView>,
    id: Seq<char>,
)
    requires
        separate(links),
        gangs_are_finite(links),
        lights.contains_key(id),
        asked.contains_key(id),
        asked[id].valid(),
        forall|i: int|
            0 <= i < links.len() && (#[trigger] links[i]).offsets.contains_key(id) ==> (least(
                links[i].offsets.dom().intersect(asked.dom()),
            ) == Some(id) || asked.dom() =~= set![id]),
    ensures
        expanded(links, asked, lights).contains_key(id),
        expanded(links, asked, lights)[id] == asked[id],
{
    if in_gang(links, id) {
        let i = choose|i: int|
            0 <= i < links.len() && (#[trigger] links[i]).offsets.contains_key(id);
        lemma_mover(links[i], asked);
        let mover = least(links[i].offsets.dom().intersect(asked.dom()));
        assert(links[i].offsets.contains_key(id) && asked.contains_key(id));
        assert(mover == Some(id));
        lemma_expanded_in(links, asked, lights, i, id);
        law_the_mover_keeps_its_value(links[i], id, asked[id]);
    } else {
        lemma_expanded_out(links, asked, lights, id);
    }
}

/// `all` behaves as one device: every lamp outside a gang becomes what the patch
/// makes of the group's state.
pub proof fn law_all_resolves_once_for_everyone(
    world: WorldView,
    patch: StatePatch,
    now: u64,
    id: Seq<char>,
)
    requires
        world.wf(),
        world.group_state() is Some,
        world.lights.contains_key(id),
        !in_gang(world.links, id),
    ensures
        world.drive(
            world.effect(Aim::Select(Choice::All), patch),
            now,
        ).lights[id].desired == patch.applied(world.group_state()->0),
{
    let asked = world.asked(Aim::Select(Choice::All), patch);
    lemma_filed(world, Choice::All, patch);
    lemma_listed(world.lights.dom());
    lemma_expanded_out(world.links, asked, world.lights, id);
}

/// A command without toggles or relative values, addressed to lamps rather than
/// to the group, means the same the second time: the lamps are asked for what
/// they already are. Once the hardware agrees, nothing is owed.
pub proof fn law_a_repeated_command_changes_nothing(
    world: WorldView,
    aim: Aim,
    patch: StatePatch,
    now: u64,
)
    requires
        world.wf(),
        gangs_are_finite(world.links),
        separate(world.links),
        aim != Aim::Select(Choice::All),
        patch.power != Some(Power::Toggle),
        !(patch.brightness matches Some(Adjust::By(_))),
        !(patch.kelvin matches Some(Adjust::By(_))),
    ensures
        ({
            let after = world.drive(world.effect(aim, patch), now);
            &&& after.effect(aim, patch) == world.effect(aim, patch)
            &&& forall|id: Seq<char>| #[trigger]
                after.effect(aim, patch).contains_key(id) && after.lights.contains_key(id)
                    ==> after.effect(aim, patch)[id] == after.lights[id].desired
        }),
{
    let effect = world.effect(aim, patch);
    let asked = world.asked(aim, patch);
    let after = world.drive(effect, now);
    let again = after.asked(aim, patch);
    assert(after.lights.dom() =~= world.lights.dom());
    if let Aim::Select(choice) = aim {
        lemma_filed(world, choice, patch);
        lemma_filed(after, choice, patch);
    }
    assert(again.dom() =~= asked.dom()) by {
        if let Aim::Select(choice) = aim {
            assert(after.addressed(choice) =~= world.addressed(choice));
        }
    }
    assert forall|id: Seq<char>| #[trigger] asked.contains_key(id) implies {
        &&& world.lights.contains_key(id)
        &&& asked[id] == patch.applied(world.lights[id].desired)
        &&& again[id] == patch.applied(after.lights[id].desired)
    } by {}
    // A lamp that nothing overrides is asked for the same again.
    assert forall|id: Seq<char>|
        asked.contains_key(id) && effect.contains_key(id) && effect[id]
            == asked[id] implies #[trigger] again[id] == asked[id] by {
        assert(after.lights[id].desired == effect[id]);
        law_absolute_patch_is_idempotent(patch, world.lights[id].desired);
    }
    let effect_again = expanded(world.links, again, after.lights);
    assert(after.effect(aim, patch) == effect_again);
    assert forall|id: Seq<char>|
        effect_again.contains_key(id) <==> effect.contains_key(id) by {
        lemma_repeated(world, after, asked, again, id);
    }
    assert forall|id: Seq<char>| #[trigger]
        effect_again.contains_key(id) implies effect_again[id] == effect[id] by {
        lemma_repeated(world, after, asked, again, id);
    }
    assert(effect_again =~= effect);
}

proof fn lemma_repeated(
    world: WorldView,
    after: WorldView,
    asked: Map<Seq<char>, LightState>,
    again: Map<Seq<char>, LightState>,
    id: Seq<char>,
)
    requires
        gangs_are_finite(world.links),
        separate(world.links),
        after.lights.dom() == world.lights.dom(),
        again.dom() == asked.dom(),
        forall|id: Seq<char>| #[trigger]
            asked.contains_key(id) ==> world.lights.contains_key(id) && asked[id].valid(),
        forall|id: Seq<char>|
            asked.contains_key(id) && expanded(world.links, asked, world.lights).contains_key(id)
                && expanded(world.links, asked, world.lights)[id] == asked[id]
                ==> #[trigger] again[id] == asked[id],
    ensures
        expanded(world.links, again, after.lights).contains_key(id) <==> expanded(
            world.links,
            asked,
            world.lights,
        ).contains_key(id),
        expanded(world.links, again, after.lights).contains_key(id) ==> expanded(
            world.links,
            again,
            after.lights,
        )[id] == expanded(world.links, asked, world.lights)[id],
{
    let links = world.links;
    let led = exists|i: int|
        0 <= i < links.len() && (#[trigger] links[i]).offsets.contains_key(id) && least(
            links[i].offsets.dom().intersect(asked.dom()),
        ) is Some;
    if led && world.lights.contains_key(id) {
        let i = choose|i: int|
            0 <= i < links.len() && (#[trigger] links[i]).offsets.contains_key(id) && least(
                links[i].offsets.dom().intersect(asked.dom()),
            ) is Some;
        lemma_mover(links[i], asked);
        let mover = least(links[i].offsets.dom().intersect(asked.dom()))->0;
        lemma_expanded_in(links, asked, world.lights, i, id);
        lemma_expanded_in(links, again, after.lights, i, id);
        assert forall|k: int|
            0 <= k < links.len() && (#[trigger] links[k]).offsets.contains_key(
                mover,
            ) implies (least(links[k].offsets.dom().intersect(asked.dom())) == Some(mover)
            || asked.dom() =~= set![mover]) by {
            if k != i {
                assert(links[i].offsets.contains_key(mover));
                if k < i {
                    assert(!(links[k].offsets.contains_key(mover)
                        && links[i].offsets.contains_key(mover)));
                } else {
                    assert(!(links[i].offsets.contains_key(mover)
                        && links[k].offsets.contains_key(mover)));
                }
            }
        }
        lemma_led_lamp(links, asked, world.lights, mover);
        assert(again[mover] == asked[mover]);
    } else if led {
        lemma_expanded_absent(links, asked, world.lights, id);
        lemma_expanded_absent(links, again, after.lights, id);
    } else {
        assert forall|i: int|
            0 <= i < links.len() && (#[trigger] links[i]).offsets.contains_key(id) implies least(
            links[i].offsets.dom().intersect(asked.dom()),
        ) is None by {}
        lemma_expanded_out(links, asked, world.lights, id);
        lemma_expanded_out(links, again, after.lights, id);
        if asked.contains_key(id) {
            assert(again[id] == asked[id]);
        }
    }
}

proof fn lemma_expanded_by_existence(
    links: Seq<LinkView>,
    asked: Map<Seq<char>, LightState>,
    a: Map<Seq<char>, RecordView>,
    b: Map<Seq<char>, RecordView>,
)
    requires
        a.dom() == b.dom(),
    ensures
        expanded(links, asked, a) == expanded(links, asked, b),
    decreases links.len(),
{
    if links.len() > 0 {
        lemma_expanded_by_existence(links.drop_last(), asked, a, b);
    }
}

/// Where everyone is asked for the same, gangs vary only the brightness of it.
proof fn lemma_expanded_alike(
    links: Seq<LinkView>,
    asked: Map<Seq<char>, LightState>,
    lights: Map<Seq<char>, RecordView>,
    state: LightState,
)
    requires
        gangs_are_finite(links),
        state.valid(),
        asked.dom() == lights.dom(),
        forall|id: Seq<char>| #[trigger] asked.contains_key(id) ==> asked[id] == state,
    ensures
        expanded(links, asked, lights).dom() == lights.dom(),
        forall|id: Seq<char>| #[trigger]
            lights.contains_key(id) ==> {
                let value = expanded(links, asked, lights)[id];
                value.valid() && value.on == state.on && value.kelvin == state.kelvin
            },
        links.len() == 0 ==> expanded(links, asked, lights) == asked,
    decreases links.len(),
{
    if links.len() > 0 {
        let short = links.drop_last();
        assert forall|i: int| 0 <= i < short.len() implies (
        #[trigger] short[i]).offsets.dom().finite() by {
            assert(short[i] == links[i]);
        }
        lemma_expanded_alike(short, asked, lights, state);
        let link = links[links.len() - 1];
        assert(link == links.last());
        lemma_mover(link, asked);
        assert(expanded(links, asked, lights).dom() =~= lights.dom());
    }
}

/// A command to everyone that names its brightness, or that meets no gang, means
/// the same the second time too, as long as it holds no toggle and no relative
/// value.
pub proof fn law_a_repeated_command_to_all_changes_nothing(
    world: WorldView,
    patch: StatePatch,
    now: u64,
)
    requires
        world.wf(),
        gangs_are_finite(world.links),
        patch.brightness is Some || world.links.len() == 0,
        patch.power != Some(Power::Toggle),
        !(patch.brightness matches Some(Adjust::By(_))),
        !(patch.kelvin matches Some(Adjust::By(_))),
    ensures
        ({
            let aim = Aim::Select(Choice::All);
            let after = world.drive(world.effect(aim, patch), now);
            &&& after.effect(aim, patch) == world.effect(aim, patch)
            &&& forall|id: Seq<char>| #[trigger]
                after.effect(aim, patch).contains_key(id) && after.lights.contains_key(id)
                    ==> after.effect(aim, patch)[id] == after.lights[id].desired
        }),
{
    let aim = Aim::Select(Choice::All);
    let effect = world.effect(aim, patch);
    let asked = world.asked(aim, patch);
    let after = world.drive(effect, now);
    assert(after.lights.dom() =~= world.lights.dom());
    lemma_filed(world, Choice::All, patch);
    lemma_filed(after, Choice::All, patch);
    lemma_listed(world.lights.dom());
    assert(online_ids(after.lights) =~= online_ids(world.lights));
    let ids = if online_ids(world.lights).len() > 0 {
        online_ids(world.lights)
    } else {
        world.lights.dom()
    };
    vstd::set_lib::lemma_set_subset_finite(world.lights.dom(), ids);
    lemma_listed(ids);
    let states = desires_of(after.lights, ids);
    match world.group_state() {
        Some(base) => {
            let state = patch.applied(base);
            assert(asked.dom() =~= world.lights.dom());
            lemma_expanded_alike(world.links, asked, world.lights, state);
            let dim = LightState {
                brightness: if world.links.len() == 0 {
                    state.brightness
                } else {
                    0
                },
                ..state
            };
            let bright = LightState {
                brightness: if world.links.len() == 0 {
                    state.brightness
                } else {
                    MAX_BRIGHTNESS
                },
                ..state
            };
            assert forall|i: int| 0 <= i < states.len() implies {
                &&& dim.brightness <= (#[trigger] states[i]).brightness <= bright.brightness
                &&& states[i].kelvin == state.kelvin
                &&& states[i].on == state.on
            } by {
                let id = in_order(ids)[i];
                assert(in_order(ids).contains(id));
                assert(world.lights.contains_key(id));
                assert(after.lights[id].desired == effect[id]);
            }
            law_aggregate_stays_between_members(states, dim, bright);
            let again = collapsed(states)->0;
            assert(states[0].on == state.on);
            assert(again.on == state.on);
            assert(patch.applied(again) == state);
            assert(after.asked(aim, patch) =~= asked);
        },
        None => {
            assert(after.group_state() is None);
            assert(after.asked(aim, patch) =~= asked);
        },
    }
    lemma_expanded_by_existence(world.links, asked, world.lights, after.lights);
}

/// A lamp that does not exist is asked for nothing.
proof fn lemma_expanded_absent(
    links: Seq<LinkView>,
    asked: Map<Seq<char>, LightState>,
    lights: Map<Seq<char>, RecordView>,
    id: Seq<char>,
)
    requires
        !lights.contains_key(id),
        !asked.contains_key(id),
    ensures
        !expanded(links, asked, lights).contains_key(id),
    decreases links.len(),
{
    if links.len() > 0 {
        lemma_expanded_absent(links.drop_last(), asked, lights, id);
    }
}

// ---------------------------------------------------------------------------
// What a scene restores
// ---------------------------------------------------------------------------

/// Driving lights moves what they are asked to be, and nothing else about which
/// lights there are.
proof fn lemma_driven_desires(
    lights: Map<Seq<char>, RecordView>,
    values: Map<Seq<char>, LightState>,
    now: u64,
)
    ensures
        driven(lights, values, now).dom() == lights.dom(),
        desires(driven(lights, values, now)) == desires(lights).union_prefer_right(
            values.restrict(lights.dom()),
        ),
{
    assert(driven(lights, values, now).dom() =~= lights.dom());
    assert(desires(driven(lights, values, now)) =~= desires(lights).union_prefer_right(
        values.restrict(lights.dom()),
    ));
}

proof fn lemma_gangs_driven_desires(
    lights: Map<Seq<char>, RecordView>,
    gangs: Seq<GangView>,
    now: u64,
)
    ensures
        gangs_driven(lights, gangs, now).dom() == lights.dom(),
        desires(gangs_driven(lights, gangs, now)) == desires(lights).union_prefer_right(
            gang_values(gangs).restrict(lights.dom()),
        ),
    decreases gangs.len(),
{
    if gangs.len() == 0 {
        assert(desires(lights) =~= desires(lights).union_prefer_right(
            gang_values(gangs).restrict(lights.dom()),
        ));
    } else {
        let before = gangs_driven(lights, gangs.drop_last(), now);
        lemma_gangs_driven_desires(lights, gangs.drop_last(), now);
        lemma_driven_desires(before, gangs.last().values(), now);
        assert(desires(gangs_driven(lights, gangs, now)) =~= desires(lights).union_prefer_right(
            gang_values(gangs).restrict(lights.dom()),
        ));
    }
}

/// Carrying out a plan leaves every lamp at the plan's value for it, or where it
/// was when the plan has none.
pub proof fn law_a_plan_leaves_lamps_at_its_values(world: WorldView, plan: PlanView, now: u64)
    ensures
        world.carried_out(plan, now).lights.dom() == world.lights.dom(),
        desires(world.carried_out(plan, now).lights) == desires(world.lights).union_prefer_right(
            plan.values().restrict(world.lights.dom()),
        ),
{
    let between = gangs_driven(world.lights, plan.form, now);
    lemma_gangs_driven_desires(world.lights, plan.form, now);
    lemma_driven_desires(between, plan.lamps, now);
    assert(desires(world.carried_out(plan, now).lights) =~= desires(
        world.lights,
    ).union_prefer_right(plan.values().restrict(world.lights.dom())));
}

proof fn lemma_untouched_by_gangs(
    lights: Map<Seq<char>, RecordView>,
    gangs: Seq<GangView>,
    now: u64,
    id: Seq<char>,
)
    requires
        lights.contains_key(id),
        forall|g: int| 0 <= g < gangs.len() ==> !(#[trigger] gangs[g]).members.contains(id),
    ensures
        gangs_driven(lights, gangs, now).contains_key(id),
        gangs_driven(lights, gangs, now)[id] == lights[id],
    decreases gangs.len(),
{
    if gangs.len() > 0 {
        let short = gangs.drop_last();
        assert forall|g: int| 0 <= g < short.len() implies !(
        #[trigger] short[g]).members.contains(id) by {
            assert(short[g] == gangs[g]);
        }
        lemma_untouched_by_gangs(lights, short, now, id);
        let last = gangs[gangs.len() - 1];
        assert(!last.members.contains(id));
        assert(!last.members.to_set().contains(id));
        assert(!last.values().contains_key(id));
    }
}

/// Lamps the scene does not name are left entirely alone: not moved, not put
/// into any gang.
pub proof fn law_a_scene_leaves_strangers_alone(
    world: WorldView,
    scene: SceneView,
    now: u64,
    id: Seq<char>,
)
    requires
        separate(world.links),
        world.lights.contains_key(id),
        !scene.named().contains(id),
    ensures
        ({
            let after = world.carried_out(scene.planned(world.lights.dom()), now);
            &&& after.lights.contains_key(id)
            &&& after.lights[id] == world.lights[id]
            &&& in_gang(after.links, id) ==> in_gang(world.links, id)
        }),
{
    let present = world.lights.dom();
    let plan = scene.planned(present);
    let after = world.carried_out(plan, now);
    law_a_plan_stays_within_what_the_scene_names(scene, present, id);
    lemma_untouched_by_gangs(world.lights, plan.form, now, id);
    law_leaving_one_after_another(world.links, plan.detach);
    let kept = all_unlinked(world.links, plan.detach);
    if in_gang(after.links, id) {
        let i = choose|i: int|
            0 <= i < after.links.len() && (#[trigger] after.links[i]).offsets.contains_key(id);
        if i < kept.len() {
            assert(kept[i].offsets.contains_key(id));
            assert(in_gang(kept, id));
        } else {
            let gang = plan.form[i - kept.len()];
            assert(after.links[i] == gang.link());
            assert(!gang.members.contains(id));
            assert(!gang.members.to_set().contains(id));
        }
    }
}

/// No lamp is in two of these gangs.
pub open spec fn tidy_gangs(gangs: Seq<GangView>) -> bool
    decreases gangs.len(),
{
    gangs.len() > 0 ==> {
        &&& tidy_gangs(gangs.drop_last())
        &&& ganged(gangs.drop_last()).disjoint(gangs.last().members.to_set())
    }
}

/// No lamp is named twice by a scene.
pub open spec fn tidy(scene: SceneView) -> bool {
    tidy_gangs(scene.gangs) && ganged(scene.gangs).disjoint(loose(scene.lamps))
}

/// A scene captured while every lamp was in at most one gang names no lamp
/// twice.
pub proof fn law_a_captured_scene_is_tidy(
    states: Map<Seq<char>, LightState>,
    links: Seq<LinkView>,
)
    requires
        states.dom().finite(),
        separate(links),
        forall|i: int| 0 <= i < links.len() ==> storable(#[trigger] links[i]),
    ensures
        tidy(SceneView::captured(states, links)),
{
    lemma_captured_tidy(links, states);
    lemma_captured_lamps(states, links);
}

proof fn lemma_captured_tidy(links: Seq<LinkView>, states: Map<Seq<char>, LightState>)
    requires
        separate(links),
        forall|i: int| 0 <= i < links.len() ==> storable(#[trigger] links[i]),
    ensures
        tidy_gangs(gangs_of(links, states)),
        forall|id: Seq<char>|
            ganged(gangs_of(links, states)).contains(id) ==> #[trigger] in_gang(links, id),
    decreases links.len(),
{
    if links.len() > 0 {
        let short = links.drop_last();
        assert forall|a: int, b: int, x: Seq<char>| 0 <= a < b < short.len() implies !(
        #[trigger] short[a].offsets.contains_key(x) && #[trigger] short[b].offsets.contains_key(
            x,
        )) by {
            assert(short[a] == links[a] && short[b] == links[b]);
        }
        assert forall|i: int| 0 <= i < short.len() implies storable(#[trigger] short[i]) by {
            assert(short[i] == links[i]);
        }
        lemma_captured_tidy(short, states);
        assert forall|id: Seq<char>| in_gang(short, id) implies #[trigger] in_gang(links, id) by {
            let i = choose|i: int|
                0 <= i < short.len() && (#[trigger] short[i]).offsets.contains_key(id);
            assert(links[i].offsets.contains_key(id));
        }
        let link = links[links.len() - 1];
        assert(storable(link));
        let before = gangs_of(short, states);
        if gang_of(link, states) is Some {
            let gang = gang_of(link, states)->0;
            lemma_captured_gang(link, states);
            let after = gangs_of(links, states);
            assert(after.drop_last() =~= before);
            assert forall|id: Seq<char>|
                ganged(before).contains(id) implies !gang.members.to_set().contains(id) by {
                assert(in_gang(short, id));
                let i = choose|i: int|
                    0 <= i < short.len() && (#[trigger] short[i]).offsets.contains_key(id);
                assert(links[i].offsets.contains_key(id));
                assert(!(links[i].offsets.contains_key(id) && links[links.len()
                    - 1].offsets.contains_key(id)));
            }
            assert(ganged(before).disjoint(gang.members.to_set()));
            assert forall|id: Seq<char>| ganged(after).contains(id) implies #[trigger] in_gang(
                links,
                id,
            ) by {
                if gang.members.to_set().contains(id) {
                    assert(links[links.len() - 1].offsets.contains_key(id));
                } else {
                    assert(in_gang(short, id));
                }
            }
        } else {
            assert forall|id: Seq<char>|
                ganged(gangs_of(links, states)).contains(id) implies #[trigger] in_gang(
                links,
                id,
            ) by {
                assert(in_gang(short, id));
            }
        }
    }
}

/// What a tidy scene forms is tidy, and apart from the lamps left over.
proof fn lemma_formed_tidy(gangs: Seq<GangView>, present: Set<Seq<char>>)
    requires
        tidy_gangs(gangs),
    ensures
        tidy_gangs(formed(gangs, present)),
        ganged(formed(gangs, present)).subset_of(ganged(gangs)),
        ganged(formed(gangs, present)).disjoint(survivors(gangs, present).dom()),
        survivors(gangs, present).dom().subset_of(ganged(gangs)),
    decreases gangs.len(),
{
    lemma_formed_within(gangs, present);
    if gangs.len() > 0 {
        let short = gangs.drop_last();
        let last = gangs.last();
        lemma_formed_tidy(short, present);
        lemma_here(last.members, present);
        let before = formed(short, present);
        assert(last.here(present).to_set().subset_of(last.members.to_set())) by {
            assert forall|id: Seq<char>| last.here(present).to_set().contains(
                id,
            ) implies last.members.to_set().contains(id) by {
                assert(last.here(present).contains(id));
            }
        }
        if last.here(present).len() >= 2 {
            let after = formed(gangs, present);
            assert(after.drop_last() =~= before);
            assert(ganged(before).disjoint(last.here(present).to_set()));
            assert(ganged(after).subset_of(ganged(gangs)));
            assert(ganged(after).disjoint(survivors(gangs, present).dom()));
        } else if last.here(present).len() == 1 {
            let only = last.here(present)[0];
            assert(last.here(present).contains(only));
            assert(last.members.to_set().contains(only));
            assert(!ganged(before).contains(only));
            assert(ganged(formed(gangs, present)).disjoint(survivors(gangs, present).dom()));
        }
    }
    assert(survivors(gangs, present).dom().subset_of(ganged(gangs)));
}

/// Carrying out a scene keeps every lamp in at most one gang.
pub proof fn law_a_scene_keeps_lamps_in_one_gang(world: WorldView, scene: SceneView)
    requires
        separate(world.links),
        tidy(scene),
    ensures
        separate(world.replanned(scene.planned(world.lights.dom()))),
{
    let present = world.lights.dom();
    let plan = scene.planned(present);
    let kept = all_unlinked(world.links, plan.detach);
    law_leaving_one_after_another(world.links, plan.detach);
    lemma_formed_tidy(scene.gangs, present);
    lemma_formed_within(scene.gangs, present);
    lemma_links_of_tidy(plan.form);
    let after = world.replanned(plan);
    let made = links_of(plan.form);
    assert forall|i: int, j: int, x: Seq<char>| 0 <= i < j < after.len() implies !(
    #[trigger] after[i].offsets.contains_key(x) && #[trigger] after[j].offsets.contains_key(x)) by {
        if j < kept.len() {
            assert(!(kept[i].offsets.contains_key(x) && kept[j].offsets.contains_key(x)));
        } else if i < kept.len() {
            if after[j].offsets.contains_key(x) {
                let gang = plan.form[j - kept.len()];
                assert(after[j] == gang.link());
                assert(gang.members.to_set().contains(x));
                assert(gang.members.contains(x));
                assert(ganged(scene.gangs).contains(x) && present.contains(x));
                law_every_named_lamp_is_detached(scene, present, x);
                let k = choose|k: int| 0 <= k < plan.detach.len() && plan.detach[k] == x;
                assert(!in_gang(kept, plan.detach[k]));
            }
        } else {
            assert(!(made[i - kept.len()].offsets.contains_key(x) && made[j
                - kept.len()].offsets.contains_key(x)));
        }
    }
}

proof fn lemma_links_of_tidy(gangs: Seq<GangView>)
    requires
        tidy_gangs(gangs),
    ensures
        separate(links_of(gangs)),
        forall|i: int, id: Seq<char>|
            0 <= i < gangs.len() && #[trigger] links_of(gangs)[i].offsets.contains_key(id)
                ==> ganged(gangs).contains(id),
    decreases gangs.len(),
{
    if gangs.len() > 0 {
        let short = gangs.drop_last();
        lemma_links_of_tidy(short);
        let all = links_of(gangs);
        let last = gangs.last();
        assert forall|i: int, id: Seq<char>|
            0 <= i < gangs.len() && #[trigger] all[i].offsets.contains_key(id) implies ganged(
            gangs,
        ).contains(id) by {
            if i < short.len() {
                assert(links_of(short)[i] == all[i]);
                assert(links_of(short)[i].offsets.contains_key(id));
            } else {
                assert(all[i] == last.link());
                assert(last.members.to_set().contains(id));
            }
        }
        assert forall|a: int, b: int, x: Seq<char>| 0 <= a < b < all.len() implies !(
        #[trigger] all[a].offsets.contains_key(x) && #[trigger] all[b].offsets.contains_key(x)) by {
            assert(links_of(short)[a] == all[a]);
            if b < short.len() {
                assert(links_of(short)[b] == all[b]);
                assert(!(links_of(short)[a].offsets.contains_key(x) && links_of(
                    short,
                )[b].offsets.contains_key(x)));
            } else if all[a].offsets.contains_key(x) && all[b].offsets.contains_key(x) {
                assert(links_of(short)[a].offsets.contains_key(x));
                assert(ganged(short).contains(x));
                assert(all[b] == last.link());
                assert(last.members.to_set().contains(x));
            }
        }
    }
}

/// Whether these lights already are what they would be driven to.
spec fn settled(
    states: Map<Seq<char>, LightState>,
    values: Map<Seq<char>, LightState>,
) -> bool {
    forall|id: Seq<char>| #[trigger]
        values.contains_key(id) && states.contains_key(id) ==> states[id] == values[id]
}

/// Driving settled lights announces only empty changes.
proof fn lemma_settled(
    lights: Map<Seq<char>, RecordView>,
    values: Map<Seq<char>, LightState>,
    now: u64,
)
    requires
        settled(desires(lights), values),
        values.dom().finite(),
    ensures
        desires(driven(lights, values, now)) == desires(lights),
        forall|k: int|
            0 <= k < announced(lights, values).len() ==> (#[trigger] announced(
                lights,
                values,
            )[k]).1 == Changed::nothing(),
{
    lemma_driven_desires(lights, values, now);
    assert(desires(driven(lights, values, now)) =~= desires(lights));
    let due = owing(lights, values);
    vstd::set_lib::lemma_set_subset_finite(values.dom(), due);
    lemma_listed(due);
    assert forall|k: int| 0 <= k < announced(lights, values).len() implies (#[trigger] announced(
        lights,
        values,
    )[k]).1 == Changed::nothing() by {
        let id = in_order(due)[k];
        assert(due.contains(id));
        assert(desires(lights).contains_key(id));
    }
}

proof fn lemma_gang_values_finite(gang: GangView)
    ensures
        gang.values().dom().finite(),
        gang.values().dom().subset_of(gang.members.to_set()),
{
    vstd::seq_lib::seq_to_set_is_finite(gang.members);
    assert(gang.values().dom().subset_of(gang.members.to_set()));
    vstd::set_lib::lemma_set_subset_finite(gang.members.to_set(), gang.values().dom());
}

proof fn lemma_gang_values_within(gangs: Seq<GangView>)
    ensures
        gang_values(gangs).dom().subset_of(ganged(gangs)),
    decreases gangs.len(),
{
    if gangs.len() > 0 {
        lemma_gang_values_within(gangs.drop_last());
        lemma_gang_values_finite(gangs.last());
    }
}

/// Driving tidy gangs whose members already stand at their values announces only
/// empty changes.
proof fn lemma_gangs_settled(
    lights: Map<Seq<char>, RecordView>,
    gangs: Seq<GangView>,
    now: u64,
)
    requires
        tidy_gangs(gangs),
        settled(desires(lights), gang_values(gangs)),
    ensures
        desires(gangs_driven(lights, gangs, now)) == desires(lights),
        forall|k: int|
            0 <= k < gangs_announced(lights, gangs, now).len() ==> (#[trigger] gangs_announced(
                lights,
                gangs,
                now,
            )[k]).1 == Changed::nothing(),
    decreases gangs.len(),
{
    if gangs.len() > 0 {
        let short = gangs.drop_last();
        let last = gangs.last();
        lemma_gang_values_within(short);
        lemma_gang_values_finite(last);
        assert forall|id: Seq<char>| #[trigger]
            gang_values(short).contains_key(id) && desires(lights).contains_key(id) implies desires(
            lights,
        )[id] == gang_values(short)[id] by {
            assert(ganged(short).contains(id));
            assert(!last.values().contains_key(id));
            assert(gang_values(gangs).contains_key(id));
        }
        lemma_gangs_settled(lights, short, now);
        let between = gangs_driven(lights, short, now);
        assert forall|id: Seq<char>| #[trigger]
            last.values().contains_key(id) && desires(between).contains_key(id) implies desires(
            between,
        )[id] == last.values()[id] by {
            assert(gang_values(gangs).contains_key(id));
        }
        lemma_settled(between, last.values(), now);
        let earlier = gangs_announced(lights, short, now);
        let later = announced(between, last.values());
        assert forall|k: int|
            0 <= k < gangs_announced(lights, gangs, now).len() implies (
        #[trigger] gangs_announced(lights, gangs, now)[k]).1 == Changed::nothing() by {
            if k < earlier.len() {
                assert(earlier[k].1 == Changed::nothing());
            } else {
                assert(later[k - earlier.len()].1 == Changed::nothing());
            }
        }
    }
}

/// Applying a scene twice changes nothing the second time that a client could
/// see: every change it reports is empty.
pub proof fn law_a_scene_applied_twice_changes_nothing(
    world: WorldView,
    scene: SceneView,
    now: u64,
    later: u64,
)
    requires
        world.lights.dom().finite(),
        tidy(scene),
    ensures
        ({
            let plan = scene.planned(world.lights.dom());
            let after = world.carried_out(plan, now);
            &&& after.lights.dom() == world.lights.dom()
            &&& desires(after.carried_out(plan, later).lights) == desires(after.lights)
            &&& forall|k: int|
                0 <= k < after.plan_announced(plan, later).len() ==> (
                #[trigger] after.plan_announced(plan, later)[k]).1 == Changed::nothing()
        }),
{
    let present = world.lights.dom();
    let plan = scene.planned(present);
    let after = world.carried_out(plan, now);
    law_a_plan_leaves_lamps_at_its_values(world, plan, now);
    lemma_formed_tidy(scene.gangs, present);
    lemma_formed_within(scene.gangs, present);
    lemma_overlaid_within(survivors(scene.gangs, present), scene.lamps, present);
    lemma_gang_values_within(plan.form);
    assert forall|id: Seq<char>| #[trigger]
        gang_values(plan.form).contains_key(id) implies !plan.lamps.contains_key(id) by {
        assert(ganged(plan.form).contains(id));
        assert(ganged(scene.gangs).contains(id));
        assert(!survivors(scene.gangs, present).contains_key(id));
        assert(!loose(scene.lamps).contains(id));
    }
    assert forall|id: Seq<char>| #[trigger]
        gang_values(plan.form).contains_key(id) && desires(after.lights).contains_key(
            id,
        ) implies desires(after.lights)[id] == gang_values(plan.form)[id] by {
        assert(plan.values().contains_key(id));
    }
    lemma_gangs_settled(after.lights, plan.form, later);
    let between = gangs_driven(after.lights, plan.form, later);
    assert forall|id: Seq<char>| #[trigger]
        plan.lamps.contains_key(id) && desires(between).contains_key(id) implies desires(
        between,
    )[id] == plan.lamps[id] by {
        assert(plan.values().contains_key(id));
    }
    assert(plan.lamps.dom().subset_of(present)) by {
        assert forall|id: Seq<char>| plan.lamps.contains_key(id) implies present.contains(id) by {
            assert(overlaid(
                survivors(scene.gangs, present),
                scene.lamps,
                present,
            ).contains_key(id));
            if survivors(scene.gangs, present).contains_key(id) {
                assert(present.contains(id));
            }
        }
    }
    vstd::set_lib::lemma_set_subset_finite(present, plan.lamps.dom());
    lemma_settled(between, plan.lamps, later);
    let first = gangs_announced(after.lights, plan.form, later);
    let second = announced(between, plan.lamps);
    assert forall|k: int| 0 <= k < after.plan_announced(plan, later).len() implies (
    #[trigger] after.plan_announced(plan, later)[k]).1 == Changed::nothing() by {
        if k < first.len() {
            assert(first[k].1 == Changed::nothing());
        } else {
            assert(second[k - first.len()].1 == Changed::nothing());
        }
    }
}

proof fn lemma_unlinked_behind(rest: Seq<LinkView>, more: Seq<LinkView>, id: Seq<char>)
    requires
        !in_gang(rest, id),
    ensures
        unlinked(rest + more, id) == rest + unlinked(more, id),
{
    let both = rest + more;
    let at = gang_index(more, id);
    lemma_gang_index(more, id);
    lemma_gang_index(both, id);
    let found = gang_index(both, id);
    if found < rest.len() {
        assert(rest[found].offsets.contains_key(id));
    }
    if found < rest.len() + at {
        assert(both[found] == more[found - rest.len()]);
    } else if found > rest.len() + at {
        assert(both[rest.len() + at] == more[at]);
    }
    assert(found == rest.len() + at);
    if at < more.len() {
        assert(both.remove(found) =~= rest + more.remove(at));
        let remnant = more[at].without(id);
        assert(both[found] == more[at]);
        assert((rest + more.remove(at)).push(remnant) =~= rest + more.remove(at).push(remnant));
    }
}

proof fn lemma_all_unlinked_behind(
    rest: Seq<LinkView>,
    more: Seq<LinkView>,
    ids: Seq<Seq<char>>,
)
    requires
        forall|i: int| 0 <= i < ids.len() ==> !in_gang(rest, #[trigger] ids[i]),
    ensures
        all_unlinked(rest + more, ids) == rest + all_unlinked(more, ids),
    decreases ids.len(),
{
    if ids.len() > 0 {
        let short = ids.drop_last();
        assert forall|i: int| 0 <= i < short.len() implies !in_gang(rest, #[trigger] short[i]) by {
            assert(short[i] == ids[i]);
        }
        lemma_all_unlinked_behind(rest, more, short);
        assert(!in_gang(rest, ids[ids.len() - 1]));
        lemma_unlinked_behind(rest, all_unlinked(more, short), ids.last());
    }
}

/// A gang has a member.
spec fn has_member(link: LinkView) -> bool {
    exists|id: Seq<char>| link.offsets.contains_key(id)
}

/// Every gang has a member.
spec fn inhabited(links: Seq<LinkView>) -> bool {
    forall|i: int| 0 <= i < links.len() ==> has_member(#[trigger] links[i])
}

proof fn lemma_inhabited(links: Seq<LinkView>, ids: Seq<Seq<char>>)
    requires
        inhabited(links),
    ensures
        inhabited(all_unlinked(links, ids)),
    decreases ids.len(),
{
    if ids.len() > 0 {
        lemma_inhabited(links, ids.drop_last());
        let before = all_unlinked(links, ids.drop_last());
        let id = ids.last();
        let at = gang_index(before, id);
        lemma_gang_index(before, id);
        if at < before.len() {
            let rest = before.remove(at);
            let remnant = before[at].without(id);
            let after = unlinked(before, id);
            assert forall|i: int| 0 <= i < after.len() implies has_member(#[trigger] after[i]) by {
                if i < at {
                    assert(after[i] == before[i]);
                } else if i < rest.len() {
                    assert(after[i] == before[i + 1]);
                } else {
                    assert(after[i] == remnant);
                    if !has_member(remnant) {
                        assert(remnant.offsets.dom() =~= Set::empty());
                    }
                }
            }
        }
    }
}

/// Every member of every gang that a scene remembers has its offset there, as in
/// every scene that was captured.
pub open spec fn complete(scene: SceneView) -> bool {
    forall|i: int, k: int|
        0 <= i < scene.gangs.len() && 0 <= k < scene.gangs[i].members.len()
            ==> scene.gangs[i].offsets.contains_key(#[trigger] scene.gangs[i].members[k])
}

/// A captured scene is complete.
pub proof fn law_a_captured_scene_is_complete(
    states: Map<Seq<char>, LightState>,
    links: Seq<LinkView>,
)
    requires
        forall|i: int| 0 <= i < links.len() ==> storable(#[trigger] links[i]),
    ensures
        complete(SceneView::captured(states, links)),
{
    lemma_gangs_are_complete(states, links);
}

proof fn lemma_gangs_are_complete(states: Map<Seq<char>, LightState>, links: Seq<LinkView>)
    requires
        forall|i: int| 0 <= i < links.len() ==> storable(#[trigger] links[i]),
    ensures
        ({
            let gangs = gangs_of(links, states);
            forall|i: int, k: int|
                0 <= i < gangs.len() && 0 <= k < gangs[i].members.len()
                    ==> gangs[i].offsets.contains_key(#[trigger] gangs[i].members[k])
        }),
    decreases links.len(),
{
    if links.len() > 0 {
        let short = links.drop_last();
        assert forall|i: int| 0 <= i < short.len() implies storable(#[trigger] short[i]) by {
            assert(short[i] == links[i]);
        }
        lemma_gangs_are_complete(states, short);
        let link = links[links.len() - 1];
        assert(link == links.last());
        if let Some(gang) = gang_of(link, states) {
            lemma_captured_gang(link, states);
            assert forall|k: int| 0 <= k < gang.members.len() implies gang.offsets.contains_key(
                #[trigger] gang.members[k],
            ) by {
                assert(gang.members.contains(gang.members[k]));
                assert(gang.members.to_set().contains(gang.members[k]));
            }
            let before = gangs_of(short, states);
            let gangs = gangs_of(links, states);
            assert forall|i: int, k: int|
                0 <= i < gangs.len() && 0 <= k < gangs[i].members.len() implies gangs[
                i
            ].offsets.contains_key(#[trigger] gangs[i].members[k]) by {
                if i < before.len() {
                    assert(gangs[i] == before[i]);
                    assert(before[i].offsets.contains_key(before[i].members[k]));
                } else {
                    assert(gangs[i] == gang);
                }
            }
        }
    }
}

proof fn lemma_formed_gang(gangs: Seq<GangView>, present: Set<Seq<char>>, i: int)
    requires
        0 <= i < formed(gangs, present).len(),
    ensures
        exists|k: int|
            0 <= k < gangs.len() && formed(gangs, present)[i].offsets == (
            #[trigger] gangs[k]).offsets && formed(gangs, present)[i].members == gangs[k].here(
                present,
            ) && gangs[k].here(present).len() >= 2,
    decreases gangs.len(),
{
    if gangs.len() > 0 {
        let short = gangs.drop_last();
        if i < formed(short, present).len() {
            lemma_formed_gang(short, present, i);
            let k = choose|k: int|
                0 <= k < short.len() && formed(short, present)[i].offsets == (
                #[trigger] short[k]).offsets && formed(short, present)[i].members == short[k].here(
                    present,
                ) && short[k].here(present).len() >= 2;
            assert(gangs[k] == short[k]);
        } else {
            assert(gangs[gangs.len() - 1] == gangs.last());
        }
    }
}

/// Applying a scene twice does not stack a duplicate gang: the gangs that stand
/// after the first time stand unchanged after the second.
pub proof fn law_a_scene_applied_twice_stacks_no_gang(
    world: WorldView,
    scene: SceneView,
    now: u64,
    later: u64,
)
    requires
        separate(world.links),
        tidy(scene),
        complete(scene),
    ensures
        ({
            let plan = scene.planned(world.lights.dom());
            let after = world.carried_out(plan, now);
            after.carried_out(plan, later).links == after.links
        }),
{
    let present = world.lights.dom();
    let plan = scene.planned(present);
    let kept = all_unlinked(world.links, plan.detach);
    let made = links_of(plan.form);
    law_leaving_one_after_another(world.links, plan.detach);
    lemma_all_unlinked_behind(kept, made, plan.detach);
    lemma_formed_tidy(scene.gangs, present);
    lemma_formed_within(scene.gangs, present);
    lemma_links_of_tidy(plan.form);
    law_leaving_one_after_another(made, plan.detach);
    assert(inhabited(made)) by {
        assert forall|i: int| 0 <= i < made.len() implies has_member(#[trigger] made[i]) by {
            lemma_formed_gang(scene.gangs, present, i);
            let gang = plan.form[i];
            let k = choose|k: int|
                0 <= k < scene.gangs.len() && plan.form[i].offsets == (
                #[trigger] scene.gangs[k]).offsets && plan.form[i].members
                    == scene.gangs[k].here(present) && scene.gangs[k].here(present).len() >= 2;
            let id = gang.members[0];
            lemma_here(scene.gangs[k].members, present);
            assert(scene.gangs[k].here(present).contains(id));
            assert(scene.gangs[k].members.contains(id));
            let m = choose|m: int|
                0 <= m < scene.gangs[k].members.len() && scene.gangs[k].members[m] == id;
            assert(scene.gangs[k].offsets.contains_key(scene.gangs[k].members[m]));
            assert(made[i] == gang.link());
            assert(gang.members.to_set().contains(id));
            assert(made[i].offsets.contains_key(id));
        }
    }
    lemma_inhabited(made, plan.detach);
    let left = all_unlinked(made, plan.detach);
    if left.len() > 0 {
        assert(has_member(left[0]));
        let id = choose|id: Seq<char>| left[0].offsets.contains_key(id);
        assert(in_gang(left, id));
        assert(in_gang(made, id));
        let i = choose|i: int| 0 <= i < made.len() && (#[trigger] made[i]).offsets.contains_key(id);
        assert(ganged(plan.form).contains(id));
        assert(ganged(scene.gangs).contains(id));
        let gang = plan.form[i];
        assert(gang.members.to_set().contains(id));
        assert(gang.members.contains(id));
        assert(present.contains(id)) by {
            lemma_formed_gang(scene.gangs, present, i);
            let k = choose|k: int|
                0 <= k < scene.gangs.len() && plan.form[i].offsets == (
                #[trigger] scene.gangs[k]).offsets && plan.form[i].members
                    == scene.gangs[k].here(present) && scene.gangs[k].here(present).len() >= 2;
            lemma_here(scene.gangs[k].members, present);
        }
        law_every_named_lamp_is_detached(scene, present, id);
        let k = choose|k: int| 0 <= k < plan.detach.len() && plan.detach[k] == id;
        assert(!in_gang(left, plan.detach[k]));
    }
    assert(left =~= seq![]);
    let after = world.carried_out(plan, now);
    assert(after.links == kept + made);
    assert(after.replanned(plan) =~= kept + made);
}

/// A scene restores the desk it was captured from: whatever was done to the same
/// lamps in between, every lamp is asked for what it was asked for then, and
/// every gang of which two or more lamps were there is there again with those
/// lamps, led by the lamp that led them. A gang that was there whole is the same
/// gang.
pub proof fn law_a_scene_restores_the_desk(then: WorldView, wrecked: WorldView, now: u64)
    requires
        then.lights.dom().finite(),
        wrecked.lights.dom() == then.lights.dom(),
        forall|i: int| 0 <= i < then.links.len() ==> storable(#[trigger] then.links[i]),
        all_in_step(then.links, desires(then.lights)),
    ensures
        ({
            let states = desires(then.lights);
            let scene = SceneView::captured(states, then.links);
            let after = wrecked.carried_out(scene.planned(wrecked.lights.dom()), now);
            &&& desires(after.lights) == states
            &&& forall|i: int|
                0 <= i < then.links.len() && (#[trigger] then.links[i]).known(states).len() >= 2
                    ==> after.links.contains(captured_part(then.links[i], states))
            &&& forall|i: int|
                0 <= i < then.links.len() && (#[trigger] then.links[i]).offsets.dom().len() >= 2
                    && then.links[i].offsets.dom().subset_of(then.lights.dom())
                    ==> after.links.contains(then.links[i])
        }),
{
    let states = desires(then.lights);
    assert(states.dom() =~= then.lights.dom());
    let scene = SceneView::captured(states, then.links);
    let plan = scene.planned(wrecked.lights.dom());
    let after = wrecked.carried_out(plan, now);
    law_a_captured_scene_moves_nothing(states, then.links);
    law_a_plan_leaves_lamps_at_its_values(wrecked, plan, now);
    assert(desires(after.lights) =~= states);
    lemma_gangs_of(then.links, states);
    assert forall|i: int|
        0 <= i < then.links.len() && (#[trigger] then.links[i]).known(states).len()
            >= 2 implies after.links.contains(captured_part(then.links[i], states)) by {
        law_capturing_keeps_the_topology(then.links[i], states);
        lemma_captured_is_among(then.links, states, i);
        let gang = gang_of(then.links[i], states)->0;
        let g = choose|g: int|
            0 <= g < gangs_of(then.links, states).len() && gangs_of(then.links, states)[g] == gang;
        let kept = all_unlinked(wrecked.links, plan.detach);
        assert(after.links[kept.len() + g] == gang.link());
    }
    assert forall|i: int|
        0 <= i < then.links.len() && (#[trigger] then.links[i]).offsets.dom().len() >= 2
            && then.links[i].offsets.dom().subset_of(then.lights.dom()) implies after.links.contains(
        then.links[i],
    ) by {
        assert(then.links[i].known(states) =~= then.links[i].offsets.dom());
        law_capturing_keeps_the_topology(then.links[i], states);
    }
}

/// Every move of a member leaves its gang in step, whichever of its lamps are
/// there, so that a scene captured afterwards restores it exactly.
pub proof fn law_a_moved_gang_is_in_step(
    link: LinkView,
    mover: Seq<char>,
    next: LightState,
    present: Set<Seq<char>>,
)
    requires
        link.wf(),
        link.offsets.dom().finite(),
        link.offsets.contains_key(mover),
    ensures
        in_step(link, link.resolved(mover, next)),
        in_step(link, link.resolved(mover, next).restrict(present)),
{
    let states = link.resolved(mover, next);
    let level = next.brightness - link.offsets[mover];
    assert(link.offsets.contains_key(link.reference));
    assert(stands_at(link, states, level));
    let here = states.restrict(present);
    let known = link.known(here);
    vstd::set_lib::lemma_set_subset_finite(link.offsets.dom(), known);
    lemma_listed(known);
    assert forall|id: Seq<char>| #[trigger] known.contains(id) implies here[id] == link.spread(
        level,
        here[lead(link, here)],
    )[id] by {
        assert(in_order(known).contains(id));
        assert(known.contains(in_order(known)[0]));
    }
    assert(stands_at(link, here, level));
}

proof fn lemma_captured_is_among(
    links: Seq<LinkView>,
    states: Map<Seq<char>, LightState>,
    i: int,
)
    requires
        0 <= i < links.len(),
        gang_of(links[i], states) is Some,
    ensures
        gangs_of(links, states).contains(gang_of(links[i], states)->0),
    decreases links.len(),
{
    let gang = gang_of(links[i], states)->0;
    let short = links.drop_last();
    let all = gangs_of(links, states);
    if i < short.len() {
        assert(short[i] == links[i]);
        lemma_captured_is_among(short, states, i);
        let before = gangs_of(short, states);
        let g = choose|g: int| 0 <= g < before.len() && before[g] == gang;
        assert(all[g] == gang);
    } else {
        assert(all[all.len() - 1] == gang);
    }
}

// ---------------------------------------------------------------------------
// What every change keeps
// ---------------------------------------------------------------------------

/// Every light is asked for something its hardware can do.
pub open spec fn achievable(lights: Map<Seq<char>, RecordView>) -> bool {
    forall|id: Seq<char>| #[trigger] lights.contains_key(id) ==> lights[id].desired.valid()
}

/// Every state in a set of them is one the hardware can take.
pub open spec fn all_valid(values: Map<Seq<char>, LightState>) -> bool {
    forall|id: Seq<char>| #[trigger] values.contains_key(id) ==> values[id].valid()
}

proof fn lemma_spread_is_valid(link: LinkView, level: int, template: LightState)
    requires
        template.valid(),
    ensures
        all_valid(link.spread(level, template)),
{
    let values = link.spread(level, template);
    assert forall|id: Seq<char>| #[trigger] values.contains_key(id) implies values[id].valid() by {}
}

proof fn lemma_expanded_is_valid(
    links: Seq<LinkView>,
    asked: Map<Seq<char>, LightState>,
    lights: Map<Seq<char>, RecordView>,
)
    requires
        all_valid(asked),
        forall|i: int| 0 <= i < links.len() ==> (#[trigger] links[i]).offsets.dom().finite(),
    ensures
        all_valid(expanded(links, asked, lights)),
    decreases links.len(),
{
    if links.len() > 0 {
        let short = links.drop_last();
        assert forall|i: int| 0 <= i < short.len() implies (
        #[trigger] short[i]).offsets.dom().finite() by {
            assert(short[i] == links[i]);
        }
        lemma_expanded_is_valid(short, asked, lights);
        let link = links.last();
        assert(link == links[links.len() - 1]);
        let addressed = link.offsets.dom().intersect(asked.dom());
        lemma_least(addressed);
        match least(addressed) {
            Some(mover) => {
                assert(asked.contains_key(mover));
                lemma_spread_is_valid(
                    link,
                    asked[mover].brightness - link.offsets[mover],
                    asked[mover],
                );
                assert(all_valid(link.resolved(mover, asked[mover])));
            },
            None => {},
        }
    }
}

proof fn lemma_driven_is_achievable(
    lights: Map<Seq<char>, RecordView>,
    values: Map<Seq<char>, LightState>,
    now: u64,
)
    requires
        achievable(lights),
        all_valid(values),
    ensures
        achievable(driven(lights, values, now)),
{
    let after = driven(lights, values, now);
    assert forall|id: Seq<char>| #[trigger] after.contains_key(id) implies after[
        id
    ].desired.valid() by {
        assert(lights.contains_key(id));
        if values.contains_key(id) {
            assert(values[id].valid());
        }
    }
}

/// However extreme a command, a level or a relative adjustment is, no light is
/// ever asked for more than its hardware can do.
pub proof fn law_commands_stay_within_the_hardware(
    world: WorldView,
    aim: Aim,
    patch: StatePatch,
    id: Seq<char>,
    level: i32,
    mode: LinkMode,
    now: u64,
)
    requires
        achievable(world.lights),
        forall|i: int|
            0 <= i < world.links.len() ==> (#[trigger] world.links[i]).offsets.dom().finite(),
    ensures
        achievable(world.drive(world.effect(aim, patch), now).lights),
        achievable(world.drive(world.level_values(id, level as int), now).lights),
        achievable(world.remoded(id, mode, now).lights),
{
    let asked = world.asked(aim, patch);
    if let Aim::Select(choice) = aim {
        lemma_patched(world.lights, in_order(world.addressed(choice)), patch);
    }
    assert(all_valid(asked));
    lemma_expanded_is_valid(world.links, asked, world.lights);
    lemma_driven_is_achievable(world.lights, world.effect(aim, patch), now);
    lemma_gang_index(world.links, id);
    match world.gang(id) {
        Some(link) => {
            assert(link == world.links[gang_index(world.links, id)]);
            let known = link.known(desires(world.lights));
            lemma_least(known);
            match least(known) {
                Some(any) => {
                    assert(world.lights.contains_key(any));
                    lemma_spread_is_valid(link, level as int, world.lights[any].desired);
                },
                None => {},
            }
            let mirrored = link.tracking(mode, desires(world.lights));
            if mode == LinkMode::Mirror && world.lights.contains_key(link.reference) {
                let next = world.lights[link.reference].desired;
                if mirrored.offsets.contains_key(link.reference) {
                    lemma_spread_is_valid(
                        mirrored,
                        next.brightness - mirrored.offsets[link.reference],
                        next,
                    );
                }
            }
            assert(all_valid(world.mode_values(id, mode)));
            lemma_driven_is_achievable(world.lights, world.mode_values(id, mode), now);
        },
        None => {},
    }
    assert(all_valid(world.level_values(id, level as int)));
    lemma_driven_is_achievable(world.lights, world.level_values(id, level as int), now);
}

/// Every value a scene holds is one the hardware can take. A gang's brightness
/// is its level, which is brought into range when the gang is driven.
pub open spec fn scene_in_range(scene: SceneView) -> bool {
    &&& forall|i: int| 0 <= i < scene.gangs.len() ==> (#[trigger] scene.gangs[i]).template().valid()
    &&& forall|i: int| 0 <= i < scene.lamps.len() ==> (#[trigger] scene.lamps[i]).state.valid()
}

proof fn lemma_formed_in_range(gangs: Seq<GangView>, present: Set<Seq<char>>)
    requires
        forall|i: int| 0 <= i < gangs.len() ==> (#[trigger] gangs[i]).template().valid(),
    ensures
        forall|i: int|
            0 <= i < formed(gangs, present).len() ==> (#[trigger] formed(
                gangs,
                present,
            )[i]).template().valid(),
        all_valid(survivors(gangs, present)),
    decreases gangs.len(),
{
    if gangs.len() > 0 {
        let short = gangs.drop_last();
        assert forall|i: int| 0 <= i < short.len() implies (
        #[trigger] short[i]).template().valid() by {
            assert(short[i] == gangs[i]);
        }
        lemma_formed_in_range(short, present);
        assert(gangs[gangs.len() - 1].template().valid());
        let last = gangs.last();
        assert(last.reduced(present).template() == last.template());
        if last.here(present).len() == 1 {
            assert(last.alone(last.here(present)[0]).valid());
        }
        let before = formed(short, present);
        let all = formed(gangs, present);
        assert forall|i: int| 0 <= i < all.len() implies (#[trigger] all[i]).template().valid() by {
            if i < before.len() {
                assert(all[i] == before[i]);
            }
        }
    }
}

proof fn lemma_overlaid_in_range(
    base: Map<Seq<char>, LightState>,
    lamps: Seq<LampView>,
    present: Set<Seq<char>>,
)
    requires
        all_valid(base),
        forall|i: int| 0 <= i < lamps.len() ==> (#[trigger] lamps[i]).state.valid(),
    ensures
        all_valid(overlaid(base, lamps, present)),
    decreases lamps.len(),
{
    if lamps.len() > 0 {
        let short = lamps.drop_last();
        assert forall|i: int| 0 <= i < short.len() implies (#[trigger] short[i]).state.valid() by {
            assert(short[i] == lamps[i]);
        }
        lemma_overlaid_in_range(base, short, present);
        assert(lamps[lamps.len() - 1].state.valid());
    }
}

proof fn lemma_gangs_driven_are_achievable(
    lights: Map<Seq<char>, RecordView>,
    gangs: Seq<GangView>,
    now: u64,
)
    requires
        achievable(lights),
        forall|i: int| 0 <= i < gangs.len() ==> (#[trigger] gangs[i]).template().valid(),
    ensures
        achievable(gangs_driven(lights, gangs, now)),
    decreases gangs.len(),
{
    if gangs.len() > 0 {
        let short = gangs.drop_last();
        assert forall|i: int| 0 <= i < short.len() implies (
        #[trigger] short[i]).template().valid() by {
            assert(short[i] == gangs[i]);
        }
        lemma_gangs_driven_are_achievable(lights, short, now);
        let last = gangs[gangs.len() - 1];
        lemma_spread_is_valid(last.link(), last.level as int, last.template());
        lemma_driven_is_achievable(gangs_driven(lights, short, now), last.values(), now);
    }
}

/// Restoring a scene whose values are in range asks no light for more than its
/// hardware can do, whichever of its lamps are there.
pub proof fn law_a_scene_stays_within_the_hardware(world: WorldView, scene: SceneView, now: u64)
    requires
        achievable(world.lights),
        scene_in_range(scene),
    ensures
        achievable(world.carried_out(scene.planned(world.lights.dom()), now).lights),
{
    let present = world.lights.dom();
    let plan = scene.planned(present);
    lemma_formed_in_range(scene.gangs, present);
    lemma_overlaid_in_range(survivors(scene.gangs, present), scene.lamps, present);
    lemma_gangs_driven_are_achievable(world.lights, plan.form, now);
    lemma_driven_is_achievable(gangs_driven(world.lights, plan.form, now), plan.lamps, now);
}

/// A scene captured from lights that are asked for what their hardware can do
/// holds values in range.
pub proof fn law_a_captured_scene_is_in_range(world: WorldView)
    requires
        achievable(world.lights),
        world.lights.dom().finite(),
        gangs_are_finite(world.links),
    ensures
        scene_in_range(SceneView::captured(desires(world.lights), world.links)),
{
    let states = desires(world.lights);
    let gangs = gangs_of(world.links, states);
    let scene = SceneView::captured(states, world.links);
    lemma_gangs_in_range(world.links, states);
    let rest = states.dom().difference(ganged(gangs));
    vstd::set_lib::lemma_set_subset_finite(world.lights.dom(), rest);
    lemma_listed(rest);
    assert forall|i: int| 0 <= i < scene.lamps.len() implies (
    #[trigger] scene.lamps[i]).state.valid() by {
        assert(rest.contains(in_order(rest)[i]));
        assert(world.lights.contains_key(in_order(rest)[i]));
    }
}

proof fn lemma_gangs_in_range(links: Seq<LinkView>, states: Map<Seq<char>, LightState>)
    requires
        all_valid(states),
        gangs_are_finite(links),
    ensures
        forall|i: int|
            0 <= i < gangs_of(links, states).len() ==> (#[trigger] gangs_of(
                links,
                states,
            )[i]).template().valid(),
    decreases links.len(),
{
    if links.len() > 0 {
        let short = links.drop_last();
        assert forall|i: int| 0 <= i < short.len() implies (
        #[trigger] short[i]).offsets.dom().finite() by {
            assert(short[i] == links[i]);
        }
        lemma_gangs_in_range(short, states);
        let link = links[links.len() - 1];
        let known = link.known(states);
        vstd::set_lib::lemma_set_subset_finite(link.offsets.dom(), known);
        lemma_listed(known);
        if known.len() >= 2 {
            assert(known.contains(in_order(known)[0]));
            assert(states.contains_key(lead(link, states)));
            assert(states[lead(link, states)].valid());
        }
        let before = gangs_of(short, states);
        let all = gangs_of(links, states);
        assert forall|i: int| 0 <= i < all.len() implies (#[trigger] all[i]).template().valid() by {
            if i < before.len() {
                assert(all[i] == before[i]);
            }
        }
    }
}

/// Moving one lamp alone asks no light for more than its hardware can do,
/// however bright the lamp is asked to be.
pub proof fn law_a_lamp_alone_stays_within_the_hardware(
    world: WorldView,
    id: Seq<char>,
    value: u8,
    now: u64,
)
    requires
        achievable(world.lights),
    ensures
        achievable(moved_alone(world, id, value, now).lights),
{
    let after = moved_alone(world, id, value, now).lights;
    assert forall|other: Seq<char>| #[trigger] after.contains_key(other) implies after[
        other
    ].desired.valid() by {
        assert(world.lights.contains_key(other));
    }
}

/// A light that is found starts within what its hardware can do, and one that is
/// found again or lost moves no light.
pub proof fn law_discovery_stays_within_the_hardware(
    world: WorldView,
    found: DiscoveredView,
    id: Seq<char>,
)
    requires
        achievable(world.lights),
    ensures
        achievable(after_found(world, found).lights),
        achievable(after_lost(world, id).lights),
{
    let after = after_found(world, found).lights;
    assert forall|other: Seq<char>| #[trigger] after.contains_key(other) implies after[
        other
    ].desired.valid() by {
        assert(other == found.id || world.lights.contains_key(other));
    }
    assert forall|other: Seq<char>| #[trigger]
        after_lost(world, id).lights.contains_key(other) implies after_lost(world, id).lights[
        other
    ].desired.valid() by {
        assert(world.lights.contains_key(other));
    }
}

proof fn lemma_gangs_driven_are_filed(
    lights: Map<Seq<char>, RecordView>,
    gangs: Seq<GangView>,
    now: u64,
)
    ensures
        gangs_driven(lights, gangs, now).dom() == lights.dom(),
        forall|id: Seq<char>| #[trigger]
            lights.contains_key(id) ==> gangs_driven(lights, gangs, now)[id].id == lights[id].id,
    decreases gangs.len(),
{
    if gangs.len() > 0 {
        lemma_gangs_driven_are_filed(lights, gangs.drop_last(), now);
        assert(gangs_driven(lights, gangs, now).dom() =~= lights.dom());
    }
}

/// Nothing that moves lights, gangs them or restores a scene ever adds or loses
/// a light, and every light stays filed under its own id.
pub proof fn law_lights_stay_filed_under_their_ids(
    world: WorldView,
    values: Map<Seq<char>, LightState>,
    plan: PlanView,
    id: Seq<char>,
    brightness: u8,
    mode: LinkMode,
    now: u64,
)
    requires
        world.wf(),
    ensures
        world.drive(values, now).wf(),
        world.drive(values, now).lights.dom() == world.lights.dom(),
        world.remoded(id, mode, now).wf(),
        world.remoded(id, mode, now).lights.dom() == world.lights.dom(),
        world.respaced(id, brightness).lights == world.lights,
        world.carried_out(plan, now).wf(),
        world.carried_out(plan, now).lights.dom() == world.lights.dom(),
{
    assert(world.drive(values, now).lights.dom() =~= world.lights.dom());
    assert(world.remoded(id, mode, now).lights.dom() =~= world.lights.dom());
    lemma_gangs_driven_are_filed(world.lights, plan.form, now);
    assert(world.carried_out(plan, now).lights.dom() =~= world.lights.dom());
}

// ---------------------------------------------------------------------------
// Gangs, as a hand on the desk feels them
// ---------------------------------------------------------------------------

/// A lamp's gang is the one that holds it, and a lamp in none has none.
pub proof fn law_a_lamps_gang_is_the_one_that_holds_it(world: WorldView, i: int, id: Seq<char>)
    requires
        separate(world.links),
    ensures
        0 <= i < world.links.len() && world.links[i].offsets.contains_key(id) ==> world.gang(id)
            == Some(world.links[i]) && gang_index(world.links, id) == i,
        !in_gang(world.links, id) ==> world.gang(id) is None,
{
    lemma_gang_index(world.links, id);
    let at = gang_index(world.links, id);
    if 0 <= i < world.links.len() && world.links[i].offsets.contains_key(id) {
        assert(at <= i);
        if at < i {
            assert(!(world.links[at].offsets.contains_key(id)
                && world.links[i].offsets.contains_key(id)));
        }
    }
}

/// Driving a gang's level moves brightness and nothing else: each member that
/// exists ends at the level and its own difference, within what the hardware can
/// do, and members that agree on power and temperature keep both. Lamps of other
/// gangs and of none are not touched.
pub proof fn law_a_level_moves_brightness_only(
    world: WorldView,
    i: int,
    id: Seq<char>,
    level: int,
    member: Seq<char>,
    now: u64,
)
    requires
        separate(world.links),
        0 <= i < world.links.len(),
        world.links[i].offsets.dom().finite(),
        world.links[i].offsets.contains_key(id),
        world.lights.contains_key(member),
    ensures
        ({
            let link = world.links[i];
            let before = world.lights[member].desired;
            let after = world.drive(world.level_values(id, level), now).lights[member];
            let sum = level + link.offsets[member];
            &&& link.offsets.contains_key(member) ==> {
                &&& 0 <= sum <= 100 ==> after.desired.brightness == sum
                &&& sum < 0 ==> after.desired.brightness == 0
                &&& sum > 100 ==> after.desired.brightness == 100
                &&& (forall|other: Seq<char>| #[trigger]
                    link.offsets.contains_key(other) && world.lights.contains_key(other)
                        ==> world.lights[other].desired.on == before.on) ==> after.desired.on
                    == before.on
                &&& (forall|other: Seq<char>| #[trigger]
                    link.offsets.contains_key(other) && world.lights.contains_key(other)
                        ==> world.lights[other].desired.kelvin == before.kelvin)
                    ==> after.desired.kelvin == before.kelvin
            }
            &&& !link.offsets.contains_key(member) ==> after == world.lights[member]
        }),
        world.drive(world.level_values(id, level), now).links == world.links,
        world.drive(world.level_values(id, level), now).scenes == world.scenes,
{
    let link = world.links[i];
    law_a_lamps_gang_is_the_one_that_holds_it(world, i, id);
    let known = link.known(desires(world.lights));
    vstd::set_lib::lemma_set_subset_finite(link.offsets.dom(), known);
    lemma_least(known);
    if link.offsets.contains_key(member) {
        assert(known.contains(member));
        let any = least(known)->0;
        assert(link.offsets.contains_key(any) && world.lights.contains_key(any));
    }
}

/// A gang whose members disagree on power or temperature takes those of its
/// alphabetically first member that exists when its level is driven.
pub proof fn law_a_level_settles_a_gang_on_its_first_lamp(
    world: WorldView,
    i: int,
    id: Seq<char>,
    level: int,
    first: Seq<char>,
    member: Seq<char>,
    now: u64,
)
    requires
        separate(world.links),
        0 <= i < world.links.len(),
        world.links[i].offsets.dom().finite(),
        world.links[i].offsets.contains_key(id),
        world.links[i].offsets.contains_key(first),
        world.lights.contains_key(first),
        forall|other: Seq<char>| #[trigger]
            world.links[i].offsets.contains_key(other) && world.lights.contains_key(other) && other
                != first ==> precedes(first, other),
        world.links[i].offsets.contains_key(member),
        world.lights.contains_key(member),
    ensures
        ({
            let after = world.drive(world.level_values(id, level), now).lights[member].desired;
            &&& after.on == world.lights[first].desired.on
            &&& after.kelvin == world.lights[first].desired.kelvin
        }),
{
    let link = world.links[i];
    law_a_lamps_gang_is_the_one_that_holds_it(world, i, id);
    let known = link.known(desires(world.lights));
    vstd::set_lib::lemma_set_subset_finite(link.offsets.dom(), known);
    assert(known.contains(first));
    assert forall|other: Seq<char>| #![auto] known.contains(other) && other
        != first implies precedes(first, other) by {
        assert(link.offsets.contains_key(other));
    }
    lemma_least_is(known, first);
}

/// The level that was set is the level that is read, as long as it leaves some
/// member that exists away from the ends of the range.
pub proof fn law_the_level_set_is_the_level_read_back(
    world: WorldView,
    i: int,
    id: Seq<char>,
    level: i32,
    free: Seq<char>,
    now: u64,
)
    requires
        separate(world.links),
        0 <= i < world.links.len(),
        world.links[i].offsets.dom().finite(),
        world.links[i].offsets.contains_key(id),
        world.links[i].offsets.contains_key(free),
        world.lights.contains_key(free),
        0 < level + world.links[i].offsets[free] < 100,
    ensures
        world.drive(world.level_values(id, level as int), now).level(id) == Some(level),
{
    let link = world.links[i];
    let after = world.drive(world.level_values(id, level as int), now);
    law_a_lamps_gang_is_the_one_that_holds_it(world, i, id);
    law_a_lamps_gang_is_the_one_that_holds_it(after, i, id);
    let states = desires(after.lights);
    law_a_level_moves_brightness_only(world, i, id, level as int, free, now);
    let candidates = link.free(states);
    vstd::set_lib::lemma_set_subset_finite(link.offsets.dom(), candidates);
    lemma_least(candidates);
    assert(candidates.contains(free));
    let first = least(candidates)->0;
    assert(candidates.contains(first));
    law_a_level_moves_brightness_only(world, i, id, level as int, first, now);
    assert forall|other: Seq<char>| #[trigger]
        link.offsets.contains_key(other) && states.contains_key(other) && 0
            < states[other].brightness < 100 && other != first implies precedes(first, other) by {
        assert(candidates.contains(other));
    }
    law_the_level_reads_off_a_free_member(link, states, first);
}

/// A lamp without a gang has no level.
pub proof fn law_a_lamp_on_its_own_has_no_level(world: WorldView, id: Seq<char>, level: int, now: u64)
    requires
        !in_gang(world.links, id),
    ensures
        world.level(id) is None,
        world.drive(world.level_values(id, level), now).lights =~= world.lights,
{
    lemma_gang_index(world.links, id);
}

/// Mirroring a gang makes every member that exists exactly what its reference is,
/// and forgets their differences; tracking offsets again moves no lamp. Either way
/// the other gangs and the lamps outside are as they were.
pub proof fn law_a_gang_snaps_together_and_never_apart(
    world: WorldView,
    i: int,
    id: Seq<char>,
    mode: LinkMode,
    lamp: Seq<char>,
    now: u64,
)
    requires
        separate(world.links),
        0 <= i < world.links.len(),
        world.links[i].wf(),
        world.links[i].offsets.contains_key(id),
        world.lights.contains_key(lamp),
        world.lights.contains_key(world.links[i].reference),
        world.lights[world.links[i].reference].desired.valid(),
    ensures
        ({
            let link = world.links[i];
            let after = world.remoded(id, mode, now);
            let member = link.offsets.contains_key(lamp);
            &&& mode == LinkMode::Mirror && member ==> after.lights[lamp].desired
                == world.lights[link.reference].desired
            &&& mode == LinkMode::Mirror && member ==> after.links[i].offsets[lamp] == 0
            &&& mode == LinkMode::Offset && member ==> after.links[i].offsets[lamp]
                == world.lights[lamp].desired.brightness
                - world.lights[link.reference].desired.brightness
            &&& mode == LinkMode::Offset || !member ==> after.lights[lamp] == world.lights[lamp]
            &&& after.links[i].mode == mode
            &&& after.links[i].reference == link.reference
            &&& after.links[i].offsets.dom() == link.offsets.dom()
            &&& after.links.len() == world.links.len()
            &&& forall|k: int|
                0 <= k < world.links.len() && k != i ==> #[trigger] after.links[k]
                    == world.links[k]
            &&& after.scenes == world.scenes
        }),
{
    let link = world.links[i];
    let states = desires(world.lights);
    law_a_lamps_gang_is_the_one_that_holds_it(world, i, id);
    law_tracking_measures_from_the_reference(link, mode, states, id);
    if link.offsets.contains_key(lamp) {
        law_tracking_measures_from_the_reference(link, mode, states, lamp);
        law_mirroring_snaps_onto_the_reference(link, states, lamp);
    }
}

/// Moving one lamp alone changes that lamp's brightness and no other lamp; its
/// gang keeps every other difference and, where the rest of it stands at one
/// level, learns what the lamp now shows over that level.
pub proof fn law_moving_a_lamp_alone_moves_one_lamp(
    world: WorldView,
    i: int,
    id: Seq<char>,
    value: u8,
    level: int,
    other: Seq<char>,
    now: u64,
)
    requires
        separate(world.links),
        0 <= i < world.links.len(),
        world.links[i].offsets.dom().finite(),
        world.links[i].offsets.contains_key(id),
        world.lights.contains_key(id),
        world.lights.contains_key(other),
    ensures
        ({
            let link = world.links[i];
            let before = world.lights[id].desired;
            let after = moved_alone(world, id, value, now);
            let shown: int = if value > 100 {
                100
            } else {
                value as int
            };
            &&& after.lights[id].desired.brightness == shown
            &&& after.lights[id].desired.on == before.on
            &&& after.lights[id].desired.kelvin == before.kelvin
            &&& other != id ==> after.lights[other] == world.lights[other]
            &&& after.links.len() == world.links.len()
            &&& forall|k: int|
                0 <= k < world.links.len() && k != i ==> #[trigger] after.links[k]
                    == world.links[k]
            &&& after.links[i].offsets.dom() == link.offsets.dom()
            &&& after.links[i].reference == link.reference
            &&& link.offsets.contains_key(other) && other != id ==> after.links[i].offsets[other]
                == link.offsets[other] && after.links[i].mode == LinkMode::Offset
            &&& after.scenes == world.scenes
            &&& (link.offsets.contains_key(other) && other != id && i32::MIN <= shown - level
                <= i32::MAX && forall|lamp: Seq<char>| #[trigger]
                link.offsets.contains_key(lamp) && world.lights.contains_key(lamp) && lamp != id
                    ==> world.lights[lamp].desired.brightness == level + link.offsets[lamp])
                ==> after.links[i].offsets[id] == shown - level
        }),
{
    let link = world.links[i];
    let shown = valid_brightness(value as int) as u8;
    let moved = WorldView {
        lights: world.lights.insert(
            id,
            world.lights[id].driven(crate::dbus::alone(world.lights[id], value), now),
        ),
        ..world
    };
    law_a_lamps_gang_is_the_one_that_holds_it(moved, i, id);
    let others = desires(moved.lights).remove(id);
    law_relearning_changes_one_difference(link, id, shown, others, other);
    if link.offsets.contains_key(other) && other != id {
        assert(link.offsets.contains_key(other) && others.contains_key(other) && other != id);
    }
    if link.relearned(id, shown, others) is Some && i32::MIN <= shown - level <= i32::MAX && (
    forall|lamp: Seq<char>| #[trigger]
        link.offsets.contains_key(lamp) && world.lights.contains_key(lamp) && lamp != id
            ==> world.lights[lamp].desired.brightness == level + link.offsets[lamp]) {
        assert forall|lamp: Seq<char>| #[trigger]
            link.offsets.contains_key(lamp) && others.contains_key(lamp) && lamp
                != id implies others[lamp].brightness == level + link.offsets[lamp] by {
            assert(world.lights.contains_key(lamp));
        }
        law_relearning_measures_from_the_level(link, id, shown, others, level);
    }
}

/// Leaving a gang of three or more leaves a gang of the others, each at its own
/// difference; leaving a gang of two dissolves it. Every other gang stays.
pub proof fn law_leaving_keeps_the_rest_together(links: Seq<LinkView>, i: int, k: int, id: Seq<char>)
    requires
        separate(links),
        0 <= i < links.len(),
        links[i].offsets.contains_key(id),
        0 <= k < links.len(),
        k != i,
    ensures
        unlinked(links, id).contains(links[k]),
        links[i].offsets.dom().remove(id).len() >= 2 ==> unlinked(links, id).contains(
            links[i].without(id),
        ) && unlinked(links, id).len() == links.len(),
        links[i].offsets.dom().remove(id).len() < 2 ==> unlinked(links, id).len() == links.len()
            - 1,
{
    let world = WorldView { links, ..WorldView::blank() };
    law_a_lamps_gang_is_the_one_that_holds_it(world, i, id);
    let rest = links.remove(i);
    let after = unlinked(links, id);
    assert(links[i].without(id).offsets.dom() =~= links[i].offsets.dom().remove(id));
    let at = if k < i {
        k
    } else {
        k - 1
    };
    assert(rest[at] == links[k]);
    assert(after[at] == links[k]);
    if links[i].offsets.dom().remove(id).len() >= 2 {
        assert(after[rest.len() as int] == links[i].without(id));
    }
}

/// A lamp in no gang has none to leave.
pub proof fn law_a_lamp_on_its_own_leaves_nothing(links: Seq<LinkView>, id: Seq<char>)
    requires
        !in_gang(links, id),
    ensures
        unlinked(links, id) == links,
{
    lemma_gang_index(links, id);
}

// ---------------------------------------------------------------------------
// Commands, as a hand on the desk feels them
// ---------------------------------------------------------------------------

/// A lamp that a selector matches and that is in no gang becomes what the patch
/// makes of that lamp; one that it does not match stays as it is.
pub proof fn law_a_selector_resolves_against_each_lamp(
    world: WorldView,
    pattern: Seq<char>,
    patch: StatePatch,
    now: u64,
    id: Seq<char>,
)
    requires
        world.wf(),
        world.lights.contains_key(id),
        !in_gang(world.links, id),
    ensures
        ({
            let choice = Choice::Pattern(pattern);
            let before = world.lights[id];
            let after = world.drive(world.effect(Aim::Select(choice), patch), now).lights[id];
            &&& choice.addresses(id, before.name) ==> after.desired == patch.applied(before.desired)
            &&& !choice.addresses(id, before.name) ==> after == before
        }),
{
    let choice = Choice::Pattern(pattern);
    let asked = world.asked(Aim::Select(choice), patch);
    lemma_filed(world, choice, patch);
    lemma_expanded_out(world.links, asked, world.lights, id);
}

/// A selector that matches members of a gang moves the gang as one: the first
/// member it matches becomes what the patch makes of it, and every other member
/// that exists follows it, matched or not. A gang that it does not match stays.
pub proof fn law_a_selector_moves_a_gang_by_its_first_match(
    world: WorldView,
    pattern: Seq<char>,
    patch: StatePatch,
    now: u64,
    i: int,
    first: Seq<char>,
    id: Seq<char>,
)
    requires
        world.wf(),
        separate(world.links),
        gangs_are_finite(world.links),
        0 <= i < world.links.len(),
        world.links[i].offsets.contains_key(first),
        world.links[i].offsets.contains_key(id),
        world.lights.contains_key(first),
        world.lights.contains_key(id),
    ensures
        ({
            let choice = Choice::Pattern(pattern);
            let link = world.links[i];
            let hit = |lamp: Seq<char>|
                world.lights.contains_key(lamp) && choice.addresses(lamp, world.lights[lamp].name);
            let after = world.drive(world.effect(Aim::Select(choice), patch), now).lights;
            let next = patch.applied(world.lights[first].desired);
            let place = next.brightness + link.offsets[id] - link.offsets[first];
            &&& (hit(first) && forall|lamp: Seq<char>| #[trigger]
                link.offsets.contains_key(lamp) && hit(lamp) && lamp != first ==> precedes(
                    first,
                    lamp,
                )) ==> {
                &&& after[first].desired == next
                &&& after[id].desired.on == next.on
                &&& after[id].desired.kelvin == next.kelvin
                &&& 0 <= place <= 100 ==> after[id].desired.brightness == place
                &&& place < 0 ==> after[id].desired.brightness == 0
                &&& place > 100 ==> after[id].desired.brightness == 100
            }
            &&& (forall|lamp: Seq<char>| #[trigger]
                link.offsets.contains_key(lamp) ==> !hit(lamp)) ==> after[id] == world.lights[id]
        }),
{
    let choice = Choice::Pattern(pattern);
    let link = world.links[i];
    let hit = |lamp: Seq<char>|
        world.lights.contains_key(lamp) && choice.addresses(lamp, world.lights[lamp].name);
    let asked = world.asked(Aim::Select(choice), patch);
    lemma_filed(world, choice, patch);
    let both = link.offsets.dom().intersect(asked.dom());
    assert forall|lamp: Seq<char>| #[trigger] both.contains(lamp) <==> link.offsets.contains_key(
        lamp,
    ) && hit(lamp) by {}
    vstd::set_lib::lemma_set_subset_finite(link.offsets.dom(), both);
    if hit(first) && forall|lamp: Seq<char>| #[trigger]
        link.offsets.contains_key(lamp) && hit(lamp) && lamp != first ==> precedes(first, lamp) {
        assert(both.contains(first));
        assert forall|lamp: Seq<char>| #![auto] both.contains(lamp) && lamp
            != first implies precedes(first, lamp) by {
            assert(link.offsets.contains_key(lamp));
        }
        lemma_least_is(both, first);
        lemma_expanded_in(world.links, asked, world.lights, i, id);
        lemma_expanded_in(world.links, asked, world.lights, i, first);
        law_the_mover_keeps_its_value(link, first, asked[first]);
        law_every_member_follows_the_mover(link, first, asked[first], id);
        law_temperature_and_power_mirror(link, first, asked[first]);
    }
    if forall|lamp: Seq<char>| #[trigger] link.offsets.contains_key(lamp) ==> !hit(lamp) {
        assert(!asked.contains_key(id));
        assert forall|n: int, other: Seq<char>|
            0 <= n < world.links.len() && world.links[n].offsets.contains_key(id)
                && #[trigger] world.links[n].offsets.contains_key(other) implies !asked.contains_key(
            other,
        ) by {
            if n != i {
                assert(world.links[i].offsets.contains_key(id));
            }
            assert(link.offsets.contains_key(other));
        }
        law_only_the_addressed_and_their_gangs_move(world, Aim::Select(choice), patch, now, id);
    }
}

/// A lamp named by its id moves its gang with it, and a lamp of no gang in which
/// it is stays as it is.
pub proof fn law_a_lamp_takes_its_gang_along(
    world: WorldView,
    id: Seq<char>,
    patch: StatePatch,
    now: u64,
    i: int,
    other: Seq<char>,
)
    requires
        separate(world.links),
        gangs_are_finite(world.links),
        0 <= i < world.links.len(),
        world.links[i].offsets.contains_key(id),
        world.lights.contains_key(id),
        world.lights.contains_key(other),
    ensures
        ({
            let link = world.links[i];
            let next = patch.applied(world.lights[id].desired);
            let after = world.drive(world.effect(Aim::Id(id), patch), now).lights[other];
            let place = next.brightness + link.offsets[other] - link.offsets[id];
            &&& link.offsets.contains_key(other) ==> {
                &&& after.desired.on == next.on
                &&& after.desired.kelvin == next.kelvin
                &&& 0 <= place <= 100 ==> after.desired.brightness == place
                &&& place < 0 ==> after.desired.brightness == 0
                &&& place > 100 ==> after.desired.brightness == 100
            }
            &&& !link.offsets.contains_key(other) ==> after == world.lights[other]
        }),
{
    let link = world.links[i];
    let asked = world.asked(Aim::Id(id), patch);
    let both = link.offsets.dom().intersect(asked.dom());
    assert(both =~= set![id]);
    lemma_least_is(both, id);
    if link.offsets.contains_key(other) {
        lemma_expanded_in(world.links, asked, world.lights, i, other);
        law_every_member_follows_the_mover(link, id, asked[id], other);
        law_temperature_and_power_mirror(link, id, asked[id]);
    } else {
        assert forall|n: int, lamp: Seq<char>|
            0 <= n < world.links.len() && world.links[n].offsets.contains_key(other)
                && #[trigger] world.links[n].offsets.contains_key(lamp) implies !asked.contains_key(
            lamp,
        ) by {
            if lamp == id && n != i {
                assert(world.links[i].offsets.contains_key(id));
                assert(world.links[n].offsets.contains_key(id));
            }
        }
        law_only_the_addressed_and_their_gangs_move(world, Aim::Id(id), patch, now, other);
    }
}

/// A command for a lamp that does not exist does nothing.
pub proof fn law_an_unknown_lamp_moves_nothing(
    world: WorldView,
    id: Seq<char>,
    patch: StatePatch,
    now: u64,
    other: Seq<char>,
)
    requires
        gangs_are_finite(world.links),
        !world.lights.contains_key(id),
        world.lights.contains_key(other),
    ensures
        world.drive(world.effect(Aim::Id(id), patch), now).lights[other] == world.lights[other],
{
    law_only_the_addressed_and_their_gangs_move(world, Aim::Id(id), patch, now, other);
}

/// A command to everyone moves each gang by its first lamp that exists, which
/// becomes what the patch makes of the group's state.
pub proof fn law_all_moves_a_gang_by_its_first_lamp(
    world: WorldView,
    patch: StatePatch,
    now: u64,
    i: int,
    first: Seq<char>,
    id: Seq<char>,
)
    requires
        world.wf(),
        separate(world.links),
        gangs_are_finite(world.links),
        world.group_state() is Some,
        0 <= i < world.links.len(),
        world.links[i].offsets.contains_key(first),
        world.links[i].offsets.contains_key(id),
        world.lights.contains_key(first),
        world.lights.contains_key(id),
        forall|lamp: Seq<char>| #[trigger]
            world.links[i].offsets.contains_key(lamp) && world.lights.contains_key(lamp) && lamp
                != first ==> precedes(first, lamp),
    ensures
        ({
            let link = world.links[i];
            let after = world.drive(world.effect(Aim::Select(Choice::All), patch), now).lights;
            let next = patch.applied(world.group_state()->0);
            let place = next.brightness + link.offsets[id] - link.offsets[first];
            &&& after[first].desired == next
            &&& after[id].desired.on == next.on
            &&& after[id].desired.kelvin == next.kelvin
            &&& 0 <= place <= 100 ==> after[id].desired.brightness == place
            &&& place < 0 ==> after[id].desired.brightness == 0
            &&& place > 100 ==> after[id].desired.brightness == 100
        }),
{
    let link = world.links[i];
    let asked = world.asked(Aim::Select(Choice::All), patch);
    lemma_filed(world, Choice::All, patch);
    lemma_listed(world.lights.dom());
    let both = link.offsets.dom().intersect(asked.dom());
    vstd::set_lib::lemma_set_subset_finite(link.offsets.dom(), both);
    assert(both.contains(first));
    assert forall|lamp: Seq<char>| #![auto] both.contains(lamp) && lamp
        != first implies precedes(first, lamp) by {
        assert(link.offsets.contains_key(lamp));
    }
    lemma_least_is(both, first);
    lemma_expanded_in(world.links, asked, world.lights, i, id);
    lemma_expanded_in(world.links, asked, world.lights, i, first);
    law_the_mover_keeps_its_value(link, first, asked[first]);
    law_every_member_follows_the_mover(link, first, asked[first], id);
    law_temperature_and_power_mirror(link, first, asked[first]);
}

/// The group is the lights that can be reached, or all of them while none can: it
/// is on when each of those is, and lies between any bounds that they lie between.
/// Lights that cannot be reached do not count beside one that can.
pub proof fn law_the_group_is_what_can_be_reached(
    world: WorldView,
    low: LightState,
    high: LightState,
)
    requires
        world.lights.dom().finite(),
        0 < world.lights.dom().len() <= u32::MAX,
        low.valid(),
        high.valid(),
    ensures
        world.group_state() is Some,
        ({
            let group = world.group_state()->0;
            let reached = exists|id: Seq<char>| #[trigger]
                world.lights.contains_key(id) && world.lights[id].reported is Some;
            let counts = |id: Seq<char>|
                world.lights.contains_key(id) && (!reached || world.lights[id].reported is Some);
            &&& group.on <==> forall|id: Seq<char>| #[trigger]
                world.lights.contains_key(id) && counts(id) ==> world.lights[id].desired.on
            &&& (forall|id: Seq<char>| #[trigger]
                world.lights.contains_key(id) && counts(id) ==> low.brightness
                    <= world.lights[id].desired.brightness <= high.brightness && low.kelvin
                    <= world.lights[id].desired.kelvin <= high.kelvin) ==> low.brightness
                <= group.brightness <= high.brightness && low.kelvin <= group.kelvin
                <= high.kelvin
        }),
{
    let online = online_ids(world.lights);
    vstd::set_lib::lemma_set_subset_finite(world.lights.dom(), online);
    vstd::set_lib::lemma_len_subset(online, world.lights.dom());
    lemma_listed(online);
    lemma_listed(world.lights.dom());
    let reached = exists|id: Seq<char>| #[trigger]
        world.lights.contains_key(id) && world.lights[id].reported is Some;
    let counts = |id: Seq<char>|
        world.lights.contains_key(id) && (!reached || world.lights[id].reported is Some);
    if reached {
        let id = choose|id: Seq<char>| #[trigger]
            world.lights.contains_key(id) && world.lights[id].reported is Some;
        assert(online.contains(id));
        assert(online.len() > 0) by {
            if online.len() == 0 {
                assert(online =~= Set::empty());
            }
        }
    } else {
        assert(online =~= Set::empty()) by {
            assert forall|id: Seq<char>| !online.contains(id) by {
                if online.contains(id) {
                    assert(world.lights.contains_key(id));
                }
            }
        }
    }
    let ids = if online.len() > 0 {
        online
    } else {
        world.lights.dom()
    };
    assert forall|id: Seq<char>| #[trigger] ids.contains(id) <==> counts(id) by {
        assert(online.contains(id) <==> world.lights.contains_key(id)
            && world.lights[id].reported is Some);
    }
    let order = in_order(ids);
    let states = desires_of(world.lights, ids);
    assert(states.len() == ids.len());
    let group = collapsed(states)->0;
    assert(collapsed(states) is Some);
    assert(group.on <==> forall|id: Seq<char>| #[trigger]
        world.lights.contains_key(id) && counts(id) ==> world.lights[id].desired.on) by {
        if group.on {
            assert forall|id: Seq<char>| #[trigger]
                world.lights.contains_key(id) && counts(
                    id,
                ) implies world.lights[id].desired.on by {
                assert(order.contains(id));
                let k = choose|k: int| 0 <= k < order.len() && order[k] == id;
                assert(states[k].on);
            }
        } else {
            let k = choose|k: int| 0 <= k < states.len() && !(#[trigger] states[k]).on;
            assert(order.contains(order[k]));
            assert(world.lights.contains_key(order[k]) && counts(order[k]));
        }
    }
    if forall|id: Seq<char>| #[trigger]
        world.lights.contains_key(id) && counts(id) ==> low.brightness
            <= world.lights[id].desired.brightness <= high.brightness && low.kelvin
            <= world.lights[id].desired.kelvin <= high.kelvin {
        assert forall|k: int| 0 <= k < states.len() implies low.brightness <= (
        #[trigger] states[k]).brightness <= high.brightness && low.kelvin <= states[k].kelvin
            <= high.kelvin by {
            assert(order.contains(order[k]));
            assert(world.lights.contains_key(order[k]) && counts(order[k]));
        }
        law_aggregate_stays_between_members(states, low, high);
    }
}

/// The group's state is the average over the lights that can be reached, each
/// counted once, or over all of them while none can.
pub proof fn law_the_group_averages_each_light_once(world: WorldView)
    requires
        world.lights.dom().finite(),
        0 < world.lights.dom().len() <= u32::MAX,
        achievable(world.lights),
    ensures
        ({
            let reached = world.lights.dom().filter(
                |id: Seq<char>| world.lights[id].reported is Some,
            );
            let counted = in_order(
                if reached.len() > 0 {
                    reached
                } else {
                    world.lights.dom()
                },
            );
            let n = counted.len() as int;
            let dims = total(
                counted.map_values(|id: Seq<char>| world.lights[id].desired.brightness as int),
            );
            let warms = total(
                counted.map_values(|id: Seq<char>| world.lights[id].desired.kelvin as int),
            );
            world.group_state() matches Some(group) && {
                &&& n > 0
                &&& 2 * (group.brightness * n - dims) <= n
                &&& 2 * (dims - group.brightness * n) <= n
                &&& 2 * (group.kelvin * n - warms) <= n
                &&& 2 * (warms - group.kelvin * n) <= n
            }
        }),
{
    let reached = world.lights.dom().filter(|id: Seq<char>| world.lights[id].reported is Some);
    assert(online_ids(world.lights) =~= reached);
    let ids = if reached.len() > 0 {
        reached
    } else {
        world.lights.dom()
    };
    vstd::set_lib::lemma_set_subset_finite(world.lights.dom(), ids);
    vstd::set_lib::lemma_len_subset(ids, world.lights.dom());
    lemma_listed(ids);
    let counted = in_order(ids);
    let states = desires_of(world.lights, ids);
    assert forall|k: int| 0 <= k < states.len() implies (#[trigger] states[k]).valid() by {
        assert(ids.contains(counted[k]));
        assert(world.lights.contains_key(counted[k]));
    }
    law_the_group_is_the_average_of_all_its_members(states);
    assert(states.map_values(|state: LightState| state.brightness as int)
        =~= counted.map_values(|id: Seq<char>| world.lights[id].desired.brightness as int));
    assert(states.map_values(|state: LightState| state.kelvin as int) =~= counted.map_values(
        |id: Seq<char>| world.lights[id].desired.kelvin as int,
    ));
}

/// Driving lights asks each of them for its own value and leaves every other
/// light, every gang and every scene as it was.
pub proof fn law_driving_touches_only_what_is_asked(
    world: WorldView,
    values: Map<Seq<char>, LightState>,
    now: u64,
    id: Seq<char>,
)
    ensures
        ({
            let after = world.drive(values, now);
            &&& after.lights.contains_key(id) <==> world.lights.contains_key(id)
            &&& world.lights.contains_key(id) && values.contains_key(id)
                ==> after.lights[id].desired == values[id]
            &&& world.lights.contains_key(id) && !values.contains_key(id) ==> after.lights[id]
                == world.lights[id]
            &&& after.links == world.links
            &&& after.scenes == world.scenes
        }),
{
}

/// What driving lights announces: exactly the lights that owe a push for it, each
/// once and in order, with the fields that move.
pub proof fn law_what_is_driven_is_announced(
    lights: Map<Seq<char>, RecordView>,
    values: Map<Seq<char>, LightState>,
    id: Seq<char>,
)
    requires
        lights.dom().finite(),
    ensures
        (exists|k: int|
            0 <= k < announced(lights, values).len() && (#[trigger] announced(lights, values)[k]).0
                == id) <==> lights.contains_key(id) && values.contains_key(id) && !(
        lights[id].desired == values[id] && lights[id].reported == Some(values[id])),
        forall|k: int|
            0 <= k < announced(lights, values).len() && (#[trigger] announced(lights, values)[k]).0
                == id ==> {
                let changed = announced(lights, values)[k].1;
                &&& changed.on <==> lights[id].desired.on != values[id].on
                &&& changed.brightness <==> lights[id].desired.brightness != values[id].brightness
                &&& changed.kelvin <==> lights[id].desired.kelvin != values[id].kelvin
                &&& !changed.meta && !changed.online && !changed.error
            },
        forall|j: int, k: int|
            0 <= j < k < announced(lights, values).len() ==> precedes(
                (#[trigger] announced(lights, values)[j]).0,
                (#[trigger] announced(lights, values)[k]).0,
            ),
{
    let owed = owing(lights, values);
    let order = in_order(owed);
    let all = announced(lights, values);
    assert(owed.subset_of(lights.dom()));
    vstd::set_lib::lemma_set_subset_finite(lights.dom(), owed);
    lemma_listed(owed);
    if owed.contains(id) {
        assert(order.contains(id));
        let k = choose|k: int| 0 <= k < order.len() && order[k] == id;
        assert(all[k].0 == id);
    }
    assert forall|k: int| 0 <= k < all.len() && (#[trigger] all[k]).0 == id implies owed.contains(
        id,
    ) by {
        assert(owed.contains(order[k]));
    }
    assert forall|j: int, k: int| 0 <= j < k < all.len() implies precedes(
        (#[trigger] all[j]).0,
        (#[trigger] all[k]).0,
    ) by {
        assert(precedes(order[j], order[k]));
    }
}

/// The group's own news: its power, brightness and temperature as clients see
/// them, a group without a state reading as a light that was never heard, and how
/// many of its lights can be reached.
pub proof fn law_the_group_announces_what_moved(before: GroupSnapshot, after: GroupSnapshot)
    ensures
        ({
            let changed = GroupSnapshot::difference(before, after);
            let seen = |snapshot: GroupSnapshot|
                match snapshot.state {
                    Some(state) => state,
                    None => LightState { on: false, brightness: 20, kelvin: 4000 },
                };
            &&& changed.on <==> seen(before).on != seen(after).on
            &&& changed.brightness <==> seen(before).brightness != seen(after).brightness
            &&& changed.kelvin <==> seen(before).kelvin != seen(after).kelvin
            &&& changed.online <==> before.online != after.online
            &&& !changed.meta && !changed.error
        }),
{
}

/// A snapshot of the group holds its state, how many lights can be reached and
/// how many there are.
pub proof fn law_a_snapshot_counts_the_lights(world: WorldView)
    requires
        world.lights.dom().finite(),
        world.lights.dom().len() <= usize::MAX,
    ensures
        GroupSnapshot::taken(world).state == world.group_state(),
        GroupSnapshot::taken(world).members == world.lights.dom().len(),
        GroupSnapshot::taken(world).online == world.lights.dom().filter(
            |id: Seq<char>| world.lights[id].reported is Some,
        ).len(),
{
    let reached = world.lights.dom().filter(|id: Seq<char>| world.lights[id].reported is Some);
    assert(online_ids(world.lights) =~= reached);
    vstd::set_lib::lemma_len_subset(reached, world.lights.dom());
}

/// What a selector selects is what it matches, by id and name, each light once and
/// in order.
pub proof fn law_a_selector_selects_what_it_matches(world: WorldView, choice: Choice, id: Seq<char>)
    requires
        world.wf(),
    ensures
        world.selected(choice).contains(id) <==> world.lights.contains_key(id) && choice.addresses(
            id,
            world.lights[id].name,
        ),
        world.selected(choice).no_duplicates(),
        forall|j: int, k: int|
            0 <= j < k < world.selected(choice).len() ==> precedes(
                #[trigger] world.selected(choice)[j],
                #[trigger] world.selected(choice)[k],
            ),
{
    lemma_filed(world, choice, StatePatch::nothing());
    lemma_listed(world.addressed(choice));
}

// ---------------------------------------------------------------------------
// Scenes, whatever has become of the desk
// ---------------------------------------------------------------------------

/// A scene restores what is left of the desk it was captured from, whichever
/// lamps have gone or come since: every lamp that was captured and is there is
/// asked for what it was asked for then, a lamp that came later is not touched,
/// and every gang of which two or more lamps are there is there again with those
/// lamps and their differences.
pub proof fn law_a_scene_restores_whatever_is_there(
    then: WorldView,
    wrecked: WorldView,
    now: u64,
    id: Seq<char>,
    i: int,
)
    requires
        then.lights.dom().finite(),
        forall|k: int| 0 <= k < then.links.len() ==> storable(#[trigger] then.links[k]),
        all_in_step(then.links, desires(then.lights)),
        wrecked.lights.contains_key(id),
        0 <= i < then.links.len(),
    ensures
        ({
            let scene = SceneView::captured(desires(then.lights), then.links);
            let after = wrecked.carried_out(scene.planned(wrecked.lights.dom()), now);
            let there = then.links[i].offsets.dom().intersect(then.lights.dom()).intersect(
                wrecked.lights.dom(),
            );
            &&& after.lights.dom() == wrecked.lights.dom()
            &&& then.lights.contains_key(id) ==> after.lights[id].desired
                == then.lights[id].desired
            &&& !then.lights.contains_key(id) ==> after.lights[id].desired
                == wrecked.lights[id].desired
            &&& there.len() >= 2 ==> after.links.contains(
                LinkView {
                    mode: then.links[i].mode,
                    reference: if there.contains(then.links[i].reference) {
                        then.links[i].reference
                    } else {
                        least(there)->0
                    },
                    offsets: then.links[i].offsets.restrict(there),
                },
            )
            &&& after.scenes == wrecked.scenes
        }),
{
    let states = desires(then.lights);
    assert(states.dom() =~= then.lights.dom());
    let present = wrecked.lights.dom();
    let scene = SceneView::captured(states, then.links);
    let plan = scene.planned(present);
    let after = wrecked.carried_out(plan, now);
    law_a_plan_leaves_lamps_at_its_values(wrecked, plan, now);
    law_a_scene_puts_back_whatever_is_there(states, then.links, present, id);
    assert(desires(after.lights)[id] == after.lights[id].desired);
    let there = then.links[i].offsets.dom().intersect(states.dom()).intersect(present);
    if there.len() >= 2 {
        law_a_scene_forms_what_is_there_of_a_gang(states, then.links, present, i);
        let g = choose|g: int|
            0 <= g < plan.form.len() && (#[trigger] plan.form[g]).link() == (LinkView {
                mode: then.links[i].mode,
                reference: if there.contains(then.links[i].reference) {
                    then.links[i].reference
                } else {
                    least(there)->0
                },
                offsets: then.links[i].offsets.restrict(there),
            }) && plan.form[g].members.to_set() == there;
        let kept = all_unlinked(wrecked.links, plan.detach);
        assert(after.links[kept.len() + g] == plan.form[g].link());
    }
}

/// Carrying out a plan takes its lamps out of the gangs they are in and forms its
/// gangs behind those that are left.
pub proof fn law_a_plan_forms_its_gangs(world: WorldView, plan: PlanView, now: u64, g: int)
    requires
        0 <= g < plan.form.len(),
    ensures
        ({
            let kept = all_unlinked(world.links, plan.detach);
            let after = world.carried_out(plan, now).links;
            &&& after.len() == kept.len() + plan.form.len()
            &&& after.take(kept.len() as int) == kept
            &&& after[kept.len() + g] == plan.form[g].link()
        }),
{
    let kept = all_unlinked(world.links, plan.detach);
    assert(world.carried_out(plan, now).links.take(kept.len() as int) =~= kept);
}

/// Ganging lamps measures each from the first of them, by what they are asked for.
pub proof fn law_ganging_keeps_the_differences_there_are(
    lights: Map<Seq<char>, RecordView>,
    ids: Seq<Seq<char>>,
    k: int,
    id: Seq<char>,
)
    requires
        ids.no_duplicates(),
        0 <= k < ids.len(),
    ensures
        ({
            let link = LinkView::learned(with_desires(lights, ids));
            &&& link.mode == LinkMode::Offset
            &&& link.reference == ids[0]
            &&& link.offsets.contains_key(id) <==> ids.contains(id)
            &&& link.offsets[ids[k]] == lights[ids[k]].desired.brightness
                - lights[ids[0]].desired.brightness
        }),
{
    let members = with_desires(lights, ids);
    assert forall|a: int, b: int| 0 <= a < b < members.len() implies (#[trigger] members[a]).0 != (
    #[trigger] members[b]).0 by {
        assert(ids[a] != ids[b]);
    }
    law_learning_measures_from_the_first(members, k, id);
    if ids.contains(id) {
        let n = choose|n: int| 0 <= n < ids.len() && ids[n] == id;
        assert(members[n].0 == id);
    }
    if exists|n: int| 0 <= n < members.len() && (#[trigger] members[n]).0 == id {
        let n = choose|n: int| 0 <= n < members.len() && (#[trigger] members[n]).0 == id;
        assert(ids[n] == id);
    }
}

/// Only lamps that exist are ganged, in the order they were named.
pub proof fn law_only_what_exists_is_ganged(
    lights: Map<Seq<char>, RecordView>,
    ids: Seq<Seq<char>>,
    id: Seq<char>,
)
    ensures
        existing(lights, seq![]).len() == 0,
        lights.contains_key(id) ==> existing(lights, ids.push(id)) == existing(lights, ids).push(
            id,
        ),
        !lights.contains_key(id) ==> existing(lights, ids.push(id)) == existing(lights, ids),
{
    reveal(Seq::filter);
    assert(ids.push(id).drop_last() =~= ids);
}

/// What is captured is what lights are asked for, not what they last said.
pub proof fn law_intent_is_what_is_captured(lights: Map<Seq<char>, RecordView>, id: Seq<char>)
    ensures
        desires(lights).contains_key(id) <==> lights.contains_key(id),
        lights.contains_key(id) ==> desires(lights)[id] == lights[id].desired,
{
}

/// A lamp that no gang of two captured lamps holds is captured by itself, as it is,
/// whether or not the gangs are in step.
pub proof fn law_a_lamp_on_its_own_is_captured_as_it_is(
    states: Map<Seq<char>, LightState>,
    links: Seq<LinkView>,
    id: Seq<char>,
)
    requires
        states.dom().finite(),
        states.contains_key(id),
        forall|i: int|
            0 <= i < links.len() && (#[trigger] links[i]).offsets.contains_key(id) ==> storable(
                links[i],
            ) && links[i].offsets.dom().intersect(states.dom()).len() < 2,
        forall|i: int| 0 <= i < links.len() ==> storable(#[trigger] links[i]),
    ensures
        SceneView::captured(states, links).lamps.contains(LampView { id, state: states[id] }),
        forall|k: int|
            0 <= k < SceneView::captured(states, links).lamps.len() ==> {
                let lamp = #[trigger] SceneView::captured(states, links).lamps[k];
                states.contains_key(lamp.id) && lamp.state == states[lamp.id]
            },
{
    let scene = SceneView::captured(states, links);
    let rest = states.dom().difference(ganged(scene.gangs));
    vstd::set_lib::lemma_set_subset_finite(states.dom(), rest);
    lemma_listed(rest);
    lemma_ungang(links, states, id);
    assert(rest.contains(id));
    let order = in_order(rest);
    assert(order.contains(id));
    let k = choose|k: int| 0 <= k < order.len() && order[k] == id;
    assert(scene.lamps[k] == (LampView { id, state: states[id] }));
    assert forall|n: int| 0 <= n < scene.lamps.len() implies {
        let lamp = #[trigger] scene.lamps[n];
        states.contains_key(lamp.id) && lamp.state == states[lamp.id]
    } by {
        assert(rest.contains(order[n]));
    }
}

proof fn lemma_ungang(links: Seq<LinkView>, states: Map<Seq<char>, LightState>, id: Seq<char>)
    requires
        forall|i: int|
            0 <= i < links.len() && (#[trigger] links[i]).offsets.contains_key(id)
                ==> links[i].offsets.dom().intersect(states.dom()).len() < 2,
        forall|i: int| 0 <= i < links.len() ==> storable(#[trigger] links[i]),
    ensures
        !ganged(gangs_of(links, states)).contains(id),
    decreases links.len(),
{
    if links.len() > 0 {
        let short = links.drop_last();
        let link = links[links.len() - 1];
        assert(link == links.last());
        assert forall|i: int| 0 <= i < short.len() implies storable(#[trigger] short[i]) by {
            assert(short[i] == links[i]);
        }
        assert forall|i: int|
            0 <= i < short.len() && (#[trigger] short[i]).offsets.contains_key(
                id,
            ) implies short[i].offsets.dom().intersect(states.dom()).len() < 2 by {
            assert(short[i] == links[i]);
        }
        lemma_ungang(short, states, id);
        if let Some(gang) = gang_of(link, states) {
            lemma_captured_gang(link, states);
            let gangs = gangs_of(links, states);
            assert(gangs.drop_last() =~= gangs_of(short, states));
            assert(!gang.members.to_set().contains(id));
        }
    }
}

/// Restoring a scene announces every lamp that it moves.
pub proof fn law_every_lamp_a_plan_moves_is_announced(
    world: WorldView,
    plan: PlanView,
    now: u64,
    id: Seq<char>,
)
    requires
        world.lights.dom().finite(),
        world.lights.contains_key(id),
        world.carried_out(plan, now).lights[id].desired != world.lights[id].desired,
    ensures
        exists|k: int|
            0 <= k < world.plan_announced(plan, now).len() && (#[trigger] world.plan_announced(
                plan,
                now,
            )[k]).0 == id,
{
    let between = gangs_driven(world.lights, plan.form, now);
    let first = gangs_announced(world.lights, plan.form, now);
    let rest = announced(between, plan.lamps);
    let all = world.plan_announced(plan, now);
    lemma_gangs_driven_are_filed(world.lights, plan.form, now);
    if between[id].desired != world.lights[id].desired {
        lemma_gangs_announce(world.lights, plan.form, now, id);
        let k = choose|k: int| 0 <= k < first.len() && (#[trigger] first[k]).0 == id;
        assert(all[k].0 == id);
    } else {
        assert(plan.lamps.contains_key(id));
        law_what_is_driven_is_announced(between, plan.lamps, id);
        let k = choose|k: int| 0 <= k < rest.len() && (#[trigger] rest[k]).0 == id;
        assert(all[first.len() + k].0 == id);
    }
}

proof fn lemma_gangs_announce(
    lights: Map<Seq<char>, RecordView>,
    gangs: Seq<GangView>,
    now: u64,
    id: Seq<char>,
)
    requires
        lights.dom().finite(),
        lights.contains_key(id),
        gangs_driven(lights, gangs, now)[id].desired != lights[id].desired,
    ensures
        exists|k: int|
            0 <= k < gangs_announced(lights, gangs, now).len() && (#[trigger] gangs_announced(
                lights,
                gangs,
                now,
            )[k]).0 == id,
    decreases gangs.len(),
{
    if gangs.len() > 0 {
        let short = gangs.drop_last();
        let before = gangs_driven(lights, short, now);
        let first = gangs_announced(lights, short, now);
        let rest = announced(before, gangs.last().values());
        let all = gangs_announced(lights, gangs, now);
        lemma_gangs_driven_are_filed(lights, short, now);
        if before[id].desired != lights[id].desired {
            lemma_gangs_announce(lights, short, now, id);
            let k = choose|k: int| 0 <= k < first.len() && (#[trigger] first[k]).0 == id;
            assert(all[k].0 == id);
        } else {
            law_what_is_driven_is_announced(before, gangs.last().values(), id);
            let k = choose|k: int| 0 <= k < rest.len() && (#[trigger] rest[k]).0 == id;
            assert(all[first.len() + k].0 == id);
        }
    }
}

/// A plan announces nothing but what it drives: each lamp named in its news is one
/// that it holds a value for.
pub proof fn law_a_plan_announces_only_what_it_drives(
    world: WorldView,
    plan: PlanView,
    now: u64,
    k: int,
)
    requires
        world.lights.dom().finite(),
        0 <= k < world.plan_announced(plan, now).len(),
    ensures
        ({
            let id = world.plan_announced(plan, now)[k].0;
            world.lights.contains_key(id) && plan.values().contains_key(id)
        }),
{
    let between = gangs_driven(world.lights, plan.form, now);
    let first = gangs_announced(world.lights, plan.form, now);
    let rest = announced(between, plan.lamps);
    lemma_gangs_driven_are_filed(world.lights, plan.form, now);
    if k < first.len() {
        lemma_gangs_announce_only(world.lights, plan.form, now, k);
    } else {
        let id = rest[k - first.len()].0;
        assert(rest[k - first.len()].0 == id);
        law_what_is_driven_is_announced(between, plan.lamps, id);
    }
}

proof fn lemma_gangs_announce_only(
    lights: Map<Seq<char>, RecordView>,
    gangs: Seq<GangView>,
    now: u64,
    k: int,
)
    requires
        lights.dom().finite(),
        0 <= k < gangs_announced(lights, gangs, now).len(),
    ensures
        lights.contains_key(gangs_announced(lights, gangs, now)[k].0),
        gang_values(gangs).contains_key(gangs_announced(lights, gangs, now)[k].0),
    decreases gangs.len(),
{
    if gangs.len() > 0 {
        let short = gangs.drop_last();
        let before = gangs_driven(lights, short, now);
        let first = gangs_announced(lights, short, now);
        let rest = announced(before, gangs.last().values());
        lemma_gangs_driven_are_filed(lights, short, now);
        if k < first.len() {
            lemma_gangs_announce_only(lights, short, now, k);
        } else {
            let id = rest[k - first.len()].0;
            assert(rest[k - first.len()].0 == id);
            law_what_is_driven_is_announced(before, gangs.last().values(), id);
        }
    }
}

/// Ganging lamps makes one gang of those that exist, led by the first of them, and
/// takes them out of whatever gangs they were in; with fewer than two of them
/// nothing happens, and no lamp moves either way.
pub proof fn law_lamps_are_ganged_once(
    world: WorldView,
    members: Seq<Seq<char>>,
    id: Seq<char>,
    i: int,
)
    requires
        separate(world.links),
    ensures
        ({
            let present = members.filter(|id: Seq<char>| world.lights.contains_key(id));
            let after = world.linked(members);
            let made = after.links.last();
            &&& after.lights == world.lights
            &&& after.scenes == world.scenes
            &&& present.len() < 2 ==> after.links == world.links
            &&& present.len() >= 2 ==> {
                &&& after.links.len() > 0
                &&& made.mode == LinkMode::Offset
                &&& made.reference == present[0]
                &&& made.offsets.contains_key(id) <==> present.contains(id)
                &&& 0 <= i < after.links.len() - 1 && present.contains(id)
                    ==> !after.links[i].offsets.contains_key(id)
            }
        }),
{
    let present = existing(world.lights, members);
    let after = world.linked(members);
    law_leaving_one_after_another(world.links, present);
    if present.len() >= 2 {
        let kept = all_unlinked(world.links, present);
        let pairs = with_desires(world.lights, present);
        assert(pairs[0].0 == present[0]);
        lemma_learned_members(pairs, pairs[0].1.brightness as int, id);
        if present.contains(id) {
            let k = choose|k: int| 0 <= k < present.len() && present[k] == id;
            assert(pairs[k].0 == id);
            assert(!in_gang(kept, present[k]));
            if 0 <= i < kept.len() {
                assert(after.links[i] == kept[i]);
            }
        }
        if exists|k: int| 0 <= k < pairs.len() && (#[trigger] pairs[k]).0 == id {
            let k = choose|k: int| 0 <= k < pairs.len() && (#[trigger] pairs[k]).0 == id;
            assert(present[k] == id);
        }
    }
}

/// Saving a scene keeps the desk as it is under that name and touches no other
/// scene; forgetting one takes away that scene alone. Neither moves a lamp.
pub proof fn law_scenes_are_kept_by_name(world: WorldView, name: Seq<char>, other: Seq<char>)
    ensures
        ({
            let saved = world.remembering(name);
            &&& saved.lights == world.lights
            &&& saved.links == world.links
            &&& saved.scenes.contains_key(name)
            &&& saved.scenes[name] == SceneView::captured(
                Map::new(
                    |id: Seq<char>| world.lights.contains_key(id),
                    |id: Seq<char>| world.lights[id].desired,
                ),
                world.links,
            )
            &&& other != name ==> (saved.scenes.contains_key(other)
                <==> world.scenes.contains_key(other)) && saved.scenes[other] == world.scenes[other]
        }),
        ({
            let forgot = world.forgetting(name);
            &&& forgot.lights == world.lights
            &&& forgot.links == world.links
            &&& !forgot.scenes.contains_key(name)
            &&& other != name ==> (forgot.scenes.contains_key(other)
                <==> world.scenes.contains_key(other)) && forgot.scenes[other]
                == world.scenes[other]
        }),
        world.remembering(name).forgetting(name).scenes == world.scenes.remove(name),
        world.remembering(name).remembering(name) == world.remembering(name),
{
    assert(desires(world.lights) =~= Map::new(
        |id: Seq<char>| world.lights.contains_key(id),
        |id: Seq<char>| world.lights[id].desired,
    ));
    assert(world.remembering(name).forgetting(name).scenes =~= world.scenes.remove(name));
    assert(world.remembering(name).remembering(name).scenes =~= world.remembering(name).scenes);
}

} // verus!
