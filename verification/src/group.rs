//! Collapsing several lights into one displayed state.
//!
//! Elgato firmware has no notion of grouping — controlling several lights as one
//! is entirely client-side, and it is two separate concerns:
//!
//! * **Fan-out** — send the identical command to every member. That belongs to
//!   the reconciler, because it is about I/O.
//! * **Aggregation** — collapse members into one state to display. That is this
//!   module.
//!
//! Power is on only if *every* member is on, while brightness and temperature
//! are averaged. The asymmetry is deliberate — "all on" is the only reading of
//! group power that makes the toggle behave predictably.

use vstd::prelude::*;

use crate::color::valid_kelvin;
use crate::state::{valid_brightness, LightState, Power, StatePatch};

verus! {

/// The members' brightnesses added up.
pub open spec fn brightness_sum(states: Seq<LightState>) -> int
    decreases states.len(),
{
    if states.len() == 0 {
        0
    } else {
        brightness_sum(states.drop_last()) + states.last().brightness
    }
}

/// The members' colour temperatures added up.
pub open spec fn kelvin_sum(states: Seq<LightState>) -> int
    decreases states.len(),
{
    if states.len() == 0 {
        0
    } else {
        kelvin_sum(states.drop_last()) + states.last().kelvin
    }
}

/// The arithmetic mean of `count` values that add up to `sum`, rounded half up.
pub open spec fn rounded_mean(sum: int, count: int) -> int {
    (sum + count / 2) / count
}

/// The state that stands for several lights at once.
pub open spec fn collapsed(states: Seq<LightState>) -> Option<LightState> {
    if states.len() == 0 || states.len() > u32::MAX {
        None
    } else {
        let count = states.len() as int;
        Some(
            LightState {
                on: forall|i: int| 0 <= i < states.len() ==> (#[trigger] states[i]).on,
                brightness: valid_brightness(rounded_mean(brightness_sum(states), count)) as u8,
                kelvin: valid_kelvin(rounded_mean(kelvin_sum(states), count)) as u16,
            },
        )
    }
}

/// A mean lies between any bounds that all its values lie between.
proof fn lemma_mean_between(sum: int, count: int, low: int, high: int)
    requires
        count > 0,
        low * count <= sum <= high * count,
    ensures
        low <= rounded_mean(sum, count) <= high,
{
    let n = sum + count / 2;
    let q = n / count;
    assert(low <= q <= high) by (nonlinear_arith)
        requires
            count > 0,
            low * count <= sum <= high * count,
            n == sum + count / 2,
            q == n / count,
    ;
}

/// Sums of values that lie between bounds.
proof fn lemma_sums_between(
    states: Seq<LightState>,
    dim: int,
    bright: int,
    warm: int,
    cool: int,
)
    requires
        forall|i: int|
            0 <= i < states.len() ==> dim <= (#[trigger] states[i]).brightness <= bright && warm
                <= states[i].kelvin <= cool,
    ensures
        dim * states.len() <= brightness_sum(states) <= bright * states.len(),
        warm * states.len() <= kelvin_sum(states) <= cool * states.len(),
    decreases states.len(),
{
    if states.len() > 0 {
        let short = states.drop_last();
        assert forall|i: int| 0 <= i < short.len() implies dim <= (
        #[trigger] short[i]).brightness <= bright && warm <= short[i].kelvin <= cool by {
            assert(short[i] == states[i]);
        }
        lemma_sums_between(short, dim, bright, warm, cool);
        let n = states.len() as int;
        assert(states[n - 1] == states.last());
        assert(dim * n == dim * (n - 1) + dim) by (nonlinear_arith);
        assert(bright * n == bright * (n - 1) + bright) by (nonlinear_arith);
        assert(warm * n == warm * (n - 1) + warm) by (nonlinear_arith);
        assert(cool * n == cool * (n - 1) + cool) by (nonlinear_arith);
    }
}

/// Collapse member states into a single representative state.
///
/// Returns `None` for an empty slice: a group with no members has no state, as
/// distinct from a group that is off. Callers pass only *online* members — an
/// unreachable light should not drag the average around.
pub fn aggregate(states: &[LightState]) -> (r: Option<LightState>)
    ensures
        r == collapsed(states@),
        r matches Some(state) ==> state.valid(),
{
    let len: usize = states.len();
    if len == 0 || len as u64 > u32::MAX as u64 {
        return None;
    }
    let count: u64 = len as u64;
    let mut on = true;
    let mut brightness: u64 = 0;
    let mut kelvin: u64 = 0;
    let mut i: usize = 0;
    while i < states.len()
        invariant
            i <= states@.len(),
            states@.len() <= u32::MAX,
            on == (forall|j: int| 0 <= j < i ==> (#[trigger] states@[j]).on),
            brightness == brightness_sum(states@.take(i as int)),
            kelvin == kelvin_sum(states@.take(i as int)),
            brightness <= 255 * i,
            kelvin <= 65535 * i,
        decreases states@.len() - i,
    {
        let state = states[i];
        assert(states@.take(i + 1).drop_last() =~= states@.take(i as int));
        on = on && state.on;
        brightness += state.brightness as u64;
        kelvin += state.kelvin as u64;
        i += 1;
    }
    assert(states@.take(i as int) =~= states@);
    proof {
        lemma_mean_between(brightness as int, count as int, 0, 255);
        lemma_mean_between(kelvin as int, count as int, 0, 65535);
    }
    let state = LightState {
        on,
        brightness: mean(brightness, count) as u8,
        kelvin: mean(kelvin, count) as u16,
    };
    Some(state.clamped())
}

/// Arithmetic mean, rounded half-up, in integers.
fn mean(sum: u64, count: u64) -> (r: u64)
    requires
        0 < count <= u32::MAX,
        sum <= 0xffff_ffff_ffff,
    ensures
        r == rounded_mean(sum as int, count as int),
{
    (sum + count / 2) / count
}

/// A lone valid member is reported verbatim.
pub proof fn law_lone_member_is_verbatim(only: LightState)
    requires
        only.valid(),
    ensures
        collapsed(seq![only]) == Some(only),
{
    let states = seq![only];
    reveal_with_fuel(brightness_sum, 2);
    reveal_with_fuel(kelvin_sum, 2);
    assert(states.drop_last() =~= Seq::empty());
    assert(brightness_sum(states) == only.brightness);
    assert(kelvin_sum(states) == only.kelvin);
    assert(states[0].on == only.on);
}

/// A group reads as on exactly when every member is on.
pub proof fn law_power_is_the_conjunction(states: Seq<LightState>)
    requires
        collapsed(states) is Some,
    ensures
        collapsed(states)->0.on <==> forall|i: int|
            0 <= i < states.len() ==> (#[trigger] states[i]).on,
{
}

/// Toggling a group whose members disagree turns it on, and toggling one whose
/// members are all on turns it off.
pub proof fn law_toggle_follows_the_aggregate(states: Seq<LightState>)
    requires
        collapsed(states) is Some,
    ensures
        ({
            let toggle = StatePatch { power: Some(Power::Toggle), brightness: None, kelvin: None };
            toggle.applied(collapsed(states)->0).on <==> exists|i: int|
                0 <= i < states.len() && !(#[trigger] states[i]).on
        }),
{
}

/// The average stays between whatever bounds the members stay between.
pub proof fn law_aggregate_stays_between_members(
    states: Seq<LightState>,
    low: LightState,
    high: LightState,
)
    requires
        collapsed(states) is Some,
        low.valid(),
        high.valid(),
        forall|i: int|
            0 <= i < states.len() ==> low.brightness <= (#[trigger] states[i]).brightness
                <= high.brightness && low.kelvin <= states[i].kelvin <= high.kelvin,
    ensures
        low.brightness <= collapsed(states)->0.brightness <= high.brightness,
        low.kelvin <= collapsed(states)->0.kelvin <= high.kelvin,
{
    let count = states.len() as int;
    lemma_sums_between(
        states,
        low.brightness as int,
        high.brightness as int,
        low.kelvin as int,
        high.kelvin as int,
    );
    lemma_mean_between(brightness_sum(states), count, low.brightness as int, high.brightness as int);
    lemma_mean_between(kelvin_sum(states), count, low.kelvin as int, high.kelvin as int);
}

/// The sum of several numbers.
pub open spec fn total(values: Seq<int>) -> int {
    values.fold_left(0, |sum: int, value: int| sum + value)
}

proof fn lemma_totals(states: Seq<LightState>)
    ensures
        brightness_sum(states) == total(
            states.map_values(|state: LightState| state.brightness as int),
        ),
        kelvin_sum(states) == total(states.map_values(|state: LightState| state.kelvin as int)),
    decreases states.len(),
{
    let dims = states.map_values(|state: LightState| state.brightness as int);
    let warms = states.map_values(|state: LightState| state.kelvin as int);
    reveal_with_fuel(Seq::fold_left, 2);
    if states.len() > 0 {
        let short = states.drop_last();
        lemma_totals(short);
        assert(dims.drop_last() =~= short.map_values(
            |state: LightState| state.brightness as int,
        ));
        assert(warms.drop_last() =~= short.map_values(|state: LightState| state.kelvin as int));
    }
}

/// The group's brightness and temperature are the averages over every member, on
/// or off, rounded to the nearest: taken as many times as there are members, they
/// miss the sum by no more than half that number.
pub proof fn law_the_group_is_the_average_of_all_its_members(states: Seq<LightState>)
    requires
        0 < states.len() <= u32::MAX,
        forall|i: int| 0 <= i < states.len() ==> (#[trigger] states[i]).valid(),
    ensures
        collapsed(states) is Some,
        ({
            let group = collapsed(states)->0;
            let n = states.len() as int;
            let dims = total(states.map_values(|state: LightState| state.brightness as int));
            let warms = total(states.map_values(|state: LightState| state.kelvin as int));
            &&& 2 * (group.brightness * n - dims) <= n
            &&& 2 * (dims - group.brightness * n) <= n
            &&& 2 * (group.kelvin * n - warms) <= n
            &&& 2 * (warms - group.kelvin * n) <= n
        }),
{
    let n = states.len() as int;
    lemma_totals(states);
    lemma_sums_between(states, 0, 100, 2900, 7000);
    lemma_mean_between(brightness_sum(states), n, 0, 100);
    lemma_mean_between(kelvin_sum(states), n, 2900, 7000);
    lemma_mean_is_nearest(brightness_sum(states), n);
    lemma_mean_is_nearest(kelvin_sum(states), n);
}

proof fn lemma_mean_is_nearest(sum: int, count: int)
    requires
        count > 0,
    ensures
        2 * (rounded_mean(sum, count) * count - sum) <= count,
        2 * (sum - rounded_mean(sum, count) * count) <= count,
{
    let half = count / 2;
    let r = (sum + half) / count;
    assert(r * count <= sum + half < r * count + count) by (nonlinear_arith)
        requires
            count > 0,
            r == (sum + half) / count,
    ;
    assert(count - 1 <= 2 * half <= count) by (nonlinear_arith)
        requires
            half == count / 2,
    ;
}

/// A group without members has no state, and any other of a countable size does.
pub proof fn law_only_an_empty_group_has_no_state(states: Seq<LightState>)
    requires
        states.len() <= u32::MAX,
    ensures
        collapsed(states) is None <==> states.len() == 0,
{
}

} // verus!
