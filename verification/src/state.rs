//! The state of a light, and partial changes to it.
//!
//! *Desired* and *reported* state are kept separate. A command sets the
//! desired state; the reconciler pushes it and records what the hardware says
//! came back. The two drifting apart is normal and temporary — a device that
//! never converges is how we notice it has gone away.

use vstd::prelude::*;

use crate::color::{clamp, clamp_kelvin, valid_kelvin, MAX_KELVIN, MIN_KELVIN};

verus! {

/// Highest brightness the hardware accepts, as a percentage.
pub const MAX_BRIGHTNESS: u8 = 100;

/// A complete light state.
#[derive(Clone, Copy, Debug, PartialEq, Eq, Structural)]
pub struct LightState {
    pub on: bool,
    /// Brightness percentage, 0..=100.
    pub brightness: u8,
    /// Colour temperature in Kelvin, 2900..=7000.
    pub kelvin: u16,
}

impl View for LightState {
    type V = LightState;

    open spec fn view(&self) -> LightState {
        *self
    }
}

/// A brightness forced into 0..=100.
pub open spec fn valid_brightness(brightness: int) -> int {
    clamp(brightness, 0, MAX_BRIGHTNESS as int)
}

/// What a light that has never reported reads as.
pub open spec fn unreported() -> LightState {
    LightState { on: false, brightness: 20, kelvin: 4000 }
}

impl Default for LightState {
    /// A light that has never reported yet reads plausibly rather than as 0%
    /// at 0K.
    fn default() -> (r: Self)
        ensures
            r == unreported(),
    {
        LightState { on: false, brightness: 20, kelvin: 4000 }
    }
}

impl LightState {
    /// Whether every field is in the hardware's range.
    pub open spec fn valid(self) -> bool {
        self.brightness <= MAX_BRIGHTNESS && MIN_KELVIN <= self.kelvin <= MAX_KELVIN
    }

    /// The nearest state with every field in the hardware's range.
    pub open spec fn in_range(self) -> LightState {
        LightState {
            on: self.on,
            brightness: valid_brightness(self.brightness as int) as u8,
            kelvin: valid_kelvin(self.kelvin as int) as u16,
        }
    }

    /// Force every field into its supported range.
    pub fn clamped(self) -> (r: Self)
        ensures
            r == self.in_range(),
            r.valid(),
            self.valid() ==> r == self,
    {
        LightState {
            on: self.on,
            brightness: if self.brightness > MAX_BRIGHTNESS {
                MAX_BRIGHTNESS
            } else {
                self.brightness
            },
            kelvin: clamp_kelvin(self.kelvin),
        }
    }
}

/// What a command asks of a light's power.
#[derive(Clone, Copy, Debug, PartialEq, Eq, Structural)]
pub enum Power {
    On,
    Off,
    Toggle,
}

/// An absolute or relative change to a numeric field.
#[derive(Clone, Copy, Debug, PartialEq, Eq, Structural)]
pub enum Adjust {
    /// Move the field to this value.
    To(i32),
    /// Add this signed delta to the field's current value.
    By(i32),
}

impl Adjust {
    /// The value asked for, before any clamping.
    pub open spec fn asked(self, current: int) -> int {
        match self {
            Adjust::To(value) => value as int,
            Adjust::By(delta) => current + delta,
        }
    }

    /// Resolve against the current value, clamped to `min..=max`.
    pub fn apply(self, current: i32, min: i32, max: i32) -> (r: i32)
        requires
            min <= max,
        ensures
            r == clamp(self.asked(current as int), min as int, max as int),
            min <= r <= max,
    {
        let raw: i32 = match self {
            Adjust::To(value) => value,
            Adjust::By(delta) => {
                let sum: i64 = current as i64 + delta as i64;
                if sum > i32::MAX as i64 {
                    i32::MAX
                } else if sum < i32::MIN as i64 {
                    i32::MIN
                } else {
                    sum as i32
                }
            },
        };
        if raw < min {
            min
        } else if raw > max {
            max
        } else {
            raw
        }
    }
}

/// A partial change to a light's state: only the named fields move.
///
/// Deliberately does *not* imply power. `gaffer set left 42%` changes brightness
/// and nothing else; `gaffer on left 42%` is the one-shot that also powers on.
/// Implicit power-on reads as magic and makes scenes harder to reason about.
#[derive(Clone, Copy, Debug, PartialEq, Eq, Structural)]
pub struct StatePatch {
    pub power: Option<Power>,
    pub brightness: Option<Adjust>,
    pub kelvin: Option<Adjust>,
}

impl Default for StatePatch {
    fn default() -> (r: Self)
        ensures
            r == StatePatch::nothing(),
    {
        StatePatch::empty()
    }
}

impl StatePatch {
    /// The patch that names no field.
    pub open spec fn nothing() -> StatePatch {
        StatePatch { power: None, brightness: None, kelvin: None }
    }

    /// A patch that changes nothing.
    pub fn empty() -> (r: Self)
        ensures
            r == StatePatch::nothing(),
    {
        StatePatch { power: None, brightness: None, kelvin: None }
    }

    /// The state this patch turns `base` into: each named field as asked and
    /// each other field as it was, all of them in range.
    pub open spec fn applied(self, base: LightState) -> LightState {
        LightState {
            on: match self.power {
                Some(Power::On) => true,
                Some(Power::Off) => false,
                Some(Power::Toggle) => !base.on,
                None => base.on,
            },
            brightness: valid_brightness(
                match self.brightness {
                    Some(adjust) => adjust.asked(base.brightness as int),
                    None => base.brightness as int,
                },
            ) as u8,
            kelvin: valid_kelvin(
                match self.kelvin {
                    Some(adjust) => adjust.asked(base.kelvin as int),
                    None => base.kelvin as int,
                },
            ) as u16,
        }
    }

    /// True when the patch would leave any state untouched.
    pub fn is_empty(&self) -> (r: bool)
        ensures
            r == (*self == StatePatch::nothing()),
    {
        self.power.is_none() && self.brightness.is_none() && self.kelvin.is_none()
    }

    /// Shorthand for a bare power change.
    pub fn power(power: Power) -> (r: Self)
        ensures
            r == (StatePatch { power: Some(power), brightness: None, kelvin: None }),
    {
        StatePatch { power: Some(power), brightness: None, kelvin: None }
    }

    /// Resolve this patch against a base state, producing a valid new state.
    pub fn apply(&self, base: LightState) -> (r: LightState)
        ensures
            r == self.applied(base),
            r.valid(),
    {
        let mut next = base;
        match self.power {
            Some(Power::On) => {
                next.on = true;
            },
            Some(Power::Off) => {
                next.on = false;
            },
            Some(Power::Toggle) => {
                next.on = !base.on;
            },
            None => {},
        }
        if let Some(adjust) = self.brightness {
            next.brightness = adjust.apply(base.brightness as i32, 0, MAX_BRIGHTNESS as i32) as u8;
        }
        if let Some(adjust) = self.kelvin {
            next.kelvin = adjust.apply(base.kelvin as i32, MIN_KELVIN as i32, MAX_KELVIN as i32)
                as u16;
        }
        next.clamped()
    }
}

/// An empty patch leaves a valid state exactly as it was.
pub proof fn law_empty_patch_changes_nothing(base: LightState)
    requires
        base.valid(),
    ensures
        StatePatch::nothing().applied(base) == base,
{
}

/// A patch moves only the fields it names: a field left out of it keeps the
/// value it had, and power in particular never moves by implication.
pub proof fn law_unnamed_fields_stay(patch: StatePatch, base: LightState)
    requires
        base.valid(),
    ensures
        patch.power is None ==> patch.applied(base).on == base.on,
        patch.brightness is None ==> patch.applied(base).brightness == base.brightness,
        patch.kelvin is None ==> patch.applied(base).kelvin == base.kelvin,
{
}

/// A patch with no toggle and no relative field means the same whatever it is
/// applied to first: applying it again changes nothing.
pub proof fn law_absolute_patch_is_idempotent(patch: StatePatch, base: LightState)
    requires
        patch.power != Some(Power::Toggle),
        !(patch.brightness matches Some(Adjust::By(_))),
        !(patch.kelvin matches Some(Adjust::By(_))),
    ensures
        patch.applied(patch.applied(base)) == patch.applied(base),
{
}

/// Toggling twice brings the power back to where it was.
pub proof fn law_toggle_twice_restores(base: LightState)
    requires
        base.valid(),
    ensures
        ({
            let toggle = StatePatch { power: Some(Power::Toggle), brightness: None, kelvin: None };
            toggle.applied(toggle.applied(base)) == base
        }),
{
}

/// The hardware does 0 to 100 percent and 2900K to 7000K, and a state is valid
/// exactly when both its values lie there.
pub proof fn law_a_state_is_valid_within_the_hardwares_range(state: LightState)
    ensures
        state.valid() <==> state.brightness <= 100 && 2900 <= state.kelvin <= 7000,
        state.valid() <==> state.in_range() == state,
        state.in_range().valid(),
        state.in_range().on == state.on,
        unreported().valid(),
        !unreported().on,
{
}

/// A brightness the hardware can do is kept, a lower one becomes 0 and a higher
/// one 100.
pub proof fn law_brightness_is_brought_into_range(brightness: int)
    ensures
        0 <= valid_brightness(brightness) <= 100,
        0 <= brightness <= 100 ==> valid_brightness(brightness) == brightness,
        brightness <= 0 ==> valid_brightness(brightness) == 0,
        brightness >= 100 ==> valid_brightness(brightness) == 100,
{
}

/// Power goes where it is sent whatever the other fields do: on, off, or to the
/// opposite of what it was.
pub proof fn law_power_goes_where_it_is_sent(patch: StatePatch, base: LightState)
    ensures
        patch.power == Some(Power::On) ==> patch.applied(base).on,
        patch.power == Some(Power::Off) ==> !patch.applied(base).on,
        patch.power == Some(Power::Toggle) ==> patch.applied(base).on == !base.on,
        patch.power is None ==> patch.applied(base).on == base.on,
{
}

/// A relative step is addition, whatever the power and whatever else the patch
/// names: the sum where the hardware can do it, and otherwise the end of the
/// range it passed.
pub proof fn law_a_relative_step_is_addition(patch: StatePatch, base: LightState, delta: i32)
    ensures
        patch.brightness == Some(Adjust::By(delta)) ==> {
            let sum = base.brightness + delta;
            &&& 0 <= sum <= 100 ==> patch.applied(base).brightness == sum
            &&& sum < 0 ==> patch.applied(base).brightness == 0
            &&& sum > 100 ==> patch.applied(base).brightness == 100
        },
        patch.kelvin == Some(Adjust::By(delta)) ==> {
            let sum = base.kelvin + delta;
            &&& 2900 <= sum <= 7000 ==> patch.applied(base).kelvin == sum
            &&& sum < 2900 ==> patch.applied(base).kelvin == 2900
            &&& sum > 7000 ==> patch.applied(base).kelvin == 7000
        },
{
}

/// A step and the step back end where they began, unless one of them meets an end
/// of the range.
pub proof fn law_a_step_back_undoes_a_step(base: LightState, delta: i32)
    requires
        base.valid(),
        delta > i32::MIN,
    ensures
        ({
            let there = StatePatch {
                power: None,
                brightness: Some(Adjust::By(delta)),
                kelvin: None,
            };
            let back = StatePatch {
                power: None,
                brightness: Some(Adjust::By((-delta) as i32)),
                kelvin: None,
            };
            0 <= base.brightness + delta <= 100 ==> back.applied(there.applied(base)) == base
        }),
        ({
            let there = StatePatch {
                power: None,
                brightness: None,
                kelvin: Some(Adjust::By(delta)),
            };
            let back = StatePatch {
                power: None,
                brightness: None,
                kelvin: Some(Adjust::By((-delta) as i32)),
            };
            2900 <= base.kelvin + delta <= 7000 ==> back.applied(there.applied(base)) == base
        }),
{
}

/// An absolute value is taken as it is, whatever the light was before and
/// whatever else the patch names; one that the hardware cannot do becomes the end
/// of the range it passed.
pub proof fn law_an_absolute_value_is_taken(patch: StatePatch, base: LightState, value: i32)
    ensures
        patch.brightness == Some(Adjust::To(value)) ==> {
            &&& 0 <= value <= 100 ==> patch.applied(base).brightness == value
            &&& value < 0 ==> patch.applied(base).brightness == 0
            &&& value > 100 ==> patch.applied(base).brightness == 100
        },
        patch.kelvin == Some(Adjust::To(value)) ==> {
            &&& 2900 <= value <= 7000 ==> patch.applied(base).kelvin == value
            &&& value < 2900 ==> patch.applied(base).kelvin == 2900
            &&& value > 7000 ==> patch.applied(base).kelvin == 7000
        },
{
}

/// The fields move independently: what becomes of one depends on what the patch
/// says of it and on what it was, and on nothing else.
pub proof fn law_fields_move_independently(
    a: StatePatch,
    b: StatePatch,
    left: LightState,
    right: LightState,
)
    ensures
        a.power == b.power && left.on == right.on ==> a.applied(left).on == b.applied(right).on,
        a.brightness == b.brightness && left.brightness == right.brightness ==> a.applied(
            left,
        ).brightness == b.applied(right).brightness,
        a.kelvin == b.kelvin && left.kelvin == right.kelvin ==> a.applied(left).kelvin
            == b.applied(right).kelvin,
{
}

/// What a change asks for is its own value, or its step from the current one.
pub proof fn law_a_change_is_a_value_or_a_step(value: i32, current: int)
    ensures
        Adjust::To(value).asked(current) == value,
        Adjust::By(value).asked(current) - current == value,
{
}

} // verus!
