//! The Elgato Key Light HTTP protocol.
//!
//! Plain HTTP on port 9123, no authentication, no TLS. Four endpoints:
//!
//! | Method | Path | Purpose |
//! |--------|------|---------|
//! | `GET`  | `/elgato/lights` | read current state |
//! | `PUT`  | `/elgato/lights` | set state; the response echoes the result |
//! | `GET`  | `/elgato/accessory-info` | display name, model, firmware |
//! | `POST` | `/elgato/identify` | physically blink the unit |
//!
//! Brightness is 0–100. Temperature is **mireds, not Kelvin** — the conversion
//! lives in [`crate::color`] and is the single most easily-broken detail in the
//! whole protocol.

use vstd::prelude::*;
use vstd::string::*;

use crate::color::{kelvin_of, kelvin_to_mired, law_a_mired_reads_as_the_nearest_temperature,
    law_echo_is_the_same_setting, law_the_hardware_is_sent_the_nearest_mired, mired_of,
    mired_to_kelvin, MAX_KELVIN, MIN_KELVIN};
use crate::state::LightState;
use crate::strings::{decimal, joined, push_decimal};

verus! {

broadcast use vstd::string::group_string_axioms;

/// Per-request timeout, in milliseconds.
pub const REQUEST_TIMEOUT_MS: u64 = 5_000;

/// State read back from a light. Fields are optional because firmware omits
/// what it does not know, and treating a missing `on` as `false` would silently
/// turn lights off.
#[derive(Clone, Copy, Debug, PartialEq, Eq, Structural)]
pub struct PartialState {
    pub on: Option<bool>,
    pub brightness: Option<u8>,
    pub kelvin: Option<u16>,
}

impl Default for PartialState {
    fn default() -> (r: Self)
        ensures
            r == PartialState::silent(),
    {
        PartialState { on: None, brightness: None, kelvin: None }
    }
}

impl PartialState {
    /// A report that says nothing.
    pub open spec fn silent() -> PartialState {
        PartialState { on: None, brightness: None, kelvin: None }
    }

    /// A complete state with whatever was reported put over it, in range.
    pub open spec fn over(self, base: LightState) -> LightState {
        LightState {
            on: match self.on {
                Some(on) => on,
                None => base.on,
            },
            brightness: match self.brightness {
                Some(brightness) => brightness,
                None => base.brightness,
            },
            kelvin: match self.kelvin {
                Some(kelvin) => kelvin,
                None => base.kelvin,
            },
        }.in_range()
    }

    /// Overlay whatever the device reported onto a known-complete state.
    pub fn merge_into(self, base: LightState) -> (r: LightState)
        ensures
            r == self.over(base),
            r.valid(),
    {
        LightState {
            on: match self.on {
                Some(on) => on,
                None => base.on,
            },
            brightness: match self.brightness {
                Some(brightness) => brightness,
                None => base.brightness,
            },
            kelvin: match self.kelvin {
                Some(kelvin) => kelvin,
                None => base.kelvin,
            },
        }.clamped()
    }
}

/// Identity and firmware details.
#[derive(Debug)]
pub struct AccessoryInfo {
    pub display_name: String,
    pub product_name: String,
    pub firmware_version: String,
}

impl Clone for AccessoryInfo {
    fn clone(&self) -> (r: Self)
        ensures
            r.display_name@ == self.display_name@,
            r.product_name@ == self.product_name@,
            r.firmware_version@ == self.firmware_version@,
    {
        AccessoryInfo {
            display_name: self.display_name.clone(),
            product_name: self.product_name.clone(),
            firmware_version: self.firmware_version.clone(),
        }
    }
}

impl Default for AccessoryInfo {
    fn default() -> (r: Self)
        ensures
            r.display_name@ == Seq::<char>::empty(),
            r.product_name@ == Seq::<char>::empty(),
            r.firmware_version@ == Seq::<char>::empty(),
    {
        AccessoryInfo {
            display_name: String::new(),
            product_name: String::new(),
            firmware_version: String::new(),
        }
    }
}

/// What a light answers: one entry per lamp it drives.
#[derive(Debug)]
pub struct LightsEnvelope {
    pub lights: Vec<LightEntry>,
}

/// One entry of the answer, each field as far as the firmware gives it.
#[derive(Clone, Copy, Debug, PartialEq, Eq, Structural)]
pub struct LightEntry {
    pub on: Option<u8>,
    pub brightness: Option<u8>,
    pub temperature: Option<u16>,
}

impl LightEntry {
    /// The entry in the daemon's own units.
    pub open spec fn partial(self) -> PartialState {
        PartialState {
            on: match self.on {
                Some(value) => Some(value != 0),
                None => None,
            },
            brightness: self.brightness,
            kelvin: match self.temperature {
                Some(mired) => Some(kelvin_of(mired as int) as u16),
                None => None,
            },
        }
    }
}

impl From<LightEntry> for PartialState {
    fn from(entry: LightEntry) -> (r: Self) {
        PartialState {
            on: match entry.on {
                Some(value) => Some(value != 0),
                None => None,
            },
            brightness: entry.brightness,
            kelvin: match entry.temperature {
                Some(mired) => Some(mired_to_kelvin(mired)),
                None => None,
            },
        }
    }
}

impl vstd::std_specs::convert::FromSpecImpl<LightEntry> for PartialState {
    open spec fn obeys_from_spec() -> bool {
        true
    }

    open spec fn from_spec(entry: LightEntry) -> Self {
        entry.partial()
    }
}

/// The body of a state push.
#[derive(Debug)]
pub struct PutEnvelope {
    pub number_of_lights: u32,
    pub light: PutEntry,
}

/// The lamp a state push describes.
#[derive(Clone, Copy, Debug, PartialEq, Eq, Structural)]
pub struct PutEntry {
    pub on: u8,
    pub brightness: u8,
    pub temperature: u16,
}

impl PutEntry {
    /// The entry as it goes over the wire: JSON, its fields in this order.
    pub open spec fn wire(self) -> Seq<char> {
        "{\"on\":"@ + decimal(self.on as int) + ",\"brightness\":"@ + decimal(
            self.brightness as int,
        ) + ",\"temperature\":"@ + decimal(self.temperature as int) + "}"@
    }

    /// Append the entry as it goes over the wire.
    fn write(&self, out: &mut String)
        ensures
            final(out)@ == old(out)@ + self.wire(),
    {
        out.append("{\"on\":");
        push_decimal(out, self.on as i64);
        out.append(",\"brightness\":");
        push_decimal(out, self.brightness as i64);
        out.append(",\"temperature\":");
        push_decimal(out, self.temperature as i64);
        out.append("}");
        assert(out@ =~= old(out)@ + self.wire());
    }
}

impl PutEnvelope {
    /// The body as it goes over the wire: JSON, its fields in this order.
    pub open spec fn wire(self) -> Seq<char> {
        "{\"numberOfLights\":"@ + decimal(self.number_of_lights as int) + ",\"lights\":["@
            + self.light.wire() + "]}"@
    }

    /// The body that pushes one complete state.
    pub open spec fn of(state: LightState) -> PutEnvelope {
        PutEnvelope {
            number_of_lights: 1,
            light: PutEntry {
                on: if state.on {
                    1
                } else {
                    0
                },
                brightness: state.brightness,
                temperature: mired_of(state.kelvin as int) as u16,
            },
        }
    }

    /// Describe one complete state.
    pub fn single(state: LightState) -> (r: Self)
        ensures
            r == PutEnvelope::of(state),
    {
        PutEnvelope {
            number_of_lights: 1,
            light: PutEntry {
                on: if state.on {
                    1
                } else {
                    0
                },
                brightness: state.brightness,
                temperature: kelvin_to_mired(state.kelvin),
            },
        }
    }

    /// The body as it goes over the wire.
    pub fn to_text(&self) -> (r: String)
        ensures
            r@ == self.wire(),
    {
        let mut out = String::new();
        out.append("{\"numberOfLights\":");
        push_decimal(&mut out, self.number_of_lights as i64);
        out.append(",\"lights\":[");
        self.light.write(&mut out);
        out.append("]}");
        assert(out@ =~= self.wire());
        out
    }
}

/// The text of the request that pushes a state.
pub fn put_body(state: LightState) -> (r: String)
    ensures
        r@ == PutEnvelope::of(state).wire(),
{
    PutEnvelope::single(state).to_text()
}

/// What a whole answer says of the one light the daemon talks to.
pub open spec fn reported(envelope: LightsEnvelope) -> PartialState {
    if envelope.lights@.len() == 0 {
        PartialState::silent()
    } else {
        envelope.lights@[0].partial()
    }
}

/// The first light of an answer. Key Lights report one; a strip reporting
/// several is out of scope, and silently averaging them would be worse than
/// ignoring the extras.
pub fn first_light(envelope: LightsEnvelope) -> (r: PartialState)
    ensures
        r == reported(envelope),
{
    if envelope.lights.len() == 0 {
        PartialState::default()
    } else {
        PartialState::from(envelope.lights[0])
    }
}

fn with_path(base_url: &str, path: &str) -> (r: String)
    ensures
        r@ == base_url@ + path@,
{
    let mut out = base_url.to_owned();
    out.append(path);
    out
}

/// Where a light's state is read and pushed.
pub fn lights_url(base_url: &str) -> (r: String)
    ensures
        r@ == base_url@ + "/elgato/lights"@,
{
    with_path(base_url, "/elgato/lights")
}

/// Where a light tells its name and firmware.
pub fn info_url(base_url: &str) -> (r: String)
    ensures
        r@ == base_url@ + "/elgato/accessory-info"@,
{
    with_path(base_url, "/elgato/accessory-info")
}

/// Where a light is asked to blink.
pub fn identify_url(base_url: &str) -> (r: String)
    ensures
        r@ == base_url@ + "/elgato/identify"@,
{
    with_path(base_url, "/elgato/identify")
}

/// A report that says nothing disturbs nothing.
pub proof fn law_silence_disturbs_nothing(base: LightState)
    requires
        base.valid(),
    ensures
        PartialState::silent().over(base) == base,
{
}

/// A field the firmware leaves out keeps the value it had; in particular a
/// missing `on` never turns a light off.
pub proof fn law_missing_fields_stay(partial: PartialState, base: LightState)
    requires
        base.valid(),
    ensures
        partial.on is None ==> partial.over(base).on == base.on,
        partial.brightness is None ==> partial.over(base).brightness == base.brightness,
        partial.kelvin is None ==> partial.over(base).kelvin == base.kelvin,
{
}

/// A state that is pushed and echoed back is the same hardware setting: the
/// merge keeps power and brightness and lands on the same mired value, so
/// pushing what came back changes nothing and adopting it cannot drift.
pub proof fn law_an_echo_does_not_drift(state: LightState)
    requires
        state.valid(),
    ensures
        ({
            let sent = PutEnvelope::of(state).light;
            let echo = LightEntry {
                on: Some(sent.on),
                brightness: Some(sent.brightness),
                temperature: Some(sent.temperature),
            };
            let back = echo.partial().over(state);
            &&& back.on == state.on
            &&& back.brightness == state.brightness
            &&& mired_of(back.kelvin as int) == mired_of(state.kelvin as int)
            &&& PutEnvelope::of(back) == PutEnvelope::of(state)
            &&& echo.partial().over(back) == back
        }),
{
    law_echo_is_the_same_setting(state.kelvin as int);
    assert(MIN_KELVIN <= kelvin_of(mired_of(state.kelvin as int)) <= MAX_KELVIN);
}

/// What the device reports wins over what was known, field by field, brought into
/// range; what it leaves out is kept.
pub proof fn law_reported_fields_win(partial: PartialState, base: LightState)
    ensures
        ({
            let after = partial.over(base);
            let brightness = match partial.brightness {
                Some(value) => value,
                None => base.brightness,
            };
            let kelvin = match partial.kelvin {
                Some(value) => value,
                None => base.kelvin,
            };
            &&& partial.on == Some(true) ==> after.on
            &&& partial.on == Some(false) ==> !after.on
            &&& partial.on is None ==> after.on == base.on
            &&& brightness <= 100 ==> after.brightness == brightness
            &&& brightness > 100 ==> after.brightness == 100
            &&& 2900 <= kelvin <= 7000 ==> after.kelvin == kelvin
            &&& kelvin < 2900 ==> after.kelvin == 2900
            &&& kelvin > 7000 ==> after.kelvin == 7000
        }),
{
}

/// An entry is read in the daemon's units: any power but zero is on, brightness
/// is as it stands, the temperature is converted, and what is absent stays
/// absent.
pub proof fn law_an_entry_is_read_field_by_field(entry: LightEntry)
    ensures
        ({
            let partial = entry.partial();
            &&& entry.on == Some(0u8) ==> partial.on == Some(false)
            &&& entry.on is Some && entry.on != Some(0u8) ==> partial.on == Some(true)
            &&& entry.on is None <==> partial.on is None
            &&& partial.brightness == entry.brightness
            &&& entry.temperature is None <==> partial.kelvin is None
            &&& entry.temperature matches Some(mired) ==> (partial.kelvin matches Some(kelvin)
                && 2900 <= kelvin <= 7000 && (143 <= mired <= 344 ==> mired_of(kelvin as int)
                == mired) && (mired > 0 && 2900 < kelvin < 7000 ==> 2 * (kelvin * mired
                - 1_000_000) <= mired && 2 * (1_000_000 - kelvin * mired) <= mired))
        }),
{
    if let Some(mired) = entry.temperature {
        if mired > 0 {
            law_a_mired_reads_as_the_nearest_temperature(mired as int);
        }
    }
}

/// An answer is read from its first entry alone, and one without entries says
/// nothing.
pub proof fn law_an_answer_is_its_first_entry(envelope: LightsEnvelope)
    ensures
        envelope.lights@.len() == 0 ==> reported(envelope) == (PartialState {
            on: None,
            brightness: None,
            kelvin: None,
        }),
        envelope.lights@.len() > 0 ==> reported(envelope) == envelope.lights@[0].partial(),
{
}

/// A push describes the one state it was made from: power as a digit, brightness
/// as it is, temperature in mireds.
pub proof fn law_a_push_describes_the_state(state: LightState)
    ensures
        ({
            let sent = PutEnvelope::of(state);
            &&& sent.number_of_lights == 1
            &&& sent.light.on == 1 <==> state.on
            &&& sent.light.on == 0 <==> !state.on
            &&& sent.light.brightness == state.brightness
            &&& 143 <= sent.light.temperature <= 344
            &&& sent.light.temperature == mired_of(state.kelvin as int)
        }),
{
    law_the_hardware_is_sent_the_nearest_mired(state.kelvin as int);
}

/// The body of a push is one JSON object that says how many lights it describes
/// and lists the one, each field by its documented name with its number.
pub proof fn law_the_body_names_every_field(body: PutEnvelope)
    ensures
        body.wire() == joined(
            seq![
                "{\"numberOfLights\":"@ + decimal(body.number_of_lights as int),
                "\"lights\":[{\"on\":"@ + decimal(body.light.on as int),
                "\"brightness\":"@ + decimal(body.light.brightness as int),
                "\"temperature\":"@ + decimal(body.light.temperature as int) + "}]}"@,
            ],
            ","@,
        ),
{
    let parts = seq![
        "{\"numberOfLights\":"@ + decimal(body.number_of_lights as int),
        "\"lights\":[{\"on\":"@ + decimal(body.light.on as int),
        "\"brightness\":"@ + decimal(body.light.brightness as int),
        "\"temperature\":"@ + decimal(body.light.temperature as int) + "}]}"@,
    ];
    reveal_with_fuel(joined, 5);
    reveal_strlit("{\"numberOfLights\":");
    reveal_strlit(",\"lights\":[");
    reveal_strlit("\"lights\":[{\"on\":");
    reveal_strlit("{\"on\":");
    reveal_strlit(",\"brightness\":");
    reveal_strlit("\"brightness\":");
    reveal_strlit(",\"temperature\":");
    reveal_strlit("\"temperature\":");
    reveal_strlit("}]}");
    reveal_strlit("]}");
    reveal_strlit("}");
    reveal_strlit(",");
    assert(parts.drop_last().drop_last().drop_last() =~= parts.take(1));
    assert(parts.drop_last().drop_last() =~= parts.take(2));
    assert(parts.drop_last() =~= parts.take(3));
    assert(body.wire() =~= joined(parts, ","@));
}

} // verus!
