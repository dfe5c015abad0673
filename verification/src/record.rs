//! What is known about one light.
//!
//! Two states per light, deliberately kept apart:
//!
//! * `desired` — what gaffer is trying to make true. Clients read this, so a
//!   slider drag or a keybind feels instant rather than waiting on a round trip.
//! * `reported` — what the hardware last said. `None` means unreachable; that
//!   *is* the definition of offline, rather than a separate flag that can drift
//!   out of sync with reality.
//!
//! The two converging is the reconciler's job. Them being briefly apart is
//! normal; them never converging is how a vanished light is noticed.

use vstd::prelude::*;
use vstd::string::*;

use crate::endpoint::Endpoint;
use crate::state::LightState;

verus! {

broadcast use vstd::string::group_string_axioms;

/// Stable identity of a light — the `id=` field from its mDNS TXT record.
pub type LightId = String;

/// Everything gaffer knows about one light.
#[derive(Debug)]
pub struct LightRecord {
    pub id: LightId,
    /// mDNS instance fullname, kept so discovery can actively re-probe it.
    pub fullname: String,
    pub name: String,
    pub model: String,
    pub firmware: String,
    pub endpoint: Endpoint,
    pub desired: LightState,
    pub reported: Option<LightState>,
    pub last_error: String,
    /// When `desired` moved without having been pushed to hardware since, in
    /// milliseconds of the daemon's clock.
    pub dirty_since: Option<u64>,
}

/// A [`LightRecord`] as mathematics.
#[verifier::ext_equal]
pub struct RecordView {
    pub id: Seq<char>,
    pub fullname: Seq<char>,
    pub name: Seq<char>,
    pub model: Seq<char>,
    pub firmware: Seq<char>,
    pub endpoint: Endpoint,
    pub desired: LightState,
    pub reported: Option<LightState>,
    pub last_error: Seq<char>,
    pub dirty_since: Option<u64>,
}

impl View for LightRecord {
    type V = RecordView;

    open spec fn view(&self) -> RecordView {
        RecordView {
            id: self.id@,
            fullname: self.fullname@,
            name: self.name@,
            model: self.model@,
            firmware: self.firmware@,
            endpoint: self.endpoint,
            desired: self.desired,
            reported: self.reported,
            last_error: self.last_error@,
            dirty_since: self.dirty_since,
        }
    }
}

/// Which client-visible properties of a light changed.
#[derive(Clone, Copy, Debug, PartialEq, Eq, Structural)]
pub struct Changed {
    pub meta: bool,
    pub online: bool,
    pub on: bool,
    pub brightness: bool,
    pub kelvin: bool,
    pub error: bool,
}

impl View for Changed {
    type V = Changed;

    open spec fn view(&self) -> Changed {
        *self
    }
}

impl Default for Changed {
    fn default() -> (r: Self)
        ensures
            r == Changed::nothing(),
    {
        Changed {
            meta: false,
            online: false,
            on: false,
            brightness: false,
            kelvin: false,
            error: false,
        }
    }
}

impl Changed {
    /// Nothing changed.
    pub open spec fn nothing() -> Changed {
        Changed {
            meta: false,
            online: false,
            on: false,
            brightness: false,
            kelvin: false,
            error: false,
        }
    }

    /// How two settings of one light differ.
    pub open spec fn moved(before: LightState, after: LightState) -> Changed {
        Changed {
            on: before.on != after.on,
            brightness: before.brightness != after.brightness,
            kelvin: before.kelvin != after.kelvin,
            ..Changed::nothing()
        }
    }

    /// How two snapshots of one light differ.
    pub open spec fn difference(before: RecordView, after: RecordView) -> Changed {
        Changed {
            meta: before.name != after.name || before.model != after.model || before.firmware
                != after.firmware || before.endpoint != after.endpoint,
            online: before.online() != after.online(),
            error: before.last_error != after.last_error,
            ..Changed::moved(before.desired, after.desired)
        }
    }

    /// Whether anything changed.
    pub fn any(self) -> (r: bool)
        ensures
            r == (self != Changed::nothing()),
    {
        self.meta || self.online || self.on || self.brightness || self.kelvin || self.error
    }

    /// Diff two snapshots of the same light.
    pub fn between(before: &LightRecord, after: &LightRecord) -> (r: Self)
        ensures
            r == Changed::difference(before@, after@),
    {
        Changed {
            meta: before.name != after.name || before.model != after.model || before.firmware
                != after.firmware || before.endpoint != after.endpoint,
            online: before.online() != after.online(),
            on: before.desired.on != after.desired.on,
            brightness: before.desired.brightness != after.desired.brightness,
            kelvin: before.desired.kelvin != after.desired.kelvin,
            error: before.last_error != after.last_error,
        }
    }
}

impl RecordView {
    /// A light is online exactly when it has told us something recently.
    pub open spec fn online(self) -> bool {
        self.reported is Some
    }

    /// Whether a push is owed to make a state true: the desired state moves, or
    /// the hardware does not already agree with it.
    pub open spec fn owes(self, next: LightState) -> bool {
        self.desired != next || self.reported != Some(next)
    }

    /// The light after it was asked for a state.
    pub open spec fn driven(self, next: LightState, now: u64) -> RecordView {
        if self.owes(next) {
            RecordView {
                desired: next,
                dirty_since: match self.dirty_since {
                    Some(since) => Some(since),
                    None => Some(now),
                },
                ..self
            }
        } else {
            self
        }
    }

    /// What clients would see of asking for a state, or nothing when no push is
    /// owed at all.
    pub open spec fn announcement(self, next: LightState) -> Option<Changed> {
        if self.owes(next) {
            Some(Changed::moved(self.desired, next))
        } else {
            None
        }
    }
}

impl Clone for LightRecord {
    fn clone(&self) -> (r: Self)
        ensures
            r@ == self@,
    {
        LightRecord {
            id: self.id.clone(),
            fullname: self.fullname.clone(),
            name: self.name.clone(),
            model: self.model.clone(),
            firmware: self.firmware.clone(),
            endpoint: self.endpoint,
            desired: self.desired,
            reported: self.reported,
            last_error: self.last_error.clone(),
            dirty_since: self.dirty_since,
        }
    }
}

impl LightRecord {
    /// A light is online exactly when it has told us something recently.
    pub fn online(&self) -> (r: bool)
        ensures
            r == self@.online(),
    {
        self.reported.is_some()
    }

    /// Point `desired` at `next`, returning what clients would see change, or
    /// `None` when no push is owed at all.
    ///
    /// A push is owed whenever the hardware does not already match — not merely
    /// when the desired value changed. That way re-issuing the same command
    /// after someone used the Elgato app corrects the drift instead of being
    /// silently swallowed as a no-op. The returned [`Changed`] can still be
    /// empty in that case: a corrective push nobody can observe emits no signal.
    pub(crate) fn set_desired(&mut self, next: LightState, now: u64) -> (r: Option<Changed>)
        ensures
            final(self)@ == old(self)@.driven(next, now),
            r == old(self)@.announcement(next),
    {
        let agreed = match self.reported {
            Some(state) => state == next,
            None => false,
        };
        let owed = self.desired != next || !agreed;
        if !owed {
            return None;
        }
        let before = self.desired;
        self.desired = next;
        if self.dirty_since.is_none() {
            self.dirty_since = Some(now);
        }
        Some(
            Changed {
                meta: false,
                online: false,
                on: before.on != next.on,
                brightness: before.brightness != next.brightness,
                kelvin: before.kelvin != next.kelvin,
                error: false,
            },
        )
    }

    /// Move this lamp without touching its gang.
    ///
    /// Only alt-drag uses this: every other path goes through the world's
    /// `apply`, which expands gangs. Bypassing propagation is what lets the user
    /// set a new difference instead of dragging the whole instrument.
    pub fn set_desired_alone(&mut self, next: LightState, now: u64) -> (r: Option<Changed>)
        ensures
            final(self)@ == old(self)@.driven(next, now),
            r == old(self)@.announcement(next),
    {
        self.set_desired(next, now)
    }
}

/// A record compared with itself shows no change.
pub proof fn law_an_unchanged_record_announces_nothing(record: RecordView)
    ensures
        Changed::difference(record, record) == Changed::nothing(),
{
}

/// Asking for a state makes it the desired one, and asking again before the
/// hardware answered moves nothing a client could see and keeps the time since
/// which a push is owed.
pub proof fn law_asking_twice_is_asking_once(
    record: RecordView,
    next: LightState,
    now: u64,
    later: u64,
)
    ensures
        record.driven(next, now).desired == next,
        record.driven(next, now).driven(next, later) == record.driven(next, now),
        record.driven(next, now).announcement(next) matches Some(changed) ==> changed
            == Changed::nothing(),
{
}

/// A light whose hardware already agrees is owed no push and is not touched.
pub proof fn law_an_agreeing_light_is_left_alone(record: RecordView, now: u64)
    requires
        record.reported == Some(record.desired),
    ensures
        record.driven(record.desired, now) == record,
        record.announcement(record.desired) is None,
{
}

/// What is announced is exactly what a client could see move: each property on
/// its own, and nothing that stayed.
pub proof fn law_changes_name_what_moved(before: RecordView, after: RecordView)
    ensures
        ({
            let changed = Changed::difference(before, after);
            &&& changed.on <==> before.desired.on != after.desired.on
            &&& changed.brightness <==> before.desired.brightness != after.desired.brightness
            &&& changed.kelvin <==> before.desired.kelvin != after.desired.kelvin
            &&& changed.online <==> (before.reported is Some) != (after.reported is Some)
            &&& changed.error <==> before.last_error != after.last_error
            &&& changed.meta <==> !(before.name == after.name && before.model == after.model
                && before.firmware == after.firmware && before.endpoint == after.endpoint)
        }),
{
}

/// A light that is asked for a state is asked for exactly that, owes a push
/// unless the hardware already agrees and nothing moved, and owes it since it was
/// first owed. Nothing else about the light changes.
pub proof fn law_asking_makes_a_push_owed(record: RecordView, next: LightState, now: u64)
    ensures
        ({
            let after = record.driven(next, now);
            let agreed = record.desired == next && record.reported == Some(next);
            &&& after.desired == next
            &&& agreed ==> after.dirty_since == record.dirty_since
            &&& !agreed && record.dirty_since is None ==> after.dirty_since == Some(now)
            &&& record.dirty_since is Some ==> after.dirty_since == record.dirty_since
            &&& after.reported == record.reported
            &&& after.last_error == record.last_error
            &&& after.id == record.id
            &&& after.fullname == record.fullname
            &&& after.name == record.name
            &&& after.model == record.model
            &&& after.firmware == record.firmware
            &&& after.endpoint == record.endpoint
        }),
{
}

/// Asking announces the fields that move, and says nothing at all exactly when no
/// push is owed.
pub proof fn law_asking_announces_what_moves(record: RecordView, next: LightState)
    ensures
        record.announcement(next) is None <==> record.desired == next && record.reported == Some(
            next,
        ),
        record.announcement(next) matches Some(changed) ==> {
            &&& changed.on <==> record.desired.on != next.on
            &&& changed.brightness <==> record.desired.brightness != next.brightness
            &&& changed.kelvin <==> record.desired.kelvin != next.kelvin
            &&& !changed.meta && !changed.online && !changed.error
        },
{
}

} // verus!
