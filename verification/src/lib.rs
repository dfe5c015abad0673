//! Light control for a desk of Key Lights.
//!
//! The library holds every decision of the daemon and of the command line:
//! unit parsing, relative adjustments, group aggregation, gangs, scenes, the
//! mired conversion, reconciliation with what the hardware reports, and what is
//! rendered. No sockets, no clocks, no files: time is an argument, what the
//! network said is an argument, and what has to happen on the network comes back
//! as a value. Every function states what it returns, and is proved to.
//!
//! The ideas worth knowing:
//!
//! * [`LightState`] is a complete state; [`StatePatch`] is a partial change to
//!   one. Commands are patches, so `gaffer set left +10%` needs no round-trip
//!   to know what it means: it resolves against whatever the light reports.
//! * [`Selector`] decides which lights a command addresses, and may match more
//!   than one.
//! * [`group::aggregate`] collapses several lights into one state for display,
//!   which is how the "all lights" pseudo-device works.
//! * [`Link`] gangs lamps so that they move as one instrument; [`scene::Scene`]
//!   remembers a whole desk.
//! * [`world::World`] is every lamp, gang and scene; [`supervisor::Supervisor`]
//!   decides what each event does to it and what to do next.
//!
//! What holds across several functions is stated and proved next to them, and,
//! where it spans the whole desk, in [`laws`].
use vstd::prelude::*;

pub mod cli;
pub mod color;
pub mod config;
pub mod dbus;
pub mod discovery;
pub mod elgato;
pub mod endpoint;
pub mod group;
pub mod json;
pub mod laws;
pub mod link;
pub mod names;
pub mod proxy;
pub mod record;
pub mod render;
pub mod scene;
pub mod selector;
pub mod state;
pub mod strings;
pub mod supervisor;
pub mod text;
pub mod units;
pub mod world;

pub use color::{kelvin_to_mired, mired_to_kelvin, MAX_KELVIN, MIN_KELVIN};
pub use link::{Link, LinkMode};
pub use scene::{Scene, SceneGang, SceneLamp, ScenePlan};
pub use selector::Selector;
pub use state::{Adjust, LightState, Power, StatePatch, MAX_BRIGHTNESS};
pub use text::{normalize_id, sanitize};
pub use units::{parse_patch, parse_token, ParseError, Token};

verus! {

} // verus!
