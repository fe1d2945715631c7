//! violino: the verified core of a bowed-string MIDI player.
//!
//! - `smf`: a Standard MIDI File parser, proved to follow a byte-level
//!   description of the format.
//! - `timeline`: merging tracks into tick order and resolving the tempo map.
//! - `player`: the controller mapping, the held-note stack of a monophonic
//!   legato player, and the bow-noise generator.

use vstd::prelude::*;

pub mod player;
pub mod smf;
pub mod timeline;

pub use player::{Mapping, PlayerState};
pub use smf::{parse, EventKind, Smf, SmfError, TrackEvent};
pub use timeline::{merge_tracks, tempo_spans, tick_timeline, TempoSpan, TickEvent};

verus! {

} // verus!
