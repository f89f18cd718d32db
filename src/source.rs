//! The source chart model: one difficulty of a chart set, with its tempo
//! events, scroll events and notes. Tempo is held in thousandths of a BPM and
//! scroll multipliers in millionths, so that every computation stays exact.
use crate::beat::RationalBeat;
use vstd::prelude::*;

verus! {

/// The mode flag value of key-style charts, the one mode that converts.
pub const KEY_MODE: u8 = 0;

#[derive(Clone, Debug)]
pub struct Song {
    pub title: String,
    pub artist: String,
    pub titleorg: Option<String>,
    pub artistorg: Option<String>,
}

#[derive(Clone, Copy, Debug)]
pub struct ModeExt {
    pub column: u8,
}

#[derive(Clone, Debug)]
pub struct Meta {
    pub creator: String,
    pub background: String,
    pub version: String,
    pub preview: Option<i32>,
    pub mode: u8,
    pub song: Song,
    pub mode_ext: ModeExt,
}

/// A tempo event: `bpm_milli / 1000` beats per minute from `beat` onward.
#[derive(Clone, Copy, Debug)]
pub struct Beat {
    pub beat: RationalBeat,
    pub bpm_milli: u32,
}

/// A scroll-speed event: multiplier `scroll_micro / 1_000_000` from `beat` onward.
#[derive(Clone, Copy, Debug)]
pub struct Effect {
    pub beat: RationalBeat,
    pub scroll_micro: i64,
}

/// A note. The last note of a chart is a sentinel that carries the audio
/// sample and the global offset instead of being playable.
#[derive(Clone, Debug)]
pub struct Note {
    pub beat: RationalBeat,
    pub endbeat: Option<RationalBeat>,
    pub column: Option<u8>,
    pub sound: Option<String>,
    pub vol: Option<i16>,
    pub offset: Option<i32>,
    pub note_type: Option<u8>,
}

#[derive(Clone, Debug)]
pub struct McData {
    pub meta: Meta,
    pub time: Vec<Beat>,
    pub effect: Option<Vec<Effect>>,
    pub note: Vec<Note>,
}

/// Every tempo event has a positive tempo and a valid beat, and the events
/// come in non-decreasing beat order.
pub open spec fn tempo_events_wf(events: Seq<Beat>) -> bool {
    &&& forall|i: int| 0 <= i < events.len() ==> (#[trigger] events[i]).bpm_milli > 0
    &&& forall|i: int| 0 <= i < events.len() ==> (#[trigger] events[i]).beat.wf()
    &&& forall|i: int, j: int|
        0 <= i < j < events.len() ==> #[trigger] events[i].beat.num() * events[j].beat.den()
            <= #[trigger] events[j].beat.num() * events[i].beat.den()
}

} // verus!
