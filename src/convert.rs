//! The chart transcoder: one source chart in, the target chart model out.
use crate::beat::{lemma_frac_le_trans, lemma_mul_abs_le};
use crate::notes::{hit_object, map_notes, note_wf, OsuHitObject};
use crate::source::{tempo_events_wf, Beat, Effect, McData, Note, Song, KEY_MODE};
use crate::serialize::{osu_text, serialize_osu_data, timings_wf};
use crate::text::{sanitize_filename, sanitized};
use crate::timeline::{
    bp_bounded, build_tempo_timeline, lemma_time_of_beat_in_range, lemma_time_of_beat_monotone,
    lemma_timeline_ordered, lemma_timeline_time_in_range, tail_sorted, timeline, BreakpointModel,
};
use crate::timing::{
    lemma_merged_timing_members, lemma_merged_timing_sorted, lemma_merged_timing_tempo_first,
    merge_timing_points, merged_timing, sorted_by_time, scroll_point, scroll_points, tempo_point, tempo_points,
    OsuTimingPoint,
};
use vstd::prelude::*;

verus! {

/// The overall difficulty written into every converted chart, in tenths.
pub const CONVERTED_OD_TENTHS: u32 = 80;

/// Why a chart did not convert.
#[derive(Clone, Copy, Debug, PartialEq, Eq)]
pub enum ChartError {
    /// The chart text is not a well-formed source chart.
    ParseError,
    /// The chart is not a key-style chart.
    UnsupportedMode,
    /// The chart has no tempo event to anchor its timeline.
    MissingTempoData,
    /// The chart breaks the source format's invariants: a zero denominator,
    /// a zero tempo, tempo events out of beat order, no columns, or no
    /// sentinel note.
    InvalidData,
}

/// Metadata of the target chart.
#[derive(Clone, Debug)]
pub struct OsuMisc {
    pub audio_file_name: String,
    pub preview_time: i32,
    pub title: String,
    pub title_unicode: String,
    pub artist: String,
    pub artist_unicode: String,
    pub creator: String,
    pub version: String,
    pub circle_size: u32,
    /// Overall difficulty in tenths.
    pub od_tenths: u32,
    pub background: String,
}

/// The target chart model.
#[derive(Clone, Debug)]
pub struct OsuData {
    pub misc: OsuMisc,
    pub timings: Vec<OsuTimingPoint>,
    pub notes: Vec<OsuHitObject>,
}

/// The lead-in offset carried by the sentinel note (0 when absent).
pub open spec fn sentinel_offset(notes: Seq<Note>) -> int {
    if notes.len() == 0 {
        0
    } else {
        match notes.last().offset {
            Some(o) => o as int,
            None => 0,
        }
    }
}

/// The audio file named by the sentinel note (empty when absent).
pub open spec fn sentinel_sound(notes: Seq<Note>) -> Seq<char> {
    if notes.len() == 0 {
        seq![]
    } else {
        match notes.last().sound {
            Some(s) => s@,
            None => seq![],
        }
    }
}

/// The romanised title: `titleorg` when present, `title` otherwise.
pub open spec fn plain_title(song: Song) -> Seq<char> {
    match song.titleorg {
        Some(t) => t@,
        None => song.title@,
    }
}

pub open spec fn plain_artist(song: Song) -> Seq<char> {
    match song.artistorg {
        Some(a) => a@,
        None => song.artist@,
    }
}

pub open spec fn chart_effects(mc: McData) -> Seq<Effect> {
    match mc.effect {
        Some(v) => v@,
        None => seq![],
    }
}

/// The invariants of a source chart that the conversion relies on.
pub open spec fn chart_valid(mc: McData) -> bool {
    &&& tempo_events_wf(mc.time@)
    &&& mc.meta.mode_ext.column > 0
    &&& mc.note@.len() > 0
    &&& forall|i: int| 0 <= i < mc.note@.len() ==> note_wf(#[trigger] mc.note@[i])
    &&& forall|i: int| 0 <= i < chart_effects(mc).len() ==> (#[trigger] chart_effects(mc)[i]).beat.wf()
}

/// The metadata of the target chart of `mc`.
pub open spec fn misc_of(mc: McData, m: OsuMisc) -> bool {
    &&& m.audio_file_name@ == sentinel_sound(mc.note@)
    &&& m.preview_time == match mc.meta.preview {
        Some(p) => p,
        None => 0,
    }
    &&& m.title@ == plain_title(mc.meta.song)
    &&& m.title_unicode@ == mc.meta.song.title@
    &&& m.artist@ == plain_artist(mc.meta.song)
    &&& m.artist_unicode@ == mc.meta.song.artist@
    &&& m.creator@ == mc.meta.creator@
    &&& m.version@ == mc.meta.version@
    &&& m.circle_size == mc.meta.mode_ext.column as u32
    &&& m.od_tenths == CONVERTED_OD_TENTHS
    &&& m.background@ == mc.meta.background@
}

/// The timeline of `mc`: built from its tempo events and its sentinel offset.
pub open spec fn chart_timeline(mc: McData) -> Seq<BreakpointModel> {
    timeline(mc.time@, sentinel_offset(mc.note@))
}

/// `d` is the target chart of `mc`: its metadata, the tempo points merged
/// with the scroll points, and one hit object per note but the sentinel.
pub open spec fn converts_to(mc: McData, d: OsuData) -> bool {
    let tl = chart_timeline(mc);
    let off = sentinel_offset(mc.note@);
    &&& misc_of(mc, d.misc)
    &&& d.timings@ == merged_timing(
        tl.map_values(|b: BreakpointModel| tempo_point(b)),
        chart_effects(mc).map_values(|e: Effect| scroll_point(tl, off, e)),
    )
    &&& d.notes@ == mc.note@.drop_last().map_values(
        |n: Note| hit_object(tl, off, mc.meta.mode_ext.column as int, n),
    )
}

/// Checks the tempo events: positive tempos, valid beats, beat order.
pub fn check_tempo_events(events: &Vec<Beat>) -> (r: bool)
    ensures
        r == tempo_events_wf(events@),
{
    let mut k: usize = 0;
    while k < events.len()
        invariant
            k <= events@.len(),
            tempo_events_wf(events@.take(k as int)),
        decreases events@.len() - k,
    {
        let e = events[k];
        if e.bpm_milli == 0 || e.beat.denominator == 0 {
            proof {
                assert(events@[k as int] == e);
            }
            return false;
        }
        if k > 0 {
            let p = events[k - 1];
            let pn = p.beat.fraction_num();
            let en = e.beat.fraction_num();
            proof {
                lemma_mul_abs_le(pn as int, e.beat.denominator as int, 0x1_0000_0000_0000_0000, 0xffff_ffff);
                lemma_mul_abs_le(en as int, p.beat.denominator as int, 0x1_0000_0000_0000_0000, 0xffff_ffff);
            }
            if pn * (e.beat.denominator as i128) > en * (p.beat.denominator as i128) {
                proof {
                    assert(events@[k - 1] == p && events@[k as int] == e);
                }
                return false;
            }
            proof {
                let s = events@.take(k as int + 1);
                assert forall|i: int, j: int| 0 <= i < j < s.len() implies #[trigger] s[i].beat.num()
                    * s[j].beat.den() <= #[trigger] s[j].beat.num() * s[i].beat.den() by {
                    if j == k && i < k - 1 {
                        assert(events@.take(k as int)[i] == s[i]);
                        assert(events@.take(k as int)[k - 1] == s[k - 1]);
                        lemma_frac_le_trans(
                            s[i].beat.num(),
                            s[i].beat.den(),
                            p.beat.num(),
                            p.beat.den(),
                            e.beat.num(),
                            e.beat.den(),
                        );
                    } else if j < k {
                        assert(events@.take(k as int)[i] == s[i]);
                        assert(events@.take(k as int)[j] == s[j]);
                    }
                }
            }
        }
        k = k + 1;
        proof {
            let s = events@.take(k as int);
            assert forall|i: int| 0 <= i < s.len() implies (#[trigger] s[i]).bpm_milli > 0 && s[i].beat.wf() by {
                if i < k - 1 {
                    assert(events@.take(k - 1)[i] == s[i]);
                }
            }
        }
    }
    proof {
        assert(events@.take(events@.len() as int) =~= events@);
    }
    true
}

/// Checks that every note's beats are valid fractions.
fn check_notes(notes: &Vec<Note>) -> (r: bool)
    ensures
        r == forall|i: int| 0 <= i < notes@.len() ==> note_wf(#[trigger] notes@[i]),
{
    let mut k: usize = 0;
    while k < notes.len()
        invariant
            k <= notes@.len(),
            forall|i: int| 0 <= i < k ==> note_wf(#[trigger] notes@[i]),
        decreases notes@.len() - k,
    {
        let n = &notes[k];
        let end_ok = match n.endbeat {
            Some(e) => e.denominator > 0,
            None => true,
        };
        if n.beat.denominator == 0 || !end_ok {
            proof {
                assert(!note_wf(notes@[k as int]));
            }
            return false;
        }
        k = k + 1;
    }
    true
}

/// Checks that every scroll event's beat is a valid fraction.
fn check_effects(effects: &Vec<Effect>) -> (r: bool)
    ensures
        r == forall|i: int| 0 <= i < effects@.len() ==> (#[trigger] effects@[i]).beat.wf(),
{
    let mut k: usize = 0;
    while k < effects.len()
        invariant
            k <= effects@.len(),
            forall|i: int| 0 <= i < k ==> (#[trigger] effects@[i]).beat.wf(),
        decreases effects@.len() - k,
    {
        if effects[k].beat.denominator == 0 {
            return false;
        }
        k = k + 1;
    }
    true
}

/// Checks the invariants of a source chart that the conversion relies on.
pub fn check_chart(mc: &McData) -> (r: bool)
    ensures
        r == chart_valid(*mc),
{
    let effects_ok = match &mc.effect {
        Some(v) => check_effects(v),
        None => true,
    };
    assert(effects_ok == forall|i: int|
        0 <= i < chart_effects(*mc).len() ==> (#[trigger] chart_effects(*mc)[i]).beat.wf());
    if !check_tempo_events(&mc.time) || mc.meta.mode_ext.column == 0 || mc.note.len() == 0 {
        return false;
    }
    check_notes(&mc.note) && effects_ok
}

/// Ordered tempo events give a timeline whose breakpoints after the first are
/// in beat order.
proof fn lemma_timeline_tail_sorted(events: Seq<Beat>, offset: int)
    requires
        tempo_events_wf(events),
    ensures
        tail_sorted(timeline(events, offset)),
{
    let tl = timeline(events, offset);
    assert forall|i: int, j: int| 1 <= i < j < tl.len() implies #[trigger] crate::timeline::beat_le(
        tl[i],
        tl[j].beat_num,
        tl[j].beat_den,
    ) && #[trigger] tl[j].beat_den > 0 by {
        assert(events[i].beat.num() * events[j].beat.den() <= events[j].beat.num() * events[i].beat.den());
        assert(events[j].beat.wf());
    }
}

fn clone_string(s: &String) -> (r: String)
    ensures
        r@ == s@,
{
    s.clone()
}

/// Converts one source chart into the target chart model. Only key-style
/// charts convert; a chart without tempo events, or one that breaks the
/// source format's invariants, is rejected.
pub fn convert_mc_to_osu(mc: &McData) -> (r: Result<OsuData, ChartError>)
    ensures
        mc.meta.mode != KEY_MODE ==> r matches Err(ChartError::UnsupportedMode),
        mc.meta.mode == KEY_MODE && mc.time@.len() == 0 ==> r matches Err(
            ChartError::MissingTempoData,
        ),
        mc.meta.mode == KEY_MODE && mc.time@.len() > 0 && !chart_valid(*mc) ==> r matches Err(
            ChartError::InvalidData,
        ),
        r is Ok <==> mc.meta.mode == KEY_MODE && mc.time@.len() > 0 && chart_valid(*mc),
        r matches Ok(d) ==> converts_to(*mc, d) && timings_wf(d),
{
    if mc.meta.mode != KEY_MODE {
        return Err(ChartError::UnsupportedMode);
    }
    if mc.time.len() == 0 {
        return Err(ChartError::MissingTempoData);
    }
    if !check_chart(mc) {
        return Err(ChartError::InvalidData);
    }
    let last = &mc.note[mc.note.len() - 1];
    let offset: i32 = match last.offset {
        Some(o) => o,
        None => 0,
    };
    let audio: String = match &last.sound {
        Some(s) => clone_string(s),
        None => String::new(),
    };
    let bps = match build_tempo_timeline(&mc.time, offset) {
        Some(v) => v,
        None => {
            return Err(ChartError::MissingTempoData);
        },
    };
    proof {
        lemma_timeline_tail_sorted(mc.time@, offset as int);
    }
    let tempo = tempo_points(&bps);
    let scroll: Vec<OsuTimingPoint> = match &mc.effect {
        Some(effs) => {
            assert(effs@ == chart_effects(*mc));
            scroll_points(&bps, offset, effs)
        },
        None => Vec::new(),
    };
    let timings = merge_timing_points(&tempo, &scroll);
    proof {
        lemma_merged_timing_members(tempo@, scroll@);
        assert forall|i: int| 0 <= i < timings@.len() implies (#[trigger] timings@[i]).val_den > 0 by {
            if tempo@.contains(timings@[i]) {
                let w = choose|w: int| 0 <= w < tempo@.len() && tempo@[w] == timings@[i];
                assert(bp_bounded(bps@[w]@));
            } else {
                let w = choose|w: int| 0 <= w < scroll@.len() && scroll@[w] == timings@[i];
            }
        }
    }
    let notes = map_notes(&bps, offset, mc.meta.mode_ext.column, &mc.note);
    let song = &mc.meta.song;
    let title = match &song.titleorg {
        Some(t) => clone_string(t),
        None => clone_string(&song.title),
    };
    let artist = match &song.artistorg {
        Some(a) => clone_string(a),
        None => clone_string(&song.artist),
    };
    let misc = OsuMisc {
        audio_file_name: audio,
        preview_time: match mc.meta.preview {
            Some(p) => p,
            None => 0,
        },
        title,
        title_unicode: clone_string(&song.title),
        artist,
        artist_unicode: clone_string(&song.artist),
        creator: clone_string(&mc.meta.creator),
        version: clone_string(&mc.meta.version),
        circle_size: mc.meta.mode_ext.column as u32,
        od_tenths: CONVERTED_OD_TENTHS,
        background: clone_string(&mc.meta.background),
    };
    Ok(OsuData { misc, timings, notes })
}

/// The sentinel note with its audio sample name sanitized; nothing else changes.
pub open spec fn sanitized_sentinel(old_note: Note, new_note: Note) -> bool {
    &&& new_note.beat == old_note.beat
    &&& new_note.endbeat == old_note.endbeat
    &&& new_note.column == old_note.column
    &&& new_note.vol == old_note.vol
    &&& new_note.offset == old_note.offset
    &&& new_note.note_type == old_note.note_type
    &&& match old_note.sound {
        Some(s) => new_note.sound matches Some(t) && t@ == sanitized(s@),
        None => new_note.sound is None,
    }
}

/// Sanitizes the two file names a chart refers to: its background, and the
/// audio sample of its sentinel note when it names one. Nothing else changes.
pub fn sanitize_chart_resources(mc: &mut McData)
    ensures
        final(mc).meta.background@ == sanitized(old(mc).meta.background@),
        final(mc).meta.creator == old(mc).meta.creator,
        final(mc).meta.version == old(mc).meta.version,
        final(mc).meta.preview == old(mc).meta.preview,
        final(mc).meta.mode == old(mc).meta.mode,
        final(mc).meta.song == old(mc).meta.song,
        final(mc).meta.mode_ext == old(mc).meta.mode_ext,
        final(mc).time == old(mc).time,
        final(mc).effect == old(mc).effect,
        final(mc).note@.len() == old(mc).note@.len(),
        forall|i: int| 0 <= i < old(mc).note@.len() - 1 ==> final(mc).note@[i] == old(mc).note@[i],
        old(mc).note@.len() > 0 ==> sanitized_sentinel(old(mc).note@.last(), final(mc).note@.last()),
{
    let bg = sanitize_filename(mc.meta.background.as_str());
    mc.meta.background = bg;
    match mc.note.pop() {
        Some(mut last) => {
            let sound = match &last.sound {
                Some(s) => Some(sanitize_filename(s.as_str())),
                None => None,
            };
            last.sound = sound;
            mc.note.push(last);
        },
        None => {},
    }
}

/// The scroll events come in non-decreasing beat order.
pub open spec fn effects_ordered(effs: Seq<Effect>) -> bool {
    forall|i: int, j: int|
        0 <= i < j < effs.len() ==> #[trigger] effs[i].beat.num() * effs[j].beat.den()
            <= #[trigger] effs[j].beat.num() * effs[i].beat.den()
}

/// A converted chart's timing points are ordered by time whenever its scroll
/// events are in beat order, and where a tempo point and a scroll point share
/// a time the tempo point comes first.
pub proof fn lemma_converted_timing_ordered(mc: McData, d: OsuData)
    requires
        chart_valid(mc),
        converts_to(mc, d),
        effects_ordered(chart_effects(mc)),
    ensures
        sorted_by_time(d.timings@),
        forall|i: int, j: int|
            0 <= i < d.timings@.len() && 0 <= j < d.timings@.len() && (#[trigger] d.timings@[i]).is_timing
                && !(#[trigger] d.timings@[j]).is_timing && d.timings@[i].time == d.timings@[j].time
                ==> i < j,
{
    let off = sentinel_offset(mc.note@);
    let tl = chart_timeline(mc);
    let tempo = tl.map_values(|b: BreakpointModel| tempo_point(b));
    let effs = chart_effects(mc);
    let scroll = effs.map_values(|e: Effect| scroll_point(tl, off, e));
    assert forall|i: int, j: int| 0 <= i <= j < tempo.len() implies #[trigger] tempo[i].time
        <= #[trigger] tempo[j].time by {
        lemma_timeline_time_in_range(mc.time@, off, i);
        lemma_timeline_time_in_range(mc.time@, off, j);
        if i < j {
            lemma_timeline_ordered(mc.time@, off, i, j);
        }
    }
    assert forall|i: int, j: int| 0 <= i <= j < scroll.len() implies #[trigger] scroll[i].time
        <= #[trigger] scroll[j].time by {
        let ei = effs[i];
        let ej = effs[j];
        assert(ei.beat.wf() && ej.beat.wf());
        if i < j {
            lemma_time_of_beat_monotone(mc.time@, off, ei.beat.num(), ei.beat.den(), ej.beat.num(), ej.beat.den());
        }
        lemma_time_of_beat_in_range(tl, off, ei.beat.num(), ei.beat.den());
        lemma_time_of_beat_in_range(tl, off, ej.beat.num(), ej.beat.den());
    }
    lemma_merged_timing_sorted(tempo, scroll);
    assert forall|i: int, j: int|
        0 <= i < d.timings@.len() && 0 <= j < d.timings@.len() && (#[trigger] d.timings@[i]).is_timing
            && !(#[trigger] d.timings@[j]).is_timing && d.timings@[i].time == d.timings@[j].time implies i < j by {
        lemma_merged_timing_tempo_first(tempo, scroll, i, j);
    }
}

/// `r` is the outcome of transcoding `mc`: rejected as unsupported unless
/// key-style, as missing tempo data without tempo events, as invalid when
/// it breaks the source invariants; otherwise its target chart and text.
pub open spec fn transcoded(mc: McData, r: Result<(OsuData, String), ChartError>) -> bool {
    &&& mc.meta.mode != KEY_MODE ==> (r matches Err(ChartError::UnsupportedMode))
    &&& mc.meta.mode == KEY_MODE && mc.time@.len() == 0 ==> (r matches Err(
        ChartError::MissingTempoData,
    ))
    &&& mc.meta.mode == KEY_MODE && mc.time@.len() > 0 && !chart_valid(mc) ==> (r matches Err(
        ChartError::InvalidData,
    ))
    &&& (r is Ok <==> mc.meta.mode == KEY_MODE && mc.time@.len() > 0 && chart_valid(mc))
    &&& r matches Ok((d, text)) ==> converts_to(mc, d) && text@ == osu_text(d)
}

/// Converts one source chart and writes the target chart's text.
pub fn transcode_chart(mc: &McData) -> (r: Result<(OsuData, String), ChartError>)
    ensures
        transcoded(*mc, r),
{
    match convert_mc_to_osu(mc) {
        Ok(d) => {
            let text = serialize_osu_data(&d);
            Ok((d, text))
        },
        Err(e) => Err(e),
    }
}

/// Converts every chart of one container. Each result is that chart's own:
/// a chart that is rejected leaves the others untouched.
pub fn transcode_all(charts: &Vec<McData>) -> (r: Vec<Result<(OsuData, String), ChartError>>)
    ensures
        r@.len() == charts@.len(),
        forall|i: int| 0 <= i < charts@.len() ==> transcoded(#[trigger] charts@[i], r@[i]),
{
    let mut out: Vec<Result<(OsuData, String), ChartError>> = Vec::new();
    let mut i: usize = 0;
    while i < charts.len()
        invariant
            i <= charts@.len(),
            out@.len() == i,
            forall|k: int| 0 <= k < i ==> transcoded(#[trigger] charts@[k], out@[k]),
        decreases charts@.len() - i,
    {
        let r = transcode_chart(&charts[i]);
        out.push(r);
        i = i + 1;
    }
    out
}

} // verus!
