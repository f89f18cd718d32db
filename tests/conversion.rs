use mania_converter::beat::RationalBeat;
use mania_converter::convert::{
    convert_mc_to_osu, sanitize_chart_resources, transcode_all, transcode_chart, ChartError,
};
use mania_converter::notes::{map_notes, x_pixel, OsuHitObject};
use mania_converter::source::{Beat, Effect, McData, Meta, ModeExt, Note, Song};
use mania_converter::timeline::{beat_to_time, build_tempo_timeline};
use mania_converter::timing::{merge_timing_points, scroll_points, tempo_points, OsuTimingPoint};

fn rb(whole: u32, numerator: u32, denominator: u32) -> RationalBeat {
    RationalBeat { whole, numerator, denominator }
}

fn tempo(beat: RationalBeat, bpm: u32) -> Beat {
    Beat { beat, bpm_milli: bpm * 1000 }
}

fn note(beat: RationalBeat, column: u8) -> Note {
    Note { beat, endbeat: None, column: Some(column), sound: None, vol: None, offset: None, note_type: None }
}

fn sentinel(offset: i32, sound: &str) -> Note {
    Note {
        beat: rb(0, 0, 1),
        endbeat: None,
        column: None,
        sound: Some(sound.to_string()),
        vol: Some(100),
        offset: Some(offset),
        note_type: Some(1),
    }
}

fn chart(mode: u8, columns: u8, time: Vec<Beat>, effect: Option<Vec<Effect>>, mut notes: Vec<Note>, offset: i32) -> McData {
    notes.push(sentinel(offset, "song.ogg"));
    McData {
        meta: Meta {
            creator: "mapper".to_string(),
            background: "bg.jpg".to_string(),
            version: "4K Hard".to_string(),
            preview: Some(12000),
            mode,
            song: Song {
                title: "曲".to_string(),
                artist: "歌手".to_string(),
                titleorg: Some("Kyoku".to_string()),
                artistorg: None,
            },
            mode_ext: ModeExt { column: columns },
        },
        time,
        effect,
        note: notes,
    }
}

fn tp(time: u32, val_num: i64, val_den: u64, is_timing: bool) -> OsuTimingPoint {
    OsuTimingPoint { time, val_num, val_den, is_timing }
}

#[test]
fn single_tempo_beat_times() {
    let bps = build_tempo_timeline(&vec![tempo(rb(0, 0, 1), 120)], 0).unwrap();
    assert_eq!(beat_to_time(&bps, 0, rb(0, 0, 1)), 0);
    for n in 0..20u32 {
        assert_eq!(beat_to_time(&bps, 0, rb(n, 0, 1)), n * 500);
    }
    let bps = build_tempo_timeline(&vec![tempo(rb(0, 0, 1), 180)], 0).unwrap();
    assert_eq!(beat_to_time(&bps, 0, rb(3, 0, 1)), 1000);
    assert_eq!(beat_to_time(&bps, 0, rb(1, 0, 1)), 333);
}

#[test]
fn empty_tempo_list_is_rejected() {
    assert!(build_tempo_timeline(&vec![], 0).is_none());
}

#[test]
fn lead_in_offset_moves_first_breakpoint() {
    let bps = build_tempo_timeline(&vec![tempo(rb(0, 0, 1), 120)], 100).unwrap();
    assert_eq!(bps[0].beat_num, 1);
    assert_eq!(bps[0].beat_den, 1);
    assert_eq!(bps[0].time_ms, 400);
    // before the first breakpoint: beat * 500 - 100, clamped at 0
    assert_eq!(beat_to_time(&bps, 100, rb(0, 0, 1)), 0);
    assert_eq!(beat_to_time(&bps, 100, rb(0, 1, 2)), 150);
    assert_eq!(beat_to_time(&bps, 100, rb(2, 0, 1)), 900);
}

#[test]
fn tempo_change_uses_previous_tempo_until_its_beat() {
    let events = vec![tempo(rb(0, 0, 1), 120), tempo(rb(4, 0, 1), 240)];
    let bps = build_tempo_timeline(&events, 0).unwrap();
    assert_eq!(bps.len(), 2);
    assert_eq!(bps[1].time_ms, 2000);
    assert_eq!(beat_to_time(&bps, 0, rb(4, 0, 1)), 2000);
    assert_eq!(beat_to_time(&bps, 0, rb(6, 0, 1)), 2500);
    assert_eq!(beat_to_time(&bps, 0, rb(3, 1, 2)), 1750);
    // breakpoints ordered by beat and by time
    assert!(bps[0].time_ms <= bps[1].time_ms);
    assert!(bps[0].beat_num * bps[1].beat_den <= bps[1].beat_num * bps[0].beat_den);
}

#[test]
fn rightmost_segment_is_used() {
    let events = vec![
        tempo(rb(0, 0, 1), 120),
        tempo(rb(2, 0, 1), 60),
        tempo(rb(2, 0, 1), 240),
        tempo(rb(5, 0, 1), 120),
    ];
    let bps = build_tempo_timeline(&events, 0).unwrap();
    let times: Vec<u32> = bps.iter().map(|b| b.time_ms).collect();
    assert_eq!(times, vec![0, 1000, 1000, 1750]);
    // at beat 2 the last breakpoint at or before it is the 240 BPM one
    assert_eq!(beat_to_time(&bps, 0, rb(3, 0, 1)), 1250);
    assert_eq!(beat_to_time(&bps, 0, rb(6, 0, 1)), 2250);
}

#[test]
fn merged_points_are_time_ordered() {
    let tempo_pts = vec![tp(0, 60_000_000, 120_000, true), tp(2000, 60_000_000, 240_000, true)];
    let scroll = vec![tp(500, -100_000_000, 500_000, false), tp(2500, -100_000_000, 1, false)];
    let merged = merge_timing_points(&tempo_pts, &scroll);
    let times: Vec<u32> = merged.iter().map(|p| p.time).collect();
    assert_eq!(times, vec![0, 500, 2000, 2500]);
    for w in merged.windows(2) {
        assert!(w[0].time <= w[1].time);
    }
}

#[test]
fn tempo_point_wins_tie() {
    let tempo_pts = vec![tp(0, 60_000_000, 120_000, true), tp(1000, 60_000_000, 60_000, true)];
    let scroll = vec![tp(1000, -100_000_000, 2_000_000, false)];
    let merged = merge_timing_points(&tempo_pts, &scroll);
    assert_eq!(merged.len(), 3);
    assert!(merged[1].is_timing);
    assert_eq!(merged[1].time, 1000);
    assert!(!merged[2].is_timing);
    assert_eq!(merged[2].time, 1000);
}

#[test]
fn scroll_points_before_first_tempo_point_are_dropped() {
    let tempo_pts = vec![tp(400, 60_000_000, 120_000, true)];
    let scroll = vec![tp(100, -100_000_000, 1, false), tp(400, -100_000_000, 1, false)];
    let merged = merge_timing_points(&tempo_pts, &scroll);
    assert_eq!(merged, vec![tp(400, 60_000_000, 120_000, true), tp(400, -100_000_000, 1, false)]);
}

#[test]
fn scroll_values() {
    let bps = build_tempo_timeline(&vec![tempo(rb(0, 0, 1), 120)], 0).unwrap();
    let effects = vec![
        Effect { beat: rb(1, 0, 1), scroll_micro: 500_000 },
        Effect { beat: rb(2, 0, 1), scroll_micro: 0 },
        Effect { beat: rb(3, 0, 1), scroll_micro: -1_000_000 },
    ];
    let pts = scroll_points(&bps, 0, &effects);
    assert_eq!(pts[0], tp(500, -100_000_000, 500_000, false));
    assert_eq!(pts[1], tp(1000, -100_000_000, 1, false));
    assert_eq!(pts[2], tp(1500, -100_000_000, 1, false));
    let tpts = tempo_points(&bps);
    assert_eq!(tpts, vec![tp(0, 60_000_000, 120_000, true)]);
}

#[test]
fn column_positions_are_distinct() {
    for total in 1..=18u8 {
        let xs: Vec<u32> = (0..total).map(|c| x_pixel(c, total)).collect();
        for i in 0..xs.len() {
            for j in 0..xs.len() {
                if i != j {
                    assert_ne!(xs[i], xs[j]);
                }
            }
        }
    }
    assert_eq!(x_pixel(0, 4), 64);
    assert_eq!(x_pixel(3, 4), 448);
    assert_eq!(x_pixel(0, 7), 36);
    assert_eq!(x_pixel(254, 255), 510);
}

#[test]
fn one_tempo_event_gives_one_timing_point() {
    let mc = chart(0, 4, vec![tempo(rb(0, 0, 1), 120)], None, vec![], 0);
    let d = convert_mc_to_osu(&mc).unwrap();
    assert_eq!(d.timings, vec![tp(0, 60_000_000, 120_000, true)]);
    assert_eq!(d.timings[0].val_num as f64 / d.timings[0].val_den as f64, 500.0);
    let (_, text) = transcode_chart(&mc).unwrap();
    assert!(text.contains("[TimingPoints]\n0,500,4,2,0,10,1,0\n\n[HitObjects]\n"));
}

#[test]
fn note_position_and_time() {
    let mc = chart(0, 4, vec![tempo(rb(0, 0, 1), 120)], None, vec![note(rb(4, 0, 1), 1)], 0);
    let d = convert_mc_to_osu(&mc).unwrap();
    assert_eq!(d.notes, vec![OsuHitObject { x_pos: 192, time: 2000, end_time: None }]);
}

#[test]
fn hold_note_and_default_column() {
    let bps = build_tempo_timeline(&vec![tempo(rb(0, 0, 1), 120)], 0).unwrap();
    let mut hold = note(rb(1, 0, 1), 2);
    hold.endbeat = Some(rb(2, 1, 2));
    let mut nocol = note(rb(3, 0, 1), 0);
    nocol.column = None;
    let notes = vec![hold, nocol, sentinel(0, "a.ogg")];
    let hs = map_notes(&bps, 0, 4, &notes);
    assert_eq!(
        hs,
        vec![
            OsuHitObject { x_pos: 320, time: 500, end_time: Some(1250) },
            OsuHitObject { x_pos: 64, time: 1500, end_time: None },
        ]
    );
}

#[test]
fn non_key_mode_is_skipped() {
    let mc = chart(1, 4, vec![tempo(rb(0, 0, 1), 120)], None, vec![note(rb(4, 0, 1), 1)], 0);
    assert_eq!(convert_mc_to_osu(&mc).unwrap_err(), ChartError::UnsupportedMode);
    let good = chart(0, 4, vec![tempo(rb(0, 0, 1), 120)], None, vec![note(rb(4, 0, 1), 1)], 0);
    let results = transcode_all(&vec![good.clone(), mc, good]);
    assert_eq!(results.len(), 3);
    assert!(results[0].is_ok());
    assert_eq!(results[1].as_ref().unwrap_err(), &ChartError::UnsupportedMode);
    let (d, _) = results[2].as_ref().unwrap();
    assert_eq!(d.notes.len(), 1);
}

#[test]
fn missing_tempo_and_invalid_data() {
    let mc = chart(0, 4, vec![], None, vec![note(rb(4, 0, 1), 1)], 0);
    assert_eq!(convert_mc_to_osu(&mc).unwrap_err(), ChartError::MissingTempoData);
    let zero_den = chart(0, 4, vec![tempo(rb(0, 0, 1), 120)], None, vec![note(rb(4, 1, 0), 1)], 0);
    assert_eq!(convert_mc_to_osu(&zero_den).unwrap_err(), ChartError::InvalidData);
    let unordered = chart(0, 4, vec![tempo(rb(4, 0, 1), 120), tempo(rb(2, 0, 1), 100)], None, vec![], 0);
    assert_eq!(convert_mc_to_osu(&unordered).unwrap_err(), ChartError::InvalidData);
    let zero_bpm = chart(0, 4, vec![Beat { beat: rb(0, 0, 1), bpm_milli: 0 }], None, vec![], 0);
    assert_eq!(convert_mc_to_osu(&zero_bpm).unwrap_err(), ChartError::InvalidData);
    let no_columns = chart(0, 0, vec![tempo(rb(0, 0, 1), 120)], None, vec![], 0);
    assert_eq!(convert_mc_to_osu(&no_columns).unwrap_err(), ChartError::InvalidData);
    let mut no_notes = chart(0, 4, vec![tempo(rb(0, 0, 1), 120)], None, vec![], 0);
    no_notes.note.clear();
    assert_eq!(convert_mc_to_osu(&no_notes).unwrap_err(), ChartError::InvalidData);
}

#[test]
fn metadata_is_carried_over() {
    let mc = chart(0, 7, vec![tempo(rb(0, 0, 1), 150)], None, vec![], 0);
    let d = convert_mc_to_osu(&mc).unwrap();
    assert_eq!(d.misc.audio_file_name, "song.ogg");
    assert_eq!(d.misc.title, "Kyoku");
    assert_eq!(d.misc.title_unicode, "曲");
    assert_eq!(d.misc.artist, "歌手");
    assert_eq!(d.misc.artist_unicode, "歌手");
    assert_eq!(d.misc.creator, "mapper");
    assert_eq!(d.misc.version, "4K Hard");
    assert_eq!(d.misc.circle_size, 7);
    assert_eq!(d.misc.od_tenths, 80);
    assert_eq!(d.misc.preview_time, 12000);
    assert_eq!(d.misc.background, "bg.jpg");
}

#[test]
fn merged_timeline_from_chart() {
    let effects = vec![
        Effect { beat: rb(2, 0, 1), scroll_micro: 2_000_000 },
        Effect { beat: rb(4, 0, 1), scroll_micro: 1_000_000 },
    ];
    let mc = chart(
        0,
        4,
        vec![tempo(rb(0, 0, 1), 120), tempo(rb(4, 0, 1), 180)],
        Some(effects),
        vec![],
        0,
    );
    let d = convert_mc_to_osu(&mc).unwrap();
    assert_eq!(
        d.timings,
        vec![
            tp(0, 60_000_000, 120_000, true),
            tp(1000, -100_000_000, 2_000_000, false),
            tp(2000, 60_000_000, 180_000, true),
            tp(2000, -100_000_000, 1_000_000, false),
        ]
    );
}

#[test]
fn sanitize_resources_in_chart() {
    let mut mc = chart(0, 4, vec![tempo(rb(0, 0, 1), 120)], None, vec![], 0);
    mc.meta.background = "背景 1.jpg".to_string();
    let last = mc.note.len() - 1;
    mc.note[last].sound = Some("a:b?.ogg".to_string());
    sanitize_chart_resources(&mut mc);
    assert_eq!(mc.meta.background, "__ 1.jpg");
    assert_eq!(mc.note[last].sound.as_deref(), Some("a_b_.ogg"));
    assert_eq!(mc.meta.creator, "mapper");
}

#[test]
fn empty_timeline_and_largest_time() {
    assert_eq!(beat_to_time(&vec![], 0, rb(7, 1, 2)), 0);
    let slow = build_tempo_timeline(&vec![Beat { beat: rb(0, 0, 1), bpm_milli: 1 }], 0).unwrap();
    assert_eq!(beat_to_time(&slow, 0, rb(1, 0, 1)), 60_000_000);
    assert_eq!(beat_to_time(&slow, 0, rb(u32::MAX, 0, 1)), u32::MAX);
    let late = build_tempo_timeline(&vec![tempo(rb(0, 0, 1), 120)], i32::MIN).unwrap();
    // the first whole beat at or after the lead-in: -4294967, reached 148 ms in
    assert_eq!(late[0].beat_num, -4_294_967);
    assert_eq!(late[0].time_ms, 148);
    assert_eq!(beat_to_time(&late, i32::MIN, rb(0, 0, 1)), 2_147_483_648);
}
