use mania_converter::beat::RationalBeat;
use mania_converter::convert::{convert_mc_to_osu, OsuData, OsuMisc};
use mania_converter::notes::OsuHitObject;
use mania_converter::serialize::serialize_osu_data;
use mania_converter::source::{Beat, McData, Meta, ModeExt, Note, Song};
use mania_converter::summary::format_length_str;
use mania_converter::text::{entry_file_name, sanitize_filename, strip_to_json_start};
use mania_converter::timing::OsuTimingPoint;

fn misc() -> OsuMisc {
    OsuMisc {
        audio_file_name: "audio.ogg".to_string(),
        preview_time: -5,
        title: "T".to_string(),
        title_unicode: "TU".to_string(),
        artist: "A".to_string(),
        artist_unicode: "AU".to_string(),
        creator: "C".to_string(),
        version: "V".to_string(),
        circle_size: 4,
        od_tenths: 85,
        background: "bg.png".to_string(),
    }
}

fn tp(time: u32, val_num: i64, val_den: u64, is_timing: bool) -> OsuTimingPoint {
    OsuTimingPoint { time, val_num, val_den, is_timing }
}

#[test]
fn sanitize_replaces_non_ascii_and_reserved() {
    assert_eq!(sanitize_filename("曲名/a:b*c?.mp3"), "___a_b_c_.mp3");
    assert_eq!(sanitize_filename("a\\b\"c<d>e|f.ogg"), "a_b_c_d_e_f.ogg");
    assert_eq!(sanitize_filename("plain name.jpg"), "plain name.jpg");
    assert_eq!(sanitize_filename(""), "");
}

#[test]
fn sanitize_is_idempotent() {
    for s in ["曲名/a:b*c?.mp3", "ok.png", "", "é|ü", "___"] {
        let once = sanitize_filename(s);
        assert_eq!(sanitize_filename(&once), once);
    }
}

#[test]
fn json_start_is_found() {
    assert_eq!(strip_to_json_start("\u{feff}junk{\"a\":1}"), "{\"a\":1}");
    assert_eq!(strip_to_json_start("{\"a\":{}}"), "{\"a\":{}}");
    assert_eq!(strip_to_json_start("no brace"), "no brace");
    assert_eq!(strip_to_json_start(""), "");
}

#[test]
fn entry_names() {
    assert_eq!(entry_file_name(&"dir/sub/曲.mp3".as_bytes().to_vec()), "_.mp3");
    assert_eq!(entry_file_name(&b"chart.mc".to_vec()), "chart.mc");
    assert_eq!(entry_file_name(&b"dir/".to_vec()), "");
    assert_eq!(entry_file_name(&vec![0xff, 0xfe, b'a']), "invalid_utf8_name");
}

#[test]
fn length_format() {
    assert_eq!(format_length_str(83_456), "1:23.456");
    assert_eq!(format_length_str(0), "0:00.000");
    assert_eq!(format_length_str(600_005), "10:00.005");
    assert_eq!(format_length_str(59_999), "0:59.999");
}

#[test]
fn serialized_rows_and_sections() {
    let d = OsuData {
        misc: misc(),
        timings: vec![
            tp(0, 60_000_000, 180_000, true),
            tp(10, -100_000_000, 3_000_000, false),
            tp(20, -100_000_000, 1, false),
        ],
        notes: vec![
            OsuHitObject { x_pos: 64, time: 100, end_time: None },
            OsuHitObject { x_pos: 192, time: 200, end_time: Some(450) },
        ],
    };
    let text = serialize_osu_data(&d);
    assert!(text.starts_with("osu file format v14\n\n[General]\nAudioFilename: audio.ogg\nAudioLeadIn: 0\nPreviewTime: -5\n"));
    assert!(text.contains("[Metadata]\nTitle:T\nTitleUnicode:TU\nArtist:A\nArtistUnicode:AU\nCreator:C\nVersion:V\n"));
    assert!(text.contains("CircleSize:4\nOverallDifficulty:8.5\n"));
    assert!(text.contains("0,0,\"bg.png\",0,0\n"));
    assert!(text.contains(
        "[TimingPoints]\n0,333.333333333333,4,2,0,10,1,0\n10,-33.333333333333,4,2,0,10,0,0\n20,-100000000,4,2,0,10,0,0\n\n"
    ));
    assert!(text.ends_with("[HitObjects]\n64,192,100,1,0,0:0:0:0:\n192,192,200,128,0,450:0:0:0:0:"));
}

#[test]
fn serialized_without_background() {
    let mut m = misc();
    m.background = String::new();
    m.od_tenths = 80;
    let d = OsuData { misc: m, timings: vec![], notes: vec![] };
    let text = serialize_osu_data(&d);
    assert!(text.contains("[Events]\n//Background and Video events\n//Break Periods\n"));
    assert!(text.contains("OverallDifficulty:8\n"));
    assert!(text.ends_with("[TimingPoints]\n\n\n[HitObjects]\n"));
}

fn rb(whole: u32, numerator: u32, denominator: u32) -> RationalBeat {
    RationalBeat { whole, numerator, denominator }
}

fn note(beat: RationalBeat, end: Option<RationalBeat>) -> Note {
    Note { beat, endbeat: end, column: Some(0), sound: None, vol: None, offset: None, note_type: None }
}

#[test]
fn summary_of_converted_chart() {
    let mc = McData {
        meta: Meta {
            creator: "c".to_string(),
            background: "bg.jpg".to_string(),
            version: "v".to_string(),
            preview: None,
            mode: 0,
            song: Song { title: "t".to_string(), artist: "a".to_string(), titleorg: None, artistorg: None },
            mode_ext: ModeExt { column: 4 },
        },
        time: vec![
            Beat { beat: rb(0, 0, 1), bpm_milli: 120_000 },
            Beat { beat: rb(8, 0, 1), bpm_milli: 150_500 },
        ],
        effect: None,
        note: vec![
            note(rb(1, 0, 1), None),
            note(rb(2, 0, 1), Some(rb(6, 0, 1))),
            note(rb(4, 0, 1), None),
            note(rb(0, 0, 1), None),
        ],
    };
    let d = convert_mc_to_osu(&mc).unwrap();
    assert_eq!(d.get_bpm_range(), (120_000, Some(150_500)));
    assert_eq!(d.get_length(), 2500);
    let info = d.to_beatmap_info(None);
    assert_eq!(info.min_bpm_milli, 120_000);
    assert_eq!(info.max_bpm_milli, Some(150_500));
    assert_eq!(info.length, 2500);
    assert_eq!(info.note_count, 2);
    assert_eq!(info.ln_count, 1);
    assert_eq!(info.sr_milli, None);
    assert_eq!(info.title, "t");
    assert_eq!(info.title_unicode.as_deref(), Some("t"));
    assert_eq!(info.bg_name.as_deref(), Some("bg.jpg"));
    assert_eq!(info.column_count, 4);
}

#[test]
fn summary_of_single_tempo_and_empty_chart() {
    let d = OsuData { misc: misc(), timings: vec![tp(0, 60_000_000, 120_000, true)], notes: vec![] };
    assert_eq!(d.get_bpm_range(), (120_000, None));
    assert_eq!(d.get_length(), 0);
    let e = OsuData { misc: misc(), timings: vec![tp(0, -100, 1, false)], notes: vec![] };
    assert_eq!(e.get_bpm_range(), (0, None));
    let info = e.to_beatmap_info(Some(3_250));
    assert_eq!(info.sr_milli, Some(3_250));
    assert_eq!(info.note_count, 0);
}
