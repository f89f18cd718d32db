use mania_converter::convert::{ChartError, OsuData, OsuMisc};
use mania_converter::notes::OsuHitObject;
use mania_converter::osu_parse::parse_osu_text;
use mania_converter::serialize::serialize_osu_data;
use mania_converter::summary::{sort_by_rating, BeatMapInfo};
use mania_converter::timing::OsuTimingPoint;

fn tp(time: u32, val_num: i64, val_den: u64, is_timing: bool) -> OsuTimingPoint {
    OsuTimingPoint { time, val_num, val_den, is_timing }
}

#[test]
fn reads_back_a_written_chart() {
    let d = OsuData {
        misc: OsuMisc {
            audio_file_name: "audio.ogg".to_string(),
            preview_time: 1234,
            title: "Song".to_string(),
            title_unicode: "曲".to_string(),
            artist: "Someone".to_string(),
            artist_unicode: "誰か".to_string(),
            creator: "me".to_string(),
            version: "7K".to_string(),
            circle_size: 7,
            od_tenths: 85,
            background: "bg.png".to_string(),
        },
        timings: vec![tp(0, 60_000_000, 120_000, true), tp(500, -100_000_000, 2_000_000, false)],
        notes: vec![
            OsuHitObject { x_pos: 36, time: 100, end_time: None },
            OsuHitObject { x_pos: 109, time: 200, end_time: Some(800) },
        ],
    };
    let text = serialize_osu_data(&d);
    let r = parse_osu_text(&text).unwrap();
    assert_eq!(r.misc.audio_file_name, "audio.ogg");
    assert_eq!(r.misc.preview_time, 1234);
    assert_eq!(r.misc.title, "Song");
    assert_eq!(r.misc.title_unicode, "曲");
    assert_eq!(r.misc.artist_unicode, "誰か");
    assert_eq!(r.misc.creator, "me");
    assert_eq!(r.misc.version, "7K");
    assert_eq!(r.misc.circle_size, 7);
    assert_eq!(r.misc.od_tenths, 85);
    assert_eq!(r.misc.background, "bg.png");
    assert_eq!(r.timings, vec![tp(0, 500, 1, true), tp(500, -50, 1, false)]);
    assert_eq!(r.notes, d.notes);
}

#[test]
fn other_modes_are_rejected() {
    let text = "osu file format v14\n\n[General]\nMode: 1\n\n[HitObjects]\n64,192,100,1,0,0:0:0:0:\n";
    assert_eq!(parse_osu_text(text).unwrap_err(), ChartError::UnsupportedMode);
    let text = "[General]\r\nMode: 3\r\n[Metadata]\r\nTitle: abc \r\n";
    let r = parse_osu_text(text).unwrap();
    assert_eq!(r.misc.title, "abc");
}

#[test]
fn timing_and_hit_lines() {
    let text = "[TimingPoints]\n12.7,333.5\n-30,500,4,2,0,10,0,0\nbad,1\n1e3,2\n\n[HitObjects]\n1,2\n64,192,300\n448,192,400,128,0,900:0:0:0:0:\n448,192,500,128\nx,192,600,1\n[Events]\n//x\n0,0,\"\"bg.jpg\"\",0,0\n";
    let r = parse_osu_text(text).unwrap();
    assert_eq!(r.timings, vec![tp(12, 3335, 10, true), tp(0, 500, 1, false)]);
    assert_eq!(
        r.notes,
        vec![
            OsuHitObject { x_pos: 64, time: 300, end_time: None },
            OsuHitObject { x_pos: 448, time: 400, end_time: Some(900) },
            OsuHitObject { x_pos: 448, time: 500, end_time: None },
        ]
    );
    assert_eq!(r.misc.background, "bg.jpg");
}

#[test]
fn summary_from_read_chart() {
    let text = "[TimingPoints]\n0,500,4,2,0,10,1,0\n1000,250,4,2,0,10,1,0\n1000,-50,4,2,0,10,0,0\n[HitObjects]\n64,192,0,1,0,0:0:0:0:\n64,192,1500,128,0,3000:0:0:0:0:\n";
    let d = parse_osu_text(text).unwrap();
    assert_eq!(d.get_bpm_range(), (120_000, Some(240_000)));
    assert_eq!(d.get_length(), 3000);
    let info = d.to_beatmap_info(None);
    assert_eq!(info.ln_count, 1);
    assert_eq!(info.note_count, 1);
}

fn info(title: &str, sr: Option<u32>) -> BeatMapInfo {
    BeatMapInfo {
        title: title.to_string(),
        title_unicode: None,
        artist: "a".to_string(),
        artist_unicode: Some(String::new()),
        creator: "c".to_string(),
        version: "v".to_string(),
        column_count: 4,
        min_bpm_milli: 150_500,
        max_bpm_milli: None,
        length: 83_456,
        sr_milli: sr,
        note_count: 1,
        ln_count: 0,
        bg_name: None,
    }
}

#[test]
fn sorted_by_rating() {
    let sorted = sort_by_rating(vec![info("x", Some(3_000)), info("y", None), info("z", Some(1_500)), info("w", Some(3_000))]);
    let titles: Vec<&str> = sorted.iter().map(|i| i.title.as_str()).collect();
    assert_eq!(titles.len(), 4);
    assert_eq!(titles[0], "y");
    assert_eq!(titles[1], "z");
    let keys: Vec<Option<u32>> = sorted.iter().map(|i| i.sr_milli).collect();
    assert_eq!(keys, vec![None, Some(1_500), Some(3_000), Some(3_000)]);
    assert!(sort_by_rating(vec![]).is_empty());
}

#[test]
fn summary_text() {
    let mut i = info("Song", Some(4_125));
    i.title_unicode = Some("曲".to_string());
    i.max_bpm_milli = Some(200_000);
    assert_eq!(
        i.summary_string(),
        "Title: Song (曲)\nArtist: a\nCreator: c\nVersion: v\nColumns: 4\nBPM: 150.5-200\nLength: 1:23.456\nSR: 4.1250"
    );
    let j = info("Other", None);
    assert!(j.summary_string().ends_with("BPM: 150.5\nLength: 1:23.456\nSR: N/A"));
}
