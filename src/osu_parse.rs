//! Reading a target chart back from its text: sections, key-value lines,
//! the background event, timing points and hit objects.
use crate::beat::{clamp_time, clamp_time_i128, floor_div, floor_div_i128};
use crate::convert::{ChartError, OsuData, OsuMisc};
use crate::lexical::{
    index_of, parse_decimal, parse_i32, parse_u32, read_decimal, read_i32, read_u32, split_chars,
    split_on, trim, trim_chars, views,
};
use crate::notes::OsuHitObject;
use crate::text::{chars_of, string_from_chars};
use crate::timing::OsuTimingPoint;
use vstd::prelude::*;

verus! {

#[derive(Clone, Copy, Debug, PartialEq, Eq, Structural)]
pub enum Section {
    General,
    Metadata,
    Difficulty,
    Events,
    TimingPoints,
    HitObjects,
    Unknown,
}

/// The section a header names.
pub open spec fn section_named(name: Seq<char>) -> Section {
    if name == "General"@ {
        Section::General
    } else if name == "Metadata"@ {
        Section::Metadata
    } else if name == "Difficulty"@ {
        Section::Difficulty
    } else if name == "Events"@ {
        Section::Events
    } else if name == "TimingPoints"@ {
        Section::TimingPoints
    } else if name == "HitObjects"@ {
        Section::HitObjects
    } else {
        Section::Unknown
    }
}

/// The metadata read so far, as values.
pub struct MiscModel {
    pub audio_file_name: Seq<char>,
    pub preview_time: int,
    pub title: Seq<char>,
    pub title_unicode: Seq<char>,
    pub artist: Seq<char>,
    pub artist_unicode: Seq<char>,
    pub creator: Seq<char>,
    pub version: Seq<char>,
    pub circle_size: int,
    pub od_tenths: int,
    pub background: Seq<char>,
}

pub open spec fn misc_model(m: OsuMisc) -> MiscModel {
    MiscModel {
        audio_file_name: m.audio_file_name@,
        preview_time: m.preview_time as int,
        title: m.title@,
        title_unicode: m.title_unicode@,
        artist: m.artist@,
        artist_unicode: m.artist_unicode@,
        creator: m.creator@,
        version: m.version@,
        circle_size: m.circle_size as int,
        od_tenths: m.od_tenths as int,
        background: m.background@,
    }
}

/// The reader's state after some lines.
pub struct ParseModel {
    pub misc: MiscModel,
    pub timings: Seq<OsuTimingPoint>,
    pub notes: Seq<OsuHitObject>,
    pub section: Section,
    /// A `Mode` line named another game mode than mania.
    pub failed: bool,
}

pub open spec fn initial_model() -> ParseModel {
    ParseModel {
        misc: MiscModel {
            audio_file_name: seq![],
            preview_time: 0,
            title: seq![],
            title_unicode: seq![],
            artist: seq![],
            artist_unicode: seq![],
            creator: seq![],
            version: seq![],
            circle_size: 0,
            od_tenths: 0,
            background: seq![],
        },
        timings: seq![],
        notes: seq![],
        section: Section::Unknown,
        failed: false,
    }
}

/// `key: value`, both trimmed, split at the first `:`.
pub open spec fn key_value(line: Seq<char>) -> Option<(Seq<char>, Seq<char>)> {
    let i = index_of(line, ':');
    if i < line.len() {
        Some((trim(line.take(i)), trim(line.skip(i + 1))))
    } else {
        None
    }
}

/// The overall difficulty in tenths, floored; 0 when unreadable or not positive.
pub open spec fn od_tenths_of(v: Seq<char>) -> int {
    match parse_decimal(v) {
        Some((n, d)) => if n <= 0 {
            0
        } else {
            clamp_time(floor_div(n * 10, d))
        },
        None => 0,
    }
}

pub open spec fn int_or_zero(o: Option<int>) -> int {
    match o {
        Some(v) => v,
        None => 0,
    }
}

/// The mania mode number of the target format.
pub const MANIA_MODE: i32 = 3;

pub open spec fn apply_key(st: ParseModel, k: Seq<char>, v: Seq<char>) -> ParseModel {
    let m = st.misc;
    if k == "AudioFilename"@ {
        ParseModel { misc: MiscModel { audio_file_name: v, ..m }, ..st }
    } else if k == "PreviewTime"@ {
        ParseModel { misc: MiscModel { preview_time: int_or_zero(parse_i32(v)), ..m }, ..st }
    } else if k == "Mode"@ {
        if int_or_zero(parse_i32(v)) != MANIA_MODE as int {
            ParseModel { failed: true, ..st }
        } else {
            st
        }
    } else if k == "Title"@ {
        ParseModel { misc: MiscModel { title: v, ..m }, ..st }
    } else if k == "TitleUnicode"@ {
        ParseModel { misc: MiscModel { title_unicode: v, ..m }, ..st }
    } else if k == "Artist"@ {
        ParseModel { misc: MiscModel { artist: v, ..m }, ..st }
    } else if k == "ArtistUnicode"@ {
        ParseModel { misc: MiscModel { artist_unicode: v, ..m }, ..st }
    } else if k == "Creator"@ {
        ParseModel { misc: MiscModel { creator: v, ..m }, ..st }
    } else if k == "Version"@ {
        ParseModel { misc: MiscModel { version: v, ..m }, ..st }
    } else if k == "CircleSize"@ {
        ParseModel { misc: MiscModel { circle_size: int_or_zero(parse_u32(v)), ..m }, ..st }
    } else if k == "OverallDifficulty"@ {
        ParseModel { misc: MiscModel { od_tenths: od_tenths_of(v), ..m }, ..st }
    } else {
        st
    }
}

pub open spec fn strip_quotes_start(s: Seq<char>) -> Seq<char>
    decreases s.len(),
{
    if s.len() > 0 && s[0] == '"' {
        strip_quotes_start(s.drop_first())
    } else {
        s
    }
}

pub open spec fn strip_quotes_end(s: Seq<char>) -> Seq<char>
    decreases s.len(),
{
    if s.len() > 0 && s.last() == '"' {
        strip_quotes_end(s.drop_last())
    } else {
        s
    }
}

/// `s` without its leading and trailing double quotes.
pub open spec fn strip_quotes(s: Seq<char>) -> Seq<char> {
    strip_quotes_end(strip_quotes_start(s))
}

/// The background file an event line names: `0,0,"file",...`.
pub open spec fn event_background(line: Seq<char>) -> Option<Seq<char>> {
    let parts = split_on(line, ',');
    if line.len() >= 2 && line[0] == '/' && line[1] == '/' {
        None
    } else if parts.len() >= 3 && parts[0] == "0"@ && parts[1] == "0"@ {
        Some(strip_quotes(parts[2]))
    } else {
        None
    }
}

/// A timing point line: `time,value[,...]`, the seventh field telling a
/// tempo point (`1`, or no such field) from a scroll point.
pub open spec fn timing_line(line: Seq<char>) -> Option<OsuTimingPoint> {
    let parts = split_on(line, ',');
    if parts.len() < 2 {
        None
    } else {
        match (parse_decimal(parts[0]), parse_decimal(parts[1])) {
            (Some((tn, td)), Some((vn, vd))) => Some(
                OsuTimingPoint {
                    time: clamp_time(floor_div(tn, td)) as u32,
                    val_num: vn as i64,
                    val_den: vd as u64,
                    is_timing: if parts.len() > 6 {
                        parts[6] == "1"@
                    } else {
                        true
                    },
                },
            ),
            _ => None,
        }
    }
}

/// The end time of a hold note line: the first `:`-field of the sixth field
/// when the fourth is `128`.
pub open spec fn hold_end(parts: Seq<Seq<char>>) -> Option<u32> {
    if parts.len() > 5 && parts[3] == "128"@ {
        match parse_u32(split_on(parts[5], ':')[0]) {
            Some(e) => Some(e as u32),
            None => None,
        }
    } else {
        None
    }
}

/// A hit object line: `x,y,time,type,...`.
pub open spec fn hit_line(line: Seq<char>) -> Option<OsuHitObject> {
    let parts = split_on(line, ',');
    if parts.len() < 3 {
        None
    } else {
        match (parse_u32(parts[0]), parse_u32(parts[2])) {
            (Some(x), Some(t)) => Some(
                OsuHitObject { x_pos: x as u32, time: t as u32, end_time: hold_end(parts) },
            ),
            _ => None,
        }
    }
}

/// The reader's state after one more line.
pub open spec fn step(st: ParseModel, raw: Seq<char>) -> ParseModel {
    let line = trim(raw);
    if st.failed || line.len() == 0 {
        st
    } else if line[0] == '[' && line.last() == ']' {
        ParseModel { section: section_named(line.subrange(1, line.len() - 1)), ..st }
    } else {
        match st.section {
            Section::General | Section::Metadata | Section::Difficulty => match key_value(line) {
                Some((k, v)) => apply_key(st, k, v),
                None => st,
            },
            Section::Events => match event_background(line) {
                Some(b) => ParseModel { misc: MiscModel { background: b, ..st.misc }, ..st },
                None => st,
            },
            Section::TimingPoints => match timing_line(line) {
                Some(p) => ParseModel { timings: st.timings.push(p), ..st },
                None => st,
            },
            Section::HitObjects => match hit_line(line) {
                Some(h) => ParseModel { notes: st.notes.push(h), ..st },
                None => st,
            },
            Section::Unknown => st,
        }
    }
}

/// The reader's state after the given lines.
pub open spec fn read_lines(lines: Seq<Seq<char>>) -> ParseModel
    decreases lines.len(),
{
    if lines.len() == 0 {
        initial_model()
    } else {
        step(read_lines(lines.drop_last()), lines.last())
    }
}

/// The reader's state after the whole text.
pub open spec fn read_text(text: Seq<char>) -> ParseModel {
    read_lines(split_on(text, '\n'))
}


/// Whether `a` holds exactly the characters of `lit`.
fn is_lit(a: &Vec<char>, lit: &str) -> (r: bool)
    ensures
        r == (a@ == lit@),
{
    let b = chars_of(lit);
    if a.len() != b.len() {
        return false;
    }
    let mut i: usize = 0;
    while i < a.len()
        invariant
            i <= a@.len(),
            a@.len() == b@.len(),
            b@ == lit@,
            forall|k: int| 0 <= k < i ==> a@[k] == b@[k],
        decreases a@.len() - i,
    {
        if a[i] != b[i] {
            return false;
        }
        i = i + 1;
    }
    proof {
        assert(a@ =~= b@);
    }
    true
}

/// The section a header names.
pub fn section_of(name: &Vec<char>) -> (r: Section)
    ensures
        r == section_named(name@),
{
    if is_lit(name, "General") {
        Section::General
    } else if is_lit(name, "Metadata") {
        Section::Metadata
    } else if is_lit(name, "Difficulty") {
        Section::Difficulty
    } else if is_lit(name, "Events") {
        Section::Events
    } else if is_lit(name, "TimingPoints") {
        Section::TimingPoints
    } else if is_lit(name, "HitObjects") {
        Section::HitObjects
    } else {
        Section::Unknown
    }
}

fn sub_chars(s: &Vec<char>, from: usize, to: usize) -> (r: Vec<char>)
    requires
        from <= to <= s@.len(),
    ensures
        r@ == s@.subrange(from as int, to as int),
{
    let mut out: Vec<char> = Vec::new();
    let mut i: usize = from;
    while i < to
        invariant
            from <= i <= to <= s@.len(),
            out@ == s@.subrange(from as int, i as int),
        decreases to - i,
    {
        out.push(s[i]);
        i = i + 1;
        proof {
            assert(out@ =~= s@.subrange(from as int, i as int));
        }
    }
    out
}

fn split_key_value(line: &Vec<char>) -> (r: Option<(Vec<char>, Vec<char>)>)
    ensures
        r matches Some((k, v)) ==> key_value(line@) == Some((k@, v@)),
        r is None ==> key_value(line@) is None,
{
    let mut i: usize = 0;
    while i < line.len() && line[i] != ':'
        invariant
            i <= line@.len(),
            forall|k: int| 0 <= k < i ==> line@[k] != ':',
        decreases line@.len() - i,
    {
        i = i + 1;
    }
    proof {
        crate::lexical::lemma_index_of(line@, ':', i as int);
    }
    if i == line.len() {
        return None;
    }
    let k = sub_chars(line, 0, i);
    let v = sub_chars(line, i + 1, line.len());
    proof {
        assert(k@ =~= line@.take(i as int));
        assert(v@ =~= line@.skip(i as int + 1));
    }
    Some((trim_chars(&k), trim_chars(&v)))
}

fn od_tenths_from(v: &Vec<char>) -> (r: u32)
    ensures
        r as int == od_tenths_of(v@),
{
    match read_decimal(v) {
        Some((n, d)) => {
            if n <= 0 {
                0
            } else {
                clamp_time_i128(floor_div_i128(n as i128 * 10, d as i128))
            }
        },
        None => 0,
    }
}

/// The reader's state.
pub struct ParseState {
    pub misc: OsuMisc,
    pub timings: Vec<OsuTimingPoint>,
    pub notes: Vec<OsuHitObject>,
    pub section: Section,
    pub failed: bool,
}

pub open spec fn state_model(st: ParseState) -> ParseModel {
    ParseModel {
        misc: misc_model(st.misc),
        timings: st.timings@,
        notes: st.notes@,
        section: st.section,
        failed: st.failed,
    }
}

fn apply_key_value(st: &mut ParseState, k: &Vec<char>, v: &Vec<char>)
    ensures
        state_model(*final(st)) == apply_key(state_model(*old(st)), k@, v@),
{
    if is_lit(k, "AudioFilename") {
        st.misc.audio_file_name = string_from_chars(v);
    } else if is_lit(k, "PreviewTime") {
        st.misc.preview_time = match read_i32(v) {
            Some(p) => p,
            None => 0,
        };
    } else if is_lit(k, "Mode") {
        let mode: i32 = match read_i32(v) {
            Some(m) => m,
            None => 0,
        };
        if mode != MANIA_MODE {
            st.failed = true;
        }
    } else if is_lit(k, "Title") {
        st.misc.title = string_from_chars(v);
    } else if is_lit(k, "TitleUnicode") {
        st.misc.title_unicode = string_from_chars(v);
    } else if is_lit(k, "Artist") {
        st.misc.artist = string_from_chars(v);
    } else if is_lit(k, "ArtistUnicode") {
        st.misc.artist_unicode = string_from_chars(v);
    } else if is_lit(k, "Creator") {
        st.misc.creator = string_from_chars(v);
    } else if is_lit(k, "Version") {
        st.misc.version = string_from_chars(v);
    } else if is_lit(k, "CircleSize") {
        st.misc.circle_size = match read_u32(v) {
            Some(c) => c,
            None => 0,
        };
    } else if is_lit(k, "OverallDifficulty") {
        st.misc.od_tenths = od_tenths_from(v);
    }
}

proof fn lemma_strip_quotes_start(s: Seq<char>, i: int)
    requires
        0 <= i <= s.len(),
        forall|k: int| 0 <= k < i ==> #[trigger] s[k] == '"',
        i == s.len() || s[i] != '"',
    ensures
        strip_quotes_start(s) == s.skip(i),
    decreases i,
{
    if i > 0 {
        lemma_strip_quotes_start(s.drop_first(), i - 1);
        assert(s.drop_first().skip(i - 1) =~= s.skip(i));
    } else {
        assert(s.skip(0) =~= s);
    }
}

proof fn lemma_strip_quotes_end(s: Seq<char>, j: int)
    requires
        0 <= j <= s.len(),
        forall|k: int| j <= k < s.len() ==> #[trigger] s[k] == '"',
        j == 0 || s[j - 1] != '"',
    ensures
        strip_quotes_end(s) == s.take(j),
    decreases s.len() - j,
{
    if j < s.len() {
        lemma_strip_quotes_end(s.drop_last(), j);
        assert(s.drop_last().take(j) =~= s.take(j));
    } else {
        assert(s.take(j) =~= s);
    }
}

fn strip_quote_chars(s: &Vec<char>) -> (r: Vec<char>)
    ensures
        r@ == strip_quotes(s@),
{
    let mut i: usize = 0;
    while i < s.len() && s[i] == '"'
        invariant
            i <= s@.len(),
            forall|k: int| 0 <= k < i ==> #[trigger] s@[k] == '"',
        decreases s@.len() - i,
    {
        i = i + 1;
    }
    proof {
        lemma_strip_quotes_start(s@, i as int);
    }
    let ghost t = s@.skip(i as int);
    let mut j: usize = s.len();
    while j > i && s[j - 1] == '"'
        invariant
            i <= j <= s@.len(),
            forall|k: int| j <= k < s@.len() ==> #[trigger] s@[k] == '"',
        decreases j,
    {
        j = j - 1;
    }
    proof {
        assert forall|k: int| j - i <= k < t.len() implies #[trigger] t[k] == '"' by {
            assert(t[k] == s@[k + i]);
        }
        if j > i {
            assert(t[j - i - 1] == s@[j - 1]);
        }
        lemma_strip_quotes_end(t, j - i);
    }
    let out = sub_chars(s, i, j);
    proof {
        assert(out@ =~= t.take(j - i));
    }
    out
}

fn read_event_background(line: &Vec<char>) -> (r: Option<Vec<char>>)
    ensures
        r matches Some(b) ==> event_background(line@) == Some(b@),
        r is None ==> event_background(line@) is None,
{
    if line.len() >= 2 && line[0] == '/' && line[1] == '/' {
        return None;
    }
    let parts = split_chars(line, ',');
    if parts.len() >= 3 && is_lit(&parts[0], "0") && is_lit(&parts[1], "0") {
        proof {
            assert(views(parts@)[2] == parts@[2]@);
        }
        Some(strip_quote_chars(&parts[2]))
    } else {
        proof {
            if parts@.len() >= 3 {
                assert(views(parts@)[0] == parts@[0]@);
                assert(views(parts@)[1] == parts@[1]@);
            }
        }
        None
    }
}

fn read_timing_line(line: &Vec<char>) -> (r: Option<OsuTimingPoint>)
    ensures
        r == timing_line(line@),
{
    let parts = split_chars(line, ',');
    if parts.len() < 2 {
        return None;
    }
    proof {
        assert(views(parts@)[0] == parts@[0]@);
        assert(views(parts@)[1] == parts@[1]@);
    }
    let t = read_decimal(&parts[0]);
    let v = read_decimal(&parts[1]);
    match (t, v) {
        (Some((tn, td)), Some((vn, vd))) => {
            let is_timing = if parts.len() > 6 {
                proof {
                    assert(views(parts@)[6] == parts@[6]@);
                }
                is_lit(&parts[6], "1")
            } else {
                true
            };
            let time = clamp_time_i128(floor_div_i128(tn as i128, td as i128));
            Some(OsuTimingPoint { time, val_num: vn, val_den: vd, is_timing })
        },
        _ => None,
    }
}

fn read_hit_line(line: &Vec<char>) -> (r: Option<OsuHitObject>)
    ensures
        r == hit_line(line@),
{
    let parts = split_chars(line, ',');
    if parts.len() < 3 {
        return None;
    }
    proof {
        assert(views(parts@)[0] == parts@[0]@);
        assert(views(parts@)[2] == parts@[2]@);
    }
    let x = read_u32(&parts[0]);
    let t = read_u32(&parts[2]);
    match (x, t) {
        (Some(x_pos), Some(time)) => {
            let end_time = if parts.len() > 5 && is_lit(&parts[3], "128") {
                proof {
                    assert(views(parts@)[5] == parts@[5]@);
                }
                let fields = split_chars(&parts[5], ':');
                proof {
                    crate::lexical::lemma_split_on_nonempty(parts@[5]@, ':');
                    assert(views(fields@)[0] == fields@[0]@);
                }
                read_u32(&fields[0])
            } else {
                proof {
                    if parts@.len() > 5 {
                        assert(views(parts@)[3] == parts@[3]@);
                    }
                }
                None
            };
            Some(OsuHitObject { x_pos, time, end_time })
        },
        _ => None,
    }
}

fn read_line(st: &mut ParseState, raw: &Vec<char>)
    ensures
        state_model(*final(st)) == step(state_model(*old(st)), raw@),
{
    let line = trim_chars(raw);
    if st.failed || line.len() == 0 {
        return;
    }
    if line[0] == '[' && line[line.len() - 1] == ']' {
        let name = sub_chars(&line, 1, line.len() - 1);
        st.section = section_of(&name);
        return;
    }
    match st.section {
        Section::General | Section::Metadata | Section::Difficulty => {
            match split_key_value(&line) {
                Some((k, v)) => apply_key_value(st, &k, &v),
                None => {},
            }
        },
        Section::Events => {
            match read_event_background(&line) {
                Some(b) => {
                    st.misc.background = string_from_chars(&b);
                },
                None => {},
            }
        },
        Section::TimingPoints => {
            match read_timing_line(&line) {
                Some(p) => {
                    st.timings.push(p);
                },
                None => {},
            }
        },
        Section::HitObjects => {
            match read_hit_line(&line) {
                Some(h) => {
                    st.notes.push(h);
                },
                None => {},
            }
        },
        Section::Unknown => {},
    }
}

/// Reads a target chart from its text. Only mania charts are read: a `Mode`
/// line that names another mode rejects the chart.
pub fn parse_osu_text(text: &str) -> (r: Result<OsuData, ChartError>)
    ensures
        r is Err <==> read_text(text@).failed,
        r matches Err(e) ==> e == ChartError::UnsupportedMode,
        r matches Ok(d) ==> misc_model(d.misc) == read_text(text@).misc && d.timings@ == read_text(
            text@,
        ).timings && d.notes@ == read_text(text@).notes,
{
    let cs = chars_of(text);
    let lines = split_chars(&cs, '\n');
    let mut st = ParseState {
        misc: OsuMisc {
            audio_file_name: String::new(),
            preview_time: 0,
            title: String::new(),
            title_unicode: String::new(),
            artist: String::new(),
            artist_unicode: String::new(),
            creator: String::new(),
            version: String::new(),
            circle_size: 0,
            od_tenths: 0,
            background: String::new(),
        },
        timings: Vec::new(),
        notes: Vec::new(),
        section: Section::Unknown,
        failed: false,
    };
    let mut i: usize = 0;
    while i < lines.len()
        invariant
            i <= lines@.len(),
            state_model(st) == read_lines(views(lines@).take(i as int)),
        decreases lines@.len() - i,
    {
        proof {
            let pre = views(lines@).take(i as int + 1);
            assert(pre.drop_last() =~= views(lines@).take(i as int));
            assert(pre.last() == lines@[i as int]@);
        }
        read_line(&mut st, &lines[i]);
        i = i + 1;
    }
    proof {
        assert(views(lines@).take(lines@.len() as int) =~= views(lines@));
    }
    if st.failed {
        Err(ChartError::UnsupportedMode)
    } else {
        Ok(OsuData { misc: st.misc, timings: st.timings, notes: st.notes })
    }
}

} // verus!
