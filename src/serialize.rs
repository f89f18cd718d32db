//! Text of the target chart: fixed section order, one CSV row per timing
//! point and per hit object.
use crate::convert::{OsuData, OsuMisc};
use crate::notes::OsuHitObject;
use crate::text::{chars_of, string_from_chars};
use crate::timing::OsuTimingPoint;
use vstd::prelude::*;

verus! {

/// Number of fractional digits written for a timing point's value.
pub const VALUE_DIGITS: u64 = 12;

/// 10 to the power of `VALUE_DIGITS`.
pub const VALUE_SCALE: u128 = 1_000_000_000_000;

pub open spec fn digit_char(d: int) -> char {
    if d == 0 {
        '0'
    } else if d == 1 {
        '1'
    } else if d == 2 {
        '2'
    } else if d == 3 {
        '3'
    } else if d == 4 {
        '4'
    } else if d == 5 {
        '5'
    } else if d == 6 {
        '6'
    } else if d == 7 {
        '7'
    } else if d == 8 {
        '8'
    } else {
        '9'
    }
}

/// Decimal digits of `n`, without leading zeros.
pub open spec fn dec(n: nat) -> Seq<char>
    decreases n,
{
    if n < 10 {
        seq![digit_char(n as int)]
    } else {
        dec(n / 10).push(digit_char((n % 10) as int))
    }
}

/// Decimal text of a signed integer.
pub open spec fn dec_int(i: int) -> Seq<char> {
    if i < 0 {
        seq!['-'] + dec((-i) as nat)
    } else {
        dec(i as nat)
    }
}

/// The last `w` decimal digits of `n`, zero-padded.
pub open spec fn fixed_digits(n: nat, w: nat) -> Seq<char>
    decreases w,
{
    if w == 0 {
        seq![]
    } else {
        fixed_digits(n / 10, (w - 1) as nat).push(digit_char((n % 10) as int))
    }
}

pub open spec fn trim_zeros(s: Seq<char>) -> Seq<char>
    decreases s.len(),
{
    if s.len() > 0 && s.last() == '0' {
        trim_zeros(s.drop_last())
    } else {
        s
    }
}

/// Decimal text of `num / den`: sign, whole part, and, when not zero, the
/// first twelve fractional digits without trailing zeros (further digits are
/// cut off).
pub open spec fn value_text(num: int, den: int) -> Seq<char> {
    let a = if num < 0 {
        -num
    } else {
        num
    };
    let frac = trim_zeros(fixed_digits(((a % den) * VALUE_SCALE as int / den) as nat, VALUE_DIGITS as nat));
    (if num < 0 {
        seq!['-']
    } else {
        seq![]
    }) + dec((a / den) as nat) + if frac.len() > 0 {
        seq!['.'] + frac
    } else {
        seq![]
    }
}

/// `time,value,4,2,0,10,<1 for a tempo point, 0 otherwise>,0`
pub open spec fn timing_row(p: OsuTimingPoint) -> Seq<char> {
    dec(p.time as nat) + seq![','] + value_text(p.val_num as int, p.val_den as int) + ",4,2,0,10,"@
        + if p.is_timing {
        "1,0"@
    } else {
        "0,0"@
    }
}

/// Hold note: `x,192,start,128,0,end:0:0:0:0:`; tap: `x,192,start,1,0,0:0:0:0:`.
pub open spec fn hit_row(h: OsuHitObject) -> Seq<char> {
    dec(h.x_pos as nat) + ",192,"@ + dec(h.time as nat) + match h.end_time {
        Some(e) => ",128,0,"@ + dec(e as nat) + ":0:0:0:0:"@,
        None => ",1,0,0:0:0:0:"@,
    }
}

/// Timing rows separated by newlines.
pub open spec fn timing_rows(pts: Seq<OsuTimingPoint>) -> Seq<char>
    decreases pts.len(),
{
    if pts.len() == 0 {
        seq![]
    } else if pts.len() == 1 {
        timing_row(pts[0])
    } else {
        timing_rows(pts.drop_last()) + seq!['\n'] + timing_row(pts.last())
    }
}

/// Hit-object rows separated by newlines.
pub open spec fn hit_rows(hs: Seq<OsuHitObject>) -> Seq<char>
    decreases hs.len(),
{
    if hs.len() == 0 {
        seq![]
    } else if hs.len() == 1 {
        hit_row(hs[0])
    } else {
        hit_rows(hs.drop_last()) + seq!['\n'] + hit_row(hs.last())
    }
}

/// The overall difficulty in tenths as text: a whole number without a
/// fraction, one decimal otherwise.
pub open spec fn od_text(tenths: int) -> Seq<char> {
    if tenths % 10 == 0 {
        dec((tenths / 10) as nat)
    } else {
        dec((tenths / 10) as nat) + seq!['.', digit_char(tenths % 10)]
    }
}

/// The `[General]` and `[Editor]` sections.
pub open spec fn general_text(m: OsuMisc) -> Seq<char> {
    "osu file format v14\n\n[General]\nAudioFilename: "@ + m.audio_file_name@
        + "\nAudioLeadIn: 0\nPreviewTime: "@ + dec_int(m.preview_time as int)
        + "\nCountdown: 0\nSampleSet: Soft\nStackLeniency: 0.7\nMode: 3\nLetterboxInBreaks: 0\nSpecialStyle: 0\nWidescreenStoryboard: 1\n\n"@
        + "[Editor]\nDistanceSpacing: 1\nBeatDivisor: 8\nGridSize: 4\nTimelineZoom: 2\n\n"@
}

/// The `[Metadata]` section.
pub open spec fn metadata_text(m: OsuMisc) -> Seq<char> {
    "[Metadata]\nTitle:"@ + m.title@ + "\nTitleUnicode:"@ + m.title_unicode@ + "\nArtist:"@
        + m.artist@ + "\nArtistUnicode:"@ + m.artist_unicode@ + "\nCreator:"@ + m.creator@
        + "\nVersion:"@ + m.version@ + "\nSource:\nTags:\nBeatmapID:0\nBeatmapSetID:-1\n\n"@
}

/// The `[Difficulty]` section.
pub open spec fn difficulty_text(m: OsuMisc) -> Seq<char> {
    "[Difficulty]\nHPDrainRate:8\nCircleSize:"@ + dec(m.circle_size as nat)
        + "\nOverallDifficulty:"@ + od_text(m.od_tenths as int)
        + "\nApproachRate:5\nSliderMultiplier:1.4\nSliderTickRate:1\n\n"@
}

/// The `[Events]` section: the background line when there is a background.
pub open spec fn events_text(m: OsuMisc) -> Seq<char> {
    "[Events]\n//Background and Video events\n"@ + (if m.background@.len() > 0 {
        "0,0,\""@ + m.background@ + "\",0,0\n"@
    } else {
        seq![]
    })
        + "//Break Periods\n//Storyboard Layer 0 (Background)\n//Storyboard Layer 1 (Fail)\n//Storyboard Layer 2 (Pass)\n//Storyboard Layer 3 (Foreground)\n//Storyboard Layer 4 (Overlay)\n//Storyboard Sound Samples\n\n"@
}

/// The whole text of a target chart.
pub open spec fn osu_text(d: OsuData) -> Seq<char> {
    general_text(d.misc) + metadata_text(d.misc) + difficulty_text(d.misc) + events_text(d.misc) + "[TimingPoints]\n"@
        + timing_rows(d.timings@) + "\n\n[HitObjects]\n"@ + hit_rows(d.notes@)
}

pub(crate) fn push_chars(out: &mut Vec<char>, s: &Vec<char>)
    ensures
        final(out)@ == old(out)@ + s@,
{
    let mut i: usize = 0;
    while i < s.len()
        invariant
            i <= s@.len(),
            out@ == old(out)@ + s@.take(i as int),
        decreases s@.len() - i,
    {
        out.push(s[i]);
        i = i + 1;
        proof {
            assert(out@ =~= old(out)@ + s@.take(i as int));
        }
    }
    proof {
        assert(s@.take(s@.len() as int) =~= s@);
    }
}

pub(crate) fn push_str(out: &mut Vec<char>, s: &str)
    ensures
        final(out)@ == old(out)@ + s@,
{
    let cs = chars_of(s);
    push_chars(out, &cs);
}

pub(crate) fn push_digit(out: &mut Vec<char>, d: u128)
    requires
        d < 10,
    ensures
        final(out)@ == old(out)@.push(digit_char(d as int)),
{
    let c = if d == 0 {
        '0'
    } else if d == 1 {
        '1'
    } else if d == 2 {
        '2'
    } else if d == 3 {
        '3'
    } else if d == 4 {
        '4'
    } else if d == 5 {
        '5'
    } else if d == 6 {
        '6'
    } else if d == 7 {
        '7'
    } else if d == 8 {
        '8'
    } else {
        '9'
    };
    out.push(c);
}

/// Appends the decimal digits of `n`.
pub fn push_decimal(out: &mut Vec<char>, n: u128)
    ensures
        final(out)@ == old(out)@ + dec(n as nat),
    decreases n,
{
    if n >= 10 {
        push_decimal(out, n / 10);
    }
    push_digit(out, n % 10);
    proof {
        assert(out@ =~= old(out)@ + dec(n as nat));
    }
}


/// Appends the last `w` decimal digits of `n`, zero-padded.
pub fn push_fixed_digits(out: &mut Vec<char>, n: u128, w: u64)
    ensures
        final(out)@ == old(out)@ + fixed_digits(n as nat, w as nat),
    decreases w,
{
    if w > 0 {
        push_fixed_digits(out, n / 10, w - 1);
        push_digit(out, n % 10);
    }
    proof {
        assert(out@ =~= old(out)@ + fixed_digits(n as nat, w as nat));
    }
}

/// Appends the decimal text of `num / den`.
pub fn push_value(out: &mut Vec<char>, num: i64, den: u64)
    requires
        den > 0,
    ensures
        final(out)@ == old(out)@ + value_text(num as int, den as int),
{
    let a: u128 = if num < 0 {
        (-(num as i128)) as u128
    } else {
        num as u128
    };
    let d = den as u128;
    let mut sign: Vec<char> = Vec::new();
    if num < 0 {
        sign.push('-');
    }
    push_chars(out, &sign);
    push_decimal(out, a / d);
    proof {
        assert(a % d < d);
        assert((a % d) * VALUE_SCALE <= 0xffff_ffff_ffff_ffff * 1_000_000_000_000) by (nonlinear_arith)
            requires
                a % d < d,
                d <= 0xffff_ffff_ffff_ffff,
        ;
    }
    let frac = (a % d) * VALUE_SCALE / d;
    let mut digits: Vec<char> = Vec::new();
    push_fixed_digits(&mut digits, frac, VALUE_DIGITS);
    let ghost all = digits@;
    while digits.len() > 0 && digits[digits.len() - 1] == '0'
        invariant
            trim_zeros(digits@) == trim_zeros(all),
        decreases digits@.len(),
    {
        digits.pop();
    }
    let mut tail: Vec<char> = Vec::new();
    if digits.len() > 0 {
        tail.push('.');
        push_chars(&mut tail, &digits);
    }
    push_chars(out, &tail);
    proof {
        assert(digits@ == trim_zeros(all));
        assert(out@ =~= old(out)@ + value_text(num as int, den as int));
    }
}

fn push_timing_row(out: &mut Vec<char>, p: &OsuTimingPoint)
    requires
        p.val_den > 0,
    ensures
        final(out)@ == old(out)@ + timing_row(*p),
{
    push_decimal(out, p.time as u128);
    push_str(out, ",");
    push_value(out, p.val_num, p.val_den);
    push_str(out, ",4,2,0,10,");
    if p.is_timing {
        push_str(out, "1,0");
    } else {
        push_str(out, "0,0");
    }
    proof {
        assert(","@ =~= seq![',']) by {
            reveal_strlit(",");
        }
        assert(out@ =~= old(out)@ + timing_row(*p));
    }
}

fn push_hit_row(out: &mut Vec<char>, h: &OsuHitObject)
    ensures
        final(out)@ == old(out)@ + hit_row(*h),
{
    push_decimal(out, h.x_pos as u128);
    push_str(out, ",192,");
    push_decimal(out, h.time as u128);
    match h.end_time {
        Some(e) => {
            push_str(out, ",128,0,");
            push_decimal(out, e as u128);
            push_str(out, ":0:0:0:0:");
        },
        None => {
            push_str(out, ",1,0,0:0:0:0:");
        },
    }
    proof {
        assert(out@ =~= old(out)@ + hit_row(*h));
    }
}

fn push_newline(out: &mut Vec<char>)
    ensures
        final(out)@ == old(out)@ + seq!['\n'],
{
    out.push('\n');
    proof {
        assert(out@ =~= old(out)@ + seq!['\n']);
    }
}

fn push_timing_rows(out: &mut Vec<char>, pts: &Vec<OsuTimingPoint>)
    requires
        forall|i: int| 0 <= i < pts@.len() ==> (#[trigger] pts@[i]).val_den > 0,
    ensures
        final(out)@ == old(out)@ + timing_rows(pts@),
{
    let mut i: usize = 0;
    while i < pts.len()
        invariant
            i <= pts@.len(),
            out@ == old(out)@ + timing_rows(pts@.take(i as int)),
            forall|i: int| 0 <= i < pts@.len() ==> (#[trigger] pts@[i]).val_den > 0,
        decreases pts@.len() - i,
    {
        let ghost before = out@;
        if i > 0 {
            push_newline(out);
        }
        proof {
            assert(pts@[i as int].val_den > 0);
        }
        push_timing_row(out, &pts[i]);
        proof {
            let t = pts@.take(i as int + 1);
            assert(t.drop_last() =~= pts@.take(i as int));
            assert(t.last() == pts@[i as int]);
            if i == 0 {
                assert(t[0] == pts@[0]);
            }
            assert(out@ =~= old(out)@ + timing_rows(t));
        }
        i = i + 1;
    }
    proof {
        assert(pts@.take(pts@.len() as int) =~= pts@);
    }
}

fn push_hit_rows(out: &mut Vec<char>, hs: &Vec<OsuHitObject>)
    ensures
        final(out)@ == old(out)@ + hit_rows(hs@),
{
    let mut i: usize = 0;
    while i < hs.len()
        invariant
            i <= hs@.len(),
            out@ == old(out)@ + hit_rows(hs@.take(i as int)),
        decreases hs@.len() - i,
    {
        if i > 0 {
            push_newline(out);
        }
        push_hit_row(out, &hs[i]);
        proof {
            let t = hs@.take(i as int + 1);
            assert(t.drop_last() =~= hs@.take(i as int));
            assert(t.last() == hs@[i as int]);
            if i == 0 {
                assert(t[0] == hs@[0]);
            }
            assert(out@ =~= old(out)@ + hit_rows(t));
        }
        i = i + 1;
    }
    proof {
        assert(hs@.take(hs@.len() as int) =~= hs@);
    }
}

pub(crate) fn push_string(out: &mut Vec<char>, s: &String)
    ensures
        final(out)@ == old(out)@ + s@,
{
    push_str(out, s.as_str());
}

fn push_general(out: &mut Vec<char>, m: &OsuMisc)
    ensures
        final(out)@ == old(out)@ + general_text(*m),
{
    push_str(out, "osu file format v14\n\n[General]\nAudioFilename: ");
    push_string(out, &m.audio_file_name);
    push_str(out, "\nAudioLeadIn: 0\nPreviewTime: ");
    let mut pt: Vec<char> = Vec::new();
    if m.preview_time < 0 {
        pt.push('-');
        push_decimal(&mut pt, (-(m.preview_time as i64)) as u128);
    } else {
        push_decimal(&mut pt, m.preview_time as u128);
    }
    proof {
        assert(pt@ =~= dec_int(m.preview_time as int));
    }
    push_chars(out, &pt);
    push_str(
        out,
        "\nCountdown: 0\nSampleSet: Soft\nStackLeniency: 0.7\nMode: 3\nLetterboxInBreaks: 0\nSpecialStyle: 0\nWidescreenStoryboard: 1\n\n",
    );
    push_str(out, "[Editor]\nDistanceSpacing: 1\nBeatDivisor: 8\nGridSize: 4\nTimelineZoom: 2\n\n");
    proof {
        assert(out@ =~= old(out)@ + general_text(*m));
    }
}

fn push_metadata(out: &mut Vec<char>, m: &OsuMisc)
    ensures
        final(out)@ == old(out)@ + metadata_text(*m),
{
    push_str(out, "[Metadata]\nTitle:");
    push_string(out, &m.title);
    push_str(out, "\nTitleUnicode:");
    push_string(out, &m.title_unicode);
    push_str(out, "\nArtist:");
    push_string(out, &m.artist);
    push_str(out, "\nArtistUnicode:");
    push_string(out, &m.artist_unicode);
    push_str(out, "\nCreator:");
    push_string(out, &m.creator);
    push_str(out, "\nVersion:");
    push_string(out, &m.version);
    push_str(out, "\nSource:\nTags:\nBeatmapID:0\nBeatmapSetID:-1\n\n");
    proof {
        assert(out@ =~= old(out)@ + metadata_text(*m));
    }
}

fn push_difficulty(out: &mut Vec<char>, m: &OsuMisc)
    ensures
        final(out)@ == old(out)@ + difficulty_text(*m),
{
    push_str(out, "[Difficulty]\nHPDrainRate:8\nCircleSize:");
    push_decimal(out, m.circle_size as u128);
    push_str(out, "\nOverallDifficulty:");
    let mut od: Vec<char> = Vec::new();
    push_decimal(&mut od, (m.od_tenths / 10) as u128);
    if m.od_tenths % 10 != 0 {
        od.push('.');
        push_digit(&mut od, (m.od_tenths % 10) as u128);
    }
    proof {
        assert(od@ =~= od_text(m.od_tenths as int));
    }
    push_chars(out, &od);
    push_str(out, "\nApproachRate:5\nSliderMultiplier:1.4\nSliderTickRate:1\n\n");
    proof {
        assert(out@ =~= old(out)@ + difficulty_text(*m));
    }
}

fn push_events(out: &mut Vec<char>, m: &OsuMisc)
    ensures
        final(out)@ == old(out)@ + events_text(*m),
{
    push_str(out, "[Events]\n//Background and Video events\n");
    let mut bg: Vec<char> = Vec::new();
    let name = chars_of(m.background.as_str());
    if name.len() > 0 {
        push_str(&mut bg, "0,0,\"");
        push_chars(&mut bg, &name);
        push_str(&mut bg, "\",0,0\n");
    }
    proof {
        assert(bg@ =~= if m.background@.len() > 0 {
            "0,0,\""@ + m.background@ + "\",0,0\n"@
        } else {
            seq![]
        });
    }
    push_chars(out, &bg);
    push_str(
        out,
        "//Break Periods\n//Storyboard Layer 0 (Background)\n//Storyboard Layer 1 (Fail)\n//Storyboard Layer 2 (Pass)\n//Storyboard Layer 3 (Foreground)\n//Storyboard Layer 4 (Overlay)\n//Storyboard Sound Samples\n\n",
    );
    proof {
        assert(out@ =~= old(out)@ + events_text(*m));
    }
}

/// Every timing point's value has a positive denominator.
pub open spec fn timings_wf(d: OsuData) -> bool {
    forall|i: int| 0 <= i < d.timings@.len() ==> (#[trigger] d.timings@[i]).val_den > 0
}

/// Writes the target chart as text: the general, editor, metadata,
/// difficulty and events sections, then one row per timing point and one
/// row per hit object.
pub fn serialize_osu_data(d: &OsuData) -> (r: String)
    requires
        timings_wf(*d),
    ensures
        r@ == osu_text(*d),
{
    let mut out: Vec<char> = Vec::new();
    push_general(&mut out, &d.misc);
    push_metadata(&mut out, &d.misc);
    push_difficulty(&mut out, &d.misc);
    push_events(&mut out, &d.misc);
    push_str(&mut out, "[TimingPoints]\n");
    push_timing_rows(&mut out, &d.timings);
    push_str(&mut out, "\n\n[HitObjects]\n");
    push_hit_rows(&mut out, &d.notes);
    proof {
        assert(out@ =~= osu_text(*d));
    }
    string_from_chars(&out)
}

} // verus!
