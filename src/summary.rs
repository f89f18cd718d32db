//! The summary record of a converted chart: titles, tempo range, length and
//! note counts, as handed to rating, rendering and printing.
use crate::convert::OsuData;
use crate::notes::OsuHitObject;
use crate::serialize::{
    dec, fixed_digits, push_chars, push_decimal, push_fixed_digits, push_str, trim_zeros,
};
use crate::text::{chars_of, string_from_chars};
use crate::timing::OsuTimingPoint;
use vstd::prelude::*;

verus! {

/// Summary of one converted chart. Tempos are in thousandths of a BPM and
/// the star rating, when there is one, in thousandths.
#[derive(Clone, Debug)]
pub struct BeatMapInfo {
    pub title: String,
    pub title_unicode: Option<String>,
    pub artist: String,
    pub artist_unicode: Option<String>,
    pub creator: String,
    pub version: String,
    pub column_count: u8,
    pub min_bpm_milli: u128,
    pub max_bpm_milli: Option<u128>,
    pub length: u32,
    pub sr_milli: Option<u32>,
    pub note_count: usize,
    pub ln_count: usize,
    pub bg_name: Option<String>,
}

/// The tempo of a tempo point in thousandths of a BPM: `60000 / value`,
/// floored; 0 for a value that is not positive.
pub open spec fn bpm_milli_of(p: OsuTimingPoint) -> int {
    if p.val_num > 0 {
        (60_000_000 * p.val_den as int) / (p.val_num as int)
    } else {
        0
    }
}

/// The tempos of the tempo points, in order.
pub open spec fn tempo_bpms(pts: Seq<OsuTimingPoint>) -> Seq<int>
    decreases pts.len(),
{
    if pts.len() == 0 {
        seq![]
    } else if pts.last().is_timing {
        tempo_bpms(pts.drop_last()).push(bpm_milli_of(pts.last()))
    } else {
        tempo_bpms(pts.drop_last())
    }
}

pub open spec fn seq_min(s: Seq<int>) -> int
    decreases s.len(),
{
    if s.len() <= 1 {
        if s.len() == 0 {
            0
        } else {
            s[0]
        }
    } else if s.last() < seq_min(s.drop_last()) {
        s.last()
    } else {
        seq_min(s.drop_last())
    }
}

pub open spec fn seq_max(s: Seq<int>) -> int
    decreases s.len(),
{
    if s.len() <= 1 {
        if s.len() == 0 {
            0
        } else {
            s[0]
        }
    } else if s.last() > seq_max(s.drop_last()) {
        s.last()
    } else {
        seq_max(s.drop_last())
    }
}

/// The tempo range: the lowest tempo, and the highest when there is more
/// than one tempo point; `(0, None)` without tempo points.
pub open spec fn bpm_range(pts: Seq<OsuTimingPoint>) -> (int, Option<int>) {
    let b = tempo_bpms(pts);
    if b.len() == 0 {
        (0, None)
    } else if b.len() == 1 {
        (b[0], None)
    } else {
        (seq_min(b), Some(seq_max(b)))
    }
}

/// The earliest start of the hit objects (0 without any).
pub open spec fn min_start(hs: Seq<OsuHitObject>) -> int {
    seq_min(hs.map_values(|h: OsuHitObject| h.time as int))
}

/// The latest start of the hit objects (0 without any).
pub open spec fn max_start(hs: Seq<OsuHitObject>) -> int {
    seq_max(hs.map_values(|h: OsuHitObject| h.time as int))
}

pub open spec fn tail_time(h: OsuHitObject) -> int {
    match h.end_time {
        Some(e) => e as int,
        None => 0,
    }
}

/// The latest end of the hold notes (0 without any).
pub open spec fn max_tail(hs: Seq<OsuHitObject>) -> int
    decreases hs.len(),
{
    if hs.len() == 0 {
        0
    } else if tail_time(hs.last()) > max_tail(hs.drop_last()) {
        tail_time(hs.last())
    } else {
        max_tail(hs.drop_last())
    }
}

/// The playing length: from the earliest start to the latest start or hold
/// end, 0 when that would be negative.
pub open spec fn chart_length(hs: Seq<OsuHitObject>) -> int {
    let last = if max_tail(hs) > max_start(hs) {
        max_tail(hs)
    } else {
        max_start(hs)
    };
    if last > min_start(hs) {
        last - min_start(hs)
    } else {
        0
    }
}

/// The number of hold notes.
pub open spec fn hold_count(hs: Seq<OsuHitObject>) -> int
    decreases hs.len(),
{
    if hs.len() == 0 {
        0
    } else {
        hold_count(hs.drop_last()) + if hs.last().end_time is Some {
            1int
        } else {
            0
        }
    }
}

proof fn lemma_hold_count_bound(hs: Seq<OsuHitObject>)
    ensures
        0 <= hold_count(hs) <= hs.len(),
    decreases hs.len(),
{
    if hs.len() > 0 {
        lemma_hold_count_bound(hs.drop_last());
    }
}

proof fn lemma_seq_extremes_bound(s: Seq<int>, lo: int, hi: int)
    requires
        lo <= 0 <= hi,
        forall|i: int| 0 <= i < s.len() ==> lo <= #[trigger] s[i] <= hi,
    ensures
        lo <= seq_min(s) <= hi,
        lo <= seq_max(s) <= hi,
    decreases s.len(),
{
    if s.len() > 1 {
        lemma_seq_extremes_bound(s.drop_last(), lo, hi);
    }
}

proof fn lemma_max_tail_bound(hs: Seq<OsuHitObject>)
    ensures
        0 <= max_tail(hs) <= 0xffff_ffff,
    decreases hs.len(),
{
    if hs.len() > 0 {
        lemma_max_tail_bound(hs.drop_last());
    }
}

/// Lowest and highest value met so far, folded left to right.
fn fold_min(cur: u128, x: u128, first: bool) -> (r: u128)
    ensures
        r == if first || x < cur {
            x
        } else {
            cur
        },
{
    if first || x < cur {
        x
    } else {
        cur
    }
}

fn fold_max(cur: u128, x: u128, first: bool) -> (r: u128)
    ensures
        r == if first || x > cur {
            x
        } else {
            cur
        },
{
    if first || x > cur {
        x
    } else {
        cur
    }
}

impl OsuData {
    /// The tempo range of the chart, from its tempo points only.
    pub fn get_bpm_range(&self) -> (r: (u128, Option<u128>))
        ensures
            r.0 as int == bpm_range(self.timings@).0,
            r.1 matches Some(m) ==> bpm_range(self.timings@).1 == Some(m as int),
            r.1 is None ==> bpm_range(self.timings@).1 is None,
    {
        let pts = &self.timings;
        let mut count: usize = 0;
        let mut lo: u128 = 0;
        let mut hi: u128 = 0;
        let mut i: usize = 0;
        while i < pts.len()
            invariant
                i <= pts@.len(),
                count as int == tempo_bpms(pts@.take(i as int)).len(),
                count <= i,
                count > 0 ==> lo as int == seq_min(tempo_bpms(pts@.take(i as int))),
                count > 0 ==> hi as int == seq_max(tempo_bpms(pts@.take(i as int))),
            decreases pts@.len() - i,
        {
            let p = pts[i];
            let ghost prev = pts@.take(i as int);
            proof {
                assert(pts@.take(i as int + 1).drop_last() =~= prev);
                assert(pts@.take(i as int + 1).last() == p);
            }
            if p.is_timing {
                let b: u128 = if p.val_num > 0 {
                    proof {
                        assert(60_000_000 * (p.val_den as int) <= 0x39386fffffffffffc6c7900)
                            by (nonlinear_arith)
                            requires
                                p.val_den <= 0xffff_ffff_ffff_ffff,
                        ;
                        crate::beat::lemma_floor_div_abs_le(
                            60_000_000 * (p.val_den as int),
                            p.val_num as int,
                            0x39386fffffffffffc6c7900,
                        );
                    }
                    (60_000_000 * p.val_den as u128) / (p.val_num as u128)
                } else {
                    0
                };
                proof {
                    assert(b as int == bpm_milli_of(p));
                    let s = tempo_bpms(pts@.take(i as int + 1));
                    assert(s == tempo_bpms(prev).push(b as int));
                    assert(s.drop_last() =~= tempo_bpms(prev));
                }
                lo = fold_min(lo, b, count == 0);
                hi = fold_max(hi, b, count == 0);
                count = count + 1;
            }
            i = i + 1;
        }
        proof {
            assert(pts@.take(pts@.len() as int) =~= pts@);
        }
        if count == 0 {
            (0, None)
        } else if count == 1 {
            (lo, None)
        } else {
            (lo, Some(hi))
        }
    }

    /// The playing length of the chart in ms.
    pub fn get_length(&self) -> (r: u32)
        ensures
            r as int == chart_length(self.notes@),
    {
        let hs = &self.notes;
        let mut min_t: u32 = 0;
        let mut max_t: u32 = 0;
        let mut tail: u32 = 0;
        let mut i: usize = 0;
        while i < hs.len()
            invariant
                i <= hs@.len(),
                min_t as int == min_start(hs@.take(i as int)),
                max_t as int == max_start(hs@.take(i as int)),
                tail as int == max_tail(hs@.take(i as int)),
            decreases hs@.len() - i,
        {
            let h = hs[i];
            let ghost prev = hs@.take(i as int);
            let ghost next = hs@.take(i as int + 1);
            proof {
                assert(next.drop_last() =~= prev);
                assert(next.last() == h);
                let f = |h: OsuHitObject| h.time as int;
                assert(next.map_values(f).drop_last() =~= prev.map_values(f));
                assert(next.map_values(f).last() == h.time as int);
                if i == 0 {
                    assert(next.map_values(f) =~= seq![h.time as int]);
                }
            }
            if i == 0 || h.time < min_t {
                min_t = h.time;
            }
            if i == 0 || h.time > max_t {
                max_t = h.time;
            }
            let t: u32 = match h.end_time {
                Some(e) => e,
                None => 0,
            };
            if t > tail {
                tail = t;
            }
            i = i + 1;
        }
        proof {
            assert(hs@.take(hs@.len() as int) =~= hs@);
        }
        let last = if tail > max_t {
            tail
        } else {
            max_t
        };
        if last > min_t {
            last - min_t
        } else {
            0
        }
    }

    /// The number of hold notes of the chart.
    pub fn hold_note_count(&self) -> (r: usize)
        ensures
            r as int == hold_count(self.notes@),
    {
        let hs = &self.notes;
        let mut n: usize = 0;
        let mut i: usize = 0;
        while i < hs.len()
            invariant
                i <= hs@.len(),
                n as int == hold_count(hs@.take(i as int)),
            decreases hs@.len() - i,
        {
            proof {
                assert(hs@.take(i as int + 1).drop_last() =~= hs@.take(i as int));
                lemma_hold_count_bound(hs@.take(i as int));
            }
            if hs[i].end_time.is_some() {
                n = n + 1;
            }
            i = i + 1;
        }
        proof {
            assert(hs@.take(hs@.len() as int) =~= hs@);
        }
        n
    }
}

/// `info` summarizes `d`, with rating `sr_milli`.
pub open spec fn summarizes(d: OsuData, sr_milli: Option<u32>, info: BeatMapInfo) -> bool {
    &&& info.title@ == d.misc.title@
    &&& info.title_unicode matches Some(t) && t@ == d.misc.title_unicode@
    &&& info.artist@ == d.misc.artist@
    &&& info.artist_unicode matches Some(a) && a@ == d.misc.artist_unicode@
    &&& info.creator@ == d.misc.creator@
    &&& info.version@ == d.misc.version@
    &&& info.column_count == d.misc.circle_size as u8
    &&& info.min_bpm_milli as int == bpm_range(d.timings@).0
    &&& match info.max_bpm_milli {
        Some(m) => bpm_range(d.timings@).1 == Some(m as int),
        None => bpm_range(d.timings@).1 is None,
    }
    &&& info.length as int == chart_length(d.notes@)
    &&& info.sr_milli == sr_milli
    &&& info.ln_count as int == hold_count(d.notes@)
    &&& info.note_count as int == d.notes@.len() - hold_count(d.notes@)
    &&& info.bg_name matches Some(b) && b@ == d.misc.background@
}

fn copy_string(s: &String) -> (r: String)
    ensures
        r@ == s@,
{
    s.clone()
}

impl OsuData {
    /// The summary of the chart, carrying the star rating `sr_milli` when
    /// one was computed.
    pub fn to_beatmap_info(&self, sr_milli: Option<u32>) -> (r: BeatMapInfo)
        ensures
            summarizes(*self, sr_milli, r),
    {
        let (min_bpm_milli, max_bpm_milli) = self.get_bpm_range();
        let length = self.get_length();
        let ln_count = self.hold_note_count();
        proof {
            lemma_hold_count_bound(self.notes@);
        }
        BeatMapInfo {
            title: copy_string(&self.misc.title),
            title_unicode: Some(copy_string(&self.misc.title_unicode)),
            artist: copy_string(&self.misc.artist),
            artist_unicode: Some(copy_string(&self.misc.artist_unicode)),
            creator: copy_string(&self.misc.creator),
            version: copy_string(&self.misc.version),
            column_count: self.misc.circle_size as u8,
            min_bpm_milli,
            max_bpm_milli,
            length,
            sr_milli,
            note_count: self.notes.len() - ln_count,
            ln_count,
            bg_name: Some(copy_string(&self.misc.background)),
        }
    }
}

/// The key summaries are ordered by: the rating, a missing rating first.
pub open spec fn rating_key(info: BeatMapInfo) -> int {
    match info.sr_milli {
        Some(v) => v as int,
        None => -1,
    }
}

pub open spec fn sorted_by_rating(s: Seq<BeatMapInfo>) -> bool {
    forall|i: int, j: int| 0 <= i <= j < s.len() ==> rating_key(#[trigger] s[i]) <= rating_key(#[trigger] s[j])
}

fn rating_key_of(info: &BeatMapInfo) -> (r: i64)
    ensures
        r as int == rating_key(*info),
{
    match info.sr_milli {
        Some(v) => v as i64,
        None => -1,
    }
}

/// Orders summaries by rating, a missing rating first.
pub fn sort_by_rating(infos: Vec<BeatMapInfo>) -> (r: Vec<BeatMapInfo>)
    ensures
        r@.to_multiset() == infos@.to_multiset(),
        sorted_by_rating(r@),
{
    broadcast use vstd::multiset::group_multiset_axioms;

    let ghost all = infos@;
    let mut rest = infos;
    let mut out: Vec<BeatMapInfo> = Vec::new();
    proof {
        out@.to_multiset_ensures();
        vstd::multiset::lemma_multiset_empty_len(out@.to_multiset());
        assert(out@.to_multiset().add(rest@.to_multiset()) =~= all.to_multiset());
    }
    while rest.len() > 0
        invariant
            out@.to_multiset().add(rest@.to_multiset()) == all.to_multiset(),
            sorted_by_rating(out@),
        decreases rest@.len(),
    {
        let ghost old_rest = rest@;
        let ghost old_out = out@;
        let x = rest.remove(0);
        let k = rating_key_of(&x);
        let mut p: usize = 0;
        while p < out.len() && rating_key_of(&out[p]) <= k
            invariant
                p <= out@.len(),
                out@ == old_out,
                forall|i: int| 0 <= i < p ==> rating_key(#[trigger] out@[i]) <= k,
            decreases out@.len() - p,
        {
            p = p + 1;
        }
        proof {
            old_out.insert_ensures(p as int, x);
            vstd::seq_lib::to_multiset_insert(old_out, p as int, x);
            vstd::seq_lib::to_multiset_remove(old_rest, 0);
            assert(old_rest.to_multiset().count(x) > 0) by {
                old_rest.to_multiset_ensures();
                assert(old_rest.contains(x)) by {
                    assert(old_rest[0] == x);
                }
            }
        }
        out.insert(p, x);
        proof {
            let n = out@;
            assert forall|i: int, j: int| 0 <= i <= j < n.len() implies rating_key(#[trigger] n[i])
                <= rating_key(#[trigger] n[j]) by {
                if j < p {
                } else if i > p {
                    assert(n[i] == old_out[i - 1] && n[j] == old_out[j - 1]);
                } else if i == p && j == p {
                } else if i == p {
                    assert(n[j] == old_out[j - 1]);
                    assert(rating_key(old_out[p as int]) > k);
                } else if j == p {
                } else {
                    assert(n[j] == old_out[j - 1]);
                }
            }
            assert(out@.to_multiset().add(rest@.to_multiset()) =~= all.to_multiset());
        }
    }
    proof {
        rest@.to_multiset_ensures();
        vstd::multiset::lemma_multiset_empty_len(rest@.to_multiset());
        assert(out@.to_multiset() =~= all.to_multiset());
    }
    out
}

/// A length in ms as `minutes:seconds.milliseconds`, seconds on two digits
/// and milliseconds on three.
pub open spec fn length_text(length: int) -> Seq<char> {
    dec((length / 60000) as nat) + seq![':'] + fixed_digits(((length % 60000) / 1000) as nat, 2)
        + seq!['.'] + fixed_digits((length % 1000) as nat, 3)
}

/// Formats a length in ms as `m:ss.mmm`.
pub fn format_length_str(length: u32) -> (r: String)
    ensures
        r@ == length_text(length as int),
{
    let mins = length / 60000;
    let secs = (length - 60000 * mins) / 1000;
    let msecs = length % 1000;
    let mut out: Vec<char> = Vec::new();
    crate::serialize::push_decimal(&mut out, mins as u128);
    out.push(':');
    crate::serialize::push_fixed_digits(&mut out, secs as u128, 2);
    out.push('.');
    crate::serialize::push_fixed_digits(&mut out, msecs as u128, 3);
    proof {
        assert(length - 60000 * mins == length % 60000);
        assert(out@ =~= length_text(length as int));
    }
    string_from_chars(&out)
}

/// A value in thousandths as a decimal: the whole part, then the
/// fractional digits without trailing zeros when there are any.
pub open spec fn milli_text(m: int) -> Seq<char> {
    dec((m / 1000) as nat) + if m % 1000 != 0 {
        seq!['.'] + trim_zeros(fixed_digits((m % 1000) as nat, 3))
    } else {
        seq![]
    }
}

/// `name`, followed by ` (alias)` when the alias is present and not empty.
pub open spec fn with_alias(name: Seq<char>, alias: Option<String>) -> Seq<char> {
    match alias {
        Some(a) => if a@.len() > 0 {
            name + " ("@ + a@ + ")"@
        } else {
            name
        },
        None => name,
    }
}

/// The printed summary of a chart.
pub open spec fn summary_text(info: BeatMapInfo) -> Seq<char> {
    "Title: "@ + with_alias(info.title@, info.title_unicode) + "\nArtist: "@ + with_alias(
        info.artist@,
        info.artist_unicode,
    ) + "\nCreator: "@ + info.creator@ + "\nVersion: "@ + info.version@ + "\nColumns: "@ + dec(
        info.column_count as nat,
    ) + "\nBPM: "@ + milli_text(info.min_bpm_milli as int) + match info.max_bpm_milli {
        Some(m) => seq!['-'] + milli_text(m as int),
        None => seq![],
    } + "\nLength: "@ + length_text(info.length as int) + "\nSR: "@ + match info.sr_milli {
        Some(v) => dec((v / 1000) as nat) + seq!['.'] + fixed_digits((v % 1000) as nat, 3) + seq![
            '0',
        ],
        None => "N/A"@,
    }
}

fn push_milli(out: &mut Vec<char>, m: u128)
    ensures
        final(out)@ == old(out)@ + milli_text(m as int),
{
    push_decimal(out, m / 1000);
    let mut digits: Vec<char> = Vec::new();
    let mut tail: Vec<char> = Vec::new();
    if m % 1000 != 0 {
        push_fixed_digits(&mut digits, m % 1000, 3);
        let ghost all = digits@;
        while digits.len() > 0 && digits[digits.len() - 1] == '0'
            invariant
                trim_zeros(digits@) == trim_zeros(all),
            decreases digits@.len(),
        {
            digits.pop();
        }
        proof {
            assert(digits@ == trim_zeros(all));
        }
        tail.push('.');
        push_chars(&mut tail, &digits);
    }
    push_chars(out, &tail);
    proof {
        assert(out@ =~= old(out)@ + milli_text(m as int));
    }
}

fn push_with_alias(out: &mut Vec<char>, name: &String, alias: &Option<String>)
    ensures
        final(out)@ == old(out)@ + with_alias(name@, *alias),
{
    push_str(out, name.as_str());
    match alias {
        Some(a) => {
            let cs = chars_of(a.as_str());
            if cs.len() > 0 {
                push_str(out, " (");
                push_chars(out, &cs);
                push_str(out, ")");
            }
        },
        None => {},
    }
    proof {
        assert(out@ =~= old(out)@ + with_alias(name@, *alias));
    }
}

impl BeatMapInfo {
    /// The summary as printed after a conversion.
    pub fn summary_string(&self) -> (r: String)
        ensures
            r@ == summary_text(*self),
    {
        let mut out: Vec<char> = Vec::new();
        push_str(&mut out, "Title: ");
        push_with_alias(&mut out, &self.title, &self.title_unicode);
        push_str(&mut out, "\nArtist: ");
        push_with_alias(&mut out, &self.artist, &self.artist_unicode);
        push_str(&mut out, "\nCreator: ");
        push_str(&mut out, self.creator.as_str());
        push_str(&mut out, "\nVersion: ");
        push_str(&mut out, self.version.as_str());
        push_str(&mut out, "\nColumns: ");
        push_decimal(&mut out, self.column_count as u128);
        push_str(&mut out, "\nBPM: ");
        push_milli(&mut out, self.min_bpm_milli);
        let mut max_part: Vec<char> = Vec::new();
        match self.max_bpm_milli {
            Some(m) => {
                max_part.push('-');
                push_milli(&mut max_part, m);
            },
            None => {},
        }
        proof {
            assert(max_part@ =~= match self.max_bpm_milli {
                Some(m) => seq!['-'] + milli_text(m as int),
                None => seq![],
            });
        }
        push_chars(&mut out, &max_part);
        push_str(&mut out, "\nLength: ");
        let len_text = format_length_str(self.length);
        push_str(&mut out, len_text.as_str());
        push_str(&mut out, "\nSR: ");
        let mut sr: Vec<char> = Vec::new();
        match self.sr_milli {
            Some(v) => {
                push_decimal(&mut sr, (v / 1000) as u128);
                sr.push('.');
                push_fixed_digits(&mut sr, (v % 1000) as u128, 3);
                sr.push('0');
            },
            None => {
                push_str(&mut sr, "N/A");
            },
        }
        proof {
            assert(sr@ =~= match self.sr_milli {
                Some(v) => dec((v / 1000) as nat) + seq!['.'] + fixed_digits((v % 1000) as nat, 3)
                    + seq!['0'],
                None => "N/A"@,
            });
        }
        push_chars(&mut out, &sr);
        proof {
            assert(out@ =~= summary_text(*self));
        }
        string_from_chars(&out)
    }
}

} // verus!
