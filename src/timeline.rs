//! The tempo timeline: breakpoints built from the tempo events, and the
//! resolver that maps a beat position to an absolute millisecond time.
use crate::beat::{
    ceil_div, clamp_time, clamp_time_i128, floor_div, floor_div_i128, lemma_floor_div_abs_le,
    lemma_frac_le_trans, lemma_mul_abs_le, RationalBeat, TIME_MAX,
};
use crate::source::{tempo_events_wf, Beat};
use vstd::arithmetic::div_mod::{lemma_div_pos_is_pos, lemma_fundamental_div_mod};
use vstd::prelude::*;

verus! {

/// Milliseconds per minute times 1000, as tempo is held in thousandths of a
/// BPM: one beat at `bpm_milli` lasts `MS_PER_MINUTE_MILLI / bpm_milli` ms.
pub const MS_PER_MINUTE_MILLI: i128 = 60_000_000;

/// Bound on the magnitude of a breakpoint's beat numerator.
pub const BEAT_NUM_BOUND: i128 = 0x1_0000_0000_0000_0000;

/// Bound on a beat denominator and on a tempo.
pub const DEN_BOUND: i128 = 0x1_0000_0000;

/// A breakpoint as mathematical values: from beat `beat_num / beat_den`,
/// reached at `time` ms, the tempo is `bpm` thousandths of a BPM.
pub struct BreakpointModel {
    pub beat_num: int,
    pub beat_den: int,
    pub time: int,
    pub bpm: int,
}

/// A tempo breakpoint: at beat `beat_num / beat_den`, time `time_ms`, each
/// beat from there on lasts `MS_PER_MINUTE_MILLI / bpm_milli` ms.
#[derive(Clone, Copy, Debug)]
pub struct TempoBreakpoint {
    pub beat_num: i128,
    pub beat_den: i128,
    pub time_ms: u32,
    pub bpm_milli: u32,
}

impl View for TempoBreakpoint {
    type V = BreakpointModel;

    open spec fn view(&self) -> BreakpointModel {
        BreakpointModel {
            beat_num: self.beat_num as int,
            beat_den: self.beat_den as int,
            time: self.time_ms as int,
            bpm: self.bpm_milli as int,
        }
    }
}

pub open spec fn models(bps: Seq<TempoBreakpoint>) -> Seq<BreakpointModel> {
    bps.map_values(|b: TempoBreakpoint| b@)
}

/// The magnitudes that keep every computation on a breakpoint inside `i128`.
pub open spec fn bp_bounded(b: BreakpointModel) -> bool {
    &&& -BEAT_NUM_BOUND < b.beat_num < BEAT_NUM_BOUND
    &&& 0 < b.beat_den < DEN_BOUND
    &&& 0 < b.bpm < DEN_BOUND
    &&& 0 <= b.time <= TIME_MAX
}

/// The first breakpoint's beat: the smallest whole beat at or after the
/// lead-in `offset`, that is `ceil(offset / (60000 / bpm))`.
pub open spec fn start_beat(offset: int, bpm: int) -> int {
    ceil_div(offset * bpm, MS_PER_MINUTE_MILLI as int)
}

/// The first breakpoint's time: `floor(start_beat * (60000 / bpm) - offset)`.
pub open spec fn start_time(offset: int, bpm: int) -> int {
    clamp_time(
        floor_div(start_beat(offset, bpm) * MS_PER_MINUTE_MILLI as int - offset * bpm, bpm),
    )
}

/// Whole milliseconds from beat `fnum / fden` to beat `tnum / tden` at tempo
/// `bpm`: `floor((t - f) * (60000 / bpm))`.
pub open spec fn elapsed(fnum: int, fden: int, tnum: int, tden: int, bpm: int) -> int {
    floor_div((tnum * fden - fnum * tden) * MS_PER_MINUTE_MILLI as int, tden * fden * bpm)
}

/// A breakpoint's time from the previous one's: elapsed time before a beat
/// that lies earlier counts as zero.
pub open spec fn advance(time: int, step: int) -> int {
    clamp_time(
        time + if step < 0 {
            0
        } else {
            step
        },
    )
}

/// The `k`-th breakpoint built from `events` with lead-in `offset`.
pub open spec fn breakpoint(events: Seq<Beat>, offset: int, k: nat) -> BreakpointModel
    decreases k,
{
    if k == 0 {
        let m = events[0].bpm_milli as int;
        BreakpointModel {
            beat_num: start_beat(offset, m),
            beat_den: 1,
            time: start_time(offset, m),
            bpm: m,
        }
    } else {
        let p = breakpoint(events, offset, (k - 1) as nat);
        let e = events[k as int];
        BreakpointModel {
            beat_num: e.beat.num(),
            beat_den: e.beat.den(),
            time: advance(p.time, elapsed(p.beat_num, p.beat_den, e.beat.num(), e.beat.den(), p.bpm)),
            bpm: e.bpm_milli as int,
        }
    }
}

/// The whole timeline built from `events` with lead-in `offset`.
pub open spec fn timeline(events: Seq<Beat>, offset: int) -> Seq<BreakpointModel> {
    Seq::new(events.len(), |k: int| breakpoint(events, offset, k as nat))
}

/// Whether breakpoint `b` lies at or before beat `qn / qd`.
pub open spec fn beat_le(b: BreakpointModel, qn: int, qd: int) -> bool {
    b.beat_num * qd <= qn * b.beat_den
}

/// The breakpoints after the first come in non-decreasing beat order (the
/// first one's beat comes from the lead-in and may lie after the second).
pub open spec fn tail_sorted(bps: Seq<BreakpointModel>) -> bool {
    forall|i: int, j: int|
        1 <= i < j < bps.len() ==> #[trigger] beat_le(bps[i], bps[j].beat_num, bps[j].beat_den)
            && #[trigger] bps[j].beat_den > 0
}

/// The last of the first `n` breakpoints that lies at or before beat
/// `qn / qd` (0 when there is none).
pub open spec fn last_at_or_before(bps: Seq<BreakpointModel>, n: int, qn: int, qd: int) -> int
    decreases n,
{
    if n <= 0 {
        0
    } else if beat_le(bps[n - 1], qn, qd) {
        n - 1
    } else {
        last_at_or_before(bps, n - 1, qn, qd)
    }
}

/// The absolute time of beat `qn / qd`: 0 without breakpoints; before the
/// first breakpoint, `q * (60000 / bpm0) - offset`; otherwise the time of the
/// rightmost breakpoint at or before `q` plus the time elapsed since it at
/// its tempo. Floored, and clamped to the `u32` range.
pub open spec fn time_of_beat(bps: Seq<BreakpointModel>, offset: int, qn: int, qd: int) -> int {
    if bps.len() == 0 {
        0
    } else if !beat_le(bps[0], qn, qd) {
        clamp_time(
            floor_div(
                qn * MS_PER_MINUTE_MILLI as int - offset * bps[0].bpm * qd,
                qd * bps[0].bpm,
            ),
        )
    } else {
        let b = bps[last_at_or_before(bps, bps.len() as int, qn, qd)];
        clamp_time(b.time + elapsed(b.beat_num, b.beat_den, qn, qd, b.bpm))
    }
}

proof fn lemma_elapsed_bounds(fnum: int, fden: int, tnum: int, tden: int, bpm: int)
    requires
        -BEAT_NUM_BOUND < fnum < BEAT_NUM_BOUND,
        -BEAT_NUM_BOUND < tnum < BEAT_NUM_BOUND,
        0 < fden < DEN_BOUND,
        0 < tden < DEN_BOUND,
        0 < bpm < DEN_BOUND,
    ensures
        -0x1_0000_0000_0000_0000_0000_0000 <= tnum * fden <= 0x1_0000_0000_0000_0000_0000_0000,
        -0x1_0000_0000_0000_0000_0000_0000 <= fnum * tden <= 0x1_0000_0000_0000_0000_0000_0000,
        -0x2_0000_0000_0000_0000_0000_0000 <= tnum * fden - fnum * tden
            <= 0x2_0000_0000_0000_0000_0000_0000,
        -0x2_0000_0000_0000_0000_0000_0000 * 60_000_000 <= (tnum * fden - fnum * tden)
            * 60_000_000 <= 0x2_0000_0000_0000_0000_0000_0000 * 60_000_000,
        0 < tden * fden,
        tden * fden <= 0xffff_fffe_0000_0001,
        0 < tden * fden * bpm,
        tden * fden * bpm <= 0xffff_fffd_0000_0002_ffff_ffff,
{
    lemma_mul_abs_le(tnum, fden, BEAT_NUM_BOUND as int, 0xffff_ffff);
    lemma_mul_abs_le(fnum, tden, BEAT_NUM_BOUND as int, 0xffff_ffff);
    let s = tnum * fden - fnum * tden;
    lemma_mul_abs_le(s, 60_000_000, 0x2_0000_0000_0000_0000_0000_0000, 60_000_000);
    lemma_mul_abs_le(tden, fden, 0xffff_ffff, 0xffff_ffff);
    assert(0 < tden * fden) by (nonlinear_arith)
        requires
            0 < tden,
            0 < fden,
    ;
    lemma_mul_abs_le(tden * fden, bpm, 0xffff_fffe_0000_0001, 0xffff_ffff);
    assert(0 < tden * fden * bpm) by (nonlinear_arith)
        requires
            0 < tden * fden,
            0 < bpm,
    ;
}


/// Whole milliseconds from one beat to another at a given tempo, exactly.
pub fn elapsed_ms(fnum: i128, fden: i128, tnum: i128, tden: i128, bpm_milli: u32) -> (r: i128)
    requires
        -BEAT_NUM_BOUND < fnum < BEAT_NUM_BOUND,
        -BEAT_NUM_BOUND < tnum < BEAT_NUM_BOUND,
        0 < fden < DEN_BOUND,
        0 < tden < DEN_BOUND,
        0 < bpm_milli,
    ensures
        r as int == elapsed(fnum as int, fden as int, tnum as int, tden as int, bpm_milli as int),
        -0x7270e00000000000000000000000000 <= r <= 0x7270e00000000000000000000000000,
{
    proof {
        lemma_elapsed_bounds(fnum as int, fden as int, tnum as int, tden as int, bpm_milli as int);
        let n = (tnum * fden - fnum * tden) * 60_000_000;
        lemma_floor_div_abs_le(n, tden * fden * bpm_milli, 0x7270e00000000000000000000000000);
    }
    let span = tnum * fden - fnum * tden;
    floor_div_i128(span * MS_PER_MINUTE_MILLI, tden * fden * bpm_milli as i128)
}

/// Builds the tempo breakpoints from the tempo events and the lead-in offset
///: the first breakpoint sits at the first whole beat at
/// or after the lead-in, under the first event's tempo; each later one at its
/// event's beat, its time advanced from the previous breakpoint under the
/// previous tempo. `None` exactly when there is no tempo event.
pub fn build_tempo_timeline(events: &Vec<Beat>, offset: i32) -> (r: Option<Vec<TempoBreakpoint>>)
    requires
        forall|i: int| 0 <= i < events@.len() ==> (#[trigger] events@[i]).bpm_milli > 0,
        forall|i: int| 0 <= i < events@.len() ==> (#[trigger] events@[i]).beat.wf(),
    ensures
        r is None <==> events@.len() == 0,
        r matches Some(v) ==> models(v@) == timeline(events@, offset as int),
        r matches Some(v) ==> forall|i: int| 0 <= i < v@.len() ==> bp_bounded(#[trigger] v@[i]@),
{
    if events.len() == 0 {
        return None;
    }
    let m: i128 = events[0].bpm_milli as i128;
    let off: i128 = offset as i128;
    proof {
        lemma_mul_abs_le(off as int, m as int, 0x8000_0000, 0xffff_ffff);
        lemma_floor_div_abs_le(-(off * m), 60_000_000, 0x7fff_ffff_8000_0000);
    }
    let b0: i128 = -floor_div_i128(-(off * m), MS_PER_MINUTE_MILLI);
    proof {
        lemma_mul_abs_le(b0 as int, 60_000_000, 0x7fff_ffff_8000_0000, 60_000_000);
    }
    let t0: u32 = clamp_time_i128(floor_div_i128(b0 * MS_PER_MINUTE_MILLI - off * m, m));
    let mut out: Vec<TempoBreakpoint> = Vec::new();
    out.push(TempoBreakpoint { beat_num: b0, beat_den: 1, time_ms: t0, bpm_milli: events[0].bpm_milli });
    proof {
        assert(out@[0]@ == breakpoint(events@, offset as int, 0));
    }
    let mut k: usize = 1;
    while k < events.len()
        invariant
            1 <= k <= events@.len(),
            out@.len() == k,
            forall|i: int| 0 <= i < events@.len() ==> (#[trigger] events@[i]).bpm_milli > 0,
            forall|i: int| 0 <= i < events@.len() ==> (#[trigger] events@[i]).beat.wf(),
            forall|i: int| 0 <= i < k ==> (#[trigger] out@[i])@ == breakpoint(events@, offset as int, i as nat),
            forall|i: int| 0 <= i < k ==> bp_bounded(#[trigger] out@[i]@),
        decreases events@.len() - k,
    {
        let p = out[k - 1];
        let e = events[k];
        let en = e.beat.fraction_num();
        let ed = e.beat.denominator as i128;
        let step = elapsed_ms(p.beat_num, p.beat_den, en, ed, p.bpm_milli);
        let t = clamp_time_i128(p.time_ms as i128 + if step < 0 { 0 } else { step });
        out.push(TempoBreakpoint { beat_num: en, beat_den: ed, time_ms: t, bpm_milli: e.bpm_milli });
        proof {
            assert(out@[k as int]@ == breakpoint(events@, offset as int, k as nat));
        }
        k = k + 1;
    }
    proof {
        assert(models(out@) =~= timeline(events@, offset as int));
    }
    Some(out)
}

/// With the tail sorted and the first breakpoint at or before `q`, the
/// breakpoints at or before `q` form a prefix.
proof fn lemma_prefix_at_or_before(bps: Seq<BreakpointModel>, qn: int, qd: int, i: int, j: int)
    requires
        tail_sorted(bps),
        forall|k: int| 0 <= k < bps.len() ==> (#[trigger] bps[k]).beat_den > 0,
        qd > 0,
        bps.len() > 0,
        beat_le(bps[0], qn, qd),
        0 <= i <= j < bps.len(),
        beat_le(bps[j], qn, qd),
    ensures
        beat_le(bps[i], qn, qd),
{
    if 1 <= i < j {
        assert(beat_le(bps[i], bps[j].beat_num, bps[j].beat_den));
        lemma_frac_le_trans(
            bps[i].beat_num,
            bps[i].beat_den,
            bps[j].beat_num,
            bps[j].beat_den,
            qn,
            qd,
        );
    }
}

/// The rightmost breakpoint at or before `q` among the first `n` is `k` when
/// `k` is at or before `q` and none after it is.
proof fn lemma_last_at_or_before(bps: Seq<BreakpointModel>, n: int, k: int, qn: int, qd: int)
    requires
        0 <= k < n <= bps.len(),
        beat_le(bps[k], qn, qd),
        forall|i: int| k < i < n ==> !beat_le(#[trigger] bps[i], qn, qd),
    ensures
        last_at_or_before(bps, n, qn, qd) == k,
    decreases n,
{
    if n - 1 > k {
        lemma_last_at_or_before(bps, n - 1, k, qn, qd);
    }
}

/// Resolves a beat position to its absolute time on the timeline `bps` with
/// lead-in `offset`. The segment is found by binary search for the rightmost
/// breakpoint at or before the beat.
pub fn beat_to_time(bps: &Vec<TempoBreakpoint>, offset: i32, beat: RationalBeat) -> (r: u32)
    requires
        beat.wf(),
        forall|i: int| 0 <= i < bps@.len() ==> bp_bounded(#[trigger] bps@[i]@),
        tail_sorted(models(bps@)),
    ensures
        r as int == time_of_beat(models(bps@), offset as int, beat.num(), beat.den()),
{
    let ghost ms = models(bps@);
    if bps.len() == 0 {
        return 0;
    }
    let qn = beat.fraction_num();
    let qd = beat.denominator as i128;
    let first = bps[0];
    proof {
        assert(ms[0] == first@);
        lemma_mul_abs_le(qn as int, first.beat_den as int, BEAT_NUM_BOUND as int, 0xffff_ffff);
        lemma_mul_abs_le(first.beat_num as int, qd as int, BEAT_NUM_BOUND as int, 0xffff_ffff);
    }
    if qn * first.beat_den < first.beat_num * qd {
        let m = first.bpm_milli as i128;
        let off = offset as i128;
        proof {
            lemma_mul_abs_le(qn as int, 60_000_000, BEAT_NUM_BOUND as int, 60_000_000);
            lemma_mul_abs_le(off as int, m as int, 0x8000_0000, 0xffff_ffff);
            lemma_mul_abs_le(off * m, qd as int, 0x7fff_ffff_8000_0000, 0xffff_ffff);
            lemma_mul_abs_le(qd as int, m as int, 0xffff_ffff, 0xffff_ffff);
            assert(0 < qd * m) by (nonlinear_arith)
                requires
                    0 < qd,
                    0 < m,
            ;
        }
        return clamp_time_i128(floor_div_i128(qn * MS_PER_MINUTE_MILLI - off * m * qd, qd * m));
    }
    proof {
        assert forall|k: int| 0 <= k < ms.len() implies (#[trigger] ms[k]).beat_den > 0 by {
            assert(bp_bounded(bps@[k]@));
        }
    }
    let mut lo: usize = 1;
    let mut hi: usize = bps.len();
    while lo < hi
        invariant
            1 <= lo <= hi <= bps@.len(),
            ms == models(bps@),
            forall|i: int| 0 <= i < bps@.len() ==> bp_bounded(#[trigger] bps@[i]@),
            forall|k: int| 0 <= k < ms.len() ==> (#[trigger] ms[k]).beat_den > 0,
            tail_sorted(ms),
            beat_le(ms[0], qn as int, qd as int),
            0 < qd < DEN_BOUND,
            0 <= qn < BEAT_NUM_BOUND,
            forall|i: int| 0 <= i < lo ==> beat_le(#[trigger] ms[i], qn as int, qd as int),
            forall|i: int| hi <= i < ms.len() ==> !beat_le(#[trigger] ms[i], qn as int, qd as int),
        decreases hi - lo,
    {
        let mid = lo + (hi - lo) / 2;
        let b = bps[mid];
        proof {
            assert(ms[mid as int] == b@);
            assert(bp_bounded(bps@[mid as int]@));
            lemma_mul_abs_le(qn as int, b.beat_den as int, BEAT_NUM_BOUND as int, 0xffff_ffff);
            lemma_mul_abs_le(b.beat_num as int, qd as int, BEAT_NUM_BOUND as int, 0xffff_ffff);
        }
        if b.beat_num * qd <= qn * b.beat_den {
            proof {
                assert forall|i: int| 0 <= i < mid + 1 implies beat_le(#[trigger] ms[i], qn as int, qd as int) by {
                    lemma_prefix_at_or_before(ms, qn as int, qd as int, i, mid as int);
                }
            }
            lo = mid + 1;
        } else {
            proof {
                assert forall|i: int| mid <= i < ms.len() implies !beat_le(#[trigger] ms[i], qn as int, qd as int) by {
                    if beat_le(ms[i], qn as int, qd as int) {
                        lemma_prefix_at_or_before(ms, qn as int, qd as int, mid as int, i);
                    }
                }
            }
            hi = mid;
        }
    }
    let k = lo - 1;
    let b = bps[k];
    proof {
        assert(ms[k as int] == b@);
        assert(bp_bounded(bps@[k as int]@));
        lemma_last_at_or_before(ms, ms.len() as int, k as int, qn as int, qd as int);
    }
    let step = elapsed_ms(b.beat_num, b.beat_den, qn, qd, b.bpm_milli);
    clamp_time_i128(b.time_ms as i128 + step)
}

/// Every breakpoint time lies in the `u32` range.
proof fn lemma_breakpoint_time_in_range(events: Seq<Beat>, offset: int, k: nat)
    ensures
        0 <= breakpoint(events, offset, k).time <= TIME_MAX,
    decreases k,
{
    if k > 0 {
        lemma_breakpoint_time_in_range(events, offset, (k - 1) as nat);
    }
}

/// Times along the built timeline never decrease.
proof fn lemma_breakpoint_time_monotone(events: Seq<Beat>, offset: int, i: nat, j: nat)
    requires
        i <= j,
    ensures
        breakpoint(events, offset, i).time <= breakpoint(events, offset, j).time,
    decreases j,
{
    if i < j {
        lemma_breakpoint_time_monotone(events, offset, i, (j - 1) as nat);
        lemma_breakpoint_time_in_range(events, offset, (j - 1) as nat);
    }
}

/// Tempo breakpoints are ordered: their times never decrease, and their beats
/// never decrease when the tempo events come in beat order and the first
/// whole beat after the lead-in does not lie after the second event's beat.
pub proof fn lemma_timeline_ordered(events: Seq<Beat>, offset: int, i: int, j: int)
    requires
        tempo_events_wf(events),
        0 <= i < j < events.len(),
    ensures
        timeline(events, offset)[i].time <= timeline(events, offset)[j].time,
        (events.len() > 1 && start_beat(offset, events[0].bpm_milli as int) * events[1].beat.den()
            <= events[1].beat.num()) ==> beat_le(
            timeline(events, offset)[i],
            timeline(events, offset)[j].beat_num,
            timeline(events, offset)[j].beat_den,
        ),
{
    let tl = timeline(events, offset);
    lemma_breakpoint_time_monotone(events, offset, i as nat, j as nat);
    assert(tl[j] == breakpoint(events, offset, j as nat));
    assert(tl[j].beat_num == events[j].beat.num());
    if i >= 1 {
        assert(tl[i].beat_num == events[i].beat.num());
        assert(events[i].beat.num() * events[j].beat.den() <= events[j].beat.num() * events[i].beat.den());
    } else if events.len() > 1 && start_beat(offset, events[0].bpm_milli as int) * events[1].beat.den()
        <= events[1].beat.num() {
        assert(tl[0].beat_den == 1);
        if j > 1 {
            assert(events[1].beat.num() * events[j].beat.den() <= events[j].beat.num() * events[1].beat.den());
            assert(events[1].beat.wf() && events[j].beat.wf());
            lemma_frac_le_trans(
                tl[0].beat_num,
                1,
                events[1].beat.num(),
                events[1].beat.den(),
                events[j].beat.num(),
                events[j].beat.den(),
            );
        }
    }
}

/// With one tempo event and no lead-in, beat 0 falls at 0 ms and whole beat
/// `n` at `n * (60000 / bpm)` ms, floored and clamped to the `u32` range.
pub proof fn lemma_single_tempo_beat_time(events: Seq<Beat>, n: u32)
    requires
        events.len() == 1,
        events[0].bpm_milli > 0,
    ensures
        time_of_beat(timeline(events, 0), 0, 0, 1) == 0,
        time_of_beat(timeline(events, 0), 0, n as int, 1) == clamp_time(
            floor_div(n as int * MS_PER_MINUTE_MILLI as int, events[0].bpm_milli as int),
        ),
{
    let tl = timeline(events, 0);
    let m = events[0].bpm_milli as int;
    assert(tl[0] == breakpoint(events, 0, 0));
    assert(start_beat(0, m) == 0);
    assert(start_time(0, m) == 0);
    assert(last_at_or_before(tl, 1, 0, 1) == 0);
    assert(last_at_or_before(tl, 1, n as int, 1) == 0);
}

/// Floors keep the order of the fractions they come from.
proof fn lemma_floor_frac_mono(a: int, b: int, c: int, d: int)
    requires
        b > 0,
        d > 0,
        a * d <= c * b,
    ensures
        a / b <= c / d,
{
    lemma_fundamental_div_mod(a, b);
    lemma_fundamental_div_mod(c, d);
    let x = a / b;
    let y = c / d;
    assert(0 <= a % b < b && 0 <= c % d < d);
    assert(x * b <= a) by (nonlinear_arith)
        requires
            a == b * x + a % b,
            a % b >= 0,
    ;
    assert(x * b * d <= a * d) by (nonlinear_arith)
        requires
            x * b <= a,
            d > 0,
    ;
    assert(x * d * b <= c * b) by (nonlinear_arith)
        requires
            x * b * d <= a * d,
            a * d <= c * b,
    ;
    assert(x * d <= c) by (nonlinear_arith)
        requires
            x * d * b <= c * b,
            b > 0,
    ;
    assert(x <= y) by (nonlinear_arith)
        requires
            x * d <= c,
            c == d * y + c % d,
            c % d < d,
            d > 0,
    ;
}

/// Time elapsed from a breakpoint grows with the beat it runs to.
proof fn lemma_elapsed_mono(bn: int, bd: int, m: int, q1n: int, q1d: int, q2n: int, q2d: int)
    requires
        bd > 0,
        m > 0,
        q1d > 0,
        q2d > 0,
        q1n * q2d <= q2n * q1d,
    ensures
        elapsed(bn, bd, q1n, q1d, m) <= elapsed(bn, bd, q2n, q2d, m),
{
    let a = (q1n * bd - bn * q1d) * 60_000_000;
    let b = q1d * bd * m;
    let c = (q2n * bd - bn * q2d) * 60_000_000;
    let d = q2d * bd * m;
    assert(b > 0 && d > 0) by (nonlinear_arith)
        requires
            bd > 0,
            m > 0,
            q1d > 0,
            q2d > 0,
            b == q1d * bd * m,
            d == q2d * bd * m,
    ;
    let u = q1n * bd - bn * q1d;
    let v = q2n * bd - bn * q2d;
    assert(q1n * q2d * bd <= q2n * q1d * bd) by (nonlinear_arith)
        requires
            q1n * q2d <= q2n * q1d,
            bd > 0,
    ;
    assert(u * q2d == q1n * q2d * bd - bn * q1d * q2d) by (nonlinear_arith)
        requires
            u == q1n * bd - bn * q1d,
    ;
    assert(v * q1d == q2n * q1d * bd - bn * q1d * q2d) by (nonlinear_arith)
        requires
            v == q2n * bd - bn * q2d,
    ;
    let k = 60_000_000 * bd * m;
    assert(k > 0) by (nonlinear_arith)
        requires
            bd > 0,
            m > 0,
            k == 60_000_000 * bd * m,
    ;
    assert(u * q2d * k <= v * q1d * k) by (nonlinear_arith)
        requires
            u * q2d <= v * q1d,
            k > 0,
    ;
    assert(a * d == u * q2d * k) by (nonlinear_arith)
        requires
            a == u * 60_000_000,
            d == q2d * bd * m,
            k == 60_000_000 * bd * m,
    ;
    assert(c * b == v * q1d * k) by (nonlinear_arith)
        requires
            c == v * 60_000_000,
            b == q1d * bd * m,
            k == 60_000_000 * bd * m,
    ;
    lemma_floor_frac_mono(a, b, c, d);
}

/// No time elapses before a later beat.
proof fn lemma_elapsed_nonneg(bn: int, bd: int, m: int, qn: int, qd: int)
    requires
        bd > 0,
        m > 0,
        qd > 0,
        bn * qd <= qn * bd,
    ensures
        elapsed(bn, bd, qn, qd, m) >= 0,
{
    assert((qn * bd - bn * qd) * 60_000_000 >= 0) by (nonlinear_arith)
        requires
            bn * qd <= qn * bd,
    ;
    assert(qd * bd * m > 0) by (nonlinear_arith)
        requires
            bd > 0,
            m > 0,
            qd > 0,
    ;
    lemma_div_pos_is_pos((qn * bd - bn * qd) * 60_000_000, qd * bd * m);
}

proof fn lemma_last_at_or_before_facts(bps: Seq<BreakpointModel>, n: int, qn: int, qd: int)
    requires
        0 < n <= bps.len(),
        beat_le(bps[0], qn, qd),
    ensures
        0 <= last_at_or_before(bps, n, qn, qd) < n,
        beat_le(bps[last_at_or_before(bps, n, qn, qd)], qn, qd),
        forall|i: int| last_at_or_before(bps, n, qn, qd) < i < n ==> !beat_le(#[trigger] bps[i], qn, qd),
    decreases n,
{
    if n > 1 && !beat_le(bps[n - 1], qn, qd) {
        lemma_last_at_or_before_facts(bps, n - 1, qn, qd);
    }
}

/// The timeline a chart's tempo events build is well formed.
proof fn lemma_timeline_facts(events: Seq<Beat>, offset: int, k: int)
    requires
        tempo_events_wf(events),
        0 <= k < events.len(),
    ensures
        timeline(events, offset)[k].beat_den > 0,
        timeline(events, offset)[k].bpm > 0,
        0 <= timeline(events, offset)[k].time <= TIME_MAX,
        k + 1 < events.len() ==> timeline(events, offset)[k + 1].time == advance(
            timeline(events, offset)[k].time,
            elapsed(
                timeline(events, offset)[k].beat_num,
                timeline(events, offset)[k].beat_den,
                timeline(events, offset)[k + 1].beat_num,
                timeline(events, offset)[k + 1].beat_den,
                timeline(events, offset)[k].bpm,
            ),
        ),
{
    lemma_breakpoint_time_in_range(events, offset, k as nat);
    assert(events[k].beat.wf() && events[k].bpm_milli > 0);
    assert(events[0].bpm_milli > 0);
}

/// Later beats never resolve to earlier times.
pub proof fn lemma_time_of_beat_monotone(
    events: Seq<Beat>,
    offset: int,
    q1n: int,
    q1d: int,
    q2n: int,
    q2d: int,
)
    requires
        tempo_events_wf(events),
        q1d > 0,
        q2d > 0,
        q1n * q2d <= q2n * q1d,
    ensures
        time_of_beat(timeline(events, offset), offset, q1n, q1d) <= time_of_beat(
            timeline(events, offset),
            offset,
            q2n,
            q2d,
        ),
{
    let tl = timeline(events, offset);
    let n = tl.len() as int;
    if n == 0 {
        return;
    }
    lemma_timeline_facts(events, offset, 0);
    let b0 = tl[0];
    let m0 = b0.bpm;
    assert(b0.beat_den == 1);
    let pre1 = !beat_le(b0, q1n, q1d);
    let pre2 = !beat_le(b0, q2n, q2d);
    if pre2 && !pre1 {
        lemma_frac_le_trans(b0.beat_num, 1, q1n, q1d, q2n, q2d);
    }
    // the value before the first breakpoint, as one fraction
    let a1 = q1n * 60_000_000 - offset * m0 * q1d;
    let d1 = q1d * m0;
    let a2 = q2n * 60_000_000 - offset * m0 * q2d;
    let d2 = q2d * m0;
    let a0 = b0.beat_num * 60_000_000 - offset * m0;
    assert(d1 > 0 && d2 > 0) by (nonlinear_arith)
        requires
            q1d > 0,
            q2d > 0,
            m0 > 0,
            d1 == q1d * m0,
            d2 == q2d * m0,
    ;
    if pre1 && pre2 {
        assert(a1 * d2 <= a2 * d1) by (nonlinear_arith)
            requires
                q1n * q2d <= q2n * q1d,
                m0 > 0,
                a1 == q1n * 60_000_000 - offset * m0 * q1d,
                d1 == q1d * m0,
                a2 == q2n * 60_000_000 - offset * m0 * q2d,
                d2 == q2d * m0,
        ;
        lemma_floor_frac_mono(a1, d1, a2, d2);
        return;
    }
    // from here on q2 lies at or after the first breakpoint
    let k2 = last_at_or_before(tl, n, q2n, q2d);
    lemma_last_at_or_before_facts(tl, n, q2n, q2d);
    lemma_timeline_facts(events, offset, k2);
    let e2 = elapsed(tl[k2].beat_num, tl[k2].beat_den, q2n, q2d, tl[k2].bpm);
    lemma_elapsed_nonneg(tl[k2].beat_num, tl[k2].beat_den, tl[k2].bpm, q2n, q2d);
    let t2 = time_of_beat(tl, offset, q2n, q2d);
    assert(t2 == clamp_time(tl[k2].time + e2));
    assert(t2 >= tl[k2].time);
    if pre1 {
        // q1 before the first breakpoint: at most the first breakpoint's time
        assert(a1 * m0 <= a0 * d1) by (nonlinear_arith)
            requires
                q1n * 1 < b0.beat_num * q1d,
                m0 > 0,
                q1d > 0,
                a1 == q1n * 60_000_000 - offset * m0 * q1d,
                d1 == q1d * m0,
                a0 == b0.beat_num * 60_000_000 - offset * m0,
        ;
        lemma_floor_frac_mono(a1, d1, a0, m0);
        assert(tl[0] == breakpoint(events, offset, 0));
        lemma_breakpoint_time_monotone(events, offset, 0, k2 as nat);
        assert(tl[k2] == breakpoint(events, offset, k2 as nat));
        return;
    }
    let k1 = last_at_or_before(tl, n, q1n, q1d);
    lemma_last_at_or_before_facts(tl, n, q1n, q1d);
    lemma_timeline_facts(events, offset, k1);
    let t1 = time_of_beat(tl, offset, q1n, q1d);
    let e1 = elapsed(tl[k1].beat_num, tl[k1].beat_den, q1n, q1d, tl[k1].bpm);
    assert(t1 == clamp_time(tl[k1].time + e1));
    // the segment of q1 comes no later than that of q2
    if k2 < k1 {
        lemma_frac_le_trans(tl[k1].beat_num, tl[k1].beat_den, q1n, q1d, q2n, q2d);
        assert(false);
    }
    if k1 == k2 {
        lemma_elapsed_mono(tl[k1].beat_num, tl[k1].beat_den, tl[k1].bpm, q1n, q1d, q2n, q2d);
    } else {
        // q1 lies before breakpoint k1 + 1, whose time bounds it
        lemma_timeline_facts(events, offset, k1 + 1);
        assert(!beat_le(tl[k1 + 1], q1n, q1d));
        let nb = tl[k1 + 1];
        assert(q1n * nb.beat_den <= nb.beat_num * q1d);
        lemma_elapsed_mono(tl[k1].beat_num, tl[k1].beat_den, tl[k1].bpm, q1n, q1d, nb.beat_num, nb.beat_den);
        assert(tl[k1 + 1] == breakpoint(events, offset, (k1 + 1) as nat));
        assert(tl[k2] == breakpoint(events, offset, k2 as nat));
        lemma_breakpoint_time_monotone(events, offset, (k1 + 1) as nat, k2 as nat);
    }
}

/// Every breakpoint of a built timeline has its time in the `u32` range.
pub proof fn lemma_timeline_time_in_range(events: Seq<Beat>, offset: int, k: int)
    requires
        0 <= k < events.len(),
    ensures
        0 <= timeline(events, offset)[k].time <= TIME_MAX,
{
    lemma_breakpoint_time_in_range(events, offset, k as nat);
}

/// A resolved time lies in the `u32` range.
pub proof fn lemma_time_of_beat_in_range(bps: Seq<BreakpointModel>, offset: int, qn: int, qd: int)
    ensures
        0 <= time_of_beat(bps, offset, qn, qd) <= TIME_MAX,
{
}

} // verus!
