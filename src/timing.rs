//! Timing points of the target chart: tempo points from the breakpoints,
//! scroll points from the scroll events, and their merge into one stream.
use crate::source::Effect;
use crate::timeline::{
    beat_to_time, bp_bounded, models, tail_sorted, time_of_beat, BreakpointModel, TempoBreakpoint,
    MS_PER_MINUTE_MILLI,
};
use vstd::prelude::*;

verus! {

/// Value written for a scroll event that halts or reverses: a huge negative
/// percentage that approximates a stopped scroll.
pub const HALTED_SCROLL_VALUE: i64 = -100_000_000;

/// `-100` percent, times one million, as scroll multipliers are held in
/// millionths: a multiplier `micro / 1_000_000` is written as `-100_000_000 / micro`.
pub const SCROLL_PERCENT_MICRO: i64 = -100_000_000;

/// A timing point of the target chart: at `time` ms, the value
/// `val_num / val_den` (ms per beat for a tempo point, a negative speed
/// percentage otherwise).
#[derive(Clone, Copy, Debug, PartialEq, Eq)]
pub struct OsuTimingPoint {
    pub time: u32,
    pub val_num: i64,
    pub val_den: u64,
    pub is_timing: bool,
}

/// The tempo point of a breakpoint: its time, and `60000 / bpm` ms per beat.
pub open spec fn tempo_point(b: BreakpointModel) -> OsuTimingPoint {
    OsuTimingPoint {
        time: b.time as u32,
        val_num: MS_PER_MINUTE_MILLI as i64,
        val_den: b.bpm as u64,
        is_timing: true,
    }
}

/// The target encoding of a scroll multiplier `micro / 1_000_000`:
/// `-100 / multiplier` when positive, the halted value otherwise.
pub open spec fn scroll_value(micro: i64) -> (i64, u64) {
    if micro > 0 {
        (SCROLL_PERCENT_MICRO, micro as u64)
    } else {
        (HALTED_SCROLL_VALUE, 1)
    }
}

/// The scroll point of an effect on the timeline `bps` with lead-in `offset`.
pub open spec fn scroll_point(bps: Seq<BreakpointModel>, offset: int, e: Effect) -> OsuTimingPoint {
    OsuTimingPoint {
        time: time_of_beat(bps, offset, e.beat.num(), e.beat.den()) as u32,
        val_num: scroll_value(e.scroll_micro).0,
        val_den: scroll_value(e.scroll_micro).1,
        is_timing: false,
    }
}

/// The points of `pts` whose time is not before `t`, in their order.
pub open spec fn not_before(pts: Seq<OsuTimingPoint>, t: int) -> Seq<OsuTimingPoint>
    decreases pts.len(),
{
    if pts.len() == 0 {
        seq![]
    } else {
        let r = not_before(pts.drop_last(), t);
        if pts.last().time >= t {
            r.push(pts.last())
        } else {
            r
        }
    }
}

/// Merge of two point streams by time; on equal times the point of `a`
/// (the tempo stream) comes first.
pub open spec fn merge(a: Seq<OsuTimingPoint>, b: Seq<OsuTimingPoint>) -> Seq<OsuTimingPoint>
    decreases a.len() + b.len(),
{
    if a.len() == 0 {
        b
    } else if b.len() == 0 {
        a
    } else if a[0].time <= b[0].time {
        seq![a[0]] + merge(a.drop_first(), b)
    } else {
        seq![b[0]] + merge(a, b.drop_first())
    }
}

/// The timing-point stream: the tempo points merged with the scroll points
/// that do not precede the first tempo point.
pub open spec fn merged_timing(
    tempo: Seq<OsuTimingPoint>,
    scroll: Seq<OsuTimingPoint>,
) -> Seq<OsuTimingPoint> {
    let min_time: int = if tempo.len() == 0 {
        0
    } else {
        tempo[0].time as int
    };
    merge(tempo, not_before(scroll, min_time))
}

pub open spec fn sorted_by_time(pts: Seq<OsuTimingPoint>) -> bool {
    forall|i: int, j: int| 0 <= i <= j < pts.len() ==> #[trigger] pts[i].time <= #[trigger] pts[j].time
}

/// The tempo points of a timeline, one per breakpoint.
pub fn tempo_points(bps: &Vec<TempoBreakpoint>) -> (r: Vec<OsuTimingPoint>)
    requires
        forall|i: int| 0 <= i < bps@.len() ==> bp_bounded(#[trigger] bps@[i]@),
    ensures
        r@ == models(bps@).map_values(|b: BreakpointModel| tempo_point(b)),
{
    let mut out: Vec<OsuTimingPoint> = Vec::new();
    let mut i: usize = 0;
    while i < bps.len()
        invariant
            i <= bps@.len(),
            out@ == models(bps@).take(i as int).map_values(|b: BreakpointModel| tempo_point(b)),
            forall|i: int| 0 <= i < bps@.len() ==> bp_bounded(#[trigger] bps@[i]@),
        decreases bps@.len() - i,
    {
        let b = bps[i];
        proof {
            assert(bp_bounded(bps@[i as int]@));
        }
        out.push(
            OsuTimingPoint {
                time: b.time_ms,
                val_num: MS_PER_MINUTE_MILLI as i64,
                val_den: b.bpm_milli as u64,
                is_timing: true,
            },
        );
        i = i + 1;
        proof {
            assert(out@ =~= models(bps@).take(i as int).map_values(
                |b: BreakpointModel| tempo_point(b),
            ));
        }
    }
    proof {
        assert(models(bps@).take(bps@.len() as int) =~= models(bps@));
    }
    out
}

/// The scroll points of the scroll events, each resolved on the timeline.
pub fn scroll_points(bps: &Vec<TempoBreakpoint>, offset: i32, effects: &Vec<Effect>) -> (r: Vec<
    OsuTimingPoint,
>)
    requires
        forall|i: int| 0 <= i < effects@.len() ==> (#[trigger] effects@[i]).beat.wf(),
        forall|i: int| 0 <= i < bps@.len() ==> bp_bounded(#[trigger] bps@[i]@),
        tail_sorted(models(bps@)),
    ensures
        r@ == effects@.map_values(|e: Effect| scroll_point(models(bps@), offset as int, e)),
{
    let mut out: Vec<OsuTimingPoint> = Vec::new();
    let mut i: usize = 0;
    while i < effects.len()
        invariant
            i <= effects@.len(),
            out@ == effects@.take(i as int).map_values(
                |e: Effect| scroll_point(models(bps@), offset as int, e),
            ),
            forall|i: int| 0 <= i < effects@.len() ==> (#[trigger] effects@[i]).beat.wf(),
            forall|i: int| 0 <= i < bps@.len() ==> bp_bounded(#[trigger] bps@[i]@),
            tail_sorted(models(bps@)),
        decreases effects@.len() - i,
    {
        let e = effects[i];
        proof {
            assert(e.beat.wf());
        }
        let time = beat_to_time(bps, offset, e.beat);
        let (val_num, val_den) = if e.scroll_micro > 0 {
            (SCROLL_PERCENT_MICRO, e.scroll_micro as u64)
        } else {
            (HALTED_SCROLL_VALUE, 1u64)
        };
        out.push(OsuTimingPoint { time, val_num, val_den, is_timing: false });
        i = i + 1;
        proof {
            assert(out@ =~= effects@.take(i as int).map_values(
                |e: Effect| scroll_point(models(bps@), offset as int, e),
            ));
        }
    }
    proof {
        assert(effects@.take(effects@.len() as int) =~= effects@);
    }
    out
}

/// Merges the tempo points and the scroll points into one stream ordered by
/// time. Scroll points before the first tempo point are dropped; on equal
/// times the tempo point comes first.
pub fn merge_timing_points(tempo: &Vec<OsuTimingPoint>, scroll: &Vec<OsuTimingPoint>) -> (r: Vec<
    OsuTimingPoint,
>)
    ensures
        r@ == merged_timing(tempo@, scroll@),
{
    let min_time: u32 = if tempo.len() == 0 {
        0
    } else {
        tempo[0].time
    };
    let mut kept: Vec<OsuTimingPoint> = Vec::new();
    let mut j: usize = 0;
    while j < scroll.len()
        invariant
            j <= scroll@.len(),
            kept@ == not_before(scroll@.take(j as int), min_time as int),
        decreases scroll@.len() - j,
    {
        let p = scroll[j];
        proof {
            assert(scroll@.take(j as int + 1).drop_last() =~= scroll@.take(j as int));
        }
        if p.time >= min_time {
            kept.push(p);
        }
        j = j + 1;
    }
    proof {
        assert(scroll@.take(scroll@.len() as int) =~= scroll@);
    }
    let mut out: Vec<OsuTimingPoint> = Vec::new();
    let mut i: usize = 0;
    let mut k: usize = 0;
    proof {
        assert(tempo@.skip(0) =~= tempo@);
        assert(kept@.skip(0) =~= kept@);
        assert(out@ + merge(tempo@, kept@) =~= merge(tempo@, kept@));
    }
    while i < tempo.len() || k < kept.len()
        invariant
            i <= tempo@.len(),
            k <= kept@.len(),
            out@ + merge(tempo@.skip(i as int), kept@.skip(k as int)) == merge(tempo@, kept@),
        decreases tempo@.len() + kept@.len() - i - k,
    {
        let ghost a = tempo@.skip(i as int);
        let ghost b = kept@.skip(k as int);
        if k >= kept.len() || (i < tempo.len() && tempo[i].time <= kept[k].time) {
            proof {
                assert(a.drop_first() =~= tempo@.skip(i as int + 1));
                assert(out@.push(tempo@[i as int]) + merge(a.drop_first(), b) =~= out@ + merge(a, b));
            }
            out.push(tempo[i]);
            i = i + 1;
        } else {
            proof {
                assert(b.drop_first() =~= kept@.skip(k as int + 1));
                assert(out@.push(kept@[k as int]) + merge(a, b.drop_first()) =~= out@ + merge(a, b));
            }
            out.push(kept[k]);
            k = k + 1;
        }
    }
    proof {
        assert(merge(tempo@.skip(i as int), kept@.skip(k as int)) =~= Seq::<OsuTimingPoint>::empty());
        assert(out@ =~= merge(tempo@, kept@));
    }
    out
}

/// The kept points come from `pts`, none of them before `t`, and the order
/// of `pts` carries over.
proof fn lemma_not_before(pts: Seq<OsuTimingPoint>, t: int)
    ensures
        forall|k: int| 0 <= k < not_before(pts, t).len() ==> pts.contains(
            #[trigger] not_before(pts, t)[k],
        ) && not_before(pts, t)[k].time >= t,
        sorted_by_time(pts) ==> sorted_by_time(not_before(pts, t)),
    decreases pts.len(),
{
    if pts.len() > 0 {
        let init = pts.drop_last();
        lemma_not_before(init, t);
        let r = not_before(init, t);
        assert forall|k: int| 0 <= k < r.len() implies pts.contains(#[trigger] r[k]) by {
            let w = choose|w: int| 0 <= w < init.len() && init[w] == r[k];
            assert(pts[w] == r[k]);
        }
        if sorted_by_time(pts) {
            assert(sorted_by_time(init));
            assert forall|k: int| 0 <= k < r.len() implies (#[trigger] r[k]).time <= pts.last().time by {
                let w = choose|w: int| 0 <= w < init.len() && init[w] == r[k];
                assert(pts[w] == r[k]);
            }
        }
        assert(pts.contains(pts.last()));
    }
}

/// A merge holds every point of both streams and nothing else.
proof fn lemma_merge_members(a: Seq<OsuTimingPoint>, b: Seq<OsuTimingPoint>)
    ensures
        merge(a, b).len() == a.len() + b.len(),
        forall|k: int| 0 <= k < merge(a, b).len() ==> a.contains(#[trigger] merge(a, b)[k]) || b.contains(
            merge(a, b)[k],
        ),
    decreases a.len() + b.len(),
{
    if a.len() > 0 && b.len() > 0 {
        if a[0].time <= b[0].time {
            let a1 = a.drop_first();
            lemma_merge_members(a1, b);
            let m = merge(a, b);
            assert forall|k: int| 0 <= k < m.len() implies a.contains(#[trigger] m[k]) || b.contains(m[k]) by {
                if k == 0 {
                    assert(a[0] == m[0]);
                } else {
                    assert(m[k] == merge(a1, b)[k - 1]);
                    if a1.contains(m[k]) {
                        let w = choose|w: int| 0 <= w < a1.len() && a1[w] == m[k];
                        assert(a[w + 1] == m[k]);
                    }
                }
            }
        } else {
            let b1 = b.drop_first();
            lemma_merge_members(a, b1);
            let m = merge(a, b);
            assert forall|k: int| 0 <= k < m.len() implies a.contains(#[trigger] m[k]) || b.contains(m[k]) by {
                if k == 0 {
                    assert(b[0] == m[0]);
                } else {
                    assert(m[k] == merge(a, b1)[k - 1]);
                    if b1.contains(m[k]) {
                        let w = choose|w: int| 0 <= w < b1.len() && b1[w] == m[k];
                        assert(b[w + 1] == m[k]);
                    }
                }
            }
        }
    }
}

/// Merging two streams ordered by time gives a stream ordered by time.
proof fn lemma_merge_sorted(a: Seq<OsuTimingPoint>, b: Seq<OsuTimingPoint>)
    requires
        sorted_by_time(a),
        sorted_by_time(b),
    ensures
        sorted_by_time(merge(a, b)),
    decreases a.len() + b.len(),
{
    if a.len() > 0 && b.len() > 0 {
        let m = merge(a, b);
        if a[0].time <= b[0].time {
            let a1 = a.drop_first();
            assert(sorted_by_time(a1));
            lemma_merge_sorted(a1, b);
            lemma_merge_members(a1, b);
            let m1 = merge(a1, b);
            assert forall|k: int| 0 <= k < m1.len() implies a[0].time <= (#[trigger] m1[k]).time by {
                if a1.contains(m1[k]) {
                    let w = choose|w: int| 0 <= w < a1.len() && a1[w] == m1[k];
                    assert(a[w + 1] == m1[k]);
                } else {
                    let w = choose|w: int| 0 <= w < b.len() && b[w] == m1[k];
                    assert(b[0].time <= b[w].time);
                }
            }
            assert forall|i: int, j: int| 0 <= i <= j < m.len() implies #[trigger] m[i].time
                <= #[trigger] m[j].time by {
                if i > 0 {
                    assert(m[i] == m1[i - 1] && m[j] == m1[j - 1]);
                } else if j > 0 {
                    assert(m[j] == m1[j - 1]);
                }
            }
        } else {
            let b1 = b.drop_first();
            assert(sorted_by_time(b1));
            lemma_merge_sorted(a, b1);
            lemma_merge_members(a, b1);
            let m1 = merge(a, b1);
            assert forall|k: int| 0 <= k < m1.len() implies b[0].time <= (#[trigger] m1[k]).time by {
                if b1.contains(m1[k]) {
                    let w = choose|w: int| 0 <= w < b1.len() && b1[w] == m1[k];
                    assert(b[w + 1] == m1[k]);
                } else {
                    let w = choose|w: int| 0 <= w < a.len() && a[w] == m1[k];
                    assert(a[0].time <= a[w].time);
                }
            }
            assert forall|i: int, j: int| 0 <= i <= j < m.len() implies #[trigger] m[i].time
                <= #[trigger] m[j].time by {
                if i > 0 {
                    assert(m[i] == m1[i - 1] && m[j] == m1[j - 1]);
                } else if j > 0 {
                    assert(m[j] == m1[j - 1]);
                }
            }
        }
    }
}

/// In a merge of an ordered tempo stream with an ordered scroll stream, a
/// tempo point stands before every scroll point of the same time.
proof fn lemma_merge_tempo_first(a: Seq<OsuTimingPoint>, b: Seq<OsuTimingPoint>, i: int, j: int)
    requires
        sorted_by_time(a),
        sorted_by_time(b),
        forall|k: int| 0 <= k < a.len() ==> (#[trigger] a[k]).is_timing,
        forall|k: int| 0 <= k < b.len() ==> !(#[trigger] b[k]).is_timing,
        0 <= i < merge(a, b).len(),
        0 <= j < merge(a, b).len(),
        merge(a, b)[i].is_timing,
        !merge(a, b)[j].is_timing,
        merge(a, b)[i].time == merge(a, b)[j].time,
    ensures
        i < j,
    decreases a.len() + b.len(),
{
    let m = merge(a, b);
    if a.len() == 0 {
        assert(!m[i].is_timing);
    } else if b.len() == 0 {
        assert(m[j].is_timing);
    } else if a[0].time <= b[0].time {
        let a1 = a.drop_first();
        if i > 0 && j > 0 {
            assert(m[i] == merge(a1, b)[i - 1] && m[j] == merge(a1, b)[j - 1]);
            lemma_merge_tempo_first(a1, b, i - 1, j - 1);
        }
    } else {
        let b1 = b.drop_first();
        if i > 0 && j > 0 {
            assert(m[i] == merge(a, b1)[i - 1] && m[j] == merge(a, b1)[j - 1]);
            lemma_merge_tempo_first(a, b1, i - 1, j - 1);
        } else if j == 0 && i > 0 {
            lemma_merge_members(a, b1);
            let x = merge(a, b1)[i - 1];
            assert(m[i] == x);
            if b1.contains(x) {
                let w = choose|w: int| 0 <= w < b1.len() && b1[w] == x;
                assert(b[w + 1] == x);
            } else {
                let w = choose|w: int| 0 <= w < a.len() && a[w] == x;
                assert(a[0].time <= a[w].time);
            }
        }
    }
}

/// The timing-point stream is ordered by time whenever the tempo points and
/// the scroll points each are.
pub proof fn lemma_merged_timing_sorted(tempo: Seq<OsuTimingPoint>, scroll: Seq<OsuTimingPoint>)
    requires
        sorted_by_time(tempo),
        sorted_by_time(scroll),
    ensures
        sorted_by_time(merged_timing(tempo, scroll)),
{
    let t: int = if tempo.len() == 0 {
        0
    } else {
        tempo[0].time as int
    };
    lemma_not_before(scroll, t);
    lemma_merge_sorted(tempo, not_before(scroll, t));
}

/// Tie-break: where a tempo point and a scroll point share a time, the tempo
/// point stands first in the timing-point stream (both inputs ordered by time).
pub proof fn lemma_merged_timing_tempo_first(
    tempo: Seq<OsuTimingPoint>,
    scroll: Seq<OsuTimingPoint>,
    i: int,
    j: int,
)
    requires
        sorted_by_time(tempo),
        sorted_by_time(scroll),
        forall|k: int| 0 <= k < tempo.len() ==> (#[trigger] tempo[k]).is_timing,
        forall|k: int| 0 <= k < scroll.len() ==> !(#[trigger] scroll[k]).is_timing,
        0 <= i < merged_timing(tempo, scroll).len(),
        0 <= j < merged_timing(tempo, scroll).len(),
        merged_timing(tempo, scroll)[i].is_timing,
        !merged_timing(tempo, scroll)[j].is_timing,
        merged_timing(tempo, scroll)[i].time == merged_timing(tempo, scroll)[j].time,
    ensures
        i < j,
{
    let t: int = if tempo.len() == 0 {
        0
    } else {
        tempo[0].time as int
    };
    let kept = not_before(scroll, t);
    lemma_not_before(scroll, t);
    assert forall|k: int| 0 <= k < kept.len() implies !(#[trigger] kept[k]).is_timing by {
        let w = choose|w: int| 0 <= w < scroll.len() && scroll[w] == kept[k];
    }
    lemma_merge_tempo_first(tempo, kept, i, j);
}

/// Every point of the timing-point stream is a tempo point or a scroll point.
pub proof fn lemma_merged_timing_members(tempo: Seq<OsuTimingPoint>, scroll: Seq<OsuTimingPoint>)
    ensures
        forall|k: int| 0 <= k < merged_timing(tempo, scroll).len() ==> tempo.contains(
            #[trigger] merged_timing(tempo, scroll)[k],
        ) || scroll.contains(merged_timing(tempo, scroll)[k]),
{
    let t: int = if tempo.len() == 0 {
        0
    } else {
        tempo[0].time as int
    };
    let kept = not_before(scroll, t);
    lemma_not_before(scroll, t);
    lemma_merge_members(tempo, kept);
    let m = merged_timing(tempo, scroll);
    assert forall|k: int| 0 <= k < m.len() implies tempo.contains(#[trigger] m[k]) || scroll.contains(m[k]) by {
        if kept.contains(m[k]) {
            let w = choose|w: int| 0 <= w < kept.len() && kept[w] == m[k];
        }
    }
}

} // verus!
