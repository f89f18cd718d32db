//! Hit objects of the target chart, mapped from the source notes.
use crate::beat::floor_div;
use crate::source::Note;
use crate::timeline::{
    beat_to_time, bp_bounded, models, tail_sorted, time_of_beat, BreakpointModel, TempoBreakpoint,
};
use vstd::arithmetic::div_mod::lemma_fundamental_div_mod;
use vstd::prelude::*;

verus! {

/// A hit object: a tap note when `end_time` is `None`, a hold note otherwise.
#[derive(Clone, Copy, Debug, PartialEq, Eq)]
pub struct OsuHitObject {
    pub x_pos: u32,
    pub time: u32,
    pub end_time: Option<u32>,
}

/// The pixel x-position of a column: `floor((column + 0.5) * (512 / total))`,
/// 512 being the width of the target playfield.
pub open spec fn x_pixel_spec(column: int, total: int) -> int {
    floor_div((2 * column + 1) * 256, total)
}

/// The column of a note, 0 where the source leaves it out.
pub open spec fn note_column(n: Note) -> int {
    match n.column {
        Some(c) => c as int,
        None => 0,
    }
}

/// The hit object of a note on the timeline `bps` with lead-in `offset`,
/// among `total` columns.
pub open spec fn hit_object(bps: Seq<BreakpointModel>, offset: int, total: int, n: Note) -> OsuHitObject {
    OsuHitObject {
        x_pos: x_pixel_spec(note_column(n), total) as u32,
        time: time_of_beat(bps, offset, n.beat.num(), n.beat.den()) as u32,
        end_time: match n.endbeat {
            Some(e) => Some(time_of_beat(bps, offset, e.num(), e.den()) as u32),
            None => None,
        },
    }
}

/// Every beat of a note is a valid fraction.
pub open spec fn note_wf(n: Note) -> bool {
    &&& n.beat.wf()
    &&& n.endbeat matches Some(e) ==> e.wf()
}

/// The pixel x-position of `column` among `total_columns` columns.
pub fn x_pixel(column: u8, total_columns: u8) -> (r: u32)
    requires
        total_columns > 0,
    ensures
        r as int == x_pixel_spec(column as int, total_columns as int),
{
    (2 * column as u32 + 1) * 256 / total_columns as u32
}

/// Distinct columns of one layout get distinct x-positions.
pub proof fn lemma_x_pixel_injective(c1: int, c2: int, total: int)
    requires
        0 < total <= 255,
        0 <= c1 < total,
        0 <= c2 < total,
        c1 != c2,
    ensures
        x_pixel_spec(c1, total) != x_pixel_spec(c2, total),
{
    let (lo, hi) = if c1 < c2 {
        (c1, c2)
    } else {
        (c2, c1)
    };
    let a = (2 * lo + 1) * 256;
    let b = (2 * hi + 1) * 256;
    lemma_fundamental_div_mod(a, total);
    lemma_fundamental_div_mod(b, total);
    assert(0 <= a % total < total && 0 <= b % total < total);
    assert(a / total < b / total) by (nonlinear_arith)
        requires
            a == total * (a / total) + a % total,
            b == total * (b / total) + b % total,
            0 <= a % total < total,
            0 <= b % total < total,
            b >= a + 512,
            0 < total <= 255,
    ;
}

/// Maps every note but the last (the sentinel that carries the audio) to its
/// hit object.
pub fn map_notes(bps: &Vec<TempoBreakpoint>, offset: i32, total_columns: u8, notes: &Vec<Note>) -> (r: Vec<
    OsuHitObject,
>)
    requires
        total_columns > 0,
        notes@.len() > 0,
        forall|i: int| 0 <= i < notes@.len() ==> note_wf(#[trigger] notes@[i]),
        forall|i: int| 0 <= i < bps@.len() ==> bp_bounded(#[trigger] bps@[i]@),
        tail_sorted(models(bps@)),
    ensures
        r@ == notes@.drop_last().map_values(
            |n: Note| hit_object(models(bps@), offset as int, total_columns as int, n),
        ),
{
    let mut out: Vec<OsuHitObject> = Vec::new();
    let mut i: usize = 0;
    let count = notes.len() - 1;
    while i < count
        invariant
            count == notes@.len() - 1,
            i <= count,
            total_columns > 0,
            out@ == notes@.take(i as int).map_values(
                |n: Note| hit_object(models(bps@), offset as int, total_columns as int, n),
            ),
            forall|i: int| 0 <= i < notes@.len() ==> note_wf(#[trigger] notes@[i]),
            forall|i: int| 0 <= i < bps@.len() ==> bp_bounded(#[trigger] bps@[i]@),
            tail_sorted(models(bps@)),
        decreases count - i,
    {
        let n = &notes[i];
        proof {
            assert(note_wf(notes@[i as int]));
        }
        let column: u8 = match n.column {
            Some(c) => c,
            None => 0,
        };
        let x_pos = x_pixel(column, total_columns);
        let time = beat_to_time(bps, offset, n.beat);
        let end_time = match n.endbeat {
            Some(e) => Some(beat_to_time(bps, offset, e)),
            None => None,
        };
        out.push(OsuHitObject { x_pos, time, end_time });
        i = i + 1;
        proof {
            assert(out@ =~= notes@.take(i as int).map_values(
                |n: Note| hit_object(models(bps@), offset as int, total_columns as int, n),
            ));
        }
    }
    proof {
        assert(notes@.take(count as int) =~= notes@.drop_last());
    }
    out
}

} // verus!
