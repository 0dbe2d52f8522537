//! Cards of the dashboard: chord and key lines, pitch history, waveform, degree
//! histogram.

use vstd::prelude::*;

use crate::dsp::vibrato::Point;
use crate::dsp::visibility::HIST_BINS;
use crate::ieee::Real32;
use crate::ring::section;
use crate::text::{append_number, digits};

verus! {

/// Samples shown after the trigger point.
pub const WAVE_VIEW: usize = 4096;

/// Every so many samples of the waveform are drawn.
pub const WAVE_STEP: usize = 8;

/// Fewer points than this make no line.
pub const MIN_LINE: usize = 2;

/// The line that is being drawn and those that are finished.
pub struct Lines {
    pub done: Seq<Seq<Point>>,
    pub open: Seq<Point>,
}

/// The lines of the history's first `n` points: a gap ends a line, and a line of
/// fewer than two points is left out.
pub open spec fn lines_of(history: Seq<Point>, n: int) -> Lines
    decreases n,
{
    if n <= 0 {
        Lines { done: Seq::empty(), open: Seq::empty() }
    } else {
        let before = lines_of(history, n - 1);
        if history[n - 1].cents.nan() {
            Lines { done: finished(before), open: Seq::empty() }
        } else {
            Lines { open: before.open.push(history[n - 1]), ..before }
        }
    }
}

/// The finished lines once the open one is ended.
pub open spec fn finished(l: Lines) -> Seq<Seq<Point>> {
    if l.open.len() >= MIN_LINE {
        l.done.push(l.open)
    } else {
        l.done
    }
}

/// The lines in which the history is drawn.
pub fn history_lines(history: &Vec<Point>) -> (lines: Vec<Vec<Point>>)
    ensures
        crate::gui::beam::views(lines@) == finished(lines_of(history@, history.len() as int)),
{
    let mut lines: Vec<Vec<Point>> = Vec::new();
    let mut open: Vec<Point> = Vec::new();
    assert(crate::gui::beam::views(lines@) =~= Seq::<Seq<Point>>::empty());
    let mut i: usize = 0;
    while i < history.len()
        invariant
            i <= history.len(),
            crate::gui::beam::views(lines@) == lines_of(history@, i as int).done,
            open@ == lines_of(history@, i as int).open,
        decreases history.len() - i,
    {
        if history[i].cents.is_nan() {
            end_line(&mut lines, open);
            open = Vec::new();
        } else {
            open.push(history[i]);
        }
        i = i + 1;
    }
    end_line(&mut lines, open);
    lines
}

/// Ends a line: it joins the others unless it is too short.
fn end_line(lines: &mut Vec<Vec<Point>>, line: Vec<Point>)
    ensures
        crate::gui::beam::views(final(lines)@) == finished(
            Lines { done: crate::gui::beam::views(old(lines)@), open: line@ },
        ),
{
    if line.len() >= MIN_LINE {
        let ghost before = lines@;
        lines.push(line);
        assert(crate::gui::beam::views(lines@) =~= crate::gui::beam::views(before).push(line@));
    }
}

/// No line crosses a gap, and no line is too short.
pub proof fn lines_hold_no_gaps(history: Seq<Point>, n: int, k: int, j: int)
    requires
        0 <= n <= history.len(),
        0 <= k < finished(lines_of(history, n)).len(),
        0 <= j < finished(lines_of(history, n))[k].len(),
    ensures
        !finished(lines_of(history, n))[k][j].cents.nan(),
        finished(lines_of(history, n))[k].len() >= MIN_LINE,
    decreases n,
{
    no_gaps(history, n);
}

proof fn no_gaps(history: Seq<Point>, n: int)
    requires
        0 <= n <= history.len(),
    ensures
        forall|j: int| 0 <= j < lines_of(history, n).open.len() ==> !(#[trigger] lines_of(history, n).open[j]).cents.nan(),
        forall|k: int, j: int|
            #![trigger lines_of(history, n).done[k][j]]
            0 <= k < lines_of(history, n).done.len() && 0 <= j < lines_of(history, n).done[k].len()
                ==> !lines_of(history, n).done[k][j].cents.nan(),
        forall|k: int|
            0 <= k < lines_of(history, n).done.len() ==> (#[trigger] lines_of(history, n).done[k]).len() >= MIN_LINE,
    decreases n,
{
    if n > 0 {
        no_gaps(history, n - 1);
        let before = lines_of(history, n - 1);
        let now = lines_of(history, n);
        assert forall|j: int| 0 <= j < now.open.len() implies !(#[trigger] now.open[j]).cents.nan() by {
            if j < before.open.len() {
                assert(!before.open[j].cents.nan());
            }
        }
        assert forall|k: int, j: int|
            #![trigger now.done[k][j]]
            0 <= k < now.done.len() && 0 <= j < now.done[k].len() implies !now.done[k][j].cents.nan() by {
            if k < before.done.len() {
                assert(!before.done[k][j].cents.nan());
            } else {
                assert(!before.open[j].cents.nan());
            }
        }
    }
}

/// The signal rises through zero between `i` and the next sample.
pub open spec fn rises_at(samples: Seq<Real32>, i: int) -> bool {
    samples[i].at_most(Real32 { bits: 0 }) && (Real32 { bits: 0 }).below(samples[i + 1])
}

/// The first rise at or behind `from`, below `end`.
pub open spec fn first_rise(samples: Seq<Real32>, from: int, end: int) -> Option<int>
    decreases end - from,
{
    if from + 1 >= end {
        None
    } else if rises_at(samples, from) {
        Some(from)
    } else {
        first_rise(samples, from + 1, end)
    }
}

/// Where the waveform is anchored: at a rising zero crossing, so a periodic signal
/// draws in place instead of scrolling, or at the start.
pub fn trigger_point(tail: &Vec<Real32>) -> (at: usize)
    requires
        tail.len() >= WAVE_VIEW,
    ensures
        at == match first_rise(tail@, 0, WAVE_VIEW as int) {
            Some(i) => i,
            None => 0,
        },
        at < WAVE_VIEW,
{
    let zero: Real32 = Real32::from_bits(0);
    let mut i: usize = 0;
    while i + 1 < WAVE_VIEW
        invariant
            i + 1 <= WAVE_VIEW <= tail.len(),
            zero == (Real32 { bits: 0 }),
            first_rise(tail@, 0, WAVE_VIEW as int) == first_rise(tail@, i as int, WAVE_VIEW as int),
        decreases WAVE_VIEW - i,
    {
        if tail[i].less_or_equal(&zero) && zero.less(&tail[i + 1]) {
            return i;
        }
        i = i + 1;
    }
    0
}

/// The samples that are drawn: those in view behind the trigger, every
/// `WAVE_STEP`th.
pub fn wave_points(window: &Vec<Real32>) -> (points: Vec<Real32>)
    requires
        window.len() >= 2 * WAVE_VIEW,
    ensures
        ({
            let tail = window@.skip(window.len() - 2 * WAVE_VIEW);
            let at: int = match first_rise(tail, 0, WAVE_VIEW as int) {
                Some(i) => i,
                None => 0,
            };
            points@ == Seq::new(512, |k: int| tail[at + WAVE_STEP * k])
        }),
{
    let tail: Vec<Real32> = section(window, window.len() - 2 * WAVE_VIEW, 2 * WAVE_VIEW);
    assert(tail@ =~= window@.skip(window.len() - 2 * WAVE_VIEW));
    let at: usize = trigger_point(&tail);
    let mut points: Vec<Real32> = Vec::new();
    let mut k: usize = 0;
    while k < 512
        invariant
            k <= 512,
            at < WAVE_VIEW,
            tail.len() == 2 * WAVE_VIEW,
            points@ == Seq::new(k as nat, |j: int| tail[at + WAVE_STEP * j]),
        decreases 512 - k,
    {
        points.push(tail[at + WAVE_STEP * k]);
        k = k + 1;
        assert(points@ =~= Seq::new(k as nat, |j: int| tail[at + WAVE_STEP * j]));
    }
    points
}

/// The label of a degree in the histogram; the last stands for all above as well.
pub fn degree_label(degree: usize) -> (label: String)
    requires
        degree < HIST_BINS,
    ensures
        label@ == if degree == HIST_BINS - 1 {
            digits(degree as nat) + "+"@
        } else {
            digits(degree as nat)
        },
{
    let mut label: String = String::new();
    append_number(&mut label, degree as u64);
    if degree == HIST_BINS - 1 {
        label.append("+");
    }
    assert(Seq::<char>::empty() + digits(degree as nat) =~= digits(degree as nat));
    label
}

/// The line that names the key.
pub fn key_line(key: &Option<String>) -> (text: String)
    ensures
        text@ == match key {
            Some(k) => "key: "@ + k@,
            None => "key: listening…"@,
        },
{
    match key {
        Some(k) => {
            let mut text: String = String::from_str("key: ");
            text.append(k.as_str());
            text
        },
        None => String::from_str("key: listening…"),
    }
}

} // verus!
