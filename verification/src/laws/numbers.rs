//! What the comparisons of numbers mean, in terms of their IEEE 754 patterns.

use vstd::prelude::*;

use crate::audio::RING_LEN;
use crate::dsp::align::{CFFT, CORR_LEN, REF_AGE};
use crate::dsp::duet::FLOOR_DB;
use crate::dsp::peaks::MARGIN_DB;
use crate::gui::controls::NARROW;
use crate::ieee::{Real32, Real64};
use crate::order::{is_last_largest, is_maximum_of};
use crate::pitch::{FFT_LEN, FMAX, FMIN, YIN_LEN};
use crate::remote::{MAX_RATE, MIN_RATE, REMOTE_RING_LEN};
use crate::ring::newest;

verus! {

/// A pattern of 32 bits is no number exactly if, without the sign, it is above that of
/// infinity. Of numbers that are not negative the one with the larger pattern is the
/// larger, of negative ones the one with the smaller, and one that is negative is smaller
/// than one that is not, but for the two zeros, which are equal. Nothing compares with
/// what is no number. Without its sign a number is as far from zero.
pub proof fn patterns_are_ordered(a: Real32, b: Real32)
    ensures
        a.nan() <==> 0x7f80_0000 < a.bits < 0x8000_0000 || 0xff80_0000 < a.bits,
        a.nan() || b.nan() ==> !a.below(b) && !a.at_most(b) && !a.same(b),
        !a.nan() && !b.nan() && a.bits < 0x8000_0000 && b.bits < 0x8000_0000 ==> (a.below(b) <==> a.bits < b.bits) && (
        a.at_most(b) <==> a.bits <= b.bits) && (a.same(b) <==> a.bits == b.bits),
        !a.nan() && !b.nan() && a.bits >= 0x8000_0000 && b.bits >= 0x8000_0000 ==> (a.below(b) <==> a.bits > b.bits)
            && (a.at_most(b) <==> a.bits >= b.bits) && (a.same(b) <==> a.bits == b.bits),
        !a.nan() && !b.nan() && a.bits >= 0x8000_0000 && b.bits < 0x8000_0000 ==> a.at_most(b) && !b.below(a) && (a.same(
            b,
        ) <==> a.bits == 0x8000_0000 && b.bits == 0) && (a.below(b) <==> !a.same(b)) && (b.at_most(a) <==> a.same(b)),
        a.unsigned().bits == (if a.bits < 0x8000_0000 {
            a.bits as int
        } else {
            a.bits - 0x8000_0000
        }),
        a.magnitude() == a.unsigned().bits,
        a.total_rank() < b.total_rank() <==> (if a.bits < 0x8000_0000 && b.bits < 0x8000_0000 {
            a.bits < b.bits
        } else if a.bits >= 0x8000_0000 && b.bits >= 0x8000_0000 {
            a.bits > b.bits
        } else {
            a.bits >= 0x8000_0000
        }),
        a.total_rank() == b.total_rank() <==> a.bits == b.bits,
{
}

/// The same of patterns of 64 bits.
pub proof fn long_patterns_are_ordered(a: Real64, b: Real64)
    ensures
        a.nan() <==> 0x7ff0_0000_0000_0000 < a.bits < 0x8000_0000_0000_0000 || 0xfff0_0000_0000_0000 < a.bits,
        a.nan() || b.nan() ==> !a.below(b) && !a.at_most(b),
        !a.nan() && !b.nan() && a.bits < 0x8000_0000_0000_0000 && b.bits < 0x8000_0000_0000_0000 ==> (a.below(b)
            <==> a.bits < b.bits) && (a.at_most(b) <==> a.bits <= b.bits),
        !a.nan() && !b.nan() && a.bits >= 0x8000_0000_0000_0000 && b.bits >= 0x8000_0000_0000_0000 ==> (a.below(b)
            <==> a.bits > b.bits) && (a.at_most(b) <==> a.bits >= b.bits),
        !a.nan() && !b.nan() && a.bits >= 0x8000_0000_0000_0000 && b.bits < 0x8000_0000_0000_0000 ==> a.at_most(b)
            && !b.below(a) && (b.at_most(a) <==> a.bits == 0x8000_0000_0000_0000 && b.bits == 0) && (a.below(b)
            <==> !b.at_most(a)),
        a.unsigned().bits == (if a.bits < 0x8000_0000_0000_0000 {
            a.bits as int
        } else {
            a.bits - 0x8000_0000_0000_0000
        }),
{
}

/// The last largest of some values: none is above it in the total order, and none behind
/// it is as large. The largest number: none is above it, and it is among those given.
pub proof fn largest_has_none_above(values: Seq<Real32>, start: Real32, best: Real32, n: int, k: int, j: int)
    requires
        is_last_largest(values, n, k),
        is_maximum_of(start, values, n, best),
        0 <= j < n,
    ensures
        0 <= k < n,
        values[j].total_rank() <= values[k].total_rank(),
        j > k ==> values[j].total_rank() < values[k].total_rank(),
        !values[j].nan() ==> values[j].at_most(best),
        !start.nan() ==> start.at_most(best),
        best == start || exists|i: int| 0 <= i < n && best == #[trigger] values[i],
        best.nan() ==> values[j].nan() && start.nan(),
{
    assert(values[j].total_rank() <= values[k].total_rank());
}

/// The newest entries of a stream are its last ones, as many as there is room for and in
/// the order in which they came.
pub proof fn newest_come_last<T>(stream: Seq<T>, cap: nat, i: int)
    requires
        0 <= i < newest(stream, cap).len(),
    ensures
        newest(stream, cap).len() == (if stream.len() < cap {
            stream.len()
        } else {
            cap
        }),
        newest(stream, cap)[i] == stream[stream.len() - newest(stream, cap).len() + i],
{
}

/// A number of 32 bits that is not negative, given by its whole part and 23 bits of its
/// fraction: `m / 2^23 * 2^(e - 127)`.
pub open spec fn has_parts(bits: u32, e: nat, m: nat) -> bool {
    0x80_0000 <= m < 0x100_0000 && bits == e * 0x80_0000 + (m - 0x80_0000)
}

/// The numbers that the rules go by, each as a whole number and a power of two: guitars
/// sound from 55 to 600 hertz, a peak stands 12 dB out of the noise, a second string is
/// less than 30 dB below the loudest, windows narrower than 700 points stack their cards,
/// and rates lie between 8000 and 192000 hertz.
pub proof fn rules_go_by_these_numbers()
    ensures
        has_parts(FMIN, 127 + 5, 55 * 0x4_0000),
        has_parts(FMAX, 127 + 9, 600 * 0x4000),
        has_parts(MARGIN_DB, 127 + 3, 12 * 0x10_0000),
        has_parts(FLOOR_DB, 127 + 4, 30 * 0x8_0000),
        has_parts(NARROW, 127 + 9, 700 * 0x4000),
        has_parts(MIN_RATE, 127 + 12, 8000 * 0x800),
        has_parts(MAX_RATE, 127 + 17, 192000 * 0x40),
        RING_LEN == 2 * FFT_LEN,
        FFT_LEN == 2 * YIN_LEN,
        CORR_LEN == FFT_LEN,
        REF_AGE + CORR_LEN <= RING_LEN,
        CFFT == 2 * CORR_LEN,
        REMOTE_RING_LEN == RING_LEN,
{
}

} // verus!
