//! The steps of the Kalman filter over the oscillator bank.
//!
//! Which cells meet which is decided here; the arithmetic on them is the
//! caller's, handed in as functions. A contract says of every cell which call of
//! those functions it came from.

use vstd::prelude::*;

use crate::dsp::drift::{can_refine, is_refined, refine_source, Refinement};
use crate::dsp::separate::{is_square, Separator, Source, BLOCK, HARMONICS};
use crate::ieee::Real32;

verus! {

/// The cells in row `i`, column `j` and the other way round are the average of the
/// two that were there.
pub open spec fn balanced_at<T, A: Fn(T, T) -> T>(average: A, before: Seq<Vec<T>>, after: Seq<Vec<T>>, i: int, j: int) -> bool {
    &&& after[i][j] == after[j][i]
    &&& call_ensures(average, (before[i][j], before[j][i]), after[i][j])
}

/// The diagonal cell in row `i` is what `floor` makes of the one that was there.
pub open spec fn floored_at<T, F: Fn(T) -> T>(floor: F, before: Seq<Vec<T>>, after: Seq<Vec<T>>, i: int) -> bool {
    call_ensures(floor, (before[i][i],), after[i][i])
}

/// Puts a value into a cell of a matrix.
fn put<T>(p: &mut Vec<Vec<T>>, i: usize, j: usize, v: T)
    requires
        i < old(p).len(),
        j < old(p)[i as int].len(),
    ensures
        final(p).len() == old(p).len(),
        forall|r: int| 0 <= r < old(p).len() ==> (#[trigger] final(p)[r]).len() == old(p)[r].len(),
        final(p)[i as int][j as int] == v,
        forall|r: int, c: int|
            0 <= r < old(p).len() && 0 <= c < old(p)[r].len() && !(r == i && c == j) ==> #[trigger] final(p)[r][c]
                == old(p)[r][c],
{
    let ghost before = p@;
    p[i][j] = v;
    assert forall|r: int, c: int|
        0 <= r < before.len() && 0 <= c < before[r].len() && !(r == i && c == j) implies #[trigger] p[r][c]
        == before[r][c] by {
        if r != i {
            assert(p[r] == before[r]);
        }
    }
}

impl<T: Copy> Separator<T> {
    /// Everything but the covariance is the same.
    pub open spec fn same_but_covariance(&self, other: &Separator<T>) -> bool {
        &&& self.sources@ == other.sources@
        &&& self.x@ == other.x@
        &&& self.rot@ == other.rot@
        &&& self.theta@ == other.theta@
        &&& self.ref_phase@ == other.ref_phase@
        &&& self.hp@ == other.hp@
        &&& self.sub_fill == other.sub_fill
        &&& self.res2 == other.res2
        &&& self.same_constants(other)
    }
}

/// `after` is `before` with its covariance re-balanced.
pub open spec fn rebalanced<T: Copy, A: Fn(T, T) -> T, F: Fn(T) -> T>(
    average: A,
    floor: F,
    before: Separator<T>,
    after: Separator<T>,
) -> bool {
    &&& after.well_formed()
    &&& after.same_but_covariance(&before)
    &&& forall|i: int, j: int|
        0 <= i < j < before.x.len() ==> #[trigger] balanced_at(average, before.p@, after.p@, i, j)
    &&& forall|i: int| 0 <= i < before.x.len() ==> #[trigger] floored_at(floor, before.p@, after.p@, i)
}

impl<T: Copy> Separator<T> {
    /// Rounding makes the covariance slightly asymmetric over time; re-balances it
    /// at sub-block boundaries.
    pub fn symmetrize<A: Fn(T, T) -> T, F: Fn(T) -> T>(&mut self, average: &A, floor: &F)
        requires
            old(self).well_formed(),
            forall|a: T, b: T| call_requires(*average, (a, b)),
            forall|a: T| call_requires(*floor, (a,)),
        ensures
            rebalanced(*average, *floor, *old(self), *final(self)),
    {
        let ghost before = *self;
        let n: usize = self.x.len();
        let mut i: usize = 0;
        while i < n
            invariant
                i <= n == before.x.len(),
                before.well_formed(),
                is_square(self.p@, n as int),
                self.same_but_covariance(&before),
                forall|a: T, b: T| call_requires(*average, (a, b)),
                forall|a: T| call_requires(*floor, (a,)),
                forall|r: int, c: int|
                    0 <= r < c < n && r < i ==> #[trigger] balanced_at(*average, before.p@, self.p@, r, c),
                forall|r: int| 0 <= r < i ==> #[trigger] floored_at(*floor, before.p@, self.p@, r),
                forall|r: int, c: int| i <= r < n && i <= c < n ==> #[trigger] self.p[r][c] == before.p[r][c],
            decreases n - i,
        {
            let mut j: usize = i + 1;
            while j < n
                invariant
                    i < j <= n == before.x.len(),
                    before.well_formed(),
                    is_square(self.p@, n as int),
                    self.same_but_covariance(&before),
                    forall|a: T, b: T| call_requires(*average, (a, b)),
                    forall|r: int, c: int|
                        0 <= r < c < n && (r < i || r == i && c < j) ==> #[trigger] balanced_at(
                            *average,
                            before.p@,
                            self.p@,
                            r,
                            c,
                        ),
                    forall|r: int| 0 <= r < i ==> #[trigger] floored_at(*floor, before.p@, self.p@, r),
                    forall|r: int, c: int|
                        i <= r < n && i <= c < n && !(r == i && i < c < j) && !(c == i && i < r < j) ==> #[trigger] self.p[r][c]
                            == before.p[r][c],
                decreases n - j,
            {
                let avg: T = average(self.p[i][j], self.p[j][i]);
                let ghost had = self.p@;
                put(&mut self.p, i, j, avg);
                put(&mut self.p, j, i, avg);
                proof {
                    assert forall|r: int, c: int|
                        0 <= r < c < n && (r < i || r == i && c < j + 1) implies #[trigger] balanced_at(
                        *average,
                        before.p@,
                        self.p@,
                        r,
                        c,
                    ) by {
                        if !(r == i && c == j) {
                            assert(balanced_at(*average, before.p@, had, r, c));
                        }
                    }
                    assert forall|r: int| 0 <= r < i implies #[trigger] floored_at(*floor, before.p@, self.p@, r) by {
                        assert(floored_at(*floor, before.p@, had, r));
                    }
                }
                j = j + 1;
            }
            let kept: T = floor(self.p[i][i]);
            let ghost had = self.p@;
            put(&mut self.p, i, i, kept);
            proof {
                assert forall|r: int, c: int| 0 <= r < c < n && r < i + 1 implies #[trigger] balanced_at(
                    *average,
                    before.p@,
                    self.p@,
                    r,
                    c,
                ) by {
                    assert(balanced_at(*average, before.p@, had, r, c));
                }
                assert forall|r: int| 0 <= r < i + 1 implies #[trigger] floored_at(*floor, before.p@, self.p@, r) by {
                    if r < i {
                        assert(floored_at(*floor, before.p@, had, r));
                    }
                }
            }
            i = i + 1;
        }
    }
}

/// The phasor of oscillator `o` is the one that was there, turned.
pub open spec fn state_turned_at<T, R: Fn((T, T), T, T) -> (T, T)>(
    turn: R,
    rot: Seq<(T, T)>,
    before: Seq<T>,
    after: Seq<T>,
    o: int,
) -> bool {
    call_ensures(turn, (rot[o], before[2 * o], before[2 * o + 1]), (after[2 * o], after[2 * o + 1]))
}

/// In column `j` the two rows of oscillator `o` are turned.
pub open spec fn rows_turned_at<T, R: Fn((T, T), T, T) -> (T, T)>(
    turn: R,
    rot: Seq<(T, T)>,
    before: Seq<Vec<T>>,
    after: Seq<Vec<T>>,
    o: int,
    j: int,
) -> bool {
    call_ensures(
        turn,
        (rot[o], before[2 * o][j], before[2 * o + 1][j]),
        (after[2 * o][j], after[2 * o + 1][j]),
    )
}

/// In row `i` the two columns of oscillator `o` are turned.
pub open spec fn columns_turned_at<T, R: Fn((T, T), T, T) -> (T, T)>(
    turn: R,
    rot: Seq<(T, T)>,
    before: Seq<Vec<T>>,
    after: Seq<Vec<T>>,
    i: int,
    o: int,
) -> bool {
    call_ensures(
        turn,
        (rot[o], before[i][2 * o], before[i][2 * o + 1]),
        (after[i][2 * o], after[i][2 * o + 1]),
    )
}

/// All rows of the matrix are turned by the oscillators they belong to.
pub open spec fn rows_turned<T, R: Fn((T, T), T, T) -> (T, T)>(
    turn: R,
    rot: Seq<(T, T)>,
    before: Seq<Vec<T>>,
    after: Seq<Vec<T>>,
) -> bool {
    &&& is_square(after, 2 * rot.len() as int)
    &&& forall|o: int, j: int|
        0 <= o < rot.len() && 0 <= j < 2 * rot.len() ==> #[trigger] rows_turned_at(turn, rot, before, after, o, j)
}

/// All columns of the matrix are turned by the oscillators they belong to.
pub open spec fn columns_turned<T, R: Fn((T, T), T, T) -> (T, T)>(
    turn: R,
    rot: Seq<(T, T)>,
    before: Seq<Vec<T>>,
    after: Seq<Vec<T>>,
) -> bool {
    &&& is_square(after, 2 * rot.len() as int)
    &&& forall|i: int, o: int|
        0 <= i < 2 * rot.len() && 0 <= o < rot.len() ==> #[trigger] columns_turned_at(turn, rot, before, after, i, o)
}

/// The diagonal is raised, and nothing else changes.
pub open spec fn diagonal_raised<T, B: Fn(T) -> T>(raise: B, before: Seq<Vec<T>>, after: Seq<Vec<T>>, n: int) -> bool {
    &&& is_square(after, n)
    &&& forall|i: int| 0 <= i < n ==> #[trigger] floored_at(raise, before, after, i)
    &&& forall|i: int, j: int| 0 <= i < n && 0 <= j < n && i != j ==> #[trigger] after[i][j] == before[i][j]
}

/// Turns the phasors.
fn turn_state<T: Copy, R: Fn((T, T), T, T) -> (T, T)>(x: &mut Vec<T>, rot: &Vec<(T, T)>, turn: &R)
    requires
        old(x).len() == 2 * rot.len(),
        forall|r: (T, T), a: T, b: T| call_requires(*turn, (r, a, b)),
    ensures
        final(x).len() == old(x).len(),
        forall|o: int| 0 <= o < rot.len() ==> #[trigger] state_turned_at(*turn, rot@, old(x)@, final(x)@, o),
{
    let ghost before = x@;
    let mut o: usize = 0;
    while o < rot.len()
        invariant
            o <= rot.len(),
            x.len() == 2 * rot.len() == before.len(),
            forall|r: (T, T), a: T, b: T| call_requires(*turn, (r, a, b)),
            forall|q: int| 0 <= q < o ==> #[trigger] state_turned_at(*turn, rot@, before, x@, q),
            forall|k: int| 2 * o <= k < x.len() ==> #[trigger] x[k] == before[k],
        decreases rot.len() - o,
    {
        let ghost had = x@;
        let (c, d): (T, T) = turn(rot[o], x[2 * o], x[2 * o + 1]);
        x.set(2 * o, c);
        x.set(2 * o + 1, d);
        proof {
            assert forall|q: int| 0 <= q < o + 1 implies #[trigger] state_turned_at(*turn, rot@, before, x@, q) by {
                if q < o {
                    assert(state_turned_at(*turn, rot@, before, had, q));
                }
            }
        }
        o = o + 1;
    }
}

/// Turns the rows.
fn turn_rows<T: Copy, R: Fn((T, T), T, T) -> (T, T)>(p: &mut Vec<Vec<T>>, rot: &Vec<(T, T)>, turn: &R)
    requires
        is_square(old(p)@, 2 * rot.len()),
        forall|r: (T, T), a: T, b: T| call_requires(*turn, (r, a, b)),
    ensures
        rows_turned(*turn, rot@, old(p)@, final(p)@),
{
    let ghost before = p@;
    let n: usize = p.len();
    let mut o: usize = 0;
    while o < rot.len()
        invariant
            o <= rot.len(),
            n == 2 * rot.len(),
            is_square(before, n as int),
            is_square(p@, n as int),
            forall|r: (T, T), a: T, b: T| call_requires(*turn, (r, a, b)),
            forall|q: int, j: int|
                0 <= q < o && 0 <= j < n ==> #[trigger] rows_turned_at(*turn, rot@, before, p@, q, j),
            forall|i: int, j: int| 2 * o <= i < n && 0 <= j < n ==> #[trigger] p[i][j] == before[i][j],
        decreases rot.len() - o,
    {
        let mut j: usize = 0;
        while j < n
            invariant
                o < rot.len(),
                j <= n == 2 * rot.len(),
                is_square(before, n as int),
                is_square(p@, n as int),
                forall|r: (T, T), a: T, b: T| call_requires(*turn, (r, a, b)),
                forall|q: int, k: int|
                    0 <= q <= o && 0 <= k < n && (q < o || k < j) ==> #[trigger] rows_turned_at(
                        *turn,
                        rot@,
                        before,
                        p@,
                        q,
                        k,
                    ),
                forall|i: int, k: int|
                    2 * o <= i < n && 0 <= k < n && (i >= 2 * o + 2 || k >= j) ==> #[trigger] p[i][k] == before[i][k],
            decreases n - j,
        {
            let ghost had = p@;
            let (c, d): (T, T) = turn(rot[o], p[2 * o][j], p[2 * o + 1][j]);
            put(p, 2 * o, j, c);
            put(p, 2 * o + 1, j, d);
            proof {
                assert forall|q: int, k: int|
                    0 <= q <= o && 0 <= k < n && (q < o || k < j + 1) implies #[trigger] rows_turned_at(
                    *turn,
                    rot@,
                    before,
                    p@,
                    q,
                    k,
                ) by {
                    if q < o || k < j {
                        assert(rows_turned_at(*turn, rot@, before, had, q, k));
                    }
                }
            }
            j = j + 1;
        }
        o = o + 1;
    }
}

/// Turns the columns.
fn turn_columns<T: Copy, R: Fn((T, T), T, T) -> (T, T)>(p: &mut Vec<Vec<T>>, rot: &Vec<(T, T)>, turn: &R)
    requires
        is_square(old(p)@, 2 * rot.len()),
        forall|r: (T, T), a: T, b: T| call_requires(*turn, (r, a, b)),
    ensures
        columns_turned(*turn, rot@, old(p)@, final(p)@),
{
    let ghost before = p@;
    let n: usize = p.len();
    let mut o: usize = 0;
    while o < rot.len()
        invariant
            o <= rot.len(),
            n == 2 * rot.len(),
            is_square(before, n as int),
            is_square(p@, n as int),
            forall|r: (T, T), a: T, b: T| call_requires(*turn, (r, a, b)),
            forall|i: int, q: int|
                0 <= i < n && 0 <= q < o ==> #[trigger] columns_turned_at(*turn, rot@, before, p@, i, q),
            forall|i: int, j: int| 0 <= i < n && 2 * o <= j < n ==> #[trigger] p[i][j] == before[i][j],
        decreases rot.len() - o,
    {
        let mut i: usize = 0;
        while i < n
            invariant
                o < rot.len(),
                i <= n == 2 * rot.len(),
                is_square(before, n as int),
                is_square(p@, n as int),
                forall|r: (T, T), a: T, b: T| call_requires(*turn, (r, a, b)),
                forall|k: int, q: int|
                    0 <= q <= o && 0 <= k < n && (q < o || k < i) ==> #[trigger] columns_turned_at(
                        *turn,
                        rot@,
                        before,
                        p@,
                        k,
                        q,
                    ),
                forall|k: int, j: int|
                    0 <= k < n && 2 * o <= j < n && (j >= 2 * o + 2 || k >= i) ==> #[trigger] p[k][j] == before[k][j],
            decreases n - i,
        {
            let ghost had = p@;
            let (c, d): (T, T) = turn(rot[o], p[i][2 * o], p[i][2 * o + 1]);
            put(p, i, 2 * o, c);
            put(p, i, 2 * o + 1, d);
            proof {
                assert forall|k: int, q: int|
                    0 <= q <= o && 0 <= k < n && (q < o || k < i + 1) implies #[trigger] columns_turned_at(
                    *turn,
                    rot@,
                    before,
                    p@,
                    k,
                    q,
                ) by {
                    if q < o || k < i {
                        assert(columns_turned_at(*turn, rot@, before, had, k, q));
                    }
                }
            }
            i = i + 1;
        }
        o = o + 1;
    }
}

/// Raises the diagonal.
fn raise_diagonal<T: Copy, B: Fn(T) -> T>(p: &mut Vec<Vec<T>>, raise: &B)
    requires
        is_square(old(p)@, old(p).len() as int),
        forall|a: T| call_requires(*raise, (a,)),
    ensures
        diagonal_raised(*raise, old(p)@, final(p)@, old(p).len() as int),
{
    let ghost before = p@;
    let n: usize = p.len();
    let mut i: usize = 0;
    while i < n
        invariant
            i <= n,
            is_square(before, n as int),
            is_square(p@, n as int),
            forall|a: T| call_requires(*raise, (a,)),
            forall|k: int| 0 <= k < i ==> #[trigger] floored_at(*raise, before, p@, k),
            forall|k: int, j: int|
                0 <= k < n && 0 <= j < n && (k != j || k >= i) ==> #[trigger] p[k][j] == before[k][j],
        decreases n - i,
    {
        let ghost had = p@;
        let v: T = raise(p[i][i]);
        put(p, i, i, v);
        proof {
            assert forall|k: int| 0 <= k < i + 1 implies #[trigger] floored_at(*raise, before, p@, k) by {
                if k < i {
                    assert(floored_at(*raise, before, had, k));
                }
            }
        }
        i = i + 1;
    }
}

impl<T: Copy> Separator<T> {
    /// Everything but phasors and covariance is the same.
    pub open spec fn same_bank(&self, other: &Separator<T>) -> bool {
        &&& self.sources@ == other.sources@
        &&& self.rot@ == other.rot@
        &&& self.theta@ == other.theta@
        &&& self.ref_phase@ == other.ref_phase@
        &&& self.sub_fill == other.sub_fill
        &&& self.same_constants(other)
    }
}

/// `after` is `before` one step of the model later.
pub open spec fn predicted<T: Copy, R: Fn((T, T), T, T) -> (T, T), B: Fn(T) -> T>(
    turn: R,
    raise: B,
    before: Separator<T>,
    after: Separator<T>,
) -> bool {
    &&& after.well_formed()
    &&& after.same_bank(&before)
    &&& after.hp@ == before.hp@
    &&& after.res2 == before.res2
    &&& forall|o: int|
        0 <= o < before.rot.len() ==> #[trigger] state_turned_at(turn, before.rot@, before.x@, after.x@, o)
    &&& exists|rows: Seq<Vec<T>>, both: Seq<Vec<T>>|
        #![trigger rows_turned(turn, before.rot@, before.p@, rows), columns_turned(turn, before.rot@, rows, both)]
        {
            &&& rows_turned(turn, before.rot@, before.p@, rows)
            &&& columns_turned(turn, before.rot@, rows, both)
            &&& diagonal_raised(raise, both, after.p@, before.p.len() as int)
        }
}

impl<T: Copy> Separator<T> {
    /// One step of the model: every phasor turns, so do the rows and the columns of
    /// the covariance, and its diagonal is raised by the process noise.
    pub fn predict<R: Fn((T, T), T, T) -> (T, T), B: Fn(T) -> T>(&mut self, turn: &R, raise: &B)
        requires
            old(self).well_formed(),
            forall|r: (T, T), a: T, b: T| call_requires(*turn, (r, a, b)),
            forall|a: T| call_requires(*raise, (a,)),
        ensures
            predicted(*turn, *raise, *old(self), *final(self)),
    {
        turn_state(&mut self.x, &self.rot, turn);
        turn_rows(&mut self.p, &self.rot, turn);
        let ghost rows = self.p@;
        turn_columns(&mut self.p, &self.rot, turn);
        let ghost both = self.p@;
        raise_diagonal(&mut self.p, raise);
        assert(rows_turned(*turn, old(self).rot@, old(self).p@, rows));
        assert(columns_turned(*turn, old(self).rot@, rows, both));
    }
}

/// `r` is `start` with the cosine cells of the first `k` oscillators added one
/// after another.
pub open spec fn summed<T, A: Fn(T, T) -> T>(plus: A, start: T, cells: Seq<T>, k: nat, r: T) -> bool
    decreases k,
{
    if k == 0 {
        r == start
    } else {
        exists|m: T|
            summed(plus, start, cells, (k - 1) as nat, m) && #[trigger] call_ensures(plus, (m, cells[2 * (k - 1)]), r)
    }
}

/// Adds up the cosine cells of `count` oscillators.
fn sum_cosines<T: Copy, A: Fn(T, T) -> T>(plus: &A, start: T, cells: &Vec<T>, count: usize) -> (r: T)
    requires
        cells.len() == 2 * count,
        forall|a: T, b: T| call_requires(*plus, (a, b)),
    ensures
        summed(*plus, start, cells@, count as nat, r),
{
    let mut r: T = start;
    let mut k: usize = 0;
    while k < count
        invariant
            k <= count,
            cells.len() == 2 * count,
            forall|a: T, b: T| call_requires(*plus, (a, b)),
            summed(*plus, start, cells@, k as nat, r),
        decreases count - k,
    {
        let ghost m = r;
        r = plus(r, cells[2 * k]);
        proof {
            let next = (k + 1) as nat;
            assert(summed(*plus, start, cells@, (next - 1) as nat, m));
            assert(call_ensures(*plus, (m, cells@[2 * (next - 1)]), r));
            assert(summed(*plus, start, cells@, next, r));
        }
        k = k + 1;
    }
    r
}

/// The angle and the rotation of harmonic `m` of source `si` are those of its
/// frequency.
pub open spec fn rotates_at<T, A: Fn(Real32, usize) -> T, D: Fn(T) -> (T, T)>(
    angle: A,
    direction: D,
    source: Source,
    theta: Seq<T>,
    rot: Seq<(T, T)>,
    si: int,
    m: int,
) -> bool {
    &&& call_ensures(angle, (source.freq, (m + 1) as usize), theta[si * HARMONICS + m])
    &&& call_ensures(direction, (theta[si * HARMONICS + m],), rot[si * HARMONICS + m])
}

/// The reference phase of oscillator `o` is the one predicted from its phasor.
pub open spec fn phase_set_at<T, P: Fn(T, T, T) -> T>(
    phase: P,
    x: Seq<T>,
    theta: Seq<T>,
    ref_phase: Seq<T>,
    o: int,
) -> bool {
    call_ensures(phase, (x[2 * o], x[2 * o + 1], theta[o]), ref_phase[o])
}

/// The phasors of a source with their reference phases.
pub open spec fn source_phasors<T>(x: Seq<T>, ref_phase: Seq<T>, si: int) -> Seq<(T, T, T)> {
    Seq::new(
        HARMONICS as nat,
        |m: int|
            (
                x[BLOCK * si + 2 * m],
                x[BLOCK * si + 2 * m + 1],
                ref_phase[si * HARMONICS + m],
            ),
    )
}

/// `after` is `before` with what its covariance has in common with the measured sum;
/// `r` is the predicted variance of the sum, and its predicted value.
pub open spec fn observed<T: Copy, A: Fn(T, T) -> T>(
    noise: T,
    plus: A,
    before: Separator<T>,
    after: Separator<T>,
    r: (T, T),
) -> bool {
    let count = before.rot.len() as nat;
    &&& after.well_formed()
    &&& after.same_bank(&before)
    &&& after.x@ == before.x@
    &&& after.p@ == before.p@
    &&& after.res2 == before.res2
    &&& forall|i: int|
        0 <= i < before.x.len() ==> summed(plus, before.zero, before.p[i]@, count, #[trigger] after.hp[i])
    &&& summed(plus, noise, after.hp@, count, r.0)
    &&& summed(plus, before.zero, before.x@, count, r.1)
}

/// `after` is `before` corrected by an innovation.
pub open spec fn corrected<T: Copy, C: Fn(T, T, T, T) -> T, S: Fn(T, T, T, T) -> T>(
    inv: T,
    innov: T,
    correct: C,
    shrink: S,
    res2: T,
    before: Separator<T>,
    after: Separator<T>,
) -> bool {
    &&& after.well_formed()
    &&& after.same_bank(&before)
    &&& after.hp@ == before.hp@
    &&& after.res2 == res2
    &&& forall|i: int|
        0 <= i < before.x.len() ==> call_ensures(
            correct,
            (before.x[i], before.hp[i], inv, innov),
            #[trigger] after.x[i],
        )
    &&& forall|i: int, j: int|
        0 <= i < before.x.len() && 0 <= j < before.x.len() ==> call_ensures(
            shrink,
            (before.p[i][j], before.hp[i], before.hp[j], inv),
            #[trigger] after.p[i][j],
        )
}

impl<T: Copy> Separator<T> {
    /// First half of a measurement: what the covariance has in common with the
    /// measured sum. Gives the predicted variance of the sum, beginning with that of
    /// the measurement noise, and its predicted value.
    pub fn observe<A: Fn(T, T) -> T>(&mut self, noise: T, plus: &A) -> (r: (T, T))
        requires
            old(self).well_formed(),
            forall|a: T, b: T| call_requires(*plus, (a, b)),
        ensures
            observed(noise, *plus, *old(self), *final(self), r),
    {
        let ghost before = *self;
        let n: usize = self.x.len();
        let count: usize = self.rot.len();
        let mut i: usize = 0;
        while i < n
            invariant
                i <= n == before.x.len(),
                count == before.rot.len(),
                n == 2 * count,
                before.well_formed(),
                self.well_formed(),
                self.same_bank(&before),
                self.x@ == before.x@,
                self.p@ == before.p@,
                self.res2 == before.res2,
                forall|a: T, b: T| call_requires(*plus, (a, b)),
                forall|k: int|
                    0 <= k < i ==> summed(*plus, before.zero, before.p[k]@, count as nat, #[trigger] self.hp[k]),
            decreases n - i,
        {
            assert(self.p[i as int].len() == n);
            let sum: T = sum_cosines(plus, self.zero, &self.p[i], count);
            self.hp.set(i, sum);
            i = i + 1;
        }
        let variance: T = sum_cosines(plus, noise, &self.hp, count);
        let value: T = sum_cosines(plus, self.zero, &self.x, count);
        (variance, value)
    }

    /// Second half: every phasor cell is corrected by the innovation over the variance
    /// of the sum, whose inverse is `inv`, and the covariance shrinks, each cell by
    /// what its row and its column have in common with the sum; `res2` is the new
    /// smoothed power of the residual.
    pub fn correct<C: Fn(T, T, T, T) -> T, S: Fn(T, T, T, T) -> T>(
        &mut self,
        inv: T,
        innov: T,
        correct: &C,
        shrink: &S,
        res2: T,
    )
        requires
            old(self).well_formed(),
            forall|a: T, b: T, c: T, d: T| call_requires(*correct, (a, b, c, d)),
            forall|a: T, b: T, c: T, d: T| call_requires(*shrink, (a, b, c, d)),
        ensures
            corrected(inv, innov, *correct, *shrink, res2, *old(self), *final(self)),
    {
        let ghost before = *self;
        let n: usize = self.x.len();
        let mut i: usize = 0;
        while i < n
            invariant
                i <= n == before.x.len(),
                before.well_formed(),
                self.well_formed(),
                self.same_bank(&before),
                self.p@ == before.p@,
                self.hp@ == before.hp@,
                forall|a: T, b: T, c: T, d: T| call_requires(*correct, (a, b, c, d)),
                forall|k: int|
                    0 <= k < i ==> call_ensures(*correct, (before.x[k], before.hp[k], inv, innov), #[trigger] self.x[k]),
                forall|k: int| i <= k < n ==> #[trigger] self.x[k] == before.x[k],
            decreases n - i,
        {
            let v: T = correct(self.x[i], self.hp[i], inv, innov);
            self.x.set(i, v);
            i = i + 1;
        }
        i = 0;
        while i < n
            invariant
                i <= n == before.x.len(),
                before.well_formed(),
                self.well_formed(),
                self.same_bank(&before),
                self.hp@ == before.hp@,
                forall|a: T, b: T, c: T, d: T| call_requires(*shrink, (a, b, c, d)),
                forall|k: int|
                    0 <= k < n ==> call_ensures(*correct, (before.x[k], before.hp[k], inv, innov), #[trigger] self.x[k]),
                forall|k: int, j: int|
                    0 <= k < i && 0 <= j < n ==> call_ensures(
                        *shrink,
                        (before.p[k][j], before.hp[k], before.hp[j], inv),
                        #[trigger] self.p[k][j],
                    ),
                forall|k: int, j: int| i <= k < n && 0 <= j < n ==> #[trigger] self.p[k][j] == before.p[k][j],
            decreases n - i,
        {
            let mut j: usize = 0;
            while j < n
                invariant
                    i < n == before.x.len(),
                    j <= n,
                    before.well_formed(),
                    self.well_formed(),
                    self.same_bank(&before),
                    self.hp@ == before.hp@,
                    forall|a: T, b: T, c: T, d: T| call_requires(*shrink, (a, b, c, d)),
                    forall|k: int|
                        0 <= k < n ==> call_ensures(*correct, (before.x[k], before.hp[k], inv, innov), #[trigger] self.x[k]),
                    forall|k: int, c: int|
                        0 <= k <= i && 0 <= c < n && (k < i || c < j) ==> call_ensures(
                            *shrink,
                            (before.p[k][c], before.hp[k], before.hp[c], inv),
                            #[trigger] self.p[k][c],
                        ),
                    forall|k: int, c: int|
                        i <= k < n && 0 <= c < n && (k > i || c >= j) ==> #[trigger] self.p[k][c] == before.p[k][c],
                decreases n - j,
            {
                assert(self.p[i as int].len() == n);
                let v: T = shrink(self.p[i][j], self.hp[i], self.hp[j], inv);
                put(&mut self.p, i, j, v);
                j = j + 1;
            }
            i = i + 1;
        }
        self.res2 = res2;
    }

    /// Computes the angles and rotations of a source anew from its frequency.
    pub fn rebuild_rot<A: Fn(Real32, usize) -> T, D: Fn(T) -> (T, T)>(&mut self, si: usize, angle: &A, direction: &D)
        requires
            old(self).well_formed(),
            si < old(self).sources.len(),
            forall|f: Real32, m: usize| call_requires(*angle, (f, m)),
            forall|a: T| call_requires(*direction, (a,)),
        ensures
            final(self).well_formed(),
            final(self).sources@ == old(self).sources@,
            final(self).x@ == old(self).x@,
            final(self).p@ == old(self).p@,
            final(self).hp@ == old(self).hp@,
            final(self).ref_phase@ == old(self).ref_phase@,
            final(self).sub_fill == old(self).sub_fill,
            final(self).res2 == old(self).res2,
            final(self).same_constants(old(self)),
            forall|m: int|
                0 <= m < HARMONICS ==> #[trigger] rotates_at(
                    *angle,
                    *direction,
                    old(self).sources[si as int],
                    final(self).theta@,
                    final(self).rot@,
                    si as int,
                    m,
                ),
            forall|o: int|
                0 <= o < old(self).theta.len() && !(si * HARMONICS <= o < si * HARMONICS + HARMONICS) ==> {
                    &&& #[trigger] final(self).theta[o] == old(self).theta[o]
                    &&& final(self).rot[o] == old(self).rot[o]
                },
    {
        let ghost before = *self;
        let freq: Real32 = self.sources[si].freq;
        let mut m: usize = 0;
        while m < HARMONICS
            invariant
                m <= HARMONICS,
                si < self.sources.len() <= 2,
                freq == before.sources[si as int].freq,
                self.well_formed(),
                before.well_formed(),
                self.sources@ == before.sources@,
                self.x@ == before.x@,
                self.p@ == before.p@,
                self.hp@ == before.hp@,
                self.ref_phase@ == before.ref_phase@,
                self.sub_fill == before.sub_fill,
                self.res2 == before.res2,
                self.same_constants(&before),
                forall|f: Real32, k: usize| call_requires(*angle, (f, k)),
                forall|a: T| call_requires(*direction, (a,)),
                forall|k: int|
                    0 <= k < m ==> #[trigger] rotates_at(
                        *angle,
                        *direction,
                        before.sources[si as int],
                        self.theta@,
                        self.rot@,
                        si as int,
                        k,
                    ),
                forall|o: int|
                    0 <= o < before.theta.len() && !(si * HARMONICS <= o < si * HARMONICS + m) ==> {
                        &&& #[trigger] self.theta[o] == before.theta[o]
                        &&& self.rot[o] == before.rot[o]
                    },
            decreases HARMONICS - m,
        {
            let o: usize = si * HARMONICS + m;
            let th: T = angle(freq, m + 1);
            let r: (T, T) = direction(th);
            let ghost had = *self;
            self.theta.set(o, th);
            self.rot.set(o, r);
            proof {
                assert forall|k: int| 0 <= k < m + 1 implies #[trigger] rotates_at(
                    *angle,
                    *direction,
                    before.sources[si as int],
                    self.theta@,
                    self.rot@,
                    si as int,
                    k,
                ) by {
                    if k < m {
                        assert(rotates_at(
                            *angle,
                            *direction,
                            before.sources[si as int],
                            had.theta@,
                            had.rot@,
                            si as int,
                            k,
                        ));
                    }
                }
            }
            m = m + 1;
        }
        assert forall|o: int|
            0 <= o < before.theta.len() && !(si * HARMONICS <= o < si * HARMONICS + HARMONICS) implies {
            &&& #[trigger] self.theta[o] == before.theta[o]
            &&& self.rot[o] == before.rot[o]
        } by {
            assert(m == HARMONICS);
            assert(self.theta[o] == before.theta[o]);
        }
    }

    /// Predicts the phase of every phasor at the next sub-block boundary.
    pub fn reset_ref_phases<P: Fn(T, T, T) -> T>(&mut self, phase: &P)
        requires
            old(self).well_formed(),
            forall|c: T, s: T, a: T| call_requires(*phase, (c, s, a)),
        ensures
            final(self).well_formed(),
            final(self).sources@ == old(self).sources@,
            final(self).x@ == old(self).x@,
            final(self).p@ == old(self).p@,
            final(self).hp@ == old(self).hp@,
            final(self).theta@ == old(self).theta@,
            final(self).rot@ == old(self).rot@,
            final(self).sub_fill == old(self).sub_fill,
            final(self).res2 == old(self).res2,
            final(self).same_constants(old(self)),
            forall|o: int|
                0 <= o < old(self).theta.len() ==> #[trigger] phase_set_at(
                    *phase,
                    old(self).x@,
                    old(self).theta@,
                    final(self).ref_phase@,
                    o,
                ),
    {
        let ghost before = *self;
        let mut o: usize = 0;
        while o < self.theta.len()
            invariant
                o <= self.theta.len(),
                self.well_formed(),
                self.sources@ == before.sources@,
                self.x@ == before.x@,
                self.p@ == before.p@,
                self.hp@ == before.hp@,
                self.theta@ == before.theta@,
                self.rot@ == before.rot@,
                self.sub_fill == before.sub_fill,
                self.res2 == before.res2,
                self.same_constants(&before),
                forall|c: T, s: T, a: T| call_requires(*phase, (c, s, a)),
                forall|k: int|
                    0 <= k < o ==> #[trigger] phase_set_at(*phase, before.x@, before.theta@, self.ref_phase@, k),
            decreases self.theta.len() - o,
        {
            let ghost had = self.ref_phase@;
            let v: T = phase(self.x[2 * o], self.x[2 * o + 1], self.theta[o]);
            self.ref_phase.set(o, v);
            proof {
                assert forall|k: int| 0 <= k < o + 1 implies #[trigger] phase_set_at(
                    *phase,
                    before.x@,
                    before.theta@,
                    self.ref_phase@,
                    k,
                ) by {
                    if k < o {
                        assert(phase_set_at(*phase, before.x@, before.theta@, had, k));
                    }
                }
            }
            o = o + 1;
        }
    }

    /// The phasors of a source with their reference phases.
    pub fn phasors(&self, si: usize) -> (r: Vec<(T, T, T)>)
        requires
            self.well_formed(),
            si < self.sources.len(),
        ensures
            r@ == source_phasors(self.x@, self.ref_phase@, si as int),
    {
        let mut r: Vec<(T, T, T)> = Vec::new();
        let mut m: usize = 0;
        while m < HARMONICS
            invariant
                m <= HARMONICS,
                si < self.sources.len(),
                self.well_formed(),
                r@ == source_phasors(self.x@, self.ref_phase@, si as int).take(m as int),
            decreases HARMONICS - m,
        {
            r.push((self.x[BLOCK * si + 2 * m], self.x[BLOCK * si + 2 * m + 1], self.ref_phase[si * HARMONICS + m]));
            m = m + 1;
            assert(r@ =~= source_phasors(self.x@, self.ref_phase@, si as int).take(m as int));
        }
        assert(r@ =~= source_phasors(self.x@, self.ref_phase@, si as int));
        r
    }
}

/// Source `si` after the frequency servo: where its phasors speak for a frequency, refined
/// by `refine`, the source has it, with the rotations that go with
/// it; otherwise the source is as it was.
pub open spec fn served_at<
    T,
    E: Fn(T, T) -> Real32,
    K: Fn((Real32, Real32), Real32, (T, T, T), usize) -> (Real32, Real32),
    U: Fn(Source, Real32, Real32) -> Real32,
    H: Fn(Real32, Real32) -> Real32,
    A: Fn(Real32, usize) -> T,
    D: Fn(T) -> (T, T),
>(refine: Refinement<E, K, U, H>, angle: A, direction: D, before: Separator<T>, after: Separator<T>, si: int) -> bool {
    let phasors = source_phasors(before.x@, before.ref_phase@, si);
    exists|answer: Option<Real32>|
        #![trigger is_refined(refine, before.sources[si], phasors, answer)]
        {
            &&& is_refined(refine, before.sources[si], phasors, answer)
            &&& match answer {
                Some(freq) => {
                    &&& after.sources[si] == (Source { seed: before.sources[si].seed, freq })
                    &&& forall|m: int|
                        0 <= m < HARMONICS ==> #[trigger] rotates_at(
                            angle,
                            direction,
                            after.sources[si],
                            after.theta@,
                            after.rot@,
                            si,
                            m,
                        )
                },
                None => {
                    &&& after.sources[si] == before.sources[si]
                    &&& forall|o: int|
                        si * HARMONICS <= o < si * HARMONICS + HARMONICS ==> {
                            &&& #[trigger] after.theta[o] == before.theta[o]
                            &&& after.rot[o] == before.rot[o]
                        }
                },
            }
        }
}

/// What the servo made of a source does not change when only other sources do.
proof fn served_stays<
    T: Copy,
    E: Fn(T, T) -> Real32,
    K: Fn((Real32, Real32), Real32, (T, T, T), usize) -> (Real32, Real32),
    U: Fn(Source, Real32, Real32) -> Real32,
    H: Fn(Real32, Real32) -> Real32,
    A: Fn(Real32, usize) -> T,
    D: Fn(T) -> (T, T),
>(refine: Refinement<E, K, U, H>, angle: A, direction: D, before: Separator<T>, had: Separator<T>, now: Separator<T>, si: int)
    requires
        0 <= si,
        si < before.sources.len(),
        before.well_formed(),
        served_at(refine, angle, direction, before, had, si),
        now.sources[si] == had.sources[si],
        forall|o: int|
            si * HARMONICS <= o < si * HARMONICS + HARMONICS ==> {
                &&& #[trigger] now.theta[o] == had.theta[o]
                &&& now.rot[o] == had.rot[o]
            },
    ensures
        served_at(refine, angle, direction, before, now, si),
{
    let phasors = source_phasors(before.x@, before.ref_phase@, si);
    let answer = choose|answer: Option<Real32>|
        #![trigger is_refined(refine, before.sources[si], phasors, answer)]
        {
            &&& is_refined(refine, before.sources[si], phasors, answer)
            &&& match answer {
                Some(freq) => {
                    &&& had.sources[si] == (Source { seed: before.sources[si].seed, freq })
                    &&& forall|m: int|
                        0 <= m < HARMONICS ==> #[trigger] rotates_at(
                            angle,
                            direction,
                            had.sources[si],
                            had.theta@,
                            had.rot@,
                            si,
                            m,
                        )
                },
                None => {
                    &&& had.sources[si] == before.sources[si]
                    &&& forall|o: int|
                        si * HARMONICS <= o < si * HARMONICS + HARMONICS ==> {
                            &&& #[trigger] had.theta[o] == before.theta[o]
                            &&& had.rot[o] == before.rot[o]
                        }
                },
            }
        };
    if answer is Some {
        assert forall|m: int| 0 <= m < HARMONICS implies #[trigger] rotates_at(
            angle,
            direction,
            now.sources[si],
            now.theta@,
            now.rot@,
            si,
            m,
        ) by {
            assert(rotates_at(angle, direction, had.sources[si], had.theta@, had.rot@, si, m));
            assert(now.theta[si * HARMONICS + m] == had.theta[si * HARMONICS + m]);
        }
    } else {
        assert forall|o: int| si * HARMONICS <= o < si * HARMONICS + HARMONICS implies {
            &&& #[trigger] now.theta[o] == before.theta[o]
            &&& now.rot[o] == before.rot[o]
        } by {
            assert(answer is None);
            assert(had.theta[o] == before.theta[o] && had.rot[o] == before.rot[o]);
            assert(now.theta[o] == had.theta[o] && now.rot[o] == had.rot[o]);
        }
    }
}

/// `after` is `before` after the frequency servo.
pub open spec fn served<
    T: Copy,
    E: Fn(T, T) -> Real32,
    K: Fn((Real32, Real32), Real32, (T, T, T), usize) -> (Real32, Real32),
    U: Fn(Source, Real32, Real32) -> Real32,
    H: Fn(Real32, Real32) -> Real32,
    A: Fn(Real32, usize) -> T,
    D: Fn(T) -> (T, T),
    P: Fn(T, T, T) -> T,
>(refine: Refinement<E, K, U, H>, angle: A, direction: D, phase: P, before: Separator<T>, after: Separator<T>) -> bool {
    &&& after.well_formed()
    &&& after.sources.len() == before.sources.len()
    &&& after.x@ == before.x@
    &&& after.p@ == before.p@
    &&& after.hp@ == before.hp@
    &&& after.sub_fill == before.sub_fill
    &&& after.res2 == before.res2
    &&& after.same_constants(&before)
    &&& forall|si: int|
        0 <= si < before.sources.len() ==> #[trigger] served_at(refine, angle, direction, before, after, si)
    &&& forall|o: int|
        0 <= o < before.theta.len() ==> #[trigger] phase_set_at(phase, before.x@, after.theta@, after.ref_phase@, o)
}

/// `after` is `before` with the rotations and the reference phases of all sources.
pub open spec fn restarted<T: Copy, A: Fn(Real32, usize) -> T, D: Fn(T) -> (T, T), P: Fn(T, T, T) -> T>(
    angle: A,
    direction: D,
    phase: P,
    before: Separator<T>,
    after: Separator<T>,
) -> bool {
    &&& after.well_formed()
    &&& after.sources@ == before.sources@
    &&& after.x@ == before.x@
    &&& after.p@ == before.p@
    &&& after.hp@ == before.hp@
    &&& after.sub_fill == before.sub_fill
    &&& after.res2 == before.res2
    &&& after.same_constants(&before)
    &&& forall|si: int, m: int|
        0 <= si < before.sources.len() && 0 <= m < HARMONICS ==> #[trigger] rotates_at(
            angle,
            direction,
            before.sources[si],
            after.theta@,
            after.rot@,
            si,
            m,
        )
    &&& forall|o: int|
        0 <= o < before.theta.len() ==> #[trigger] phase_set_at(phase, before.x@, after.theta@, after.ref_phase@, o)
}

impl<T: Copy> Separator<T> {
    /// Frequency servo at a sub-block boundary: `refine` says how the fundamental
    /// of a source is judged from its phasors. Afterwards the reference phases are set for
    /// the next sub-block.
    pub fn servo<
        E: Fn(T, T) -> Real32,
        K: Fn((Real32, Real32), Real32, (T, T, T), usize) -> (Real32, Real32),
        U: Fn(Source, Real32, Real32) -> Real32,
        H: Fn(Real32, Real32) -> Real32,
        A: Fn(Real32, usize) -> T,
        D: Fn(T) -> (T, T),
        P: Fn(T, T, T) -> T,
    >(&mut self, refine: &Refinement<E, K, U, H>, angle: &A, direction: &D, phase: &P)
        requires
            old(self).well_formed(),
            can_refine::<T, E, K, U, H>(*refine),
            forall|f: Real32, m: usize| call_requires(*angle, (f, m)),
            forall|a: T| call_requires(*direction, (a,)),
            forall|c: T, s: T, a: T| call_requires(*phase, (c, s, a)),
        ensures
            served(*refine, *angle, *direction, *phase, *old(self), *final(self)),
    {
        let ghost before = *self;
        let mut si: usize = 0;
        while si < self.sources.len()
            invariant
                si <= self.sources.len(),
                self.sources.len() == before.sources.len(),
                before.well_formed(),
                self.well_formed(),
                self.x@ == before.x@,
                self.p@ == before.p@,
                self.hp@ == before.hp@,
                self.ref_phase@ == before.ref_phase@,
                self.sub_fill == before.sub_fill,
                self.res2 == before.res2,
                self.same_constants(&before),
                can_refine::<T, E, K, U, H>(*refine),
                forall|f: Real32, m: usize| call_requires(*angle, (f, m)),
                forall|a: T| call_requires(*direction, (a,)),
                forall|k: int|
                    0 <= k < si ==> #[trigger] served_at(*refine, *angle, *direction, before, *self, k),
                forall|k: int| si <= k < self.sources.len() ==> #[trigger] self.sources[k] == before.sources[k],
                forall|o: int|
                    si * HARMONICS <= o < self.theta.len() ==> {
                        &&& #[trigger] self.theta[o] == before.theta[o]
                        &&& self.rot[o] == before.rot[o]
                    },
            decreases self.sources.len() - si,
        {
            let ghost had = *self;
            let phasors: Vec<(T, T, T)> = self.phasors(si);
            let source: Source = self.sources[si];
            let answer: Option<Real32> = refine_source(source, &phasors, refine);
            if let Some(freq) = answer {
                self.sources.set(si, Source { seed: source.seed, freq });
                self.rebuild_rot(si, angle, direction);
            }
            proof {
                assert(source == before.sources[si as int]);
                assert(phasors@ == source_phasors(before.x@, before.ref_phase@, si as int));
                assert(is_refined(*refine, before.sources[si as int], phasors@, answer));
                assert(served_at(*refine, *angle, *direction, before, *self, si as int));
                assert forall|k: int| 0 <= k < si + 1 implies #[trigger] served_at(
                    *refine,
                    *angle,
                    *direction,
                    before,
                    *self,
                    k,
                ) by {
                    if k < si {
                        served_stays(*refine, *angle, *direction, before, had, *self, k);
                    }
                }
                assert forall|o: int| (si + 1) * HARMONICS <= o < self.theta.len() implies {
                    &&& #[trigger] self.theta[o] == before.theta[o]
                    &&& self.rot[o] == before.rot[o]
                } by {
                    assert(had.theta[o] == before.theta[o]);
                }
            }
            si = si + 1;
        }
        let ghost turned = *self;
        self.reset_ref_phases(phase);
        proof {
            assert forall|k: int| 0 <= k < before.sources.len() implies #[trigger] served_at(
                *refine,
                *angle,
                *direction,
                before,
                *self,
                k,
            ) by {
                served_stays(*refine, *angle, *direction, before, turned, *self, k);
            }
        }
    }

    /// Computes the rotations of all sources and their reference phases, after the
    /// bank was rebuilt.
    pub fn restart<A: Fn(Real32, usize) -> T, D: Fn(T) -> (T, T), P: Fn(T, T, T) -> T>(
        &mut self,
        angle: &A,
        direction: &D,
        phase: &P,
    )
        requires
            old(self).well_formed(),
            forall|f: Real32, m: usize| call_requires(*angle, (f, m)),
            forall|a: T| call_requires(*direction, (a,)),
            forall|c: T, s: T, a: T| call_requires(*phase, (c, s, a)),
        ensures
            restarted(*angle, *direction, *phase, *old(self), *final(self)),
    {
        let ghost before = *self;
        let mut si: usize = 0;
        while si < self.sources.len()
            invariant
                si <= self.sources.len(),
                before.well_formed(),
                self.well_formed(),
                self.sources@ == before.sources@,
                self.x@ == before.x@,
                self.p@ == before.p@,
                self.hp@ == before.hp@,
                self.sub_fill == before.sub_fill,
                self.res2 == before.res2,
                self.same_constants(&before),
                forall|f: Real32, m: usize| call_requires(*angle, (f, m)),
                forall|a: T| call_requires(*direction, (a,)),
                forall|k: int, m: int|
                    0 <= k < si && 0 <= m < HARMONICS ==> #[trigger] rotates_at(
                        *angle,
                        *direction,
                        before.sources[k],
                        self.theta@,
                        self.rot@,
                        k,
                        m,
                    ),
            decreases self.sources.len() - si,
        {
            let ghost had = *self;
            self.rebuild_rot(si, angle, direction);
            proof {
                assert forall|k: int, m: int| 0 <= k < si + 1 && 0 <= m < HARMONICS implies #[trigger] rotates_at(
                    *angle,
                    *direction,
                    before.sources[k],
                    self.theta@,
                    self.rot@,
                    k,
                    m,
                ) by {
                    if k < si {
                        assert(rotates_at(*angle, *direction, before.sources[k], had.theta@, had.rot@, k, m));
                        assert(self.theta[k * HARMONICS + m] == had.theta[k * HARMONICS + m]);
                    }
                }
            }
            si = si + 1;
        }
        self.reset_ref_phases(phase);
    }
}

} // verus!
