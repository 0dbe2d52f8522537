//! Single-channel two-string separation: the layout of a Kalman filter over a
//! bank of damped harmonic oscillators, and which strings it follows.
//!
//! Each source (string) owns `HARMONICS` phasors of two cells each, source
//! after source, in `x`; the joint covariance `p` is a square matrix over those
//! cells. The cells are numbers of the caller's; the filter steps that compute
//! with them are the caller's as well.

use vstd::prelude::*;

use crate::dsp::peaks::Track;
use crate::ieee::Real32;

verus! {

pub const HARMONICS: usize = 5;

pub const MAX_SOURCES: usize = 2;

/// Cells per source: two for each harmonic.
pub const BLOCK: usize = 10;

/// Sub-block length for the frequency servo. Must be short enough that a
/// worst-case detune keeps the highest harmonic's phase drift within a half turn.
pub const SUB: usize = 256;

/// A new seed within this of a tracked source continues that source: 30 cents,
/// as an IEEE 754 pattern.
pub const MATCH_CENTS: u32 = 0x41f0_0000;

/// Seeds must be more than this apart: 60 cents, twice `MATCH_CENTS`, as an
/// IEEE 754 pattern.
pub const APART_CENTS: u32 = 0x4270_0000;

/// Secondary candidates this close to a harmonic of the primary are rejected:
/// 90 cents, as an IEEE 754 pattern. Adjacent guitar strings are at least 400
/// cents apart, so this is safe.
pub const REJECT_CENTS: u32 = 0x42b4_0000;

/// Harmonics of the primary that a second string is held against.
pub const PRIMARY_HARMONICS: usize = 10;

/// A track must have been seen this often before it can be a second string.
pub const MIN_AGE: u32 = 3;

/// Minus infinity, as an IEEE 754 pattern.
pub const NEG_INFINITY: u32 = 0xff80_0000;

/// Zero hertz: seeds lie above it.
pub const ZERO: u32 = 0;

/// One string being followed.
#[derive(Clone, Copy, Debug)]
pub struct Source {
    /// The frequency it was last seeded with.
    pub seed: Real32,
    /// Its refined fundamental.
    pub freq: Real32,
}

/// The state of the oscillator bank. `T` is the caller's number type.
pub struct Separator<T> {
    pub sources: Vec<Source>,
    /// Interleaved phasors [c, s] per oscillator, source-major.
    pub x: Vec<T>,
    /// Covariance of the cells, row by row.
    pub p: Vec<Vec<T>>,
    /// Per-oscillator per-sample rotation (cosine, sine) and its angle.
    pub rot: Vec<(T, T)>,
    pub theta: Vec<T>,
    /// Predicted phase of each phasor at the next sub-block boundary.
    pub ref_phase: Vec<T>,
    pub sub_fill: usize,
    /// Scratch, one cell per row of `p`.
    pub hp: Vec<T>,
    /// Smoothed power of what the bank does not explain.
    pub res2: T,
    /// The numbers zero and one, and the initial variance of a cell.
    pub zero: T,
    pub one: T,
    pub init_var: T,
}

/// Which of the offered frequencies become seeds: in the order offered, those
/// above zero that lie far enough from every seed already taken, until there
/// are `MAX_SOURCES`. `between[i][j]` is the distance of `i` from `j` in cents.
pub open spec fn picked(freqs: Seq<Real32>, between: Seq<Vec<Real32>>, k: int) -> Seq<usize>
    decreases k,
{
    if k <= 0 {
        Seq::empty()
    } else {
        let prev = picked(freqs, between, k - 1);
        if prev.len() < MAX_SOURCES && (Real32 { bits: ZERO }).below(freqs[k - 1]) && (forall|q: int|
            0 <= q < prev.len() ==> (Real32 { bits: APART_CENTS }).below(between[k - 1][(#[trigger] prev[q]) as int].unsigned())) {
            prev.push((k - 1) as usize)
        } else {
            prev
        }
    }
}

/// The first source within `MATCH_CENTS`, given the distances to the sources.
pub open spec fn first_match(row: Seq<Real32>, from: int) -> Option<usize>
    decreases row.len() - from,
{
    if from >= row.len() {
        None
    } else if row[from].unsigned().below(Real32 { bits: MATCH_CENTS }) {
        Some(from as usize)
    } else {
        first_match(row, from + 1)
    }
}

/// The source that each seed continues, if any.
pub open spec fn matches_of(seeds: Seq<usize>, to_source: Seq<Vec<Real32>>) -> Seq<Option<usize>> {
    seeds.map_values(|i: usize| first_match(to_source[i as int]@, 0))
}

/// No source is continued by two seeds.
pub open spec fn distinct(matches: Seq<Option<usize>>) -> bool {
    forall|a: int, b: int|
        0 <= a < b < matches.len() && (#[trigger] matches[a]) is Some ==> matches[a] != (#[trigger] matches[b])
}

/// The seeds are the sources that are tracked already: nothing is rebuilt.
pub open spec fn same_topology(matches: Seq<Option<usize>>, sources: nat) -> bool {
    &&& matches.len() == sources
    &&& distinct(matches)
    &&& forall|a: int| 0 <= a < matches.len() ==> (#[trigger] matches[a]) is Some
}

/// A square matrix of `n` rows.
pub open spec fn is_square<T>(p: Seq<Vec<T>>, n: int) -> bool {
    p.len() == n && forall|i: int| 0 <= i < n ==> (#[trigger] p[i]).len() == n
}

/// The matrix is a freshly initialised covariance: `init_var` on its diagonal.
pub open spec fn is_initial<T>(p: Seq<Vec<T>>, n: int, zero: T, init_var: T) -> bool {
    &&& is_square(p, n)
    &&& forall|i: int, j: int|
        0 <= i < n && 0 <= j < n ==> #[trigger] p[i][j] == if i == j {
            init_var
        } else {
            zero
        }
}

impl<T: Copy> Separator<T> {
    /// The buffers have the sizes that the number of sources calls for.
    pub open spec fn well_formed(&self) -> bool {
        let n = BLOCK * self.sources.len();
        &&& self.sources.len() <= MAX_SOURCES
        &&& self.x.len() == n
        &&& is_square(self.p@, n)
        &&& self.rot.len() == HARMONICS * self.sources.len()
        &&& self.theta.len() == HARMONICS * self.sources.len()
        &&& self.ref_phase.len() == HARMONICS * self.sources.len()
        &&& self.hp.len() == n
        &&& self.sub_fill < SUB
    }

    /// Nothing but the sources' seeds differs.
    pub open spec fn same_filter(&self, other: &Separator<T>) -> bool {
        &&& self.x@ == other.x@
        &&& self.p@ == other.p@
        &&& self.rot@ == other.rot@
        &&& self.theta@ == other.theta@
        &&& self.ref_phase@ == other.ref_phase@
        &&& self.hp@ == other.hp@
        &&& self.sub_fill == other.sub_fill
        &&& self.same_constants(other)
        &&& self.res2 == other.res2
    }

    /// The numbers that never change.
    pub open spec fn same_constants(&self, other: &Separator<T>) -> bool {
        &&& self.zero == other.zero
        &&& self.one == other.one
        &&& self.init_var == other.init_var
    }

    /// `self` follows the seeds `freqs[seeds[..]]`, rebuilt from `old` with the
    /// frequency and the phasors of every source that a seed continues.
    pub open spec fn rebuilt_from(
        &self,
        old: &Separator<T>,
        freqs: Seq<Real32>,
        seeds: Seq<usize>,
        matches: Seq<Option<usize>>,
    ) -> bool {
        let n = BLOCK * seeds.len();
        &&& self.sources.len() == seeds.len()
        &&& forall|i: int|
            0 <= i < seeds.len() ==> {
                let f = freqs[seeds[i] as int];
                &&& (#[trigger] self.sources[i]).seed == f
                &&& self.sources[i].freq == match carried(matches, i) {
                    Some(j) => old.sources[j as int].freq,
                    None => f,
                }
            }
        &&& self.x.len() == n
        &&& forall|i: int, c: int|
            0 <= i < seeds.len() && 0 <= c < BLOCK ==> #[trigger] block_cell(self.x@, i, c) == match carried(matches, i) {
                Some(j) => block_cell(old.x@, j as int, c),
                None => old.zero,
            }
        &&& is_initial(self.p@, n, old.zero, old.init_var)
        &&& self.hp@ == Seq::new(n as nat, |k: int| old.zero)
        &&& self.rot@ == Seq::new((HARMONICS * seeds.len()) as nat, |k: int| (old.one, old.zero))
        &&& self.theta@ == Seq::new((HARMONICS * seeds.len()) as nat, |k: int| old.zero)
        &&& self.ref_phase@ == Seq::new((HARMONICS * seeds.len()) as nat, |k: int| old.zero)
        &&& self.sub_fill == 0
        &&& self.same_constants(old)
        &&& self.res2 == old.res2
    }
}

/// `after` follows the seeds among `freqs`: rebuilt from `before`, or with other seeds
/// only.
pub open spec fn reseeded<T: Copy>(
    freqs: Seq<Real32>,
    between: Seq<Vec<Real32>>,
    to_source: Seq<Vec<Real32>>,
    before: Separator<T>,
    after: Separator<T>,
    rebuilt: bool,
) -> bool {
    let seeds = picked(freqs, between, freqs.len() as int);
    let matches = matches_of(seeds, to_source);
    &&& rebuilt == !same_topology(matches, before.sources.len() as nat)
    &&& rebuilt ==> after.rebuilt_from(&before, freqs, seeds, matches)
    &&& !rebuilt ==> {
        &&& after.same_filter(&before)
        &&& after.sources.len() == before.sources.len()
        &&& forall|j: int|
            0 <= j < before.sources.len() ==> (#[trigger] after.sources[j]).freq == before.sources[j].freq
        &&& forall|i: int|
            0 <= i < seeds.len() ==> after.sources[(#[trigger] matches[i])->0 as int].seed == freqs[seeds[i] as int]
    }
}

/// The source whose state seed `i` takes over: its match, unless two seeds
/// claim one source.
pub open spec fn carried(matches: Seq<Option<usize>>, i: int) -> Option<usize> {
    if distinct(matches) {
        matches[i]
    } else {
        None
    }
}

/// Cell `c` of the phasor block of source `i`.
pub open spec fn block_cell<T>(x: Seq<T>, i: int, c: int) -> T {
    x[BLOCK * i + c]
}

proof fn picked_are_valid(freqs: Seq<Real32>, between: Seq<Vec<Real32>>, k: int)
    requires
        0 <= k <= freqs.len(),
    ensures
        picked(freqs, between, k).len() <= MAX_SOURCES,
        forall|q: int|
            0 <= q < picked(freqs, between, k).len() ==> (#[trigger] picked(freqs, between, k)[q]) < k,
    decreases k,
{
    if k > 0 {
        picked_are_valid(freqs, between, k - 1);
    }
}

/// The seeds among the offered frequencies.
pub fn pick_seeds(freqs: &Vec<Real32>, between: &Vec<Vec<Real32>>) -> (seeds: Vec<usize>)
    requires
        between.len() == freqs.len(),
        forall|i: int| 0 <= i < freqs.len() ==> (#[trigger] between[i]).len() == freqs.len(),
    ensures
        seeds@ == picked(freqs@, between@, freqs.len() as int),
        seeds.len() <= MAX_SOURCES,
        forall|q: int| 0 <= q < seeds.len() ==> (#[trigger] seeds[q]) < freqs.len(),
{
    let mut seeds: Vec<usize> = Vec::new();
    let mut k: usize = 0;
    while k < freqs.len()
        invariant
            k <= freqs.len() == between.len(),
            forall|i: int| 0 <= i < freqs.len() ==> (#[trigger] between[i]).len() == freqs.len(),
            seeds@ == picked(freqs@, between@, k as int),
        decreases freqs.len() - k,
    {
        proof {
            picked_are_valid(freqs@, between@, k as int);
        }
        let mut far: bool = true;
        let mut q: usize = 0;
        while q < seeds.len()
            invariant
                q <= seeds.len(),
                k < freqs.len() == between.len(),
                forall|i: int| 0 <= i < freqs.len() ==> (#[trigger] between[i]).len() == freqs.len(),
                forall|j: int| 0 <= j < seeds.len() ==> (#[trigger] seeds[j]) < k,
                far == (forall|j: int|
                    0 <= j < q ==> (Real32 { bits: APART_CENTS }).below(between[k as int][(#[trigger] seeds[j]) as int].unsigned())),
            decreases seeds.len() - q,
        {
            let d: Real32 = between[k][seeds[q]].abs();
            far = far && Real32::from_bits(APART_CENTS).less(&d);
            q = q + 1;
        }
        if seeds.len() < MAX_SOURCES && Real32::from_bits(ZERO).less(&freqs[k]) && far {
            seeds.push(k);
        }
        k = k + 1;
    }
    proof {
        picked_are_valid(freqs@, between@, freqs.len() as int);
    }
    seeds
}

/// The first source within `MATCH_CENTS`, if there is one.
pub fn match_source(row: &Vec<Real32>) -> (m: Option<usize>)
    ensures
        m == first_match(row@, 0),
        m is Some ==> m->0 < row.len(),
{
    let mut j: usize = 0;
    while j < row.len()
        invariant
            j <= row.len(),
            first_match(row@, 0) == first_match(row@, j as int),
        decreases row.len() - j,
    {
        if row[j].abs().less(&Real32::from_bits(MATCH_CENTS)) {
            return Some(j);
        }
        j = j + 1;
    }
    None
}

/// Whether no source is continued by two seeds.
fn all_distinct(matches: &Vec<Option<usize>>) -> (r: bool)
    ensures
        r == distinct(matches@),
{
    let mut a: usize = 0;
    while a < matches.len()
        invariant
            a <= matches.len(),
            forall|i: int, j: int|
                0 <= i < j < matches.len() && i < a && (#[trigger] matches[i]) is Some ==> matches[i] != (
                #[trigger] matches[j]),
        decreases matches.len() - a,
    {
        if let Some(ma) = matches[a] {
            let mut b: usize = a + 1;
            while b < matches.len()
                invariant
                    a < b <= matches.len(),
                    matches[a as int] == Some(ma),
                    forall|j: int| a < j < b ==> (#[trigger] matches[j]) != Some(ma),
                decreases matches.len() - b,
            {
                if let Some(mb) = matches[b] {
                    if ma == mb {
                        return false;
                    }
                }
                b = b + 1;
            }
        }
        a = a + 1;
    }
    true
}

/// `n` copies of `v`.
fn filled<V: Copy>(n: usize, v: V) -> (r: Vec<V>)
    ensures
        r@ == Seq::new(n as nat, |k: int| v),
{
    let mut r: Vec<V> = Vec::with_capacity(n);
    let mut k: usize = 0;
    while k < n
        invariant
            k <= n,
            r@ == Seq::new(k as nat, |j: int| v),
        decreases n - k,
    {
        r.push(v);
        k = k + 1;
        assert(r@ =~= Seq::new(k as nat, |j: int| v));
    }
    r
}

/// A covariance of `n` rows with `init_var` on its diagonal.
fn initial_covariance<V: Copy>(n: usize, zero: V, init_var: V) -> (p: Vec<Vec<V>>)
    ensures
        is_initial(p@, n as int, zero, init_var),
{
    let mut p: Vec<Vec<V>> = Vec::new();
    let mut row: usize = 0;
    while row < n
        invariant
            row <= n,
            p.len() == row,
            forall|i: int| 0 <= i < row ==> (#[trigger] p[i]).len() == n,
            forall|i: int, j: int|
                0 <= i < row && 0 <= j < n ==> #[trigger] p[i][j] == if i == j {
                    init_var
                } else {
                    zero
                },
        decreases n - row,
    {
        let mut line: Vec<V> = filled(n, zero);
        line.set(row, init_var);
        let ghost before = p@;
        p.push(line);
        assert forall|i: int, j: int| 0 <= i < row + 1 && 0 <= j < n implies #[trigger] p[i][j] == if i == j {
            init_var
        } else {
            zero
        } by {
            if i < row {
                assert(p[i] == before[i]);
                assert(before[i][j] == p[i][j]);
            }
        }
        row = row + 1;
    }
    p
}

impl<T: Copy> Separator<T> {
    /// A bank that follows nothing. `zero`, `one` and `init_var` are the
    /// caller's numbers for zero, one and the initial variance.
    pub fn new(zero: T, one: T, init_var: T) -> (r: Self)
        ensures
            r.well_formed(),
            r.sources.len() == 0,
            r.res2 == zero,
            r.zero == zero,
            r.one == one,
            r.init_var == init_var,
            r.sub_fill == 0,
    {
        Separator {
            sources: Vec::new(),
            x: Vec::new(),
            p: Vec::new(),
            rot: Vec::new(),
            theta: Vec::new(),
            ref_phase: Vec::new(),
            sub_fill: 0,
            hp: Vec::new(),
            res2: zero,
            zero,
            one,
            init_var,
        }
    }

    /// Stops following anything.
    pub fn clear(&mut self)
        ensures
            final(self).well_formed(),
            final(self).sources.len() == 0,
            final(self).sub_fill == 0,
            final(self).res2 == old(self).zero,
            final(self).same_constants(old(self)),
    {
        self.sources.clear();
        self.x.clear();
        self.p.clear();
        self.rot.clear();
        self.theta.clear();
        self.ref_phase.clear();
        self.hp.clear();
        self.sub_fill = 0;
        self.res2 = self.zero;
    }

    /// Counts one processed sample. True at the end of a sub-block, when the
    /// frequency servo runs.
    pub fn advance(&mut self) -> (boundary: bool)
        requires
            old(self).well_formed(),
        ensures
            final(self).well_formed(),
            boundary == (old(self).sub_fill + 1 == SUB),
            final(self).sub_fill == (old(self).sub_fill + 1) % SUB as int,
            final(self).sources@ == old(self).sources@,
            final(self).x@ == old(self).x@,
            final(self).p@ == old(self).p@,
            final(self).rot@ == old(self).rot@,
            final(self).theta@ == old(self).theta@,
            final(self).ref_phase@ == old(self).ref_phase@,
            final(self).hp@ == old(self).hp@,
            final(self).res2 == old(self).res2,
            final(self).same_constants(old(self)),
    {
        if self.sub_fill + 1 >= SUB {
            self.sub_fill = 0;
            true
        } else {
            self.sub_fill = self.sub_fill + 1;
            false
        }
    }

    /// Seed (or re-seed) the source set from frequencies, the distances in cents
    /// between them (`between`) and from each to the tracked sources
    /// (`to_source`). A seed within `MATCH_CENTS` of a source already being
    /// tracked continues that source: its phasor state and refined frequency
    /// survive, so per-frame detector jitter never resets the filter.
    ///
    /// True if the bank was rebuilt: rotations and reference phases then have to
    /// be computed for the new sources.
    pub fn reseed(
        &mut self,
        freqs: &Vec<Real32>,
        between: &Vec<Vec<Real32>>,
        to_source: &Vec<Vec<Real32>>,
    ) -> (rebuilt: bool)
        requires
            old(self).well_formed(),
            between.len() == freqs.len(),
            forall|i: int| 0 <= i < freqs.len() ==> (#[trigger] between[i]).len() == freqs.len(),
            to_source.len() == freqs.len(),
            forall|i: int| 0 <= i < freqs.len() ==> (#[trigger] to_source[i]).len() == old(self).sources.len(),
        ensures
            final(self).well_formed(),
            reseeded(freqs@, between@, to_source@, *old(self), *final(self), rebuilt),
    {
        let seeds: Vec<usize> = pick_seeds(freqs, between);
        let ghost ms = matches_of(seeds@, to_source@);
        let mut matches: Vec<Option<usize>> = Vec::new();
        let mut all_matched: bool = true;
        let mut i: usize = 0;
        while i < seeds.len()
            invariant
                i <= seeds.len(),
                seeds.len() <= MAX_SOURCES,
                forall|q: int| 0 <= q < seeds.len() ==> (#[trigger] seeds[q]) < freqs.len(),
                to_source.len() == freqs.len(),
                forall|k: int| 0 <= k < freqs.len() ==> (#[trigger] to_source[k]).len() == self.sources.len(),
                ms == matches_of(seeds@, to_source@),
                matches@ == ms.take(i as int),
                forall|k: int|
                    0 <= k < matches.len() && (#[trigger] matches[k]) is Some ==> matches[k]->0 < self.sources.len(),
                all_matched == (forall|k: int| 0 <= k < i ==> (#[trigger] matches[k]) is Some),
            decreases seeds.len() - i,
        {
            let m: Option<usize> = match_source(&to_source[seeds[i]]);
            all_matched = all_matched && m.is_some();
            let ghost had = matches@;
            matches.push(m);
            proof {
                assert(matches@ =~= ms.take(i + 1));
                assert(forall|k: int| 0 <= k < i ==> matches[k] == had[k]);
                assert(matches[i as int] == m);
            }
            i = i + 1;
        }
        assert(matches@ =~= ms);
        let distinct_matches: bool = all_distinct(&matches);
        if all_matched && distinct_matches && self.sources.len() == seeds.len() {
            self.keep(freqs, &seeds, &matches);
            return false;
        }
        // Topology changed: rebuild, carrying the phasor block of every
        // matched source; cross-covariances restart from scratch.
        self.rebuild(freqs, &seeds, &matches, distinct_matches);
        true
    }

    /// Updates the seeds of the tracked sources.
    fn keep(&mut self, freqs: &Vec<Real32>, seeds: &Vec<usize>, matches: &Vec<Option<usize>>)
        requires
            old(self).well_formed(),
            seeds.len() == matches.len(),
            same_topology(matches@, old(self).sources.len() as nat),
            forall|q: int| 0 <= q < seeds.len() ==> (#[trigger] seeds[q]) < freqs.len(),
            forall|k: int| 0 <= k < matches.len() ==> (#[trigger] matches[k])->0 < old(self).sources.len(),
        ensures
            final(self).well_formed(),
            final(self).same_filter(old(self)),
            final(self).sources.len() == old(self).sources.len(),
            forall|j: int|
                0 <= j < old(self).sources.len() ==> (#[trigger] final(self).sources[j]).freq
                    == old(self).sources[j].freq,
            forall|i: int|
                0 <= i < seeds.len() ==> final(self).sources[(#[trigger] matches[i])->0 as int].seed
                    == freqs[seeds[i] as int],
    {
        let ghost before = *self;
        let mut i: usize = 0;
        while i < matches.len()
            invariant
                i <= matches.len() == seeds.len(),
                same_topology(matches@, before.sources.len() as nat),
                forall|q: int| 0 <= q < seeds.len() ==> (#[trigger] seeds[q]) < freqs.len(),
                forall|k: int| 0 <= k < matches.len() ==> (#[trigger] matches[k])->0 < before.sources.len(),
                self.same_filter(&before),
                self.sources.len() == before.sources.len(),
                forall|j: int|
                    0 <= j < before.sources.len() ==> (#[trigger] self.sources[j]).freq == before.sources[j].freq,
                forall|k: int|
                    0 <= k < i ==> self.sources[(#[trigger] matches[k])->0 as int].seed == freqs[seeds[k] as int],
            decreases matches.len() - i,
        {
            if let Some(j) = matches[i] {
                let freq: Real32 = self.sources[j].freq;
                let ghost had = self.sources@;
                self.sources.set(j, Source { seed: freqs[seeds[i]], freq });
                proof {
                    assert forall|k: int| 0 <= k < i + 1 implies self.sources[(#[trigger] matches[k])->0 as int].seed
                        == freqs[seeds[k] as int] by {
                        if k < i {
                            assert(matches[k] is Some && matches[k] != matches[i as int]);
                            assert(matches[k]->0 != j);
                        }
                    }
                }
            }
            i = i + 1;
        }
    }

    /// Rebuilds the bank for the seeds.
    fn rebuild(&mut self, freqs: &Vec<Real32>, seeds: &Vec<usize>, matches: &Vec<Option<usize>>, carry: bool)
        requires
            old(self).well_formed(),
            seeds.len() == matches.len(),
            seeds.len() <= MAX_SOURCES,
            carry == distinct(matches@),
            forall|q: int| 0 <= q < seeds.len() ==> (#[trigger] seeds[q]) < freqs.len(),
            forall|k: int|
                0 <= k < matches.len() && (#[trigger] matches[k]) is Some ==> matches[k]->0 < old(self).sources.len(),
        ensures
            final(self).well_formed(),
            final(self).rebuilt_from(old(self), freqs@, seeds@, matches@),
    {
        let ghost before = *self;
        let mut sources: Vec<Source> = Vec::new();
        let mut x: Vec<T> = Vec::new();
        let mut i: usize = 0;
        while i < seeds.len()
            invariant
                i <= seeds.len() == matches.len(),
                seeds.len() <= MAX_SOURCES,
                carry == distinct(matches@),
                forall|q: int| 0 <= q < seeds.len() ==> (#[trigger] seeds[q]) < freqs.len(),
                forall|k: int|
                    0 <= k < matches.len() && (#[trigger] matches[k]) is Some ==> matches[k]->0 < before.sources.len(),
                *self == before,
                before.well_formed(),
                sources.len() == i,
                x.len() == BLOCK * i,
                forall|k: int|
                    0 <= k < i ==> {
                        let f = freqs[seeds[k] as int];
                        &&& (#[trigger] sources[k]).seed == f
                        &&& sources[k].freq == match carried(matches@, k) {
                            Some(j) => before.sources[j as int].freq,
                            None => f,
                        }
                    },
                forall|k: int, c: int|
                    0 <= k < i && 0 <= c < BLOCK ==> #[trigger] block_cell(x@, k, c) == match carried(matches@, k) {
                        Some(j) => block_cell(before.x@, j as int, c),
                        None => before.zero,
                    },
            decreases seeds.len() - i,
        {
            let f: Real32 = freqs[seeds[i]];
            let from: Option<usize> = if carry { matches[i] } else { None };
            let freq: Real32 = match from {
                Some(j) => self.sources[j].freq,
                None => f,
            };
            let ghost had_x = x@;
            sources.push(Source { seed: f, freq });
            let mut c: usize = 0;
            while c < BLOCK
                invariant
                    c <= BLOCK,
                    i < seeds.len() <= MAX_SOURCES,
                    *self == before,
                    before.well_formed(),
                    from is Some ==> from->0 < before.sources.len(),
                    x.len() == BLOCK * i + c,
                    had_x.len() == BLOCK * i,
                    forall|k: int| 0 <= k < BLOCK * i ==> #[trigger] x[k] == had_x[k],
                    forall|d: int|
                        0 <= d < c ==> #[trigger] block_cell(x@, i as int, d) == match from {
                            Some(j) => block_cell(before.x@, j as int, d),
                            None => before.zero,
                        },
                decreases BLOCK - c,
            {
                let cell: T = match from {
                    Some(j) => self.x[BLOCK * j + c],
                    None => self.zero,
                };
                let ghost had = x@;
                x.push(cell);
                proof {
                    assert forall|d: int| 0 <= d < c + 1 implies #[trigger] block_cell(x@, i as int, d) == match from {
                        Some(j) => block_cell(before.x@, j as int, d),
                        None => before.zero,
                    } by {
                        if d < c {
                            assert(block_cell(x@, i as int, d) == block_cell(had, i as int, d));
                        }
                    }
                }
                c = c + 1;
            }
            proof {
                assert forall|k: int, d: int| 0 <= k < i + 1 && 0 <= d < BLOCK implies #[trigger] block_cell(x@, k, d)
                    == match carried(matches@, k) {
                    Some(j) => block_cell(before.x@, j as int, d),
                    None => before.zero,
                } by {
                    if k < i {
                        assert(block_cell(x@, k, d) == block_cell(had_x, k, d));
                    }
                }
            }
            i = i + 1;
        }
        let n: usize = x.len();
        let oscillators: usize = HARMONICS * seeds.len();
        self.sources = sources;
        self.x = x;
        self.p = initial_covariance(n, self.zero, self.init_var);
        self.hp = filled(n, self.zero);
        self.rot = filled(oscillators, (self.one, self.zero));
        self.theta = filled(oscillators, self.zero);
        self.ref_phase = filled(oscillators, self.zero);
        self.sub_fill = 0;
    }
}

/// The level `best` is a largest among the first `k` levels, those that are not
/// numbers left out; minus infinity where no number is among them.
pub open spec fn is_strongest(tracks: Seq<Track>, best: Real32, k: int) -> bool {
    &&& !best.nan()
    &&& best == (Real32 { bits: NEG_INFINITY }) || exists|i: int| 0 <= i < k && best == (#[trigger] tracks[i]).db
    &&& forall|i: int| 0 <= i < k && !(#[trigger] tracks[i]).db.nan() ==> tracks[i].db.at_most(best)
}

/// The level of the strongest track.
pub fn strongest_db(tracks: &Vec<Track>) -> (best: Real32)
    ensures
        is_strongest(tracks@, best, tracks.len() as int),
{
    let mut best: Real32 = Real32::from_bits(NEG_INFINITY);
    let mut i: usize = 0;
    while i < tracks.len()
        invariant
            i <= tracks.len(),
            is_strongest(tracks@, best, i as int),
        decreases tracks.len() - i,
    {
        if best.less(&tracks[i].db) {
            best = tracks[i].db;
        }
        i = i + 1;
    }
    best
}

/// How a track lies to the primary and to the other tracks, in cents.
pub struct Overtones {
    /// Its distance from each of the first harmonics of the primary.
    pub of_primary: Vec<Real32>,
    /// Nine tenths of its frequency: an octave below lies under it.
    pub ceiling: Real32,
    /// Its distance from the octave above each track.
    pub of_track: Vec<Real32>,
}

/// The measurements cover all tracks.
pub open spec fn measured(tracks: Seq<Track>, overtones: Seq<Overtones>) -> bool {
    &&& overtones.len() == tracks.len()
    &&& forall|i: int| 0 <= i < tracks.len() ==> (#[trigger] overtones[i]).of_primary.len() == PRIMARY_HARMONICS
    &&& forall|i: int| 0 <= i < tracks.len() ==> (#[trigger] overtones[i]).of_track.len() == tracks.len()
}

/// The track is aged, in range, loud enough, and no harmonic of the primary.
pub open spec fn qualifies(track: Track, overtones: Overtones, range: (Real32, Real32), floor: Real32) -> bool {
    &&& track.age >= MIN_AGE
    &&& range.0.at_most(track.freq)
    &&& track.freq.at_most(range.1)
    &&& floor.below(track.db)
    &&& forall|k: int|
        0 <= k < PRIMARY_HARMONICS ==> (Real32 { bits: REJECT_CENTS }).below((#[trigger] overtones.of_primary[k]).unsigned())
}

/// Track `i` looks like the second harmonic of the qualifying track `j`.
pub open spec fn is_octave_of(
    tracks: Seq<Track>,
    overtones: Seq<Overtones>,
    range: (Real32, Real32),
    floor: Real32,
    i: int,
    j: int,
) -> bool {
    &&& qualifies(tracks[j], overtones[j], range, floor)
    &&& tracks[j].freq.below(overtones[i].ceiling)
    &&& overtones[i].of_track[j].unsigned().below(Real32 { bits: REJECT_CENTS })
}

/// Track `i` may be a second string: it qualifies, and is the octave partial of
/// no lower qualifying track.
pub open spec fn is_candidate(
    tracks: Seq<Track>,
    overtones: Seq<Overtones>,
    range: (Real32, Real32),
    floor: Real32,
    i: int,
) -> bool {
    &&& qualifies(tracks[i], overtones[i], range, floor)
    &&& forall|j: int| 0 <= j < tracks.len() ==> !#[trigger] is_octave_of(tracks, overtones, range, floor, i, j)
}

/// Track `i` is the strongest candidate among the first `n` tracks, the last one
/// where several are equally strong.
pub open spec fn is_second(
    tracks: Seq<Track>,
    overtones: Seq<Overtones>,
    range: (Real32, Real32),
    floor: Real32,
    i: int,
    n: int,
) -> bool {
    &&& 0 <= i < n
    &&& is_candidate(tracks, overtones, range, floor, i)
    &&& forall|j: int|
        0 <= j < n && #[trigger] is_candidate(tracks, overtones, range, floor, j) ==> {
            &&& tracks[j].db.total_rank() <= tracks[i].db.total_rank()
            &&& j > i ==> tracks[j].db.total_rank() < tracks[i].db.total_rank()
        }
}

/// Whether a track qualifies.
fn qualifying(track: &Track, overtones: &Overtones, range: (Real32, Real32), floor: &Real32) -> (r: bool)
    requires
        overtones.of_primary.len() == PRIMARY_HARMONICS,
    ensures
        r == qualifies(*track, *overtones, range, *floor),
{
    if track.age < MIN_AGE || !range.0.less_or_equal(&track.freq) || !track.freq.less_or_equal(&range.1) || !floor.less(
        &track.db,
    ) {
        return false;
    }
    let mut k: usize = 0;
    while k < PRIMARY_HARMONICS
        invariant
            k <= PRIMARY_HARMONICS == overtones.of_primary.len(),
            forall|q: int|
                0 <= q < k ==> (Real32 { bits: REJECT_CENTS }).below((#[trigger] overtones.of_primary[q]).unsigned()),
        decreases PRIMARY_HARMONICS - k,
    {
        if !Real32::from_bits(REJECT_CENTS).less(&overtones.of_primary[k].abs()) {
            assert(!(Real32 { bits: REJECT_CENTS }).below(overtones.of_primary[k as int].unsigned()));
            return false;
        }
        k = k + 1;
    }
    true
}

/// Whether track `i` is a candidate.
fn candidate(
    tracks: &Vec<Track>,
    overtones: &Vec<Overtones>,
    range: (Real32, Real32),
    floor: &Real32,
    i: usize,
) -> (r: bool)
    requires
        measured(tracks@, overtones@),
        i < tracks.len(),
    ensures
        r == is_candidate(tracks@, overtones@, range, *floor, i as int),
{
    if !qualifying(&tracks[i], &overtones[i], range, floor) {
        return false;
    }
    let mut j: usize = 0;
    while j < tracks.len()
        invariant
            j <= tracks.len(),
            i < tracks.len(),
            measured(tracks@, overtones@),
            forall|q: int| 0 <= q < j ==> !#[trigger] is_octave_of(tracks@, overtones@, range, *floor, i as int, q),
        decreases tracks.len() - j,
    {
        if tracks[j].freq.less(&overtones[i].ceiling) && overtones[i].of_track[j].abs().less(
            &Real32::from_bits(REJECT_CENTS),
        ) && qualifying(&tracks[j], &overtones[j], range, floor) {
            assert(is_octave_of(tracks@, overtones@, range, *floor, i as int, j as int));
            return false;
        }
        j = j + 1;
    }
    true
}

/// `second` is the frequency of the second string, if there is one.
pub open spec fn is_choice(
    tracks: Seq<Track>,
    overtones: Seq<Overtones>,
    range: (Real32, Real32),
    floor: Real32,
    second: Option<Real32>,
) -> bool {
    match second {
        Some(freq) => exists|i: int| #[trigger]
            is_second(tracks, overtones, range, floor, i, tracks.len() as int) && freq == tracks[i].freq,
        None => forall|i: int| 0 <= i < tracks.len() ==> !#[trigger] is_candidate(tracks, overtones, range, floor, i),
    }
}

/// Choose a second fundamental from the tracked spectral peaks, given how they lie to
/// the primary and to each other. `floor` is the level that a track must exceed.
pub fn choose_second(
    tracks: &Vec<Track>,
    overtones: &Vec<Overtones>,
    range: (Real32, Real32),
    floor: Real32,
) -> (second: Option<Real32>)
    requires
        measured(tracks@, overtones@),
    ensures
        is_choice(tracks@, overtones@, range, floor, second),
{
    let mut best: Option<usize> = None;
    let mut i: usize = 0;
    while i < tracks.len()
        invariant
            i <= tracks.len(),
            measured(tracks@, overtones@),
            match best {
                Some(b) => is_second(tracks@, overtones@, range, floor, b as int, i as int),
                None => forall|j: int| 0 <= j < i ==> !#[trigger] is_candidate(tracks@, overtones@, range, floor, j),
            },
        decreases tracks.len() - i,
    {
        if candidate(tracks, overtones, range, &floor, i) {
            let replace: bool = match best {
                Some(b) => tracks[b].db.order_rank() <= tracks[i].db.order_rank(),
                None => true,
            };
            if replace {
                best = Some(i);
            }
        }
        i = i + 1;
    }
    match best {
        Some(b) => {
            assert(is_second(tracks@, overtones@, range, floor, b as int, tracks.len() as int));
            Some(tracks[b].freq)
        },
        None => None,
    }
}

/// Every second string is aged and clear of the primary's harmonics.
pub proof fn second_is_no_harmonic(
    tracks: Seq<Track>,
    overtones: Seq<Overtones>,
    range: (Real32, Real32),
    floor: Real32,
    i: int,
    k: int,
)
    requires
        is_second(tracks, overtones, range, floor, i, tracks.len() as int),
        0 <= k < PRIMARY_HARMONICS,
    ensures
        tracks[i].age >= MIN_AGE,
        !overtones[i].of_primary[k].unsigned().at_most(Real32 { bits: REJECT_CENTS }),
{
    assert((Real32 { bits: REJECT_CENTS }).below(overtones[i].of_primary[k].unsigned()));
}

/// The second string is unique: two tracks that are both it are one.
pub proof fn second_is_unique(
    tracks: Seq<Track>,
    overtones: Seq<Overtones>,
    range: (Real32, Real32),
    floor: Real32,
    i: int,
    j: int,
)
    requires
        is_second(tracks, overtones, range, floor, i, tracks.len() as int),
        is_second(tracks, overtones, range, floor, j, tracks.len() as int),
    ensures
        i == j,
{
}

/// Seeds are above zero, in the order offered, and pairwise more than
/// `APART_CENTS` apart.
pub proof fn seeds_are_apart(freqs: Seq<Real32>, between: Seq<Vec<Real32>>, k: int, a: int, b: int)
    requires
        0 <= k <= freqs.len() <= usize::MAX,
        0 <= a < b < picked(freqs, between, k).len(),
    ensures
        picked(freqs, between, k)[a] < picked(freqs, between, k)[b] < k,
        (Real32 { bits: ZERO }).below(freqs[picked(freqs, between, k)[a] as int]),
        (Real32 { bits: ZERO }).below(freqs[picked(freqs, between, k)[b] as int]),
        (Real32 { bits: APART_CENTS }).below(
            between[picked(freqs, between, k)[b] as int][picked(freqs, between, k)[a] as int].unsigned(),
        ),
    decreases k,
{
    picked_are_valid(freqs, between, k);
    picked_are_valid(freqs, between, k - 1);
    let prev = picked(freqs, between, k - 1);
    if b < prev.len() {
        seeds_are_apart(freqs, between, k - 1, a, b);
    } else {
        assert(b == prev.len());
        picked_are_positive(freqs, between, k - 1, a);
        assert((Real32 { bits: APART_CENTS }).below(between[k - 1][prev[a] as int].unsigned()));
    }
}

proof fn picked_are_positive(freqs: Seq<Real32>, between: Seq<Vec<Real32>>, k: int, a: int)
    requires
        0 <= k <= freqs.len() <= usize::MAX,
        0 <= a < picked(freqs, between, k).len(),
    ensures
        (Real32 { bits: ZERO }).below(freqs[picked(freqs, between, k)[a] as int]),
    decreases k,
{
    if a < picked(freqs, between, k - 1).len() {
        picked_are_positive(freqs, between, k - 1, a);
    }
}

/// The first frequency above zero is always the first seed.
pub proof fn first_positive_is_seeded(freqs: Seq<Real32>, between: Seq<Vec<Real32>>, first: int, k: int)
    requires
        0 <= first < k <= freqs.len() <= usize::MAX,
        (Real32 { bits: ZERO }).below(freqs[first]),
        forall|i: int| 0 <= i < first ==> !(Real32 { bits: ZERO }).below(#[trigger] freqs[i]),
    ensures
        picked(freqs, between, k).len() > 0,
        picked(freqs, between, k)[0] == first,
    decreases k,
{
    if k == first + 1 {
        none_before_the_first(freqs, between, first);
    } else {
        first_positive_is_seeded(freqs, between, first, k - 1);
    }
}

proof fn none_before_the_first(freqs: Seq<Real32>, between: Seq<Vec<Real32>>, k: int)
    requires
        0 <= k <= freqs.len(),
        forall|i: int| 0 <= i < k ==> !(Real32 { bits: ZERO }).below(#[trigger] freqs[i]),
    ensures
        picked(freqs, between, k).len() == 0,
    decreases k,
{
    if k > 0 {
        none_before_the_first(freqs, between, k - 1);
    }
}

} // verus!
