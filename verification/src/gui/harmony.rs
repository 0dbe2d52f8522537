//! The harmony on display: pitch classes, chord and key.
//!
//! While something sounds the classes glide towards those of the frame, the chord is
//! looked for and the key gathers evidence. In silence the classes fade, there is no
//! chord, and the key stays as it was.

use vstd::prelude::*;

use crate::dsp::chroma::{detect_chord, is_chord_of, Chord, KeyEstimator, CLASSES};
use crate::ieee::Real32;

verus! {

/// What is on display of the harmony.
pub struct Harmony {
    /// Levels of the pitch classes, smoothed.
    pub classes: Vec<Real32>,
    /// The chord that sounds.
    pub chord: Option<Chord>,
    /// The evidence for a key.
    pub keys: KeyEstimator<Real32>,
    /// The key.
    pub key: Option<String>,
}

/// Every class is blended with that of the frame.
pub open spec fn blended<B: Fn(Real32, Real32) -> Real32>(
    blend: B,
    classes: Seq<Real32>,
    fresh: Seq<Real32>,
    next: Seq<Real32>,
) -> bool {
    &&& next.len() == classes.len()
    &&& forall|i: int| 0 <= i < classes.len() ==> call_ensures(blend, (classes[i], fresh[i]), #[trigger] next[i])
}

/// Every class is faded.
pub open spec fn faded<F: Fn(Real32) -> Real32>(fade: F, classes: Seq<Real32>, next: Seq<Real32>) -> bool {
    &&& next.len() == classes.len()
    &&& forall|i: int| 0 <= i < classes.len() ==> call_ensures(fade, (classes[i],), #[trigger] next[i])
}

fn glide<B: Fn(Real32, Real32) -> Real32>(blend: &B, classes: &Vec<Real32>, fresh: &Vec<Real32>) -> (next: Vec<Real32>)
    requires
        fresh.len() == classes.len(),
        forall|a: Real32, b: Real32| call_requires(*blend, (a, b)),
    ensures
        blended(*blend, classes@, fresh@, next@),
{
    let mut next: Vec<Real32> = Vec::new();
    let mut i: usize = 0;
    while i < classes.len()
        invariant
            i <= classes.len() == fresh.len(),
            next.len() == i,
            forall|a: Real32, b: Real32| call_requires(*blend, (a, b)),
            forall|k: int| 0 <= k < i ==> call_ensures(*blend, (classes[k], fresh[k]), #[trigger] next[k]),
        decreases classes.len() - i,
    {
        let c: Real32 = blend(classes[i], fresh[i]);
        next.push(c);
        i = i + 1;
    }
    next
}

fn dim<F: Fn(Real32) -> Real32>(fade: &F, classes: &Vec<Real32>) -> (next: Vec<Real32>)
    requires
        forall|a: Real32| call_requires(*fade, (a,)),
    ensures
        faded(*fade, classes@, next@),
{
    let mut next: Vec<Real32> = Vec::new();
    let mut i: usize = 0;
    while i < classes.len()
        invariant
            i <= classes.len(),
            next.len() == i,
            forall|a: Real32| call_requires(*fade, (a,)),
            forall|k: int| 0 <= k < i ==> call_ensures(*fade, (classes[k],), #[trigger] next[k]),
        decreases classes.len() - i,
    {
        let c: Real32 = fade(classes[i]);
        next.push(c);
        i = i + 1;
    }
    next
}

impl Harmony {
    /// Every class has a level and an average.
    pub open spec fn well_formed(&self) -> bool {
        self.classes.len() == CLASSES && self.keys.well_formed()
    }

    /// Nothing has been heard; all levels and averages are `zero`.
    pub fn new(zero: Real32) -> (r: Self)
        ensures
            r.well_formed(),
            r.classes@ == Seq::new(CLASSES as nat, |i: int| zero),
            r.chord is None,
            r.keys.avg@ == Seq::new(CLASSES as nat, |i: int| zero),
            r.keys.frames == 0,
            r.key is None,
    {
        let keys: KeyEstimator<Real32> = KeyEstimator::new(zero);
        let same: KeyEstimator<Real32> = KeyEstimator::new(zero);
        Harmony { classes: same.avg, chord: None, keys, key: None }
    }

    /// Takes in the classes `fresh` of a frame that is audible or not. `blend` smooths a
    /// class and `fade` dims it; the others are those of the search for a chord and of
    /// the estimate of the key.
    pub fn listen<
        B: Fn(Real32, Real32) -> Real32,
        F: Fn(Real32) -> Real32,
        N: Fn(Vec<Real32>) -> Real32,
        D: Fn(Real32, Real32, bool) -> Real32,
        S: Fn(Real32, Real32) -> Real32,
        M: Fn(Real32, Real32) -> Real32,
        A: Fn(Real32, Real32) -> Real32,
        E: Fn(Vec<Real32>) -> Real32,
        C: Fn(Vec<Real32>, Real32, bool) -> Real32,
    >(
        &mut self,
        audible: bool,
        fresh: &Vec<Real32>,
        blend: B,
        fade: F,
        norm: N,
        dot: D,
        score: S,
        minus: M,
        smooth: A,
        mean: E,
        correlate: C,
    )
        requires
            old(self).well_formed(),
            audible ==> fresh.len() == CLASSES && old(self).keys.frames < u32::MAX,
            forall|a: Real32, b: Real32| call_requires(blend, (a, b)),
            forall|a: Real32| call_requires(fade, (a,)),
            forall|v: Vec<Real32>| call_requires(norm, (v,)),
            forall|a: Real32, c: Real32, b: bool| call_requires(dot, (a, c, b)),
            forall|a: Real32, b: Real32| call_requires(score, (a, b)),
            forall|a: Real32, b: Real32| call_requires(minus, (a, b)),
            forall|a: Real32, b: Real32| call_requires(smooth, (a, b)),
            forall|v: Vec<Real32>| call_requires(mean, (v,)),
            forall|v: Vec<Real32>, m: Real32, minor: bool| call_requires(correlate, (v, m, minor)),
        ensures
            final(self).well_formed(),
            audible ==> {
                &&& blended(blend, old(self).classes@, fresh@, final(self).classes@)
                &&& is_chord_of(norm, dot, score, minus, final(self).classes@, final(self).chord)
                &&& old(self).keys.updated(smooth, fresh@, final(self).keys)
                &&& final(self).keys.is_key(mean, correlate, final(self).key)
            },
            !audible ==> {
                &&& faded(fade, old(self).classes@, final(self).classes@)
                &&& final(self).chord is None
                &&& final(self).keys == old(self).keys
                &&& final(self).key == old(self).key
            },
    {
        if audible {
            self.classes = glide(&blend, &self.classes, fresh);
            self.chord = detect_chord(&self.classes, norm, dot, score, minus);
            self.keys.update(fresh, smooth);
            self.key = self.keys.estimate(mean, correlate);
        } else {
            self.classes = dim(&fade, &self.classes);
            self.chord = None;
        }
    }
}

} // verus!
