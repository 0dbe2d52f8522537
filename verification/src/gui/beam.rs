//! Combining phones with the local microphone: one alignment servo to each
//! phone, a coherent beam of the phones that are locked, and the tails of those
//! that are not.

use std::collections::HashMap;

use vstd::prelude::*;

use crate::audio::RING_LEN;
use crate::dsp::align::{confident, Correction, Servo, CORR_LEN, MIN_CONFIDENCE, REF_AGE};
use crate::gui::state::RMS_GATE;
use crate::ieee::{Real32, Real64};
use crate::pitch::FFT_LEN;
use crate::ring::section;

verus! {

broadcast use vstd::std_specs::hash::group_hash_axioms;

/// The youngest beam window, in samples before now.
pub const MIN_AGE: usize = 256;

/// Slack behind the slowest phone.
pub const AGE_SLACK: usize = 128;

/// Alignment servo per phone, keyed by its identity.
pub struct ServoBank {
    pub servos: HashMap<u64, Servo>,
}

/// What is to be done with a phone's snapshot.
#[derive(Clone, Copy, Debug, PartialEq, Eq, Structural)]
pub enum Measure {
    /// Too short: the phone misses and takes no part in this frame.
    Skip,
    /// Too quiet to measure: the phone misses.
    Miss,
    /// To be correlated with the local window.
    Search,
}

/// What a correlation showed.
#[derive(Clone, Copy, Debug)]
pub struct Measurement {
    pub confidence: Real32,
    /// The measured offset.
    pub offset: Real64,
    /// What the servo would make of it.
    pub correction: Correction,
}

/// What is to be done with a snapshot of this length, given the levels of the
/// local reference window and of the snapshot's tail.
pub fn measure(snap_len: usize, local_rms: &Real32, tail_rms: &Real32) -> (r: Measure)
    ensures
        r == (if snap_len < CORR_LEN {
            Measure::Skip
        } else if (Real32 { bits: RMS_GATE }).below(*local_rms) && (Real32 { bits: RMS_GATE }).below(*tail_rms) {
            Measure::Search
        } else {
            Measure::Miss
        }),
{
    if snap_len < CORR_LEN {
        Measure::Skip
    } else if Real32::from_bits(RMS_GATE).less(local_rms) && Real32::from_bits(RMS_GATE).less(tail_rms) {
        Measure::Search
    } else {
        Measure::Miss
    }
}

/// A servo after a frame: a confident measurement is taken in, anything else is a
/// miss.
pub open spec fn concluded(s: Servo, now: Real64, found: Option<Measurement>, lowered: Real32) -> Servo {
    match found {
        Some(m) => if (Real32 { bits: MIN_CONFIDENCE }).at_most(m.confidence) {
            s.after(now, m.offset, m.correction)
        } else {
            Servo { quality: lowered, ..s }
        },
        None => Servo { quality: lowered, ..s },
    }
}

impl ServoBank {
    /// All servos are well-formed.
    pub open spec fn well_formed(&self) -> bool {
        forall|id: u64| #[trigger] self.servos@.contains_key(id) ==> self.servos@[id].well_formed()
    }

    /// The servo of a phone; a fresh one for a phone that is new.
    pub open spec fn of(&self, id: u64) -> Servo {
        if self.servos@.contains_key(id) {
            self.servos@[id]
        } else {
            Servo::fresh()
        }
    }

    /// No phones.
    pub fn new() -> (r: Self)
        ensures
            r.well_formed(),
            r.servos@ == Map::<u64, Servo>::empty(),
    {
        ServoBank { servos: HashMap::new() }
    }

    /// Forgets the phones that are no longer connected.
    pub fn retain(&mut self, ids: &Vec<u64>)
        requires
            old(self).well_formed(),
        ensures
            final(self).well_formed(),
            final(self).servos@ == old(self).servos@.restrict(ids@.to_set()),
    {
        let ghost all = self.servos@;
        let mut kept: HashMap<u64, Servo> = HashMap::new();
        let mut i: usize = 0;
        while i < ids.len()
            invariant
                i <= ids.len(),
                forall|id: u64| #[trigger] kept@.contains_key(id) <==> all.contains_key(id) && ids@.take(i as int).contains(id),
                forall|id: u64| #[trigger] kept@.contains_key(id) ==> kept@[id] == all[id],
                self.servos@ == all,
            decreases ids.len() - i,
        {
            let id: u64 = ids[i];
            let ghost before = kept@;
            if let Some(s) = self.servos.get(&id) {
                let found: Option<Servo> = kept.insert(id, *s);
            }
            proof {
                let now = ids@.take(i + 1);
                assert(now =~= ids@.take(i as int).push(id));
                assert forall|k: u64| #[trigger] kept@.contains_key(k) <==> all.contains_key(k) && now.contains(k) by {
                    assert(now.last() == id);
                    if ids@.take(i as int).contains(k) {
                        let j = choose|j: int| 0 <= j < i && ids@.take(i as int)[j] == k;
                        assert(now[j] == k);
                    }
                    if now.contains(k) && k != id {
                        let j = choose|j: int| 0 <= j < i + 1 && now[j] == k;
                        assert(ids@.take(i as int)[j] == k);
                    }
                    assert(before.contains_key(k) <==> all.contains_key(k) && ids@.take(i as int).contains(k));
                }
            }
            i = i + 1;
        }
        self.servos = kept;
        proof {
            assert(ids@.take(i as int) =~= ids@);
            assert(self.servos@ =~= all.restrict(ids@.to_set()));
        }
    }

    /// The servo of a phone.
    pub fn servo(&self, id: u64) -> (s: Servo)
        requires
            self.well_formed(),
        ensures
            s == self.of(id),
            s.well_formed(),
    {
        match self.servos.get(&id) {
            Some(s) => *s,
            None => Servo::new(),
        }
    }

    /// Concludes a frame for a phone with what was measured at time `now`;
    /// `lowered` is the quality that a miss leaves.
    pub fn conclude(&mut self, id: u64, now: Real64, found: &Option<Measurement>, lowered: Real32)
        requires
            old(self).well_formed(),
        ensures
            final(self).well_formed(),
            final(self).servos@ == old(self).servos@.insert(id, concluded(old(self).of(id), now, *found, lowered)),
    {
        let mut s: Servo = self.servo(id);
        match found {
            Some(m) => {
                if confident(&m.confidence) {
                    s.update(now, m.offset, &m.correction);
                } else {
                    s.miss(lowered);
                }
            },
            None => {
                s.miss(lowered);
            },
        }
        let before: Option<Servo> = self.servos.insert(id, s);
    }
}

/// A phone's servo is its own: concluding a frame for one leaves the others
/// alone.
pub proof fn phones_do_not_interfere(bank: Map<u64, Servo>, id: u64, s: Servo, other: u64)
    requires
        other != id,
    ensures
        bank.insert(id, s).contains_key(other) == bank.contains_key(other),
        bank.contains_key(other) ==> bank.insert(id, s)[other] == bank[other],
{
}

/// The local window that phones are measured against, taken `REF_AGE` back so
/// the search range covers their latency.
pub fn reference_window<T: Copy>(window: &Vec<T>) -> (r: Vec<T>)
    requires
        window.len() == RING_LEN,
    ensures
        r@ == window@.subrange(RING_LEN - REF_AGE - CORR_LEN, RING_LEN - REF_AGE),
        r.len() == CORR_LEN,
{
    section(window, RING_LEN - REF_AGE - CORR_LEN, CORR_LEN)
}

/// The newest part of a snapshot, to be measured.
pub fn snapshot_tail<T: Copy>(snap: &Vec<T>) -> (r: Vec<T>)
    requires
        snap.len() >= CORR_LEN,
    ensures
        r@ == snap@.skip(snap.len() - CORR_LEN),
        r.len() == CORR_LEN,
{
    let r: Vec<T> = section(snap, snap.len() - CORR_LEN, CORR_LEN);
    assert(r@ =~= snap@.skip(snap.len() - CORR_LEN));
    r
}

/// How old the beam window is: old enough that every locked phone has already
/// received it, `max_lag` being the lag of the slowest, but inside the queue.
pub fn beam_age(max_lag: usize) -> (age: usize)
    requires
        max_lag <= usize::MAX - AGE_SLACK,
    ensures
        MIN_AGE <= age <= RING_LEN - FFT_LEN,
        max_lag + AGE_SLACK < MIN_AGE ==> age == MIN_AGE,
        max_lag + AGE_SLACK > RING_LEN - FFT_LEN ==> age == RING_LEN - FFT_LEN,
        MIN_AGE <= max_lag + AGE_SLACK <= RING_LEN - FFT_LEN ==> age == max_lag + AGE_SLACK,
{
    let want: usize = max_lag + AGE_SLACK;
    if want < MIN_AGE {
        MIN_AGE
    } else if want > RING_LEN - FFT_LEN {
        RING_LEN - FFT_LEN
    } else {
        want
    }
}

/// The local part of the beam.
pub fn beam_window<T: Copy>(window: &Vec<T>, age: usize) -> (r: Vec<T>)
    requires
        window.len() == RING_LEN,
        age <= RING_LEN - FFT_LEN,
    ensures
        r@ == window@.subrange(RING_LEN - age - FFT_LEN, RING_LEN - age),
        r.len() == FFT_LEN,
{
    section(window, RING_LEN - age - FFT_LEN, FFT_LEN)
}

/// A phone that takes part in a frame.
pub struct PhoneFrame<T> {
    pub snap: Vec<T>,
    /// Its window in step with the beam, where it could be aligned.
    pub window: Option<Vec<T>>,
}

/// The windows of the phones that could be aligned, in order.
pub open spec fn aligned_of<T>(frames: Seq<PhoneFrame<T>>) -> Seq<Seq<T>>
    decreases frames.len(),
{
    if frames.len() == 0 {
        Seq::empty()
    } else {
        let before = aligned_of(frames.drop_last());
        match frames.last().window {
            Some(w) => before.push(w@),
            None => before,
        }
    }
}

/// The tails of the phones that could not be aligned, in order.
pub open spec fn extras_of<T>(frames: Seq<PhoneFrame<T>>) -> Seq<Seq<T>>
    decreases frames.len(),
{
    if frames.len() == 0 {
        Seq::empty()
    } else {
        let before = extras_of(frames.drop_last());
        match frames.last().window {
            Some(w) => before,
            None => before.push(frames.last().snap@.skip(frames.last().snap.len() - FFT_LEN)),
        }
    }
}

/// The contents of some lists.
pub open spec fn views<T>(lists: Seq<Vec<T>>) -> Seq<Seq<T>> {
    lists.map_values(|l: Vec<T>| l@)
}

/// How the phones of a frame are combined.
pub struct Combination<T> {
    /// Windows that go into the beam with the local one.
    pub aligned: Vec<Vec<T>>,
    /// Tails of phones that could not be aligned; they still count in the
    /// spectrum.
    pub extras: Vec<Vec<T>>,
    /// Microphones in the beam; 0 where there is no beam.
    pub beam_mics: usize,
}

/// Splits the phones of a frame into those that go into the beam and the rest.
pub fn combine<T: Copy>(frames: &Vec<PhoneFrame<T>>) -> (c: Combination<T>)
    requires
        frames.len() < usize::MAX,
        forall|i: int| 0 <= i < frames.len() ==> (#[trigger] frames[i]).snap.len() >= FFT_LEN,
    ensures
        views(c.aligned@) == aligned_of(frames@),
        views(c.extras@) == extras_of(frames@),
        c.beam_mics == (if c.aligned.len() == 0 {
            0
        } else {
            c.aligned.len() + 1
        }),
{
    let mut aligned: Vec<Vec<T>> = Vec::new();
    let mut extras: Vec<Vec<T>> = Vec::new();
    assert(views(aligned@) =~= Seq::<Seq<T>>::empty());
    assert(views(extras@) =~= Seq::<Seq<T>>::empty());
    assert(frames@.take(0) =~= Seq::<PhoneFrame<T>>::empty());
    let mut i: usize = 0;
    while i < frames.len()
        invariant
            i <= frames.len() < usize::MAX,
            forall|k: int| 0 <= k < frames.len() ==> (#[trigger] frames[k]).snap.len() >= FFT_LEN,
            views(aligned@) == aligned_of(frames@.take(i as int)),
            views(extras@) == extras_of(frames@.take(i as int)),
            aligned.len() <= i,
        decreases frames.len() - i,
    {
        let ghost part = frames@.take(i + 1);
        assert(part.drop_last() =~= frames@.take(i as int));
        match &frames[i].window {
            Some(w) => {
                let ghost before = aligned@;
                let copy: Vec<T> = section(w, 0, w.len());
                assert(copy@ =~= w@);
                aligned.push(copy);
                assert(views(aligned@) =~= views(before).push(w@));
            },
            None => {
                let ghost before = extras@;
                let n: usize = frames[i].snap.len();
                let tail: Vec<T> = section(&frames[i].snap, n - FFT_LEN, FFT_LEN);
                assert(tail@ =~= frames[i as int].snap@.skip(n - FFT_LEN));
                extras.push(tail);
                assert(views(extras@) =~= views(before).push(tail@));
            },
        }
        i = i + 1;
    }
    assert(frames@.take(i as int) =~= frames@);
    let beam_mics: usize = if aligned.len() == 0 { 0 } else { aligned.len() + 1 };
    Combination { aligned, extras, beam_mics }
}

/// Every phone that takes part is heard once: in the beam or beside it.
pub proof fn every_phone_counts_once<T>(frames: Seq<PhoneFrame<T>>)
    ensures
        aligned_of(frames).len() + extras_of(frames).len() == frames.len(),
    decreases frames.len(),
{
    if frames.len() > 0 {
        every_phone_counts_once(frames.drop_last());
    }
}

} // verus!
