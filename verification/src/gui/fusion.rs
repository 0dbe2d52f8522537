//! A frame with phones: every phone's servo takes a step, and the phones that are
//! locked are summed with the local microphone into a beam. The arithmetic is the
//! caller's, handed in as functions.

use vstd::prelude::*;

use crate::audio::RING_LEN;
use crate::dsp::align::{Servo, CORR_LEN, REF_AGE};
use crate::gui::beam::{
    aligned_of, beam_age, beam_window, combine, concluded, extras_of, measure, reference_window,
    snapshot_tail, views, Combination, Measure, Measurement, PhoneFrame, ServoBank, AGE_SLACK,
    MIN_AGE,
};
use crate::gui::state::RMS_GATE;
use crate::ieee::{Real32, Real64};
use crate::pitch::FFT_LEN;
use crate::ring::section;

verus! {

/// A phone as a frame sees it.
pub struct Phone<T> {
    pub id: u64,
    /// Its newest samples, oldest first.
    pub snap: Vec<T>,
    /// How many samples it has sent.
    pub snap_total: u64,
}

/// How a phone takes part in a frame.
#[derive(Clone, Copy, Debug, PartialEq, Eq, Structural)]
pub enum Part {
    /// Not at all: it has sent too little.
    Absent,
    /// Its offset is not known well enough.
    Unlocked,
    /// Its offset is this.
    Locked(Real64),
}

/// How a phone with this servo takes part.
pub open spec fn takes_part<E: Fn(Real64, Real64, Real64, Real64) -> Real64>(
    extrapolate: E,
    s: Servo,
    now: Real64,
    part: Part,
) -> bool {
    if s.is_locked() {
        part matches Part::Locked(o) && call_ensures(extrapolate, (s.offset, s.rate, s.last->0, now), o)
    } else {
        part == Part::Unlocked
    }
}

/// `lv` is the level of some samples.
pub open spec fn has_level<T, L: Fn(Vec<T>) -> Real32>(level: L, samples: Seq<T>, lv: Real32) -> bool {
    exists|v: Vec<T>| #[trigger] v@ == samples && call_ensures(level, (v,), lv)
}

/// `found` is what a search with these windows shows.
pub open spec fn searched<T, F: Fn(Servo, Part, Vec<T>, Vec<T>, u64) -> Option<Measurement>>(
    search: F,
    s: Servo,
    known: Part,
    reference: Seq<T>,
    tail: Seq<T>,
    total: u64,
    found: Option<Measurement>,
) -> bool {
    exists|r: Vec<T>, t: Vec<T>|
        #![trigger call_ensures(search, (s, known, r, t, total), found)]
        r@ == reference && t@ == tail && call_ensures(search, (s, known, r, t, total), found)
}

/// The newest part of a snapshot.
pub open spec fn tail_of<T>(snap: Seq<T>) -> Seq<T> {
    snap.skip(snap.len() - CORR_LEN)
}

/// `found` is what is measured of a phone: a search where both it and the local
/// microphone are loud enough, told what is known of its offset, and nothing
/// otherwise.
pub open spec fn measured_of<
    T,
    L: Fn(Vec<T>) -> Real32,
    F: Fn(Servo, Part, Vec<T>, Vec<T>, u64) -> Option<Measurement>,
    E: Fn(Real64, Real64, Real64, Real64) -> Real64,
>(
    level: L,
    search: F,
    extrapolate: E,
    s: Servo,
    phone: Phone<T>,
    reference: Seq<T>,
    local: Real32,
    now: Real64,
    found: Option<Measurement>,
) -> bool {
    if phone.snap.len() < CORR_LEN {
        found is None
    } else {
        exists|lv: Real32| #[trigger]
            has_level(level, tail_of(phone.snap@), lv) && if (Real32 { bits: RMS_GATE }).below(local) && (Real32 {
                bits: RMS_GATE,
            }).below(lv) {
                exists|known: Part| #[trigger]
                    takes_part(extrapolate, s, now, known) && searched(
                        search,
                        s,
                        known,
                        reference,
                        tail_of(phone.snap@),
                        phone.snap_total,
                        found,
                    )
            } else {
                found is None
            }
    }
}

/// A frame makes `after` of a phone's servo `s`, and `part` of the phone.
pub open spec fn stepped<
    T,
    L: Fn(Vec<T>) -> Real32,
    F: Fn(Servo, Part, Vec<T>, Vec<T>, u64) -> Option<Measurement>,
    Q: Fn(Servo) -> Real32,
    E: Fn(Real64, Real64, Real64, Real64) -> Real64,
>(
    level: L,
    search: F,
    lowered: Q,
    extrapolate: E,
    s: Servo,
    phone: Phone<T>,
    reference: Seq<T>,
    local: Real32,
    now: Real64,
    after: Servo,
    part: Part,
) -> bool {
    &&& exists|found: Option<Measurement>, low: Real32| #[trigger]
        measured_of(level, search, extrapolate, s, phone, reference, local, now, found) && #[trigger] call_ensures(
            lowered,
            (s,),
            low,
        ) && after == concluded(s, now, found, low)
    &&& if phone.snap.len() < CORR_LEN {
        part == Part::Absent
    } else {
        takes_part(extrapolate, after, now, part)
    }
}

/// The servo of a phone; a fresh one for a phone that is new.
pub open spec fn servo_in(servos: Map<u64, Servo>, id: u64) -> Servo {
    if servos.contains_key(id) {
        servos[id]
    } else {
        Servo::fresh()
    }
}

/// The first `n` phones, one after another, make `after` of the servos `before`, and
/// take part as `parts` tells.
pub open spec fn all_stepped<
    T,
    L: Fn(Vec<T>) -> Real32,
    F: Fn(Servo, Part, Vec<T>, Vec<T>, u64) -> Option<Measurement>,
    Q: Fn(Servo) -> Real32,
    E: Fn(Real64, Real64, Real64, Real64) -> Real64,
>(
    level: L,
    search: F,
    lowered: Q,
    extrapolate: E,
    phones: Seq<Phone<T>>,
    reference: Seq<T>,
    local: Real32,
    now: Real64,
    n: nat,
    before: Map<u64, Servo>,
    after: Map<u64, Servo>,
    parts: Seq<Part>,
) -> bool
    decreases n,
{
    if n == 0 {
        after == before
    } else {
        exists|mid: Map<u64, Servo>, s: Servo|
            all_stepped(
                level,
                search,
                lowered,
                extrapolate,
                phones,
                reference,
                local,
                now,
                (n - 1) as nat,
                before,
                mid,
                parts,
            ) && #[trigger] stepped(
                level,
                search,
                lowered,
                extrapolate,
                servo_in(mid, phones[n - 1].id),
                phones[n - 1],
                reference,
                local,
                now,
                s,
                parts[n - 1],
            ) && after == mid.insert(phones[n - 1].id, s)
    }
}

/// How a phone with this servo takes part.
fn part_of<E: Fn(Real64, Real64, Real64, Real64) -> Real64>(extrapolate: &E, s: &Servo, now: Real64) -> (part: Part)
    requires
        forall|o: Real64, v: Real64, t0: Real64, t1: Real64| call_requires(*extrapolate, (o, v, t0, t1)),
    ensures
        takes_part(*extrapolate, *s, now, part),
{
    if s.locked() {
        match s.offset_at(now, extrapolate) {
            Some(o) => Part::Locked(o),
            None => Part::Unlocked,
        }
    } else {
        Part::Unlocked
    }
}

/// What is measured of a phone.
fn measure_phone<
    T: Copy,
    L: Fn(Vec<T>) -> Real32,
    F: Fn(Servo, Part, Vec<T>, Vec<T>, u64) -> Option<Measurement>,
    E: Fn(Real64, Real64, Real64, Real64) -> Real64,
>(
    level: &L,
    search: &F,
    extrapolate: &E,
    s: Servo,
    phone: &Phone<T>,
    reference: &Vec<T>,
    local: Real32,
    now: Real64,
) -> (found: Option<Measurement>)
    requires
        forall|v: Vec<T>| call_requires(*level, (v,)),
        forall|a: Servo, k: Part, r: Vec<T>, t: Vec<T>, n: u64| call_requires(*search, (a, k, r, t, n)),
        forall|o: Real64, v: Real64, t0: Real64, t1: Real64| call_requires(*extrapolate, (o, v, t0, t1)),
    ensures
        measured_of(*level, *search, *extrapolate, s, *phone, reference@, local, now, found),
{
    if phone.snap.len() < CORR_LEN {
        return None;
    }
    let tail: Vec<T> = snapshot_tail(&phone.snap);
    let copy: Vec<T> = section(&tail, 0, tail.len());
    assert(copy@ =~= tail_of(phone.snap@));
    let lv: Real32 = level(copy);
    assert(has_level(*level, tail_of(phone.snap@), lv));
    match measure(phone.snap.len(), &local, &lv) {
        Measure::Search => {
            let known: Part = part_of(extrapolate, &s, now);
            let r: Vec<T> = section(reference, 0, reference.len());
            assert(r@ =~= reference@);
            let ghost rg = r;
            let ghost tg = tail;
            let found: Option<Measurement> = search(s, known, r, tail, phone.snap_total);
            proof {
                assert(call_ensures(*search, (s, known, rg, tg, phone.snap_total), found));
                assert(searched(*search, s, known, reference@, tail_of(phone.snap@), phone.snap_total, found));
                assert(takes_part(*extrapolate, s, now, known));
            }
            found
        },
        _ => None,
    }
}

/// Runs one step of every phone's servo against the local `window`, and tells how the
/// phones take part. `level` gives the level of some samples, `search` correlates the
/// local reference window with the newest samples of a phone, told its servo, what is
/// known of its offset and how many samples it has sent, `lowered` gives the quality
/// that a miss leaves, and `extrapolate` carries an offset on at its rate.
pub fn step_phones<
    T: Copy,
    L: Fn(Vec<T>) -> Real32,
    F: Fn(Servo, Part, Vec<T>, Vec<T>, u64) -> Option<Measurement>,
    Q: Fn(Servo) -> Real32,
    E: Fn(Real64, Real64, Real64, Real64) -> Real64,
>(
    bank: &mut ServoBank,
    phones: &Vec<Phone<T>>,
    window: &Vec<T>,
    now: Real64,
    level: L,
    search: F,
    lowered: Q,
    extrapolate: E,
) -> (parts: Vec<Part>)
    requires
        old(bank).well_formed(),
        window.len() == RING_LEN,
        forall|v: Vec<T>| call_requires(level, (v,)),
        forall|a: Servo, k: Part, r: Vec<T>, t: Vec<T>, n: u64| call_requires(search, (a, k, r, t, n)),
        forall|a: Servo| call_requires(lowered, (a,)),
        forall|o: Real64, v: Real64, t0: Real64, t1: Real64| call_requires(extrapolate, (o, v, t0, t1)),
    ensures
        final(bank).well_formed(),
        parts.len() == phones.len(),
        forall|i: int| 0 <= i < parts.len() ==> ((#[trigger] parts[i]) == Part::Absent <==> phones[i].snap.len() < CORR_LEN),
        ({
            let reference = window@.subrange(RING_LEN - REF_AGE - CORR_LEN, RING_LEN - REF_AGE);
            let connected = old(bank).servos@.restrict(phones@.map_values(|p: Phone<T>| p.id).to_set());
            exists|local: Real32| #[trigger]
                has_level(level, reference, local) && all_stepped(
                    level,
                    search,
                    lowered,
                    extrapolate,
                    phones@,
                    reference,
                    local,
                    now,
                    phones.len() as nat,
                    connected,
                    final(bank).servos@,
                    parts@,
                )
        }),
{
    let mut ids: Vec<u64> = Vec::new();
    let mut k: usize = 0;
    while k < phones.len()
        invariant
            k <= phones.len(),
            ids@ == phones@.map_values(|p: Phone<T>| p.id).take(k as int),
        decreases phones.len() - k,
    {
        ids.push(phones[k].id);
        k = k + 1;
        assert(ids@ =~= phones@.map_values(|p: Phone<T>| p.id).take(k as int));
    }
    assert(ids@ =~= phones@.map_values(|p: Phone<T>| p.id));
    bank.retain(&ids);
    let ghost connected = bank.servos@;
    let reference: Vec<T> = reference_window(window);
    let copy: Vec<T> = section(&reference, 0, reference.len());
    assert(copy@ =~= reference@);
    let local: Real32 = level(copy);
    assert(has_level(level, reference@, local));
    let mut parts: Vec<Part> = Vec::new();
    let mut n: usize = 0;
    while n < phones.len()
        invariant
            n <= phones.len(),
            bank.well_formed(),
            parts.len() == n,
            forall|v: Vec<T>| call_requires(level, (v,)),
            forall|a: Servo, k: Part, r: Vec<T>, t: Vec<T>, m: u64| call_requires(search, (a, k, r, t, m)),
            forall|a: Servo| call_requires(lowered, (a,)),
            forall|o: Real64, v: Real64, t0: Real64, t1: Real64| call_requires(extrapolate, (o, v, t0, t1)),
            forall|i: int|
                0 <= i < parts.len() ==> ((#[trigger] parts[i]) == Part::Absent <==> phones[i].snap.len() < CORR_LEN),
            all_stepped(
                level,
                search,
                lowered,
                extrapolate,
                phones@,
                reference@,
                local,
                now,
                n as nat,
                connected,
                bank.servos@,
                parts@,
            ),
        decreases phones.len() - n,
    {
        let ghost mid = bank.servos@;
        let ghost had = parts@;
        let phone: &Phone<T> = &phones[n];
        let s: Servo = bank.servo(phone.id);
        let found: Option<Measurement> = measure_phone(
            &level,
            &search,
            &extrapolate,
            s,
            phone,
            &reference,
            local,
            now,
        );
        let low: Real32 = lowered(s);
        bank.conclude(phone.id, now, &found, low);
        let after: Servo = bank.servo(phone.id);
        let part: Part = if phone.snap.len() < CORR_LEN {
            Part::Absent
        } else {
            part_of(&extrapolate, &after, now)
        };
        parts.push(part);
        proof {
            let next = (n + 1) as nat;
            assert(call_ensures(lowered, (s,), low));
            assert(measured_of(level, search, extrapolate, s, *phone, reference@, local, now, found));
            assert(after == concluded(s, now, found, low));
            earlier_parts_only(
                level,
                search,
                lowered,
                extrapolate,
                phones@,
                reference@,
                local,
                now,
                n as nat,
                connected,
                mid,
                had,
                parts@,
            );
            assert(stepped(
                level,
                search,
                lowered,
                extrapolate,
                servo_in(mid, phones@[next - 1].id),
                phones@[next - 1],
                reference@,
                local,
                now,
                after,
                parts@[next - 1],
            ));
            assert(bank.servos@ == mid.insert(phones@[next - 1].id, after));
        }
        n = n + 1;
    }
    parts
}

/// What the first phones do is not changed by the parts of later ones.
proof fn earlier_parts_only<
    T,
    L: Fn(Vec<T>) -> Real32,
    F: Fn(Servo, Part, Vec<T>, Vec<T>, u64) -> Option<Measurement>,
    Q: Fn(Servo) -> Real32,
    E: Fn(Real64, Real64, Real64, Real64) -> Real64,
>(
    level: L,
    search: F,
    lowered: Q,
    extrapolate: E,
    phones: Seq<Phone<T>>,
    reference: Seq<T>,
    local: Real32,
    now: Real64,
    n: nat,
    before: Map<u64, Servo>,
    after: Map<u64, Servo>,
    had: Seq<Part>,
    parts: Seq<Part>,
)
    requires
        n <= had.len(),
        forall|i: int| 0 <= i < n ==> (#[trigger] had[i]) == parts[i],
        all_stepped(level, search, lowered, extrapolate, phones, reference, local, now, n, before, after, had),
    ensures
        all_stepped(level, search, lowered, extrapolate, phones, reference, local, now, n, before, after, parts),
    decreases n,
{
    if n > 0 {
        let id = phones[n - 1].id;
        let (mid, s) = choose|mid: Map<u64, Servo>, s: Servo|
            all_stepped(
                level,
                search,
                lowered,
                extrapolate,
                phones,
                reference,
                local,
                now,
                (n - 1) as nat,
                before,
                mid,
                had,
            ) && #[trigger] stepped(
                level,
                search,
                lowered,
                extrapolate,
                servo_in(mid, phones[n - 1].id),
                phones[n - 1],
                reference,
                local,
                now,
                s,
                had[n - 1],
            ) && after == mid.insert(phones[n - 1].id, s);
        earlier_parts_only(
            level,
            search,
            lowered,
            extrapolate,
            phones,
            reference,
            local,
            now,
            (n - 1) as nat,
            before,
            mid,
            had,
            parts,
        );
        assert(had[n - 1] == parts[n - 1]);
        assert(stepped(
            level,
            search,
            lowered,
            extrapolate,
            servo_in(mid, id),
            phones[n - 1],
            reference,
            local,
            now,
            s,
            parts[n - 1],
        ));
    }
}

/// `m` is the lag of the slowest of the first `n` phones that are locked, or zero.
pub open spec fn slowest<T, G: Fn(Real64, u64) -> Real64>(
    lag: G,
    phones: Seq<Phone<T>>,
    parts: Seq<Part>,
    n: nat,
    m: Real64,
) -> bool
    decreases n,
{
    if n == 0 {
        m == (Real64 { bits: 0 })
    } else {
        match parts[n - 1] {
            Part::Locked(o) => exists|b: Real64, l: Real64|
                slowest(lag, phones, parts, (n - 1) as nat, b) && #[trigger] later(lag, o, phones[n - 1].snap_total, b, l, m),
            _ => slowest(lag, phones, parts, (n - 1) as nat, m),
        }
    }
}

/// `m` is the larger of the lag `b` and the lag `l` of a phone.
pub open spec fn later<G: Fn(Real64, u64) -> Real64>(
    lag: G,
    o: Real64,
    total: u64,
    b: Real64,
    l: Real64,
    m: Real64,
) -> bool {
    call_ensures(lag, (o, total), l) && m == if b.below(l) {
        l
    } else {
        b
    }
}

/// How old the beam window is, where the slowest phone lags by `w` samples.
pub open spec fn age_for(w: int) -> int {
    if w + AGE_SLACK < MIN_AGE {
        MIN_AGE as int
    } else if w + AGE_SLACK > RING_LEN - FFT_LEN {
        RING_LEN - FFT_LEN
    } else {
        w + AGE_SLACK
    }
}

/// `frame` is the frame of a phone: where it is locked, with the window that `read`
/// reads in step with the beam.
pub open spec fn framed_as<T, R: Fn(Vec<T>, u64, Real64, usize) -> Option<Vec<T>>>(
    read: R,
    phone: Phone<T>,
    part: Part,
    age: usize,
    frame: PhoneFrame<T>,
) -> bool {
    &&& frame.snap@ == phone.snap@
    &&& match part {
        Part::Locked(o) => exists|v: Vec<T>| #[trigger]
            v@ == phone.snap@ && call_ensures(read, (v, phone.snap_total, o, age), frame.window),
        _ => frame.window is None,
    }
}

/// `frames` are the frames of those of the first `n` phones that take part, in order.
pub open spec fn framed<T, R: Fn(Vec<T>, u64, Real64, usize) -> Option<Vec<T>>>(
    read: R,
    phones: Seq<Phone<T>>,
    parts: Seq<Part>,
    age: usize,
    n: nat,
    frames: Seq<PhoneFrame<T>>,
) -> bool
    decreases n,
{
    if n == 0 {
        frames.len() == 0
    } else if parts[n - 1] == Part::Absent {
        framed(read, phones, parts, age, (n - 1) as nat, frames)
    } else {
        &&& frames.len() > 0
        &&& framed(read, phones, parts, age, (n - 1) as nat, frames.drop_last())
        &&& framed_as(read, phones[n - 1], parts[n - 1], age, frames.last())
    }
}

/// `r` is the sum of `base` and of sample `k` of the first `n` windows, each scaled for
/// `count` microphones.
pub open spec fn mixed<T, S: Fn(T, usize) -> T, P: Fn(T, T) -> T>(
    scale: S,
    plus: P,
    count: usize,
    base: T,
    windows: Seq<Seq<T>>,
    k: int,
    n: nat,
    r: T,
) -> bool
    decreases n,
{
    if n == 0 {
        call_ensures(scale, (base, count), r)
    } else if k < windows[n - 1].len() {
        exists|m: T, v: T|
            mixed(scale, plus, count, base, windows, k, (n - 1) as nat, m) && call_ensures(
                scale,
                (windows[n - 1][k], count),
                v,
            ) && #[trigger] call_ensures(plus, (m, v), r)
    } else {
        mixed(scale, plus, count, base, windows, k, (n - 1) as nat, r)
    }
}

/// The phones of a frame, combined.
pub struct Beam<T> {
    /// The sum of the local microphone and the phones that could be aligned, if there
    /// are any.
    pub beam: Option<Vec<T>>,
    /// Microphones in the beam; 0 where there is none.
    pub mics: usize,
    /// Tails of the phones that could not be aligned; they still count in the
    /// spectrum.
    pub extras: Vec<Vec<T>>,
}

/// `b` combines the phones of a frame with the local samples.
pub open spec fn combines<T, S: Fn(T, usize) -> T, P: Fn(T, T) -> T>(
    scale: S,
    plus: P,
    local: Seq<T>,
    frames: Seq<PhoneFrame<T>>,
    b: Beam<T>,
) -> bool {
    let windows = aligned_of(frames);
    &&& views(b.extras@) == extras_of(frames)
    &&& match b.beam {
        Some(sum) => {
            &&& windows.len() > 0
            &&& b.mics == windows.len() + 1
            &&& sum.len() == local.len()
            &&& forall|k: int|
                0 <= k < local.len() ==> mixed(
                    scale,
                    plus,
                    b.mics,
                    local[k],
                    windows,
                    k,
                    windows.len(),
                    #[trigger] sum[k],
                )
        },
        None => windows.len() == 0 && b.mics == 0,
    }
}

/// The lag of the slowest phone.
fn slowest_lag<T, G: Fn(Real64, u64) -> Real64>(lag: &G, phones: &Vec<Phone<T>>, parts: &Vec<Part>) -> (m: Real64)
    requires
        parts.len() == phones.len(),
        forall|o: Real64, t: u64| call_requires(*lag, (o, t)),
    ensures
        slowest(*lag, phones@, parts@, phones.len() as nat, m),
{
    let mut m: Real64 = Real64::from_bits(0);
    let mut n: usize = 0;
    while n < phones.len()
        invariant
            n <= phones.len() == parts.len(),
            forall|o: Real64, t: u64| call_requires(*lag, (o, t)),
            slowest(*lag, phones@, parts@, n as nat, m),
        decreases phones.len() - n,
    {
        if let Part::Locked(o) = parts[n] {
            let ghost b = m;
            let l: Real64 = lag(o, phones[n].snap_total);
            if m.less(&l) {
                m = l;
            }
            proof {
                let next = (n + 1) as nat;
                assert(slowest(*lag, phones@, parts@, (next - 1) as nat, b));
                assert(later(*lag, o, phones@[next - 1].snap_total, b, l, m));
            }
        }
        n = n + 1;
    }
    m
}

/// The frames of the phones that take part.
fn frames_of<T: Copy, R: Fn(Vec<T>, u64, Real64, usize) -> Option<Vec<T>>>(
    read: &R,
    phones: &Vec<Phone<T>>,
    parts: &Vec<Part>,
    age: usize,
) -> (frames: Vec<PhoneFrame<T>>)
    requires
        parts.len() == phones.len(),
        forall|i: int| 0 <= i < parts.len() && (#[trigger] parts[i]) != Part::Absent ==> phones[i].snap.len() >= FFT_LEN,
        forall|v: Vec<T>, t: u64, o: Real64, a: usize| call_requires(*read, (v, t, o, a)),
    ensures
        framed(*read, phones@, parts@, age, phones.len() as nat, frames@),
        frames.len() <= phones.len(),
        forall|i: int| 0 <= i < frames.len() ==> (#[trigger] frames[i]).snap.len() >= FFT_LEN,
{
    let mut frames: Vec<PhoneFrame<T>> = Vec::new();
    let mut n: usize = 0;
    while n < phones.len()
        invariant
            n <= phones.len() == parts.len(),
            forall|i: int|
                0 <= i < parts.len() && (#[trigger] parts[i]) != Part::Absent ==> phones[i].snap.len() >= FFT_LEN,
            forall|v: Vec<T>, t: u64, o: Real64, a: usize| call_requires(*read, (v, t, o, a)),
            framed(*read, phones@, parts@, age, n as nat, frames@),
            frames.len() <= n,
            forall|i: int| 0 <= i < frames.len() ==> (#[trigger] frames[i]).snap.len() >= FFT_LEN,
        decreases phones.len() - n,
    {
        let phone: &Phone<T> = &phones[n];
        let part: Part = parts[n];
        match part {
            Part::Absent => {},
            _ => {
                let ghost had = frames@;
                let snap: Vec<T> = section(&phone.snap, 0, phone.snap.len());
                assert(snap@ =~= phone.snap@);
                let window: Option<Vec<T>> = match part {
                    Part::Locked(o) => {
                        let copy: Vec<T> = section(&phone.snap, 0, phone.snap.len());
                        assert(copy@ =~= phone.snap@);
                        read(copy, phone.snap_total, o, age)
                    },
                    _ => None,
                };
                let frame: PhoneFrame<T> = PhoneFrame { snap, window };
                assert(framed_as(*read, *phone, part, age, frame));
                frames.push(frame);
                assert(frames@.drop_last() =~= had);
                assert(frames@.last() == frame);
            },
        }
        n = n + 1;
    }
    frames
}

/// One sample of the beam.
fn mix_at<T: Copy, S: Fn(T, usize) -> T, P: Fn(T, T) -> T>(
    scale: &S,
    plus: &P,
    count: usize,
    base: T,
    windows: &Vec<Vec<T>>,
    k: usize,
) -> (r: T)
    requires
        forall|v: T, c: usize| call_requires(*scale, (v, c)),
        forall|a: T, b: T| call_requires(*plus, (a, b)),
    ensures
        mixed(*scale, *plus, count, base, views(windows@), k as int, windows.len() as nat, r),
{
    let mut r: T = scale(base, count);
    let mut n: usize = 0;
    while n < windows.len()
        invariant
            n <= windows.len(),
            forall|v: T, c: usize| call_requires(*scale, (v, c)),
            forall|a: T, b: T| call_requires(*plus, (a, b)),
            mixed(*scale, *plus, count, base, views(windows@), k as int, n as nat, r),
        decreases windows.len() - n,
    {
        assert(views(windows@)[n as int] == windows[n as int]@);
        if k < windows[n].len() {
            let ghost m = r;
            let v: T = scale(windows[n][k], count);
            r = plus(r, v);
            proof {
                let next = (n + 1) as nat;
                assert(mixed(*scale, *plus, count, base, views(windows@), k as int, (next - 1) as nat, m));
                assert(call_ensures(*scale, (views(windows@)[next - 1][k as int], count), v));
                assert(call_ensures(*plus, (m, v), r));
            }
        }
        n = n + 1;
    }
    r
}

/// Builds the delay-and-sum beam from every locked phone. The beam window is old
/// enough that every locked phone has already received it. `lag` gives how far a phone
/// of an offset lags, given how many samples it has sent, and `whole` its whole
/// samples; `read` reads a snapshot at an offset in step with a window of an age;
/// `scale` scales a sample for a number of microphones.
pub fn build_beam<
    T: Copy,
    G: Fn(Real64, u64) -> Real64,
    W: Fn(Real64) -> usize,
    R: Fn(Vec<T>, u64, Real64, usize) -> Option<Vec<T>>,
    S: Fn(T, usize) -> T,
    P: Fn(T, T) -> T,
>(
    phones: &Vec<Phone<T>>,
    parts: &Vec<Part>,
    window: &Vec<T>,
    lag: G,
    whole: W,
    read: R,
    scale: S,
    plus: P,
) -> (b: Beam<T>)
    requires
        parts.len() == phones.len(),
        phones.len() < usize::MAX,
        window.len() == RING_LEN,
        forall|i: int| 0 <= i < parts.len() && (#[trigger] parts[i]) != Part::Absent ==> phones[i].snap.len() >= FFT_LEN,
        forall|o: Real64, t: u64| call_requires(lag, (o, t)),
        forall|m: Real64| call_requires(whole, (m,)),
        forall|v: Vec<T>, t: u64, o: Real64, a: usize| call_requires(read, (v, t, o, a)),
        forall|v: T, c: usize| call_requires(scale, (v, c)),
        forall|a: T, c: T| call_requires(plus, (a, c)),
    ensures
        exists|m: Real64, w: usize, frames: Seq<PhoneFrame<T>>|
            #![trigger slowest(lag, phones@, parts@, phones.len() as nat, m), call_ensures(whole, (m,), w), framed(read, phones@, parts@, age_for(w as int) as usize, phones.len() as nat, frames)]
            {
                &&& slowest(lag, phones@, parts@, phones.len() as nat, m)
                &&& call_ensures(whole, (m,), w)
                &&& framed(read, phones@, parts@, age_for(w as int) as usize, phones.len() as nat, frames)
                &&& combines(
                    scale,
                    plus,
                    window@.subrange(RING_LEN - age_for(w as int) - FFT_LEN, RING_LEN - age_for(w as int)),
                    frames,
                    b,
                )
            },
{
    let m: Real64 = slowest_lag(&lag, phones, parts);
    let w: usize = whole(m);
    let age: usize = beam_age(if w < RING_LEN { w } else { RING_LEN });
    assert(age == age_for(w as int));
    let frames: Vec<PhoneFrame<T>> = frames_of(&read, phones, parts, age);
    assert(slowest(lag, phones@, parts@, phones.len() as nat, m));
    assert(call_ensures(whole, (m,), w));
    assert(framed(read, phones@, parts@, age_for(w as int) as usize, phones.len() as nat, frames@));
    let c: Combination<T> = combine(&frames);
    assert(aligned_of(frames@).len() == c.aligned.len()) by {
        assert(views(c.aligned@).len() == c.aligned.len());
    }
    let Combination { aligned, extras, beam_mics } = c;
    if beam_mics == 0 {
        let b: Beam<T> = Beam { beam: None, mics: 0, extras };
        return b;
    }
    let local: Vec<T> = beam_window(window, age);
    let mut sum: Vec<T> = Vec::new();
    let mut k: usize = 0;
    while k < local.len()
        invariant
            k <= local.len(),
            sum.len() == k,
            forall|v: T, c: usize| call_requires(scale, (v, c)),
            forall|a: T, c: T| call_requires(plus, (a, c)),
            forall|q: int|
                0 <= q < k ==> mixed(
                    scale,
                    plus,
                    beam_mics,
                    local[q],
                    views(aligned@),
                    q,
                    aligned.len() as nat,
                    #[trigger] sum[q],
                ),
        decreases local.len() - k,
    {
        let r: T = mix_at(&scale, &plus, beam_mics, local[k], &aligned, k);
        sum.push(r);
        k = k + 1;
    }
    let b: Beam<T> = Beam { beam: Some(sum), mics: beam_mics, extras };
    assert(combines(scale, plus, local@, frames@, b));
    b
}

} // verus!
