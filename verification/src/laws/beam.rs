//! How phones are aligned and summed into a beam.

use vstd::prelude::*;

use crate::dsp::align::Servo;
use crate::gui::beam::{aligned_of, concluded, extras_of, views, Measurement, PhoneFrame, ServoBank};
use crate::gui::fusion::{
    age_for, all_stepped, build_beam, combines, framed, framed_as, has_level, later, measured_of, mixed, searched, servo_in,
    slowest, step_phones, stepped, tail_of, takes_part, Beam, Part, Phone,
};
use crate::ieee::{Real32, Real64};

verus! {

/// A phone takes part in the beam exactly if its lock is sure, at the offset that its
/// servo gives for now.
pub proof fn sure_locks_take_part<E: Fn(Real64, Real64, Real64, Real64) -> Real64>(
    extrapolate: E,
    s: Servo,
    now: Real64,
    part: Part,
)
    requires
        takes_part(extrapolate, s, now, part),
    ensures
        part is Locked <==> s.last is Some && (Real32 { bits: 0x3e99_999a }).at_most(s.quality),
        part is Locked || part == Part::Unlocked,
        part matches Part::Locked(o) ==> call_ensures(extrapolate, (s.offset, s.rate, s.last->0, now), o),
{
}

/// A measurement counts if its confidence is at least 1.3; otherwise, and without one,
/// the servo keeps everything but its quality, which is lowered.
pub proof fn confident_measurements_count(s: Servo, now: Real64, found: Option<Measurement>, low: Real32)
    ensures
        found matches Some(m) ==> (Real32 { bits: 0x3fa6_6666 }).at_most(m.confidence) ==> concluded(s, now, found, low)
            == s.after(now, m.offset, m.correction),
        (found is None || !(Real32 { bits: 0x3fa6_6666 }).at_most(found->0.confidence)) ==> {
            let after = concluded(s, now, found, low);
            &&& after.offset == s.offset
            &&& after.rate == s.rate
            &&& after.last == s.last
            &&& after.outliers == s.outliers
            &&& after.quality == low
        },
{
}

/// The lag of a phone is searched exactly if its snapshot holds 8192 samples and both the
/// local window and its last 8192 samples are above the level 0.004; the search is told
/// what the servo knows.
pub proof fn audible_phones_are_measured<
    T,
    L: Fn(Vec<T>) -> Real32,
    F: Fn(Servo, Part, Vec<T>, Vec<T>, u64) -> Option<Measurement>,
    E: Fn(Real64, Real64, Real64, Real64) -> Real64,
>(
    level: L,
    search: F,
    extrapolate: E,
    s: Servo,
    phone: Phone<T>,
    reference: Seq<T>,
    local: Real32,
    now: Real64,
    found: Option<Measurement>,
) -> (lv: Real32)
    requires
        measured_of(level, search, extrapolate, s, phone, reference, local, now, found),
    ensures
        phone.snap.len() < 8192 ==> found is None,
        phone.snap.len() >= 8192 ==> {
            let tail = phone.snap@.subrange(phone.snap.len() - 8192, phone.snap.len() as int);
            &&& exists|v: Vec<T>| #[trigger] v@ == tail && call_ensures(level, (v,), lv)
            &&& !((Real32 { bits: 0x3b83_126f }).below(local) && (Real32 { bits: 0x3b83_126f }).below(lv)) ==> found
                is None
            &&& (Real32 { bits: 0x3b83_126f }).below(local) && (Real32 { bits: 0x3b83_126f }).below(lv) ==> exists|
                known: Part,
                r: Vec<T>,
                t: Vec<T>,
            |
                #![trigger call_ensures(search, (s, known, r, t, phone.snap_total), found)]
                takes_part(extrapolate, s, now, known) && r@ == reference && t@ == tail && call_ensures(
                    search,
                    (s, known, r, t, phone.snap_total),
                    found,
                )
        },
{
    if phone.snap.len() < 8192 {
        Real32 { bits: 0 }
    } else {
        let tail = tail_of(phone.snap@);
        assert(tail =~= phone.snap@.subrange(phone.snap.len() - 8192, phone.snap.len() as int));
        let lv = choose|lv: Real32| #[trigger]
            has_level(level, tail, lv) && if (Real32 { bits: 0x3b83_126f }).below(local) && (Real32 {
                bits: 0x3b83_126f,
            }).below(lv) {
                exists|known: Part| #[trigger]
                    takes_part(extrapolate, s, now, known) && searched(
                        search,
                        s,
                        known,
                        reference,
                        tail,
                        phone.snap_total,
                        found,
                    )
            } else {
                found is None
            };
        if (Real32 { bits: 0x3b83_126f }).below(local) && (Real32 { bits: 0x3b83_126f }).below(lv) {
            let known = choose|known: Part| #[trigger]
                takes_part(extrapolate, s, now, known) && searched(
                    search,
                    s,
                    known,
                    reference,
                    tail,
                    phone.snap_total,
                    found,
                );
            let (r, t) = choose|r: Vec<T>, t: Vec<T>|
                #![trigger call_ensures(search, (s, known, r, t, phone.snap_total), found)]
                r@ == reference && t@ == tail && call_ensures(search, (s, known, r, t, phone.snap_total), found);
            assert(call_ensures(search, (s, known, r, t, phone.snap_total), found));
        }
        lv
    }
}

/// Every phone takes its step, from the servo it had or a fresh one, and only its own
/// servo changes: one more phone is one more step.
pub proof fn every_phone_takes_its_step<
    T,
    L: Fn(Vec<T>) -> Real32,
    F: Fn(Servo, Part, Vec<T>, Vec<T>, u64) -> Option<Measurement>,
    Q: Fn(Servo) -> Real32,
    E: Fn(Real64, Real64, Real64, Real64) -> Real64,
>(
    level: L,
    search: F,
    lowered: Q,
    extrapolate: E,
    phones: Seq<Phone<T>>,
    reference: Seq<T>,
    local: Real32,
    now: Real64,
    n: nat,
    before: Map<u64, Servo>,
    after: Map<u64, Servo>,
    parts: Seq<Part>,
) -> (r: (Map<u64, Servo>, Servo, Option<Measurement>, Real32))
    requires
        all_stepped(level, search, lowered, extrapolate, phones, reference, local, now, n, before, after, parts),
    ensures
        n == 0 ==> after == before,
        n > 0 ==> {
            let (mid, s, found, low) = r;
            let phone = phones[n - 1];
            let had = if mid.contains_key(phone.id) {
                mid[phone.id]
            } else {
                Servo::fresh()
            };
            &&& all_stepped(
                level,
                search,
                lowered,
                extrapolate,
                phones,
                reference,
                local,
                now,
                (n - 1) as nat,
                before,
                mid,
                parts,
            )
            &&& after == mid.insert(phone.id, s)
            &&& measured_of(level, search, extrapolate, had, phone, reference, local, now, found)
            &&& call_ensures(lowered, (had,), low)
            &&& s == concluded(had, now, found, low)
            &&& parts[n - 1] == Part::Absent <==> phone.snap.len() < 8192
            &&& phone.snap.len() >= 8192 ==> takes_part(extrapolate, s, now, parts[n - 1])
        },
        Servo::fresh().last is None && Servo::fresh().outliers == 0 && Servo::fresh().quality.bits == 0,
{
    if n == 0 {
        (before, Servo::fresh(), None, Real32 { bits: 0 })
    } else {
        let phone = phones[n - 1];
        let (mid, s) = choose|mid: Map<u64, Servo>, s: Servo|
            all_stepped(
                level,
                search,
                lowered,
                extrapolate,
                phones,
                reference,
                local,
                now,
                (n - 1) as nat,
                before,
                mid,
                parts,
            ) && #[trigger] stepped(
                level,
                search,
                lowered,
                extrapolate,
                servo_in(mid, phone.id),
                phone,
                reference,
                local,
                now,
                s,
                parts[n - 1],
            ) && after == mid.insert(phone.id, s);
        let had = servo_in(mid, phone.id);
        let (found, low) = choose|found: Option<Measurement>, low: Real32| #[trigger]
            measured_of(level, search, extrapolate, had, phone, reference, local, now, found) && #[trigger] call_ensures(
                lowered,
                (had,),
                low,
            ) && s == concluded(had, now, found, low);
        (mid, s, found, low)
    }
}

/// The beam waits for the slowest: the lag that counts is not below that of any phone that
/// takes part, as far as numbers compare, and it is zero or one of theirs.
pub proof fn slowest_phone_sets_the_lag<T, G: Fn(Real64, u64) -> Real64>(
    lag: G,
    phones: Seq<Phone<T>>,
    parts: Seq<Part>,
    n: nat,
    m: Real64,
) -> (r: (Real64, Real64))
    requires
        slowest(lag, phones, parts, n, m),
    ensures
        n == 0 ==> m.bits == 0,
        n > 0 && !(parts[n - 1] is Locked) ==> slowest(lag, phones, parts, (n - 1) as nat, m),
        n > 0 ==> (parts[n - 1] matches Part::Locked(o) ==> {
            let (b, l) = r;
            &&& slowest(lag, phones, parts, (n - 1) as nat, b)
            &&& call_ensures(lag, (o, phones[n - 1].snap_total), l)
            &&& b.below(l) ==> m == l
            &&& !b.below(l) ==> m == b
        }),
{
    if n == 0 {
        (m, m)
    } else {
        match parts[n - 1] {
            Part::Locked(o) => {
                choose|b: Real64, l: Real64|
                    slowest(lag, phones, parts, (n - 1) as nat, b) && #[trigger] later(
                        lag,
                        o,
                        phones[n - 1].snap_total,
                        b,
                        l,
                        m,
                    )
            },
            _ => (m, m),
        }
    }
}

/// The beam stands as far back as the slowest phone lags, and 128 samples more; at least
/// 256, and no further than a window of 8192 samples reaches into the 16384 that are held.
pub proof fn beam_stands_behind_the_slowest(w: int, v: int)
    requires
        0 <= w <= v,
    ensures
        256 <= age_for(w) <= 8192,
        age_for(w) <= age_for(v),
        128 <= w <= 8064 ==> age_for(w) == w + 128,
        w < 128 ==> age_for(w) == 256,
        w > 8064 ==> age_for(w) == 8192,
{
}

/// Every phone that is not absent has a frame, in order: one that takes part has the
/// window read at its offset and the beam's age, the others have none.
pub proof fn every_present_phone_has_a_frame<T, R: Fn(Vec<T>, u64, Real64, usize) -> Option<Vec<T>>>(
    read: R,
    phones: Seq<Phone<T>>,
    parts: Seq<Part>,
    age: usize,
    n: nat,
    frames: Seq<PhoneFrame<T>>,
)
    requires
        framed(read, phones, parts, age, n, frames),
    ensures
        n == 0 ==> frames.len() == 0,
        n > 0 && parts[n - 1] == Part::Absent ==> framed(read, phones, parts, age, (n - 1) as nat, frames),
        n > 0 && parts[n - 1] != Part::Absent ==> {
            &&& frames.len() > 0
            &&& framed(read, phones, parts, age, (n - 1) as nat, frames.drop_last())
            &&& frames.last().snap@ == phones[n - 1].snap@
            &&& parts[n - 1] == Part::Unlocked ==> frames.last().window is None
            &&& parts[n - 1] matches Part::Locked(o) ==> exists|v: Vec<T>| #[trigger]
                v@ == phones[n - 1].snap@ && call_ensures(
                    read,
                    (v, phones[n - 1].snap_total, o, age),
                    frames.last().window,
                )
        },
{
    if n > 0 && parts[n - 1] != Part::Absent {
        assert(framed_as(read, phones[n - 1], parts[n - 1], age, frames.last()));
    }
}

/// Every frame counts once: one with a window is summed, one without adds the last 8192
/// samples of its snapshot to those that are analyzed beside the beam.
pub proof fn every_frame_counts_once<T>(frames: Seq<PhoneFrame<T>>, f: PhoneFrame<T>)
    ensures
        aligned_of(Seq::<PhoneFrame<T>>::empty()).len() == 0,
        extras_of(Seq::<PhoneFrame<T>>::empty()).len() == 0,
        f.window matches Some(w) ==> aligned_of(frames.push(f)) == aligned_of(frames).push(w@) && extras_of(
            frames.push(f),
        ) == extras_of(frames),
        f.window is None && f.snap.len() >= 8192 ==> aligned_of(frames.push(f)) == aligned_of(frames) && extras_of(
            frames.push(f),
        ) == extras_of(frames).push(f.snap@.subrange(f.snap.len() - 8192, f.snap.len() as int)),
{
    assert(frames.push(f).drop_last() =~= frames);
    if f.snap.len() >= 8192 {
        assert(f.snap@.skip(f.snap.len() - 8192) =~= f.snap@.subrange(f.snap.len() - 8192, f.snap.len() as int));
    }
}

/// A sample of the beam is the local one and those of all windows, each scaled by the
/// number of microphones and added: one more window is one more sample.
pub proof fn every_window_is_summed<T, S: Fn(T, usize) -> T, P: Fn(T, T) -> T>(
    scale: S,
    plus: P,
    count: usize,
    base: T,
    windows: Seq<Seq<T>>,
    k: int,
    n: nat,
    r: T,
)
    requires
        mixed(scale, plus, count, base, windows, k, n, r),
    ensures
        n == 0 ==> call_ensures(scale, (base, count), r),
        n > 0 && k < windows[n - 1].len() ==> exists|m: T, v: T|
            mixed(scale, plus, count, base, windows, k, (n - 1) as nat, m) && call_ensures(
                scale,
                (windows[n - 1][k], count),
                v,
            ) && #[trigger] call_ensures(plus, (m, v), r),
        n > 0 && k >= windows[n - 1].len() ==> mixed(scale, plus, count, base, windows, k, (n - 1) as nat, r),
{
}

/// There is a beam exactly if some phone is aligned; it counts the local microphone and
/// the aligned ones, and has a sample for every local one. All other phones are extras.
pub proof fn beam_is_of_all_aligned<T, S: Fn(T, usize) -> T, P: Fn(T, T) -> T>(
    scale: S,
    plus: P,
    local: Seq<T>,
    frames: Seq<PhoneFrame<T>>,
    b: Beam<T>,
    k: int,
)
    requires
        combines(scale, plus, local, frames, b),
        0 <= k < local.len(),
    ensures
        b.beam is Some <==> aligned_of(frames).len() > 0,
        b.beam is None ==> b.mics == 0,
        b.beam matches Some(sum) ==> {
            &&& b.mics == 1 + aligned_of(frames).len()
            &&& sum.len() == local.len()
            &&& mixed(scale, plus, b.mics, local[k], aligned_of(frames), k, aligned_of(frames).len(), sum[k])
        },
        b.extras.len() == extras_of(frames).len(),
        forall|i: int| 0 <= i < b.extras.len() ==> (#[trigger] b.extras[i])@ == extras_of(frames)[i],
{
    assert forall|i: int| 0 <= i < b.extras.len() implies (#[trigger] b.extras[i])@ == extras_of(frames)[i] by {
        assert(views(b.extras@)[i] == b.extras[i]@);
    }
}

/// The phones that are connected take their steps, with the reference that ends 4096
/// samples before the newest; servos of others are gone.
pub proof fn connected_phones_are_stepped<
    T: Copy,
    L: Fn(Vec<T>) -> Real32,
    F: Fn(Servo, Part, Vec<T>, Vec<T>, u64) -> Option<Measurement>,
    Q: Fn(Servo) -> Real32,
    E: Fn(Real64, Real64, Real64, Real64) -> Real64,
>(
    bank: &mut ServoBank,
    phones: &Vec<Phone<T>>,
    window: &Vec<T>,
    now: Real64,
    level: L,
    search: F,
    lowered: Q,
    extrapolate: E,
    parts: Vec<Part>,
)
    requires
        window.len() == 16384,
        call_ensures(
            step_phones::<T, L, F, Q, E>,
            (bank, phones, window, now, level, search, lowered, extrapolate),
            parts,
        ),
    ensures
        parts.len() == phones.len(),
        ({
            let reference = window@.subrange(4096, 12288);
            let connected = old(bank).servos@.restrict(phones@.map_values(|p: Phone<T>| p.id).to_set());
            exists|local: Real32| #[trigger]
                has_level(level, reference, local) && all_stepped(
                    level,
                    search,
                    lowered,
                    extrapolate,
                    phones@,
                    reference,
                    local,
                    now,
                    phones.len() as nat,
                    connected,
                    final(bank).servos@,
                    parts@,
                )
        }),
{
}

/// The beam of some phones: their slowest sets the age, at which every window is read and
/// the local one is taken.
pub proof fn beam_is_built_behind_the_slowest<
    T: Copy,
    G: Fn(Real64, u64) -> Real64,
    W: Fn(Real64) -> usize,
    R: Fn(Vec<T>, u64, Real64, usize) -> Option<Vec<T>>,
    S: Fn(T, usize) -> T,
    P: Fn(T, T) -> T,
>(
    phones: &Vec<Phone<T>>,
    parts: &Vec<Part>,
    window: &Vec<T>,
    lag: G,
    whole: W,
    read: R,
    scale: S,
    plus: P,
    b: Beam<T>,
) -> (w: (Real64, usize, Seq<PhoneFrame<T>>))
    requires
        window.len() == 16384,
        call_ensures(build_beam::<T, G, W, R, S, P>, (phones, parts, window, lag, whole, read, scale, plus), b),
    ensures
        ({
            let (m, lagged, frames) = w;
            let age = age_for(lagged as int);
            &&& slowest(lag, phones@, parts@, phones@.len(), m)
            &&& call_ensures(whole, (m,), lagged)
            &&& framed(read, phones@, parts@, age as usize, phones@.len(), frames)
            &&& combines(scale, plus, window@.subrange(8192 - age, 16384 - age), frames, b)
        }),
{
    choose|m: Real64, w: usize, frames: Seq<PhoneFrame<T>>|
        #![trigger slowest(lag, phones@, parts@, phones.len() as nat, m), call_ensures(whole, (m,), w), framed(read, phones@, parts@, age_for(w as int) as usize, phones.len() as nat, frames)]
        {
            &&& slowest(lag, phones@, parts@, phones.len() as nat, m)
            &&& call_ensures(whole, (m,), w)
            &&& framed(read, phones@, parts@, age_for(w as int) as usize, phones.len() as nat, frames)
            &&& combines(
                scale,
                plus,
                window@.subrange(16384 - age_for(w as int) - 8192, 16384 - age_for(w as int)),
                frames,
                b,
            )
        }
}

} // verus!
