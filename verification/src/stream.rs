//! The stream of one phone: what its messages do to it and to the list of phones.

use vstd::prelude::*;

use crate::ieee::{Real32, Real64};
use crate::remote::{accepted, makes_way, name_in, rate_in, resampled, samples_in};
use crate::remote::{accepts_rate, react, Incoming, Path, Reaction, Registry, Resampler, REMOTE_RING_LEN};
use crate::resample::{is_exact, is_resampling, joined, outputs_do_not_depend_on_the_cuts, outputs_of};
use crate::ring::newest;
use crate::service::{is_run, level_after, name_after, queue_holds_the_newest_of_all_frames, sent, Event};

verus! {

/// The rate that a phone is taken to have until it says its own: 48000 hertz, as an IEEE
/// 754 pattern.
pub const ASSUMED_RATE: u32 = 0x473b_8000;

/// How the messages of a phone are measured.
pub struct Ear<P, L, Q, W, A, R, B> {
    /// The number that a numeral stands for.
    pub parse: P,
    /// The level of a frame.
    pub level: L,
    /// The step of a resampler between two rates.
    pub ratio: Q,
    /// How the resampler computes.
    pub path: Path<W, A, R, B>,
}

/// The stream of a phone.
pub struct PhoneStream {
    pub id: u64,
    /// The local rate.
    pub target_rate: Real32,
    pub resampler: Resampler<Real32>,
}

/// What a message means for the list of phones.
pub enum Action<T> {
    Rename(String),
    /// A frame: its level, and its samples at the local rate.
    Frame(Real32, Vec<T>),
    Nothing,
    Stop,
}

/// The resampler starts afresh between two rates.
pub open spec fn fresh<Q: Fn(Real32, Real32) -> Real64>(
    ratio: Q,
    rate: Real32,
    target_rate: Real32,
    r: Resampler<Real32>,
) -> bool {
    &&& call_ensures(ratio, (rate, target_rate), r.step)
    &&& r.pos == (Real64 { bits: 0 })
    &&& r.last is None
}

/// A text makes `after` of the resampler `before`: it starts afresh if the text holds a
/// rate that is accepted.
pub open spec fn introduced<P: Fn(String) -> Option<Real32>, Q: Fn(Real32, Real32) -> Real64>(
    parse: P,
    ratio: Q,
    target_rate: Real32,
    text: Seq<char>,
    before: Resampler<Real32>,
    after: Resampler<Real32>,
) -> bool {
    match rate_in(text) {
        Some(numeral) => exists|n: String, rate: Option<Real32>| #[trigger]
            call_ensures(parse, (n,), rate) && n@ == numeral && match rate {
                Some(r) => if accepted(r) {
                    fresh(ratio, r, target_rate, after)
                } else {
                    after == before
                },
                None => after == before,
            },
        None => after == before,
    }
}

/// The level of some samples.
pub open spec fn is_level<L: Fn(Vec<Real32>) -> Real32>(level: L, samples: Seq<Real32>, r: Real32) -> bool {
    exists|v: Vec<Real32>| #[trigger] v@ == samples && call_ensures(level, (v,), r)
}

/// The bytes of a frame give `level` and `made`, and make `after` of the resampler.
pub open spec fn framed<
    T,
    P,
    L: Fn(Vec<Real32>) -> Real32,
    Q,
    W: Fn(Real64) -> usize,
    A: Fn(Real64, Real64) -> Real64,
    R: Fn(Real64, usize) -> Real64,
    B: Fn(Real32, Real32, Real64, usize) -> T,
>(
    ear: Ear<P, L, Q, W, A, R, B>,
    before: Resampler<Real32>,
    bytes: Seq<u8>,
    level: Real32,
    made: Seq<T>,
    after: Resampler<Real32>,
) -> bool {
    &&& is_level(ear.level, samples_in(bytes), level)
    &&& resampled(ear.path, before, samples_in(bytes), made, after)
}

impl PhoneStream {
    /// The resampler is in order.
    pub open spec fn well_formed(&self) -> bool {
        self.resampler.well_formed()
    }

    /// A phone joins the list, as "phone" until it says its name. `ratio` gives the step
    /// of a resampler between two rates.
    pub fn join<T: Copy, Q: Fn(Real32, Real32) -> Real64>(
        registry: &mut Registry<T>,
        target_rate: Real32,
        ratio: &Q,
    ) -> (r: Self)
        requires
            old(registry).well_formed(),
            old(registry).next_id < u64::MAX,
            forall|a: Real32, b: Real32| call_requires(*ratio, (a, b)),
        ensures
            final(registry).well_formed(),
            final(registry).joined(old(registry), "phone"@),
            r.well_formed(),
            r.id == old(registry).next_id,
            r.target_rate == target_rate,
            fresh(*ratio, Real32 { bits: ASSUMED_RATE }, target_rate, r.resampler),
    {
        let id: u64 = registry.add(String::from_str("phone"));
        let resampler: Resampler<Real32> = Resampler::new(Real32::from_bits(ASSUMED_RATE), target_rate, ratio);
        PhoneStream { id, target_rate, resampler }
    }

    /// Takes in a message of the phone.
    pub fn hear<
        T,
        P: Fn(String) -> Option<Real32>,
        L: Fn(Vec<Real32>) -> Real32,
        Q: Fn(Real32, Real32) -> Real64,
        W: Fn(Real64) -> usize,
        A: Fn(Real64, Real64) -> Real64,
        R: Fn(Real64, usize) -> Real64,
        B: Fn(Real32, Real32, Real64, usize) -> T,
    >(&mut self, message: &Incoming, ear: &Ear<P, L, Q, W, A, R, B>) -> (action: Action<T>)
        requires
            old(self).well_formed(),
            forall|n: String| call_requires(ear.parse, (n,)),
            forall|v: Vec<Real32>| call_requires(ear.level, (v,)),
            forall|a: Real32, b: Real32| call_requires(ear.ratio, (a, b)),
            forall|p: Real64| call_requires(ear.path.whole, (p,)),
            forall|p: Real64, s: Real64| call_requires(ear.path.advance, (p, s)),
            forall|p: Real64, n: usize| call_requires(ear.path.rewind, (p, n)),
            forall|a: Real32, b: Real32, p: Real64, k: usize| call_requires(ear.path.blend, (a, b, p, k)),
            message matches Incoming::Binary(bytes) ==> makes_way(
                ear.path,
                old(self).resampler.step,
                (bytes.len() / 4) as usize,
            ),
        ensures
            final(self).well_formed(),
            final(self).id == old(self).id,
            final(self).target_rate == old(self).target_rate,
            match message {
                Incoming::Text(t) => {
                    &&& introduced(
                        ear.parse,
                        ear.ratio,
                        old(self).target_rate,
                        t@,
                        old(self).resampler,
                        final(self).resampler,
                    )
                    &&& match name_in(t@) {
                        Some(name) => action matches Action::Rename(n) && n@ == name,
                        None => action is Nothing,
                    }
                },
                Incoming::Binary(bytes) => action matches Action::Frame(level, made) && framed(
                    *ear,
                    old(self).resampler,
                    bytes@,
                    level,
                    made@,
                    final(self).resampler,
                ),
                Incoming::Close => final(self).resampler == old(self).resampler && action is Stop,
                Incoming::Other => final(self).resampler == old(self).resampler && action is Nothing,
            },
    {
        match react(message) {
            Reaction::Hello(numeral, name) => {
                if let Some(n) = numeral {
                    let rate: Option<Real32> = (ear.parse)(n);
                    assert(call_ensures(ear.parse, (n,), rate));
                    if let Some(r) = rate {
                        if accepts_rate(&r) {
                            self.resampler = Resampler::new(r, self.target_rate, &ear.ratio);
                        }
                    }
                }
                match name {
                    Some(n) => Action::Rename(n),
                    None => Action::Nothing,
                }
            },
            Reaction::Samples(samples) => {
                let mut made: Vec<T> = Vec::new();
                let ghost before = self.resampler;
                let ghost none = made@;
                self.resampler.process(&samples, &mut made, &ear.path);
                proof {
                    let m = choose|m: Seq<T>| #[trigger]
                        resampled(ear.path, before, samples@, m, self.resampler) && made@ == none + m;
                    assert(none + m =~= m);
                    assert(resampled(ear.path, before, samples@, made@, self.resampler));
                }
                let level: Real32 = (ear.level)(samples);
                Action::Frame(level, made)
            },
            Reaction::Nothing => Action::Nothing,
            Reaction::Stop => Action::Stop,
        }
    }
}

/// Carries out what a message of a phone means for the list. False if the phone is to
/// be heard no more.
pub fn perform<T: Copy>(registry: &mut Registry<T>, id: u64, action: Action<T>) -> (goes_on: bool)
    requires
        old(registry).well_formed(),
        old(registry).has(id) ==> (action matches Action::Frame(_, samples) ==> old(registry).clients[old(
            registry,
        ).position(id)].ring.total + samples.len() <= u64::MAX),
    ensures
        final(registry).well_formed(),
        goes_on == !(action is Stop),
        match action {
            Action::Rename(name) => final(registry).renamed(old(registry), id, name@),
            Action::Frame(level, samples) => final(registry).received(old(registry), id, level, samples@),
            _ => *final(registry) == *old(registry),
        },
{
    match action {
        Action::Rename(name) => {
            registry.rename(id, name);
            true
        },
        Action::Frame(level, samples) => {
            registry.receive(id, level, &samples);
            true
        },
        Action::Nothing => true,
        Action::Stop => false,
    }
}

/// The frames of a phone among the events `from..n`: their levels and their samples at
/// the local rate.
pub open spec fn frames_of<T>(events: Seq<Event<T>>, id: u64, from: int, n: int) -> Seq<(Real32, Seq<T>)>
    decreases n - from,
{
    if n <= from {
        Seq::empty()
    } else {
        match events[n - 1] {
            Event::Frame(p, level, samples) => if p == id {
                frames_of(events, id, from, n - 1).push((level, samples))
            } else {
                frames_of(events, id, from, n - 1)
            },
            _ => frames_of(events, id, from, n - 1),
        }
    }
}

/// A phone sent `frames` and nothing else to a stream that was fresh: frame `c` gave the
/// level `levels[c]` and the samples `out[c]`. `states` are the resampler before every
/// frame, and after the last.
pub open spec fn is_heard<
    T,
    P,
    L: Fn(Vec<Real32>) -> Real32,
    Q,
    W: Fn(Real64) -> usize,
    A: Fn(Real64, Real64) -> Real64,
    R: Fn(Real64, usize) -> Real64,
    B: Fn(Real32, Real32, Real64, usize) -> T,
>(
    ear: Ear<P, L, Q, W, A, R, B>,
    frames: Seq<Seq<u8>>,
    levels: Seq<Real32>,
    out: Seq<Seq<T>>,
    states: Seq<Resampler<Real32>>,
) -> bool {
    &&& levels.len() == frames.len()
    &&& out.len() == frames.len()
    &&& states.len() == frames.len() + 1
    &&& states[0].pos == (Real64 { bits: 0 })
    &&& states[0].last is None
    &&& forall|c: int| 0 <= c < frames.len() ==> (#[trigger] frames[c]).len() <= usize::MAX
    &&& forall|c: int|
        0 <= c < frames.len() ==> framed(ear, states[c], frames[c], #[trigger] levels[c], out[c], states[c + 1])
}

/// The samples that some frames hold.
pub open spec fn decoded(frames: Seq<Seq<u8>>) -> Seq<Seq<Real32>> {
    Seq::new(frames.len(), |c: int| samples_in(frames[c]))
}

/// The frames of a phone and their levels.
pub open spec fn paired<T>(levels: Seq<Real32>, out: Seq<Seq<T>>) -> Seq<(Real32, Seq<T>)> {
    Seq::new(out.len(), |c: int| (levels[c], out[c]))
}

/// The event gives this phone another name.
pub open spec fn renames<T>(event: Event<T>, id: u64) -> bool {
    event matches Event::Rename(p, _) && p == id
}

proof fn sent_is_joined<T>(
    events: Seq<Event<T>>,
    id: u64,
    name: Seq<char>,
    from: int,
    n: int,
    levels: Seq<Real32>,
    out: Seq<Seq<T>>,
    count: int,
)
    requires
        0 <= from <= n <= events.len(),
        levels.len() == out.len(),
        0 <= count <= out.len(),
        frames_of(events, id, from, n) == paired(levels, out).take(count),
        forall|i: int| from <= i < n ==> !renames(#[trigger] events[i], id),
    ensures
        sent(events, id, from, n) == joined(out, count),
        level_after(events, id, from, n) == (if count == 0 {
            Real32 { bits: 0 }
        } else {
            levels[count - 1]
        }),
        name_after(events, id, name, from, n) == name,
    decreases n - from,
{
    let all = paired(levels, out);
    if n == from {
        assert(all.take(count).len() == count);
    } else {
        match events[n - 1] {
            Event::Frame(p, level, samples) => {
                if p == id {
                    let before = frames_of(events, id, from, n - 1);
                    assert(all.take(count).len() == before.len() + 1);
                    assert(all.take(count).last() == (level, samples));
                    assert(all[count - 1] == (level, samples));
                    assert(before =~= all.take(count).drop_last());
                    assert(all.take(count).drop_last() =~= all.take(count - 1));
                    sent_is_joined(events, id, name, from, n - 1, levels, out, count - 1);
                } else {
                    sent_is_joined(events, id, name, from, n - 1, levels, out, count);
                }
            },
            Event::Rename(..) => {
                assert(!renames(events[n - 1], id));
                sent_is_joined(events, id, name, from, n - 1, levels, out, count);
            },
            _ => {
                sent_is_joined(events, id, name, from, n - 1, levels, out, count);
            },
        }
    }
}

/// A phone that joins and sends frames alone is heard whole. However its samples were cut
/// into frames, and whatever other phones do meanwhile: while it is connected its queue
/// holds the newest of all its samples at the local rate, its counter their number, its
/// level is that of its last frame, and its name the one it joined with. The arithmetic
/// of the resampler is exact at the step of `num / den` samples.
pub proof fn phone_is_heard_whole<
    T: Copy,
    P,
    L: Fn(Vec<Real32>) -> Real32,
    Q,
    W: Fn(Real64) -> usize,
    A: Fn(Real64, Real64) -> Real64,
    R: Fn(Real64, usize) -> Real64,
    B: Fn(Real32, Real32, Real64, usize) -> T,
>(
    ear: Ear<P, L, Q, W, A, R, B>,
    frames: Seq<Seq<u8>>,
    levels: Seq<Real32>,
    out: Seq<Seq<T>>,
    states: Seq<Resampler<Real32>>,
    events: Seq<Event<T>>,
    lists: Seq<Registry<T>>,
    k: int,
    n: int,
    value: spec_fn(Real64) -> Option<int>,
    mix: spec_fn(Real32, Real32, int) -> T,
    num: int,
    den: int,
    limit: int,
)
    requires
        is_heard(ear, frames, levels, out, states),
        is_exact(ear.path, states[0].step, value, mix, num, den, limit),
        forall|c: int| 0 <= c < frames.len() ==> samples_in(#[trigger] frames[c]).len() * den <= limit,
        is_run(events, lists),
        0 <= k < n < lists.len(),
        events[k] is Join,
        forall|i: int| k < i < n ==> (#[trigger] events[i]) != Event::<T>::Leave(lists[k].next_id),
        forall|i: int| k < i < n ==> !renames(#[trigger] events[i], lists[k].next_id),
        frames_of(events, lists[k].next_id, k + 1, n) == paired(levels, out),
    ensures
        lists[n].has(lists[k].next_id),
        ({
            let phone = lists[n].clients[lists[n].position(lists[k].next_id)];
            let stream = joined(decoded(frames), frames.len() as int);
            let all = outputs_of(mix, stream, num, den);
            &&& phone.ring.buf@ == newest(all, REMOTE_RING_LEN as nat)
            &&& phone.ring.total == all.len()
            &&& frames.len() > 0 ==> is_level(ear.level, samples_in(frames.last()), phone.level)
            &&& phone.name@ == events[k]->Join_0
        }),
{
    let id = lists[k].next_id;
    let name = events[k]->Join_0;
    let blocks = decoded(frames);
    let last = frames.len() as int;
    queue_holds_the_newest_of_all_frames(events, lists, k, n);
    let all = paired(levels, out);
    assert(all.take(last) =~= all);
    sent_is_joined(events, id, name, k + 1, n, levels, out, last);
    assert(is_resampling(ear.path, blocks, out, states)) by {
        assert forall|c: int| 0 <= c < blocks.len() implies #[trigger] crate::resample::follows(
            ear.path,
            blocks,
            out,
            states,
            c,
        ) by {
            assert(framed(ear, states[c], frames[c], levels[c], out[c], states[c + 1]));
        }
        assert forall|c: int| 0 <= c < blocks.len() implies (#[trigger] blocks[c]).len() <= usize::MAX by {
            assert(frames[c].len() <= usize::MAX);
        }
    }
    assert forall|c: int| 0 <= c < blocks.len() implies (#[trigger] blocks[c]).len() * den <= limit by {
        assert(samples_in(frames[c]).len() * den <= limit);
    }
    let stream = joined(blocks, last);
    outputs_do_not_depend_on_the_cuts(ear.path, blocks, out, states, value, mix, num, den, limit, stream);
    if last > 0 {
        assert(framed(ear, states[last - 1], frames[last - 1], levels[last - 1], out[last - 1], states[last]));
    }
}

} // verus!
