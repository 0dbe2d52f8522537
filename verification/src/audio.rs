//! Capture: input frames, filter settings, and the queues they end in.
//!
//! Filter settings carry a version; the capture callback rebuilds its filters
//! only when the version changes.

use std::collections::VecDeque;

use vstd::prelude::*;

use crate::ieee::Real32;
use crate::ring::{append_all, keep_newest, newest, section, Ring};

verus! {

/// Mono analysis queue.
pub const RING_LEN: usize = 16384;

/// Stereo scope queue (sample pairs).
pub const STEREO_RING_LEN: usize = 4096;

/// The high-pass cutoff at the start: 80 hertz, as an IEEE 754 pattern.
pub const HP_CUTOFF: u32 = 0x42a0_0000;

/// The low-pass cutoff at the start: 8000 hertz, as an IEEE 754 pattern.
pub const LP_CUTOFF: u32 = 0x45fa_0000;

/// Mono samples with an absolute sample counter, so positions in the stream can
/// be compared against the phone streams' counters.
pub type MonoRing<T> = Ring<T>;

/// Which filters run, and where they cut off.
#[derive(Clone, Copy, Debug)]
pub struct FilterConfig {
    pub hp_enabled: bool,
    pub hp_cutoff: Real32,
    pub lp_enabled: bool,
    pub lp_cutoff: Real32,
}

impl FilterConfig {
    /// The settings agree; cutoffs are compared as numbers.
    pub open spec fn agrees(self, other: FilterConfig) -> bool {
        &&& self.hp_enabled == other.hp_enabled
        &&& self.hp_cutoff.same(other.hp_cutoff)
        &&& self.lp_enabled == other.lp_enabled
        &&& self.lp_cutoff.same(other.lp_cutoff)
    }

    /// Whether the settings agree.
    pub fn matches(&self, other: &FilterConfig) -> (r: bool)
        ensures
            r == self.agrees(*other),
    {
        self.hp_enabled == other.hp_enabled && self.hp_cutoff.equals(&other.hp_cutoff) && self.lp_enabled
            == other.lp_enabled && self.lp_cutoff.equals(&other.lp_cutoff)
    }
}

impl Default for FilterConfig {
    /// Both filters off.
    fn default() -> (r: FilterConfig)
        ensures
            r == (FilterConfig {
                hp_enabled: false,
                hp_cutoff: Real32 { bits: HP_CUTOFF },
                lp_enabled: false,
                lp_cutoff: Real32 { bits: LP_CUTOFF },
            }),
    {
        FilterConfig {
            hp_enabled: false,
            hp_cutoff: Real32::from_bits(HP_CUTOFF),
            lp_enabled: false,
            lp_cutoff: Real32::from_bits(LP_CUTOFF),
        }
    }
}

/// The filter settings and how often they changed.
pub struct FilterControl {
    pub config: FilterConfig,
    pub version: u64,
}

impl FilterControl {
    /// The settings at the start. The version is ahead of that of a fresh chain,
    /// so the first callback builds the filters.
    pub fn new() -> (r: Self)
        ensures
            r.version == 1,
            r.config == (FilterConfig {
                hp_enabled: false,
                hp_cutoff: Real32 { bits: HP_CUTOFF },
                lp_enabled: false,
                lp_cutoff: Real32 { bits: LP_CUTOFF },
            }),
    {
        FilterControl { config: FilterConfig::default(), version: 1 }
    }

    /// The settings.
    pub fn filter_config(&self) -> (r: FilterConfig)
        ensures
            r == self.config,
    {
        self.config
    }

    /// Changes the settings; ones that agree with the present are no change.
    pub fn set_filter_config(&mut self, config: FilterConfig)
        ensures
            old(self).config.agrees(config) ==> *final(self) == *old(self),
            !old(self).config.agrees(config) ==> {
                &&& final(self).config == config
                &&& final(self).version == (old(self).version + 1) % 0x1_0000_0000_0000_0000
            },
    {
        if !self.config.matches(&config) {
            self.config = config;
            self.version = self.version.wrapping_add(1);
        }
    }
}

/// Independent filter state per signal path: 0 = mono mix, 1 = left, 2 = right.
/// `F` is the caller's filter.
pub struct FilterChain<F> {
    pub version_seen: u64,
    pub hp: Option<[F; 3]>,
    pub lp: Option<[F; 3]>,
}

impl<F: Copy> FilterChain<F> {
    /// No filters; every version from 1 on is news.
    pub fn new() -> (r: Self)
        ensures
            r.version_seen == 0,
            r.hp is None,
            r.lp is None,
    {
        FilterChain { version_seen: 0, hp: None, lp: None }
    }

    /// Whether the filters were built for other settings.
    pub fn is_stale(&self, control: &FilterControl) -> (r: bool)
        ensures
            r == (self.version_seen != control.version),
    {
        self.version_seen != control.version
    }

    /// Rebuilds the filters if the settings changed; `hp` and `lp` are fresh
    /// filters for them. Otherwise the filters keep running.
    pub fn sync(&mut self, control: &FilterControl, hp: F, lp: F)
        ensures
            old(self).version_seen == control.version ==> *final(self) == *old(self),
            old(self).version_seen != control.version ==> {
                &&& final(self).version_seen == control.version
                &&& match final(self).hp {
                    Some(f) => control.config.hp_enabled && f@ == seq![hp, hp, hp],
                    None => !control.config.hp_enabled,
                }
                &&& match final(self).lp {
                    Some(f) => control.config.lp_enabled && f@ == seq![lp, lp, lp],
                    None => !control.config.lp_enabled,
                }
            },
    {
        if self.version_seen == control.version {
            return;
        }
        self.version_seen = control.version;
        self.hp = if control.config.hp_enabled {
            let three: [F; 3] = [hp, hp, hp];
            assert(three@ =~= seq![hp, hp, hp]);
            Some(three)
        } else {
            None
        };
        self.lp = if control.config.lp_enabled {
            let three: [F; 3] = [lp, lp, lp];
            assert(three@ =~= seq![lp, lp, lp]);
            Some(three)
        } else {
            None
        };
    }
}

/// Path `channel` of a bank of filters after one sample: the filter there ran, the
/// others are as they were.
pub open spec fn ran_at<F, T, R: Fn(F, T) -> (F, T)>(
    run: R,
    before: Seq<F>,
    after: Seq<F>,
    channel: int,
    x: T,
    y: T,
) -> bool {
    &&& call_ensures(run, (before[channel], x), (after[channel], y))
    &&& after == before.update(channel, after[channel])
}

/// What one stage of the chain makes of a sample: a stage that is switched off
/// hands it on.
pub open spec fn stage_ran<F, T, R: Fn(F, T) -> (F, T)>(
    run: R,
    before: Option<[F; 3]>,
    after: Option<[F; 3]>,
    channel: int,
    x: T,
    y: T,
) -> bool {
    match (before, after) {
        (Some(b), Some(a)) => ran_at(run, b@, a@, channel, x, y),
        (None, None) => x == y,
        _ => false,
    }
}

/// Runs one stage.
fn run_stage<F: Copy, T: Copy, R: Fn(F, T) -> (F, T)>(stage: Option<[F; 3]>, channel: usize, x: T, run: &R) -> (r: (
    Option<[F; 3]>,
    T,
))
    requires
        channel < 3,
        forall|f: F, v: T| call_requires(*run, (f, v)),
    ensures
        stage_ran(*run, stage, r.0, channel as int, x, r.1),
{
    match stage {
        Some(filters) => {
            let mut next: [F; 3] = filters;
            let (f, y): (F, T) = run(filters[channel], x);
            next[channel] = f;
            assert(next@ =~= filters@.update(channel as int, f));
            (Some(next), y)
        },
        None => (None, x),
    }
}

impl<F: Copy> FilterChain<F> {
    /// Runs a sample through the filters of a signal path, high-pass first. `run` is
    /// one step of a filter: it gives the filter afterwards and its output.
    pub fn process<T: Copy, R: Fn(F, T) -> (F, T)>(&mut self, channel: usize, x: T, run: R) -> (y: T)
        requires
            channel < 3,
            forall|f: F, v: T| call_requires(run, (f, v)),
        ensures
            final(self).version_seen == old(self).version_seen,
            exists|mid: T|
                #[trigger] stage_ran(run, old(self).hp, final(self).hp, channel as int, x, mid) && stage_ran(
                    run,
                    old(self).lp,
                    final(self).lp,
                    channel as int,
                    mid,
                    y,
                ),
    {
        let (hp, mid): (Option<[F; 3]>, T) = run_stage(self.hp, channel, x, &run);
        let (lp, y): (Option<[F; 3]>, T) = run_stage(self.lp, channel, mid, &run);
        self.hp = hp;
        self.lp = lp;
        assert(stage_ran(run, old(self).hp, self.hp, channel as int, x, mid));
        y
    }
}

/// The signal paths do not interfere: a sample on one leaves the filters of the
/// others alone, and a chain that is switched off hands samples on unchanged.
pub proof fn paths_do_not_interfere<F, T, R: Fn(F, T) -> (F, T)>(
    run: R,
    before: Option<[F; 3]>,
    after: Option<[F; 3]>,
    channel: int,
    other: int,
    x: T,
    y: T,
)
    requires
        stage_ran(run, before, after, channel, x, y),
        0 <= channel < 3,
        0 <= other < 3,
        other != channel,
    ensures
        before is None ==> after is None && x == y,
        before is Some ==> after is Some && after->0@[other] == before->0@[other],
{
}

/// A change of settings gives a version that a chain which was up to date has not
/// seen.
pub proof fn changes_are_seen(version: int)
    requires
        0 <= version < 0x1_0000_0000_0000_0000,
    ensures
        (version + 1) % 0x1_0000_0000_0000_0000 != version,
{
}

/// How many frames some interleaved samples make; the last may be short.
pub open spec fn frame_count(samples: int, channels: int) -> int {
    (samples + channels - 1) / channels
}

/// Frame `i` of interleaved samples.
pub open spec fn frame_at<T>(data: Seq<T>, channels: int, i: int) -> Seq<T> {
    let end = if i * channels + channels <= data.len() {
        i * channels + channels
    } else {
        data.len() as int
    };
    data.subrange(i * channels, end)
}

/// The frames of interleaved samples.
pub fn frames<T: Copy>(data: &Vec<T>, channels: usize) -> (r: Vec<Vec<T>>)
    requires
        channels > 0,
    ensures
        r.len() == frame_count(data.len() as int, channels as int),
        forall|i: int|
            0 <= i < r.len() ==> {
                &&& (#[trigger] r[i])@ == frame_at(data@, channels as int, i)
                &&& r[i].len() > 0
            },
{
    let mut r: Vec<Vec<T>> = Vec::new();
    proof {
        if data.len() == 0 {
            vstd::arithmetic::div_mod::lemma_basic_div(channels - 1, channels as int);
        }
    }
    let mut from: usize = 0;
    while from < data.len()
        invariant
            channels > 0,
            from <= data.len(),
            from < data.len() ==> from == r.len() * channels,
            from == data.len() ==> r.len() == frame_count(data.len() as int, channels as int),
            forall|i: int|
                0 <= i < r.len() ==> {
                    &&& (#[trigger] r[i])@ == frame_at(data@, channels as int, i)
                    &&& r[i].len() > 0
                },
            data.len() == 0 ==> r.len() == 0,
        decreases data.len() - from,
    {
        let n: usize = if data.len() - from < channels { data.len() - from } else { channels };
        let ghost k = r.len() as int;
        r.push(section(data, from, n));
        proof {
            let c = channels as int;
            assert((k + 1) * c == k * c + c) by (nonlinear_arith);
            if from + n == data.len() {
                last_frame(data.len() as int, c, k);
            }
        }
        from = from + n;
    }
    r
}

proof fn last_frame(samples: int, channels: int, k: int)
    requires
        channels > 0,
        k >= 0,
        k * channels < samples <= k * channels + channels,
    ensures
        frame_count(samples, channels) == k + 1,
{
    let rest = samples - k * channels - 1;
    assert(samples + channels - 1 == (k + 1) * channels + rest) by (nonlinear_arith)
        requires
            rest == samples - k * channels - 1,
    ;
    vstd::arithmetic::div_mod::lemma_fundamental_div_mod_converse(samples + channels - 1, channels, k + 1, rest);
}

/// The frames are the samples: none is lost, repeated or moved.
pub proof fn frames_cover_the_samples<T>(data: Seq<T>, channels: int, i: int)
    requires
        channels > 0,
        0 <= i < data.len(),
    ensures
        0 <= i / channels < frame_count(data.len() as int, channels),
        0 <= i % channels < frame_at(data, channels, i / channels).len(),
        frame_at(data, channels, i / channels)[i % channels] == data[i],
{
    let k = i / channels;
    vstd::arithmetic::div_mod::lemma_fundamental_div_mod(i, channels);
    vstd::arithmetic::div_mod::lemma_div_pos_is_pos(i, channels);
    assert(channels * k == k * channels) by (nonlinear_arith);
    vstd::arithmetic::div_mod::lemma_div_is_ordered(i + channels, data.len() + channels - 1, channels);
    vstd::arithmetic::div_mod::lemma_div_plus_one(i, channels);
}

/// The two channels that the scope shows: a frame of one channel is heard on
/// both.
pub fn stereo_pair<T: Copy>(frame: &Vec<T>) -> (r: (T, T))
    requires
        frame.len() > 0,
    ensures
        r.0 == frame[0],
        r.1 == (if frame.len() > 1 {
            frame[1]
        } else {
            frame[0]
        }),
{
    (frame[0], if frame.len() > 1 { frame[1] } else { frame[0] })
}

/// The queues that capture ends in: filtered mono samples, and filtered pairs
/// when the device is stereo.
pub struct Capture<T> {
    pub mono: MonoRing<T>,
    pub stereo: Option<VecDeque<(T, T)>>,
}

impl<T: Copy> Capture<T> {
    /// The queues are within bounds.
    pub open spec fn well_formed(&self) -> bool {
        &&& self.mono.well_formed(RING_LEN as nat)
        &&& match self.stereo {
            Some(s) => s@.len() <= STEREO_RING_LEN,
            None => true,
        }
    }

    /// Empty queues for a device with this many channels.
    pub fn new(channels: usize) -> (r: Self)
        ensures
            r.well_formed(),
            r.mono.buf@ == Seq::<T>::empty(),
            r.mono.total == 0,
            match r.stereo {
                Some(s) => channels >= 2 && s@ == Seq::<(T, T)>::empty(),
                None => channels < 2,
            },
    {
        let stereo: Option<VecDeque<(T, T)>> = if channels >= 2 { Some(VecDeque::new()) } else { None };
        Capture { mono: Ring::new(), stereo }
    }

    /// Takes in filtered samples: one mono sample and one pair to each frame.
    pub fn ingest(&mut self, mono: &Vec<T>, pairs: &Vec<(T, T)>)
        requires
            old(self).well_formed(),
            old(self).mono.total + mono.len() <= u64::MAX,
        ensures
            final(self).well_formed(),
            final(self).mono.buf@ == newest(old(self).mono.buf@ + mono@, RING_LEN as nat),
            final(self).mono.total == old(self).mono.total + mono.len(),
            match (old(self).stereo, final(self).stereo) {
                (Some(before), Some(after)) => after@ == newest(before@ + pairs@, STEREO_RING_LEN as nat),
                (None, None) => true,
                _ => false,
            },
    {
        self.mono.take_in(mono, RING_LEN);
        match &mut self.stereo {
            Some(s) => {
                append_all(s, pairs);
                keep_newest(s, STEREO_RING_LEN);
            },
            None => {},
        }
    }
}

/// A signal that is played once, then silence.
pub struct Playback<T> {
    pub samples: Vec<T>,
    pub pos: usize,
    pub silence: T,
}

impl<T: Copy> Playback<T> {
    /// The next sample.
    pub fn next_sample(&mut self) -> (v: T)
        ensures
            final(self).samples@ == old(self).samples@,
            final(self).silence == old(self).silence,
            old(self).pos < old(self).samples.len() ==> {
                &&& v == old(self).samples[old(self).pos as int]
                &&& final(self).pos == old(self).pos + 1
            },
            old(self).pos >= old(self).samples.len() ==> v == old(self).silence && final(self).pos == old(self).pos,
    {
        if self.pos < self.samples.len() {
            let v: T = self.samples[self.pos];
            self.pos = self.pos + 1;
            v
        } else {
            self.silence
        }
    }
}

} // verus!
