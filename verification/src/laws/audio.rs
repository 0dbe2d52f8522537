//! What becomes of the samples that are captured, and of what phones send.

use vstd::prelude::*;

use crate::audio::{frame_at, frame_count, frames, ran_at, stage_ran, stereo_pair, Capture};
use crate::audio::{FilterChain, FilterConfig, FilterControl, Playback};
use crate::identity::{certificate_names, identity_from, Identity, IdentityError};
use crate::ieee::{Real32, Real64};
use crate::qr::{dark_at, picture};
use crate::remote::{
    accepted, blended_at, first_digit, name_in, name_value, number_end, points, rate_in, resampled, sample_at,
    samples_in, virtual_stream, walked, Incoming, Path, Registry, Resampler,
};
use crate::remote::{accepts_rate, announce, decode_samples, parse_name, parse_sr, service_url};
use crate::ring::newest;
use crate::stream::{framed, fresh, introduced, perform, Action, Ear, PhoneStream};
use crate::text::{digits, first_occurrence, is_space, numeral, occurs_at, trim_end, trim_start};

verus! {

/// Two settings agree exactly if the same filters are on and their cutoffs are the same
/// numbers.
pub proof fn settings_agree(a: FilterConfig, b: FilterConfig)
    ensures
        a.agrees(b) <==> a.hp_enabled == b.hp_enabled && a.lp_enabled == b.lp_enabled && a.hp_cutoff.same(b.hp_cutoff)
            && a.lp_cutoff.same(b.lp_cutoff),
{
}

/// A stage that is on runs the filter of the channel, and no other channel's changes; one
/// that is off passes the sample on.
pub proof fn filters_run_on_their_channel<F, T, R: Fn(F, T) -> (F, T)>(
    run: R,
    before: Option<[F; 3]>,
    after: Option<[F; 3]>,
    channel: int,
    x: T,
    y: T,
    other: int,
)
    requires
        stage_ran(run, before, after, channel, x, y),
        0 <= channel < 3,
        0 <= other < 3,
    ensures
        before is Some <==> after is Some,
        before is None ==> y == x,
        before matches Some(b) ==> call_ensures(run, (b[channel], x), (after->0[channel], y)) && (other != channel
            ==> after->0[other] == b[other]),
{
    if before is Some {
        let (b, a) = (before->0, after->0);
        assert(ran_at(run, b@, a@, channel, x, y));
        assert(a@ == b@.update(channel, a@[channel]));
        if other != channel {
            assert(a@[other] == b@[other]);
        }
    }
}

/// Every sample is in one frame: sample `k` stands in frame `k / channels` at its channel.
/// All frames are full but perhaps the last.
pub proof fn every_sample_is_in_a_frame<T>(data: Seq<T>, channels: int, k: int)
    requires
        0 < channels,
        0 <= k < data.len(),
    ensures
        0 <= k / channels < frame_count(data.len() as int, channels),
        k % channels < frame_at(data, channels, k / channels).len() <= channels,
        frame_at(data, channels, k / channels)[k % channels] == data[k],
        (k / channels + 1) * channels <= data.len() ==> frame_at(data, channels, k / channels).len() == channels,
{
    let i = k / channels;
    let c = k % channels;
    assert(k == i * channels + c && 0 <= c < channels && 0 <= i) by (nonlinear_arith)
        requires
            i == k / channels,
            c == k % channels,
            0 < channels,
            0 <= k,
    ;
    assert((i + 1) * channels == i * channels + channels) by (nonlinear_arith);
    let n = data.len() as int;
    let count = (n + channels - 1) / channels;
    assert(i < count) by (nonlinear_arith)
        requires
            count == (n + channels - 1) / channels,
            i * channels + c < n,
            0 <= c,
            0 < channels,
    ;
    let frame = frame_at(data, channels, i);
    assert(frame[c] == data[i * channels + c]);
}

/// The text that is searched for is found at its first place, and not found exactly if it
/// stands nowhere.
pub proof fn search_finds_the_first_place(hay: Seq<char>, needle: Seq<char>, from: int, i: int)
    requires
        0 <= from <= i,
        i + needle.len() <= hay.len(),
    ensures
        match first_occurrence(hay, needle, from) {
            Some(k) => {
                &&& from <= k
                &&& k + needle.len() <= hay.len()
                &&& forall|j: int| 0 <= j < needle.len() ==> hay[k + j] == #[trigger] needle[j]
                &&& i < k ==> exists|j: int| 0 <= j < needle.len() && hay[i + j] != #[trigger] needle[j]
            },
            None => exists|j: int| 0 <= j < needle.len() && hay[i + j] != #[trigger] needle[j],
        },
    decreases hay.len() - from,
{
    let part = hay.subrange(from, from + needle.len());
    if occurs_at(hay, needle, from) {
        assert forall|j: int| 0 <= j < needle.len() implies hay[from + j] == #[trigger] needle[j] by {
            assert(part[j] == needle[j]);
        }
    } else {
        if from < i {
            search_finds_the_first_place(hay, needle, from + 1, i);
        } else {
            if forall|j: int| 0 <= j < needle.len() ==> hay[i + j] == #[trigger] needle[j] {
                assert(part =~= needle);
            }
            if from + 1 + needle.len() <= hay.len() {
                search_finds_the_first_place(hay, needle, from + 1, from + 1);
            } else {
                nothing_fits(hay, needle, from + 1);
            }
        }
    }
}

proof fn nothing_fits(hay: Seq<char>, needle: Seq<char>, from: int)
    requires
        from + needle.len() > hay.len(),
        0 <= from,
    ensures
        first_occurrence(hay, needle, from) is None,
    decreases hay.len() + 1 - from,
{
    if from <= hay.len() {
        nothing_fits(hay, needle, from + 1);
    }
}

/// What is trimmed is white space and nothing else, on either side as far as it goes.
pub proof fn only_white_space_is_trimmed(s: Seq<char>, from: int, to: int, i: int)
    requires
        0 <= from <= to <= s.len(),
    ensures
        ({
            let a = trim_start(s, from, to);
            let b = trim_end(s, from, to);
            &&& from <= a <= to
            &&& from <= b <= to
            &&& from <= i < a ==> is_space(s[i])
            &&& a < to ==> !is_space(s[a])
            &&& b <= i < to ==> is_space(s[i])
            &&& from < b ==> !is_space(s[b - 1])
        }),
    decreases to - from,
{
    if from < to {
        if is_space(s[from]) {
            only_white_space_is_trimmed(s, from + 1, to, i);
        }
        end_is_trimmed(s, from, to, i);
    }
}

proof fn end_is_trimmed(s: Seq<char>, from: int, to: int, i: int)
    requires
        0 <= from <= to <= s.len(),
    ensures
        from <= trim_end(s, from, to) <= to,
        trim_end(s, from, to) <= i < to ==> is_space(s[i]),
        from < trim_end(s, from, to) ==> !is_space(s[trim_end(s, from, to) - 1]),
    decreases to - from,
{
    if from < to && is_space(s[to - 1]) {
        end_is_trimmed(s, from, to - 1, i);
    }
}

/// The name in a message is what stands between the first two quotation marks behind the
/// first key `"name"`, trimmed, and of that the first 20 characters; there is none exactly
/// if one of these is missing or nothing is left.
pub proof fn name_is_the_quoted_value(text: Seq<char>)
    ensures
        ({
            let key = first_occurrence(text, "\"name\""@, 0);
            let open = first_occurrence(text, "\""@, key->0 + 6);
            let close = first_occurrence(text, "\""@, open->0 + 1);
            let a = trim_start(text, open->0 + 1, close->0);
            let b = trim_end(text, a, close->0);
            &&& key is None || open is None || close is None ==> name_in(text) is None
            &&& key is Some && open is Some && close is Some ==> (name_in(text) is Some <==> a < b)
            &&& name_in(text) matches Some(name) ==> name == text.subrange(a, if b - a <= 20 {
                b
            } else {
                a + 20
            })
        }),
{
    assert(name_value(text) is Some || name_value(text) is None);
}

/// The numeral of a rate starts with the first digit behind the key `"sr"` and goes on as
/// long as there are digits and points; there is none exactly if the key or a digit is
/// missing or there is more than one point.
pub proof fn rate_is_the_next_numeral(text: Seq<char>, from: int, i: int)
    requires
        0 <= from <= text.len(),
    ensures
        ({
            let a = first_digit(text, from);
            let b = number_end(text, from);
            &&& from <= a <= text.len()
            &&& from <= i < a ==> !('0' <= text[i] <= '9')
            &&& a < text.len() ==> '0' <= text[a] <= '9'
            &&& from <= b <= text.len()
            &&& from <= i < b ==> '0' <= text[i] <= '9' || text[i] == '.'
            &&& b < text.len() ==> !('0' <= text[b] <= '9' || text[b] == '.')
        }),
        points(text, from, from) == 0,
        from < text.len() && i <= from ==> points(text, i, from + 1) == points(text, i, from) + (if text[from] == '.' {
            1int
        } else {
            0int
        }),
        ({
            let key = first_occurrence(text, "\"sr\""@, 0);
            let a = first_digit(text, key->0 + 4);
            let b = number_end(text, a);
            &&& rate_in(text) is Some <==> key is Some && a < b && points(text, a, b) <= 1
            &&& rate_in(text) matches Some(n) ==> n == text.subrange(a, b)
        }),
    decreases text.len() - from,
{
    if from < text.len() {
        rate_is_the_next_numeral(text, from + 1, i);
    }
}

/// A rate is accepted from 8000 to 192000 hertz, both included. Every four bytes are a
/// sample, the lowest byte first; up to three left over are none.
pub proof fn bytes_are_samples(rate: Real32, bytes: Seq<u8>, i: int)
    requires
        0 <= i < samples_in(bytes).len(),
    ensures
        accepted(rate) <==> (Real32 { bits: 0x45fa_0000 }).at_most(rate) && rate.at_most(Real32 { bits: 0x483b_8000 }),
        samples_in(bytes).len() == bytes.len() / 4,
        4 * i + 3 < bytes.len(),
        samples_in(bytes)[i].bits == bytes[4 * i] + 256 * bytes[4 * i + 1] + 65536 * bytes[4 * i + 2] + 16777216 * bytes[4
            * i + 3],
{
    assert(samples_in(bytes)[i] == sample_at(bytes, i));
}

/// A block is heard behind the last sample before it, or behind its own first at the
/// start.
pub proof fn blocks_are_heard_behind_the_last<T>(last: Option<T>, input: Seq<T>, i: int)
    requires
        0 <= i < input.len(),
    ensures
        virtual_stream(last, input).len() == input.len() + 1,
        virtual_stream(last, input)[i + 1] == input[i],
        last matches Some(v) ==> virtual_stream(last, input)[0] == v,
        last is None ==> virtual_stream(last, input)[0] == input[0],
{
}

/// A numeral has a digit for every power of ten, the last one that of the units, and a
/// minus before a negative number.
pub proof fn numerals_are_decimal(n: nat, i: int)
    ensures
        n < 10 ==> digits(n).len() == 1,
        n >= 10 ==> digits(n).len() == digits(n / 10).len() + 1 && digits(n).drop_last() == digits(n / 10),
        digits(n).last() as int == '0' as int + n % 10,
        i >= 0 ==> numeral(i) == digits(i as nat),
        i < 0 ==> numeral(i) == seq!['-'] + digits((-i) as nat),
{
    if n >= 10 {
        assert(digits(n).drop_last() =~= digits(n / 10));
    }
}

/// The picture of a code has every module at its place, two pixels from the border on
/// every side, and the border is light.
pub proof fn code_has_a_quiet_border(width: int, modules: Seq<bool>, x: int, y: int)
    requires
        0 < width,
        modules.len() == width * width,
        0 <= x < width + 4,
        0 <= y < width + 4,
    ensures
        x < 2 || y < 2 || x >= width + 2 || y >= width + 2 ==> !dark_at(width, modules, x, y),
        2 <= x < width + 2 && 2 <= y < width + 2 ==> dark_at(width, modules, x, y) == modules[(y - 2) * width + (x - 2)],
        picture(width, modules).len() == (width + 4) * (width + 4),
        picture(width, modules)[y * (width + 4) + x] == dark_at(width, modules, x, y),
{
    let side = width + 4;
    vstd::arithmetic::div_mod::lemma_fundamental_div_mod_converse(y * side + x, side, y, x);
    assert(0 <= y * side + x < side * side) by (nonlinear_arith)
        requires
            0 <= x < side,
            0 <= y < side,
    ;
    assert(side * side >= 0) by (nonlinear_arith)
        requires
            side > 0,
    ;
}

/// What a text does to the stream of a phone: a rate that is a number and accepted starts
/// the resampler afresh, at the step between that rate and the local one; any other text
/// leaves it as it is.
pub proof fn accepted_rates_start_afresh<P: Fn(String) -> Option<Real32>, Q: Fn(Real32, Real32) -> Real64>(
    parse: P,
    ratio: Q,
    target_rate: Real32,
    text: Seq<char>,
    before: Resampler<Real32>,
    after: Resampler<Real32>,
) -> (rate: Option<Real32>)
    requires
        introduced(parse, ratio, target_rate, text, before, after),
    ensures
        rate_in(text) is None ==> after == before,
        rate_in(text) matches Some(numeral) ==> {
            &&& exists|n: String| #[trigger] call_ensures(parse, (n,), rate) && n@ == numeral
            &&& rate matches Some(r) ==> accepted(r) ==> call_ensures(ratio, (r, target_rate), after.step)
                && after.pos.bits == 0 && after.last is None
            &&& rate is None || !accepted(rate->0) ==> after == before
        },
{
    match rate_in(text) {
        None => None,
        Some(numeral) => {
            let (n, rate) = choose|n: String, rate: Option<Real32>| #[trigger]
                call_ensures(parse, (n,), rate) && n@ == numeral && match rate {
                    Some(r) => if accepted(r) {
                        fresh(ratio, r, target_rate, after)
                    } else {
                        after == before
                    },
                    None => after == before,
                };
            rate
        },
    }
}

/// The samples of a frame are those of its bytes, and so is its level.
pub proof fn frames_are_of_their_bytes<
    T,
    P,
    L: Fn(Vec<Real32>) -> Real32,
    Q,
    W: Fn(Real64) -> usize,
    A: Fn(Real64, Real64) -> Real64,
    R: Fn(Real64, usize) -> Real64,
    B: Fn(Real32, Real32, Real64, usize) -> T,
>(
    ear: Ear<P, L, Q, W, A, R, B>,
    before: Resampler<Real32>,
    bytes: Seq<u8>,
    level: Real32,
    made: Seq<T>,
    after: Resampler<Real32>,
)
    requires
        framed(ear, before, bytes, level, made, after),
    ensures
        exists|v: Vec<Real32>| #[trigger] v@ == samples_in(bytes) && call_ensures(ear.level, (v,), level),
        resampled(ear.path, before, samples_in(bytes), made, after),
{
}

/// How a block is resampled: a block without samples changes nothing. Otherwise outputs
/// stand a step apart, from the position on as long as its whole part is below the length
/// of the block, each between the sample there and the next; the first position beyond is
/// rewound by that length, and the last sample is kept.
pub proof fn outputs_stand_a_step_apart<
    S,
    T,
    W: Fn(Real64) -> usize,
    A: Fn(Real64, Real64) -> Real64,
    R: Fn(Real64, usize) -> Real64,
    B: Fn(S, S, Real64, usize) -> T,
>(path: Path<W, A, R, B>, before: Resampler<S>, input: Seq<S>, made: Seq<T>, after: Resampler<S>) -> (r: (
    Seq<Real64>,
    Seq<usize>,
))
    requires
        resampled(path, before, input, made, after),
    ensures
        input.len() == 0 ==> made.len() == 0 && after == before,
        input.len() > 0 ==> {
            let (walk, at) = r;
            let v = virtual_stream(before.last, input);
            let n = made.len() as int;
            &&& after.step == before.step
            &&& after.last == Some(input[input.len() - 1])
            &&& walk.len() == n + 1
            &&& at.len() == n + 1
            &&& walk[0] == before.pos
            &&& forall|j: int| 0 <= j <= n ==> call_ensures(path.whole, (walk[j],), #[trigger] at[j])
            &&& forall|j: int| 0 <= j < n ==> (#[trigger] at[j]) < input.len()
            &&& at[n] >= input.len()
            &&& forall|j: int| 0 <= j < n ==> call_ensures(path.advance, (#[trigger] walk[j], before.step), walk[j + 1])
            &&& forall|j: int|
                0 <= j < n ==> call_ensures(
                    path.blend,
                    (v[at[j] as int], v[at[j] + 1], walk[j], at[j]),
                    #[trigger] made[j],
                )
            &&& call_ensures(path.rewind, (walk[n], input.len() as usize), after.pos)
        },
{
    if input.len() == 0 {
        (Seq::empty(), Seq::empty())
    } else {
        let n = input.len() as int;
        let v = virtual_stream(before.last, input);
        choose|walk: Seq<Real64>, at: Seq<usize>|
            #![trigger walked(path.whole, path.advance, before.step, n, before.pos, walk, at)]
            {
                &&& walked(path.whole, path.advance, before.step, n, before.pos, walk, at)
                &&& blended_at(path.blend, v, walk, at, made)
                &&& call_ensures(path.rewind, (walk.last(), n as usize), after.pos)
            }
    }
}

/// Joining, leaving, renaming and receiving touch one phone: it joins last, as a new one
/// with nothing heard; it leaves alone; and of another only the name changes, or only the
/// level and the queue.
pub proof fn one_phone_at_a_time<T: Copy>(
    before: Registry<T>,
    after: Registry<T>,
    id: u64,
    name: Seq<char>,
    level: Real32,
    samples: Seq<T>,
    i: int,
)
    requires
        0 <= i < before.clients.len(),
        before.well_formed(),
    ensures
        after.joined(&before, name) ==> {
            let new = after.clients[before.clients.len() as int];
            &&& after.clients.len() == before.clients.len() + 1
            &&& after.clients[i] == before.clients[i]
            &&& new.id == before.next_id && after.next_id == before.next_id + 1
            &&& new.name@ == name && new.ring.buf@.len() == 0 && new.ring.total == 0 && new.level.bits == 0
        },
        after.left(&before, id) && before.clients[i].id != id ==> after.clients@.contains(before.clients[i]),
        after.left(&before, id) ==> after.next_id == before.next_id,
        after.renamed(&before, id, name) ==> {
            &&& after.clients.len() == before.clients.len()
            &&& before.clients[i].id != id ==> after.clients[i] == before.clients[i]
            &&& before.clients[i].id == id ==> after.clients[i].name@ == name && after.clients[i].id == id
                && after.clients[i].ring == before.clients[i].ring && after.clients[i].level == before.clients[i].level
        },
        after.received(&before, id, level, samples) ==> {
            &&& after.clients.len() == before.clients.len()
            &&& before.clients[i].id != id ==> after.clients[i] == before.clients[i]
            &&& before.clients[i].id == id ==> {
                let is = after.clients[i];
                let was = before.clients[i];
                let all = was.ring.buf@ + samples;
                let kept = is.ring.buf@;
                &&& is.id == id && is.name@ == was.name@ && is.level == level
                &&& is.ring.total == was.ring.total + samples.len()
                &&& kept.len() == (if all.len() < 16384 {
                    all.len()
                } else {
                    16384
                })
                &&& forall|k: int| 0 <= k < kept.len() ==> (#[trigger] kept[k]) == all[all.len() - kept.len() + k]
            }
        },
{
    let was = before.clients[i];
    if was.id == id {
        assert(before.has(id));
        let p = before.position(id);
        assert(before.clients[p].id == id);
        if p < i {
            assert(before.clients[p].id != before.clients[i].id);
        } else if i < p {
            assert(before.clients[i].id != before.clients[p].id);
        }
    } else if before.has(id) {
        let p = before.position(id);
        assert(before.clients[p].id == id);
        if after.left(&before, id) {
            let now = if i < p {
                i
            } else {
                i - 1
            };
            assert(after.clients@[now] == was);
        }
    } else if after.left(&before, id) {
        assert(after.clients@[i] == was);
    }
    if after.joined(&before, name) {
        assert(after.clients@.drop_last()[i] == before.clients@[i]);
    }
}

/// White space is what Unicode has as such.
pub proof fn white_space_is_that_of_unicode(c: char)
    ensures
        is_space(c) <==> ('\u{9}' <= c <= '\u{d}' || ('\u{2000}' <= c <= '\u{200a}') || c == ' ' || c == '\u{85}' || c
            == '\u{a0}' || c == '\u{1680}' || c == '\u{2028}' || c == '\u{2029}' || c == '\u{202f}' || c == '\u{205f}'
            || c == '\u{3000}'),
{
}

/// What a message says, and what the service says of itself.
pub proof fn messages_are_parsed(
    text: &str,
    name: Option<String>,
    number: Option<String>,
    bytes: &Vec<u8>,
    samples: Vec<Real32>,
    rate: &Real32,
    fine: bool,
    ip: &Option<String>,
    url: Result<String, String>,
    at: String,
    launched: Result<(), String>,
    said: Result<String, String>,
)
    requires
        call_ensures(parse_name, (text,), name),
        call_ensures(parse_sr, (text,), number),
        call_ensures(decode_samples, (bytes,), samples),
        call_ensures(accepts_rate, (rate,), fine),
        call_ensures(service_url, (ip,), url),
        call_ensures(announce, (at, launched), said),
    ensures
        name is Some <==> name_in(text@) is Some,
        name matches Some(n) ==> name_in(text@) == Some(n@),
        number is Some <==> rate_in(text@) is Some,
        number matches Some(n) ==> rate_in(text@) == Some(n@),
        samples@ == samples_in(bytes@),
        fine == accepted(*rate),
        url is Ok <==> ip is Some,
        url matches Ok(u) ==> u@ == "https://"@ + ip->0@ + ":"@ + digits(7777),
        said is Ok <==> launched is Ok,
        said matches Ok(u) ==> u@ == at@,
        said matches Err(e) ==> e@ == "phone mic service failed ("@ + at@ + "): "@ + launched->Err_0@,
{
}

/// The list of phones changes as the laws say.
pub proof fn list_changes_by_one_phone<T: Copy>(
    a: &mut Registry<T>,
    name: String,
    id: u64,
    b: &mut Registry<T>,
    c: &mut Registry<T>,
    d: &mut Registry<T>,
    level: Real32,
    samples: &Vec<T>,
    which: u64,
)
    requires
        call_ensures(Registry::<T>::add, (a, name), id),
        call_ensures(Registry::<T>::remove, (b, which), ()),
        call_ensures(Registry::<T>::rename, (c, which, name), ()),
        call_ensures(Registry::<T>::receive, (d, which, level, samples), ()),
    ensures
        id == old(a).next_id,
        final(a).joined(old(a), name@),
        final(b).left(old(b), which),
        !final(b).has(which),
        final(c).renamed(old(c), which, name@),
        final(d).received(old(d), which, level, samples@),
{
}

/// A block of samples is resampled and appended to what there is.
pub proof fn blocks_are_resampled<
    S: Copy,
    T,
    W: Fn(Real64) -> usize,
    A: Fn(Real64, Real64) -> Real64,
    R: Fn(Real64, usize) -> Real64,
    B: Fn(S, S, Real64, usize) -> T,
>(s: &mut Resampler<S>, input: &Vec<S>, out: &mut Vec<T>, path: &Path<W, A, R, B>)
    requires
        call_ensures(Resampler::<S>::process::<T, W, A, R, B>, (s, input, out, path), ()),
    ensures
        exists|made: Seq<T>| #[trigger]
            resampled(*path, *old(s), input@, made, *final(s)) && final(out)@ == old(out)@ + made,
{
}

/// A phone is heard as its messages say: a text may start its resampler afresh and give it
/// a name, bytes are a frame, a close ends it, and nothing else does anything.
pub proof fn phones_are_heard<
    T,
    P: Fn(String) -> Option<Real32>,
    L: Fn(Vec<Real32>) -> Real32,
    Q: Fn(Real32, Real32) -> Real64,
    W: Fn(Real64) -> usize,
    A: Fn(Real64, Real64) -> Real64,
    R: Fn(Real64, usize) -> Real64,
    B: Fn(Real32, Real32, Real64, usize) -> T,
>(s: &mut PhoneStream, message: &Incoming, ear: &Ear<P, L, Q, W, A, R, B>, action: Action<T>)
    requires
        call_ensures(PhoneStream::hear::<T, P, L, Q, W, A, R, B>, (s, message, ear), action),
    ensures
        final(s).id == old(s).id,
        message matches Incoming::Text(t) ==> {
            &&& introduced(
                ear.parse,
                ear.ratio,
                old(s).target_rate,
                t@,
                old(s).resampler,
                final(s).resampler,
            )
            &&& action is Rename <==> name_in(t@) is Some
            &&& action matches Action::Rename(n) ==> name_in(t@) == Some(n@)
            &&& action is Rename || action is Nothing
        },
        message matches Incoming::Binary(bytes) ==> {
            &&& action is Frame
            &&& action matches Action::Frame(level, made) ==> framed(
                *ear,
                old(s).resampler,
                bytes@,
                level,
                made@,
                final(s).resampler,
            )
        },
        message is Close ==> action is Stop && final(s).resampler == old(s).resampler,
        message is Other ==> action is Nothing && final(s).resampler == old(s).resampler,
{
}

/// Every sample that is captured is kept while it is among the newest 16384, and every pair
/// among the newest 4096, if pairs are kept.
pub proof fn newest_samples_are_captured<T: Copy>(c: &mut Capture<T>, mono: &Vec<T>, pairs: &Vec<(T, T)>)
    requires
        call_ensures(Capture::<T>::ingest, (c, mono, pairs), ()),
    ensures
        final(c).mono.buf@ == newest(old(c).mono.buf@ + mono@, 16384),
        final(c).mono.total == old(c).mono.total + mono.len(),
        final(c).stereo is Some <==> old(c).stereo is Some,
        final(c).stereo matches Some(s) ==> s@ == newest(old(c).stereo->0@ + pairs@, 4096),
{
}

/// Samples are cut into frames, of which the first two channels are left and right.
pub proof fn samples_are_cut_into_frames<T: Copy>(
    data: &Vec<T>,
    channels: usize,
    r: Vec<Vec<T>>,
    frame: &Vec<T>,
    pair: (T, T),
    i: int,
)
    requires
        call_ensures(frames::<T>, (data, channels), r),
        call_ensures(stereo_pair::<T>, (frame,), pair),
        0 <= i < r.len(),
    ensures
        r.len() == frame_count(data.len() as int, channels as int),
        r[i]@ == frame_at(data@, channels as int, i),
        pair.0 == frame[0],
        frame.len() > 1 ==> pair.1 == frame[1],
        frame.len() <= 1 ==> pair.1 == frame[0],
{
}

/// Filters follow their settings: a change counts up the version, and a chain that has not
/// seen it builds the filters that are on, one per channel, and drops the others.
pub proof fn filters_follow_their_settings<F: Copy, T: Copy, R: Fn(F, T) -> (F, T)>(
    control: &mut FilterControl,
    config: FilterConfig,
    chain: &mut FilterChain<F>,
    seen: &FilterControl,
    hp: F,
    lp: F,
    c: int,
    used: &mut FilterChain<F>,
    channel: usize,
    x: T,
    run: R,
    y: T,
)
    requires
        call_ensures(FilterControl::set_filter_config, (control, config), ()),
        call_ensures(FilterChain::<F>::sync, (chain, seen, hp, lp), ()),
        call_ensures(FilterChain::<F>::process::<T, R>, (used, channel, x, run), y),
        0 <= c < 3,
    ensures
        old(control).config.agrees(config) ==> *final(control) == *old(control),
        !old(control).config.agrees(config) ==> final(control).config == config && (old(control).version < u64::MAX
            ==> final(control).version == old(control).version + 1),
        old(chain).version_seen == seen.version ==> *final(chain) == *old(chain),
        old(chain).version_seen != seen.version ==> {
            &&& final(chain).version_seen == seen.version
            &&& final(chain).hp is Some <==> seen.config.hp_enabled
            &&& final(chain).lp is Some <==> seen.config.lp_enabled
            &&& final(chain).hp matches Some(f) ==> f[c] == hp
            &&& final(chain).lp matches Some(f) ==> f[c] == lp
        },
        exists|mid: T| #[trigger]
            stage_ran(run, old(used).hp, final(used).hp, channel as int, x, mid) && stage_ran(
                run,
                old(used).lp,
                final(used).lp,
                channel as int,
                mid,
                y,
            ),
{
    if old(chain).version_seen != seen.version {
        if final(chain).hp is Some {
            assert(final(chain).hp->0@[c] == hp);
        }
        if final(chain).lp is Some {
            assert(final(chain).lp->0@[c] == lp);
        }
    }
}

/// What is played is every sample once, in order, and then silence.
pub proof fn samples_are_played_once<T: Copy>(p: &mut Playback<T>, v: T)
    requires
        call_ensures(Playback::<T>::next_sample, (p,), v),
    ensures
        final(p).samples@ == old(p).samples@,
        old(p).pos < old(p).samples.len() ==> v == old(p).samples[old(p).pos as int] && final(p).pos == old(p).pos + 1,
        old(p).pos >= old(p).samples.len() ==> v == old(p).silence && final(p).pos == old(p).pos,
{
}

/// A phone joins as "phone", at the step from 48000 hertz to the local rate, and what its
/// messages mean is done to it alone; it is heard until it stops.
pub proof fn phones_join_and_act<T: Copy, Q: Fn(Real32, Real32) -> Real64>(
    registry: &mut Registry<T>,
    target_rate: Real32,
    ratio: &Q,
    s: PhoneStream,
    list: &mut Registry<T>,
    id: u64,
    action: Action<T>,
    goes_on: bool,
)
    requires
        call_ensures(PhoneStream::join::<T, Q>, (registry, target_rate, ratio), s),
        call_ensures(perform::<T>, (list, id, action), goes_on),
    ensures
        final(registry).joined(old(registry), "phone"@),
        s.id == old(registry).next_id,
        s.target_rate == target_rate,
        call_ensures(*ratio, (Real32 { bits: 0x473b_8000 }, target_rate), s.resampler.step),
        s.resampler.pos.bits == 0 && s.resampler.last is None,
        goes_on == !(action is Stop),
        action matches Action::Rename(name) ==> final(list).renamed(old(list), id, name@),
        action matches Action::Frame(level, samples) ==> final(list).received(old(list), id, level, samples@),
        action is Stop || action is Nothing ==> *final(list) == *old(list),
{
}

/// A certificate is made for the local host and for the address of the computer, or twice
/// for the local host without one; the identity has what was made, and fails as it did.
pub proof fn identities_are_for_the_computer(
    ip: &Option<String>,
    names: Vec<String>,
    made: Result<(Vec<u8>, Vec<u8>), rcgen::Error>,
    r: Result<Identity, IdentityError>,
)
    requires
        call_ensures(certificate_names, (ip,), names),
        call_ensures(identity_from, (names, made), r),
    ensures
        names.len() == 2,
        names[0]@ == "localhost"@,
        ip matches Some(address) ==> names[1]@ == address@,
        ip is None ==> names[1]@ == "localhost"@,
        r is Ok <==> made is Ok,
        r matches Ok(id) ==> id.names == names && id.certificate == (made->Ok_0).0 && id.key == (made->Ok_0).1,
        r matches Err(e) ==> e.cause == made->Err_0,
{
}

} // verus!
