//! Phone-as-extra-microphone service.
//!
//! Any number of phones can connect at once: each connection gets its own
//! `RemoteClient` (queue, level meter, name) in a shared `Registry`. A phone
//! sends its sample rate and name as text and its samples as bytes.

use vstd::prelude::*;

use crate::ieee::{Real32, Real64, SIGN_64};
use crate::ring::{newest, Ring};
use crate::text::{append_number, chars_of, digits, find, first_occurrence, trim, trim_end, trim_start};

verus! {

/// The port that the service listens on.
pub const PORT: u16 = 7777;

/// Per-client queue: a couple of analysis windows' worth.
pub const REMOTE_RING_LEN: usize = 16384;

/// Longest name of a phone, in characters.
pub const NAME_LEN: usize = 20;

/// The least sample rate that is accepted: 8000 hertz, as an IEEE 754 pattern.
pub const MIN_RATE: u32 = 0x45fa_0000;

/// The largest sample rate that is accepted: 192000 hertz, as an IEEE 754
/// pattern.
pub const MAX_RATE: u32 = 0x483b_8000;

/// Phone samples with an absolute sample counter: stream positions stay
/// comparable across bursts (content never moves in `total` coordinates).
pub type RemoteRing<T> = Ring<T>;

/// Where the value of the key `"name"` lies: between the next two quotation
/// marks.
pub open spec fn name_value(text: Seq<char>) -> Option<(int, int)> {
    match first_occurrence(text, "\"name\""@, 0) {
        None => None,
        Some(key) => match first_occurrence(text, "\""@, key + 6) {
            None => None,
            Some(quote) => match first_occurrence(text, "\""@, quote + 1) {
                None => None,
                Some(end) => Some((quote + 1, end)),
            },
        },
    }
}

/// The name in a message: the quoted value without surrounding white space, cut
/// to `NAME_LEN` characters, unless nothing is left.
pub open spec fn name_in(text: Seq<char>) -> Option<Seq<char>> {
    match name_value(text) {
        None => None,
        Some((from, to)) => {
            let start = trim_start(text, from, to);
            let end = trim_end(text, start, to);
            if start >= end {
                None
            } else if end - start > NAME_LEN {
                Some(text.subrange(start, start + NAME_LEN))
            } else {
                Some(text.subrange(start, end))
            }
        },
    }
}

/// Tolerant parse of `"name": "<string>"`: the value is the next quoted run.
pub fn parse_name(text: &str) -> (name: Option<String>)
    ensures
        match name {
            Some(n) => name_in(text@) == Some(n@),
            None => name_in(text@) is None,
        },
{
    proof {
        reveal_strlit("\"name\"");
        reveal_strlit("\"");
    }
    let chars: Vec<char> = chars_of(text);
    let key: usize = match find(&chars, "\"name\"", 0) {
        Some(i) => i,
        None => return None,
    };
    let quote: usize = match find(&chars, "\"", key + 6) {
        Some(i) => i,
        None => return None,
    };
    let to: usize = match find(&chars, "\"", quote + 1) {
        Some(i) => i,
        None => return None,
    };
    proof {
        crate::text::search_finds_the_first(text@, "\""@, quote + 1);
    }
    let (start, end): (usize, usize) = trim(&chars, quote + 1, to);
    if start >= end {
        return None;
    }
    let stop: usize = if end - start > NAME_LEN { start + NAME_LEN } else { end };
    Some(text.substring_char(start, stop).to_owned())
}

/// A name is never empty, at most `NAME_LEN` characters long, and holds no
/// quotation mark; it starts with no white space.
pub proof fn names_are_short(text: Seq<char>)
    requires
        name_in(text) is Some,
    ensures
        0 < name_in(text)->0.len() <= NAME_LEN,
        !name_in(text)->0.contains('"'),
        !crate::text::is_space(name_in(text)->0[0]),
{
    reveal_strlit("\"name\"");
    reveal_strlit("\"");
    let (from, to) = name_value(text)->0;
    let key = first_occurrence(text, "\"name\""@, 0)->0;
    crate::text::search_finds_the_first(text, "\"name\""@, 0);
    crate::text::search_finds_the_first(text, "\""@, key + 6);
    crate::text::search_finds_the_first(text, "\""@, from);
    trims_stay_inside(text, from, to);
    let start = trim_start(text, from, to);
    trims_stay_inside(text, start, to);
    let name = name_in(text)->0;
    assert forall|i: int| 0 <= i < name.len() implies name[i] != '"' by {
        if name[i] == '"' {
            assert(text[start + i] == '"');
            assert(text.subrange(start + i, start + i + 1) =~= "\""@);
            assert(crate::text::occurs_at(text, "\""@, start + i));
        }
    }
}

proof fn trims_stay_inside(s: Seq<char>, from: int, to: int)
    requires
        0 <= from <= to <= s.len(),
    ensures
        from <= trim_start(s, from, to) <= to,
        from <= trim_end(s, from, to) <= to,
        trim_start(s, from, to) < to ==> !crate::text::is_space(s[trim_start(s, from, to)]),
    decreases to - from,
{
    if from < to {
        trims_stay_inside(s, from + 1, to);
        trims_stay_inside(s, from, to - 1);
    }
}

/// An ASCII digit.
pub open spec fn is_digit(c: char) -> bool {
    '0' <= c && c <= '9'
}

/// The first digit at or behind `from`, or the end.
pub open spec fn first_digit(s: Seq<char>, from: int) -> int
    decreases s.len() - from,
{
    if from < s.len() && !is_digit(s[from]) {
        first_digit(s, from + 1)
    } else {
        from
    }
}

/// The end of the run of digits and points that starts at `from`.
pub open spec fn number_end(s: Seq<char>, from: int) -> int
    decreases s.len() - from,
{
    if from < s.len() && (is_digit(s[from]) || s[from] == '.') {
        number_end(s, from + 1)
    } else {
        from
    }
}

/// How many points stand between `from` and `to`.
pub open spec fn points(s: Seq<char>, from: int, to: int) -> nat
    decreases to - from,
{
    if from >= to {
        0
    } else {
        points(s, from, to - 1) + if s[to - 1] == '.' {
            1nat
        } else {
            0nat
        }
    }
}

/// The numeral of the sample rate in a message: the first run of digits and
/// points behind the key `"sr"`, if it is a number.
pub open spec fn rate_in(text: Seq<char>) -> Option<Seq<char>> {
    match first_occurrence(text, "\"sr\""@, 0) {
        None => None,
        Some(key) => {
            let from = first_digit(text, key + 4);
            let to = number_end(text, from);
            if from >= to || points(text, from, to) > 1 {
                None
            } else {
                Some(text.subrange(from, to))
            }
        },
    }
}

/// Tiny tolerant parse of `{"sr": <number>}`: the numeral of the rate.
pub fn parse_sr(text: &str) -> (number: Option<String>)
    ensures
        match number {
            Some(n) => rate_in(text@) == Some(n@),
            None => rate_in(text@) is None,
        },
{
    proof {
        reveal_strlit("\"sr\"");
    }
    let chars: Vec<char> = chars_of(text);
    let key: usize = match find(&chars, "\"sr\"", 0) {
        Some(i) => i,
        None => return None,
    };
    let mut from: usize = key + 4;
    while from < chars.len() && !(chars[from] >= '0' && chars[from] <= '9')
        invariant
            key + 4 <= from <= chars.len(),
            first_digit(chars@, key + 4) == first_digit(chars@, from as int),
        decreases chars.len() - from,
    {
        from = from + 1;
    }
    let mut to: usize = from;
    let mut dots: usize = 0;
    while to < chars.len() && ((chars[to] >= '0' && chars[to] <= '9') || chars[to] == '.')
        invariant
            from <= to <= chars.len(),
            number_end(chars@, from as int) == number_end(chars@, to as int),
            dots == points(chars@, from as int, to as int),
            dots <= to - from,
        decreases chars.len() - to,
    {
        if chars[to] == '.' {
            dots = dots + 1;
        }
        to = to + 1;
    }
    if from >= to || dots > 1 {
        return None;
    }
    Some(text.substring_char(from, to).to_owned())
}

/// The sample rate is accepted.
pub open spec fn accepted(rate: Real32) -> bool {
    (Real32 { bits: MIN_RATE }).at_most(rate) && rate.at_most(Real32 { bits: MAX_RATE })
}

/// Whether a sample rate is accepted.
pub fn accepts_rate(rate: &Real32) -> (r: bool)
    ensures
        r == accepted(*rate),
{
    Real32::from_bits(MIN_RATE).less_or_equal(rate) && rate.less_or_equal(&Real32::from_bits(MAX_RATE))
}

/// The sample whose bytes, lowest first, stand at `4 * i`.
pub open spec fn sample_at(bytes: Seq<u8>, i: int) -> Real32 {
    Real32 {
        bits: (bytes[4 * i] + 0x100 * bytes[4 * i + 1] + 0x1_0000 * bytes[4 * i + 2] + 0x100_0000 * bytes[4 * i + 3]) as u32,
    }
}

/// The samples in a block of bytes; up to three bytes at the end that make no
/// sample are left out.
pub open spec fn samples_in(bytes: Seq<u8>) -> Seq<Real32> {
    Seq::new((bytes.len() as int / 4) as nat, |i: int| sample_at(bytes, i))
}

/// The samples in a block of bytes.
pub fn decode_samples(bytes: &Vec<u8>) -> (samples: Vec<Real32>)
    ensures
        samples@ == samples_in(bytes@),
{
    let n: usize = bytes.len() / 4;
    let mut samples: Vec<Real32> = Vec::new();
    let mut i: usize = 0;
    while i < n
        invariant
            i <= n == bytes.len() as int / 4,
            samples@ == Seq::new(i as nat, |k: int| sample_at(bytes@, k)),
        decreases n - i,
    {
        let bits: u32 = bytes[4 * i] as u32 + 0x100 * bytes[4 * i + 1] as u32 + 0x1_0000 * bytes[4 * i + 2] as u32
            + 0x100_0000 * bytes[4 * i + 3] as u32;
        samples.push(Real32::from_bits(bits));
        i = i + 1;
        assert(samples@ =~= Seq::new(i as nat, |k: int| sample_at(bytes@, k)));
    }
    samples
}

/// The bytes of a sample, lowest first.
pub open spec fn sample_bytes(sample: Real32) -> Seq<u8> {
    let b = sample.bits as int;
    seq![(b % 0x100) as u8, (b / 0x100 % 0x100) as u8, (b / 0x1_0000 % 0x100) as u8, (b / 0x100_0000) as u8]
}

/// A sample's bytes read back as that sample.
pub proof fn samples_read_back(sample: Real32)
    ensures
        sample_bytes(sample).len() == 4,
        sample_at(sample_bytes(sample), 0) == sample,
{
}

/// What a phone sent.
pub enum Incoming {
    Text(String),
    Binary(Vec<u8>),
    Close,
    Other,
}

/// What a message means for the stream.
pub enum Reaction {
    /// The phone introduces itself: the numeral of its rate and its name, as
    /// far as the message holds them.
    Hello(Option<String>, Option<String>),
    Samples(Vec<Real32>),
    Nothing,
    Stop,
}

/// The reaction to a message.
pub fn react(message: &Incoming) -> (r: Reaction)
    ensures
        match message {
            Incoming::Text(t) => r matches Reaction::Hello(rate, name) && (match rate {
                Some(n) => rate_in(t@) == Some(n@),
                None => rate_in(t@) is None,
            }) && (match name {
                Some(n) => name_in(t@) == Some(n@),
                None => name_in(t@) is None,
            }),
            Incoming::Binary(bytes) => r matches Reaction::Samples(s) && s@ == samples_in(bytes@),
            Incoming::Close => r is Stop,
            Incoming::Other => r is Nothing,
        },
{
    match message {
        Incoming::Text(t) => Reaction::Hello(parse_sr(t.as_str()), parse_name(t.as_str())),
        Incoming::Binary(bytes) => Reaction::Samples(decode_samples(bytes)),
        Incoming::Close => Reaction::Stop,
        Incoming::Other => Reaction::Nothing,
    }
}

/// One connected phone.
pub struct RemoteClient<T> {
    pub id: u64,
    pub name: String,
    /// Phone samples resampled to the local stream rate.
    pub ring: RemoteRing<T>,
    pub level: Real32,
}

impl<T: Copy> RemoteClient<T> {
    /// Consistent copy of the whole queue plus its absolute counter.
    pub fn snapshot(&self) -> (r: (Vec<T>, u64))
        ensures
            r.0@ == self.ring.buf@,
            r.1 == self.ring.total,
    {
        self.ring.snapshot()
    }
}

/// List of connected phones.
pub struct Registry<T> {
    pub clients: Vec<RemoteClient<T>>,
    pub next_id: u64,
}

impl<T: Copy> Registry<T> {
    /// No two phones share an identity, none has one that is yet to be given,
    /// and every queue is within bounds.
    pub open spec fn well_formed(&self) -> bool {
        &&& forall|i: int| 0 <= i < self.clients.len() ==> (#[trigger] self.clients[i]).id < self.next_id
        &&& forall|i: int, j: int|
            0 <= i < j < self.clients.len() ==> (#[trigger] self.clients[i]).id != (#[trigger] self.clients[j]).id
        &&& forall|i: int|
            0 <= i < self.clients.len() ==> (#[trigger] self.clients[i]).ring.well_formed(REMOTE_RING_LEN as nat)
    }

    /// The phone with this identity.
    pub open spec fn position(&self, id: u64) -> int {
        choose|i: int| 0 <= i < self.clients.len() && #[trigger] self.clients[i].id == id
    }

    /// A phone with this identity is connected.
    pub open spec fn has(&self, id: u64) -> bool {
        exists|i: int| 0 <= i < self.clients.len() && #[trigger] self.clients[i].id == id
    }

    /// A phone of this name has joined `before` under the next identity, with an empty
    /// queue and the level zero.
    pub open spec fn joined(&self, before: &Registry<T>, name: Seq<char>) -> bool {
        let new = self.clients@.last();
        &&& self.next_id == before.next_id + 1
        &&& self.clients.len() == before.clients.len() + 1
        &&& self.clients@.drop_last() == before.clients@
        &&& new.id == before.next_id
        &&& new.name@ == name
        &&& new.ring.buf@ == Seq::<T>::empty()
        &&& new.ring.total == 0
        &&& new.level == (Real32 { bits: 0 })
    }

    /// A phone has left `before`; the others are as and where they were.
    pub open spec fn left(&self, before: &Registry<T>, id: u64) -> bool {
        &&& self.next_id == before.next_id
        &&& self.clients@ == if before.has(id) {
            before.clients@.remove(before.position(id))
        } else {
            before.clients@
        }
    }

    /// A phone of `before` has another name.
    pub open spec fn renamed(&self, before: &Registry<T>, id: u64, name: Seq<char>) -> bool {
        &&& self.next_id == before.next_id
        &&& !before.has(id) ==> self.clients@ == before.clients@
        &&& before.has(id) ==> {
            let at = before.position(id);
            let was = before.clients@[at];
            let is = self.clients@[at];
            &&& self.clients@ == before.clients@.update(at, is)
            &&& is == (RemoteClient { name: is.name, ..was })
            &&& is.name@ == name
        }
    }

    /// A phone of `before` has another level and more samples.
    pub open spec fn received(&self, before: &Registry<T>, id: u64, level: Real32, samples: Seq<T>) -> bool {
        &&& self.next_id == before.next_id
        &&& !before.has(id) ==> self.clients@ == before.clients@
        &&& before.has(id) ==> {
            let at = before.position(id);
            let was = before.clients@[at];
            let is = self.clients@[at];
            &&& self.clients@ == before.clients@.update(at, is)
            &&& is.id == was.id
            &&& is.name@ == was.name@
            &&& is.level == level
            &&& is.ring.buf@ == newest(was.ring.buf@ + samples, REMOTE_RING_LEN as nat)
            &&& is.ring.total == was.ring.total + samples.len()
        }
    }

    /// Nobody is connected.
    pub fn new() -> (r: Self)
        ensures
            r.well_formed(),
            r.clients@ == Seq::<RemoteClient<T>>::empty(),
            r.next_id == 0,
    {
        Registry { clients: Vec::new(), next_id: 0 }
    }

    /// Connects a phone under a new identity, with an empty queue and the level
    /// zero.
    pub fn add(&mut self, name: String) -> (id: u64)
        requires
            old(self).well_formed(),
            old(self).next_id < u64::MAX,
        ensures
            final(self).well_formed(),
            id == old(self).next_id,
            !old(self).has(id),
            final(self).joined(old(self), name@),
    {
        let id: u64 = self.next_id;
        self.clients.push(RemoteClient { id, name, ring: Ring::new(), level: Real32::from_bits(0) });
        self.next_id = id + 1;
        assert(self.clients@.drop_last() =~= old(self).clients@);
        id
    }

    /// Disconnects a phone; the others stay as and where they are.
    pub fn remove(&mut self, id: u64)
        requires
            old(self).well_formed(),
        ensures
            final(self).well_formed(),
            final(self).left(old(self), id),
            !final(self).has(id),
    {
        let ghost before = self.clients@;
        if let Some(i) = self.find(id) {
            let gone: RemoteClient<T> = self.clients.remove(i);
            proof {
                let now = self.clients@;
                assert forall|k: int| 0 <= k < now.len() implies (#[trigger] now[k]) == before[if k < i {
                    k
                } else {
                    k + 1
                }] by {}
            }
        }
    }

    /// The position of a phone in the list.
    pub fn find(&self, id: u64) -> (r: Option<usize>)
        requires
            self.well_formed(),
        ensures
            match r {
                Some(i) => self.has(id) && i == self.position(id) && i < self.clients.len() && self.clients[i as int].id
                    == id,
                None => !self.has(id),
            },
    {
        let mut i: usize = 0;
        while i < self.clients.len()
            invariant
                i <= self.clients.len(),
                self.well_formed(),
                forall|k: int| 0 <= k < i ==> (#[trigger] self.clients[k]).id != id,
            decreases self.clients.len() - i,
        {
            if self.clients[i].id == id {
                assert(self.has(id));
                assert(self.position(id) == i);
                return Some(i);
            }
            i = i + 1;
        }
        None
    }

    /// Gives a phone another name.
    pub fn rename(&mut self, id: u64, name: String)
        requires
            old(self).well_formed(),
        ensures
            final(self).well_formed(),
            final(self).renamed(old(self), id, name@),
    {
        if let Some(i) = self.find(id) {
            let ghost before = self.clients@;
            self.clients[i].name = name;
            assert(self.clients@ =~= before.update(i as int, RemoteClient { name, ..before[i as int] }));
        }
    }

    /// A phone's level and its samples, already at the local rate.
    pub fn receive(&mut self, id: u64, level: Real32, samples: &Vec<T>)
        requires
            old(self).well_formed(),
            old(self).has(id) ==> old(self).clients[old(self).position(id)].ring.total + samples.len() <= u64::MAX,
        ensures
            final(self).well_formed(),
            final(self).received(old(self), id, level, samples@),
    {
        if let Some(i) = self.find(id) {
            let ghost before = self.clients@;
            self.clients[i].level = level;
            self.clients[i].ring.take_in(samples, REMOTE_RING_LEN);
            assert(self.clients@ =~= before.update(i as int, self.clients@[i as int]));
        }
    }
}

/// The address that phones should open, or the reason there isn't one.
pub fn service_url(ip: &Option<String>) -> (url: Result<String, String>)
    ensures
        match ip {
            Some(address) => url matches Ok(u) && u@ == "https://"@ + address@ + ":"@ + digits(PORT as nat),
            None => url matches Err(e) && e@ == "no LAN address found"@,
        },
{
    match ip {
        Some(address) => {
            let mut url: String = String::from_str("https://");
            url.append(address.as_str());
            url.append(":");
            append_number(&mut url, PORT as u64);
            Ok(url)
        },
        None => Err(String::from_str("no LAN address found")),
    }
}

/// What became of the service that should run at `url`: phones should open the address
/// if it was launched, else the message says where and why it was not.
pub fn announce(url: String, launched: Result<(), String>) -> (r: Result<String, String>)
    ensures
        match launched {
            Ok(()) => r matches Ok(u) && u@ == url@,
            Err(cause) => r matches Err(e) && e@ == "phone mic service failed ("@ + url@ + "): "@ + cause@,
        },
{
    match launched {
        Ok(()) => Ok(url),
        Err(cause) => {
            let mut message: String = String::from_str("phone mic service failed (");
            message.append(url.as_str());
            message.append("): ");
            message.append(cause.as_str());
            Err(message)
        },
    }
}

/// The phones and where they connect.
pub struct RemoteMics<T> {
    pub registry: Registry<T>,
    /// Address phones should open, or the reason there isn't one.
    pub url: Result<String, String>,
}

/// Streaming linear resampler. `step` input samples are consumed per output sample;
/// clock drift between the two devices shows up as a slightly wrong `step`, which only
/// accumulates as growth or shrinkage that the queue's cap absorbs.
///
/// The virtual stream of a block is the final sample of the block before (the first
/// sample itself at the start) followed by the block.
pub struct Resampler<S> {
    pub step: Real64,
    /// Position of the next output in the virtual stream, in input samples.
    pub pos: Real64,
    /// The final sample of the block before.
    pub last: Option<S>,
}

/// How positions are computed, and samples between two others.
pub struct Path<W, A, R, B> {
    /// The whole part of a position.
    pub whole: W,
    /// The position a step further.
    pub advance: A,
    /// The position counted from so many samples later.
    pub rewind: R,
    /// The sample at a position between two neighbours, the first of which stands at the
    /// whole part.
    pub blend: B,
}

/// The virtual stream of a block.
pub open spec fn virtual_stream<T>(last: Option<T>, input: Seq<T>) -> Seq<T> {
    match last {
        Some(v) => seq![v] + input,
        None => seq![input[0]] + input,
    }
}

/// `walk` are the positions from `from` on, a step apart, up to the first whose whole
/// part is not below `n`; `at` are their whole parts.
pub open spec fn walked<W: Fn(Real64) -> usize, A: Fn(Real64, Real64) -> Real64>(
    whole: W,
    advance: A,
    step: Real64,
    n: int,
    from: Real64,
    walk: Seq<Real64>,
    at: Seq<usize>,
) -> bool {
    &&& starts_out(whole, advance, step, n, from, walk, at)
    &&& at.last() >= n
}

/// `walk` are positions from `from` on, a step apart, with the whole parts `at`. All but
/// the last whole part are below `n`.
pub open spec fn starts_out<W: Fn(Real64) -> usize, A: Fn(Real64, Real64) -> Real64>(
    whole: W,
    advance: A,
    step: Real64,
    n: int,
    from: Real64,
    walk: Seq<Real64>,
    at: Seq<usize>,
) -> bool {
    &&& walk.len() == at.len()
    &&& at.len() > 0
    &&& walk[0] == from
    &&& forall|i: int| 0 <= i < at.len() ==> call_ensures(whole, (walk[i],), #[trigger] at[i])
    &&& forall|i: int| 0 <= i < at.len() - 1 ==> (#[trigger] at[i]) < n
    &&& forall|i: int| 0 <= i < walk.len() - 1 ==> call_ensures(advance, (#[trigger] walk[i], step), walk[i + 1])
}

/// The block `input` makes `made`, and `after` of `before`: an output stands at every
/// position whose whole part is below the block's length, and the next position is
/// rewound by that length. A block without samples changes nothing.
pub open spec fn resampled<
    S,
    T,
    W: Fn(Real64) -> usize,
    A: Fn(Real64, Real64) -> Real64,
    R: Fn(Real64, usize) -> Real64,
    B: Fn(S, S, Real64, usize) -> T,
>(path: Path<W, A, R, B>, before: Resampler<S>, input: Seq<S>, made: Seq<T>, after: Resampler<S>) -> bool {
    if input.len() == 0 {
        made.len() == 0 && after == before
    } else {
        let v = virtual_stream(before.last, input);
        &&& after.step == before.step
        &&& after.last == Some(input.last())
        &&& exists|walk: Seq<Real64>, at: Seq<usize>|
            #![trigger walked(path.whole, path.advance, before.step, input.len() as int, before.pos, walk, at)]
            {
                &&& walked(path.whole, path.advance, before.step, input.len() as int, before.pos, walk, at)
                &&& blended_at(path.blend, v, walk, at, made)
                &&& call_ensures(path.rewind, (walk.last(), input.len() as usize), after.pos)
            }
    }
}

/// `made` are the samples at the positions `walk` but the last, whose whole parts are
/// `at`, each between two neighbours in `v`.
pub open spec fn blended_at<S, T, B: Fn(S, S, Real64, usize) -> T>(
    blend: B,
    v: Seq<S>,
    walk: Seq<Real64>,
    at: Seq<usize>,
    made: Seq<T>,
) -> bool {
    &&& made.len() == at.len() - 1
    &&& forall|j: int|
        0 <= j < made.len() ==> call_ensures(
            blend,
            (v[at[j] as int], v[at[j] + 1], walk[j], at[j]),
            #[trigger] made[j],
        )
}

/// Positions make way: from one whose whole part is below `n` a step leads on, and what
/// is rewound by `n` is no less than zero.
pub open spec fn makes_way<
    W: Fn(Real64) -> usize,
    A: Fn(Real64, Real64) -> Real64,
    R: Fn(Real64, usize) -> Real64,
    B,
>(path: Path<W, A, R, B>, step: Real64, n: usize) -> bool {
    &&& forall|p: Real64, k: usize, q: Real64|
        (Real64 { bits: 0 }).at_most(p) && k < n && #[trigger] call_ensures(path.whole, (p,), k)
            && #[trigger] call_ensures(path.advance, (p, step), q) ==> p.below(q)
    &&& forall|p: Real64, k: usize, q: Real64|
        (Real64 { bits: 0 }).at_most(p) && k >= n && #[trigger] call_ensures(path.whole, (p,), k)
            && #[trigger] call_ensures(path.rewind, (p, n), q) ==> (Real64 { bits: 0 }).at_most(q)
}

impl<S: Copy> Resampler<S> {
    /// The position is a number, and no less than zero.
    pub open spec fn well_formed(&self) -> bool {
        (Real64 { bits: 0 }).at_most(self.pos)
    }

    /// Nothing has been heard yet. `ratio` gives the step between two rates.
    pub fn new<Q: Fn(Real32, Real32) -> Real64>(in_rate: Real32, out_rate: Real32, ratio: &Q) -> (r: Self)
        requires
            call_requires(*ratio, (in_rate, out_rate)),
        ensures
            r.well_formed(),
            call_ensures(*ratio, (in_rate, out_rate), r.step),
            r.pos == (Real64 { bits: 0 }),
            r.last is None,
    {
        let step: Real64 = ratio(in_rate, out_rate);
        Resampler { step, pos: Real64::from_bits(0), last: None }
    }

    /// Appends what a block of samples gives to `out`.
    pub fn process<
        T,
        W: Fn(Real64) -> usize,
        A: Fn(Real64, Real64) -> Real64,
        R: Fn(Real64, usize) -> Real64,
        B: Fn(S, S, Real64, usize) -> T,
    >(&mut self, input: &Vec<S>, out: &mut Vec<T>, path: &Path<W, A, R, B>)
        requires
            old(self).well_formed(),
            forall|p: Real64| call_requires(path.whole, (p,)),
            forall|p: Real64, s: Real64| call_requires(path.advance, (p, s)),
            forall|p: Real64, n: usize| call_requires(path.rewind, (p, n)),
            forall|a: S, b: S, p: Real64, k: usize| call_requires(path.blend, (a, b, p, k)),
            makes_way(*path, old(self).step, input.len()),
        ensures
            final(self).well_formed(),
            exists|made: Seq<T>| #[trigger]
                resampled(*path, *old(self), input@, made, *final(self)) && final(out)@ == old(out)@ + made,
    {
        let ghost had = out@;
        let n: usize = input.len();
        if n == 0 {
            let ghost made = Seq::<T>::empty();
            assert(resampled(*path, *old(self), input@, made, *self));
            assert(out@ =~= had + made);
            return;
        }
        let first: S = match self.last {
            Some(v) => v,
            None => input[0],
        };
        let ghost v = virtual_stream(self.last, input@);
        assert(v =~= seq![first] + input@);
        let step: Real64 = self.step;
        let mut pos: Real64 = self.pos;
        let mut k: usize = (path.whole)(pos);
        let ghost mut walk = seq![pos];
        let ghost mut at = seq![k];
        let ghost mut made = Seq::<T>::empty();
        assert(out@ =~= had + made);
        while k < n
            invariant
                n == input.len(),
                n > 0,
                v == seq![first] + input@,
                step == old(self).step,
                (Real64 { bits: 0 }).at_most(pos),
                forall|p: Real64| call_requires(path.whole, (p,)),
                forall|p: Real64, s: Real64| call_requires(path.advance, (p, s)),
                forall|a: S, b: S, p: Real64, k: usize| call_requires(path.blend, (a, b, p, k)),
                makes_way(*path, step, n),
                starts_out(path.whole, path.advance, step, n as int, old(self).pos, walk, at),
                walk.last() == pos,
                at.last() == k,
                blended_at(path.blend, v, walk, at, made),
                out@ == had + made,
            decreases SIGN_64 - pos.rank(),
        {
            let low: S = if k == 0 { first } else { input[k - 1] };
            let sample: T = (path.blend)(low, input[k], pos, k);
            out.push(sample);
            let next: Real64 = (path.advance)(pos, step);
            let ghost was = k;
            proof {
                assert(call_ensures(path.whole, (pos,), was));
                assert(low == v[was as int] && input[was as int] == v[was + 1]);
                assert(pos.below(next));
            }
            k = (path.whole)(next);
            proof {
                let (walk0, at0, made0) = (walk, at, made);
                walk = walk.push(next);
                at = at.push(k);
                made = made.push(sample);
                assert forall|i: int| 0 <= i < walk.len() - 1 implies call_ensures(
                    path.advance,
                    (#[trigger] walk[i], step),
                    walk[i + 1],
                ) by {
                    if i < walk0.len() - 1 {
                        assert(walk0[i] == walk[i]);
                    }
                }
                assert(blended_at(path.blend, v, walk, at, made)) by {
                    assert forall|j: int| 0 <= j < made.len() implies call_ensures(
                        path.blend,
                        (v[at[j] as int], v[at[j] + 1], walk[j], at[j]),
                        #[trigger] made[j],
                    ) by {
                        if j < made0.len() {
                            assert(made0[j] == made[j]);
                        }
                    }
                }
                assert(out@ =~= had + made);
            }
            pos = next;
        }
        self.pos = (path.rewind)(pos, n);
        self.last = Some(input[n - 1]);
        proof {
            assert(walked(path.whole, path.advance, old(self).step, input.len() as int, old(self).pos, walk, at));
            assert(resampled(*path, *old(self), input@, made, *self));
        }
    }
}

/// Blocks join without a seam: the virtual stream of a block starts with the
/// sample that ended the block before, and a block that is cut in two is heard
/// as the whole.
pub proof fn blocks_join_without_a_seam<T>(last: Option<T>, a: Seq<T>, b: Seq<T>)
    requires
        a.len() > 0,
        b.len() > 0,
    ensures
        virtual_stream(Some(a.last()), b)[0] == virtual_stream(last, a).last(),
        virtual_stream(last, a + b) == virtual_stream(last, a) + virtual_stream(Some(a.last()), b).skip(1),
{
    assert(virtual_stream(last, a + b) =~= virtual_stream(last, a) + virtual_stream(Some(a.last()), b).skip(1));
}

} // verus!
