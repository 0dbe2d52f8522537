//! Bounded queues of the newest samples.

use std::collections::VecDeque;

use vstd::prelude::*;

verus! {

/// The newest `cap` entries of a stream, oldest first.
pub open spec fn newest<T>(stream: Seq<T>, cap: nat) -> Seq<T> {
    if stream.len() <= cap {
        stream
    } else {
        stream.skip(stream.len() - cap)
    }
}

/// Keeping the newest entries after each of two bursts is keeping the newest
/// entries of both together: how a stream is cut into bursts does not matter.
pub proof fn bursts_do_not_matter<T>(kept: Seq<T>, burst: Seq<T>, cap: nat)
    ensures
        newest(newest(kept, cap) + burst, cap) == newest(kept + burst, cap),
{
    assert(newest(newest(kept, cap) + burst, cap) =~= newest(kept + burst, cap));
}

/// Drops the oldest entries beyond `cap`.
pub fn keep_newest<T>(buf: &mut VecDeque<T>, cap: usize)
    ensures
        final(buf)@ == newest(old(buf)@, cap as nat),
{
    let ghost all = buf@;
    while buf.len() > cap
        invariant
            buf@ == all.skip(all.len() - buf@.len()),
            buf@.len() <= all.len(),
            all.len() >= cap ==> buf@.len() >= cap,
            all.len() <= cap ==> buf@ == all,
        decreases buf.len(),
    {
        let dropped: Option<T> = buf.pop_front();
        assert(buf@ =~= all.skip(all.len() - buf@.len()));
    }
    assert(buf@ =~= newest(all, cap as nat));
}

/// Appends entries.
pub fn append_all<T: Copy>(buf: &mut VecDeque<T>, entries: &Vec<T>)
    ensures
        final(buf)@ == old(buf)@ + entries@,
{
    let ghost before = buf@;
    let mut i: usize = 0;
    while i < entries.len()
        invariant
            i <= entries.len(),
            buf@ == before + entries@.take(i as int),
        decreases entries.len() - i,
    {
        buf.push_back(entries[i]);
        i = i + 1;
        assert(buf@ =~= before + entries@.take(i as int));
    }
    assert(buf@ =~= before + entries@);
}

/// The entries of a queue, oldest first.
pub fn contents<T: Copy>(buf: &VecDeque<T>) -> (r: Vec<T>)
    ensures
        r@ == buf@,
{
    let mut r: Vec<T> = Vec::new();
    let n: usize = buf.len();
    let mut i: usize = 0;
    while i < n
        invariant
            i <= n == buf@.len(),
            r@ == buf@.take(i as int),
        decreases n - i,
    {
        r.push(buf[i]);
        i = i + 1;
        assert(r@ =~= buf@.take(i as int));
    }
    assert(r@ =~= buf@);
    r
}

/// The newest `n` entries of a list.
pub fn tail_of<T: Copy>(entries: &Vec<T>, n: usize) -> (r: Vec<T>)
    ensures
        r@ == newest(entries@, n as nat),
{
    let from: usize = if entries.len() <= n { 0 } else { entries.len() - n };
    section(entries, from, entries.len() - from)
}

/// `n` entries of a list, from position `from` on.
pub fn section<T: Copy>(entries: &Vec<T>, from: usize, n: usize) -> (r: Vec<T>)
    requires
        from + n <= entries.len(),
    ensures
        r@ == entries@.subrange(from as int, from + n),
{
    let mut r: Vec<T> = Vec::new();
    let mut i: usize = 0;
    while i < n
        invariant
            i <= n,
            from + n <= entries.len(),
            r@ == entries@.subrange(from as int, from + i),
        decreases n - i,
    {
        r.push(entries[from + i]);
        i = i + 1;
        assert(r@ =~= entries@.subrange(from as int, from + i));
    }
    r
}

/// A queue with an absolute sample counter: `total` counts every sample ever
/// taken in, so positions in streams can be compared.
pub struct Ring<T> {
    pub buf: VecDeque<T>,
    pub total: u64,
}

impl<T: Copy> Ring<T> {
    /// At most the last `cap` samples are held, and no more than were ever
    /// taken in.
    pub open spec fn well_formed(&self, cap: nat) -> bool {
        self.buf@.len() <= cap && self.buf@.len() <= self.total
    }

    /// An empty queue.
    pub fn new() -> (r: Self)
        ensures
            r.buf@ == Seq::<T>::empty(),
            r.total == 0,
            r.well_formed(0),
    {
        Ring { buf: VecDeque::new(), total: 0 }
    }

    /// Takes samples in, keeping the newest `cap`.
    pub fn take_in(&mut self, samples: &Vec<T>, cap: usize)
        requires
            old(self).well_formed(cap as nat),
            old(self).total + samples.len() <= u64::MAX,
        ensures
            final(self).well_formed(cap as nat),
            final(self).buf@ == newest(old(self).buf@ + samples@, cap as nat),
            final(self).total == old(self).total + samples.len(),
    {
        append_all(&mut self.buf, samples);
        self.total = self.total + samples.len() as u64;
        keep_newest(&mut self.buf, cap);
    }

    /// Consistent copy of the whole queue plus its absolute counter.
    pub fn snapshot(&self) -> (r: (Vec<T>, u64))
        ensures
            r.0@ == self.buf@,
            r.1 == self.total,
    {
        (contents(&self.buf), self.total)
    }
}

} // verus!
