//! The phone service over time: what holds over any run of phones that join, speak and
//! leave.

use vstd::prelude::*;

use crate::ieee::Real32;
use crate::remote::{Registry, RemoteClient, REMOTE_RING_LEN};
use crate::ring::{bursts_do_not_matter, newest};

verus! {

/// What happens to the list of phones.
pub enum Event<T> {
    /// A phone of this name joins.
    Join(Seq<char>),
    /// A phone leaves.
    Leave(u64),
    /// A phone gets another name.
    Rename(u64, Seq<char>),
    /// A frame of a phone: its level, and its samples at the local rate.
    Frame(u64, Real32, Seq<T>),
}

/// The event makes `after` of `before`.
pub open spec fn follows<T: Copy>(before: Registry<T>, event: Event<T>, after: Registry<T>) -> bool {
    match event {
        Event::Join(name) => after.joined(&before, name),
        Event::Leave(id) => after.left(&before, id),
        Event::Rename(id, name) => after.renamed(&before, id, name),
        Event::Frame(id, level, samples) => after.received(&before, id, level, samples),
    }
}

/// `states` are the lists before, between and after the events.
pub open spec fn is_run<T: Copy>(events: Seq<Event<T>>, states: Seq<Registry<T>>) -> bool {
    &&& states.len() == events.len() + 1
    &&& forall|i: int| 0 <= i < states.len() ==> (#[trigger] states[i]).well_formed()
    &&& forall|i: int| 0 <= i < events.len() ==> follows(states[i], #[trigger] events[i], states[i + 1])
}

proof fn identities_rise<T: Copy>(events: Seq<Event<T>>, states: Seq<Registry<T>>, i: int, j: int)
    requires
        is_run(events, states),
        0 <= i <= j < states.len(),
    ensures
        states[i].next_id <= states[j].next_id,
        i < j && events[i] is Join ==> states[i].next_id < states[j].next_id,
    decreases j - i,
{
    if i < j {
        identities_rise(events, states, i, j - 1);
        assert(follows(states[j - 1], events[j - 1], states[j]));
    }
}

/// An identity is given once: over any run, two phones that join have different ones,
/// whoever left in between; and a phone that joins has one that no phone had before.
pub proof fn identities_are_given_once<T: Copy>(events: Seq<Event<T>>, states: Seq<Registry<T>>, i: int, j: int)
    requires
        is_run(events, states),
        0 <= i < j < events.len(),
        events[i] is Join,
        events[j] is Join,
    ensures
        states[i + 1].clients@.last().id == states[i].next_id,
        states[j + 1].clients@.last().id == states[j].next_id,
        states[i].next_id != states[j].next_id,
        forall|k: int| 0 <= k <= j ==> !(#[trigger] states[k]).has(states[j].next_id),
{
    assert(follows(states[i], events[i], states[i + 1]));
    assert(follows(states[j], events[j], states[j + 1]));
    identities_rise(events, states, i, j);
    assert forall|k: int| 0 <= k <= j implies !(#[trigger] states[k]).has(states[j].next_id) by {
        identities_rise(events, states, k, j);
    }
}

/// The samples that a phone sent in the events `from..n`, in order.
pub open spec fn sent<T>(events: Seq<Event<T>>, id: u64, from: int, n: int) -> Seq<T>
    decreases n - from,
{
    if n <= from {
        Seq::empty()
    } else {
        match events[n - 1] {
            Event::Frame(p, _, samples) => if p == id {
                sent(events, id, from, n - 1) + samples
            } else {
                sent(events, id, from, n - 1)
            },
            _ => sent(events, id, from, n - 1),
        }
    }
}

/// The level of a phone after the events `from..n`: that of its last frame.
pub open spec fn level_after<T>(events: Seq<Event<T>>, id: u64, from: int, n: int) -> Real32
    decreases n - from,
{
    if n <= from {
        Real32 { bits: 0 }
    } else {
        match events[n - 1] {
            Event::Frame(p, level, _) => if p == id {
                level
            } else {
                level_after(events, id, from, n - 1)
            },
            _ => level_after(events, id, from, n - 1),
        }
    }
}

/// The name of a phone after the events `from..n`: the last it was given.
pub open spec fn name_after<T>(events: Seq<Event<T>>, id: u64, name: Seq<char>, from: int, n: int) -> Seq<char>
    decreases n - from,
{
    if n <= from {
        name
    } else {
        match events[n - 1] {
            Event::Rename(p, other) => if p == id {
                other
            } else {
                name_after(events, id, name, from, n - 1)
            },
            _ => name_after(events, id, name, from, n - 1),
        }
    }
}

/// The phone is what it has sent and been called since it joined with event `k`.
pub open spec fn accounts_for<T: Copy>(
    client: RemoteClient<T>,
    events: Seq<Event<T>>,
    id: u64,
    name: Seq<char>,
    k: int,
    n: int,
) -> bool {
    let all = sent(events, id, k + 1, n);
    &&& client.ring.buf@ == newest(all, REMOTE_RING_LEN as nat)
    &&& client.ring.total == all.len()
    &&& client.level == level_after(events, id, k + 1, n)
    &&& client.name@ == name_after(events, id, name, k + 1, n)
}

proof fn position_is<T: Copy>(r: Registry<T>, id: u64, i: int)
    requires
        r.well_formed(),
        0 <= i < r.clients.len(),
        r.clients[i].id == id,
    ensures
        r.has(id),
        r.position(id) == i,
{
    let p = r.position(id);
    assert(0 <= p < r.clients.len() && r.clients[p].id == id);
    if p < i {
        assert(r.clients[p].id != r.clients[i].id);
    } else if i < p {
        assert(r.clients[i].id != r.clients[p].id);
    }
}

/// A phone's queue holds the newest samples of all its frames, however they were cut,
/// and its counter their number; its level is that of the last frame. So it stands
/// after any run since the phone joined, whatever other phones do meanwhile, until it
/// leaves.
pub proof fn queue_holds_the_newest_of_all_frames<T: Copy>(
    events: Seq<Event<T>>,
    states: Seq<Registry<T>>,
    k: int,
    n: int,
)
    requires
        is_run(events, states),
        0 <= k < n < states.len(),
        events[k] is Join,
        forall|i: int| k < i < n ==> (#[trigger] events[i]) != Event::<T>::Leave(states[k].next_id),
    ensures
        states[n].has(states[k].next_id),
        accounts_for(
            states[n].clients[states[n].position(states[k].next_id)],
            events,
            states[k].next_id,
            events[k]->Join_0,
            k,
            n,
        ),
    decreases n,
{
    let id = states[k].next_id;
    let name = events[k]->Join_0;
    let before = states[n - 1];
    let after = states[n];
    assert(follows(before, events[n - 1], after));
    if n == k + 1 {
        let at = after.clients.len() - 1;
        position_is(after, id, at as int);
        assert(sent(events, id, k + 1, n) =~= Seq::<T>::empty());
    } else {
        queue_holds_the_newest_of_all_frames(events, states, k, n - 1);
        identities_rise(events, states, k, n - 1);
        let p = before.position(id);
        let was = before.clients@[p];
        match events[n - 1] {
            Event::Join(_) => {
                assert(after.clients@.drop_last()[p] == was);
                position_is(after, id, p);
            },
            Event::Leave(other) => {
                assert(other != id);
                if before.has(other) {
                    let q = before.position(other);
                    assert(before.clients[q].id == other);
                    let now = if p < q {
                        p
                    } else {
                        p - 1
                    };
                    assert(after.clients@[now] == was);
                    position_is(after, id, now);
                } else {
                    position_is(after, id, p);
                }
            },
            Event::Rename(other, _) => {
                if before.has(other) {
                    let q = before.position(other);
                    assert(before.clients[q].id == other);
                    if other != id {
                        assert(after.clients@[p] == was);
                    }
                }
                position_is(after, id, p);
            },
            Event::Frame(other, _, samples) => {
                if before.has(other) {
                    let q = before.position(other);
                    assert(before.clients[q].id == other);
                    if other != id {
                        assert(after.clients@[p] == was);
                    } else {
                        bursts_do_not_matter(sent(events, id, k + 1, n - 1), samples, REMOTE_RING_LEN as nat);
                    }
                }
                position_is(after, id, p);
            },
        }
    }
}

/// A phone that leaves is gone, and it alone: all others stay, in order.
pub proof fn only_the_leaving_phone_is_gone<T: Copy>(before: Registry<T>, id: u64, after: Registry<T>)
    requires
        before.well_formed(),
        follows(before, Event::<T>::Leave(id), after),
    ensures
        !after.has(id),
        after.clients@ == before.clients@.filter(|c: RemoteClient<T>| c.id != id),
{
    let keep = |c: RemoteClient<T>| c.id != id;
    let all = before.clients@;
    if before.has(id) {
        let p = before.position(id);
        assert(all[p].id == id);
        assert forall|i: int| 0 <= i < all.len() && i != p implies keep(#[trigger] all[i]) by {
            if i < p {
                assert(before.clients[i].id != before.clients[p].id);
            } else {
                assert(before.clients[p].id != before.clients[i].id);
            }
        }
        let (a, b) = (all.take(p), all.skip(p + 1));
        assert(all =~= a + seq![all[p]] + b);
        kept_whole(a, keep);
        kept_whole(b, keep);
        Seq::filter_distributes_over_add(a + seq![all[p]], b, keep);
        Seq::filter_distributes_over_add(a, seq![all[p]], keep);
        reveal_with_fuel(Seq::filter, 2);
        assert(seq![all[p]].drop_last() =~= Seq::<RemoteClient<T>>::empty());
        assert(seq![all[p]].filter(keep) =~= Seq::<RemoteClient<T>>::empty());
        assert(after.clients@ =~= a + b);
        assert(!after.has(id)) by {
            assert forall|i: int| 0 <= i < after.clients.len() implies (#[trigger] after.clients[i]).id != id by {
                assert(keep(if i < p {
                    all[i]
                } else {
                    all[i + 1]
                }));
            }
        }
    } else {
        assert forall|i: int| 0 <= i < all.len() implies keep(#[trigger] all[i]) by {
            assert(before.clients[i] == all[i]);
        }
        kept_whole(all, keep);
    }
}

proof fn kept_whole<A>(s: Seq<A>, keep: spec_fn(A) -> bool)
    requires
        forall|i: int| 0 <= i < s.len() ==> keep(#[trigger] s[i]),
    ensures
        s.filter(keep) == s,
    decreases s.len(),
{
    reveal(Seq::filter);
    if s.len() > 0 {
        kept_whole(s.drop_last(), keep);
        assert(s.drop_last().push(s.last()) =~= s);
    }
}

} // verus!
