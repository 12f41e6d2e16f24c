//! Pub/sub sessions: per-connection subscriptions and the fan-out of events.
//!
//! Each published event is stored once; a notification names the
//! subscription and the event's index. Every connection has a bounded
//! outbound queue. When a notification finds its connection's queue full, the
//! subscription it was for is dropped and its id recorded for an
//! `unsubscribed` notice; the publisher never waits.

use crate::types::{Address, H256};
use vstd::prelude::*;

verus! {

/// A log entry of a committed block.
#[derive(Debug)]
pub struct Log {
    pub address: Address,
    pub topics: Vec<H256>,
    pub block_number: u64,
}

/// Which logs a subscription wants: a block range, a set of addresses (empty
/// for any), and per topic position a set of alternatives (none or empty for
/// any).
#[derive(Debug)]
pub struct LogFilter {
    pub from_block: Option<u64>,
    pub to_block: Option<u64>,
    pub addresses: Vec<Address>,
    pub topics: Vec<Option<Vec<H256>>>,
}

pub open spec fn topic_matches(alternatives: Option<Vec<H256>>, topics: Seq<H256>, i: int) -> bool {
    match alternatives {
        None => true,
        Some(v) => v@.len() == 0 || (i < topics.len() && v@.contains(topics[i])),
    }
}

pub open spec fn filter_matches(f: LogFilter, l: Log) -> bool {
    &&& (f.from_block matches Some(b) ==> l.block_number >= b)
    &&& (f.to_block matches Some(b) ==> l.block_number <= b)
    &&& (f.addresses@.len() == 0 || f.addresses@.contains(l.address))
    &&& forall|i: int|
        0 <= i < f.topics@.len() ==> #[trigger] topic_matches(f.topics@[i], l.topics@, i)
}

fn contains_h256(v: &Vec<H256>, x: H256) -> (r: bool)
    ensures
        r == v@.contains(x),
{
    let mut i: usize = 0;
    while i < v.len()
        invariant
            i <= v@.len(),
            forall|j: int| 0 <= j < i ==> v@[j] != x,
        decreases v@.len() - i,
    {
        if v[i] == x {
            assert(v@[i as int] == x);
            return true;
        }
        i = i + 1;
    }
    false
}

fn contains_address(v: &Vec<Address>, x: Address) -> (r: bool)
    ensures
        r == v@.contains(x),
{
    let mut i: usize = 0;
    while i < v.len()
        invariant
            i <= v@.len(),
            forall|j: int| 0 <= j < i ==> v@[j] != x,
        decreases v@.len() - i,
    {
        if v[i] == x {
            assert(v@[i as int] == x);
            return true;
        }
        i = i + 1;
    }
    false
}

impl LogFilter {
    /// Whether the filter takes `log`.
    pub fn matches(&self, log: &Log) -> (r: bool)
        ensures
            r == filter_matches(*self, *log),
    {
        if let Some(b) = self.from_block {
            if log.block_number < b {
                return false;
            }
        }
        if let Some(b) = self.to_block {
            if log.block_number > b {
                return false;
            }
        }
        if self.addresses.len() != 0 && !contains_address(&self.addresses, log.address) {
            return false;
        }
        let mut i: usize = 0;
        while i < self.topics.len()
            invariant
                i <= self.topics@.len(),
                forall|j: int| 0 <= j < i ==> #[trigger] topic_matches(self.topics@[j], log.topics@, j),
            decreases self.topics@.len() - i,
        {
            match &self.topics[i] {
                None => {},
                Some(v) => {
                    if v.len() != 0 {
                        if i >= log.topics.len() || !contains_h256(v, log.topics[i]) {
                            assert(!topic_matches(self.topics@[i as int], log.topics@, i as int));
                            return false;
                        }
                    }
                },
            }
            i = i + 1;
        }
        true
    }
}

/// What a subscription is for.
#[derive(Debug)]
pub enum SubscriptionKind {
    NewHeads,
    Logs(LogFilter),
    NewPendingTransactions,
}

/// A committed block's head.
#[derive(Debug, Clone, Copy, PartialEq, Eq, Structural)]
pub struct BlockHead {
    pub number: u64,
    pub hash: H256,
}

/// Something that happened on the node.
#[derive(Debug)]
pub enum Event {
    Head(BlockHead),
    Log(Log),
    PendingTransaction(H256),
}

pub open spec fn wants(kind: SubscriptionKind, e: Event) -> bool {
    match (kind, e) {
        (SubscriptionKind::NewHeads, Event::Head(_)) => true,
        (SubscriptionKind::NewPendingTransactions, Event::PendingTransaction(_)) => true,
        (SubscriptionKind::Logs(f), Event::Log(l)) => filter_matches(f, l),
        _ => false,
    }
}

fn wants_event(kind: &SubscriptionKind, e: &Event) -> (r: bool)
    ensures
        r == wants(*kind, *e),
{
    match (kind, e) {
        (SubscriptionKind::NewHeads, Event::Head(_)) => true,
        (SubscriptionKind::NewPendingTransactions, Event::PendingTransaction(_)) => true,
        (SubscriptionKind::Logs(f), Event::Log(l)) => f.matches(l),
        _ => false,
    }
}

/// Keeps the subscriptions whose id is not `id`.
pub open spec fn other_than(id: u128) -> spec_fn(Subscription) -> bool {
    |s: Subscription| s.id != id
}

#[derive(Debug)]
pub struct Subscription {
    pub id: u128,
    pub kind: SubscriptionKind,
}

/// A notification: the subscription it is for and the event's index.
#[derive(Debug, Clone, Copy, PartialEq, Eq, Structural)]
pub struct Notification {
    pub subscription: u128,
    pub event: usize,
}

/// One client connection.
#[derive(Debug)]
pub struct Connection {
    pub subscriptions: Vec<Subscription>,
    /// Notifications not yet sent, oldest first.
    pub queue: Vec<Notification>,
    /// Subscriptions dropped as slow, to be told `unsubscribed`.
    pub dropped: Vec<u128>,
    /// How many notifications the queue holds at most.
    pub capacity: usize,
    pub next_id: u128,
}

/// Delivery of event `idx` to the subscriptions `subs`, in order, starting
/// from the kept subscriptions, queue and dropped ids in `st`.
pub open spec fn deliver_to(
    subs: Seq<Subscription>,
    st: (Seq<Subscription>, Seq<Notification>, Seq<u128>),
    capacity: nat,
    e: Event,
    idx: usize,
) -> (Seq<Subscription>, Seq<Notification>, Seq<u128>)
    decreases subs.len(),
{
    if subs.len() == 0 {
        st
    } else {
        let s = subs[0];
        let next = if !wants(s.kind, e) {
            (st.0.push(s), st.1, st.2)
        } else if st.1.len() < capacity {
            (st.0.push(s), st.1.push(Notification { subscription: s.id, event: idx }), st.2)
        } else {
            (st.0, st.1, st.2.push(s.id))
        };
        deliver_to(subs.drop_first(), next, capacity, e, idx)
    }
}

impl Connection {
    pub open spec fn wf(&self) -> bool {
        self.queue@.len() <= self.capacity
    }

    /// `self` is `old` after event `idx` was delivered to it.
    pub open spec fn delivered(&self, old: &Connection, e: Event, idx: usize) -> bool {
        let r = deliver_to(
            old.subscriptions@,
            (Seq::empty(), old.queue@, old.dropped@),
            old.capacity as nat,
            e,
            idx,
        );
        &&& self.subscriptions@ == r.0
        &&& self.queue@ == r.1
        &&& self.dropped@ == r.2
        &&& self.capacity == old.capacity
        &&& self.next_id == old.next_id
    }

    pub fn new(capacity: usize) -> (r: Connection)
        ensures
            r.wf(),
            r.capacity == capacity,
            r.subscriptions@.len() == 0,
            r.queue@.len() == 0,
            r.dropped@.len() == 0,
    {
        Connection { subscriptions: Vec::new(), queue: Vec::new(), dropped: Vec::new(), capacity, next_id: 0 }
    }

    /// Adds a subscription; its id is new on this connection. Nothing is
    /// added once the ids are used up.
    pub fn subscribe(&mut self, kind: SubscriptionKind) -> (r: Option<u128>)
        ensures
            final(self).queue@ == old(self).queue@,
            final(self).capacity == old(self).capacity,
            old(self).next_id < u128::MAX ==> r == Some(old(self).next_id) && final(self).next_id
                == old(self).next_id + 1 && final(self).subscriptions@.len() == old(self).subscriptions@.len() + 1 && final(self).subscriptions@.last().id == old(self).next_id
                && final(self).subscriptions@.drop_last() == old(self).subscriptions@,
            old(self).next_id == u128::MAX ==> r is None && final(self).subscriptions@ == old(self).subscriptions@,
    {
        if self.next_id == u128::MAX {
            return None;
        }
        let id = self.next_id;
        self.subscriptions.push(Subscription { id, kind });
        self.next_id = id + 1;
        assert(self.subscriptions@.drop_last() =~= old(self).subscriptions@);
        Some(id)
    }

    /// Removes the subscriptions with id `id`; whether there was one.
    pub fn unsubscribe(&mut self, id: u128) -> (r: bool)
        ensures
            r == exists|i: int|
                0 <= i < old(self).subscriptions@.len() && (#[trigger] old(self).subscriptions@[i]).id == id,
            forall|i: int|
                0 <= i < final(self).subscriptions@.len() ==> (#[trigger] final(self).subscriptions@[i]).id != id,
            final(self).subscriptions@ == old(self).subscriptions@.filter(other_than(id)),
            final(self).queue@ == old(self).queue@,
            final(self).capacity == old(self).capacity,
    {
        let mut rest: Vec<Subscription> = Vec::new();
        std::mem::swap(&mut rest, &mut self.subscriptions);
        let ghost all = rest@;
        let total = rest.len();
        let mut found = false;
        let mut k: usize = 0;
        while rest.len() > 0
            invariant
                k + rest@.len() == all.len(),
                all.len() == total,
                rest@ == all.skip(k as int),
                found == exists|i: int| 0 <= i < k && (#[trigger] all[i]).id == id,
                self.subscriptions@ == all.take(k as int).filter(other_than(id)),
                forall|i: int|
                    0 <= i < self.subscriptions@.len() ==> (#[trigger] self.subscriptions@[i]).id
                        != id,
                self.queue@ == old(self).queue@,
                self.capacity == old(self).capacity,
            decreases rest@.len(),
        {
            let s = rest.remove(0);
            assert(s == all[k as int]);
            assert(all.take(k + 1).drop_last() =~= all.take(k as int));
            assert(all.take(k + 1).last() == s);
            proof {
                let t = all.take(k + 1);
                assert(k + 1 <= all.len());
                assert(t.len() == k + 1);
                reveal_with_fuel(Seq::filter, 2);
                assert(t.filter(other_than(id)) == if other_than(id)(t.last()) {
                    t.drop_last().filter(other_than(id)).push(t.last())
                } else {
                    t.drop_last().filter(other_than(id))
                });
                assert(other_than(id)(s) == (s.id != id));
            }
            if s.id == id {
                found = true;
            } else {
                self.subscriptions.push(s);
            }
            k = k + 1;
            assert(rest@ =~= all.skip(k as int));
        }
        assert(all.take(k as int) =~= all);
        found
    }

    /// Takes the queued notifications, oldest first, and the ids of the
    /// subscriptions dropped as slow.
    pub fn take_notifications(&mut self) -> (r: (Vec<Notification>, Vec<u128>))
        ensures
            r.0@ == old(self).queue@,
            r.1@ == old(self).dropped@,
            final(self).queue@.len() == 0,
            final(self).dropped@.len() == 0,
            final(self).subscriptions@ == old(self).subscriptions@,
            final(self).capacity == old(self).capacity,
    {
        let mut q = Vec::new();
        let mut d = Vec::new();
        std::mem::swap(&mut q, &mut self.queue);
        std::mem::swap(&mut d, &mut self.dropped);
        (q, d)
    }

    /// Delivers event `idx` to this connection's subscriptions.
    pub fn deliver(&mut self, e: &Event, idx: usize)
        requires
            old(self).wf(),
        ensures
            final(self).wf(),
            final(self).delivered(old(self), *e, idx),
    {
        let mut rest: Vec<Subscription> = Vec::new();
        std::mem::swap(&mut rest, &mut self.subscriptions);
        let ghost all = rest@;
        let ghost target = deliver_to(
            all,
            (Seq::empty(), old(self).queue@, old(self).dropped@),
            old(self).capacity as nat,
            *e,
            idx,
        );
        assert(self.subscriptions@ =~= Seq::<Subscription>::empty());
        while rest.len() > 0
            invariant
                deliver_to(
                    rest@,
                    (self.subscriptions@, self.queue@, self.dropped@),
                    self.capacity as nat,
                    *e,
                    idx,
                ) == target,
                self.capacity == old(self).capacity,
                self.next_id == old(self).next_id,
                self.queue@.len() <= self.capacity,
            decreases rest@.len(),
        {
            let ghost before = rest@;
            let s = rest.remove(0);
            assert(rest@ =~= before.drop_first());
            if !wants_event(&s.kind, e) {
                self.subscriptions.push(s);
            } else if self.queue.len() < self.capacity {
                self.queue.push(Notification { subscription: s.id, event: idx });
                self.subscriptions.push(s);
            } else {
                self.dropped.push(s.id);
            }
        }
    }
}

/// The registry of connections and the events published so far.
#[derive(Debug)]
pub struct PubSub {
    pub connections: Vec<Connection>,
    pub events: Vec<Event>,
}

impl PubSub {
    pub open spec fn wf(&self) -> bool {
        forall|i: int| 0 <= i < self.connections@.len() ==> (#[trigger] self.connections@[i]).wf()
    }

    pub fn new() -> (r: PubSub)
        ensures
            r.wf(),
            r.connections@.len() == 0,
            r.events@.len() == 0,
    {
        PubSub { connections: Vec::new(), events: Vec::new() }
    }

    /// Publishes `e`: it is stored and delivered to every connection, each on
    /// its own, in connection order.
    pub fn publish(&mut self, e: Event)
        requires
            old(self).wf(),
        ensures
            final(self).wf(),
            final(self).events@ == old(self).events@.push(e),
            final(self).connections@.len() == old(self).connections@.len(),
            forall|i: int|
                0 <= i < old(self).connections@.len() ==> #[trigger] final(self).connections@[i].delivered(&old(self).connections@[i], e, old(self).events@.len() as usize),
    {
        let idx = self.events.len();
        let mut rest: Vec<Connection> = Vec::new();
        std::mem::swap(&mut rest, &mut self.connections);
        let ghost all = rest@;
        let total = rest.len();
        let mut k: usize = 0;
        while rest.len() > 0
            invariant
                k + rest@.len() == all.len(),
                all.len() == total,
                rest@ == all.skip(k as int),
                self.connections@.len() == k,
                forall|i: int| 0 <= i < all.len() ==> (#[trigger] all[i]).wf(),
                forall|i: int|
                    0 <= i < k ==> (#[trigger] self.connections@[i]).wf()
                        && self.connections@[i].delivered(&all[i], e, idx),
                self.events@ == old(self).events@,
                idx == old(self).events@.len(),
                all == old(self).connections@,
            decreases rest@.len(),
        {
            let mut c = rest.remove(0);
            assert(c == all[k as int]);
            c.deliver(&e, idx);
            self.connections.push(c);
            k = k + 1;
            assert(rest@ =~= all.skip(k as int));
        }
        self.events.push(e);
    }
}

/// A slow consumer cannot hold up another: what a connection receives from a
/// published event depends on that connection alone, whatever state the other
/// connections' queues are in.
pub proof fn lemma_delivery_is_per_connection(
    a: Connection,
    a2: Connection,
    b: Connection,
    b2: Connection,
    e: Event,
    idx: usize,
)
    requires
        a2.delivered(&a, e, idx),
        b2.delivered(&b, e, idx),
        a.subscriptions@ == b.subscriptions@,
        a.queue@ == b.queue@,
        a.dropped@ == b.dropped@,
        a.capacity == b.capacity,
        a.next_id == b.next_id,
    ensures
        a2.subscriptions@ == b2.subscriptions@,
        a2.queue@ == b2.queue@,
        a2.dropped@ == b2.dropped@,
{
}

/// A subscription that wants an event and finds room in its connection's
/// queue is notified, whatever other subscriptions and connections do.
pub proof fn lemma_room_means_delivery(
    subs: Seq<Subscription>,
    st: (Seq<Subscription>, Seq<Notification>, Seq<u128>),
    capacity: nat,
    e: Event,
    idx: usize,
)
    requires
        subs.len() > 0,
        wants(subs[0].kind, e),
        st.1.len() < capacity,
    ensures
        deliver_to(subs, st, capacity, e, idx).1.contains(
            Notification { subscription: subs[0].id, event: idx },
        ),
{
    let n = Notification { subscription: subs[0].id, event: idx };
    let next = (st.0.push(subs[0]), st.1.push(n), st.2);
    assert(next.1[next.1.len() - 1] == n);
    lemma_queue_grows(subs.drop_first(), next, capacity, e, idx, next.1.len() - 1);
}

proof fn lemma_queue_grows(
    subs: Seq<Subscription>,
    st: (Seq<Subscription>, Seq<Notification>, Seq<u128>),
    capacity: nat,
    e: Event,
    idx: usize,
    p: int,
)
    requires
        0 <= p < st.1.len(),
    ensures
        deliver_to(subs, st, capacity, e, idx).1.len() >= st.1.len(),
        deliver_to(subs, st, capacity, e, idx).1[p] == st.1[p],
        deliver_to(subs, st, capacity, e, idx).1.contains(st.1[p]),
    decreases subs.len(),
{
    if subs.len() > 0 {
        let s = subs[0];
        let next = if !wants(s.kind, e) {
            (st.0.push(s), st.1, st.2)
        } else if st.1.len() < capacity {
            (st.0.push(s), st.1.push(Notification { subscription: s.id, event: idx }), st.2)
        } else {
            (st.0, st.1, st.2.push(s.id))
        };
        assert(next.1[p] == st.1[p]);
        lemma_queue_grows(subs.drop_first(), next, capacity, e, idx, p);
    } else {
        assert(st.1[p] == st.1[p]);
    }
}

} // verus!
