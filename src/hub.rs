//! The event distribution hub: a relay of inbound frames to every current
//! subscriber, in subscription order.
//!
//! The hub decides who receives a frame; the embedding program hands each
//! delivery to the subscriber's handler.
use vstd::prelude::*;

verus! {

/// The capability returned by `subscribe`; handing it to `unsubscribe`
/// releases the subscription.
#[derive(Debug, Clone, Copy, PartialEq, Eq, Structural)]
pub struct SubscriberId {
    pub id: u64,
}

/// One frame handed to one subscriber.
#[derive(Debug)]
pub struct Delivery {
    pub subscriber: u64,
    pub frame: String,
}

impl View for Delivery {
    type V = (u64, Seq<char>);

    open spec fn view(&self) -> (u64, Seq<char>) {
        (self.subscriber, self.frame@)
    }
}

/// The mathematical state of the hub: the next identifier to hand out and the
/// current subscribers in subscription order.
pub struct BusState {
    pub next: u64,
    pub subscribers: Seq<u64>,
}

/// Subscribers are distinct and were all handed out before `next`.
pub open spec fn bus_wf(b: BusState) -> bool {
    &&& forall|i: int| 0 <= i < b.subscribers.len() ==> b.subscribers[i] < b.next
    &&& forall|i: int, j: int| 0 <= i < j < b.subscribers.len() ==> b.subscribers[i] != b.subscribers[j]
}

/// The state after a subscription, and the identifier handed out.
pub open spec fn subscribe_spec(b: BusState) -> (BusState, u64) {
    (BusState { next: (b.next + 1) as u64, subscribers: b.subscribers.push(b.next) }, b.next)
}

/// `s` without `id`.
pub open spec fn without(s: Seq<u64>, id: u64) -> Seq<u64>
    decreases s.len(),
{
    if s.len() == 0 {
        s
    } else if s.last() == id {
        without(s.drop_last(), id)
    } else {
        without(s.drop_last(), id).push(s.last())
    }
}

/// What publishing `frame` hands out: the frame to each subscriber, in order.
pub open spec fn deliveries_spec(subscribers: Seq<u64>, frame: Seq<char>) -> Seq<(u64, Seq<char>)> {
    subscribers.map_values(|id: u64| (id, frame))
}

/// The hub.
pub struct EventBus {
    next_id: u64,
    subscribers: Vec<u64>,
}

impl View for EventBus {
    type V = BusState;

    closed spec fn view(&self) -> BusState {
        BusState { next: self.next_id, subscribers: self.subscribers@ }
    }
}

/// What remains after removing `id` comes from `s` and is not `id`.
pub proof fn lemma_without_from(s: Seq<u64>, id: u64)
    ensures
        forall|i: int| 0 <= i < without(s, id).len() ==> s.contains(#[trigger] without(s, id)[i]) && without(s, id)[i] != id,
    decreases s.len(),
{
    if s.len() > 0 {
        let d = s.drop_last();
        lemma_without_from(d, id);
        let w = without(d, id);
        assert forall|i: int| 0 <= i < w.len() implies s.contains(#[trigger] w[i]) by {
            assert(d.contains(w[i]));
            let k = choose|k: int| 0 <= k < d.len() && d[k] == w[i];
            assert(s[k] == w[i]);
        }
        if s.last() != id {
            let w2 = w.push(s.last());
            assert forall|i: int| 0 <= i < w2.len() implies s.contains(#[trigger] w2[i]) && w2[i] != id by {
                if i < w.len() {
                    assert(w2[i] == w[i]);
                } else {
                    assert(s[s.len() - 1] == w2[i]);
                }
            }
        }
    }
}

proof fn lemma_without_wf(b: BusState, id: u64)
    requires
        bus_wf(b),
    ensures
        bus_wf(BusState { next: b.next, subscribers: without(b.subscribers, id) }),
    decreases b.subscribers.len(),
{
    let s = b.subscribers;
    lemma_without_from(s, id);
    let w = without(s, id);
    assert forall|i: int| 0 <= i < w.len() implies w[i] < b.next by {
        assert(s.contains(w[i]));
        let k = choose|k: int| 0 <= k < s.len() && s[k] == w[i];
    }
    if s.len() > 0 {
        let d = s.drop_last();
        let db = BusState { next: b.next, subscribers: d };
        assert forall|i: int, j: int| 0 <= i < j < d.len() implies d[i] != d[j] by {
            assert(d[i] == s[i] && d[j] == s[j]);
        }
        assert forall|i: int| 0 <= i < d.len() implies d[i] < b.next by {
            assert(d[i] == s[i]);
        }
        lemma_without_wf(db, id);
        lemma_without_from(d, id);
        let wd = without(d, id);
        if s.last() == id {
            assert(w == wd);
        } else {
            assert(w == wd.push(s.last()));
            assert forall|i: int| 0 <= i < wd.len() implies wd[i] != s.last() by {
                assert(d.contains(wd[i]));
                let k = choose|k: int| 0 <= k < d.len() && d[k] == wd[i];
                assert(s[k] == d[k]);
                assert(s[k] != s[s.len() - 1]);
            }
            assert forall|i: int, j: int| 0 <= i < j < w.len() implies w[i] != w[j] by {
                if j == w.len() - 1 {
                    assert(w[j] == s.last());
                    assert(w[i] == wd[i]);
                } else {
                    let wb = BusState { next: b.next, subscribers: wd };
                    assert(bus_wf(wb));
                    assert(wb.subscribers[i] != wb.subscribers[j]);
                    assert(w[i] == wd[i] && w[j] == wd[j]);
                }
            }
        }
    }
}

impl EventBus {
    /// A hub with no subscribers.
    pub fn new() -> (r: EventBus)
        ensures
            r@.next == 0,
            r@.subscribers.len() == 0,
            bus_wf(r@),
    {
        EventBus { next_id: 0, subscribers: Vec::new() }
    }

    /// Registers a subscriber after the current ones. `None`, with nothing
    /// changed, once every identifier has been handed out.
    pub fn subscribe(&mut self) -> (r: Option<SubscriberId>)
        requires
            bus_wf(old(self)@),
        ensures
            bus_wf(final(self)@),
            old(self)@.next == u64::MAX ==> r is None && final(self)@ == old(self)@,
            old(self)@.next < u64::MAX ==> r == Some(SubscriberId { id: subscribe_spec(old(self)@).1 })
                && final(self)@ == subscribe_spec(old(self)@).0,
    {
        if self.next_id == u64::MAX {
            return None;
        }
        let id = self.next_id;
        let ghost before = self.subscribers@;
        self.subscribers.push(id);
        assert forall|i: int, j: int| 0 <= i < j < self.subscribers@.len() implies self.subscribers@[i] != self.subscribers@[j] by {
            if j == before.len() {
                assert(before == old(self)@.subscribers);
                assert(old(self)@.subscribers[i] < old(self)@.next);
            } else {
                assert(before == old(self)@.subscribers);
                assert(old(self)@.subscribers[i] != old(self)@.subscribers[j]);
                assert(self.subscribers@[i] == before[i] && self.subscribers@[j] == before[j]);
            }
        }
        assert forall|i: int| 0 <= i < self.subscribers@.len() implies self.subscribers@[i] < id + 1 by {
            if i < before.len() {
                assert(before == old(self)@.subscribers);
                assert(old(self)@.subscribers[i] < old(self)@.next);
                assert(self.subscribers@[i] == before[i]);
            }
        }
        self.next_id = id + 1;
        Some(SubscriberId { id })
    }

    /// Releases a subscription: its handler receives no further frames.
    pub fn unsubscribe(&mut self, sub: SubscriberId)
        requires
            bus_wf(old(self)@),
        ensures
            bus_wf(final(self)@),
            final(self)@ == (BusState { next: old(self)@.next, subscribers: without(old(self)@.subscribers, sub.id) }),
    {
        let mut kept: Vec<u64> = Vec::new();
        let mut i: usize = 0;
        while i < self.subscribers.len()
            invariant
                i <= self.subscribers@.len(),
                kept@ == without(self.subscribers@.subrange(0, i as int), sub.id),
            decreases self.subscribers@.len() - i,
        {
            let x = self.subscribers[i];
            assert(self.subscribers@.subrange(0, i + 1).drop_last() =~= self.subscribers@.subrange(0, i as int));
            if x != sub.id {
                kept.push(x);
            }
            i = i + 1;
        }
        assert(self.subscribers@.subrange(0, self.subscribers@.len() as int) =~= self.subscribers@);
        proof {
            lemma_without_wf(self@, sub.id);
        }
        self.subscribers = kept;
    }

    /// Publishes `frame`: one delivery of it to each current subscriber, in
    /// subscription order.
    pub fn publish(&self, frame: &str) -> (r: Vec<Delivery>)
        ensures
            r@.map_values(|d: Delivery| d@) == deliveries_spec(self@.subscribers, frame@),
    {
        let mut r: Vec<Delivery> = Vec::new();
        let mut i: usize = 0;
        while i < self.subscribers.len()
            invariant
                i <= self.subscribers@.len(),
                r@.map_values(|d: Delivery| d@) == deliveries_spec(self.subscribers@.subrange(0, i as int), frame@),
            decreases self.subscribers@.len() - i,
        {
            let d = Delivery { subscriber: self.subscribers[i], frame: String::from_str(frame) };
            let ghost before = r@;
            r.push(d);
            proof {
                assert(r@.map_values(|d: Delivery| d@) =~= before.map_values(|d: Delivery| d@).push(
                    (self.subscribers@[i as int], frame@),
                ));
                assert(self.subscribers@.subrange(0, i + 1) =~= self.subscribers@.subrange(0, i as int).push(
                    self.subscribers@[i as int],
                ));
                assert(deliveries_spec(self.subscribers@.subrange(0, i + 1), frame@) =~= deliveries_spec(
                    self.subscribers@.subrange(0, i as int),
                    frame@,
                ).push((self.subscribers@[i as int], frame@)));
            }
            i = i + 1;
        }
        assert(self.subscribers@.subrange(0, self.subscribers@.len() as int) =~= self.subscribers@);
        r
    }
}

} // verus!
