use vstd::prelude::*;
use std::collections::VecDeque;

use crate::buffer::{bytes_clone, bytes_content};
use crate::table::{
    entries_map, keys_unique, lemma_entries_map_contains, lemma_entries_map_index,
    lemma_entries_map_remove, lemma_entries_map_update, lemma_push_unique,
};

verus! {

/// The queues of a bus, by subscriber: what each has yet to receive,
/// oldest first.
pub type BusModel = Map<u64, Seq<Seq<u8>>>;

/// One operation on a bus.
pub enum BusOp {
    Publish(Seq<u8>),
    Receive(u64),
    Subscribe(u64),
    Unsubscribe(u64),
}

/// Publishing puts one copy at the back of every subscriber's queue.
pub open spec fn bus_publish(m: BusModel, msg: Seq<u8>) -> BusModel {
    Map::new(|s: u64| m.contains_key(s), |s: u64| m[s].push(msg))
}

/// One operation on the bus `m`: the bus after it and, for a receive that
/// found something, the message received.
pub open spec fn bus_step(m: BusModel, op: BusOp) -> (BusModel, Option<Seq<u8>>) {
    match op {
        BusOp::Publish(msg) => (bus_publish(m, msg), None),
        BusOp::Receive(s) => if m.contains_key(s) && m[s].len() > 0 {
            (m.insert(s, m[s].drop_first()), Some(m[s][0]))
        } else {
            (m, None)
        },
        BusOp::Subscribe(s) => if m.contains_key(s) {
            (m, None)
        } else {
            (m.insert(s, Seq::empty()), None)
        },
        BusOp::Unsubscribe(s) => (m.remove(s), None),
    }
}

/// The messages that the subscriber `s` receives over the run `ops`.
pub open spec fn received_by(m: BusModel, ops: Seq<BusOp>, s: u64) -> Seq<Seq<u8>>
    decreases ops.len(),
{
    if ops.len() == 0 {
        Seq::empty()
    } else {
        let (m1, got) = bus_step(m, ops[0]);
        let mine = match (ops[0], got) {
            (BusOp::Receive(r), Some(msg)) => if r == s {
                seq![msg]
            } else {
                Seq::empty()
            },
            _ => Seq::empty(),
        };
        mine + received_by(m1, ops.drop_first(), s)
    }
}

/// The bus after the run `ops`.
pub open spec fn run_bus(m: BusModel, ops: Seq<BusOp>) -> BusModel
    decreases ops.len(),
{
    if ops.len() == 0 {
        m
    } else {
        run_bus(bus_step(m, ops[0]).0, ops.drop_first())
    }
}

/// The messages published over the run `ops`, in order.
pub open spec fn published(ops: Seq<BusOp>) -> Seq<Seq<u8>>
    decreases ops.len(),
{
    if ops.len() == 0 {
        Seq::empty()
    } else {
        let mine = match ops[0] {
            BusOp::Publish(msg) => seq![msg],
            _ => Seq::empty(),
        };
        mine + published(ops.drop_first())
    }
}

/// Delivery is exact and in order: a subscriber that stays on the bus over
/// a run receives what waited for it and then every message published in
/// the run, each once and in publishing order; what it has not received yet
/// is still queued.
pub proof fn lemma_every_subscriber_gets_each_message_once(m: BusModel, ops: Seq<BusOp>, s: u64)
    requires
        m.contains_key(s),
        forall|i: int| 0 <= i < ops.len() ==> !(#[trigger] ops[i] is Unsubscribe && ops[i]->Unsubscribe_0 == s),
    ensures
        run_bus(m, ops).contains_key(s),
        received_by(m, ops, s) + run_bus(m, ops)[s] == m[s] + published(ops),
    decreases ops.len(),
{
    if ops.len() == 0 {
        assert(Seq::<Seq<u8>>::empty() + m[s] =~= m[s] + Seq::<Seq<u8>>::empty());
    } else {
        let (m1, got) = bus_step(m, ops[0]);
        let rest = ops.drop_first();
        assert forall|i: int| 0 <= i < rest.len() implies !(#[trigger] rest[i] is Unsubscribe
            && rest[i]->Unsubscribe_0 == s) by {
            assert(rest[i] == ops[i + 1]);
        }
        assert(!(ops[0] is Unsubscribe && ops[0]->Unsubscribe_0 == s));
        lemma_every_subscriber_gets_each_message_once(m1, rest, s);
        let tail = received_by(m1, rest, s);
        let fin = run_bus(m1, rest)[s];
        match ops[0] {
            BusOp::Publish(msg) => {
                assert(m1[s] == m[s].push(msg));
                assert(received_by(m, ops, s) =~= tail);
                assert(m[s].push(msg) + published(rest) =~= m[s] + (seq![msg] + published(rest)));
            },
            BusOp::Receive(r) => {
                if r == s && m[s].len() > 0 {
                    assert(received_by(m, ops, s) =~= seq![m[s][0]] + tail);
                    assert(m[s] =~= seq![m[s][0]] + m[s].drop_first());
                    assert(published(ops) =~= published(rest));
                    assert(seq![m[s][0]] + tail + fin =~= seq![m[s][0]] + (tail + fin));
                    assert(m[s] + published(rest) =~= seq![m[s][0]] + (m[s].drop_first() + published(rest)));
                } else {
                    assert(received_by(m, ops, s) =~= tail);
                    assert(published(ops) =~= published(rest));
                    assert(m1[s] == m[s]);
                }
            },
            BusOp::Subscribe(t) => {
                assert(received_by(m, ops, s) =~= tail);
                assert(published(ops) =~= published(rest));
                assert(m1[s] == m[s]);
            },
            BusOp::Unsubscribe(t) => {
                assert(received_by(m, ops, s) =~= tail);
                assert(published(ops) =~= published(rest));
                assert(m1[s] == m[s]);
            },
        }
    }
}

pub open spec fn sub_entries(v: Seq<(u64, VecDeque<bytes::Bytes>)>) -> Seq<(u64, Seq<Seq<u8>>)> {
    v.map_values(|e: (u64, VecDeque<bytes::Bytes>)| (e.0, e.1@.map_values(|b: bytes::Bytes| bytes_content(b))))
}

/// A fan-out bus: a message published goes to the queue of every
/// subscriber, and each subscriber takes its messages in order.
pub struct Broadcast {
    subscribers: Vec<(u64, VecDeque<bytes::Bytes>)>,
    next_id: u64,
}

impl Broadcast {
    /// The queue of each subscriber.
    pub closed spec fn model(&self) -> BusModel {
        entries_map(sub_entries(self.subscribers@))
    }

    /// The id that the next subscriber gets.
    pub closed spec fn next_id(&self) -> u64 {
        self.next_id
    }

    pub closed spec fn wf(&self) -> bool {
        &&& keys_unique(sub_entries(self.subscribers@))
        &&& forall|s: u64| #[trigger] self.model().contains_key(s) ==> s < self.next_id
    }

    pub fn new() -> (r: Self)
        ensures
            r.wf(),
            r.model() == BusModel::empty(),
            r.next_id() == 0,
    {
        let r = Broadcast { subscribers: Vec::new(), next_id: 0 };
        assert(sub_entries(r.subscribers@) =~= Seq::<(u64, Seq<Seq<u8>>)>::empty());
        r
    }

    fn index_of(&self, s: u64) -> (r: Option<usize>)
        requires
            self.wf(),
        ensures
            match r {
                Some(i) => i < self.subscribers@.len() && self.subscribers@[i as int].0 == s
                    && self.model().contains_key(s) && self.model()[s] == sub_entries(
                    self.subscribers@,
                )[i as int].1,
                None => !self.model().contains_key(s),
            },
    {
        let ghost e = sub_entries(self.subscribers@);
        let mut i: usize = 0;
        while i < self.subscribers.len()
            invariant
                e == sub_entries(self.subscribers@),
                keys_unique(e),
                i <= self.subscribers@.len(),
                forall|j: int| 0 <= j < i ==> #[trigger] e[j].0 != s,
            decreases self.subscribers@.len() - i,
        {
            if self.subscribers[i].0 == s {
                proof {
                    lemma_entries_map_index(e, i as int);
                }
                return Some(i);
            }
            i = i + 1;
        }
        proof {
            lemma_entries_map_contains(e, s);
        }
        None
    }

    /// Adds a subscriber with an empty queue and returns its id, or `None`
    /// once every id has been handed out.
    pub fn subscribe(&mut self) -> (r: Option<u64>)
        requires
            old(self).wf(),
        ensures
            final(self).wf(),
            r is None <==> old(self).next_id() == u64::MAX,
            match r {
                Some(s) => s == old(self).next_id() && !old(self).model().contains_key(s)
                    && final(self).model() == bus_step(
                    old(self).model(),
                    BusOp::Subscribe(s),
                ).0,
                None => final(self).model() == old(self).model(),
            },
    {
        if self.next_id == u64::MAX {
            return None;
        }
        let s = self.next_id;
        let ghost e = sub_entries(self.subscribers@);
        proof {
            assert(!self.model().contains_key(s));
        }
        let q: VecDeque<bytes::Bytes> = VecDeque::new();
        assert(q@.map_values(|b: bytes::Bytes| bytes_content(b)) =~= Seq::<Seq<u8>>::empty());
        self.subscribers.push((s, q));
        self.next_id = s + 1;
        proof {
            assert(sub_entries(self.subscribers@) =~= e.push((s, Seq::<Seq<u8>>::empty())));
            lemma_push_unique(e, s, Seq::<Seq<u8>>::empty());
        }
        Some(s)
    }

    /// Removes the subscriber `s` and what waits for it.
    pub fn unsubscribe(&mut self, s: u64)
        requires
            old(self).wf(),
        ensures
            final(self).wf(),
            final(self).model() == bus_step(old(self).model(), BusOp::Unsubscribe(s)).0,
    {
        match self.index_of(s) {
            Some(i) => {
                let ghost e = sub_entries(self.subscribers@);
                self.subscribers.remove(i);
                proof {
                    assert(sub_entries(self.subscribers@) =~= e.remove(i as int));
                    lemma_entries_map_remove(e, i as int);
                }
            },
            None => {
                assert(self.model() =~= old(self).model().remove(s));
            },
        }
    }

    /// Takes the oldest message that waits for the subscriber `s`.
    pub fn try_recv(&mut self, s: u64) -> (r: Option<bytes::Bytes>)
        requires
            old(self).wf(),
        ensures
            final(self).wf(),
            ({
                let (m, got) = bus_step(old(self).model(), BusOp::Receive(s));
                &&& final(self).model() == m
                &&& match r {
                    Some(b) => got == Some(bytes_content(b)),
                    None => got is None,
                }
            }),
    {
        match self.index_of(s) {
            Some(i) => {
                let ghost e = sub_entries(self.subscribers@);
                let ghost q = e[i as int].1;
                let got = self.subscribers[i].1.pop_front();
                match got {
                    Some(b) => {
                        proof {
                            assert(sub_entries(self.subscribers@)[i as int].1 =~= q.drop_first());
                            assert(sub_entries(self.subscribers@) =~= e.update(
                                i as int,
                                (s, q.drop_first()),
                            ));
                            lemma_entries_map_update(e, i as int, q.drop_first());
                        }
                        Some(b)
                    },
                    None => {
                        assert(sub_entries(self.subscribers@) =~= e);
                        None
                    },
                }
            },
            None => None,
        }
    }

    /// Puts a copy of `msg` at the back of every subscriber's queue.
    pub fn publish(&mut self, msg: &bytes::Bytes)
        requires
            old(self).wf(),
        ensures
            final(self).wf(),
            final(self).model() == bus_step(old(self).model(), BusOp::Publish(bytes_content(*msg))).0,
    {
        let ghost e0 = sub_entries(self.subscribers@);
        let ghost c = bytes_content(*msg);
        let mut i: usize = 0;
        while i < self.subscribers.len()
            invariant
                i <= self.subscribers@.len(),
                self.subscribers@.len() == e0.len(),
                keys_unique(e0),
                self.next_id == old(self).next_id,
                c == bytes_content(*msg),
                forall|j: int|
                    0 <= j < self.subscribers@.len() ==> #[trigger] sub_entries(self.subscribers@)[j].0
                        == e0[j].0,
                forall|j: int|
                    0 <= j < i ==> #[trigger] sub_entries(self.subscribers@)[j].1 == e0[j].1.push(c),
                forall|j: int|
                    i <= j < self.subscribers@.len() ==> #[trigger] sub_entries(self.subscribers@)[j]
                        == e0[j],
            decreases self.subscribers@.len() - i,
        {
            let copy = bytes_clone(msg);
            let ghost prev = self.subscribers@;
            let ghost pe = sub_entries(prev);
            self.subscribers[i].1.push_back(copy);
            proof {
                let cur = sub_entries(self.subscribers@);
                assert(self.subscribers@ =~= prev.update(i as int, self.subscribers@[i as int]));
                assert(pe[i as int] == e0[i as int]);
                assert(cur[i as int].1 =~= pe[i as int].1.push(c));
                assert forall|j: int| 0 <= j < cur.len() implies #[trigger] cur[j].0 == e0[j].0 by {
                    if j != i {
                        assert(cur[j] == pe[j]);
                        assert(pe[j].0 == e0[j].0);
                    }
                }
                assert forall|j: int| 0 <= j < i + 1 implies #[trigger] cur[j].1 == e0[j].1.push(c) by {
                    if j != i {
                        assert(cur[j] == pe[j]);
                        assert(pe[j].1 == e0[j].1.push(c));
                    }
                }
                assert forall|j: int| i + 1 <= j < cur.len() implies #[trigger] cur[j] == e0[j] by {
                    assert(cur[j] == pe[j]);
                }
            }
            i = i + 1;
        }
        let ghost e1 = sub_entries(self.subscribers@);
        proof {
            assert(keys_unique(e1)) by {
                assert forall|a: int, b: int| 0 <= a < b < e1.len() implies #[trigger] e1[a].0
                    != #[trigger] e1[b].0 by {
                    assert(e1[a].0 == e0[a].0 && e1[b].0 == e0[b].0);
                }
            }
            assert forall|t: u64| #[trigger] entries_map(e1).contains_key(t) <==> entries_map(
                e0,
            ).contains_key(t) by {
                lemma_entries_map_contains(e0, t);
                lemma_entries_map_contains(e1, t);
                if entries_map(e0).contains_key(t) {
                    let j = choose|j: int| 0 <= j < e0.len() && #[trigger] e0[j].0 == t;
                    assert(e1[j].0 == t);
                }
                if entries_map(e1).contains_key(t) {
                    let j = choose|j: int| 0 <= j < e1.len() && #[trigger] e1[j].0 == t;
                    assert(e0[j].0 == t);
                }
            }
            assert forall|t: u64| #[trigger] entries_map(e1).contains_key(t) implies entries_map(
                e1,
            )[t] == entries_map(e0)[t].push(c) by {
                lemma_entries_map_contains(e1, t);
                let j = choose|j: int| 0 <= j < e1.len() && #[trigger] e1[j].0 == t;
                lemma_entries_map_index(e1, j);
                lemma_entries_map_index(e0, j);
            }
            assert(self.model() =~= bus_publish(old(self).model(), c));
        }
    }
}

} // verus!
