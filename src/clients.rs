use vstd::prelude::*;

use crate::broadcast::Broadcast;
use crate::buffer::bytes_content;
use crate::connections2::{ConnView, Connection, ConnectionState, Connections, after_push_all};

verus! {

/// A freshly installed connection that has its greeting queued.
pub open spec fn greeted(greeting: Seq<u8>) -> ConnView {
    ConnView {
        queue: seq![greeting],
        state: ConnectionState::Open,
        readable: false,
        writable: false,
    }
}

/// Makes a connection for the socket `token` with `greeting` queued.
pub fn greeted_connection(token: u64, greeting: bytes::Bytes) -> (r: Connection)
    ensures
        r.id() == token,
        r@ == greeted(bytes_content(greeting)),
{
    let mut c = Connection::new(token);
    c.push_write_buffer(greeting);
    assert(c@.queue =~= seq![bytes_content(greeting)]);
    c
}

/// The subscribers of one worker: each message that reaches the bus goes to
/// every connection of the table.
pub struct Clients {
    pub subscriber: u64,
    pub connections: Connections,
}

impl Clients {
    /// A table with no connections that receives what the bus holds for
    /// `subscriber`.
    pub fn new(subscriber: u64) -> (r: Self)
        ensures
            r.connections.wf(),
            r.subscriber == subscriber,
            r.connections.table() == Map::<u64, ConnView>::empty(),
    {
        Clients { subscriber, connections: Connections::new() }
    }

    /// Takes in a connection that passed its challenge (or needs none) and
    /// queues the greeting `greeting` on it.
    pub fn install(&mut self, token: u64, greeting: bytes::Bytes)
        requires
            old(self).connections.wf(),
            !old(self).connections.table().contains_key(token),
        ensures
            final(self).connections.wf(),
            final(self).subscriber == old(self).subscriber,
            final(self).connections.table() == old(self).connections.table().insert(
                token,
                greeted(bytes_content(greeting)),
            ),
    {
        let c = greeted_connection(token, greeting);
        self.connections.insert(c);
    }

    /// Hands every message that waits on the bus for this table to each of
    /// its connections, in order.
    pub fn on_bus(&mut self, bus: &mut Broadcast)
        requires
            old(self).connections.wf(),
            old(bus).wf(),
        ensures
            final(self).connections.wf(),
            final(bus).wf(),
            final(self).subscriber == old(self).subscriber,
            final(self).connections.table().dom() == old(self).connections.table().dom(),
            old(bus).model().contains_key(old(self).subscriber) ==> {
                &&& final(bus).model() == old(bus).model().insert(old(self).subscriber, Seq::empty())
                &&& forall|t: u64| #[trigger]
                    final(self).connections.table().contains_key(t)
                        ==> final(self).connections.table()[t] == after_push_all(
                        old(self).connections.table()[t],
                        old(bus).model()[old(self).subscriber],
                    )
            },
            !old(bus).model().contains_key(old(self).subscriber) ==> final(bus).model()
                == old(bus).model() && final(self).connections.table() == old(self).connections.table(),
    {
        let ghost s = self.subscriber;
        let ghost start = old(bus).model();
        let ghost q = if start.contains_key(s) { start[s] } else { Seq::<Seq<u8>>::empty() };
        let ghost mut got: Seq<Seq<u8>> = Seq::empty();
        proof {
            assert forall|t: u64| #[trigger] self.connections.table().contains_key(t) implies self.connections.table()[t]
                == after_push_all(old(self).connections.table()[t], got) by {
                assert(old(self).connections.table()[t].queue + got =~= old(self).connections.table()[t].queue);
            }
            if start.contains_key(s) {
                assert(q.skip(0) =~= q);
                assert(q.take(0) =~= got);
                assert(start.insert(s, q.skip(0)) =~= start);
            }
        }
        loop
            invariant
                self.subscriber == s,
                s == old(self).subscriber,
                start == old(bus).model(),
                q == (if start.contains_key(s) { start[s] } else { Seq::<Seq<u8>>::empty() }),
                self.connections.wf(),
                bus.wf(),
                self.connections.table().dom() == old(self).connections.table().dom(),
                start.contains_key(s) ==> {
                    &&& bus.model() == start.insert(s, q.skip(got.len() as int))
                    &&& got.len() <= q.len()
                    &&& got == q.take(got.len() as int)
                },
                !start.contains_key(s) ==> bus.model() == start && got.len() == 0,
                forall|t: u64| #[trigger]
                    self.connections.table().contains_key(t) ==> self.connections.table()[t]
                        == after_push_all(old(self).connections.table()[t], got),
            decreases q.len() - got.len(),
        {
            let ghost before = self.connections.table();
            match bus.try_recv(self.subscriber) {
                Some(m) => {
                    proof {
                        if start.contains_key(s) {
                            assert(q.skip(got.len() as int)[0] == q[got.len() as int]);
                            assert(q.take(got.len() as int + 1) =~= got.push(q[got.len() as int]));
                            assert(q.skip(got.len() as int).drop_first() =~= q.skip(got.len() as int + 1));
                        }
                        got = got.push(bytes_content(m));
                    }
                    self.connections.push_all(&m);
                    proof {
                        assert forall|t: u64| #[trigger] self.connections.table().contains_key(t) implies self.connections.table()[t]
                            == after_push_all(old(self).connections.table()[t], got) by {
                            let o = old(self).connections.table()[t];
                            assert(o.queue + got =~= (o.queue + got.drop_last()).push(got.last()));
                        }
                        assert(bus.model() =~= start.insert(s, q.skip(got.len() as int)));
                    }
                },
                None => {
                    proof {
                        if start.contains_key(s) {
                            assert(bus.model()[s] == q.skip(got.len() as int));
                            assert(q.skip(got.len() as int).len() == 0);
                            assert(got =~= q);
                            assert(q.skip(got.len() as int) =~= Seq::<Seq<u8>>::empty());
                            assert(start.insert(s, q.skip(got.len() as int)) =~= start.insert(s, Seq::empty()));
                        }
                    }
                    return;
                },
            }
        }
    }
}

} // verus!
