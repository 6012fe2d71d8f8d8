use vstd::prelude::*;

use crate::broadcast::{Broadcast, BusModel, bus_publish};
use crate::buffer::bytes_content;
use crate::clients::{greeted, greeted_connection};
pub use crate::connections2::MonitorFrame;
use crate::connections2::{ConnView, Connections, after_push_all, error_replies, valid_messages};

verus! {

/// The bus after `msgs` are published on it, in order.
pub open spec fn publish_all(m: BusModel, msgs: Seq<Seq<u8>>) -> BusModel
    decreases msgs.len(),
{
    if msgs.len() == 0 {
        m
    } else {
        bus_publish(publish_all(m, msgs.drop_last()), msgs.last())
    }
}

/// Publishing a run of messages appends exactly that run, in order, to the
/// queue of every subscriber, and adds or drops none. So over successive
/// reads, of any monitors, each subscriber's queue grows by the
/// concatenation of every read's well-formed messages in the order of the
/// reads, and each monitor's messages keep their order within it.
pub proof fn lemma_publish_all_appends(m: BusModel, msgs: Seq<Seq<u8>>)
    ensures
        publish_all(m, msgs).dom() == m.dom(),
        forall|s: u64| #[trigger] m.contains_key(s) ==> publish_all(m, msgs)[s] == m[s] + msgs,
    decreases msgs.len(),
{
    if msgs.len() == 0 {
        assert forall|s: u64| #[trigger] m.contains_key(s) implies publish_all(m, msgs)[s] == m[s]
            + msgs by {
            assert(m[s] + msgs =~= m[s]);
        }
    } else {
        lemma_publish_all_appends(m, msgs.drop_last());
        let p = publish_all(m, msgs.drop_last());
        assert(bus_publish(p, msgs.last()).dom() =~= p.dom());
        assert forall|s: u64| #[trigger] m.contains_key(s) implies publish_all(m, msgs)[s] == m[s]
            + msgs by {
            assert((m[s] + msgs.drop_last()).push(msgs.last()) =~= m[s] + msgs);
        }
    }
}

/// The publishers of one worker.
pub struct Monitors {
    pub connections: Connections,
}

impl Monitors {
    pub fn new() -> (r: Self)
        ensures
            r.connections.wf(),
            r.connections.table() == Map::<u64, ConnView>::empty(),
    {
        Monitors { connections: Connections::new() }
    }

    /// Takes in a connection that passed its challenge (or needs none) and
    /// queues the greeting `greeting` on it.
    pub fn install(&mut self, token: u64, greeting: bytes::Bytes)
        requires
            old(self).connections.wf(),
            !old(self).connections.table().contains_key(token),
        ensures
            final(self).connections.wf(),
            final(self).connections.table() == old(self).connections.table().insert(
                token,
                greeted(bytes_content(greeting)),
            ),
    {
        let c = greeted_connection(token, greeting);
        self.connections.insert(c);
    }

    /// Handles the frames of one read of the monitor `token`: each
    /// well-formed message is published on the bus, in order; each
    /// malformed one gets its error reply queued on the monitor, which stays
    /// connected. Returns whether the connection is in this table; where it
    /// is not, nothing changes.
    pub fn on_frames(&mut self, token: u64, frames: Vec<MonitorFrame>, bus: &mut Broadcast) -> (r: bool)
        requires
            old(self).connections.wf(),
            old(bus).wf(),
        ensures
            final(self).connections.wf(),
            final(bus).wf(),
            r == old(self).connections.table().contains_key(token),
            r ==> final(bus).model() == publish_all(old(bus).model(), valid_messages(frames@)),
            r ==> final(self).connections.table() == old(self).connections.table().insert(
                token,
                after_push_all(old(self).connections.table()[token], error_replies(frames@)),
            ),
            !r ==> final(bus).model() == old(bus).model() && final(self).connections.table()
                == old(self).connections.table(),
    {
        let ghost b0 = old(bus).model();
        let msgs = match self.connections.read_messages(token, &frames) {
            Some(msgs) => msgs,
            None => return false,
        };
        let ghost mv = msgs@.map_values(|b: bytes::Bytes| bytes_content(b));
        proof {
            assert(mv.take(0) =~= Seq::<Seq<u8>>::empty());
        }
        let mut i: usize = 0;
        while i < msgs.len()
            invariant
                bus.wf(),
                i <= msgs@.len(),
                mv == msgs@.map_values(|b: bytes::Bytes| bytes_content(b)),
                bus.model() == publish_all(b0, mv.take(i as int)),
            decreases msgs@.len() - i,
        {
            bus.publish(&msgs[i]);
            proof {
                assert(mv.take(i as int + 1).drop_last() =~= mv.take(i as int));
                assert(mv.take(i as int + 1).last() == mv[i as int]);
            }
            i = i + 1;
        }
        proof {
            assert(mv.take(msgs@.len() as int) =~= mv);
        }
        true
    }
}

} // verus!
