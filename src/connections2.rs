use vstd::prelude::*;
use std::collections::VecDeque;

use crate::buffer::{bytes_clone, bytes_content, bytes_len, bytes_tail};
use crate::table::{
    entries_map, keys_unique, lemma_entries_map_contains, lemma_entries_map_index,
    lemma_entries_map_remove, lemma_entries_map_update, lemma_push_unique,
};

verus! {

/// The kind of a reply that the relay sends to a peer.
#[derive(Debug, Clone, Copy, PartialEq, Eq, Structural)]
pub enum MessageType {
    Error,
    Status,
}

/// A reply that the relay sends to a peer.
#[derive(Debug)]
pub struct Message {
    pub payload: String,
    pub message_type: MessageType,
}

/// A status reply with the text `msg`.
pub fn status_msg(msg: &str) -> (r: Message)
    ensures
        r.payload@ == msg@,
        r.message_type == MessageType::Status,
{
    Message { payload: msg.to_owned(), message_type: MessageType::Status }
}

/// Whether a connection can go on.
#[derive(Debug, Clone, Copy, PartialEq, Eq, Structural)]
pub enum ConnectionState {
    Open,
    Blocked,
    Closed,
}

/// What a write of the head buffer to the socket gave.
#[derive(Debug, Clone, Copy, PartialEq, Eq, Structural)]
pub enum WriteOutcome {
    /// This many bytes went out.
    Written(usize),
    /// The socket would block.
    WouldBlock,
    /// Any other error.
    Failed,
}

/// What a read from the socket gave.
#[derive(Debug, Clone, Copy, PartialEq, Eq, Structural)]
pub enum ReadOutcome {
    /// This many bytes came in; zero means the peer closed.
    Read(usize),
    /// The socket would block.
    WouldBlock,
    /// Any other error.
    Failed,
}

/// What a connection stands for: the buffers waiting to be written, oldest
/// first, its state, and the readiness that the event loop last reported.
pub struct ConnView {
    pub queue: Seq<Seq<u8>>,
    pub state: ConnectionState,
    pub readable: bool,
    pub writable: bool,
}

/// The bytes of `queue`, in order.
pub open spec fn pending_bytes(queue: Seq<Seq<u8>>) -> Seq<u8>
    decreases queue.len(),
{
    if queue.len() == 0 {
        Seq::empty()
    } else {
        queue[0] + pending_bytes(queue.drop_first())
    }
}

/// A connection's view after one write of its head buffer gave `outcome`.
pub open spec fn after_write(c: ConnView, outcome: WriteOutcome) -> ConnView {
    if c.queue.len() == 0 {
        c
    } else {
        match outcome {
            WriteOutcome::Written(n) => if n >= c.queue[0].len() {
                ConnView { queue: c.queue.drop_first(), ..c }
            } else {
                ConnView {
                    queue: seq![c.queue[0].subrange(n as int, c.queue[0].len() as int)] + c.queue.drop_first(),
                    ..c
                }
            },
            WriteOutcome::WouldBlock => ConnView { state: ConnectionState::Blocked, writable: false, ..c },
            WriteOutcome::Failed => ConnView { state: ConnectionState::Closed, ..c },
        }
    }
}

/// A connection's view after a read gave `outcome`.
pub open spec fn after_read(c: ConnView, outcome: ReadOutcome) -> ConnView {
    match outcome {
        ReadOutcome::Read(n) => if n == 0 {
            ConnView { state: ConnectionState::Closed, ..c }
        } else {
            c
        },
        ReadOutcome::WouldBlock => ConnView { state: ConnectionState::Blocked, readable: false, ..c },
        ReadOutcome::Failed => ConnView { state: ConnectionState::Closed, ..c },
    }
}

/// A connection's view after the event loop reported its readiness.
pub open spec fn after_readiness(c: ConnView, readable: bool, writable: bool) -> ConnView {
    ConnView {
        readable,
        writable,
        state: if (readable || writable) && c.state == ConnectionState::Blocked {
            ConnectionState::Open
        } else {
            c.state
        },
        ..c
    }
}

/// A connection's view with `buf` queued behind what waits.
pub open spec fn after_push(c: ConnView, buf: Seq<u8>) -> ConnView {
    ConnView { queue: c.queue.push(buf), ..c }
}

/// The write side of a peer's socket: the buffers waiting to go out, in
/// order, and the connection's state.
pub struct Connection {
    token: u64,
    write_buffers: VecDeque<bytes::Bytes>,
    pub state: ConnectionState,
    readable: bool,
    writable: bool,
}

impl View for Connection {
    type V = ConnView;

    closed spec fn view(&self) -> ConnView {
        ConnView {
            queue: self.write_buffers@.map_values(|b: bytes::Bytes| bytes_content(b)),
            state: self.state,
            readable: self.readable,
            writable: self.writable,
        }
    }
}

proof fn lemma_pending_split(h: Seq<u8>, rest: Seq<Seq<u8>>, n: int)
    requires
        0 <= n <= h.len(),
    ensures
        pending_bytes(seq![h] + rest) == h.subrange(0, n) + pending_bytes(
            seq![h.subrange(n, h.len() as int)] + rest,
        ),
{
    assert((seq![h] + rest).drop_first() =~= rest);
    let t = h.subrange(n, h.len() as int);
    assert((seq![t] + rest).drop_first() =~= rest);
    assert(h =~= h.subrange(0, n) + t);
    assert(h.subrange(0, n) + (t + pending_bytes(rest)) =~= (h.subrange(0, n) + t) + pending_bytes(rest));
}

impl Connection {
    /// The token of the connection's socket.
    pub closed spec fn id(&self) -> u64 {
        self.token
    }

    /// A new open connection on the socket `token`, with nothing queued.
    pub fn new(token: u64) -> (r: Self)
        ensures
            r.id() == token,
            r@.queue.len() == 0,
            r@.state == ConnectionState::Open,
            !r@.readable,
            !r@.writable,
    {
        let r = Connection {
            token,
            write_buffers: VecDeque::new(),
            state: ConnectionState::Open,
            readable: false,
            writable: false,
        };
        assert(r@.queue =~= Seq::<Seq<u8>>::empty());
        r
    }

    /// Queues `buf` behind the buffers that wait.
    pub fn push_write_buffer(&mut self, buf: bytes::Bytes)
        ensures
            final(self).id() == old(self).id(),
            final(self)@ == after_push(old(self)@, bytes_content(buf)),
    {
        self.write_buffers.push_back(buf);
        assert(self@.queue =~= old(self)@.queue.push(bytes_content(buf)));
    }

    pub fn buffer_count(&self) -> (r: usize)
        ensures
            r == self@.queue.len(),
    {
        self.write_buffers.len()
    }

    pub fn token(&self) -> (r: u64)
        ensures
            r == self.id(),
    {
        self.token
    }

    pub fn readable(&self) -> (r: bool)
        ensures
            r == self@.readable,
    {
        self.readable
    }

    pub fn writable(&self) -> (r: bool)
        ensures
            r == self@.writable,
    {
        self.writable
    }

    /// Records the readiness that the event loop reported; a blocked
    /// connection that is ready again is open.
    pub fn set_readiness(&mut self, readable: bool, writable: bool)
        ensures
            final(self).id() == old(self).id(),
            final(self)@ == after_readiness(old(self)@, readable, writable),
    {
        self.readable = readable;
        self.writable = writable;
        if readable || writable {
            if self.state == ConnectionState::Blocked {
                self.state = ConnectionState::Open;
            }
        }
    }

    /// The buffer to write next, if any.
    pub fn head_buffer(&self) -> (r: Option<bytes::Bytes>)
        ensures
            match r {
                Some(b) => self@.queue.len() > 0 && bytes_content(b) == self@.queue[0],
                None => self@.queue.len() == 0,
            },
    {
        if self.write_buffers.len() == 0 {
            None
        } else {
            Some(bytes_clone(&self.write_buffers[0]))
        }
    }

    /// Whether a flush should write now: the socket is writable, something
    /// waits, and the connection is not closed.
    pub fn wants_write(&self) -> (r: bool)
        ensures
            r == (self@.writable && self@.queue.len() > 0 && self@.state != ConnectionState::Closed),
    {
        self.writable && self.write_buffers.len() > 0 && self.state != ConnectionState::Closed
    }

    /// Records what writing the head buffer gave: a whole write drops it, a
    /// short one leaves the rest of it at the head, a blocked socket marks
    /// the connection blocked and any other error closes it. Returns whether
    /// a buffer was waiting. No byte is lost or reordered: what went out and
    /// what still waits make up what waited.
    pub fn write_buffer(&mut self, outcome: WriteOutcome) -> (r: bool)
        ensures
            final(self).id() == old(self).id(),
            r == (old(self)@.queue.len() > 0),
            final(self)@ == after_write(old(self)@, outcome),
            r ==> match outcome {
                WriteOutcome::Written(n) => {
                    let head = old(self)@.queue[0];
                    let sent = if n >= head.len() { head.len() as int } else { n as int };
                    pending_bytes(old(self)@.queue) == head.subrange(0, sent) + pending_bytes(
                        final(self)@.queue,
                    )
                },
                _ => pending_bytes(final(self)@.queue) == pending_bytes(old(self)@.queue),
            },
    {
        if self.write_buffers.len() == 0 {
            return false;
        }
        let ghost q = self@.queue;
        match outcome {
            WriteOutcome::Written(n) => {
                let head = self.write_buffers.pop_front().unwrap();
                let len = bytes_len(&head);
                proof {
                    assert(q =~= seq![q[0]] + q.drop_first());
                    assert(self@.queue =~= q.drop_first());
                }
                if n < len {
                    let rest = bytes_tail(&head, n);
                    self.write_buffers.push_front(rest);
                    proof {
                        assert(self@.queue =~= seq![q[0].subrange(n as int, q[0].len() as int)]
                            + q.drop_first());
                        lemma_pending_split(q[0], q.drop_first(), n as int);
                    }
                } else {
                    proof {
                        lemma_pending_split(q[0], q.drop_first(), q[0].len() as int);
                        assert(q[0].subrange(q[0].len() as int, q[0].len() as int) =~= Seq::<u8>::empty());
                        assert((seq![Seq::<u8>::empty()] + q.drop_first()).drop_first() =~= q.drop_first());
                        assert(Seq::<u8>::empty() + pending_bytes(q.drop_first()) =~= pending_bytes(q.drop_first()));
                    }
                }
            },
            WriteOutcome::WouldBlock => {
                self.state = ConnectionState::Blocked;
                self.writable = false;
            },
            WriteOutcome::Failed => {
                self.state = ConnectionState::Closed;
            },
        }
        true
    }

    /// Records what a read from the socket gave: end of stream or an error
    /// closes the connection, a blocked socket marks it blocked.
    pub fn read(&mut self, outcome: ReadOutcome)
        ensures
            final(self).id() == old(self).id(),
            final(self)@ == after_read(old(self)@, outcome),
    {
        match outcome {
            ReadOutcome::Read(n) => {
                if n == 0 {
                    self.state = ConnectionState::Closed;
                }
            },
            ReadOutcome::WouldBlock => {
                self.state = ConnectionState::Blocked;
                self.readable = false;
            },
            ReadOutcome::Failed => {
                self.state = ConnectionState::Closed;
            },
        }
    }
}

/// A connection's view with the buffers `bufs` queued behind what waits.
pub open spec fn after_push_all(c: ConnView, bufs: Seq<Seq<u8>>) -> ConnView {
    ConnView { queue: c.queue + bufs, ..c }
}

/// One frame that a monitor sent, as the decoder left it.
pub enum MonitorFrame {
    /// A well-formed message, in the bytes that go out on the bus.
    Valid(bytes::Bytes),
    /// A frame that did not parse, with the error reply for its sender.
    Malformed(bytes::Bytes),
}

/// The messages among `frames` that go out on the bus, in order.
pub open spec fn valid_messages(frames: Seq<MonitorFrame>) -> Seq<Seq<u8>>
    decreases frames.len(),
{
    if frames.len() == 0 {
        Seq::empty()
    } else {
        match frames.last() {
            MonitorFrame::Valid(b) => valid_messages(frames.drop_last()).push(bytes_content(b)),
            MonitorFrame::Malformed(_) => valid_messages(frames.drop_last()),
        }
    }
}

/// The error replies that `frames` bring back to their sender, in order.
pub open spec fn error_replies(frames: Seq<MonitorFrame>) -> Seq<Seq<u8>>
    decreases frames.len(),
{
    if frames.len() == 0 {
        Seq::empty()
    } else {
        match frames.last() {
            MonitorFrame::Valid(_) => error_replies(frames.drop_last()),
            MonitorFrame::Malformed(b) => error_replies(frames.drop_last()).push(bytes_content(b)),
        }
    }
}

pub open spec fn conn_entries(v: Seq<Connection>) -> Seq<(u64, ConnView)> {
    v.map_values(|c: Connection| (c.id(), c@))
}

/// The connections of one role, by token.
pub struct Connections {
    connections: Vec<Connection>,
}

impl Connections {
    /// Each connection's view, by token.
    pub closed spec fn table(&self) -> Map<u64, ConnView> {
        entries_map(conn_entries(self.connections@))
    }

    pub closed spec fn wf(&self) -> bool {
        keys_unique(conn_entries(self.connections@))
    }

    pub fn new() -> (r: Self)
        ensures
            r.wf(),
            r.table() == Map::<u64, ConnView>::empty(),
    {
        let r = Connections { connections: Vec::new() };
        assert(conn_entries(r.connections@) =~= Seq::<(u64, ConnView)>::empty());
        r
    }

    fn index_of(&self, token: u64) -> (r: Option<usize>)
        requires
            self.wf(),
        ensures
            match r {
                Some(i) => i < self.connections@.len() && self.connections@[i as int].id() == token
                    && self.table().contains_key(token) && self.table()[token]
                    == self.connections@[i as int]@,
                None => !self.table().contains_key(token),
            },
    {
        let ghost e = conn_entries(self.connections@);
        let mut i: usize = 0;
        while i < self.connections.len()
            invariant
                e == conn_entries(self.connections@),
                keys_unique(e),
                i <= self.connections@.len(),
                forall|j: int| 0 <= j < i ==> #[trigger] e[j].0 != token,
            decreases self.connections@.len() - i,
        {
            if self.connections[i].token() == token {
                proof {
                    lemma_entries_map_index(e, i as int);
                }
                return Some(i);
            }
            i = i + 1;
        }
        proof {
            lemma_entries_map_contains(e, token);
        }
        None
    }

    pub fn contains(&self, token: u64) -> (r: bool)
        requires
            self.wf(),
        ensures
            r == self.table().contains_key(token),
    {
        self.index_of(token).is_some()
    }

    pub fn len(&self) -> (r: usize)
        requires
            self.wf(),
        ensures
            r == self.table().len(),
    {
        proof {
            crate::table::lemma_entries_map_finite(conn_entries(self.connections@));
        }
        self.connections.len()
    }

    /// Takes in a connection whose token is not in the table.
    pub fn insert(&mut self, c: Connection)
        requires
            old(self).wf(),
            !old(self).table().contains_key(c.id()),
        ensures
            final(self).wf(),
            final(self).table() == old(self).table().insert(c.id(), c@),
    {
        let ghost e = conn_entries(self.connections@);
        let ghost k = c.id();
        let ghost v = c@;
        self.connections.push(c);
        proof {
            assert(conn_entries(self.connections@) =~= e.push((k, v)));
            lemma_push_unique(e, k, v);
        }
    }

    /// Takes the connection `token` out of the table.
    pub fn remove(&mut self, token: u64) -> (r: Option<Connection>)
        requires
            old(self).wf(),
        ensures
            final(self).wf(),
            final(self).table() == old(self).table().remove(token),
            match r {
                Some(c) => old(self).table().contains_key(token) && c.id() == token && c@ == old(
                    self,
                ).table()[token],
                None => !old(self).table().contains_key(token),
            },
    {
        match self.index_of(token) {
            Some(i) => {
                let ghost e = conn_entries(self.connections@);
                let c = self.connections.remove(i);
                proof {
                    assert(conn_entries(self.connections@) =~= e.remove(i as int));
                    lemma_entries_map_remove(e, i as int);
                }
                Some(c)
            },
            None => {
                assert(self.table() =~= old(self).table().remove(token));
                None
            },
        }
    }

    /// Queues `buf` on the connection `token`; returns whether it is there.
    pub fn push_write_buffer(&mut self, token: u64, buf: bytes::Bytes) -> (r: bool)
        requires
            old(self).wf(),
        ensures
            final(self).wf(),
            r == old(self).table().contains_key(token),
            r ==> final(self).table() == old(self).table().insert(
                token,
                after_push(old(self).table()[token], bytes_content(buf)),
            ),
            !r ==> final(self).table() == old(self).table(),
    {
        match self.index_of(token) {
            Some(i) => {
                let ghost e = conn_entries(self.connections@);
                self.connections[i].push_write_buffer(buf);
                proof {
                    assert(conn_entries(self.connections@) =~= e.update(
                        i as int,
                        (token, self.connections@[i as int]@),
                    ));
                    lemma_entries_map_update(e, i as int, self.connections@[i as int]@);
                }
                true
            },
            None => false,
        }
    }

    /// Records what writing the head buffer of the connection `token` gave,
    /// and drops the connection if that closed it. Returns whether the
    /// connection was there.
    pub fn write_messages(&mut self, token: u64, outcome: WriteOutcome) -> (r: bool)
        requires
            old(self).wf(),
        ensures
            final(self).wf(),
            r == old(self).table().contains_key(token),
            !r ==> final(self).table() == old(self).table(),
            r ==> {
                let c = after_write(old(self).table()[token], outcome);
                if c.state == ConnectionState::Closed {
                    final(self).table() == old(self).table().remove(token)
                } else {
                    final(self).table() == old(self).table().insert(token, c)
                }
            },
    {
        match self.index_of(token) {
            Some(i) => {
                let ghost e = conn_entries(self.connections@);
                self.connections[i].write_buffer(outcome);
                proof {
                    assert(conn_entries(self.connections@) =~= e.update(
                        i as int,
                        (token, self.connections@[i as int]@),
                    ));
                    lemma_entries_map_update(e, i as int, self.connections@[i as int]@);
                }
                if self.connections[i].state == ConnectionState::Closed {
                    self.remove(token);
                    assert(self.table() =~= old(self).table().remove(token));
                }
                true
            },
            None => false,
        }
    }

    /// Takes the frames of one read of the connection `token`: hands back
    /// its well-formed messages, in order, and queues on the connection the
    /// error reply of each malformed frame, in order. `None`, with nothing
    /// changed, where the connection is not in the table.
    pub fn read_messages(&mut self, token: u64, frames: &Vec<MonitorFrame>) -> (r: Option<
        Vec<bytes::Bytes>,
    >)
        requires
            old(self).wf(),
        ensures
            final(self).wf(),
            r is Some == old(self).table().contains_key(token),
            r is None ==> final(self).table() == old(self).table(),
            r matches Some(msgs) ==> msgs@.map_values(|b: bytes::Bytes| bytes_content(b))
                == valid_messages(frames@),
            r is Some ==> final(self).table() == old(self).table().insert(
                token,
                after_push_all(old(self).table()[token], error_replies(frames@)),
            ),
    {
        if !self.contains(token) {
            return None;
        }
        let ghost t0 = old(self).table();
        let ghost fs = frames@;
        let mut out: Vec<bytes::Bytes> = Vec::new();
        proof {
            assert(fs.take(0) =~= Seq::<MonitorFrame>::empty());
            assert(t0[token].queue + Seq::<Seq<u8>>::empty() =~= t0[token].queue);
            assert(t0.insert(token, after_push_all(t0[token], Seq::empty())) =~= t0);
            assert(out@.map_values(|b: bytes::Bytes| bytes_content(b)) =~= Seq::<Seq<u8>>::empty());
        }
        let mut i: usize = 0;
        while i < frames.len()
            invariant
                self.wf(),
                fs == frames@,
                i <= fs.len(),
                t0 == old(self).table(),
                t0.contains_key(token),
                out@.map_values(|b: bytes::Bytes| bytes_content(b)) == valid_messages(
                    fs.take(i as int),
                ),
                self.table() == t0.insert(
                    token,
                    after_push_all(t0[token], error_replies(fs.take(i as int))),
                ),
            decreases fs.len() - i,
        {
            proof {
                assert(fs.take(i as int + 1).drop_last() =~= fs.take(i as int));
                assert(fs.take(i as int + 1).last() == fs[i as int]);
            }
            match &frames[i] {
                MonitorFrame::Valid(b) => {
                    let ghost before = out@;
                    out.push(bytes_clone(b));
                    proof {
                        assert(out@.map_values(|b: bytes::Bytes| bytes_content(b)) =~= before.map_values(
                            |b: bytes::Bytes| bytes_content(b),
                        ).push(bytes_content(*b)));
                    }
                },
                MonitorFrame::Malformed(b) => {
                    let reply = bytes_clone(b);
                    self.push_write_buffer(token, reply);
                    proof {
                        let o = t0[token].queue;
                        let e = error_replies(fs.take(i as int));
                        assert((o + e).push(bytes_content(*b)) =~= o + e.push(bytes_content(*b)));
                        assert(self.table() =~= t0.insert(
                            token,
                            after_push_all(t0[token], error_replies(fs.take(i as int + 1))),
                        ));
                    }
                },
            }
            i = i + 1;
        }
        proof {
            assert(fs.take(fs.len() as int) =~= fs);
        }
        Some(out)
    }

    /// Records what a read from the connection `token` gave, and drops the
    /// connection if that closed it. Returns whether the connection was
    /// there.
    pub fn record_read(&mut self, token: u64, outcome: ReadOutcome) -> (r: bool)
        requires
            old(self).wf(),
        ensures
            final(self).wf(),
            r == old(self).table().contains_key(token),
            !r ==> final(self).table() == old(self).table(),
            r ==> {
                let c = after_read(old(self).table()[token], outcome);
                if c.state == ConnectionState::Closed {
                    final(self).table() == old(self).table().remove(token)
                } else {
                    final(self).table() == old(self).table().insert(token, c)
                }
            },
    {
        match self.index_of(token) {
            Some(i) => {
                let ghost e = conn_entries(self.connections@);
                self.connections[i].read(outcome);
                proof {
                    assert(conn_entries(self.connections@) =~= e.update(
                        i as int,
                        (token, self.connections@[i as int]@),
                    ));
                    lemma_entries_map_update(e, i as int, self.connections@[i as int]@);
                }
                if self.connections[i].state == ConnectionState::Closed {
                    self.remove(token);
                    assert(self.table() =~= old(self).table().remove(token));
                }
                true
            },
            None => false,
        }
    }

    /// Records the readiness that the event loop reported for the
    /// connection `token`. Returns whether the connection is there.
    pub fn set_readiness(&mut self, token: u64, readable: bool, writable: bool) -> (r: bool)
        requires
            old(self).wf(),
        ensures
            final(self).wf(),
            r == old(self).table().contains_key(token),
            r ==> final(self).table() == old(self).table().insert(
                token,
                after_readiness(old(self).table()[token], readable, writable),
            ),
            !r ==> final(self).table() == old(self).table(),
    {
        match self.index_of(token) {
            Some(i) => {
                let ghost e = conn_entries(self.connections@);
                self.connections[i].set_readiness(readable, writable);
                proof {
                    assert(conn_entries(self.connections@) =~= e.update(
                        i as int,
                        (token, self.connections@[i as int]@),
                    ));
                    lemma_entries_map_update(e, i as int, self.connections@[i as int]@);
                }
                true
            },
            None => false,
        }
    }

    /// The buffer that the connection `token` writes next, if it is there
    /// and should write now (see [`Connection::wants_write`]).
    pub fn next_write(&self, token: u64) -> (r: Option<bytes::Bytes>)
        requires
            self.wf(),
        ensures
            match r {
                Some(b) => {
                    let c = self.table()[token];
                    &&& self.table().contains_key(token)
                    &&& c.writable && c.queue.len() > 0 && c.state != ConnectionState::Closed
                    &&& bytes_content(b) == c.queue[0]
                },
                None => !self.table().contains_key(token) || {
                    let c = self.table()[token];
                    !(c.writable && c.queue.len() > 0 && c.state != ConnectionState::Closed)
                },
            },
    {
        match self.index_of(token) {
            Some(i) => {
                if self.connections[i].wants_write() {
                    self.connections[i].head_buffer()
                } else {
                    None
                }
            },
            None => None,
        }
    }

    /// Queues a copy of `buf` on every connection of the table.
    pub fn push_all(&mut self, buf: &bytes::Bytes)
        requires
            old(self).wf(),
        ensures
            final(self).wf(),
            final(self).table().dom() == old(self).table().dom(),
            forall|t: u64| #[trigger]
                final(self).table().contains_key(t) ==> final(self).table()[t] == after_push(
                    old(self).table()[t],
                    bytes_content(*buf),
                ),
    {
        let ghost e0 = conn_entries(self.connections@);
        let mut i: usize = 0;
        while i < self.connections.len()
            invariant
                i <= self.connections@.len(),
                self.connections@.len() == e0.len(),
                keys_unique(e0),
                forall|j: int|
                    0 <= j < self.connections@.len() ==> #[trigger] conn_entries(self.connections@)[j].0
                        == e0[j].0,
                forall|j: int|
                    0 <= j < i ==> #[trigger] conn_entries(self.connections@)[j].1 == after_push(
                        e0[j].1,
                        bytes_content(*buf),
                    ),
                forall|j: int|
                    i <= j < self.connections@.len() ==> #[trigger] conn_entries(self.connections@)[j]
                        == e0[j],
            decreases self.connections@.len() - i,
        {
            let copy = bytes_clone(buf);
            let ghost prev = self.connections@;
            self.connections[i].push_write_buffer(copy);
            proof {
                assert(self.connections@[i as int].id() == prev[i as int].id());
                assert(self.connections@[i as int]@ == after_push(prev[i as int]@, bytes_content(*buf)));
                assert(self.connections@ =~= prev.update(i as int, self.connections@[i as int]));
                assert(conn_entries(self.connections@) =~= conn_entries(prev).update(
                    i as int,
                    (prev[i as int].id(), self.connections@[i as int]@),
                ));
                let cur = conn_entries(self.connections@);
                let pe = conn_entries(prev);
                assert(pe[i as int] == e0[i as int]);
                assert(cur[i as int] == (prev[i as int].id(), self.connections@[i as int]@));
                assert forall|j: int| 0 <= j < cur.len() implies #[trigger] cur[j].0 == e0[j].0 by {
                    if j != i {
                        assert(cur[j] == pe[j]);
                        assert(pe[j].0 == e0[j].0);
                    }
                }
                assert forall|j: int| 0 <= j < i + 1 implies #[trigger] cur[j].1 == after_push(
                    e0[j].1,
                    bytes_content(*buf),
                ) by {
                    if j != i {
                        assert(cur[j] == pe[j]);
                        assert(pe[j].1 == after_push(e0[j].1, bytes_content(*buf)));
                    }
                }
            }
            i = i + 1;
        }
        let ghost e1 = conn_entries(self.connections@);
        proof {
            assert(keys_unique(e1)) by {
                assert forall|a: int, b: int| 0 <= a < b < e1.len() implies #[trigger] e1[a].0
                    != #[trigger] e1[b].0 by {
                    assert(e1[a].0 == e0[a].0 && e1[b].0 == e0[b].0);
                }
            }
            assert forall|t: u64| #[trigger] entries_map(e1).contains_key(t) <==> entries_map(
                e0,
            ).contains_key(t) by {
                lemma_entries_map_contains(e0, t);
                lemma_entries_map_contains(e1, t);
                if entries_map(e0).contains_key(t) {
                    let j = choose|j: int| 0 <= j < e0.len() && #[trigger] e0[j].0 == t;
                    assert(e1[j].0 == t);
                }
                if entries_map(e1).contains_key(t) {
                    let j = choose|j: int| 0 <= j < e1.len() && #[trigger] e1[j].0 == t;
                    assert(e0[j].0 == t);
                }
            }
            assert(entries_map(e1).dom() =~= entries_map(e0).dom());
            assert forall|t: u64| #[trigger] entries_map(e1).contains_key(t) implies entries_map(
                e1,
            )[t] == after_push(entries_map(e0)[t], bytes_content(*buf)) by {
                lemma_entries_map_contains(e1, t);
                let j = choose|j: int| 0 <= j < e1.len() && #[trigger] e1[j].0 == t;
                lemma_entries_map_index(e1, j);
                lemma_entries_map_index(e0, j);
            }
        }
    }
}

} // verus!
