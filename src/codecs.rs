use vstd::prelude::*;

use crate::connections2::ReadOutcome;

verus! {

/// The byte that ends a frame.
pub const NEWLINE: u8 = 10;

/// What a read did for the codec.
#[derive(Debug, Clone, Copy, PartialEq, Eq, Structural)]
pub enum Decoding {
    /// Bytes came in and were framed.
    Succeeded,
    /// Nothing to read now.
    Blocked,
    /// The peer closed or the read failed.
    ConnectionError,
}

/// Frames the bytes `s` that follow the unfinished frame `cur`: the frames
/// that `s` completes, in order, and the unfinished frame after it.
pub open spec fn frames_from(cur: Seq<u8>, s: Seq<u8>) -> (Seq<Seq<u8>>, Seq<u8>)
    decreases s.len(),
{
    if s.len() == 0 {
        (Seq::empty(), cur)
    } else {
        let (done, open) = frames_from(cur, s.drop_last());
        if s.last() == NEWLINE {
            (done.push(open), Seq::empty())
        } else {
            (done, open.push(s.last()))
        }
    }
}

/// The bytes that carry the frame `m`.
pub open spec fn encoded(m: Seq<u8>) -> Seq<u8> {
    m.push(NEWLINE)
}

/// Newline framing: bytes come in as they are read, complete frames go out.
pub struct LineCodec {
    buffer: Vec<u8>,
    lines: Vec<Vec<u8>>,
}

impl LineCodec {
    /// The bytes of the frame that has not been ended yet.
    pub closed spec fn pending(&self) -> Seq<u8> {
        self.buffer@
    }

    /// The complete frames that wait to be drained, oldest first.
    pub closed spec fn ready(&self) -> Seq<Seq<u8>> {
        self.lines@.map_values(|l: Vec<u8>| l@)
    }

    pub fn new() -> (r: Self)
        ensures
            r.pending() == Seq::<u8>::empty(),
            r.ready() == Seq::<Seq<u8>>::empty(),
    {
        let r = LineCodec { buffer: Vec::new(), lines: Vec::new() };
        assert(r.ready() =~= Seq::<Seq<u8>>::empty());
        r
    }

    /// Takes in what a read gave: on `Read(n)` with `n > 0`, the bytes
    /// `data` that came in; a read of nothing, or an error, is a connection
    /// error, and a blocked read changes nothing.
    pub fn decode(&mut self, outcome: ReadOutcome, data: &[u8]) -> (r: Decoding)
        ensures
            match outcome {
                ReadOutcome::Read(n) => if n == 0 {
                    r == Decoding::ConnectionError
                } else {
                    r == Decoding::Succeeded
                },
                ReadOutcome::WouldBlock => r == Decoding::Blocked,
                ReadOutcome::Failed => r == Decoding::ConnectionError,
            },
            r == Decoding::Succeeded ==> {
                let (done, open) = frames_from(old(self).pending(), data@);
                &&& final(self).ready() == old(self).ready() + done
                &&& final(self).pending() == open
            },
            r != Decoding::Succeeded ==> final(self).ready() == old(self).ready(),
            r != Decoding::Succeeded ==> final(self).pending() == old(self).pending(),
    {
        match outcome {
            ReadOutcome::Read(n) => {
                if n == 0 {
                    return Decoding::ConnectionError;
                }
            },
            ReadOutcome::WouldBlock => {
                return Decoding::Blocked;
            },
            ReadOutcome::Failed => {
                return Decoding::ConnectionError;
            },
        }
        self.push_bytes(data);
        Decoding::Succeeded
    }

    fn push_bytes(&mut self, data: &[u8])
        ensures
            ({
                let (done, open) = frames_from(old(self).pending(), data@);
                &&& final(self).ready() == old(self).ready() + done
                &&& final(self).pending() == open
            }),
    {
        let ghost start = self.pending();
        let ghost before = self.ready();
        let mut i: usize = 0;
        proof {
            assert(data@.take(0) =~= Seq::<u8>::empty());
            assert(before + Seq::<Seq<u8>>::empty() =~= before);
        }
        while i < data.len()
            invariant
                i <= data@.len(),
                self.ready() == before + frames_from(start, data@.take(i as int)).0,
                self.pending() == frames_from(start, data@.take(i as int)).1,
            decreases data@.len() - i,
        {
            let b = data[i];
            proof {
                assert(data@.take(i as int + 1).drop_last() =~= data@.take(i as int));
                assert(data@.take(i as int + 1).last() == b);
            }
            let ghost prev = self.ready();
            if b == NEWLINE {
                let mut line: Vec<u8> = Vec::new();
                std::mem::swap(&mut self.buffer, &mut line);
                self.lines.push(line);
                proof {
                    assert(self.ready() =~= prev.push(line@));
                    assert(self.pending() =~= Seq::<u8>::empty());
                }
            } else {
                self.buffer.push(b);
            }
            i = i + 1;
        }
        proof {
            assert(data@.take(i as int) =~= data@);
        }
    }

    /// Hands out the complete frames, oldest first, and forgets them.
    pub fn drain(&mut self) -> (r: Vec<Vec<u8>>)
        ensures
            r@.map_values(|l: Vec<u8>| l@) == old(self).ready(),
            final(self).ready() == Seq::<Seq<u8>>::empty(),
            final(self).pending() == old(self).pending(),
    {
        let mut r: Vec<Vec<u8>> = Vec::new();
        std::mem::swap(&mut self.lines, &mut r);
        assert(self.ready() =~= Seq::<Seq<u8>>::empty());
        r
    }

    /// The bytes that carry the frame `frame`: the frame and a newline.
    pub fn encode(frame: &[u8]) -> (r: Vec<u8>)
        ensures
            r@ == encoded(frame@),
            r@.last() == NEWLINE,
    {
        let mut r: Vec<u8> = Vec::new();
        let mut i: usize = 0;
        while i < frame.len()
            invariant
                i <= frame@.len(),
                r@ == frame@.take(i as int),
            decreases frame@.len() - i,
        {
            r.push(frame[i]);
            proof {
                assert(frame@.take(i as int + 1) =~= frame@.take(i as int).push(frame@[i as int]));
            }
            i = i + 1;
        }
        r.push(NEWLINE);
        assert(frame@.take(frame@.len() as int) =~= frame@);
        r
    }
}

/// Bytes without a newline only extend the unfinished frame.
pub proof fn lemma_frames_without_newline(cur: Seq<u8>, s: Seq<u8>)
    requires
        !s.contains(NEWLINE),
    ensures
        frames_from(cur, s) == (Seq::<Seq<u8>>::empty(), cur + s),
    decreases s.len(),
{
    if s.len() > 0 {
        assert(!s.drop_last().contains(NEWLINE)) by {
            if s.drop_last().contains(NEWLINE) {
                let i = choose|i: int| 0 <= i < s.drop_last().len() && s.drop_last()[i] == NEWLINE;
                assert(s[i] == NEWLINE);
            }
        }
        lemma_frames_without_newline(cur, s.drop_last());
        assert(s.last() != NEWLINE) by {
            assert(s[s.len() - 1] == s.last());
        }
        assert((cur + s.drop_last()).push(s.last()) =~= cur + s);
    }
}

/// Framing undoes encoding: the bytes that carry a frame without a newline,
/// read from a frame boundary, give back exactly that frame and leave
/// nothing unfinished.
pub proof fn lemma_encode_round_trip(m: Seq<u8>)
    requires
        !m.contains(NEWLINE),
    ensures
        frames_from(Seq::empty(), encoded(m)) == (seq![m], Seq::<u8>::empty()),
{
    lemma_frames_without_newline(Seq::empty(), m);
    assert(encoded(m).drop_last() =~= m);
    assert(Seq::<u8>::empty() + m =~= m);
    assert(Seq::<Seq<u8>>::empty().push(m) =~= seq![m]);
}

/// Framing does not depend on how the bytes were split into reads: framing
/// `a` and then `b` gives what framing `a + b` at once gives.
pub proof fn lemma_frames_split_reads(cur: Seq<u8>, a: Seq<u8>, b: Seq<u8>)
    ensures
        ({
            let (d1, o1) = frames_from(cur, a);
            let (d2, o2) = frames_from(o1, b);
            frames_from(cur, a + b) == (d1 + d2, o2)
        }),
    decreases b.len(),
{
    if b.len() == 0 {
        assert(a + b =~= a);
        let (d1, o1) = frames_from(cur, a);
        assert(d1 + Seq::<Seq<u8>>::empty() =~= d1);
    } else {
        lemma_frames_split_reads(cur, a, b.drop_last());
        assert((a + b).drop_last() =~= a + b.drop_last());
        assert((a + b).last() == b.last());
        let (d1, o1) = frames_from(cur, a);
        let (d2, o2) = frames_from(o1, b.drop_last());
        assert((d1 + d2).push(o2) =~= d1 + d2.push(o2));
    }
}

/// The bytes that carry the frames `ms`, one after the other.
pub open spec fn encoded_all(ms: Seq<Seq<u8>>) -> Seq<u8>
    decreases ms.len(),
{
    if ms.len() == 0 {
        Seq::empty()
    } else {
        encoded_all(ms.drop_last()) + encoded(ms.last())
    }
}

/// Framing undoes encoding for any run of frames without newlines: each
/// comes back once, in order, and nothing is left unfinished. A frame that
/// a reader rejects therefore never reaches into the next one.
pub proof fn lemma_encode_all_round_trip(ms: Seq<Seq<u8>>)
    requires
        forall|i: int| 0 <= i < ms.len() ==> !(#[trigger] ms[i]).contains(NEWLINE),
    ensures
        frames_from(Seq::empty(), encoded_all(ms)) == (ms, Seq::<u8>::empty()),
    decreases ms.len(),
{
    if ms.len() == 0 {
        assert(ms =~= Seq::<Seq<u8>>::empty());
    } else {
        let init = ms.drop_last();
        assert forall|i: int| 0 <= i < init.len() implies !(#[trigger] init[i]).contains(NEWLINE) by {
            assert(init[i] == ms[i]);
        }
        lemma_encode_all_round_trip(init);
        assert(!ms[ms.len() - 1].contains(NEWLINE));
        lemma_encode_round_trip(ms.last());
        lemma_frames_split_reads(Seq::empty(), encoded_all(init), encoded(ms.last()));
        assert(init + seq![ms.last()] =~= ms);
    }
}

} // verus!
