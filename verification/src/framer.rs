//! The stream framer: buffers raw bytes from a non-blocking source and
//! splits them on the `0x00` delimiter into decoded client messages.
//!
//! The framer holds no socket; whoever owns the connection reads bytes
//! and hands them to [`MessageReader::feed`], which also makes the
//! framer testable against an in-memory stream. A frame whose content
//! does not decode is dropped and the scan continues — the policy for
//! peers that violate the protocol is to ignore the bad frame, not to
//! tear the session down.

use vstd::prelude::*;
use crate::codec::{find_byte_from, no_zero_byte, lemma_find_byte_exact, find_byte};
use crate::messages::{
    ClientMessage, client_msg_wf, spec_enc_client, spec_dec_client, lemma_enc_client_no_zero,
    lemma_client_round_trip, decode_client,
};

verus! {

/// What one [`MessageReader::next`] call yields and leaves behind: no
/// delimiter means nothing (the buffer is kept whole); otherwise the
/// first frame is cut off and decoded, and an undecodable frame is
/// dropped so the scan continues behind it.
pub open spec fn spec_next_step(buf: Seq<u8>) -> (Option<ClientMessage>, Seq<u8>)
    decreases buf.len(),
{
    let j = find_byte_from(buf, 0, 0);
    if !(0 <= j < buf.len()) {
        (None::<ClientMessage>, buf)
    } else {
        let rest = buf.skip(j + 1);
        match spec_dec_client(buf.take(j)) {
            Some(m) => (Some(m), rest),
            None => spec_next_step(rest),
        }
    }
}

/// Every message the buffer currently holds in complete frames, in
/// arrival order, undecodable frames skipped.
pub open spec fn spec_drain(buf: Seq<u8>) -> Seq<ClientMessage>
    decreases buf.len(),
{
    let j = find_byte_from(buf, 0, 0);
    if !(0 <= j < buf.len()) {
        Seq::empty()
    } else {
        let rest = buf.skip(j + 1);
        match spec_dec_client(buf.take(j)) {
            Some(m) => seq![m] + spec_drain(rest),
            None => spec_drain(rest),
        }
    }
}

/// The bytes after the last delimiter: the partial frame still in
/// flight, kept for the next read.
pub open spec fn spec_tail(buf: Seq<u8>) -> Seq<u8>
    decreases buf.len(),
{
    let j = find_byte_from(buf, 0, 0);
    if !(0 <= j < buf.len()) {
        buf
    } else {
        spec_tail(buf.skip(j + 1))
    }
}

/// One step of [`spec_next_step`] takes exactly the head of
/// [`spec_drain`] and never touches the tail in flight.
pub proof fn lemma_next_step(buf: Seq<u8>)
    ensures
        ({
            let (m, rest) = spec_next_step(buf);
            match m {
                Some(msg) => spec_drain(buf) == seq![msg] + spec_drain(rest),
                None => spec_drain(buf).len() == 0,
            }
        }),
        spec_tail(spec_next_step(buf).1) == spec_tail(buf),
        spec_next_step(buf).0 is None ==> spec_next_step(buf).1 == spec_tail(buf),
        spec_next_step(buf).1.len() <= buf.len(),
        spec_next_step(buf).0 is Some ==> spec_next_step(buf).1.len() < buf.len(),
    decreases buf.len(),
{
    let j = find_byte_from(buf, 0, 0);
    if 0 <= j < buf.len() {
        let rest = buf.skip(j + 1);
        match spec_dec_client(buf.take(j)) {
            Some(m) => {},
            None => {
                lemma_next_step(rest);
            },
        }
    }
}

/// Every message a buffer drains to came out of the decoder, so every
/// one is well-formed.
pub proof fn lemma_drain_wf(buf: Seq<u8>)
    ensures
        forall|i: int| 0 <= i < spec_drain(buf).len() ==> client_msg_wf(
            #[trigger] spec_drain(buf)[i]),
    decreases buf.len(),
{
    let j = find_byte_from(buf, 0, 0);
    if 0 <= j < buf.len() {
        let rest = buf.skip(j + 1);
        lemma_drain_wf(rest);
        crate::messages::lemma_dec_client_wf(buf.take(j));
        match spec_dec_client(buf.take(j)) {
            Some(m) => {
                assert forall|i: int| 0 <= i < spec_drain(buf).len() implies client_msg_wf(
                    #[trigger] spec_drain(buf)[i]) by {
                    if i >= 1 {
                        assert(spec_drain(buf)[i] == spec_drain(rest)[i - 1]);
                    }
                }
            },
            None => {},
        }
    }
}

/// The wire image of a message sequence: each message encoded and
/// closed with the delimiter, concatenated in order.
pub open spec fn spec_wire(msgs: Seq<ClientMessage>) -> Seq<u8>
    decreases msgs.len(),
{
    if msgs.len() == 0 {
        Seq::empty()
    } else {
        spec_enc_client(msgs[0]) + seq![0u8] + spec_wire(msgs.skip(1))
    }
}

/// Framing idempotence: however the bytes of a wire image arrive —
/// they reach the buffer as this exact concatenation whatever the chunk
/// sizes — draining the buffer returns precisely the original messages
/// in order, and the trailing partial frame survives untouched.
pub proof fn lemma_framing_round_trip(msgs: Seq<ClientMessage>, tail: Seq<u8>)
    requires
        forall|i: int| 0 <= i < msgs.len() ==> client_msg_wf(#[trigger] msgs[i]),
        no_zero_byte(tail),
    ensures
        spec_drain(spec_wire(msgs) + tail) == msgs,
        spec_tail(spec_wire(msgs) + tail) == tail,
    decreases msgs.len(),
{
    let buf = spec_wire(msgs) + tail;
    if msgs.len() == 0 {
        assert(buf =~= tail);
        lemma_find_byte_exact(tail, 0, 0, tail.len() as int);
        assert(spec_drain(buf) =~= Seq::<ClientMessage>::empty());
        assert(msgs =~= Seq::<ClientMessage>::empty());
    } else {
        let m0 = msgs[0];
        let enc = spec_enc_client(m0);
        let restw = spec_wire(msgs.skip(1)) + tail;
        assert(buf =~= enc + seq![0u8] + restw);
        lemma_enc_client_no_zero(m0);
        let j = enc.len() as int;
        assert forall|i: int| 0 <= i < j implies #[trigger] buf[i] != 0 by {
            assert(buf[i] == enc[i]);
        }
        assert(buf[j] == 0);
        lemma_find_byte_exact(buf, 0, 0, j);
        assert(buf.take(j) =~= enc);
        lemma_client_round_trip(m0);
        assert(spec_dec_client(buf.take(j)) == Some(m0));
        assert(buf.skip(j + 1) =~= restw);
        lemma_framing_round_trip(msgs.skip(1), tail);
        assert(spec_drain(buf) == seq![m0] + msgs.skip(1));
        assert(seq![m0] + msgs.skip(1) =~= msgs);
    }
}

/// Partial-frame durability: everything of a frame but its final
/// delimiter byte yields no message; the byte that completes it yields
/// exactly that one message.
pub proof fn lemma_partial_frame(m: ClientMessage)
    requires
        client_msg_wf(m),
    ensures
        spec_drain(spec_enc_client(m)) == Seq::<ClientMessage>::empty(),
        spec_tail(spec_enc_client(m)) == spec_enc_client(m),
        spec_drain(spec_enc_client(m) + seq![0u8]) == seq![m],
{
    let enc = spec_enc_client(m);
    lemma_enc_client_no_zero(m);
    lemma_find_byte_exact(enc, 0, 0, enc.len() as int);
    assert(spec_drain(enc) =~= Seq::<ClientMessage>::empty());
    lemma_framing_round_trip(seq![m], Seq::empty());
    assert(seq![m].skip(1) =~= Seq::<ClientMessage>::empty());
    assert(spec_wire(Seq::<ClientMessage>::empty()) == Seq::<u8>::empty());
    assert(seq![m][0] == m);
    assert(spec_wire(seq![m]) =~= enc + seq![0u8]);
    assert(spec_wire(seq![m]) + Seq::<u8>::empty() =~= enc + seq![0u8]);
}

/// Wraps one byte stream and splits it into client messages. The
/// internal buffer grows without bound if the peer never sends a
/// delimiter; whoever owns the socket is expected to cap what it feeds.
pub struct MessageReader {
    pub buffer: Vec<u8>,
}

impl MessageReader {
    /// A framer with nothing buffered.
    pub fn new() -> (r: MessageReader)
        ensures
            r.buffer@ == Seq::<u8>::empty(),
    {
        MessageReader { buffer: Vec::new() }
    }

    /// Appends freshly read bytes behind whatever partial frame is
    /// already waiting; nothing is reordered or dropped.
    pub fn feed(&mut self, bytes: &[u8])
        ensures
            final(self).buffer@ == old(self).buffer@ + bytes@,
    {
        let n: usize = bytes.len();
        for i in 0..n
            invariant
                n == bytes@.len(),
                self.buffer@ == old(self).buffer@ + bytes@.take(i as int),
        {
            self.buffer.push(bytes[i]);
            proof {
                assert(self.buffer@ =~= old(self).buffer@ + bytes@.take(i + 1));
            }
        }
        proof {
            assert(old(self).buffer@ + bytes@.take(n as int) =~= old(self).buffer@ + bytes@);
        }
    }

    /// Cuts the first complete frame off the buffer and decodes it, as
    /// [`spec_next_step`] describes; callers loop until it yields
    /// nothing, since several frames may have arrived since the last
    /// tick.
    pub fn next(&mut self) -> (r: Option<ClientMessage>)
        ensures
            r == spec_next_step(old(self).buffer@).0,
            final(self).buffer@ == spec_next_step(old(self).buffer@).1,
    {
        loop
            invariant
                spec_next_step(old(self).buffer@) == spec_next_step(self.buffer@),
            decreases self.buffer@.len(),
        {
            let n: usize = self.buffer.len();
            let j: usize = find_byte(self.buffer.as_slice(), 0, 0);
            if j >= n {
                return None;
            }
            let mut frame: Vec<u8> = Vec::new();
            for i in 0..j
                invariant
                    j < n == self.buffer@.len(),
                    frame@ == self.buffer@.take(i as int),
                decreases j - i,
            {
                frame.push(self.buffer[i]);
                proof {
                    assert(self.buffer@.take(i + 1) =~= self.buffer@.take(i as int).push(
                        self.buffer@[i as int]));
                }
            }
            let mut rest: Vec<u8> = Vec::new();
            let mut i: usize = j + 1;
            while i < n
                invariant
                    j + 1 <= i <= n == self.buffer@.len(),
                    rest@ == self.buffer@.subrange(j + 1, i as int),
                decreases n - i,
            {
                rest.push(self.buffer[i]);
                proof {
                    assert(self.buffer@.subrange(j + 1, i + 1) =~= self.buffer@.subrange(
                        j + 1, i as int).push(self.buffer@[i as int]));
                }
                i = i + 1;
            }
            let decoded = decode_client(frame.as_slice());
            proof {
                assert(rest@ =~= self.buffer@.skip(j as int + 1));
            }
            self.buffer = rest;
            match decoded {
                Some(m) => {
                    return Some(m);
                },
                None => {},
            }
        }
    }
}

} // verus!
