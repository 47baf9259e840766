//! The per-connection read state machine.
//!
//! A connection turns an arbitrary sequence of short, non-blocking reads into
//! complete messages. It accumulates exactly the bytes of the current frame
//! in one buffer: first up to the fixed header size, then — once the header
//! has been validated — up to the total length the header declares. Each
//! `advance` call absorbs one chunk of at most the outstanding byte count and
//! produces at most one complete message. The socket itself lives outside
//! the library; callers hand in the bytes a read returned.

use crate::msg::{
    frame_ok, header_ok, length_field, spec_decode, Msg, MsgError, MsgHeader, MsgView,
    MSG_HEADER_LENGTH,
};
use vstd::prelude::*;

verus! {

/// The readiness interest a connection is registered for. Registration is
/// single-shot: delivering a notification consumes it, and the connection
/// must be re-armed before it can be notified again.
#[derive(Debug, Eq, PartialEq, Copy, Clone, Structural)]
pub enum Interest {
    Readable,
    Writable,
}

/// What the connection is currently accumulating: the fixed-size header, or
/// the remainder of a frame whose header declared `total` bytes overall.
#[derive(Debug, Eq, PartialEq, Copy, Clone, Structural)]
pub enum ReadState {
    Header,
    Body(usize),
}

/// One live connection: its reactor token, the bytes of the current partial
/// frame, the read state, at most one pending outbound payload, and the
/// single-shot interest it is registered for (`None` after a notification
/// has been consumed).
pub struct Conn {
    pub token: usize,
    pub buffer: Vec<u8>,
    pub read_state: ReadState,
    pub message: Option<Vec<u8>>,
    pub interest: Option<Interest>,
}

/// How many more bytes the state machine needs before its next decision,
/// given the bytes absorbed so far: up to the header size first, then up to
/// the total length the (already validated) header declares.
pub open spec fn needed_of(absorbed: Seq<u8>) -> int {
    if absorbed.len() < MSG_HEADER_LENGTH {
        MSG_HEADER_LENGTH - absorbed.len()
    } else {
        length_field(absorbed) - absorbed.len()
    }
}

/// Absorbing `chunk` after `a` leaves the machine still hungry: the bytes so
/// far are shorter than a header, or form a valid partial frame.
pub open spec fn step_absorbs(a: Seq<u8>, chunk: Seq<u8>) -> bool {
    let b = a + chunk;
    b.len() < MSG_HEADER_LENGTH || (header_ok(b) && b.len() < length_field(b))
}

/// Absorbing `chunk` after `a` completes exactly one well-formed frame.
pub open spec fn step_completes(a: Seq<u8>, chunk: Seq<u8>) -> bool {
    frame_ok(a + chunk)
}

/// Absorbing `chunk` after `a` exposes a malformed header: a framing
/// violation that tears the connection down.
pub open spec fn step_fails(a: Seq<u8>, chunk: Seq<u8>) -> bool {
    let b = a + chunk;
    b.len() >= MSG_HEADER_LENGTH && !header_ok(b)
}

/// Concatenation of a sequence of byte chunks, in delivery order.
pub open spec fn concat_chunks(chunks: Seq<Seq<u8>>) -> Seq<u8>
    decreases chunks.len(),
{
    if chunks.len() == 0 {
        Seq::empty()
    } else {
        chunks[0] + concat_chunks(chunks.drop_first())
    }
}

/// Each chunk, fed in order from absorbed state `a`, stays within the byte
/// count the state machine asks for next — the discipline a caller of
/// `Conn::advance` follows by reading at most `needed()` bytes at a time.
pub open spec fn chunking_conforms(a: Seq<u8>, chunks: Seq<Seq<u8>>) -> bool
    decreases chunks.len(),
{
    chunks.len() == 0 || (chunks[0].len() <= needed_of(a) && chunking_conforms(
        a + chunks[0],
        chunks.drop_first(),
    ))
}

/// Outcome of feeding a whole chunk sequence through the read step: whether
/// every step succeeded, the bytes left absorbed, and the messages produced,
/// in order. Mirrors the contract of `Conn::advance` case for case.
pub ghost struct FeedOutcome {
    pub ok: bool,
    pub absorbed: Seq<u8>,
    pub produced: Seq<MsgView>,
}

/// Feed the chunks one `advance` step at a time, starting from absorbed
/// state `a`, collecting every completed message.
pub open spec fn feed_all(a: Seq<u8>, chunks: Seq<Seq<u8>>) -> FeedOutcome
    decreases chunks.len(),
{
    if chunks.len() == 0 {
        FeedOutcome { ok: true, absorbed: a, produced: Seq::empty() }
    } else {
        let c = chunks[0];
        if step_fails(a, c) {
            FeedOutcome { ok: false, absorbed: Seq::empty(), produced: Seq::empty() }
        } else if step_completes(a, c) {
            let rest = feed_all(Seq::empty(), chunks.drop_first());
            FeedOutcome {
                ok: rest.ok,
                absorbed: rest.absorbed,
                produced: seq![spec_decode(a + c)] + rest.produced,
            }
        } else {
            feed_all(a + c, chunks.drop_first())
        }
    }
}

/// One step on a strict prefix of a well-formed frame: a chunk within the
/// outstanding byte count either leaves a longer strict prefix (absorbing)
/// or finishes the frame exactly (completing) — it can never fail.
proof fn lemma_step_on_frame_prefix(v: MsgView, j: int, c: Seq<u8>)
    requires
        v.wf(),
        0 <= j,
        j + c.len() <= v.to_bytes().len(),
        c.len() <= needed_of(v.to_bytes().take(j)),
        v.to_bytes().take(j) + c == v.to_bytes().take(j + c.len()),
    ensures
        j + c.len() < v.to_bytes().len() ==> step_absorbs(v.to_bytes().take(j), c),
        j + c.len() == v.to_bytes().len() ==> step_completes(v.to_bytes().take(j), c),
{
    crate::msg::lemma_view_round_trip(v);
    let f = v.to_bytes();
    let b = f.take(j + c.len());
    if b.len() >= MSG_HEADER_LENGTH {
        assert(b.subrange(0, 4) =~= f.subrange(0, 4));
        assert(b.subrange(4, 8) =~= f.subrange(4, 8));
        assert(header_ok(b) && length_field(b) == length_field(f));
    }
    if j + c.len() == f.len() {
        assert(b =~= f);
    }
}

/// No chunks left to deliver means nothing more happens: from an empty
/// absorbed state, chunks that carry no bytes at all are absorbed silently.
proof fn lemma_feed_all_nothing(chunks: Seq<Seq<u8>>)
    requires
        concat_chunks(chunks).len() == 0,
    ensures
        feed_all(Seq::empty(), chunks).ok,
        feed_all(Seq::empty(), chunks).absorbed == Seq::<u8>::empty(),
        feed_all(Seq::empty(), chunks).produced == Seq::<MsgView>::empty(),
    decreases chunks.len(),
{
    if chunks.len() > 0 {
        assert(chunks[0].len() == 0);
        assert(Seq::<u8>::empty() + chunks[0] =~= Seq::<u8>::empty());
        lemma_feed_all_nothing(chunks.drop_first());
    }
}

/// The induction behind partial-read convergence, generalised to start from
/// any strict prefix of the frame already absorbed.
proof fn lemma_convergence_from_prefix(v: MsgView, j: int, chunks: Seq<Seq<u8>>)
    requires
        v.wf(),
        0 <= j < v.to_bytes().len(),
        v.to_bytes().take(j) + concat_chunks(chunks) == v.to_bytes(),
        chunking_conforms(v.to_bytes().take(j), chunks),
    ensures
        feed_all(v.to_bytes().take(j), chunks).ok,
        feed_all(v.to_bytes().take(j), chunks).absorbed == Seq::<u8>::empty(),
        feed_all(v.to_bytes().take(j), chunks).produced == seq![v],
    decreases chunks.len(),
{
    crate::msg::lemma_view_round_trip(v);
    let f = v.to_bytes();
    let a = f.take(j);
    assert(concat_chunks(chunks).len() == f.len() - j) by {
        assert(a + concat_chunks(chunks) == f);
    }
    assert(chunks.len() > 0);
    let c = chunks[0];
    let rest = chunks.drop_first();
    assert(concat_chunks(chunks) == c + concat_chunks(rest));
    assert(a + c =~= f.take(j + c.len())) by {
        assert(a + concat_chunks(chunks) == f);
        assert(forall|i: int|
            0 <= i < concat_chunks(chunks).len() ==> concat_chunks(chunks)[i] == f[j + i]);
    }
    lemma_step_on_frame_prefix(v, j, c);
    assert((a + c) + concat_chunks(rest) =~= a + (c + concat_chunks(rest)));
    if j + c.len() == f.len() {
        assert(step_completes(a, c));
        assert(a + c =~= f);
        assert(concat_chunks(rest).len() == 0);
        lemma_feed_all_nothing(rest);
        assert(seq![spec_decode(a + c)] + feed_all(Seq::empty(), rest).produced =~= seq![v]);
    } else {
        assert(step_absorbs(a, c));
        assert(a + c == f.take(j + c.len()));
        lemma_convergence_from_prefix(v, j + c.len(), rest);
    }
}

/// Partial-read convergence: however the encoding of a well-formed message
/// is split into chunks — arbitrarily small, in any number — as long as each
/// chunk stays within the byte count the machine asks for next, no step
/// fails, no byte is lost or duplicated, and exactly one message is
/// produced: the original. In particular no chunking yields more than one
/// message from one frame's bytes.
pub proof fn lemma_partial_read_convergence(v: MsgView, chunks: Seq<Seq<u8>>)
    requires
        v.wf(),
        concat_chunks(chunks) == v.to_bytes(),
        chunking_conforms(Seq::empty(), chunks),
    ensures
        feed_all(Seq::empty(), chunks).ok,
        feed_all(Seq::empty(), chunks).absorbed == Seq::<u8>::empty(),
        feed_all(Seq::empty(), chunks).produced == seq![v],
{
    crate::msg::lemma_view_round_trip(v);
    let f = v.to_bytes();
    assert(f.take(0) =~= Seq::<u8>::empty());
    lemma_convergence_from_prefix(v, 0, chunks);
}

impl Conn {
    /// The bytes absorbed toward the current frame.
    pub open spec fn absorbed(self) -> Seq<u8> {
        self.buffer@
    }

    /// Connection well-formedness: the buffer matches the read state — still
    /// short of a header, or a validated partial frame shorter than its
    /// declared total — and any pending payload fits in a frame.
    pub open spec fn wf(self) -> bool {
        &&& match self.read_state {
            ReadState::Header => self.buffer@.len() < MSG_HEADER_LENGTH,
            ReadState::Body(total) => {
                &&& header_ok(self.buffer@)
                &&& total == length_field(self.buffer@)
                &&& self.buffer@.len() < total
            },
        }
        &&& match self.message {
            Some(p) => p@.len() + MSG_HEADER_LENGTH <= u32::MAX,
            None => true,
        }
    }

    /// A fresh connection: empty buffer, awaiting a header, nothing pending,
    /// not yet registered for any interest.
    pub fn new(token: usize) -> (c: Conn)
        ensures
            c.wf(),
            c.token == token,
            c.absorbed() == Seq::<u8>::empty(),
            c.message is None,
            c.interest is None,
    {
        Conn {
            token,
            buffer: Vec::new(),
            read_state: ReadState::Header,
            message: None,
            interest: None,
        }
    }

    pub fn token(&self) -> (t: usize)
        ensures
            t == self.token,
    {
        self.token
    }

    /// Store the payload to echo back once the socket is writable.
    pub fn save_message(&mut self, message: Vec<u8>)
        requires
            message@.len() + MSG_HEADER_LENGTH <= u32::MAX,
        ensures
            *final(self) == (Conn { message: Some(message), ..*old(self) }),
    {
        self.message = Some(message)
    }

    /// Take the pending outbound payload, if any, leaving none pending.
    pub fn take_message(&mut self) -> (r: Option<Vec<u8>>)
        ensures
            r == old(self).message,
            *final(self) == (Conn { message: None, ..*old(self) }),
    {
        self.message.take()
    }

    /// How many more bytes to request from the socket; always positive.
    pub fn needed(&self) -> (n: usize)
        requires
            self.wf(),
        ensures
            n == needed_of(self.absorbed()),
            n > 0,
    {
        match self.read_state {
            ReadState::Header => MSG_HEADER_LENGTH - self.buffer.len(),
            ReadState::Body(total) => total - self.buffer.len(),
        }
    }

    /// Absorb one chunk of freshly read bytes (at most `needed()` of them)
    /// and advance the state machine: either the machine is still hungry and
    /// has lost no byte, or the chunk completed exactly one well-formed frame
    /// whose message is returned and the machine is reset, or the header was
    /// malformed and the connection must be torn down.
    pub fn advance(&mut self, chunk: &[u8]) -> (r: Result<Option<Msg>, MsgError>)
        requires
            old(self).wf(),
            chunk@.len() <= needed_of(old(self).absorbed()),
        ensures
            final(self).wf(),
            final(self).token == old(self).token,
            final(self).message == old(self).message,
            final(self).interest == old(self).interest,
            match r {
                Ok(opt) => match opt {
                    None => {
                        &&& step_absorbs(old(self).absorbed(), chunk@)
                        &&& final(self).absorbed() == old(self).absorbed() + chunk@
                    },
                    Some(msg) => {
                        &&& step_completes(old(self).absorbed(), chunk@)
                        &&& msg.wf()
                        &&& msg@ == spec_decode(old(self).absorbed() + chunk@)
                        &&& msg.spec_to_bytes() == old(self).absorbed() + chunk@
                        &&& final(self).absorbed() == Seq::<u8>::empty()
                    },
                },
                Err(_) => {
                    &&& step_fails(old(self).absorbed(), chunk@)
                    &&& final(self).absorbed() == Seq::<u8>::empty()
                },
            },
    {
        let ghost prev = self.buffer@;
        let mut i: usize = 0;
        while i < chunk.len()
            invariant
                i <= chunk@.len(),
                self.buffer@ == prev + chunk@.subrange(0, i as int),
                self.token == old(self).token,
                self.read_state == old(self).read_state,
                self.message == old(self).message,
                self.interest == old(self).interest,
            decreases chunk@.len() - i,
        {
            self.buffer.push(chunk[i]);
            proof {
                assert(self.buffer@ =~= prev + chunk@.subrange(0, i + 1 as int));
            }
            i = i + 1;
        }
        proof {
            assert(chunk@.subrange(0, chunk@.len() as int) =~= chunk@);
            assert(self.buffer@ == old(self).absorbed() + chunk@);
        }
        let ghost b = self.buffer@;
        let st = self.read_state;
        match st {
            ReadState::Header => {
                if self.buffer.len() < MSG_HEADER_LENGTH {
                    return Ok(None);
                }
                let header = match MsgHeader::read_bytes(self.buffer.as_slice()) {
                    Err(e) => {
                        self.buffer.clear();
                        return Err(e);
                    },
                    Ok(h) => h,
                };
                let total = header.length as usize;
                if total == MSG_HEADER_LENGTH {
                    proof {
                        assert(frame_ok(b));
                    }
                    let msg = match Msg::read_bytes(self.buffer.as_slice()) {
                        Err(e) => {
                            return Err(e);
                        },
                        Ok(m) => m,
                    };
                    proof {
                        crate::msg::lemma_frame_round_trip(b);
                    }
                    self.buffer.clear();
                    Ok(Some(msg))
                } else {
                    self.read_state = ReadState::Body(total);
                    Ok(None)
                }
            },
            ReadState::Body(total) => {
                proof {
                    assert(b.subrange(0, 4) =~= prev.subrange(0, 4));
                    assert(b.subrange(4, 8) =~= prev.subrange(4, 8));
                    assert(header_ok(b) && length_field(b) == total);
                }
                if self.buffer.len() < total {
                    return Ok(None);
                }
                proof {
                    assert(frame_ok(b));
                }
                let msg = match Msg::read_bytes(self.buffer.as_slice()) {
                    Err(e) => {
                        return Err(e);
                    },
                    Ok(m) => m,
                };
                proof {
                    crate::msg::lemma_frame_round_trip(b);
                }
                self.buffer.clear();
                self.read_state = ReadState::Header;
                Ok(Some(msg))
            },
        }
    }
}

} // verus!
