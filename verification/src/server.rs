//! The reactor's bookkeeping: the connection table and event dispatch.
//!
//! The reactor owns every live connection, keyed by a token it allocates
//! monotonically and never reuses. Interests are single-shot: delivering a
//! notification consumes a connection's registration, and each handling step
//! explicitly re-arms it (or removes the connection). The blocking poll loop
//! and all socket calls live outside the library; the event loop reports what
//! each read returned and is told what to do next.

use crate::conn::{needed_of, step_completes, step_fails, Conn, Interest};
use crate::msg::{data_frame, spec_decode, Msg};
use std::collections::HashMap;
use vstd::prelude::*;

verus! {

broadcast use vstd::std_specs::hash::group_hash_axioms;

/// The token reserved for the listening socket; connection tokens start
/// above it.
pub const LISTENER_TOKEN: usize = 0;

/// What one non-blocking socket read returned, as the event loop reports it:
/// some bytes, nothing yet (would-block), an orderly close (zero-byte read),
/// or a transport fault.
pub enum SocketRead {
    Data(Vec<u8>),
    WouldBlock,
    Closed,
    Fault,
}

/// What the event loop must do with a connection after a handling step:
/// re-register it for the given single-shot interest, or remove it for good.
#[derive(Debug, Eq, PartialEq, Copy, Clone, Structural)]
pub enum Directive {
    Rearm(Interest),
    Remove,
}

/// The reactor state: the table of live connections and the next fresh
/// token. Only the reactor holds a connection; everything else addresses one
/// through its token.
pub struct Server {
    pub conns: HashMap<usize, Conn>,
    pub next_token: usize,
}

impl Server {
    /// Reactor well-formedness: every connection is well formed, sits under
    /// its own token, and every token was allocated by the monotonic counter
    /// (above the listener's reserved token, below the next fresh one).
    pub open spec fn wf(self) -> bool {
        &&& self.next_token > LISTENER_TOKEN
        &&& forall|t: usize| #[trigger]
            self.conns@.contains_key(t) ==> self.conns@[t].wf() && self.conns@[t].token == t
                && LISTENER_TOKEN < t < self.next_token
    }

    /// A connection can be notified only while it is armed with an interest.
    pub open spec fn can_notify(self, token: usize) -> bool {
        self.conns@.contains_key(token) && self.conns@[token].interest is Some
    }

    /// The notification relation: `post` is `pre` after a notification for
    /// `token`'s interest `i` was delivered, consuming the arming.
    pub open spec fn notified(pre: Server, post: Server, token: usize, i: Interest) -> bool {
        &&& pre.conns@.contains_key(token)
        &&& pre.conns@[token].interest == Some(i)
        &&& post.conns@.contains_key(token)
        &&& post.conns@[token] == (Conn { interest: None, ..pre.conns@[token] })
    }

    pub fn new() -> (s: Server)
        ensures
            s.wf(),
            s.conns@ == Map::<usize, Conn>::empty(),
            s.next_token == LISTENER_TOKEN + 1,
    {
        Server { conns: HashMap::new(), next_token: LISTENER_TOKEN + 1 }
    }

    /// Accept one new connection: allocate a fresh token — the counter only
    /// grows, so tokens are never reused — and register the connection for
    /// readable interest.
    pub fn accept(&mut self) -> (t: usize)
        requires
            old(self).wf(),
            old(self).next_token < usize::MAX,
        ensures
            final(self).wf(),
            t == old(self).next_token,
            !old(self).conns@.contains_key(t),
            final(self).next_token == old(self).next_token + 1,
            final(self).conns@.dom() == old(self).conns@.dom().insert(t),
            final(self).conns@[t].wf(),
            final(self).conns@[t].token == t,
            final(self).conns@[t].absorbed() == Seq::<u8>::empty(),
            final(self).conns@[t].message is None,
            final(self).conns@[t].interest == Some(Interest::Readable),
            forall|u: usize|
                u != t && #[trigger] old(self).conns@.contains_key(u) ==> final(self).conns@.contains_key(u) && final(self).conns@[u] == old(self).conns@[u],
    {
        let t = self.next_token;
        self.next_token = self.next_token + 1;
        let mut c = Conn::new(t);
        c.interest = Some(Interest::Readable);
        self.conns.insert(t, c);
        proof {
            assert(self.conns@.dom() =~= old(self).conns@.dom().insert(t));
        }
        t
    }

    /// Deliver a readiness notification for `token`. Single-shot: when the
    /// connection is armed, its interest is returned and the arming is
    /// consumed, so no further notification can be delivered until a
    /// handling step re-arms it. A token that is unknown or not armed gets
    /// nothing and changes nothing.
    pub fn notify(&mut self, token: usize) -> (r: Option<Interest>)
        requires
            old(self).wf(),
        ensures
            final(self).wf(),
            final(self).next_token == old(self).next_token,
            match r {
                Some(i) => Server::notified(*old(self), *final(self), token, i),
                None => {
                    &&& !old(self).can_notify(token)
                    &&& final(self).conns@ == old(self).conns@
                },
            },
            final(self).conns@.dom() == old(self).conns@.dom(),
            forall|u: usize|
                u != token && #[trigger] old(self).conns@.contains_key(u) ==> final(self).conns@.contains_key(u) && final(self).conns@[u] == old(self).conns@[u],
    {
        match self.conns.remove(&token) {
            None => {
                proof {
                    assert(self.conns@ =~= old(self).conns@);
                }
                None
            },
            Some(mut c) => {
                match c.interest {
                    None => {
                        self.conns.insert(token, c);
                        proof {
                            assert(self.conns@ =~= old(self).conns@);
                        }
                        None
                    },
                    Some(i) => {
                        c.interest = None;
                        self.conns.insert(token, c);
                        proof {
                            assert(self.conns@.dom() =~= old(self).conns@.dom());
                        }
                        Some(i)
                    },
                }
            },
        }
    }

    /// Single-shot interest law: delivering a notification consumes the
    /// arming, so after a connection has been notified it cannot be notified
    /// again until a handling step explicitly re-arms it.
    pub proof fn lemma_single_shot_interest(pre: Server, post: Server, token: usize, i: Interest)
        requires
            Server::notified(pre, post, token, i),
        ensures
            !post.can_notify(token),
    {
    }

    /// Handle a consumed readable notification: feed the connection what the
    /// socket read returned. Still-hungry connections are re-armed readable;
    /// a complete data message queues its payload for echo and re-arms
    /// writable; a disconnect message, a peer close, a framing violation or
    /// a transport fault removes the connection — faults stay isolated to
    /// the one connection.
    pub fn handle_readable(&mut self, token: usize, event: SocketRead) -> (d: Directive)
        requires
            old(self).wf(),
            old(self).conns@.contains_key(token),
            old(self).conns@[token].interest is None,
            event matches SocketRead::Data(chunk) ==> chunk@.len() <= needed_of(
                old(self).conns@[token].absorbed(),
            ),
        ensures
            final(self).wf(),
            final(self).next_token == old(self).next_token,
            forall|u: usize|
                u != token && #[trigger] old(self).conns@.contains_key(u) ==> final(self).conns@.contains_key(u) && final(self).conns@[u] == old(self).conns@[u],
            d == Directive::Remove ==> final(self).conns@.dom() == old(self).conns@.dom().remove(
                token,
            ),
            d != Directive::Remove ==> final(self).conns@.dom() == old(self).conns@.dom()
                && final(self).conns@[token].token == token,
            match event {
                SocketRead::Data(chunk) => {
                    let a = old(self).conns@[token].absorbed();
                    let b = a + chunk@;
                    if step_fails(a, chunk@) {
                        d == Directive::Remove
                    } else if step_completes(a, chunk@) {
                        if spec_decode(b) is Disconnect {
                            d == Directive::Remove
                        } else {
                            &&& d == Directive::Rearm(Interest::Writable)
                            &&& final(self).conns@[token].interest == Some(Interest::Writable)
                            &&& final(self).conns@[token].absorbed() == Seq::<u8>::empty()
                            &&& (final(self).conns@[token].message matches Some(p) && p@
                                == spec_decode(b).payload())
                        }
                    } else {
                        &&& d == Directive::Rearm(Interest::Readable)
                        &&& final(self).conns@[token].interest == Some(Interest::Readable)
                        &&& final(self).conns@[token].absorbed() == b
                        &&& final(self).conns@[token].message == old(self).conns@[token].message
                    }
                },
                SocketRead::WouldBlock => {
                    &&& d == Directive::Rearm(Interest::Readable)
                    &&& final(self).conns@[token] == (Conn {
                        interest: Some(Interest::Readable),
                        ..old(self).conns@[token]
                    })
                },
                SocketRead::Closed => d == Directive::Remove,
                SocketRead::Fault => d == Directive::Remove,
            },
    {
        let mut c = match self.conns.remove(&token) {
            Some(c) => c,
            None => {
                return Directive::Remove;
            },
        };
        match event {
            SocketRead::Data(chunk) => {
                match c.advance(chunk.as_slice()) {
                    Err(_) => Directive::Remove,
                    Ok(None) => {
                        c.interest = Some(Interest::Readable);
                        self.conns.insert(token, c);
                        proof {
                            assert(self.conns@.dom() =~= old(self).conns@.dom());
                        }
                        Directive::Rearm(Interest::Readable)
                    },
                    Ok(Some(msg)) => {
                        match msg {
                            Msg::Disconnect { header: _ } => Directive::Remove,
                            Msg::Message { header: _, message } => {
                                c.save_message(message);
                                c.interest = Some(Interest::Writable);
                                self.conns.insert(token, c);
                                proof {
                                    assert(self.conns@.dom() =~= old(self).conns@.dom());
                                }
                                Directive::Rearm(Interest::Writable)
                            },
                        }
                    },
                }
            },
            SocketRead::WouldBlock => {
                c.interest = Some(Interest::Readable);
                self.conns.insert(token, c);
                proof {
                    assert(self.conns@.dom() =~= old(self).conns@.dom());
                }
                Directive::Rearm(Interest::Readable)
            },
            SocketRead::Closed => Directive::Remove,
            SocketRead::Fault => Directive::Remove,
        }
    }

    /// Handle a consumed writable notification: hand back the frame to write
    /// — the pending payload wrapped in a data message, which reproduces the
    /// received frame byte for byte — and re-arm the connection readable for
    /// the next round. With nothing pending there is nothing to write.
    pub fn handle_writable(&mut self, token: usize) -> (out: Option<Vec<u8>>)
        requires
            old(self).wf(),
            old(self).conns@.contains_key(token),
            old(self).conns@[token].interest is None,
        ensures
            final(self).wf(),
            final(self).next_token == old(self).next_token,
            final(self).conns@.dom() == old(self).conns@.dom(),
            forall|u: usize|
                u != token && #[trigger] old(self).conns@.contains_key(u) ==> final(self).conns@.contains_key(u) && final(self).conns@[u] == old(self).conns@[u],
            final(self).conns@[token].token == token,
            final(self).conns@[token].interest == Some(Interest::Readable),
            final(self).conns@[token].message is None,
            final(self).conns@[token].absorbed() == old(self).conns@[token].absorbed(),
            match out {
                Some(bytes) => (old(self).conns@[token].message matches Some(p) && bytes@
                    == data_frame(p@)),
                None => old(self).conns@[token].message is None,
            },
    {
        let mut c = match self.conns.remove(&token) {
            Some(c) => c,
            None => {
                return None;
            },
        };
        let out = match c.take_message() {
            None => None,
            Some(payload) => {
                let msg = Msg::new_message(payload);
                let bytes = msg.to_bytes();
                Some(bytes)
            },
        };
        c.interest = Some(Interest::Readable);
        self.conns.insert(token, c);
        proof {
            assert(self.conns@.dom() =~= old(self).conns@.dom());
        }
        out
    }

    /// How many bytes the connection's state machine wants next, so the
    /// event loop can size its read; `None` for a token no longer live.
    pub fn needed(&self, token: usize) -> (r: Option<usize>)
        requires
            self.wf(),
        ensures
            match r {
                Some(n) => self.conns@.contains_key(token) && n == needed_of(
                    self.conns@[token].absorbed(),
                ) && n > 0,
                None => !self.conns@.contains_key(token),
            },
    {
        match self.conns.get(&token) {
            Some(c) => Some(c.needed()),
            None => None,
        }
    }

    /// Remove a connection outright — the reactor's only cancellation
    /// primitive, used when the transport fails outside a read step (for
    /// instance on a write fault). Irrevocable: the token is never reused.
    pub fn remove(&mut self, token: usize)
        requires
            old(self).wf(),
        ensures
            final(self).wf(),
            final(self).next_token == old(self).next_token,
            final(self).conns@ == old(self).conns@.remove(token),
    {
        self.conns.remove(&token);
        proof {
            assert(self.conns@ =~= old(self).conns@.remove(token));
        }
    }

    /// Whether a connection is (still) in the table.
    pub fn contains(&self, token: usize) -> (r: bool)
        ensures
            r == self.conns@.contains_key(token),
    {
        self.conns.contains_key(&token)
    }

    /// How many connections are live.
    pub fn len(&self) -> (n: usize)
        ensures
            n == self.conns@.len(),
    {
        self.conns.len()
    }
}

} // verus!
