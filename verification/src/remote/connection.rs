//! One client's connection: which protocol it speaks, which lines have come in, and when it is owed
//! the state.
use vstd::prelude::*;
use vstd::string::*;

use crate::http::{begins_request, looks_like_http_request};
use crate::remote::server::{first_line, next_line, ActiveClientGuard, SharedState};
use crate::text::opt_view;

verus! {

/// What reading from a connection gave.
#[derive(Debug, Clone)]
pub enum Arrival {
    Bytes(Vec<u8>),
    /// Nothing came for as long as was waited.
    Quiet,
    /// The client closed the connection.
    Closed,
    /// Reading failed.
    Failed,
}

/// What a connection turns out to be.
#[derive(Debug, Clone, Copy, PartialEq, Eq, Structural)]
pub enum Turn {
    /// A request over HTTP begins with what has come in.
    Http,
    /// Messages, one on each line.
    Control,
    /// The connection is over.
    End,
}

/// A connection.
pub struct Connection {
    /// Bytes that came in and do not make up a line yet.
    pending: Vec<u8>,
    authed: bool,
    /// The number of the state that was sent last; `u64::MAX` before any was.
    last_sent: u64,
    guard: ActiveClientGuard,
}

/// The first line that is not empty, and what follows it; `None` while there is none, with what is
/// left then.
pub open spec fn first_full_line(b: Seq<u8>) -> (Option<Seq<char>>, Seq<u8>)
    decreases b.len(),
{
    match first_line(b) {
        None => (None, b),
        Some((line, rest)) => if line.len() > 0 || rest.len() >= b.len() {
            (Some(line), rest)
        } else {
            first_full_line(rest)
        },
    }
}

proof fn a_line_takes_bytes(b: Seq<u8>)
    ensures
        match first_line(b) {
            Some((_, rest)) => rest.len() < b.len(),
            None => true,
        },
{
    crate::remote::server::newline_is_ahead(b, 0);
}

impl Connection {
    /// The bytes that do not make up a line yet.
    pub closed spec fn waiting(&self) -> Seq<u8> {
        self.pending@
    }

    /// Whether the client is authenticated.
    pub closed spec fn known(&self) -> bool {
        self.authed
    }

    /// The number of the state that was sent last.
    pub closed spec fn sent(&self) -> u64 {
        self.last_sent
    }

    /// Whether the client is counted among those that are authenticated.
    pub closed spec fn counted(&self) -> bool {
        self.guard.counted()
    }

    /// A client is counted exactly when it is authenticated.
    pub open spec fn wf(&self) -> bool {
        self.counted() == self.known()
    }

    /// A connection that was just opened.
    pub fn new() -> (r: Self)
        ensures
            r.wf(),
            !r.known(),
            r.waiting() == Seq::<u8>::empty(),
            r.sent() == u64::MAX,
    {
        let r = Connection {
            pending: Vec::new(),
            authed: false,
            last_sent: u64::MAX,
            guard: ActiveClientGuard::new(),
        };
        assert(r.waiting() =~= Seq::<u8>::empty());
        r
    }

    fn take(&mut self, arrival: &Arrival) -> (on: bool)
        ensures
            on == (*arrival is Bytes || *arrival is Quiet),
            final(self).waiting() == old(self).waiting() + (match *arrival {
                Arrival::Bytes(b) => b@,
                _ => Seq::empty(),
            }),
            final(self).known() == old(self).known(),
            final(self).sent() == old(self).sent(),
            final(self).counted() == old(self).counted(),
    {
        let ghost was = self.pending@;
        match arrival {
            Arrival::Bytes(b) => {
                let mut i: usize = 0;
                assert(was + b@.take(0) =~= was);
                while i < b.len()
                    invariant
                        i <= b@.len(),
                        self.pending@ == was + b@.take(i as int),
                        self.authed == old(self).authed,
                        self.last_sent == old(self).last_sent,
                        self.guard.counted() == old(self).guard.counted(),
                    decreases b@.len() - i,
                {
                    self.pending.push(b[i]);
                    i += 1;
                    assert(self.pending@ =~= was + b@.take(i as int));
                }
                assert(b@.take(i as int) =~= b@);
                true
            },
            Arrival::Quiet => {
                assert(was + Seq::<u8>::empty() =~= was);
                true
            },
            _ => {
                assert(was + Seq::<u8>::empty() =~= was);
                false
            },
        }
    }

    /// Takes in what came first, and tells from it which protocol the client speaks.
    pub fn opening(&mut self, arrival: &Arrival) -> (r: Turn)
        requires
            old(self).wf(),
            old(self).waiting() == Seq::<u8>::empty(),
        ensures
            final(self).wf(),
            final(self).known() == old(self).known(),
            final(self).sent() == old(self).sent(),
            match *arrival {
                Arrival::Bytes(b) => final(self).waiting() == b@ && r == (if begins_request(b@) {
                    Turn::Http
                } else {
                    Turn::Control
                }),
                Arrival::Quiet => final(self).waiting() == Seq::<u8>::empty() && r == (
                if begins_request(Seq::<u8>::empty()) {
                    Turn::Http
                } else {
                    Turn::Control
                }),
                _ => r == Turn::End,
            },
    {
        if !self.take(arrival) {
            return Turn::End;
        }
        proof {
            match arrival {
                Arrival::Bytes(b) => {
                    assert(Seq::<u8>::empty() + b@ =~= b@);
                },
                _ => {},
            }
        }
        if looks_like_http_request(self.pending.as_slice()) {
            Turn::Http
        } else {
            Turn::Control
        }
    }

    /// What came in and was not read yet, for the protocol that it belongs to.
    pub fn into_pending(self) -> (r: Vec<u8>)
        ensures
            r@ == self.waiting(),
    {
        self.pending
    }

    /// Takes in what came next; `false` when the connection is over.
    pub fn arrived(&mut self, arrival: &Arrival) -> (on: bool)
        requires
            old(self).wf(),
        ensures
            final(self).wf(),
            on == (*arrival is Bytes || *arrival is Quiet),
            final(self).waiting() == old(self).waiting() + (match *arrival {
                Arrival::Bytes(b) => b@,
                _ => Seq::empty(),
            }),
            final(self).known() == old(self).known(),
            final(self).sent() == old(self).sent(),
    {
        self.take(arrival)
    }

    /// Takes the next line that is not empty; `None` when no whole one is left.
    pub fn line(&mut self) -> (r: Option<String>)
        requires
            old(self).wf(),
        ensures
            final(self).wf(),
            opt_view(r) == first_full_line(old(self).waiting()).0,
            final(self).waiting() == first_full_line(old(self).waiting()).1,
            final(self).known() == old(self).known(),
            final(self).sent() == old(self).sent(),
    {
        let ghost first = self.pending@;
        loop
            invariant
                first_full_line(self.pending@) == first_full_line(first),
                self.authed == old(self).authed,
                self.last_sent == old(self).last_sent,
                self.guard.counted() == old(self).guard.counted(),
                old(self).wf(),
                first == old(self).waiting(),
            decreases self.pending@.len(),
        {
            proof {
                a_line_takes_bytes(self.pending@);
            }
            match next_line(&mut self.pending) {
                None => {
                    return None;
                },
                Some(line) => {
                    if line.as_str().unicode_len() > 0 {
                        return Some(line);
                    }
                },
            }
        }
    }

    /// Whether the client is authenticated.
    pub fn is_authed(&self) -> (r: bool)
        ensures
            r == self.known(),
    {
        self.authed
    }

    /// Notes whether the client is authenticated after a line of its was acted on. A client that has
    /// become so is counted, once.
    pub fn acted(&mut self, authed: bool, counter: &mut u32)
        requires
            old(self).wf(),
        ensures
            final(self).wf(),
            final(self).known() == (old(self).known() || authed),
            final(self).waiting() == old(self).waiting(),
            final(self).sent() == old(self).sent(),
            *final(counter) == (if authed && !old(self).known() {
                if *old(counter) == u32::MAX {
                    0
                } else {
                    (*old(counter) + 1) as u32
                }
            } else {
                *old(counter)
            }),
    {
        if authed && !self.authed {
            self.authed = true;
            self.guard.mark_active(counter);
        }
    }

    /// The number of the state that the client is owed; `None` when it has the latest, or is not
    /// authenticated.
    pub fn owed(&self, shared: &SharedState) -> (r: Option<u64>)
        ensures
            r == (if self.known() && shared.version != self.sent() {
                Some(shared.version)
            } else {
                None
            }),
    {
        if shared.owes_push(self.authed, self.last_sent) {
            Some(shared.version)
        } else {
            None
        }
    }

    /// Notes that the client was sent the state of a number.
    pub fn pushed(&mut self, version: u64)
        requires
            old(self).wf(),
        ensures
            final(self).wf(),
            final(self).sent() == version,
            final(self).known() == old(self).known(),
            final(self).waiting() == old(self).waiting(),
    {
        self.last_sent = version;
    }

    /// Ends the connection. However it ends, a client that was counted no longer is.
    pub fn over(self, counter: &mut u32)
        requires
            self.wf(),
        ensures
            *final(counter) == (if !self.known() {
                *old(counter)
            } else if *old(counter) == 0 {
                u32::MAX
            } else {
                (*old(counter) - 1) as u32
            }),
    {
        self.guard.release(counter);
    }
}

/// Bytes that arrive in pieces make up the same lines as bytes that arrive at once: what completes a
/// line never changes the lines before it.
pub proof fn lines_do_not_depend_on_pieces(a: Seq<u8>, b: Seq<u8>)
    requires
        first_full_line(a).0 is Some,
    ensures
        first_full_line(a + b).0 == first_full_line(a).0,
        first_full_line(a + b).1 == first_full_line(a).1 + b,
    decreases a.len(),
{
    a_line_takes_bytes(a);
    a_line_takes_bytes(a + b);
    crate::remote::server::newline_is_ahead(a, 0);
    match first_line(a) {
        Some((line, rest)) => {
            let i = crate::remote::server::newline_from(a, 0);
            crate::remote::server::newline_stays(a, b, 0);
            assert((a + b).take(i + 1) =~= a.take(i + 1));
            assert((a + b).skip(i + 1) =~= a.skip(i + 1) + b);
            if line.len() == 0 {
                lines_do_not_depend_on_pieces(rest, b);
            }
        },
        None => {},
    }
}

} // verus!
