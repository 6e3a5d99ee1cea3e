//! Transport session: one request/reply exchange as an explicit state
//! machine.
//!
//! The caller owns the socket and the clock; the session owns the policy.
//! The caller feeds each transport event — a datagram, the end of a read
//! window, or a socket failure — and performs the action the session
//! answers with.  Creating the session accounts for the first send, so a
//! session with a budget of `n` attempts asks for exactly `n` sends
//! before it fails with a timeout.
//!
//! A datagram that fails framing validation, or carries an unexpected
//! command token, is discarded and the read window goes on; if only such
//! datagrams arrived by the end of the window, the exchange fails as a
//! protocol error rather than consuming a retry, since data was received
//! but was not conformant.  Conformant payloads are collected in arrival
//! order and delivered together when the window closes.

use vstd::prelude::*;

use crate::codec::{frame_payload, frame_token, validate_and_strip, well_framed};
use crate::decode::bytes_eq;
use crate::error::Error;
use crate::response::views_of;

verus! {

pub const DEFAULT_TIMEOUT_MS: u64 = 1000;
pub const DEFAULT_ATTEMPTS: u32 = 3;

/// Per-operation timeout budgets; defaults apply when a duration is
/// unset.  Owned by the caller and read-only to the engine.
#[derive(Debug, PartialEq, Eq)]
pub struct TimeoutSettings {
    pub read_timeout_ms: Option<u64>,
    pub write_timeout_ms: Option<u64>,
    pub attempts: Option<u32>,
}

impl TimeoutSettings {
    /// The read window applied to each receive attempt, in milliseconds.
    pub fn read_ms(&self) -> (r: u64)
        ensures
            r == (match self.read_timeout_ms {
                Some(v) => v,
                None => DEFAULT_TIMEOUT_MS,
            }),
    {
        match self.read_timeout_ms {
            Some(v) => v,
            None => DEFAULT_TIMEOUT_MS,
        }
    }

    /// The write timeout, in milliseconds.
    pub fn write_ms(&self) -> (r: u64)
        ensures
            r == (match self.write_timeout_ms {
                Some(v) => v,
                None => DEFAULT_TIMEOUT_MS,
            }),
    {
        match self.write_timeout_ms {
            Some(v) => v,
            None => DEFAULT_TIMEOUT_MS,
        }
    }

    /// The total attempt budget of one exchange: never zero, and the
    /// protocol default of three when unset.
    pub fn attempt_budget(&self) -> (r: u32)
        ensures
            r >= 1,
            r == (match self.attempts {
                Some(v) => if v >= 1 {
                    v
                } else {
                    1u32
                },
                None => DEFAULT_ATTEMPTS,
            }),
    {
        match self.attempts {
            Some(v) => if v >= 1 {
                v
            } else {
                1
            },
            None => DEFAULT_ATTEMPTS,
        }
    }
}

impl Default for TimeoutSettings {
    /// Settings with every field unset: every default applies.
    fn default() -> (r: Self)
        ensures
            r.read_timeout_ms is None,
            r.write_timeout_ms is None,
            r.attempts is None,
    {
        TimeoutSettings { read_timeout_ms: None, write_timeout_ms: None, attempts: None }
    }
}

/// A transport event, fed by the caller.
pub enum Event {
    /// A datagram arrived within the read window.
    Datagram(Vec<u8>),
    /// The read window elapsed with nothing more to read.
    WindowElapsed,
    /// The socket failed locally.
    SocketFailed,
}

/// Ghost model of a transport event.
pub ghost enum EventModel {
    Datagram(Seq<u8>),
    WindowElapsed,
    SocketFailed,
}

impl View for Event {
    type V = EventModel;

    open spec fn view(&self) -> EventModel {
        match self {
            Event::Datagram(d) => EventModel::Datagram(d@),
            Event::WindowElapsed => EventModel::WindowElapsed,
            Event::SocketFailed => EventModel::SocketFailed,
        }
    }
}

/// What the caller must do next.
#[derive(Clone, Copy, Debug, PartialEq, Eq, Structural)]
pub enum Action {
    /// Send the request bytes once more and open a new read window.
    SendRequest,
    /// Keep reading within the current window.
    KeepWaiting,
    /// The reply is complete: take the collected payloads.
    Deliver,
    /// The exchange failed with the classified error.
    Fail(Error),
}

/// Ghost model of a session.
pub ghost struct SessionModel {
    pub max_attempts: int,
    pub attempts_made: int,
    pub expected_token: Seq<u8>,
    pub collected: Seq<Seq<u8>>,
    pub saw_nonconformant: bool,
    pub finished: bool,
}

/// One request/reply exchange.
pub struct Session {
    pub max_attempts: u32,
    pub attempts_made: u32,
    pub expected_token: Vec<u8>,
    pub collected: Vec<Vec<u8>>,
    pub saw_nonconformant: bool,
    pub finished: bool,
}

impl View for Session {
    type V = SessionModel;

    open spec fn view(&self) -> SessionModel {
        SessionModel {
            max_attempts: self.max_attempts as int,
            attempts_made: self.attempts_made as int,
            expected_token: self.expected_token@,
            collected: views_of(self.collected@),
            saw_nonconformant: self.saw_nonconformant,
            finished: self.finished,
        }
    }
}

/// The datagram is conformant for this session: well framed and carrying
/// the expected response command token.
pub open spec fn accepts(s: SessionModel, d: Seq<u8>) -> bool {
    well_framed(d) && frame_token(d) == s.expected_token
}

/// The transition relation of the session state machine.
pub open spec fn step(s: SessionModel, e: EventModel) -> (SessionModel, ActionModel) {
    match e {
        EventModel::Datagram(d) => if accepts(s, d) {
            (
                SessionModel { collected: s.collected.push(frame_payload(d)), ..s },
                ActionModel::KeepWaiting,
            )
        } else {
            (SessionModel { saw_nonconformant: true, ..s }, ActionModel::KeepWaiting)
        },
        EventModel::WindowElapsed => if s.collected.len() > 0 {
            (SessionModel { finished: true, ..s }, ActionModel::Deliver)
        } else if s.saw_nonconformant {
            (SessionModel { finished: true, ..s }, ActionModel::Fail(Error::Protocol))
        } else if s.attempts_made < s.max_attempts {
            (SessionModel { attempts_made: s.attempts_made + 1, ..s }, ActionModel::SendRequest)
        } else {
            (SessionModel { finished: true, ..s }, ActionModel::Fail(Error::Timeout))
        },
        EventModel::SocketFailed => (
            SessionModel { finished: true, ..s },
            ActionModel::Fail(Error::Socket),
        ),
    }
}

/// Ghost model of an action.
pub ghost enum ActionModel {
    SendRequest,
    KeepWaiting,
    Deliver,
    Fail(Error),
}

impl View for Action {
    type V = ActionModel;

    open spec fn view(&self) -> ActionModel {
        match self {
            Action::SendRequest => ActionModel::SendRequest,
            Action::KeepWaiting => ActionModel::KeepWaiting,
            Action::Deliver => ActionModel::Deliver,
            Action::Fail(e) => ActionModel::Fail(*e),
        }
    }
}

impl Session {
    /// Open an exchange.  The caller sends the request once right away:
    /// the first attempt is accounted here.
    pub fn begin(max_attempts: u32, expected_token: Vec<u8>) -> (r: Session)
        requires
            max_attempts >= 1,
        ensures
            r@ == (SessionModel {
                max_attempts: max_attempts as int,
                attempts_made: 1,
                expected_token: expected_token@,
                collected: Seq::empty(),
                saw_nonconformant: false,
                finished: false,
            }),
    {
        let r = Session {
            max_attempts,
            attempts_made: 1,
            expected_token,
            collected: Vec::new(),
            saw_nonconformant: false,
            finished: false,
        };
        proof {
            assert(views_of(r.collected@) =~~= Seq::<Seq<u8>>::empty());
        }
        r
    }

    /// Feed one transport event; the answer is the caller's next action.
    pub fn on_event(&mut self, event: Event) -> (a: Action)
        requires
            !old(self)@.finished,
        ensures
            (final(self)@, a@) == step(old(self)@, event@),
    {
        match event {
            Event::Datagram(d) => {
                let conformant = match validate_and_strip(&d) {
                    Ok((token, payload)) => {
                        if bytes_eq(&token, &self.expected_token) {
                            let ghost oldc = self.collected@;
                            self.collected.push(payload);
                            proof {
                                assert(views_of(self.collected@) =~~= views_of(oldc).push(
                                    frame_payload(d@),
                                ));
                            }
                            true
                        } else {
                            false
                        }
                    },
                    Err(_) => false,
                };
                if !conformant {
                    self.saw_nonconformant = true;
                }
                Action::KeepWaiting
            },
            Event::WindowElapsed => {
                if self.collected.len() > 0 {
                    self.finished = true;
                    Action::Deliver
                } else if self.saw_nonconformant {
                    self.finished = true;
                    Action::Fail(Error::Protocol)
                } else if self.attempts_made < self.max_attempts {
                    self.attempts_made = self.attempts_made + 1;
                    Action::SendRequest
                } else {
                    self.finished = true;
                    Action::Fail(Error::Timeout)
                }
            },
            Event::SocketFailed => {
                self.finished = true;
                Action::Fail(Error::Socket)
            },
        }
    }

    /// Take the collected payloads of a delivered reply, in arrival order.
    pub fn into_payloads(self) -> (r: Vec<Vec<u8>>)
        ensures
            views_of(r@) == self@.collected,
    {
        self.collected
    }
}

/// The actions a session answers when fed `n` consecutive window-elapsed
/// events.
pub open spec fn run_elapsed(s: SessionModel, n: nat) -> Seq<ActionModel>
    decreases n,
{
    if n == 0 {
        Seq::empty()
    } else {
        let next = step(s, EventModel::WindowElapsed);
        seq![next.1] + run_elapsed(next.0, (n - 1) as nat)
    }
}

/// Retry budget law: when no datagram ever arrives, a session answers one
/// send per remaining attempt and then fails with a timeout — so a fresh
/// session with a budget of `max_attempts` asks for exactly `max_attempts`
/// sends in all (the one accounted at `begin` plus the retries here),
/// never more, before `Fail(Timeout)`.
pub proof fn lemma_timeout_after_budget(s: SessionModel, n: nat)
    requires
        !s.finished,
        !s.saw_nonconformant,
        s.collected.len() == 0,
        1 <= s.attempts_made <= s.max_attempts,
        n == s.max_attempts - s.attempts_made + 1,
    ensures
        run_elapsed(s, n).len() == n,
        forall|i: int| 0 <= i < n - 1 ==> run_elapsed(s, n)[i] == ActionModel::SendRequest,
        run_elapsed(s, n)[n - 1] == ActionModel::Fail(Error::Timeout),
    decreases n,
{
    let next = step(s, EventModel::WindowElapsed);
    if s.attempts_made < s.max_attempts {
        lemma_timeout_after_budget(next.0, (n - 1) as nat);
        assert(run_elapsed(s, n) == seq![next.1] + run_elapsed(next.0, (n - 1) as nat));
        assert forall|i: int| 0 <= i < n - 1 implies run_elapsed(s, n)[i]
            == ActionModel::SendRequest by {
            if i == 0 {
                assert(run_elapsed(s, n)[0] == next.1);
            } else {
                assert(run_elapsed(s, n)[i] == run_elapsed(next.0, (n - 1) as nat)[i - 1]);
            }
        }
        assert(run_elapsed(s, n)[n - 1] == run_elapsed(next.0, (n - 1) as nat)[n - 2]);
    } else {
        assert(run_elapsed(s, n) == seq![next.1] + run_elapsed(next.0, 0));
        assert(run_elapsed(s, n).len() == 1);
    }
}

} // verus!
