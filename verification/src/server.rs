//! The server's coordination rules, separated from the sockets and timers
//! that drive them: the bounded accept-retry policy, the shutdown state
//! machine with its completion barrier, and the handler's race between the
//! next frame and the stop signal.

use vstd::prelude::*;
use crate::frame::Frame;

verus! {

/// How many consecutive accept failures are retried before giving up.
pub const RETRY_LIMIT: u64 = 5;

/// What the accept loop does after one failed attempt.
#[derive(Debug, Clone, Copy, PartialEq, Eq, Structural)]
pub enum AcceptDecision {
    /// Wait the backoff interval, then try again.
    Retry,
    /// The retries are exhausted: surface the last error as fatal.
    Fatal,
}

/// The consecutive-failure counter of one logical accept attempt sequence.
/// Each call to accept one connection starts a fresh counter, so the count
/// only accumulates across consecutive failures.
pub struct AcceptRetry {
    failures: u64,
}

impl AcceptRetry {
    /// Failures seen so far in this attempt sequence.
    pub closed spec fn count(&self) -> u64 {
        self.failures
    }

    /// A fresh attempt sequence has seen no failure.
    pub fn new() -> (r: AcceptRetry)
        ensures
            r.count() == 0,
    {
        AcceptRetry { failures: 0 }
    }

    /// Records one failed attempt. Retrying is allowed until the count
    /// exceeds the retry limit; the attempt after the limit is fatal.
    pub fn on_failure(&mut self) -> (r: AcceptDecision)
        requires
            old(self).count() <= RETRY_LIMIT,
        ensures
            final(self).count() == old(self).count() + 1,
            r == (if old(self).count() + 1 > RETRY_LIMIT {
                AcceptDecision::Fatal
            } else {
                AcceptDecision::Retry
            }),
    {
        self.failures = self.failures + 1;
        if self.failures > RETRY_LIMIT {
            AcceptDecision::Fatal
        } else {
            AcceptDecision::Retry
        }
    }
}

/// The index of the first successful attempt, or -1 if every attempt fails.
pub open spec fn first_success(outcomes: Seq<bool>) -> int
    decreases outcomes.len(),
{
    if outcomes.len() == 0 {
        -1
    } else if outcomes[0] {
        0
    } else {
        let r = first_success(outcomes.drop_first());
        if r == -1 { -1 } else { r + 1 }
    }
}

/// What `first_success` finds is a success preceded by failures alone.
pub proof fn lemma_first_success(s: Seq<bool>)
    ensures
        ({ let r = first_success(s);
            &&& -1 <= r < s.len()
            &&& r == -1 ==> forall|j: int| 0 <= j < s.len() ==> !s[j]
            &&& r >= 0 ==> 0 <= r < s.len() && s[r]
            &&& r >= 0 ==> forall|j: int| 0 <= j < r ==> !s[j]
        }),
    decreases s.len(),
{
    if s.len() > 0 && !s[0] {
        lemma_first_success(s.drop_first());
        let d = s.drop_first();
        assert(forall|j: int| 0 <= j < d.len() ==> d[j] == s[j + 1]);
        let r = first_success(s);
        if r == -1 {
            assert forall|j: int| 0 <= j < s.len() implies !s[j] by {
                if j > 0 {
                    assert(!d[j - 1]);
                }
            }
        } else {
            assert(s[r] == d[r - 1]);
            assert forall|j: int| 0 <= j < r implies !s[j] by {
                if j > 0 {
                    assert(!d[j - 1]);
                }
            }
        }
    }
}

/// Runs one whole accept attempt sequence against the given attempt
/// outcomes, `true` standing for an attempt that accepts a connection.
/// This is the entire retry policy: the connection of the first successful
/// attempt is returned, provided no more than the retry limit of failures
/// precede it; one failure beyond the limit is fatal. The live accept loop
/// makes the same decisions through `AcceptRetry` and only adds the waiting
/// in between.
#[verifier::loop_isolation(false)]
pub fn run_accept(outcomes: &Vec<bool>) -> (r: Option<usize>)
    requires
        0 <= first_success(outcomes@) || outcomes@.len() > RETRY_LIMIT,
    ensures
        ({ let fs = first_success(outcomes@);
            &&& r matches Some(i) ==> i as int == fs
            &&& r is Some <==> 0 <= fs <= RETRY_LIMIT
        }),
{
    proof {
        lemma_first_success(outcomes@);
    }
    let mut retry = AcceptRetry::new();
    let mut i: usize = 0;
    while i < outcomes.len()
        invariant
            0 <= i <= outcomes@.len(),
            retry.count() == i,
            i <= RETRY_LIMIT,
            forall|j: int| 0 <= j < i ==> !outcomes@[j],
        decreases outcomes@.len() - i,
    {
        if outcomes[i] {
            return Some(i);
        }
        match retry.on_failure() {
            AcceptDecision::Fatal => {
                return None;
            },
            AcceptDecision::Retry => {},
        }
        i = i + 1;
    }
    proof {
        assert(first_success(outcomes@) == -1);
        assert(false);
    }
    None
}

/// The lifecycle phase of the server.
#[derive(Debug, Clone, Copy, PartialEq, Eq, Structural)]
pub enum ServerPhase {
    /// Accepting connections, handlers processing frames.
    Running,
    /// No longer accepting; the stop signal has fired; waiting for every
    /// handler to release its barrier reference.
    Draining,
    /// Every reference released; the process may exit.
    Stopped,
}

/// The server's shared coordination state, reduced to what decides the
/// shutdown: the phase, whether the one-shot stop signal has fired, and how
/// many handler references to the completion barrier are outstanding.
pub struct ServerState {
    /// The lifecycle phase.
    pub phase: ServerPhase,
    /// The one-shot stop signal. Once fired it stays fired, so a handler
    /// subscribing after the fact still observes it.
    pub signal_fired: bool,
    /// Outstanding handler references to the completion barrier.
    pub live_handlers: u64,
}

impl ServerState {
    /// The coordination invariant: the signal fires exactly when the server
    /// leaves Running, and Stopped is reached only with no handler
    /// reference outstanding.
    pub open spec fn inv(&self) -> bool {
        &&& (self.phase is Stopped ==> self.live_handlers == 0)
        &&& (self.signal_fired <==> !(self.phase is Running))
    }

    /// A server starts running, with no handlers and the signal unfired.
    pub fn new() -> (s: ServerState)
        ensures
            s.inv(),
            s.phase is Running,
            s.live_handlers == 0,
            !s.signal_fired,
    {
        ServerState { phase: ServerPhase::Running, signal_fired: false, live_handlers: 0 }
    }

    /// One accepted connection spawns one handler holding one fresh barrier
    /// reference. Only a running server accepts.
    pub fn spawn_handler(&mut self)
        requires
            old(self).inv(),
            old(self).phase is Running,
            old(self).live_handlers < u64::MAX,
        ensures
            final(self).inv(),
            final(self).phase is Running,
            final(self).live_handlers == old(self).live_handlers + 1,
            final(self).signal_fired == old(self).signal_fired,
    {
        self.live_handlers = self.live_handlers + 1;
    }

    /// Entering the drain, on an operator interrupt or a fatal accept
    /// error: accepting stops and the stop signal fires, so every current
    /// and later subscriber observes it.
    pub fn begin_drain(&mut self)
        requires
            old(self).inv(),
            old(self).phase is Running,
        ensures
            final(self).inv(),
            final(self).phase is Draining,
            final(self).signal_fired,
            final(self).live_handlers == old(self).live_handlers,
    {
        self.phase = ServerPhase::Draining;
        self.signal_fired = true;
    }

    /// What a subscriber observes when it polls the stop signal. A
    /// subscriber that arrives after the signal fired still observes it.
    pub fn poll_signal(&self) -> (r: bool)
        ensures
            r == self.signal_fired,
    {
        self.signal_fired
    }

    /// A handler that ends — stop signal observed, end of stream, or any
    /// failure — releases its one barrier reference.
    pub fn handler_done(&mut self)
        requires
            old(self).inv(),
            old(self).live_handlers > 0,
        ensures
            final(self).inv(),
            final(self).live_handlers == old(self).live_handlers - 1,
            final(self).phase == old(self).phase,
            final(self).signal_fired == old(self).signal_fired,
    {
        self.live_handlers = self.live_handlers - 1;
    }

    /// The completion barrier: a draining server stops exactly when the
    /// last handler reference has been released — at once when none are
    /// outstanding — and not before.
    pub fn try_stop(&mut self) -> (stopped: bool)
        requires
            old(self).inv(),
            !(old(self).phase is Running),
        ensures
            final(self).inv(),
            stopped <==> old(self).live_handlers == 0,
            stopped ==> final(self).phase is Stopped,
            !stopped ==> final(self).phase == old(self).phase,
            final(self).live_handlers == old(self).live_handlers,
            final(self).signal_fired == old(self).signal_fired,
    {
        if self.live_handlers == 0 {
            self.phase = ServerPhase::Stopped;
            true
        } else {
            false
        }
    }
}

/// Drain correctness, read off the invariant: a server that has reached
/// Stopped has no outstanding handler reference, whatever order the
/// handlers finished in.
pub proof fn lemma_stopped_means_drained(s: ServerState)
    requires
        s.inv(),
        s.phase is Stopped,
    ensures
        s.live_handlers == 0,
{
}

/// What a handler learns at one iteration boundary: either the next frame,
/// or the end of the stream, or the stop signal won the race.
pub enum HandlerEvent {
    /// The stop signal was observed.
    Shutdown,
    /// The peer ended the stream cleanly.
    Closed,
    /// A whole frame arrived.
    Incoming(Frame),
}

/// What the handler does next.
pub enum HandlerAction {
    /// Release the barrier reference and end the handler.
    Stop,
    /// Hand the frame to the command hook and send back its reply.
    Dispatch(Frame),
}

/// The handler's decision at each iteration boundary: a stop signal or a
/// clean end of stream ends the handler at once — it finishes a frame it
/// has already read, but never waits for a new one — and a whole frame goes
/// to the command hook.
pub fn handler_step(e: HandlerEvent) -> (r: HandlerAction)
    ensures
        match e {
            HandlerEvent::Shutdown => r is Stop,
            HandlerEvent::Closed => r is Stop,
            HandlerEvent::Incoming(f) => r matches HandlerAction::Dispatch(g) && g == f,
        },
{
    match e {
        HandlerEvent::Shutdown => HandlerAction::Stop,
        HandlerEvent::Closed => HandlerAction::Stop,
        HandlerEvent::Incoming(f) => HandlerAction::Dispatch(f),
    }
}

} // verus!
