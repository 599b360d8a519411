//! Connection supervisor: the state machine that drives the poll loop's
//! attitude toward the presence sink.
//!
//! The supervisor owns a [`ConnectionState`] and prescribes, tick by tick,
//! whether the loop should attempt a reconnect or run a presence tick, and
//! how long to wait before the next step. The caller performs the outside
//! work (connecting, pushing) and reports the outcome as an [`Event`].

use vstd::prelude::*;

verus! {

/// Wait prescribed between reconnect attempts, and after a lost connection.
pub const RECONNECT_BACKOFF_MS: u64 = 15000;

/// Wait prescribed between ordinary ticks while connected.
pub const TICK_INTERVAL_MS: u64 = 1000;

/// Whether the presence sink is currently believed reachable.
#[derive(Clone, Copy, Debug, PartialEq, Eq, Structural)]
pub enum ConnectionState {
    Connected,
    Disconnected,
}

/// What the loop should do next.
#[derive(Clone, Copy, Debug, PartialEq, Eq, Structural)]
pub enum Action {
    /// Try to connect to the presence sink; no presence work is allowed.
    AttemptReconnect,
    /// Run one tick: snapshot, resolve, push.
    RunTick,
}

/// Outcome of the action the loop just performed.
#[derive(Clone, Copy, Debug, PartialEq, Eq, Structural)]
pub enum Event {
    /// A reconnect attempt reached the sink.
    ReconnectSucceeded,
    /// A reconnect attempt failed.
    ReconnectFailed,
    /// The tick ran and its sink push (set or clear) went through.
    TickPushed,
    /// The tick's sink push failed: the connection is considered lost.
    TickSinkFailed,
    /// The tick hit a recoverable business error (automation, resolver);
    /// the connection is not in doubt.
    TickErrored,
}

/// The supervisor's whole state.
#[derive(Clone, Copy, Debug, PartialEq, Eq, Structural)]
pub struct Supervisor {
    pub conn: ConnectionState,
}

/// The action prescribed in a given connection state: reconnect while
/// disconnected, a tick otherwise.
pub open spec fn spec_action(conn: ConnectionState) -> Action {
    match conn {
        ConnectionState::Disconnected => Action::AttemptReconnect,
        ConnectionState::Connected => Action::RunTick,
    }
}

/// The transition taken on an event: the new connection state and the wait
/// (in milliseconds) before the next step.
pub open spec fn spec_step(conn: ConnectionState, event: Event) -> (ConnectionState, u64) {
    match event {
        Event::ReconnectSucceeded => (ConnectionState::Connected, 0),
        Event::ReconnectFailed => (ConnectionState::Disconnected, RECONNECT_BACKOFF_MS),
        Event::TickPushed => (ConnectionState::Connected, TICK_INTERVAL_MS),
        Event::TickSinkFailed => (ConnectionState::Disconnected, RECONNECT_BACKOFF_MS),
        Event::TickErrored => (ConnectionState::Connected, TICK_INTERVAL_MS),
    }
}

/// An event can only follow the action that produces it: reconnect outcomes
/// while disconnected, tick outcomes while connected.
pub open spec fn event_fits(conn: ConnectionState, event: Event) -> bool {
    match event {
        Event::ReconnectSucceeded | Event::ReconnectFailed => conn is Disconnected,
        Event::TickPushed | Event::TickSinkFailed | Event::TickErrored => conn is Connected,
    }
}

impl Supervisor {
    /// A fresh supervisor starts disconnected: the first step is always a
    /// reconnect attempt, never presence work.
    pub fn new() -> (s: Supervisor)
        ensures
            s.conn is Disconnected,
    {
        Supervisor { conn: ConnectionState::Disconnected }
    }

    /// What the loop should do now. While disconnected this is never
    /// `RunTick`, so no presence push can be attempted before a reconnect
    /// succeeds.
    pub fn next_action(&self) -> (a: Action)
        ensures
            a == spec_action(self.conn),
            self.conn is Disconnected ==> !(a is RunTick),
    {
        match self.conn {
            ConnectionState::Disconnected => Action::AttemptReconnect,
            ConnectionState::Connected => Action::RunTick,
        }
    }

    /// Record the outcome of the prescribed action and return how many
    /// milliseconds to wait before the next step.
    pub fn on_event(&mut self, event: Event) -> (wait_ms: u64)
        requires
            event_fits(old(self).conn, event),
        ensures
            (final(self).conn, wait_ms) == spec_step(old(self).conn, event),
    {
        match event {
            Event::ReconnectSucceeded => {
                self.conn = ConnectionState::Connected;
                0
            },
            Event::ReconnectFailed => {
                self.conn = ConnectionState::Disconnected;
                RECONNECT_BACKOFF_MS
            },
            Event::TickPushed => {
                self.conn = ConnectionState::Connected;
                TICK_INTERVAL_MS
            },
            Event::TickSinkFailed => {
                self.conn = ConnectionState::Disconnected;
                RECONNECT_BACKOFF_MS
            },
            Event::TickErrored => {
                self.conn = ConnectionState::Connected;
                TICK_INTERVAL_MS
            },
        }
    }
}

/// The connection state after a run of reconnect failures, starting
/// disconnected: it never leaves `Disconnected`.
pub open spec fn state_after_failures(n: nat) -> ConnectionState
    decreases n,
{
    if n == 0 {
        ConnectionState::Disconnected
    } else {
        spec_step(state_after_failures((n - 1) as nat), Event::ReconnectFailed).0
    }
}

/// Reconnect backoff: however many reconnect attempts have failed in a row,
/// the supervisor stays disconnected, prescribes only further reconnect
/// attempts (never a presence push), and puts the full backoff wait before
/// every one of them.
pub proof fn lemma_reconnect_backoff(n: nat)
    ensures
        state_after_failures(n) is Disconnected,
        spec_action(state_after_failures(n)) == Action::AttemptReconnect,
        !(spec_action(state_after_failures(n)) is RunTick),
        n > 0 ==> spec_step(state_after_failures((n - 1) as nat), Event::ReconnectFailed).1
            == RECONNECT_BACKOFF_MS,
    decreases n,
{
    if n > 0 {
        lemma_reconnect_backoff((n - 1) as nat);
    }
}

} // verus!
