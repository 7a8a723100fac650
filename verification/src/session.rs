//! The connection-lifecycle state machine of the settings session: connect,
//! announce liveness, subscribe, republish after a timeout, and reset on
//! disconnect.

use vstd::prelude::*;

verus! {

/// Milliseconds after subscription before the first republish pass.
pub const REPUBLISH_TIMEOUT_MS: u64 = 2000;

/// The lifecycle states of a settings session.
#[derive(Clone, Copy, Debug, PartialEq, Eq, Structural)]
pub enum State {
    /// Not connected to the broker.
    Initial,
    /// Connected; liveness not announced yet.
    ConnectedToBroker,
    /// Liveness announced; not subscribed yet.
    PendingSubscribe,
    /// Subscribed; waiting out the republish timeout.
    PendingRepublish,
    /// Draining the path enumeration to the broker.
    RepublishingSettings,
    /// Idle: serving requests only.
    Active,
}

/// The events the session reacts to.
#[derive(Clone, Copy, Debug, PartialEq, Eq, Structural)]
pub enum Event {
    Connected,
    IndicatedLife,
    Subscribed,
    StartRepublish,
    RepublishComplete,
    Reset,
}

/// The transition relation: the next state, or `None` where the event is not
/// accepted in the state.
pub open spec fn transition(s: State, e: Event) -> Option<State> {
    match (s, e) {
        (State::Initial, Event::Connected) => Some(State::ConnectedToBroker),
        (State::ConnectedToBroker, Event::IndicatedLife) => Some(State::PendingSubscribe),
        (State::PendingSubscribe, Event::Subscribed) => Some(State::PendingRepublish),
        (State::PendingRepublish, Event::StartRepublish) => Some(State::RepublishingSettings),
        (State::RepublishingSettings, Event::StartRepublish) => Some(State::RepublishingSettings),
        (State::Active, Event::StartRepublish) => Some(State::RepublishingSettings),
        (State::RepublishingSettings, Event::RepublishComplete) => Some(State::Active),
        (_, Event::Reset) => Some(State::Initial),
        _ => None,
    }
}

/// The republish deadline stored on subscription: `now + REPUBLISH_TIMEOUT_MS`,
/// saturating at the clock's end.
pub open spec fn deadline_of(now_ms: u64) -> u64 {
    if now_ms + REPUBLISH_TIMEOUT_MS <= u64::MAX {
        (now_ms + REPUBLISH_TIMEOUT_MS) as u64
    } else {
        u64::MAX
    }
}

/// What a transition does to the context: `Subscribed` arms the republish
/// deadline, `StartRepublish` rewinds the enumeration cursor.
pub open spec fn action_on(c: Context, s: State, e: Event, now_ms: u64) -> Context {
    if s == State::PendingSubscribe && e == Event::Subscribed {
        Context { timeout: Some(deadline_of(now_ms)), republish_state: c.republish_state }
    } else if e == Event::StartRepublish {
        Context { timeout: c.timeout, republish_state: 0 }
    } else {
        c
    }
}

/// The session context: the republish deadline and the enumeration cursor,
/// here the position of the next leaf path to publish.
pub struct Context {
    pub timeout: Option<u64>,
    pub republish_state: usize,
}

impl Context {
    /// Whether the armed republish deadline lies before `now_ms`.
    pub open spec fn timed_out(&self, now_ms: u64) -> bool {
        match self.timeout {
            Option::Some(t) => now_ms > t,
            Option::None => false,
        }
    }

    /// A fresh context: no deadline, cursor at the first path.
    pub fn new() -> (c: Context)
        ensures
            c.timeout is None,
            c.republish_state == 0,
    {
        Context { timeout: None, republish_state: 0 }
    }

    /// Whether the republish deadline is armed and has passed.
    pub fn republish_has_timed_out(&self, now_ms: u64) -> (r: bool)
        ensures
            r == self.timed_out(now_ms),
    {
        match self.timeout {
            Option::Some(t) => now_ms > t,
            Option::None => false,
        }
    }
}

/// The state machine: the current state and its context.
pub struct StateMachine {
    pub state: State,
    pub context: Context,
}

impl StateMachine {
    /// A machine in the initial state.
    pub fn new() -> (m: StateMachine)
        ensures
            m.state == State::Initial,
            m.context.timeout is None,
            m.context.republish_state == 0,
    {
        StateMachine { state: State::Initial, context: Context::new() }
    }

    /// Process one event: move along the transition relation and apply its
    /// action; an event the state does not accept changes nothing.
    pub fn process_event(&mut self, e: Event, now_ms: u64) -> (r: bool)
        ensures
            match transition(old(self).state, e) {
                Option::Some(s2) => r && final(self).state == s2 && final(self).context
                    == action_on(old(self).context, old(self).state, e, now_ms),
                Option::None => !r && final(self).state == old(self).state && final(self).context
                    == old(self).context,
            },
    {
        let s = self.state;
        let accepted: Option<State> = match (s, e) {
            (State::Initial, Event::Connected) => Some(State::ConnectedToBroker),
            (State::ConnectedToBroker, Event::IndicatedLife) => Some(State::PendingSubscribe),
            (State::PendingSubscribe, Event::Subscribed) => Some(State::PendingRepublish),
            (State::PendingRepublish, Event::StartRepublish) => Some(
                State::RepublishingSettings,
            ),
            (State::RepublishingSettings, Event::StartRepublish) => Some(
                State::RepublishingSettings,
            ),
            (State::Active, Event::StartRepublish) => Some(State::RepublishingSettings),
            (State::RepublishingSettings, Event::RepublishComplete) => Some(State::Active),
            (_, Event::Reset) => Some(State::Initial),
            _ => None,
        };
        match accepted {
            Option::None => false,
            Option::Some(s2) => {
                if matches!((s, e), (State::PendingSubscribe, Event::Subscribed)) {
                    let d = if now_ms <= u64::MAX - REPUBLISH_TIMEOUT_MS {
                        now_ms + REPUBLISH_TIMEOUT_MS
                    } else {
                        u64::MAX
                    };
                    self.context = Context {
                        timeout: Some(d),
                        republish_state: self.context.republish_state,
                    };
                } else if matches!(e, Event::StartRepublish) {
                    self.context = Context { timeout: self.context.timeout, republish_state: 0 };
                }
                self.state = s2;
                true
            },
        }
    }
}

} // verus!
