//! The per-connection session lifecycle.
//!
//! A session wraps one streaming connection. It is created on connection
//! open, completes the transport handshake, learns its topic from the first
//! well-formed control message, and from then on watches inbound messages for
//! an unsubscribe of that topic. Every way a subscribed session ends — an
//! explicit unsubscribe control message, a transport close, or a read/write
//! failure — yields exactly one request to remove its registration.
//!
//! The surroundings run the read and write loops and perform the returned
//! `Action` against the registry; the decisions themselves are the pure step
//! function `session_step`, which every method here follows.

use vstd::prelude::*;

use crate::codec::json_string_field;
use crate::codec::json_string_field_of;
use crate::registry::ChanMan;
use crate::registry::lemma_unsubscribe_silences;
use crate::registry::publish_fanout;
use crate::registry::unsubscribe_updated;

verus! {

/// A session's lifecycle position.
pub enum SessionState {
    Connecting,
    AwaitingTopic,
    Subscribed { topic: String },
    Closed,
}

/// The mathematical image of a `SessionState`.
pub enum StateSpec {
    Connecting,
    AwaitingTopic,
    Subscribed(Seq<char>),
    Closed,
}

/// What a session asks its surroundings to do after one event.
pub enum Action {
    /// Nothing to change in the registry.
    Keep,
    /// Register this session's deliverable under the topic.
    Register { topic: String },
    /// Remove this session's registration for the topic.
    Unregister { topic: String },
}

/// The mathematical image of an `Action`.
pub enum ActionSpec {
    Keep,
    Register(Seq<char>),
    Unregister(Seq<char>),
}

/// One event a session reacts to: a parsed control message (its `subscribe`
/// and `unsubscribe` fields), or the transport ending by close or failure.
pub enum EventSpec {
    Control { sub: Option<Seq<char>>, unsub: Option<Seq<char>> },
    TransportClosed,
}

impl View for SessionState {
    type V = StateSpec;

    open spec fn view(&self) -> StateSpec {
        match self {
            SessionState::Connecting => StateSpec::Connecting,
            SessionState::AwaitingTopic => StateSpec::AwaitingTopic,
            SessionState::Subscribed { topic } => StateSpec::Subscribed(topic@),
            SessionState::Closed => StateSpec::Closed,
        }
    }
}

impl View for Action {
    type V = ActionSpec;

    open spec fn view(&self) -> ActionSpec {
        match self {
            Action::Keep => ActionSpec::Keep,
            Action::Register { topic } => ActionSpec::Register(topic@),
            Action::Unregister { topic } => ActionSpec::Unregister(topic@),
        }
    }
}

/// A control message as the protocol reads it: the optional `subscribe` and
/// `unsubscribe` string fields of one inbound JSON text frame.
pub struct ControlMsg {
    pub subscribe: Option<String>,
    pub unsubscribe: Option<String>,
}

/// The string behind an optional owned string.
pub open spec fn opt_view(o: Option<String>) -> Option<Seq<char>> {
    match o {
        Some(s) => Some(s@),
        None => None,
    }
}

/// The session lifecycle in one place: which state an event leads to and what
/// the surroundings must do about the registry.
///
/// While awaiting the topic, a control message with a `subscribe` field joins
/// that topic and asks for registration; anything else closes the connection
/// with nothing to clean up. While subscribed, only an `unsubscribe` of the
/// current topic ends the session — and then, like a transport close, it asks
/// for exactly one removal of the registration; all other inbound content is
/// ignored. A closed session stays closed and never asks for anything again.
pub open spec fn session_step(st: StateSpec, ev: EventSpec) -> (StateSpec, ActionSpec) {
    match ev {
        EventSpec::TransportClosed => match st {
            StateSpec::Subscribed(t) => (StateSpec::Closed, ActionSpec::Unregister(t)),
            _ => (StateSpec::Closed, ActionSpec::Keep),
        },
        EventSpec::Control { sub, unsub } => match st {
            StateSpec::Connecting => (StateSpec::Connecting, ActionSpec::Keep),
            StateSpec::AwaitingTopic => match sub {
                Some(t) => (StateSpec::Subscribed(t), ActionSpec::Register(t)),
                None => (StateSpec::Closed, ActionSpec::Keep),
            },
            StateSpec::Subscribed(t) => if unsub == Some(t) {
                (StateSpec::Closed, ActionSpec::Unregister(t))
            } else {
                (StateSpec::Subscribed(t), ActionSpec::Keep)
            },
            StateSpec::Closed => (StateSpec::Closed, ActionSpec::Keep),
        },
    }
}

/// The state and identity of one subscriber's streaming connection.
pub struct Session {
    pub key: String,
    pub state: SessionState,
}

impl Session {
    /// A fresh session for a newly opened connection.
    pub fn new(key: String) -> (r: Self)
        ensures
            r.key@ == key@,
            r.state@ == StateSpec::Connecting,
    {
        Session { key, state: SessionState::Connecting }
    }

    /// The transport handshake succeeded: the session now awaits the first
    /// control message naming its topic.
    pub fn handshake_complete(&mut self)
        requires
            old(self).state@ == StateSpec::Connecting,
        ensures
            final(self).key == old(self).key,
            final(self).state@ == StateSpec::AwaitingTopic,
    {
        self.state = SessionState::AwaitingTopic;
    }

    /// Applies one parsed control message: exactly the step that
    /// `session_step` prescribes for it.
    pub fn apply_control(&mut self, ctl: ControlMsg) -> (a: Action)
        ensures
            final(self).key == old(self).key,
            ({
                let (st, act) = session_step(
                    old(self).state@,
                    EventSpec::Control {
                        sub: opt_view(ctl.subscribe),
                        unsub: opt_view(ctl.unsubscribe),
                    },
                );
                final(self).state@ == st && a@ == act
            }),
    {
        match &self.state {
            SessionState::Connecting => Action::Keep,
            SessionState::AwaitingTopic => {
                match ctl.subscribe {
                    Some(t) => {
                        let named = t.clone();
                        self.state = SessionState::Subscribed { topic: t };
                        Action::Register { topic: named }
                    },
                    None => {
                        self.state = SessionState::Closed;
                        Action::Keep
                    },
                }
            },
            SessionState::Subscribed { topic } => {
                match &ctl.unsubscribe {
                    Some(named) => {
                        if *named == *topic {
                            let t = topic.clone();
                            self.state = SessionState::Closed;
                            Action::Unregister { topic: t }
                        } else {
                            Action::Keep
                        }
                    },
                    None => Action::Keep,
                }
            },
            SessionState::Closed => Action::Keep,
        }
    }

    /// The transport ended, by an orderly close or by a read/write failure:
    /// the session closes, asking for its registration's removal if it held
    /// one — exactly the step that `session_step` prescribes.
    pub fn transport_closed(&mut self) -> (a: Action)
        ensures
            final(self).key == old(self).key,
            ({
                let (st, act) = session_step(old(self).state@, EventSpec::TransportClosed);
                final(self).state@ == st && a@ == act
            }),
    {
        match &self.state {
            SessionState::Subscribed { topic } => {
                let t = topic.clone();
                self.state = SessionState::Closed;
                Action::Unregister { topic: t }
            },
            _ => {
                self.state = SessionState::Closed;
                Action::Keep
            },
        }
    }

    /// Handles one inbound text frame: reads its `subscribe` and
    /// `unsubscribe` fields and applies the control message they form.
    pub fn on_inbound(&mut self, text: &str) -> (a: Action)
        ensures
            final(self).key == old(self).key,
            ({
                let (st, act) = session_step(
                    old(self).state@,
                    EventSpec::Control {
                        sub: json_string_field_of(text@, "subscribe"@),
                        unsub: json_string_field_of(text@, "unsubscribe"@),
                    },
                );
                final(self).state@ == st && a@ == act
            }),
    {
        let ctl = ControlMsg {
            subscribe: json_string_field(text, "subscribe"),
            unsubscribe: json_string_field(text, "unsubscribe"),
        };
        self.apply_control(ctl)
    }
}

/// Teardown is demanded and complete: from a subscribed session, any event
/// either leaves the session subscribed as it was, asking for nothing, or
/// closes it and asks for exactly the removal of its topic's registration.
/// No event both closes the session and leaves the registration behind.
pub proof fn lemma_subscribed_teardown(st: StateSpec, ev: EventSpec)
    requires
        st is Subscribed,
    ensures
        ({
            let (st2, act) = session_step(st, ev);
            (st2 == st && act == ActionSpec::Keep) || (st2 is Closed && act
                == ActionSpec::Unregister(st->Subscribed_0))
        }),
{
}

/// Teardown happens at most once: a closed session stays closed and never
/// asks for another registry change, whichever events still arrive.
pub proof fn lemma_closed_is_final(ev: EventSpec)
    ensures
        session_step(StateSpec::Closed, ev).0 is Closed,
        session_step(StateSpec::Closed, ev).1 == ActionSpec::Keep,
{
}

/// A session that never subscribed never asks for a registry change: from
/// awaiting its topic, an event either registers the topic it subscribes to,
/// or closes the session with nothing to clean up.
pub proof fn lemma_unsubscribed_clean_exit(st: StateSpec, ev: EventSpec)
    requires
        st is AwaitingTopic,
    ensures
        ({
            let (st2, act) = session_step(st, ev);
            act is Register || act == ActionSpec::Keep
        }),
{
}


/// Teardown is observable at the broker: when an event closes a subscribed
/// session, it demands the removal of exactly that topic's registration, and
/// once the removal is performed, a subsequent publish to the topic delivers
/// nothing to the deliverable the session held (no other session holding it).
pub proof fn lemma_teardown_silences(
    st: StateSpec,
    ev: EventSpec,
    s0: ChanMan,
    s1: ChanMan,
    s2: ChanMan,
    sess: Seq<char>,
    m: Seq<char>,
    d: usize,
)
    requires
        st is Subscribed,
        session_step(st, ev).0 is Closed,
        s1.wf(),
        unsubscribe_updated(s0, s1, st->Subscribed_0, sess),
        publish_fanout(s1, s2, st->Subscribed_0, m),
        forall|s: Seq<char>| s != sess ==> #[trigger] s0.sub_of(st->Subscribed_0, s) != Some(d),
    ensures
        session_step(st, ev).1 == ActionSpec::Unregister(st->Subscribed_0),
        s2.mailbox_of(d) == s1.mailbox_of(d),
{
    lemma_subscribed_teardown(st, ev);
    lemma_unsubscribe_silences(s0, s1, s2, st->Subscribed_0, sess, m, d);
}

} // verus!
