//! The settings session core: the tree, the lifecycle state machine, the
//! topic namespace and the per-request responses. The transport stays
//! outside: each tick this core decides, the host performs.

use vstd::prelude::*;

verus! {

use crate::Error;
use crate::model::{meta_size, meta_depth, leaf_paths, entries, set_spec, get_spec, split_path, wf,
    SLASH};
use crate::tree::{Node, node_view};
use crate::laws::{lemma_set_preserves_structure, lemma_enumeration_sound};
use crate::session::{State, Event, StateMachine, Context};
use crate::text::{seq_views, copy_range, split_segments, starts_with};
use crate::tree::slice_to_vec;

/// The topic buffer budget: every fully qualified topic must fit it.
pub const MAX_TOPIC_LENGTH: usize = 128;

/// The keepalive interval, in seconds, to register with the transport
/// before connecting.
pub const KEEPALIVE_INTERVAL_SECONDS: u16 = 60;

/// An outbound publication the host must perform. Every publication of this
/// library is at-most-once; `retained` distinguishes the liveness markers.
pub struct Outbound {
    pub topic: Vec<u8>,
    pub payload: Vec<u8>,
    pub retained: bool,
}

/// What the host must do with its transport on this tick.
#[derive(Clone, Copy, Debug, PartialEq, Eq, Structural)]
pub enum TickAction {
    /// Nothing outward.
    Idle,
    /// Publish `1` retained to the alive topic; report success back through
    /// `on_alive_published`.
    PublishAlive,
    /// Subscribe to the settings namespace; report success back through
    /// `on_subscribed`.
    Subscribe,
    /// Drain the republish pass through `republish_next`.
    Republish,
}

/// `"/settings"`.
pub open spec fn settings_suffix() -> Seq<u8> {
    seq![47, 115, 101, 116, 116, 105, 110, 103, 115u8]
}

/// `"/alive"`.
pub open spec fn alive_suffix() -> Seq<u8> {
    seq![47, 97, 108, 105, 118, 101u8]
}

/// `"/log"`.
pub open spec fn log_suffix() -> Seq<u8> {
    seq![47, 108, 111, 103u8]
}

/// `"/#"`.
pub open spec fn hash_suffix() -> Seq<u8> {
    seq![47, 35u8]
}

/// The acceptance response: `{"code":0}`.
pub open spec fn ok_response_spec() -> Seq<u8> {
    seq![123, 34, 99, 111, 100, 101, 34, 58, 48, 125u8]
}

/// The digit standing for an error kind in a response.
pub open spec fn error_code(e: Error) -> u8 {
    match e {
        Error::PathTooShort => 49,
        Error::PathTooLong => 50,
        Error::BadIndex => 51,
        Error::MissingField => 52,
        Error::DecodeError => 53,
        Error::BufferTooSmall => 54,
    }
}

/// The reason text of an error kind: its name, spelled in ASCII bytes.
pub open spec fn error_msg(e: Error) -> Seq<u8> {
    match e {
        Error::PathTooShort => seq![80, 97, 116, 104, 84, 111, 111, 83, 104, 111, 114, 116u8],
        Error::PathTooLong => seq![80, 97, 116, 104, 84, 111, 111, 76, 111, 110, 103u8],
        Error::BadIndex => seq![66, 97, 100, 73, 110, 100, 101, 120u8],
        Error::MissingField => seq![77, 105, 115, 115, 105, 110, 103, 70, 105, 101, 108, 100u8],
        Error::DecodeError => seq![68, 101, 99, 111, 100, 101, 69, 114, 114, 111, 114u8],
        Error::BufferTooSmall => seq![66, 117, 102, 102, 101, 114, 84, 111, 111, 83, 109, 97, 108, 108u8],
    }
}

/// The rejection response: `{"code":E,"msg":"<reason>"}`.
pub open spec fn error_response_spec(e: Error) -> Seq<u8> {
    seq![123, 34, 99, 111, 100, 101, 34, 58u8] + seq![error_code(e)] + seq![44, 34, 109, 115, 103, 34, 58, 34u8] + error_msg(e)
        + seq![34, 125u8]
}

/// The acceptance response bytes.
pub fn ok_response() -> (r: Vec<u8>)
    ensures
        r@ == ok_response_spec(),
{
    let mut v: Vec<u8> = Vec::new();
    // {"code":0}
    v.push(123);
    v.push(34);
    v.push(99);
    v.push(111);
    v.push(100);
    v.push(101);
    v.push(34);
    v.push(58);
    v.push(48);
    v.push(125);
    proof {
        assert(v@ =~= ok_response_spec());
    }
    v
}

/// The rejection response bytes for a path or decode error.
pub fn error_response(e: Error) -> (r: Vec<u8>)
    ensures
        r@ == error_response_spec(e),
{
    let mut v: Vec<u8> = Vec::new();
    // {"code":
    v.push(123);
    v.push(34);
    v.push(99);
    v.push(111);
    v.push(100);
    v.push(101);
    v.push(34);
    v.push(58);
    let c: u8 = match e {
        Error::PathTooShort => 49,
        Error::PathTooLong => 50,
        Error::BadIndex => 51,
        Error::MissingField => 52,
        Error::DecodeError => 53,
        Error::BufferTooSmall => 54,
    };
    v.push(c);
    // ,"msg":"
    v.push(44);
    v.push(34);
    v.push(109);
    v.push(115);
    v.push(103);
    v.push(34);
    v.push(58);
    v.push(34);
    // the error kind's name
    match e {
        Error::PathTooShort => {
            v.push(80);
            v.push(97);
            v.push(116);
            v.push(104);
            v.push(84);
            v.push(111);
            v.push(111);
            v.push(83);
            v.push(104);
            v.push(111);
            v.push(114);
            v.push(116);
        },
        Error::PathTooLong => {
            v.push(80);
            v.push(97);
            v.push(116);
            v.push(104);
            v.push(84);
            v.push(111);
            v.push(111);
            v.push(76);
            v.push(111);
            v.push(110);
            v.push(103);
        },
        Error::BadIndex => {
            v.push(66);
            v.push(97);
            v.push(100);
            v.push(73);
            v.push(110);
            v.push(100);
            v.push(101);
            v.push(120);
        },
        Error::MissingField => {
            v.push(77);
            v.push(105);
            v.push(115);
            v.push(115);
            v.push(105);
            v.push(110);
            v.push(103);
            v.push(70);
            v.push(105);
            v.push(101);
            v.push(108);
            v.push(100);
        },
        Error::DecodeError => {
            v.push(68);
            v.push(101);
            v.push(99);
            v.push(111);
            v.push(100);
            v.push(101);
            v.push(69);
            v.push(114);
            v.push(114);
            v.push(111);
            v.push(114);
        },
        Error::BufferTooSmall => {
            v.push(66);
            v.push(117);
            v.push(102);
            v.push(102);
            v.push(101);
            v.push(114);
            v.push(84);
            v.push(111);
            v.push(111);
            v.push(83);
            v.push(109);
            v.push(97);
            v.push(108);
            v.push(108);
        },
    }
    // "}
    v.push(34);
    v.push(125);
    proof {
        assert(v@ =~= error_response_spec(e));
    }
    v
}


/// A reason text with `"` and `\\` preceded by a backslash, so that it can
/// stand inside the quotes of a response.
pub open spec fn escaped(s: Seq<u8>) -> Seq<u8>
    decreases s.len(),
{
    if s.len() == 0 {
        Seq::empty()
    } else {
        escaped(s.drop_last()) + if s.last() == 34 || s.last() == 92 {
            seq![92u8, s.last()]
        } else {
            seq![s.last()]
        }
    }
}

/// A validator's rejection: `{"code":7,"msg":"<reason>"}`, the reason
/// escaped; the tree is not touched by a rejection.
pub open spec fn rejection_response_spec(reason: Seq<u8>) -> Seq<u8> {
    seq![123u8, 34, 99, 111, 100, 101, 34, 58, 55] + seq![44u8, 34, 109, 115, 103, 34, 58, 34]
        + escaped(reason) + seq![34u8, 125]
}

/// The rejection response bytes for a caller-supplied reason.
pub fn rejection_response(reason: &[u8]) -> (r: Vec<u8>)
    ensures
        r@ == rejection_response_spec(reason@),
{
    let mut v: Vec<u8> = Vec::new();
    // {"code":7
    v.push(123);
    v.push(34);
    v.push(99);
    v.push(111);
    v.push(100);
    v.push(101);
    v.push(34);
    v.push(58);
    v.push(55);
    // ,"msg":"
    v.push(44);
    v.push(34);
    v.push(109);
    v.push(115);
    v.push(103);
    v.push(34);
    v.push(58);
    v.push(34);
    let ghost head = v@;
    let mut i: usize = 0;
    while i < reason.len()
        invariant
            0 <= i <= reason@.len(),
            v@ == head + escaped(reason@.subrange(0, i as int)),
        decreases reason@.len() - i,
    {
        let c = reason[i];
        if c == 34 || c == 92 {
            v.push(92);
        }
        v.push(c);
        proof {
            assert(reason@.subrange(0, i + 1 as int).drop_last() =~= reason@.subrange(0, i as int));
            assert(reason@.subrange(0, i + 1 as int).last() == reason@[i as int]);
            assert(v@ =~= head + escaped(reason@.subrange(0, i + 1 as int)));
        }
        i += 1;
    }
    // "}
    v.push(34);
    v.push(125);
    proof {
        assert(reason@.subrange(0, reason@.len() as int) =~= reason@);
        assert(v@ =~= rejection_response_spec(reason@));
    }
    v
}

/// The settings session core. It owns the tree and the lifecycle state;
/// the host owns the transport and performs what each tick decides.
pub struct MqttClient {
    /// The live settings tree.
    pub settings: Node,
    /// Every leaf path, in enumeration order; built once at construction.
    /// Accepted sets change leaf values only, never the paths, so the list
    /// stays exact (see `lemma_set_preserves_structure`) and the republish
    /// drain needs no re-enumeration.
    pub paths: Vec<Vec<u8>>,
    /// The lifecycle state machine and its context.
    pub sm: StateMachine,
    /// The namespace root.
    pub prefix: Vec<u8>,
    /// `<prefix>/settings`.
    pub settings_prefix: Vec<u8>,
}

impl MqttClient {
    /// The session's standing well-formedness: the tree is well-formed and
    /// the stored path list is exactly its enumeration. Established by `new`
    /// and preserved by every method.
    pub open spec fn inv(&self) -> bool {
        &&& wf(node_view(self.settings))
        &&& seq_views(self.paths@) == leaf_paths(node_view(self.settings))
    }

    /// Construct the session core over an initial tree. The widest fully
    /// qualified topic must fit the topic buffer budget.
    pub fn new(prefix: &[u8], settings: Node) -> (c: MqttClient)
        requires
            wf(node_view(settings)),
            prefix@.len() + settings_suffix().len() + 1 + meta_size(node_view(settings))
                <= MAX_TOPIC_LENGTH,
            meta_depth(node_view(settings)) <= usize::MAX,
        ensures
            c.inv(),
            node_view(c.settings) == node_view(settings),
            c.sm.state == State::Initial,
            c.sm.context.timeout is None,
            c.sm.context.republish_state == 0,
            c.prefix@ == prefix@,
            c.settings_prefix@ == prefix@ + settings_suffix(),
    {
        let paths = settings.list_paths();
        let mut sp = slice_to_vec(prefix);
        sp.push(47);
        sp.push(115);
        sp.push(101);
        sp.push(116);
        sp.push(116);
        sp.push(105);
        sp.push(110);
        sp.push(103);
        sp.push(115);
        proof {
            assert(sp@ =~= prefix@ + settings_suffix());
        }
        MqttClient {
            settings,
            paths,
            sm: StateMachine::new(),
            prefix: slice_to_vec(prefix),
            settings_prefix: sp,
        }
    }

    /// The current settings tree.
    pub fn settings(&self) -> (r: &Node)
        ensures
            node_view(*r) == node_view(self.settings),
    {
        &self.settings
    }

    /// The current lifecycle state.
    pub fn state(&self) -> (r: State)
        ensures
            r == self.sm.state,
    {
        self.sm.state
    }

    /// The retained liveness topic, `<prefix>/alive`.
    pub fn alive_topic(&self) -> (r: Vec<u8>)
        ensures
            r@ == self.prefix@ + alive_suffix(),
    {
        let mut t = slice_to_vec(self.prefix.as_slice());
        t.push(47);
        t.push(97);
        t.push(108);
        t.push(105);
        t.push(118);
        t.push(101);
        proof {
            assert(t@ =~= self.prefix@ + alive_suffix());
        }
        t
    }

    /// The liveness announcement: `"1"` retained on `<prefix>/alive`,
    /// published at-most-once while connected.
    pub fn alive_message(&self) -> (m: Outbound)
        ensures
            m.topic@ == self.prefix@ + alive_suffix(),
            m.payload@ == seq![49u8],
            m.retained,
    {
        let mut payload: Vec<u8> = Vec::new();
        payload.push(49);
        proof {
            assert(payload@ =~= seq![49u8]);
        }
        Outbound { topic: self.alive_topic(), payload, retained: true }
    }

    /// The dead-man marker: `"0"` retained on `<prefix>/alive`, to register
    /// with the transport as its last will before connecting.
    pub fn offline_message(&self) -> (m: Outbound)
        ensures
            m.topic@ == self.prefix@ + alive_suffix(),
            m.payload@ == seq![48u8],
            m.retained,
    {
        let mut payload: Vec<u8> = Vec::new();
        payload.push(48);
        proof {
            assert(payload@ =~= seq![48u8]);
        }
        Outbound { topic: self.alive_topic(), payload, retained: true }
    }

    /// The subscription filter, `<prefix>/settings/#`.
    pub fn subscribe_topic(&self) -> (r: Vec<u8>)
        ensures
            r@ == self.settings_prefix@ + hash_suffix(),
    {
        let mut t = slice_to_vec(self.settings_prefix.as_slice());
        t.push(47);
        t.push(35);
        proof {
            assert(t@ =~= self.settings_prefix@ + hash_suffix());
        }
        t
    }

    /// The default response topic, `<prefix>/log`.
    pub fn response_topic(&self) -> (r: Vec<u8>)
        ensures
            r@ == self.prefix@ + log_suffix(),
    {
        let mut t = slice_to_vec(self.prefix.as_slice());
        t.push(47);
        t.push(108);
        t.push(111);
        t.push(103);
        proof {
            assert(t@ =~= self.prefix@ + log_suffix());
        }
        t
    }

    /// One non-blocking tick: reset on disconnect, then decide by state what
    /// the host must do with the transport.
    pub fn handled_update(&mut self, connected: bool, now_ms: u64) -> (a: TickAction)
        ensures
            node_view(final(self).settings) == node_view(old(self).settings),
            final(self).paths@ == old(self).paths@,
            final(self).prefix@ == old(self).prefix@,
            final(self).settings_prefix@ == old(self).settings_prefix@,
            !connected ==> final(self).sm.state == State::Initial && final(self).sm.context == old(self).sm.context && a == TickAction::Idle,
            connected ==> match old(self).sm.state {
                State::Initial => final(self).sm.state == State::ConnectedToBroker && final(self).sm.context == old(self).sm.context && a == TickAction::Idle,
                State::ConnectedToBroker => final(self).sm == old(self).sm && a
                    == TickAction::PublishAlive,
                State::PendingSubscribe => final(self).sm == old(self).sm && a
                    == TickAction::Subscribe,
                State::PendingRepublish => {
                    &&& a == TickAction::Idle
                    &&& if old(self).sm.context.timed_out(now_ms) {
                        final(self).sm.state == State::RepublishingSettings && final(self).sm.context.timeout == old(self).sm.context.timeout && final(self).sm.context.republish_state == 0
                    } else {
                        final(self).sm == old(self).sm
                    }
                },
                State::RepublishingSettings => final(self).sm == old(self).sm && a
                    == TickAction::Republish,
                State::Active => final(self).sm == old(self).sm && a == TickAction::Idle,
            },
    {
        if !connected {
            self.sm.process_event(Event::Reset, now_ms);
            return TickAction::Idle;
        }
        match self.sm.state {
            State::Initial => {
                self.sm.process_event(Event::Connected, now_ms);
                TickAction::Idle
            },
            State::ConnectedToBroker => TickAction::PublishAlive,
            State::PendingSubscribe => TickAction::Subscribe,
            State::PendingRepublish => {
                if self.sm.context.republish_has_timed_out(now_ms) {
                    self.sm.process_event(Event::StartRepublish, now_ms);
                }
                TickAction::Idle
            },
            State::RepublishingSettings => TickAction::Republish,
            State::Active => TickAction::Idle,
        }
    }

    /// The host reports that the liveness marker was published.
    pub fn on_alive_published(&mut self, now_ms: u64)
        requires
            old(self).sm.state == State::ConnectedToBroker,
        ensures
            final(self).sm.state == State::PendingSubscribe,
            final(self).sm.context == old(self).sm.context,
            node_view(final(self).settings) == node_view(old(self).settings),
            final(self).paths@ == old(self).paths@,
            final(self).prefix@ == old(self).prefix@,
            final(self).settings_prefix@ == old(self).settings_prefix@,
    {
        self.sm.process_event(Event::IndicatedLife, now_ms);
    }

    /// The host reports that the settings namespace was subscribed; the
    /// republish deadline is armed.
    pub fn on_subscribed(&mut self, now_ms: u64)
        requires
            old(self).sm.state == State::PendingSubscribe,
        ensures
            final(self).sm.state == State::PendingRepublish,
            final(self).sm.context.timeout == Some(crate::session::deadline_of(now_ms)),
            final(self).sm.context.republish_state == old(self).sm.context.republish_state,
            node_view(final(self).settings) == node_view(old(self).settings),
            final(self).paths@ == old(self).paths@,
            final(self).prefix@ == old(self).prefix@,
            final(self).settings_prefix@ == old(self).settings_prefix@,
    {
        self.sm.process_event(Event::Subscribed, now_ms);
    }

    /// Force the next ticks to republish the whole tree again.
    pub fn force_republish(&mut self, now_ms: u64)
        ensures
            node_view(final(self).settings) == node_view(old(self).settings),
            final(self).paths@ == old(self).paths@,
            final(self).prefix@ == old(self).prefix@,
            final(self).settings_prefix@ == old(self).settings_prefix@,
            match crate::session::transition(old(self).sm.state, Event::StartRepublish) {
                Option::Some(s2) => final(self).sm.state == s2 && final(self).sm.context.republish_state == 0 && final(self).sm.context.timeout == old(self).sm.context.timeout,
                Option::None => final(self).sm == old(self).sm,
            },
    {
        self.sm.process_event(Event::StartRepublish, now_ms);
    }

    /// One step of the republish drain: under backpressure nothing moves;
    /// otherwise hand out the next leaf as `(topic, value)` and advance the
    /// cursor, or report the pass complete.
    pub fn republish_next(&mut self, can_publish: bool) -> (r: Option<(Vec<u8>, Vec<u8>)>)
        requires
            old(self).inv(),
            old(self).sm.state == State::RepublishingSettings,
        ensures
            final(self).inv(),
            node_view(final(self).settings) == node_view(old(self).settings),
            final(self).paths@ == old(self).paths@,
            final(self).prefix@ == old(self).prefix@,
            final(self).settings_prefix@ == old(self).settings_prefix@,
            final(self).sm.context.timeout == old(self).sm.context.timeout,
            ({
                let k = old(self).sm.context.republish_state as int;
                let ps = leaf_paths(node_view(old(self).settings));
                if !can_publish {
                    final(self).sm == old(self).sm && r is None
                } else if k >= ps.len() {
                    final(self).sm.state == State::Active && final(self).sm.context == old(self).sm.context && r is None
                } else {
                    final(self).sm.state == State::RepublishingSettings && final(
                        self
                    ).sm.context.republish_state == k + 1 && match r {
                        Option::Some(p) => p.0@ == old(self).settings_prefix@ + seq![SLASH]
                            + ps[k] && p.1@ == entries(node_view(old(self).settings))[k].1,
                        Option::None => false,
                    }
                }
            }),
    {
        if !can_publish {
            return None;
        }
        let k = self.sm.context.republish_state;
        proof {
            assert(seq_views(self.paths@).len() == self.paths@.len());
        }
        if k >= self.paths.len() {
            self.sm.process_event(Event::RepublishComplete, 0);
            return None;
        }
        proof {
            assert(seq_views(self.paths@)[k as int] == self.paths@[k as int]@);
            assert(self.paths@[k as int]@ == leaf_paths(node_view(self.settings))[k as int]);
            // A well-formed tree answers every enumerated path.
            lemma_enumeration_sound(node_view(self.settings));
            assert(leaf_paths(node_view(self.settings))[k as int] == entries(
                node_view(self.settings),
            )[k as int].0);
        }
        let segs = split_segments(self.paths[k].as_slice());
        proof {
            assert(seq_views(segs@).skip(0) =~= split_path(self.paths@[k as int]@));
        }
        self.sm.context = Context { timeout: self.sm.context.timeout, republish_state: k + 1 };
        match self.settings.get_at(&segs, 0) {
            // Dead under the invariant: every enumerated path reads back.
            Result::Err(_) => None,
            Result::Ok(v) => {
                let payload = slice_to_vec(v.as_slice());
                let mut topic = slice_to_vec(self.settings_prefix.as_slice());
                topic.push(47);
                let mut tail = slice_to_vec(self.paths[k].as_slice());
                topic.append(&mut tail);
                proof {
                    assert(topic@ =~= self.settings_prefix@ + seq![SLASH] + self.paths@[
                        k as int
                    ]@);
                }
                Some((topic, payload))
            },
        }
    }

    /// Service one inbound message: strip the settings namespace (a topic
    /// outside it is dropped), apply the set, and return whether the tree
    /// changed together with the response payload. This is the default
    /// surface that adopts every decodable set; a host that validates
    /// candidates previews them with `propose_set` first and calls this
    /// only on acceptance.
    pub fn update(&mut self, topic: &[u8], payload: &[u8]) -> (r: Option<(bool, Vec<u8>)>)
        requires
            old(self).inv(),
        ensures
            final(self).inv(),
            final(self).paths@ == old(self).paths@,
            final(self).prefix@ == old(self).prefix@,
            final(self).settings_prefix@ == old(self).settings_prefix@,
            final(self).sm == old(self).sm,
            ({
                let sp = old(self).settings_prefix@;
                if !(topic@.len() >= sp.len() && topic@.subrange(0, sp.len() as int) == sp) {
                    r is None && node_view(final(self).settings) == node_view(old(self).settings)
                } else {
                    let tail = topic@.skip(sp.len() as int);
                    let path = if tail.len() > 0 {
                        tail.skip(1)
                    } else {
                        tail
                    };
                    match set_spec(node_view(old(self).settings), split_path(path), payload@) {
                        Result::Ok(n2) => node_view(final(self).settings) == n2 && match r {
                            Option::Some(p) => p.0 == true && p.1@ == ok_response_spec(),
                            Option::None => false,
                        },
                        Result::Err(e) => node_view(final(self).settings) == node_view(
                            old(self).settings,
                        ) && match r {
                            Option::Some(p) => p.0 == false && p.1@ == error_response_spec(e),
                            Option::None => false,
                        },
                    }
                }
            }),
    {
        if !starts_with(topic, self.settings_prefix.as_slice()) {
            return None;
        }
        let sp_len = self.settings_prefix.len();
        let start = if topic.len() > sp_len {
            sp_len + 1
        } else {
            sp_len
        };
        let path = copy_range(topic, start, topic.len());
        proof {
            let sp = self.settings_prefix@;
            let tail = topic@.skip(sp.len() as int);
            if tail.len() > 0 {
                assert(path@ =~= tail.skip(1));
            } else {
                assert(path@ =~= tail);
            }
        }
        let ghost before = node_view(self.settings);
        match self.settings.set(path.as_slice(), payload) {
            Result::Ok(_) => {
                proof {
                    lemma_set_preserves_structure(
                        before,
                        split_path(path@),
                        payload@,
                        node_view(self.settings),
                    );
                }
                Some((true, ok_response()))
            },
            Result::Err(e) => Some((false, error_response(e))),
        }
    }

    /// Preview one inbound message without touching the tree: strip the
    /// settings namespace (`None` drops a topic outside it), and hand back
    /// the path together with the candidate tree the set would produce, or
    /// the error it would fail with. A host that validates candidates reads
    /// this, then either adopts by `update` — the same deterministic set —
    /// or answers with `rejection_response` and leaves the tree alone.
    pub fn propose_set(&self, topic: &[u8], payload: &[u8]) -> (r: Option<
        Result<(Vec<u8>, Node), Error>,
    >)
        ensures
            ({
                let sp = self.settings_prefix@;
                if !(topic@.len() >= sp.len() && topic@.subrange(0, sp.len() as int) == sp) {
                    r is None
                } else {
                    let tail = topic@.skip(sp.len() as int);
                    let path = if tail.len() > 0 {
                        tail.skip(1)
                    } else {
                        tail
                    };
                    match set_spec(node_view(self.settings), split_path(path), payload@) {
                        Result::Ok(n2) => match r {
                            Option::Some(Result::Ok(p)) => p.0@ == path && node_view(p.1) == n2,
                            _ => false,
                        },
                        Result::Err(e) => match r {
                            Option::Some(Result::Err(e2)) => e2 == e,
                            _ => false,
                        },
                    }
                }
            }),
    {
        if !starts_with(topic, self.settings_prefix.as_slice()) {
            return None;
        }
        let sp_len = self.settings_prefix.len();
        let start = if topic.len() > sp_len {
            sp_len + 1
        } else {
            sp_len
        };
        let path = copy_range(topic, start, topic.len());
        proof {
            let sp = self.settings_prefix@;
            let tail = topic@.skip(sp.len() as int);
            if tail.len() > 0 {
                assert(path@ =~= tail.skip(1));
            } else {
                assert(path@ =~= tail);
            }
        }
        let segs = split_segments(path.as_slice());
        proof {
            assert(seq_views(segs@).skip(0) =~= split_path(path@));
        }
        match self.settings.with_set(&segs, 0, payload) {
            Result::Ok(candidate) => Some(Ok((path, candidate))),
            Result::Err(e) => Some(Err(e)),
        }
    }
}

} // verus!
