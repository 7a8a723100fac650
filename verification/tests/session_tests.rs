use miniconf::client::{MqttClient, TickAction};
use miniconf::session::State;
use miniconf::tree::{Field, Leaf, Node, ValueKind};

fn small_tree() -> Node {
    Node::Record(vec![
        Field {
            name: b"gain".to_vec(),
            node: Node::Leaf(Leaf { kind: ValueKind::Number, value: b"1".to_vec() }),
        },
        Field {
            name: b"mode".to_vec(),
            node: Node::Leaf(Leaf {
                kind: ValueKind::Choice(vec![b"\"A\"".to_vec(), b"\"B\"".to_vec()]),
                value: b"\"A\"".to_vec(),
            }),
        },
    ])
}

#[test]
fn session_trace() {
    let mut c = MqttClient::new(b"sample/prefix", small_tree());
    // Disconnected: every tick resets to the initial state.
    assert_eq!(c.handled_update(false, 0), TickAction::Idle);
    assert_eq!(c.state(), State::Initial);
    // The transport connects.
    assert_eq!(c.handled_update(true, 0), TickAction::Idle);
    assert_eq!(c.state(), State::ConnectedToBroker);
    // Announce liveness, retained, on `<prefix>/alive`.
    assert_eq!(c.handled_update(true, 0), TickAction::PublishAlive);
    assert_eq!(c.alive_topic(), b"sample/prefix/alive".to_vec());
    c.on_alive_published(0);
    assert_eq!(c.state(), State::PendingSubscribe);
    // Subscribe to the settings namespace.
    assert_eq!(c.handled_update(true, 0), TickAction::Subscribe);
    assert_eq!(c.subscribe_topic(), b"sample/prefix/settings/#".to_vec());
    c.on_subscribed(0);
    assert_eq!(c.state(), State::PendingRepublish);
    // Before the timeout nothing happens.
    assert_eq!(c.handled_update(true, 1000), TickAction::Idle);
    assert_eq!(c.state(), State::PendingRepublish);
    // Two seconds later the republish pass begins.
    assert_eq!(c.handled_update(true, 2001), TickAction::Idle);
    assert_eq!(c.state(), State::RepublishingSettings);
    assert_eq!(c.handled_update(true, 2002), TickAction::Republish);
    // Each leaf is handed out once, in enumeration order.
    let (t1, v1) = c.republish_next(true).unwrap();
    assert_eq!(t1, b"sample/prefix/settings/gain".to_vec());
    assert_eq!(v1, b"1".to_vec());
    let (t2, v2) = c.republish_next(true).unwrap();
    assert_eq!(t2, b"sample/prefix/settings/mode".to_vec());
    assert_eq!(v2, b"\"A\"".to_vec());
    assert!(c.republish_next(true).is_none());
    assert_eq!(c.state(), State::Active);
    assert_eq!(c.handled_update(true, 3000), TickAction::Idle);
}

#[test]
fn republish_respects_backpressure() {
    let mut c = MqttClient::new(b"p", small_tree());
    c.handled_update(true, 0);
    c.handled_update(true, 0);
    c.on_alive_published(0);
    c.on_subscribed(0);
    c.handled_update(true, 2001);
    assert_eq!(c.state(), State::RepublishingSettings);
    // The transport refuses: nothing moves, no path is lost.
    assert!(c.republish_next(false).is_none());
    assert_eq!(c.state(), State::RepublishingSettings);
    let (t1, _) = c.republish_next(true).unwrap();
    assert_eq!(t1, b"p/settings/gain".to_vec());
    // Refused again mid-pass: the pass resumes exactly where it left off.
    assert!(c.republish_next(false).is_none());
    let (t2, _) = c.republish_next(true).unwrap();
    assert_eq!(t2, b"p/settings/mode".to_vec());
    assert!(c.republish_next(true).is_none());
    assert_eq!(c.state(), State::Active);
}

#[test]
fn force_republish_rewinds() {
    let mut c = MqttClient::new(b"p", small_tree());
    c.handled_update(true, 0);
    c.handled_update(true, 0);
    c.on_alive_published(0);
    c.on_subscribed(0);
    c.handled_update(true, 2001);
    while c.republish_next(true).is_some() {}
    assert_eq!(c.state(), State::Active);
    c.force_republish(3000);
    assert_eq!(c.state(), State::RepublishingSettings);
    let (t, _) = c.republish_next(true).unwrap();
    assert_eq!(t, b"p/settings/gain".to_vec());
}

#[test]
fn inbound_set_and_responses() {
    let mut c = MqttClient::new(b"p", small_tree());
    // A topic outside the settings namespace is dropped.
    assert!(c.update(b"other/topic", b"1").is_none());
    // A good set is applied and acknowledged.
    let (updated, resp) = c.update(b"p/settings/mode", b"\"B\"").unwrap();
    assert!(updated);
    assert_eq!(resp, b"{\"code\":0}".to_vec());
    let mut buf = vec![0u8; 16];
    let n = c.settings().get(b"mode", &mut buf).unwrap();
    assert_eq!(&buf[..n], b"\"B\"");
    // A bad value is rejected, the tree unchanged, the reason named.
    let (updated, resp) = c.update(b"p/settings/mode", b"\"C\"").unwrap();
    assert!(!updated);
    assert_eq!(resp, b"{\"code\":5,\"msg\":\"DecodeError\"}".to_vec());
    let n = c.settings().get(b"mode", &mut buf).unwrap();
    assert_eq!(&buf[..n], b"\"B\"");
    // An unknown field is rejected with its own reason.
    let (updated, resp) = c.update(b"p/settings/nope", b"1").unwrap();
    assert!(!updated);
    assert_eq!(resp, b"{\"code\":4,\"msg\":\"MissingField\"}".to_vec());
    // The default response topic.
    assert_eq!(c.response_topic(), b"p/log".to_vec());
}

#[test]
fn disconnect_resets_mid_republish() {
    let mut c = MqttClient::new(b"p", small_tree());
    c.handled_update(true, 0);
    c.handled_update(true, 0);
    c.on_alive_published(0);
    c.on_subscribed(0);
    c.handled_update(true, 2001);
    let _ = c.republish_next(true);
    // A disconnect at any state forces a reset.
    assert_eq!(c.handled_update(false, 2002), TickAction::Idle);
    assert_eq!(c.state(), State::Initial);
}

#[test]
fn atomic_root_update() {
    // An empty path tail addresses the root, which works when it is atomic.
    let root = Node::Atomic(miniconf::tree::Leaf {
        kind: ValueKind::Opaque,
        value: b"{\"gain\":1}".to_vec(),
    });
    let mut c = MqttClient::new(b"p", root);
    let (updated, resp) = c.update(b"p/settings", b"{\"gain\":2}").unwrap();
    assert!(updated);
    assert_eq!(resp, b"{\"code\":0}".to_vec());
    let mut buf = vec![0u8; 32];
    let n = c.settings().get(b"", &mut buf).unwrap();
    assert_eq!(&buf[..n], b"{\"gain\":2}");
}

#[test]
fn propose_then_reject_or_adopt() {
    let mut c = MqttClient::new(b"p", small_tree());
    // Off-namespace proposals are dropped.
    assert!(c.propose_set(b"x/settings/gain", b"2").is_none());
    // A failing set is reported without touching the tree.
    match c.propose_set(b"p/settings/gain", b"bad").unwrap() {
        Err(e) => assert_eq!(e, miniconf::Error::DecodeError),
        Ok(_) => panic!("a bad value must not decode"),
    }
    // A decodable set yields the path and the candidate; the live tree is
    // untouched until the host adopts.
    let (path, candidate) = c.propose_set(b"p/settings/gain", b"2").unwrap().unwrap();
    assert_eq!(path, b"gain".to_vec());
    let mut buf = vec![0u8; 8];
    let n = candidate.get(b"gain", &mut buf).unwrap();
    assert_eq!(&buf[..n], b"2");
    let n = c.settings().get(b"gain", &mut buf).unwrap();
    assert_eq!(&buf[..n], b"1");
    // The host rejects: the published reason carries its text, escaped.
    let resp = miniconf::client::rejection_response(b"too \"high\"");
    assert_eq!(
        resp,
        b"{\"code\":7,\"msg\":\"too \\\"high\\\"\"}".to_vec()
    );
    let n = c.settings().get(b"gain", &mut buf).unwrap();
    assert_eq!(&buf[..n], b"1");
    // The host accepts: the same deterministic set is applied.
    let (updated, resp) = c.update(b"p/settings/gain", b"2").unwrap();
    assert!(updated);
    assert_eq!(resp, b"{\"code\":0}".to_vec());
    let n = c.settings().get(b"gain", &mut buf).unwrap();
    assert_eq!(&buf[..n], b"2");
}

#[test]
fn liveness_markers() {
    let c = MqttClient::new(b"p", small_tree());
    let alive = c.alive_message();
    assert_eq!(alive.topic, b"p/alive".to_vec());
    assert_eq!(alive.payload, b"1".to_vec());
    assert!(alive.retained);
    let offline = c.offline_message();
    assert_eq!(offline.topic, b"p/alive".to_vec());
    assert_eq!(offline.payload, b"0".to_vec());
    assert!(offline.retained);
}
