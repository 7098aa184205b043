use forwarder::fanout::Fanout;
use forwarder::registry::{ConnectionRegistry, ORIGIN_CAP};
use forwarder::relay::Relay;
use forwarder::supervisor::{supervisor_step, ConnAction, ConnEvent, ConnPhase};

fn sub_two() -> &'static str {
    "{\"method\":\"sub\",\"resources\":[\"x\",\"y\"]}"
}

#[test]
fn per_origin_cap_rejects_eleventh() {
    assert_eq!(ORIGIN_CAP, 10);
    let mut relay = Relay::new();
    let origin = String::from("10.0.0.1");
    let mut ids = Vec::new();
    for _ in 0..10 {
        let id = relay.accept(origin.clone());
        assert!(id.is_some());
        ids.push(id.unwrap());
    }
    assert_eq!(relay.origin_count_now(&origin), 10);
    // The 11th concurrent attempt from the same origin is rejected.
    assert!(relay.accept(origin.clone()).is_none());
    // A different origin is unaffected.
    assert!(relay.accept(String::from("10.0.0.2")).is_some());
    // Once one connection from the origin ends, admission works again.
    relay.teardown(ids[0]);
    assert_eq!(relay.origin_count_now(&origin), 9);
    assert!(relay.accept(origin.clone()).is_some());
}

#[test]
fn scenario_sub_publish_unsub() {
    let mut relay = Relay::new();
    let a = relay.accept(String::from("10.0.0.1")).unwrap();
    let resp = relay.handle_message(a, sub_two()).unwrap();
    assert_eq!(resp.status, "ok");
    assert_eq!(resp.message, "Subscribed successfully");
    let frame = forwarder::protocol::encode_response(&resp);
    assert_eq!(frame, "{\"status\":\"ok\",\"message\":\"Subscribed successfully\"}");

    relay.publish(&String::from("hello"));
    // The published message reaches A's outbound path verbatim.
    assert_eq!(relay.next_outbound(a).unwrap(), "hello");
    assert!(relay.next_outbound(a).is_none());

    let resp = relay
        .handle_message(a, "{\"method\":\"unsub\",\"resources\":[\"x\"]}")
        .unwrap();
    assert_eq!(resp.status, "ok");
    assert_eq!(resp.message, "Unsubscribed successfully");
    // "x" no longer lists A, and its vacated entry is gone entirely.
    assert!(!relay.is_subscribed(a, &String::from("x")));
    assert!(!relay.has_resource(&String::from("x")));
    // "y" still lists A.
    assert!(relay.is_subscribed(a, &String::from("y")));
    assert!(relay.has_resource(&String::from("y")));
}

#[test]
fn subscribe_idempotent_and_unsub_noop() {
    let mut relay = Relay::new();
    let a = relay.accept(String::from("10.0.0.1")).unwrap();
    let one = "{\"method\":\"sub\",\"resources\":[\"x\"]}";
    relay.handle_message(a, one).unwrap();
    relay.handle_message(a, one).unwrap();
    assert!(relay.is_subscribed(a, &String::from("x")));
    // Unsubscribing once removes the single entry the two subs left.
    relay
        .handle_message(a, "{\"method\":\"unsub\",\"resources\":[\"x\"]}")
        .unwrap();
    assert!(!relay.is_subscribed(a, &String::from("x")));
    assert!(!relay.has_resource(&String::from("x")));
    // Unsubscribing from a resource never subscribed to is a safe no-op
    // with the same success acknowledgement.
    let resp = relay
        .handle_message(a, "{\"method\":\"unsub\",\"resources\":[\"nope\"]}")
        .unwrap();
    assert_eq!(resp.status, "ok");
    assert_eq!(resp.message, "Unsubscribed successfully");
}

#[test]
fn teardown_cascade_prunes_everything() {
    let mut relay = Relay::new();
    let a = relay.accept(String::from("10.0.0.1")).unwrap();
    let b = relay.accept(String::from("10.0.0.2")).unwrap();
    relay
        .handle_message(a, "{\"method\":\"sub\",\"resources\":[\"shared\",\"mine\"]}")
        .unwrap();
    relay
        .handle_message(b, "{\"method\":\"sub\",\"resources\":[\"shared\"]}")
        .unwrap();
    relay.teardown(a);
    assert!(!relay.is_alive(a));
    assert!(relay.is_alive(b));
    // A's id is gone from every resource it was subscribed to.
    assert!(!relay.is_subscribed(a, &String::from("shared")));
    assert!(!relay.is_subscribed(a, &String::from("mine")));
    // Fully-vacated entries are removed; shared survives through B.
    assert!(!relay.has_resource(&String::from("mine")));
    assert!(relay.has_resource(&String::from("shared")));
    assert!(relay.is_subscribed(b, &String::from("shared")));
    // Teardown is idempotent.
    relay.teardown(a);
    assert!(!relay.is_alive(a));
    // A message from a torn-down client is dropped silently.
    assert!(relay.handle_message(a, sub_two()).is_none());
}

#[test]
fn fanout_reaches_all_active_clients_in_order() {
    let mut relay = Relay::new();
    let a = relay.accept(String::from("10.0.0.1")).unwrap();
    let b = relay.accept(String::from("10.0.0.2")).unwrap();
    let c = relay.accept(String::from("10.0.0.3")).unwrap();
    relay.publish(&String::from("first"));
    relay.publish(&String::from("second"));
    for id in [a, b, c] {
        assert_eq!(relay.next_outbound(id).unwrap(), "first");
        assert_eq!(relay.next_outbound(id).unwrap(), "second");
        assert!(relay.next_outbound(id).is_none());
    }
    // A receiver created after a publish does not replay history.
    let d = relay.accept(String::from("10.0.0.4")).unwrap();
    assert!(relay.next_outbound(d).is_none());
    relay.publish(&String::from("third"));
    assert_eq!(relay.next_outbound(d).unwrap(), "third");
    assert_eq!(relay.next_outbound(a).unwrap(), "third");
}

#[test]
fn fanout_standalone_queues() {
    let mut fan = Fanout::new();
    fan.attach(1);
    fan.attach(2);
    fan.publish(&String::from("m1"));
    fan.attach(3);
    fan.publish(&String::from("m2"));
    assert_eq!(fan.pending_count(1), 2);
    assert_eq!(fan.pending_count(3), 1);
    assert_eq!(fan.pop_next(1).unwrap(), "m1");
    assert_eq!(fan.pop_next(1).unwrap(), "m2");
    assert!(fan.pop_next(1).is_none());
    fan.detach(2);
    assert_eq!(fan.pending_count(2), 0);
    assert!(fan.pop_next(2).is_none());
}

#[test]
fn keepalive_unknown_and_malformed() {
    let mut relay = Relay::new();
    let a = relay.accept(String::from("10.0.0.1")).unwrap();
    let resp = relay.handle_message(a, "{\"method\":\"keepalive\"}").unwrap();
    assert_eq!(resp.status, "ok");
    assert_eq!(resp.message, "Keepalive received");
    let resp = relay.handle_message(a, "{\"method\":\"frobnicate\"}").unwrap();
    assert_eq!(resp.status, "error");
    assert_eq!(resp.message, "Unknown method");
    // Malformed input is dropped silently: no response, no state change.
    assert!(relay.handle_message(a, "not json at all").is_none());
    assert!(relay.handle_message(a, "{\"method\":42}").is_none());
    // A sub without a resource list falls through unanswered.
    assert!(relay.handle_message(a, "{\"method\":\"sub\"}").is_none());
    assert!(relay.is_alive(a));
}

#[test]
fn registry_direct() {
    let mut reg = ConnectionRegistry::new();
    let origin = String::from("203.0.113.9");
    let id = reg.accept(origin.clone()).unwrap();
    assert!(reg.is_alive(id));
    assert_eq!(reg.origin_count_now(&origin), 1);
    // Identifiers are unique across admissions.
    let id2 = reg.accept(origin.clone()).unwrap();
    assert_ne!(id, id2);
    let removed = reg.remove(id).unwrap();
    assert_eq!(removed.id, id);
    assert_eq!(removed.ip, "203.0.113.9");
    assert!(!reg.is_alive(id));
    // Removal is idempotent.
    assert!(reg.remove(id).is_none());
    assert_eq!(reg.origin_count_now(&origin), 1);
}

#[test]
fn supervisor_lifecycle() {
    let (p, a) = supervisor_step(ConnPhase::Connecting, ConnEvent::AdmissionGranted);
    assert_eq!(p, ConnPhase::Admitted);
    assert_eq!(a, ConnAction::StartListener);
    let (p, a) = supervisor_step(p, ConnEvent::ListenerStarted);
    assert_eq!(p, ConnPhase::Active);
    assert_eq!(a, ConnAction::KeepReading);
    let (p, a) = supervisor_step(p, ConnEvent::InboundText);
    assert_eq!(p, ConnPhase::Active);
    assert_eq!(a, ConnAction::HandleThenCheckAlive);
    let (p, a) = supervisor_step(p, ConnEvent::InboundReadError);
    assert_eq!(p, ConnPhase::Active);
    assert_eq!(a, ConnAction::KeepReading);
    let (p, a) = supervisor_step(p, ConnEvent::StreamEnded);
    assert_eq!(p, ConnPhase::Closing);
    assert_eq!(a, ConnAction::RunTeardown);
    let (p, a) = supervisor_step(p, ConnEvent::CleanupDone);
    assert_eq!(p, ConnPhase::Closed);
    assert_eq!(a, ConnAction::CloseSilently);
}

#[test]
fn supervisor_rejection_closes_silently() {
    // The 11th connection attempt is closed with no acknowledgement frame:
    // rejection jumps straight to Closed and only closes the transport.
    let (p, a) = supervisor_step(ConnPhase::Connecting, ConnEvent::AdmissionRejected);
    assert_eq!(p, ConnPhase::Closed);
    assert_eq!(a, ConnAction::CloseSilently);
    // Nothing happens from Closed.
    let (p, a) = supervisor_step(p, ConnEvent::InboundText);
    assert_eq!(p, ConnPhase::Closed);
    assert_eq!(a, ConnAction::DoNothing);
}
