use room_relay::dispatch::{close_session, handle_request, Session};
use room_relay::protocol::{decode_client_request, encode_server_message, ServerMessage};
use room_relay::registry::Registry;
use room_relay::relay::{relay_bus_message, RelayBackoff, INITIAL_BACKOFF_MS, MAX_BACKOFF_MS};

#[test]
fn bus_message_fans_out_to_every_subscriber_once() {
    // client A and client B subscribe to the same room; a bus message for
    // that channel reaches both exactly once; after B leaves, only A
    let mut reg = Registry::new(16);
    let a = reg.subscribe("btc-2025");
    let b = reg.subscribe("btc-2025");
    relay_bus_message(&mut reg, "btc-2025", "{\"price\":100}");
    let got_a = reg.try_recv(&a).expect("A must receive");
    let got_b = reg.try_recv(&b).expect("B must receive");
    assert_eq!(got_a, "{\"price\":100}");
    assert_eq!(got_b, "{\"price\":100}");
    let out_a = encode_server_message(&ServerMessage {
        room: a.room.clone(),
        data: got_a,
    });
    assert_eq!(out_a, "{\"room\":\"btc-2025\",\"data\":\"{\\\"price\\\":100}\"}");
    // exactly once
    assert_eq!(reg.try_recv(&a), None);
    assert_eq!(reg.try_recv(&b), None);
    // B unsubscribes; the next publish is received only by A
    reg.unsubscribe(&b);
    relay_bus_message(&mut reg, "btc-2025", "{\"price\":101}");
    assert_eq!(reg.try_recv(&a).as_deref(), Some("{\"price\":101}"));
    assert_eq!(reg.try_recv(&b), None);
}

#[test]
fn send_message_delivers_locally_even_when_the_bus_is_down() {
    // a local subscriber of r1, and a sender session
    let mut reg = Registry::new(16);
    let local = reg.subscribe("r1");
    let mut sender = Session::new();
    let req = decode_client_request("{\"type\":\"SEND_MESSAGE\",\"payload\":{\"room\":\"r1\",\"message\":\"hi\"}}")
        .expect("frame must decode");
    let bus_forward = handle_request(&mut reg, &mut sender, &req);
    // local delivery already happened, before anything touches the bus
    assert_eq!(reg.try_recv(&local).as_deref(), Some("hi"));
    // the bus forward is owed separately; a failing bus publish is the
    // caller's to observe and cannot undo the local delivery, and the
    // sender session stays usable
    let b = bus_forward.expect("a bus forward is owed");
    assert_eq!(b.channel, "r1");
    assert_eq!(b.message, "hi");
    let req2 = decode_client_request("{\"type\":\"SUBSCRIBE\",\"payload\":{\"room\":\"r1\"}}")
        .expect("frame must decode");
    let none = handle_request(&mut reg, &mut sender, &req2);
    assert!(none.is_none());
    assert_eq!(reg.subscriber_count("r1"), 2);
}

#[test]
fn dispatch_subscribe_then_unsubscribe_round_trip() {
    let mut reg = Registry::new(16);
    let mut sess = Session::new();
    let sub = decode_client_request("{\"type\":\"SUBSCRIBE\",\"payload\":{\"room\":\"r\"}}").unwrap();
    assert!(handle_request(&mut reg, &mut sess, &sub).is_none());
    assert_eq!(sess.handles.len(), 1);
    assert_eq!(reg.subscriber_count("r"), 1);
    let unsub =
        decode_client_request("{\"type\":\"UNSUBSCRIBE\",\"payload\":{\"room\":\"r\"}}").unwrap();
    assert!(handle_request(&mut reg, &mut sess, &unsub).is_none());
    assert_eq!(sess.handles.len(), 0);
    assert!(!reg.room_exists("r"));
    // unsubscribing a room this session never joined is a no-op
    let unsub2 =
        decode_client_request("{\"type\":\"UNSUBSCRIBE\",\"payload\":{\"room\":\"other\"}}").unwrap();
    assert!(handle_request(&mut reg, &mut sess, &unsub2).is_none());
    assert_eq!(sess.handles.len(), 0);
}

#[test]
fn closing_a_session_releases_every_subscription_it_holds() {
    let mut reg = Registry::new(16);
    let mut sess = Session::new();
    let other = reg.subscribe("shared");
    for frame in [
        "{\"type\":\"SUBSCRIBE\",\"payload\":{\"room\":\"shared\"}}",
        "{\"type\":\"SUBSCRIBE\",\"payload\":{\"room\":\"own\"}}",
        "{\"type\":\"SUBSCRIBE\",\"payload\":{\"room\":\"own\"}}",
    ] {
        let req = decode_client_request(frame).unwrap();
        handle_request(&mut reg, &mut sess, &req);
    }
    assert_eq!(reg.subscriber_count("shared"), 2);
    assert_eq!(reg.subscriber_count("own"), 2);
    // the connection drops: every subscription it held is released
    close_session(&mut reg, &mut sess);
    assert_eq!(sess.handles.len(), 0);
    assert_eq!(reg.subscriber_count("shared"), 1);
    assert!(!reg.room_exists("own"));
    // the other session's subscription is untouched
    reg.publish("shared", "still here");
    assert_eq!(reg.try_recv(&other).as_deref(), Some("still here"));
}

#[test]
fn relay_backoff_doubles_to_a_cap_and_resets() {
    let mut b = RelayBackoff::new();
    assert_eq!(b.delay_ms, INITIAL_BACKOFF_MS);
    let mut expected: u64 = INITIAL_BACKOFF_MS;
    for _ in 0..12 {
        let d = b.next_delay();
        assert_eq!(d, expected);
        expected = if expected * 2 <= MAX_BACKOFF_MS { expected * 2 } else { MAX_BACKOFF_MS };
    }
    assert_eq!(b.delay_ms, MAX_BACKOFF_MS);
    assert_eq!(b.next_delay(), MAX_BACKOFF_MS);
    b.reset();
    assert_eq!(b.delay_ms, INITIAL_BACKOFF_MS);
}
