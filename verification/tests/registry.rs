use room_relay::registry::Registry;

#[test]
fn subscribe_creates_room() {
    let mut reg = Registry::new(16);
    assert!(!reg.room_exists("btc-2025"));
    assert_eq!(reg.subscriber_count("btc-2025"), 0);
    let h = reg.subscribe("btc-2025");
    assert!(reg.room_exists("btc-2025"));
    assert_eq!(reg.subscriber_count("btc-2025"), 1);
    assert_eq!(h.room, "btc-2025");
}

#[test]
fn room_exists_iff_count_positive() {
    // the room exists exactly while the net subscriber count is positive
    let mut reg = Registry::new(16);
    let h1 = reg.subscribe("r");
    let h2 = reg.subscribe("r");
    assert!(reg.room_exists("r") && reg.subscriber_count("r") == 2);
    reg.unsubscribe(&h1);
    assert!(reg.room_exists("r") && reg.subscriber_count("r") == 1);
    reg.unsubscribe(&h2);
    assert!(!reg.room_exists("r") && reg.subscriber_count("r") == 0);
    let h3 = reg.subscribe("r");
    assert!(reg.room_exists("r") && reg.subscriber_count("r") == 1);
    reg.unsubscribe(&h3);
    assert!(!reg.room_exists("r"));
}

#[test]
fn publish_delivers_to_all_subscribers_and_nobody_else() {
    let mut reg = Registry::new(16);
    let a = reg.subscribe("x");
    let b = reg.subscribe("x");
    let c = reg.subscribe("y");
    reg.publish("x", "hello");
    assert_eq!(reg.try_recv(&a).as_deref(), Some("hello"));
    assert_eq!(reg.try_recv(&b).as_deref(), Some("hello"));
    // each subscriber received it exactly once
    assert_eq!(reg.try_recv(&a), None);
    assert_eq!(reg.try_recv(&b), None);
    // a subscriber of another room received nothing
    assert_eq!(reg.try_recv(&c), None);
}

#[test]
fn publish_to_nonexistent_room_never_creates_it() {
    let mut reg = Registry::new(16);
    reg.publish("ghost", "payload");
    assert!(!reg.room_exists("ghost"));
    assert_eq!(reg.subscriber_count("ghost"), 0);
    // even with other rooms active
    let _h = reg.subscribe("real");
    reg.publish("ghost", "payload");
    assert!(!reg.room_exists("ghost"));
    assert!(reg.room_exists("real"));
}

#[test]
fn extra_unsubscribes_are_noops() {
    let mut reg = Registry::new(16);
    let h = reg.subscribe("r");
    reg.unsubscribe(&h);
    assert_eq!(reg.subscriber_count("r"), 0);
    // more unsubscribes than subscribes: count stays at zero, nothing panics
    reg.unsubscribe(&h);
    reg.unsubscribe(&h);
    assert_eq!(reg.subscriber_count("r"), 0);
    assert!(!reg.room_exists("r"));
}

#[test]
fn unsubscribing_a_room_never_subscribed_is_a_noop() {
    let mut reg = Registry::new(16);
    let h_other = reg.subscribe("a");
    // a handle whose room does not exist at all
    let stale = room_relay::registry::SubscriberHandle { room: String::from("nowhere"), id: 77 };
    reg.unsubscribe(&stale);
    assert!(reg.room_exists("a"));
    assert_eq!(reg.subscriber_count("a"), 1);
    // a handle for an existing room but an id the room does not hold
    let stale2 = room_relay::registry::SubscriberHandle { room: String::from("a"), id: 77 };
    reg.unsubscribe(&stale2);
    assert_eq!(reg.subscriber_count("a"), 1);
    reg.unsubscribe(&h_other);
    assert!(!reg.room_exists("a"));
}

#[test]
fn many_subscribes_one_room_counted_per_call() {
    let mut reg = Registry::new(16);
    let mut handles = Vec::new();
    for _ in 0..5 {
        handles.push(reg.subscribe("popular"));
    }
    // exactly one room entry, count equal to the number of calls
    assert!(reg.room_exists("popular"));
    assert_eq!(reg.subscriber_count("popular"), 5);
    // the same client subscribing twice counts twice; all handles are distinct
    for i in 0..handles.len() {
        for j in (i + 1)..handles.len() {
            assert_ne!(handles[i].id, handles[j].id);
        }
    }
    for h in &handles {
        reg.unsubscribe(h);
    }
    assert!(!reg.room_exists("popular"));
}

#[test]
fn slow_subscriber_drops_only_its_own_oldest() {
    let mut reg = Registry::new(2);
    let slow = reg.subscribe("r");
    let fast = reg.subscribe("r");
    reg.publish("r", "m1");
    // the fast subscriber keeps up
    assert_eq!(reg.try_recv(&fast).as_deref(), Some("m1"));
    reg.publish("r", "m2");
    reg.publish("r", "m3");
    // the slow mailbox overflowed: its oldest undelivered payload is gone
    assert_eq!(reg.try_recv(&slow).as_deref(), Some("m2"));
    assert_eq!(reg.try_recv(&slow).as_deref(), Some("m3"));
    assert_eq!(reg.try_recv(&slow), None);
    // the fast subscriber was not affected by the slow one's overflow
    assert_eq!(reg.try_recv(&fast).as_deref(), Some("m2"));
    assert_eq!(reg.try_recv(&fast).as_deref(), Some("m3"));
}

#[test]
fn mailboxes_are_independent() {
    let mut reg = Registry::new(16);
    let a = reg.subscribe("r");
    let b = reg.subscribe("r");
    reg.publish("r", "p");
    // one subscriber draining does not consume the other's copy
    assert_eq!(reg.try_recv(&a).as_deref(), Some("p"));
    assert_eq!(reg.try_recv(&b).as_deref(), Some("p"));
}

#[test]
fn messages_arrive_in_publish_order() {
    let mut reg = Registry::new(16);
    let h = reg.subscribe("r");
    reg.publish("r", "first");
    reg.publish("r", "second");
    reg.publish("r", "third");
    assert_eq!(reg.try_recv(&h).as_deref(), Some("first"));
    assert_eq!(reg.try_recv(&h).as_deref(), Some("second"));
    assert_eq!(reg.try_recv(&h).as_deref(), Some("third"));
    assert_eq!(reg.try_recv(&h), None);
}

#[test]
fn room_names_are_case_sensitive_and_exact() {
    let mut reg = Registry::new(16);
    let _h = reg.subscribe("Room");
    assert!(reg.room_exists("Room"));
    assert!(!reg.room_exists("room"));
    assert!(!reg.room_exists("Room "));
    reg.publish("room", "p");
    assert!(!reg.room_exists("room"));
}
