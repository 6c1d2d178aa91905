use swarm_core::pubsub::{PubSubEngine, Outcome, SEEN_CACHE_CAPACITY};

fn b(s: &str) -> Vec<u8> {
    s.as_bytes().to_vec()
}

#[test]
fn identical_payloads_yield_equal_message_ids() {
    let mut ps = PubSubEngine::new(1, false);
    let (mid1, _) = ps.publish(&b("chat"), &b("hello"));
    let (mid2, _) = ps.publish(&b("chat"), &b("hello"));
    assert_eq!(mid1, mid2);
    let (mid3, _) = ps.publish(&b("chat"), &b("other"));
    assert_ne!(mid1, mid3);
}

#[test]
fn second_network_delivery_of_same_message_is_duplicate() {
    let mut ps = PubSubEngine::new(1, false);
    ps.subscribe(b("chat"));
    let (out1, _) = ps.on_network_message(7, &b("chat"), &b("hello"), true);
    assert!(matches!(out1, Outcome::Delivered { .. }));
    let (out2, _) = ps.on_network_message(7, &b("chat"), &b("hello"), true);
    assert!(matches!(out2, Outcome::Duplicate));
}

#[test]
fn published_message_arriving_back_is_duplicate() {
    // publishing inserts into the seen cache before returning, so the same
    // raw message delivered back from the network is suppressed
    let mut ps = PubSubEngine::new(1, false);
    ps.subscribe(b("chat"));
    let (_, _) = ps.publish(&b("chat"), &b("hello"));
    let (out, targets) = ps.on_network_message(7, &b("chat"), &b("hello"), true);
    assert!(matches!(out, Outcome::Duplicate));
    assert!(targets.is_empty());
}

#[test]
fn not_subscribed_is_reported_but_still_forwarded() {
    let mut ps = PubSubEngine::new(1, false);
    ps.add_peer(2);
    ps.add_peer(3);
    ps.add_peer(4);
    ps.on_remote_subscribe(2, b("chat"));
    ps.on_remote_subscribe(3, b("chat"));
    // no local subscription to "chat"
    let (out, targets) = ps.on_network_message(2, &b("chat"), &b("hello"), true);
    assert!(matches!(out, Outcome::NotSubscribed));
    // forwarded to the other interested peer, but never back to the source
    assert_eq!(targets, vec![3]);
}

#[test]
fn delivered_exactly_once_across_parallel_paths() {
    // node A publishes "hello" on "chat"; node B, subscribed and connected
    // to A twice over, sees the same raw message arrive on both paths and
    // delivers it exactly once
    let mut a = PubSubEngine::new(1, false);
    a.add_peer(2);
    a.on_remote_subscribe(2, b("chat"));
    let (_, targets) = a.publish(&b("chat"), &b("hello"));
    assert_eq!(targets, vec![2]);

    let mut bnode = PubSubEngine::new(2, false);
    bnode.subscribe(b("chat"));
    let mut delivered = 0;
    for _path in 0..2 {
        let (out, _) = bnode.on_network_message(1, &b("chat"), &b("hello"), true);
        if let Outcome::Delivered { topic, payload } = out {
            assert_eq!(topic, b("chat"));
            assert_eq!(payload, b("hello"));
            delivered += 1;
        }
    }
    assert_eq!(delivered, 1);
}

#[test]
fn unauthenticated_message_is_dropped_everywhere() {
    let mut ps = PubSubEngine::new(1, false);
    ps.subscribe(b("chat"));
    ps.add_peer(3);
    ps.on_remote_subscribe(3, b("chat"));
    let (out, targets) = ps.on_network_message(2, &b("chat"), &b("hello"), false);
    assert!(matches!(out, Outcome::Unauthenticated));
    assert!(targets.is_empty());
    // not recorded as seen either: a verified copy is still deliverable
    let (out2, _) = ps.on_network_message(2, &b("chat"), &b("hello"), true);
    assert!(matches!(out2, Outcome::Delivered { .. }));
}

#[test]
fn signed_mode_separates_publishers() {
    let mut ps = PubSubEngine::new(1, true);
    ps.subscribe(b("chat"));
    let (out1, _) = ps.on_network_message(7, &b("chat"), &b("hello"), true);
    assert!(matches!(out1, Outcome::Delivered { .. }));
    // same payload from a different publisher: a different identifier
    let (out2, _) = ps.on_network_message(8, &b("chat"), &b("hello"), true);
    assert!(matches!(out2, Outcome::Delivered { .. }));
    let (out3, _) = ps.on_network_message(7, &b("chat"), &b("hello"), true);
    assert!(matches!(out3, Outcome::Duplicate));
}

#[test]
fn seen_cache_is_bounded_and_evicts_oldest_first() {
    let mut ps = PubSubEngine::new(1, false);
    ps.subscribe(b("t"));
    let (first, _) = ps.on_network_message(2, &b("t"), &b("msg0"), true);
    assert!(matches!(first, Outcome::Delivered { .. }));
    for i in 1..=SEEN_CACHE_CAPACITY {
        let payload = format!("msg{}", i).into_bytes();
        ps.on_network_message(2, &b("t"), &payload, true);
        assert!(ps.seen.len() <= SEEN_CACHE_CAPACITY);
    }
    // the oldest identifier was evicted: msg0 is deliverable again
    let (again, _) = ps.on_network_message(2, &b("t"), &b("msg0"), true);
    assert!(matches!(again, Outcome::Delivered { .. }));
}

#[test]
fn unsubscribe_stops_delivery_but_not_forwarding() {
    let mut ps = PubSubEngine::new(1, false);
    ps.subscribe(b("chat"));
    ps.unsubscribe(&b("chat"));
    ps.add_peer(3);
    ps.on_remote_subscribe(3, b("chat"));
    let (out, targets) = ps.on_network_message(2, &b("chat"), &b("hello"), true);
    assert!(matches!(out, Outcome::NotSubscribed));
    assert_eq!(targets, vec![3]);
}

#[test]
fn removed_peer_is_no_forwarding_target() {
    let mut ps = PubSubEngine::new(1, false);
    ps.add_peer(3);
    ps.on_remote_subscribe(3, b("chat"));
    ps.remove_peer(3);
    let (_, targets) = ps.publish(&b("chat"), &b("hello"));
    assert!(targets.is_empty());
}
