use swarm_core::composer::{Action, BehaviourComposer, Command, Event};
use swarm_core::pubsub::Outcome;
use swarm_core::query::{QueryEvent, QueryOutcome, Response, QUERY_TIMEOUT};

fn b(s: &str) -> Vec<u8> {
    s.as_bytes().to_vec()
}

fn empty_response() -> Response {
    Response { closer_peers: Vec::new(), value: None, providers: Vec::new(), ack: false }
}

#[test]
fn put_then_get_through_commands_on_empty_network() {
    let mut node = BehaviourComposer::new(1, false);
    let (events, actions) = node.handle_command(
        Command::PutRecord { key: b("key1"), value: b("value1"), quorum: 1 },
        0,
    );
    assert!(actions.is_empty());
    assert_eq!(events.len(), 1);
    match &events[0] {
        Event::Query { event: QueryEvent::Completed { outcome: QueryOutcome::PutConfirmed, .. } } => {}
        _ => panic!("expected an immediate put confirmation"),
    }
    let (events2, actions2) =
        node.handle_command(Command::GetRecord { key: b("key1"), quorum: 1 }, 1);
    assert!(actions2.is_empty());
    assert_eq!(events2.len(), 1);
    match &events2[0] {
        Event::Query {
            event: QueryEvent::Completed { outcome: QueryOutcome::FoundRecords(rs), .. },
        } => {
            assert_eq!(rs.len(), 1);
            assert_eq!(rs[0].value, b("value1"));
        }
        _ => panic!("expected the locally stored record"),
    }
}

#[test]
fn get_nonexistent_on_empty_network_terminates_not_found() {
    let mut node = BehaviourComposer::new(1, false);
    let (events, actions) =
        node.handle_command(Command::GetRecord { key: b("nonexistent"), quorum: 1 }, 0);
    assert!(actions.is_empty());
    assert_eq!(events.len(), 1);
    match &events[0] {
        Event::Query { event: QueryEvent::Completed { outcome: QueryOutcome::NotFound, .. } } => {}
        _ => panic!("expected an immediate not-found"),
    }
}

#[test]
fn queries_go_to_the_closest_known_peers() {
    let mut node = BehaviourComposer::new(1, false);
    for p in [100u64, 200, 300, 400] {
        node.on_connection_established(p, b("/addr"), 0);
    }
    let (events, actions) =
        node.handle_command(Command::GetRecord { key: b("k"), quorum: 1 }, 1);
    assert!(events.is_empty());
    // the fan-out is three: three lookup requests, one per seed
    assert_eq!(actions.len(), 3);
    for a in &actions {
        assert!(matches!(a, Action::SendQuery { .. }));
    }
}

#[test]
fn answer_updates_routing_and_completes_the_query() {
    let mut node = BehaviourComposer::new(1, false);
    node.on_connection_established(100, b("/addr"), 0);
    let (_, actions) = node.handle_command(Command::GetRecord { key: b("k"), quorum: 1 }, 1);
    let id = match actions[0] {
        Action::SendQuery { query_id, peer, .. } => {
            assert_eq!(peer, 100);
            query_id
        }
        _ => panic!("expected a lookup request"),
    };
    let answer = Response {
        closer_peers: vec![555],
        value: Some(b("v")),
        providers: Vec::new(),
        ack: false,
    };
    let (events, actions2) = node.on_query_answer(id, 100, b("/addr"), answer, 2);
    assert!(actions2.is_empty());
    assert_eq!(events.len(), 1);
    match &events[0] {
        Event::Query {
            event: QueryEvent::Completed { outcome: QueryOutcome::FoundRecords(rs), .. },
        } => assert_eq!(rs[0].value, b("v")),
        _ => panic!("expected the fetched record"),
    }
    // the answering contact was refreshed in the routing table
    assert!(node.routing.contains(100));
}

#[test]
fn local_quorum_of_one_wins_even_with_peers_known() {
    // the local phase meets a quorum of one, so the query is decided on the
    // spot and no peer is contacted, although the routing table knows some
    let mut node = BehaviourComposer::new(1, false);
    node.on_connection_established(100, b("/addr"), 0);
    let (ev_put, act_put) =
        node.handle_command(Command::PutRecord { key: b("k"), value: b("v"), quorum: 1 }, 1);
    assert_eq!(ev_put.len(), 1);
    assert!(act_put.is_empty());
    let (ev_get, act_get) = node.handle_command(Command::GetRecord { key: b("k"), quorum: 1 }, 2);
    assert!(act_get.is_empty());
    match &ev_get[0] {
        Event::Query {
            event: QueryEvent::Completed { outcome: QueryOutcome::FoundRecords(rs), .. },
        } => assert_eq!(rs[0].value, b("v")),
        _ => panic!("expected the local record without any lookup"),
    }
}

#[test]
fn stray_answers_change_nothing() {
    let mut node = BehaviourComposer::new(1, false);
    node.on_connection_established(100, b("/addr"), 0);
    // an answer for a query that never existed
    let (events, actions) = node.on_query_answer(77, 100, b("/addr"), empty_response(), 1);
    assert!(events.is_empty());
    assert!(actions.is_empty());
    // an answer from a peer the query is not awaiting
    let (_, acts) = node.handle_command(Command::GetRecord { key: b("k"), quorum: 1 }, 2);
    let id = match acts[0] {
        Action::SendQuery { query_id, .. } => query_id,
        _ => panic!("expected a lookup request"),
    };
    let (events2, actions2) = node.on_query_answer(id, 555, b("/x"), empty_response(), 3);
    assert!(events2.is_empty());
    assert!(actions2.is_empty());
}

#[test]
fn tick_times_out_overdue_queries_exactly_once() {
    let mut node = BehaviourComposer::new(1, false);
    node.on_connection_established(100, b("/addr"), 0);
    let (_, actions) = node.handle_command(Command::GetRecord { key: b("k"), quorum: 1 }, 10);
    assert_eq!(actions.len(), 1);
    assert!(node.handle_tick(10 + QUERY_TIMEOUT).is_empty());
    let events = node.handle_tick(10 + QUERY_TIMEOUT + 1);
    assert_eq!(events.len(), 1);
    assert!(matches!(
        events[0],
        Event::Query { event: QueryEvent::TimedOut { .. } }
    ));
    assert!(node.handle_tick(10 + QUERY_TIMEOUT + 1).is_empty());
}

#[test]
fn publish_forwards_to_interested_peers_and_reports_the_id() {
    let mut node = BehaviourComposer::new(1, false);
    node.on_connection_established(2, b("/a"), 0);
    node.on_connection_established(3, b("/b"), 0);
    node.on_remote_subscribe(2, b("chat"));
    let (events, actions) =
        node.handle_command(Command::Publish { topic: b("chat"), payload: b("hello") }, 1);
    assert_eq!(events.len(), 1);
    let mid1 = match &events[0] {
        Event::Published { topic, message_id } => {
            assert_eq!(topic, &b("chat"));
            *message_id
        }
        _ => panic!("expected a published event"),
    };
    assert_eq!(actions.len(), 1);
    match &actions[0] {
        Action::ForwardMessage { peer, topic, payload } => {
            assert_eq!(*peer, 2);
            assert_eq!(topic, &b("chat"));
            assert_eq!(payload, &b("hello"));
        }
        _ => panic!("expected a forward"),
    }
    // identical payload again: the identifier is the same (unsigned mode)
    let (events2, _) =
        node.handle_command(Command::Publish { topic: b("chat"), payload: b("hello") }, 2);
    match &events2[0] {
        Event::Published { message_id, .. } => assert_eq!(*message_id, mid1),
        _ => panic!("expected a published event"),
    }
}

#[test]
fn discovery_registers_and_expiry_removes_only_the_partial_view() {
    let mut node = BehaviourComposer::new(1, false);
    let ev = node.on_peer_discovered(7, b("/local-net"), 0);
    assert!(matches!(ev, Event::Discovered { peer: 7 }));
    node.on_remote_subscribe(7, b("chat"));
    let (_, actions) =
        node.handle_command(Command::Publish { topic: b("chat"), payload: b("x") }, 1);
    assert_eq!(actions.len(), 1);
    // expiry: no longer a forwarding target, but the routing entry stays
    let ev2 = node.on_peer_expired(7);
    assert!(matches!(ev2, Event::Expired { peer: 7 }));
    let (_, actions2) =
        node.handle_command(Command::Publish { topic: b("chat"), payload: b("y") }, 2);
    assert!(actions2.is_empty());
    assert!(node.routing.contains(7));
}

#[test]
fn inbound_message_events_carry_the_outcome() {
    let mut node = BehaviourComposer::new(2, false);
    node.handle_command(Command::Subscribe { topic: b("chat") }, 0);
    let (ev, _) = node.on_network_message(1, &b("chat"), &b("hello"), true);
    match ev {
        Event::Inbound { source, outcome: Outcome::Delivered { topic, payload } } => {
            assert_eq!(source, 1);
            assert_eq!(topic, b("chat"));
            assert_eq!(payload, b("hello"));
        }
        _ => panic!("expected a delivery"),
    }
    let (ev2, _) = node.on_network_message(1, &b("chat"), &b("hello"), true);
    assert!(matches!(
        ev2,
        Event::Inbound { outcome: Outcome::Duplicate, .. }
    ));
}

#[test]
fn listen_and_dial_become_transport_actions() {
    let mut node = BehaviourComposer::new(1, false);
    let (_, a1) = node.handle_command(Command::Listen { address: b("/ip4/0.0.0.0/tcp/0") }, 0);
    assert!(matches!(&a1[0], Action::Listen { .. }));
    let (_, a2) = node.handle_command(Command::Dial { address: b("/ip4/10.0.0.1/tcp/4001") }, 0);
    assert!(matches!(&a2[0], Action::Dial { .. }));
}

#[test]
fn bootstrap_with_contacts_stays_in_flight() {
    let mut node = BehaviourComposer::new(1, false);
    node.on_connection_established(9, b("/a"), 0);
    let (events, actions) = node.handle_command(Command::Bootstrap, 1);
    assert!(events.is_empty());
    assert_eq!(actions.len(), 1);
    let id = match actions[0] {
        Action::SendQuery { query_id, .. } => query_id,
        _ => panic!("expected a lookup request"),
    };
    // the single contact answers with nothing new: candidates exhausted
    let (events2, _) = node.on_query_answer(id, 9, b("/a"), empty_response(), 2);
    assert_eq!(events2.len(), 1);
    assert!(matches!(
        &events2[0],
        Event::Query { event: QueryEvent::Completed { outcome: QueryOutcome::BootstrapDone, .. } }
    ));
}
