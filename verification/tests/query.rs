use swarm_core::query::{
    QueryEngine, QueryEvent, QueryKind, QueryOutcome, Response, QUERY_TIMEOUT,
};

fn b(s: &str) -> Vec<u8> {
    s.as_bytes().to_vec()
}

fn no_seeds() -> Vec<u64> {
    Vec::new()
}

fn plain_response(closer: Vec<u64>) -> Response {
    Response { closer_peers: closer, value: None, providers: Vec::new(), ack: false }
}

#[test]
fn put_then_get_against_empty_network_returns_local_record() {
    // PUT key1 value1, then GET key1, with no peers: the quorum of one is
    // satisfied locally, and the locally stored record comes back
    let mut qe = QueryEngine::new(1);
    let (_, ev, contacts) = qe.start_query(
        QueryKind::PutRecord,
        b("key1"),
        0,
        Some(b("value1")),
        1,
        no_seeds(),
        0,
    );
    assert!(contacts.is_empty());
    match ev {
        Some(QueryEvent::Completed { outcome: QueryOutcome::PutConfirmed, .. }) => {}
        other => panic!("expected immediate put confirmation, got {:?}", other.is_some()),
    }
    let (_, ev2, contacts2) = qe.start_query(
        QueryKind::GetRecord,
        b("key1"),
        0,
        None,
        1,
        no_seeds(),
        0,
    );
    assert!(contacts2.is_empty());
    match ev2 {
        Some(QueryEvent::Completed { outcome: QueryOutcome::FoundRecords(rs), .. }) => {
            assert_eq!(rs.len(), 1);
            assert_eq!(rs[0].key, b("key1"));
            assert_eq!(rs[0].value, b("value1"));
        }
        _ => panic!("expected the locally stored record"),
    }
}

#[test]
fn get_nonexistent_against_empty_network_is_not_found_immediately() {
    // zero candidate peers are exhausted at once: no infinite wait
    let mut qe = QueryEngine::new(1);
    let (_, ev, contacts) = qe.start_query(
        QueryKind::GetRecord,
        b("nonexistent"),
        0,
        None,
        1,
        no_seeds(),
        0,
    );
    assert!(contacts.is_empty());
    match ev {
        Some(QueryEvent::Completed { outcome: QueryOutcome::NotFound, .. }) => {}
        _ => panic!("expected an immediate not-found outcome"),
    }
    assert_eq!(qe.active.len(), 0);
}

#[test]
fn query_ids_grow_and_are_never_reused() {
    let mut qe = QueryEngine::new(1);
    let (id0, _, _) = qe.start_query(QueryKind::Bootstrap, Vec::new(), 1, None, 1, no_seeds(), 0);
    let (id1, _, _) = qe.start_query(QueryKind::Bootstrap, Vec::new(), 1, None, 1, no_seeds(), 0);
    let (id2, _, _) =
        qe.start_query(QueryKind::GetRecord, b("k"), 2, None, 1, vec![5, 6], 0);
    assert_eq!(id0, 0);
    assert_eq!(id1, 1);
    assert_eq!(id2, 2);
    assert_eq!(qe.next_id, 3);
}

#[test]
fn get_record_completes_on_quorum_and_emits_one_terminal_event() {
    let mut qe = QueryEngine::new(1);
    let (id, ev, contacts) =
        qe.start_query(QueryKind::GetRecord, b("k"), 99, None, 1, vec![5, 6], 0);
    assert!(ev.is_none());
    assert_eq!(contacts, vec![5, 6]);
    let resp = Response {
        closer_peers: Vec::new(),
        value: Some(b("v")),
        providers: Vec::new(),
        ack: false,
    };
    let (ev1, more) = qe.on_response(id, 5, resp);
    assert!(more.is_empty());
    match ev1 {
        Some(QueryEvent::Completed { id: eid, outcome: QueryOutcome::FoundRecords(rs) }) => {
            assert_eq!(eid, id);
            assert_eq!(rs.len(), 1);
            assert_eq!(rs[0].value, b("v"));
            assert_eq!(rs[0].publisher, Some(5));
        }
        _ => panic!("expected the record"),
    }
    // the query is gone: a late answer from the other peer is ignored
    let resp2 = Response {
        closer_peers: Vec::new(),
        value: Some(b("v")),
        providers: Vec::new(),
        ack: false,
    };
    let (ev2, more2) = qe.on_response(id, 6, resp2);
    assert!(ev2.is_none());
    assert!(more2.is_empty());
}

#[test]
fn exhausted_get_record_reports_not_found() {
    let mut qe = QueryEngine::new(1);
    let (id, _, _) = qe.start_query(QueryKind::GetRecord, b("k"), 99, None, 1, vec![5], 0);
    let (ev, _) = qe.on_response(id, 5, plain_response(Vec::new()));
    match ev {
        Some(QueryEvent::Completed { outcome: QueryOutcome::NotFound, .. }) => {}
        _ => panic!("expected not-found after exhausting the single candidate"),
    }
}

#[test]
fn learned_closer_peers_are_contacted_but_never_twice() {
    let mut qe = QueryEngine::new(1);
    let (id, _, contacts) =
        qe.start_query(QueryKind::GetRecord, b("k"), 99, None, 2, vec![5], 0);
    assert_eq!(contacts, vec![5]);
    // peer 5 answers naming peers 6, 5 (already queried) and 1 (ourselves)
    let (ev, more) = qe.on_response(id, 5, plain_response(vec![6, 5, 1]));
    assert!(ev.is_none());
    assert_eq!(more, vec![6]);
    // an unsolicited answer from a never-contacted peer is ignored
    let (ev2, more2) = qe.on_response(id, 77, plain_response(Vec::new()));
    assert!(ev2.is_none());
    assert!(more2.is_empty());
}

#[test]
fn put_record_needs_the_quorum() {
    let mut qe = QueryEngine::new(1);
    // quorum 3: one local ack, two remote needed
    let (id, ev, _) = qe.start_query(
        QueryKind::PutRecord,
        b("k"),
        99,
        Some(b("v")),
        3,
        vec![5, 6],
        0,
    );
    assert!(ev.is_none());
    let ack = Response { closer_peers: Vec::new(), value: None, providers: Vec::new(), ack: true };
    let (ev1, _) = qe.on_response(id, 5, ack);
    assert!(ev1.is_none());
    let ack2 = Response { closer_peers: Vec::new(), value: None, providers: Vec::new(), ack: true };
    let (ev2, _) = qe.on_response(id, 6, ack2);
    match ev2 {
        Some(QueryEvent::Completed { outcome: QueryOutcome::PutConfirmed, .. }) => {}
        _ => panic!("expected confirmation at the quorum"),
    }
}

#[test]
fn put_record_quorum_failure_when_candidates_run_out() {
    let mut qe = QueryEngine::new(1);
    let (id, ev, _) = qe.start_query(
        QueryKind::PutRecord,
        b("k"),
        99,
        Some(b("v")),
        3,
        vec![5],
        0,
    );
    assert!(ev.is_none());
    // the only candidate answers without acknowledging
    let (ev1, _) = qe.on_response(id, 5, plain_response(Vec::new()));
    match ev1 {
        Some(QueryEvent::Completed { outcome: QueryOutcome::QuorumFailed, .. }) => {}
        _ => panic!("expected a quorum failure"),
    }
}

#[test]
fn get_providers_accumulates_until_exhaustion() {
    let mut qe = QueryEngine::new(1);
    let (id, _, _) = qe.start_query(QueryKind::GetProviders, b("k"), 99, None, 1, vec![5, 6], 0);
    let prov = |ps: Vec<u64>| Response {
        closer_peers: Vec::new(),
        value: None,
        providers: ps,
        ack: false,
    };
    let (ev1, _) = qe.on_response(id, 5, prov(vec![10, 11]));
    assert!(ev1.is_none());
    let (ev2, _) = qe.on_response(id, 6, prov(vec![12]));
    match ev2 {
        Some(QueryEvent::Completed { outcome: QueryOutcome::Providers(ps), .. }) => {
            assert_eq!(ps, vec![10, 11, 12]);
        }
        _ => panic!("expected the accumulated provider list"),
    }
}

#[test]
fn timeout_is_terminal_and_discards_partial_results() {
    let mut qe = QueryEngine::new(1);
    let (id, _, _) = qe.start_query(QueryKind::GetRecord, b("k"), 99, None, 2, vec![5, 6], 100);
    // one record collected, quorum not met
    let resp = Response {
        closer_peers: Vec::new(),
        value: Some(b("v")),
        providers: Vec::new(),
        ack: false,
    };
    let (ev0, _) = qe.on_response(id, 5, resp);
    assert!(ev0.is_none());
    // before the deadline: nothing times out
    assert!(qe.next_timed_out(100 + QUERY_TIMEOUT).is_none());
    // past the deadline: the timeout is the only terminal event, with no
    // partial data attached
    match qe.next_timed_out(100 + QUERY_TIMEOUT + 1) {
        Some(QueryEvent::TimedOut { id: tid }) => assert_eq!(tid, id),
        _ => panic!("expected a timeout"),
    }
    // and it is emitted exactly once
    assert!(qe.next_timed_out(100 + QUERY_TIMEOUT + 1).is_none());
    assert_eq!(qe.active.len(), 0);
}

#[test]
fn expired_records_are_removed_and_fresh_ones_kept() {
    let mut qe = QueryEngine::new(1);
    qe.put_local(b("stale"), b("v1"), None, Some(10));
    qe.put_local(b("fresh"), b("v2"), None, Some(100));
    qe.put_local(b("forever"), b("v3"), None, None);
    qe.drop_expired(50);
    assert!(qe.get_local(&b("stale")).is_none());
    assert_eq!(qe.get_local(&b("fresh")).unwrap().value, b("v2"));
    assert_eq!(qe.get_local(&b("forever")).unwrap().value, b("v3"));
}

#[test]
fn put_overwrites_the_record_under_the_same_key() {
    let mut qe = QueryEngine::new(1);
    qe.put_local(b("k"), b("old"), None, None);
    qe.put_local(b("k"), b("new"), Some(9), None);
    let rec = qe.get_local(&b("k")).unwrap();
    assert_eq!(rec.value, b("new"));
    assert_eq!(rec.publisher, Some(9));
    assert_eq!(qe.store.len(), 1);
}

#[test]
fn bootstrap_with_no_peers_completes_immediately() {
    let mut qe = QueryEngine::new(1);
    let (_, ev, _) =
        qe.start_query(QueryKind::Bootstrap, Vec::new(), 1, None, 1, no_seeds(), 0);
    match ev {
        Some(QueryEvent::Completed { outcome: QueryOutcome::BootstrapDone, .. }) => {}
        _ => panic!("expected an immediate bootstrap completion"),
    }
}

#[test]
fn find_closest_peers_returns_responders_closest_first() {
    let mut qe = QueryEngine::new(1);
    let (id, _, _) =
        qe.start_query(QueryKind::FindClosestPeers, b("k"), 99, None, 1, vec![5, 6], 0);
    let (ev1, _) = qe.on_response(id, 5, plain_response(Vec::new()));
    assert!(ev1.is_none());
    let (ev2, _) = qe.on_response(id, 6, plain_response(Vec::new()));
    match ev2 {
        Some(QueryEvent::Completed { outcome: QueryOutcome::ClosestPeers(ps), .. }) => {
            // ordered by XOR distance from the target 99: 6^99 < 5^99
            assert_eq!(ps, vec![6, 5]);
        }
        _ => panic!("expected the responders, closest first"),
    }
}
