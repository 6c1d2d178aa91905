//! The behaviour composer: one poll point over the query engine, the
//! publish/subscribe engine and the discovery reports, with the routing
//! table as shared state.
//!
//! Commands from the caller are dispatched to the owning engine; transport,
//! discovery and wire events are folded into the engines; everything the
//! engines decide comes back as one unified event stream plus the actions
//! the transport must perform.  The surrounding loop — the code that
//! actually listens, dials and reads the wire — lives outside the core and
//! hands events in as plain values.

use vstd::prelude::*;
use crate::bytes::{fnv64, hash_bytes};
use crate::pubsub::{PubSubEngine, Outcome, message_id_spec, push_seen_spec};
use crate::query::{
    QueryEngine, QueryEvent, QueryKind, QueryOutcome, Response, QUERY_FANOUT, deadline_spec,
    response_post,
};
use crate::routing::{
    RoutingTable, closest_post, insert_or_update_post, lemma_sorted_by_distance_distinct,
};

verus! {

/// A command from the caller.
pub enum Command {
    Listen { address: Vec<u8> },
    Dial { address: Vec<u8> },
    Subscribe { topic: Vec<u8> },
    Unsubscribe { topic: Vec<u8> },
    Publish { topic: Vec<u8>, payload: Vec<u8> },
    GetRecord { key: Vec<u8>, quorum: usize },
    PutRecord { key: Vec<u8>, value: Vec<u8>, quorum: usize },
    GetProviders { key: Vec<u8> },
    StartProviding { key: Vec<u8> },
    FindClosestPeers { key: Vec<u8> },
    Bootstrap,
}

/// What the transport collaborator is asked to do.
pub enum Action {
    /// Start listening on an address.
    Listen { address: Vec<u8> },
    /// Dial an address.
    Dial { address: Vec<u8> },
    /// Send a lookup request for a query to a peer.
    SendQuery { peer: u64, query_id: u64, kind: QueryKind, target: u64 },
    /// Forward a pub/sub message to a peer.
    ForwardMessage { peer: u64, topic: Vec<u8>, payload: Vec<u8> },
}

/// One entry of the unified outward event stream.
pub enum Event {
    /// A message was published locally under this identifier.
    Published { topic: Vec<u8>, message_id: u64 },
    /// What became of an inbound pub/sub message.
    Inbound { source: u64, outcome: Outcome },
    /// A query reached its single terminal state.
    Query { event: QueryEvent },
    /// A locally discovered peer was registered.
    Discovered { peer: u64 },
    /// A discovery advertisement expired.
    Expired { peer: u64 },
}

/// The composed behaviour: the three engines around one routing table.
pub struct BehaviourComposer {
    pub local: u64,
    pub routing: RoutingTable,
    pub queries: QueryEngine,
    pub pubsub: PubSubEngine,
}

impl BehaviourComposer {
    /// All parts agree on the local identity and are internally consistent.
    pub open spec fn wf(self) -> bool {
        &&& self.routing.wf()
        &&& self.queries.wf()
        &&& self.pubsub.wf()
        &&& self.routing.local == self.local
        &&& self.queries.local == self.local
        &&& self.pubsub.local_peer == self.local
    }

    /// A composer for a fresh node.
    pub fn new(local: u64, signed_mode: bool) -> (c: BehaviourComposer)
        ensures
            c.wf(),
            c.local == local,
            c.pubsub.signed_mode == signed_mode,
            c.queries.next_id == 0,
            c.queries.active@.len() == 0,
            forall|q: u64| !c.routing.contains_peer(q),
            forall|p: u64| !c.pubsub.has_peer(p),
            forall|t: Seq<u8>| !c.pubsub.subscribed(t),
            forall|k: Seq<u8>| !c.queries.store_has(k),
    {
        BehaviourComposer {
            local,
            routing: RoutingTable::new(local),
            queries: QueryEngine::new(local),
            pubsub: PubSubEngine::new(local, signed_mode),
        }
    }

    /// A connection to `peer` was established: it becomes a forwarding
    /// target and its routing entry is created or refreshed under the
    /// connection's address.
    pub fn on_connection_established(&mut self, peer: u64, address: Vec<u8>, now: u64)
        requires
            old(self).wf(),
        ensures
            final(self).wf(),
            final(self).local == old(self).local,
            final(self).queries == old(self).queries,
            peer == old(self).local ==> *final(self) == *old(self),
            peer != old(self).local ==> insert_or_update_post(
                old(self).routing,
                final(self).routing,
                peer,
                seq![address@],
                now,
            ),
            forall|p: u64|
                #[trigger] final(self).pubsub.has_peer(p) <==> old(self).pubsub.has_peer(p) || (p
                    == peer && peer != old(self).local),
            forall|p: u64, t: Seq<u8>|
                #[trigger] final(self).pubsub.peer_topic(p, t) <==> old(self).pubsub.peer_topic(
                    p,
                    t,
                ),
            final(self).pubsub.subscriptions == old(self).pubsub.subscriptions,
            final(self).pubsub.seen == old(self).pubsub.seen,
            final(self).pubsub.local_peer == old(self).pubsub.local_peer,
            final(self).pubsub.signed_mode == old(self).pubsub.signed_mode,
    {
        if peer == self.local {
            return;
        }
        let mut addresses: Vec<Vec<u8>> = Vec::new();
        addresses.push(address);
        proof {
            assert(addresses@.map_values(|a: Vec<u8>| a@) =~= seq![address@]);
        }
        let _ = self.routing.insert_or_update(peer, addresses, now);
        proof {
            assert(insert_or_update_post(
                old(self).routing,
                self.routing,
                peer,
                seq![address@],
                now,
            ));
        }
        self.pubsub.add_peer(peer);
    }

    /// The connection to `peer` closed: it is no longer a forwarding
    /// target.  Its routing entry stays; DHT reachability is re-validated
    /// only through the normal query and timeout path.
    pub fn on_connection_closed(&mut self, peer: u64)
        requires
            old(self).wf(),
        ensures
            final(self).wf(),
            final(self).local == old(self).local,
            !final(self).pubsub.has_peer(peer),
            final(self).routing == old(self).routing,
            final(self).queries == old(self).queries,
            forall|p: u64|
                #[trigger] final(self).pubsub.has_peer(p) <==> old(self).pubsub.has_peer(p) && p
                    != peer,
    {
        self.pubsub.remove_peer(peer);
    }

    /// A locally discovered peer: its address goes into the routing table
    /// and it joins the pub/sub partial view, exactly as an established
    /// connection would register it.
    pub fn on_peer_discovered(&mut self, peer: u64, address: Vec<u8>, now: u64) -> (ev: Event)
        requires
            old(self).wf(),
        ensures
            final(self).wf(),
            final(self).local == old(self).local,
            final(self).queries == old(self).queries,
            ev matches Event::Discovered { peer: p } && p == peer,
            peer == old(self).local ==> *final(self) == *old(self),
            peer != old(self).local ==> insert_or_update_post(
                old(self).routing,
                final(self).routing,
                peer,
                seq![address@],
                now,
            ),
            forall|p: u64|
                #[trigger] final(self).pubsub.has_peer(p) <==> old(self).pubsub.has_peer(p) || (p
                    == peer && peer != old(self).local),
            forall|p: u64, t: Seq<u8>|
                #[trigger] final(self).pubsub.peer_topic(p, t) <==> old(self).pubsub.peer_topic(
                    p,
                    t,
                ),
            final(self).pubsub.subscriptions == old(self).pubsub.subscriptions,
            final(self).pubsub.seen == old(self).pubsub.seen,
            final(self).pubsub.local_peer == old(self).pubsub.local_peer,
            final(self).pubsub.signed_mode == old(self).pubsub.signed_mode,
    {
        self.on_connection_established(peer, address, now);
        Event::Discovered { peer }
    }

    /// A discovery advertisement expired: the peer leaves the pub/sub
    /// partial view, but its routing entry is kept — expiry reflects only
    /// the advertisement protocol, not actual unreachability.
    pub fn on_peer_expired(&mut self, peer: u64) -> (ev: Event)
        requires
            old(self).wf(),
        ensures
            final(self).wf(),
            final(self).local == old(self).local,
            ev matches Event::Expired { peer: p } && p == peer,
            !final(self).pubsub.has_peer(peer),
            final(self).routing == old(self).routing,
            final(self).queries == old(self).queries,
    {
        self.pubsub.remove_peer(peer);
        Event::Expired { peer }
    }

    /// A remote peer told us it subscribes to `topic`.
    pub fn on_remote_subscribe(&mut self, peer: u64, topic: Vec<u8>)
        requires
            old(self).wf(),
        ensures
            final(self).wf(),
            final(self).local == old(self).local,
            final(self).routing == old(self).routing,
            final(self).queries == old(self).queries,
            forall|p: u64, t: Seq<u8>|
                #[trigger] final(self).pubsub.peer_topic(p, t) <==> old(self).pubsub.peer_topic(
                    p,
                    t,
                ) || (p == peer && t == topic@ && old(self).pubsub.has_peer(peer)),
    {
        self.pubsub.on_remote_subscribe(peer, topic);
    }

    /// An inbound pub/sub message: decided by the engine, forwarded to
    /// every interested peer but the source.
    pub fn on_network_message(
        &mut self,
        source: u64,
        topic: &Vec<u8>,
        payload: &Vec<u8>,
        auth_ok: bool,
    ) -> (r: (Event, Vec<Action>))
        requires
            old(self).wf(),
        ensures
            final(self).wf(),
            final(self).local == old(self).local,
            final(self).routing == old(self).routing,
            final(self).queries == old(self).queries,
            r.0 matches Event::Inbound { source: s, outcome } && s == source && ({
                let mid = message_id_spec(old(self).pubsub.signed_mode, source, payload@);
                if !auth_ok {
                    &&& outcome == Outcome::Unauthenticated
                    &&& r.1@.len() == 0
                    &&& final(self).pubsub == old(self).pubsub
                } else if old(self).pubsub.seen@.contains(mid) {
                    &&& outcome == Outcome::Duplicate
                    &&& r.1@.len() == 0
                    &&& final(self).pubsub == old(self).pubsub
                } else {
                    &&& final(self).pubsub.seen@ == push_seen_spec(old(self).pubsub.seen@, mid)
                    &&& r.1@.len() == old(self).pubsub.targets_spec(topic@, source).len()
                    &&& forall|i: int|
                        0 <= i < r.1@.len() ==> ((#[trigger] r.1@[i]) matches
                            Action::ForwardMessage { peer, topic: t, payload: pl } && peer == old(self).pubsub.targets_spec(topic@, source)[i] && t@ == topic@ && pl@
                            == payload@)
                    &&& (if old(self).pubsub.subscribed(topic@) {
                        outcome matches Outcome::Delivered { topic: t, payload: pl } && t@
                            == topic@ && pl@ == payload@
                    } else {
                        outcome == Outcome::NotSubscribed
                    })
                }
            }),
    {
        let (outcome, targets) = self.pubsub.on_network_message(source, topic, payload, auth_ok);
        let actions = forward_actions(&targets, topic, payload);
        (Event::Inbound { source, outcome }, actions)
    }
}

/// The peers a list of lookup-request actions is addressed to, in order.
pub open spec fn sent_peers(actions: Seq<Action>) -> Seq<u64> {
    actions.map_values(
        |a: Action| match a {
            Action::SendQuery { peer, .. } => peer,
            _ => 0u64,
        },
    )
}

/// What every query-starting command guarantees: a fresh identifier is
/// spent, and the query's local phase comes first — a put stores locally, a
/// start-providing registers the key (one acknowledgment each), a get
/// consults the local store (a hit is one record).  If that alone meets the
/// quorum, or the routing table knows no peer at all, the query is decided
/// on the spot: exactly one terminal event, with the outcome the local
/// phase determines, nothing to send, the identifier retired.  Otherwise it
/// goes in flight, seeded with exactly the routing table's closest fan-out
/// peers to the target — each of which gets one lookup request — and a
/// deadline counted from `now`.
pub open spec fn query_command_post(
    pre: BehaviourComposer,
    post: BehaviourComposer,
    kind: QueryKind,
    key: Seq<u8>,
    target: u64,
    quorum: usize,
    now: u64,
    events: Seq<Event>,
    actions: Seq<Action>,
) -> bool {
    let id = pre.queries.next_id;
    let recs0: int = if kind == QueryKind::GetRecord && pre.queries.store_has(key) {
        1
    } else {
        0
    };
    let acks0: int = if kind == QueryKind::PutRecord || kind == QueryKind::StartProviding {
        1
    } else {
        0
    };
    let successful = (kind == QueryKind::GetRecord && recs0 >= quorum) || ((kind
        == QueryKind::PutRecord || kind == QueryKind::StartProviding) && acks0 >= quorum);
    let table_empty = forall|p: u64| !pre.routing.contains_peer(p);
    &&& post.queries.next_id == id + 1
    &&& post.pubsub == pre.pubsub
    &&& post.routing == pre.routing
    &&& !pre.queries.has_query(id)
    &&& !pre.queries.terminated@.contains(id)
    &&& forall|qid: u64|
        qid != id ==> (#[trigger] post.queries.has_query(qid) <==> pre.queries.has_query(qid))
    &&& (if successful || table_empty {
        &&& events.len() == 1
        &&& actions.len() == 0
        &&& !post.queries.has_query(id)
        &&& post.queries.terminated@ == pre.queries.terminated@.insert(id)
        &&& (events[0] matches Event::Query { event } && (event matches QueryEvent::Completed {
            id: eid,
            outcome,
        } && eid == id && (match kind {
            QueryKind::GetRecord => if recs0 >= quorum {
                outcome matches QueryOutcome::FoundRecords(rs) && rs@.len() == 1 && rs@[0].key@
                    == key && rs@[0].value@ == pre.queries.store_at(key).value@
            } else {
                outcome == QueryOutcome::NotFound
            },
            QueryKind::PutRecord => if acks0 >= quorum {
                outcome == QueryOutcome::PutConfirmed
            } else {
                outcome == QueryOutcome::QuorumFailed
            },
            QueryKind::StartProviding => if acks0 >= quorum {
                outcome == QueryOutcome::PutConfirmed
            } else {
                outcome == QueryOutcome::QuorumFailed
            },
            QueryKind::FindClosestPeers => outcome matches QueryOutcome::ClosestPeers(ps)
                && ps@.len() == 0,
            QueryKind::Bootstrap => outcome == QueryOutcome::BootstrapDone,
            QueryKind::GetProviders => outcome matches QueryOutcome::Providers(ps) && ps@.len()
                == 0,
        })))
    } else {
        &&& events.len() == 0
        &&& post.queries.has_query(id)
        &&& post.queries.terminated == pre.queries.terminated
        &&& ({
            let q = post.queries.query_of(id);
            &&& q.id == id
            &&& q.kind == kind
            &&& q.key@ == key
            &&& q.target == target
            &&& q.quorum == quorum
            &&& q.pending@.len() == 0
            &&& q.contacted@ == q.awaiting@
            &&& closest_post(pre.routing, target, QUERY_FANOUT as int, q.awaiting@)
            &&& q.responders@.len() == 0
            &&& q.providers@.len() == 0
            &&& q.acks == acks0
            &&& q.records@.len() == recs0
            &&& (recs0 == 1 ==> q.records@[0].key@ == key && q.records@[0].value@
                == pre.queries.store_at(key).value@)
            &&& q.deadline == deadline_spec(now)
        })
        &&& actions.len() == post.queries.query_of(id).awaiting@.len()
        &&& forall|i: int|
            0 <= i < actions.len() ==> ((#[trigger] actions[i]) matches Action::SendQuery {
                peer,
                query_id,
                kind: k2,
                target: t2,
            } && peer == post.queries.query_of(id).awaiting@[i] && query_id == id && k2 == kind
                && t2 == target)
    })
}

impl BehaviourComposer {
    /// Starts a query of the given kind: seeds it from the routing table's
    /// closest peers and hands it to the query engine.
    fn start_query_command(
        &mut self,
        kind: QueryKind,
        key: Vec<u8>,
        target: u64,
        value: Option<Vec<u8>>,
        quorum: usize,
        now: u64,
    ) -> (r: (Vec<Event>, Vec<Action>))
        requires
            old(self).wf(),
            old(self).queries.next_id < u64::MAX,
            quorum >= 1,
            kind == QueryKind::PutRecord ==> value is Some,
        ensures
            final(self).wf(),
            final(self).local == old(self).local,
            query_command_post(
                *old(self),
                *final(self),
                kind,
                key@,
                target,
                quorum,
                now,
                r.0@,
                r.1@,
            ),
            (if kind == QueryKind::PutRecord {
                &&& final(self).queries.store_has(key@)
                &&& final(self).queries.store_at(key@).key@ == key@
                &&& final(self).queries.store_at(key@).value@ == value->0@
                &&& forall|k: Seq<u8>|
                    #[trigger] final(self).queries.store_has(k) <==> old(self).queries.store_has(
                        k,
                    ) || k == key@
            } else {
                final(self).queries.store == old(self).queries.store
            }),
            (if kind == QueryKind::StartProviding {
                &&& final(self).queries.provides(key@)
                &&& forall|k: Seq<u8>|
                    #[trigger] final(self).queries.provides(k) <==> old(self).queries.provides(
                        k,
                    ) || k == key@
            } else {
                final(self).queries.provided == old(self).queries.provided
            }),
    {
        let seeds = self.routing.closest(target, QUERY_FANOUT);
        proof {
            if forall|p: u64| !old(self).routing.contains_peer(p) {
                assert(seeds@.len() == 0) by {
                    if seeds@.len() > 0 {
                        assert(old(self).routing.contains_peer(seeds@[0]));
                    }
                }
            }
        }
        proof {
            lemma_sorted_by_distance_distinct(seeds@, target);
        }
        let (id, ev, contacts) = self.queries.start_query(
            kind,
            key,
            target,
            value,
            quorum,
            seeds,
            now,
        );
        match ev {
            Option::Some(e) => {
                let mut events: Vec<Event> = Vec::new();
                events.push(Event::Query { event: e });
                (events, Vec::new())
            },
            Option::None => {
                let actions = send_query_actions(&contacts, id, kind, target);
                proof {
                    assert(self.queries.query_of(id).awaiting@ == contacts@);
                }
                (Vec::new(), actions)
            },
        }
    }

    /// Dispatches a caller command to the engine that owns it.
    ///
    /// Listen and dial go straight to the transport.  A publish records the
    /// message as seen before returning and forwards it to every interested
    /// peer — no reachable peer is not an error.  A zero quorum is read as
    /// one.  Query commands may settle immediately (an empty network, or a
    /// quorum already met locally): then the single terminal event is
    /// returned at once.
    pub fn handle_command(&mut self, cmd: Command, now: u64) -> (r: (Vec<Event>, Vec<Action>))
        requires
            old(self).wf(),
            // only the query-starting commands spend an identifier
            (match cmd {
                Command::Listen { .. } => true,
                Command::Dial { .. } => true,
                Command::Subscribe { .. } => true,
                Command::Unsubscribe { .. } => true,
                Command::Publish { .. } => true,
                _ => old(self).queries.next_id < u64::MAX,
            }),
        ensures
            final(self).wf(),
            final(self).local == old(self).local,
            match cmd {
                Command::Listen { address } => *final(self) == *old(self) && r.0@.len() == 0
                    && r.1@.len() == 1 && (r.1@[0] matches Action::Listen { address: a } && a@
                    == address@),
                Command::Dial { address } => *final(self) == *old(self) && r.0@.len() == 0
                    && r.1@.len() == 1 && (r.1@[0] matches Action::Dial { address: a } && a@
                    == address@),
                Command::Subscribe { topic } => {
                    &&& final(self).pubsub.subscribed(topic@)
                    &&& forall|t: Seq<u8>|
                        #[trigger] final(self).pubsub.subscribed(t) <==> old(self).pubsub.subscribed(t) || t == topic@
                    &&& final(self).routing == old(self).routing
                    &&& final(self).queries == old(self).queries
                    &&& r.0@.len() == 0 && r.1@.len() == 0
                },
                Command::Unsubscribe { topic } => {
                    &&& !final(self).pubsub.subscribed(topic@)
                    &&& forall|t: Seq<u8>|
                        #[trigger] final(self).pubsub.subscribed(t) <==> old(self).pubsub.subscribed(t) && t != topic@
                    &&& final(self).routing == old(self).routing
                    &&& final(self).queries == old(self).queries
                    &&& r.0@.len() == 0 && r.1@.len() == 0
                },
                Command::Publish { topic, payload } => {
                    let mid = message_id_spec(
                        old(self).pubsub.signed_mode,
                        old(self).local,
                        payload@,
                    );
                    &&& final(self).routing == old(self).routing
                    &&& final(self).queries == old(self).queries
                    &&& final(self).pubsub.seen@ == push_seen_spec(old(self).pubsub.seen@, mid)
                    &&& final(self).pubsub.seen@.contains(mid)
                    &&& r.0@.len() == 1 && (r.0@[0] matches Event::Published {
                        topic: t,
                        message_id,
                    } && t@ == topic@ && message_id == mid)
                    &&& r.1@.len() == old(self).pubsub.targets_spec(
                        topic@,
                        old(self).local,
                    ).len()
                    &&& forall|i: int|
                        0 <= i < r.1@.len() ==> ((#[trigger] r.1@[i]) matches
                            Action::ForwardMessage { peer, topic: t, payload: pl } && peer == old(self).pubsub.targets_spec(topic@, old(self).local)[i] && t@ == topic@ && pl@
                            == payload@)
                },
                Command::GetRecord { key, quorum } => query_command_post(
                    *old(self),
                    *final(self),
                    QueryKind::GetRecord,
                    key@,
                    fnv64(key@),
                    if quorum == 0 {
                        1
                    } else {
                        quorum
                    },
                    now,
                    r.0@,
                    r.1@,
                ) && final(self).queries.store == old(self).queries.store,
                Command::PutRecord { key, value, quorum } => query_command_post(
                    *old(self),
                    *final(self),
                    QueryKind::PutRecord,
                    key@,
                    fnv64(key@),
                    if quorum == 0 {
                        1
                    } else {
                        quorum
                    },
                    now,
                    r.0@,
                    r.1@,
                ) && final(self).queries.store_has(key@) && final(self).queries.store_at(
                    key@,
                ).value@ == value@,
                Command::GetProviders { key } => query_command_post(
                    *old(self),
                    *final(self),
                    QueryKind::GetProviders,
                    key@,
                    fnv64(key@),
                    1,
                    now,
                    r.0@,
                    r.1@,
                ),
                Command::StartProviding { key } => query_command_post(
                    *old(self),
                    *final(self),
                    QueryKind::StartProviding,
                    key@,
                    fnv64(key@),
                    1,
                    now,
                    r.0@,
                    r.1@,
                ) && final(self).queries.provides(key@),
                Command::FindClosestPeers { key } => query_command_post(
                    *old(self),
                    *final(self),
                    QueryKind::FindClosestPeers,
                    key@,
                    fnv64(key@),
                    1,
                    now,
                    r.0@,
                    r.1@,
                ),
                Command::Bootstrap => query_command_post(
                    *old(self),
                    *final(self),
                    QueryKind::Bootstrap,
                    Seq::<u8>::empty(),
                    old(self).local,
                    1,
                    now,
                    r.0@,
                    r.1@,
                ),
            },
    {
        match cmd {
            Command::Listen { address } => {
                let mut actions: Vec<Action> = Vec::new();
                actions.push(Action::Listen { address });
                (Vec::new(), actions)
            },
            Command::Dial { address } => {
                let mut actions: Vec<Action> = Vec::new();
                actions.push(Action::Dial { address });
                (Vec::new(), actions)
            },
            Command::Subscribe { topic } => {
                self.pubsub.subscribe(topic);
                (Vec::new(), Vec::new())
            },
            Command::Unsubscribe { topic } => {
                self.pubsub.unsubscribe(&topic);
                (Vec::new(), Vec::new())
            },
            Command::Publish { topic, payload } => {
                let (mid, targets) = self.pubsub.publish(&topic, &payload);
                let actions = forward_actions(&targets, &topic, &payload);
                let mut events: Vec<Event> = Vec::new();
                events.push(Event::Published { topic, message_id: mid });
                (events, actions)
            },
            Command::GetRecord { key, quorum } => {
                let q: usize = if quorum == 0 {
                    1
                } else {
                    quorum
                };
                let target = hash_bytes(&key);
                self.start_query_command(QueryKind::GetRecord, key, target, Option::None, q, now)
            },
            Command::PutRecord { key, value, quorum } => {
                let q: usize = if quorum == 0 {
                    1
                } else {
                    quorum
                };
                let target = hash_bytes(&key);
                self.start_query_command(
                    QueryKind::PutRecord,
                    key,
                    target,
                    Option::Some(value),
                    q,
                    now,
                )
            },
            Command::GetProviders { key } => {
                let target = hash_bytes(&key);
                self.start_query_command(
                    QueryKind::GetProviders,
                    key,
                    target,
                    Option::None,
                    1,
                    now,
                )
            },
            Command::StartProviding { key } => {
                let target = hash_bytes(&key);
                self.start_query_command(
                    QueryKind::StartProviding,
                    key,
                    target,
                    Option::None,
                    1,
                    now,
                )
            },
            Command::FindClosestPeers { key } => {
                let target = hash_bytes(&key);
                self.start_query_command(
                    QueryKind::FindClosestPeers,
                    key,
                    target,
                    Option::None,
                    1,
                    now,
                )
            },
            Command::Bootstrap => {
                let target = self.local;
                self.start_query_command(
                    QueryKind::Bootstrap,
                    Vec::new(),
                    target,
                    Option::None,
                    1,
                    now,
                )
            },
        }
    }

    /// A contacted peer answered query `id`: the answering contact is
    /// inserted or refreshed in the routing table, then the answer is folded
    /// into the query, which may yield its terminal event or further lookup
    /// requests.
    ///
    /// When the query is in flight and was awaiting `from`, the result is
    /// exactly what [`response_post`] fixes: one Completed event, with the
    /// outcome the folded answer determines, exactly when the query is then
    /// successful or exhausted; otherwise no event, the query updated — the
    /// responder recorded, newly learned peers merged, up to the fan-out put
    /// in flight — and one lookup request per dispatched contact, in order.
    /// Anything else — an unknown identifier, or an answer the query was not
    /// awaiting — changes no query and returns nothing.
    pub fn on_query_answer(
        &mut self,
        id: u64,
        from: u64,
        from_address: Vec<u8>,
        resp: Response,
        now: u64,
    ) -> (r: (Vec<Event>, Vec<Action>))
        requires
            old(self).wf(),
        ensures
            final(self).wf(),
            final(self).local == old(self).local,
            final(self).pubsub == old(self).pubsub,
            from == old(self).local ==> final(self).routing == old(self).routing,
            from != old(self).local ==> insert_or_update_post(
                old(self).routing,
                final(self).routing,
                from,
                seq![from_address@],
                now,
            ),
            r.0@.len() <= 1,
            forall|qid: u64|
                qid != id ==> (#[trigger] final(self).queries.has_query(qid) <==> old(self).queries.has_query(qid)),
            forall|qid: u64|
                qid != id && old(self).queries.has_query(qid) ==> #[trigger] final(self).queries.query_of(qid) == old(self).queries.query_of(qid),
            !(old(self).queries.has_query(id) && old(self).queries.query_of(id).awaiting@.contains(
                from,
            )) ==> final(self).queries == old(self).queries && r.0@.len() == 0 && r.1@.len() == 0,
            (old(self).queries.has_query(id) && old(self).queries.query_of(id).awaiting@.contains(
                from,
            )) ==> ({
                if r.0@.len() == 1 {
                    &&& (r.0@[0] matches Event::Query { event } && response_post(
                        old(self).queries,
                        final(self).queries,
                        id,
                        from,
                        resp,
                        Option::Some(event),
                        Seq::<u64>::empty(),
                    ))
                    &&& r.1@.len() == 0
                } else {
                    &&& r.0@.len() == 0
                    &&& response_post(
                        old(self).queries,
                        final(self).queries,
                        id,
                        from,
                        resp,
                        Option::None,
                        sent_peers(r.1@),
                    )
                    &&& forall|i: int|
                        0 <= i < r.1@.len() ==> ((#[trigger] r.1@[i]) matches Action::SendQuery {
                            peer,
                            query_id,
                            kind,
                            target,
                        } && query_id == id && kind == old(self).queries.query_of(id).kind
                            && target == old(self).queries.query_of(id).target && peer
                            == sent_peers(r.1@)[i])
                }
            }),
    {
        if from != self.local {
            let mut addresses: Vec<Vec<u8>> = Vec::new();
            addresses.push(from_address);
            proof {
                assert(addresses@.map_values(|a: Vec<u8>| a@) =~= seq![from_address@]);
            }
            let _ = self.routing.insert_or_update(from, addresses, now);
            proof {
                assert(insert_or_update_post(
                    old(self).routing,
                    self.routing,
                    from,
                    seq![from_address@],
                    now,
                ));
            }
        }
        let params = self.queries.query_params(id);
        let (ev, contacts) = self.queries.on_response(id, from, resp);
        match ev {
            Option::Some(e) => {
                proof {
                    assert(contacts@ =~= Seq::<u64>::empty());
                }
                let mut events: Vec<Event> = Vec::new();
                events.push(Event::Query { event: e });
                (events, Vec::new())
            },
            Option::None => {
                let actions = if let Option::Some((kind, target)) = params {
                    let acts = send_query_actions(&contacts, id, kind, target);
                    proof {
                        assert(sent_peers(acts@) =~= contacts@);
                    }
                    acts
                } else {
                    Vec::new()
                };
                (Vec::new(), actions)
            },
        }
    }

    /// Drops every locally stored record whose expiry has passed.
    pub fn expire_records(&mut self, now: u64)
        requires
            old(self).wf(),
        ensures
            final(self).wf(),
            final(self).local == old(self).local,
            final(self).pubsub == old(self).pubsub,
            final(self).routing == old(self).routing,
            final(self).queries.active == old(self).queries.active,
            final(self).queries.terminated == old(self).queries.terminated,
            forall|k: Seq<u8>|
                #[trigger] final(self).queries.store_has(k) <==> old(self).queries.store_has(k)
                    && !crate::query::expired(old(self).queries.store_at(k), now),
            forall|k: Seq<u8>|
                #[trigger] final(self).queries.store_has(k) ==> final(self).queries.store_at(k)
                    == old(self).queries.store_at(k),
    {
        self.queries.drop_expired(now);
    }

    /// Sweeps the per-query deadlines: every in-flight query whose deadline
    /// has passed is terminated with a timeout event, its partial results
    /// discarded.  A query is removed exactly when its timeout event is
    /// returned.
    pub fn handle_tick(&mut self, now: u64) -> (events: Vec<Event>)
        requires
            old(self).wf(),
        ensures
            final(self).wf(),
            final(self).local == old(self).local,
            final(self).pubsub == old(self).pubsub,
            final(self).routing == old(self).routing,
            forall|i: int|
                0 <= i < final(self).queries.active@.len() ==> (#[trigger] final(self).queries.active@[i]).deadline >= now,
            forall|j: int|
                0 <= j < events@.len() ==> ((#[trigger] events@[j]) matches Event::Query {
                    event,
                } && (event matches QueryEvent::TimedOut { id } && old(self).queries.has_query(id)
                    && old(self).queries.query_of(id).deadline < now && !final(self).queries.has_query(id) && final(self).queries.terminated@.contains(id))),
            forall|qid: u64|
                #[trigger] final(self).queries.has_query(qid) ==> old(self).queries.has_query(
                    qid,
                ),
            forall|qid: u64|
                old(self).queries.has_query(qid) && old(self).queries.query_of(qid).deadline
                    >= now ==> #[trigger] final(self).queries.has_query(qid) && final(self).queries.query_of(qid) == old(self).queries.query_of(qid),
            forall|qid: u64|
                old(self).queries.has_query(qid) && old(self).queries.query_of(qid).deadline
                    < now ==> events@.contains(
                    Event::Query { event: QueryEvent::TimedOut { id: qid } },
                ),
    {
        let mut events: Vec<Event> = Vec::new();
        loop
            invariant
                self.wf(),
                self.local == old(self).local,
                self.pubsub == old(self).pubsub,
                self.routing == old(self).routing,
                forall|qid: u64|
                    #[trigger] self.queries.has_query(qid) ==> old(self).queries.has_query(qid)
                        && self.queries.query_of(qid) == old(self).queries.query_of(qid),
                forall|qid: u64|
                    old(self).queries.has_query(qid) ==> #[trigger] self.queries.has_query(qid)
                        || events@.contains(
                        Event::Query { event: QueryEvent::TimedOut { id: qid } },
                    ),
                forall|id: u64|
                    #[trigger] self.queries.terminated@.contains(id) ==> old(self).queries.terminated@.contains(id) || !self.queries.has_query(id),
                forall|j: int|
                    0 <= j < events@.len() ==> ((#[trigger] events@[j]) matches Event::Query {
                        event,
                    } && (event matches QueryEvent::TimedOut { id } && old(self).queries.has_query(id) && old(self).queries.query_of(id).deadline < now
                        && !self.queries.has_query(id)
                        && self.queries.terminated@.contains(id))),
            ensures
                forall|i: int|
                    0 <= i < self.queries.active@.len() ==> (#[trigger] self.queries.active@[i]).deadline
                        >= now,
            decreases self.queries.active@.len(),
        {
            let ghost pre = *self;
            let next = self.queries.next_timed_out(now);
            match next {
                Option::Some(ev) => {
                    proof {
                        let tid = ev->TimedOut_id;
                        assert(pre.queries.has_query(tid));
                        assert(old(self).queries.has_query(tid));
                        assert(old(self).queries.query_of(tid) == pre.queries.query_of(tid));
                        assert forall|j: int|
                            0 <= j < events@.len() implies ((#[trigger] events@[j]) matches
                            Event::Query { event } && (event matches QueryEvent::TimedOut { id }
                            && old(self).queries.has_query(id) && old(self).queries.query_of(
                            id,
                        ).deadline < now && !self.queries.has_query(id)
                            && self.queries.terminated@.contains(id))) by {
                            let evj = events@[j];
                            if let Event::Query { event } = evj {
                                if let QueryEvent::TimedOut { id } = event {
                                    if id != tid {
                                        assert(!pre.queries.has_query(id));
                                        assert(!self.queries.has_query(id));
                                        assert(pre.queries.terminated@.contains(id));
                                    }
                                }
                            }
                        }
                    }
                    let ghost events_top = events@;
                    events.push(Event::Query { event: ev });
                    proof {
                        let tid = ev->TimedOut_id;
                        assert(ev == (QueryEvent::TimedOut { id: tid }));
                        assert(events@.last() == (Event::Query {
                            event: QueryEvent::TimedOut { id: tid },
                        }));
                        assert forall|qid: u64|
                            old(self).queries.has_query(qid) implies #[trigger] self.queries.has_query(
                            qid,
                        ) || events@.contains(
                            Event::Query { event: QueryEvent::TimedOut { id: qid } },
                        ) by {
                            let target = Event::Query {
                                event: QueryEvent::TimedOut { id: qid },
                            };
                            if !self.queries.has_query(qid) {
                                if qid == tid {
                                    assert(events@[events@.len() - 1] == target);
                                } else {
                                    assert(!pre.queries.has_query(qid));
                                    assert(events_top.contains(target));
                                    let j = choose|j: int|
                                        0 <= j < events_top.len() && events_top[j] == target;
                                    assert(events@[j] == target);
                                }
                            }
                        }
                    }
                },
                Option::None => {
                    break ;
                },
            }
        }
        proof {
            assert forall|qid: u64|
                old(self).queries.has_query(qid) && old(self).queries.query_of(qid).deadline
                    < now implies events@.contains(
                Event::Query { event: QueryEvent::TimedOut { id: qid } },
            ) by {
                if self.queries.has_query(qid) {
                    let i = choose|i: int|
                        0 <= i < self.queries.active@.len() && (#[trigger] self.queries.active@[i]).id
                            == qid;
                    assert(self.queries.active@[i].deadline >= now);
                    assert(self.queries.query_of(qid) == self.queries.active@[i]) by {
                        let c = choose|c: int|
                            0 <= c < self.queries.active@.len() && (
                            #[trigger] self.queries.active@[c]).id == qid;
                        if c != i {
                            assert(self.queries.active@[c].id == self.queries.active@[i].id);
                        }
                    }
                }
            }
            assert forall|qid: u64|
                old(self).queries.has_query(qid) && old(self).queries.query_of(qid).deadline
                    >= now implies #[trigger] self.queries.has_query(qid)
                && self.queries.query_of(qid) == old(self).queries.query_of(qid) by {
                if !self.queries.has_query(qid) {
                    let target = Event::Query { event: QueryEvent::TimedOut { id: qid } };
                    assert(events@.contains(target));
                    let j = choose|j: int| 0 <= j < events@.len() && events@[j] == target;
                }
            }
        }
        events
    }
}

/// Wraps each contact in a transport action asking it the query's question.
fn send_query_actions(contacts: &Vec<u64>, query_id: u64, kind: QueryKind, target: u64) -> (r: Vec<
    Action,
>)
    ensures
        r@.len() == contacts@.len(),
        forall|i: int|
            0 <= i < r@.len() ==> ((#[trigger] r@[i]) matches Action::SendQuery {
                peer,
                query_id: qi,
                kind: k2,
                target: t2,
            } && peer == contacts@[i] && qi == query_id && k2 == kind && t2 == target),
{
    let mut r: Vec<Action> = Vec::new();
    let mut i: usize = 0;
    while i < contacts.len()
        invariant
            i <= contacts@.len(),
            r@.len() == i,
            forall|j: int|
                0 <= j < i ==> ((#[trigger] r@[j]) matches Action::SendQuery {
                    peer,
                    query_id: qi,
                    kind: k2,
                    target: t2,
                } && peer == contacts@[j] && qi == query_id && k2 == kind && t2 == target),
        decreases contacts@.len() - i,
    {
        r.push(Action::SendQuery { peer: contacts[i], query_id, kind, target });
        i = i + 1;
    }
    r
}

/// Wraps each forwarding target in a transport action carrying the message.
fn forward_actions(targets: &Vec<u64>, topic: &Vec<u8>, payload: &Vec<u8>) -> (r: Vec<Action>)
    ensures
        r@.len() == targets@.len(),
        forall|i: int|
            0 <= i < r@.len() ==> ((#[trigger] r@[i]) matches Action::ForwardMessage {
                peer,
                topic: t,
                payload: pl,
            } && peer == targets@[i] && t@ == topic@ && pl@ == payload@),
{
    let mut r: Vec<Action> = Vec::new();
    let mut i: usize = 0;
    while i < targets.len()
        invariant
            i <= targets@.len(),
            r@.len() == i,
            forall|j: int|
                0 <= j < i ==> ((#[trigger] r@[j]) matches Action::ForwardMessage {
                    peer,
                    topic: t,
                    payload: pl,
                } && peer == targets@[j] && t@ == topic@ && pl@ == payload@),
        decreases targets@.len() - i,
    {
        let t = crate::bytes::sub_bytes(topic, 0, topic.len());
        let pl = crate::bytes::sub_bytes(payload, 0, payload.len());
        proof {
            assert(t@ =~= topic@);
            assert(pl@ =~= payload@);
        }
        r.push(Action::ForwardMessage { peer: targets[i], topic: t, payload: pl });
        i = i + 1;
    }
    r
}

} // verus!
