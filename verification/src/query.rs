//! Kademlia-style query engine: iterative lookups driven against the
//! routing table and the network, with in-flight query tracking and
//! exactly-once terminal outcomes.
//!
//! A query moves from in-progress to exactly one of two terminal states,
//! completed or timed out, and its identifier is never reused: identifiers
//! grow monotonically and terminated ones are retired for good.  A peer
//! contacted once for a query is never contacted again for it.

use vstd::prelude::*;
use crate::bytes::{bytes_eq, sub_bytes};
use crate::routing::{insert_by_distance, sorted_by_distance};

verus! {

/// Fan-out: how many peers a query keeps in flight (Kademlia's alpha).
pub const QUERY_FANOUT: usize = 3;

/// A find-closest-peers or bootstrap query completes once this many peers
/// have responded (Kademlia's K).
pub const CLOSEST_GROUP: usize = 20;

/// Ticks from creation to a query's deadline.
pub const QUERY_TIMEOUT: u64 = 60;

/// Whether a sequence of peers has no repeated element.
pub open spec fn seq_distinct(s: Seq<u64>) -> bool {
    forall|i: int, j: int| 0 <= i < j < s.len() ==> s[i] != s[j]
}

/// A DHT record.
pub struct Record {
    pub key: Vec<u8>,
    pub value: Vec<u8>,
    pub publisher: Option<u64>,
    pub expiry: Option<u64>,
}

impl Record {
    /// A deep copy of this record.
    pub fn duplicate(&self) -> (r: Record)
        ensures
            r.key@ == self.key@,
            r.value@ == self.value@,
            r.publisher == self.publisher,
            r.expiry == self.expiry,
    {
        Record {
            key: sub_bytes(&self.key, 0, self.key.len()),
            value: sub_bytes(&self.value, 0, self.value.len()),
            publisher: if let Option::Some(p) = self.publisher {
                Option::Some(p)
            } else {
                Option::None
            },
            expiry: if let Option::Some(e) = self.expiry {
                Option::Some(e)
            } else {
                Option::None
            },
        }
    }
}

/// Whether a record's expiry has passed at `now`.
pub open spec fn expired(r: Record, now: u64) -> bool {
    match r.expiry {
        Option::Some(e) => e < now,
        Option::None => false,
    }
}

/// What a query is after.
#[derive(Clone, Copy, PartialEq, Eq, Structural, Debug)]
pub enum QueryKind {
    Bootstrap,
    FindClosestPeers,
    GetProviders,
    GetRecord,
    PutRecord,
    StartProviding,
}

/// An in-flight query.
pub struct Query {
    pub id: u64,
    pub kind: QueryKind,
    pub key: Vec<u8>,
    pub target: u64,
    pub quorum: usize,
    pub pending: Vec<u64>,
    pub awaiting: Vec<u64>,
    pub contacted: Vec<u64>,
    pub responders: Vec<u64>,
    pub records: Vec<Record>,
    pub providers: Vec<u64>,
    pub acks: u64,
    pub deadline: u64,
}

/// A query's internal consistency: a positive quorum, peers still to
/// contact never contacted before and never listed twice, answers only
/// counted from peers that were contacted, and each responder recorded
/// exactly once — a peer that answered is never awaited again.
pub open spec fn query_wf(q: Query) -> bool {
    &&& q.quorum >= 1
    &&& seq_distinct(q.pending@)
    &&& forall|p: u64| q.pending@.contains(p) ==> !q.contacted@.contains(p)
    &&& seq_distinct(q.awaiting@)
    &&& forall|p: u64| q.awaiting@.contains(p) ==> q.contacted@.contains(p)
    &&& forall|i: int| 0 <= i < q.records@.len() ==> (#[trigger] q.records@[i]).key@ == q.key@
    &&& q.acks <= q.responders@.len() + 1
    &&& seq_distinct(q.responders@)
    &&& forall|p: u64| q.responders@.contains(p) ==> q.contacted@.contains(p)
    &&& forall|p: u64| q.responders@.contains(p) ==> !q.awaiting@.contains(p)
}

/// The query has exhausted its candidates: nothing pending, nothing awaited.
pub open spec fn exhausted(q: Query) -> bool {
    q.pending@.len() == 0 && q.awaiting@.len() == 0
}

/// The query already gathered what it was after.
///
/// A find-closest-peers or bootstrap query succeeds once [`CLOSEST_GROUP`]
/// peers have responded; short of that it runs until its candidates are
/// exhausted.  Exhaustion subsumes "no peer closer than the current best
/// remains to query" — once nothing is pending or awaited, no closer peer
/// remains — but no earlier distance-based cut-off is applied: that is a
/// deliberately conservative completion policy.
pub open spec fn success_now(q: Query) -> bool {
    match q.kind {
        QueryKind::GetRecord => q.records@.len() >= q.quorum,
        QueryKind::PutRecord => q.acks >= q.quorum,
        QueryKind::StartProviding => q.acks >= q.quorum,
        QueryKind::FindClosestPeers => q.responders@.len() >= CLOSEST_GROUP,
        QueryKind::Bootstrap => q.responders@.len() >= CLOSEST_GROUP,
        QueryKind::GetProviders => false,
    }
}

/// A query completes as soon as it succeeds or runs out of candidates.
pub open spec fn done(q: Query) -> bool {
    success_now(q) || exhausted(q)
}

/// The terminal outcome of a completed query.
pub enum QueryOutcome {
    /// Peers found by a find-closest-peers query, closest first.
    ClosestPeers(Vec<u64>),
    /// A bootstrap pass over the routing table finished.
    BootstrapDone,
    /// Matching records, at least a quorum of them.
    FoundRecords(Vec<Record>),
    /// Candidates exhausted with fewer matching records than the quorum.
    NotFound,
    /// A quorum of peers acknowledged storage.
    PutConfirmed,
    /// Candidates exhausted with fewer acknowledgments than the quorum.
    QuorumFailed,
    /// The accumulated provider list; may be empty.
    Providers(Vec<u64>),
}

/// A terminal query event: exactly one is emitted per query.
pub enum QueryEvent {
    Completed { id: u64, outcome: QueryOutcome },
    TimedOut { id: u64 },
}

impl QueryEvent {
    /// The query this event terminates.
    pub open spec fn qid(self) -> u64 {
        match self {
            QueryEvent::Completed { id, .. } => id,
            QueryEvent::TimedOut { id } => id,
        }
    }
}

/// What one contacted peer answered.
pub struct Response {
    pub closer_peers: Vec<u64>,
    pub value: Option<Vec<u8>>,
    pub providers: Vec<u64>,
    pub ack: bool,
}

/// The pending list after merging newly learned peers: each one appended in
/// order unless it is the local peer, was already contacted, or is already
/// pending.
pub open spec fn merge_pending(
    pending: Seq<u64>,
    contacted: Seq<u64>,
    local: u64,
    closer: Seq<u64>,
) -> Seq<u64>
    decreases closer.len(),
{
    if closer.len() == 0 {
        pending
    } else {
        let rest = merge_pending(pending, contacted, local, closer.drop_last());
        let p = closer.last();
        if p != local && !contacted.contains(p) && !rest.contains(p) {
            rest.push(p)
        } else {
            rest
        }
    }
}

/// A counter increment that saturates instead of wrapping.
pub open spec fn inc_sat(a: u64) -> u64 {
    if a == u64::MAX {
        a
    } else {
        (a + 1) as u64
    }
}

/// How many pending peers a query may put in flight: up to the fan-out,
/// counting those already awaited.
pub open spec fn dispatch_count(pending: nat, awaiting: nat) -> nat {
    if awaiting >= QUERY_FANOUT {
        0
    } else if pending < QUERY_FANOUT - awaiting {
        pending
    } else {
        (QUERY_FANOUT - awaiting) as nat
    }
}

/// Whether `v` holds `p`.
fn peers_contain(v: &Vec<u64>, p: u64) -> (r: bool)
    ensures
        r == v@.contains(p),
{
    let mut i: usize = 0;
    while i < v.len()
        invariant
            i <= v@.len(),
            forall|j: int| 0 <= j < i ==> v@[j] != p,
        decreases v@.len() - i,
    {
        if v[i] == p {
            return true;
        }
        i = i + 1;
    }
    false
}

/// Folds one peer's answer into the query: the peer moves from awaited to
/// responded, newly learned peers join the pending list, and the answer's
/// record, acknowledgment or providers are collected according to the
/// query's kind.
fn apply_response(q: &mut Query, local: u64, from: u64, resp: Response)
    requires
        query_wf(*old(q)),
        old(q).awaiting@.contains(from),
    ensures
        query_wf(*final(q)),
        final(q).id == old(q).id,
        final(q).kind == old(q).kind,
        final(q).key == old(q).key,
        final(q).target == old(q).target,
        final(q).quorum == old(q).quorum,
        final(q).deadline == old(q).deadline,
        final(q).contacted == old(q).contacted,
        final(q).awaiting@ == old(q).awaiting@.remove(old(q).awaiting@.index_of(from)),
        final(q).responders@ == old(q).responders@.push(from),
        final(q).pending@ == merge_pending(
            old(q).pending@,
            old(q).contacted@,
            local,
            resp.closer_peers@,
        ),
        final(q).acks == (if (old(q).kind == QueryKind::PutRecord || old(q).kind
            == QueryKind::StartProviding) && resp.ack {
            inc_sat(old(q).acks)
        } else {
            old(q).acks
        }),
        final(q).records@.len() == old(q).records@.len() + (if old(q).kind == QueryKind::GetRecord
            && resp.value is Some {
            1int
        } else {
            0int
        }),
        final(q).records@.subrange(0, old(q).records@.len() as int) == old(q).records@,
        (old(q).kind == QueryKind::GetRecord && resp.value is Some ==> final(q).records@.last().key@
            == old(q).key@ && final(q).records@.last().value@ == resp.value->0@
            && final(q).records@.last().publisher == Option::Some(from)),
        final(q).providers@ == old(q).providers@ + (if old(q).kind == QueryKind::GetProviders {
            resp.providers@
        } else {
            Seq::<u64>::empty()
        }),
{
    // the peer answered: it is no longer awaited
    let mut j: usize = 0;
    while j < q.awaiting.len() && q.awaiting[j] != from
        invariant
            j <= q.awaiting@.len(),
            q == old(q),
            old(q).awaiting@.contains(from),
            forall|i: int| 0 <= i < j ==> old(q).awaiting@[i] != from,
        decreases q.awaiting@.len() - j,
    {
        j = j + 1;
    }
    proof {
        assert(q.awaiting@.contains(from));
        let w = choose|i: int| 0 <= i < q.awaiting@.len() && q.awaiting@[i] == from;
        assert(w >= j);
        assert(q.awaiting@[j as int] == from);
        let ci = old(q).awaiting@.index_of(from);
        assert(0 <= ci < old(q).awaiting@.len() && old(q).awaiting@[ci] == from);
        assert(ci == j) by {
            if ci != j {
                assert(false);  // distinctness of awaiting
            }
        }
    }
    let _ = q.awaiting.remove(j);
    q.responders.push(from);
    proof {
        let aw0 = old(q).awaiting@;
        let rs0 = old(q).responders@;
        assert(aw0[j as int] == from);
        assert(aw0.contains(from));
        assert(!rs0.contains(from));
        assert(q.responders@ == rs0.push(from));
        // the responder is recorded once and is no longer awaited
        assert(seq_distinct(q.responders@)) by {
            assert forall|a: int, b: int|
                0 <= a < b < q.responders@.len() implies q.responders@[a]
                != q.responders@[b] by {
                if b == q.responders@.len() - 1 {
                    assert(q.responders@[a] == rs0[a]);
                    if rs0[a] == from {
                        assert(rs0.contains(from));
                    }
                }
            }
        }
        assert forall|p: u64| q.responders@.contains(p) implies q.contacted@.contains(p) by {
            let a = choose|a: int| 0 <= a < q.responders@.len() && q.responders@[a] == p;
            if a < q.responders@.len() - 1 {
                assert(rs0[a] == p);
                assert(rs0.contains(p));
            }
        }
        assert forall|p: u64| q.responders@.contains(p) implies !q.awaiting@.contains(p) by {
            if q.awaiting@.contains(p) {
                let i = choose|i: int| 0 <= i < q.awaiting@.len() && q.awaiting@[i] == p;
                let oi: int = if i < j {
                    i
                } else {
                    i + 1
                };
                assert(q.awaiting@[i] == aw0[oi]);
                assert(oi != j);
                assert(aw0[oi] != from);
                assert(aw0.contains(p));
                let a = choose|a: int| 0 <= a < q.responders@.len() && q.responders@[a] == p;
                if a < q.responders@.len() - 1 {
                    assert(rs0[a] == p);
                    assert(rs0.contains(p));
                }
            }
        }
    }
    // merge newly learned peers, skipping self, contacted and duplicates
    let ghost pend0 = q.pending@;
    let ghost q1 = *q;
    let mut i: usize = 0;
    while i < resp.closer_peers.len()
        invariant
            i <= resp.closer_peers@.len(),
            q.pending@ == merge_pending(
                pend0,
                q.contacted@,
                local,
                resp.closer_peers@.subrange(0, i as int),
            ),
            seq_distinct(q.pending@),
            forall|p: u64| q.pending@.contains(p) ==> !q.contacted@.contains(p),
            *q == (Query { pending: q.pending, ..q1 }),
        decreases resp.closer_peers@.len() - i,
    {
        let p = resp.closer_peers[i];
        if p != local && !peers_contain(&q.contacted, p) && !peers_contain(&q.pending, p) {
            q.pending.push(p);
        }
        i = i + 1;
        proof {
            let s = resp.closer_peers@.subrange(0, i as int);
            assert(s.drop_last() =~= resp.closer_peers@.subrange(0, i - 1));
            assert(s.last() == resp.closer_peers@[i - 1]);
        }
    }
    proof {
        assert(resp.closer_peers@.subrange(0, resp.closer_peers@.len() as int)
            =~= resp.closer_peers@);
    }
    // collect what the answer carried
    match q.kind {
        QueryKind::GetRecord => {
            if let Option::Some(v) = resp.value {
                let kcopy = sub_bytes(&q.key, 0, q.key.len());
                proof {
                    assert(kcopy@ =~= q.key@);
                }
                q.records.push(
                    Record {
                        key: kcopy,
                        value: v,
                        publisher: Option::Some(from),
                        expiry: Option::None,
                    },
                );
            }
        },
        QueryKind::PutRecord => {
            if resp.ack {
                if q.acks < u64::MAX {
                    q.acks = q.acks + 1;
                }
            }
        },
        QueryKind::StartProviding => {
            if resp.ack {
                if q.acks < u64::MAX {
                    q.acks = q.acks + 1;
                }
            }
        },
        QueryKind::GetProviders => {
            let ghost q2 = *q;
            let mut k: usize = 0;
            while k < resp.providers.len()
                invariant
                    k <= resp.providers@.len(),
                    q.providers@ =~= q2.providers@ + resp.providers@.subrange(0, k as int),
                    *q == (Query { providers: q.providers, ..q2 }),
                decreases resp.providers@.len() - k,
            {
                q.providers.push(resp.providers[k]);
                k = k + 1;
                proof {
                    assert(q.providers@ =~= q2.providers@ + resp.providers@.subrange(
                        0,
                        k as int,
                    ));
                }
            }
            proof {
                assert(resp.providers@.subrange(0, resp.providers@.len() as int)
                    =~= resp.providers@);
            }
        },
        _ => {},
    }
}

/// Moves pending peers into flight, up to the fan-out, and returns them:
/// they are the peers to contact now.
fn dispatch(q: &mut Query) -> (contacts: Vec<u64>)
    requires
        query_wf(*old(q)),
    ensures
        query_wf(*final(q)),
        *final(q) == (Query {
            pending: final(q).pending,
            awaiting: final(q).awaiting,
            contacted: final(q).contacted,
            ..*old(q)
        }),
        ({
            let moved = dispatch_count(old(q).pending@.len(), old(q).awaiting@.len()) as int;
            &&& contacts@ == old(q).pending@.subrange(0, moved)
            &&& final(q).pending@ == old(q).pending@.subrange(moved, old(q).pending@.len() as int)
            &&& final(q).awaiting@ == old(q).awaiting@ + contacts@
            &&& final(q).contacted@ == old(q).contacted@ + contacts@
        }),
{
    let mut contacts: Vec<u64> = Vec::new();
    let ghost q0 = *old(q);
    let ghost moved = dispatch_count(q0.pending@.len(), q0.awaiting@.len()) as int;
    while q.awaiting.len() < QUERY_FANOUT && q.pending.len() > 0
        invariant
            query_wf(*q),
            query_wf(q0),
            *q == (Query {
                pending: q.pending,
                awaiting: q.awaiting,
                contacted: q.contacted,
                ..q0
            }),
            contacts@.len() <= moved,
            contacts@ == q0.pending@.subrange(0, contacts@.len() as int),
            q.pending@ == q0.pending@.subrange(contacts@.len() as int, q0.pending@.len() as int),
            q.awaiting@ == q0.awaiting@ + contacts@,
            q.contacted@ == q0.contacted@ + contacts@,
            moved == dispatch_count(q0.pending@.len(), q0.awaiting@.len()),
            q.awaiting@.len() < QUERY_FANOUT ==> contacts@.len() < moved || q.pending@.len() == 0,
        decreases q.pending@.len(),
    {
        let p = q.pending.remove(0);
        q.awaiting.push(p);
        q.contacted.push(p);
        contacts.push(p);
        proof {
            let n = contacts@.len() as int;
            assert(q0.pending@.subrange(n - 1, q0.pending@.len() as int)[0] == q0.pending@[n - 1]);
            assert(contacts@ =~= q0.pending@.subrange(0, n));
            assert(q.pending@ =~= q0.pending@.subrange(n, q0.pending@.len() as int));
            // the moved peer was pending, so not contacted before and not awaited
            assert(q0.pending@.contains(q0.pending@[n - 1]));
            assert forall|pp: u64| q.pending@.contains(pp) implies !q.contacted@.contains(
                pp,
            ) by {
                let ji = choose|ji: int| 0 <= ji < q.pending@.len() && q.pending@[ji] == pp;
                assert(q0.pending@[ji + n] == pp);
                assert(q0.pending@.contains(pp));
                if q.contacted@.contains(pp) {
                    let ci = choose|ci: int|
                        0 <= ci < q.contacted@.len() && q.contacted@[ci] == pp;
                    if ci < q0.contacted@.len() {
                        assert(q0.contacted@.contains(pp));
                    } else {
                        // pp would be one of the moved peers: twice in q0.pending
                        let mi = ci - q0.contacted@.len();
                        assert(contacts@[mi] == pp);
                        assert(q0.pending@[mi] == pp);
                    }
                }
            }
            assert forall|pp: u64| q.awaiting@.contains(pp) implies q.contacted@.contains(
                pp,
            ) by {
                let ai = choose|ai: int| 0 <= ai < q.awaiting@.len() && q.awaiting@[ai] == pp;
                if ai < q0.awaiting@.len() {
                    assert(q0.awaiting@.contains(pp));
                    assert(q0.contacted@.contains(pp));
                    let ci = choose|ci: int|
                        0 <= ci < q0.contacted@.len() && q0.contacted@[ci] == pp;
                    assert(q.contacted@[ci] == pp);
                } else {
                    let mi = ai - q0.awaiting@.len();
                    assert(q.contacted@[q0.contacted@.len() + mi] == pp);
                }
            }
            assert(seq_distinct(q.awaiting@)) by {
                assert forall|i: int, j: int|
                    0 <= i < j < q.awaiting@.len() implies q.awaiting@[i] != q.awaiting@[j] by {
                    let la = q0.awaiting@.len() as int;
                    if j < la {
                    } else if i < la {
                        // an old awaited peer equals a moved one: but moved ones
                        // were pending, so never contacted, while awaited ones are
                        if q.awaiting@[i] == q.awaiting@[j] {
                            assert(q0.awaiting@.contains(q.awaiting@[i]));
                            assert(q0.contacted@.contains(q.awaiting@[i]));
                            assert(q0.pending@[j - la] == q.awaiting@[j]);
                            assert(q0.pending@.contains(q.awaiting@[j]));
                        }
                    } else {
                        if q.awaiting@[i] == q.awaiting@[j] {
                            assert(q0.pending@[i - la] == q0.pending@[j - la]);
                        }
                    }
                }
            }
            // responders are untouched: still contacted, still not awaited
            assert forall|pp: u64| q.responders@.contains(pp) implies q.contacted@.contains(
                pp,
            ) by {
                assert(q0.responders@.contains(pp));
                assert(q0.contacted@.contains(pp));
                let ci = choose|ci: int|
                    0 <= ci < q0.contacted@.len() && q0.contacted@[ci] == pp;
                assert(q.contacted@[ci] == pp);
            }
            assert forall|pp: u64| q.responders@.contains(pp) implies !q.awaiting@.contains(
                pp,
            ) by {
                assert(q0.responders@.contains(pp));
                assert(q0.contacted@.contains(pp));
                if q.awaiting@.contains(pp) {
                    let ai = choose|ai: int| 0 <= ai < q.awaiting@.len() && q.awaiting@[ai] == pp;
                    let la = q0.awaiting@.len() as int;
                    if ai < la {
                        assert(q0.awaiting@[ai] == pp);
                        assert(q0.awaiting@.contains(pp));
                    } else {
                        assert(contacts@[ai - la] == pp);
                        assert(q0.pending@[ai - la] == pp);
                        assert(q0.pending@.contains(pp));
                    }
                }
            }
        }
    }
    proof {
        assert(contacts@.len() == moved) by {
            if q.awaiting@.len() >= QUERY_FANOUT {
                if contacts@.len() < moved {
                    assert(q0.awaiting@.len() + moved <= QUERY_FANOUT);
                }
            }
        }
    }
    contacts
}

/// Orders distinct peers by ascending XOR distance from `key`.
fn sort_by_distance(v: &Vec<u64>, key: u64) -> (out: Vec<u64>)
    requires
        seq_distinct(v@),
    ensures
        sorted_by_distance(out@, key),
        out@.len() == v@.len(),
        forall|p: u64| #[trigger] out@.contains(p) <==> v@.contains(p),
{
    let mut out: Vec<u64> = Vec::new();
    let mut i: usize = 0;
    while i < v.len()
        invariant
            i <= v@.len(),
            seq_distinct(v@),
            sorted_by_distance(out@, key),
            out@.len() == i,
            forall|p: u64| #[trigger] out@.contains(p) <==> v@.subrange(0, i as int).contains(p),
        decreases v@.len() - i,
    {
        let p = v[i];
        proof {
            assert(!out@.contains(p)) by {
                if v@.subrange(0, i as int).contains(p) {
                    let j = choose|j: int| 0 <= j < i && v@.subrange(0, i as int)[j] == p;
                    assert(v@[j] == v@[i as int]);
                }
            }
        }
        insert_by_distance(&mut out, key, p);
        i = i + 1;
        proof {
            assert forall|q: u64| #[trigger]
                out@.contains(q) <==> v@.subrange(0, i as int).contains(q) by {
                let s = v@.subrange(0, i as int);
                if out@.contains(q) {
                    if q == p {
                        assert(s[i - 1] == q);
                    } else {
                        assert(v@.subrange(0, i - 1).contains(q));
                        let j = choose|j: int|
                            0 <= j < i - 1 && #[trigger] v@.subrange(0, i - 1)[j] == q;
                        assert(s[j] == q);
                    }
                }
                if s.contains(q) && q != p {
                    let j = choose|j: int| 0 <= j < s.len() && s[j] == q;
                    assert(j < i - 1);
                    assert(v@.subrange(0, i - 1)[j] == q);
                    assert(v@.subrange(0, i - 1).contains(q));
                }
            }
        }
    }
    proof {
        assert(v@.subrange(0, v@.len() as int) =~= v@);
    }
    out
}

/// Whether the query is done: successful or out of candidates.
fn is_done(q: &Query) -> (r: bool)
    ensures
        r == done(*q),
{
    let success = match q.kind {
        QueryKind::GetRecord => q.records.len() >= q.quorum,
        QueryKind::PutRecord => q.acks >= q.quorum as u64,
        QueryKind::StartProviding => q.acks >= q.quorum as u64,
        QueryKind::FindClosestPeers => q.responders.len() >= CLOSEST_GROUP,
        QueryKind::Bootstrap => q.responders.len() >= CLOSEST_GROUP,
        QueryKind::GetProviders => false,
    };
    success || (q.pending.len() == 0 && q.awaiting.len() == 0)
}

/// The terminal outcome of a done query, built from what it gathered; the
/// peers a find-closest-peers query found come out ordered by ascending XOR
/// distance from the target.
fn into_outcome(q: Query) -> (o: QueryOutcome)
    requires
        seq_distinct(q.responders@),
    ensures
        (match q.kind {
            QueryKind::GetRecord => if q.records@.len() >= q.quorum {
                o matches QueryOutcome::FoundRecords(rs) && rs@ == q.records@
            } else {
                o == QueryOutcome::NotFound
            },
            QueryKind::PutRecord => if q.acks >= q.quorum {
                o == QueryOutcome::PutConfirmed
            } else {
                o == QueryOutcome::QuorumFailed
            },
            QueryKind::StartProviding => if q.acks >= q.quorum {
                o == QueryOutcome::PutConfirmed
            } else {
                o == QueryOutcome::QuorumFailed
            },
            QueryKind::FindClosestPeers => o matches QueryOutcome::ClosestPeers(ps)
                && sorted_by_distance(ps@, q.target) && ps@.len() == q.responders@.len() && (
            forall|p: u64| #[trigger] ps@.contains(p) <==> q.responders@.contains(p)),
            QueryKind::Bootstrap => o == QueryOutcome::BootstrapDone,
            QueryKind::GetProviders => o matches QueryOutcome::Providers(ps) && ps@
                == q.providers@,
        }),
{
    match q.kind {
        QueryKind::GetRecord => {
            if q.records.len() >= q.quorum {
                QueryOutcome::FoundRecords(q.records)
            } else {
                QueryOutcome::NotFound
            }
        },
        QueryKind::PutRecord => {
            if q.acks >= q.quorum as u64 {
                QueryOutcome::PutConfirmed
            } else {
                QueryOutcome::QuorumFailed
            }
        },
        QueryKind::StartProviding => {
            if q.acks >= q.quorum as u64 {
                QueryOutcome::PutConfirmed
            } else {
                QueryOutcome::QuorumFailed
            }
        },
        QueryKind::FindClosestPeers => QueryOutcome::ClosestPeers(
            sort_by_distance(&q.responders, q.target),
        ),
        QueryKind::Bootstrap => QueryOutcome::BootstrapDone,
        QueryKind::GetProviders => QueryOutcome::Providers(q.providers),
    }
}

/// Copies a vector of peer identifiers.
pub fn copy_peers(s: &Vec<u64>) -> (r: Vec<u64>)
    ensures
        r@ == s@,
{
    let mut r: Vec<u64> = Vec::new();
    let mut i: usize = 0;
    while i < s.len()
        invariant
            i <= s@.len(),
            r@ =~= s@.subrange(0, i as int),
        decreases s@.len() - i,
    {
        r.push(s[i]);
        i = i + 1;
    }
    proof {
        assert(r@ =~= s@);
    }
    r
}

/// Everything an accepted answer does to the engine: `pre` held query `id`
/// awaiting `from`, and the answer `resp` was folded in, giving `post` with
/// the terminal event `ev` and the peers `contacts` to contact next.
///
/// The folded-in query records `from` as a responder, merges the newly
/// learned peers into the pending list, and collects the answer's record,
/// acknowledgment or providers according to the query's kind.  If that
/// makes the query successful, or leaves nothing pending or awaited, the
/// query is retired with exactly one Completed event whose outcome the
/// gathered data determines; otherwise there is no event, the updated query
/// stays in flight, and `contacts` are exactly the pending peers moved into
/// flight, up to the fan-out.
pub open spec fn response_post(
    pre: QueryEngine,
    post: QueryEngine,
    id: u64,
    from: u64,
    resp: Response,
    ev: Option<QueryEvent>,
    contacts: Seq<u64>,
) -> bool {
    let oldq = pre.query_of(id);
    let pending1 = merge_pending(oldq.pending@, oldq.contacted@, pre.local, resp.closer_peers@);
    let awaiting1 = oldq.awaiting@.remove(oldq.awaiting@.index_of(from));
    let records1 = oldq.records@.len() + (if oldq.kind == QueryKind::GetRecord
        && resp.value is Some {
        1int
    } else {
        0int
    });
    let acks1 = (if (oldq.kind == QueryKind::PutRecord || oldq.kind == QueryKind::StartProviding)
        && resp.ack {
        inc_sat(oldq.acks)
    } else {
        oldq.acks
    });
    let responders1 = oldq.responders@.push(from);
    let success1 = match oldq.kind {
        QueryKind::GetRecord => records1 >= oldq.quorum,
        QueryKind::PutRecord => acks1 >= oldq.quorum,
        QueryKind::StartProviding => acks1 >= oldq.quorum,
        QueryKind::FindClosestPeers => responders1.len() >= CLOSEST_GROUP,
        QueryKind::Bootstrap => responders1.len() >= CLOSEST_GROUP,
        QueryKind::GetProviders => false,
    };
    if success1 || (pending1.len() == 0 && awaiting1.len() == 0) {
        &&& !post.has_query(id)
        &&& post.terminated@ == pre.terminated@.insert(id)
        &&& contacts.len() == 0
        &&& (ev matches Option::Some(e) && e matches QueryEvent::Completed { id: eid, outcome }
            && eid == id && (match oldq.kind {
            QueryKind::GetRecord => if records1 >= oldq.quorum {
                outcome matches QueryOutcome::FoundRecords(rs) && rs@.len() == records1
                    && rs@.subrange(0, oldq.records@.len() as int) == oldq.records@ && (records1
                    > oldq.records@.len() ==> rs@.last().key@ == oldq.key@ && rs@.last().value@
                    == resp.value->0@ && rs@.last().publisher == Option::Some(from))
            } else {
                outcome == QueryOutcome::NotFound
            },
            QueryKind::PutRecord => if acks1 >= oldq.quorum {
                outcome == QueryOutcome::PutConfirmed
            } else {
                outcome == QueryOutcome::QuorumFailed
            },
            QueryKind::StartProviding => if acks1 >= oldq.quorum {
                outcome == QueryOutcome::PutConfirmed
            } else {
                outcome == QueryOutcome::QuorumFailed
            },
            QueryKind::FindClosestPeers => outcome matches QueryOutcome::ClosestPeers(ps)
                && sorted_by_distance(ps@, oldq.target) && ps@.len() == responders1.len() && (
            forall|p: u64| #[trigger] ps@.contains(p) <==> responders1.contains(p)),
            QueryKind::Bootstrap => outcome == QueryOutcome::BootstrapDone,
            QueryKind::GetProviders => outcome matches QueryOutcome::Providers(ps) && ps@
                == oldq.providers@ + resp.providers@,
        }))
    } else {
        &&& post.terminated == pre.terminated
        &&& ev is None
        &&& post.has_query(id)
        &&& ({
            let moved = dispatch_count(pending1.len(), awaiting1.len()) as int;
            let q = post.query_of(id);
            &&& contacts == pending1.subrange(0, moved)
            &&& q.id == id
            &&& q.kind == oldq.kind
            &&& q.key@ == oldq.key@
            &&& q.target == oldq.target
            &&& q.quorum == oldq.quorum
            &&& q.deadline == oldq.deadline
            &&& q.pending@ == pending1.subrange(moved, pending1.len() as int)
            &&& q.awaiting@ == awaiting1 + pending1.subrange(0, moved)
            &&& q.contacted@ == oldq.contacted@ + pending1.subrange(0, moved)
            &&& q.responders@ == responders1
            &&& q.acks == acks1
            &&& q.records@.len() == records1
            &&& q.providers@ == oldq.providers@ + (if oldq.kind == QueryKind::GetProviders {
                resp.providers@
            } else {
                Seq::<u64>::empty()
            })
        })
    }
}

/// Store and provider lookups depend only on the store and provider fields:
/// two engine states sharing them agree on every lookup.
proof fn lemma_state_transfer(a: QueryEngine, b: QueryEngine)
    requires
        a.store@ == b.store@,
        a.provided@ == b.provided@,
    ensures
        forall|k: Seq<u8>| #[trigger] b.store_has(k) <==> a.store_has(k),
        forall|k: Seq<u8>| #[trigger] b.store_at(k) == a.store_at(k),
        forall|k: Seq<u8>| #[trigger] b.provides(k) <==> a.provides(k),
{
}

/// A query's deadline, saturating at the end of time.
pub open spec fn deadline_spec(now: u64) -> u64 {
    if now > u64::MAX - QUERY_TIMEOUT {
        u64::MAX
    } else {
        (now + QUERY_TIMEOUT) as u64
    }
}

/// The query engine: the in-flight query set, the local record store, and
/// the keys this node provides.
pub struct QueryEngine {
    pub local: u64,
    pub next_id: u64,
    pub active: Vec<Query>,
    pub terminated: Ghost<Set<u64>>,
    pub store: Vec<Record>,
    pub provided: Vec<Vec<u8>>,
}

/// Whether some query in `active` carries `id`.
pub open spec fn active_has(active: Seq<Query>, id: u64) -> bool {
    exists|i: int| 0 <= i < active.len() && (#[trigger] active[i]).id == id
}

/// The query in `active` carrying `id`.
pub open spec fn active_at(active: Seq<Query>, id: u64) -> Query {
    active[choose|i: int| 0 <= i < active.len() && (#[trigger] active[i]).id == id]
}

/// Whether some record in `store` sits under `key`.
pub open spec fn records_have(store: Seq<Record>, key: Seq<u8>) -> bool {
    exists|i: int| 0 <= i < store.len() && (#[trigger] store[i]).key@ == key
}

/// The record in `store` under `key`.
pub open spec fn record_at(store: Seq<Record>, key: Seq<u8>) -> Record {
    store[choose|i: int| 0 <= i < store.len() && (#[trigger] store[i]).key@ == key]
}

/// Whether `keys` holds `key`.
pub open spec fn keys_have(keys: Seq<Vec<u8>>, key: Seq<u8>) -> bool {
    exists|i: int| 0 <= i < keys.len() && (#[trigger] keys[i])@ == key
}

impl QueryEngine {
    /// Whether query `id` is in flight.
    pub open spec fn has_query(self, id: u64) -> bool {
        active_has(self.active@, id)
    }

    /// The in-flight query with identifier `id`.
    pub open spec fn query_of(self, id: u64) -> Query {
        active_at(self.active@, id)
    }

    /// Whether the local store holds a record under `key`.
    pub open spec fn store_has(self, key: Seq<u8>) -> bool {
        records_have(self.store@, key)
    }

    /// The stored record under `key`.
    pub open spec fn store_at(self, key: Seq<u8>) -> Record {
        record_at(self.store@, key)
    }

    /// Whether this node provides `key`.
    pub open spec fn provides(self, key: Seq<u8>) -> bool {
        keys_have(self.provided@, key)
    }

    /// Well-formedness: in-flight identifiers are pairwise distinct, below
    /// the next fresh one and never among the terminated; every in-flight
    /// query is internally consistent; store keys are unique.
    pub open spec fn wf(self) -> bool {
        &&& forall|i: int, j: int|
            0 <= i < j < self.active@.len() ==> (#[trigger] self.active@[i]).id != (
            #[trigger] self.active@[j]).id
        &&& forall|i: int|
            0 <= i < self.active@.len() ==> {
                &&& (#[trigger] self.active@[i]).id < self.next_id
                &&& !self.terminated@.contains(self.active@[i].id)
                &&& query_wf(self.active@[i])
            }
        &&& forall|id: u64| #[trigger] self.terminated@.contains(id) ==> id < self.next_id
        &&& forall|i: int, j: int|
            0 <= i < j < self.store@.len() ==> (#[trigger] self.store@[i]).key@ != (
            #[trigger] self.store@[j]).key@
    }

    /// A fresh engine for the node `local`.
    pub fn new(local: u64) -> (qe: QueryEngine)
        ensures
            qe.wf(),
            qe.local == local,
            qe.next_id == 0,
            qe.active@.len() == 0,
            qe.terminated@ == Set::<u64>::empty(),
            forall|k: Seq<u8>| !qe.store_has(k),
            forall|k: Seq<u8>| !qe.provides(k),
    {
        QueryEngine {
            local,
            next_id: 0,
            active: Vec::new(),
            terminated: Ghost(Set::empty()),
            store: Vec::new(),
            provided: Vec::new(),
        }
    }

    /// Stores a record locally, overwriting any record under the same key.
    pub fn put_local(&mut self, key: Vec<u8>, value: Vec<u8>, publisher: Option<u64>, expiry: Option<
        u64,
    >)
        requires
            old(self).wf(),
        ensures
            final(self).wf(),
            final(self).store_has(key@),
            forall|k: Seq<u8>|
                #[trigger] final(self).store_has(k) <==> old(self).store_has(k) || k == key@,
            final(self).store_at(key@).key@ == key@,
            final(self).store_at(key@).value@ == value@,
            final(self).store_at(key@).publisher == publisher,
            final(self).store_at(key@).expiry == expiry,
            forall|k: Seq<u8>|
                old(self).store_has(k) && k != key@ ==> #[trigger] final(self).store_at(k) == old(self).store_at(k),
            final(self).local == old(self).local,
            final(self).next_id == old(self).next_id,
            final(self).active == old(self).active,
            final(self).terminated == old(self).terminated,
            final(self).provided == old(self).provided,
    {
        let ghost olds = self.store@;
        let rec = Record { key, value, publisher, expiry };
        let mut i: usize = 0;
        let mut found = false;
        while i < self.store.len() && !found
            invariant
                i <= self.store@.len(),
                self == old(self),
                !found ==> forall|j: int| 0 <= j < i ==> self.store@[j].key@ != rec.key@,
                found ==> i < self.store@.len() && self.store@[i as int].key@ == rec.key@,
            decreases self.store@.len() - i + if found { 0int } else { 1int },
        {
            if bytes_eq(&self.store[i].key, &rec.key) {
                found = true;
            } else {
                i = i + 1;
            }
        }
        let ghost k = rec.key@;
        if found {
            self.store.set(i, rec);
        } else {
            self.store.push(rec);
        }
        proof {
            let news = self.store@;
            let ni: int = if found {
                i as int
            } else {
                news.len() - 1
            };
            assert(news[ni].key@ == k);
            // unique slot for k in the new store
            assert forall|j: int| 0 <= j < news.len() && j != ni implies (#[trigger] news[j]).key@
                != k by {
                assert(news[j] == olds[j]);
                if found {
                    if olds[j].key@ == k {
                        assert(olds[j].key@ == olds[i as int].key@);
                    }
                }
            }
            assert(self.store_has(k));
            let ci = choose|ii: int|
                0 <= ii < news.len() && (#[trigger] news[ii]).key@ == k;
            assert(ci == ni);
            assert forall|kk: Seq<u8>|
                #[trigger] self.store_has(kk) <==> (old(self).store_has(kk) || kk == k) by {
                if self.store_has(kk) && kk != k {
                    let j = choose|j: int|
                        0 <= j < news.len() && (#[trigger] news[j]).key@ == kk;
                    assert(j != ni);
                    assert(olds[j].key@ == kk);
                }
                if old(self).store_has(kk) && kk != k {
                    let j = choose|j: int|
                        0 <= j < olds.len() && (#[trigger] olds[j]).key@ == kk;
                    assert(j != ni || found == false);
                    if found && j == i {
                        assert(false);
                    }
                    assert(news[j].key@ == kk);
                }
            }
            assert forall|kk: Seq<u8>|
                old(self).store_has(kk) && kk != k implies #[trigger] final(self).store_at(kk)
                == old(self).store_at(kk) by {
                let j1 = choose|j: int|
                    0 <= j < olds.len() && (#[trigger] olds[j]).key@ == kk;
                assert(self.store_has(kk));
                let j2 = choose|j: int|
                    0 <= j < news.len() && (#[trigger] news[j]).key@ == kk;
                assert(0 <= j2 < news.len());
                assert(j2 != ni);
                assert(news[j2] == olds[j2]);
                if j1 != j2 {
                    assert(olds[j1].key@ == olds[j2].key@);
                }
            }
        }
    }

    /// Looks `key` up in the local store.
    pub fn get_local(&self, key: &Vec<u8>) -> (r: Option<Record>)
        requires
            self.wf(),
        ensures
            match r {
                Option::Some(rec) => {
                    &&& self.store_has(key@)
                    &&& rec.key@ == key@
                    &&& rec.value@ == self.store_at(key@).value@
                    &&& rec.publisher == self.store_at(key@).publisher
                    &&& rec.expiry == self.store_at(key@).expiry
                },
                Option::None => !self.store_has(key@),
            },
    {
        let mut i: usize = 0;
        while i < self.store.len()
            invariant
                i <= self.store@.len(),
                self.wf(),
                forall|j: int| 0 <= j < i ==> self.store@[j].key@ != key@,
            decreases self.store@.len() - i,
        {
            if bytes_eq(&self.store[i].key, key) {
                let rec = self.store[i].duplicate();
                proof {
                    let ci = choose|ii: int|
                        0 <= ii < self.store@.len() && (#[trigger] self.store@[ii]).key@ == key@;
                    assert(self.store@[i as int].key@ == key@);
                    if ci != i {
                        assert(self.store@[ci].key@ == self.store@[i as int].key@);
                    }
                }
                return Option::Some(rec);
            }
            i = i + 1;
        }
        Option::None
    }

    /// Creates a query and, when it can already be decided, terminates it on
    /// the spot.
    ///
    /// `seeds` are the closest peers the routing table offered for the
    /// target.  Local effects come first: a put-record stores the record
    /// locally and a start-providing registers the key, each counting as one
    /// acknowledgment toward the quorum; a get-record consults the local
    /// store, a hit counting as one collected record.  If that alone settles
    /// the query (quorum already met), or there is no peer to ask (`seeds`
    /// empty), the single terminal event is returned at once and the fresh
    /// identifier is immediately retired; otherwise the query goes in flight
    /// with every seed contacted.
    /// Applies a new query's local phase: a put-record stores locally, a
    /// start-providing registers the key (each one acknowledgment), a
    /// get-record consults the local store (a hit is one collected record).
    fn local_effects(&mut self, kind: QueryKind, key: &Vec<u8>, value: Option<Vec<u8>>) -> (r: (
        Vec<Record>,
        u64,
    ))
        requires
            old(self).wf(),
            kind == QueryKind::PutRecord ==> value is Some,
        ensures
            final(self).wf(),
            final(self).local == old(self).local,
            final(self).next_id == old(self).next_id,
            final(self).active == old(self).active,
            final(self).terminated == old(self).terminated,
            (if kind == QueryKind::PutRecord {
                &&& final(self).store_has(key@)
                &&& final(self).store_at(key@).key@ == key@
                &&& final(self).store_at(key@).value@ == value->0@
                &&& forall|k: Seq<u8>|
                    #[trigger] final(self).store_has(k) <==> old(self).store_has(k) || k == key@
                &&& forall|k: Seq<u8>|
                    old(self).store_has(k) && k != key@ ==> #[trigger] final(self).store_at(k)
                        == old(self).store_at(k)
            } else {
                final(self).store == old(self).store
            }),
            (if kind == QueryKind::StartProviding {
                &&& final(self).provides(key@)
                &&& forall|k: Seq<u8>|
                    #[trigger] final(self).provides(k) <==> old(self).provides(k) || k == key@
            } else {
                final(self).provided == old(self).provided
            }),
            r.1 == (if kind == QueryKind::PutRecord || kind == QueryKind::StartProviding {
                1int
            } else {
                0int
            }),
            r.0@.len() == (if kind == QueryKind::GetRecord && old(self).store_has(key@) {
                1int
            } else {
                0int
            }),
            r.0@.len() == 1 ==> r.0@[0].key@ == key@ && r.0@[0].value@ == old(self).store_at(
                key@,
            ).value@,
    {
        let mut records: Vec<Record> = Vec::new();
        let mut acks: u64 = 0;
        match kind {
            QueryKind::PutRecord => {
                if let Option::Some(v) = value {
                    let kcopy = sub_bytes(key, 0, key.len());
                    proof {
                        assert(kcopy@ =~= key@);
                    }
                    let publisher = self.local;
                    self.put_local(kcopy, v, Option::Some(publisher), Option::None);
                }
                acks = 1;
            },
            QueryKind::StartProviding => {
                let kcopy = sub_bytes(key, 0, key.len());
                proof {
                    assert(kcopy@ =~= key@);
                }
                self.provide_local(kcopy);
                acks = 1;
            },
            QueryKind::GetRecord => {
                if let Option::Some(rec) = self.get_local(key) {
                    records.push(rec);
                }
            },
            _ => {},
        }
        (records, acks)
    }

    #[verifier::rlimit(100)]
    pub fn start_query(
        &mut self,
        kind: QueryKind,
        key: Vec<u8>,
        target: u64,
        value: Option<Vec<u8>>,
        quorum: usize,
        seeds: Vec<u64>,
        now: u64,
    ) -> (r: (u64, Option<QueryEvent>, Vec<u64>))
        requires
            old(self).wf(),
            quorum >= 1,
            old(self).next_id < u64::MAX,
            seq_distinct(seeds@),
            kind == QueryKind::PutRecord ==> value is Some,
        ensures
            final(self).wf(),
            final(self).local == old(self).local,
            r.0 == old(self).next_id,
            final(self).next_id == old(self).next_id + 1,
            !old(self).has_query(r.0),
            !old(self).terminated@.contains(r.0),
            forall|qid: u64|
                qid != r.0 ==> (#[trigger] final(self).has_query(qid) <==> old(self).has_query(
                    qid,
                )),
            forall|qid: u64|
                qid != r.0 && old(self).has_query(qid) ==> #[trigger] final(self).query_of(qid)
                    == old(self).query_of(qid),
            (if kind == QueryKind::PutRecord {
                &&& final(self).store_has(key@)
                &&& final(self).store_at(key@).key@ == key@
                &&& final(self).store_at(key@).value@ == value->0@
                &&& forall|k: Seq<u8>|
                    #[trigger] final(self).store_has(k) <==> old(self).store_has(k) || k == key@
                &&& forall|k: Seq<u8>|
                    old(self).store_has(k) && k != key@ ==> #[trigger] final(self).store_at(k)
                        == old(self).store_at(k)
            } else {
                final(self).store == old(self).store
            }),
            (if kind == QueryKind::StartProviding {
                &&& final(self).provides(key@)
                &&& forall|k: Seq<u8>|
                    #[trigger] final(self).provides(k) <==> old(self).provides(k) || k == key@
            } else {
                final(self).provided == old(self).provided
            }),
            ({
                let recs0: int = if kind == QueryKind::GetRecord && old(self).store_has(key@) {
                    1
                } else {
                    0
                };
                let acks0: int = if kind == QueryKind::PutRecord || kind
                    == QueryKind::StartProviding {
                    1
                } else {
                    0
                };
                let successful = (kind == QueryKind::GetRecord && recs0 >= quorum) || ((kind
                    == QueryKind::PutRecord || kind == QueryKind::StartProviding) && acks0
                    >= quorum);
                if successful || seeds@.len() == 0 {
                    &&& final(self).terminated@ == old(self).terminated@.insert(r.0)
                    &&& !final(self).has_query(r.0)
                    &&& final(self).active == old(self).active
                    &&& r.2@.len() == 0
                    &&& (r.1 matches Option::Some(ev) && ev matches QueryEvent::Completed {
                        id,
                        outcome,
                    } && id == r.0 && (match kind {
                        QueryKind::GetRecord => if recs0 >= quorum {
                            outcome matches QueryOutcome::FoundRecords(rs) && rs@.len() == 1
                                && rs@[0].key@ == key@ && rs@[0].value@ == old(self).store_at(
                                key@,
                            ).value@
                        } else {
                            outcome == QueryOutcome::NotFound
                        },
                        QueryKind::PutRecord => if acks0 >= quorum {
                            outcome == QueryOutcome::PutConfirmed
                        } else {
                            outcome == QueryOutcome::QuorumFailed
                        },
                        QueryKind::StartProviding => if acks0 >= quorum {
                            outcome == QueryOutcome::PutConfirmed
                        } else {
                            outcome == QueryOutcome::QuorumFailed
                        },
                        QueryKind::FindClosestPeers => outcome
                            matches QueryOutcome::ClosestPeers(ps) && ps@.len() == 0,
                        QueryKind::Bootstrap => outcome == QueryOutcome::BootstrapDone,
                        QueryKind::GetProviders => outcome matches QueryOutcome::Providers(ps)
                            && ps@.len() == 0,
                    }))
                } else {
                    &&& final(self).terminated == old(self).terminated
                    &&& r.1 is None
                    &&& r.2@ == seeds@
                    &&& final(self).has_query(r.0)
                    &&& final(self).active@ == old(self).active@.push(
                        final(self).query_of(r.0),
                    )
                    &&& ({
                        let q = final(self).query_of(r.0);
                        &&& q.id == r.0
                        &&& q.kind == kind
                        &&& q.key@ == key@
                        &&& q.target == target
                        &&& q.quorum == quorum
                        &&& q.pending@.len() == 0
                        &&& q.awaiting@ == seeds@
                        &&& q.contacted@ == seeds@
                        &&& q.responders@.len() == 0
                        &&& q.providers@.len() == 0
                        &&& q.acks == acks0
                        &&& q.records@.len() == recs0
                        &&& (recs0 == 1 ==> q.records@[0].key@ == key@ && q.records@[0].value@
                            == old(self).store_at(key@).value@)
                        &&& q.deadline == deadline_spec(now)
                    })
                }
            }),
    {
        let id = self.next_id;
        self.next_id = self.next_id + 1;
        let deadline: u64 = if now > u64::MAX - QUERY_TIMEOUT {
            u64::MAX
        } else {
            now + QUERY_TIMEOUT
        };
        let (records, acks) = self.local_effects(kind, &key, value);
        let ghost mid = *self;
        proof {
            assert(!old(self).has_query(id)) by {
                if old(self).has_query(id) {
                    let i = choose|i: int|
                        0 <= i < old(self).active@.len() && (#[trigger] old(self).active@[i]).id == id;
                }
            }
        }
        let quorum64: u64 = quorum as u64;
        let done_now: bool = match kind {
            QueryKind::GetRecord => records.len() >= quorum || seeds.len() == 0,
            QueryKind::PutRecord => acks >= quorum64 || seeds.len() == 0,
            QueryKind::StartProviding => acks >= quorum64 || seeds.len() == 0,
            _ => seeds.len() == 0,
        };
        if done_now {
            proof {
                self.terminated@ = self.terminated@.insert(id);
                lemma_state_transfer(mid, *self);
            }
            let outcome = match kind {
                QueryKind::GetRecord => {
                    if records.len() >= quorum {
                        QueryOutcome::FoundRecords(records)
                    } else {
                        QueryOutcome::NotFound
                    }
                },
                QueryKind::PutRecord => {
                    if acks >= quorum64 {
                        QueryOutcome::PutConfirmed
                    } else {
                        QueryOutcome::QuorumFailed
                    }
                },
                QueryKind::StartProviding => {
                    if acks >= quorum64 {
                        QueryOutcome::PutConfirmed
                    } else {
                        QueryOutcome::QuorumFailed
                    }
                },
                QueryKind::FindClosestPeers => QueryOutcome::ClosestPeers(Vec::new()),
                QueryKind::Bootstrap => QueryOutcome::BootstrapDone,
                QueryKind::GetProviders => QueryOutcome::Providers(Vec::new()),
            };
            return (id, Option::Some(QueryEvent::Completed { id, outcome }), Vec::new());
        }
        let awaiting = copy_peers(&seeds);
        let contacts = copy_peers(&seeds);
        let q = Query {
            id,
            kind,
            key,
            target,
            quorum,
            pending: Vec::new(),
            awaiting,
            contacted: seeds,
            responders: Vec::new(),
            records,
            providers: Vec::new(),
            acks,
            deadline,
        };
        self.active.push(q);
        proof {
            lemma_state_transfer(mid, *self);
            let news = self.active@;
            assert(news[news.len() - 1].id == id);
            assert forall|i: int| 0 <= i < news.len() - 1 implies (#[trigger] news[i]).id
                != id by {
                assert(news[i] == old(self).active@[i]);
            }
            let ci = choose|i: int|
                0 <= i < news.len() && (#[trigger] news[i]).id == id;
            assert(ci == news.len() - 1);
            assert forall|qid: u64|
                qid != id && old(self).has_query(qid) implies #[trigger] final(self).query_of(
                qid,
            ) == old(self).query_of(qid) by {
                let i = choose|i: int|
                    0 <= i < old(self).active@.len() && (#[trigger] old(self).active@[i]).id
                        == qid;
                assert(news[i].id == qid);
                assert(self.has_query(qid));
                let c1 = choose|i: int|
                    0 <= i < news.len() && (#[trigger] news[i]).id == qid;
                if c1 != i {
                    assert(news[c1].id == news[i].id);
                }
                let c2 = choose|i: int|
                    0 <= i < old(self).active@.len() && (#[trigger] old(self).active@[i]).id == qid;
                if c2 != i {
                    assert(old(self).active@[c2].id == old(self).active@[i].id);
                }
            }
            assert forall|qid: u64|
                qid != id implies (#[trigger] final(self).has_query(qid) <==> old(self).has_query(qid)) by {
                if self.has_query(qid) {
                    let i = choose|i: int|
                        0 <= i < news.len() && (#[trigger] news[i]).id == qid;
                    assert(i < news.len() - 1);
                    assert(old(self).active@[i].id == qid);
                }
                if old(self).has_query(qid) {
                    let i = choose|i: int|
                        0 <= i < old(self).active@.len() && (#[trigger] old(self).active@[i]).id == qid;
                    assert(news[i].id == qid);
                }
            }
            assert(final(self).active@ =~= old(self).active@.push(final(self).query_of(id)));
        }
        (id, Option::None, contacts)
    }

    /// Handles one peer's answer to query `id`.
    ///
    /// A response for an unknown query, or from a peer the query was not
    /// awaiting, changes nothing.  Otherwise the answer is folded in; if the
    /// query is then done — success, or no candidate left — it leaves the
    /// in-flight set and its single terminal event is returned; if not, up
    /// to the fan-out of newly learned peers are put in flight and returned
    /// as the peers to contact.  [`response_post`] is the exact statement.
    #[verifier::rlimit(100)]
    pub fn on_response(&mut self, id: u64, from: u64, resp: Response) -> (r: (
        Option<QueryEvent>,
        Vec<u64>,
    ))
        requires
            old(self).wf(),
        ensures
            final(self).wf(),
            final(self).local == old(self).local,
            final(self).next_id == old(self).next_id,
            final(self).store == old(self).store,
            final(self).provided == old(self).provided,
            !(old(self).has_query(id) && old(self).query_of(id).awaiting@.contains(from)) ==> {
                &&& *final(self) == *old(self)
                &&& r.0 is None
                &&& r.1@.len() == 0
            },
            forall|qid: u64|
                qid != id ==> (#[trigger] final(self).has_query(qid) <==> old(self).has_query(
                    qid,
                )),
            forall|qid: u64|
                qid != id && old(self).has_query(qid) ==> #[trigger] final(self).query_of(qid)
                    == old(self).query_of(qid),
            (old(self).has_query(id) && old(self).query_of(id).awaiting@.contains(from))
                ==> response_post(*old(self), *final(self), id, from, resp, r.0, r.1@),
    {
        // locate the query
        let mut idx: usize = 0;
        let mut found = false;
        while idx < self.active.len() && !found
            invariant
                idx <= self.active@.len(),
                self == old(self),
                old(self).wf(),
                !found ==> forall|j: int| 0 <= j < idx ==> old(self).active@[j].id != id,
                found ==> idx < self.active@.len() && self.active@[idx as int].id == id,
            decreases self.active@.len() - idx + if found { 0int } else { 1int },
        {
            if self.active[idx].id == id {
                found = true;
            } else {
                idx = idx + 1;
            }
        }
        if !found {
            proof {
                assert(!old(self).has_query(id)) by {
                    if old(self).has_query(id) {
                        let i = choose|i: int|
                            0 <= i < old(self).active@.len() && (#[trigger] old(self).active@[i]).id == id;
                    }
                }
            }
            return (Option::None, Vec::new());
        }
        proof {
            let ci = choose|i: int|
                0 <= i < self.active@.len() && (#[trigger] self.active@[i]).id == id;
            assert(self.active@[idx as int].id == id);
            if ci != idx {
                assert(self.active@[ci].id == self.active@[idx as int].id);
            }
            assert(old(self).query_of(id) == self.active@[idx as int]);
        }
        if !peers_contain(&self.active[idx].awaiting, from) {
            return (Option::None, Vec::new());
        }
        let ghost oldq = old(self).query_of(id);
        let mut q = self.active.remove(idx);
        let local = self.local;
        apply_response(&mut q, local, from, resp);
        if is_done(&q) {
            proof {
                self.terminated@ = self.terminated@.insert(id);
                assert(self.active@ =~= old(self).active@.remove(idx as int));
            }
            let outcome = into_outcome(q);
            proof {
                assert(!self.has_query(id)) by {
                    if self.has_query(id) {
                        let i = choose|i: int|
                            0 <= i < self.active@.len() && (#[trigger] self.active@[i]).id == id;
                        if i < idx {
                            assert(old(self).active@[i].id == id);
                        } else {
                            assert(old(self).active@[i + 1].id == id);
                        }
                    }
                }
                assert forall|qid: u64|
                    qid != id implies (#[trigger] self.has_query(qid) <==> old(self).has_query(
                    qid,
                )) by {
                    if self.has_query(qid) {
                        let i = choose|i: int|
                            0 <= i < self.active@.len() && (#[trigger] self.active@[i]).id
                                == qid;
                        if i < idx {
                            assert(old(self).active@[i].id == qid);
                        } else {
                            assert(old(self).active@[i + 1].id == qid);
                        }
                    }
                    if old(self).has_query(qid) {
                        let i = choose|i: int|
                            0 <= i < old(self).active@.len() && (#[trigger] old(self).active@[i]).id == qid;
                        if i < idx {
                            assert(self.active@[i].id == qid);
                        } else if i == idx {
                            assert(false);
                        } else {
                            assert(self.active@[i - 1].id == qid);
                        }
                    }
                }
                assert forall|qid: u64|
                    qid != id && old(self).has_query(qid) implies #[trigger] self.query_of(qid)
                        == old(self).query_of(qid) by {
                    let i = choose|i: int|
                        0 <= i < old(self).active@.len() && (#[trigger] old(self).active@[i]).id == qid;
                    let ni: int = if i < idx {
                        i
                    } else {
                        i - 1
                    };
                    assert(self.active@[ni] == old(self).active@[i]);
                    let c1 = choose|j: int|
                        0 <= j < self.active@.len() && (#[trigger] self.active@[j]).id == qid;
                    if c1 != ni {
                        let oc1: int = if c1 < idx {
                            c1
                        } else {
                            c1 + 1
                        };
                        assert(old(self).active@[oc1].id == qid);
                        assert(old(self).active@[oc1].id == old(self).active@[i].id);
                    }
                    let c2 = choose|j: int|
                        0 <= j < old(self).active@.len() && (#[trigger] old(self).active@[j]).id == qid;
                    if c2 != i {
                        assert(old(self).active@[c2].id == old(self).active@[i].id);
                    }
                }
            }
            return (Option::Some(QueryEvent::Completed { id, outcome }), Vec::new());
        }
        let contacts = dispatch(&mut q);
        self.active.insert(idx, q);
        proof {
            assert(self.active@ =~= old(self).active@.update(idx as int, q));
            assert(self.active@[idx as int].id == id);
            assert forall|qid: u64|
                qid != id implies (#[trigger] self.has_query(qid) <==> old(self).has_query(
                qid,
            )) by {
                if self.has_query(qid) {
                    let i = choose|i: int|
                        0 <= i < self.active@.len() && (#[trigger] self.active@[i]).id == qid;
                    assert(i != idx);
                    assert(old(self).active@[i].id == qid);
                }
                if old(self).has_query(qid) {
                    let i = choose|i: int|
                        0 <= i < old(self).active@.len() && (#[trigger] old(self).active@[i]).id == qid;
                    assert(i != idx);
                    assert(self.active@[i].id == qid);
                }
            }
            assert forall|qid: u64|
                qid != id && old(self).has_query(qid) implies #[trigger] self.query_of(qid)
                    == old(self).query_of(qid) by {
                let i = choose|i: int|
                    0 <= i < old(self).active@.len() && (#[trigger] old(self).active@[i]).id
                        == qid;
                assert(i != idx);
                assert(self.active@[i] == old(self).active@[i]);
                let c1 = choose|j: int|
                    0 <= j < self.active@.len() && (#[trigger] self.active@[j]).id == qid;
                if c1 != i {
                    assert(self.active@[c1].id == self.active@[i].id);
                    if c1 == idx {
                        assert(false);
                    }
                }
                let c2 = choose|j: int|
                    0 <= j < old(self).active@.len() && (#[trigger] old(self).active@[j]).id
                        == qid;
                if c2 != i {
                    assert(old(self).active@[c2].id == old(self).active@[i].id);
                }
            }
            // the edited query is the one `query_of(id)` names
            let c = choose|j: int|
                0 <= j < self.active@.len() && (#[trigger] self.active@[j]).id == id;
            if c != idx {
                assert(self.active@[c].id == self.active@[idx as int].id);
                let oc: int = c;
                assert(old(self).active@[oc].id == id);
            }
            assert(self.query_of(id) == q);
        }
        (Option::None, contacts)
    }

    /// Removes and reports the first query whose deadline has passed: its
    /// partial results are discarded and its only terminal event is the
    /// timeout.  Returns nothing when every in-flight query still has time.
    pub fn next_timed_out(&mut self, now: u64) -> (r: Option<QueryEvent>)
        requires
            old(self).wf(),
        ensures
            final(self).wf(),
            final(self).local == old(self).local,
            final(self).next_id == old(self).next_id,
            final(self).store == old(self).store,
            final(self).provided == old(self).provided,
            match r {
                Option::None => {
                    &&& *final(self) == *old(self)
                    &&& forall|i: int|
                        0 <= i < final(self).active@.len() ==> (#[trigger] final(self).active@[i]).deadline >= now
                },
                Option::Some(ev) => {
                    &&& ev matches QueryEvent::TimedOut { id }
                    &&& old(self).has_query(ev->TimedOut_id)
                    &&& old(self).query_of(ev->TimedOut_id).deadline < now
                    &&& !final(self).has_query(ev->TimedOut_id)
                    &&& final(self).terminated@ == old(self).terminated@.insert(
                        ev->TimedOut_id,
                    )
                    &&& final(self).active@.len() == old(self).active@.len() - 1
                    &&& forall|qid: u64|
                        qid != ev->TimedOut_id ==> (#[trigger] final(self).has_query(qid) <==> old(self).has_query(qid))
                    &&& forall|qid: u64|
                        qid != ev->TimedOut_id && old(self).has_query(qid) ==> #[trigger] final(self).query_of(qid) == old(self).query_of(qid)
                },
            },
    {
        let mut idx: usize = 0;
        while idx < self.active.len()
            invariant
                idx <= self.active@.len(),
                self == old(self),
                old(self).wf(),
                forall|j: int| 0 <= j < idx ==> (#[trigger] self.active@[j]).deadline >= now,
            decreases self.active@.len() - idx,
        {
            if self.active[idx].deadline < now {
                let q = self.active.remove(idx);
                let id = q.id;
                proof {
                    self.terminated@ = self.terminated@.insert(id);
                    assert(self.active@ =~= old(self).active@.remove(idx as int));
                    assert(old(self).active@[idx as int].id == id);
                    let c0 = choose|i: int|
                        0 <= i < old(self).active@.len() && (#[trigger] old(self).active@[i]).id == id;
                    if c0 != idx {
                        assert(old(self).active@[c0].id == old(self).active@[idx as int].id);
                    }
                    assert(old(self).query_of(id) == old(self).active@[idx as int]);
                    assert(!self.has_query(id)) by {
                        if self.has_query(id) {
                            let i = choose|i: int|
                                0 <= i < self.active@.len() && (#[trigger] self.active@[i]).id
                                    == id;
                            if i < idx {
                                assert(old(self).active@[i].id == id);
                            } else {
                                assert(old(self).active@[i + 1].id == id);
                            }
                        }
                    }
                    assert forall|qid: u64|
                        qid != id implies (#[trigger] self.has_query(qid) <==> old(self).has_query(qid)) by {
                        if self.has_query(qid) {
                            let i = choose|i: int|
                                0 <= i < self.active@.len() && (#[trigger] self.active@[i]).id
                                    == qid;
                            if i < idx {
                                assert(old(self).active@[i].id == qid);
                            } else {
                                assert(old(self).active@[i + 1].id == qid);
                            }
                        }
                        if old(self).has_query(qid) {
                            let i = choose|i: int|
                                0 <= i < old(self).active@.len() && (#[trigger] old(self).active@[i]).id == qid;
                            if i < idx {
                                assert(self.active@[i].id == qid);
                            } else if i == idx {
                                assert(false);
                            } else {
                                assert(self.active@[i - 1].id == qid);
                            }
                        }
                    }
                    assert forall|qid: u64|
                        qid != id && old(self).has_query(qid) implies #[trigger] self.query_of(
                        qid,
                    ) == old(self).query_of(qid) by {
                        let i = choose|i: int|
                            0 <= i < old(self).active@.len() && (#[trigger] old(self).active@[i]).id == qid;
                        let ni: int = if i < idx {
                            i
                        } else {
                            i - 1
                        };
                        assert(self.active@[ni] == old(self).active@[i]);
                        let c1 = choose|j: int|
                            0 <= j < self.active@.len() && (#[trigger] self.active@[j]).id
                                == qid;
                        if c1 != ni {
                            let oc1: int = if c1 < idx {
                                c1
                            } else {
                                c1 + 1
                            };
                            assert(old(self).active@[oc1].id == qid);
                            assert(old(self).active@[oc1].id == old(self).active@[i].id);
                        }
                        let c2 = choose|j: int|
                            0 <= j < old(self).active@.len() && (#[trigger] old(self).active@[j]).id == qid;
                        if c2 != i {
                            assert(old(self).active@[c2].id == old(self).active@[i].id);
                        }
                    }
                }
                return Option::Some(QueryEvent::TimedOut { id });
            }
            idx = idx + 1;
        }
        Option::None
    }

    /// Exactly one terminal event is ever emitted per query, and a query
    /// identifier is never reused while still pending.
    ///
    /// Every operation that emits a terminal event — completion on a
    /// response, immediate completion at creation, or a timeout — does so
    /// only for an in-flight identifier, and retires it into the terminated
    /// set in the same step (see the contracts of `start_query`,
    /// `on_response` and `next_timed_out`).  A terminated identifier is
    /// never in flight, so no second terminal event can ever be emitted for
    /// it; and a fresh identifier lies above every in-flight and terminated
    /// one, so it collides with neither.
    pub proof fn lemma_terminal_exactly_once(self, id: u64)
        requires
            self.wf(),
        ensures
            self.terminated@.contains(id) ==> !self.has_query(id),
            self.has_query(id) ==> id < self.next_id && !self.terminated@.contains(id),
            self.has_query(id) || self.terminated@.contains(id) ==> id != self.next_id,
    {
        if self.has_query(id) {
            let i = choose|i: int|
                0 <= i < self.active@.len() && (#[trigger] self.active@[i]).id == id;
        }
    }

    /// Removes every locally stored record whose expiry has passed; the
    /// records that stay are untouched.
    pub fn drop_expired(&mut self, now: u64)
        requires
            old(self).wf(),
        ensures
            final(self).wf(),
            final(self).local == old(self).local,
            final(self).next_id == old(self).next_id,
            final(self).active == old(self).active,
            final(self).terminated == old(self).terminated,
            final(self).provided == old(self).provided,
            forall|k: Seq<u8>|
                #[trigger] final(self).store_has(k) <==> old(self).store_has(k) && !expired(
                    old(self).store_at(k),
                    now,
                ),
            forall|k: Seq<u8>|
                #[trigger] final(self).store_has(k) ==> final(self).store_at(k) == old(
                    self,
                ).store_at(k),
    {
        let mut i: usize = 0;
        while i < self.store.len()
            invariant
                i <= self.store@.len(),
                old(self).wf(),
                self.wf(),
                self.local == old(self).local,
                self.next_id == old(self).next_id,
                self.active == old(self).active,
                self.terminated == old(self).terminated,
                self.provided == old(self).provided,
                forall|j: int| 0 <= j < i ==> !expired(#[trigger] self.store@[j], now),
                forall|k: Seq<u8>|
                    #[trigger] self.store_has(k) ==> old(self).store_has(k) && self.store_at(k)
                        == old(self).store_at(k),
                forall|k: Seq<u8>|
                    old(self).store_has(k) && !expired(old(self).store_at(k), now)
                        ==> #[trigger] self.store_has(k),
            decreases self.store@.len() - i,
        {
            let drop_it = match self.store[i].expiry {
                Option::Some(e) => e < now,
                Option::None => false,
            };
            if drop_it {
                let ghost pres = self.store@;
                let ghost prestate = *self;
                let _ = self.store.remove(i);
                proof {
                    assert(self.store@ =~= pres.remove(i as int));
                    assert forall|k: Seq<u8>|
                        #[trigger] self.store_has(k) implies old(self).store_has(k)
                        && self.store_at(k) == old(self).store_at(k) by {
                        let j = choose|j: int|
                            0 <= j < self.store@.len() && (#[trigger] self.store@[j]).key@ == k;
                        let pj: int = if j < i {
                            j
                        } else {
                            j + 1
                        };
                        assert(pres[pj].key@ == k);
                        assert(prestate.store_has(k));
                        assert(prestate.store_at(k) == old(self).store_at(k));
                        // the record under k in the shrunk store is that same one
                        let c1 = choose|c: int|
                            0 <= c < self.store@.len() && (#[trigger] self.store@[c]).key@ == k;
                        let cp = choose|c: int|
                            0 <= c < pres.len() && (#[trigger] pres[c]).key@ == k;
                        assert(cp == pj) by {
                            if cp != pj {
                                assert(pres[cp].key@ == pres[pj].key@);
                            }
                        }
                        assert(self.store_at(k) == pres[pj]);
                    }
                    assert forall|k: Seq<u8>|
                        old(self).store_has(k) && !expired(old(self).store_at(k), now)
                            implies #[trigger] self.store_has(k) by {
                        assert(prestate.store_has(k));
                        let j = choose|j: int|
                            0 <= j < pres.len() && (#[trigger] pres[j]).key@ == k;
                        assert(prestate.store_at(k) == old(self).store_at(k));
                        assert(j != i) by {
                            if j == i {
                                let cj = choose|c: int|
                                    0 <= c < pres.len() && (#[trigger] pres[c]).key@ == k;
                                assert(cj == j) by {
                                    if cj != j {
                                        assert(pres[cj].key@ == pres[j].key@);
                                    }
                                }
                                assert(expired(pres[i as int], now));
                            }
                        }
                        if j < i {
                            assert(self.store@[j].key@ == k);
                        } else {
                            assert(self.store@[j - 1].key@ == k);
                        }
                    }
                }
            } else {
                i = i + 1;
            }
        }
        proof {
            assert forall|k: Seq<u8>|
                #[trigger] final(self).store_has(k) <==> (old(self).store_has(k) && !expired(
                old(self).store_at(k),
                now,
            )) by {
                if self.store_has(k) {
                    let j = choose|j: int|
                        0 <= j < self.store@.len() && (#[trigger] self.store@[j]).key@ == k;
                    assert(!expired(self.store@[j], now));
                    assert(self.store_at(k) == self.store@[j]) by {
                        let c = choose|c: int|
                            0 <= c < self.store@.len() && (#[trigger] self.store@[c]).key@ == k;
                        if c != j {
                            assert(self.store@[c].key@ == self.store@[j].key@);
                        }
                    }
                }
            }
        }
    }

    /// The kind and target of an in-flight query, read without touching it.
    pub fn query_params(&self, id: u64) -> (r: Option<(QueryKind, u64)>)
        requires
            self.wf(),
        ensures
            match r {
                Option::Some(kt) => self.has_query(id) && kt.0 == self.query_of(id).kind && kt.1
                    == self.query_of(id).target,
                Option::None => !self.has_query(id),
            },
    {
        let mut i: usize = 0;
        while i < self.active.len()
            invariant
                i <= self.active@.len(),
                self.wf(),
                forall|j: int| 0 <= j < i ==> (#[trigger] self.active@[j]).id != id,
            decreases self.active@.len() - i,
        {
            if self.active[i].id == id {
                proof {
                    let c = choose|j: int|
                        0 <= j < self.active@.len() && (#[trigger] self.active@[j]).id == id;
                    if c != i {
                        assert(self.active@[c].id == self.active@[i as int].id);
                    }
                }
                return Option::Some((self.active[i].kind, self.active[i].target));
            }
            i = i + 1;
        }
        proof {
            if self.has_query(id) {
                let c = choose|j: int|
                    0 <= j < self.active@.len() && (#[trigger] self.active@[j]).id == id;
            }
        }
        Option::None
    }

    /// Records that this node provides `key`.
    pub fn provide_local(&mut self, key: Vec<u8>)
        requires
            old(self).wf(),
        ensures
            final(self).wf(),
            final(self).provides(key@),
            forall|k: Seq<u8>|
                #[trigger] final(self).provides(k) <==> old(self).provides(k) || k == key@,
            final(self).local == old(self).local,
            final(self).next_id == old(self).next_id,
            final(self).active == old(self).active,
            final(self).terminated == old(self).terminated,
            final(self).store == old(self).store,
    {
        let mut i: usize = 0;
        while i < self.provided.len()
            invariant
                i <= self.provided@.len(),
                self == old(self),
                old(self).wf(),
                forall|j: int| 0 <= j < i ==> self.provided@[j]@ != key@,
            decreases self.provided@.len() - i,
        {
            if bytes_eq(&self.provided[i], &key) {
                proof {
                    assert(self.provided@[i as int]@ == key@);
                    assert(old(self).provides(key@));
                }
                return;
            }
            i = i + 1;
        }
        self.provided.push(key);
        proof {
            let news = self.provided@;
            assert(news[news.len() - 1]@ == key@);
            assert forall|k: Seq<u8>|
                #[trigger] self.provides(k) <==> (old(self).provides(k) || k == key@) by {
                if self.provides(k) {
                    let j = choose|j: int| 0 <= j < news.len() && (#[trigger] news[j])@ == k;
                    if j < news.len() - 1 {
                        assert(old(self).provided@[j]@ == k);
                    }
                }
                if old(self).provides(k) {
                    let j = choose|j: int|
                        0 <= j < old(self).provided@.len() && (#[trigger] old(self).provided@[j])@ == k;
                    assert(news[j]@ == k);
                }
            }
        }
    }
}

} // verus!
