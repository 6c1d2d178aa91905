//! Publish/subscribe engine: topic subscriptions, a bounded seen-cache of
//! content-derived message identifiers, and forwarding decisions.
//!
//! A message identifier is a deterministic hash of the payload, so identical
//! payloads collapse to the same identifier; in signed mode the publisher's
//! identity is folded in as well, so equal payloads from different
//! publishers get distinct identifiers.  A message whose identifier is in
//! the seen cache is never delivered locally nor forwarded again.

use vstd::prelude::*;
use crate::bytes::{fnv64, hash_bytes, bytes_eq, sub_bytes};

verus! {

/// Capacity of the seen cache; the oldest identifier is evicted first.
pub const SEEN_CACHE_CAPACITY: usize = 32;

/// The content-derived identifier of a message.
pub open spec fn message_id_spec(signed: bool, publisher: u64, payload: Seq<u8>) -> u64 {
    if signed {
        fnv64(payload) ^ publisher
    } else {
        fnv64(payload)
    }
}

/// The seen cache after recording `mid`: unchanged if already present,
/// otherwise appended, evicting the oldest entry when full.
pub open spec fn push_seen_spec(seen: Seq<u64>, mid: u64) -> Seq<u64> {
    if seen.contains(mid) {
        seen
    } else if seen.len() < SEEN_CACHE_CAPACITY {
        seen.push(mid)
    } else {
        seen.subrange(1, seen.len() as int).push(mid)
    }
}

/// Recording an identifier leaves it in the cache.
pub proof fn lemma_push_seen_contains(seen: Seq<u64>, mid: u64)
    ensures
        push_seen_spec(seen, mid).contains(mid),
{
    if seen.contains(mid) {
    } else if seen.len() < SEEN_CACHE_CAPACITY {
        assert(seen.push(mid).last() == mid);
    } else {
        assert(push_seen_spec(seen, mid).last() == mid);
    }
}

/// Whether some byte vector in `ss` reads `t`.
pub open spec fn seq_has_bytes(ss: Seq<Vec<u8>>, t: Seq<u8>) -> bool {
    exists|i: int| 0 <= i < ss.len() && ss[i]@ == t
}

/// A connected peer eligible as a forwarding target, with the topics it is
/// known to subscribe to.
pub struct PeerView {
    pub peer: u64,
    pub topics: Vec<Vec<u8>>,
}

/// Whether `pv` is known to subscribe to `topic`.
pub open spec fn view_has_topic(pv: PeerView, topic: Seq<u8>) -> bool {
    seq_has_bytes(pv.topics@, topic)
}

/// What `on_network_message` decided about an inbound message.
pub enum Outcome {
    /// Locally subscribed and first sighting: handed to the caller.
    Delivered { topic: Vec<u8>, payload: Vec<u8> },
    /// The identifier was already in the seen cache: dropped everywhere.
    Duplicate,
    /// The envelope failed authenticity verification: dropped everywhere.
    Unauthenticated,
    /// Not locally subscribed; still forwarded to interested peers.
    NotSubscribed,
}

/// The publish/subscribe engine.
pub struct PubSubEngine {
    pub local_peer: u64,
    pub signed_mode: bool,
    pub subscriptions: Vec<Vec<u8>>,
    pub seen: Vec<u64>,
    pub peers: Vec<PeerView>,
}

impl PubSubEngine {
    /// Whether this node is locally subscribed to `topic`.
    pub open spec fn subscribed(self, topic: Seq<u8>) -> bool {
        seq_has_bytes(self.subscriptions@, topic)
    }

    /// Whether the partial view holds `peer`.
    pub open spec fn has_peer(self, peer: u64) -> bool {
        exists|i: int| 0 <= i < self.peers@.len() && (#[trigger] self.peers@[i]).peer == peer
    }

    /// Whether the partial view says `peer` subscribes to `topic`.
    pub open spec fn peer_topic(self, peer: u64, topic: Seq<u8>) -> bool {
        exists|i: int|
            0 <= i < self.peers@.len() && (#[trigger] self.peers@[i]).peer == peer
                && view_has_topic(self.peers@[i], topic)
    }

    /// The peers a message on `topic` is forwarded to, `except` excluded.
    pub open spec fn targets_spec(self, topic: Seq<u8>, except: u64) -> Seq<u64> {
        targets_of(self.peers@, topic, except)
    }

    /// Well-formedness: the seen cache is within capacity, subscriptions are
    /// pairwise distinct, and each peer appears at most once in the view.
    pub open spec fn wf(self) -> bool {
        &&& self.seen@.len() <= SEEN_CACHE_CAPACITY
        &&& forall|i: int, j: int|
            0 <= i < j < self.subscriptions@.len() ==> (#[trigger] self.subscriptions@[i])@ != (
            #[trigger] self.subscriptions@[j])@
        &&& forall|i: int, j: int|
            0 <= i < j < self.peers@.len() ==> (#[trigger] self.peers@[i]).peer != (
            #[trigger] self.peers@[j]).peer
    }

    /// A fresh engine with no subscriptions, no seen messages and no peers.
    pub fn new(local_peer: u64, signed_mode: bool) -> (ps: PubSubEngine)
        ensures
            ps.wf(),
            ps.local_peer == local_peer,
            ps.signed_mode == signed_mode,
            forall|t: Seq<u8>| !ps.subscribed(t),
            forall|p: u64| !ps.has_peer(p),
            ps.seen@.len() == 0,
    {
        PubSubEngine {
            local_peer,
            signed_mode,
            subscriptions: Vec::new(),
            seen: Vec::new(),
            peers: Vec::new(),
        }
    }

    /// Adds `topic` to the local subscription set.
    pub fn subscribe(&mut self, topic: Vec<u8>)
        requires
            old(self).wf(),
        ensures
            final(self).wf(),
            final(self).subscribed(topic@),
            forall|t: Seq<u8>|
                #[trigger] final(self).subscribed(t) <==> old(self).subscribed(t) || t == topic@,
            final(self).local_peer == old(self).local_peer,
            final(self).signed_mode == old(self).signed_mode,
            final(self).seen == old(self).seen,
            final(self).peers == old(self).peers,
    {
        let (present, _) = find_bytes(&self.subscriptions, &topic);
        if !present {
            self.subscriptions.push(topic);
            proof {
                let subs = self.subscriptions@;
                assert(subs[subs.len() - 1]@ == topic@);
                assert forall|t: Seq<u8>|
                    #[trigger] self.subscribed(t) <==> (old(self).subscribed(t) || t
                        == topic@) by {
                    if self.subscribed(t) {
                        let i = choose|i: int| 0 <= i < subs.len() && subs[i]@ == t;
                        if i < subs.len() - 1 {
                            assert(old(self).subscriptions@[i]@ == t);
                        }
                    }
                    if old(self).subscribed(t) {
                        let i = choose|i: int|
                            0 <= i < old(self).subscriptions@.len() && old(
                                self,
                            ).subscriptions@[i]@ == t;
                        assert(subs[i]@ == t);
                    }
                }
            }
        }
    }

    /// Removes `topic` from the local subscription set.
    pub fn unsubscribe(&mut self, topic: &Vec<u8>)
        requires
            old(self).wf(),
        ensures
            final(self).wf(),
            !final(self).subscribed(topic@),
            forall|t: Seq<u8>|
                #[trigger] final(self).subscribed(t) <==> old(self).subscribed(t) && t != topic@,
            final(self).local_peer == old(self).local_peer,
            final(self).signed_mode == old(self).signed_mode,
            final(self).seen == old(self).seen,
            final(self).peers == old(self).peers,
    {
        let (present, idx) = find_bytes(&self.subscriptions, topic);
        if present {
            let _ = self.subscriptions.remove(idx);
            proof {
                let olds = old(self).subscriptions@;
                let news = self.subscriptions@;
                assert forall|t: Seq<u8>|
                    #[trigger] self.subscribed(t) <==> (old(self).subscribed(t) && t
                        != topic@) by {
                    if self.subscribed(t) {
                        let i = choose|i: int| 0 <= i < news.len() && news[i]@ == t;
                        if i < idx {
                            assert(olds[i]@ == t);
                            assert(t != topic@);
                        } else {
                            assert(olds[i + 1]@ == t);
                            assert(t != topic@);
                        }
                    }
                    if old(self).subscribed(t) && t != topic@ {
                        let i = choose|i: int| 0 <= i < olds.len() && olds[i]@ == t;
                        if i < idx {
                            assert(news[i]@ == t);
                        } else if i == idx {
                            assert(false);
                        } else {
                            assert(news[i - 1]@ == t);
                        }
                    }
                }
            }
        }
    }

    /// Adds `peer` to the partial view with no known topics, if absent.
    pub fn add_peer(&mut self, peer: u64)
        requires
            old(self).wf(),
        ensures
            final(self).wf(),
            final(self).has_peer(peer),
            forall|p: u64|
                #[trigger] final(self).has_peer(p) <==> old(self).has_peer(p) || p == peer,
            forall|p: u64, t: Seq<u8>|
                #[trigger] final(self).peer_topic(p, t) <==> old(self).peer_topic(p, t),
            final(self).local_peer == old(self).local_peer,
            final(self).signed_mode == old(self).signed_mode,
            final(self).seen == old(self).seen,
            final(self).subscriptions == old(self).subscriptions,
    {
        let (present, _) = find_peer(&self.peers, peer);
        if !present {
            self.peers.push(PeerView { peer, topics: Vec::new() });
            proof {
                let news = self.peers@;
                assert(news[news.len() - 1].peer == peer);
                assert forall|p: u64|
                    #[trigger] self.has_peer(p) <==> (old(self).has_peer(p) || p == peer) by {
                    if self.has_peer(p) {
                        let i = choose|i: int| 0 <= i < news.len() && news[i].peer == p;
                        if i < news.len() - 1 {
                            assert(old(self).peers@[i].peer == p);
                        }
                    }
                    if old(self).has_peer(p) {
                        let i = choose|i: int|
                            0 <= i < old(self).peers@.len() && old(self).peers@[i].peer == p;
                        assert(news[i].peer == p);
                    }
                }
                assert forall|p: u64, t: Seq<u8>|
                    #[trigger] self.peer_topic(p, t) <==> old(self).peer_topic(p, t) by {
                    if self.peer_topic(p, t) {
                        let i = choose|i: int|
                            0 <= i < news.len() && news[i].peer == p && view_has_topic(
                                news[i],
                                t,
                            );
                        if i < news.len() - 1 {
                            assert(old(self).peers@[i].peer == p);
                            assert(view_has_topic(old(self).peers@[i], t));
                        } else {
                            assert(!view_has_topic(news[i], t));
                        }
                    }
                    if old(self).peer_topic(p, t) {
                        let i = choose|i: int|
                            0 <= i < old(self).peers@.len() && old(self).peers@[i].peer == p
                                && view_has_topic(old(self).peers@[i], t);
                        assert(news[i].peer == p && view_has_topic(news[i], t));
                    }
                }
            }
        }
    }

    /// Removes `peer` from the partial view; it is no longer a forwarding
    /// target.
    pub fn remove_peer(&mut self, peer: u64)
        requires
            old(self).wf(),
        ensures
            final(self).wf(),
            !final(self).has_peer(peer),
            forall|p: u64|
                #[trigger] final(self).has_peer(p) <==> old(self).has_peer(p) && p != peer,
            forall|p: u64, t: Seq<u8>|
                #[trigger] final(self).peer_topic(p, t) <==> old(self).peer_topic(p, t) && p
                    != peer,
            final(self).local_peer == old(self).local_peer,
            final(self).signed_mode == old(self).signed_mode,
            final(self).seen == old(self).seen,
            final(self).subscriptions == old(self).subscriptions,
    {
        let (present, idx) = find_peer(&self.peers, peer);
        if present {
            let _ = self.peers.remove(idx);
            proof {
                let olds = old(self).peers@;
                let news = self.peers@;
                assert forall|p: u64|
                    #[trigger] self.has_peer(p) <==> (old(self).has_peer(p) && p != peer) by {
                    if self.has_peer(p) {
                        let i = choose|i: int| 0 <= i < news.len() && news[i].peer == p;
                        if i < idx {
                            assert(olds[i].peer == p);
                        } else {
                            assert(olds[i + 1].peer == p);
                        }
                    }
                    if old(self).has_peer(p) && p != peer {
                        let i = choose|i: int| 0 <= i < olds.len() && olds[i].peer == p;
                        if i < idx {
                            assert(news[i].peer == p);
                        } else if i == idx {
                            assert(false);
                        } else {
                            assert(news[i - 1].peer == p);
                        }
                    }
                }
                assert forall|p: u64, t: Seq<u8>|
                    #[trigger] self.peer_topic(p, t) <==> (old(self).peer_topic(p, t) && p
                        != peer) by {
                    if self.peer_topic(p, t) {
                        let i = choose|i: int|
                            0 <= i < news.len() && news[i].peer == p && view_has_topic(
                                news[i],
                                t,
                            );
                        if i < idx {
                            assert(olds[i].peer == p && view_has_topic(olds[i], t));
                        } else {
                            assert(olds[i + 1].peer == p && view_has_topic(olds[i + 1], t));
                        }
                        assert(self.has_peer(p));
                    }
                    if old(self).peer_topic(p, t) && p != peer {
                        let i = choose|i: int|
                            0 <= i < olds.len() && olds[i].peer == p && view_has_topic(
                                olds[i],
                                t,
                            );
                        if i < idx {
                            assert(news[i].peer == p && view_has_topic(news[i], t));
                        } else if i == idx {
                            assert(false);
                        } else {
                            assert(news[i - 1].peer == p && view_has_topic(news[i - 1], t));
                        }
                    }
                }
            }
        }
    }
}

impl PubSubEngine {
    /// Records `peer` as interested in `topic`, if the view holds it.
    pub fn on_remote_subscribe(&mut self, peer: u64, topic: Vec<u8>)
        requires
            old(self).wf(),
        ensures
            final(self).wf(),
            forall|p: u64|
                #[trigger] final(self).has_peer(p) <==> old(self).has_peer(p),
            forall|p: u64, t: Seq<u8>|
                #[trigger] final(self).peer_topic(p, t) <==> old(self).peer_topic(p, t) || (p
                    == peer && t == topic@ && old(self).has_peer(peer)),
            final(self).local_peer == old(self).local_peer,
            final(self).signed_mode == old(self).signed_mode,
            final(self).seen == old(self).seen,
            final(self).subscriptions == old(self).subscriptions,
    {
        let (present, idx) = find_peer(&self.peers, peer);
        if !present {
            return;
        }
        let mut pv = self.peers.remove(idx);
        let ghost oldpv = pv;
        let (already, _) = find_bytes(&pv.topics, &topic);
        if !already {
            pv.topics.push(topic);
        }
        self.peers.insert(idx, pv);
        proof {
            let olds = old(self).peers@;
            let news = self.peers@;
            assert(news =~= olds.update(idx as int, pv));
            assert(pv.peer == peer);
            assert forall|t: Seq<u8>| view_has_topic(pv, t) <==> (view_has_topic(oldpv, t) || (t
                == topic@ && !already)) by {
                if !already {
                    let ts = pv.topics@;
                    assert(ts[ts.len() - 1]@ == topic@);
                    if view_has_topic(pv, t) {
                        let i = choose|i: int| 0 <= i < ts.len() && ts[i]@ == t;
                        if i < ts.len() - 1 {
                            assert(oldpv.topics@[i]@ == t);
                        }
                    }
                    if view_has_topic(oldpv, t) {
                        let i = choose|i: int|
                            0 <= i < oldpv.topics@.len() && oldpv.topics@[i]@ == t;
                        assert(ts[i]@ == t);
                    }
                }
            }
            assert forall|p: u64|
                #[trigger] self.has_peer(p) <==> old(self).has_peer(p) by {
                if self.has_peer(p) {
                    let i = choose|i: int| 0 <= i < news.len() && news[i].peer == p;
                    assert(olds[i].peer == p);
                }
                if old(self).has_peer(p) {
                    let i = choose|i: int| 0 <= i < olds.len() && olds[i].peer == p;
                    assert(news[i].peer == p);
                }
            }
            assert forall|p: u64, t: Seq<u8>|
                #[trigger] self.peer_topic(p, t) <==> (old(self).peer_topic(p, t) || (p == peer
                    && t == topic@ && old(self).has_peer(peer))) by {
                if self.peer_topic(p, t) {
                    let i = choose|i: int|
                        0 <= i < news.len() && news[i].peer == p && view_has_topic(news[i], t);
                    if i == idx {
                        if view_has_topic(oldpv, t) {
                            assert(olds[i].peer == p && view_has_topic(olds[i], t));
                        } else {
                            assert(olds[idx as int].peer == peer);
                        }
                    } else {
                        assert(olds[i].peer == p && view_has_topic(olds[i], t));
                    }
                }
                if old(self).peer_topic(p, t) {
                    let i = choose|i: int|
                        0 <= i < olds.len() && olds[i].peer == p && view_has_topic(olds[i], t);
                    if i == idx {
                        assert(p == peer);
                        assert(view_has_topic(pv, t));
                        assert(news[i].peer == p && view_has_topic(news[i], t));
                    } else {
                        assert(news[i].peer == p && view_has_topic(news[i], t));
                    }
                }
                if p == peer && t == topic@ && old(self).has_peer(peer) {
                    let i = choose|i: int| 0 <= i < olds.len() && olds[i].peer == peer;
                    assert(i == idx) by {
                        if i != idx {
                            assert(olds[i].peer == olds[idx as int].peer);
                        }
                    }
                    assert(view_has_topic(pv, t)) by {
                        if already {
                            assert(view_has_topic(oldpv, topic@));
                        }
                    }
                    assert(news[idx as int].peer == p && view_has_topic(news[idx as int], t));
                }
            }
        }
    }
}

/// The forwarding targets drawn from `peers`: every peer interested in
/// `topic`, in view order, `except` excluded.
pub open spec fn targets_of(peers: Seq<PeerView>, topic: Seq<u8>, except: u64) -> Seq<u64>
    decreases peers.len(),
{
    if peers.len() == 0 {
        Seq::empty()
    } else {
        let rest = targets_of(peers.drop_last(), topic, except);
        let pv = peers.last();
        if pv.peer != except && view_has_topic(pv, topic) {
            rest.push(pv.peer)
        } else {
            rest
        }
    }
}

/// A peer is a forwarding target exactly when the view knows it subscribes
/// to the topic and it is not the excluded one.
pub proof fn lemma_targets_membership(peers: Seq<PeerView>, topic: Seq<u8>, except: u64, q: u64)
    ensures
        targets_of(peers, topic, except).contains(q) <==> (q != except && exists|i: int|
            0 <= i < peers.len() && (#[trigger] peers[i]).peer == q && view_has_topic(
                peers[i],
                topic,
            )),
    decreases peers.len(),
{
    if peers.len() > 0 {
        lemma_targets_membership(peers.drop_last(), topic, except, q);
        let rest = targets_of(peers.drop_last(), topic, except);
        let pv = peers.last();
        let out = targets_of(peers, topic, except);
        if out.contains(q) {
            if pv.peer != except && view_has_topic(pv, topic) && q == pv.peer {
                assert(peers[peers.len() - 1].peer == q);
            } else {
                let j = choose|j: int| 0 <= j < out.len() && out[j] == q;
                if pv.peer != except && view_has_topic(pv, topic) {
                    if j < out.len() - 1 {
                        assert(rest[j] == q);
                        assert(rest.contains(q));
                    }
                } else {
                    assert(rest.contains(q));
                }
                if rest.contains(q) {
                    let i = choose|i: int|
                        0 <= i < peers.drop_last().len() && (#[trigger] peers.drop_last()[
                            i]).peer == q && view_has_topic(peers.drop_last()[i], topic);
                    assert(peers[i].peer == q && view_has_topic(peers[i], topic));
                }
            }
        }
        if q != except && exists|i: int|
            0 <= i < peers.len() && (#[trigger] peers[i]).peer == q && view_has_topic(
                peers[i],
                topic,
            ) {
            let i = choose|i: int|
                0 <= i < peers.len() && (#[trigger] peers[i]).peer == q && view_has_topic(
                    peers[i],
                    topic,
                );
            if i == peers.len() - 1 {
                assert(out.last() == q);
            } else {
                assert(peers.drop_last()[i].peer == q && view_has_topic(
                    peers.drop_last()[i],
                    topic,
                ));
                assert(rest.contains(q));
                let j = choose|j: int| 0 <= j < rest.len() && rest[j] == q;
                if pv.peer != except && view_has_topic(pv, topic) {
                    assert(out[j] == q);
                } else {
                    assert(out[j] == q);
                }
            }
        }
    }
}

/// Computes the content-derived identifier of a message.
pub fn compute_message_id(signed: bool, publisher: u64, payload: &Vec<u8>) -> (mid: u64)
    ensures
        mid == message_id_spec(signed, publisher, payload@),
{
    let h = hash_bytes(payload);
    if signed {
        h ^ publisher
    } else {
        h
    }
}

impl PubSubEngine {
    /// Collects the forwarding targets for `topic`, excluding `except`.
    pub fn forward_targets(&self, topic: &Vec<u8>, except: u64) -> (res: Vec<u64>)
        ensures
            res@ == self.targets_spec(topic@, except),
    {
        let mut res: Vec<u64> = Vec::new();
        let mut i: usize = 0;
        while i < self.peers.len()
            invariant
                i <= self.peers@.len(),
                res@ == targets_of(self.peers@.subrange(0, i as int), topic@, except),
            decreases self.peers@.len() - i,
        {
            let interested = find_bytes(&self.peers[i].topics, topic).0;
            if self.peers[i].peer != except && interested {
                let p = self.peers[i].peer;
                res.push(p);
            }
            i = i + 1;
            proof {
                let s = self.peers@.subrange(0, i as int);
                assert(s.drop_last() =~= self.peers@.subrange(0, i - 1));
                assert(s.last() == self.peers@[i - 1]);
            }
        }
        proof {
            assert(self.peers@.subrange(0, self.peers@.len() as int) =~= self.peers@);
        }
        res
    }

    /// Records `mid` in the seen cache, evicting the oldest entry if full.
    fn record_seen(&mut self, mid: u64)
        requires
            old(self).wf(),
        ensures
            final(self).wf(),
            final(self).seen@ == push_seen_spec(old(self).seen@, mid),
            final(self).local_peer == old(self).local_peer,
            final(self).signed_mode == old(self).signed_mode,
            final(self).subscriptions == old(self).subscriptions,
            final(self).peers == old(self).peers,
    {
        let mut i: usize = 0;
        let mut present = false;
        while i < self.seen.len() && !present
            invariant
                i <= self.seen@.len(),
                !present ==> forall|j: int| 0 <= j < i ==> self.seen@[j] != mid,
                present ==> self.seen@.contains(mid),
                self == old(self),
            decreases self.seen@.len() - i + if present { 0int } else { 1int },
        {
            if self.seen[i] == mid {
                present = true;
            } else {
                i = i + 1;
            }
        }
        if !present {
            if self.seen.len() >= SEEN_CACHE_CAPACITY {
                let _ = self.seen.remove(0);
                proof {
                    assert(self.seen@ =~= old(self).seen@.subrange(
                        1,
                        old(self).seen@.len() as int,
                    ));
                }
            }
            self.seen.push(mid);
        }
        proof {
            assert(final(self).seen@ =~= push_seen_spec(old(self).seen@, mid));
        }
    }

    /// Publishes a message on `topic`: computes its identifier, records it
    /// in the seen cache before returning, and names every connected peer
    /// interested in the topic as a forwarding target — an empty target list
    /// is not an error.
    pub fn publish(&mut self, topic: &Vec<u8>, payload: &Vec<u8>) -> (r: (u64, Vec<u64>))
        requires
            old(self).wf(),
        ensures
            final(self).wf(),
            r.0 == message_id_spec(old(self).signed_mode, old(self).local_peer, payload@),
            final(self).seen@ == push_seen_spec(old(self).seen@, r.0),
            final(self).seen@.contains(r.0),
            r.1@ == old(self).targets_spec(topic@, old(self).local_peer),
            final(self).local_peer == old(self).local_peer,
            final(self).signed_mode == old(self).signed_mode,
            final(self).subscriptions == old(self).subscriptions,
            final(self).peers == old(self).peers,
    {
        let mid = compute_message_id(self.signed_mode, self.local_peer, payload);
        self.record_seen(mid);
        proof {
            lemma_push_seen_contains(old(self).seen@, mid);
        }
        let targets = self.forward_targets(topic, self.local_peer);
        (mid, targets)
    }

    /// Handles a message arriving from the network.
    ///
    /// `auth_ok` is the messaging collaborator's verdict on the envelope's
    /// authenticity.  A failed verification is dropped everywhere; a
    /// duplicate (identifier already seen) is neither delivered nor
    /// forwarded; otherwise the message is recorded, forwarded to every
    /// interested peer but the source, and delivered to the caller exactly
    /// when this node subscribes to the topic.
    pub fn on_network_message(
        &mut self,
        source: u64,
        topic: &Vec<u8>,
        payload: &Vec<u8>,
        auth_ok: bool,
    ) -> (r: (Outcome, Vec<u64>))
        requires
            old(self).wf(),
        ensures
            final(self).wf(),
            final(self).local_peer == old(self).local_peer,
            final(self).signed_mode == old(self).signed_mode,
            final(self).subscriptions == old(self).subscriptions,
            final(self).peers == old(self).peers,
            ({
                let mid = message_id_spec(old(self).signed_mode, source, payload@);
                if !auth_ok {
                    &&& r.0 == Outcome::Unauthenticated
                    &&& r.1@.len() == 0
                    &&& final(self).seen == old(self).seen
                } else if old(self).seen@.contains(mid) {
                    &&& r.0 == Outcome::Duplicate
                    &&& r.1@.len() == 0
                    &&& final(self).seen == old(self).seen
                } else {
                    &&& final(self).seen@ == push_seen_spec(old(self).seen@, mid)
                    &&& final(self).seen@.contains(mid)
                    &&& r.1@ == old(self).targets_spec(topic@, source)
                    &&& if old(self).subscribed(topic@) {
                        r.0 matches Outcome::Delivered { topic: t, payload: pl } && t@ == topic@
                            && pl@ == payload@
                    } else {
                        r.0 == Outcome::NotSubscribed
                    }
                }
            }),
    {
        if !auth_ok {
            return (Outcome::Unauthenticated, Vec::new());
        }
        let mid = compute_message_id(self.signed_mode, source, payload);
        let mut i: usize = 0;
        while i < self.seen.len()
            invariant
                i <= self.seen@.len(),
                forall|j: int| 0 <= j < i ==> self.seen@[j] != mid,
                self == old(self),
                old(self).wf(),
                auth_ok,
                mid == message_id_spec(old(self).signed_mode, source, payload@),
            decreases self.seen@.len() - i,
        {
            if self.seen[i] == mid {
                proof {
                    assert(old(self).seen@.contains(mid));
                }
                return (Outcome::Duplicate, Vec::new());
            }
            i = i + 1;
        }
        proof {
            assert(!old(self).seen@.contains(mid));
        }
        self.record_seen(mid);
        proof {
            lemma_push_seen_contains(old(self).seen@, mid);
        }
        let targets = self.forward_targets(topic, source);
        let subscribed = find_bytes(&self.subscriptions, topic).0;
        if subscribed {
            let t = sub_bytes(topic, 0, topic.len());
            let pl = sub_bytes(payload, 0, payload.len());
            proof {
                assert(t@ =~= topic@);
                assert(pl@ =~= payload@);
            }
            (Outcome::Delivered { topic: t, payload: pl }, targets)
        } else {
            (Outcome::NotSubscribed, targets)
        }
    }
}

/// A message is delivered at most once, however many parallel paths carry
/// it: accepting it folds its identifier into the seen cache and leaves the
/// identifier there, and `on_network_message` reports any message whose
/// identifier is cached as a duplicate, delivering and forwarding nothing.
/// In signed mode this needs the copies to name the same publisher; in
/// unsigned mode the identifier depends on the payload alone.
pub proof fn lemma_delivered_at_most_once(
    seen: Seq<u64>,
    signed: bool,
    source1: u64,
    source2: u64,
    payload: Seq<u8>,
)
    requires
        !signed || source1 == source2,
    ensures
        push_seen_spec(seen, message_id_spec(signed, source1, payload)).contains(
            message_id_spec(signed, source2, payload),
        ),
{
    lemma_push_seen_contains(seen, message_id_spec(signed, source1, payload));
}

/// Identical payloads in unsigned mode collapse to one message identifier,
/// whoever publishes or relays them; and once a publish has recorded that
/// identifier, the same raw message arriving from the network is a
/// duplicate: its identifier is already in the cache.
pub proof fn lemma_publish_then_duplicate(
    seen: Seq<u64>,
    publisher: u64,
    source: u64,
    payload: Seq<u8>,
)
    ensures
        message_id_spec(false, publisher, payload) == message_id_spec(false, source, payload),
        push_seen_spec(seen, message_id_spec(false, publisher, payload)).contains(
            message_id_spec(false, source, payload),
        ),
{
    lemma_push_seen_contains(seen, message_id_spec(false, publisher, payload));
}

/// Finds the first byte vector in `ss` equal to `t`.
fn find_bytes(ss: &Vec<Vec<u8>>, t: &Vec<u8>) -> (r: (bool, usize))
    ensures
        r.0 == seq_has_bytes(ss@, t@),
        r.0 ==> r.1 < ss@.len() && ss@[r.1 as int]@ == t@,
{
    let mut i: usize = 0;
    while i < ss.len()
        invariant
            i <= ss@.len(),
            forall|j: int| 0 <= j < i ==> ss@[j]@ != t@,
        decreases ss@.len() - i,
    {
        if bytes_eq(&ss[i], t) {
            return (true, i);
        }
        i = i + 1;
    }
    (false, 0)
}

/// Finds the slot of `peer` in a partial view.
fn find_peer(peers: &Vec<PeerView>, peer: u64) -> (r: (bool, usize))
    ensures
        r.0 == exists|i: int| 0 <= i < peers@.len() && (#[trigger] peers@[i]).peer == peer,
        r.0 ==> r.1 < peers@.len() && peers@[r.1 as int].peer == peer,
{
    let mut i: usize = 0;
    while i < peers.len()
        invariant
            i <= peers@.len(),
            forall|j: int| 0 <= j < i ==> (#[trigger] peers@[j]).peer != peer,
        decreases peers@.len() - i,
    {
        if peers[i].peer == peer {
            return (true, i);
        }
        i = i + 1;
    }
    (false, 0)
}

} // verus!
