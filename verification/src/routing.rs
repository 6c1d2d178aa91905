//! Kademlia-style routing table: peers bucketed by XOR distance from the
//! local identity.
//!
//! Bucket `b` holds peers whose XOR distance from the local peer has its
//! highest set bit at position `b` (that is, `b == floor(log2(distance))`).
//! Each bucket holds at most [`BUCKET_CAPACITY`] entries, kept in
//! least-recently-seen-first order; inserting into a full bucket evicts the
//! entry at the front, which is the least recently seen one.

use vstd::prelude::*;
use vstd::arithmetic::power2::{pow2, lemma2_to64_rest};

verus! {

/// Number of XOR-distance buckets: one for each possible position of the
/// highest differing bit of two 64-bit identifiers.
pub const NUM_BUCKETS: usize = 64;

/// Maximum number of entries a bucket may hold (Kademlia's K).
pub const BUCKET_CAPACITY: usize = 20;

/// The XOR metric over the 64-bit identifier space.
pub open spec fn xor_distance(a: u64, k: u64) -> u64 {
    a ^ k
}

/// floor(log2(d)), with log2 of 0 and 1 both 0.
pub open spec fn log2(d: nat) -> nat
    decreases d,
{
    if d <= 1 {
        0
    } else {
        1 + log2(d / 2)
    }
}

/// The bucket that holds `peer` in the table of `local`.
pub open spec fn bucket_index_spec(local: u64, peer: u64) -> nat {
    log2(xor_distance(local, peer) as nat)
}

/// Any value below a power of two has its log2 below the exponent.
pub proof fn lemma_log2_lt(d: nat, n: nat)
    requires
        1 <= n,
        d < pow2(n),
    ensures
        log2(d) < n,
    decreases n,
{
    if d > 1 {
        assert(pow2(n) == 2 * pow2((n - 1) as nat)) by {
            vstd::arithmetic::power2::lemma_pow2_unfold(n);
        }
        if n == 1 {
            assert(pow2(1) == 2) by {
                vstd::arithmetic::power2::lemma2_to64();
            }
            assert(false);
        } else {
            lemma_log2_lt(d / 2, (n - 1) as nat);
        }
    }
}

/// A 64-bit identifier's bucket index fits in the table.
pub proof fn lemma_bucket_index_bound(local: u64, peer: u64)
    ensures
        bucket_index_spec(local, peer) < 64,
{
    lemma2_to64_rest();
    lemma_log2_lt(xor_distance(local, peer) as nat, 64);
}

/// A sequence strictly sorted by distance repeats no peer.
pub proof fn lemma_sorted_by_distance_distinct(s: Seq<u64>, k: u64)
    requires
        sorted_by_distance(s, k),
    ensures
        forall|i: int, j: int| 0 <= i < j < s.len() ==> s[i] != s[j],
{
    assert forall|i: int, j: int| 0 <= i < j < s.len() implies s[i] != s[j] by {
        assert(xor_distance(s[i], k) < xor_distance(s[j], k));
    }
}

/// Distinct peers are at distinct XOR distances from any key.
pub proof fn lemma_xor_distance_injective(a: u64, b: u64, k: u64)
    requires
        a != b,
    ensures
        xor_distance(a, k) != xor_distance(b, k),
{
    assert(a != b ==> (a ^ k) != (b ^ k)) by (bit_vector);
}

/// Computes `floor(log2(local ^ peer))`, the bucket index for `peer`.
pub fn bucket_index(local: u64, peer: u64) -> (b: usize)
    requires
        local != peer,
    ensures
        b == bucket_index_spec(local, peer),
        b < NUM_BUCKETS,
{
    proof {
        assert(local != peer ==> (local ^ peer) != 0) by (bit_vector);
        lemma_bucket_index_bound(local, peer);
    }
    let d: u64 = local ^ peer;
    let mut v: u64 = d;
    let mut i: usize = 0;
    while v > 1
        invariant
            1 <= v <= d,
            log2(d as nat) == i + log2(v as nat),
            log2(d as nat) < 64,
        decreases v,
    {
        v = v / 2;
        i = i + 1;
    }
    i
}

/// Inserts `p` into `v`, which is strictly sorted by XOR distance from `key`
/// and does not already contain `p`, keeping it sorted.
pub(crate) fn insert_by_distance(v: &mut Vec<u64>, key: u64, p: u64)
    requires
        sorted_by_distance(old(v)@, key),
        !old(v)@.contains(p),
    ensures
        sorted_by_distance(final(v)@, key),
        final(v)@.len() == old(v)@.len() + 1,
        forall|q: u64| #[trigger] final(v)@.contains(q) <==> old(v)@.contains(q) || q == p,
    {
    proof {
        assert forall|j: int| 0 <= j < v@.len() implies xor_distance(#[trigger] v@[j], key)
            != xor_distance(p, key) by {
            assert(v@[j] != p) by {
                if v@[j] == p {
                    assert(v@.contains(p));
                }
            }
            lemma_xor_distance_injective(v@[j], p, key);
        }
    }
    let dp: u64 = p ^ key;
    let mut lo: usize = 0;
    while lo < v.len() && (v[lo] ^ key) < dp
        invariant
            lo <= v@.len(),
            v@ == old(v)@,
            dp == xor_distance(p, key),
            forall|j: int|
                0 <= j < lo ==> xor_distance(#[trigger] v@[j], key) < xor_distance(p, key),
        decreases v@.len() - lo,
    {
        lo = lo + 1;
    }
    v.insert(lo, p);
    proof {
        let newv = v@;
        let oldv = old(v)@;
        assert forall|i: int, j: int| 0 <= i < j < newv.len() implies xor_distance(
            #[trigger] newv[i],
            key,
        ) < xor_distance(#[trigger] newv[j], key) by {
            if i < lo {
                assert(newv[i] == oldv[i]);
            } else if i > lo {
                assert(newv[i] == oldv[i - 1]);
            }
            if j < lo {
                assert(newv[j] == oldv[j]);
            } else if j > lo {
                assert(newv[j] == oldv[j - 1]);
            }
            if j == lo {
                // everything before the insertion point is strictly closer
                assert(xor_distance(newv[i], key) < xor_distance(p, key));
            }
            if i == lo && j > lo {
                // the element displaced to just after p was not closer than p
                assert(xor_distance(oldv[lo as int], key) != xor_distance(p, key));
            }
        }
        assert forall|q: u64| #[trigger] newv.contains(q) <==> oldv.contains(q) || q == p by {
            if newv.contains(q) {
                let i = choose|i: int| 0 <= i < newv.len() && newv[i] == q;
                if i < lo {
                    assert(oldv[i] == q);
                    assert(oldv.contains(q));
                } else if i > lo {
                    assert(oldv[i - 1] == q);
                    assert(oldv.contains(q));
                }
            }
            if oldv.contains(q) {
                let i = choose|i: int| 0 <= i < oldv.len() && oldv[i] == q;
                if i < lo {
                    assert(newv[i] == q);
                } else {
                    assert(newv[i + 1] == q);
                }
                assert(newv.contains(q));
            }
            if q == p {
                assert(newv[lo as int] == p);
                assert(newv.contains(q));
            }
        }
    }
}

/// Everything one insert-or-refresh does to a routing table: `post` is
/// `pre` with the entry for `peer` moved to (or created at) the
/// most-recently-seen end of its bucket, carrying exactly the given
/// addresses and time; every other bucket is untouched; and if the bucket
/// was full and `peer` new, its front — least-recently-seen — entry is
/// evicted, and only that one.
pub open spec fn insert_or_update_post(
    pre: RoutingTable,
    post: RoutingTable,
    peer: u64,
    addrs: Seq<Seq<u8>>,
    now: u64,
) -> bool {
    let b = bucket_index_spec(pre.local, peer) as int;
    let olds = pre.bucket_peers(b);
    let news = post.bucket_peers(b);
    &&& post.local == pre.local
    &&& post.contains_peer(peer)
    &&& forall|bb: int| 0 <= bb < NUM_BUCKETS && bb != b ==> post.buckets@[bb] == pre.buckets@[bb]
    &&& post.buckets@[b]@.len() > 0
    &&& post.buckets@[b]@.last().peer == peer
    &&& post.buckets@[b]@.last().last_seen == now
    &&& post.buckets@[b]@.last().addresses@.map_values(|a: Vec<u8>| a@) == addrs
    &&& (if pre.contains_peer(peer) {
        news =~= olds.remove(olds.index_of(peer)).push(peer)
    } else if olds.len() < BUCKET_CAPACITY {
        news =~= olds.push(peer)
    } else {
        news =~= olds.subrange(1, olds.len() as int).push(peer)
    })
    &&& (if !pre.contains_peer(peer) && olds.len() >= BUCKET_CAPACITY {
        forall|q: u64|
            #[trigger] post.contains_peer(q) <==> ((pre.contains_peer(q) || q == peer) && q
                != olds[0])
    } else {
        forall|q: u64| #[trigger] post.contains_peer(q) <==> (pre.contains_peer(q) || q == peer)
    })
}

/// What a closest-peers lookup returns: at most `n` table peers in strictly
/// ascending XOR-distance order from `key`, leaving a table peer out only
/// when the result is full and every returned peer is strictly closer.
/// Distances of distinct peers never tie, so this determines the result.
pub open spec fn closest_post(rt: RoutingTable, key: u64, n: int, res: Seq<u64>) -> bool {
    &&& res.len() <= n
    &&& sorted_by_distance(res, key)
    &&& forall|i: int| 0 <= i < res.len() ==> rt.contains_peer(#[trigger] res[i])
    &&& forall|q: u64| #[trigger] rt.contains_peer(q) && !res.contains(q) ==> res.len() == n
    &&& forall|q: u64, i: int|
        #![trigger rt.contains_peer(q), res[i]]
        rt.contains_peer(q) && !res.contains(q) && 0 <= i < res.len() ==> xor_distance(res[i], key)
            < xor_distance(q, key)
}

/// One routing-table entry: a peer, the addresses it was last seen under,
/// and the logical time of that sighting.
pub struct Entry {
    pub peer: u64,
    pub addresses: Vec<Vec<u8>>,
    pub last_seen: u64,
}

/// The routing table of the local peer.
pub struct RoutingTable {
    pub local: u64,
    pub buckets: Vec<Vec<Entry>>,
}

/// A sequence of peers is strictly sorted by ascending XOR distance from `k`.
pub open spec fn sorted_by_distance(s: Seq<u64>, k: u64) -> bool {
    forall|i: int, j: int|
        0 <= i < j < s.len() ==> xor_distance(#[trigger] s[i], k) < xor_distance(#[trigger] s[j], k)
}

impl RoutingTable {
    /// The peers held by bucket `b`, in least-recently-seen-first order.
    pub open spec fn bucket_peers(self, b: int) -> Seq<u64> {
        self.buckets@[b]@.map_values(|e: Entry| e.peer)
    }

    /// Whether some bucket slot holds `q`.
    pub open spec fn contains_peer(self, q: u64) -> bool {
        exists|b: int, i: int|
            #![auto]
            0 <= b < self.buckets@.len() && 0 <= i < self.buckets@[b]@.len()
                && self.buckets@[b]@[i].peer == q
    }

    /// Well-formedness: 64 buckets, each within capacity, every entry in the
    /// bucket its XOR distance selects, never the local peer, and no peer
    /// twice in one bucket (and so, by bucket selection, never twice at all).
    pub open spec fn wf(self) -> bool {
        &&& self.buckets@.len() == NUM_BUCKETS
        &&& forall|b: int|
            0 <= b < NUM_BUCKETS ==> (#[trigger] self.buckets@[b])@.len() <= BUCKET_CAPACITY
        &&& forall|b: int, i: int|
            #![auto]
            0 <= b < NUM_BUCKETS && 0 <= i < self.buckets@[b]@.len() ==> {
                &&& self.buckets@[b]@[i].peer != self.local
                &&& bucket_index_spec(self.local, self.buckets@[b]@[i].peer) == b
            }
        &&& forall|b: int, i: int, j: int|
            #![auto]
            0 <= b < NUM_BUCKETS && 0 <= i < j < self.buckets@[b]@.len()
                ==> self.buckets@[b]@[i].peer != self.buckets@[b]@[j].peer
    }

    /// An empty table for `local`.
    pub fn new(local: u64) -> (rt: RoutingTable)
        ensures
            rt.wf(),
            rt.local == local,
            forall|q: u64| !rt.contains_peer(q),
    {
        let mut buckets: Vec<Vec<Entry>> = Vec::new();
        let mut b: usize = 0;
        while b < NUM_BUCKETS
            invariant
                b <= NUM_BUCKETS,
                buckets@.len() == b,
                forall|i: int| 0 <= i < b ==> (#[trigger] buckets@[i])@.len() == 0,
            decreases NUM_BUCKETS - b,
        {
            buckets.push(Vec::new());
            b = b + 1;
        }
        RoutingTable { local, buckets }
    }

    /// Inserts `peer` with `addresses`, or refreshes it if already present.
    ///
    /// The entry for `peer` ends up at the most-recently-seen end of its
    /// bucket, carrying exactly `addresses` and `now`.  If the bucket was
    /// full and `peer` absent, the least-recently-seen entry (the front one)
    /// is evicted.  Returns whether the peer is now present: always true.
    /// [`insert_or_update_post`] is the exact statement.
    pub fn insert_or_update(&mut self, peer: u64, addresses: Vec<Vec<u8>>, now: u64) -> (present:
        bool)
        requires
            old(self).wf(),
            peer != old(self).local,
        ensures
            final(self).wf(),
            present,
            insert_or_update_post(
                *old(self),
                *final(self),
                peer,
                addresses@.map_values(|a: Vec<u8>| a@),
                now,
            ),
    {
        let b = bucket_index(self.local, peer);
        let ghost bi = b as int;
        let mut bucket = self.buckets.remove(b);
        let ghost olds = bucket@;

        // locate peer in the bucket, if present
        let mut idx: usize = 0;
        let mut found = false;
        while idx < bucket.len() && !found
            invariant
                idx <= bucket@.len(),
                bucket@ == olds,
                !found ==> forall|j: int| 0 <= j < idx ==> olds[j].peer != peer,
                found ==> idx < olds.len() && olds[idx as int].peer == peer && forall|j: int|
                    0 <= j < idx ==> olds[j].peer != peer,
            decreases bucket@.len() - idx + if found { 0int } else { 1int },
        {
            if bucket[idx].peer == peer {
                found = true;
            } else {
                idx = idx + 1;
            }
        }

        if found {
            let _ = bucket.remove(idx);
        } else if bucket.len() >= BUCKET_CAPACITY {
            let _ = bucket.remove(0);
        }
        bucket.push(Entry { peer, addresses, last_seen: now });
        self.buckets.insert(b, bucket);

        proof {
            assert(self.buckets@ =~= old(self).buckets@.update(bi, bucket));
            let news = bucket@;
            let fresh = Entry { peer, addresses: addresses, last_seen: now };
            assert(news.last() == fresh);
            // membership of peer in the old bucket agrees with `found`
            let oldp = old(self).bucket_peers(bi);
            let newp = self.bucket_peers(bi);
            assert(oldp.len() == olds.len());
            if found {
                assert(old(self).contains_peer(peer)) by {
                    assert(old(self).buckets@[bi]@[idx as int].peer == peer);
                }
                // idx is the unique index of peer, so it is the chosen index_of
                assert(oldp.contains(peer)) by {
                    assert(oldp[idx as int] == peer);
                }
                let ci = oldp.index_of(peer);
                assert(0 <= ci < oldp.len() && oldp[ci] == peer);
                assert(ci == idx) by {
                    if ci != idx {
                        assert(olds[ci].peer == olds[idx as int].peer);
                    }
                }
                assert(newp =~= oldp.remove(idx as int).push(peer));
            } else {
                assert(!old(self).contains_peer(peer)) by {
                    if old(self).contains_peer(peer) {
                        let (bb, ii) = choose|bb: int, ii: int|
                            #![auto]
                            0 <= bb < old(self).buckets@.len() && 0 <= ii
                                < old(self).buckets@[bb]@.len() && old(
                                self,
                            ).buckets@[bb]@[ii].peer == peer;
                        assert(bb == bi);
                        assert(olds[ii].peer == peer);
                    }
                }
                if olds.len() < BUCKET_CAPACITY {
                    assert(newp =~= oldp.push(peer));
                } else {
                    assert(newp =~= oldp.subrange(1, oldp.len() as int).push(peer));
                }
            }
            // well-formedness of the new table
            assert forall|bb: int, i: int|
                #![auto]
                0 <= bb < NUM_BUCKETS && 0 <= i < self.buckets@[bb]@.len() implies {
                &&& self.buckets@[bb]@[i].peer != self.local
                &&& bucket_index_spec(self.local, self.buckets@[bb]@[i].peer) == bb
            } by {
                if bb == bi {
                    if i < news.len() - 1 {
                        // an entry kept from the old bucket: name its old slot
                        if found {
                            if i < idx {
                                assert(news[i] == olds[i]);
                            } else {
                                assert(news[i] == olds[i + 1]);
                            }
                        } else if olds.len() < BUCKET_CAPACITY {
                            assert(news[i] == olds[i]);
                        } else {
                            assert(news[i] == olds[i + 1]);
                        }
                    }
                }
            }
            assert(self.contains_peer(peer)) by {
                assert(self.buckets@[bi]@[news.len() - 1].peer == peer);
            }
            // membership after the insert, including the evicted peer
            let evicted = !found && olds.len() >= BUCKET_CAPACITY;
            assert forall|q: u64| #[trigger]
                self.contains_peer(q) implies ((old(self).contains_peer(q) || q == peer) && (
            !evicted || q != oldp[0])) by {
                let (bb, ii) = choose|bb: int, ii: int|
                    #![auto]
                    0 <= bb < self.buckets@.len() && 0 <= ii < self.buckets@[bb]@.len()
                        && self.buckets@[bb]@[ii].peer == q;
                if bb != bi {
                    assert(old(self).buckets@[bb]@[ii].peer == q);
                    if evicted {
                        // the evicted peer's bucket is the edited one
                        assert(bucket_index_spec(self.local, olds[0].peer) == bi);
                        assert(bucket_index_spec(self.local, q) == bb);
                    }
                } else {
                    if ii == news.len() - 1 {
                        assert(q == peer);
                    } else {
                        if found {
                            if ii < idx {
                                assert(olds[ii].peer == q);
                            } else {
                                assert(olds[ii + 1].peer == q);
                            }
                        } else if olds.len() < BUCKET_CAPACITY {
                            assert(olds[ii].peer == q);
                        } else {
                            assert(olds[ii + 1].peer == q);
                        }
                        assert(old(self).contains_peer(q));
                    }
                }
            }
            assert forall|q: u64|
                (old(self).contains_peer(q) || q == peer) && (!evicted || q != oldp[0])
                    implies #[trigger] self.contains_peer(q) by {
                if q == peer {
                    assert(self.buckets@[bi]@[news.len() - 1].peer == q);
                } else {
                    let (bb, ii) = choose|bb: int, ii: int|
                        #![auto]
                        0 <= bb < old(self).buckets@.len() && 0 <= ii
                            < old(self).buckets@[bb]@.len() && old(self).buckets@[bb]@[ii].peer
                            == q;
                    if bb != bi {
                        assert(self.buckets@[bb]@[ii].peer == q);
                    } else {
                        if found {
                            assert(ii != idx);
                            if ii < idx {
                                assert(news[ii].peer == q);
                            } else {
                                assert(news[ii - 1].peer == q);
                            }
                        } else if olds.len() < BUCKET_CAPACITY {
                            assert(news[ii].peer == q);
                        } else {
                            assert(ii != 0) by {
                                if ii == 0 {
                                    assert(oldp[0] == q);
                                }
                            }
                            assert(news[ii - 1].peer == q);
                        }
                        assert(self.contains_peer(q));
                    }
                }
            }
        }
        true
    }

    /// Whether `q` appears among the entries of buckets `0..b`, or among the
    /// first `i` entries of bucket `b`.
    pub open spec fn peer_in_prefix(self, b: int, i: int, q: u64) -> bool {
        exists|bb: int, ii: int|
            #![auto]
            0 <= bb < self.buckets@.len() && 0 <= ii < self.buckets@[bb]@.len() && (bb < b || (bb
                == b && ii < i)) && self.buckets@[bb]@[ii].peer == q
    }

    /// The peers closest to `key`, at most `n` of them, in strictly
    /// ascending XOR-distance order.  Every table peer left out is farther
    /// from `key` than every peer returned, and a peer is left out only when
    /// the result is already full.  Ties cannot arise: two distinct peers
    /// are never at the same XOR distance from a key.  [`closest_post`] is
    /// the exact statement.
    pub fn closest(&self, key: u64, n: usize) -> (res: Vec<u64>)
        requires
            self.wf(),
        ensures
            closest_post(*self, key, n as int, res@),
    {
        let mut all: Vec<u64> = Vec::new();
        let mut b: usize = 0;
        while b < NUM_BUCKETS
            invariant
                self.wf(),
                b <= NUM_BUCKETS,
                sorted_by_distance(all@, key),
                forall|q: u64| #[trigger] all@.contains(q) <==> self.peer_in_prefix(b as int, 0, q),
            decreases NUM_BUCKETS - b,
        {
            let blen = self.buckets[b].len();
            let mut i: usize = 0;
            while i < blen
                invariant
                    self.wf(),
                    b < NUM_BUCKETS,
                    blen == self.buckets@[b as int]@.len(),
                    i <= blen,
                    sorted_by_distance(all@, key),
                    forall|q: u64|
                        #[trigger] all@.contains(q) <==> self.peer_in_prefix(
                            b as int,
                            i as int,
                            q,
                        ),
                decreases blen - i,
            {
                let p = self.buckets[b][i].peer;
                proof {
                    // p is new: no earlier slot holds it
                    assert(!all@.contains(p)) by {
                        if self.peer_in_prefix(b as int, i as int, p) {
                            let (bb, ii) = choose|bb: int, ii: int|
                                #![auto]
                                0 <= bb < self.buckets@.len() && 0 <= ii
                                    < self.buckets@[bb]@.len() && (bb < b || (bb == b && ii
                                    < i)) && self.buckets@[bb]@[ii].peer == p;
                            assert(bucket_index_spec(self.local, p) == bb);
                            assert(bucket_index_spec(self.local, p) == b as int);
                        }
                    }
                }
                insert_by_distance(&mut all, key, p);
                i = i + 1;
                proof {
                    assert forall|q: u64| #[trigger]
                        all@.contains(q) <==> self.peer_in_prefix(b as int, i as int, q) by {
                        if all@.contains(q) {
                            if q == p {
                                assert(self.buckets@[b as int]@[i - 1].peer == q);
                            }
                        }
                        if self.peer_in_prefix(b as int, i as int, q) && q != p {
                            assert(self.peer_in_prefix(b as int, i as int - 1, q));
                        }
                    }
                }
            }
            b = b + 1;
            proof {
                assert forall|q: u64| #[trigger]
                    all@.contains(q) <==> self.peer_in_prefix(b as int, 0, q) by {
                    if self.peer_in_prefix(b as int, 0, q) {
                        assert(self.peer_in_prefix(b as int - 1, blen as int, q));
                    }
                    if self.peer_in_prefix(b as int - 1, blen as int, q) {
                        assert(self.peer_in_prefix(b as int, 0, q));
                    }
                }
            }
        }
        let ghost full = all@;
        proof {
            // full traversal: membership in `all` is table membership
            assert forall|q: u64| #[trigger]
                full.contains(q) <==> self.contains_peer(q) by {
                if self.contains_peer(q) {
                    assert(self.peer_in_prefix(NUM_BUCKETS as int, 0, q));
                }
            }
        }
        if all.len() > n {
            all.truncate(n);
            proof {
                assert(all@ =~= full.subrange(0, n as int));
            }
        }
        proof {
            assert forall|i: int| 0 <= i < all@.len() implies self.contains_peer(
                #[trigger] all@[i],
            ) by {
                assert(all@[i] == full[i]);
                assert(full.contains(all@[i]));
            }
            assert forall|q: u64|
                #[trigger] self.contains_peer(q) && !all@.contains(q) implies all@.len()
                == n by {
                assert(full.contains(q));
                if full.len() <= n {
                    assert(all@ == full);
                }
            }
            assert forall|q: u64, i: int|
                #![trigger self.contains_peer(q), all@[i]]
                self.contains_peer(q) && !all@.contains(q) && 0 <= i < all@.len() implies
                xor_distance(all@[i], key) < xor_distance(q, key) by {
                assert(full.contains(q));
                let j = choose|j: int| 0 <= j < full.len() && full[j] == q;
                assert(all@.len() == n && full.len() > n);
                assert(all@[i] == full[i]);
                if j < n {
                    assert(all@[j] == full[j]);
                    assert(all@.contains(q));
                }
                assert(j >= n);
            }
        }
        all
    }

    /// Whether the table holds `peer`.
    pub fn contains(&self, peer: u64) -> (r: bool)
        requires
            self.wf(),
        ensures
            r == self.contains_peer(peer),
    {
        if peer == self.local {
            proof {
                assert(!self.contains_peer(peer));
            }
            return false;
        }
        let b = bucket_index(self.local, peer);
        let mut i: usize = 0;
        while i < self.buckets[b].len()
            invariant
                self.wf(),
                b == bucket_index_spec(self.local, peer),
                b < NUM_BUCKETS,
                peer != self.local,
                i <= self.buckets@[b as int]@.len(),
                forall|j: int| 0 <= j < i ==> self.buckets@[b as int]@[j].peer != peer,
            decreases self.buckets@[b as int]@.len() - i,
        {
            if self.buckets[b][i].peer == peer {
                proof {
                    assert(self.buckets@[b as int]@[i as int].peer == peer);
                }
                return true;
            }
            i = i + 1;
        }
        proof {
            if self.contains_peer(peer) {
                let (bb, ii) = choose|bb: int, ii: int|
                    #![auto]
                    0 <= bb < self.buckets@.len() && 0 <= ii < self.buckets@[bb]@.len()
                        && self.buckets@[bb]@[ii].peer == peer;
                assert(bb == b as int);
            }
        }
        false
    }

    /// A bucket never exceeds its capacity, whatever sequence of insertions
    /// built the table.  The other half of the capacity law — that inserting
    /// a new peer into a full bucket evicts exactly the least-recently-seen
    /// entry, the one at the front — is the full-bucket case of
    /// `insert_or_update`'s contract.
    pub proof fn lemma_bucket_capacity(self, b: int)
        requires
            self.wf(),
            0 <= b < NUM_BUCKETS,
        ensures
            self.buckets@[b]@.len() <= BUCKET_CAPACITY,
    {
    }

    /// Removes `peer` from the table if present.
    pub fn remove(&mut self, peer: u64)
        requires
            old(self).wf(),
        ensures
            final(self).wf(),
            final(self).local == old(self).local,
            !final(self).contains_peer(peer),
            forall|q: u64|
                #![auto]
                final(self).contains_peer(q) <==> old(self).contains_peer(q) && q != peer,
    {
        if peer == self.local {
            proof {
                assert(!self.contains_peer(peer));
            }
            return;
        }
        let b = bucket_index(self.local, peer);
        let ghost bi = b as int;
        let mut bucket = self.buckets.remove(b);
        let ghost olds = bucket@;

        let mut idx: usize = 0;
        let mut found = false;
        while idx < bucket.len() && !found
            invariant
                idx <= bucket@.len(),
                bucket@ == olds,
                !found ==> forall|j: int| 0 <= j < idx ==> olds[j].peer != peer,
                found ==> idx < olds.len() && olds[idx as int].peer == peer,
            decreases bucket@.len() - idx + if found { 0int } else { 1int },
        {
            if bucket[idx].peer == peer {
                found = true;
            } else {
                idx = idx + 1;
            }
        }
        if found {
            let _ = bucket.remove(idx);
        }
        self.buckets.insert(b, bucket);

        proof {
            assert(self.buckets@ =~= old(self).buckets@.update(bi, bucket));
            assert forall|q: u64|
                #![auto]
                final(self).contains_peer(q) <==> (old(self).contains_peer(q) && q != peer) by {
                if self.contains_peer(q) {
                    let (bb, ii) = choose|bb: int, ii: int|
                        #![auto]
                        0 <= bb < self.buckets@.len() && 0 <= ii < self.buckets@[bb]@.len()
                            && self.buckets@[bb]@[ii].peer == q;
                    if bb == bi && found {
                        // a surviving slot of the edited bucket came from the old one
                        if ii < idx {
                            assert(olds[ii].peer == q);
                            assert(q != peer);
                        } else {
                            assert(olds[ii + 1].peer == q);
                            assert(q != peer);
                        }
                        assert(old(self).contains_peer(q));
                    } else {
                        assert(old(self).contains_peer(q));
                        if q == peer {
                            assert(bucket_index_spec(self.local, q) == bb);
                            assert(bb == bi);
                            if found {
                                assert(false);
                            } else {
                                assert(olds[ii].peer == peer);
                                assert(false);
                            }
                        }
                    }
                }
                if old(self).contains_peer(q) && q != peer {
                    let (bb, ii) = choose|bb: int, ii: int|
                        #![auto]
                        0 <= bb < old(self).buckets@.len() && 0 <= ii
                            < old(self).buckets@[bb]@.len() && old(self).buckets@[bb]@[ii].peer
                            == q;
                    if bb == bi && found {
                        if ii < idx {
                            assert(self.buckets@[bb]@[ii].peer == q);
                        } else if ii == idx {
                            assert(false);
                        } else {
                            assert(self.buckets@[bb]@[ii - 1].peer == q);
                        }
                    } else {
                        assert(self.buckets@[bb]@[ii].peer == q);
                    }
                    assert(self.contains_peer(q));
                }
            }
        }
    }
}

} // verus!
