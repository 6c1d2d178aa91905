use swarm_core::routing::{RoutingTable, BUCKET_CAPACITY};

fn addr(s: &str) -> Vec<Vec<u8>> {
    vec![s.as_bytes().to_vec()]
}

#[test]
fn closest_is_sorted_by_xor_distance_and_bounded() {
    let mut rt = RoutingTable::new(0);
    for p in [1u64, 2, 3, 4, 8, 12, 700, 90000] {
        assert!(rt.insert_or_update(p, addr("a"), p));
    }
    let key = 5u64;
    let res = rt.closest(key, 5);
    assert!(res.len() <= 5);
    for w in res.windows(2) {
        assert!((w[0] ^ key) < (w[1] ^ key));
    }
    // distances to 5: 1^5=4, 2^5=7, 3^5=6, 4^5=1, 8^5=13, 12^5=9, ...
    assert_eq!(res, vec![4, 1, 3, 2, 12]);
}

#[test]
fn closest_returns_everything_when_small() {
    let mut rt = RoutingTable::new(7);
    rt.insert_or_update(1, addr("a"), 0);
    rt.insert_or_update(2, addr("b"), 1);
    let res = rt.closest(0, 10);
    assert_eq!(res.len(), 2);
}

#[test]
fn closest_on_empty_table_is_empty() {
    let rt = RoutingTable::new(42);
    assert!(rt.closest(99, 3).is_empty());
}

#[test]
fn bucket_never_exceeds_capacity_and_evicts_least_recently_seen() {
    // peers 32..=52 all land in the bucket of the sixth bit (distance 32..63
    // from local 0), one more than the capacity of twenty
    let mut rt = RoutingTable::new(0);
    for (i, p) in (32u64..=52).enumerate() {
        assert!(rt.insert_or_update(p, addr("a"), i as u64));
    }
    assert_eq!(BUCKET_CAPACITY, 20);
    // the least-recently-seen entry (peer 32, inserted first) was evicted
    assert!(!rt.contains(32));
    for p in 33u64..=52 {
        assert!(rt.contains(p));
    }
    let in_bucket = rt.closest(0, 64);
    assert_eq!(in_bucket.len(), 20);
}

#[test]
fn refreshing_a_peer_spares_it_from_eviction() {
    let mut rt = RoutingTable::new(0);
    for (i, p) in (32u64..=51).enumerate() {
        rt.insert_or_update(p, addr("a"), i as u64);
    }
    // refresh peer 32: now peer 33 is the least recently seen
    rt.insert_or_update(32, addr("a"), 100);
    rt.insert_or_update(52, addr("a"), 101);
    assert!(rt.contains(32));
    assert!(!rt.contains(33));
}

#[test]
fn remove_deletes_the_peer() {
    let mut rt = RoutingTable::new(0);
    rt.insert_or_update(5, addr("a"), 0);
    rt.insert_or_update(6, addr("b"), 1);
    assert!(rt.contains(5));
    rt.remove(5);
    assert!(!rt.contains(5));
    assert!(rt.contains(6));
    assert_eq!(rt.closest(0, 10), vec![6]);
}

#[test]
fn insert_is_idempotent_on_membership() {
    let mut rt = RoutingTable::new(0);
    rt.insert_or_update(9, addr("a"), 0);
    rt.insert_or_update(9, addr("b"), 1);
    assert_eq!(rt.closest(0, 10).len(), 1);
}
