use swarm_core::bytes::{bytes_eq, hash_bytes, sub_bytes};

#[test]
fn fnv_hash_matches_the_published_vectors() {
    // 64-bit FNV-1a test vectors
    assert_eq!(hash_bytes(&Vec::new()), 0xcbf29ce484222325);
    assert_eq!(hash_bytes(&b"a".to_vec()), 0xaf63dc4c8601ec8c);
    assert_eq!(hash_bytes(&b"foobar".to_vec()), 0x85944171f73967e8);
}

#[test]
fn hash_is_deterministic_and_content_sensitive() {
    let h1 = hash_bytes(&b"hello".to_vec());
    let h2 = hash_bytes(&b"hello".to_vec());
    let h3 = hash_bytes(&b"hellp".to_vec());
    assert_eq!(h1, h2);
    assert_ne!(h1, h3);
}

#[test]
fn bytes_eq_compares_contents() {
    assert!(bytes_eq(&b"abc".to_vec(), &b"abc".to_vec()));
    assert!(!bytes_eq(&b"abc".to_vec(), &b"abd".to_vec()));
    assert!(!bytes_eq(&b"abc".to_vec(), &b"ab".to_vec()));
    assert!(bytes_eq(&Vec::new(), &Vec::new()));
}

#[test]
fn sub_bytes_takes_the_half_open_range() {
    let v = b"abcdef".to_vec();
    assert_eq!(sub_bytes(&v, 1, 4), b"bcd".to_vec());
    assert_eq!(sub_bytes(&v, 0, 6), v);
    assert_eq!(sub_bytes(&v, 3, 3), Vec::<u8>::new());
}
