use subnet_authority::hash::compute_hash;
use subnet_authority::types::ServiceEntry;

const HASH_ULA_ADDR: u128 = 0xfd00_0000_0000_0001_0000_0000_0000_0001;
const HASH_NOW: i64 = 1_000_000;

fn hash_test_entry(instance_name: &str) -> ServiceEntry {
    ServiceEntry {
        service_type: "_http._tcp".to_string(),
        instance_name: instance_name.to_string(),
        hostname: "test.local.".to_string(),
        addresses: vec![HASH_ULA_ADDR],
        port: 8080,
        txt: vec![],
        first_seen: HASH_NOW,
        last_seen: HASH_NOW,
        ttl: 4500,
        alive: true,
    }
}

#[test]
fn test_hash_deterministic() {
    let entry1 = hash_test_entry("a._http._tcp.local.");
    let entry2 = hash_test_entry("b._http._tcp.local.");

    let hash1 = compute_hash(&vec![entry1.clone(), entry2.clone()]);
    let hash2 = compute_hash(&vec![entry2.clone(), entry1.clone()]);

    assert_eq!(hash1, hash2, "Hash should be same regardless of input order");
}

#[test]
fn test_hash_changes_on_modification() {
    let entry1 = hash_test_entry("a._http._tcp.local.");
    let mut entry2 = hash_test_entry("a._http._tcp.local.");

    let hash1 = compute_hash(&vec![entry1]);

    entry2.port = 9090;
    let hash2 = compute_hash(&vec![entry2]);

    assert_ne!(hash1, hash2, "Hash should change when entry changes");
}

#[test]
fn test_hash_stable_across_timestamp_changes() {
    let entry1 = hash_test_entry("a._http._tcp.local.");
    let mut entry2 = hash_test_entry("a._http._tcp.local.");
    entry2.last_seen = HASH_NOW + 60;
    entry2.first_seen = HASH_NOW - 60;
    entry2.ttl = 9999;

    let hash1 = compute_hash(&vec![entry1]);
    let hash2 = compute_hash(&vec![entry2]);

    assert_eq!(hash1, hash2, "Hash should not change when only timestamps/ttl change");
}

#[test]
fn test_hash_of_empty_catalog_is_digest_of_nothing() {
    // The canonical serialization of an empty catalog is the empty byte
    // string, so its fingerprint is the hexadecimal SHA-256 of no bytes.
    let hash = compute_hash(&vec![]);
    assert_eq!(
        hash,
        "e3b0c44298fc1c149afbf4c8996fb92427ae41e4649b934ca495991b7852b855"
    );
}

#[test]
fn test_hash_shape_is_lowercase_hex() {
    let entry = hash_test_entry("a._http._tcp.local.");
    let hash = compute_hash(&vec![entry]);
    assert_eq!(hash.len(), 64);
    assert!(hash.chars().all(|c| c.is_ascii_hexdigit() && !c.is_ascii_uppercase()));
}

#[test]
fn test_hash_changes_on_each_content_field() {
    let base = hash_test_entry("a._http._tcp.local.");
    let base_hash = compute_hash(&vec![base.clone()]);

    let mut changed = base.clone();
    changed.hostname = "other.local.".to_string();
    assert_ne!(compute_hash(&vec![changed]), base_hash);

    let mut changed = base.clone();
    changed.addresses = vec![HASH_ULA_ADDR + 1];
    assert_ne!(compute_hash(&vec![changed]), base_hash);

    let mut changed = base.clone();
    changed.port = 8081;
    assert_ne!(compute_hash(&vec![changed]), base_hash);

    let mut changed = base.clone();
    changed.txt = vec![("k".to_string(), "v".to_string())];
    assert_ne!(compute_hash(&vec![changed]), base_hash);

    let mut changed = base.clone();
    changed.alive = false;
    assert_ne!(compute_hash(&vec![changed]), base_hash);

    let mut changed = base.clone();
    changed.service_type = "_ssh._tcp".to_string();
    assert_ne!(compute_hash(&vec![changed]), base_hash);
}

#[test]
fn test_hash_ignores_txt_order() {
    let mut entry1 = hash_test_entry("a._http._tcp.local.");
    entry1.txt = vec![
        ("a".to_string(), "1".to_string()),
        ("b".to_string(), "2".to_string()),
    ];
    let mut entry2 = hash_test_entry("a._http._tcp.local.");
    entry2.txt = vec![
        ("b".to_string(), "2".to_string()),
        ("a".to_string(), "1".to_string()),
    ];

    let hash1 = compute_hash(&vec![entry1]);
    let hash2 = compute_hash(&vec![entry2]);
    assert_eq!(hash1, hash2);
}
