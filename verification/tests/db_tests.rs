use subnet_authority::db::CacheDb;
use subnet_authority::types::ServiceEntry;

const ULA_ADDR: u128 = 0xfd00_0000_0000_0001_0000_0000_0000_0001;
const NOW: i64 = 1_000_000;

fn db_test_entry() -> ServiceEntry {
    ServiceEntry {
        service_type: "_http._tcp".to_string(),
        instance_name: "test._http._tcp.local.".to_string(),
        hostname: "test.local.".to_string(),
        addresses: vec![ULA_ADDR],
        port: 8080,
        txt: vec![("path".to_string(), "/api".to_string())],
        first_seen: NOW,
        last_seen: NOW,
        ttl: 4500,
        alive: true,
    }
}

#[test]
fn test_create_and_query() {
    let mut db = CacheDb::open();
    let entry = db_test_entry();

    let changed = db.upsert_service(&entry);
    assert!(changed, "First insert should report change");

    let retrieved = db.get_service(&entry.instance_name).unwrap();
    assert_eq!(retrieved.hostname, entry.hostname);
    assert_eq!(retrieved.port, entry.port);
}

#[test]
fn test_upsert_detects_changes() {
    let mut db = CacheDb::open();
    let mut entry = db_test_entry();

    db.upsert_service(&entry);

    // No change - should return false
    let changed = db.upsert_service(&entry);
    assert!(!changed, "Identical upsert should not report change");

    // Change port - should return true
    entry.port = 9090;
    let changed = db.upsert_service(&entry);
    assert!(changed, "Modified entry should report change");
}

#[test]
fn test_mark_dead() {
    let mut db = CacheDb::open();
    let entry = db_test_entry();

    db.upsert_service(&entry);
    db.mark_dead(&entry.instance_name, NOW + 10);

    let retrieved = db.get_service(&entry.instance_name).unwrap();
    assert!(!retrieved.alive);
}

#[test]
fn test_get_services_by_type() {
    let mut db = CacheDb::open();

    let mut entry1 = db_test_entry();
    entry1.instance_name = "service1._http._tcp.local.".to_string();

    let mut entry2 = db_test_entry();
    entry2.instance_name = "service2._http._tcp.local.".to_string();

    let mut entry3 = db_test_entry();
    entry3.service_type = "_ssh._tcp".to_string();
    entry3.instance_name = "service3._ssh._tcp.local.".to_string();

    db.upsert_service(&entry1);
    db.upsert_service(&entry2);
    db.upsert_service(&entry3);

    let http_services = db.get_services_by_type("_http._tcp");
    assert_eq!(http_services.len(), 2);

    let ssh_services = db.get_services_by_type("_ssh._tcp");
    assert_eq!(ssh_services.len(), 1);
}

#[test]
fn test_mark_dead_idempotent() {
    let mut db = CacheDb::open();
    let entry = db_test_entry();
    db.upsert_service(&entry);

    db.mark_dead(&entry.instance_name, NOW + 5);
    db.mark_dead(&entry.instance_name, NOW + 10);

    let retrieved = db.get_service(&entry.instance_name).unwrap();
    assert!(!retrieved.alive);
}

#[test]
fn test_mark_dead_unknown_name_is_noop() {
    let mut db = CacheDb::open();
    let entry = db_test_entry();
    db.upsert_service(&entry);

    let written = db.mark_dead("ghost._http._tcp.local.", NOW + 5);
    assert!(!written);
    assert_eq!(db.get_all_services().len(), 1);
    assert!(db.get_all_services()[0].alive);
}

#[test]
fn test_mark_stale_affects_exactly_old_live_rows() {
    let mut db = CacheDb::open();
    let now: i64 = NOW + 1000;
    let stale_after: u64 = 300;
    // cutoff is now - 300; strictly older rows go stale

    let mut old_alive = db_test_entry();
    old_alive.instance_name = "old-alive._http._tcp.local.".to_string();
    old_alive.last_seen = now - 301;

    let mut boundary = db_test_entry();
    boundary.instance_name = "boundary._http._tcp.local.".to_string();
    boundary.last_seen = now - 300; // exactly at the cutoff: not stale

    let mut fresh = db_test_entry();
    fresh.instance_name = "fresh._http._tcp.local.".to_string();
    fresh.last_seen = now - 10;

    let mut old_dead = db_test_entry();
    old_dead.instance_name = "old-dead._http._tcp.local.".to_string();
    old_dead.last_seen = now - 500;
    old_dead.alive = false;

    db.upsert_service(&old_alive);
    db.upsert_service(&boundary);
    db.upsert_service(&fresh);
    db.upsert_service(&old_dead);

    let count = db.mark_stale(stale_after, now);
    assert_eq!(count, 1, "only the live, strictly-older row is affected");

    assert!(!db.get_service(&old_alive.instance_name).unwrap().alive);
    assert!(db.get_service(&boundary.instance_name).unwrap().alive);
    assert!(db.get_service(&fresh.instance_name).unwrap().alive);
    let dead = db.get_service(&old_dead.instance_name).unwrap();
    assert!(!dead.alive);
    assert_eq!(dead.last_seen, now - 500, "dead rows are not touched");
}

#[test]
fn test_prune_deletes_regardless_of_alive() {
    let mut db = CacheDb::open();
    let now: i64 = NOW + 1000;
    let prune_after: u64 = 600;

    let mut old_alive = db_test_entry();
    old_alive.instance_name = "old-alive._http._tcp.local.".to_string();
    old_alive.last_seen = now - 700;

    let mut old_dead = db_test_entry();
    old_dead.instance_name = "old-dead._http._tcp.local.".to_string();
    old_dead.last_seen = now - 800;
    old_dead.alive = false;

    let mut fresh = db_test_entry();
    fresh.instance_name = "fresh._http._tcp.local.".to_string();
    fresh.last_seen = now - 10;

    db.upsert_service(&old_alive);
    db.upsert_service(&old_dead);
    db.upsert_service(&fresh);

    let count = db.prune_stale(prune_after, now);
    assert_eq!(count, 2);

    assert!(db.get_service(&old_alive.instance_name).is_none());
    assert!(db.get_service(&old_dead.instance_name).is_none());
    assert!(db.get_service(&fresh.instance_name).is_some());
}

#[test]
fn test_upsert_keeps_first_seen_and_advances_last_seen() {
    let mut db = CacheDb::open();
    let mut entry = db_test_entry();
    db.upsert_service(&entry);

    entry.first_seen = NOW + 50;
    entry.last_seen = NOW + 50;
    entry.ttl = 9000;
    let changed = db.upsert_service(&entry);
    assert!(changed, "a ttl change is a meaningful change");

    let row = db.get_service(&entry.instance_name).unwrap();
    assert_eq!(row.first_seen, NOW, "updates keep the original first_seen");
    assert_eq!(row.last_seen, NOW + 50, "updates advance last_seen");
    assert_eq!(row.ttl, 9000);
}

#[test]
fn test_txt_order_is_irrelevant_for_change_detection() {
    let mut db = CacheDb::open();
    let mut entry = db_test_entry();
    entry.txt = vec![
        ("a".to_string(), "1".to_string()),
        ("b".to_string(), "2".to_string()),
    ];
    db.upsert_service(&entry);

    let mut reordered = entry.clone();
    reordered.txt = vec![
        ("b".to_string(), "2".to_string()),
        ("a".to_string(), "1".to_string()),
    ];
    let changed = db.upsert_service(&reordered);
    assert!(!changed, "TXT pair order carries no meaning");

    let mut modified = entry.clone();
    modified.txt = vec![
        ("a".to_string(), "1".to_string()),
        ("b".to_string(), "3".to_string()),
    ];
    let changed = db.upsert_service(&modified);
    assert!(changed, "a TXT value change is a meaningful change");
}
