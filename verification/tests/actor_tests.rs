use subnet_authority::advertise::{authority_instance_name, authority_txt_records};
use subnet_authority::api::{config_response, service_command, services_command, ServiceQuery};
use subnet_authority::browser::{
    convert_service_info, event_command, BrowserEvent, BrowserState, IpAddress,
};
use subnet_authority::cache_manager::{CacheCommand, CacheReply, CacheState};
use subnet_authority::config::{
    default_db_path, default_listen, default_maintenance_interval, default_prune_after,
    default_stale_after, ApiConfig, AuthorityConfig, CacheConfig,
};
use subnet_authority::db::CacheDb;
use subnet_authority::types::ServiceEntry;

const ACTOR_ULA_ADDR: u128 = 0xfd00_0000_0000_0001_0000_0000_0000_0001;
const ACTOR_NOW: i64 = 1_000_000;

fn actor_test_entry(instance_name: &str, port: u16) -> ServiceEntry {
    ServiceEntry {
        service_type: "_http._tcp".to_string(),
        instance_name: instance_name.to_string(),
        hostname: "test.local.".to_string(),
        addresses: vec![ACTOR_ULA_ADDR],
        port,
        txt: vec![],
        first_seen: ACTOR_NOW,
        last_seen: ACTOR_NOW,
        ttl: 4500,
        alive: true,
    }
}

#[test]
fn test_upsert_scenario_republishes_on_real_change() {
    // Insert A (port 8080) -> fingerprint H1. Upsert A with port 9090 ->
    // changed, new fingerprint H2 != H1. Re-upsert A unchanged ->
    // unchanged, fingerprint stays H2.
    let mut state = CacheState::init(CacheDb::open());
    let a = actor_test_entry("a._http._tcp.local.", 8080);

    let (reply, published) = state.apply(CacheCommand::Upsert(a.clone()));
    assert!(matches!(reply, CacheReply::Changed(true)));
    assert!(published);
    let h1 = state.current_fingerprint();

    let mut a2 = a.clone();
    a2.port = 9090;
    let (reply, published) = state.apply(CacheCommand::Upsert(a2.clone()));
    assert!(matches!(reply, CacheReply::Changed(true)));
    assert!(published);
    let h2 = state.current_fingerprint();
    assert_ne!(h1, h2);

    let (reply, published) = state.apply(CacheCommand::Upsert(a2));
    assert!(matches!(reply, CacheReply::Changed(false)));
    assert!(!published);
    assert_eq!(state.current_fingerprint(), h2);
}

#[test]
fn test_submission_order_gives_identical_fingerprint() {
    let a = actor_test_entry("a._http._tcp.local.", 8080);
    let b = actor_test_entry("b._http._tcp.local.", 9090);

    let mut first = CacheState::init(CacheDb::open());
    first.apply(CacheCommand::Upsert(a.clone()));
    first.apply(CacheCommand::Upsert(b.clone()));

    let mut second = CacheState::init(CacheDb::open());
    second.apply(CacheCommand::Upsert(b));
    second.apply(CacheCommand::Upsert(a));

    assert_eq!(first.current_fingerprint(), second.current_fingerprint());
}

#[test]
fn test_maintenance_stale_then_prune_lifecycle() {
    // An entry older than stale_after but newer than prune_after: after
    // one maintenance run it is dead but present; once it ages past
    // prune_after, another run deletes it.
    let stale_after: u64 = 300;
    let prune_after: u64 = 600;
    let mut state = CacheState::init(CacheDb::open());

    let mut entry = actor_test_entry("aging._http._tcp.local.", 8080);
    entry.last_seen = ACTOR_NOW - 400; // older than stale, newer than prune
    state.apply(CacheCommand::Upsert(entry.clone()));

    let (reply, published) = state.apply(CacheCommand::Maintenance {
        stale_after_secs: stale_after,
        prune_after_secs: prune_after,
        now: ACTOR_NOW,
    });
    assert!(matches!(reply, CacheReply::Done));
    assert!(published, "a row went stale, so the fingerprint moved");

    match state.apply(CacheCommand::GetOne(entry.instance_name.clone())).0 {
        CacheReply::OneEntry(Some(row)) => {
            assert!(!row.alive, "stale row is dead but still present");
        }
        _ => panic!("row should still be present after the staleness sweep"),
    }

    // 300 seconds later the row's last_seen is 700 seconds old: past
    // prune_after.
    let (reply, published) = state.apply(CacheCommand::Maintenance {
        stale_after_secs: stale_after,
        prune_after_secs: prune_after,
        now: ACTOR_NOW + 300,
    });
    assert!(matches!(reply, CacheReply::Done));
    assert!(published, "a row was pruned, so the fingerprint moved");

    match state.apply(CacheCommand::GetOne(entry.instance_name)).0 {
        CacheReply::OneEntry(row) => assert!(row.is_none(), "row should be pruned"),
        _ => panic!("point read should answer with an optional row"),
    }
}

#[test]
fn test_maintenance_without_changes_skips_republish() {
    let mut state = CacheState::init(CacheDb::open());
    let entry = actor_test_entry("fresh._http._tcp.local.", 8080);
    state.apply(CacheCommand::Upsert(entry));
    let before = state.current_fingerprint();

    let (reply, published) = state.apply(CacheCommand::Maintenance {
        stale_after_secs: 300,
        prune_after_secs: 600,
        now: ACTOR_NOW + 10,
    });
    assert!(matches!(reply, CacheReply::Done));
    assert!(!published, "nothing changed, so nothing is republished");
    assert_eq!(state.current_fingerprint(), before);
}

#[test]
fn test_actor_reads_and_shutdown() {
    let mut state = CacheState::init(CacheDb::open());
    let a = actor_test_entry("a._http._tcp.local.", 8080);
    let mut b = actor_test_entry("b._ssh._tcp.local.", 22);
    b.service_type = "_ssh._tcp".to_string();
    state.apply(CacheCommand::Upsert(a));
    state.apply(CacheCommand::Upsert(b));

    match state.apply(CacheCommand::GetAll).0 {
        CacheReply::Entries(es) => assert_eq!(es.len(), 2),
        _ => panic!("GetAll should answer with entries"),
    }
    match state.apply(CacheCommand::GetByType("_ssh._tcp".to_string())).0 {
        CacheReply::Entries(es) => {
            assert_eq!(es.len(), 1);
            assert_eq!(es[0].port, 22);
        }
        _ => panic!("GetByType should answer with entries"),
    }
    match state.apply(CacheCommand::Shutdown).0 {
        CacheReply::Stopping => {}
        _ => panic!("Shutdown should be acknowledged"),
    }
}

#[test]
fn test_ipv4_only_descriptor_is_never_admitted() {
    let r = convert_service_info(
        "_http._tcp".to_string(),
        "v4only._http._tcp.local.".to_string(),
        "v4.local.".to_string(),
        &vec![IpAddress::V4(0xC0A8_0001), IpAddress::V4(0x0A00_0001)],
        8080,
        vec![],
        ACTOR_NOW,
    );
    assert!(r.is_none(), "no IPv6 address: no event is emitted");
}

#[test]
fn test_conversion_filters_to_ipv6() {
    let r = convert_service_info(
        "_http._tcp".to_string(),
        "mixed._http._tcp.local.".to_string(),
        "mixed.local.".to_string(),
        &vec![
            IpAddress::V4(0xC0A8_0001),
            IpAddress::V6(ACTOR_ULA_ADDR),
            IpAddress::V4(0x0A00_0001),
            IpAddress::V6(ACTOR_ULA_ADDR + 7),
        ],
        8080,
        vec![("k".to_string(), "v".to_string())],
        ACTOR_NOW,
    );
    let entry = r.expect("a descriptor with IPv6 addresses is admitted");
    assert_eq!(entry.addresses, vec![ACTOR_ULA_ADDR, ACTOR_ULA_ADDR + 7]);
    assert_eq!(entry.first_seen, ACTOR_NOW);
    assert_eq!(entry.last_seen, ACTOR_NOW);
    assert!(entry.alive);
    assert_eq!(entry.ttl, 4500);
    assert_eq!(entry.txt, vec![("k".to_string(), "v".to_string())]);
}

#[test]
fn test_browser_state_dedups_types() {
    let mut guard = BrowserState::new();
    assert!(guard.note_type("_http._tcp.local."));
    assert!(guard.note_type("_ssh._tcp.local."));
    assert!(!guard.note_type("_http._tcp.local."));
    assert!(!guard.note_type("_ssh._tcp.local."));
}

#[test]
fn test_event_command_mapping() {
    let entry = actor_test_entry("a._http._tcp.local.", 8080);
    match event_command(BrowserEvent::Resolved(entry.clone()), ACTOR_NOW) {
        CacheCommand::Upsert(e) => assert_eq!(e.instance_name, entry.instance_name),
        _ => panic!("a resolution becomes an upsert"),
    }
    match event_command(BrowserEvent::Removed("x.local.".to_string()), ACTOR_NOW) {
        CacheCommand::MarkDead(name, now) => {
            assert_eq!(name, "x.local.");
            assert_eq!(now, ACTOR_NOW);
        }
        _ => panic!("a withdrawal marks the instance dead"),
    }
}

#[test]
fn test_config_defaults() {
    assert_eq!(default_db_path(), "/var/lib/subnet-authority/services.db");
    assert_eq!(default_stale_after(), 300);
    assert_eq!(default_prune_after(), 3600);
    assert_eq!(default_maintenance_interval(), 60);
    assert_eq!(default_listen(), "[::]:8053");

    let cache = CacheConfig::default();
    assert_eq!(cache.db_path, "/var/lib/subnet-authority/services.db");
    assert_eq!(cache.stale_after_secs, 300);
    assert_eq!(cache.prune_after_secs, 3600);
    assert_eq!(cache.maintenance_interval_secs, 60);

    let api = ApiConfig::default();
    assert_eq!(api.listen, "[::]:8053");
}

#[test]
fn test_api_request_mapping() {
    match services_command(ServiceQuery { service_type: None }) {
        CacheCommand::GetAll => {}
        _ => panic!("no type filter asks for the whole catalog"),
    }
    match services_command(ServiceQuery { service_type: Some("_http._tcp".to_string()) }) {
        CacheCommand::GetByType(t) => assert_eq!(t, "_http._tcp"),
        _ => panic!("a type filter asks for a filtered snapshot"),
    }
    match service_command("a._http._tcp.local.".to_string()) {
        CacheCommand::GetOne(name) => assert_eq!(name, "a._http._tcp.local."),
        _ => panic!("a point read asks for one row"),
    }

    let authority = AuthorityConfig {
        interface: "eth0".to_string(),
        prefix: "fd00::/64".to_string(),
        address: "fd00::1".to_string(),
        zone: "lan.example.".to_string(),
    };
    let response = config_response(&authority, 8053);
    assert_eq!(response.zone, "lan.example.");
    assert_eq!(response.prefix, "fd00::/64");
    assert_eq!(response.api_port, 8053);
}

#[test]
fn test_advertisement_shape() {
    let name = authority_instance_name("box1");
    assert_eq!(name, "subnet-authority-box1");

    let records = authority_txt_records("lan.example.", "fd00::/64");
    assert_eq!(records.len(), 2);
    assert_eq!(records[0], ("zone".to_string(), "lan.example.".to_string()));
    assert_eq!(records[1], ("prefix".to_string(), "fd00::/64".to_string()));
}
