use plato_transport::in_process::InProcessTransport;
use plato_transport::network::NetworkTransport;
use plato_transport::unix::UnixSocketTransport;
use plato_transport::{
    AnyTransport, Clock, Freshness, RateLimit, SenseTransport, ShadowCache, Transport,
    TransportError, TransportPolicy,
};

const MS: u128 = 1_000_000;

// ── Cache ────────────────────────────────────────────────────────────

#[test]
fn cache_read_your_write_until_ttl_passes() {
    let mut cache = ShadowCache::new();
    cache.put_at("vision", "cam", "a".to_string(), 10 * MS, 100 * MS);
    let hit = cache.get_at("vision", "cam", 110 * MS).unwrap();
    assert_eq!(hit.shadow, "a");
    assert_eq!(hit.inserted_at, 100 * MS);
    assert_eq!(hit.ttl, 10 * MS);
    // exactly the TTL has passed: still live; one nanosecond more: expired
    assert!(cache.get_at("vision", "cam", 110 * MS).is_some());
    assert!(cache.get_at("vision", "cam", 110 * MS + 1).is_none());
}

#[test]
fn cache_entry_stamped_later_than_reading_is_live() {
    let mut cache = ShadowCache::new();
    cache.put_at("m", "r", "x".to_string(), 0, 50 * MS);
    assert!(cache.get_at("m", "r", 10 * MS).is_some());
    assert!(cache.get_at("m", "r", 50 * MS).is_some());
    assert!(cache.get_at("m", "r", 50 * MS + 1).is_none());
}

#[test]
fn cache_put_overwrites_and_leaves_other_keys() {
    let mut cache = ShadowCache::default();
    cache.put_at("m", "r", "old".to_string(), 1000 * MS, 0);
    cache.put_at("m", "s", "other".to_string(), 1000 * MS, 0);
    cache.put_at("n", "r", "third".to_string(), 1000 * MS, 0);
    cache.put_at("m", "r", "new".to_string(), 1000 * MS, 5);
    assert_eq!(cache.get_at("m", "r", 10).unwrap().shadow, "new");
    assert_eq!(cache.get_at("m", "r", 10).unwrap().inserted_at, 5);
    assert_eq!(cache.get_at("m", "s", 10).unwrap().shadow, "other");
    assert_eq!(cache.get_at("n", "r", 10).unwrap().shadow, "third");
    assert!(cache.get_at("n", "s", 10).is_none());
}

#[test]
fn cache_invalidate_removes_only_that_key() {
    let mut cache = ShadowCache::new();
    cache.put_at("m", "r", "x".to_string(), 1000 * MS, 0);
    cache.put_at("m", "s", "y".to_string(), 1000 * MS, 0);
    cache.invalidate("m", "r");
    assert!(cache.get_at("m", "r", 0).is_none());
    assert_eq!(cache.get_at("m", "s", 0).unwrap().shadow, "y");
    cache.invalidate("absent", "key");
    assert_eq!(cache.get_at("m", "s", 0).unwrap().shadow, "y");
}

#[test]
fn cache_eviction_keeps_live_entries_and_lookups() {
    let mut cache = ShadowCache::new();
    cache.put_at("a", "1", "short".to_string(), 10 * MS, 0);
    cache.put_at("a", "2", "long".to_string(), 1000 * MS, 0);
    cache.put_at("b", "1", "mid".to_string(), 100 * MS, 0);
    let now = 50 * MS;
    let before: Vec<bool> = ["1", "2"].iter().map(|r| cache.get_at("a", r, now).is_some()).collect();
    cache.evict_expired_at(now);
    let after: Vec<bool> = ["1", "2"].iter().map(|r| cache.get_at("a", r, now).is_some()).collect();
    assert_eq!(before, after);
    assert_eq!(after, vec![false, true]);
    assert_eq!(cache.get_at("b", "1", now).unwrap().shadow, "mid");
    // the expired entry is gone for good, even for a reading in the past
    assert!(cache.get_at("a", "1", 0).is_none());
    cache.evict_expired();
}

#[test]
fn cache_sub_millisecond_ttl() {
    let mut cache = ShadowCache::new();
    cache.put_at("m", "r", "x".to_string(), 500_000, 0);
    assert!(cache.get_at("m", "r", 500_000).is_some());
    assert!(cache.get_at("m", "r", 500_001).is_none());
}

#[test]
fn cache_clock_readings_move_forward() {
    let mut cache = ShadowCache::new();
    cache.put("m", "r", "first".to_string(), 60_000 * MS);
    let first = cache.get("m", "r").unwrap().inserted_at;
    cache.put("m", "r", "second".to_string(), 60_000 * MS);
    let second = cache.get("m", "r").unwrap();
    assert_eq!(second.shadow, "second");
    assert!(second.inserted_at >= first);
}

#[test]
fn cached_shadow_expiry_boundaries() {
    let mut cache = ShadowCache::new();
    cache.put_at("m", "r", "x".to_string(), 2 * MS, 1_000);
    let entry = cache.get_at("m", "r", 1_000).unwrap();
    assert!(!entry.is_expired_at(1_000 + 2 * MS));
    assert!(entry.is_expired_at(1_000 + 2 * MS + 1));
    assert!(entry.is_expired_at(u128::MAX));
    assert!(!entry.is_expired_at(0));
}

#[test]
fn cache_live_entry_reads_live_on_real_clock() {
    let mut cache = ShadowCache::new();
    cache.put("m", "r", "x".to_string(), 60_000 * MS);
    let entry = cache.get("m", "r").unwrap();
    assert!(!entry.is_expired());
    cache.evict_expired();
    assert!(cache.get("m", "r").is_some());
}

// ── Policy ───────────────────────────────────────────────────────────

#[test]
fn policy_denial_text_and_no_budget_used() {
    let mut policy = TransportPolicy::allow_only(
        vec!["query:".to_string()],
        Some(RateLimit { max_commands: 1, window_ms: 1000 }),
    );
    match policy.check_at("delete:all", 0) {
        Err(TransportError::PolicyDenied(msg)) => {
            assert_eq!(msg, "command 'delete:all' does not match any allowed prefix")
        }
        other => panic!("unexpected {:?}", other),
    }
    assert!(policy.check_at("query:x", 0).is_ok());
    assert!(matches!(policy.check_at("query:y", 0), Err(TransportError::RateLimited)));
    // a denied command is denied, not limited, even with the budget spent
    assert!(matches!(policy.check_at("drop", 0), Err(TransportError::PolicyDenied(_))));
}

#[test]
fn policy_window_boundary() {
    let mut policy = TransportPolicy::with_rate_limit(RateLimit { max_commands: 2, window_ms: 1000 });
    assert!(policy.check_at("a", 0).is_ok());
    assert!(policy.check_at("b", 0).is_ok());
    assert!(matches!(policy.check_at("c", 0), Err(TransportError::RateLimited)));
    assert!(matches!(policy.check_at("d", 1000 * MS - 1), Err(TransportError::RateLimited)));
    // a full window after the first two, both have left the window
    assert!(policy.check_at("e", 1000 * MS).is_ok());
    assert!(policy.check_at("f", 1000 * MS).is_ok());
    assert!(matches!(policy.check_at("g", 1000 * MS), Err(TransportError::RateLimited)));
}

#[test]
fn policy_burst_within_one_window_admits_at_most_the_limit() {
    let mut policy = TransportPolicy::with_rate_limit(RateLimit { max_commands: 3, window_ms: 10 });
    let times = [0, 9 * MS, 1, 5 * MS, 2 * MS, 9 * MS + 999_999];
    let admitted = times.iter().filter(|t| policy.check_at("cmd", **t).is_ok()).count();
    assert_eq!(admitted, 3);
}

#[test]
fn policy_zero_limit_admits_nothing() {
    let mut policy = TransportPolicy::with_rate_limit(RateLimit { max_commands: 0, window_ms: 10 });
    assert!(matches!(policy.check_at("cmd", 0), Err(TransportError::RateLimited)));
}

#[test]
fn policy_allow_all_admits_everything() {
    let mut policy = TransportPolicy::allow_all();
    for i in 0..100u128 {
        assert!(policy.check_at("anything", i).is_ok());
    }
    assert!(policy.check("").is_ok());
}

#[test]
fn policy_prefixes_with_duplicates_and_unicode() {
    let mut policy = TransportPolicy::allow_only(
        vec!["é:".to_string(), "é:".to_string(), "".to_string()],
        None,
    );
    assert!(policy.check_at("é:x", 0).is_ok());
    assert!(policy.check_at("anything", 0).is_ok());
    let mut strict = TransportPolicy::allow_only(vec!["é:".to_string()], None);
    assert!(strict.check_at("é:x", 0).is_ok());
    assert!(matches!(strict.check_at("e:x", 0), Err(TransportError::PolicyDenied(_))));
    assert!(matches!(strict.check_at("é", 0), Err(TransportError::PolicyDenied(_))));
    let mut none = TransportPolicy::allow_only(vec![], None);
    assert!(matches!(none.check_at("x", 0), Err(TransportError::PolicyDenied(_))));
}

// ── Errors ───────────────────────────────────────────────────────────

#[test]
fn error_texts() {
    assert_eq!(TransportError::Disconnected.to_string(), "transport disconnected");
    assert_eq!(TransportError::Timeout.to_string(), "receive timed out");
    assert_eq!(TransportError::Io("closed".to_string()).to_string(), "I/O error: closed");
    assert_eq!(TransportError::PolicyDenied("no".to_string()).to_string(), "policy denied: no");
    assert_eq!(TransportError::RateLimited.to_string(), "rate limit exceeded");
    assert_eq!(TransportError::Other("x".to_string()).to_string(), "transport error: x");
}

// ── Transports ───────────────────────────────────────────────────────

#[test]
fn responses_come_back_in_order() {
    let mut ip = InProcessTransport::default();
    ip.inject_response("a");
    ip.inject_response("b");
    ip.inject_response("c");
    assert_eq!(ip.recv(1).unwrap(), "a");
    assert_eq!(ip.recv(1).unwrap(), "b");
    assert_eq!(ip.recv(1).unwrap(), "c");
    assert!(matches!(ip.recv(1), Err(TransportError::Timeout)));
}

#[test]
fn last_sent_follows_sends() {
    let mut ip = InProcessTransport::new();
    assert_eq!(ip.last_sent(), None);
    ip.send("one").unwrap();
    ip.send("two").unwrap();
    assert_eq!(ip.last_sent(), Some("two".to_string()));
    ip.disconnect();
    assert!(ip.send("three").is_err());
    assert_eq!(ip.last_sent(), Some("two".to_string()));
}

#[test]
fn disconnected_transports_refuse_even_with_queued_responses() {
    let mut unix = UnixSocketTransport::new("/tmp/s");
    unix.inject_response("queued");
    unix.disconnect();
    unix.inject_response("late");
    assert!(!unix.is_connected());
    assert!(matches!(unix.recv(10), Err(TransportError::Disconnected)));
    assert!(matches!(unix.send("x"), Err(TransportError::Disconnected)));

    let mut tcp = NetworkTransport::new("10.0.0.1:1");
    tcp.disconnect();
    assert!(matches!(tcp.recv(10), Err(TransportError::Disconnected)));
}

#[test]
fn transport_getters() {
    let unix = UnixSocketTransport::new("/tmp/sense.sock");
    assert_eq!(unix.socket_path(), "/tmp/sense.sock");
    let tcp = NetworkTransport::new("192.168.1.100:9000");
    assert_eq!(tcp.address(), "192.168.1.100:9000");
    assert!(tcp.is_connected());
}

#[test]
fn factory_makes_each_kind() {
    let mut ip = Transport::in_process();
    assert_eq!(ip.freshness(), Freshness::Hot);
    ip.send("cmd").unwrap();
    assert!(matches!(ip.recv(0), Err(TransportError::Timeout)));

    let unix = Transport::unix_socket("/tmp/sense.sock");
    assert_eq!(unix.freshness(), Freshness::Warm { poll_interval_ms: 10 });
    match &unix {
        AnyTransport::UnixSocket(t) => assert_eq!(t.socket_path(), "/tmp/sense.sock"),
        _ => panic!("wrong kind"),
    }

    let mut tcp = Transport::tcp("192.168.1.100:9000");
    assert_eq!(tcp.freshness(), Freshness::Cold { snapshot_age_ms: 1000 });
    assert!(tcp.is_connected());
    match &mut tcp {
        AnyTransport::Network(t) => {
            assert_eq!(t.address(), "192.168.1.100:9000");
            t.inject_response("r");
        }
        _ => panic!("wrong kind"),
    }
    assert_eq!(tcp.recv(5).unwrap(), "r");
}

#[test]
fn clock_readings_do_not_go_back() {
    let clock = Clock::start();
    let first = clock.now();
    let second = clock.now();
    assert!(second >= first);
}
