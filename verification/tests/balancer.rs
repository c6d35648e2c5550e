use load_balancer::balancer::{Balancer, BalancerError};
use load_balancer::balancer::probe_healthy;
use load_balancer::config::{Config, Server};

fn make_config(ips: &[&str], max_requests_per_window: u64, rate_limit_window_size: u64) -> Config {
    let mut servers = Vec::new();
    for (i, ip) in ips.iter().enumerate() {
        servers.push(Server { ip: ip.to_string(), port: 8000 + i as u16 });
    }
    Config {
        ip: String::from("127.0.0.1"),
        port: 7878,
        active_health_check_interval: 5,
        active_health_check_path: String::from("/healthcheck"),
        rate_limit_window_size,
        max_requests_per_window,
        servers,
    }
}

fn all_healthy(balancer: &mut Balancer) {
    let statuses = vec![true; balancer.servers.len()];
    balancer.update_servers_status(statuses);
}

#[test]
fn test_new_balancer() {
    let config = make_config(&["192.168.0.1", "192.168.0.2"], 10, 60);

    let balancer = Balancer::new(config.clone());
    assert_eq!(balancer.servers_count, config.servers.len() as u64);
    assert_eq!(balancer.next, 0);
    assert!(balancer.client_map.is_empty());
    assert_eq!(balancer.servers, vec![false; config.servers.len()]);
}

#[test]
fn test_probe_healthy() {
    assert!(probe_healthy(200, true));
    assert!(!probe_healthy(200, false));
    assert!(!probe_healthy(404, true));
    assert!(!probe_healthy(500, true));
    assert!(!probe_healthy(0, false));
}

#[test]
fn test_check_srv_uses_snapshot() {
    let config = make_config(&["10.0.0.2", "10.0.0.3"], 10, 60);
    let mut balancer = Balancer::new(config);
    // Pessimistic start: everything is down until a probe round reports in.
    assert!(!balancer.check_srv());
    balancer.update_servers_status(vec![true, false]);
    assert!(balancer.check_srv());
    balancer.update_servers_status(vec![false, true]);
    assert!(!balancer.check_srv());
}

// The concrete scenario: backends [A, B, C], all healthy, cursor starting at
// 0, two requests allowed per 60-second window. The convention is that the
// cursor advances before the health check, so the first call serves index 1
// (B), the second index 2 (C); the third call is rejected by the rate
// limiter; once the window has elapsed the same client is served the next
// cyclic backend, index 0 (A).
#[test]
fn test_three_calls_scenario() {
    let config = make_config(&["10.1.0.1", "10.1.0.2", "10.1.0.3"], 2, 60);
    let a_ip = config.servers[0].ip.clone();
    let b_ip = config.servers[1].ip.clone();
    let c_ip = config.servers[2].ip.clone();
    let mut balancer = Balancer::new(config);
    all_healthy(&mut balancer);

    let client = String::from("10.0.0.1");
    let first = balancer.get_server(client.clone(), 0).unwrap();
    assert_eq!(first.ip, b_ip);
    assert_eq!(balancer.next, 1);
    let second = balancer.get_server(client.clone(), 0).unwrap();
    assert_eq!(second.ip, c_ip);
    assert_eq!(balancer.next, 2);
    let third = balancer.get_server(client.clone(), 0);
    assert_eq!(third.unwrap_err(), BalancerError::RateLimitExceeded);
    assert_eq!(balancer.next, 2);

    let fourth = balancer.get_server(client, 61).unwrap();
    assert_eq!(fourth.ip, a_ip);
    assert_eq!(balancer.next, 0);
}

#[test]
fn test_round_robin_visits_each_backend_once() {
    let config = make_config(&["10.2.0.1", "10.2.0.2", "10.2.0.3", "10.2.0.4"], 100, 60);
    let mut balancer = Balancer::new(config);
    all_healthy(&mut balancer);

    let mut seen = Vec::new();
    for call in 0..4 {
        let client = format!("172.16.0.{}", call);
        let server = balancer.get_server(client, 0).unwrap();
        seen.push(server.port);
    }
    // Cyclic order starting after the initial cursor 0: indices 1, 2, 3, 0.
    assert_eq!(seen, vec![8001, 8002, 8003, 8000]);
}

#[test]
fn test_skips_unhealthy_backend() {
    let config = make_config(&["10.3.0.1", "10.3.0.2", "10.3.0.3"], 100, 60);
    let mut balancer = Balancer::new(config);
    balancer.update_servers_status(vec![true, false, true]);

    // Cursor 0 -> 1 is down, skipped -> 2 serves.
    let first = balancer.get_server(String::from("10.0.0.9"), 0).unwrap();
    assert_eq!(first.port, 8002);
    assert_eq!(balancer.next, 2);
    // Cursor 2 -> 0 serves; the cursor moved past the dead backend without
    // getting stuck on it.
    let second = balancer.get_server(String::from("10.0.0.9"), 0).unwrap();
    assert_eq!(second.port, 8000);
    // And backend 1 is never returned while it stays down.
    for _ in 0..6 {
        let server = balancer.get_server(String::from("10.0.0.8"), 0).unwrap();
        assert_ne!(server.port, 8001);
    }
}

#[test]
fn test_total_outage_returns_no_healthy_backend() {
    let config = make_config(&["10.4.0.1", "10.4.0.2"], 2, 60);
    let mut balancer = Balancer::new(config);
    // The initial snapshot is all-down, so every admitted call fails with
    // NoHealthyBackend, and the cursor ends each lap where it started.
    for _ in 0..2 {
        let err = balancer.get_server(String::from("10.0.0.5"), 0).unwrap_err();
        assert_eq!(err, BalancerError::NoHealthyBackend);
        assert_eq!(balancer.next, 0);
    }
    // Once the client exceeds its budget, the rate limiter answers first.
    let err = balancer.get_server(String::from("10.0.0.5"), 0).unwrap_err();
    assert_eq!(err, BalancerError::RateLimitExceeded);
}

#[test]
fn test_rate_limit_exceeded_on_call_after_limit() {
    let config = make_config(&["10.5.0.1"], 3, 60);
    let mut balancer = Balancer::new(config);
    all_healthy(&mut balancer);

    let client = String::from("192.0.2.7");
    for _ in 0..3 {
        assert!(balancer.get_server(client.clone(), 10).is_ok());
    }
    // Call R+1 inside the same window is rejected, and stays rejected.
    for _ in 0..2 {
        let err = balancer.get_server(client.clone(), 30).unwrap_err();
        assert_eq!(err, BalancerError::RateLimitExceeded);
    }
}

#[test]
fn test_window_reset_readmits_client() {
    let config = make_config(&["10.6.0.1"], 1, 60);
    let mut balancer = Balancer::new(config);
    all_healthy(&mut balancer);

    let client = String::from("192.0.2.8");
    assert!(balancer.get_server(client.clone(), 0).is_ok());
    assert_eq!(
        balancer.get_server(client.clone(), 59).unwrap_err(),
        BalancerError::RateLimitExceeded
    );
    // The window elapsed: the very next call is admitted again.
    assert!(balancer.get_server(client.clone(), 60).is_ok());
    // And the count restarted at 1, so one more call in the new window is
    // over the limit again.
    assert_eq!(
        balancer.get_server(client, 61).unwrap_err(),
        BalancerError::RateLimitExceeded
    );
}

#[test]
fn test_clients_are_counted_independently() {
    let config = make_config(&["10.7.0.1"], 2, 60);
    let mut balancer = Balancer::new(config);
    all_healthy(&mut balancer);

    let first = String::from("198.51.100.1");
    let second = String::from("198.51.100.2");
    assert!(balancer.get_server(first.clone(), 0).is_ok());
    assert!(balancer.get_server(first.clone(), 0).is_ok());
    assert_eq!(
        balancer.get_server(first, 0).unwrap_err(),
        BalancerError::RateLimitExceeded
    );
    // The exhausted neighbour does not affect this client at all.
    assert!(balancer.get_server(second.clone(), 0).is_ok());
    assert!(balancer.get_server(second.clone(), 0).is_ok());
    assert_eq!(
        balancer.get_server(second, 0).unwrap_err(),
        BalancerError::RateLimitExceeded
    );
}

#[test]
fn test_client_rate_ok_counts_within_window() {
    let config = make_config(&["10.8.0.1"], 2, 60);
    let mut balancer = Balancer::new(config);

    let client = String::from("203.0.113.1");
    assert!(balancer.client_rate_ok(client.clone(), 5));
    assert!(balancer.client_rate_ok(client.clone(), 6));
    assert!(!balancer.client_rate_ok(client.clone(), 7));
    // A different client is unaffected.
    assert!(balancer.client_rate_ok(String::from("203.0.113.2"), 7));
    // After the window, the blocked client is admitted again.
    assert!(balancer.client_rate_ok(client, 65));
}

#[test]
fn test_clean_clients_drops_only_expired_records() {
    let config = make_config(&["10.9.0.1"], 10, 60);
    let mut balancer = Balancer::new(config);

    assert!(balancer.client_rate_ok(String::from("198.51.100.10"), 0));
    assert!(balancer.client_rate_ok(String::from("198.51.100.11"), 0));
    assert!(balancer.client_rate_ok(String::from("198.51.100.12"), 50));
    assert_eq!(balancer.client_map.len(), 3);

    balancer.clean_clients(60);
    // The two records from t=0 expired (60 seconds elapsed); the one from
    // t=50 is still inside its window and is kept untouched.
    assert_eq!(balancer.client_map.len(), 1);
    assert_eq!(balancer.client_map[0].client, "198.51.100.12");
    assert_eq!(balancer.client_map[0].record.count, 1);
    assert_eq!(balancer.client_map[0].record.window_start, 50);
}

#[test]
fn test_clean_clients_keeps_blocked_client_blocked() {
    let config = make_config(&["10.11.0.1"], 1, 60);
    let mut balancer = Balancer::new(config);
    all_healthy(&mut balancer);

    let client = String::from("198.51.100.20");
    assert!(balancer.get_server(client.clone(), 0).is_ok());
    assert_eq!(
        balancer.get_server(client.clone(), 10).unwrap_err(),
        BalancerError::RateLimitExceeded
    );
    // A mid-window sweep keeps the live record, so the client does not get
    // unblocked early.
    balancer.clean_clients(30);
    assert_eq!(balancer.client_map.len(), 1);
    assert_eq!(
        balancer.get_server(client, 30).unwrap_err(),
        BalancerError::RateLimitExceeded
    );
}

#[test]
fn test_single_backend_cursor_stays_put() {
    let config = make_config(&["10.10.0.1"], 1000, 60);
    let mut balancer = Balancer::new(config);
    all_healthy(&mut balancer);

    for call in 0..8 {
        let server = balancer.get_server(format!("10.0.1.{}", call), 0).unwrap();
        assert_eq!(server.port, 8000);
        assert_eq!(balancer.next, 0);
    }
}
