use monadns::config::Config;
use monadns::health::{HealthCheckSettings, InterfaceHealthRegistry, InterfaceHealthStatus};

fn s(v: &str) -> String {
    v.to_string()
}

fn record(reg: &mut InterfaceHealthRegistry, interface: &str, host: &str, healthy: bool, now_ms: i64) {
    reg.record(
        &s(interface),
        &s(host),
        true,
        healthy,
        if healthy { Some(12.5f64.to_bits()) } else { None },
        if healthy { 0.0f64.to_bits() } else { 100.0f64.to_bits() },
        if healthy { None } else { Some(s("timeout")) },
        now_ms,
    );
}

#[test]
fn settings_are_raised_to_at_least_one() {
    let config = Config {
        health_check_interval_seconds: 0,
        health_check_timeout_seconds: 7,
        health_check_ping_count: 0,
        ..Config::default()
    };
    let settings = HealthCheckSettings::from_config(&config);
    assert_eq!(settings.interval_seconds, 1);
    assert_eq!(settings.timeout_seconds, 7);
    assert_eq!(settings.ping_count, 1);
}

#[test]
fn record_then_read_gives_back_the_measurement() {
    let mut reg = InterfaceHealthRegistry::new();
    record(&mut reg, "wg0", "1.1.1.1", true, 100);
    let st = reg.get(&s("wg0"), &s("1.1.1.1")).unwrap();
    assert!(st.healthy);
    assert_eq!(st.latency_ms_bits, Some(12.5f64.to_bits()));
    assert_eq!(st.healthy_since_ms, Some(100));
    assert_eq!(st.last_unhealthy_at_ms, None);
    assert_eq!(st.updated_at_ms, 100);
    assert!(reg.get(&s("wg0"), &s("8.8.8.8")).is_none());
}

#[test]
fn healthy_since_is_kept_while_healthy_and_reset_after_failure() {
    let mut reg = InterfaceHealthRegistry::new();
    record(&mut reg, "wg0", "1.1.1.1", true, 100);
    record(&mut reg, "wg0", "1.1.1.1", true, 200);
    assert_eq!(reg.get(&s("wg0"), &s("1.1.1.1")).unwrap().healthy_since_ms, Some(100));
    record(&mut reg, "wg0", "1.1.1.1", false, 300);
    let st = reg.get(&s("wg0"), &s("1.1.1.1")).unwrap();
    assert_eq!(st.healthy_since_ms, None);
    assert_eq!(st.last_unhealthy_at_ms, Some(300));
    assert_eq!(st.error.as_deref(), Some("timeout"));
    record(&mut reg, "wg0", "1.1.1.1", true, 400);
    let st = reg.get(&s("wg0"), &s("1.1.1.1")).unwrap();
    assert_eq!(st.healthy_since_ms, Some(400));
    assert_eq!(st.last_unhealthy_at_ms, Some(300));
    assert_eq!(reg.len(), 1);
}

#[test]
fn insert_replaces_only_its_own_pair() {
    let mut reg = InterfaceHealthRegistry::new();
    record(&mut reg, "wg0", "1.1.1.1", true, 100);
    record(&mut reg, "eth0", "1.1.1.1", false, 100);
    reg.insert(InterfaceHealthStatus {
        interface: s("wg0"),
        host: s("1.1.1.1"),
        enabled: false,
        healthy: false,
        latency_ms_bits: None,
        packet_loss_percent_bits: 0,
        healthy_since_ms: None,
        last_unhealthy_at_ms: Some(5),
        updated_at_ms: 5,
        error: None,
    });
    assert_eq!(reg.len(), 2);
    assert!(!reg.get(&s("wg0"), &s("1.1.1.1")).unwrap().enabled);
    assert_eq!(reg.get(&s("eth0"), &s("1.1.1.1")).unwrap().updated_at_ms, 100);
    reg.clear();
    assert_eq!(reg.len(), 0);
    assert!(reg.get(&s("eth0"), &s("1.1.1.1")).is_none());
}

#[test]
fn statuses_are_listed_by_interface_then_host() {
    let mut reg = InterfaceHealthRegistry::new();
    record(&mut reg, "wg0", "8.8.8.8", true, 1);
    record(&mut reg, "eth0", "1.1.1.1", true, 1);
    record(&mut reg, "wg0", "1.1.1.1", false, 1);
    record(&mut reg, "eth", "9.9.9.9", true, 1);
    record(&mut reg, "\u{e9}", "a", true, 1);
    let listed: Vec<(String, String)> =
        reg.sorted_statuses().into_iter().map(|s| (s.interface, s.host)).collect();
    let mut expected = listed.clone();
    expected.sort();
    assert_eq!(listed, expected);
    assert_eq!(
        listed,
        vec![
            (s("eth"), s("9.9.9.9")),
            (s("eth0"), s("1.1.1.1")),
            (s("wg0"), s("1.1.1.1")),
            (s("wg0"), s("8.8.8.8")),
            (s("\u{e9}"), s("a")),
        ]
    );
    assert!(InterfaceHealthRegistry::new().sorted_statuses().is_empty());
}
