use monadns::config::{Config, FailoverMode, InterfaceConfig};
use monadns::failover::{
    is_interface_eligible, is_interface_healthy, resolve_effective_interface,
    resolve_effective_interface_at,
};
use monadns::health::{InterfaceHealthRegistry, InterfaceHealthStatus};

fn config() -> Config {
    Config {
        interfaces: vec![
            InterfaceConfig {
                name: "warp1".to_string(),
                fwmark: 1,
                health_check_hosts: vec!["1.1.1.1".to_string()],
                ..InterfaceConfig::default()
            },
            InterfaceConfig {
                name: "warp0".to_string(),
                fwmark: 2,
                health_check_hosts: vec!["1.1.1.1".to_string()],
                ..InterfaceConfig::default()
            },
            InterfaceConfig {
                name: "eth0".to_string(),
                fwmark: 3,
                health_check_hosts: vec!["1.1.1.1".to_string()],
                ..InterfaceConfig::default()
            },
        ],
        default_interface: "warp0".to_string(),
        failover_recovery_delay_seconds: 60,
        failover_interfaces: vec!["warp1".to_string(), "warp0".to_string(), "eth0".to_string()],
        ..Config::default()
    }
}

fn status(
    interface: &str,
    healthy: bool,
    healthy_since_ms: Option<i64>,
    last_unhealthy_at_ms: Option<i64>,
    updated_at_ms: i64,
) -> InterfaceHealthStatus {
    InterfaceHealthStatus {
        interface: interface.to_string(),
        host: "1.1.1.1".to_string(),
        enabled: true,
        healthy,
        latency_ms_bits: Some(10.0f64.to_bits()),
        packet_loss_percent_bits: if healthy { 0.0f64.to_bits() } else { 100.0f64.to_bits() },
        healthy_since_ms,
        last_unhealthy_at_ms,
        updated_at_ms,
        error: None,
    }
}

fn registry_with(statuses: &[(&str, bool)]) -> InterfaceHealthRegistry {
    let mut registry = InterfaceHealthRegistry::new();
    for (interface, healthy) in statuses {
        registry.insert(status(
            interface,
            *healthy,
            if *healthy { Some(1) } else { None },
            if *healthy { None } else { Some(1) },
            1,
        ));
    }
    registry
}

#[test]
fn global_failover_uses_preference_order() {
    let config = config();
    let registry = registry_with(&[("warp1", true), ("warp0", false), ("eth0", true)]);

    let effective = resolve_effective_interface(&config, Some("warp0"), &registry);

    assert_eq!(effective.name, "warp1");
    assert_eq!(effective.fwmark, 1);
}

#[test]
fn custom_failover_overrides_global_order() {
    let mut config = config();
    config.interfaces[1].failover_mode = FailoverMode::Custom;
    config.interfaces[1].failover_interfaces = vec!["eth0".to_string()];
    let registry = registry_with(&[("warp1", true), ("warp0", false), ("eth0", true)]);

    let effective = resolve_effective_interface(&config, Some("warp0"), &registry);

    assert_eq!(effective.name, "eth0");
    assert_eq!(effective.fwmark, 3);
}

#[test]
fn disabled_failover_keeps_unhealthy_selected_interface() {
    let mut config = config();
    config.interfaces[1].failover_mode = FailoverMode::Disabled;
    let registry = registry_with(&[("warp1", true), ("warp0", false), ("eth0", true)]);

    let effective = resolve_effective_interface(&config, Some("warp0"), &registry);

    assert_eq!(effective.name, "warp0");
    assert_eq!(effective.fwmark, 2);
}

#[test]
fn recovered_interface_waits_for_recovery_delay() {
    let config = config();
    let mut registry = InterfaceHealthRegistry::new();
    registry.insert(status("warp1", true, Some(1_000), None, 61_000));
    registry.insert(status("warp0", true, Some(30_000), Some(20_000), 61_000));

    let effective = resolve_effective_interface_at(&config, Some("warp0"), &registry, 61_000);

    assert_eq!(effective.name, "warp1");
}

#[test]
fn recovered_interface_switches_back_after_recovery_delay() {
    let config = config();
    let mut registry = InterfaceHealthRegistry::new();
    registry.insert(status("warp0", true, Some(30_000), Some(20_000), 91_000));

    let effective = resolve_effective_interface_at(&config, Some("warp0"), &registry, 91_000);

    assert_eq!(effective.name, "warp0");
}

#[test]
fn no_results_keep_the_designated_interface() {
    let config = config();
    let registry = InterfaceHealthRegistry::new();
    let effective = resolve_effective_interface_at(&config, Some("eth0"), &registry, 0);
    assert_eq!(effective.name, "eth0");
    assert_eq!(effective.fwmark, 3);
}

#[test]
fn default_name_designates_the_default_interface() {
    let config = config();
    let registry = InterfaceHealthRegistry::new();
    assert_eq!(resolve_effective_interface_at(&config, Some("default"), &registry, 0).name, "warp0");
    assert_eq!(resolve_effective_interface_at(&config, None, &registry, 0).name, "warp0");
    assert_eq!(resolve_effective_interface_at(&config, Some("missing"), &registry, 0).name, "warp0");
}

#[test]
fn all_unhealthy_falls_back_to_the_designated_interface() {
    let config = config();
    let registry = registry_with(&[("warp1", false), ("warp0", false), ("eth0", false)]);
    let effective = resolve_effective_interface_at(&config, Some("warp0"), &registry, 1_000_000);
    assert_eq!(effective.name, "warp0");
}

#[test]
fn empty_failover_list_stands_for_every_interface() {
    let mut config = config();
    config.failover_interfaces = Vec::new();
    let registry = registry_with(&[("warp1", false), ("warp0", false), ("eth0", true)]);
    let effective = resolve_effective_interface_at(&config, Some("warp0"), &registry, 1_000_000);
    assert_eq!(effective.name, "eth0");
}

#[test]
fn unchecked_interfaces_are_healthy() {
    let mut config = config();
    config.interfaces[0].health_check_enabled = false;
    let registry = registry_with(&[("warp1", false)]);
    assert!(is_interface_healthy(&config, "warp1", &registry));
    assert!(!is_interface_healthy(&config, "nonexistent", &registry));
}

#[test]
fn zero_recovery_delay_makes_healthy_interfaces_eligible() {
    let mut config = config();
    config.failover_recovery_delay_seconds = 0;
    let mut registry = InterfaceHealthRegistry::new();
    registry.insert(status("warp0", true, Some(30_000), Some(20_000), 31_000));
    assert!(is_interface_eligible(&config, "warp0", &registry, 31_000));
    config.failover_recovery_delay_seconds = 60;
    assert!(!is_interface_eligible(&config, "warp0", &registry, 31_000));
    assert!(is_interface_eligible(&config, "warp0", &registry, 90_000));
}
