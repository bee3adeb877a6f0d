use monadns::config::{migration_flags, migration_flags_of_text};
use monadns::config::{
    Config, CustomNameserverConfig, FailoverMode, InterfaceConfig, NameserverAddress,
    NameserverTransport, PatchConfig, ResolverProtocol, UpstreamResolverConfig,
    DEFAULT_LATENCY_THRESHOLD_BITS, DEFAULT_PACKET_LOSS_THRESHOLD_BITS,
};
use monadns::health::HealthCheckSettings;
use monadns::net::{IpAddress, IpFamily, IpNetwork};

fn iface(name: &str, fwmark: u32) -> InterfaceConfig {
    InterfaceConfig { name: name.to_string(), fwmark, ..InterfaceConfig::default() }
}

#[test]
fn interface_defaults() {
    let i = InterfaceConfig::default();
    assert_eq!(i.name, "wg0");
    assert_eq!(i.fwmark, 1);
    assert_eq!(i.table_id, 100);
    assert!(i.health_check_enabled);
    assert_eq!(i.health_check_hosts, vec!["1.1.1.1", "2606:4700:4700::1111"]);
    assert_eq!(f64::from_bits(i.health_check_latency_threshold_ms_bits), 500.0);
    assert_eq!(f64::from_bits(i.health_check_packet_loss_threshold_percent_bits), 50.0);
    assert_eq!(i.health_check_latency_threshold_ms_bits, DEFAULT_LATENCY_THRESHOLD_BITS);
    assert_eq!(i.health_check_packet_loss_threshold_percent_bits, DEFAULT_PACKET_LOSS_THRESHOLD_BITS);
    assert_eq!(i.failover_mode, FailoverMode::Global);
    assert!(i.failover_interfaces.is_empty());
}

#[test]
fn config_defaults() {
    let c = Config::default();
    assert_eq!(c.interfaces.len(), 1);
    assert_eq!(c.interfaces[0].name, "wg0");
    assert_eq!(c.interfaces[0].tcp_mss_clamp, Some(1280));
    assert_eq!(c.interfaces[0].ipv4_snat, Some(IpAddress::V4(0x0A0A_0A04)));
    assert_eq!(c.default_interface, "wg0");
    assert_eq!(c.ipv4_subnet, IpNetwork { family: IpFamily::V4, addr: 0xC612_0000, prefix_len: 15 });
    assert_eq!(
        c.ipv6_subnet,
        IpNetwork { family: IpFamily::V6, addr: 0xfd32_bfcc_fba0_1337_0000_0000_0000_0000, prefix_len: 64 }
    );
    assert!(matches!(c.upstream_resolver, UpstreamResolverConfig::Quad9Https));
    assert!(!c.export_enabled);
    assert_eq!(c.health_check_interval_seconds, 15);
    assert_eq!(c.health_check_timeout_seconds, 12);
    assert_eq!(c.health_check_ping_count, 5);
    assert_eq!(c.failover_recovery_delay_seconds, 60);
    assert_eq!(c.failover_interfaces, vec!["wg0"]);
    assert_eq!(FailoverMode::default(), FailoverMode::Global);
}

#[test]
fn patch_replaces_only_given_fields() {
    let mut base = Config::default();
    base.table_id = Some(7);
    base.iface = Some("old".to_string());
    let patch = PatchConfig {
        default_interface: Some("warp0".to_string()),
        export_enabled: Some(true),
        health_check_ping_count: Some(9),
        ..PatchConfig::default()
    };
    let c = base.patch(patch);
    assert_eq!(c.default_interface, "warp0");
    assert!(c.export_enabled);
    assert_eq!(c.health_check_ping_count, 9);
    assert_eq!(c.health_check_interval_seconds, 15);
    assert_eq!(c.interfaces.len(), 1);
    assert_eq!(c.failover_interfaces, vec!["wg0"]);
    assert_eq!(c.table_id, None);
    assert_eq!(c.iface, None);
}

#[test]
fn patch_replaces_interfaces_and_upstream() {
    let base = Config::default();
    let patch = PatchConfig {
        interfaces: Some(vec![iface("a", 5), iface("b", 6)]),
        upstream_resolver: Some(UpstreamResolverConfig::GoogleHttps),
        failover_interfaces: Some(vec!["b".to_string()]),
        ..PatchConfig::default()
    };
    let c = base.patch(patch);
    assert_eq!(c.interfaces.len(), 2);
    assert_eq!(c.interfaces[1].fwmark, 6);
    assert!(matches!(c.upstream_resolver, UpstreamResolverConfig::GoogleHttps));
    assert_eq!(c.failover_interfaces, vec!["b"]);
}

#[test]
fn resolve_interface_by_name_default_and_fallback() {
    let c = Config {
        interfaces: vec![iface("first", 1), iface("second", 2), iface("second", 3)],
        default_interface: "second".to_string(),
        ..Config::default()
    };
    assert_eq!(c.resolve_interface(Some("first")).fwmark, 1);
    assert_eq!(c.resolve_interface(Some("second")).fwmark, 2);
    assert_eq!(c.resolve_interface(Some("default")).fwmark, 2);
    assert_eq!(c.resolve_interface(None).fwmark, 2);
    assert_eq!(c.resolve_interface(Some("unknown")).fwmark, 2);

    let no_default = Config {
        interfaces: vec![iface("first", 1), iface("second", 2)],
        default_interface: "gone".to_string(),
        ..Config::default()
    };
    assert_eq!(no_default.resolve_interface(Some("unknown")).fwmark, 1);
}

#[test]
fn migration_builds_the_single_interface_of_old_files() {
    let mut c = Config::default();
    c.interfaces = vec![iface("ignored", 9)];
    c.default_interface = String::new();
    c.iface = Some("tun7".to_string());
    c.table_id = Some(42);
    c.tcp_mss_clamp = Some(1400);
    c.ipv6_snat = Some(IpAddress::V6(1));
    c.migrate(false, false);
    assert_eq!(c.interfaces.len(), 1);
    assert_eq!(c.interfaces[0].name, "tun7");
    assert_eq!(c.interfaces[0].table_id, 42);
    assert_eq!(c.interfaces[0].tcp_mss_clamp, Some(1400));
    assert_eq!(c.interfaces[0].ipv4_snat, None);
    assert_eq!(c.interfaces[0].ipv6_snat, Some(IpAddress::V6(1)));
    assert_eq!(c.interfaces[0].fwmark, 1);
    assert_eq!(c.default_interface, "tun7");
    assert_eq!(c.failover_interfaces, vec!["tun7"]);
}

#[test]
fn migration_without_legacy_fields_uses_wg0() {
    let mut c = Config::default();
    c.interfaces = Vec::new();
    c.migrate(true, true);
    assert_eq!(c.interfaces[0].name, "wg0");
    assert_eq!(c.interfaces[0].table_id, 100);
    assert_eq!(c.default_interface, "wg0");
    assert_eq!(c.failover_interfaces, vec!["wg0"]);
}

#[test]
fn migration_keeps_configured_interfaces() {
    let mut c = Config::default();
    c.interfaces = vec![iface("a", 1), iface("b", 2)];
    c.default_interface = String::new();
    c.failover_interfaces = vec!["b".to_string()];
    c.migrate(true, false);
    assert_eq!(c.interfaces.len(), 2);
    assert_eq!(c.default_interface, "a");
    assert_eq!(c.failover_interfaces, vec!["a", "b"]);

    let mut d = Config::default();
    d.interfaces = vec![iface("a", 1), iface("b", 2)];
    d.failover_interfaces = vec!["b".to_string()];
    d.migrate(true, true);
    assert_eq!(d.failover_interfaces, vec!["b"]);
    assert_eq!(d.default_interface, "wg0");
}

#[test]
fn changing_subnets_is_detected() {
    let a = Config::default();
    let mut b = Config::default();
    assert!(b.keeps_subnets_of(&a));
    b.ipv4_subnet.prefix_len = 16;
    assert!(!b.keeps_subnets_of(&a));
}

#[test]
fn health_check_settings_are_at_least_one() {
    let mut c = Config::default();
    c.health_check_interval_seconds = 0;
    c.health_check_timeout_seconds = 30;
    c.health_check_ping_count = 0;
    let s = HealthCheckSettings::from_config(&c);
    assert_eq!(s, HealthCheckSettings { interval_seconds: 1, timeout_seconds: 30, ping_count: 1 });
}

#[test]
fn nameserver_ports_by_protocol() {
    assert_eq!(ResolverProtocol::Plain.default_port(), 53);
    assert_eq!(ResolverProtocol::Tls.default_port(), 853);
    assert_eq!(ResolverProtocol::Https.default_port(), 443);
}

#[test]
fn nameserver_plan_without_port_uses_default() {
    let ns = CustomNameserverConfig {
        addr: "9.9.9.9".to_string(),
        protocol: ResolverProtocol::Tls,
        tls_dns_name: Some("dns.quad9.net".to_string()),
    };
    let plan = ns.plan(NameserverAddress::Ip(IpAddress::V4(0x0909_0909))).unwrap();
    assert_eq!(plan.ip, IpAddress::V4(0x0909_0909));
    assert_eq!(plan.port, 853);
    assert!(matches!(plan.transport, NameserverTransport::Tls { ref server_name } if server_name == "dns.quad9.net"));
}

#[test]
fn nameserver_plan_keeps_given_port_and_empty_name() {
    let ns = CustomNameserverConfig { addr: "1.1.1.1:5353".to_string(), protocol: ResolverProtocol::Https, tls_dns_name: None };
    let plan = ns.plan(NameserverAddress::Socket(IpAddress::V4(0x0101_0101), 5353)).unwrap();
    assert_eq!(plan.port, 5353);
    assert!(matches!(plan.transport, NameserverTransport::Https { ref server_name } if server_name.is_empty()));
    let plain = CustomNameserverConfig { addr: "x".to_string(), protocol: ResolverProtocol::Plain, tls_dns_name: None };
    assert!(plain.plan(NameserverAddress::Invalid).is_none());
    assert!(matches!(plain.plan(NameserverAddress::Ip(IpAddress::V4(1))).unwrap().transport, NameserverTransport::Udp));
}

#[test]
fn migration_flags_come_from_top_level_keys() {
    assert_eq!(
        migration_flags_of_text("default_interface = \"wg0\"\n[[interfaces]]\nname = \"wg0\"\n"),
        Some((true, false))
    );
    assert_eq!(
        migration_flags_of_text("failover_interfaces = [\"wg0\"]\n[upstream]\ninterfaces = 1\n"),
        Some((false, true))
    );
    assert_eq!(migration_flags_of_text(""), Some((false, false)));
    assert_eq!(migration_flags_of_text("this is = = not toml"), None);
    let keys = vec!["interfaces".to_string(), "failover_interfaces".to_string()];
    assert_eq!(migration_flags(&keys), (true, true));
}
