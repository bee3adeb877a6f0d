use monadns::config::InterfaceConfig;
use monadns::net::{IpAddress, IpFamily};
use monadns::nft::{
    classify_counter, counter_name, dynamic_rules, interface_counter_names, Chain, CounterMetric,
    Direction, NftRule, PolicyMap,
};

fn interfaces() -> Vec<InterfaceConfig> {
    vec![
        InterfaceConfig {
            name: "wg0".to_string(),
            fwmark: 1,
            tcp_mss_clamp: Some(1360),
            ipv4_snat: Some(IpAddress::V4(0x0a00_0001)),
            ..InterfaceConfig::default()
        },
        InterfaceConfig { name: "eth0".to_string(), fwmark: 2, ..InterfaceConfig::default() },
    ]
}

#[test]
fn counter_names_have_family_and_direction_prefix() {
    assert_eq!(counter_name(Direction::Tx, IpFamily::V4, "wg0"), "cnt_v4_tx_wg0");
    assert_eq!(counter_name(Direction::Rx, IpFamily::V6, "eth0"), "cnt_v6_rx_eth0");
}

#[test]
fn interface_counter_names_are_grouped_by_kind() {
    let names = interface_counter_names(&interfaces());
    assert_eq!(
        names,
        vec![
            "cnt_v4_tx_wg0",
            "cnt_v4_tx_eth0",
            "cnt_v4_rx_wg0",
            "cnt_v4_rx_eth0",
            "cnt_v6_tx_wg0",
            "cnt_v6_tx_eth0",
            "cnt_v6_rx_wg0",
            "cnt_v6_rx_eth0",
        ]
    );
}

#[test]
fn dynamic_rules_count_and_order() {
    let rules = dynamic_rules(&interfaces());
    // 2 clamps, 2 accepts, per family: 4 steering + 2*2 tx + 2 rx + 2 dnat, 4 postrouting
    assert_eq!(rules.len(), 2 + 2 + 2 * (4 + 4 + 2 + 2) + 4);
    assert!(matches!(
        rules[0],
        NftRule::MtuClamp { chain: Chain::Forward, fwmark: 1, max_mss: 1360 }
    ));
    assert!(matches!(
        rules[1],
        NftRule::MtuClamp { chain: Chain::Output, fwmark: 1, max_mss: 1360 }
    ));
    match &rules[2] {
        NftRule::AcceptIncoming { interface } => assert_eq!(interface, "wg0"),
        other => panic!("unexpected {:?}", other),
    }
    match &rules[3] {
        NftRule::AcceptIncoming { interface } => assert_eq!(interface, "eth0"),
        other => panic!("unexpected {:?}", other),
    }
    assert!(matches!(
        rules[4],
        NftRule::Steering {
            chain: Chain::ManglePrerouting,
            family: IpFamily::V4,
            map: PolicyMap::Subnet
        }
    ));
    match &rules[8] {
        NftRule::TxMetrics { chain: Chain::ManglePrerouting, family: IpFamily::V4, fwmark: 1, counter } => {
            assert_eq!(counter, "cnt_v4_tx_wg0")
        }
        other => panic!("unexpected {:?}", other),
    }
    match &rules[12] {
        NftRule::RxMetrics { family: IpFamily::V4, fwmark: 1, counter } => {
            assert_eq!(counter, "cnt_v4_rx_wg0")
        }
        other => panic!("unexpected {:?}", other),
    }
    assert!(matches!(rules[14], NftRule::Dnat { chain: Chain::Prerouting, family: IpFamily::V4 }));
    assert!(matches!(rules[15], NftRule::Dnat { chain: Chain::Output, family: IpFamily::V4 }));
    match &rules[28] {
        NftRule::Postrouting { family: IpFamily::V4, fwmark: 1, interface, snat } => {
            assert_eq!(interface, "wg0");
            assert_eq!(*snat, Some(IpAddress::V4(0x0a00_0001)));
        }
        other => panic!("unexpected {:?}", other),
    }
    match &rules[31] {
        NftRule::Postrouting { family: IpFamily::V6, fwmark: 2, interface, snat } => {
            assert_eq!(interface, "eth0");
            assert_eq!(*snat, None);
        }
        other => panic!("unexpected {:?}", other),
    }
}

#[test]
fn no_interfaces_leave_only_family_rules() {
    let rules = dynamic_rules(&Vec::new());
    assert_eq!(rules.len(), 2 * (4 + 2));
}

#[test]
fn classify_steering_counters() {
    assert!(matches!(classify_counter("cnt_steering_subnet"), CounterMetric::SteeringSubnet));
    assert!(matches!(classify_counter("cnt_steering_fakeip"), CounterMetric::SteeringFakeIp));
}

#[test]
fn classify_interface_counters() {
    match classify_counter("cnt_v6_rx_wg0") {
        CounterMetric::Interface { family, direction, interface } => {
            assert_eq!(family, IpFamily::V6);
            assert_eq!(direction, Direction::Rx);
            assert_eq!(interface, "wg0");
        }
        other => panic!("unexpected {:?}", other),
    }
    match classify_counter("cnt_v4_tx") {
        CounterMetric::Interface { interface, .. } => assert_eq!(interface, "total"),
        other => panic!("unexpected {:?}", other),
    }
    assert!(matches!(classify_counter("something_else"), CounterMetric::Other));
}
