use monadns::config::{Config, InterfaceConfig};
use monadns::domains::{DomainList, DomainRule};
use monadns::health::InterfaceHealthRegistry;
use monadns::net::{parse_stored_subnet, IpFamily, IpNetwork};
use monadns::policy::PolicyId;
use monadns::sync::{
    changed_policy_marks, domain_policy_marks_at, plan_subnet_sync, same_entries, sync_list_at,
    StoredSubnet, SyncEntry,
};

fn v4(a: u8, b: u8, c: u8, d: u8, prefix_len: u8) -> IpNetwork {
    IpNetwork {
        family: IpFamily::V4,
        addr: u32::from_be_bytes([a, b, c, d]) as u128,
        prefix_len,
    }
}

fn two_interfaces() -> Config {
    Config {
        interfaces: vec![
            InterfaceConfig { name: "wg0".to_string(), fwmark: 1, ..InterfaceConfig::default() },
            InterfaceConfig { name: "eth0".to_string(), fwmark: 2, ..InterfaceConfig::default() },
        ],
        default_interface: "wg0".to_string(),
        ..Config::default()
    }
}

fn entry(subnet: &str, fwmark: u32, priority: i64, policy_id: PolicyId) -> SyncEntry {
    SyncEntry { subnet: subnet.to_string(), fwmark, priority, policy_id }
}

#[test]
fn plan_resolves_overlaps_by_priority_and_skips_unkeyed_policies() {
    let entries = vec![
        entry("10.0.0.0/8", 5, 0, PolicyId::IpRule(1)),
        entry("10.1.0.0/16", 6, 1, PolicyId::IpRule(2)),
        entry("192.168.0.0/16", 9, 5, PolicyId::IpRule(-1)),
        entry("2001:db8::/32", 7, 0, PolicyId::IpList(3)),
        entry("not a subnet", 8, 0, PolicyId::IpList(4)),
    ];
    let plan = plan_subnet_sync(&entries);

    let rule1 = PolicyId::IpRule(1).nft_key().unwrap();
    let rule2 = PolicyId::IpRule(2).nft_key().unwrap();
    let list3 = PolicyId::IpList(3).nft_key().unwrap();
    let list4 = PolicyId::IpList(4).nft_key().unwrap();

    let mut expected_v4: Vec<(IpNetwork, u32)> = vec![
        (v4(10, 0, 0, 0, 16), rule1),
        (v4(10, 2, 0, 0, 15), rule1),
        (v4(10, 4, 0, 0, 14), rule1),
        (v4(10, 8, 0, 0, 13), rule1),
        (v4(10, 16, 0, 0, 12), rule1),
        (v4(10, 32, 0, 0, 11), rule1),
        (v4(10, 64, 0, 0, 10), rule1),
        (v4(10, 128, 0, 0, 9), rule1),
    ];
    expected_v4.push((v4(10, 1, 0, 0, 16), rule2));
    assert_eq!(plan.v4, expected_v4);

    assert_eq!(
        plan.v6,
        vec![(
            IpNetwork { family: IpFamily::V6, addr: 0x2001_0db8u128 << 96, prefix_len: 32 },
            list3
        )]
    );

    assert_eq!(plan.policy_marks.len(), 4);
    assert_eq!(plan.policy_marks.get(&rule1), Some(&5));
    assert_eq!(plan.policy_marks.get(&rule2), Some(&6));
    assert_eq!(plan.policy_marks.get(&list3), Some(&7));
    assert_eq!(plan.policy_marks.get(&list4), Some(&8));
}

#[test]
fn plan_reads_bare_addresses_as_full_length_networks() {
    let entries = vec![
        entry("203.0.113.7", 1, 0, PolicyId::IpRule(1)),
        entry("2001:db8::1", 2, 0, PolicyId::IpRule(2)),
    ];
    let plan = plan_subnet_sync(&entries);
    assert_eq!(plan.v4, vec![(v4(203, 0, 113, 7, 32), PolicyId::IpRule(1).nft_key().unwrap())]);
    assert_eq!(
        plan.v6,
        vec![(
            IpNetwork { family: IpFamily::V6, addr: (0x2001_0db8u128 << 96) | 1, prefix_len: 128 },
            PolicyId::IpRule(2).nft_key().unwrap()
        )]
    );
}

#[test]
fn stored_subnets_parse_as_networks_or_addresses() {
    assert_eq!(parse_stored_subnet("10.0.0.1/8"), Some(v4(10, 0, 0, 1, 8)));
    assert_eq!(parse_stored_subnet("10.0.0.1"), Some(v4(10, 0, 0, 1, 32)));
    assert_eq!(
        parse_stored_subnet("::1"),
        Some(IpNetwork { family: IpFamily::V6, addr: 1, prefix_len: 128 })
    );
    assert_eq!(parse_stored_subnet("10.0.0.0/33"), None);
    assert_eq!(parse_stored_subnet("example.com"), None);
    assert_eq!(parse_stored_subnet(""), None);
}

#[test]
fn plan_of_nothing_is_empty() {
    let plan = plan_subnet_sync(&Vec::new());
    assert!(plan.v4.is_empty());
    assert!(plan.v6.is_empty());
    assert!(plan.policy_marks.is_empty());
}

#[test]
fn later_entries_win_the_policy_mark() {
    let entries = vec![
        entry("bad", 1, 0, PolicyId::IpRule(1)),
        entry("bad", 2, 0, PolicyId::IpRule(1)),
    ];
    let plan = plan_subnet_sync(&entries);
    let key = PolicyId::IpRule(1).nft_key().unwrap();
    assert_eq!(plan.policy_marks.get(&key), Some(&2));
}

#[test]
fn changed_marks_keep_only_differences() {
    let last = vec![(PolicyId::DomainRule(1), 1), (PolicyId::DomainList(2), 2)];
    let new = vec![
        (PolicyId::DomainRule(1), 1),
        (PolicyId::DomainList(2), 3),
        (PolicyId::DomainRule(5), 1),
    ];
    assert_eq!(
        changed_policy_marks(&new, &last),
        vec![(PolicyId::DomainList(2), 3), (PolicyId::DomainRule(5), 1)]
    );
    assert!(changed_policy_marks(&new, &new).is_empty());
}

#[test]
fn same_entries_compares_every_field() {
    let a = vec![entry("10.0.0.0/8", 1, 0, PolicyId::IpRule(1))];
    assert!(same_entries(&a, &a.clone()));
    assert!(!same_entries(&a, &vec![entry("10.0.0.0/8", 2, 0, PolicyId::IpRule(1))]));
    assert!(!same_entries(&a, &vec![entry("10.0.0.0/8", 1, 1, PolicyId::IpRule(1))]));
    assert!(!same_entries(&a, &vec![entry("10.0.0.0/8", 1, 0, PolicyId::IpList(1))]));
    assert!(!same_entries(&a, &vec![entry("10.0.0.0/9", 1, 0, PolicyId::IpRule(1))]));
    assert!(!same_entries(&a, &Vec::new()));
}

#[test]
fn sync_list_uses_marks_of_named_interfaces() {
    let config = two_interfaces();
    let registry = InterfaceHealthRegistry::new();
    let subnets = vec![
        StoredSubnet {
            subnet: "10.0.0.0/8".to_string(),
            interface: Some("eth0".to_string()),
            priority: 3,
            policy_id: PolicyId::IpRule(1),
        },
        StoredSubnet {
            subnet: "192.168.0.0/16".to_string(),
            interface: None,
            priority: 0,
            policy_id: PolicyId::IpList(2),
        },
        StoredSubnet {
            subnet: "172.16.0.0/12".to_string(),
            interface: Some("missing".to_string()),
            priority: 0,
            policy_id: PolicyId::IpList(3),
        },
    ];
    let list = sync_list_at(&config, &registry, &subnets, 1_000);
    let expected = vec![
        entry("10.0.0.0/8", 2, 3, PolicyId::IpRule(1)),
        entry("192.168.0.0/16", 1, 0, PolicyId::IpList(2)),
        entry("172.16.0.0/12", 1, 0, PolicyId::IpList(3)),
    ];
    assert!(same_entries(&list, &expected));
}

#[test]
fn domain_policy_marks_skip_rows_without_id() {
    let config = two_interfaces();
    let registry = InterfaceHealthRegistry::new();
    let rules = vec![
        DomainRule {
            id: Some(4),
            domain: "example.com".to_string(),
            include_subdomains: true,
            interface: Some("eth0".to_string()),
        },
        DomainRule {
            id: None,
            domain: "example.org".to_string(),
            include_subdomains: false,
            interface: None,
        },
    ];
    let lists = vec![DomainList {
        id: Some(7),
        url: "https://example.com/list.txt".to_string(),
        update_interval_seconds: 3600,
        include_subdomains: true,
        last_updated: None,
        interface: None,
        priority: 0,
    }];
    let marks = domain_policy_marks_at(&config, &registry, &rules, &lists, 1_000);
    assert_eq!(marks, vec![(PolicyId::DomainRule(4), 2), (PolicyId::DomainList(7), 1)]);
}

#[test]
fn bare_addresses_follow_std_address_syntax() {
    assert_eq!(parse_stored_subnet("010.0.0.1"), None);
    assert_eq!(parse_stored_subnet("10.0.0.01"), None);
    assert_eq!(parse_stored_subnet("1.2.3"), None);
    assert_eq!(
        parse_stored_subnet("::ffff:1.2.3.4"),
        Some(IpNetwork { family: IpFamily::V6, addr: 0xffff_0102_0304, prefix_len: 128 })
    );
}
