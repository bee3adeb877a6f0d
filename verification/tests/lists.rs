use monadns::domains::{DomainRule, IpRule};
use monadns::lists::{
    first_occurrences, is_virtual_geo_url, list_entries, merge_domains, merge_subnets,
    process_line, reordered_priorities, should_update, ListKind, ListSubnetRow, IP_RULE_PRIORITY,
};
use monadns::policy::PolicyId;

fn ip_rule(id: Option<i64>, subnet: &str, interface: Option<&str>) -> IpRule {
    IpRule { id, subnet: subnet.to_string(), interface: interface.map(|s| s.to_string()) }
}

fn row(subnet: &str, priority: i64, list_id: i64) -> ListSubnetRow {
    ListSubnetRow { subnet: subnet.to_string(), interface: None, priority, list_id }
}

fn domain_rule(domain: &str) -> DomainRule {
    DomainRule { id: Some(1), domain: domain.to_string(), include_subdomains: true, interface: None }
}

#[test]
fn process_line_trims_and_drops_trailing_dots_of_domains() {
    assert_eq!(process_line(ListKind::Domain, "  example.com.. \t"), "example.com");
    assert_eq!(process_line(ListKind::Ip, "  10.0.0.0/8  "), "10.0.0.0/8");
}

#[test]
fn list_entries_skip_comments_and_blank_lines() {
    let text = "# header\nexample.com.\n\n   \n  sub.example.org  \r\n#x\nlast.net";
    assert_eq!(
        list_entries(ListKind::Domain, text),
        vec!["example.com", "sub.example.org", "last.net"]
    );
    assert_eq!(
        list_entries(ListKind::Ip, "10.0.0.0/8\n# c\n192.168.0.0/16\n"),
        vec!["10.0.0.0/8", "192.168.0.0/16"]
    );
    assert!(list_entries(ListKind::Ip, "").is_empty());
}

#[test]
fn virtual_geo_urls() {
    assert!(is_virtual_geo_url("geosite://google"));
    assert!(is_virtual_geo_url("geoip://cn"));
    assert!(!is_virtual_geo_url("https://example.com/list.txt"));
    assert!(!is_virtual_geo_url("geoip:/cn"));
    assert!(!is_virtual_geo_url(""));
}

#[test]
fn should_update_by_whole_seconds() {
    assert!(should_update(None, 3600, 0));
    assert!(!should_update(Some(0), 3600, 3_599_999));
    assert!(should_update(Some(0), 3600, 3_600_000));
    assert!(should_update(Some(1_000), 0, 1_000));
    // A last update in the future is not due for a positive interval.
    assert!(!should_update(Some(10_000), 1, 0));
    // -1.5 s rounds toward zero to -1 s, which reaches an interval of -1.
    assert!(should_update(Some(1_500), -1, 0));
    assert!(!should_update(Some(2_000), -1, 0));
}

#[test]
fn reordered_priorities_count_down_from_zero() {
    assert_eq!(reordered_priorities(&vec![7, 3, 9]), vec![(7, 0), (3, -1), (9, -2)]);
    assert!(reordered_priorities(&Vec::new()).is_empty());
}

#[test]
fn first_occurrences_mark_repeats() {
    let names: Vec<String> =
        vec!["a", "b", "a", "c", "b"].into_iter().map(|s| s.to_string()).collect();
    assert_eq!(first_occurrences(&names), vec![true, true, false, true, false]);
}

#[test]
fn merge_subnets_rules_first_then_rows_once_each() {
    let rules = vec![ip_rule(Some(1), "10.0.0.0/8", Some("eth0"))];
    let rows = vec![row("10.0.0.0/8", 5, 2), row("192.168.0.0/16", 5, 2), row("192.168.0.0/16", 3, 4)];
    let merged = merge_subnets(&rules, &rows).unwrap();
    assert_eq!(merged.len(), 2);
    assert_eq!(merged[0].subnet, "10.0.0.0/8");
    assert_eq!(merged[0].interface.as_deref(), Some("eth0"));
    assert_eq!(merged[0].priority, IP_RULE_PRIORITY);
    assert_eq!(merged[0].policy_id, PolicyId::IpRule(1));
    assert_eq!(merged[1].subnet, "192.168.0.0/16");
    assert_eq!(merged[1].priority, 5);
    assert_eq!(merged[1].policy_id, PolicyId::IpList(2));
}

#[test]
fn merge_subnets_rejects_rule_without_id() {
    let rules = vec![ip_rule(Some(1), "10.0.0.0/8", None), ip_rule(None, "172.16.0.0/12", None)];
    assert_eq!(merge_subnets(&rules, &Vec::new()).unwrap_err(), "172.16.0.0/12");
}

#[test]
fn merge_subnets_ignores_repeated_rule_without_id() {
    let rules = vec![ip_rule(Some(1), "10.0.0.0/8", None), ip_rule(None, "10.0.0.0/8", None)];
    let merged = merge_subnets(&rules, &Vec::new()).unwrap();
    assert_eq!(merged.len(), 1);
    assert_eq!(merged[0].policy_id, PolicyId::IpRule(1));
}

#[test]
fn merge_domains_keeps_first_occurrences() {
    let rules = vec![domain_rule("example.com"), domain_rule("example.org")];
    let rows: Vec<String> =
        vec!["example.org", "new.net", "new.net"].into_iter().map(|s| s.to_string()).collect();
    assert_eq!(merge_domains(&rules, &rows), vec!["example.com", "example.org", "new.net"]);
}

fn std_entries(text: &str) -> Vec<String> {
    text.lines()
        .map(|l| l.trim().to_string())
        .filter(|e| !e.is_empty() && !e.starts_with('#'))
        .collect()
}

#[test]
fn list_entries_split_and_trim_as_std_does() {
    let texts = [
        "a\nb\r\nc",
        "a\r\n\r\nb\n",
        "a\rb\n c \r",
        "\u{3000}wide\u{3000}\n\u{85}next\u{2028}\n\u{a0}\t x \u{202f}",
        "\r",
        "\n\n\n",
        "only",
        "trailing\r\n",
        "  # comment\n#\n x#y ",
    ];
    for t in texts {
        assert_eq!(list_entries(ListKind::Ip, t), std_entries(t), "text {:?}", t);
    }
}

#[test]
fn process_line_trims_unicode_white_space() {
    for l in ["\u{2000}\u{200a}a b\u{205f}", "\u{feff}x", " \u{1680}y\u{2029}", "\t\u{b}\u{c}z\r"] {
        assert_eq!(process_line(ListKind::Ip, l), l.trim());
    }
}
