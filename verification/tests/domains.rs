use monadns::domains::{
    candidate_domains, match_list_rows, match_rule_rows, trim_dots, DomainController,
    DummyDomainController, HitType, ListRow, RuleRow,
};
use monadns::policy::PolicyId;

fn rule(id: i64, domain: &str, include_subdomains: bool, interface: Option<&str>) -> RuleRow {
    RuleRow { id, domain: domain.to_string(), include_subdomains, interface: interface.map(str::to_string) }
}

fn list_row(list_id: i64, domain: &str, include_subdomains: bool, hit: HitType) -> ListRow {
    ListRow {
        list_id,
        domain: domain.to_string(),
        include_subdomains,
        interface: Some("wg1".to_string()),
        priority: 0,
        hit_type: hit,
        category: String::new(),
    }
}

#[test]
fn candidates_are_the_domain_and_its_parents() {
    assert_eq!(candidate_domains("a.b.example.com."), vec!["a.b.example.com", "b.example.com", "example.com", "com"]);
    assert_eq!(candidate_domains("localhost"), vec!["localhost"]);
    assert_eq!(candidate_domains("x..y"), vec!["x..y", ".y", "y"]);
}

#[test]
fn trailing_dots_are_removed() {
    assert_eq!(trim_dots("example.com..."), "example.com");
    assert_eq!(trim_dots("..."), "");
    assert_eq!(trim_dots("plain"), "plain");
    assert_eq!(candidate_domains("example.com."), candidate_domains("example.com"));
}

#[test]
fn exact_rule_applies_parent_rule_needs_subdomains() {
    let rows = vec![rule(7, "example.com", false, Some("wg1")), rule(8, "com", true, None)];
    let (i, hit) = match_rule_rows("www.example.com", &rows).unwrap();
    assert_eq!(i, 1);
    assert_eq!(hit.interface, "default");
    assert_eq!(hit.policy_id, PolicyId::DomainRule(8));

    let (i, hit) = match_rule_rows("example.com.", &rows).unwrap();
    assert_eq!(i, 0);
    assert_eq!(hit.interface, "wg1");
    assert_eq!(hit.policy_id, PolicyId::DomainRule(7));
}

#[test]
fn no_rule_applies() {
    let rows = vec![rule(7, "example.com", false, None)];
    assert!(match_rule_rows("www.example.com", &rows).is_none());
    assert!(match_rule_rows("anything", &Vec::new()).is_none());
}

#[test]
fn geosite_kinds_decide_list_matches() {
    let rows = vec![
        list_row(1, "example.com", true, HitType::Full),
        list_row(2, "example.com", true, HitType::Regex),
        list_row(3, "example.com", true, HitType::Plain),
        list_row(4, "example.com", false, HitType::ListDomain),
        list_row(5, "example.com", false, HitType::Domain),
    ];
    let (i, hit) = match_list_rows("www.example.com", &rows).unwrap();
    assert_eq!(i, 4);
    assert_eq!(hit.policy_id, PolicyId::DomainList(5));
    assert_eq!(hit.interface, "wg1");

    let (i, _) = match_list_rows("example.com", &rows).unwrap();
    assert_eq!(i, 0);
}

#[test]
fn hit_type_numbers() {
    assert_eq!(HitType::from_code(-1), HitType::ListDomain);
    assert_eq!(HitType::from_code(0), HitType::Plain);
    assert_eq!(HitType::from_code(1), HitType::Regex);
    assert_eq!(HitType::from_code(2), HitType::Domain);
    assert_eq!(HitType::from_code(3), HitType::Full);
    assert_eq!(HitType::from_code(9), HitType::Unknown);
}

#[test]
fn dummy_controller_intercepts_its_domains() {
    let c = DummyDomainController::new(vec!["a.example".to_string(), "b.example".to_string()]);
    let hit = c.should_intercept("b.example").unwrap();
    assert_eq!(hit.interface, "default");
    assert_eq!(hit.policy_id, PolicyId::DomainList(0));
    assert!(c.should_intercept("c.example").is_none());
}

#[test]
fn most_specific_rule_wins_whatever_the_row_order() {
    let rows = vec![rule(1, "com", true, None), rule(2, "example.com", true, None), rule(3, "org", true, None)];
    let (i, hit) = match_rule_rows("www.example.com", &rows).unwrap();
    assert_eq!(i, 1);
    assert_eq!(hit.policy_id, PolicyId::DomainRule(2));
    // Equal lengths: the first row wins.
    let rows = vec![rule(4, "aaa", true, None), rule(5, "bbb", true, None)];
    assert_eq!(match_rule_rows("x.y", &rows).unwrap().0, 0);
}

#[test]
fn list_rows_rank_by_priority_then_length_then_list_id() {
    let mut low = list_row(1, "example.com", true, HitType::ListDomain);
    low.priority = -1;
    let short = list_row(2, "com", true, HitType::ListDomain);
    let long_late = list_row(9, "example.com", true, HitType::ListDomain);
    let long_early = list_row(3, "example.com", true, HitType::ListDomain);
    let rows = vec![low, short, long_late, long_early];
    let (i, hit) = match_list_rows("www.example.com", &rows).unwrap();
    assert_eq!(i, 3);
    assert_eq!(hit.policy_id, PolicyId::DomainList(3));

    let mut top = list_row(8, "com", true, HitType::ListDomain);
    top.priority = 5;
    let rows = vec![list_row(1, "example.com", true, HitType::ListDomain), top];
    assert_eq!(match_list_rows("www.example.com", &rows).unwrap().0, 1);
}
