use monadns::policy::{PolicyId, PolicyKeyError, PolicyKind};

#[test]
fn policy_ids_include_kind_namespace() {
    let domain_rule = u64::try_from(PolicyId::DomainRule(1)).unwrap();
    let domain_list = u64::try_from(PolicyId::DomainList(1)).unwrap();
    let ip_rule = u64::try_from(PolicyId::IpRule(1)).unwrap();
    let ip_list = u64::try_from(PolicyId::IpList(1)).unwrap();

    assert_ne!(domain_rule, domain_list);
    assert_ne!(domain_rule, ip_rule);
    assert_ne!(ip_rule, ip_list);
    assert_eq!(domain_rule >> 56, PolicyKind::DomainRule.code() as u64);
    assert_eq!(domain_list >> 56, PolicyKind::DomainList.code() as u64);
    assert_eq!(ip_rule >> 56, PolicyKind::IpRule.code() as u64);
    assert_eq!(ip_list >> 56, PolicyKind::IpList.code() as u64);
}

#[test]
fn nft_policy_keys_include_kind_namespace() {
    let domain_rule = PolicyId::DomainRule(1).nft_key().unwrap();
    let domain_list = PolicyId::DomainList(1).nft_key().unwrap();
    let ip_rule = PolicyId::IpRule(1).nft_key().unwrap();
    let ip_list = PolicyId::IpList(1).nft_key().unwrap();

    assert_ne!(domain_rule, domain_list);
    assert_ne!(domain_rule, ip_rule);
    assert_ne!(ip_rule, ip_list);
    assert_eq!(domain_rule >> 24, PolicyKind::DomainRule.code() as u32);
    assert_eq!(domain_list >> 24, PolicyKind::DomainList.code() as u32);
    assert_eq!(ip_rule >> 24, PolicyKind::IpRule.code() as u32);
    assert_eq!(ip_list >> 24, PolicyKind::IpList.code() as u32);
}

#[test]
fn kind_codes_are_one_to_four() {
    assert_eq!(PolicyKind::DomainRule.code(), 1);
    assert_eq!(PolicyKind::DomainList.code(), 2);
    assert_eq!(PolicyKind::IpRule.code(), 3);
    assert_eq!(PolicyKind::IpList.code(), 4);
}

#[test]
fn kind_and_raw_id_of_each_variant() {
    assert_eq!(PolicyId::IpList(42).kind(), PolicyKind::IpList);
    assert_eq!(PolicyId::DomainRule(-5).raw_id(), -5);
    assert_eq!(PolicyId::IpRule(9).kind(), PolicyKind::IpRule);
}

#[test]
fn nft_key_exact_value() {
    assert_eq!(PolicyId::IpRule(0x12_3456).nft_key(), Ok(0x0312_3456));
    assert_eq!(PolicyId::DomainList(0xff_ffff).nft_key(), Ok(0x02ff_ffff));
}

#[test]
fn u64_key_exact_value() {
    assert_eq!(u64::try_from(PolicyId::IpList(7)), Ok(0x0400_0000_0000_0007));
    assert_eq!(PolicyId::DomainRule(7).to_u64_key(), Ok(0x0100_0000_0000_0007));
}

#[test]
fn negative_ids_have_no_key() {
    assert_eq!(PolicyId::DomainRule(-1).nft_key(), Err(PolicyKeyError::Negative));
    assert_eq!(u64::try_from(PolicyId::IpRule(-1)), Err(PolicyKeyError::Negative));
}

#[test]
fn ids_past_the_key_width_are_too_large() {
    assert_eq!(PolicyId::IpList(0x100_0000).nft_key(), Err(PolicyKeyError::TooLarge));
    assert_eq!(
        u64::try_from(PolicyId::DomainList(0x100_0000_0000_0000)),
        Err(PolicyKeyError::TooLarge)
    );
    assert_eq!(PolicyId::DomainList(0xff_ffff_ffff_ffff).to_u64_key(), Ok(0x02ff_ffff_ffff_ffff));
}

#[test]
fn equal_row_ids_of_different_kinds_get_different_keys() {
    let keys: Vec<u32> = [
        PolicyId::DomainRule(5),
        PolicyId::DomainList(5),
        PolicyId::IpRule(5),
        PolicyId::IpList(5),
    ]
    .iter()
    .map(|p| p.nft_key().unwrap())
    .collect();
    for i in 0..keys.len() {
        for j in 0..keys.len() {
            if i != j {
                assert_ne!(keys[i], keys[j]);
            }
        }
    }
}

#[test]
fn policy_text_names_kind_and_id() {
    assert_eq!(PolicyId::DomainRule(12).to_text(), "domain-rule:12");
    assert_eq!(PolicyId::DomainList(0).to_text(), "domain-list:0");
    assert_eq!(PolicyId::IpRule(-34).to_text(), "ip-rule:-34");
    assert_eq!(PolicyId::IpList(i64::MAX).to_text(), "ip-list:9223372036854775807");
    assert_eq!(PolicyId::IpList(i64::MIN).to_text(), "ip-list:-9223372036854775808");
}
