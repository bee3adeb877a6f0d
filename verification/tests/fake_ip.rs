use monadns::fake_ip::{total_hosts, IpPool, PoolAction, PoolEvent};
use monadns::net::{IpFamily, IpNetwork};
use monadns::policy::PolicyId;

/// Runs a request through the pool against a route controller whose first
/// mapping installation fails; the counter holds the attempts.
fn get_or_assign(
    pool: &mut IpPool,
    attempts: &mut usize,
    real: u128,
    policy: PolicyId,
    fwmark: u32,
) -> Result<u128, ()> {
    let mut action = pool.step(PoolEvent::Request { real_ip: real, policy, fwmark });
    loop {
        match action {
            PoolAction::Done(fake) => return Ok(fake),
            PoolAction::SetMark { .. } => action = pool.step(PoolEvent::MarkSet(true)),
            PoolAction::AddMapping { .. } => {
                *attempts += 1;
                let ok = *attempts != 1;
                action = pool.step(PoolEvent::MappingAdded(ok));
            }
            PoolAction::Failed | PoolAction::Exhausted | PoolAction::Unexpected => return Err(()),
        }
    }
}

fn v4_net(addr: u32, prefix_len: u8) -> IpNetwork {
    IpNetwork { family: IpFamily::V4, addr: addr as u128, prefix_len }
}

#[test]
fn failed_mapping_is_not_published_and_is_retried() {
    let mut attempts = 0usize;
    let mut manager = IpPool::new(v4_net(0xC612_0000, 30));
    let real: u128 = 0xCB00_710A;
    let policy_id = PolicyId::DomainRule(1);

    assert!(get_or_assign(&mut manager, &mut attempts, real, policy_id, 7).is_err());
    assert!(manager.lookup(real, policy_id).is_none());

    let fake = get_or_assign(&mut manager, &mut attempts, real, policy_id, 7).unwrap();

    assert_eq!(fake, 0xC612_0001);
    assert_eq!(attempts, 2);
    assert_eq!(manager.lookup(real, policy_id), Some(fake));
}

#[test]
fn known_address_is_answered_again_without_outside_work() {
    let mut attempts = 1usize;
    let mut pool = IpPool::new(v4_net(0xC612_0000, 30));
    let first = get_or_assign(&mut pool, &mut attempts, 0x0A00_0001, PolicyId::IpRule(3), 5).unwrap();
    let again = pool.step(PoolEvent::Request { real_ip: 0x0A00_0001, policy: PolicyId::IpRule(3), fwmark: 5 });
    assert_eq!(again, PoolAction::Done(first));
}

#[test]
fn changed_mark_is_set_before_answering() {
    let mut attempts = 1usize;
    let mut pool = IpPool::new(v4_net(0xC612_0000, 30));
    let first = get_or_assign(&mut pool, &mut attempts, 0x0A00_0001, PolicyId::IpRule(3), 5).unwrap();
    let action = pool.step(PoolEvent::Request { real_ip: 0x0A00_0001, policy: PolicyId::IpRule(3), fwmark: 9 });
    assert_eq!(action, PoolAction::SetMark { policy: PolicyId::IpRule(3), fwmark: 9 });
    assert_eq!(pool.step(PoolEvent::MarkSet(true)), PoolAction::Done(first));
}

#[test]
fn full_pool_reuses_the_least_recently_used_address() {
    let mut attempts = 1usize;
    let mut pool = IpPool::new(v4_net(0xC612_0000, 30));
    let a = get_or_assign(&mut pool, &mut attempts, 1, PolicyId::DomainRule(1), 1).unwrap();
    let b = get_or_assign(&mut pool, &mut attempts, 2, PolicyId::DomainRule(1), 1).unwrap();
    assert_eq!((a, b), (0xC612_0001, 0xC612_0002));
    let action = pool.step(PoolEvent::Request { real_ip: 3, policy: PolicyId::DomainRule(1), fwmark: 1 });
    assert_eq!(
        action,
        PoolAction::AddMapping { fake: a, real_ip: 3, policy: PolicyId::DomainRule(1), replace: true }
    );
    assert_eq!(pool.step(PoolEvent::MappingAdded(true)), PoolAction::Done(a));
    assert_eq!(pool.lookup(1, PolicyId::DomainRule(1)), None);
    assert_eq!(pool.lookup(3, PolicyId::DomainRule(1)), Some(a));
}

#[test]
fn subnets_without_usable_hosts_have_none() {
    assert_eq!(total_hosts(v4_net(0xC612_0000, 31)), 0);
    assert_eq!(total_hosts(v4_net(0xC612_0000, 32)), 0);
    assert_eq!(total_hosts(v4_net(0xC612_0000, 30)), 2);
    assert_eq!(total_hosts(IpNetwork { family: IpFamily::V6, addr: 1, prefix_len: 128 }), 0);
}

#[test]
fn events_out_of_order_are_unexpected() {
    let mut pool = IpPool::new(v4_net(0xC612_0000, 30));
    assert_eq!(pool.step(PoolEvent::MappingAdded(true)), PoolAction::Unexpected);
    assert_eq!(pool.step(PoolEvent::MarkSet(true)), PoolAction::Unexpected);
}

#[test]
fn abandoned_request_is_rolled_back() {
    let mut pool = IpPool::new(v4_net(0xC612_0000, 30));
    let first = pool.step(PoolEvent::Request { real_ip: 1, policy: PolicyId::IpRule(1), fwmark: 1 });
    assert_eq!(
        first,
        PoolAction::AddMapping { fake: 0xC612_0001, real_ip: 1, policy: PolicyId::IpRule(1), replace: false }
    );
    assert!(pool.pending().is_some());
    assert_eq!(pool.step(PoolEvent::Abort), PoolAction::Failed);
    assert!(pool.pending().is_none());
    assert!(pool.lookup(1, PolicyId::IpRule(1)).is_none());
    // The host that was to be taken is offered again.
    let again = pool.step(PoolEvent::Request { real_ip: 2, policy: PolicyId::IpRule(1), fwmark: 1 });
    assert_eq!(
        again,
        PoolAction::AddMapping { fake: 0xC612_0001, real_ip: 2, policy: PolicyId::IpRule(1), replace: false }
    );
    assert_eq!(pool.step(PoolEvent::Abort), PoolAction::Failed);
    assert_eq!(pool.step(PoolEvent::Abort), PoolAction::Unexpected);
}

