use monadns::net::{IpFamily, IpNetwork};
use monadns::sweep::{range_to_cidrs, resolve_subnets};

fn v4(a: u8, b: u8, c: u8, d: u8, prefix_len: u8) -> IpNetwork {
    IpNetwork {
        family: IpFamily::V4,
        addr: u32::from_be_bytes([a, b, c, d]) as u128,
        prefix_len,
    }
}

#[test]
fn range_to_cidrs_splits_into_aligned_blocks() {
    assert_eq!(range_to_cidrs(IpFamily::V4, 0x0a00_0000, 0x0a00_00ff), vec![v4(10, 0, 0, 0, 24)]);
    assert_eq!(
        range_to_cidrs(IpFamily::V4, 1, 6),
        vec![v4(0, 0, 0, 1, 32), v4(0, 0, 0, 2, 31), v4(0, 0, 0, 4, 31), v4(0, 0, 0, 6, 32)]
    );
    assert_eq!(range_to_cidrs(IpFamily::V4, 0, u32::MAX as u128), vec![v4(0, 0, 0, 0, 0)]);
    assert_eq!(
        range_to_cidrs(IpFamily::V6, 0, u128::MAX),
        vec![IpNetwork { family: IpFamily::V6, addr: 0, prefix_len: 0 }]
    );
}

#[test]
fn disjoint_subnets_are_kept() {
    let r = resolve_subnets(
        vec![(v4(192, 168, 0, 0, 16), 2, 0), (v4(10, 0, 0, 0, 8), 1, 0)],
        IpFamily::V4,
    );
    // Marks in order of the first address they cover.
    assert_eq!(r, vec![(v4(10, 0, 0, 0, 8), 1), (v4(192, 168, 0, 0, 16), 2)]);
}

#[test]
fn higher_priority_wins_over_longer_prefix() {
    let r = resolve_subnets(
        vec![(v4(10, 0, 0, 0, 8), 1, 5), (v4(10, 1, 0, 0, 16), 2, 0)],
        IpFamily::V4,
    );
    assert_eq!(r, vec![(v4(10, 0, 0, 0, 8), 1)]);
}

#[test]
fn equal_priority_longer_prefix_wins() {
    let r = resolve_subnets(
        vec![(v4(10, 0, 0, 0, 23), 1, 0), (v4(10, 0, 1, 0, 24), 2, 0)],
        IpFamily::V4,
    );
    assert_eq!(r, vec![(v4(10, 0, 0, 0, 24), 1), (v4(10, 0, 1, 0, 24), 2)]);
}

#[test]
fn equal_networks_greater_mark_wins() {
    let r = resolve_subnets(
        vec![(v4(10, 0, 0, 0, 8), 3, 0), (v4(10, 0, 0, 0, 8), 7, 0)],
        IpFamily::V4,
    );
    assert_eq!(r, vec![(v4(10, 0, 0, 0, 8), 7)]);
}

#[test]
fn adjacent_blocks_of_one_mark_are_aggregated() {
    let r = resolve_subnets(
        vec![(v4(10, 0, 0, 0, 24), 1, 0), (v4(10, 0, 1, 0, 24), 1, 0)],
        IpFamily::V4,
    );
    assert_eq!(r, vec![(v4(10, 0, 0, 0, 23), 1)]);
}

#[test]
fn nothing_resolves_to_nothing() {
    assert!(resolve_subnets(Vec::new(), IpFamily::V6).is_empty());
}

#[test]
fn empty_range_has_no_cidrs() {
    assert!(range_to_cidrs(IpFamily::V4, 10, 9).is_empty());
    assert!(range_to_cidrs(IpFamily::V6, u128::MAX, 0).is_empty());
}
