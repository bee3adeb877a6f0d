//! What the packet filter holds: the rules derived from the interfaces, the
//! counters that measure them, and how counter names read back as metrics.
use crate::config::{InterfaceConfig, InterfaceConfigView, iface_views};
use crate::net::{IpAddress, IpFamily};
use vstd::prelude::*;

verus! {

/// The chains of the steering table.
#[derive(Debug, Clone, Copy, PartialEq, Eq, Structural)]
pub enum Chain {
    ManglePrerouting,
    MangleOutput,
    Prerouting,
    Output,
    Postrouting,
    Forward,
}

/// Which policy map a steering rule reads: subnets, or fake addresses.
#[derive(Debug, Clone, Copy, PartialEq, Eq, Structural)]
pub enum PolicyMap {
    Subnet,
    FakeIp,
}

/// Traffic direction of an interface counter.
#[derive(Debug, Clone, Copy, PartialEq, Eq, Structural)]
pub enum Direction {
    Tx,
    Rx,
}

/// One rule of the steering table.
#[derive(Debug, Clone)]
pub enum NftRule {
    /// Clamp the MSS of TCP SYNs carrying the mark.
    MtuClamp { chain: Chain, fwmark: u32, max_mss: u32 },
    /// Clear the mark of traffic arriving on the interface and accept it.
    AcceptIncoming { interface: String },
    /// Mark unmarked traffic whose destination is in a policy map.
    Steering { chain: Chain, family: IpFamily, map: PolicyMap },
    /// Count marked traffic of a family leaving through an interface.
    TxMetrics { chain: Chain, family: IpFamily, fwmark: u32, counter: String },
    /// Count reply traffic of a family of a marked connection.
    RxMetrics { family: IpFamily, fwmark: u32, counter: String },
    /// Rewrite fake destinations to real ones.
    Dnat { chain: Chain, family: IpFamily },
    /// Source NAT to a fixed address, or masquerade, of marked traffic of a
    /// family leaving through the interface.
    Postrouting { family: IpFamily, fwmark: u32, interface: String, snat: Option<IpAddress> },
}

/// The mathematical value of an [`NftRule`].
pub enum RuleView {
    MtuClamp { chain: Chain, fwmark: u32, max_mss: u32 },
    AcceptIncoming { interface: Seq<char> },
    Steering { chain: Chain, family: IpFamily, map: PolicyMap },
    TxMetrics { chain: Chain, family: IpFamily, fwmark: u32, counter: Seq<char> },
    RxMetrics { family: IpFamily, fwmark: u32, counter: Seq<char> },
    Dnat { chain: Chain, family: IpFamily },
    Postrouting { family: IpFamily, fwmark: u32, interface: Seq<char>, snat: Option<IpAddress> },
}

impl View for NftRule {
    type V = RuleView;

    open spec fn view(&self) -> RuleView {
        match self {
            NftRule::MtuClamp { chain, fwmark, max_mss } => RuleView::MtuClamp {
                chain: *chain,
                fwmark: *fwmark,
                max_mss: *max_mss,
            },
            NftRule::AcceptIncoming { interface } => RuleView::AcceptIncoming {
                interface: interface@,
            },
            NftRule::Steering { chain, family, map } => RuleView::Steering {
                chain: *chain,
                family: *family,
                map: *map,
            },
            NftRule::TxMetrics { chain, family, fwmark, counter } => RuleView::TxMetrics {
                chain: *chain,
                family: *family,
                fwmark: *fwmark,
                counter: counter@,
            },
            NftRule::RxMetrics { family, fwmark, counter } => RuleView::RxMetrics {
                family: *family,
                fwmark: *fwmark,
                counter: counter@,
            },
            NftRule::Dnat { chain, family } => RuleView::Dnat { chain: *chain, family: *family },
            NftRule::Postrouting { family, fwmark, interface, snat } => RuleView::Postrouting {
                family: *family,
                fwmark: *fwmark,
                interface: interface@,
                snat: *snat,
            },
        }
    }
}

/// The views of a list of rules.
pub open spec fn rule_views(s: Seq<NftRule>) -> Seq<RuleView> {
    s.map_values(|r: NftRule| r@)
}

/// The prefix of the name of an interface counter.
pub open spec fn counter_prefix(dir: Direction, family: IpFamily) -> Seq<char> {
    match (dir, family) {
        (Direction::Tx, IpFamily::V4) => "cnt_v4_tx_"@,
        (Direction::Rx, IpFamily::V4) => "cnt_v4_rx_"@,
        (Direction::Tx, IpFamily::V6) => "cnt_v6_tx_"@,
        (Direction::Rx, IpFamily::V6) => "cnt_v6_rx_"@,
    }
}

/// The name of the counter of an interface: the prefix, then the interface name.
pub open spec fn counter_name_of(dir: Direction, family: IpFamily, iface: Seq<char>) -> Seq<char> {
    counter_prefix(dir, family) + iface
}

/// The name of the counter of an interface.
pub fn counter_name(dir: Direction, family: IpFamily, iface: &str) -> (r: String)
    ensures
        r@ == counter_name_of(dir, family, iface@),
{
    let mut r = match (dir, family) {
        (Direction::Tx, IpFamily::V4) => String::from_str("cnt_v4_tx_"),
        (Direction::Rx, IpFamily::V4) => String::from_str("cnt_v4_rx_"),
        (Direction::Tx, IpFamily::V6) => String::from_str("cnt_v6_tx_"),
        (Direction::Rx, IpFamily::V6) => String::from_str("cnt_v6_rx_"),
    };
    r.append(iface);
    r
}

/// The MSS clamps of an interface: in the forward and the output chain, if it
/// has a clamp.
pub open spec fn clamp_rules_of(i: InterfaceConfigView) -> Seq<RuleView> {
    match i.tcp_mss_clamp {
        Some(m) => seq![
            RuleView::MtuClamp { chain: Chain::Forward, fwmark: i.fwmark, max_mss: m },
            RuleView::MtuClamp { chain: Chain::Output, fwmark: i.fwmark, max_mss: m },
        ],
        None => Seq::empty(),
    }
}

/// The accept rule of an interface.
pub open spec fn accept_rules_of(i: InterfaceConfigView) -> Seq<RuleView> {
    seq![RuleView::AcceptIncoming { interface: i.name }]
}

/// The sent-traffic counters of an interface for a family, in both mangle chains.
pub open spec fn tx_rules_of(family: IpFamily, i: InterfaceConfigView) -> Seq<RuleView> {
    seq![
        RuleView::TxMetrics {
            chain: Chain::ManglePrerouting,
            family,
            fwmark: i.fwmark,
            counter: counter_name_of(Direction::Tx, family, i.name),
        },
        RuleView::TxMetrics {
            chain: Chain::MangleOutput,
            family,
            fwmark: i.fwmark,
            counter: counter_name_of(Direction::Tx, family, i.name),
        },
    ]
}

/// The received-traffic counter of an interface for a family.
pub open spec fn rx_rules_of(family: IpFamily, i: InterfaceConfigView) -> Seq<RuleView> {
    seq![
        RuleView::RxMetrics {
            family,
            fwmark: i.fwmark,
            counter: counter_name_of(Direction::Rx, family, i.name),
        },
    ]
}

/// The source NAT rules of an interface, IPv4 then IPv6.
pub open spec fn postrouting_rules_of(i: InterfaceConfigView) -> Seq<RuleView> {
    seq![
        RuleView::Postrouting { family: IpFamily::V4, fwmark: i.fwmark, interface: i.name, snat: i.ipv4_snat },
        RuleView::Postrouting { family: IpFamily::V6, fwmark: i.fwmark, interface: i.name, snat: i.ipv6_snat },
    ]
}

/// The rules of one family: steering by subnet and by fake address in both
/// mangle chains, the interface counters, and the rewriting of fake addresses.
pub open spec fn family_rules(ifs: Seq<InterfaceConfigView>, family: IpFamily) -> Seq<RuleView> {
    steering_rules(family) + ifs.flat_map(part_rules(RulePart::Tx(family))) + ifs.flat_map(
        part_rules(RulePart::Rx(family)),
    ) + dnat_rules(family)
}

/// The steering rules of a family.
pub open spec fn steering_rules(family: IpFamily) -> Seq<RuleView> {
    seq![
        RuleView::Steering { chain: Chain::ManglePrerouting, family, map: PolicyMap::Subnet },
        RuleView::Steering { chain: Chain::MangleOutput, family, map: PolicyMap::Subnet },
        RuleView::Steering { chain: Chain::ManglePrerouting, family, map: PolicyMap::FakeIp },
        RuleView::Steering { chain: Chain::MangleOutput, family, map: PolicyMap::FakeIp },
    ]
}

/// The address rewriting rules of a family.
pub open spec fn dnat_rules(family: IpFamily) -> Seq<RuleView> {
    seq![
        RuleView::Dnat { chain: Chain::Prerouting, family },
        RuleView::Dnat { chain: Chain::Output, family },
    ]
}

/// Every rule of the steering table, in the order they are installed: MSS
/// clamps, accept rules, the IPv4 then the IPv6 rules, and source NAT.
pub open spec fn dynamic_rules_of(ifs: Seq<InterfaceConfigView>) -> Seq<RuleView> {
    ifs.flat_map(part_rules(RulePart::Clamp)) + ifs.flat_map(part_rules(RulePart::Accept))
        + family_rules(ifs, IpFamily::V4) + family_rules(ifs, IpFamily::V6) + ifs.flat_map(
        part_rules(RulePart::Postrouting),
    )
}

/// The rules that one interface contributes to a part of the table.
#[derive(Debug, Clone, Copy, PartialEq, Eq, Structural)]
pub enum RulePart {
    Clamp,
    Accept,
    Tx(IpFamily),
    Rx(IpFamily),
    Postrouting,
}

/// The rules of one interface for a part of the table.
pub open spec fn part_rules(part: RulePart) -> spec_fn(InterfaceConfigView) -> Seq<RuleView> {
    |i: InterfaceConfigView|
        match part {
            RulePart::Clamp => clamp_rules_of(i),
            RulePart::Accept => accept_rules_of(i),
            RulePart::Tx(f) => tx_rules_of(f, i),
            RulePart::Rx(f) => rx_rules_of(f, i),
            RulePart::Postrouting => postrouting_rules_of(i),
        }
}

/// The rules of one interface for a part of the table.
fn rules_for(part: RulePart, itf: &InterfaceConfig) -> (r: Vec<NftRule>)
    ensures
        rule_views(r@) == part_rules(part)(itf@),
{
    let mut r: Vec<NftRule> = Vec::new();
    match part {
        RulePart::Clamp => {
            if let Some(m) = itf.tcp_mss_clamp {
                r.push(NftRule::MtuClamp { chain: Chain::Forward, fwmark: itf.fwmark, max_mss: m });
                r.push(NftRule::MtuClamp { chain: Chain::Output, fwmark: itf.fwmark, max_mss: m });
            }
        },
        RulePart::Accept => {
            r.push(NftRule::AcceptIncoming { interface: itf.name.clone() });
        },
        RulePart::Tx(f) => {
            r.push(
                NftRule::TxMetrics {
                    chain: Chain::ManglePrerouting,
                    family: f,
                    fwmark: itf.fwmark,
                    counter: counter_name(Direction::Tx, f, itf.name.as_str()),
                },
            );
            r.push(
                NftRule::TxMetrics {
                    chain: Chain::MangleOutput,
                    family: f,
                    fwmark: itf.fwmark,
                    counter: counter_name(Direction::Tx, f, itf.name.as_str()),
                },
            );
        },
        RulePart::Rx(f) => {
            r.push(
                NftRule::RxMetrics {
                    family: f,
                    fwmark: itf.fwmark,
                    counter: counter_name(Direction::Rx, f, itf.name.as_str()),
                },
            );
        },
        RulePart::Postrouting => {
            r.push(
                NftRule::Postrouting {
                    family: IpFamily::V4,
                    fwmark: itf.fwmark,
                    interface: itf.name.clone(),
                    snat: itf.ipv4_snat,
                },
            );
            r.push(
                NftRule::Postrouting {
                    family: IpFamily::V6,
                    fwmark: itf.fwmark,
                    interface: itf.name.clone(),
                    snat: itf.ipv6_snat,
                },
            );
        },
    }
    assert(rule_views(r@) =~= part_rules(part)(itf@));
    r
}

/// Appends the rules of every interface for a part of the table.
fn push_part(out: &mut Vec<NftRule>, part: RulePart, interfaces: &Vec<InterfaceConfig>)
    ensures
        rule_views(final(out)@) == rule_views(old(out)@) + iface_views(interfaces@).flat_map(
            part_rules(part),
        ),
{
    let ghost ifs = iface_views(interfaces@);
    let ghost start = rule_views(out@);
    let mut k: usize = 0;
    while k < interfaces.len()
        invariant
            k <= interfaces.len(),
            ifs == iface_views(interfaces@),
            rule_views(out@) == start + ifs.take(k as int).flat_map(part_rules(part)),
        decreases interfaces.len() - k,
    {
        let more = rules_for(part, &interfaces[k]);
        let ghost before = out@;
        let mut j: usize = 0;
        while j < more.len()
            invariant
                j <= more.len(),
                out@ == before + more@.take(j as int),
            decreases more.len() - j,
        {
            out.push(more[j].clone_rule());
            assert(out@ =~= before + more@.take(j + 1));
            j = j + 1;
        }
        proof {
            assert(more@.take(more.len() as int) =~= more@);
            ifs.lemma_flat_map_take_append(part_rules(part), k as int);
            assert(ifs[k as int] == interfaces@[k as int]@);
            assert(rule_views(before + more@) =~= rule_views(before) + rule_views(more@));
        }
        k = k + 1;
    }
    assert(ifs.take(interfaces.len() as int) =~= ifs);
}

impl NftRule {
    /// A copy of this rule.
    pub fn clone_rule(&self) -> (r: NftRule)
        ensures
            r == *self,
    {
        match self {
            NftRule::MtuClamp { chain, fwmark, max_mss } => NftRule::MtuClamp {
                chain: *chain,
                fwmark: *fwmark,
                max_mss: *max_mss,
            },
            NftRule::AcceptIncoming { interface } => NftRule::AcceptIncoming {
                interface: interface.clone(),
            },
            NftRule::Steering { chain, family, map } => NftRule::Steering {
                chain: *chain,
                family: *family,
                map: *map,
            },
            NftRule::TxMetrics { chain, family, fwmark, counter } => NftRule::TxMetrics {
                chain: *chain,
                family: *family,
                fwmark: *fwmark,
                counter: counter.clone(),
            },
            NftRule::RxMetrics { family, fwmark, counter } => NftRule::RxMetrics {
                family: *family,
                fwmark: *fwmark,
                counter: counter.clone(),
            },
            NftRule::Dnat { chain, family } => NftRule::Dnat { chain: *chain, family: *family },
            NftRule::Postrouting { family, fwmark, interface, snat } => NftRule::Postrouting {
                family: *family,
                fwmark: *fwmark,
                interface: interface.clone(),
                snat: *snat,
            },
        }
    }
}

/// Appends the steering rules of a family.
fn push_steering(out: &mut Vec<NftRule>, family: IpFamily)
    ensures
        rule_views(final(out)@) == rule_views(old(out)@) + steering_rules(family),
{
    let ghost start = out@;
    out.push(NftRule::Steering { chain: Chain::ManglePrerouting, family, map: PolicyMap::Subnet });
    out.push(NftRule::Steering { chain: Chain::MangleOutput, family, map: PolicyMap::Subnet });
    out.push(NftRule::Steering { chain: Chain::ManglePrerouting, family, map: PolicyMap::FakeIp });
    out.push(NftRule::Steering { chain: Chain::MangleOutput, family, map: PolicyMap::FakeIp });
    assert(rule_views(out@) =~= rule_views(start) + steering_rules(family));
}

/// Appends the address rewriting rules of a family.
fn push_dnat(out: &mut Vec<NftRule>, family: IpFamily)
    ensures
        rule_views(final(out)@) == rule_views(old(out)@) + dnat_rules(family),
{
    let ghost start = out@;
    out.push(NftRule::Dnat { chain: Chain::Prerouting, family });
    out.push(NftRule::Dnat { chain: Chain::Output, family });
    assert(rule_views(out@) =~= rule_views(start) + dnat_rules(family));
}

/// Every rule of the steering table for the given interfaces (see
/// [`dynamic_rules_of`]).
pub fn dynamic_rules(interfaces: &Vec<InterfaceConfig>) -> (r: Vec<NftRule>)
    ensures
        rule_views(r@) == dynamic_rules_of(iface_views(interfaces@)),
{
    let ghost ifs = iface_views(interfaces@);
    let mut r: Vec<NftRule> = Vec::new();
    assert(rule_views(r@) =~= Seq::<RuleView>::empty());
    push_part(&mut r, RulePart::Clamp, interfaces);
    push_part(&mut r, RulePart::Accept, interfaces);
    let ghost a = rule_views(r@);
    push_steering(&mut r, IpFamily::V4);
    push_part(&mut r, RulePart::Tx(IpFamily::V4), interfaces);
    push_part(&mut r, RulePart::Rx(IpFamily::V4), interfaces);
    push_dnat(&mut r, IpFamily::V4);
    assert(rule_views(r@) =~= a + family_rules(ifs, IpFamily::V4));
    let ghost b = rule_views(r@);
    push_steering(&mut r, IpFamily::V6);
    push_part(&mut r, RulePart::Tx(IpFamily::V6), interfaces);
    push_part(&mut r, RulePart::Rx(IpFamily::V6), interfaces);
    push_dnat(&mut r, IpFamily::V6);
    assert(rule_views(r@) =~= b + family_rules(ifs, IpFamily::V6));
    push_part(&mut r, RulePart::Postrouting, interfaces);
    assert(rule_views(r@) =~= dynamic_rules_of(ifs));
    r
}

/// The directions and families of the interface counters, in the order they
/// are created.
pub open spec fn counter_kinds() -> Seq<(Direction, IpFamily)> {
    seq![
        (Direction::Tx, IpFamily::V4),
        (Direction::Rx, IpFamily::V4),
        (Direction::Tx, IpFamily::V6),
        (Direction::Rx, IpFamily::V6),
    ]
}

/// The names of the interface counters: for each kind, one per interface.
pub open spec fn interface_counter_names_of(ifs: Seq<InterfaceConfigView>) -> Seq<Seq<char>> {
    counter_kinds().flat_map(
        |k: (Direction, IpFamily)|
            ifs.map_values(|i: InterfaceConfigView| counter_name_of(k.0, k.1, i.name)),
    )
}

/// The names of the interface counters (see [`interface_counter_names_of`]).
pub fn interface_counter_names(interfaces: &Vec<InterfaceConfig>) -> (r: Vec<String>)
    ensures
        crate::text::strs(r@) == interface_counter_names_of(iface_views(interfaces@)),
{
    let ghost ifs = iface_views(interfaces@);
    let ghost f = |k: (Direction, IpFamily)|
        ifs.map_values(|i: InterfaceConfigView| counter_name_of(k.0, k.1, i.name));
    let kinds = [
        (Direction::Tx, IpFamily::V4),
        (Direction::Rx, IpFamily::V4),
        (Direction::Tx, IpFamily::V6),
        (Direction::Rx, IpFamily::V6),
    ];
    assert(kinds@ =~= counter_kinds());
    let mut r: Vec<String> = Vec::new();
    let mut q: usize = 0;
    while q < 4
        invariant
            q <= 4,
            kinds@ == counter_kinds(),
            ifs == iface_views(interfaces@),
            f == (|k: (Direction, IpFamily)|
                ifs.map_values(|i: InterfaceConfigView| counter_name_of(k.0, k.1, i.name))),
            crate::text::strs(r@) == counter_kinds().take(q as int).flat_map(f),
        decreases 4 - q,
    {
        let (dir, fam) = kinds[q];
        let ghost before = crate::text::strs(r@);
        let ghost g = |i: InterfaceConfigView| counter_name_of(dir, fam, i.name);
        let mut k: usize = 0;
        while k < interfaces.len()
            invariant
                k <= interfaces.len(),
                ifs == iface_views(interfaces@),
                g == (|i: InterfaceConfigView| counter_name_of(dir, fam, i.name)),
                crate::text::strs(r@) == before + ifs.take(k as int).map_values(g),
            decreases interfaces.len() - k,
        {
            let ghost prev = r@;
            let n = counter_name(dir, fam, interfaces[k].name.as_str());
            r.push(n);
            assert(ifs[k as int].name == interfaces@[k as int].name@);
            assert(g(ifs[k as int]) == n@);
            assert(ifs.take(k + 1).map_values(g) =~= ifs.take(k as int).map_values(g).push(n@));
            assert(crate::text::strs(r@) =~= crate::text::strs(prev).push(n@));
            k = k + 1;
        }
        proof {
            assert(ifs.take(interfaces.len() as int) =~= ifs);
            counter_kinds().lemma_flat_map_take_append(f, q as int);
            assert(f(counter_kinds()[q as int]) =~= ifs.map_values(g));
        }
        q = q + 1;
    }
    assert(counter_kinds().take(4) =~= counter_kinds());
    r
}

/// What a counter of the steering table measures.
#[derive(Debug, Clone)]
pub enum CounterMetric {
    /// Traffic steered by subnet.
    SteeringSubnet,
    /// Traffic steered by fake address.
    SteeringFakeIp,
    /// Traffic of a family in a direction through an interface.
    Interface { family: IpFamily, direction: Direction, interface: String },
    /// Nothing that is reported.
    Other,
}

/// The interface part of an interface counter's name: what follows the
/// separator after the nine-character prefix, or `total` when nothing does.
pub open spec fn counter_interface(name: Seq<char>) -> Seq<char> {
    if name.len() > 9 {
        name.subrange(10, name.len() as int)
    } else {
        "total"@
    }
}

/// Whether a name starts with a prefix.
pub open spec fn starts_with(name: Seq<char>, prefix: Seq<char>) -> bool {
    prefix.len() <= name.len() && name.subrange(0, prefix.len() as int) == prefix
}

/// What a counter measures, by its name.
pub open spec fn classify_counter_of(name: Seq<char>) -> Option<(IpFamily, Direction)> {
    if starts_with(name, "cnt_v4_tx"@) {
        Some((IpFamily::V4, Direction::Tx))
    } else if starts_with(name, "cnt_v4_rx"@) {
        Some((IpFamily::V4, Direction::Rx))
    } else if starts_with(name, "cnt_v6_tx"@) {
        Some((IpFamily::V6, Direction::Tx))
    } else if starts_with(name, "cnt_v6_rx"@) {
        Some((IpFamily::V6, Direction::Rx))
    } else {
        None
    }
}

/// Whether a string slice starts with a prefix.
fn str_starts_with(name: &str, prefix: &str) -> (r: bool)
    ensures
        r == starts_with(name@, prefix@),
{
    let n = name.unicode_len();
    let m = prefix.unicode_len();
    if m > n {
        return false;
    }
    crate::text::str_eq(name.substring_char(0, m), prefix)
}

/// What a counter of the steering table measures, by its name.
pub fn classify_counter(name: &str) -> (r: CounterMetric)
    ensures
        name@ == "cnt_steering_subnet"@ ==> r is SteeringSubnet,
        name@ == "cnt_steering_fakeip"@ ==> r is SteeringFakeIp,
        name@ != "cnt_steering_subnet"@ && name@ != "cnt_steering_fakeip"@ ==> match r {
            CounterMetric::Interface { family, direction, interface } => classify_counter_of(name@)
                == Some((family, direction)) && interface@ == counter_interface(name@),
            CounterMetric::Other => classify_counter_of(name@) is None,
            _ => false,
        },
{
    proof {
        reveal_strlit("cnt_steering_subnet");
        reveal_strlit("cnt_steering_fakeip");
        reveal_strlit("cnt_v4_tx");
        reveal_strlit("cnt_v4_rx");
        reveal_strlit("cnt_v6_tx");
        reveal_strlit("cnt_v6_rx");
        assert("cnt_steering_subnet"@[13] != "cnt_steering_fakeip"@[13]);
    }
    if crate::text::str_eq(name, "cnt_steering_subnet") {
        return CounterMetric::SteeringSubnet;
    }
    if crate::text::str_eq(name, "cnt_steering_fakeip") {
        return CounterMetric::SteeringFakeIp;
    }
    let (family, direction) = if str_starts_with(name, "cnt_v4_tx") {
        (IpFamily::V4, Direction::Tx)
    } else if str_starts_with(name, "cnt_v4_rx") {
        (IpFamily::V4, Direction::Rx)
    } else if str_starts_with(name, "cnt_v6_tx") {
        (IpFamily::V6, Direction::Tx)
    } else if str_starts_with(name, "cnt_v6_rx") {
        (IpFamily::V6, Direction::Rx)
    } else {
        return CounterMetric::Other;
    };
    let n = name.unicode_len();
    let interface = if n > 9 {
        String::from_str(name.substring_char(10, n))
    } else {
        String::from_str("total")
    };
    CounterMetric::Interface { family, direction, interface }
}

/// Every item of a flat map comes from the image of some element.
proof fn lemma_flat_map_member<A, B>(s: Seq<A>, f: spec_fn(A) -> Seq<B>, k: int)
    requires
        0 <= k < s.flat_map(f).len(),
    ensures
        exists|i: int, j: int|
            0 <= i < s.len() && 0 <= j < f(s[i]).len() && #[trigger] f(s[i])[j] == s.flat_map(f)[k],
    decreases s.len(),
{
    let p = s.drop_last();
    assert(s =~= p.push(s.last()));
    p.lemma_flat_map_push(f, s.last());
    let n = p.flat_map(f).len();
    if k < n {
        lemma_flat_map_member(p, f, k);
        let (i, j) = choose|i: int, j: int|
            0 <= i < p.len() && 0 <= j < f(p[i]).len() && #[trigger] f(p[i])[j] == p.flat_map(f)[k];
        assert(p[i] == s[i]);
        assert(f(s[i])[j] == s.flat_map(f)[k]);
    } else {
        let i = s.len() - 1;
        assert(s[i] == s.last());
        assert(f(s[i])[k - n] == s.flat_map(f)[k]);
    }
}

/// Whether no rule of a list is a source NAT rule.
spec fn no_postrouting(s: Seq<RuleView>) -> bool {
    forall|k: int| 0 <= k < s.len() ==> !(#[trigger] s[k] is Postrouting)
}

/// The clamp, accept and counter parts of the table hold no source NAT rule.
proof fn lemma_part_no_postrouting(ifs: Seq<InterfaceConfigView>, part: RulePart)
    requires
        part != RulePart::Postrouting,
    ensures
        no_postrouting(ifs.flat_map(part_rules(part))),
{
    assert forall|k: int| 0 <= k < ifs.flat_map(part_rules(part)).len() implies !(
    #[trigger] ifs.flat_map(part_rules(part))[k] is Postrouting) by {
        lemma_flat_map_member(ifs, part_rules(part), k);
        let (i, j) = choose|i: int, j: int|
            0 <= i < ifs.len() && 0 <= j < part_rules(part)(ifs[i]).len() && #[trigger] part_rules(part)(
                ifs[i],
            )[j] == ifs.flat_map(part_rules(part))[k];
    }
}

/// Two lists without source NAT rules join into one without.
proof fn lemma_no_postrouting_concat(a: Seq<RuleView>, b: Seq<RuleView>)
    requires
        no_postrouting(a),
        no_postrouting(b),
    ensures
        no_postrouting(a + b),
{
    assert forall|k: int| 0 <= k < (a + b).len() implies !(#[trigger] (a + b)[k] is Postrouting) by {
        if k < a.len() {
            assert((a + b)[k] == a[k]);
        } else {
            assert((a + b)[k] == b[k - a.len()]);
        }
    }
}

/// Each source NAT rule of the table belongs to a configured interface and
/// carries that interface's mark and the interface's source address of the
/// rule's own family: `ipv4_snat` for IPv4 rules, `ipv6_snat` for IPv6 rules
/// (none means masquerade).
pub proof fn lemma_postrouting_snat_of_its_family(ifs: Seq<InterfaceConfigView>, k: int)
    requires
        0 <= k < dynamic_rules_of(ifs).len(),
    ensures
        match dynamic_rules_of(ifs)[k] {
            RuleView::Postrouting { family, fwmark, interface, snat } => exists|i: int|
                0 <= i < ifs.len() && (#[trigger] ifs[i]).name == interface && ifs[i].fwmark == fwmark
                    && snat == (match family {
                    IpFamily::V4 => ifs[i].ipv4_snat,
                    IpFamily::V6 => ifs[i].ipv6_snat,
                }),
            _ => true,
        },
{
    let a = ifs.flat_map(part_rules(RulePart::Clamp));
    let b = ifs.flat_map(part_rules(RulePart::Accept));
    let p = ifs.flat_map(part_rules(RulePart::Postrouting));
    lemma_part_no_postrouting(ifs, RulePart::Clamp);
    lemma_part_no_postrouting(ifs, RulePart::Accept);
    lemma_part_no_postrouting(ifs, RulePart::Tx(IpFamily::V4));
    lemma_part_no_postrouting(ifs, RulePart::Rx(IpFamily::V4));
    lemma_part_no_postrouting(ifs, RulePart::Tx(IpFamily::V6));
    lemma_part_no_postrouting(ifs, RulePart::Rx(IpFamily::V6));
    assert forall|f: IpFamily| no_postrouting(#[trigger] family_rules(ifs, f)) by {
        lemma_part_no_postrouting(ifs, RulePart::Tx(f));
        lemma_part_no_postrouting(ifs, RulePart::Rx(f));
        assert(no_postrouting(steering_rules(f)));
        assert(no_postrouting(dnat_rules(f)));
        lemma_no_postrouting_concat(steering_rules(f), ifs.flat_map(part_rules(RulePart::Tx(f))));
        lemma_no_postrouting_concat(
            steering_rules(f) + ifs.flat_map(part_rules(RulePart::Tx(f))),
            ifs.flat_map(part_rules(RulePart::Rx(f))),
        );
        lemma_no_postrouting_concat(
            steering_rules(f) + ifs.flat_map(part_rules(RulePart::Tx(f))) + ifs.flat_map(
                part_rules(RulePart::Rx(f)),
            ),
            dnat_rules(f),
        );
    }
    let x = a + b + family_rules(ifs, IpFamily::V4) + family_rules(ifs, IpFamily::V6);
    lemma_no_postrouting_concat(a, b);
    lemma_no_postrouting_concat(a + b, family_rules(ifs, IpFamily::V4));
    lemma_no_postrouting_concat(a + b + family_rules(ifs, IpFamily::V4), family_rules(ifs, IpFamily::V6));
    assert(dynamic_rules_of(ifs) == x + p);
    if k < x.len() {
        assert(dynamic_rules_of(ifs)[k] == x[k]);
    } else {
        let k2 = k - x.len();
        assert(dynamic_rules_of(ifs)[k] == p[k2]);
        lemma_flat_map_member(ifs, part_rules(RulePart::Postrouting), k2);
        let (i, j) = choose|i: int, j: int|
            0 <= i < ifs.len() && 0 <= j < part_rules(RulePart::Postrouting)(ifs[i]).len()
                && #[trigger] part_rules(RulePart::Postrouting)(ifs[i])[j] == p[k2];
        assert(part_rules(RulePart::Postrouting)(ifs[i]) == postrouting_rules_of(ifs[i]));
    }
}

} // verus!
