//! What the policy sync pushes to the packet filter: the subnet entries with
//! the marks of their effective interfaces, the resolved subnet maps, and the
//! policy marks that changed since the last round.
use crate::config::{Config, ConfigView};
use crate::domains::{DomainList, DomainRule};
use crate::failover::{effective_index, now_millis, resolve_effective_interface_at};
use crate::health::{HealthView, InterfaceHealthRegistry};
use crate::net::{IpFamily, IpNetwork, parse_stored_subnet, stored_subnet_of};
use crate::policy::{PolicyId, spec_nft_key};
use crate::sweep::{
    MarkedInterval, WeightedSubnet, covered, covers, elementary, entry_holds, is_top, resolution_of,
    resolve_subnets, resolves, sorted_disjoint, steers, subnets_wf,
};
use crate::net::family_max;
use crate::text::opt_str;
use std::collections::HashMap;
use vstd::prelude::*;

verus! {

/// A subnet of a rule or list as stored, with the interface it names, its
/// priority and its policy.
#[derive(Debug, Clone)]
pub struct StoredSubnet {
    pub subnet: String,
    pub interface: Option<String>,
    pub priority: i64,
    pub policy_id: PolicyId,
}

/// A subnet to install, with the mark of the interface that carries it.
#[derive(Debug, Clone)]
pub struct SyncEntry {
    pub subnet: String,
    pub fwmark: u32,
    pub priority: i64,
    pub policy_id: PolicyId,
}

/// The mathematical value of a [`SyncEntry`].
pub struct SyncEntryView {
    pub subnet: Seq<char>,
    pub fwmark: u32,
    pub priority: i64,
    pub policy_id: PolicyId,
}

impl View for SyncEntry {
    type V = SyncEntryView;

    open spec fn view(&self) -> SyncEntryView {
        SyncEntryView {
            subnet: self.subnet@,
            fwmark: self.fwmark,
            priority: self.priority,
            policy_id: self.policy_id,
        }
    }
}

/// The views of a list of entries.
pub open spec fn entry_views(s: Seq<SyncEntry>) -> Seq<SyncEntryView> {
    s.map_values(|e: SyncEntry| e@)
}

/// The entry of a stored subnet: the mark of the interface that carries its
/// interface name's traffic at `now_ms`.
pub open spec fn sync_entry_of(
    c: ConfigView,
    reg: Seq<HealthView>,
    now_ms: i64,
    s: StoredSubnet,
) -> SyncEntryView {
    SyncEntryView {
        subnet: s.subnet@,
        fwmark: c.interfaces[effective_index(c, opt_str(s.interface), reg, now_ms)].fwmark,
        priority: s.priority,
        policy_id: s.policy_id,
    }
}

/// The entries to install for the stored subnets at `now_ms`, in order.
pub open spec fn sync_list_of(
    c: ConfigView,
    reg: Seq<HealthView>,
    now_ms: i64,
    subnets: Seq<StoredSubnet>,
) -> Seq<SyncEntryView> {
    subnets.map_values(|s: StoredSubnet| sync_entry_of(c, reg, now_ms, s))
}

/// The entries to install for the stored subnets, in order.
pub fn sync_list_at(
    config: &Config,
    health_status: &InterfaceHealthRegistry,
    subnets: &Vec<StoredSubnet>,
    now_ms: i64,
) -> (r: Vec<SyncEntry>)
    requires
        config.interfaces.len() > 0,
    ensures
        entry_views(r@) == sync_list_of(config@, health_status@, now_ms, subnets@),
{
    let mut r: Vec<SyncEntry> = Vec::new();
    let mut k: usize = 0;
    while k < subnets.len()
        invariant
            k <= subnets.len(),
            config.interfaces.len() > 0,
            r@.len() == k,
            forall|j: int|
                0 <= j < k ==> #[trigger] r@[j]@ == sync_entry_of(
                    config@,
                    health_status@,
                    now_ms,
                    subnets@[j],
                ),
        decreases subnets.len() - k,
    {
        let s = &subnets[k];
        let name: Option<&str> = match &s.interface {
            Some(n) => Some(n.as_str()),
            None => None,
        };
        let itf = resolve_effective_interface_at(config, name, health_status, now_ms);
        r.push(
            SyncEntry {
                subnet: s.subnet.clone(),
                fwmark: itf.fwmark,
                priority: s.priority,
                policy_id: s.policy_id,
            },
        );
        k = k + 1;
    }
    assert(entry_views(r@) =~= sync_list_of(config@, health_status@, now_ms, subnets@));
    r
}

/// Whether two lists of entries are the same.
pub fn same_entries(a: &Vec<SyncEntry>, b: &Vec<SyncEntry>) -> (r: bool)
    ensures
        r == (entry_views(a@) == entry_views(b@)),
{
    if a.len() != b.len() {
        assert(entry_views(a@).len() != entry_views(b@).len());
        return false;
    }
    let mut k: usize = 0;
    while k < a.len()
        invariant
            k <= a.len(),
            a.len() == b.len(),
            forall|j: int| 0 <= j < k ==> a@[j]@ == b@[j]@,
        decreases a.len() - k,
    {
        let x = &a[k];
        let y = &b[k];
        if !(x.subnet == y.subnet && x.fwmark == y.fwmark && x.priority == y.priority
            && x.policy_id == y.policy_id) {
            assert(entry_views(a@)[k as int] != entry_views(b@)[k as int]);
            return false;
        }
        k = k + 1;
    }
    assert(entry_views(a@) =~= entry_views(b@));
    true
}

/// The subnets of one family to resolve: each entry whose policy has a key
/// and whose subnet reads as a network of that family (see
/// [`stored_subnet_of`]), with that key as its mark.
pub open spec fn raw_subnets_of(entries: Seq<SyncEntryView>, family: IpFamily) -> Seq<WeightedSubnet>
    decreases entries.len(),
{
    if entries.len() == 0 {
        Seq::empty()
    } else {
        let rest = raw_subnets_of(entries.drop_last(), family);
        let e = entries.last();
        match (spec_nft_key(e.policy_id), stored_subnet_of(e.subnet)) {
            (Ok(key), Some(n)) => if n.family == family {
                rest.push((n, key, e.priority))
            } else {
                rest
            },
            _ => rest,
        }
    }
}

/// The policy marks to install: for each entry whose policy has a key, the
/// key maps to the entry's mark, later entries winning. Entries whose subnet
/// does not read as a network count too.
pub open spec fn policy_marks_of(entries: Seq<SyncEntryView>) -> Map<u32, u32>
    decreases entries.len(),
{
    if entries.len() == 0 {
        Map::empty()
    } else {
        let rest = policy_marks_of(entries.drop_last());
        let e = entries.last();
        match spec_nft_key(e.policy_id) {
            Ok(key) => rest.insert(key, e.fwmark),
            Err(_) => rest,
        }
    }
}

/// Each subnet to resolve is the network, key and priority of an entry whose
/// policy has a key and whose subnet reads as a network of the family; and
/// each such entry gives one.
proof fn lemma_raw_subnets_members(es: Seq<SyncEntryView>, f: IpFamily)
    ensures
        forall|t: int|
            #![trigger raw_subnets_of(es, f)[t]]
            0 <= t < raw_subnets_of(es, f).len() ==> exists|j: int|
                0 <= j < es.len() && spec_nft_key((#[trigger] es[j]).policy_id) == Ok::<u32, crate::policy::PolicyKeyError>(
                    raw_subnets_of(es, f)[t].1,
                ) && stored_subnet_of(es[j].subnet) == Some(raw_subnets_of(es, f)[t].0)
                    && raw_subnets_of(es, f)[t].0.family == f && raw_subnets_of(es, f)[t].2
                    == es[j].priority,
        forall|j: int|
            0 <= j < es.len() && spec_nft_key((#[trigger] es[j]).policy_id) is Ok && stored_subnet_of(
                es[j].subnet,
            ) is Some && stored_subnet_of(es[j].subnet)->0.family == f ==> raw_subnets_of(es, f).contains(
                (stored_subnet_of(es[j].subnet)->0, spec_nft_key(es[j].policy_id)->Ok_0, es[j].priority),
            ),
    decreases es.len(),
{
    if es.len() > 0 {
        let pre = es.drop_last();
        let e = es.last();
        lemma_raw_subnets_members(pre, f);
        let rest = raw_subnets_of(pre, f);
        let raw = raw_subnets_of(es, f);
        assert(e == es[es.len() - 1]);
        assert forall|t: int| #![trigger raw[t]] 0 <= t < raw.len() implies exists|j: int|
            0 <= j < es.len() && spec_nft_key((#[trigger] es[j]).policy_id) == Ok::<u32, crate::policy::PolicyKeyError>(raw[t].1)
                && stored_subnet_of(es[j].subnet) == Some(raw[t].0) && raw[t].0.family == f && raw[t].2
                == es[j].priority by {
            if t < rest.len() {
                assert(raw[t] == rest[t]);
                let j = choose|j: int|
                    0 <= j < pre.len() && spec_nft_key((#[trigger] pre[j]).policy_id) == Ok::<u32, crate::policy::PolicyKeyError>(
                        rest[t].1,
                    ) && stored_subnet_of(pre[j].subnet) == Some(rest[t].0) && rest[t].0.family == f
                        && rest[t].2 == pre[j].priority;
                assert(pre[j] == es[j]);
            } else {
                assert(spec_nft_key(es[es.len() - 1].policy_id) == Ok::<u32, crate::policy::PolicyKeyError>(raw[t].1));
            }
        }
        assert forall|j: int|
            0 <= j < es.len() && spec_nft_key((#[trigger] es[j]).policy_id) is Ok && stored_subnet_of(
                es[j].subnet,
            ) is Some && stored_subnet_of(es[j].subnet)->0.family == f implies raw.contains(
            (stored_subnet_of(es[j].subnet)->0, spec_nft_key(es[j].policy_id)->Ok_0, es[j].priority),
        ) by {
            let w = (stored_subnet_of(es[j].subnet)->0, spec_nft_key(es[j].policy_id)->Ok_0, es[j].priority);
            if j < pre.len() {
                assert(pre[j] == es[j]);
                assert(rest.contains(w));
                let t = choose|t: int| 0 <= t < rest.len() && rest[t] == w;
                assert(raw[t] == rest[t]);
            } else {
                assert(raw[raw.len() - 1] == w);
            }
        }
    }
}

/// The strongest priority wins: when one entry's subnet holds an address and
/// every other keyed entry whose subnet of the family holds it has a lower
/// priority, the resolved entries hold the address and steer it to that
/// entry's policy key, however long or short the other subnets' prefixes.
pub proof fn lemma_higher_priority_wins(
    entries: Seq<SyncEntryView>,
    f: IpFamily,
    r: Seq<(IpNetwork, u32)>,
    i: int,
    x: int,
)
    requires
        steers(raw_subnets_of(entries, f), f, r),
        0 <= i < entries.len(),
        0 <= x <= family_max(f),
        spec_nft_key(entries[i].policy_id) is Ok,
        stored_subnet_of(entries[i].subnet) is Some,
        stored_subnet_of(entries[i].subnet)->0.family == f,
        stored_subnet_of(entries[i].subnet)->0.contains(x),
        forall|j: int|
            0 <= j < entries.len() && j != i && spec_nft_key((#[trigger] entries[j]).policy_id) is Ok
                && stored_subnet_of(entries[j].subnet) is Some && stored_subnet_of(entries[j].subnet)->0.family
                == f && stored_subnet_of(entries[j].subnet)->0.contains(x) ==> entries[j].priority
                < entries[i].priority,
    ensures
        exists|k: int| entry_holds(r, k, x),
        forall|k: int| #[trigger] entry_holds(r, k, x) ==> r[k].1 == spec_nft_key(entries[i].policy_id)->Ok_0,
{
    let subs = raw_subnets_of(entries, f);
    lemma_raw_subnets_members(entries, f);
    let w = (
        stored_subnet_of(entries[i].subnet)->0,
        spec_nft_key(entries[i].policy_id)->Ok_0,
        entries[i].priority,
    );
    assert(subs.contains(w));
    let t0 = choose|t: int| 0 <= t < subs.len() && subs[t] == w;
    assert(covers(subs[t0], x));
    assert(covered(subs, x));
    assert forall|k: int| #[trigger] entry_holds(r, k, x) implies r[k].1 == spec_nft_key(
        entries[i].policy_id,
    )->Ok_0 by {
        let i2 = choose|i2: int| is_top(subs, x, i2) && #[trigger] subs[i2].1 == r[k].1;
        assert(covers(subs[t0], x));
        assert(entries[i].priority <= subs[i2].2);
        let j = choose|j: int|
            0 <= j < entries.len() && spec_nft_key((#[trigger] entries[j]).policy_id) == Ok::<u32, crate::policy::PolicyKeyError>(
                subs[i2].1,
            ) && stored_subnet_of(entries[j].subnet) == Some(subs[i2].0) && subs[i2].0.family == f
                && subs[i2].2 == entries[j].priority;
        if j != i {
            assert(covers(subs[i2], x));
            assert(entries[j].priority < entries[i].priority);
        }
    }
}

/// Whether `r` is a resolution of the subnets: the disjoint intervals of
/// addresses, each steered to the mark of the strongest subnet holding it,
/// written as networks.
pub open spec fn is_resolution(subs: Seq<WeightedSubnet>, f: IpFamily, r: Seq<(IpNetwork, u32)>) -> bool {
    exists|ivs: Seq<MarkedInterval>|
        #![trigger resolution_of(f, ivs)]
        sorted_disjoint(ivs, family_max(f)) && resolves(subs, ivs, family_max(f)) && elementary(
            subs,
            ivs,
            family_max(f),
        ) && r == resolution_of(f, ivs)
}

/// What a subnet sync installs.
pub struct SubnetSyncPlan {
    /// The IPv4 subnet map: networks and policy keys.
    pub v4: Vec<(IpNetwork, u32)>,
    /// The IPv6 subnet map: networks and policy keys.
    pub v6: Vec<(IpNetwork, u32)>,
    /// The policy marks: policy key to mark.
    pub policy_marks: HashMap<u32, u32>,
}

/// What to install for the subnet entries: entries whose policy has no key
/// are left out; the subnets that read as networks are resolved by priority,
/// per family; every entry with a key sets its policy's mark.
pub fn plan_subnet_sync(entries: &Vec<SyncEntry>) -> (r: SubnetSyncPlan)
    ensures
        is_resolution(raw_subnets_of(entry_views(entries@), IpFamily::V4), IpFamily::V4, r.v4@),
        is_resolution(raw_subnets_of(entry_views(entries@), IpFamily::V6), IpFamily::V6, r.v6@),
        steers(raw_subnets_of(entry_views(entries@), IpFamily::V4), IpFamily::V4, r.v4@),
        steers(raw_subnets_of(entry_views(entries@), IpFamily::V6), IpFamily::V6, r.v6@),
        r.policy_marks@ == policy_marks_of(entry_views(entries@)),
{
    broadcast use vstd::std_specs::hash::group_hash_axioms;

    let ghost es = entry_views(entries@);
    let mut v4_raw: Vec<WeightedSubnet> = Vec::new();
    let mut v6_raw: Vec<WeightedSubnet> = Vec::new();
    let mut marks: HashMap<u32, u32> = HashMap::new();
    let mut k: usize = 0;
    while k < entries.len()
        invariant
            k <= entries.len(),
            es == entry_views(entries@),
            v4_raw@ == raw_subnets_of(es.take(k as int), IpFamily::V4),
            v6_raw@ == raw_subnets_of(es.take(k as int), IpFamily::V6),
            subnets_wf(v4_raw@, IpFamily::V4),
            subnets_wf(v6_raw@, IpFamily::V6),
            marks@ == policy_marks_of(es.take(k as int)),
        decreases entries.len() - k,
    {
        let e = &entries[k];
        proof {
            assert(es.take(k + 1).drop_last() =~= es.take(k as int));
            assert(es.take(k + 1).last() == e@);
        }
        match e.policy_id.nft_key() {
            Ok(key) => {
                marks.insert(key, e.fwmark);
                match parse_stored_subnet(e.subnet.as_str()) {
                    Some(n) => {
                        match n.family {
                            IpFamily::V4 => {
                                let ghost before = v4_raw@;
                                v4_raw.push((n, key, e.priority));
                                assert(subnets_wf(v4_raw@, IpFamily::V4)) by {
                                    assert forall|i: int| 0 <= i < v4_raw@.len() implies (#[trigger] v4_raw@[i]).0.family
                                        == IpFamily::V4 && v4_raw@[i].0.wf() by {
                                        if i < before.len() {
                                            assert(v4_raw@[i] == before[i]);
                                        }
                                    }
                                }
                            },
                            IpFamily::V6 => {
                                let ghost before = v6_raw@;
                                v6_raw.push((n, key, e.priority));
                                assert(subnets_wf(v6_raw@, IpFamily::V6)) by {
                                    assert forall|i: int| 0 <= i < v6_raw@.len() implies (#[trigger] v6_raw@[i]).0.family
                                        == IpFamily::V6 && v6_raw@[i].0.wf() by {
                                        if i < before.len() {
                                            assert(v6_raw@[i] == before[i]);
                                        }
                                    }
                                }
                            },
                        }
                    },
                    None => {},
                }
            },
            Err(_) => {},
        }
        k = k + 1;
    }
    proof {
        assert(es.take(entries.len() as int) =~= es);
    }
    let v4 = resolve_subnets(v4_raw, IpFamily::V4);
    let v6 = resolve_subnets(v6_raw, IpFamily::V6);
    SubnetSyncPlan { v4, v6, policy_marks: marks }
}

/// The mark of the interface that carries traffic for an interface name.
fn mark_for(
    config: &Config,
    health_status: &InterfaceHealthRegistry,
    interface: &Option<String>,
    now_ms: i64,
) -> (r: u32)
    requires
        config.interfaces.len() > 0,
    ensures
        r == config@.interfaces[effective_index(
            config@,
            opt_str(*interface),
            health_status@,
            now_ms,
        )].fwmark,
{
    let name: Option<&str> = match interface {
        Some(n) => Some(n.as_str()),
        None => None,
    };
    resolve_effective_interface_at(config, name, health_status, now_ms).fwmark
}

/// The policy marks of stored domain rules, then of stored domain lists:
/// each with an id maps to the mark of its effective interface.
pub open spec fn domain_policy_marks_of(
    c: ConfigView,
    reg: Seq<HealthView>,
    now_ms: i64,
    rules: Seq<DomainRule>,
    lists: Seq<DomainList>,
) -> Seq<(PolicyId, u32)> {
    rules.filter(|r: DomainRule| r.id is Some).map_values(
        |r: DomainRule|
            (
                PolicyId::DomainRule(r.id->0),
                c.interfaces[effective_index(c, opt_str(r.interface), reg, now_ms)].fwmark,
            ),
    ) + lists.filter(|l: DomainList| l.id is Some).map_values(
        |l: DomainList|
            (
                PolicyId::DomainList(l.id->0),
                c.interfaces[effective_index(c, opt_str(l.interface), reg, now_ms)].fwmark,
            ),
    )
}

/// The policy marks of the stored domain rules and lists (see
/// [`domain_policy_marks_of`]).
pub fn domain_policy_marks_at(
    config: &Config,
    health_status: &InterfaceHealthRegistry,
    rules: &Vec<DomainRule>,
    lists: &Vec<DomainList>,
    now_ms: i64,
) -> (r: Vec<(PolicyId, u32)>)
    requires
        config.interfaces.len() > 0,
    ensures
        r@ == domain_policy_marks_of(config@, health_status@, now_ms, rules@, lists@),
{
    let ghost c = config@;
    let ghost reg = health_status@;
    let ghost fr = |r: DomainRule|
        (
            PolicyId::DomainRule(r.id->0),
            c.interfaces[effective_index(c, opt_str(r.interface), reg, now_ms)].fwmark,
        );
    let ghost fl = |l: DomainList|
        (
            PolicyId::DomainList(l.id->0),
            c.interfaces[effective_index(c, opt_str(l.interface), reg, now_ms)].fwmark,
        );
    let ghost pr = |r: DomainRule| r.id is Some;
    let ghost pl = |l: DomainList| l.id is Some;
    let mut out: Vec<(PolicyId, u32)> = Vec::new();
    let mut k: usize = 0;
    while k < rules.len()
        invariant
            k <= rules.len(),
            config.interfaces.len() > 0,
            c == config@,
            reg == health_status@,
            pr == (|r: DomainRule| r.id is Some),
            fr == (|r: DomainRule|
                (
                    PolicyId::DomainRule(r.id->0),
                    c.interfaces[effective_index(c, opt_str(r.interface), reg, now_ms)].fwmark,
                )),
            out@ == rules@.take(k as int).filter(pr).map_values(fr),
        decreases rules.len() - k,
    {
        let rule = &rules[k];
        proof {
            rules@.take(k as int).lemma_filter_push(*rule, pr);
            assert(rules@.take(k + 1) =~= rules@.take(k as int).push(*rule));
        }
        if let Some(id) = rule.id {
            let m = mark_for(config, health_status, &rule.interface, now_ms);
            out.push((PolicyId::DomainRule(id), m));
            assert(out@ =~= rules@.take(k + 1).filter(pr).map_values(fr));
        } else {
            assert(out@ =~= rules@.take(k + 1).filter(pr).map_values(fr));
        }
        k = k + 1;
    }
    assert(rules@.take(rules.len() as int) =~= rules@);
    let ghost head = out@;
    let mut k: usize = 0;
    while k < lists.len()
        invariant
            k <= lists.len(),
            config.interfaces.len() > 0,
            c == config@,
            reg == health_status@,
            pl == (|l: DomainList| l.id is Some),
            fl == (|l: DomainList|
                (
                    PolicyId::DomainList(l.id->0),
                    c.interfaces[effective_index(c, opt_str(l.interface), reg, now_ms)].fwmark,
                )),
            out@ == head + lists@.take(k as int).filter(pl).map_values(fl),
        decreases lists.len() - k,
    {
        let list = &lists[k];
        proof {
            lists@.take(k as int).lemma_filter_push(*list, pl);
            assert(lists@.take(k + 1) =~= lists@.take(k as int).push(*list));
        }
        if let Some(id) = list.id {
            let m = mark_for(config, health_status, &list.interface, now_ms);
            out.push((PolicyId::DomainList(id), m));
            assert(out@ =~= head + lists@.take(k + 1).filter(pl).map_values(fl));
        } else {
            assert(out@ =~= head + lists@.take(k + 1).filter(pl).map_values(fl));
        }
        k = k + 1;
    }
    assert(lists@.take(lists.len() as int) =~= lists@);
    out
}

/// The mark a list of policy marks gives a policy: the last entry for it.
pub open spec fn mark_in(s: Seq<(PolicyId, u32)>, p: PolicyId) -> Option<u32>
    decreases s.len(),
{
    if s.len() == 0 {
        None
    } else if s.last().0 == p {
        Some(s.last().1)
    } else {
        mark_in(s.drop_last(), p)
    }
}

/// The mark a list of policy marks gives a policy.
fn mark_in_list(s: &Vec<(PolicyId, u32)>, p: PolicyId) -> (r: Option<u32>)
    ensures
        r == mark_in(s@, p),
{
    let mut k: usize = s.len();
    assert(s@.take(k as int) =~= s@);
    while k > 0
        invariant
            k <= s.len(),
            mark_in(s@, p) == mark_in(s@.take(k as int), p),
        decreases k,
    {
        let e = s[k - 1];
        proof {
            assert(s@.take(k as int).drop_last() =~= s@.take(k - 1));
            assert(s@.take(k as int).last() == e);
        }
        if e.0 == p {
            return Some(e.1);
        }
        k = k - 1;
    }
    None
}

/// The policy marks to set: those whose mark differs from what was last set.
pub open spec fn changed_marks_of(new: Seq<(PolicyId, u32)>, last: Seq<(PolicyId, u32)>) -> Seq<(PolicyId, u32)> {
    new.filter(|e: (PolicyId, u32)| mark_in(last, e.0) != Some(e.1))
}

/// The policy marks to set (see [`changed_marks_of`]).
pub fn changed_policy_marks(new: &Vec<(PolicyId, u32)>, last: &Vec<(PolicyId, u32)>) -> (r: Vec<(PolicyId, u32)>)
    ensures
        r@ == changed_marks_of(new@, last@),
{
    let ghost pred = |e: (PolicyId, u32)| mark_in(last@, e.0) != Some(e.1);
    let mut out: Vec<(PolicyId, u32)> = Vec::new();
    let mut k: usize = 0;
    while k < new.len()
        invariant
            k <= new.len(),
            pred == (|e: (PolicyId, u32)| mark_in(last@, e.0) != Some(e.1)),
            out@ == new@.take(k as int).filter(pred),
        decreases new.len() - k,
    {
        let e = new[k];
        proof {
            new@.take(k as int).lemma_filter_push(e, pred);
            assert(new@.take(k + 1) =~= new@.take(k as int).push(e));
        }
        let current = mark_in_list(last, e.0);
        let same = match current {
            Some(m) => m == e.1,
            None => false,
        };
        if !same {
            out.push(e);
        }
        k = k + 1;
    }
    assert(new@.take(new.len() as int) =~= new@);
    out
}

/// A policy mark that is left out of the changed marks is already the mark
/// that the last round gave that policy, so setting only the changed marks
/// leaves every policy with its new mark.
pub proof fn lemma_changed_marks_complete(new: Seq<(PolicyId, u32)>, last: Seq<(PolicyId, u32)>, i: int)
    requires
        0 <= i < new.len(),
        !changed_marks_of(new, last).contains(new[i]),
    ensures
        mark_in(last, new[i].0) == Some(new[i].1),
{
    let pred = |e: (PolicyId, u32)| mark_in(last, e.0) != Some(e.1);
    if pred(new[i]) {
        new.lemma_filter_contains(pred, i);
    }
}

/// The entries to install for the stored subnets now. The time is read from
/// the clock once, so the contract holds for some instant.
pub fn sync_list(
    config: &Config,
    health_status: &InterfaceHealthRegistry,
    subnets: &Vec<StoredSubnet>,
) -> (r: Vec<SyncEntry>)
    requires
        config.interfaces.len() > 0,
    ensures
        exists|now_ms: i64|
            entry_views(r@) == #[trigger] sync_list_of(config@, health_status@, now_ms, subnets@),
{
    let now_ms = now_millis();
    sync_list_at(config, health_status, subnets, now_ms)
}

/// The policy marks of the stored domain rules and lists now. The time is
/// read from the clock once, so the contract holds for some instant.
pub fn domain_policy_marks(
    config: &Config,
    health_status: &InterfaceHealthRegistry,
    rules: &Vec<DomainRule>,
    lists: &Vec<DomainList>,
) -> (r: Vec<(PolicyId, u32)>)
    requires
        config.interfaces.len() > 0,
    ensures
        exists|now_ms: i64|
            r@ == #[trigger] domain_policy_marks_of(config@, health_status@, now_ms, rules@, lists@),
{
    let now_ms = now_millis();
    domain_policy_marks_at(config, health_status, rules, lists, now_ms)
}

/// Once a round's marks have been set, the next round with the same marks
/// sets nothing, as long as each policy appears once.
pub proof fn lemma_no_change_after_sync(new: Seq<(PolicyId, u32)>)
    requires
        forall|i: int, j: int| 0 <= i < j < new.len() ==> new[i].0 != new[j].0,
    ensures
        changed_marks_of(new, new).len() == 0,
{
    let pred = |e: (PolicyId, u32)| mark_in(new, e.0) != Some(e.1);
    assert forall|i: int| 0 <= i < new.len() implies !pred(new[i]) by {
        lemma_mark_in_unique(new, i);
    }
    new.lemma_all_neg_filter_empty(pred);
}

/// In a list where each policy appears once, the mark a policy gets is its entry's.
proof fn lemma_mark_in_unique(s: Seq<(PolicyId, u32)>, i: int)
    requires
        0 <= i < s.len(),
        forall|a: int, b: int| 0 <= a < b < s.len() ==> s[a].0 != s[b].0,
    ensures
        mark_in(s, s[i].0) == Some(s[i].1),
    decreases s.len(),
{
    if i < s.len() - 1 {
        assert(s.last() == s[s.len() - 1]);
        assert(s.drop_last()[i] == s[i]);
        lemma_mark_in_unique(s.drop_last(), i);
    }
}

} // verus!
