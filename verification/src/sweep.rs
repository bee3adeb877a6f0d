//! Resolution of overlapping prioritised subnets into disjoint routing entries.
//!
//! Each subnet carries a mark and a priority. Where subnets overlap, the one
//! with the greatest (priority, prefix length, mark) wins. The sweep below
//! turns a list of such subnets into disjoint address intervals that each
//! carry the winning mark.
use crate::net::{IpFamily, IpNetwork, family_bits, family_max, max_of, bits_of, pow2_u128, spec_network, spec_broadcast, lemma_network_bounds, lemma_pow2_128, lemma_pow2_le};
use vstd::arithmetic::div_mod::*;
use vstd::arithmetic::mul::*;
use vstd::arithmetic::power2::*;
use ipnet::{IpNet, Ipv4Net, Ipv6Net};
use vstd::prelude::*;
use vstd::seq_lib::*;

verus! {

/// A subnet with the mark it steers to and its priority.
pub type WeightedSubnet = (IpNetwork, u32, i64);

/// An inclusive address interval and the mark that covers it.
pub type MarkedInterval = (u128, u128, u32);

/// A sweep event: position, whether the subnet starts there, subnet index.
pub type SweepEvent = (u128, bool, usize);

/// The ordering key of a subnet: priority, then prefix length, then mark.
pub open spec fn sub_key(s: WeightedSubnet) -> (i64, u8, u32) {
    (s.2, s.0.prefix_len, s.1)
}

/// Lexicographic order on subnet keys.
pub open spec fn key_le(a: (i64, u8, u32), b: (i64, u8, u32)) -> bool {
    a.0 < b.0 || (a.0 == b.0 && (a.1 < b.1 || (a.1 == b.1 && a.2 <= b.2)))
}

/// Whether a subnet holds an address.
pub open spec fn covers(s: WeightedSubnet, x: int) -> bool {
    s.0.contains(x)
}

/// Whether some subnet holds an address.
pub open spec fn covered(subs: Seq<WeightedSubnet>, x: int) -> bool {
    exists|i: int| 0 <= i < subs.len() && #[trigger] covers(subs[i], x)
}

/// Subnet `i` holds `x` and no subnet holding `x` has a greater key.
pub open spec fn is_top(subs: Seq<WeightedSubnet>, x: int, i: int) -> bool {
    &&& 0 <= i < subs.len()
    &&& covers(subs[i], x)
    &&& forall|j: int|
        0 <= j < subs.len() && #[trigger] covers(subs[j], x) ==> key_le(
            sub_key(subs[j]),
            sub_key(subs[i]),
        )
}

/// Whether an interval holds an address.
pub open spec fn in_interval(iv: MarkedInterval, x: int) -> bool {
    iv.0 <= x <= iv.1
}

/// Whether some interval of a list holds an address.
pub open spec fn in_some(ivs: Seq<MarkedInterval>, x: int) -> bool {
    exists|j: int| 0 <= j < ivs.len() && #[trigger] in_interval(ivs[j], x)
}

/// Intervals are non-empty, ascending, disjoint and inside `[0, maxv]`.
pub open spec fn sorted_disjoint(ivs: Seq<MarkedInterval>, maxv: int) -> bool {
    &&& forall|j: int| 0 <= j < ivs.len() ==> ivs[j].0 <= #[trigger] ivs[j].1 <= maxv
    &&& forall|j: int, k: int| #![trigger ivs[j], ivs[k]] 0 <= j < k < ivs.len() ==> ivs[j].1 < ivs[k].0
}

/// The intervals hold exactly the covered addresses, each with the mark of a
/// top subnet at that address.
pub open spec fn resolves(subs: Seq<WeightedSubnet>, ivs: Seq<MarkedInterval>, maxv: int) -> bool {
    &&& forall|x: int| 0 <= x <= maxv ==> (in_some(ivs, x) <==> covered(subs, x))
    &&& forall|x: int, j: int|
        0 <= j < ivs.len() && #[trigger] in_interval(ivs[j], x) ==> exists|i: int|
            is_top(subs, x, i) && #[trigger] subs[i].1 == ivs[j].2
}

/// Whether an address is where some subnet starts, or just after where it ends.
pub open spec fn is_boundary(subs: Seq<WeightedSubnet>, maxv: int, x: int) -> bool {
    exists|i: int|
        0 <= i < subs.len() && (spec_network(#[trigger] subs[i].0) == x || (spec_broadcast(subs[i].0)
            < maxv && spec_broadcast(subs[i].0) + 1 == x))
}

/// An interval runs from one boundary to just before the next one (or to the
/// end of the address space), with no boundary inside.
pub open spec fn elementary_at(subs: Seq<WeightedSubnet>, iv: MarkedInterval, maxv: int) -> bool {
    &&& is_boundary(subs, maxv, iv.0 as int)
    &&& (iv.1 == maxv || is_boundary(subs, maxv, iv.1 + 1))
    &&& forall|y: int| iv.0 < y <= iv.1 ==> !#[trigger] is_boundary(subs, maxv, y)
}

/// Every interval is elementary: the sweep does not merge across boundaries.
pub open spec fn elementary(subs: Seq<WeightedSubnet>, ivs: Seq<MarkedInterval>, maxv: int) -> bool {
    forall|j: int| 0 <= j < ivs.len() ==> #[trigger] elementary_at(subs, ivs[j], maxv)
}

/// Subnets of one family, all well formed.
pub open spec fn subnets_wf(subs: Seq<WeightedSubnet>, f: IpFamily) -> bool {
    forall|i: int| 0 <= i < subs.len() ==> (#[trigger] subs[i]).0.family == f && subs[i].0.wf()
}

pub open spec fn start_event(subs: Seq<WeightedSubnet>, i: int) -> SweepEvent {
    (spec_network(subs[i].0) as u128, true, i as usize)
}

pub open spec fn end_event(subs: Seq<WeightedSubnet>, i: int) -> SweepEvent {
    ((spec_broadcast(subs[i].0) + 1) as u128, false, i as usize)
}

/// An event belongs to a subnet: its start, or the address after its end.
pub open spec fn valid_event(subs: Seq<WeightedSubnet>, maxv: int, e: SweepEvent) -> bool {
    &&& 0 <= e.2 < subs.len()
    &&& if e.1 {
        e == start_event(subs, e.2 as int)
    } else {
        spec_broadcast(subs[e.2 as int].0) < maxv && e == end_event(subs, e.2 as int)
    }
}

/// The events of a list are exactly the start and end events of the subnets.
pub open spec fn events_of(subs: Seq<WeightedSubnet>, maxv: int, ev: Seq<SweepEvent>) -> bool {
    &&& forall|j: int| 0 <= j < ev.len() ==> valid_event(subs, maxv, #[trigger] ev[j])
    &&& forall|i: int| 0 <= i < subs.len() ==> #[trigger] ev.contains(start_event(subs, i))
    &&& forall|i: int|
        0 <= i < subs.len() && spec_broadcast(subs[i].0) < maxv ==> #[trigger] ev.contains(
            end_event(subs, i),
        )
}

pub open spec fn events_sorted(ev: Seq<SweepEvent>) -> bool {
    forall|a: int, b: int| #![trigger ev[a], ev[b]] 0 <= a < b < ev.len() ==> ev[a].0 <= ev[b].0
}

/// Sorts sweep events in place.
///
/// Calls `<[T]>::sort` on tuples, whose order compares the first component
/// first: the result is a permutation of the input, ascending by position.
#[verifier::external_body]
fn sort_events(v: &mut Vec<SweepEvent>)
    ensures
        final(v)@.to_multiset() == old(v)@.to_multiset(),
        events_sorted(final(v)@),
{
    v.sort();
}

/// Pushing onto a sequence keeps what it contained.
pub proof fn lemma_push_keeps<A>(s: Seq<A>, x: A, y: A)
    requires
        s.contains(y),
    ensures
        s.push(x).contains(y),
{
    let w = choose|w: int| 0 <= w < s.len() && s[w] == y;
    assert(s.push(x)[w] == y);
}

/// Builds the start and end events of all subnets, in subnet order.
fn build_events(subs: &Vec<WeightedSubnet>, f: IpFamily) -> (ev: Vec<SweepEvent>)
    requires
        subnets_wf(subs@, f),
    ensures
        events_of(subs@, family_max(f), ev@),
{
    let maxv = max_of(f);
    let mut ev: Vec<SweepEvent> = Vec::new();
    let n = subs.len();
    for i in 0..n
        invariant
            n == subs@.len(),
            maxv == family_max(f),
            subnets_wf(subs@, f),
            forall|j: int| 0 <= j < ev@.len() ==> valid_event(subs@, maxv as int, #[trigger] ev@[j]),
            forall|a: int| 0 <= a < i ==> #[trigger] ev@.contains(start_event(subs@, a)),
            forall|a: int|
                0 <= a < i && spec_broadcast(subs@[a].0) < maxv ==> #[trigger] ev@.contains(
                    end_event(subs@, a),
                ),
    {
        let net = subs[i].0;
        proof {
            lemma_network_bounds(net);
        }
        let lo = net.network();
        let hi = net.broadcast();
        let ghost before = ev@;
        ev.push((lo, true, i));
        proof {
            assert(ev@[ev@.len() - 1] == start_event(subs@, i as int));
            assert forall|a: int| 0 <= a < i implies #[trigger] ev@.contains(start_event(subs@, a)) by {
                lemma_push_keeps(before, (lo, true, i), start_event(subs@, a));
            }
            assert forall|a: int|
                0 <= a < i && spec_broadcast(subs@[a].0) < maxv implies #[trigger] ev@.contains(
                end_event(subs@, a),
            ) by {
                lemma_push_keeps(before, (lo, true, i), end_event(subs@, a));
            }
        }
        if hi < maxv {
            let ghost before2 = ev@;
            ev.push((hi + 1, false, i));
            proof {
                assert(ev@[ev@.len() - 1] == end_event(subs@, i as int));
                assert forall|a: int| 0 <= a <= i implies #[trigger] ev@.contains(
                    start_event(subs@, a),
                ) by {
                    lemma_push_keeps(before2, ((hi + 1) as u128, false, i), start_event(subs@, a));
                }
                assert forall|a: int|
                    0 <= a < i && spec_broadcast(subs@[a].0) < maxv implies #[trigger] ev@.contains(
                    end_event(subs@, a),
                ) by {
                    lemma_push_keeps(before2, ((hi + 1) as u128, false, i), end_event(subs@, a));
                }
            }
        }
    }
    ev
}

/// Whether the key of subnet `a` is at most the key of subnet `b`.
fn key_leq(a: &WeightedSubnet, b: &WeightedSubnet) -> (r: bool)
    ensures
        r == key_le(sub_key(*a), sub_key(*b)),
{
    a.2 < b.2 || (a.2 == b.2 && (a.0.prefix_len < b.0.prefix_len || (a.0.prefix_len
        == b.0.prefix_len && a.1 <= b.1)))
}

/// The index, among `active`, of a subnet with the greatest key.
fn top_of(subs: &Vec<WeightedSubnet>, active: &Vec<usize>) -> (t: usize)
    requires
        active@.len() > 0,
        forall|a: int| 0 <= a < active@.len() ==> #[trigger] active@[a] < subs@.len(),
    ensures
        active@.contains(t),
        forall|a: int|
            0 <= a < active@.len() ==> key_le(sub_key(subs@[#[trigger] active@[a] as int]), sub_key(subs@[t as int])),
{
    let mut t = active[0];
    let mut j: usize = 1;
    while j < active.len()
        invariant
            1 <= j <= active@.len(),
            forall|a: int| 0 <= a < active@.len() ==> #[trigger] active@[a] < subs@.len(),
            active@.contains(t),
            forall|a: int|
                0 <= a < j ==> key_le(sub_key(subs@[#[trigger] active@[a] as int]), sub_key(subs@[t as int])),
        decreases active@.len() - j,
    {
        let c = active[j];
        if key_leq(&subs[t], &subs[c]) {
            t = c;
        }
        j = j + 1;
    }
    t
}

/// Copies `v` without any occurrence of `x`.
fn remove_all(v: &Vec<usize>, x: usize) -> (r: Vec<usize>)
    ensures
        forall|y: usize| r@.contains(y) <==> (v@.contains(y) && y != x),
{
    let mut r: Vec<usize> = Vec::new();
    for j in 0..v.len()
        invariant
            forall|y: usize| r@.contains(y) <==> (exists|a: int| 0 <= a < j && v@[a] == y && y != x),
    {
        let ghost before = r@;
        if v[j] != x {
            r.push(v[j]);
            proof {
                assert forall|y: usize| r@.contains(y) <==> (exists|a: int| 0 <= a < j + 1 && v@[a] == y && y != x) by {
                    if r@.contains(y) {
                        let w = choose|w: int| 0 <= w < r@.len() && r@[w] == y;
                        if w < before.len() {
                            assert(before[w] == y);
                            assert(before.contains(y));
                        } else {
                            assert(v@[j as int] == y);
                        }
                    }
                    if exists|a: int| 0 <= a < j + 1 && v@[a] == y && y != x {
                        let a = choose|a: int| 0 <= a < j + 1 && v@[a] == y && y != x;
                        if a < j {
                            assert(before.contains(y));
                            lemma_push_keeps(before, v@[j as int], y);
                        } else {
                            assert(r@[r@.len() - 1] == y);
                        }
                    }
                }
            }
        } else {
            proof {
                assert forall|y: usize| r@.contains(y) <==> (exists|a: int| 0 <= a < j + 1 && v@[a] == y && y != x) by {
                    if exists|a: int| 0 <= a < j + 1 && v@[a] == y && y != x {
                        let a = choose|a: int| 0 <= a < j + 1 && v@[a] == y && y != x;
                        assert(a < j);
                    }
                }
            }
        }
    }
    proof {
        assert forall|y: usize| r@.contains(y) <==> (v@.contains(y) && y != x) by {
            if v@.contains(y) && y != x {
                let a = choose|a: int| 0 <= a < v@.len() && v@[a] == y;
                assert(0 <= a < v@.len() && v@[a] == y && y != x);
            }
        }
    }
    r
}

/// Whether an event of `ev[lo..hi)` starts subnet `i`.
pub open spec fn starts_in(ev: Seq<SweepEvent>, lo: int, hi: int, i: int) -> bool {
    exists|j: int| lo <= j < hi && #[trigger] ev[j].1 && ev[j].2 == i
}

/// Whether an event of `ev[lo..hi)` ends subnet `i`.
pub open spec fn ends_in(ev: Seq<SweepEvent>, lo: int, hi: int, i: int) -> bool {
    exists|j: int| lo <= j < hi && !#[trigger] ev[j].1 && ev[j].2 == i
}

/// Extending an event range by one event adds that event's start or end.
proof fn lemma_extend_group(ev: Seq<SweepEvent>, k: int, k2: int, i: int)
    requires
        0 <= k <= k2 < ev.len(),
    ensures
        starts_in(ev, k, k2 + 1, i) == (starts_in(ev, k, k2, i) || (ev[k2].1 && ev[k2].2 == i)),
        ends_in(ev, k, k2 + 1, i) == (ends_in(ev, k, k2, i) || (!ev[k2].1 && ev[k2].2 == i)),
{
    if starts_in(ev, k, k2 + 1, i) {
        let j = choose|j: int| k <= j < k2 + 1 && #[trigger] ev[j].1 && ev[j].2 == i;
        if j < k2 {
            assert(starts_in(ev, k, k2, i));
        }
    }
    if starts_in(ev, k, k2, i) {
        let j = choose|j: int| k <= j < k2 && #[trigger] ev[j].1 && ev[j].2 == i;
        assert(k <= j < k2 + 1 && ev[j].1 && ev[j].2 == i);
    }
    if ev[k2].1 && ev[k2].2 == i {
        assert(starts_in(ev, k, k2 + 1, i));
    }
    if ends_in(ev, k, k2 + 1, i) {
        let j = choose|j: int| k <= j < k2 + 1 && !#[trigger] ev[j].1 && ev[j].2 == i;
        if j < k2 {
            assert(ends_in(ev, k, k2, i));
        }
    }
    if ends_in(ev, k, k2, i) {
        let j = choose|j: int| k <= j < k2 && !#[trigger] ev[j].1 && ev[j].2 == i;
        assert(k <= j < k2 + 1 && !ev[j].1 && ev[j].2 == i);
    }
    if !ev[k2].1 && ev[k2].2 == i {
        assert(ends_in(ev, k, k2 + 1, i));
    }
}

/// Applies all events at position `ev[k].0`, which start at index `k`.
fn apply_group(ev: &Vec<SweepEvent>, k: usize, active: Vec<usize>, n: usize) -> (res: (usize, Vec<usize>))
    requires
        k < ev@.len(),
        forall|j: int| 0 <= j < ev@.len() ==> (#[trigger] ev@[j]).2 < n,
        forall|a: int| 0 <= a < active@.len() ==> #[trigger] active@[a] < n,
        forall|j1: int, j2: int|
            #![trigger ev@[j1], ev@[j2]]
            0 <= j1 < ev@.len() && 0 <= j2 < ev@.len() && ev@[j1].2 == ev@[j2].2 && ev@[j1].1
                && !ev@[j2].1 ==> ev@[j1].0 < ev@[j2].0,
    ensures
        k < res.0 <= ev@.len(),
        forall|j: int| k <= j < res.0 ==> (#[trigger] ev@[j]).0 == ev@[k as int].0,
        res.0 < ev@.len() ==> ev@[res.0 as int].0 != ev@[k as int].0,
        forall|a: int| 0 <= a < res.1@.len() ==> #[trigger] res.1@[a] < n,
        forall|i: usize|
            res.1@.contains(i) <==> ((active@.contains(i) && !ends_in(ev@, k as int, res.0 as int, i as int))
                || starts_in(ev@, k as int, res.0 as int, i as int)),
{
    let q = ev[k].0;
    let mut active = active;
    let ghost old_active = active@;
    let mut k2 = k;
    while k2 < ev.len() && ev[k2].0 == q
        invariant
            k <= k2 <= ev@.len(),
            q == ev@[k as int].0,
            forall|j: int| k <= j < k2 ==> (#[trigger] ev@[j]).0 == q,
            forall|j: int| 0 <= j < ev@.len() ==> (#[trigger] ev@[j]).2 < n,
            forall|a: int| 0 <= a < active@.len() ==> #[trigger] active@[a] < n,
            forall|j1: int, j2: int|
                #![trigger ev@[j1], ev@[j2]]
                0 <= j1 < ev@.len() && 0 <= j2 < ev@.len() && ev@[j1].2 == ev@[j2].2 && ev@[j1].1
                    && !ev@[j2].1 ==> ev@[j1].0 < ev@[j2].0,
            forall|i: usize|
                active@.contains(i) <==> ((old_active.contains(i) && !ends_in(ev@, k as int, k2 as int, i as int))
                    || starts_in(ev@, k as int, k2 as int, i as int)),
        decreases ev@.len() - k2,
    {
        let e = ev[k2];
        let ghost before = active@;
        if e.1 {
            active.push(e.2);
            proof {
                assert forall|i: usize|
                    active@.contains(i) <==> ((old_active.contains(i) && !ends_in(ev@, k as int, k2 + 1, i as int))
                        || starts_in(ev@, k as int, k2 + 1, i as int)) by {
                    lemma_extend_group(ev@, k as int, k2 as int, i as int);
                    assert(before.contains(i) <==> ((old_active.contains(i) && !ends_in(ev@, k as int, k2 as int, i as int)) || starts_in(ev@, k as int, k2 as int, i as int)));
                    assert(e == ev@[k2 as int]);
                    if i != e.2 {
                        if before.contains(i) {
                            lemma_push_keeps(before, e.2, i);
                        }
                        if active@.contains(i) {
                            let w = choose|w: int| 0 <= w < active@.len() && active@[w] == i;
                            assert(before[w] == i);
                        }
                    } else {
                        assert(active@[active@.len() - 1] == i);
                    }
                }
                assert forall|a: int| 0 <= a < active@.len() implies #[trigger] active@[a] < n by {
                    if a < before.len() {
                        assert(active@[a] == before[a]);
                    }
                }
            }
        } else {
            active = remove_all(&active, e.2);
            proof {
                assert forall|i: usize|
                    active@.contains(i) <==> ((old_active.contains(i) && !ends_in(ev@, k as int, k2 + 1, i as int))
                        || starts_in(ev@, k as int, k2 + 1, i as int)) by {
                    lemma_extend_group(ev@, k as int, k2 as int, i as int);
                    assert(before.contains(i) <==> ((old_active.contains(i) && !ends_in(ev@, k as int, k2 as int, i as int)) || starts_in(ev@, k as int, k2 as int, i as int)));
                    assert(e == ev@[k2 as int]);
                    if i == e.2 {
                        if starts_in(ev@, k as int, k2 as int, i as int) {
                            let j = choose|j: int| k <= j < k2 && #[trigger] ev@[j].1 && ev@[j].2 == i;
                            assert(ev@[j].0 < ev@[k2 as int].0);
                            assert(ev@[j].0 == q);
                        }
                    }
                }
                assert forall|a: int| 0 <= a < active@.len() implies #[trigger] active@[a] < n by {
                    assert(active@.contains(active@[a]));
                    assert(before.contains(active@[a]));
                }
            }
        }
        k2 = k2 + 1;
    }
    (k2, active)
}

/// Every family's largest address fits a u128.
pub proof fn lemma_family_max(f: IpFamily)
    ensures
        0 < family_max(f) <= u128::MAX,
{
    lemma_pow2_128();
    lemma_pow2_le(family_bits(f), 128);
    lemma_pow2_le(1, family_bits(f));
    vstd::arithmetic::power2::lemma2_to64();
}

/// Between event positions, the subnets that hold an address do not change.
proof fn lemma_cover_constant(
    subs: Seq<WeightedSubnet>,
    f: IpFamily,
    ev: Seq<SweepEvent>,
    k: int,
    prev: int,
    bound: int,
    x: int,
    i: int,
)
    requires
        subnets_wf(subs, f),
        events_of(subs, family_max(f), ev),
        0 <= k <= ev.len(),
        forall|j: int| 0 <= j < k ==> #[trigger] ev[j].0 <= prev,
        forall|j: int| k <= j < ev.len() ==> #[trigger] ev[j].0 >= bound,
        prev <= x < bound,
        x <= family_max(f),
        0 <= i < subs.len(),
    ensures
        covers(subs[i], x) <==> covers(subs[i], prev),
{
    lemma_family_max(f);
    assert(subs[i].0.family == f && subs[i].0.wf());
    lemma_network_bounds(subs[i].0);
    let s = start_event(subs, i);
    assert(ev.contains(s));
    let w = choose|w: int| 0 <= w < ev.len() && ev[w] == s;
    assert(ev[w].0 == spec_network(subs[i].0));
    if spec_broadcast(subs[i].0) < family_max(f) {
        let e = end_event(subs, i);
        assert(ev.contains(e));
        let w2 = choose|w2: int| 0 <= w2 < ev.len() && ev[w2] == e;
        assert(ev[w2].0 == spec_broadcast(subs[i].0) + 1);
    }
}

/// The position of an event is a boundary.
proof fn lemma_event_is_boundary(subs: Seq<WeightedSubnet>, f: IpFamily, ev: Seq<SweepEvent>, j: int)
    requires
        subnets_wf(subs, f),
        events_of(subs, family_max(f), ev),
        0 <= j < ev.len(),
    ensures
        is_boundary(subs, family_max(f), ev[j].0 as int),
{
    lemma_family_max(f);
    assert(valid_event(subs, family_max(f), ev[j]));
    let i = ev[j].2 as int;
    assert(subs[i].0.family == f && subs[i].0.wf());
    lemma_network_bounds(subs[i].0);
    if ev[j].1 {
        assert(spec_network(subs[i].0) == ev[j].0);
    } else {
        assert(spec_broadcast(subs[i].0) + 1 == ev[j].0);
    }
}

/// Every boundary is the position of some event.
proof fn lemma_boundary_is_event(subs: Seq<WeightedSubnet>, f: IpFamily, ev: Seq<SweepEvent>, y: int) -> (j: int)
    requires
        subnets_wf(subs, f),
        events_of(subs, family_max(f), ev),
        is_boundary(subs, family_max(f), y),
    ensures
        0 <= j < ev.len(),
        ev[j].0 == y,
{
    lemma_family_max(f);
    let i = choose|i: int|
        0 <= i < subs.len() && (spec_network(#[trigger] subs[i].0) == y || (spec_broadcast(subs[i].0)
            < family_max(f) && spec_broadcast(subs[i].0) + 1 == y));
    assert(subs[i].0.family == f && subs[i].0.wf());
    lemma_network_bounds(subs[i].0);
    if spec_network(subs[i].0) == y {
        assert(ev.contains(start_event(subs, i)));
        choose|j: int| 0 <= j < ev.len() && ev[j] == start_event(subs, i)
    } else {
        assert(ev.contains(end_event(subs, i)));
        choose|j: int| 0 <= j < ev.len() && ev[j] == end_event(subs, i)
    }
}

/// Turns prioritised subnets of one family into disjoint, ascending intervals
/// that hold exactly the covered addresses, each with the mark of a winning
/// subnet: the one with the greatest (priority, prefix length, mark).
#[verifier::spinoff_prover]
pub fn sweep_intervals(subs: &Vec<WeightedSubnet>, f: IpFamily) -> (out: Vec<MarkedInterval>)
    requires
        subnets_wf(subs@, f),
    ensures
        sorted_disjoint(out@, family_max(f)),
        resolves(subs@, out@, family_max(f)),
        elementary(subs@, out@, family_max(f)),
{
    let maxv = max_of(f);
    proof {
        lemma_family_max(f);
    }
    let n = subs.len();
    let mut out: Vec<MarkedInterval> = Vec::new();
    if n == 0 {
        return out;
    }
    let mut ev = build_events(subs, f);
    let ghost ev0 = ev@;
    sort_events(&mut ev);
    proof {
        ev0.to_multiset_ensures();
        ev@.to_multiset_ensures();
        assert forall|j: int| 0 <= j < ev@.len() implies valid_event(subs@, maxv as int, #[trigger] ev@[j]) by {
            assert(ev@.contains(ev@[j]));
            assert(ev@.to_multiset().count(ev@[j]) > 0);
            assert(ev0.to_multiset().count(ev@[j]) > 0);
            assert(ev0.contains(ev@[j]));
        }
        assert forall|i: int| 0 <= i < subs@.len() implies #[trigger] ev@.contains(start_event(subs@, i)) by {
            assert(ev0.contains(start_event(subs@, i)));
            assert(ev0.to_multiset().count(start_event(subs@, i)) > 0);
            assert(ev@.to_multiset().count(start_event(subs@, i)) > 0);
        }
        assert forall|i: int|
            0 <= i < subs@.len() && spec_broadcast(subs@[i].0) < maxv implies #[trigger] ev@.contains(
            end_event(subs@, i),
        ) by {
            assert(ev0.contains(end_event(subs@, i)));
            assert(ev0.to_multiset().count(end_event(subs@, i)) > 0);
            assert(ev@.to_multiset().count(end_event(subs@, i)) > 0);
        }
        assert(ev@.contains(start_event(subs@, 0)));
    }
    let len = ev.len();
    proof {
        assert forall|j1: int, j2: int|
            #![trigger ev@[j1], ev@[j2]]
            0 <= j1 < ev@.len() && 0 <= j2 < ev@.len() && ev@[j1].2 == ev@[j2].2 && ev@[j1].1
                && !ev@[j2].1 implies ev@[j1].0 < ev@[j2].0 by {
            assert(valid_event(subs@, maxv as int, ev@[j1]));
            assert(valid_event(subs@, maxv as int, ev@[j2]));
            let i = ev@[j1].2 as int;
            assert(subs@[i].0.family == f && subs@[i].0.wf());
            lemma_network_bounds(subs@[i].0);
        }
        assert forall|j: int| 0 <= j < ev@.len() implies (#[trigger] ev@[j]).2 < n && ev@[j].0 <= maxv by {
            assert(valid_event(subs@, maxv as int, ev@[j]));
            let i = ev@[j].2 as int;
            assert(subs@[i].0.family == f && subs@[i].0.wf());
            lemma_network_bounds(subs@[i].0);
        }
    }
    let mut active: Vec<usize> = Vec::new();
    let mut k: usize = 0;
    let mut prev: u128 = ev[0].0;
    proof {
        assert forall|x: int| 0 <= x < prev implies !covered(subs@, x) by {
            if covered(subs@, x) {
                let i = choose|i: int| 0 <= i < subs@.len() && #[trigger] covers(subs@[i], x);
                assert(ev@.contains(start_event(subs@, i)));
                let w = choose|w: int| 0 <= w < ev@.len() && ev@[w] == start_event(subs@, i);
                assert(ev@[0].0 <= ev@[w].0);
                assert(subs@[i].0.family == f && subs@[i].0.wf());
                lemma_network_bounds(subs@[i].0);
            }
        }
    }
    while k < len
        invariant
            n == subs@.len(),
            n > 0,
            len == ev@.len(),
            len > 0,
            maxv == family_max(f),
            maxv <= u128::MAX,
            subnets_wf(subs@, f),
            events_of(subs@, maxv as int, ev@),
            events_sorted(ev@),
            forall|j: int| 0 <= j < ev@.len() ==> (#[trigger] ev@[j]).2 < n && ev@[j].0 <= maxv,
            forall|j1: int, j2: int|
                #![trigger ev@[j1], ev@[j2]]
                0 <= j1 < ev@.len() && 0 <= j2 < ev@.len() && ev@[j1].2 == ev@[j2].2 && ev@[j1].1
                    && !ev@[j2].1 ==> ev@[j1].0 < ev@[j2].0,
            0 <= k <= len,
            k == 0 ==> active@.len() == 0 && prev == ev@[0].0,
            k > 0 ==> ev@[k - 1].0 == prev,
            forall|j: int| 0 <= j < k ==> #[trigger] ev@[j].0 <= prev,
            forall|j: int| k <= j < len ==> #[trigger] ev@[j].0 >= prev,
            k > 0 ==> forall|j: int| k <= j < len ==> #[trigger] ev@[j].0 > prev,
            forall|a: int| 0 <= a < active@.len() ==> #[trigger] active@[a] < n,
            k > 0 ==> forall|i: int|
                0 <= i < n ==> (active@.contains(i as usize) <==> #[trigger] covers(subs@[i], prev as int)),
            sorted_disjoint(out@, maxv as int),
            elementary(subs@, out@, maxv as int),
            forall|j: int| 0 <= j < out@.len() ==> (#[trigger] out@[j]).1 < prev,
            forall|x: int| 0 <= x < prev ==> (in_some(out@, x) <==> covered(subs@, x)),
            forall|x: int, j: int|
                0 <= j < out@.len() && #[trigger] in_interval(out@[j], x) ==> exists|i: int|
                    is_top(subs@, x, i) && #[trigger] subs@[i].1 == out@[j].2,
        decreases len - k,
    {
        let q = ev[k].0;
        if active.len() > 0 {
            let t = top_of(subs, &active);
            let mark = subs[t].1;
            let ghost before = out@;
            proof {
                assert(k > 0);
                assert(covers(subs@[t as int], prev as int));
                assert forall|x: int| prev <= x < q implies is_top(subs@, x, t as int) by {
                    assert forall|i: int| 0 <= i < n implies (covers(subs@[i], x) <==> covers(subs@[i], prev as int)) by {
                        lemma_cover_constant(subs@, f, ev@, k as int, prev as int, q as int, x, i);
                    }
                    assert forall|j: int| 0 <= j < subs@.len() && #[trigger] covers(subs@[j], x) implies key_le(
                        sub_key(subs@[j]),
                        sub_key(subs@[t as int]),
                    ) by {
                        assert(covers(subs@[j], prev as int));
                        assert(active@.contains(j as usize));
                        let a = choose|a: int| 0 <= a < active@.len() && active@[a] == j as usize;
                        assert(key_le(sub_key(subs@[active@[a] as int]), sub_key(subs@[t as int])));
                    }
                }
            }
            out.push((prev, q - 1, mark));
            proof {
                let last = out@.len() - 1;
                lemma_event_is_boundary(subs@, f, ev@, k as int - 1);
                lemma_event_is_boundary(subs@, f, ev@, k as int);
                assert forall|y: int| prev < y <= q - 1 implies !#[trigger] is_boundary(subs@, maxv as int, y) by {
                    if is_boundary(subs@, maxv as int, y) {
                        let j = lemma_boundary_is_event(subs@, f, ev@, y);
                        if j < k {
                        } else {
                            assert(ev@[j].0 >= ev@[k as int].0);
                        }
                    }
                }
                assert forall|j: int| 0 <= j < out@.len() implies #[trigger] elementary_at(subs@, out@[j], maxv as int) by {
                    if j < last {
                        assert(out@[j] == before[j]);
                    }
                }
                assert forall|x: int| 0 <= x < q implies (in_some(out@, x) <==> covered(subs@, x)) by {
                    if x < prev {
                        if in_some(out@, x) {
                            let j = choose|j: int| 0 <= j < out@.len() && #[trigger] in_interval(out@[j], x);
                            if j < last {
                                assert(in_interval(before[j], x));
                            }
                        }
                        if in_some(before, x) {
                            let j = choose|j: int| 0 <= j < before.len() && #[trigger] in_interval(before[j], x);
                            assert(in_interval(out@[j], x));
                        }
                    } else {
                        assert(is_top(subs@, x, t as int));
                        assert(in_interval(out@[last], x));
                    }
                }
                assert forall|x: int, j: int|
                    0 <= j < out@.len() && #[trigger] in_interval(out@[j], x) implies exists|i: int|
                        is_top(subs@, x, i) && #[trigger] subs@[i].1 == out@[j].2 by {
                    if j == last {
                        assert(is_top(subs@, x, t as int) && subs@[t as int].1 == out@[j].2);
                    } else {
                        assert(in_interval(before[j], x));
                    }
                }
            }
        } else {
            proof {
                assert forall|x: int| 0 <= x < q implies (in_some(out@, x) <==> covered(subs@, x)) by {
                    if x >= prev && k > 0 {
                        if covered(subs@, x) {
                            let i = choose|i: int| 0 <= i < subs@.len() && #[trigger] covers(subs@[i], x);
                            lemma_cover_constant(subs@, f, ev@, k as int, prev as int, q as int, x, i);
                            assert(active@.contains(i as usize));
                            let a = choose|a: int| 0 <= a < active@.len() && active@[a] == i as usize;
                        }
                        if in_some(out@, x) {
                            let j = choose|j: int| 0 <= j < out@.len() && #[trigger] in_interval(out@[j], x);
                        }
                    }
                }
            }
        }
        let ghost active_before = active@;
        let res = apply_group(&ev, k, active, n);
        let k2 = res.0;
        active = res.1;
        assert(forall|u: usize|
            #[trigger] active@.contains(u) <==> ((active_before.contains(u) && !ends_in(
                ev@,
                k as int,
                k2 as int,
                u as int,
            )) || starts_in(ev@, k as int, k2 as int, u as int)));
        proof {
            assert forall|i: int| 0 <= i < n implies (active@.contains(i as usize) <==> #[trigger] covers(
                subs@[i],
                q as int,
            )) by {
                lemma_group_cover(subs@, f, ev@, k as int, k2 as int, prev as int, q as int, active_before, active@, i);
            }
            assert forall|j: int| 0 <= j < out@.len() implies (#[trigger] out@[j]).1 < q by {
                if j < out@.len() - 1 || active_before.len() == 0 {
                } 
            }
        }
        prev = q;
        k = k2;
    }
    if active.len() > 0 {
        let t = top_of(subs, &active);
        let mark = subs[t].1;
        let ghost before = out@;
        proof {
            assert forall|x: int| prev <= x <= maxv implies is_top(subs@, x, t as int) by {
                assert forall|i: int| 0 <= i < n implies (covers(subs@[i], x) <==> covers(subs@[i], prev as int)) by {
                    lemma_cover_constant(subs@, f, ev@, k as int, prev as int, maxv as int + 1, x, i);
                }
                assert forall|j: int| 0 <= j < subs@.len() && #[trigger] covers(subs@[j], x) implies key_le(
                    sub_key(subs@[j]),
                    sub_key(subs@[t as int]),
                ) by {
                    assert(covers(subs@[j], prev as int));
                    assert(active@.contains(j as usize));
                    let a = choose|a: int| 0 <= a < active@.len() && active@[a] == j as usize;
                    assert(key_le(sub_key(subs@[active@[a] as int]), sub_key(subs@[t as int])));
                }
            }
        }
        out.push((prev, maxv, mark));
        proof {
            let last = out@.len() - 1;
            lemma_event_is_boundary(subs@, f, ev@, k as int - 1);
            assert forall|y: int| prev < y <= maxv implies !#[trigger] is_boundary(subs@, maxv as int, y) by {
                if is_boundary(subs@, maxv as int, y) {
                    let j = lemma_boundary_is_event(subs@, f, ev@, y);
                }
            }
            assert forall|j: int| 0 <= j < out@.len() implies #[trigger] elementary_at(subs@, out@[j], maxv as int) by {
                if j < last {
                    assert(out@[j] == before[j]);
                }
            }
            assert forall|x: int| 0 <= x <= maxv implies (in_some(out@, x) <==> covered(subs@, x)) by {
                if x < prev {
                    if in_some(out@, x) {
                        let j = choose|j: int| 0 <= j < out@.len() && #[trigger] in_interval(out@[j], x);
                        if j < last {
                            assert(in_interval(before[j], x));
                        }
                    }
                    if in_some(before, x) {
                        let j = choose|j: int| 0 <= j < before.len() && #[trigger] in_interval(before[j], x);
                        assert(in_interval(out@[j], x));
                    }
                } else {
                    assert(is_top(subs@, x, t as int));
                    assert(in_interval(out@[last], x));
                }
            }
            assert forall|x: int, j: int|
                0 <= j < out@.len() && #[trigger] in_interval(out@[j], x) implies exists|i: int|
                    is_top(subs@, x, i) && #[trigger] subs@[i].1 == out@[j].2 by {
                if j == last {
                    assert(is_top(subs@, x, t as int) && subs@[t as int].1 == out@[j].2);
                } else {
                    assert(in_interval(before[j], x));
                }
            }
        }
    } else {
        proof {
            assert forall|x: int| 0 <= x <= maxv implies (in_some(out@, x) <==> covered(subs@, x)) by {
                if x >= prev {
                    if covered(subs@, x) {
                        let i = choose|i: int| 0 <= i < subs@.len() && #[trigger] covers(subs@[i], x);
                        lemma_cover_constant(subs@, f, ev@, k as int, prev as int, maxv as int + 1, x, i);
                        assert(active@.contains(i as usize));
                        let a = choose|a: int| 0 <= a < active@.len() && active@[a] == i as usize;
                    }
                    if in_some(out@, x) {
                        let j = choose|j: int| 0 <= j < out@.len() && #[trigger] in_interval(out@[j], x);
                    }
                }
            }
        }
    }
    out
}

/// After the events at `q` are applied, the active subnets are those that
/// hold `q`.
proof fn lemma_group_cover(
    subs: Seq<WeightedSubnet>,
    f: IpFamily,
    ev: Seq<SweepEvent>,
    k: int,
    k2: int,
    prev: int,
    q: int,
    old_active: Seq<usize>,
    new_active: Seq<usize>,
    i: int,
)
    requires
        subnets_wf(subs, f),
        events_of(subs, family_max(f), ev),
        events_sorted(ev),
        0 <= k < k2 <= ev.len(),
        q == ev[k].0,
        q <= family_max(f),
        forall|j: int| k <= j < k2 ==> (#[trigger] ev[j]).0 == q,
        k2 < ev.len() ==> ev[k2].0 != q,
        forall|j: int| 0 <= j < k ==> #[trigger] ev[j].0 <= prev,
        k > 0 ==> prev < q,
        k > 0 ==> forall|a: int|
            0 <= a < subs.len() ==> (old_active.contains(a as usize) <==> #[trigger] covers(subs[a], prev)),
        k == 0 ==> old_active.len() == 0,
        forall|u: usize|
            new_active.contains(u) <==> ((old_active.contains(u) && !ends_in(ev, k, k2, u as int))
                || starts_in(ev, k, k2, u as int)),
        0 <= i < subs.len(),
        subs.len() <= usize::MAX,
    ensures
        new_active.contains(i as usize) <==> covers(subs[i], q),
{
    lemma_family_max(f);
    let maxv = family_max(f);
    assert(subs[i].0.family == f && subs[i].0.wf());
    lemma_network_bounds(subs[i].0);
    let lo = spec_network(subs[i].0);
    let hi = spec_broadcast(subs[i].0);
    assert(new_active.contains(i as usize) <==> ((old_active.contains(i as usize) && !ends_in(ev, k, k2, i))
        || starts_in(ev, k, k2, i)));
    assert(forall|j: int| k2 <= j < ev.len() ==> #[trigger] ev[j].0 > q) by {
        assert forall|j: int| k2 <= j < ev.len() implies #[trigger] ev[j].0 > q by {
            assert(ev[k2].0 >= ev[k].0);
            assert(ev[j].0 >= ev[k2].0);
        }
    }
    // where the start event of i lies
    assert(ev.contains(start_event(subs, i)));
    let w = choose|w: int| 0 <= w < ev.len() && ev[w] == start_event(subs, i);
    assert(ev[w].0 == lo);
    if k == 0 {
        assert(ev[0].0 <= ev[w].0);
    }
    // starts_in exactly when lo == q
    if starts_in(ev, k, k2, i) {
        let j = choose|j: int| k <= j < k2 && #[trigger] ev[j].1 && ev[j].2 == i;
        assert(valid_event(subs, maxv, ev[j]));
        assert(ev[j] == start_event(subs, i));
        assert(lo == q);
    }
    if lo == q {
        assert(w >= k) by {
            if w < k {
                assert(ev[w].0 <= prev);
            }
        }
        assert(w < k2);
        assert(ev[w].1 && ev[w].2 == i);
        assert(starts_in(ev, k, k2, i));
    }
    // ends_in exactly when hi + 1 == q
    if ends_in(ev, k, k2, i) {
        let j = choose|j: int| k <= j < k2 && !#[trigger] ev[j].1 && ev[j].2 == i;
        assert(valid_event(subs, maxv, ev[j]));
        assert(ev[j] == end_event(subs, i));
        assert(hi < maxv && hi + 1 == q);
    }
    if hi < maxv {
        assert(ev.contains(end_event(subs, i)));
        let w2 = choose|w2: int| 0 <= w2 < ev.len() && ev[w2] == end_event(subs, i);
        assert(ev[w2].0 == hi + 1);
        if hi + 1 == q {
            assert(w2 >= k) by {
                if w2 < k {
                    assert(ev[w2].0 <= prev);
                }
            }
            assert(w2 < k2);
            assert(!ev[w2].1 && ev[w2].2 == i);
            assert(ends_in(ev, k, k2, i));
        }
        if w2 < k {
            assert(hi + 1 <= prev);
        } else if w2 >= k2 {
            assert(hi + 1 > q);
        }
    }
    if w < k {
        assert(lo <= prev);
    } else if w >= k2 {
        assert(lo > q);
    }
    assert(starts_in(ev, k, k2, i) <==> lo == q);
    assert(ends_in(ev, k, k2, i) <==> (hi < maxv && hi + 1 == q));
    assert(lo <= prev && k > 0 || lo == q || lo > q);
    assert(hi == maxv || hi + 1 <= prev || hi + 1 == q || hi + 1 > q);
    if k > 0 {
        assert(old_active.contains(i as usize) <==> covers(subs[i], prev));
    } else {
        assert(!old_active.contains(i as usize));
    }
}

/// A block of `2^p` addresses starting at `s` is aligned and ends by `e`.
pub open spec fn block_fits(s: int, e: int, p: nat) -> bool {
    s % (pow2(p) as int) == 0 && s + pow2(p) - 1 <= e
}

/// The largest number of host bits, at most `p`, of a block that fits at `s`
/// before `e`.
pub open spec fn largest_block(s: int, e: int, p: nat) -> nat
    decreases p,
{
    if p == 0 || block_fits(s, e, p) {
        p
    } else {
        largest_block(s, e, (p - 1) as nat)
    }
}

/// The canonical cover of `[s, e]` by CIDR blocks: from the left, each block
/// is the largest aligned block that fits. Each entry is (start, host bits).
pub open spec fn cidr_cover(s: int, e: int, w: nat) -> Seq<(int, nat)>
    decreases e - s,
{
    if s > e {
        Seq::empty()
    } else {
        let p = largest_block(s, e, w);
        if s + pow2(p) - 1 >= e {
            seq![(s, p)]
        } else {
            proof {
                lemma_pow2_pos(p);
            }
            seq![(s, p)] + cidr_cover(s + pow2(p), e, w)
        }
    }
}

/// The network of a cover entry in family `f`.
pub open spec fn block_net(f: IpFamily, b: (int, nat)) -> IpNetwork {
    IpNetwork { family: f, addr: b.0 as u128, prefix_len: (family_bits(f) - b.1) as u8 }
}

pub open spec fn block_nets(f: IpFamily, bs: Seq<(int, nat)>) -> Seq<IpNetwork> {
    bs.map_values(|b: (int, nat)| block_net(f, b))
}

/// `largest_block` is the largest size that fits when nothing above fits.
proof fn lemma_largest_block(s: int, e: int, top: nat, r: nat)
    requires
        r <= top,
        r == 0 || block_fits(s, e, r),
        forall|p: nat| r < p <= top ==> !#[trigger] block_fits(s, e, p),
    ensures
        largest_block(s, e, top) == r,
    decreases top,
{
    if top > r {
        lemma_largest_block(s, e, (top - 1) as nat, r);
    }
}

/// `largest_block` picks a size that fits, or a single address.
pub proof fn lemma_largest_block_fits(s: int, e: int, top: nat)
    ensures
        largest_block(s, e, top) <= top,
        largest_block(s, e, top) == 0 || block_fits(s, e, largest_block(s, e, top)),
    decreases top,
{
    if top > 0 && !block_fits(s, e, top) {
        lemma_largest_block_fits(s, e, (top - 1) as nat);
    }
}

/// A multiple of `2^b` is a multiple of `2^a` when `a <= b`.
proof fn lemma_pow2_divides(x: int, a: nat, b: nat)
    requires
        a <= b,
        x % (pow2(b) as int) == 0,
    ensures
        x % (pow2(a) as int) == 0,
{
    lemma_pow2_pos(a);
    lemma_pow2_pos((b - a) as nat);
    lemma_pow2_adds(a, (b - a) as nat);
    assert(a + (b - a) as nat == b);
    lemma_mod_mod(x, pow2(a) as int, pow2((b - a) as nat) as int);
    lemma_mul_is_commutative(pow2(a) as int, pow2((b - a) as nat) as int);
    lemma_small_mod(0, pow2(a));
}

/// The host bits of the largest CIDR block that starts at `s` and ends by `e`.
fn largest_fitting(s: u128, e: u128, f: IpFamily) -> (p: u32)
    requires
        s <= e <= family_max(f),
    ensures
        p <= family_bits(f),
        p == largest_block(s as int, e as int, family_bits(f)),
{
    let w = bits_of(f);
    proof {
        lemma_pow2_128();
        lemma_pow2_le(family_bits(f), 128);
        lemma2_to64();
    }
    let mut t: u128 = s;
    let mut p: u32 = 0;
    while p < w && t % 2 == 0
        invariant
            p <= w,
            w == family_bits(f),
            s == t * pow2(p as nat),
        decreases w - p,
    {
        proof {
            lemma_pow2_unfold((p + 1) as nat);
            lemma_fundamental_div_mod(t as int, 2);
            lemma_mul_is_associative(t as int / 2, 2, pow2(p as nat) as int);
        }
        t = t / 2;
        p = p + 1;
    }
    let z = p;
    proof {
        lemma_pow2_pos(z as nat);
        lemma_mod_multiples_basic(t as int, pow2(z as nat) as int);
        // no block of more than z host bits is aligned at s
        assert forall|q: nat| z < q <= w implies !block_fits(s as int, e as int, q) by {
            if block_fits(s as int, e as int, q) {
                lemma_pow2_divides(s as int, (z + 1) as nat, q);
                lemma_pow2_unfold((z + 1) as nat);
                lemma_mul_is_associative(t as int, 2, pow2(z as nat) as int);
                lemma_mul_is_commutative(t as int, 2);
                // s = (t * 2^z) and t is odd: s % 2^(z+1) == 2^z
                lemma_fundamental_div_mod(t as int, 2);
                lemma_mul_is_distributive_add(pow2(z as nat) as int, 2 * (t as int / 2), 1);
                lemma_mul_is_associative(pow2(z as nat) as int, 2, t as int / 2);
                lemma_mul_is_commutative(pow2(z as nat) as int, 2);
                lemma_mul_is_commutative(pow2(z as nat) as int, t as int);
                lemma_mod_multiples_vanish(t as int / 2, pow2(z as nat) as int, 2 * pow2(z as nat) as int);
                lemma_small_mod(pow2(z as nat), 2 * pow2(z as nat));
            }
        }
    }
    let span = e - s;
    while p > 0 && !fits_span(p, span)
        invariant
            p <= z <= w,
            w == family_bits(f),
            span == e - s,
            s as int % (pow2(z as nat) as int) == 0,
            forall|q: nat| p < q <= z ==> !#[trigger] block_fits(s as int, e as int, q),
            forall|q: nat| z < q <= w ==> !#[trigger] block_fits(s as int, e as int, q),
        decreases p,
    {
        proof {
            lemma_pow2_divides(s as int, p as nat, z as nat);
        }
        p = p - 1;
    }
    proof {
        if p > 0 {
            lemma_pow2_divides(s as int, p as nat, z as nat);
        }
        lemma_largest_block(s as int, e as int, w as nat, p as nat);
    }
    p
}

/// Whether `2^p - 1 <= span`.
fn fits_span(p: u32, span: u128) -> (r: bool)
    requires
        p <= 128,
    ensures
        r == (pow2(p as nat) - 1 <= span),
{
    proof {
        lemma_pow2_128();
    }
    if p == 128 {
        span == u128::MAX
    } else {
        let size = pow2_u128(p);
        proof {
            lemma_pow2_pos(p as nat);
        }
        size - 1 <= span
    }
}

/// The CIDR networks that together hold exactly `[start, end]`: from the
/// left, each is the largest aligned block that still fits. An empty range
/// (`start > end`) has none.
pub fn range_to_cidrs(f: IpFamily, start: u128, end: u128) -> (out: Vec<IpNetwork>)
    requires
        end <= family_max(f),
    ensures
        start <= end ==> out@ == block_nets(f, cidr_cover(start as int, end as int, family_bits(f))),
        start <= end ==> forall|j: int|
            0 <= j < out@.len() ==> (#[trigger] out@[j]).wf() && out@[j].family == f && spec_network(out@[j])
                == out@[j].addr,
        start <= end ==> forall|x: int| #[trigger] nets_hold(out@, x) <==> start <= x <= end,
        start <= end ==> forall|a: int, b: int|
            #![trigger out@[a], out@[b]]
            0 <= a < b < out@.len() ==> spec_broadcast(out@[a]) < spec_network(out@[b]),
        start > end ==> out@.len() == 0,
{
    if start > end {
        return Vec::new();
    }
    let w = bits_of(f);
    let mut out: Vec<IpNetwork> = Vec::new();
    let mut s = start;
    proof {
        lemma_pow2_128();
        lemma_pow2_le(family_bits(f), 128);
    }
    loop
        invariant_except_break
            start <= s <= end <= family_max(f),
            family_max(f) <= u128::MAX,
            w == family_bits(f),
            out@ + block_nets(f, cidr_cover(s as int, end as int, w as nat)) == block_nets(
                f,
                cidr_cover(start as int, end as int, w as nat),
            ),
        ensures
            out@ == block_nets(f, cidr_cover(start as int, end as int, w as nat)),
        decreases end - s,
    {
        let p = largest_fitting(s, end, f);
        let ghost before = out@;
        let ghost tail = cidr_cover(s as int, end as int, w as nat);
        out.push(IpNetwork { family: f, addr: s, prefix_len: (w - p) as u8 });
        proof {
            lemma_pow2_pos(p as nat);
            assert(tail[0] == (s as int, p as nat));
        }
        if p == 128 {
            proof {
                lemma_largest_block_fits(s as int, end as int, w as nat);
                assert(s as int % (pow2(128) as int) == 0 && s + pow2(128) - 1 <= end);
                assert(tail =~= seq![(s as int, p as nat)]);
                assert(block_nets(f, tail) =~= seq![block_net(f, (s as int, p as nat))]);
                assert(out@ =~= before + block_nets(f, tail));
            }
            break;
        }
        let size = pow2_u128(p);
        if size - 1 >= end - s {
            proof {
                assert(tail =~= seq![(s as int, p as nat)]);
                assert(block_nets(f, tail) =~= seq![block_net(f, (s as int, p as nat))]);
                assert(out@ =~= before + block_nets(f, tail));
            }
            break;
        }
        proof {
            let rest = cidr_cover(s + size, end as int, w as nat);
            assert(tail =~= seq![(s as int, p as nat)] + rest);
            assert(block_nets(f, tail) =~= seq![block_net(f, (s as int, p as nat))] + block_nets(f, rest));
            assert(out@ + block_nets(f, rest) =~= before + block_nets(f, tail));
        }
        s = s + size;
    }
    proof {
        lemma_range_to_cidrs_exact(f, start, end);
    }
    out
}

/// Whether a cover entry holds an address.
pub open spec fn in_block(b: (int, nat), x: int) -> bool {
    b.0 <= x <= b.0 + pow2(b.1) - 1
}

/// Whether some cover entry holds an address.
pub open spec fn blocks_hold(c: Seq<(int, nat)>, x: int) -> bool {
    exists|j: int| 0 <= j < c.len() && #[trigger] in_block(c[j], x)
}

/// Whether some network of a list holds an address.
pub open spec fn nets_hold(nets: Seq<IpNetwork>, x: int) -> bool {
    exists|j: int| 0 <= j < nets.len() && (#[trigger] nets[j]).contains(x)
}

/// The canonical cover consists of aligned blocks inside `[s, e]` that
/// together hold exactly `[s, e]`.
proof fn lemma_cover_blocks(s: int, e: int, w: nat)
    requires
        0 <= s <= e,
    ensures
        forall|j: int|
            0 <= j < cidr_cover(s, e, w).len() ==> (#[trigger] cidr_cover(s, e, w)[j]).1 <= w
                && block_fits(cidr_cover(s, e, w)[j].0, e, cidr_cover(s, e, w)[j].1) && s
                <= cidr_cover(s, e, w)[j].0,
        forall|x: int| #[trigger] blocks_hold(cidr_cover(s, e, w), x) <==> s <= x <= e,
    decreases e - s,
{
    let c = cidr_cover(s, e, w);
    let p = largest_block(s, e, w);
    lemma_largest_block_fits(s, e, w);
    lemma_pow2_pos(p);
    if p == 0 {
        lemma2_to64();
        lemma_small_mod(0, 1);
        assert(s % 1 == 0);
    }
    assert(block_fits(s, e, p));
    if s + pow2(p) - 1 >= e {
        assert(c =~= seq![(s, p)]);
        assert forall|x: int| #[trigger] blocks_hold(c, x) <==> s <= x <= e by {
            if s <= x <= e {
                assert(in_block(c[0], x));
            }
        }
    } else {
        let n = s + pow2(p);
        lemma_cover_blocks(n, e, w);
        let rest = cidr_cover(n, e, w);
        assert(c =~= seq![(s, p)] + rest);
        assert forall|j: int| 0 <= j < c.len() implies (#[trigger] c[j]).1 <= w && block_fits(c[j].0, e, c[j].1)
            && s <= c[j].0 by {
            if j > 0 {
                assert(c[j] == rest[j - 1]);
            }
        }
        assert forall|x: int| #[trigger] blocks_hold(c, x) <==> s <= x <= e by {
            if blocks_hold(c, x) {
                let j = choose|j: int| 0 <= j < c.len() && #[trigger] in_block(c[j], x);
                if j > 0 {
                    assert(in_block(rest[j - 1], x));
                    assert(blocks_hold(rest, x));
                }
            }
            if s <= x <= e {
                if x < n {
                    assert(in_block(c[0], x));
                } else {
                    assert(blocks_hold(rest, x));
                    let j = choose|j: int| 0 <= j < rest.len() && #[trigger] in_block(rest[j], x);
                    assert(in_block(c[j + 1], x));
                }
            }
        }
    }
}

/// The blocks of the canonical cover come in ascending order without
/// overlap: each ends before the next starts.
proof fn lemma_cover_ordered(s: int, e: int, w: nat)
    requires
        0 <= s <= e,
    ensures
        forall|a: int, b: int|
            #![trigger cidr_cover(s, e, w)[a], cidr_cover(s, e, w)[b]]
            0 <= a < b < cidr_cover(s, e, w).len() ==> cidr_cover(s, e, w)[a].0 + pow2(
                cidr_cover(s, e, w)[a].1,
            ) - 1 < cidr_cover(s, e, w)[b].0,
    decreases e - s,
{
    let c = cidr_cover(s, e, w);
    let p = largest_block(s, e, w);
    lemma_pow2_pos(p);
    if s + pow2(p) - 1 < e {
        let n = s + pow2(p);
        let rest = cidr_cover(n, e, w);
        lemma_cover_ordered(n, e, w);
        lemma_cover_blocks(n, e, w);
        assert(c =~= seq![(s, p)] + rest);
        assert forall|a: int, b: int|
            #![trigger c[a], c[b]]
            0 <= a < b < c.len() implies c[a].0 + pow2(c[a].1) - 1 < c[b].0 by {
            assert(c[b] == rest[b - 1]);
            if a == 0 {
                assert(n <= rest[b - 1].0);
            } else {
                assert(c[a] == rest[a - 1]);
            }
        }
    }
}

/// The networks of `range_to_cidrs` are well formed and together hold exactly
/// the addresses from `start` to `end`.
pub proof fn lemma_range_to_cidrs_exact(f: IpFamily, start: u128, end: u128)
    requires
        start <= end <= family_max(f),
    ensures
        forall|j: int|
            0 <= j < block_nets(f, cidr_cover(start as int, end as int, family_bits(f))).len()
                ==> #[trigger] block_nets(f, cidr_cover(start as int, end as int, family_bits(f)))[j].wf()
                && block_nets(f, cidr_cover(start as int, end as int, family_bits(f)))[j].family == f,
        forall|x: int|
            #[trigger] nets_hold(block_nets(f, cidr_cover(start as int, end as int, family_bits(f))), x)
                <==> start <= x <= end,
        forall|j: int|
            0 <= j < block_nets(f, cidr_cover(start as int, end as int, family_bits(f))).len()
                ==> spec_network(#[trigger] block_nets(f, cidr_cover(start as int, end as int, family_bits(f)))[j])
                == block_nets(f, cidr_cover(start as int, end as int, family_bits(f)))[j].addr,
        forall|a: int, b: int|
            #![trigger block_nets(f, cidr_cover(start as int, end as int, family_bits(f)))[a], block_nets(f, cidr_cover(start as int, end as int, family_bits(f)))[b]]
            0 <= a < b < block_nets(f, cidr_cover(start as int, end as int, family_bits(f))).len()
                ==> spec_broadcast(block_nets(f, cidr_cover(start as int, end as int, family_bits(f)))[a])
                < spec_network(block_nets(f, cidr_cover(start as int, end as int, family_bits(f)))[b]),
{
    let w = family_bits(f);
    let c = cidr_cover(start as int, end as int, w);
    let nets = block_nets(f, c);
    lemma_cover_blocks(start as int, end as int, w);
    lemma_pow2_128();
    lemma_pow2_le(w, 128);
    assert forall|j: int| 0 <= j < nets.len() implies #[trigger] nets[j].wf() && nets[j].family == f
        && spec_network(nets[j]) == c[j].0 && spec_broadcast(nets[j]) == c[j].0 + pow2(c[j].1) - 1 by {
        let b = c[j];
        assert(b.1 <= w && block_fits(b.0, end as int, b.1) && start <= b.0);
        assert(nets[j] == block_net(f, b));
        lemma_pow2_pos(b.1);
        assert(0 <= b.0 <= end);
        assert(nets[j].addr == b.0);
        assert(host_bits_of(nets[j]) == b.1);
        lemma_pow2_pos(b.1);
        lemma_fundamental_div_mod(b.0, pow2(b.1) as int);
        lemma_mul_is_commutative(b.0 / pow2(b.1) as int, pow2(b.1) as int);
    }
    lemma_cover_ordered(start as int, end as int, w);
    assert forall|j: int| 0 <= j < nets.len() implies spec_network(#[trigger] nets[j]) == nets[j].addr by {
        assert(nets[j].wf());
        assert(0 <= c[j].0 <= end);
        assert(nets[j].addr == c[j].0);
    }
    assert forall|a: int, b: int| #![trigger nets[a], nets[b]] 0 <= a < b < nets.len() implies spec_broadcast(nets[a])
        < spec_network(nets[b]) by {
        assert(nets[a].wf() && nets[b].wf());
        assert(spec_broadcast(nets[a]) == c[a].0 + pow2(c[a].1) - 1);
        assert(spec_network(nets[b]) == c[b].0);
        assert(c[a].0 + pow2(c[a].1) - 1 < c[b].0);
    }
    assert forall|x: int| #[trigger] nets_hold(nets, x) <==> start <= x <= end by {
        if nets_hold(nets, x) {
            let j = choose|j: int| 0 <= j < nets.len() && (#[trigger] nets[j]).contains(x);
            assert(nets[j].wf());
            assert(in_block(c[j], x));
            assert(blocks_hold(c, x));
        }
        if start <= x <= end {
            assert(blocks_hold(c, x));
            let j = choose|j: int| 0 <= j < c.len() && #[trigger] in_block(c[j], x);
            assert(nets[j].wf());
            assert(nets[j].contains(x));
        }
    }
}

spec fn host_bits_of(n: IpNetwork) -> nat {
    crate::net::host_bits(n)
}

/// What `ipnet::IpNet::aggregate` returns for a list of networks: the list
/// merged into fewer, larger networks.
pub uninterp spec fn ipnet_aggregate(nets: Seq<IpNetwork>) -> Seq<IpNetwork>;

/// What ipnet's aggregation guarantees of networks of one family: the merged
/// networks are well formed networks of that family, they hold exactly the
/// addresses the given networks hold, and they are in ascending order
/// without overlap.
pub open spec fn aggregate_laws(f: IpFamily, input: Seq<IpNetwork>, out: Seq<IpNetwork>) -> bool {
    &&& forall|j: int| 0 <= j < out.len() ==> (#[trigger] out[j]).wf() && out[j].family == f
    &&& forall|x: int| #[trigger] nets_hold(out, x) == nets_hold(input, x)
    &&& forall|a: int, b: int|
        #![trigger out[a], out[b]]
        0 <= a < b < out.len() ==> spec_broadcast(out[a]) < spec_network(out[b])
}

/// Merges networks of one family with `ipnet::IpNet::aggregate`.
///
/// The crate turns each network into the interval from its first to its last
/// address, sorts the intervals, merges those that overlap or touch, and
/// splits each merged interval into aligned subnets in ascending order
/// (`Ipv4Net::aggregate`, `Ipv6Net::aggregate`); the contract states what
/// follows from that: [`aggregate_laws`].
#[verifier::external_body]
fn aggregate_nets(f: IpFamily, nets: &Vec<IpNetwork>) -> (r: Vec<IpNetwork>)
    requires
        forall|j: int| 0 <= j < nets@.len() ==> (#[trigger] nets@[j]).wf() && nets@[j].family == f,
    ensures
        r@ == ipnet_aggregate(nets@),
        aggregate_laws(f, nets@, r@),
{
    let v: Vec<IpNet> = nets.iter().map(|n| match n.family {
        IpFamily::V4 => Ipv4Net::new((n.addr as u32).into(), n.prefix_len).unwrap().into(),
        IpFamily::V6 => Ipv6Net::new(n.addr.into(), n.prefix_len).unwrap().into(),
    }).collect();
    IpNet::aggregate(&v).into_iter().map(|n| match n {
        IpNet::V4(a) => IpNetwork { family: IpFamily::V4, addr: u32::from(a.addr()) as u128, prefix_len: a.prefix_len() },
        IpNet::V6(a) => IpNetwork { family: IpFamily::V6, addr: a.addr().into(), prefix_len: a.prefix_len() },
    }).collect()
}

/// The CIDR networks of an interval.
pub open spec fn interval_nets(f: IpFamily, iv: MarkedInterval) -> Seq<IpNetwork> {
    block_nets(f, cidr_cover(iv.0 as int, iv.1 as int, family_bits(f)))
}

/// The networks of all intervals with mark `m`, in interval order.
pub open spec fn mark_nets(f: IpFamily, ivs: Seq<MarkedInterval>, m: u32) -> Seq<IpNetwork>
    decreases ivs.len(),
{
    if ivs.len() == 0 {
        Seq::empty()
    } else {
        mark_nets(f, ivs.drop_last(), m) + if ivs.last().2 == m {
            interval_nets(f, ivs.last())
        } else {
            Seq::empty()
        }
    }
}

/// The distinct marks of a list of intervals, in order of first appearance.
pub open spec fn mark_order(ivs: Seq<MarkedInterval>) -> Seq<u32>
    decreases ivs.len(),
{
    if ivs.len() == 0 {
        Seq::empty()
    } else if mark_order(ivs.drop_last()).contains(ivs.last().2) {
        mark_order(ivs.drop_last())
    } else {
        mark_order(ivs.drop_last()).push(ivs.last().2)
    }
}

/// Groups the CIDR networks of intervals by mark, marks in order of first
/// appearance.
pub fn group_by_mark(f: IpFamily, ivs: &Vec<MarkedInterval>) -> (groups: Vec<(u32, Vec<IpNetwork>)>)
    requires
        sorted_disjoint(ivs@, family_max(f)),
    ensures
        groups@.len() == mark_order(ivs@).len(),
        forall|g: int|
            0 <= g < groups@.len() ==> (#[trigger] groups@[g]).0 == mark_order(ivs@)[g]
                && groups@[g].1@ == mark_nets(f, ivs@, groups@[g].0),
{
    let mut groups: Vec<(u32, Vec<IpNetwork>)> = Vec::new();
    for i in 0..ivs.len()
        invariant
            sorted_disjoint(ivs@, family_max(f)),
            groups@.len() == mark_order(ivs@.take(i as int)).len(),
            forall|g: int|
                0 <= g < groups@.len() ==> (#[trigger] groups@[g]).0 == mark_order(ivs@.take(i as int))[g]
                    && groups@[g].1@ == mark_nets(f, ivs@.take(i as int), groups@[g].0),
    {
        let iv = ivs[i];
        let ghost pre = ivs@.take(i as int);
        let ghost post = ivs@.take(i + 1);
        proof {
            assert(post.drop_last() =~= pre);
            assert(post.last() == iv);
        }
        let mut cidrs = range_to_cidrs(f, iv.0, iv.1);
        let mut g: usize = 0;
        while g < groups.len() && groups[g].0 != iv.2
            invariant
                g <= groups@.len(),
                forall|h: int| 0 <= h < g ==> (#[trigger] groups@[h]).0 != iv.2,
            decreases groups@.len() - g,
        {
            g = g + 1;
        }
        if g < groups.len() {
            let ghost old_groups = groups@;
            let mut entry = groups.remove(g);
            entry.1.append(&mut cidrs);
            groups.insert(g, entry);
            proof {
                assert(mark_order(pre).contains(iv.2)) by {
                    assert(mark_order(pre)[g as int] == iv.2);
                }
                assert(mark_order(post) == mark_order(pre));
                lemma_mark_order_distinct(pre);
                assert forall|h: int|
                    0 <= h < groups@.len() implies (#[trigger] groups@[h]).0 == mark_order(post)[h]
                        && groups@[h].1@ == mark_nets(f, post, groups@[h].0) by {
                    if h == g {
                        assert(groups@[h].1@ =~= mark_nets(f, pre, iv.2) + interval_nets(f, iv));
                    } else {
                        assert(groups@[h] == old_groups[h]);
                        assert(mark_nets(f, post, groups@[h].0) =~= mark_nets(f, pre, groups@[h].0));
                    }
                }
            }
        } else {
            let ghost old_groups = groups@;
            groups.push((iv.2, cidrs));
            proof {
                assert(!mark_order(pre).contains(iv.2)) by {
                    if mark_order(pre).contains(iv.2) {
                        let h = choose|h: int| 0 <= h < mark_order(pre).len() && mark_order(pre)[h] == iv.2;
                        assert(old_groups[h].0 == iv.2);
                    }
                }
                assert(mark_order(post) == mark_order(pre).push(iv.2));
                lemma_mark_nets_absent(f, pre, iv.2);
                assert forall|h: int|
                    0 <= h < groups@.len() implies (#[trigger] groups@[h]).0 == mark_order(post)[h]
                        && groups@[h].1@ == mark_nets(f, post, groups@[h].0) by {
                    if h == old_groups.len() {
                        assert(groups@[h].1@ =~= mark_nets(f, pre, iv.2) + interval_nets(f, iv));
                    } else {
                        assert(groups@[h] == old_groups[h]);
                        assert(mark_nets(f, post, groups@[h].0) =~= mark_nets(f, pre, groups@[h].0));
                    }
                }
            }
        }
    }
    proof {
        assert(ivs@.take(ivs@.len() as int) =~= ivs@);
    }
    groups
}

/// No mark appears twice in `mark_order`.
proof fn lemma_mark_order_distinct(ivs: Seq<MarkedInterval>)
    ensures
        mark_order(ivs).no_duplicates(),
    decreases ivs.len(),
{
    if ivs.len() > 0 {
        lemma_mark_order_distinct(ivs.drop_last());
    }
}

/// A mark that does not appear yet has no networks.
proof fn lemma_mark_nets_absent(f: IpFamily, ivs: Seq<MarkedInterval>, m: u32)
    requires
        !mark_order(ivs).contains(m),
    ensures
        mark_nets(f, ivs, m) =~= Seq::<IpNetwork>::empty(),
    decreases ivs.len(),
{
    if ivs.len() > 0 {
        let pre = ivs.drop_last();
        if mark_order(pre).contains(m) {
            let h = choose|h: int| 0 <= h < mark_order(pre).len() && mark_order(pre)[h] == m;
            if mark_order(pre).contains(ivs.last().2) {
                assert(mark_order(ivs)[h] == m);
            } else {
                assert(mark_order(ivs)[h] == m);
            }
        }
        lemma_mark_nets_absent(f, pre, m);
        if ivs.last().2 == m {
            assert(mark_order(ivs).last() == m);
        }
    }
}

/// All networks of `mark_nets` are well formed and of the family.
proof fn lemma_mark_nets_wf(f: IpFamily, ivs: Seq<MarkedInterval>, m: u32)
    requires
        sorted_disjoint(ivs, family_max(f)),
    ensures
        forall|j: int|
            0 <= j < mark_nets(f, ivs, m).len() ==> (#[trigger] mark_nets(f, ivs, m)[j]).wf()
                && mark_nets(f, ivs, m)[j].family == f,
    decreases ivs.len(),
{
    if ivs.len() > 0 {
        let pre = ivs.drop_last();
        assert(sorted_disjoint(pre, family_max(f))) by {
            assert forall|j: int| 0 <= j < pre.len() implies pre[j].0 <= #[trigger] pre[j].1 <= family_max(f) by {
                assert(pre[j] == ivs[j]);
            }
            assert forall|j: int, k: int| #![trigger pre[j], pre[k]] 0 <= j < k < pre.len() implies pre[j].1 < pre[k].0 by {
                assert(pre[j] == ivs[j] && pre[k] == ivs[k]);
            }
        }
        lemma_mark_nets_wf(f, pre, m);
        let last = ivs.last();
        assert(last == ivs[ivs.len() - 1]);
        lemma_range_to_cidrs_exact(f, last.0, last.1);
        let a = mark_nets(f, pre, m);
        let b = if last.2 == m { interval_nets(f, last) } else { Seq::empty() };
        assert(mark_nets(f, ivs, m) == a + b);
        assert forall|j: int| 0 <= j < (a + b).len() implies (#[trigger] (a + b)[j]).wf() && (a + b)[j].family == f by {
            if j < a.len() {
                assert((a + b)[j] == a[j]);
            } else {
                assert((a + b)[j] == b[j - a.len()]);
            }
        }
    }
}

/// A list of networks, each paired with a mark.
pub open spec fn pair_with(nets: Seq<IpNetwork>, m: u32) -> Seq<(IpNetwork, u32)> {
    nets.map_values(|n: IpNetwork| (n, m))
}

/// The entries of all groups, group after group, each with its group's mark.
pub open spec fn assembled(marks: Seq<u32>, agg: Seq<Seq<IpNetwork>>) -> Seq<(IpNetwork, u32)>
    decreases marks.len(),
{
    if marks.len() == 0 || agg.len() == 0 {
        Seq::empty()
    } else {
        assembled(marks.drop_last(), agg.drop_last()) + pair_with(agg.last(), marks.last())
    }
}

/// Pairs each aggregated network with the mark of its group.
pub fn assemble_resolved(marks: &Vec<u32>, aggregated: &Vec<Vec<IpNetwork>>) -> (r: Vec<(IpNetwork, u32)>)
    requires
        marks@.len() == aggregated@.len(),
    ensures
        r@ == assembled(marks@, aggregated@.map_values(|v: Vec<IpNetwork>| v@)),
{
    let mut r: Vec<(IpNetwork, u32)> = Vec::new();
    let ghost agg = aggregated@.map_values(|v: Vec<IpNetwork>| v@);
    for g in 0..marks.len()
        invariant
            marks@.len() == aggregated@.len(),
            agg == aggregated@.map_values(|v: Vec<IpNetwork>| v@),
            r@ == assembled(marks@.take(g as int), agg.take(g as int)),
    {
        let m = marks[g];
        let nets = &aggregated[g];
        let ghost before = r@;
        for j in 0..nets.len()
            invariant
                r@ == before + pair_with(nets@.take(j as int), m),
        {
            r.push((nets[j], m));
            proof {
                assert(nets@.take(j + 1) =~= nets@.take(j as int).push(nets@[j as int]));
                assert(pair_with(nets@.take(j + 1), m) =~= pair_with(nets@.take(j as int), m).push((nets@[j as int], m)));
            }
        }
        proof {
            assert(nets@.take(nets@.len() as int) =~= nets@);
            assert(marks@.take(g + 1).drop_last() =~= marks@.take(g as int));
            assert(agg.take(g + 1).drop_last() =~= agg.take(g as int));
            assert(agg[g as int] == nets@);
        }
    }
    proof {
        assert(marks@.take(marks@.len() as int) =~= marks@);
        assert(agg.take(marks@.len() as int) =~= agg);
    }
    r
}

/// The resolved routing entries of prioritised subnets of one family: the
/// elementary intervals of the sweep, split into CIDR networks, grouped by
/// mark in order of first appearance, each group aggregated by ipnet.
pub open spec fn resolution_of(f: IpFamily, ivs: Seq<MarkedInterval>) -> Seq<(IpNetwork, u32)> {
    assembled(
        mark_order(ivs),
        mark_order(ivs).map_values(|m: u32| ipnet_aggregate(mark_nets(f, ivs, m))),
    )
}

/// Whether entry `k` of a list of routing entries holds an address.
pub open spec fn entry_holds(r: Seq<(IpNetwork, u32)>, k: int, x: int) -> bool {
    0 <= k < r.len() && r[k].0.contains(x)
}

/// What routing entries do for prioritised subnets of a family: they are well
/// formed networks of the family; an address of the family is held by some
/// entry exactly when some subnet holds it; every entry holding an address
/// carries the mark of a strongest subnet holding it; and no address is held
/// by two entries.
pub open spec fn steers(subs: Seq<WeightedSubnet>, f: IpFamily, r: Seq<(IpNetwork, u32)>) -> bool {
    &&& forall|k: int| 0 <= k < r.len() ==> (#[trigger] r[k]).0.wf() && r[k].0.family == f
    &&& forall|x: int|
        0 <= x <= family_max(f) ==> ((exists|k: int| #[trigger] entry_holds(r, k, x)) <==> covered(subs, x))
    &&& forall|k: int, x: int|
        #[trigger] entry_holds(r, k, x) ==> exists|i: int| is_top(subs, x, i) && #[trigger] subs[i].1 == r[k].1
    &&& forall|k1: int, k2: int, x: int|
        #[trigger] entry_holds(r, k1, x) && #[trigger] entry_holds(r, k2, x) ==> k1 == k2
}

/// Whether an interval with mark `m` holds an address.
pub open spec fn mark_holds(ivs: Seq<MarkedInterval>, m: u32, x: int) -> bool {
    exists|j: int| 0 <= j < ivs.len() && ivs[j].2 == m && #[trigger] in_interval(ivs[j], x)
}

/// A network of a concatenation holds an address when one of the parts does.
proof fn lemma_nets_hold_concat(a: Seq<IpNetwork>, b: Seq<IpNetwork>, x: int)
    ensures
        nets_hold(a + b, x) == (nets_hold(a, x) || nets_hold(b, x)),
{
    if nets_hold(a + b, x) {
        let j = choose|j: int| 0 <= j < (a + b).len() && (#[trigger] (a + b)[j]).contains(x);
        if j < a.len() {
            assert(a[j] == (a + b)[j]);
        } else {
            assert(b[j - a.len()] == (a + b)[j]);
        }
    }
    if nets_hold(a, x) {
        let j = choose|j: int| 0 <= j < a.len() && (#[trigger] a[j]).contains(x);
        assert((a + b)[j] == a[j]);
    }
    if nets_hold(b, x) {
        let j = choose|j: int| 0 <= j < b.len() && (#[trigger] b[j]).contains(x);
        assert((a + b)[j + a.len()] == b[j]);
    }
}

/// The networks of a mark hold exactly the addresses of its intervals.
proof fn lemma_mark_nets_hold(f: IpFamily, ivs: Seq<MarkedInterval>, m: u32, x: int)
    requires
        sorted_disjoint(ivs, family_max(f)),
    ensures
        nets_hold(mark_nets(f, ivs, m), x) == mark_holds(ivs, m, x),
    decreases ivs.len(),
{
    if ivs.len() == 0 {
        assert(!nets_hold(mark_nets(f, ivs, m), x));
    } else {
        let pre = ivs.drop_last();
        let last = ivs.last();
        assert(last == ivs[ivs.len() - 1]);
        assert(sorted_disjoint(pre, family_max(f))) by {
            assert forall|j: int| 0 <= j < pre.len() implies pre[j].0 <= #[trigger] pre[j].1 <= family_max(f) by {
                assert(pre[j] == ivs[j]);
            }
            assert forall|j: int, k: int| #![trigger pre[j], pre[k]] 0 <= j < k < pre.len() implies pre[j].1 < pre[k].0 by {
                assert(pre[j] == ivs[j] && pre[k] == ivs[k]);
            }
        }
        lemma_mark_nets_hold(f, pre, m, x);
        let b = if last.2 == m { interval_nets(f, last) } else { Seq::<IpNetwork>::empty() };
        assert(mark_nets(f, ivs, m) == mark_nets(f, pre, m) + b);
        lemma_nets_hold_concat(mark_nets(f, pre, m), b, x);
        if last.2 == m {
            lemma_range_to_cidrs_exact(f, last.0, last.1);
        } else {
            assert(!nets_hold(b, x));
        }
        if mark_holds(pre, m, x) {
            let j = choose|j: int| 0 <= j < pre.len() && pre[j].2 == m && #[trigger] in_interval(pre[j], x);
            assert(ivs[j] == pre[j]);
            assert(in_interval(ivs[j], x));
        }
        if mark_holds(ivs, m, x) {
            let j = choose|j: int| 0 <= j < ivs.len() && ivs[j].2 == m && #[trigger] in_interval(ivs[j], x);
            if j < ivs.len() - 1 {
                assert(ivs[j] == pre[j]);
                assert(in_interval(pre[j], x));
            }
        }
        if last.2 == m && in_interval(last, x) {
            assert(in_interval(ivs[ivs.len() - 1], x));
        }
    }
}

/// Every mark of an interval appears in `mark_order`.
proof fn lemma_mark_order_has(ivs: Seq<MarkedInterval>, j: int)
    requires
        0 <= j < ivs.len(),
    ensures
        mark_order(ivs).contains(ivs[j].2),
    decreases ivs.len(),
{
    let pre = ivs.drop_last();
    if j < ivs.len() - 1 {
        assert(pre[j] == ivs[j]);
        lemma_mark_order_has(pre, j);
        let h = choose|h: int| 0 <= h < mark_order(pre).len() && mark_order(pre)[h] == ivs[j].2;
        if !mark_order(pre).contains(ivs.last().2) {
            assert(mark_order(ivs)[h] == mark_order(pre)[h]);
        }
    } else {
        if !mark_order(pre).contains(ivs.last().2) {
            assert(mark_order(ivs).last() == ivs.last().2);
        }
    }
}

/// Whether an entry is a network of some group with that group's mark.
pub open spec fn in_group(marks: Seq<u32>, agg: Seq<Seq<IpNetwork>>, e: (IpNetwork, u32)) -> bool {
    exists|g: int| 0 <= g < marks.len() && e.1 == marks[g] && #[trigger] agg[g].contains(e.0)
}

/// Every entry of `assembled` is a network of some group with that group's
/// mark, and every network of every group is an entry.
proof fn lemma_assembled(marks: Seq<u32>, agg: Seq<Seq<IpNetwork>>)
    requires
        marks.len() == agg.len(),
    ensures
        forall|k: int|
            0 <= k < assembled(marks, agg).len() ==> in_group(marks, agg, #[trigger] assembled(marks, agg)[k]),
        forall|g: int, n: IpNetwork|
            0 <= g < marks.len() && #[trigger] agg[g].contains(n) ==> assembled(marks, agg).contains((n, marks[g])),
    decreases marks.len(),
{
    if marks.len() > 0 {
        let pm = marks.drop_last();
        let pa = agg.drop_last();
        lemma_assembled(pm, pa);
        let a = assembled(pm, pa);
        let b = pair_with(agg.last(), marks.last());
        let g0 = marks.len() - 1;
        let c = assembled(marks, agg);
        assert(c == a + b);
        assert forall|k: int| 0 <= k < c.len() implies in_group(marks, agg, #[trigger] c[k]) by {
            if k < a.len() {
                assert(c[k] == a[k]);
                assert(in_group(pm, pa, a[k]));
                let g = choose|g: int| 0 <= g < pm.len() && a[k].1 == pm[g] && #[trigger] pa[g].contains(a[k].0);
                assert(pa[g] == agg[g] && pm[g] == marks[g]);
                assert(agg[g].contains(c[k].0));
            } else {
                let j = k - a.len();
                assert(c[k] == b[j]);
                assert(b[j] == (agg[g0][j], marks[g0]));
                assert(agg[g0].contains(agg[g0][j]));
                assert(agg[g0].contains(c[k].0));
                assert(c[k].1 == marks[g0]);
            }
        }
        assert forall|g: int, n: IpNetwork| 0 <= g < marks.len() && #[trigger] agg[g].contains(n) implies c.contains(
            (n, marks[g]),
        ) by {
            if g < g0 {
                assert(pa[g] == agg[g] && pm[g] == marks[g]);
                assert(pa[g].contains(n));
                assert(a.contains((n, pm[g])));
                let k = choose|k: int| 0 <= k < a.len() && a[k] == (n, pm[g]);
                assert(c[k] == a[k]);
            } else {
                let j = choose|j: int| 0 <= j < agg[g].len() && agg[g][j] == n;
                assert(c[a.len() + j] == b[j]);
            }
        }
    }
}

/// Networks in ascending order without overlap are distinct.
proof fn lemma_ordered_distinct(nets: Seq<IpNetwork>)
    requires
        forall|j: int| 0 <= j < nets.len() ==> (#[trigger] nets[j]).wf(),
        forall|a: int, b: int|
            #![trigger nets[a], nets[b]]
            0 <= a < b < nets.len() ==> spec_broadcast(nets[a]) < spec_network(nets[b]),
    ensures
        nets.no_duplicates(),
{
    assert forall|a: int, b: int| 0 <= a < b < nets.len() implies nets[a] != nets[b] by {
        lemma_pow2_pos(host_bits_of(nets[a]));
        assert(spec_network(nets[a]) <= spec_broadcast(nets[a]));
    }
}

/// Groups with distinct marks and distinct networks assemble into distinct
/// entries.
proof fn lemma_assembled_distinct(marks: Seq<u32>, agg: Seq<Seq<IpNetwork>>)
    requires
        marks.len() == agg.len(),
        marks.no_duplicates(),
        forall|g: int| 0 <= g < agg.len() ==> (#[trigger] agg[g]).no_duplicates(),
    ensures
        assembled(marks, agg).no_duplicates(),
    decreases marks.len(),
{
    if marks.len() > 0 {
        let pm = marks.drop_last();
        let pa = agg.drop_last();
        assert forall|g: int| 0 <= g < pa.len() implies (#[trigger] pa[g]).no_duplicates() by {
            assert(pa[g] == agg[g]);
        }
        lemma_assembled_distinct(pm, pa);
        lemma_assembled(pm, pa);
        let a = assembled(pm, pa);
        let b = pair_with(agg.last(), marks.last());
        let c = assembled(marks, agg);
        assert(c == a + b);
        assert(agg.last() == agg[agg.len() - 1]);
        assert forall|i: int, j: int| 0 <= i < j < c.len() implies c[i] != c[j] by {
            if j < a.len() {
                assert(c[i] == a[i] && c[j] == a[j]);
            } else if i >= a.len() {
                assert(c[i] == b[i - a.len()] && c[j] == b[j - a.len()]);
                assert(agg.last()[i - a.len()] != agg.last()[j - a.len()]);
            } else {
                assert(c[i] == a[i] && c[j] == b[j - a.len()]);
                assert(in_group(pm, pa, a[i]));
                let g = choose|g: int| 0 <= g < pm.len() && a[i].1 == pm[g] && #[trigger] pa[g].contains(a[i].0);
                assert(pm[g] == marks[g]);
                assert(marks[g] != marks[marks.len() - 1]);
            }
        }
    }
}

/// The entry of an address held by some group: there is an entry of that
/// group's mark holding it.
proof fn lemma_group_entry(marks: Seq<u32>, agg: Seq<Seq<IpNetwork>>, g: int, x: int) -> (k: int)
    requires
        marks.len() == agg.len(),
        0 <= g < marks.len(),
        nets_hold(agg[g], x),
    ensures
        entry_holds(assembled(marks, agg), k, x),
        assembled(marks, agg)[k].1 == marks[g],
{
    lemma_assembled(marks, agg);
    let jj = choose|jj: int| 0 <= jj < agg[g].len() && (#[trigger] agg[g][jj]).contains(x);
    let n = agg[g][jj];
    assert(agg[g].contains(n));
    let r = assembled(marks, agg);
    assert(r.contains((n, marks[g])));
    let k = choose|k: int| 0 <= k < r.len() && r[k] == (n, marks[g]);
    k
}

/// The group an entry comes from holds the addresses the entry holds.
proof fn lemma_entry_group(marks: Seq<u32>, agg: Seq<Seq<IpNetwork>>, k: int, x: int) -> (g: int)
    requires
        marks.len() == agg.len(),
        entry_holds(assembled(marks, agg), k, x),
    ensures
        0 <= g < marks.len(),
        assembled(marks, agg)[k].1 == marks[g],
        agg[g].contains(assembled(marks, agg)[k].0),
        nets_hold(agg[g], x),
{
    lemma_assembled(marks, agg);
    let r = assembled(marks, agg);
    assert(in_group(marks, agg, r[k]));
    let g = choose|g: int| 0 <= g < marks.len() && r[k].1 == marks[g] && #[trigger] agg[g].contains(r[k].0);
    let jj = choose|jj: int| 0 <= jj < agg[g].len() && agg[g][jj] == r[k].0;
    assert(agg[g][jj].contains(x));
    g
}

/// Routing entries assembled from aggregated groups of a resolution steer
/// the subnets (see [`steers`]).
proof fn lemma_resolution_steers(
    subs: Seq<WeightedSubnet>,
    f: IpFamily,
    ivs: Seq<MarkedInterval>,
    marks: Seq<u32>,
    agg: Seq<Seq<IpNetwork>>,
)
    requires
        sorted_disjoint(ivs, family_max(f)),
        resolves(subs, ivs, family_max(f)),
        marks == mark_order(ivs),
        agg.len() == marks.len(),
        forall|h: int| 0 <= h < agg.len() ==> aggregate_laws(f, mark_nets(f, ivs, marks[h]), #[trigger] agg[h]),
    ensures
        steers(subs, f, assembled(marks, agg)),
{
    let r = assembled(marks, agg);
    lemma_assembled(marks, agg);
    assert forall|k: int| 0 <= k < r.len() implies (#[trigger] r[k]).0.wf() && r[k].0.family == f by {
        assert(in_group(marks, agg, r[k]));
        let g = choose|g: int| 0 <= g < marks.len() && r[k].1 == marks[g] && #[trigger] agg[g].contains(r[k].0);
        let jj = choose|jj: int| 0 <= jj < agg[g].len() && agg[g][jj] == r[k].0;
        assert(aggregate_laws(f, mark_nets(f, ivs, marks[g]), agg[g]));
        assert(agg[g][jj].wf());
    }
    assert forall|x: int| 0 <= x <= family_max(f) implies ((exists|k: int| #[trigger] entry_holds(r, k, x))
        <==> covered(subs, x)) by {
        if exists|k: int| #[trigger] entry_holds(r, k, x) {
            let k = choose|k: int| #[trigger] entry_holds(r, k, x);
            let g = lemma_entry_group(marks, agg, k, x);
            assert(aggregate_laws(f, mark_nets(f, ivs, marks[g]), agg[g]));
            assert(nets_hold(mark_nets(f, ivs, marks[g]), x));
            lemma_mark_nets_hold(f, ivs, marks[g], x);
            let j = choose|j: int| 0 <= j < ivs.len() && ivs[j].2 == marks[g] && #[trigger] in_interval(ivs[j], x);
            assert(in_some(ivs, x));
        }
        if covered(subs, x) {
            assert(in_some(ivs, x));
            let j = choose|j: int| 0 <= j < ivs.len() && #[trigger] in_interval(ivs[j], x);
            let m = ivs[j].2;
            lemma_mark_order_has(ivs, j);
            let g = choose|g: int| 0 <= g < marks.len() && marks[g] == m;
            assert(mark_holds(ivs, m, x));
            lemma_mark_nets_hold(f, ivs, m, x);
            assert(aggregate_laws(f, mark_nets(f, ivs, marks[g]), agg[g]));
            assert(nets_hold(agg[g], x));
            let k = lemma_group_entry(marks, agg, g, x);
            assert(entry_holds(r, k, x));
        }
    }
    lemma_mark_order_distinct(ivs);
    assert forall|g: int| 0 <= g < agg.len() implies (#[trigger] agg[g]).no_duplicates() by {
        assert(aggregate_laws(f, mark_nets(f, ivs, marks[g]), agg[g]));
        lemma_ordered_distinct(agg[g]);
    }
    lemma_assembled_distinct(marks, agg);
    assert forall|k1: int, k2: int, x: int|
        #[trigger] entry_holds(r, k1, x) && #[trigger] entry_holds(r, k2, x) implies k1 == k2 by {
        let g1 = lemma_entry_group(marks, agg, k1, x);
        let g2 = lemma_entry_group(marks, agg, k2, x);
        if g1 != g2 {
            assert(marks[g1] != marks[g2]);
            assert(aggregate_laws(f, mark_nets(f, ivs, marks[g1]), agg[g1]));
            assert(aggregate_laws(f, mark_nets(f, ivs, marks[g2]), agg[g2]));
            lemma_mark_nets_hold(f, ivs, marks[g1], x);
            lemma_mark_nets_hold(f, ivs, marks[g2], x);
            let j1 = choose|j: int| 0 <= j < ivs.len() && ivs[j].2 == marks[g1] && #[trigger] in_interval(ivs[j], x);
            let j2 = choose|j: int| 0 <= j < ivs.len() && ivs[j].2 == marks[g2] && #[trigger] in_interval(ivs[j], x);
            assert(ivs[j1].0 <= ivs[j1].1 && ivs[j2].0 <= ivs[j2].1);
            if j1 < j2 {
                assert(ivs[j1].1 < ivs[j2].0);
            } else {
                assert(ivs[j2].1 < ivs[j1].0);
            }
        } else {
            let g = g1;
            let i1 = choose|i: int| 0 <= i < agg[g].len() && agg[g][i] == r[k1].0;
            let i2 = choose|i: int| 0 <= i < agg[g].len() && agg[g][i] == r[k2].0;
            assert(aggregate_laws(f, mark_nets(f, ivs, marks[g]), agg[g]));
            if i1 < i2 {
                assert(spec_broadcast(agg[g][i1]) < spec_network(agg[g][i2]));
            } else if i2 < i1 {
                assert(spec_broadcast(agg[g][i2]) < spec_network(agg[g][i1]));
            } else {
                assert(r[k1] == r[k2]);
            }
        }
    }
    assert forall|k: int, x: int| #[trigger] entry_holds(r, k, x) implies exists|i: int|
        is_top(subs, x, i) && #[trigger] subs[i].1 == r[k].1 by {
        let g = lemma_entry_group(marks, agg, k, x);
        assert(aggregate_laws(f, mark_nets(f, ivs, marks[g]), agg[g]));
        assert(nets_hold(mark_nets(f, ivs, marks[g]), x));
        lemma_mark_nets_hold(f, ivs, marks[g], x);
        let j = choose|j: int| 0 <= j < ivs.len() && ivs[j].2 == marks[g] && #[trigger] in_interval(ivs[j], x);
        let i = choose|i: int| is_top(subs, x, i) && #[trigger] subs[i].1 == ivs[j].2;
    }
}

/// Resolves overlapping prioritised subnets of one family into routing
/// entries: every address held by some subnet is steered to the mark of the
/// subnet with the greatest (priority, prefix length, mark).
pub fn resolve_subnets(subnets: Vec<WeightedSubnet>, family: IpFamily) -> (r: Vec<(IpNetwork, u32)>)
    requires
        subnets_wf(subnets@, family),
    ensures
        exists|ivs: Seq<MarkedInterval>|
            #![trigger resolution_of(family, ivs)]
            sorted_disjoint(ivs, family_max(family)) && resolves(subnets@, ivs, family_max(family))
                && elementary(subnets@, ivs, family_max(family)) && r@ == resolution_of(family, ivs),
        steers(subnets@, family, r@),
{
    if subnets.len() == 0 {
        let r: Vec<(IpNetwork, u32)> = Vec::new();
        proof {
            let ivs = Seq::<MarkedInterval>::empty();
            assert(resolves(subnets@, ivs, family_max(family)));
            assert(r@ =~= resolution_of(family, ivs));
            assert forall|x: int| 0 <= x <= family_max(family) implies ((exists|k: int|
                #[trigger] entry_holds(r@, k, x)) <==> covered(subnets@, x)) by {
                if covered(subnets@, x) {
                    let i = choose|i: int| 0 <= i < subnets@.len() && #[trigger] covers(subnets@[i], x);
                }
            }
        }
        return r;
    }
    let ivs = sweep_intervals(&subnets, family);
    let groups = group_by_mark(family, &ivs);
    let mut marks: Vec<u32> = Vec::new();
    let mut agg: Vec<Vec<IpNetwork>> = Vec::new();
    let ghost order = mark_order(ivs@);
    for g in 0..groups.len()
        invariant
            groups@.len() == order.len(),
            order == mark_order(ivs@),
            sorted_disjoint(ivs@, family_max(family)),
            forall|h: int|
                0 <= h < groups@.len() ==> (#[trigger] groups@[h]).0 == order[h]
                    && groups@[h].1@ == mark_nets(family, ivs@, groups@[h].0),
            marks@ == order.take(g as int),
            agg@.len() == g,
            forall|h: int| 0 <= h < g ==> (#[trigger] agg@[h])@ == ipnet_aggregate(mark_nets(family, ivs@, order[h])),
            forall|h: int| 0 <= h < g ==> aggregate_laws(family, mark_nets(family, ivs@, order[h]), (#[trigger] agg@[h])@),
            resolves(subnets@, ivs@, family_max(family)),
    {
        let m = groups[g].0;
        proof {
            lemma_mark_nets_wf(family, ivs@, m);
        }
        let a = aggregate_nets(family, &groups[g].1);
        marks.push(m);
        agg.push(a);
        proof {
            assert(marks@ =~= order.take(g + 1));
        }
    }
    let r = assemble_resolved(&marks, &agg);
    proof {
        assert(marks@ =~= order);
        assert(agg@.map_values(|v: Vec<IpNetwork>| v@) =~= order.map_values(
            |m: u32| ipnet_aggregate(mark_nets(family, ivs@, m)),
        ));
        assert(r@ == resolution_of(family, ivs@));
        let aggv = agg@.map_values(|v: Vec<IpNetwork>| v@);
        assert forall|h: int| 0 <= h < aggv.len() implies aggregate_laws(
            family,
            mark_nets(family, ivs@, marks@[h]),
            #[trigger] aggv[h],
        ) by {
            assert(aggv[h] == agg@[h]@);
        }
        lemma_resolution_steers(subnets@, family, ivs@, marks@, aggv);
    }
    r
}

} // verus!
