//! The fake IP pool: hands out addresses of a subnet to (real address,
//! policy) pairs, and reuses the least recently used one when it runs out.
//!
//! Installing a mapping and changing a policy's mark are outside work, so the
//! pool is a state machine: a request yields an action, and the outcome of
//! that action is fed back as the next event.
use crate::net::{
    IpFamily, IpNetwork, bits_of, family_bits, family_max, lemma_network_bounds, lemma_pow2_128,
    lemma_pow2_le, pow2_u128, spec_broadcast, spec_network,
};
use crate::policy::{PolicyId, kind_code, spec_kind, spec_raw_id};
use dashmap::DashMap;
use lru::LruCache;
use std::collections::hash_map::RandomState;
use vstd::arithmetic::power2::*;
use vstd::prelude::*;

verus! {

/// A real address under a policy, keyed by plain integers: the address, the
/// policy's kind code and the policy's row id.
pub type RealKey = (u128, u8, i64);

/// A fake address and the mark of the interface it steers to.
pub type Assigned = (u128, u32);

#[verifier::external_type_specification]
#[verifier::external_body]
#[verifier::reject_recursive_types(K)]
#[verifier::reject_recursive_types(V)]
#[verifier::reject_recursive_types(S)]
pub struct ExDashMap<K, V, S>(DashMap<K, V, S>);

#[verifier::external_type_specification]
#[verifier::external_body]
#[verifier::reject_recursive_types(K)]
#[verifier::reject_recursive_types(V)]
#[verifier::reject_recursive_types(S)]
pub struct ExLruCache<K, V, S>(LruCache<K, V, S>);

/// What the real_ip-to-fake index holds.
pub uninterp spec fn real_index(m: DashMap<RealKey, Assigned>) -> Map<RealKey, Assigned>;

/// What the fake-to-real_ip index holds.
pub uninterp spec fn fake_index(m: DashMap<u128, RealKey>) -> Map<u128, RealKey>;

/// The keys of the recency list, least recently used first.
pub uninterp spec fn lru_order(c: LruCache<u128, (), RandomState>) -> Seq<u128>;

/// The capacity the recency list was made with.
pub uninterp spec fn lru_capacity(c: LruCache<u128, (), RandomState>) -> nat;

/// `DashMap::new`: an empty real_ip-to-fake index.
#[verifier::external_body]
fn real_index_new() -> (m: DashMap<RealKey, Assigned>)
    ensures
        real_index(m) =~= Map::empty(),
{
    DashMap::new()
}

/// `DashMap::new`: an empty fake-to-real_ip index.
#[verifier::external_body]
fn fake_index_new() -> (m: DashMap<u128, RealKey>)
    ensures
        fake_index(m) =~= Map::empty(),
{
    DashMap::new()
}

/// `DashMap::get`, copying the value out of the guard.
#[verifier::external_body]
fn real_index_get(m: &DashMap<RealKey, Assigned>, k: RealKey) -> (r: Option<Assigned>)
    ensures
        r == (if real_index(*m).contains_key(k) {
            Some(real_index(*m)[k])
        } else {
            None
        }),
{
    m.get(&k).map(|v| *v)
}

/// `DashMap::insert`: the key now maps to the value.
#[verifier::external_body]
fn real_index_insert(m: &mut DashMap<RealKey, Assigned>, k: RealKey, v: Assigned)
    ensures
        real_index(*final(m)) == real_index(*old(m)).insert(k, v),
{
    m.insert(k, v);
}

/// `DashMap::remove`: the key no longer maps to anything.
#[verifier::external_body]
fn real_index_remove(m: &mut DashMap<RealKey, Assigned>, k: RealKey)
    ensures
        real_index(*final(m)) == real_index(*old(m)).remove(k),
{
    m.remove(&k);
}

/// `DashMap::insert`: the key now maps to the value.
#[verifier::external_body]
fn fake_index_insert(m: &mut DashMap<u128, RealKey>, k: u128, v: RealKey)
    ensures
        fake_index(*final(m)) == fake_index(*old(m)).insert(k, v),
{
    m.insert(k, v);
}

/// `DashMap::remove`: returns what the key mapped to, and removes it.
#[verifier::external_body]
fn fake_index_remove(m: &mut DashMap<u128, RealKey>, k: u128) -> (r: Option<RealKey>)
    ensures
        fake_index(*final(m)) == fake_index(*old(m)).remove(k),
        r == (if fake_index(*old(m)).contains_key(k) {
            Some(fake_index(*old(m))[k])
        } else {
            None
        }),
{
    m.remove(&k).map(|(_, v)| v)
}

/// `LruCache::with_hasher`: an empty recency list of the given capacity.
#[verifier::external_body]
fn lru_new(cap: usize) -> (c: LruCache<u128, (), RandomState>)
    requires
        cap > 0,
    ensures
        lru_order(c) == Seq::<u128>::empty(),
        lru_capacity(c) == cap,
{
    LruCache::with_hasher(std::num::NonZeroUsize::new(cap).unwrap(), RandomState::new())
}

/// Moving a key to the most recently used end, if it is there.
pub open spec fn lru_touched(s: Seq<u128>, k: u128) -> Seq<u128> {
    if s.contains(k) {
        s.remove_value(k).push(k)
    } else {
        s
    }
}

/// Adding a key as most recently used, dropping the least recently used one
/// when the list is full.
pub open spec fn lru_added(s: Seq<u128>, k: u128, cap: nat) -> Seq<u128> {
    if s.contains(k) {
        s.remove_value(k).push(k)
    } else if s.len() >= cap {
        s.drop_first().push(k)
    } else {
        s.push(k)
    }
}

/// `LruCache::get`: marks the key, if present, as most recently used.
#[verifier::external_body]
fn lru_touch(c: &mut LruCache<u128, (), RandomState>, k: u128)
    ensures
        lru_order(*final(c)) == lru_touched(lru_order(*old(c)), k),
        lru_capacity(*final(c)) == lru_capacity(*old(c)),
{
    c.get(&k);
}

/// `LruCache::peek_lru`: the least recently used key, without reordering.
#[verifier::external_body]
fn lru_peek_lru(c: &LruCache<u128, (), RandomState>) -> (r: Option<u128>)
    ensures
        r == (if lru_order(*c).len() > 0 {
            Some(lru_order(*c)[0])
        } else {
            None
        }),
{
    c.peek_lru().map(|(k, _)| *k)
}

/// `LruCache::pop_lru`: removes the least recently used key.
#[verifier::external_body]
fn lru_pop_lru(c: &mut LruCache<u128, (), RandomState>)
    ensures
        lru_order(*final(c)) == (if lru_order(*old(c)).len() > 0 {
            lru_order(*old(c)).drop_first()
        } else {
            lru_order(*old(c))
        }),
        lru_capacity(*final(c)) == lru_capacity(*old(c)),
{
    c.pop_lru();
}

/// `LruCache::put`: adds the key as most recently used, evicting the least
/// recently used key when the list is full.
#[verifier::external_body]
fn lru_put(c: &mut LruCache<u128, (), RandomState>, k: u128)
    ensures
        lru_order(*final(c)) == lru_added(lru_order(*old(c)), k, lru_capacity(*old(c))),
        lru_capacity(*final(c)) == lru_capacity(*old(c)),
{
    c.put(k, ());
}

/// The plain key of a real address under a policy.
pub open spec fn real_key(real_ip: u128, policy: PolicyId) -> RealKey {
    (real_ip, kind_code(spec_kind(policy)) as u8, spec_raw_id(policy))
}

fn make_key(real_ip: u128, policy: PolicyId) -> (k: RealKey)
    ensures
        k == real_key(real_ip, policy),
{
    (real_ip, policy.kind().code(), policy.raw_id())
}

/// The number of fake addresses a subnet offers: all addresses but the
/// network and broadcast addresses of an IPv4 subnet, all but the network
/// address of an IPv6 subnet, at most `u64::MAX`.
pub open spec fn spec_total_hosts(n: IpNetwork) -> nat {
    match n.family {
        IpFamily::V4 => if n.prefix_len >= 31 {
            0
        } else {
            (pow2((32 - n.prefix_len) as nat) - 2) as nat
        },
        IpFamily::V6 => if n.prefix_len >= 128 {
            0
        } else if 128 - n.prefix_len >= 64 {
            u64::MAX as nat
        } else {
            (pow2((128 - n.prefix_len) as nat) - 1) as nat
        },
    }
}

/// The number of fake addresses a subnet offers.
pub fn total_hosts(n: IpNetwork) -> (t: u64)
    requires
        n.wf(),
    ensures
        t == spec_total_hosts(n),
        t as int <= pow2(crate::net::host_bits(n)) - 1,
{
    proof {
        lemma2_to64();
        lemma_pow2_128();
    }
    let hb = bits_of(n.family) - n.prefix_len as u32;
    match n.family {
        IpFamily::V4 => {
            if n.prefix_len >= 31 {
                0
            } else {
                let size = pow2_u128(hb);
                proof {
                    lemma_pow2_le(hb as nat, 32);
                    lemma_pow2_le(2, hb as nat);
                }
                (size - 2) as u64
            }
        },
        IpFamily::V6 => {
            if n.prefix_len >= 128 {
                0
            } else if hb >= 64 {
                proof {
                    lemma_pow2_le(64, hb as nat);
                }
                u64::MAX
            } else {
                let size = pow2_u128(hb);
                proof {
                    lemma_pow2_le(hb as nat, 64);
                    lemma_pow2_le(1, hb as nat);
                }
                (size - 1) as u64
            }
        },
    }
}

/// The outside work a pending request waits for.
#[derive(Debug, Clone, Copy, PartialEq, Eq, Structural)]
pub enum PendingStep {
    /// The policy's mark must change before the known fake address is answered.
    Mark { fake: u128 },
    /// The mapping from the fake address must be installed; `replace` when the
    /// fake address is taken back from its least recently used owner.
    Install { fake: u128, replace: bool },
}

/// A request waiting for the outcome of outside work.
#[derive(Debug, Clone, Copy, PartialEq, Eq, Structural)]
pub struct Pending {
    pub real_ip: u128,
    pub policy: PolicyId,
    pub fwmark: u32,
    pub step: PendingStep,
}

/// What happens to the pool.
#[derive(Debug, Clone, Copy, PartialEq, Eq, Structural)]
pub enum PoolEvent {
    /// A fake address is wanted for a real address under a policy and mark.
    Request { real_ip: u128, policy: PolicyId, fwmark: u32 },
    /// The policy's mark was set (`true`) or setting it failed.
    MarkSet(bool),
    /// The mapping was installed (`true`) or installing it failed.
    MappingAdded(bool),
    /// The caller gave up on the request in flight before its outside work
    /// reported back; it is rolled back as if that work had failed.
    Abort,
}

/// What the pool asks of its caller.
#[derive(Debug, Clone, Copy, PartialEq, Eq, Structural)]
pub enum PoolAction {
    /// Answer with this fake address.
    Done(u128),
    /// Set the policy's mark, then report `MarkSet`.
    SetMark { policy: PolicyId, fwmark: u32 },
    /// Install the mapping from `fake` to `real_ip` for the policy (replacing an
    /// existing mapping of `fake` when `replace`), then report `MappingAdded`.
    AddMapping { fake: u128, real_ip: u128, policy: PolicyId, replace: bool },
    /// The outside work failed; the request fails and nothing was published.
    Failed,
    /// No address is free and none was ever handed out.
    Exhausted,
    /// The event does not fit the pool's state; nothing changed.
    Unexpected,
}

/// The abstract state of a pool.
pub struct PoolView {
    pub r2f: Map<RealKey, Assigned>,
    pub f2r: Map<u128, RealKey>,
    pub lru: Seq<u128>,
    pub cap: nat,
    pub next: u64,
    pub total: u64,
    pub base: u128,
    pub family: IpFamily,
    pub pending: Option<Pending>,
}

/// The next fake address is taken from the pool only once installing it
/// succeeded; `committed_next` counts the addresses handed out for good.
pub open spec fn committed_next(v: PoolView) -> int {
    match v.pending {
        Some(p) => match p.step {
            PendingStep::Install { fake, replace } => if replace {
                v.next as int
            } else {
                v.next - 1
            },
            _ => v.next as int,
        },
        None => v.next as int,
    }
}

/// The invariant of a pool.
pub open spec fn pool_wf(v: PoolView) -> bool {
    &&& v.next <= v.total
    &&& v.cap > 0
    &&& v.base + v.total <= family_max(v.family)
    &&& v.lru.no_duplicates()
    &&& committed_next(v) >= 0
    &&& committed_next(v) > 0 ==> v.lru.len() > 0
    &&& forall|i: int| 0 <= i < v.lru.len() ==> v.f2r.contains_key(#[trigger] v.lru[i])
    // the two indexes are inverse
    &&& forall|k: RealKey| #[trigger] v.r2f.contains_key(k) ==> v.f2r.contains_key(v.r2f[k].0) && v.f2r[v.r2f[k].0] == k
    &&& forall|f: u128| #[trigger] v.f2r.contains_key(f) ==> v.r2f.contains_key(v.f2r[f]) && v.r2f[v.f2r[f]].0 == f
    // fake addresses handed out lie among the first `committed_next` hosts
    &&& forall|f: u128| #[trigger] v.f2r.contains_key(f) ==> v.base < f <= v.base + committed_next(v)
    &&& match v.pending {
        Some(p) => {
            let key = real_key(p.real_ip, p.policy);
            match p.step {
                PendingStep::Mark { fake } => v.r2f.contains_key(key) && v.r2f[key].0 == fake,
                PendingStep::Install { fake, replace } => {
                    &&& !v.r2f.contains_key(key)
                    &&& replace ==> v.lru.len() > 0 && v.lru[0] == fake
                    &&& !replace ==> v.next >= 1 && fake == v.base + v.next
                },
            }
        },
        None => true,
    }
}

/// The pool after an event, and the action it asks for.
pub open spec fn spec_step(v: PoolView, e: PoolEvent) -> (PoolView, PoolAction) {
    match e {
        PoolEvent::Request { real_ip, policy, fwmark } => {
            let key = real_key(real_ip, policy);
            if v.pending is Some {
                (v, PoolAction::Unexpected)
            } else if v.r2f.contains_key(key) {
                let a = v.r2f[key];
                if a.1 == fwmark {
                    (PoolView { lru: lru_touched(v.lru, a.0), ..v }, PoolAction::Done(a.0))
                } else {
                    (
                        PoolView {
                            pending: Some(
                                Pending { real_ip, policy, fwmark, step: PendingStep::Mark { fake: a.0 } },
                            ),
                            ..v
                        },
                        PoolAction::SetMark { policy, fwmark },
                    )
                }
            } else if v.next < v.total {
                let fake = (v.base + 1 + v.next) as u128;
                (
                    PoolView {
                        next: (v.next + 1) as u64,
                        pending: Some(
                            Pending {
                                real_ip,
                                policy,
                                fwmark,
                                step: PendingStep::Install { fake, replace: false },
                            },
                        ),
                        ..v
                    },
                    PoolAction::AddMapping { fake, real_ip, policy, replace: false },
                )
            } else if v.lru.len() > 0 {
                let fake = v.lru[0];
                (
                    PoolView {
                        pending: Some(
                            Pending {
                                real_ip,
                                policy,
                                fwmark,
                                step: PendingStep::Install { fake, replace: true },
                            },
                        ),
                        ..v
                    },
                    PoolAction::AddMapping { fake, real_ip, policy, replace: true },
                )
            } else {
                (v, PoolAction::Exhausted)
            }
        },
        PoolEvent::MarkSet(ok) => match v.pending {
            Some(p) => match p.step {
                PendingStep::Mark { fake } => if ok {
                    (
                        PoolView {
                            r2f: v.r2f.insert(real_key(p.real_ip, p.policy), (fake, p.fwmark)),
                            lru: lru_touched(v.lru, fake),
                            pending: None,
                            ..v
                        },
                        PoolAction::Done(fake),
                    )
                } else {
                    (PoolView { pending: None, ..v }, PoolAction::Failed)
                },
                _ => (v, PoolAction::Unexpected),
            },
            None => (v, PoolAction::Unexpected),
        },
        PoolEvent::MappingAdded(ok) => match v.pending {
            Some(p) => match p.step {
                PendingStep::Install { fake, replace } => if !ok {
                    (
                        PoolView {
                            next: if replace {
                                v.next
                            } else {
                                (v.next - 1) as u64
                            },
                            pending: None,
                            ..v
                        },
                        PoolAction::Failed,
                    )
                } else {
                    let key = real_key(p.real_ip, p.policy);
                    let lru1 = if replace && v.lru.len() > 0 {
                        v.lru.drop_first()
                    } else {
                        v.lru
                    };
                    let r2f1 = if replace && v.f2r.contains_key(fake) {
                        v.r2f.remove(v.f2r[fake])
                    } else {
                        v.r2f
                    };
                    let f2r1 = if replace {
                        v.f2r.remove(fake)
                    } else {
                        v.f2r
                    };
                    (
                        PoolView {
                            r2f: r2f1.insert(key, (fake, p.fwmark)),
                            f2r: f2r1.insert(fake, key),
                            lru: lru_added(lru1, fake, v.cap),
                            pending: None,
                            ..v
                        },
                        PoolAction::Done(fake),
                    )
                },
                _ => (v, PoolAction::Unexpected),
            },
            None => (v, PoolAction::Unexpected),
        },
        PoolEvent::Abort => match v.pending {
            Some(p) => match p.step {
                PendingStep::Mark { .. } => (PoolView { pending: None, ..v }, PoolAction::Failed),
                PendingStep::Install { fake, replace } => (
                    PoolView {
                        next: if replace {
                            v.next
                        } else {
                            (v.next - 1) as u64
                        },
                        pending: None,
                        ..v
                    },
                    PoolAction::Failed,
                ),
            },
            None => (v, PoolAction::Unexpected),
        },
    }
}

/// A pool of fake addresses of one subnet.
pub struct IpPool {
    real_to_fake: DashMap<RealKey, Assigned>,
    fake_to_real: DashMap<u128, RealKey>,
    lru: LruCache<u128, (), RandomState>,
    next_host_index: u64,
    total_hosts: u64,
    base: u128,
    family: IpFamily,
    pending: Option<Pending>,
}

/// Largest number of recency entries the pool tracks.
pub const LRU_CAPACITY_LIMIT: u64 = 1_000_000;

impl IpPool {
    /// The abstract state of the pool.
    pub closed spec fn view(&self) -> PoolView {
        PoolView {
            r2f: real_index(self.real_to_fake),
            f2r: fake_index(self.fake_to_real),
            lru: lru_order(self.lru),
            cap: lru_capacity(self.lru),
            next: self.next_host_index,
            total: self.total_hosts,
            base: self.base,
            family: self.family,
            pending: self.pending,
        }
    }

    /// A new pool over the hosts of `network`: nothing handed out, recency
    /// tracked for at most a million addresses. The network must have a
    /// usable host (an IPv4 /31 or /32 and an IPv6 /128 have none).
    pub fn new(network: IpNetwork) -> (p: IpPool)
        requires
            network.wf(),
            spec_total_hosts(network) > 0,
        ensures
            pool_wf(p.view()),
            p.view().r2f == Map::<RealKey, Assigned>::empty(),
            p.view().f2r == Map::<u128, RealKey>::empty(),
            p.view().lru == Seq::<u128>::empty(),
            p.view().next == 0,
            p.view().total == spec_total_hosts(network),
            p.view().base == spec_network(network),
            p.view().family == network.family,
            p.view().pending is None,
            p.view().cap == (if spec_total_hosts(network) == 0 {
                1
            } else if spec_total_hosts(network) > LRU_CAPACITY_LIMIT {
                LRU_CAPACITY_LIMIT as nat
            } else {
                spec_total_hosts(network)
            }),
    {
        proof {
            lemma_network_bounds(network);
        }
        let total = total_hosts(network);
        let cap: u64 = if total == 0 {
            1
        } else if total > LRU_CAPACITY_LIMIT {
            LRU_CAPACITY_LIMIT
        } else {
            total
        };
        IpPool {
            real_to_fake: real_index_new(),
            fake_to_real: fake_index_new(),
            lru: lru_new(cap as usize),
            next_host_index: 0,
            total_hosts: total,
            base: network.network(),
            family: network.family,
            pending: None,
        }
    }

    /// The fake address a real address holds under a policy, if any.
    pub fn lookup(&self, real_ip: u128, policy: PolicyId) -> (r: Option<u128>)
        ensures
            r == (if self.view().r2f.contains_key(real_key(real_ip, policy)) {
                Some(self.view().r2f[real_key(real_ip, policy)].0)
            } else {
                None
            }),
    {
        match real_index_get(&self.real_to_fake, make_key(real_ip, policy)) {
            Some(a) => Some(a.0),
            None => None,
        }
    }

    /// The request waiting for outside work, if any.
    pub fn pending(&self) -> (r: Option<Pending>)
        ensures
            r == self.view().pending,
    {
        self.pending
    }

    /// Applies an event and returns the action the caller must take next.
    pub fn step(&mut self, e: PoolEvent) -> (a: PoolAction)
        requires
            pool_wf(old(self).view()),
        ensures
            (final(self).view(), a) == spec_step(old(self).view(), e),
            pool_wf(final(self).view()),
    {
        proof {
            lemma_step_wf(self.view(), e);
        }
        match e {
            PoolEvent::Request { real_ip, policy, fwmark } => {
                if self.pending.is_some() {
                    return PoolAction::Unexpected;
                }
                let key = make_key(real_ip, policy);
                match real_index_get(&self.real_to_fake, key) {
                    Some(a) => {
                        if a.1 == fwmark {
                            lru_touch(&mut self.lru, a.0);
                            PoolAction::Done(a.0)
                        } else {
                            self.pending = Some(
                                Pending { real_ip, policy, fwmark, step: PendingStep::Mark { fake: a.0 } },
                            );
                            PoolAction::SetMark { policy, fwmark }
                        }
                    },
                    None => {
                        if self.next_host_index < self.total_hosts {
                            let fake = self.base + 1 + self.next_host_index as u128;
                            self.next_host_index = self.next_host_index + 1;
                            self.pending = Some(
                                Pending {
                                    real_ip,
                                    policy,
                                    fwmark,
                                    step: PendingStep::Install { fake, replace: false },
                                },
                            );
                            PoolAction::AddMapping { fake, real_ip, policy, replace: false }
                        } else {
                            match lru_peek_lru(&self.lru) {
                                Some(fake) => {
                                    self.pending = Some(
                                        Pending {
                                            real_ip,
                                            policy,
                                            fwmark,
                                            step: PendingStep::Install { fake, replace: true },
                                        },
                                    );
                                    PoolAction::AddMapping { fake, real_ip, policy, replace: true }
                                },
                                None => PoolAction::Exhausted,
                            }
                        }
                    },
                }
            },
            PoolEvent::MarkSet(ok) => {
                match self.pending {
                    Some(p) => match p.step {
                        PendingStep::Mark { fake } => {
                            self.pending = None;
                            if ok {
                                let key = make_key(p.real_ip, p.policy);
                                real_index_insert(&mut self.real_to_fake, key, (fake, p.fwmark));
                                lru_touch(&mut self.lru, fake);
                                PoolAction::Done(fake)
                            } else {
                                PoolAction::Failed
                            }
                        },
                        _ => PoolAction::Unexpected,
                    },
                    None => PoolAction::Unexpected,
                }
            },
            PoolEvent::MappingAdded(ok) => {
                match self.pending {
                    Some(p) => match p.step {
                        PendingStep::Install { fake, replace } => {
                            self.pending = None;
                            if !ok {
                                if !replace {
                                    self.next_host_index = self.next_host_index - 1;
                                }
                                return PoolAction::Failed;
                            }
                            let key = make_key(p.real_ip, p.policy);
                            if replace {
                                lru_pop_lru(&mut self.lru);
                                match fake_index_remove(&mut self.fake_to_real, fake) {
                                    Some(old_key) => real_index_remove(&mut self.real_to_fake, old_key),
                                    None => {},
                                }
                            }
                            real_index_insert(&mut self.real_to_fake, key, (fake, p.fwmark));
                            fake_index_insert(&mut self.fake_to_real, fake, key);
                            lru_put(&mut self.lru, fake);
                            PoolAction::Done(fake)
                        },
                        _ => PoolAction::Unexpected,
                    },
                    None => PoolAction::Unexpected,
                }
            },
            PoolEvent::Abort => {
                match self.pending {
                    Some(p) => {
                        self.pending = None;
                        match p.step {
                            PendingStep::Mark { .. } => PoolAction::Failed,
                            PendingStep::Install { fake: _, replace } => {
                                if !replace {
                                    self.next_host_index = self.next_host_index - 1;
                                }
                                PoolAction::Failed
                            },
                        }
                    },
                    None => PoolAction::Unexpected,
                }
            },
        }
    }
}

/// Removing a value from a list without duplicates removes exactly that value.
pub proof fn lemma_remove_value_contains(s: Seq<u128>, k: u128, x: u128)
    requires
        s.no_duplicates(),
        s.contains(k),
    ensures
        s.remove_value(k).contains(x) <==> (s.contains(x) && x != k),
        s.remove_value(k).no_duplicates(),
        s.remove_value(k).len() == s.len() - 1,
{
    let i = s.index_of_first(k);
    s.index_of_first_ensures(k);
    let i = i.unwrap();
    let r = s.remove(i);
    assert(s.remove_value(k) == r);
    if r.contains(x) {
        let j = choose|j: int| 0 <= j < r.len() && r[j] == x;
        if j < i {
            assert(s[j] == x);
        } else {
            assert(s[j + 1] == x);
        }
    }
    if s.contains(x) && x != k {
        let j = choose|j: int| 0 <= j < s.len() && s[j] == x;
        if j < i {
            assert(r[j] == x);
        } else {
            assert(j != i);
            assert(r[j - 1] == x);
        }
    }
    assert forall|a: int, b: int| 0 <= a < b < r.len() implies r[a] != r[b] by {
        let a2 = if a < i { a } else { a + 1 };
        let b2 = if b < i { b } else { b + 1 };
        assert(r[a] == s[a2] && r[b] == s[b2]);
    }
}

/// Recency-list updates keep the list free of duplicates, and adding a key
/// leaves it non-empty and holding that key.
pub proof fn lemma_lru_updates(s: Seq<u128>, k: u128, cap: nat)
    requires
        s.no_duplicates(),
        cap > 0,
    ensures
        lru_touched(s, k).no_duplicates(),
        lru_touched(s, k).len() == s.len(),
        lru_added(s, k, cap).no_duplicates(),
        lru_added(s, k, cap).len() > 0,
        lru_added(s, k, cap).contains(k),
        forall|x: u128| #[trigger] lru_touched(s, k).contains(x) <==> s.contains(x),
        forall|x: u128| #[trigger] lru_added(s, k, cap).contains(x) ==> s.contains(x) || x == k,
{
    assert forall|x: u128| #[trigger] lru_touched(s, k).contains(x) <==> s.contains(x) by {
        if s.contains(k) {
            lemma_remove_value_contains(s, k, x);
            let r = s.remove_value(k);
            if r.push(k).contains(x) {
                let j = choose|j: int| 0 <= j < r.push(k).len() && r.push(k)[j] == x;
                if j < r.len() {
                    assert(r[j] == x);
                }
            }
            if s.contains(x) {
                if x == k {
                    assert(r.push(k)[r.len() as int] == k);
                } else {
                    let j = choose|j: int| 0 <= j < r.len() && r[j] == x;
                    assert(r.push(k)[j] == x);
                }
            }
        }
    }
    assert forall|x: u128| #[trigger] lru_added(s, k, cap).contains(x) implies s.contains(x) || x == k by {
        let t = lru_added(s, k, cap);
        let j = choose|j: int| 0 <= j < t.len() && t[j] == x;
        if s.contains(k) {
            assert(lru_touched(s, k).contains(x));
        } else if s.len() >= cap {
            if j < s.len() - 1 {
                assert(s[j + 1] == x);
            }
        } else {
            if j < s.len() {
                assert(s[j] == x);
            }
        }
    }
    if s.contains(k) {
        let r = s.remove_value(k);
        lemma_remove_value_contains(s, k, k);
        assert forall|a: int, b: int| 0 <= a < b < r.push(k).len() implies r.push(k)[a] != r.push(k)[b] by {
            if b == r.len() {
                assert(r.contains(r[a]));
                lemma_remove_value_contains(s, k, r[a]);
            }
        }
        assert(r.push(k)[r.len() as int] == k);
    } else if s.len() >= cap {
        let r = s.drop_first();
        assert forall|a: int, b: int| 0 <= a < b < r.push(k).len() implies r.push(k)[a] != r.push(k)[b] by {
            if b == r.len() {
                assert(r[a] == s[a + 1]);
            } else {
                assert(r[a] == s[a + 1] && r[b] == s[b + 1]);
            }
        }
        assert(r.push(k)[r.len() as int] == k);
    } else {
        assert forall|a: int, b: int| 0 <= a < b < s.push(k).len() implies s.push(k)[a] != s.push(k)[b] by {
            if b == s.len() {
                assert(s.contains(s[a]));
            }
        }
        assert(s.push(k)[s.len() as int] == k);
    }
}

/// Every event keeps the pool's invariant.
pub proof fn lemma_step_wf(v: PoolView, e: PoolEvent)
    requires
        pool_wf(v),
    ensures
        pool_wf(spec_step(v, e).0),
{
    lemma_lru_updates(v.lru, 0, v.cap);
    crate::sweep::lemma_family_max(v.family);
    match e {
        PoolEvent::Request { real_ip, policy, fwmark } => {
            let key = real_key(real_ip, policy);
            let w = spec_step(v, e).0;
            let hit = v.pending is None && v.r2f.contains_key(key);
            if hit {
                lemma_lru_updates(v.lru, v.r2f[key].0, v.cap);
            }
            assert forall|i: int| 0 <= i < w.lru.len() implies w.f2r.contains_key(#[trigger] w.lru[i]) by {
                if hit && v.r2f[key].1 == fwmark {
                    assert(w.lru.contains(w.lru[i]));
                    assert(v.lru.contains(w.lru[i]));
                    let j = choose|j: int| 0 <= j < v.lru.len() && v.lru[j] == w.lru[i];
                    assert(v.f2r.contains_key(v.lru[j]));
                } else {
                    assert(w.lru == v.lru);
                    assert(v.f2r.contains_key(v.lru[i]));
                }
            }
            assert(pool_wf(w));
        },
        PoolEvent::MarkSet(ok) => {
            if let Some(p) = v.pending {
                if let PendingStep::Mark { fake } = p.step {
                    lemma_lru_updates(v.lru, fake, v.cap);
                    let key = real_key(p.real_ip, p.policy);
                    let w = spec_step(v, e).0;
                    assert forall|i: int| 0 <= i < w.lru.len() implies w.f2r.contains_key(#[trigger] w.lru[i]) by {
                        assert(w.lru.contains(w.lru[i]));
                        assert(v.lru.contains(w.lru[i]));
                        let j = choose|j: int| 0 <= j < v.lru.len() && v.lru[j] == w.lru[i];
                        assert(v.f2r.contains_key(v.lru[j]));
                    }
                    if ok {
                        assert forall|k: RealKey| #[trigger] w.r2f.contains_key(k) implies w.f2r.contains_key(
                            w.r2f[k].0,
                        ) && w.f2r[w.r2f[k].0] == k by {
                            if k == key {
                                assert(v.f2r[fake] == key);
                            }
                        }
                        assert forall|f: u128| #[trigger] w.f2r.contains_key(f) implies w.r2f.contains_key(
                            w.f2r[f],
                        ) && w.r2f[w.f2r[f]].0 == f by {
                            if v.f2r[f] == key {
                                assert(v.r2f[key].0 == f);
                            }
                        }
                    }
                }
            }
        },
        PoolEvent::MappingAdded(ok) => {
            if let Some(p) = v.pending {
                if let PendingStep::Install { fake, replace } = p.step {
                    if ok {
                        lemma_step_install_wf(v, p, fake, replace);
                    }
                }
            }
        },
        PoolEvent::Abort => {},
    }
}

/// Giving up on the request in flight rolls the pool back exactly as a
/// failure of the outside work it waited for.
pub proof fn lemma_abort_is_failure(v: PoolView)
    requires
        v.pending is Some,
    ensures
        spec_step(v, PoolEvent::Abort) == match v.pending->0.step {
            PendingStep::Mark { .. } => spec_step(v, PoolEvent::MarkSet(false)),
            PendingStep::Install { .. } => spec_step(v, PoolEvent::MappingAdded(false)),
        },
{
}

/// Aborting settles any pool: afterwards no request is in flight, the
/// invariant still holds, and a pool with nothing in flight is left as it
/// was. The laws stated for pools without a request in flight thus hold of
/// every pool once a stale request is aborted.
pub proof fn lemma_abort_settles(v: PoolView)
    requires
        pool_wf(v),
    ensures
        spec_step(v, PoolEvent::Abort).0.pending is None,
        pool_wf(spec_step(v, PoolEvent::Abort).0),
        v.pending is None ==> spec_step(v, PoolEvent::Abort).0 == v,
{
    lemma_step_wf(v, PoolEvent::Abort);
}

/// A successful installation keeps the pool's invariant.
proof fn lemma_step_install_wf(v: PoolView, p: Pending, fake: u128, replace: bool)
    requires
        pool_wf(v),
        v.pending == Some(p),
        p.step == (PendingStep::Install { fake, replace }),
    ensures
        pool_wf(spec_step(v, PoolEvent::MappingAdded(true)).0),
{
    let w = spec_step(v, PoolEvent::MappingAdded(true)).0;
    let key = real_key(p.real_ip, p.policy);
    let lru1 = if replace && v.lru.len() > 0 {
        v.lru.drop_first()
    } else {
        v.lru
    };
    assert(lru1.no_duplicates()) by {
        if replace && v.lru.len() > 0 {
            assert forall|a: int, b: int| 0 <= a < b < lru1.len() implies lru1[a] != lru1[b] by {
                assert(lru1[a] == v.lru[a + 1] && lru1[b] == v.lru[b + 1]);
            }
        }
    }
    lemma_lru_updates(lru1, fake, v.cap);
    if replace {
        assert(v.f2r.contains_key(v.lru[0]));
    }
    let r2f1 = if replace && v.f2r.contains_key(fake) {
        v.r2f.remove(v.f2r[fake])
    } else {
        v.r2f
    };
    let f2r1 = if replace {
        v.f2r.remove(fake)
    } else {
        v.f2r
    };
    assert(!f2r1.contains_key(fake));
    // the intermediate indexes are still inverse
    assert forall|k: RealKey| #[trigger] r2f1.contains_key(k) implies f2r1.contains_key(r2f1[k].0)
        && f2r1[r2f1[k].0] == k by {
        assert(v.r2f.contains_key(k));
        if replace && v.r2f[k].0 == fake {
            assert(v.f2r[fake] == k);
        }
    }
    assert forall|f: u128| #[trigger] f2r1.contains_key(f) implies r2f1.contains_key(f2r1[f])
        && r2f1[f2r1[f]].0 == f by {
        assert(v.f2r.contains_key(f));
        if replace && v.f2r.contains_key(fake) {
            assert(f != fake);
            assert(v.f2r[f] != v.f2r[fake]);
        }
    }
    assert forall|k: RealKey| #[trigger] w.r2f.contains_key(k) implies w.f2r.contains_key(w.r2f[k].0)
        && w.f2r[w.r2f[k].0] == k by {
        if k != key {
            assert(r2f1.contains_key(k));
            assert(r2f1[k].0 != fake);
        }
    }
    assert forall|f: u128| #[trigger] w.f2r.contains_key(f) implies w.r2f.contains_key(w.f2r[f])
        && w.r2f[w.f2r[f]].0 == f by {
        if f != fake {
            assert(f2r1.contains_key(f));
            assert(f2r1[f] != key) by {
                assert(r2f1.contains_key(f2r1[f]));
                assert(!v.r2f.contains_key(key));
            }
        }
    }
    assert forall|f: u128| #[trigger] w.f2r.contains_key(f) implies w.base < f <= w.base + committed_next(w) by {
        if f != fake {
            assert(v.f2r.contains_key(f));
        } else if replace {
            assert(v.f2r.contains_key(v.lru[0]));
        }
    }
    assert forall|i: int| 0 <= i < w.lru.len() implies w.f2r.contains_key(#[trigger] w.lru[i]) by {
        assert(w.lru.contains(w.lru[i]));
        let x = w.lru[i];
        if x != fake {
            assert(lru1.contains(x));
            let j = choose|j: int| 0 <= j < lru1.len() && lru1[j] == x;
            if replace && v.lru.len() > 0 {
                assert(v.lru[j + 1] == x);
                assert(v.f2r.contains_key(x));
                assert(x != v.lru[0]);
            } else {
                assert(v.f2r.contains_key(x));
            }
        }
    }
}

/// A request for a real address that already holds a fake address under the
/// same policy and mark is answered with that fake address, and no index
/// changes.
pub proof fn lemma_known_request_reuses(v: PoolView, real_ip: u128, policy: PolicyId, fwmark: u32)
    requires
        pool_wf(v),
        v.pending is None,
        v.r2f.contains_key(real_key(real_ip, policy)),
        v.r2f[real_key(real_ip, policy)].1 == fwmark,
    ensures
        spec_step(v, PoolEvent::Request { real_ip, policy, fwmark }).1 == PoolAction::Done(
            v.r2f[real_key(real_ip, policy)].0,
        ),
        spec_step(v, PoolEvent::Request { real_ip, policy, fwmark }).0.r2f == v.r2f,
        spec_step(v, PoolEvent::Request { real_ip, policy, fwmark }).0.f2r == v.f2r,
{
}

/// Answering a known request with its fake address makes that address the
/// most recently used one: the recency order becomes the old one without the
/// address, then the address; nothing else moves.
pub proof fn lemma_reuse_refreshes_recency(v: PoolView, real_ip: u128, policy: PolicyId, fwmark: u32)
    requires
        pool_wf(v),
        v.pending is None,
        v.r2f.contains_key(real_key(real_ip, policy)),
        v.r2f[real_key(real_ip, policy)].1 == fwmark,
        v.lru.contains(v.r2f[real_key(real_ip, policy)].0),
    ensures
        ({
            let fake = v.r2f[real_key(real_ip, policy)].0;
            let w = spec_step(v, PoolEvent::Request { real_ip, policy, fwmark }).0;
            &&& w.lru.len() == v.lru.len()
            &&& w.lru.last() == fake
            &&& w.lru.drop_last() == v.lru.remove_value(fake)
            &&& forall|x: u128| w.lru.contains(x) <==> v.lru.contains(x)
        }),
{
    let fake = v.r2f[real_key(real_ip, policy)].0;
    let w = spec_step(v, PoolEvent::Request { real_ip, policy, fwmark }).0;
    lemma_remove_value_contains(v.lru, fake, fake);
    assert(w.lru == v.lru.remove_value(fake).push(fake));
    assert(w.lru.drop_last() =~= v.lru.remove_value(fake));
    assert forall|x: u128| w.lru.contains(x) <==> v.lru.contains(x) by {
        lemma_remove_value_contains(v.lru, fake, x);
        if x == fake {
            assert(w.lru[w.lru.len() - 1] == fake);
        } else if v.lru.contains(x) {
            let j = choose|j: int| 0 <= j < v.lru.remove_value(fake).len() && v.lru.remove_value(fake)[j] == x;
            assert(w.lru[j] == x);
        } else if w.lru.contains(x) {
            let j = choose|j: int| 0 <= j < w.lru.len() && w.lru[j] == x;
            assert(j < w.lru.len() - 1);
            assert(v.lru.remove_value(fake)[j] == x);
        }
    }
}

/// An address just answered again is not the one taken back next: when the
/// pool is full and another real address asks for a fake one, the address
/// recycled is a different one, as long as the pool tracks more than one.
pub proof fn lemma_reused_address_is_not_recycled_next(
    v: PoolView,
    real_ip: u128,
    policy: PolicyId,
    fwmark: u32,
    other_ip: u128,
    other_policy: PolicyId,
    other_mark: u32,
)
    requires
        pool_wf(v),
        v.pending is None,
        v.r2f.contains_key(real_key(real_ip, policy)),
        v.r2f[real_key(real_ip, policy)].1 == fwmark,
        v.lru.contains(v.r2f[real_key(real_ip, policy)].0),
        v.lru.len() >= 2,
        v.next == v.total,
        !v.r2f.contains_key(real_key(other_ip, other_policy)),
    ensures
        ({
            let fake = v.r2f[real_key(real_ip, policy)].0;
            let w = spec_step(v, PoolEvent::Request { real_ip, policy, fwmark }).0;
            match spec_step(w, PoolEvent::Request { real_ip: other_ip, policy: other_policy, fwmark: other_mark }).1 {
                PoolAction::AddMapping { fake: taken, real_ip: r, policy: p, replace } => taken != fake
                    && replace && r == other_ip && p == other_policy,
                _ => false,
            }
        }),
{
    let fake = v.r2f[real_key(real_ip, policy)].0;
    let w = spec_step(v, PoolEvent::Request { real_ip, policy, fwmark }).0;
    lemma_reuse_refreshes_recency(v, real_ip, policy, fwmark);
    lemma_remove_value_contains(v.lru, fake, fake);
    assert(w.lru[0] == v.lru.remove_value(fake)[0]);
    assert(v.lru.remove_value(fake).contains(v.lru.remove_value(fake)[0]));
    lemma_remove_value_contains(v.lru, fake, v.lru.remove_value(fake)[0]);
}

/// A fake address whose installation failed is not published, the host it
/// was to take is given back, and a retry asks to install the same address.
pub proof fn lemma_failed_install_is_retried(v: PoolView, real_ip: u128, policy: PolicyId, fwmark: u32)
    requires
        pool_wf(v),
        v.pending is None,
        !v.r2f.contains_key(real_key(real_ip, policy)),
    ensures
        ({
            let req = PoolEvent::Request { real_ip, policy, fwmark };
            let (v1, a1) = spec_step(v, req);
            let (v2, a2) = spec_step(v1, PoolEvent::MappingAdded(false));
            &&& a1 is AddMapping
            &&& a2 == PoolAction::Failed
            &&& v2.r2f == v.r2f
            &&& v2.f2r == v.f2r
            &&& v2.lru == v.lru
            &&& v2.next == v.next
            &&& v2.pending is None
            &&& spec_step(v2, req).1 == a1
        }) || spec_step(v, PoolEvent::Request { real_ip, policy, fwmark }).1 == PoolAction::Exhausted,
{
}

/// A successful installation publishes the fake address for the request:
/// a fresh request takes the next host of the subnet.
pub proof fn lemma_install_publishes(v: PoolView, real_ip: u128, policy: PolicyId, fwmark: u32)
    requires
        pool_wf(v),
        v.pending is None,
        !v.r2f.contains_key(real_key(real_ip, policy)),
        v.next < v.total,
    ensures
        ({
            let (v1, a1) = spec_step(v, PoolEvent::Request { real_ip, policy, fwmark });
            let (v2, a2) = spec_step(v1, PoolEvent::MappingAdded(true));
            let fake = (v.base + 1 + v.next) as u128;
            &&& a1 == PoolAction::AddMapping { fake, real_ip, policy, replace: false }
            &&& a2 == PoolAction::Done(fake)
            &&& v2.r2f.contains_key(real_key(real_ip, policy))
            &&& v2.r2f[real_key(real_ip, policy)] == (fake, fwmark)
            &&& v2.f2r.contains_key(fake)
            &&& v2.f2r[fake] == real_key(real_ip, policy)
            &&& v2.next == v.next + 1
        }),
{
}

/// A pool with at least one host never runs dry: once every host was handed
/// out, a new request takes back the least recently used fake address.
pub proof fn lemma_nonempty_pool_never_exhausted(v: PoolView, real_ip: u128, policy: PolicyId, fwmark: u32)
    requires
        pool_wf(v),
        v.pending is None,
        v.total > 0,
    ensures
        spec_step(v, PoolEvent::Request { real_ip, policy, fwmark }).1 != PoolAction::Exhausted,
        !v.r2f.contains_key(real_key(real_ip, policy)) && v.next >= v.total ==> spec_step(
            v,
            PoolEvent::Request { real_ip, policy, fwmark },
        ).1 == (PoolAction::AddMapping { fake: v.lru[0], real_ip, policy, replace: true }),
{
}

} // verus!
