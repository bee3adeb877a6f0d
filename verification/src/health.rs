//! Health check settings and the registry of the latest result per
//! (interface, host) pair.
//!
//! Latency and packet loss are floating point measurements; the registry
//! carries them as their IEEE 754 bit patterns and never computes with them.
use crate::config::ConfigView;
use crate::text::{copy_opt_string, lemma_text_lt_irreflexive, lemma_text_lt_transitive, opt_str, text_less, text_lt};
use vstd::prelude::*;

verus! {

/// How often and how hard each host is probed.
#[derive(Debug, Clone, Copy, PartialEq, Eq, Structural)]
pub struct HealthCheckSettings {
    pub interval_seconds: u64,
    pub timeout_seconds: u64,
    pub ping_count: u32,
}

/// The larger of a value and one.
pub open spec fn at_least_one(x: int) -> int {
    if x < 1 {
        1
    } else {
        x
    }
}

impl HealthCheckSettings {
    /// The settings of a configuration, each raised to at least one.
    pub fn from_config(c: &crate::config::Config) -> (r: HealthCheckSettings)
        ensures
            r.interval_seconds == at_least_one(c@.health_check_interval_seconds as int),
            r.timeout_seconds == at_least_one(c@.health_check_timeout_seconds as int),
            r.ping_count == at_least_one(c@.health_check_ping_count as int),
    {
        HealthCheckSettings {
            interval_seconds: if c.health_check_interval_seconds < 1 {
                1
            } else {
                c.health_check_interval_seconds
            },
            timeout_seconds: if c.health_check_timeout_seconds < 1 {
                1
            } else {
                c.health_check_timeout_seconds
            },
            ping_count: if c.health_check_ping_count < 1 {
                1
            } else {
                c.health_check_ping_count
            },
        }
    }
}

/// The latest health check result of one host through one interface.
#[derive(Debug, Clone)]
pub struct InterfaceHealthStatus {
    pub interface: String,
    pub host: String,
    pub enabled: bool,
    pub healthy: bool,
    /// Bit pattern of the average round trip in milliseconds, if measured.
    pub latency_ms_bits: Option<u64>,
    /// Bit pattern of the packet loss in percent.
    pub packet_loss_percent_bits: u64,
    /// Since when the host has been healthy without interruption.
    pub healthy_since_ms: Option<i64>,
    /// When the host was last found unhealthy.
    pub last_unhealthy_at_ms: Option<i64>,
    pub updated_at_ms: i64,
    pub error: Option<String>,
}

/// The mathematical value of an [`InterfaceHealthStatus`].
pub struct HealthView {
    pub interface: Seq<char>,
    pub host: Seq<char>,
    pub enabled: bool,
    pub healthy: bool,
    pub latency_ms_bits: Option<u64>,
    pub packet_loss_percent_bits: u64,
    pub healthy_since_ms: Option<i64>,
    pub last_unhealthy_at_ms: Option<i64>,
    pub updated_at_ms: i64,
    pub error: Option<Seq<char>>,
}

impl View for InterfaceHealthStatus {
    type V = HealthView;

    open spec fn view(&self) -> HealthView {
        HealthView {
            interface: self.interface@,
            host: self.host@,
            enabled: self.enabled,
            healthy: self.healthy,
            latency_ms_bits: self.latency_ms_bits,
            packet_loss_percent_bits: self.packet_loss_percent_bits,
            healthy_since_ms: self.healthy_since_ms,
            last_unhealthy_at_ms: self.last_unhealthy_at_ms,
            updated_at_ms: self.updated_at_ms,
            error: opt_str(self.error),
        }
    }
}

impl InterfaceHealthStatus {
    /// A copy of this status.
    pub fn copy(&self) -> (r: Self)
        ensures
            r@ == self@,
    {
        InterfaceHealthStatus {
            interface: self.interface.clone(),
            host: self.host.clone(),
            enabled: self.enabled,
            healthy: self.healthy,
            latency_ms_bits: self.latency_ms_bits,
            packet_loss_percent_bits: self.packet_loss_percent_bits,
            healthy_since_ms: self.healthy_since_ms,
            last_unhealthy_at_ms: self.last_unhealthy_at_ms,
            updated_at_ms: self.updated_at_ms,
            error: copy_opt_string(&self.error),
        }
    }
}

/// The position of the first entry for (interface, host), searching from `k`.
pub open spec fn entry_index_from(s: Seq<HealthView>, iface: Seq<char>, host: Seq<char>, k: int) -> Option<int>
    decreases s.len() - k,
{
    if k < 0 || k >= s.len() {
        None
    } else if s[k].interface == iface && s[k].host == host {
        Some(k)
    } else {
        entry_index_from(s, iface, host, k + 1)
    }
}

/// The latest result recorded for (interface, host), if any.
pub open spec fn status_of(s: Seq<HealthView>, iface: Seq<char>, host: Seq<char>) -> Option<HealthView> {
    match entry_index_from(s, iface, host, 0) {
        Some(i) => Some(s[i]),
        None => None,
    }
}

/// What `entry_index_from` finds lies in range and has the key.
pub proof fn lemma_entry_index_from(s: Seq<HealthView>, iface: Seq<char>, host: Seq<char>, k: int)
    requires
        0 <= k,
    ensures
        match entry_index_from(s, iface, host, k) {
            Some(i) => k <= i < s.len() && s[i].interface == iface && s[i].host == host,
            None => forall|j: int|
                k <= j < s.len() ==> !(s[j].interface == iface && s[j].host == host),
        },
    decreases s.len() - k,
{
    if k < s.len() && !(s[k].interface == iface && s[k].host == host) {
        lemma_entry_index_from(s, iface, host, k + 1);
    }
}

/// Searches agree on two lists whose keys agree position by position.
proof fn lemma_same_keys_same_search(
    s: Seq<HealthView>,
    t: Seq<HealthView>,
    iface: Seq<char>,
    host: Seq<char>,
    k: int,
)
    requires
        s.len() == t.len(),
        forall|j: int| 0 <= j < s.len() ==> s[j].interface == t[j].interface && s[j].host == t[j].host,
    ensures
        entry_index_from(s, iface, host, k) == entry_index_from(t, iface, host, k),
    decreases s.len() - k,
{
    if 0 <= k < s.len() {
        lemma_same_keys_same_search(s, t, iface, host, k + 1);
    }
}

/// A search on a list with one more entry at the end finds what it found
/// before, or the new entry.
proof fn lemma_search_push(s: Seq<HealthView>, v: HealthView, iface: Seq<char>, host: Seq<char>, k: int)
    requires
        0 <= k <= s.len(),
    ensures
        entry_index_from(s.push(v), iface, host, k) == (match entry_index_from(s, iface, host, k) {
            Some(i) => Some(i),
            None => if v.interface == iface && v.host == host {
                Some(s.len() as int)
            } else {
                None
            },
        }),
    decreases s.len() - k,
{
    let t = s.push(v);
    if k < s.len() {
        assert(t[k] == s[k]);
        lemma_search_push(s, v, iface, host, k + 1);
    } else {
        assert(t[k] == v);
        assert(entry_index_from(s, iface, host, k) is None);
        assert(entry_index_from(t, iface, host, k + 1) is None);
    }
}

/// The status recorded after a check: the new measurements, with the time
/// since which the host has been healthy carried over from a healthy previous
/// result, and the time it was last unhealthy carried over from the previous
/// result while it stays healthy.
pub open spec fn next_status(
    previous: Option<HealthView>,
    interface: Seq<char>,
    host: Seq<char>,
    enabled: bool,
    healthy: bool,
    latency_ms_bits: Option<u64>,
    packet_loss_percent_bits: u64,
    error: Option<Seq<char>>,
    now_ms: i64,
) -> HealthView {
    HealthView {
        interface,
        host,
        enabled,
        healthy,
        latency_ms_bits,
        packet_loss_percent_bits,
        healthy_since_ms: if !healthy {
            None
        } else {
            match previous {
                Some(p) => if p.healthy && p.healthy_since_ms is Some {
                    p.healthy_since_ms
                } else {
                    Some(now_ms)
                },
                None => Some(now_ms),
            }
        },
        last_unhealthy_at_ms: if !healthy {
            Some(now_ms)
        } else {
            match previous {
                Some(p) => p.last_unhealthy_at_ms,
                None => None,
            }
        },
        updated_at_ms: now_ms,
        error,
    }
}

/// The latest result per (interface, host) pair.
#[derive(Debug)]
pub struct InterfaceHealthRegistry {
    entries: Vec<InterfaceHealthStatus>,
}

impl View for InterfaceHealthRegistry {
    type V = Seq<HealthView>;

    closed spec fn view(&self) -> Seq<HealthView> {
        self.entries@.map_values(|e: InterfaceHealthStatus| e@)
    }
}

/// Whether no (interface, host) pair holds two results.
pub open spec fn keys_unique(s: Seq<HealthView>) -> bool {
    forall|i: int, j: int|
        0 <= i < j < s.len() ==> !(#[trigger] s[i].interface == #[trigger] s[j].interface && s[i].host
            == s[j].host)
}

impl InterfaceHealthRegistry {
    /// Each (interface, host) pair holds at most one result.
    #[verifier::type_invariant]
    closed spec fn keys_are_unique(self) -> bool {
        keys_unique(self@)
    }

    /// An empty registry.
    pub fn new() -> (r: Self)
        ensures
            r@ == Seq::<HealthView>::empty(),
    {
        let r = InterfaceHealthRegistry { entries: Vec::new() };
        assert(r@ =~= Seq::<HealthView>::empty());
        r
    }

    /// Forgets every result.
    pub fn clear(&mut self)
        ensures
            final(self)@ == Seq::<HealthView>::empty(),
    {
        self.entries = Vec::new();
        assert(self@ =~= Seq::<HealthView>::empty());
    }

    /// The number of (interface, host) pairs with a result.
    pub fn len(&self) -> (r: usize)
        ensures
            r == self@.len(),
    {
        self.entries.len()
    }

    /// The result at a position, in the order pairs were first recorded.
    pub fn entry(&self, i: usize) -> (r: &InterfaceHealthStatus)
        requires
            i < self@.len(),
        ensures
            r@ == self@[i as int],
    {
        &self.entries[i]
    }

    /// The position of the result for (interface, host), if any.
    fn position(&self, interface: &String, host: &String) -> (r: Option<usize>)
        ensures
            match r {
                Some(i) => i < self.entries.len() && entry_index_from(self@, interface@, host@, 0)
                    == Some(i as int),
                None => entry_index_from(self@, interface@, host@, 0) is None,
            },
    {
        let ghost s = self@;
        let mut k: usize = 0;
        while k < self.entries.len()
            invariant
                k <= self.entries.len(),
                s == self@,
                s.len() == self.entries.len(),
                entry_index_from(s, interface@, host@, 0) == entry_index_from(
                    s,
                    interface@,
                    host@,
                    k as int,
                ),
            decreases self.entries.len() - k,
        {
            let e = &self.entries[k];
            assert(s[k as int] == e@);
            if e.interface == *interface && e.host == *host {
                proof {
                    lemma_entry_index_from(s, interface@, host@, 0);
                }
                return Some(k);
            }
            k = k + 1;
        }
        None
    }

    /// The result for (interface, host), if any.
    pub fn get(&self, interface: &String, host: &String) -> (r: Option<&InterfaceHealthStatus>)
        ensures
            match r {
                Some(st) => status_of(self@, interface@, host@) == Some(st@),
                None => status_of(self@, interface@, host@).is_none(),
            },
    {
        let pos = self.position(interface, host);
        match pos {
            Some(i) => {
                let st = &self.entries[i];
                assert(self@[i as int] == st@);
                assert(entry_index_from(self@, interface@, host@, 0) == Some(i as int));
                Some(st)
            },
            None => None,
        }
    }

    /// Every result, listed by interface and then by host.
    pub fn sorted_statuses(&self) -> (r: Vec<InterfaceHealthStatus>)
        ensures
            r@.len() == self@.len(),
            r@.map_values(|e: InterfaceHealthStatus| e@).to_multiset() == self@.to_multiset(),
            listed_in_order(r@.map_values(|e: InterfaceHealthStatus| e@)),
            forall|i: int| 0 <= i < r@.len() ==> self@.contains(#[trigger] r@[i]@),
            forall|j: int| 0 <= j < self@.len() ==> r@.map_values(|e: InterfaceHealthStatus| e@).contains(
                #[trigger] self@[j],
            ),
    {
        let ghost src = self@;
        let mut out: Vec<InterfaceHealthStatus> = Vec::new();
        let mut k: usize = 0;
        proof {
            broadcast use vstd::seq_lib::group_to_multiset_ensures;
            assert(out@.map_values(|e: InterfaceHealthStatus| e@) =~= Seq::<HealthView>::empty());
            assert(src.take(0) =~= Seq::<HealthView>::empty());
            assert(Seq::<HealthView>::empty().to_multiset() =~= vstd::multiset::Multiset::empty());
        }
        while k < self.entries.len()
            invariant
                k <= self.entries.len(),
                src == self@,
                src == self.entries@.map_values(|e: InterfaceHealthStatus| e@),
                out@.len() == k,
                out@.map_values(|e: InterfaceHealthStatus| e@).to_multiset() == src.take(k as int).to_multiset(),
                listed_in_order(out@.map_values(|e: InterfaceHealthStatus| e@)),
                forall|i: int| 0 <= i < out@.len() ==> src.take(k as int).contains(#[trigger] out@[i]@),
                forall|j: int| 0 <= j < k ==> out@.map_values(|e: InterfaceHealthStatus| e@).contains(
                    #[trigger] src[j],
                ),
            decreases self.entries.len() - k,
        {
            let e = self.entries[k].copy();
            let ghost ov = out@.map_values(|x: InterfaceHealthStatus| x@);
            let mut pos: usize = 0;
            while pos < out.len() && !status_before(&e, &out[pos])
                invariant
                    pos <= out@.len(),
                    ov == out@.map_values(|x: InterfaceHealthStatus| x@),
                    forall|i: int| 0 <= i < pos ==> !listed_before(e@, #[trigger] ov[i]),
                decreases out@.len() - pos,
            {
                pos = pos + 1;
            }
            let ghost ev = e@;
            let ghost old_out = out@;
            out.insert(pos, e);
            proof {
                let nv = out@.map_values(|x: InterfaceHealthStatus| x@);
                assert(nv =~= ov.insert(pos as int, ev));
                assert(ev == src[k as int]);
                vstd::seq_lib::to_multiset_insert(ov, pos as int, ev);
                assert(src.take(k + 1) =~= src.take(k as int).push(ev));
                vstd::seq_lib::to_multiset_build(src.take(k as int), ev);
                assert forall|i: int, j: int| 0 <= i < j < nv.len() implies !listed_before(
                    #[trigger] nv[j],
                    #[trigger] nv[i],
                ) by {
                    if j < pos {
                        assert(nv[i] == ov[i] && nv[j] == ov[j]);
                    } else if j == pos {
                        assert(nv[i] == ov[i]);
                    } else if i == pos {
                        assert(nv[j] == ov[j - 1]);
                        assert(pos < ov.len());
                        assert(listed_before(ev, ov[pos as int]));
                        lemma_listed_before(ov[j - 1], ev, ov[pos as int]);
                        lemma_listed_before(ov[pos as int], ov[pos as int], ov[pos as int]);
                        if listed_before(ov[j - 1], ev) {
                            if j - 1 > pos {
                                assert(!listed_before(ov[j - 1], ov[pos as int]));
                            }
                        }
                    } else if i < pos {
                        assert(nv[i] == ov[i] && nv[j] == ov[j - 1]);
                    } else {
                        assert(nv[i] == ov[i - 1] && nv[j] == ov[j - 1]);
                    }
                }
                assert forall|i: int| 0 <= i < out@.len() implies src.take(k + 1).contains(#[trigger] out@[i]@) by {
                    if i == pos {
                        assert(src.take(k + 1)[k as int] == ev);
                    } else {
                        let i0 = if i < pos { i } else { i - 1 };
                        assert(out@[i] == old_out[i0]);
                        assert(src.take(k as int).contains(old_out[i0]@));
                        let w = choose|w: int| 0 <= w < k && src.take(k as int)[w] == old_out[i0]@;
                        assert(src.take(k + 1)[w] == old_out[i0]@);
                    }
                }
                assert forall|j: int| 0 <= j < k + 1 implies nv.contains(#[trigger] src[j]) by {
                    if j == k {
                        assert(nv[pos as int] == ev);
                    } else {
                        assert(ov.contains(src[j]));
                        let w = choose|w: int| 0 <= w < ov.len() && ov[w] == src[j];
                        if w < pos {
                            assert(nv[w] == ov[w]);
                        } else {
                            assert(nv[w + 1] == ov[w]);
                        }
                    }
                }
            }
            k = k + 1;
        }
        proof {
            assert(src.take(self.entries.len() as int) =~= src);
        }
        out
    }

    /// Stores a result as the latest for its (interface, host) pair; the
    /// result for every other pair stays as it was.
    pub fn insert(&mut self, status: InterfaceHealthStatus)
        ensures
            forall|i: Seq<char>, h: Seq<char>|
                #![trigger status_of(final(self)@, i, h)]
                status_of(final(self)@, i, h) == if i == status@.interface && h == status@.host {
                    Some(status@)
                } else {
                    status_of(old(self)@, i, h)
                },
    {
        proof {
            use_type_invariant(&*self);
        }
        let ghost s = self@;
        let ghost v = status@;
        let pos = self.position(&status.interface, &status.host);
        let mut entries: Vec<InterfaceHealthStatus> = Vec::new();
        std::mem::swap(&mut entries, &mut self.entries);
        assert(entries@.map_values(|e: InterfaceHealthStatus| e@) == s);
        match pos {
            Some(i) => {
                proof {
                    lemma_entry_index_from(s, v.interface, v.host, 0);
                }
                entries.set(i, status);
                assert(entries@.map_values(|e: InterfaceHealthStatus| e@) =~= s.update(i as int, v));
                self.entries = entries;
                assert(self@ =~= s.update(i as int, v));
                assert forall|j: int| 0 <= j < s.len() implies self@[j].interface == s[j].interface
                    && self@[j].host == s[j].host by {
                    if j == i {
                        assert(s[j].interface == v.interface);
                    }
                }
                assert forall|a: Seq<char>, b: Seq<char>|
                    #![trigger status_of(self@, a, b)]
                    status_of(self@, a, b) == if a == v.interface && b == v.host {
                        Some(v)
                    } else {
                        status_of(s, a, b)
                    } by {
                    lemma_same_keys_same_search(self@, s, a, b, 0);
                    lemma_entry_index_from(s, a, b, 0);
                }
            },
            None => {
                proof {
                    lemma_entry_index_from(s, v.interface, v.host, 0);
                }
                entries.push(status);
                assert(entries@.map_values(|e: InterfaceHealthStatus| e@) =~= s.push(v));
                self.entries = entries;
                assert(self@ =~= s.push(v));
                assert forall|a: Seq<char>, b: Seq<char>|
                    #![trigger status_of(self@, a, b)]
                    status_of(self@, a, b) == if a == v.interface && b == v.host {
                        Some(v)
                    } else {
                        status_of(s, a, b)
                    } by {
                    lemma_search_push(s, v, a, b, 0);
                    lemma_entry_index_from(s, a, b, 0);
                }
            },
        }
    }

    /// Records the result of a check of `host` through `interface` at
    /// `now_ms` (see [`next_status`]); the result for every other pair stays
    /// as it was.
    pub fn record(
        &mut self,
        interface: &String,
        host: &String,
        enabled: bool,
        healthy: bool,
        latency_ms_bits: Option<u64>,
        packet_loss_percent_bits: u64,
        error: Option<String>,
        now_ms: i64,
    )
        ensures
            forall|i: Seq<char>, h: Seq<char>|
                #![trigger status_of(final(self)@, i, h)]
                status_of(final(self)@, i, h) == if i == interface@ && h == host@ {
                    Some(
                        next_status(
                            status_of(old(self)@, interface@, host@),
                            interface@,
                            host@,
                            enabled,
                            healthy,
                            latency_ms_bits,
                            packet_loss_percent_bits,
                            opt_str(error),
                            now_ms,
                        ),
                    )
                } else {
                    status_of(old(self)@, i, h)
                },
    {
        let (healthy_since_ms, last_unhealthy_at_ms) = match self.get(interface, host) {
            Some(p) => (
                if !healthy {
                    None
                } else if p.healthy && p.healthy_since_ms.is_some() {
                    p.healthy_since_ms
                } else {
                    Some(now_ms)
                },
                if !healthy {
                    Some(now_ms)
                } else {
                    p.last_unhealthy_at_ms
                },
            ),
            None => (
                if healthy {
                    Some(now_ms)
                } else {
                    None
                },
                if healthy {
                    None
                } else {
                    Some(now_ms)
                },
            ),
        };
        let status = InterfaceHealthStatus {
            interface: interface.clone(),
            host: host.clone(),
            enabled,
            healthy,
            latency_ms_bits,
            packet_loss_percent_bits,
            healthy_since_ms,
            last_unhealthy_at_ms,
            updated_at_ms: now_ms,
            error,
        };
        self.insert(status);
    }
}

/// Whether a result comes before another when listed: by interface, then
/// by host.
pub open spec fn listed_before(a: HealthView, b: HealthView) -> bool {
    text_lt(a.interface, b.interface) || (a.interface == b.interface && text_lt(a.host, b.host))
}

/// Results listed in order: no result comes before one listed ahead of it.
pub open spec fn listed_in_order(s: Seq<HealthView>) -> bool {
    forall|i: int, j: int| 0 <= i < j < s.len() ==> !listed_before(#[trigger] s[j], #[trigger] s[i])
}

/// The listing order is transitive and no result comes before itself.
proof fn lemma_listed_before(a: HealthView, b: HealthView, c: HealthView)
    ensures
        !listed_before(a, a),
        listed_before(a, b) && listed_before(b, c) ==> listed_before(a, c),
{
    lemma_text_lt_irreflexive(a.interface);
    lemma_text_lt_irreflexive(a.host);
    if listed_before(a, b) && listed_before(b, c) {
        if text_lt(a.interface, b.interface) && text_lt(b.interface, c.interface) {
            lemma_text_lt_transitive(a.interface, b.interface, c.interface);
        }
        if a.interface == b.interface && b.interface == c.interface {
            lemma_text_lt_transitive(a.host, b.host, c.host);
        }
    }
}

/// Whether a status comes before another when listed (see [`listed_before`]).
fn status_before(a: &InterfaceHealthStatus, b: &InterfaceHealthStatus) -> (r: bool)
    ensures
        r == listed_before(a@, b@),
{
    if text_less(a.interface.as_str(), b.interface.as_str()) {
        true
    } else if crate::text::str_eq(a.interface.as_str(), b.interface.as_str()) {
        text_less(a.host.as_str(), b.host.as_str())
    } else {
        false
    }
}

/// After a check is recorded, reading its pair gives back the recorded
/// measurements, and whether the host is healthy.
pub proof fn lemma_record_then_read(
    previous: Option<HealthView>,
    interface: Seq<char>,
    host: Seq<char>,
    enabled: bool,
    healthy: bool,
    latency_ms_bits: Option<u64>,
    packet_loss_percent_bits: u64,
    error: Option<Seq<char>>,
    now_ms: i64,
)
    ensures
        ({
            let v = next_status(
                previous,
                interface,
                host,
                enabled,
                healthy,
                latency_ms_bits,
                packet_loss_percent_bits,
                error,
                now_ms,
            );
            &&& v.healthy == healthy
            &&& v.updated_at_ms == now_ms
            &&& healthy ==> v.healthy_since_ms is Some
            &&& !healthy ==> v.last_unhealthy_at_ms == Some(now_ms) && v.healthy_since_ms is None
            &&& (healthy && previous is Some && previous->0.healthy
                && previous->0.healthy_since_ms is Some) ==> v.healthy_since_ms
                == previous->0.healthy_since_ms
        }),
{
}

} // verus!
