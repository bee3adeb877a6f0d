//! Which interface carries traffic: the one a rule names while it is healthy
//! and has been healthy long enough, otherwise the first usable interface of
//! its failover list.
use crate::config::{
    Config, ConfigView, FailoverMode, InterfaceConfig, InterfaceConfigView, find_interface,
    iface_names, iface_views, index_named, interface_names, lemma_index_named_from, opt_str_ref,
    resolved_index,
};
use crate::health::{HealthView, InterfaceHealthRegistry, status_of};
use crate::text::{copy_strings, strs};
use vstd::prelude::*;

verus! {

/// Whether the latest result for a host through an interface, if any, is healthy.
pub open spec fn host_healthy(reg: Seq<HealthView>, iface: Seq<char>, host: Seq<char>) -> bool {
    match status_of(reg, iface, host) {
        Some(st) => st.healthy,
        None => true,
    }
}

/// Whether an interface counts as healthy: it is configured, and it is not
/// checked, or every checked host is healthy or not yet checked.
pub open spec fn spec_is_healthy(c: ConfigView, name: Seq<char>, reg: Seq<HealthView>) -> bool {
    match index_named(c.interfaces, name) {
        None => false,
        Some(i) => {
            let itf = c.interfaces[i];
            !itf.health_check_enabled || forall|h: int|
                0 <= h < itf.health_check_hosts.len() ==> #[trigger] host_healthy(
                    reg,
                    itf.name,
                    itf.health_check_hosts[h],
                )
        },
    }
}

/// The recovery delay in milliseconds: the configured seconds times 1000,
/// saturated at the largest `u64`, taken as an `i64`.
pub open spec fn recovery_delay_ms(c: ConfigView) -> i64 {
    let ms = c.failover_recovery_delay_seconds * 1000;
    (if ms > u64::MAX {
        u64::MAX as int
    } else {
        ms
    }) as i64
}

/// Whether a host has recovered: it has never been unhealthy, or it has been
/// healthy for at least the recovery delay.
pub open spec fn host_recovered(
    reg: Seq<HealthView>,
    iface: Seq<char>,
    host: Seq<char>,
    now_ms: i64,
    delay_ms: i64,
) -> bool {
    match status_of(reg, iface, host) {
        None => true,
        Some(st) => st.last_unhealthy_at_ms is None || match st.healthy_since_ms {
            Some(t) => now_ms - t >= delay_ms,
            None => false,
        },
    }
}

/// Whether an interface may carry traffic: it is healthy and, unless there is
/// no recovery delay, every checked host has recovered.
pub open spec fn spec_is_eligible(
    c: ConfigView,
    name: Seq<char>,
    reg: Seq<HealthView>,
    now_ms: i64,
) -> bool {
    &&& spec_is_healthy(c, name, reg)
    &&& (recovery_delay_ms(c) == 0 || match index_named(c.interfaces, name) {
        None => false,
        Some(i) => {
            let itf = c.interfaces[i];
            !itf.health_check_enabled || forall|h: int|
                0 <= h < itf.health_check_hosts.len() ==> #[trigger] host_recovered(
                    reg,
                    itf.name,
                    itf.health_check_hosts[h],
                    now_ms,
                    recovery_delay_ms(c),
                )
        },
    })
}

/// The names an interface fails over to, in order of preference: its own
/// list in custom mode, else the global list; an empty list stands for every
/// configured interface.
pub open spec fn failover_list(c: ConfigView, desired: InterfaceConfigView) -> Seq<Seq<char>> {
    let list = if desired.failover_mode == FailoverMode::Custom {
        desired.failover_interfaces
    } else {
        c.failover_interfaces
    };
    if list.len() == 0 {
        iface_names(c.interfaces)
    } else {
        list
    }
}

/// The first configured, eligible interface among the candidates from `k` on.
pub open spec fn first_eligible_from(
    c: ConfigView,
    cands: Seq<Seq<char>>,
    k: int,
    reg: Seq<HealthView>,
    now_ms: i64,
) -> Option<int>
    decreases cands.len() - k,
{
    if k < 0 || k >= cands.len() {
        None
    } else {
        match index_named(c.interfaces, cands[k]) {
            Some(j) => if spec_is_eligible(c, cands[k], reg, now_ms) {
                Some(j)
            } else {
                first_eligible_from(c, cands, k + 1, reg, now_ms)
            },
            None => first_eligible_from(c, cands, k + 1, reg, now_ms),
        }
    }
}

/// The interface that carries traffic for a rule's interface name at
/// `now_ms`: the designated interface if it is eligible or has failover
/// disabled, else the first eligible interface of its failover list, else
/// the designated interface anyway.
pub open spec fn effective_index(
    c: ConfigView,
    name: Option<Seq<char>>,
    reg: Seq<HealthView>,
    now_ms: i64,
) -> int {
    let d = resolved_index(c, name);
    let desired = c.interfaces[d];
    if spec_is_eligible(c, desired.name, reg, now_ms) || desired.failover_mode
        == FailoverMode::Disabled {
        d
    } else {
        match first_eligible_from(c, failover_list(c, desired), 0, reg, now_ms) {
            Some(j) => j,
            None => d,
        }
    }
}

/// Reads the system clock: `std::time::SystemTime::now()` measured against
/// `UNIX_EPOCH` with `duration_since`, in whole milliseconds (`as_millis`).
/// The flag tells whether the clock reads at or after the epoch; before it,
/// the milliseconds are those of the error's `duration()`, the distance back
/// to the epoch. None of these calls panics. Nothing is claimed of the
/// values, which depend on the machine.
#[verifier::external_body]
fn read_clock() -> (r: (bool, u128)) {
    match std::time::SystemTime::now().duration_since(std::time::UNIX_EPOCH) {
        Ok(d) => (true, d.as_millis()),
        Err(e) => (false, e.duration().as_millis()),
    }
}

/// The current time in milliseconds since the Unix epoch, negative before
/// it, clamped to the range of `i64`.
pub(crate) fn now_millis() -> (t: i64) {
    let (after, ms) = read_clock();
    if after {
        if ms > i64::MAX as u128 {
            i64::MAX
        } else {
            ms as i64
        }
    } else {
        if ms > i64::MAX as u128 {
            i64::MIN
        } else {
            -(ms as i64)
        }
    }
}

/// Whether every health-checked host of an interface passes `healthy`.
fn hosts_healthy(itf: &InterfaceConfig, reg: &InterfaceHealthRegistry) -> (r: bool)
    ensures
        r == forall|h: int|
            0 <= h < itf@.health_check_hosts.len() ==> #[trigger] host_healthy(
                reg@,
                itf@.name,
                itf@.health_check_hosts[h],
            ),
{
    let mut k: usize = 0;
    while k < itf.health_check_hosts.len()
        invariant
            k <= itf.health_check_hosts.len(),
            forall|h: int|
                0 <= h < k ==> #[trigger] host_healthy(
                    reg@,
                    itf@.name,
                    itf@.health_check_hosts[h],
                ),
        decreases itf.health_check_hosts.len() - k,
    {
        let host = &itf.health_check_hosts[k];
        assert(itf@.health_check_hosts[k as int] == host@);
        match reg.get(&itf.name, host) {
            Some(st) => {
                if !st.healthy {
                    assert(!host_healthy(reg@, itf@.name, itf@.health_check_hosts[k as int]));
                    return false;
                }
            },
            None => {},
        }
        k = k + 1;
    }
    true
}

/// Whether the interface named `interface_name` counts as healthy: it is
/// configured, and it is not checked, or none of its hosts has a failed result.
pub fn is_interface_healthy(
    config: &Config,
    interface_name: &str,
    health_status: &InterfaceHealthRegistry,
) -> (r: bool)
    ensures
        r == spec_is_healthy(config@, interface_name@, health_status@),
{
    let i = match find_interface(&config.interfaces, interface_name) {
        Some(i) => i,
        None => return false,
    };
    let itf = &config.interfaces[i];
    assert(itf@ == config@.interfaces[i as int]);
    if !itf.health_check_enabled || itf.health_check_hosts.len() == 0 {
        return true;
    }
    hosts_healthy(itf, health_status)
}

/// The recovery delay in milliseconds (see [`recovery_delay_ms`]).
fn recovery_delay(config: &Config) -> (r: i64)
    ensures
        r == recovery_delay_ms(config@),
{
    let secs = config.failover_recovery_delay_seconds;
    let ms: u64 = if secs > u64::MAX / 1000 {
        u64::MAX
    } else {
        secs * 1000
    };
    ms as i64
}

/// Whether every health-checked host of an interface has recovered.
fn hosts_recovered(
    itf: &InterfaceConfig,
    reg: &InterfaceHealthRegistry,
    now_ms: i64,
    delay_ms: i64,
) -> (r: bool)
    ensures
        r == forall|h: int|
            0 <= h < itf@.health_check_hosts.len() ==> #[trigger] host_recovered(
                reg@,
                itf@.name,
                itf@.health_check_hosts[h],
                now_ms,
                delay_ms,
            ),
{
    let mut k: usize = 0;
    while k < itf.health_check_hosts.len()
        invariant
            k <= itf.health_check_hosts.len(),
            forall|h: int|
                0 <= h < k ==> #[trigger] host_recovered(
                    reg@,
                    itf@.name,
                    itf@.health_check_hosts[h],
                    now_ms,
                    delay_ms,
                ),
        decreases itf.health_check_hosts.len() - k,
    {
        let host = &itf.health_check_hosts[k];
        assert(itf@.health_check_hosts[k as int] == host@);
        match reg.get(&itf.name, host) {
            Some(st) => {
                if st.last_unhealthy_at_ms.is_some() {
                    let ok = match st.healthy_since_ms {
                        Some(t) => (now_ms as i128) - (t as i128) >= (delay_ms as i128),
                        None => false,
                    };
                    if !ok {
                        assert(!host_recovered(
                            reg@,
                            itf@.name,
                            itf@.health_check_hosts[k as int],
                            now_ms,
                            delay_ms,
                        ));
                        return false;
                    }
                }
            },
            None => {},
        }
        k = k + 1;
    }
    true
}

/// Whether the interface named `interface_name` may carry traffic at `now_ms`.
pub fn is_interface_eligible(
    config: &Config,
    interface_name: &str,
    health_status: &InterfaceHealthRegistry,
    now_ms: i64,
) -> (r: bool)
    ensures
        r == spec_is_eligible(config@, interface_name@, health_status@, now_ms),
{
    if !is_interface_healthy(config, interface_name, health_status) {
        return false;
    }
    let delay = recovery_delay(config);
    if delay == 0 {
        return true;
    }
    let i = match find_interface(&config.interfaces, interface_name) {
        Some(i) => i,
        None => return false,
    };
    let itf = &config.interfaces[i];
    assert(itf@ == config@.interfaces[i as int]);
    if !itf.health_check_enabled || itf.health_check_hosts.len() == 0 {
        return true;
    }
    hosts_recovered(itf, health_status, now_ms, delay)
}

/// The interface that carries traffic for a rule's interface name at
/// `now_ms` (see [`effective_index`]).
pub fn resolve_effective_interface_at(
    config: &Config,
    interface_name: Option<&str>,
    health_status: &InterfaceHealthRegistry,
    now_ms: i64,
) -> (r: InterfaceConfig)
    requires
        config.interfaces.len() > 0,
    ensures
        0 <= effective_index(config@, opt_str_ref(interface_name), health_status@, now_ms)
            < config@.interfaces.len(),
        r@ == config@.interfaces[effective_index(
            config@,
            opt_str_ref(interface_name),
            health_status@,
            now_ms,
        )],
{
    let ghost c = config@;
    let ghost reg = health_status@;
    let ghost name = opt_str_ref(interface_name);
    let desired = config.resolve_interface(interface_name);
    let ghost d = resolved_index(c, name);
    if is_interface_eligible(config, desired.name.as_str(), health_status, now_ms)
        || desired.failover_mode == FailoverMode::Disabled {
        return desired.copy();
    }
    let list: &Vec<String> = if desired.failover_mode == FailoverMode::Custom {
        &desired.failover_interfaces
    } else {
        &config.failover_interfaces
    };
    let candidates: Vec<String> = if list.len() == 0 {
        interface_names(&config.interfaces)
    } else {
        copy_strings(list)
    };
    let ghost cands = failover_list(c, c.interfaces[d]);
    assert(strs(candidates@) == cands);
    let mut k: usize = 0;
    while k < candidates.len()
        invariant
            k <= candidates.len(),
            strs(candidates@) == cands,
            c == config@,
            reg == health_status@,
            config.interfaces.len() > 0,
            d == resolved_index(c, name),
            name == opt_str_ref(interface_name),
            cands == failover_list(c, c.interfaces[d]),
            0 <= d < c.interfaces.len(),
            !spec_is_eligible(c, c.interfaces[d].name, reg, now_ms),
            c.interfaces[d].failover_mode != FailoverMode::Disabled,
            first_eligible_from(c, cands, 0, reg, now_ms) == first_eligible_from(
                c,
                cands,
                k as int,
                reg,
                now_ms,
            ),
        decreases candidates.len() - k,
    {
        let cand = candidates[k].as_str();
        assert(cands[k as int] == cand@);
        match find_interface(&config.interfaces, cand) {
            Some(j) => {
                proof {
                    lemma_index_named_from(c.interfaces, cand@, 0);
                }
                if is_interface_eligible(config, cand, health_status, now_ms) {
                    assert(first_eligible_from(c, cands, k as int, reg, now_ms) == Some(j as int));
                    let r = config.interfaces[j].copy();
                    assert(config.interfaces@[j as int]@ == c.interfaces[j as int]);
                    assert(effective_index(c, name, reg, now_ms) == j as int);
                    return r;
                }
            },
            None => {},
        }
        k = k + 1;
    }
    assert(first_eligible_from(c, cands, 0, reg, now_ms) is None);
    desired.copy()
}

/// The interface that carries traffic for a rule's interface name now. The
/// time is read from the clock, so the contract holds for some instant.
pub fn resolve_effective_interface(
    config: &Config,
    interface_name: Option<&str>,
    health_status: &InterfaceHealthRegistry,
) -> (r: InterfaceConfig)
    requires
        config.interfaces.len() > 0,
    ensures
        exists|now_ms: i64|
            r@ == config@.interfaces[#[trigger] effective_index(
                config@,
                opt_str_ref(interface_name),
                health_status@,
                now_ms,
            )],
{
    let now_ms = now_millis();
    resolve_effective_interface_at(config, interface_name, health_status, now_ms)
}

/// Whether a candidate name is a configured interface that may carry traffic.
pub open spec fn eligible_candidate(c: ConfigView, n: Seq<char>, reg: Seq<HealthView>, now_ms: i64) -> bool {
    index_named(c.interfaces, n) is Some && spec_is_eligible(c, n, reg, now_ms)
}

/// `first_eligible_from` finds the first eligible candidate from `k` on, and
/// nothing when there is none.
proof fn lemma_first_eligible_is_first(
    c: ConfigView,
    cands: Seq<Seq<char>>,
    k: int,
    reg: Seq<HealthView>,
    now_ms: i64,
)
    requires
        0 <= k,
    ensures
        match first_eligible_from(c, cands, k, reg, now_ms) {
            Some(j) => exists|m: int|
                k <= m < cands.len() && #[trigger] eligible_candidate(c, cands[m], reg, now_ms) && Some(j)
                    == index_named(c.interfaces, cands[m]) && forall|m2: int|
                    k <= m2 < m ==> !#[trigger] eligible_candidate(c, cands[m2], reg, now_ms),
            None => forall|m: int|
                k <= m < cands.len() ==> !#[trigger] eligible_candidate(c, cands[m], reg, now_ms),
        },
    decreases cands.len() - k,
{
    if k < cands.len() {
        lemma_first_eligible_is_first(c, cands, k + 1, reg, now_ms);
        if eligible_candidate(c, cands[k], reg, now_ms) {
            assert(eligible_candidate(c, cands[k], reg, now_ms));
        } else {
            match first_eligible_from(c, cands, k + 1, reg, now_ms) {
                Some(j) => {
                    let m = choose|m: int|
                        k + 1 <= m < cands.len() && #[trigger] eligible_candidate(c, cands[m], reg, now_ms)
                            && Some(j) == index_named(c.interfaces, cands[m]) && forall|m2: int|
                            k + 1 <= m2 < m ==> !#[trigger] eligible_candidate(c, cands[m2], reg, now_ms);
                    assert forall|m2: int| k <= m2 < m implies !#[trigger] eligible_candidate(
                        c,
                        cands[m2],
                        reg,
                        now_ms,
                    ) by {
                        if m2 > k {
                            assert(k + 1 <= m2 < m);
                        }
                    }
                },
                None => {},
            }
        }
    }
}

/// The configuration's own failover list, all configured interfaces in
/// order when it is empty.
pub open spec fn configured_failover(c: ConfigView) -> Seq<Seq<char>> {
    if c.failover_interfaces.len() == 0 {
        iface_names(c.interfaces)
    } else {
        c.failover_interfaces
    }
}

/// In global failover mode, an interface that may not carry traffic hands it
/// to the first eligible interface of the configuration's failover list
/// (of all configured interfaces, in order, when that list is empty),
/// whatever the interface's own failover list says; with none eligible it
/// keeps the traffic.
pub proof fn lemma_global_mode_follows_global_list(
    c: ConfigView,
    name: Option<Seq<char>>,
    reg: Seq<HealthView>,
    now_ms: i64,
)
    requires
        c.interfaces.len() > 0,
        c.interfaces[resolved_index(c, name)].failover_mode == FailoverMode::Global,
        !spec_is_eligible(c, c.interfaces[resolved_index(c, name)].name, reg, now_ms),
    ensures
        (exists|m: int|
            0 <= m < configured_failover(c).len() && #[trigger] eligible_candidate(
                c,
                configured_failover(c)[m],
                reg,
                now_ms,
            )) ==> exists|m: int|
            0 <= m < configured_failover(c).len() && #[trigger] eligible_candidate(
                c,
                configured_failover(c)[m],
                reg,
                now_ms,
            ) && Some(effective_index(c, name, reg, now_ms)) == index_named(
                c.interfaces,
                configured_failover(c)[m],
            ) && forall|m2: int|
                0 <= m2 < m ==> !#[trigger] eligible_candidate(c, configured_failover(c)[m2], reg, now_ms),
        (forall|m: int|
            0 <= m < configured_failover(c).len() ==> !#[trigger] eligible_candidate(
                c,
                configured_failover(c)[m],
                reg,
                now_ms,
            )) ==> effective_index(c, name, reg, now_ms) == resolved_index(c, name),
{
    let d = resolved_index(c, name);
    let g = configured_failover(c);
    assert(failover_list(c, c.interfaces[d]) =~= g);
    lemma_first_eligible_is_first(c, g, 0, reg, now_ms);
    let r = effective_index(c, name, reg, now_ms);
    assert(c.interfaces[d].failover_mode != FailoverMode::Disabled);
    assert(r == match first_eligible_from(c, g, 0, reg, now_ms) {
        Some(j) => j,
        None => d,
    });
    match first_eligible_from(c, g, 0, reg, now_ms) {
        Some(j) => {
            let m = choose|m: int|
                0 <= m < g.len() && #[trigger] eligible_candidate(c, g[m], reg, now_ms) && Some(j)
                    == index_named(c.interfaces, g[m]) && forall|m2: int|
                    0 <= m2 < m ==> !#[trigger] eligible_candidate(c, g[m2], reg, now_ms);
            assert(Some(r) == index_named(c.interfaces, g[m]));
        },
        None => {},
    }
}

/// What `first_eligible_from` finds is a configured interface, eligible,
/// named like one of the candidates.
pub proof fn lemma_first_eligible_from(
    c: ConfigView,
    cands: Seq<Seq<char>>,
    k: int,
    reg: Seq<HealthView>,
    now_ms: i64,
)
    requires
        0 <= k,
    ensures
        match first_eligible_from(c, cands, k, reg, now_ms) {
            Some(j) => 0 <= j < c.interfaces.len() && spec_is_eligible(
                c,
                c.interfaces[j].name,
                reg,
                now_ms,
            ),
            None => true,
        },
    decreases cands.len() - k,
{
    if k < cands.len() {
        lemma_index_named_from(c.interfaces, cands[k], 0);
        lemma_first_eligible_from(c, cands, k + 1, reg, now_ms);
    }
}

/// An interface with failover disabled carries its rules' traffic whatever
/// the health checks say.
pub proof fn lemma_disabled_failover_keeps_designated(
    c: ConfigView,
    name: Option<Seq<char>>,
    reg: Seq<HealthView>,
    now_ms: i64,
)
    requires
        c.interfaces[resolved_index(c, name)].failover_mode == FailoverMode::Disabled,
    ensures
        effective_index(c, name, reg, now_ms) == resolved_index(c, name),
{
}

/// An eligible designated interface is never replaced.
pub proof fn lemma_eligible_designated_is_kept(
    c: ConfigView,
    name: Option<Seq<char>>,
    reg: Seq<HealthView>,
    now_ms: i64,
)
    requires
        spec_is_eligible(c, c.interfaces[resolved_index(c, name)].name, reg, now_ms),
    ensures
        effective_index(c, name, reg, now_ms) == resolved_index(c, name),
{
}

/// The interface chosen is a configured one, and it is the designated
/// interface or an eligible one.
pub proof fn lemma_effective_is_designated_or_eligible(
    c: ConfigView,
    name: Option<Seq<char>>,
    reg: Seq<HealthView>,
    now_ms: i64,
)
    requires
        c.interfaces.len() > 0,
    ensures
        0 <= effective_index(c, name, reg, now_ms) < c.interfaces.len(),
        effective_index(c, name, reg, now_ms) == resolved_index(c, name) || spec_is_eligible(
            c,
            c.interfaces[effective_index(c, name, reg, now_ms)].name,
            reg,
            now_ms,
        ),
{
    lemma_index_named_from(c.interfaces, crate::config::target_name(c, name), 0);
    lemma_index_named_from(c.interfaces, c.default_interface, 0);
    let d = resolved_index(c, name);
    lemma_first_eligible_from(c, failover_list(c, c.interfaces[d]), 0, reg, now_ms);
}

/// With no health check results yet, every configured interface is eligible,
/// so the designated interface is used.
pub proof fn lemma_no_results_keeps_designated(
    c: ConfigView,
    name: Option<Seq<char>>,
    reg: Seq<HealthView>,
    now_ms: i64,
)
    requires
        c.interfaces.len() > 0,
        reg.len() == 0,
    ensures
        effective_index(c, name, reg, now_ms) == resolved_index(c, name),
{
    lemma_index_named_from(c.interfaces, crate::config::target_name(c, name), 0);
    lemma_index_named_from(c.interfaces, c.default_interface, 0);
    let d = resolved_index(c, name);
    let n = c.interfaces[d].name;
    lemma_index_named_from(c.interfaces, n, 0);
    let i = index_named(c.interfaces, n)->0;
    let itf = c.interfaces[i];
    assert forall|h: int| 0 <= h < itf.health_check_hosts.len() implies #[trigger] host_healthy(
        reg,
        itf.name,
        itf.health_check_hosts[h],
    ) by {
        assert(crate::health::entry_index_from(reg, itf.name, itf.health_check_hosts[h], 0) is None);
    }
    assert forall|h: int| 0 <= h < itf.health_check_hosts.len() implies #[trigger] host_recovered(
        reg,
        itf.name,
        itf.health_check_hosts[h],
        now_ms,
        recovery_delay_ms(c),
    ) by {
        assert(crate::health::entry_index_from(reg, itf.name, itf.health_check_hosts[h], 0) is None);
    }
    assert(spec_is_eligible(c, n, reg, now_ms));
}

/// Without a recovery delay an interface is eligible exactly when it is healthy.
pub proof fn lemma_zero_delay_eligible_iff_healthy(
    c: ConfigView,
    n: Seq<char>,
    reg: Seq<HealthView>,
    now_ms: i64,
)
    requires
        c.failover_recovery_delay_seconds == 0,
    ensures
        spec_is_eligible(c, n, reg, now_ms) == spec_is_healthy(c, n, reg),
{
}

/// A checked interface one of whose hosts has been unhealthy, and has been
/// healthy again for less than the recovery delay, is not eligible.
pub proof fn lemma_recent_recovery_is_not_eligible(
    c: ConfigView,
    n: Seq<char>,
    reg: Seq<HealthView>,
    now_ms: i64,
    h: int,
)
    requires
        recovery_delay_ms(c) != 0,
        index_named(c.interfaces, n) is Some,
        c.interfaces[index_named(c.interfaces, n)->0].health_check_enabled,
        0 <= h < c.interfaces[index_named(c.interfaces, n)->0].health_check_hosts.len(),
        ({
            let itf = c.interfaces[index_named(c.interfaces, n)->0];
            match status_of(reg, itf.name, itf.health_check_hosts[h]) {
                Some(st) => st.last_unhealthy_at_ms is Some && match st.healthy_since_ms {
                    Some(t) => now_ms - t < recovery_delay_ms(c),
                    None => true,
                },
                None => false,
            }
        }),
    ensures
        !spec_is_eligible(c, n, reg, now_ms),
{
    let itf = c.interfaces[index_named(c.interfaces, n)->0];
    assert(!host_recovered(reg, itf.name, itf.health_check_hosts[h], now_ms, recovery_delay_ms(c)));
}

} // verus!
