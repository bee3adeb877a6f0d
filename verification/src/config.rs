//! The resolver's configuration: interfaces, fake IP subnets, the upstream
//! resolver, health checks and failover, with defaults, patches, the
//! migration of older files and the choice of an interface by name.
//!
//! Thresholds that the health checks compare against are floating point
//! values; the library carries them as their IEEE 754 bit patterns and never
//! computes with them.
use crate::net::{IpAddress, IpFamily, IpNetwork};
use crate::text::{copy_opt_string, copy_strings, opt_str, str_eq, strs};
use vstd::prelude::*;

verus! {

/// Which interfaces an interface falls back to when it is not usable.
#[derive(Debug, Clone, Copy, PartialEq, Eq, Structural)]
pub enum FailoverMode {
    /// The global failover list of the configuration.
    Global,
    /// No failover: the interface is kept even when unhealthy.
    Disabled,
    /// The interface's own failover list.
    Custom,
}

impl Default for FailoverMode {
    fn default() -> (r: Self)
        ensures
            r == FailoverMode::Global,
    {
        FailoverMode::Global
    }
}

/// Bit pattern of the default latency threshold, 500.0 milliseconds.
pub const DEFAULT_LATENCY_THRESHOLD_BITS: u64 = 0x407F_4000_0000_0000;

/// Bit pattern of the default packet loss threshold, 50.0 percent.
pub const DEFAULT_PACKET_LOSS_THRESHOLD_BITS: u64 = 0x4049_0000_0000_0000;

/// One egress interface and how it is checked and failed over.
#[derive(Debug, Clone)]
pub struct InterfaceConfig {
    pub name: String,
    pub fwmark: u32,
    pub table_id: u8,
    pub tcp_mss_clamp: Option<u32>,
    pub ipv4_snat: Option<IpAddress>,
    pub ipv6_snat: Option<IpAddress>,
    pub health_check_enabled: bool,
    pub health_check_hosts: Vec<String>,
    /// Bit pattern of the latency threshold in milliseconds.
    pub health_check_latency_threshold_ms_bits: u64,
    /// Bit pattern of the packet loss threshold in percent.
    pub health_check_packet_loss_threshold_percent_bits: u64,
    pub failover_mode: FailoverMode,
    pub failover_interfaces: Vec<String>,
}

/// The mathematical value of an [`InterfaceConfig`].
pub struct InterfaceConfigView {
    pub name: Seq<char>,
    pub fwmark: u32,
    pub table_id: u8,
    pub tcp_mss_clamp: Option<u32>,
    pub ipv4_snat: Option<IpAddress>,
    pub ipv6_snat: Option<IpAddress>,
    pub health_check_enabled: bool,
    pub health_check_hosts: Seq<Seq<char>>,
    pub latency_threshold_bits: u64,
    pub packet_loss_threshold_bits: u64,
    pub failover_mode: FailoverMode,
    pub failover_interfaces: Seq<Seq<char>>,
}

impl View for InterfaceConfig {
    type V = InterfaceConfigView;

    open spec fn view(&self) -> InterfaceConfigView {
        InterfaceConfigView {
            name: self.name@,
            fwmark: self.fwmark,
            table_id: self.table_id,
            tcp_mss_clamp: self.tcp_mss_clamp,
            ipv4_snat: self.ipv4_snat,
            ipv6_snat: self.ipv6_snat,
            health_check_enabled: self.health_check_enabled,
            health_check_hosts: strs(self.health_check_hosts@),
            latency_threshold_bits: self.health_check_latency_threshold_ms_bits,
            packet_loss_threshold_bits: self.health_check_packet_loss_threshold_percent_bits,
            failover_mode: self.failover_mode,
            failover_interfaces: strs(self.failover_interfaces@),
        }
    }
}

/// The views of a list of interfaces.
pub open spec fn iface_views(s: Seq<InterfaceConfig>) -> Seq<InterfaceConfigView> {
    s.map_values(|i: InterfaceConfig| i@)
}

/// The names of a list of interfaces, in order.
pub open spec fn iface_names(s: Seq<InterfaceConfigView>) -> Seq<Seq<char>> {
    s.map_values(|i: InterfaceConfigView| i.name)
}

/// The default interface: `wg0`, checked against Cloudflare's resolvers over
/// IPv4 and IPv6, with the global failover list.
pub open spec fn default_interface_view() -> InterfaceConfigView {
    InterfaceConfigView {
        name: "wg0"@,
        fwmark: 1,
        table_id: 100,
        tcp_mss_clamp: None,
        ipv4_snat: None,
        ipv6_snat: None,
        health_check_enabled: true,
        health_check_hosts: seq!["1.1.1.1"@, "2606:4700:4700::1111"@],
        latency_threshold_bits: DEFAULT_LATENCY_THRESHOLD_BITS,
        packet_loss_threshold_bits: DEFAULT_PACKET_LOSS_THRESHOLD_BITS,
        failover_mode: FailoverMode::Global,
        failover_interfaces: Seq::empty(),
    }
}

impl Default for InterfaceConfig {
    fn default() -> (r: Self)
        ensures
            r@ == default_interface_view(),
    {
        let mut hosts: Vec<String> = Vec::new();
        hosts.push(String::from_str("1.1.1.1"));
        hosts.push(String::from_str("2606:4700:4700::1111"));
        let r = InterfaceConfig {
            name: String::from_str("wg0"),
            fwmark: 1,
            table_id: 100,
            tcp_mss_clamp: None,
            ipv4_snat: None,
            ipv6_snat: None,
            health_check_enabled: true,
            health_check_hosts: hosts,
            health_check_latency_threshold_ms_bits: DEFAULT_LATENCY_THRESHOLD_BITS,
            health_check_packet_loss_threshold_percent_bits: DEFAULT_PACKET_LOSS_THRESHOLD_BITS,
            failover_mode: FailoverMode::Global,
            failover_interfaces: Vec::new(),
        };
        assert(strs(r.health_check_hosts@) =~= seq!["1.1.1.1"@, "2606:4700:4700::1111"@]);
        assert(strs(r.failover_interfaces@) =~= Seq::<Seq<char>>::empty());
        r
    }
}

impl InterfaceConfig {
    /// A copy of this interface.
    pub fn copy(&self) -> (r: Self)
        ensures
            r@ == self@,
    {
        InterfaceConfig {
            name: self.name.clone(),
            fwmark: self.fwmark,
            table_id: self.table_id,
            tcp_mss_clamp: self.tcp_mss_clamp,
            ipv4_snat: self.ipv4_snat,
            ipv6_snat: self.ipv6_snat,
            health_check_enabled: self.health_check_enabled,
            health_check_hosts: copy_strings(&self.health_check_hosts),
            health_check_latency_threshold_ms_bits: self.health_check_latency_threshold_ms_bits,
            health_check_packet_loss_threshold_percent_bits: self.health_check_packet_loss_threshold_percent_bits,
            failover_mode: self.failover_mode,
            failover_interfaces: copy_strings(&self.failover_interfaces),
        }
    }
}

/// A copy of a list of interfaces.
pub fn copy_interfaces(v: &Vec<InterfaceConfig>) -> (r: Vec<InterfaceConfig>)
    ensures
        iface_views(r@) == iface_views(v@),
{
    let mut r: Vec<InterfaceConfig> = Vec::new();
    let mut i: usize = 0;
    while i < v.len()
        invariant
            i <= v.len(),
            r@.len() == i,
            forall|j: int| 0 <= j < i ==> r@[j]@ == v@[j]@,
        decreases v.len() - i,
    {
        let c = v[i].copy();
        r.push(c);
        i = i + 1;
    }
    assert(iface_views(r@) =~= iface_views(v@));
    r
}

/// The position of the first interface with the given name, searching from `k`.
pub open spec fn index_named_from(s: Seq<InterfaceConfigView>, n: Seq<char>, k: int) -> Option<int>
    decreases s.len() - k,
{
    if k < 0 || k >= s.len() {
        None
    } else if s[k].name == n {
        Some(k)
    } else {
        index_named_from(s, n, k + 1)
    }
}

/// The position of the first interface with the given name.
pub open spec fn index_named(s: Seq<InterfaceConfigView>, n: Seq<char>) -> Option<int> {
    index_named_from(s, n, 0)
}

/// What `index_named_from` finds lies in range and carries the name.
pub proof fn lemma_index_named_from(s: Seq<InterfaceConfigView>, n: Seq<char>, k: int)
    requires
        0 <= k,
    ensures
        match index_named_from(s, n, k) {
            Some(i) => k <= i < s.len() && s[i].name == n,
            None => forall|j: int| k <= j < s.len() ==> s[j].name != n,
        },
    decreases s.len() - k,
{
    if k < 0 || k >= s.len() {
    } else if s[k].name == n {
    } else {
        lemma_index_named_from(s, n, k + 1);
    }
}

/// The position of the first interface named `name`.
pub fn find_interface(interfaces: &Vec<InterfaceConfig>, name: &str) -> (r: Option<usize>)
    ensures
        match r {
            Some(i) => i < interfaces.len() && index_named(iface_views(interfaces@), name@) == Some(
                i as int,
            ) && interfaces@[i as int]@.name == name@,
            None => index_named(iface_views(interfaces@), name@) is None,
        },
{
    let ghost s = iface_views(interfaces@);
    let mut k: usize = 0;
    while k < interfaces.len()
        invariant
            k <= interfaces.len(),
            s == iface_views(interfaces@),
            index_named(s, name@) == index_named_from(s, name@, k as int),
        decreases interfaces.len() - k,
    {
        if str_eq(interfaces[k].name.as_str(), name) {
            assert(s[k as int].name == name@);
            return Some(k);
        }
        assert(s[k as int].name != name@);
        k = k + 1;
    }
    None
}

/// The transport of a custom upstream nameserver.
#[derive(Debug, Clone, Copy, PartialEq, Eq, Structural)]
pub enum ResolverProtocol {
    Plain,
    Tls,
    Https,
}

/// A custom upstream nameserver: an address, with or without a port.
#[derive(Debug, Clone)]
pub struct CustomNameserverConfig {
    pub addr: String,
    pub protocol: ResolverProtocol,
    pub tls_dns_name: Option<String>,
}

/// The mathematical value of a [`CustomNameserverConfig`].
pub struct NameserverView {
    pub addr: Seq<char>,
    pub protocol: ResolverProtocol,
    pub tls_dns_name: Option<Seq<char>>,
}

impl View for CustomNameserverConfig {
    type V = NameserverView;

    open spec fn view(&self) -> NameserverView {
        NameserverView {
            addr: self.addr@,
            protocol: self.protocol,
            tls_dns_name: opt_str(self.tls_dns_name),
        }
    }
}

/// The views of a list of nameservers.
pub open spec fn nameserver_views(s: Seq<CustomNameserverConfig>) -> Seq<NameserverView> {
    s.map_values(|n: CustomNameserverConfig| n@)
}

/// The upstream resolver: one of three public DNS-over-HTTPS services, or a
/// list of nameservers.
#[derive(Debug, Clone)]
pub enum UpstreamResolverConfig {
    Quad9Https,
    CloudflareHttps,
    GoogleHttps,
    Custom { nameservers: Vec<CustomNameserverConfig> },
}

/// The mathematical value of an [`UpstreamResolverConfig`].
pub enum UpstreamView {
    Quad9Https,
    CloudflareHttps,
    GoogleHttps,
    Custom(Seq<NameserverView>),
}

impl View for UpstreamResolverConfig {
    type V = UpstreamView;

    open spec fn view(&self) -> UpstreamView {
        match self {
            UpstreamResolverConfig::Quad9Https => UpstreamView::Quad9Https,
            UpstreamResolverConfig::CloudflareHttps => UpstreamView::CloudflareHttps,
            UpstreamResolverConfig::GoogleHttps => UpstreamView::GoogleHttps,
            UpstreamResolverConfig::Custom { nameservers } => UpstreamView::Custom(
                nameserver_views(nameservers@),
            ),
        }
    }
}

impl Default for UpstreamResolverConfig {
    fn default() -> (r: Self)
        ensures
            r@ == UpstreamView::Quad9Https,
    {
        UpstreamResolverConfig::Quad9Https
    }
}

impl CustomNameserverConfig {
    /// A copy of this nameserver.
    pub fn copy(&self) -> (r: Self)
        ensures
            r@ == self@,
    {
        CustomNameserverConfig {
            addr: self.addr.clone(),
            protocol: self.protocol,
            tls_dns_name: copy_opt_string(&self.tls_dns_name),
        }
    }
}

impl UpstreamResolverConfig {
    /// A copy of this resolver choice.
    pub fn copy(&self) -> (r: Self)
        ensures
            r@ == self@,
    {
        match self {
            UpstreamResolverConfig::Quad9Https => UpstreamResolverConfig::Quad9Https,
            UpstreamResolverConfig::CloudflareHttps => UpstreamResolverConfig::CloudflareHttps,
            UpstreamResolverConfig::GoogleHttps => UpstreamResolverConfig::GoogleHttps,
            UpstreamResolverConfig::Custom { nameservers } => {
                let mut r: Vec<CustomNameserverConfig> = Vec::new();
                let mut i: usize = 0;
                while i < nameservers.len()
                    invariant
                        i <= nameservers.len(),
                        r@.len() == i,
                        forall|j: int| 0 <= j < i ==> r@[j]@ == nameservers@[j]@,
                    decreases nameservers.len() - i,
                {
                    r.push(nameservers[i].copy());
                    i = i + 1;
                }
                assert(nameserver_views(r@) =~= nameserver_views(nameservers@));
                UpstreamResolverConfig::Custom { nameservers: r }
            },
        }
    }
}

/// The whole configuration.
#[derive(Debug, Clone)]
pub struct Config {
    pub interfaces: Vec<InterfaceConfig>,
    pub default_interface: String,
    pub ipv4_subnet: IpNetwork,
    pub ipv6_subnet: IpNetwork,
    pub upstream_resolver: UpstreamResolverConfig,
    pub export_enabled: bool,
    pub health_check_interval_seconds: u64,
    pub health_check_timeout_seconds: u64,
    pub health_check_ping_count: u32,
    pub failover_recovery_delay_seconds: u64,
    pub failover_interfaces: Vec<String>,
    /// Single-interface files: the routing table of the interface.
    pub table_id: Option<u8>,
    /// Single-interface files: the name of the interface.
    pub iface: Option<String>,
    /// Single-interface files: the MSS clamp of the interface.
    pub tcp_mss_clamp: Option<u32>,
    /// Single-interface files: the IPv4 source address of the interface.
    pub ipv4_snat: Option<IpAddress>,
    /// Single-interface files: the IPv6 source address of the interface.
    pub ipv6_snat: Option<IpAddress>,
}

/// The mathematical value of a [`Config`].
pub struct ConfigView {
    pub interfaces: Seq<InterfaceConfigView>,
    pub default_interface: Seq<char>,
    pub ipv4_subnet: IpNetwork,
    pub ipv6_subnet: IpNetwork,
    pub upstream_resolver: UpstreamView,
    pub export_enabled: bool,
    pub health_check_interval_seconds: u64,
    pub health_check_timeout_seconds: u64,
    pub health_check_ping_count: u32,
    pub failover_recovery_delay_seconds: u64,
    pub failover_interfaces: Seq<Seq<char>>,
    pub table_id: Option<u8>,
    pub iface: Option<Seq<char>>,
    pub tcp_mss_clamp: Option<u32>,
    pub ipv4_snat: Option<IpAddress>,
    pub ipv6_snat: Option<IpAddress>,
}

impl View for Config {
    type V = ConfigView;

    open spec fn view(&self) -> ConfigView {
        ConfigView {
            interfaces: iface_views(self.interfaces@),
            default_interface: self.default_interface@,
            ipv4_subnet: self.ipv4_subnet,
            ipv6_subnet: self.ipv6_subnet,
            upstream_resolver: self.upstream_resolver@,
            export_enabled: self.export_enabled,
            health_check_interval_seconds: self.health_check_interval_seconds,
            health_check_timeout_seconds: self.health_check_timeout_seconds,
            health_check_ping_count: self.health_check_ping_count,
            failover_recovery_delay_seconds: self.failover_recovery_delay_seconds,
            failover_interfaces: strs(self.failover_interfaces@),
            table_id: self.table_id,
            iface: opt_str(self.iface),
            tcp_mss_clamp: self.tcp_mss_clamp,
            ipv4_snat: self.ipv4_snat,
            ipv6_snat: self.ipv6_snat,
        }
    }
}

/// The default IPv4 fake subnet, 198.18.0.0/15.
pub open spec fn default_ipv4_subnet() -> IpNetwork {
    IpNetwork { family: IpFamily::V4, addr: 0xC612_0000, prefix_len: 15 }
}

/// The default IPv6 fake subnet, fd32:bfcc:fba0:1337::/64.
pub open spec fn default_ipv6_subnet() -> IpNetwork {
    IpNetwork { family: IpFamily::V6, addr: 0xfd32_bfcc_fba0_1337_0000_0000_0000_0000, prefix_len: 64 }
}

/// The default configuration: the default interface with an MSS clamp of
/// 1280 and the IPv4 source address 10.10.10.4, Quad9 upstream.
pub open spec fn default_config_view() -> ConfigView {
    ConfigView {
        interfaces: seq![InterfaceConfigView {
            tcp_mss_clamp: Some(1280),
            ipv4_snat: Some(IpAddress::V4(0x0A0A_0A04)),
            ..default_interface_view()
        }],
        default_interface: "wg0"@,
        ipv4_subnet: default_ipv4_subnet(),
        ipv6_subnet: default_ipv6_subnet(),
        upstream_resolver: UpstreamView::Quad9Https,
        export_enabled: false,
        health_check_interval_seconds: 15,
        health_check_timeout_seconds: 12,
        health_check_ping_count: 5,
        failover_recovery_delay_seconds: 60,
        failover_interfaces: seq!["wg0"@],
        table_id: None,
        iface: None,
        tcp_mss_clamp: None,
        ipv4_snat: None,
        ipv6_snat: None,
    }
}

impl Default for Config {
    fn default() -> (r: Self)
        ensures
            r@ == default_config_view(),
    {
        let mut first = InterfaceConfig::default();
        first.tcp_mss_clamp = Some(1280);
        first.ipv4_snat = Some(IpAddress::V4(0x0A0A_0A04));
        let mut interfaces: Vec<InterfaceConfig> = Vec::new();
        interfaces.push(first);
        let mut failover: Vec<String> = Vec::new();
        failover.push(String::from_str("wg0"));
        let r = Config {
            interfaces,
            default_interface: String::from_str("wg0"),
            ipv4_subnet: IpNetwork { family: IpFamily::V4, addr: 0xC612_0000, prefix_len: 15 },
            ipv6_subnet: IpNetwork {
                family: IpFamily::V6,
                addr: 0xfd32_bfcc_fba0_1337_0000_0000_0000_0000,
                prefix_len: 64,
            },
            upstream_resolver: UpstreamResolverConfig::Quad9Https,
            export_enabled: false,
            health_check_interval_seconds: 15,
            health_check_timeout_seconds: 12,
            health_check_ping_count: 5,
            failover_recovery_delay_seconds: 60,
            failover_interfaces: failover,
            table_id: None,
            iface: None,
            tcp_mss_clamp: None,
            ipv4_snat: None,
            ipv6_snat: None,
        };
        assert(iface_views(r.interfaces@) =~= default_config_view().interfaces);
        assert(strs(r.failover_interfaces@) =~= seq!["wg0"@]);
        r
    }
}

/// A partial configuration: the fields that are present replace those of a
/// configuration.
#[derive(Debug, Clone, Default)]
pub struct PatchConfig {
    pub interfaces: Option<Vec<InterfaceConfig>>,
    pub default_interface: Option<String>,
    pub ipv4_subnet: Option<IpNetwork>,
    pub ipv6_subnet: Option<IpNetwork>,
    pub upstream_resolver: Option<UpstreamResolverConfig>,
    pub export_enabled: Option<bool>,
    pub health_check_interval_seconds: Option<u64>,
    pub health_check_timeout_seconds: Option<u64>,
    pub health_check_ping_count: Option<u32>,
    pub failover_recovery_delay_seconds: Option<u64>,
    pub failover_interfaces: Option<Vec<String>>,
}

/// The mathematical value of a [`PatchConfig`].
pub struct PatchView {
    pub interfaces: Option<Seq<InterfaceConfigView>>,
    pub default_interface: Option<Seq<char>>,
    pub ipv4_subnet: Option<IpNetwork>,
    pub ipv6_subnet: Option<IpNetwork>,
    pub upstream_resolver: Option<UpstreamView>,
    pub export_enabled: Option<bool>,
    pub health_check_interval_seconds: Option<u64>,
    pub health_check_timeout_seconds: Option<u64>,
    pub health_check_ping_count: Option<u32>,
    pub failover_recovery_delay_seconds: Option<u64>,
    pub failover_interfaces: Option<Seq<Seq<char>>>,
}

impl View for PatchConfig {
    type V = PatchView;

    open spec fn view(&self) -> PatchView {
        PatchView {
            interfaces: match self.interfaces {
                Some(v) => Some(iface_views(v@)),
                None => None,
            },
            default_interface: opt_str(self.default_interface),
            ipv4_subnet: self.ipv4_subnet,
            ipv6_subnet: self.ipv6_subnet,
            upstream_resolver: match self.upstream_resolver {
                Some(u) => Some(u@),
                None => None,
            },
            export_enabled: self.export_enabled,
            health_check_interval_seconds: self.health_check_interval_seconds,
            health_check_timeout_seconds: self.health_check_timeout_seconds,
            health_check_ping_count: self.health_check_ping_count,
            failover_recovery_delay_seconds: self.failover_recovery_delay_seconds,
            failover_interfaces: match self.failover_interfaces {
                Some(v) => Some(strs(v@)),
                None => None,
            },
        }
    }
}

/// The value of an option, or a fallback.
pub open spec fn or_else<T>(o: Option<T>, d: T) -> T {
    match o {
        Some(v) => v,
        None => d,
    }
}

/// A configuration with a patch applied: each field of the patch that is
/// present replaces the configuration's, and the fields of single-interface
/// files are dropped.
pub open spec fn patched(c: ConfigView, p: PatchView) -> ConfigView {
    ConfigView {
        interfaces: or_else(p.interfaces, c.interfaces),
        default_interface: or_else(p.default_interface, c.default_interface),
        ipv4_subnet: or_else(p.ipv4_subnet, c.ipv4_subnet),
        ipv6_subnet: or_else(p.ipv6_subnet, c.ipv6_subnet),
        upstream_resolver: or_else(p.upstream_resolver, c.upstream_resolver),
        export_enabled: or_else(p.export_enabled, c.export_enabled),
        health_check_interval_seconds: or_else(p.health_check_interval_seconds, c.health_check_interval_seconds),
        health_check_timeout_seconds: or_else(p.health_check_timeout_seconds, c.health_check_timeout_seconds),
        health_check_ping_count: or_else(p.health_check_ping_count, c.health_check_ping_count),
        failover_recovery_delay_seconds: or_else(
            p.failover_recovery_delay_seconds,
            c.failover_recovery_delay_seconds,
        ),
        failover_interfaces: or_else(p.failover_interfaces, c.failover_interfaces),
        table_id: None,
        iface: None,
        tcp_mss_clamp: None,
        ipv4_snat: None,
        ipv6_snat: None,
    }
}

/// The characters of an optional string slice.
pub open spec fn opt_str_ref(o: Option<&str>) -> Option<Seq<char>> {
    match o {
        Some(s) => Some(s@),
        None => None,
    }
}

/// The name an interface is asked for by: `default` and no name stand for the
/// default interface.
pub open spec fn target_name(c: ConfigView, name: Option<Seq<char>>) -> Seq<char> {
    match name {
        Some(n) => if n == "default"@ {
            c.default_interface
        } else {
            n
        },
        None => c.default_interface,
    }
}

/// Which interface a name resolves to: the first with that name, else the
/// first named like the default interface, else the first interface.
pub open spec fn resolved_index(c: ConfigView, name: Option<Seq<char>>) -> int {
    match index_named(c.interfaces, target_name(c, name)) {
        Some(i) => i,
        None => match index_named(c.interfaces, c.default_interface) {
            Some(i) => i,
            None => 0,
        },
    }
}

/// The single interface that a file written for one interface describes.
pub open spec fn legacy_interface(c: ConfigView) -> InterfaceConfigView {
    InterfaceConfigView {
        name: or_else(c.iface, "wg0"@),
        table_id: or_else(c.table_id, 100),
        tcp_mss_clamp: c.tcp_mss_clamp,
        ipv4_snat: c.ipv4_snat,
        ipv6_snat: c.ipv6_snat,
        ..default_interface_view()
    }
}

/// A configuration as read from a file, brought up to date: without an
/// `interfaces` table the single-interface fields describe the one
/// interface; an empty default interface becomes the first interface; and
/// without a (non-empty) failover list every interface is in it, in order.
pub open spec fn migrated(
    c: ConfigView,
    interfaces_configured: bool,
    failover_interfaces_configured: bool,
) -> ConfigView {
    let kept = if interfaces_configured {
        c.interfaces
    } else {
        Seq::empty()
    };
    let interfaces = if kept.len() == 0 {
        seq![legacy_interface(c)]
    } else {
        kept
    };
    let default_interface = if c.default_interface.len() == 0 {
        interfaces[0].name
    } else {
        c.default_interface
    };
    let failover = if !failover_interfaces_configured || c.failover_interfaces.len() == 0 {
        iface_names(interfaces)
    } else {
        c.failover_interfaces
    };
    ConfigView {
        interfaces,
        default_interface,
        failover_interfaces: failover,
        ..c
    }
}

/// The names of a list of interfaces.
pub fn interface_names(v: &Vec<InterfaceConfig>) -> (r: Vec<String>)
    ensures
        strs(r@) == iface_names(iface_views(v@)),
{
    let mut r: Vec<String> = Vec::new();
    let mut i: usize = 0;
    while i < v.len()
        invariant
            i <= v.len(),
            r@.len() == i,
            forall|j: int| 0 <= j < i ==> r@[j]@ == v@[j].name@,
        decreases v.len() - i,
    {
        r.push(v[i].name.clone());
        i = i + 1;
    }
    assert(strs(r@) =~= iface_names(iface_views(v@)));
    r
}

impl Config {
    /// This configuration with a patch applied.
    pub fn patch(&self, patch: PatchConfig) -> (r: Config)
        ensures
            r@ == patched(self@, patch@),
    {
        let interfaces = match patch.interfaces {
            Some(v) => v,
            None => copy_interfaces(&self.interfaces),
        };
        let default_interface = match patch.default_interface {
            Some(v) => v,
            None => self.default_interface.clone(),
        };
        let upstream_resolver = match patch.upstream_resolver {
            Some(v) => v,
            None => self.upstream_resolver.copy(),
        };
        let failover_interfaces = match patch.failover_interfaces {
            Some(v) => v,
            None => copy_strings(&self.failover_interfaces),
        };
        Config {
            interfaces,
            default_interface,
            ipv4_subnet: match patch.ipv4_subnet {
                Some(v) => v,
                None => self.ipv4_subnet,
            },
            ipv6_subnet: match patch.ipv6_subnet {
                Some(v) => v,
                None => self.ipv6_subnet,
            },
            upstream_resolver,
            export_enabled: match patch.export_enabled {
                Some(v) => v,
                None => self.export_enabled,
            },
            health_check_interval_seconds: match patch.health_check_interval_seconds {
                Some(v) => v,
                None => self.health_check_interval_seconds,
            },
            health_check_timeout_seconds: match patch.health_check_timeout_seconds {
                Some(v) => v,
                None => self.health_check_timeout_seconds,
            },
            health_check_ping_count: match patch.health_check_ping_count {
                Some(v) => v,
                None => self.health_check_ping_count,
            },
            failover_recovery_delay_seconds: match patch.failover_recovery_delay_seconds {
                Some(v) => v,
                None => self.failover_recovery_delay_seconds,
            },
            failover_interfaces,
            table_id: None,
            iface: None,
            tcp_mss_clamp: None,
            ipv4_snat: None,
            ipv6_snat: None,
        }
    }

    /// The interface that a rule's interface name designates: the one with
    /// that name, else the default interface, else the first interface.
    /// `default` and no name designate the default interface.
    pub fn resolve_interface(&self, interface_name: Option<&str>) -> (r: &InterfaceConfig)
        requires
            self.interfaces.len() > 0,
        ensures
            0 <= resolved_index(self@, opt_str_ref(interface_name)) < self.interfaces.len(),
            r@ == self@.interfaces[resolved_index(self@, opt_str_ref(interface_name))],
    {
        let ghost c = self@;
        proof {
            lemma_index_named_from(c.interfaces, target_name(c, opt_str_ref(interface_name)), 0);
            lemma_index_named_from(c.interfaces, c.default_interface, 0);
        }
        let name: &str = match interface_name {
            Some(n) => if str_eq(n, "default") {
                self.default_interface.as_str()
            } else {
                n
            },
            None => self.default_interface.as_str(),
        };
        proof {
            reveal_strlit("default");
        }
        assert(name@ == target_name(c, opt_str_ref(interface_name)));
        let i = match find_interface(&self.interfaces, name) {
            Some(i) => i,
            None => match find_interface(&self.interfaces, self.default_interface.as_str()) {
                Some(i) => i,
                None => 0,
            },
        };
        &self.interfaces[i]
    }

    /// Brings a configuration read from a file up to date (see [`migrated`]).
    /// The flags say whether the file had an `interfaces` table and a
    /// `failover_interfaces` entry.
    pub fn migrate(&mut self, interfaces_configured: bool, failover_interfaces_configured: bool)
        ensures
            final(self)@ == migrated(
                old(self)@,
                interfaces_configured,
                failover_interfaces_configured,
            ),
    {
        let ghost c = self@;
        if !interfaces_configured {
            self.interfaces.clear();
        }
        if self.interfaces.len() == 0 {
            let name = match &self.iface {
                Some(n) => n.clone(),
                None => String::from_str("wg0"),
            };
            let mut itf = InterfaceConfig::default();
            itf.name = name.clone();
            itf.table_id = match self.table_id {
                Some(t) => t,
                None => 100,
            };
            itf.tcp_mss_clamp = self.tcp_mss_clamp;
            itf.ipv4_snat = self.ipv4_snat;
            itf.ipv6_snat = self.ipv6_snat;
            assert(itf@ == legacy_interface(c));
            self.interfaces.push(itf);
            if self.default_interface.as_str().is_empty() {
                self.default_interface = name;
            }
        } else if self.default_interface.as_str().is_empty() {
            self.default_interface = self.interfaces[0].name.clone();
        }
        assert(iface_views(self.interfaces@) =~= (if c.interfaces.len() == 0 || !interfaces_configured {
            seq![legacy_interface(c)]
        } else {
            c.interfaces
        }));
        if !failover_interfaces_configured || self.failover_interfaces.len() == 0 {
            self.failover_interfaces = interface_names(&self.interfaces);
        }
        assert(self@ =~= migrated(c, interfaces_configured, failover_interfaces_configured));
    }

    /// Whether a new configuration keeps both fake IP subnets; a change of
    /// either needs a restart, as existing fake IP mappings cannot be kept.
    pub fn keeps_subnets_of(&self, old: &Config) -> (r: bool)
        ensures
            r == (self.ipv4_subnet == old.ipv4_subnet && self.ipv6_subnet == old.ipv6_subnet),
    {
        self.ipv4_subnet == old.ipv4_subnet && self.ipv6_subnet == old.ipv6_subnet
    }
}

/// A migrated configuration has at least one interface and a non-empty
/// failover list, and an empty default interface has become the name of a
/// configured interface.
pub proof fn lemma_migrated_is_usable(
    c: ConfigView,
    interfaces_configured: bool,
    failover_interfaces_configured: bool,
)
    ensures
        ({
            let m = migrated(c, interfaces_configured, failover_interfaces_configured);
            &&& m.interfaces.len() > 0
            &&& m.failover_interfaces.len() > 0
            &&& c.default_interface.len() == 0 ==> index_named(m.interfaces, m.default_interface)
                == Some(0int)
        }),
{
    let m = migrated(c, interfaces_configured, failover_interfaces_configured);
    assert(m.interfaces.len() > 0);
    if c.failover_interfaces.len() > 0 && failover_interfaces_configured {
    } else {
        assert(iface_names(m.interfaces).len() == m.interfaces.len());
    }
}

/// A patch with no fields leaves every setting as it was and drops only the
/// fields of single-interface files.
pub proof fn lemma_empty_patch_keeps_settings(c: ConfigView, p: PatchView)
    requires
        p.interfaces is None,
        p.default_interface is None,
        p.ipv4_subnet is None,
        p.ipv6_subnet is None,
        p.upstream_resolver is None,
        p.export_enabled is None,
        p.health_check_interval_seconds is None,
        p.health_check_timeout_seconds is None,
        p.health_check_ping_count is None,
        p.failover_recovery_delay_seconds is None,
        p.failover_interfaces is None,
    ensures
        patched(c, p) == (ConfigView {
            table_id: None,
            iface: None,
            tcp_mss_clamp: None,
            ipv4_snat: None,
            ipv6_snat: None,
            ..c
        }),
{
}

/// Patching twice is patching once with the second patch over the first:
/// the later patch wins where both set a field.
pub proof fn lemma_patch_twice(c: ConfigView, p: PatchView, q: PatchView)
    ensures
        patched(patched(c, p), q) == patched(
            c,
            PatchView {
                interfaces: if q.interfaces is Some { q.interfaces } else { p.interfaces },
                default_interface: if q.default_interface is Some {
                    q.default_interface
                } else {
                    p.default_interface
                },
                ipv4_subnet: if q.ipv4_subnet is Some { q.ipv4_subnet } else { p.ipv4_subnet },
                ipv6_subnet: if q.ipv6_subnet is Some { q.ipv6_subnet } else { p.ipv6_subnet },
                upstream_resolver: if q.upstream_resolver is Some {
                    q.upstream_resolver
                } else {
                    p.upstream_resolver
                },
                export_enabled: if q.export_enabled is Some {
                    q.export_enabled
                } else {
                    p.export_enabled
                },
                health_check_interval_seconds: if q.health_check_interval_seconds is Some {
                    q.health_check_interval_seconds
                } else {
                    p.health_check_interval_seconds
                },
                health_check_timeout_seconds: if q.health_check_timeout_seconds is Some {
                    q.health_check_timeout_seconds
                } else {
                    p.health_check_timeout_seconds
                },
                health_check_ping_count: if q.health_check_ping_count is Some {
                    q.health_check_ping_count
                } else {
                    p.health_check_ping_count
                },
                failover_recovery_delay_seconds: if q.failover_recovery_delay_seconds is Some {
                    q.failover_recovery_delay_seconds
                } else {
                    p.failover_recovery_delay_seconds
                },
                failover_interfaces: if q.failover_interfaces is Some {
                    q.failover_interfaces
                } else {
                    p.failover_interfaces
                },
            },
        ),
{
}

/// How the text of a nameserver's address reads: an address with a port, an
/// address alone, or neither.
#[derive(Debug, Clone, Copy, PartialEq, Eq, Structural)]
pub enum NameserverAddress {
    Socket(IpAddress, u16),
    Ip(IpAddress),
    Invalid,
}

/// The transport of a nameserver, with the name its certificate is checked
/// against.
#[derive(Debug, Clone)]
pub enum NameserverTransport {
    Udp,
    Tls { server_name: String },
    Https { server_name: String },
}

/// A nameserver to add to the upstream resolver.
#[derive(Debug, Clone)]
pub struct NameserverPlan {
    pub ip: IpAddress,
    pub port: u16,
    pub transport: NameserverTransport,
}

/// The port a protocol uses when the address names none: 53, 853 or 443.
pub open spec fn default_port_of(p: ResolverProtocol) -> u16 {
    match p {
        ResolverProtocol::Plain => 53,
        ResolverProtocol::Tls => 853,
        ResolverProtocol::Https => 443,
    }
}

/// The transport of a nameserver: UDP for plain DNS; TLS or HTTPS checked
/// against its TLS name, or the empty name when it has none.
pub open spec fn transport_of(n: NameserverView) -> (u8, Seq<char>) {
    let name = or_else(n.tls_dns_name, Seq::empty());
    match n.protocol {
        ResolverProtocol::Plain => (0, Seq::empty()),
        ResolverProtocol::Tls => (1, name),
        ResolverProtocol::Https => (2, name),
    }
}

/// The mathematical value of a [`NameserverTransport`]: a number for the
/// kind (UDP, TLS, HTTPS) and the server name.
pub open spec fn transport_view(t: NameserverTransport) -> (u8, Seq<char>) {
    match t {
        NameserverTransport::Udp => (0, Seq::empty()),
        NameserverTransport::Tls { server_name } => (1, server_name@),
        NameserverTransport::Https { server_name } => (2, server_name@),
    }
}

impl ResolverProtocol {
    /// The port this protocol uses when the address names none.
    pub fn default_port(&self) -> (r: u16)
        ensures
            r == default_port_of(*self),
    {
        match self {
            ResolverProtocol::Plain => 53,
            ResolverProtocol::Tls => 853,
            ResolverProtocol::Https => 443,
        }
    }
}

impl CustomNameserverConfig {
    /// The nameserver to add for this entry, given how its address reads:
    /// none when it is not an address.
    pub fn plan(&self, parsed: NameserverAddress) -> (r: Option<NameserverPlan>)
        ensures
            match parsed {
                NameserverAddress::Invalid => r is None,
                NameserverAddress::Socket(ip, port) => r matches Some(p) && p.ip == ip && p.port
                    == port && transport_view(p.transport) == transport_of(self@),
                NameserverAddress::Ip(ip) => r matches Some(p) && p.ip == ip && p.port
                    == default_port_of(self.protocol) && transport_view(p.transport)
                    == transport_of(self@),
            },
    {
        let (ip, port) = match parsed {
            NameserverAddress::Socket(ip, port) => (ip, port),
            NameserverAddress::Ip(ip) => (ip, self.protocol.default_port()),
            NameserverAddress::Invalid => return None,
        };
        let name = match &self.tls_dns_name {
            Some(n) => n.clone(),
            None => String::new(),
        };
        let transport = match self.protocol {
            ResolverProtocol::Plain => NameserverTransport::Udp,
            ResolverProtocol::Tls => NameserverTransport::Tls { server_name: name },
            ResolverProtocol::Https => NameserverTransport::Https { server_name: name },
        };
        Some(NameserverPlan { ip, port, transport })
    }
}

/// The top-level keys of a TOML document as `toml::from_str::<toml::Table>`
/// reads them, or none when the text is not a TOML document.
pub uninterp spec fn toml_top_keys(text: Seq<char>) -> Option<Seq<Seq<char>>>;

/// `toml::from_str::<toml::Table>`: the keys of the document's top-level
/// table, or none when the text does not parse.
#[verifier::external_body]
fn top_level_keys(text: &str) -> (r: Option<Vec<String>>)
    ensures
        match r {
            Some(v) => toml_top_keys(text@) == Some(strs(v@)),
            None => toml_top_keys(text@) is None,
        },
{
    match toml::from_str::<toml::Table>(text) {
        Ok(t) => Some(t.keys().cloned().collect()),
        Err(_) => None,
    }
}

/// Which migration flags a file's top-level keys give: whether it has an
/// `interfaces` entry, and whether it has a `failover_interfaces` entry.
pub fn migration_flags(keys: &Vec<String>) -> (r: (bool, bool))
    ensures
        r.0 == strs(keys@).contains("interfaces"@),
        r.1 == strs(keys@).contains("failover_interfaces"@),
{
    (crate::text::contains_str(keys, "interfaces"), crate::text::contains_str(keys, "failover_interfaces"))
}

/// The migration flags of a configuration file's text (see
/// [`migration_flags`]), or none when the text is not a TOML document.
pub fn migration_flags_of_text(text: &str) -> (r: Option<(bool, bool)>)
    ensures
        match toml_top_keys(text@) {
            Some(keys) => r == Some((keys.contains("interfaces"@), keys.contains("failover_interfaces"@))),
            None => r is None,
        },
{
    match top_level_keys(text) {
        Some(keys) => Some(migration_flags(&keys)),
        None => None,
    }
}

} // verus!
