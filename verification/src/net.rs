//! Plain models of IP addresses and CIDR networks.
use vstd::arithmetic::div_mod::*;
use vstd::arithmetic::mul::*;
use vstd::arithmetic::power2::*;
use ipnet::IpNet;
use vstd::prelude::*;

verus! {

/// The address family of an address or network.
#[derive(Debug, Clone, Copy, PartialEq, Eq, Hash, Structural)]
pub enum IpFamily {
    V4,
    V6,
}

/// Number of address bits of a family.
pub open spec fn family_bits(f: IpFamily) -> nat {
    match f {
        IpFamily::V4 => 32,
        IpFamily::V6 => 128,
    }
}

/// Largest address of a family.
pub open spec fn family_max(f: IpFamily) -> int {
    pow2(family_bits(f)) - 1
}

/// An IP address as an integer of its family (IPv4 addresses are below 2^32).
#[derive(Debug, Clone, Copy, PartialEq, Eq, Hash, Structural)]
pub enum IpAddress {
    V4(u32),
    V6(u128),
}

impl IpAddress {
    pub open spec fn spec_family(self) -> IpFamily {
        match self {
            IpAddress::V4(_) => IpFamily::V4,
            IpAddress::V6(_) => IpFamily::V6,
        }
    }

    pub open spec fn spec_value(self) -> u128 {
        match self {
            IpAddress::V4(a) => a as u128,
            IpAddress::V6(a) => a,
        }
    }

    /// The family of this address.
    pub fn family(&self) -> (f: IpFamily)
        ensures
            f == self.spec_family(),
    {
        match self {
            IpAddress::V4(_) => IpFamily::V4,
            IpAddress::V6(_) => IpFamily::V6,
        }
    }

    /// The address as an integer.
    pub fn value(&self) -> (v: u128)
        ensures
            v == self.spec_value(),
    {
        match self {
            IpAddress::V4(a) => *a as u128,
            IpAddress::V6(a) => *a,
        }
    }
}

/// A CIDR network: an address (host bits kept as given) and a prefix length.
#[derive(Debug, Clone, Copy, PartialEq, Eq, Hash, Structural)]
pub struct IpNetwork {
    pub family: IpFamily,
    pub addr: u128,
    pub prefix_len: u8,
}

/// Number of host bits of a network.
pub open spec fn host_bits(n: IpNetwork) -> nat {
    (family_bits(n.family) - n.prefix_len) as nat
}

/// First address of a network: the address with its host bits cleared.
pub open spec fn spec_network(n: IpNetwork) -> int {
    (n.addr as int / pow2(host_bits(n)) as int) * pow2(host_bits(n))
}

/// Last address of a network: the address with its host bits set.
pub open spec fn spec_broadcast(n: IpNetwork) -> int {
    spec_network(n) + pow2(host_bits(n)) - 1
}

impl IpNetwork {
    /// A network is well formed when its address and prefix fit its family.
    pub open spec fn wf(self) -> bool {
        &&& self.addr < pow2(family_bits(self.family))
        &&& self.prefix_len <= family_bits(self.family)
    }

    /// Whether the network holds an address.
    pub open spec fn contains(self, x: int) -> bool {
        spec_network(self) <= x <= spec_broadcast(self)
    }
}

/// 2^128 exceeds every u128 by one.
pub proof fn lemma_pow2_128()
    ensures
        pow2(128) == u128::MAX + 1,
        pow2(32) == u32::MAX + 1,
        pow2(64) == u64::MAX + 1,
{
    lemma2_to64();
    lemma_pow2_adds(64, 64);
}

/// Powers of two grow with their exponent.
pub proof fn lemma_pow2_le(a: nat, b: nat)
    requires
        a <= b,
    ensures
        pow2(a) <= pow2(b),
{
    if a < b {
        lemma_pow2_strictly_increases(a, b);
    }
}

/// The bounds of a well formed network lie inside its family's address space.
pub proof fn lemma_network_bounds(n: IpNetwork)
    requires
        n.wf(),
    ensures
        0 <= spec_network(n) <= n.addr <= spec_broadcast(n) <= family_max(n.family),
        spec_network(n) % (pow2(host_bits(n)) as int) == 0,
{
    let hb = host_bits(n);
    let size = pow2(hb) as int;
    let bits = family_bits(n.family);
    lemma_pow2_pos(hb);
    lemma_pow2_adds(hb, n.prefix_len as nat);
    assert(hb + n.prefix_len as nat == bits);
    let q = n.addr as int / size;
    lemma_fundamental_div_mod(n.addr as int, size);
    lemma_mod_bound(n.addr as int, size);
    lemma_div_pos_is_pos(n.addr as int, size);
    lemma_mul_is_commutative(q, size);
    // q < pow2(prefix), so (q + 1) * size <= pow2(bits)
    let top = pow2(n.prefix_len as nat) as int;
    assert(q < top) by {
        if q >= top {
            lemma_mul_inequality(top, q, size);
            lemma_mul_is_commutative(top, size);
        }
    }
    lemma_mul_inequality(q + 1, top, size);
    lemma_mul_is_distributive_add(size, q, 1);
    lemma_mul_is_commutative(top, size);
    lemma_mod_multiples_basic(q, size);
}

/// 2^e as an exec value, for e below 128.
pub fn pow2_u128(e: u32) -> (r: u128)
    requires
        e < 128,
    ensures
        r == pow2(e as nat),
{
    let mut r: u128 = 1;
    let mut i: u32 = 0;
    proof {
        lemma2_to64();
    }
    while i < e
        invariant
            i <= e < 128,
            r == pow2(i as nat),
        decreases e - i,
    {
        proof {
            lemma_pow2_unfold((i + 1) as nat);
            lemma_pow2_le((i + 1) as nat, 127);
            lemma_pow2_strictly_increases(127, 128);
            lemma_pow2_128();
        }
        r = r * 2;
        i = i + 1;
    }
    r
}

/// Number of address bits of a family.
pub fn bits_of(f: IpFamily) -> (b: u32)
    ensures
        b == family_bits(f),
{
    match f {
        IpFamily::V4 => 32,
        IpFamily::V6 => 128,
    }
}

/// Largest address of a family.
pub fn max_of(f: IpFamily) -> (m: u128)
    ensures
        m == family_max(f),
{
    proof {
        lemma_pow2_128();
    }
    match f {
        IpFamily::V4 => 0xffff_ffff,
        IpFamily::V6 => u128::MAX,
    }
}

impl IpNetwork {
    /// First address of the network.
    pub fn network(&self) -> (r: u128)
        requires
            self.wf(),
        ensures
            r == spec_network(*self),
    {
        proof {
            lemma_network_bounds(*self);
        }
        let hb = bits_of(self.family) - self.prefix_len as u32;
        if hb == 128 {
            proof {
                lemma_pow2_128();
                lemma_basic_div(self.addr as int, pow2(128) as int);
            }
            0
        } else {
            let size = pow2_u128(hb);
            proof {
                lemma_pow2_pos(hb as nat);
                lemma_fundamental_div_mod(self.addr as int, size as int);
                lemma_mod_bound(self.addr as int, size as int);
                lemma_mul_is_commutative(self.addr as int / size as int, size as int);
            }
            (self.addr / size) * size
        }
    }

    /// Last address of the network.
    pub fn broadcast(&self) -> (r: u128)
        requires
            self.wf(),
        ensures
            r == spec_broadcast(*self),
    {
        proof {
            lemma_network_bounds(*self);
            lemma_pow2_128();
        }
        let hb = bits_of(self.family) - self.prefix_len as u32;
        let start = self.network();
        if hb == 128 {
            u128::MAX
        } else {
            let size = pow2_u128(hb);
            start + (size - 1)
        }
    }
}

/// What `ipnet::IpNet`'s `FromStr` reads from a text: a network written as
/// an address, a slash and a prefix length, with its host bits as written.
pub uninterp spec fn ipnet_parsed(s: Seq<char>) -> Option<IpNetwork>;

/// `s.parse::<ipnet::IpNet>()`: the network a text holds, if it holds one.
/// An `Ipv4Net` or `Ipv6Net` never has a prefix longer than its address, so
/// what comes back is well formed.
#[verifier::external_body]
pub fn parse_ipnet(s: &str) -> (r: Option<IpNetwork>)
    ensures
        r == ipnet_parsed(s@),
        r matches Some(n) ==> n.wf(),
{
    match s.parse::<IpNet>() {
        Ok(IpNet::V4(a)) => Some(IpNetwork { family: IpFamily::V4, addr: u32::from(a.addr()) as u128, prefix_len: a.prefix_len() }),
        Ok(IpNet::V6(a)) => Some(IpNetwork { family: IpFamily::V6, addr: u128::from(a.addr()), prefix_len: a.prefix_len() }),
        Err(_) => None,
    }
}

/// What the standard library's `FromStr` for `IpAddr` reads from a text: an
/// IPv4 address in dotted decimal or an IPv6 address.
pub uninterp spec fn ip_addr_parsed(s: Seq<char>) -> Option<IpAddress>;

/// `s.parse::<IpAddr>()`, the standard library's address parser (written
/// through `core::net`, where std's `IpAddr` is defined): the address a
/// text holds, if it holds one.
#[verifier::external_body]
fn parse_ip_addr(s: &str) -> (r: Option<IpAddress>)
    ensures
        r == ip_addr_parsed(s@),
{
    match s.parse::<core::net::IpAddr>() {
        Ok(core::net::IpAddr::V4(a)) => Some(IpAddress::V4(u32::from(a))),
        Ok(core::net::IpAddr::V6(a)) => Some(IpAddress::V6(u128::from(a))),
        Err(_) => None,
    }
}

/// The full-length network of a single address: a /32 or a /128.
pub open spec fn host_network(a: IpAddress) -> IpNetwork {
    match a {
        IpAddress::V4(v) => IpNetwork { family: IpFamily::V4, addr: v as u128, prefix_len: 32 },
        IpAddress::V6(v) => IpNetwork { family: IpFamily::V6, addr: v, prefix_len: 128 },
    }
}

/// The network a stored subnet stands for: a network as ipnet reads it,
/// else a single address as std reads it, as a /32 or /128.
pub open spec fn stored_subnet_of(s: Seq<char>) -> Option<IpNetwork> {
    match ipnet_parsed(s) {
        Some(n) => Some(n),
        None => match ip_addr_parsed(s) {
            Some(a) => Some(host_network(a)),
            None => None,
        },
    }
}

/// The network a stored subnet stands for (see [`stored_subnet_of`]).
pub fn parse_stored_subnet(s: &str) -> (r: Option<IpNetwork>)
    ensures
        r == stored_subnet_of(s@),
        r matches Some(n) ==> n.wf(),
{
    match parse_ipnet(s) {
        Some(n) => Some(n),
        None => match parse_ip_addr(s) {
            Some(a) => {
                proof {
                    lemma_pow2_128();
                }
                match a {
                    IpAddress::V4(v) => Some(IpNetwork { family: IpFamily::V4, addr: v as u128, prefix_len: 32 }),
                    IpAddress::V6(v) => Some(IpNetwork { family: IpFamily::V6, addr: v, prefix_len: 128 }),
                }
            },
            None => None,
        },
    }
}

} // verus!
