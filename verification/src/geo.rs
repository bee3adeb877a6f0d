//! Geosite and geoip databases: the rows they contribute to the store.
//!
//! Geosite databases are decoded by the caller: the decoder names the kind
//! of a domain with a raw identifier, which this library does not write.
use crate::net::IpAddress;
use crate::text::strs;
use vstd::prelude::*;

verus! {

/// One domain of a geosite group: its kind number and value.
#[derive(Debug, Clone)]
pub struct GeoDomain {
    pub kind: i32,
    pub value: String,
}

/// A geosite group: a category and its domains.
#[derive(Debug, Clone)]
pub struct GeoSiteGroup {
    pub country_code: String,
    pub domains: Vec<GeoDomain>,
}

/// The mathematical value of a [`GeoSiteGroup`]: the category and the
/// (kind, value) of each domain.
pub struct GeoSiteGroupView {
    pub country_code: Seq<char>,
    pub domains: Seq<(i32, Seq<char>)>,
}

impl View for GeoSiteGroup {
    type V = GeoSiteGroupView;

    open spec fn view(&self) -> GeoSiteGroupView {
        GeoSiteGroupView {
            country_code: self.country_code@,
            domains: self.domains@.map_values(|d: GeoDomain| (d.kind, d.value@)),
        }
    }
}

/// One network of a geoip group: address bytes and prefix length, as stored.
#[derive(Debug, Clone)]
pub struct GeoCidr {
    pub ip: Vec<u8>,
    pub prefix: u32,
}

/// A geoip group: a category and its networks.
#[derive(Debug, Clone)]
pub struct GeoIpGroup {
    pub country_code: String,
    pub cidrs: Vec<GeoCidr>,
}

/// The mathematical value of a [`GeoIpGroup`]: the category and the
/// (address bytes, prefix) of each network.
pub struct GeoIpGroupView {
    pub country_code: Seq<char>,
    pub cidrs: Seq<(Seq<u8>, u32)>,
}

impl View for GeoIpGroup {
    type V = GeoIpGroupView;

    open spec fn view(&self) -> GeoIpGroupView {
        GeoIpGroupView {
            country_code: self.country_code@,
            cidrs: self.cidrs@.map_values(|c: GeoCidr| (c.ip@, c.prefix)),
        }
    }
}

/// The groups that `geosite_rs::decode_geoip` reads from a database, or the
/// text of its error.
pub uninterp spec fn geoip_decoded(buf: Seq<u8>) -> Result<Seq<GeoIpGroupView>, Seq<char>>;

/// `geosite_rs::decode_geoip`: decodes a geoip database, keeping each
/// group's country code and each network's address bytes and prefix.
#[verifier::external_body]
fn decode_geoip(buf: &[u8]) -> (r: Result<Vec<GeoIpGroup>, String>)
    ensures
        match r {
            Ok(v) => geoip_decoded(buf@) == Ok::<Seq<GeoIpGroupView>, Seq<char>>(
                v@.map_values(|g: GeoIpGroup| g@),
            ),
            Err(e) => geoip_decoded(buf@) == Err::<Seq<GeoIpGroupView>, Seq<char>>(e@),
        },
{
    match geosite_rs::decode_geoip(buf) {
        Ok(list) => Ok(list.entry.into_iter().map(|g| GeoIpGroup {
            country_code: g.country_code,
            cidrs: g.cidr.into_iter().map(|c| GeoCidr { ip: c.ip, prefix: c.prefix }).collect(),
        }).collect()),
        Err(e) => Err(e.to_string()),
    }
}

/// A geosite row of the store: category, domain and kind number.
#[derive(Debug, Clone)]
pub struct GeoSiteRow {
    pub category: String,
    pub domain: String,
    pub kind: i32,
}

/// The mathematical value of a [`GeoSiteRow`].
pub open spec fn site_row_view(r: GeoSiteRow) -> (Seq<char>, Seq<char>, i32) {
    (r.category@, r.domain@, r.kind)
}

/// The rows of one geosite group: one per domain, in order.
pub open spec fn site_rows_of_group(g: GeoSiteGroupView) -> Seq<(Seq<char>, Seq<char>, i32)> {
    g.domains.map_values(|d: (i32, Seq<char>)| (g.country_code, d.1, d.0))
}

/// The rows of a geosite database: every domain of every group, in order.
pub open spec fn site_rows_of(groups: Seq<GeoSiteGroupView>) -> Seq<(Seq<char>, Seq<char>, i32)> {
    groups.flat_map(|g: GeoSiteGroupView| site_rows_of_group(g))
}

/// The rows of decoded geosite groups (see [`site_rows_of`]).
pub fn geosite_rows(groups: &Vec<GeoSiteGroup>) -> (r: Vec<GeoSiteRow>)
    ensures
        r@.map_values(|x: GeoSiteRow| site_row_view(x)) == site_rows_of(
            groups@.map_values(|g: GeoSiteGroup| g@),
        ),
{
    let ghost gs = groups@.map_values(|g: GeoSiteGroup| g@);
    let ghost f = |g: GeoSiteGroupView| site_rows_of_group(g);
    let mut r: Vec<GeoSiteRow> = Vec::new();
    let mut k: usize = 0;
    while k < groups.len()
        invariant
            k <= groups.len(),
            gs == groups@.map_values(|g: GeoSiteGroup| g@),
            f == (|g: GeoSiteGroupView| site_rows_of_group(g)),
            r@.map_values(|x: GeoSiteRow| site_row_view(x)) == gs.take(k as int).flat_map(f),
        decreases groups.len() - k,
    {
        let g = &groups[k];
        let ghost before = r@.map_values(|x: GeoSiteRow| site_row_view(x));
        let mut j: usize = 0;
        while j < g.domains.len()
            invariant
                j <= g.domains.len(),
                r@.map_values(|x: GeoSiteRow| site_row_view(x)) == before + site_rows_of_group(
                    g@,
                ).take(j as int),
            decreases g.domains.len() - j,
        {
            let d = &g.domains[j];
            let ghost prev = r@;
            let row = GeoSiteRow { category: g.country_code.clone(), domain: d.value.clone(), kind: d.kind };
            r.push(row);
            assert(g@.domains[j as int] == (d.kind, d.value@));
            assert(site_rows_of_group(g@)[j as int] == (g.country_code@, d.value@, d.kind));
            assert(r@.map_values(|x: GeoSiteRow| site_row_view(x)) =~= prev.map_values(
                |x: GeoSiteRow| site_row_view(x),
            ).push(site_row_view(row)));
            assert(site_rows_of_group(g@).take(j + 1) =~= site_rows_of_group(g@).take(j as int).push(
                site_rows_of_group(g@)[j as int],
            ));
            assert(r@.map_values(|x: GeoSiteRow| site_row_view(x)) =~= before + site_rows_of_group(
                g@,
            ).take(j + 1));
            j = j + 1;
        }
        proof {
            assert(site_rows_of_group(g@).take(g.domains.len() as int) =~= site_rows_of_group(g@));
            gs.lemma_flat_map_take_append(f, k as int);
            assert(gs[k as int] == g@);
        }
        k = k + 1;
    }
    assert(gs.take(groups.len() as int) =~= gs);
    r
}

/// The big-endian value of a byte string.
pub open spec fn be_value(b: Seq<u8>) -> nat
    decreases b.len(),
{
    if b.len() == 0 {
        0
    } else {
        be_value(b.drop_last()) * 256 + b.last() as nat
    }
}

/// 256 to the power `n`.
pub open spec fn pow256(n: nat) -> nat
    decreases n,
{
    if n == 0 {
        1
    } else {
        256 * pow256((n - 1) as nat)
    }
}

proof fn lemma_be_value_bound(b: Seq<u8>)
    ensures
        be_value(b) < pow256(b.len()),
    decreases b.len(),
{
    if b.len() > 0 {
        lemma_be_value_bound(b.drop_last());
        let v = be_value(b.drop_last());
        let p = pow256(b.drop_last().len());
        assert(v * 256 + b.last() < p * 256) by (nonlinear_arith)
            requires
                v < p,
                b.last() < 256,
        ;
    }
}

/// The big-endian value of at most 16 bytes.
fn be_u128(b: &Vec<u8>) -> (r: u128)
    requires
        b.len() <= 16,
    ensures
        r == be_value(b@),
{
    let mut acc: u128 = 0;
    let mut k: usize = 0;
    while k < b.len()
        invariant
            k <= b.len(),
            b.len() <= 16,
            acc == be_value(b@.take(k as int)),
        decreases b.len() - k,
    {
        proof {
            assert(b@.take(k + 1).drop_last() =~= b@.take(k as int));
            lemma_be_value_bound(b@.take(k + 1));
            reveal_with_fuel(pow256, 17);
            assert(pow256(16) == 0x1_0000_0000_0000_0000_0000_0000_0000_0000nat);
            lemma_pow256_mono((k + 1) as nat, 16);
        }
        acc = acc * 256 + b[k] as u128;
        k = k + 1;
    }
    assert(b@.take(b.len() as int) =~= b@);
    acc
}

proof fn lemma_pow256_mono(a: nat, b: nat)
    requires
        a <= b,
    ensures
        pow256(a) <= pow256(b),
    decreases b,
{
    if a < b {
        lemma_pow256_mono(a, (b - 1) as nat);
    }
}

/// A geoip row of the store: category, network address and prefix length as
/// stored (not checked against the address size).
#[derive(Debug, Clone)]
pub struct GeoIpRow {
    pub category: String,
    pub address: IpAddress,
    pub prefix: u32,
}

/// The mathematical value of a [`GeoIpRow`].
pub open spec fn ip_row_view(r: GeoIpRow) -> (Seq<char>, IpAddress, u32) {
    (r.category@, r.address, r.prefix)
}

/// Whether a network's address has the size of an IPv4 or IPv6 address.
pub open spec fn cidr_has_address(c: (Seq<u8>, u32)) -> bool {
    c.0.len() == 4 || c.0.len() == 16
}

/// The address of a network's bytes: four bytes are IPv4, sixteen IPv6.
pub open spec fn cidr_address(c: (Seq<u8>, u32)) -> IpAddress {
    if c.0.len() == 4 {
        IpAddress::V4(be_value(c.0) as u32)
    } else {
        IpAddress::V6(be_value(c.0) as u128)
    }
}

/// The rows of one geoip group: one per network of IPv4 or IPv6 size, in order.
pub open spec fn ip_rows_of_group(g: GeoIpGroupView) -> Seq<(Seq<char>, IpAddress, u32)> {
    g.cidrs.filter(|c: (Seq<u8>, u32)| cidr_has_address(c)).map_values(
        |c: (Seq<u8>, u32)| (g.country_code, cidr_address(c), c.1),
    )
}

/// The rows of a geoip database: every network of every group, in order,
/// leaving out addresses of any other size.
pub open spec fn ip_rows_of(groups: Seq<GeoIpGroupView>) -> Seq<(Seq<char>, IpAddress, u32)> {
    groups.flat_map(|g: GeoIpGroupView| ip_rows_of_group(g))
}

/// The rows of decoded geoip groups (see [`ip_rows_of`]).
pub fn geoip_rows(groups: &Vec<GeoIpGroup>) -> (r: Vec<GeoIpRow>)
    ensures
        r@.map_values(|x: GeoIpRow| ip_row_view(x)) == ip_rows_of(
            groups@.map_values(|g: GeoIpGroup| g@),
        ),
{
    let ghost gs = groups@.map_values(|g: GeoIpGroup| g@);
    let ghost f = |g: GeoIpGroupView| ip_rows_of_group(g);
    let ghost keep = |c: (Seq<u8>, u32)| cidr_has_address(c);
    let mut r: Vec<GeoIpRow> = Vec::new();
    let mut k: usize = 0;
    while k < groups.len()
        invariant
            k <= groups.len(),
            gs == groups@.map_values(|g: GeoIpGroup| g@),
            f == (|g: GeoIpGroupView| ip_rows_of_group(g)),
            keep == (|c: (Seq<u8>, u32)| cidr_has_address(c)),
            r@.map_values(|x: GeoIpRow| ip_row_view(x)) == gs.take(k as int).flat_map(f),
        decreases groups.len() - k,
    {
        let g = &groups[k];
        let ghost before = r@.map_values(|x: GeoIpRow| ip_row_view(x));
        let ghost cs = g@.cidrs;
        let ghost h = |c: (Seq<u8>, u32)| (g@.country_code, cidr_address(c), c.1);
        let mut j: usize = 0;
        while j < g.cidrs.len()
            invariant
                j <= g.cidrs.len(),
                cs == g@.cidrs,
                keep == (|c: (Seq<u8>, u32)| cidr_has_address(c)),
                h == (|c: (Seq<u8>, u32)| (g@.country_code, cidr_address(c), c.1)),
                r@.map_values(|x: GeoIpRow| ip_row_view(x)) == before + cs.take(j as int).filter(
                    keep,
                ).map_values(h),
            decreases g.cidrs.len() - j,
        {
            let c = &g.cidrs[j];
            let ghost cv = (c.ip@, c.prefix);
            proof {
                assert(cs[j as int] == cv);
                assert(cs.take(j + 1) =~= cs.take(j as int).push(cv));
                cs.take(j as int).lemma_filter_push(cv, keep);
            }
            let n = c.ip.len();
            if n == 4 || n == 16 {
                let v = be_u128(&c.ip);
                proof {
                    lemma_be_value_bound(c.ip@);
                    if n == 4 {
                        reveal_with_fuel(pow256, 5);
                        assert(pow256(4) == 0x1_0000_0000nat);
                    }
                }
                let address = if n == 4 {
                    IpAddress::V4(v as u32)
                } else {
                    IpAddress::V6(v)
                };
                let ghost prev = r@;
                let row = GeoIpRow { category: g.country_code.clone(), address, prefix: c.prefix };
                r.push(row);
                assert(h(cv) == (g.country_code@, address, c.prefix));
                assert(cidr_address(cv) == address);
                assert(r@.map_values(|x: GeoIpRow| ip_row_view(x)) =~= prev.map_values(
                    |x: GeoIpRow| ip_row_view(x),
                ).push(ip_row_view(row)));
                assert(cs.take(j + 1).filter(keep) == cs.take(j as int).filter(keep).push(cv));
                assert(r@.map_values(|x: GeoIpRow| ip_row_view(x)) =~= before + cs.take(
                    j + 1,
                ).filter(keep).map_values(h));
            } else {
                assert(r@.map_values(|x: GeoIpRow| ip_row_view(x)) =~= before + cs.take(
                    j + 1,
                ).filter(keep).map_values(h));
            }
            j = j + 1;
        }
        proof {
            assert(cs.take(g.cidrs.len() as int) =~= cs);
            gs.lemma_flat_map_take_append(f, k as int);
            assert(gs[k as int] == g@);
            assert(f(g@) == cs.filter(keep).map_values(h));
        }
        k = k + 1;
    }
    assert(gs.take(groups.len() as int) =~= gs);
    r
}

/// The rows of a geoip database, or the decoder's error.
pub fn geoip_rows_of_bytes(buf: &[u8]) -> (r: Result<Vec<GeoIpRow>, String>)
    ensures
        match r {
            Ok(rows) => match geoip_decoded(buf@) {
                Ok(gs) => rows@.map_values(|x: GeoIpRow| ip_row_view(x)) == ip_rows_of(gs),
                Err(_) => false,
            },
            Err(e) => geoip_decoded(buf@) == Err::<Seq<GeoIpGroupView>, Seq<char>>(e@),
        },
{
    match decode_geoip(buf) {
        Ok(groups) => Ok(geoip_rows(&groups)),
        Err(e) => Err(e),
    }
}

} // verus!
