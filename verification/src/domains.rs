//! Which policy intercepts a domain: the candidate names a query is looked up
//! by, and the choice among the rule and list rows the store returns for them.
use crate::policy::PolicyId;
use crate::text::{copy_opt_string, opt_str, strs};
use vstd::prelude::*;

verus! {

/// A name with every trailing dot removed.
pub open spec fn trim_trailing_dots(s: Seq<char>) -> Seq<char>
    decreases s.len(),
{
    if s.len() > 0 && s.last() == '.' {
        trim_trailing_dots(s.drop_last())
    } else {
        s
    }
}

/// The parent names of `d` that start after a dot at position `k` or later,
/// longest first.
pub open spec fn suffixes_from(d: Seq<char>, k: int) -> Seq<Seq<char>>
    decreases d.len() - k,
{
    if k < 0 || k >= d.len() {
        Seq::empty()
    } else if d[k] == '.' {
        seq![d.subrange(k + 1, d.len() as int)] + suffixes_from(d, k + 1)
    } else {
        suffixes_from(d, k + 1)
    }
}

/// The names a domain is looked up by: the domain without trailing dots,
/// then each parent name obtained by dropping labels from the left.
pub open spec fn candidate_domains_of(domain: Seq<char>) -> Seq<Seq<char>> {
    let d = trim_trailing_dots(domain);
    seq![d] + suffixes_from(d, 0)
}

/// The domain with every trailing dot removed.
pub fn trim_dots(domain: &str) -> (r: &str)
    ensures
        r@ == trim_trailing_dots(domain@),
{
    let n = domain.unicode_len();
    let mut e: usize = n;
    assert(domain@.subrange(0, n as int) =~= domain@);
    while e > 0 && domain.get_char(e - 1) == '.'
        invariant
            e <= n,
            n == domain@.len(),
            trim_trailing_dots(domain@) == trim_trailing_dots(domain@.subrange(0, e as int)),
        decreases e,
    {
        let ghost s = domain@.subrange(0, e as int);
        assert(s.drop_last() =~= domain@.subrange(0, e - 1));
        e = e - 1;
    }
    let ghost s = domain@.subrange(0, e as int);
    assert(!(s.len() > 0 && s.last() == '.'));
    domain.substring_char(0, e)
}

/// The names a domain is looked up by (see [`candidate_domains_of`]).
pub fn candidate_domains(domain: &str) -> (r: Vec<String>)
    ensures
        strs(r@) == candidate_domains_of(domain@),
{
    let d = trim_dots(domain);
    let n = d.unicode_len();
    let mut r: Vec<String> = Vec::new();
    r.push(String::from_str(d));
    let mut k: usize = 0;
    while k < n
        invariant
            k <= n,
            n == d@.len(),
            d@ == trim_trailing_dots(domain@),
            strs(r@) + suffixes_from(d@, k as int) == candidate_domains_of(domain@),
        decreases n - k,
    {
        let ghost before = strs(r@);
        if d.get_char(k) == '.' {
            let parent = d.substring_char(k + 1, n);
            r.push(String::from_str(parent));
            assert(strs(r@) =~= before.push(parent@));
            assert(before + suffixes_from(d@, k as int) =~= strs(r@) + suffixes_from(
                d@,
                k + 1,
            ));
        }
        k = k + 1;
    }
    assert(suffixes_from(d@, n as int) =~= Seq::<Seq<char>>::empty());
    assert(strs(r@) =~= strs(r@) + suffixes_from(d@, n as int));
    r
}

/// Every parent name among the candidates is a suffix of the domain that
/// follows a dot.
pub proof fn lemma_suffixes_are_parents(d: Seq<char>, k: int, i: int)
    requires
        0 <= k,
        0 <= i < suffixes_from(d, k).len(),
    ensures
        exists|p: int|
            k <= p < d.len() && d[p] == '.' && suffixes_from(d, k)[i] == d.subrange(
                p + 1,
                d.len() as int,
            ),
    decreases d.len() - k,
{
    if k >= d.len() {
    } else if d[k] == '.' {
        if i == 0 {
            assert(suffixes_from(d, k)[0] == d.subrange(k + 1, d.len() as int));
        } else {
            lemma_suffixes_are_parents(d, k + 1, i - 1);
            let p = choose|p: int|
                k + 1 <= p < d.len() && d[p] == '.' && suffixes_from(d, k + 1)[i - 1]
                    == d.subrange(p + 1, d.len() as int);
            assert(suffixes_from(d, k)[i] == suffixes_from(d, k + 1)[i - 1]);
        }
    } else {
        lemma_suffixes_are_parents(d, k + 1, i);
        let p = choose|p: int|
            k + 1 <= p < d.len() && d[p] == '.' && suffixes_from(d, k + 1)[i] == d.subrange(
                p + 1,
                d.len() as int,
            );
    }
}

/// A fully qualified name with its final dot is looked up like the name
/// without it.
pub proof fn lemma_trailing_dot_is_ignored(d: Seq<char>)
    ensures
        candidate_domains_of(d.push('.')) == candidate_domains_of(d),
        trim_trailing_dots(d.push('.')) == trim_trailing_dots(d),
{
    assert(d.push('.').drop_last() =~= d);
}

/// The policy that intercepts a domain, and the interface it names.
#[derive(Debug, Clone)]
pub struct Intercept {
    pub interface: String,
    pub policy_id: PolicyId,
}

/// A domain rule as stored.
#[derive(Debug, Clone)]
pub struct DomainRule {
    pub id: Option<i64>,
    pub domain: String,
    pub include_subdomains: bool,
    pub interface: Option<String>,
}

/// An IP rule as stored.
#[derive(Debug, Clone)]
pub struct IpRule {
    pub id: Option<i64>,
    pub subnet: String,
    pub interface: Option<String>,
}

/// A downloaded domain list. Times are milliseconds since the Unix epoch.
#[derive(Debug, Clone)]
pub struct DomainList {
    pub id: Option<i64>,
    pub url: String,
    pub update_interval_seconds: i64,
    pub include_subdomains: bool,
    pub last_updated: Option<i64>,
    pub interface: Option<String>,
    pub priority: i64,
}

/// A downloaded IP list. Times are milliseconds since the Unix epoch.
#[derive(Debug, Clone)]
pub struct IpList {
    pub id: Option<i64>,
    pub url: String,
    pub update_interval_seconds: i64,
    pub last_updated: Option<i64>,
    pub interface: Option<String>,
    pub priority: i64,
}

/// A geosite or geoip database to download. Times are milliseconds since the
/// Unix epoch.
#[derive(Debug, Clone)]
pub struct GeoSource {
    pub id: Option<i64>,
    pub url: String,
    /// `geosite` or `geoip`.
    pub kind: String,
    pub update_interval_seconds: i64,
    pub last_updated: Option<i64>,
}

/// A domain rule row returned for a lookup, by its row id.
#[derive(Debug, Clone)]
pub struct RuleRow {
    pub id: i64,
    pub domain: String,
    pub include_subdomains: bool,
    pub interface: Option<String>,
}

/// How a list row was found: a domain of a downloaded list, or a geosite
/// entry of one of the four geosite kinds.
#[derive(Debug, Clone, Copy, PartialEq, Eq, Structural)]
pub enum HitType {
    /// A domain of a downloaded list.
    ListDomain,
    /// A geosite keyword entry.
    Plain,
    /// A geosite regular expression entry.
    Regex,
    /// A geosite domain entry: the domain and its subdomains.
    Domain,
    /// A geosite full entry: exactly the domain.
    Full,
    /// A geosite entry of a kind this resolver does not know.
    Unknown,
}

/// The hit type that the store's number stands for: -1 for a list domain,
/// 0 to 3 for the geosite kinds.
pub open spec fn hit_type_of(code: i32) -> HitType {
    if code == -1 {
        HitType::ListDomain
    } else if code == 0 {
        HitType::Plain
    } else if code == 1 {
        HitType::Regex
    } else if code == 2 {
        HitType::Domain
    } else if code == 3 {
        HitType::Full
    } else {
        HitType::Unknown
    }
}

impl HitType {
    /// The hit type of a number of the store (see [`hit_type_of`]).
    pub fn from_code(code: i32) -> (r: HitType)
        ensures
            r == hit_type_of(code),
    {
        if code == -1 {
            HitType::ListDomain
        } else if code == 0 {
            HitType::Plain
        } else if code == 1 {
            HitType::Regex
        } else if code == 2 {
            HitType::Domain
        } else if code == 3 {
            HitType::Full
        } else {
            HitType::Unknown
        }
    }
}

/// A domain list or geosite row returned for a lookup.
#[derive(Debug, Clone)]
pub struct ListRow {
    pub list_id: i64,
    pub domain: String,
    pub include_subdomains: bool,
    pub interface: Option<String>,
    pub priority: i64,
    pub hit_type: HitType,
    pub category: String,
}

/// Whether a rule row applies to a domain: it names the domain itself, or it
/// includes subdomains.
pub open spec fn rule_applies(domain: Seq<char>, rule_domain: Seq<char>, include_subdomains: bool) -> bool {
    rule_domain == domain || include_subdomains
}

/// Whether a list row applies to a domain: a list domain as a rule does; a
/// geosite full entry only for the domain itself; a geosite domain entry
/// always, as it was found among the domain and its parents; other geosite
/// kinds never.
pub open spec fn list_row_applies(
    domain: Seq<char>,
    row_domain: Seq<char>,
    include_subdomains: bool,
    hit: HitType,
) -> bool {
    match hit {
        HitType::ListDomain => row_domain == domain || include_subdomains,
        HitType::Full => row_domain == domain,
        HitType::Domain => true,
        _ => false,
    }
}

/// Which rule rows apply to a domain.
pub open spec fn rule_rows_applying(domain: Seq<char>, rows: Seq<RuleRow>) -> spec_fn(int) -> bool {
    |i: int| rule_applies(domain, rows[i].domain@, rows[i].include_subdomains)
}

/// Which list rows apply to a domain.
pub open spec fn list_rows_applying(domain: Seq<char>, rows: Seq<ListRow>) -> spec_fn(int) -> bool {
    |i: int| list_row_applies(domain, rows[i].domain@, rows[i].include_subdomains, rows[i].hit_type)
}

/// The interface a row names, `default` when it names none.
pub open spec fn interface_or_default(i: Option<String>) -> Seq<char> {
    match i {
        Some(s) => s@,
        None => "default"@,
    }
}

/// The interface a row names, `default` when it names none.
fn interface_or_default_of(i: &Option<String>) -> (r: String)
    ensures
        r@ == interface_or_default(*i),
{
    match i {
        Some(s) => s.clone(),
        None => String::from_str("default"),
    }
}

/// Whether row `i` is the one a lookup picks: it applies, no applying row
/// ranks above it, and every applying row before it ranks below it (among
/// rows of equal rank the first wins).
pub open spec fn is_best(
    applies: spec_fn(int) -> bool,
    above: spec_fn(int, int) -> bool,
    n: int,
    i: int,
) -> bool {
    &&& 0 <= i < n
    &&& applies(i)
    &&& forall|j: int| 0 <= j < n && #[trigger] applies(j) ==> !above(j, i)
    &&& forall|j: int| 0 <= j < i && #[trigger] applies(j) ==> above(i, j)
}

/// How rule rows rank: a longer rule domain, the more specific one, ranks
/// above a shorter one.
pub open spec fn rule_rows_above(rows: Seq<RuleRow>) -> spec_fn(int, int) -> bool {
    |i: int, j: int| rows[i].domain@.len() > rows[j].domain@.len()
}

/// How list rows rank: a higher list priority first, then a longer domain,
/// then a lower list id.
pub open spec fn list_rows_above(rows: Seq<ListRow>) -> spec_fn(int, int) -> bool {
    |i: int, j: int|
        rows[i].priority > rows[j].priority || (rows[i].priority == rows[j].priority && (
        rows[i].domain@.len() > rows[j].domain@.len() || (rows[i].domain@.len()
            == rows[j].domain@.len() && rows[i].list_id < rows[j].list_id)))
}

/// The rule row that a lookup of the (trailing-dot-free) domain picks (see
/// [`is_best`], ranked by [`rule_rows_above`]), with the intercept it
/// yields: the rule's interface (or `default`) under the rule's policy; none
/// when no row applies.
pub fn match_rule_rows(domain: &str, rows: &Vec<RuleRow>) -> (r: Option<(usize, Intercept)>)
    ensures
        match r {
            Some((i, it)) => is_best(
                rule_rows_applying(trim_trailing_dots(domain@), rows@),
                rule_rows_above(rows@),
                rows@.len() as int,
                i as int,
            ) && it.interface@ == interface_or_default(rows@[i as int].interface) && it.policy_id
                == PolicyId::DomainRule(rows@[i as int].id),
            None => forall|j: int|
                0 <= j < rows@.len() ==> !#[trigger] rule_rows_applying(trim_trailing_dots(domain@), rows@)(j),
        },
{
    let d = trim_dots(domain);
    let ghost applies = rule_rows_applying(trim_trailing_dots(domain@), rows@);
    let ghost above = rule_rows_above(rows@);
    let mut best: Option<usize> = None;
    let mut best_len: usize = 0;
    let mut k: usize = 0;
    while k < rows.len()
        invariant
            k <= rows.len(),
            d@ == trim_trailing_dots(domain@),
            applies == rule_rows_applying(trim_trailing_dots(domain@), rows@),
            above == rule_rows_above(rows@),
            match best {
                None => forall|j: int| 0 <= j < k ==> !#[trigger] applies(j),
                Some(b) => {
                    &&& b < k
                    &&& applies(b as int)
                    &&& best_len == rows@[b as int].domain@.len()
                    &&& forall|j: int| 0 <= j < k && #[trigger] applies(j) ==> !above(j, b as int)
                    &&& forall|j: int| 0 <= j < b && #[trigger] applies(j) ==> above(b as int, j)
                },
            },
        decreases rows.len() - k,
    {
        let row = &rows[k];
        if row.domain.as_str().to_owned() == d.to_owned() || row.include_subdomains {
            assert(applies(k as int));
            let len = row.domain.as_str().unicode_len();
            match best {
                None => {
                    best = Some(k);
                    best_len = len;
                },
                Some(b) => {
                    if len > best_len {
                        best = Some(k);
                        best_len = len;
                    }
                },
            }
        } else {
            assert(!applies(k as int));
        }
        k = k + 1;
    }
    match best {
        Some(b) => {
            let row = &rows[b];
            let interface = interface_or_default_of(&row.interface);
            Some((b, Intercept { interface, policy_id: PolicyId::DomainRule(row.id) }))
        },
        None => None,
    }
}

/// Whether list row `i` ranks above list row `j` (see [`list_rows_above`]).
fn list_row_above(a: &ListRow, b: &ListRow) -> (r: bool)
    ensures
        r == (a.priority > b.priority || (a.priority == b.priority && (a.domain@.len() > b.domain@.len()
            || (a.domain@.len() == b.domain@.len() && a.list_id < b.list_id)))),
{
    if a.priority != b.priority {
        return a.priority > b.priority;
    }
    let la = a.domain.as_str().unicode_len();
    let lb = b.domain.as_str().unicode_len();
    if la != lb {
        return la > lb;
    }
    a.list_id < b.list_id
}

/// The list row that a lookup of the (trailing-dot-free) domain picks (see
/// [`is_best`], ranked by [`list_rows_above`]), with the intercept it
/// yields: the list's interface (or `default`) under the list's policy; none
/// when no row applies.
pub fn match_list_rows(domain: &str, rows: &Vec<ListRow>) -> (r: Option<(usize, Intercept)>)
    ensures
        match r {
            Some((i, it)) => is_best(
                list_rows_applying(trim_trailing_dots(domain@), rows@),
                list_rows_above(rows@),
                rows@.len() as int,
                i as int,
            ) && it.interface@ == interface_or_default(rows@[i as int].interface) && it.policy_id
                == PolicyId::DomainList(rows@[i as int].list_id),
            None => forall|j: int|
                0 <= j < rows@.len() ==> !#[trigger] list_rows_applying(trim_trailing_dots(domain@), rows@)(j),
        },
{
    let d = trim_dots(domain);
    let ghost applies = list_rows_applying(trim_trailing_dots(domain@), rows@);
    let ghost above = list_rows_above(rows@);
    let mut best: Option<usize> = None;
    let mut k: usize = 0;
    while k < rows.len()
        invariant
            k <= rows.len(),
            d@ == trim_trailing_dots(domain@),
            applies == list_rows_applying(trim_trailing_dots(domain@), rows@),
            above == list_rows_above(rows@),
            match best {
                None => forall|j: int| 0 <= j < k ==> !#[trigger] applies(j),
                Some(b) => {
                    &&& b < k
                    &&& applies(b as int)
                    &&& forall|j: int| 0 <= j < k && #[trigger] applies(j) ==> !above(j, b as int)
                    &&& forall|j: int| 0 <= j < b && #[trigger] applies(j) ==> above(b as int, j)
                },
            },
        decreases rows.len() - k,
    {
        let row = &rows[k];
        let same = row.domain.as_str().to_owned() == d.to_owned();
        let matches = match row.hit_type {
            HitType::ListDomain => same || row.include_subdomains,
            HitType::Full => same,
            HitType::Domain => true,
            _ => false,
        };
        if matches {
            assert(applies(k as int));
            match best {
                None => {
                    best = Some(k);
                },
                Some(b) => {
                    if list_row_above(row, &rows[b]) {
                        best = Some(k);
                    }
                },
            }
        } else {
            assert(!applies(k as int));
        }
        k = k + 1;
    }
    match best {
        Some(b) => {
            let row = &rows[b];
            let interface = interface_or_default_of(&row.interface);
            Some((b, Intercept { interface, policy_id: PolicyId::DomainList(row.list_id) }))
        },
        None => None,
    }
}

/// Looks a domain up: a policy that intercepts it, if any.
pub trait DomainController {
    fn should_intercept(&self, domain: &str) -> Option<Intercept>;
}

/// A controller that intercepts a fixed set of domains under the first
/// domain list, on the default interface.
#[derive(Debug, Clone)]
pub struct DummyDomainController {
    domains: Vec<String>,
}

impl View for DummyDomainController {
    type V = Set<Seq<char>>;

    closed spec fn view(&self) -> Set<Seq<char>> {
        strs(self.domains@).to_set()
    }
}

impl DummyDomainController {
    /// A controller for the given domains.
    pub fn new(domains: Vec<String>) -> (r: DummyDomainController)
        ensures
            r@ == strs(domains@).to_set(),
    {
        DummyDomainController { domains }
    }

    /// The intercept for a domain of the set: the default interface, under
    /// the first domain list.
    pub fn intercept_of(&self, domain: &str) -> (r: Option<Intercept>)
        ensures
            match r {
                Some(i) => self@.contains(domain@) && i.interface@ == "default"@ && i.policy_id
                    == PolicyId::DomainList(0),
                None => !self@.contains(domain@),
            },
    {
        if crate::text::contains_str(&self.domains, domain) {
            Some(Intercept { interface: String::from_str("default"), policy_id: PolicyId::DomainList(0) })
        } else {
            None
        }
    }
}

impl DomainController for DummyDomainController {
    fn should_intercept(&self, domain: &str) -> (r: Option<Intercept>)
        ensures
            match r {
                Some(i) => self@.contains(domain@) && i.interface@ == "default"@ && i.policy_id
                    == PolicyId::DomainList(0),
                None => !self@.contains(domain@),
            },
    {
        self.intercept_of(domain)
    }
}

} // verus!
