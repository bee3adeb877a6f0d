//! Policy identifiers and their numeric encodings.
use vstd::prelude::*;

verus! {

/// The four kinds of steering policy.
#[derive(Debug, Clone, Copy, PartialEq, Eq, Hash, Structural)]
pub enum PolicyKind {
    DomainRule,
    DomainList,
    IpRule,
    IpList,
}

/// The numeric code of a policy kind, used as a namespace in encoded keys.
pub open spec fn kind_code(k: PolicyKind) -> nat {
    match k {
        PolicyKind::DomainRule => 1,
        PolicyKind::DomainList => 2,
        PolicyKind::IpRule => 3,
        PolicyKind::IpList => 4,
    }
}

impl PolicyKind {
    /// The numeric code of this kind (1 to 4).
    pub fn code(self) -> (c: u8)
        ensures
            c == kind_code(self),
    {
        match self {
            PolicyKind::DomainRule => 1,
            PolicyKind::DomainList => 2,
            PolicyKind::IpRule => 3,
            PolicyKind::IpList => 4,
        }
    }
}

/// A policy: a domain rule, a domain list, an IP rule or an IP list, by row id.
#[derive(Debug, Clone, Copy, PartialEq, Eq, Hash, Structural)]
pub enum PolicyId {
    DomainRule(i64),
    DomainList(i64),
    IpRule(i64),
    IpList(i64),
}

/// Why a policy id cannot be encoded.
#[derive(Debug, Clone, Copy, PartialEq, Eq, Structural)]
pub enum PolicyKeyError {
    /// The row id is negative.
    Negative,
    /// The row id does not fit in the id bits of the encoding.
    TooLarge,
}

/// Number of bits that hold the row id in the 64-bit encoding.
pub const ID_BITS: u64 = 56;
/// Number of bits that hold the row id in the 32-bit nftables encoding.
pub const NFT_ID_BITS: u32 = 24;
/// Largest row id of the 64-bit encoding.
pub const MAX_ID: i64 = 0xff_ffff_ffff_ffff;
/// Largest row id of the 32-bit nftables encoding.
pub const NFT_MAX_ID: i64 = 0xff_ffff;

pub open spec fn spec_kind(p: PolicyId) -> PolicyKind {
    match p {
        PolicyId::DomainRule(_) => PolicyKind::DomainRule,
        PolicyId::DomainList(_) => PolicyKind::DomainList,
        PolicyId::IpRule(_) => PolicyKind::IpRule,
        PolicyId::IpList(_) => PolicyKind::IpList,
    }
}

pub open spec fn spec_raw_id(p: PolicyId) -> i64 {
    match p {
        PolicyId::DomainRule(id) => id,
        PolicyId::DomainList(id) => id,
        PolicyId::IpRule(id) => id,
        PolicyId::IpList(id) => id,
    }
}

/// The 32-bit nftables key of a policy: its kind code above 24 id bits.
pub open spec fn spec_nft_key(p: PolicyId) -> Result<u32, PolicyKeyError> {
    let id = spec_raw_id(p);
    if id < 0 {
        Err(PolicyKeyError::Negative)
    } else if id > NFT_MAX_ID {
        Err(PolicyKeyError::TooLarge)
    } else {
        Ok((kind_code(spec_kind(p)) * 0x100_0000 + id) as u32)
    }
}

/// The 64-bit key of a policy: its kind code above 56 id bits.
pub open spec fn spec_u64_key(p: PolicyId) -> Result<u64, PolicyKeyError> {
    let id = spec_raw_id(p);
    if id < 0 {
        Err(PolicyKeyError::Negative)
    } else if id > MAX_ID {
        Err(PolicyKeyError::TooLarge)
    } else {
        Ok((kind_code(spec_kind(p)) * 0x100_0000_0000_0000 + id) as u64)
    }
}

impl PolicyId {
    /// The kind of this policy.
    pub fn kind(self) -> (k: PolicyKind)
        ensures
            k == spec_kind(self),
    {
        match self {
            PolicyId::DomainRule(_) => PolicyKind::DomainRule,
            PolicyId::DomainList(_) => PolicyKind::DomainList,
            PolicyId::IpRule(_) => PolicyKind::IpRule,
            PolicyId::IpList(_) => PolicyKind::IpList,
        }
    }

    /// The row id of this policy, whatever its kind.
    pub fn raw_id(self) -> (id: i64)
        ensures
            id == spec_raw_id(self),
    {
        match self {
            PolicyId::DomainRule(id) => id,
            PolicyId::DomainList(id) => id,
            PolicyId::IpRule(id) => id,
            PolicyId::IpList(id) => id,
        }
    }

    /// The key of this policy in the nftables policy maps: the kind code in the
    /// top 8 bits and the row id in the low 24 bits.
    pub fn nft_key(self) -> (r: Result<u32, PolicyKeyError>)
        ensures
            r == spec_nft_key(self),
    {
        let id = self.raw_id();
        if id < 0 {
            return Err(PolicyKeyError::Negative);
        }
        if id > NFT_MAX_ID {
            return Err(PolicyKeyError::TooLarge);
        }
        let k = self.kind().code() as u32;
        let low = id as u32;
        assert((k << 24u32) | low == k * 0x100_0000 + low) by (bit_vector)
            requires
                k <= 4,
                low <= 0xff_ffff,
        ;
        Ok((k << NFT_ID_BITS) | low)
    }

    /// The 64-bit key of this policy: the kind code in the top 8 bits and the
    /// row id in the low 56 bits.
    pub fn to_u64_key(self) -> (r: Result<u64, PolicyKeyError>)
        ensures
            r == spec_u64_key(self),
    {
        let id = self.raw_id();
        if id < 0 {
            return Err(PolicyKeyError::Negative);
        }
        if id > MAX_ID {
            return Err(PolicyKeyError::TooLarge);
        }
        let k = self.kind().code() as u64;
        let low = id as u64;
        assert((k << 56u64) | low == k * 0x100_0000_0000_0000 + low) by (bit_vector)
            requires
                k <= 4,
                low <= 0xff_ffff_ffff_ffff,
        ;
        Ok((k << ID_BITS) | low)
    }
}

impl TryFrom<PolicyId> for u64 {
    type Error = PolicyKeyError;

    /// The 64-bit key of a policy (see [`PolicyId::to_u64_key`]).
    fn try_from(value: PolicyId) -> (r: Result<u64, PolicyKeyError>)
        ensures
            r == spec_u64_key(value),
    {
        value.to_u64_key()
    }
}

impl vstd::std_specs::convert::TryFromSpecImpl<PolicyId> for u64 {
    open spec fn obeys_try_from_spec() -> bool {
        true
    }

    open spec fn try_from_spec(v: PolicyId) -> Result<u64, PolicyKeyError> {
        spec_u64_key(v)
    }
}

/// The decimal digit of a number below ten.
pub open spec fn digit_char(d: nat) -> char {
    if d == 0 { '0' } else if d == 1 { '1' } else if d == 2 { '2' } else if d == 3 { '3' }
    else if d == 4 { '4' } else if d == 5 { '5' } else if d == 6 { '6' } else if d == 7 { '7' }
    else if d == 8 { '8' } else { '9' }
}

/// The decimal digits of a natural number, without leading zeros.
pub open spec fn decimal_of(n: nat) -> Seq<char>
    decreases n,
{
    if n < 10 {
        seq![digit_char(n)]
    } else {
        decimal_of(n / 10).push(digit_char(n % 10))
    }
}

/// The decimal text of an integer, with a minus sign when negative.
pub open spec fn signed_decimal_of(n: int) -> Seq<char> {
    if n < 0 {
        seq!['-'] + decimal_of((-n) as nat)
    } else {
        decimal_of(n as nat)
    }
}

/// The text of a policy: its kind, a colon, and its row id.
pub open spec fn policy_text_of(p: PolicyId) -> Seq<char> {
    let name = match p {
        PolicyId::DomainRule(_) => "domain-rule:"@,
        PolicyId::DomainList(_) => "domain-list:"@,
        PolicyId::IpRule(_) => "ip-rule:"@,
        PolicyId::IpList(_) => "ip-list:"@,
    };
    name + signed_decimal_of(spec_raw_id(p) as int)
}

/// `String::push`: the character is appended.
#[verifier::external_body]
pub(crate) fn push_char(s: &mut String, c: char)
    ensures
        final(s)@ == old(s)@.push(c),
{
    s.push(c);
}

fn digit(d: u128) -> (c: char)
    requires
        d < 10,
    ensures
        c == digit_char(d as nat),
{
    if d == 0 { '0' } else if d == 1 { '1' } else if d == 2 { '2' } else if d == 3 { '3' }
    else if d == 4 { '4' } else if d == 5 { '5' } else if d == 6 { '6' } else if d == 7 { '7' }
    else if d == 8 { '8' } else { '9' }
}

/// The decimal text of an integer (see [`signed_decimal_of`]).
pub fn signed_decimal(n: i64) -> (r: String)
    ensures
        r@ == signed_decimal_of(n as int),
{
    let neg = n < 0;
    let mut v: u128 = if neg {
        (0i128 - n as i128) as u128
    } else {
        n as u128
    };
    let ghost whole = v as nat;
    assert(whole == (if n < 0 { -(n as int) } else { n as int }));
    let mut rev: Vec<char> = Vec::new();
    assert(rev@.reverse() =~= Seq::<char>::empty());
    assert(decimal_of(whole) =~= decimal_of(v as nat) + rev@.reverse());
    loop
        invariant_except_break
            decimal_of(whole) == decimal_of(v as nat) + rev@.reverse(),
        ensures
            decimal_of(whole) == rev@.reverse(),
        decreases v,
    {
        let d = v % 10;
        let c = digit(d);
        proof {
            if v >= 10 {
                assert(decimal_of(v as nat) == decimal_of((v / 10) as nat).push(c));
            }
        }
        let ghost old_rev = rev@;
        rev.push(c);
        assert(rev@.reverse() =~= seq![c] + old_rev.reverse());
        if v < 10 {
            assert(decimal_of(v as nat) == seq![c]);
            assert(decimal_of(whole) =~= rev@.reverse());
            break;
        }
        v = v / 10;
        assert(decimal_of(whole) =~= decimal_of(v as nat) + rev@.reverse());
    }
    let mut r = String::new();
    if neg {
        push_char(&mut r, '-');
    }
    let ghost start = r@;
    let mut k: usize = rev.len();
    while k > 0
        invariant
            k <= rev.len(),
            r@ == start + rev@.reverse().take((rev.len() - k) as int),
        decreases k,
    {
        push_char(&mut r, rev[k - 1]);
        assert(rev@.reverse()[(rev.len() - k) as int] == rev@[k - 1]);
        assert(r@ =~= start + rev@.reverse().take((rev.len() - k + 1) as int));
        k = k - 1;
    }
    assert(rev@.reverse().take(rev.len() as int) =~= rev@.reverse());
    if neg {
        assert(start =~= seq!['-']);
    } else {
        assert(start =~= Seq::<char>::empty());
    }
    assert(r@ =~= signed_decimal_of(n as int));
    r
}

impl PolicyId {
    /// The text of this policy: `domain-rule:`, `domain-list:`, `ip-rule:`
    /// or `ip-list:`, then the row id.
    pub fn to_text(&self) -> (r: String)
        ensures
            r@ == policy_text_of(*self),
    {
        let mut r = match self {
            PolicyId::DomainRule(_) => String::from_str("domain-rule:"),
            PolicyId::DomainList(_) => String::from_str("domain-list:"),
            PolicyId::IpRule(_) => String::from_str("ip-rule:"),
            PolicyId::IpList(_) => String::from_str("ip-list:"),
        };
        let digits = signed_decimal(self.raw_id());
        r.append(digits.as_str());
        r
    }
}

/// The 64-bit key of a policy holds its kind code above 56 bits and its row
/// id below them.
pub proof fn lemma_u64_key_namespace(p: PolicyId)
    requires
        spec_u64_key(p) is Ok,
    ensures
        spec_u64_key(p)->Ok_0 / 0x100_0000_0000_0000 == kind_code(spec_kind(p)),
        spec_u64_key(p)->Ok_0 % 0x100_0000_0000_0000 == spec_raw_id(p),
{
    let k = kind_code(spec_kind(p)) as int;
    let id = spec_raw_id(p) as int;
    assert((k * 0x100_0000_0000_0000 + id) / 0x100_0000_0000_0000 == k) by (nonlinear_arith)
        requires
            0 <= id < 0x100_0000_0000_0000,
    ;
    assert((k * 0x100_0000_0000_0000 + id) % 0x100_0000_0000_0000 == id) by (nonlinear_arith)
        requires
            0 <= id < 0x100_0000_0000_0000,
    ;
}

/// Distinct policies never share a 64-bit key: the kind namespaces keep equal
/// row ids of different kinds apart.
pub proof fn lemma_u64_key_injective(p: PolicyId, q: PolicyId)
    requires
        spec_u64_key(p) is Ok,
        spec_u64_key(q) is Ok,
        spec_u64_key(p) == spec_u64_key(q),
    ensures
        p == q,
{
    lemma_u64_key_namespace(p);
    lemma_u64_key_namespace(q);
}

/// The nftables key of a policy holds its kind code above 24 bits and its row
/// id below them.
pub proof fn lemma_nft_key_namespace(p: PolicyId)
    requires
        spec_nft_key(p) is Ok,
    ensures
        spec_nft_key(p)->Ok_0 / 0x100_0000 == kind_code(spec_kind(p)),
        spec_nft_key(p)->Ok_0 % 0x100_0000 == spec_raw_id(p),
{
    let k = kind_code(spec_kind(p)) as int;
    let id = spec_raw_id(p) as int;
    assert((k * 0x100_0000 + id) / 0x100_0000 == k) by (nonlinear_arith)
        requires
            0 <= id < 0x100_0000,
    ;
    assert((k * 0x100_0000 + id) % 0x100_0000 == id) by (nonlinear_arith)
        requires
            0 <= id < 0x100_0000,
    ;
}

/// Distinct policies never share an nftables key.
pub proof fn lemma_nft_key_injective(p: PolicyId, q: PolicyId)
    requires
        spec_nft_key(p) is Ok,
        spec_nft_key(q) is Ok,
        spec_nft_key(p) == spec_nft_key(q),
    ensures
        p == q,
{
    lemma_nft_key_namespace(p);
    lemma_nft_key_namespace(q);
}

/// A policy has an nftables key exactly when its row id is between zero and
/// 2^24 - 1, and a 64-bit key exactly when it is between zero and 2^56 - 1.
pub proof fn lemma_key_ranges(p: PolicyId)
    ensures
        spec_nft_key(p) is Ok <==> 0 <= spec_raw_id(p) <= NFT_MAX_ID,
        spec_u64_key(p) is Ok <==> 0 <= spec_raw_id(p) <= MAX_ID,
{
}

} // verus!
