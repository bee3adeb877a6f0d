//! Decisions of the DNS handler: the answer code of a failed upstream lookup,
//! and what becomes of each record of an intercepted answer.
use vstd::prelude::*;

verus! {

/// How an upstream lookup failed.
#[derive(Debug, Clone, Copy, PartialEq, Eq, Structural)]
pub enum LookupFailure {
    /// The name does not exist.
    NxDomain,
    /// The name exists but has no records of the asked type.
    NoRecords,
    /// Anything else: time-outs, unreachable upstreams, malformed answers.
    Other,
}

/// The answer codes the handler sends.
#[derive(Debug, Clone, Copy, PartialEq, Eq, Structural)]
pub enum AnswerCode {
    NoError,
    NxDomain,
    ServFail,
}

/// The answer code for a failed upstream lookup.
pub open spec fn failure_code_of(f: LookupFailure) -> AnswerCode {
    match f {
        LookupFailure::NxDomain => AnswerCode::NxDomain,
        LookupFailure::NoRecords => AnswerCode::NoError,
        LookupFailure::Other => AnswerCode::ServFail,
    }
}

/// The answer code for a failed upstream lookup: a missing name stays
/// missing, a name without such records is answered empty, anything else is
/// a server failure.
pub fn failure_code(f: LookupFailure) -> (r: AnswerCode)
    ensures
        r == failure_code_of(f),
{
    match f {
        LookupFailure::NxDomain => AnswerCode::NxDomain,
        LookupFailure::NoRecords => AnswerCode::NoError,
        LookupFailure::Other => AnswerCode::ServFail,
    }
}

/// The time to live of every record the handler rewrites, in seconds.
pub const INTERCEPTED_TTL: u32 = 60;

/// The kinds of answer records the handler tells apart.
#[derive(Debug, Clone, Copy, PartialEq, Eq, Structural)]
pub enum RecordKind {
    /// An IPv4 address record.
    A(u32),
    /// An IPv6 address record.
    Aaaa(u128),
    /// A service binding record, HTTPS or SVCB, whose address hints are rewritten.
    ServiceBinding,
    /// Any other record.
    Other,
}

/// What the handler does with a record of an intercepted answer.
#[derive(Debug, Clone, Copy, PartialEq, Eq, Structural)]
pub enum RecordStep {
    /// Answer with the IPv4 fake address of this real address.
    FakeV4(u32),
    /// Answer with the IPv6 fake address of this real address.
    FakeV6(u128),
    /// Replace each address hint by its fake address.
    RewriteHints,
    /// Pass the record on unchanged.
    Keep,
}

/// What the handler does with a record of an intercepted answer.
pub open spec fn record_step_of(k: RecordKind) -> RecordStep {
    match k {
        RecordKind::A(a) => RecordStep::FakeV4(a),
        RecordKind::Aaaa(a) => RecordStep::FakeV6(a),
        RecordKind::ServiceBinding => RecordStep::RewriteHints,
        RecordKind::Other => RecordStep::Keep,
    }
}

/// What the handler does with a record of an intercepted answer: addresses
/// become fake addresses of the same family, service bindings get their
/// hints rewritten, everything else passes unchanged.
pub fn record_step(k: RecordKind) -> (r: RecordStep)
    ensures
        r == record_step_of(k),
{
    match k {
        RecordKind::A(a) => RecordStep::FakeV4(a),
        RecordKind::Aaaa(a) => RecordStep::FakeV6(a),
        RecordKind::ServiceBinding => RecordStep::RewriteHints,
        RecordKind::Other => RecordStep::Keep,
    }
}

} // verus!
