use monadns::dns::{
    failure_code, record_step, AnswerCode, LookupFailure, RecordKind, RecordStep, INTERCEPTED_TTL,
};

#[test]
fn failure_codes() {
    assert_eq!(failure_code(LookupFailure::NxDomain), AnswerCode::NxDomain);
    assert_eq!(failure_code(LookupFailure::NoRecords), AnswerCode::NoError);
    assert_eq!(failure_code(LookupFailure::Other), AnswerCode::ServFail);
}

#[test]
fn record_steps() {
    assert_eq!(record_step(RecordKind::A(0x0101_0101)), RecordStep::FakeV4(0x0101_0101));
    assert_eq!(record_step(RecordKind::Aaaa(1)), RecordStep::FakeV6(1));
    assert_eq!(record_step(RecordKind::ServiceBinding), RecordStep::RewriteHints);
    assert_eq!(record_step(RecordKind::Other), RecordStep::Keep);
    assert_eq!(INTERCEPTED_TTL, 60);
}
