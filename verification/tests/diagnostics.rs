use tectonic_cxx::diagnostics::{
    compose_message, DiagnosticSink, MessageKind, RecordedCall, RecordingSink, Severity,
    StatusBridge,
};

fn bridge() -> StatusBridge<RecordingSink> {
    StatusBridge::new(RecordingSink::new())
}

fn report_of(kind: MessageKind, message: &str) -> RecordedCall {
    RecordedCall::Report { kind, message: message.to_string() }
}

#[test]
fn severities_keep_their_names() {
    assert_eq!(MessageKind::from_severity(Severity::Note), MessageKind::Note);
    assert_eq!(MessageKind::from_severity(Severity::Warning), MessageKind::Warning);
    assert_eq!(MessageKind::from_severity(Severity::Error), MessageKind::Error);
}

#[test]
fn severities_are_not_merged() {
    let note = MessageKind::from_severity(Severity::Note);
    let warning = MessageKind::from_severity(Severity::Warning);
    let error = MessageKind::from_severity(Severity::Error);
    assert_ne!(note, warning);
    assert_ne!(note, error);
    assert_ne!(warning, error);
}

#[test]
fn message_alone_is_unchanged() {
    assert_eq!(compose_message("halted on line 3", None), "halted on line 3");
    assert_eq!(compose_message("", None), "");
}

#[test]
fn message_and_description_are_joined_by_colon_and_space() {
    assert_eq!(compose_message("cannot open", Some("no such file")), "cannot open: no such file");
    assert_eq!(compose_message("", Some("")), ": ");
    assert_eq!(compose_message("a: b", Some("c")), "a: b: c");
}

#[test]
fn report_without_error_passes_message_for_each_severity() {
    let mut b = bridge();
    b.report(Severity::Note, "first", None);
    b.report(Severity::Warning, "second", None);
    b.report(Severity::Error, "third", None);
    let sink = b.into_sink();
    assert_eq!(
        sink.calls,
        vec![
            report_of(MessageKind::Note, "first"),
            report_of(MessageKind::Warning, "second"),
            report_of(MessageKind::Error, "third"),
        ]
    );
}

#[test]
fn report_with_error_appends_its_description() {
    let err = anyhow::Error::msg("disk full");
    let mut b = bridge();
    b.report(Severity::Note, "writing", Some(&err));
    b.report(Severity::Warning, "writing", Some(&err));
    b.report(Severity::Error, "writing", Some(&err));
    let sink = b.into_sink();
    assert_eq!(
        sink.calls,
        vec![
            report_of(MessageKind::Note, "writing: disk full"),
            report_of(MessageKind::Warning, "writing: disk full"),
            report_of(MessageKind::Error, "writing: disk full"),
        ]
    );
}

#[test]
fn report_with_error_leaves_out_the_chain_of_causes() {
    let err = anyhow::Error::msg("root cause").context("outer failure");
    let mut b = bridge();
    b.report(Severity::Error, "an error occurred", Some(&err));
    assert_eq!(
        b.into_sink().calls,
        vec![report_of(MessageKind::Error, "an error occurred: outer failure")]
    );
}

#[test]
fn report_described_matches_report() {
    let err = anyhow::Error::msg("boom");
    let mut with_error = bridge();
    with_error.report(Severity::Warning, "engine", Some(&err));
    let mut described = bridge();
    described.report_described(Severity::Warning, "engine", Some("boom"));
    assert_eq!(with_error.into_sink().calls, described.into_sink().calls);
}

#[test]
fn report_described_without_description() {
    let mut b = bridge();
    b.report_described(Severity::Note, "plain", None);
    assert_eq!(b.into_sink().calls, vec![report_of(MessageKind::Note, "plain")]);
}

#[test]
fn dump_error_logs_passes_bytes_unchanged() {
    let bytes: Vec<u8> = vec![0, 255, 10, 13, 0, 65, 128];
    let mut b = bridge();
    b.dump_error_logs(&bytes);
    assert_eq!(b.into_sink().calls, vec![RecordedCall::Dump { bytes }]);
}

#[test]
fn dump_error_logs_passes_empty_buffer() {
    let mut b = bridge();
    b.dump_error_logs(&[]);
    assert_eq!(b.into_sink().calls, vec![RecordedCall::Dump { bytes: Vec::new() }]);
}

#[test]
fn calls_arrive_in_order() {
    let mut b = bridge();
    b.report(Severity::Warning, "before", None);
    b.dump_error_logs(b"log");
    b.report(Severity::Error, "after", None);
    assert_eq!(
        b.into_sink().calls,
        vec![
            report_of(MessageKind::Warning, "before"),
            RecordedCall::Dump { bytes: b"log".to_vec() },
            report_of(MessageKind::Error, "after"),
        ]
    );
}

#[test]
fn recording_sink_keeps_direct_calls() {
    let mut sink = RecordingSink::new();
    assert!(sink.calls.is_empty());
    sink.report(MessageKind::Note, "hello");
    sink.dump_error_logs(&[1, 2, 3]);
    assert_eq!(
        sink.calls,
        vec![report_of(MessageKind::Note, "hello"), RecordedCall::Dump { bytes: vec![1, 2, 3] }]
    );
}

#[test]
fn taken_calls_come_oldest_first_and_are_gone() {
    let mut b = bridge();
    let err = anyhow::Error::msg("xyz");
    b.report(Severity::Note, "a", None);
    b.report(Severity::Error, "ab", Some(&err));
    b.dump_error_logs(&[0; 4]);
    assert_eq!(
        b.sink.take_calls(),
        vec![
            report_of(MessageKind::Note, "a"),
            report_of(MessageKind::Error, "ab: xyz"),
            RecordedCall::Dump { bytes: vec![0; 4] },
        ]
    );
    assert!(b.sink.calls.is_empty());
    assert_eq!(b.sink.take_calls(), Vec::new());
    b.report(Severity::Warning, "later", None);
    assert_eq!(b.sink.take_calls(), vec![report_of(MessageKind::Warning, "later")]);
}
