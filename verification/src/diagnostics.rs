//! The diagnostic bridge: severity-tagged messages and failure logs, relayed
//! from the engine to a sink in terms that can cross the language boundary.

use std::fmt::Write;
use vstd::prelude::*;
use vstd::string::*;

verus! {

/// How serious the engine takes a status event to be.
#[derive(Clone, Copy, Debug, PartialEq, Eq, Structural)]
pub enum Severity {
    Note,
    Warning,
    Error,
}

/// The severity of a message as the sink is told it.
#[derive(Clone, Copy, Debug, PartialEq, Eq, Structural)]
pub enum MessageKind {
    Note,
    Warning,
    Error,
}

/// The kind under which a sink is told of an event of the given severity.
pub open spec fn kind_of(severity: Severity) -> MessageKind {
    match severity {
        Severity::Note => MessageKind::Note,
        Severity::Warning => MessageKind::Warning,
        Severity::Error => MessageKind::Error,
    }
}

impl MessageKind {
    /// Maps the engine's severity to the kind of the same name.
    pub fn from_severity(severity: Severity) -> (kind: MessageKind)
        ensures
            kind == kind_of(severity),
    {
        match severity {
            Severity::Note => MessageKind::Note,
            Severity::Warning => MessageKind::Warning,
            Severity::Error => MessageKind::Error,
        }
    }
}

/// No two severities share a kind: severities that reach the sink under one
/// kind are one severity.
pub proof fn lemma_kind_of_injective(a: Severity, b: Severity)
    requires
        kind_of(a) == kind_of(b),
    ensures
        a == b,
{
}

/// The separator between a message and the description of the error behind it.
pub open spec fn separator() -> Seq<char> {
    seq![':', ' ']
}

/// The text of a report: the message alone, or the message, the separator and
/// the description of the error that caused it.
pub open spec fn report_text(message: Seq<char>, description: Option<Seq<char>>) -> Seq<char> {
    match description {
        Some(d) => message + separator() + d,
        None => message,
    }
}

/// Builds the text of a report from the message and, where an error is behind
/// it, that error's description.
pub fn compose_message(message: &str, description: Option<&str>) -> (text: String)
    ensures
        text@ == report_text(
            message@,
            match description {
                Some(d) => Some(d@),
                None => None,
            },
        ),
{
    let text = String::from_str(message);
    match description {
        Some(d) => {
            proof {
                reveal_strlit(": ");
                assert(": "@ =~= separator());
            }
            text.concat(": ").concat(d)
        },
        None => text,
    }
}

/// `anyhow::Error`, the error that the engine may attach to an event. Its
/// inside is not seen here; a value is only carried through.
#[verifier::external_type_specification]
#[verifier::external_body]
pub struct ExError(anyhow::Error);

/// The description of an error: `anyhow::Error` written through its `Display`
/// in the plain form, which gives the outermost error's own message without
/// the chain of causes. Nothing is claimed of the text, which is whatever
/// the error's own `Display` writes; where that gives up half way, the text
/// is what it wrote until then.
#[verifier::external_body]
fn describe(err: &anyhow::Error) -> (description: String) {
    let mut description = String::new();
    let _ = write!(description, "{}", err);
    description
}

/// One call as a sink receives it.
pub enum SinkCall {
    /// A message and the kind it is tagged with.
    Report { kind: MessageKind, message: Seq<char> },
    /// The bytes of the failure logs.
    Dump { bytes: Seq<u8> },
}

/// What a report of the given severity, message and error description is to a
/// sink.
pub open spec fn report_call(
    severity: Severity,
    message: Seq<char>,
    description: Option<Seq<char>>,
) -> SinkCall {
    SinkCall::Report { kind: kind_of(severity), message: report_text(message, description) }
}

/// A receiver of diagnostics. What it does with a call is its own affair; the
/// calls it has received, in order, are its history.
pub trait DiagnosticSink {
    /// The calls received so far, oldest first.
    spec fn received(&self) -> Seq<SinkCall>;

    /// Receives one message.
    fn report(&mut self, kind: MessageKind, message: &str)
        ensures
            final(self).received() == old(self).received().push(
                SinkCall::Report { kind, message: message@ },
            ),
    ;

    /// Receives the failure logs.
    fn dump_error_logs(&mut self, output: &[u8])
        ensures
            final(self).received() == old(self).received().push(SinkCall::Dump { bytes: output@ }),
    ;
}

/// A call as a `RecordingSink` keeps it.
#[derive(Debug, PartialEq, Eq)]
pub enum RecordedCall {
    Report { kind: MessageKind, message: String },
    Dump { bytes: Vec<u8> },
}

impl View for RecordedCall {
    type V = SinkCall;

    open spec fn view(&self) -> SinkCall {
        match self {
            RecordedCall::Report { kind, message } => SinkCall::Report {
                kind: *kind,
                message: message@,
            },
            RecordedCall::Dump { bytes } => SinkCall::Dump { bytes: bytes@ },
        }
    }
}

/// A sink that keeps every call it receives, for its owner to take and act
/// on.
pub struct RecordingSink {
    pub calls: Vec<RecordedCall>,
}

impl RecordingSink {
    /// A sink that has received nothing.
    pub fn new() -> (sink: RecordingSink)
        ensures
            sink.received() == Seq::<SinkCall>::empty(),
            sink.calls@.len() == 0,
    {
        let sink = RecordingSink { calls: Vec::new() };
        assert(sink.received() =~= Seq::<SinkCall>::empty());
        sink
    }

    /// Hands over the calls kept so far, oldest first, and keeps none of
    /// them.
    pub fn take_calls(&mut self) -> (calls: Vec<RecordedCall>)
        ensures
            calls@ == old(self).calls@,
            calls@.map_values(|c: RecordedCall| c@) == old(self).received(),
            final(self).calls@.len() == 0,
            final(self).received() == Seq::<SinkCall>::empty(),
    {
        let mut calls: Vec<RecordedCall> = Vec::new();
        std::mem::swap(&mut self.calls, &mut calls);
        assert(final(self).received() =~= Seq::<SinkCall>::empty());
        calls
    }
}

impl DiagnosticSink for RecordingSink {
    open spec fn received(&self) -> Seq<SinkCall> {
        self.calls@.map_values(|c: RecordedCall| c@)
    }

    fn report(&mut self, kind: MessageKind, message: &str) {
        self.calls.push(RecordedCall::Report { kind, message: String::from_str(message) });
        assert(final(self).received() =~= old(self).received().push(
            SinkCall::Report { kind, message: message@ },
        ));
    }

    fn dump_error_logs(&mut self, output: &[u8]) {
        self.calls.push(RecordedCall::Dump { bytes: vstd::slice::slice_to_vec(output) });
        assert(final(self).received() =~= old(self).received().push(
            SinkCall::Dump { bytes: output@ },
        ));
    }
}

/// The adapter that the engine reports to: it owns the sink for one
/// invocation and turns each status event into one call on it.
pub struct StatusBridge<S: DiagnosticSink> {
    pub sink: S,
}

impl<S: DiagnosticSink> StatusBridge<S> {
    /// Takes the sink over.
    pub fn new(sink: S) -> (bridge: Self)
        ensures
            bridge.sink == sink,
    {
        StatusBridge { sink }
    }

    /// Gives the sink back.
    pub fn into_sink(self) -> (sink: S)
        ensures
            sink == self.sink,
    {
        self.sink
    }

    /// Reports one event whose error, if any, is already described: the sink
    /// receives exactly one more call, the report of that event.
    pub fn report_described(
        &mut self,
        severity: Severity,
        message: &str,
        description: Option<&str>,
    )
        ensures
            final(self).sink.received() == old(self).sink.received().push(
                report_call(
                    severity,
                    message@,
                    match description {
                        Some(d) => Some(d@),
                        None => None,
                    },
                ),
            ),
    {
        let kind = MessageKind::from_severity(severity);
        let text = compose_message(message, description);
        self.sink.report(kind, text.as_str());
    }

    /// Reports one event as the engine hands it over. The sink receives
    /// exactly one more call. Without an error it is the report of the message
    /// as it stands; with one, the report of the message, the separator and
    /// the error's description, as `report_described` builds it from the text
    /// that the error gives of itself.
    pub fn report(&mut self, severity: Severity, message: &str, err: Option<&anyhow::Error>)
        ensures
            err is None ==> final(self).sink.received() == old(self).sink.received().push(
                report_call(severity, message@, None),
            ),
            err is Some ==> exists|description: Seq<char>|
                final(self).sink.received() == old(self).sink.received().push(
                    #[trigger] report_call(severity, message@, Some(description)),
                ),
    {
        match err {
            Some(e) => {
                let description = describe(e);
                self.report_described(severity, message, Some(description.as_str()));
                assert(final(self).sink.received() == old(self).sink.received().push(
                    report_call(severity, message@, Some(description@)),
                ));
            },
            None => {
                self.report_described(severity, message, None);
            },
        }
    }

    /// Relays the failure logs: the sink receives exactly one more call, with
    /// the same bytes.
    pub fn dump_error_logs(&mut self, output: &[u8])
        ensures
            final(self).sink.received() == old(self).sink.received().push(
                SinkCall::Dump { bytes: output@ },
            ),
    {
        self.sink.dump_error_logs(output);
    }
}

} // verus!
