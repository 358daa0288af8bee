//! What a validation run found.

use vstd::prelude::*;

verus! {

/// How grave a finding is.
#[derive(Debug, Clone, Copy, PartialEq, Eq, Structural)]
pub enum Severity {
    Error,
    Warning,
    Info,
}

/// One finding, with the place in the text that it is about.
#[derive(Debug)]
pub struct Message {
    pub line: usize,
    pub column: usize,
    pub text: String,
}

/// What a message stands for.
pub struct MessageModel {
    pub line: nat,
    pub column: nat,
    pub text: Seq<char>,
}

impl View for Message {
    type V = MessageModel;

    open spec fn view(&self) -> MessageModel {
        MessageModel { line: self.line as nat, column: self.column as nat, text: self.text@ }
    }
}

/// What a listing of messages stands for.
pub open spec fn message_models(messages: Seq<Message>) -> Seq<MessageModel> {
    messages.map_values(|message: Message| message@)
}

/// The findings of a run, by severity, each list in the order of finding.
#[derive(Debug)]
pub struct Report {
    pub errors: Vec<Message>,
    pub warnings: Vec<Message>,
    pub info: Vec<Message>,
}

/// What a report stands for.
pub struct ReportModel {
    pub errors: Seq<MessageModel>,
    pub warnings: Seq<MessageModel>,
    pub info: Seq<MessageModel>,
}

impl View for Report {
    type V = ReportModel;

    open spec fn view(&self) -> ReportModel {
        ReportModel {
            errors: message_models(self.errors@),
            warnings: message_models(self.warnings@),
            info: message_models(self.info@),
        }
    }
}

/// The report with one more finding, at the end of the list of its severity.
pub open spec fn with_message(
    report: ReportModel,
    message: MessageModel,
    severity: Severity,
) -> ReportModel {
    match severity {
        Severity::Error => ReportModel { errors: report.errors.push(message), ..report },
        Severity::Warning => ReportModel { warnings: report.warnings.push(message), ..report },
        Severity::Info => ReportModel { info: report.info.push(message), ..report },
    }
}

impl Report {
    /// A report without findings.
    pub fn new() -> (report: Report)
        ensures
            report@ == (ReportModel {
                errors: Seq::empty(),
                warnings: Seq::empty(),
                info: Seq::empty(),
            }),
    {
        let report = Report { errors: Vec::new(), warnings: Vec::new(), info: Vec::new() };
        assert(report@.errors =~= Seq::empty());
        assert(report@.warnings =~= Seq::empty());
        assert(report@.info =~= Seq::empty());
        report
    }

    /// Whether the document passed: there is no error among the findings.
    pub fn is_valid(&self) -> (valid: bool)
        ensures
            valid == (self@.errors.len() == 0),
    {
        self.errors.len() == 0
    }

    /// Adds a finding to the list of its severity.
    pub fn push(&mut self, line: usize, column: usize, text: String, severity: Severity)
        ensures
            final(self)@ == with_message(
                old(self)@,
                MessageModel { line: line as nat, column: column as nat, text: text@ },
                severity,
            ),
    {
        let message = Message { line, column, text };
        match severity {
            Severity::Error => {
                self.errors.push(message);
                assert(final(self)@.errors =~= old(self)@.errors.push(message@));
            },
            Severity::Warning => {
                self.warnings.push(message);
                assert(final(self)@.warnings =~= old(self)@.warnings.push(message@));
            },
            Severity::Info => {
                self.info.push(message);
                assert(final(self)@.info =~= old(self)@.info.push(message@));
            },
        }
    }
}

} // verus!
