//! The record that rules produce and reporters consume.

use vstd::prelude::*;

verus! {

/// How serious a finding is.
#[derive(Clone, Copy, Debug, PartialEq, Eq, Structural)]
pub enum Severity {
    Warning,
    Error,
}

/// The rule that produced a finding.
#[derive(Clone, Copy, Debug, PartialEq, Eq, Structural)]
pub enum RuleCode {
    /// The file could not be turned into a syntax tree.
    TLA000,
    /// A declared name is never used.
    TLA001,
    /// A required operator is not defined.
    TLA002,
}

/// One finding: where it is, how serious it is, which rule found it, and
/// what it says. `line` and `column` count from 1; the column counts
/// characters, not bytes.
#[derive(Clone, Debug)]
pub struct Diagnostic {
    pub file: String,
    pub line: usize,
    pub column: usize,
    pub severity: Severity,
    pub code: RuleCode,
    pub message: String,
}

/// The mathematical value of a [`Diagnostic`].
pub struct DiagnosticView {
    pub file: Seq<char>,
    pub line: nat,
    pub column: nat,
    pub severity: Severity,
    pub code: RuleCode,
    pub message: Seq<char>,
}

impl View for Diagnostic {
    type V = DiagnosticView;

    open spec fn view(&self) -> DiagnosticView {
        DiagnosticView {
            file: self.file@,
            line: self.line as nat,
            column: self.column as nat,
            severity: self.severity,
            code: self.code,
            message: self.message@,
        }
    }
}

/// The values of a sequence of diagnostics, in order.
pub open spec fn diagnostics_view(diags: Seq<Diagnostic>) -> Seq<DiagnosticView> {
    diags.map_values(|d: Diagnostic| d@)
}

impl Diagnostic {
    /// Whether this finding makes a run fail.
    pub fn is_error(&self) -> (r: bool)
        ensures
            r == (self@.severity == Severity::Error),
    {
        self.severity == Severity::Error
    }
}

} // verus!
