//! Diagnostics as values: both passes collect these instead of aborting.

use vstd::prelude::*;

verus! {

/// One lexical or syntax fault: the 1-based line it was found on, a
/// human-readable message, and, for syntax faults, the offending lexeme.
#[derive(Clone, Debug)]
pub struct Diagnostic {
    pub line: usize,
    pub message: String,
    pub lexeme: Option<String>,
}

/// The mathematical model of a diagnostic.
pub ghost struct DiagnosticModel {
    pub line: nat,
    pub message: Seq<char>,
    pub lexeme: Option<Seq<char>>,
}

impl View for Diagnostic {
    type V = DiagnosticModel;

    open spec fn view(&self) -> DiagnosticModel {
        DiagnosticModel {
            line: self.line as nat,
            message: self.message@,
            lexeme: match self.lexeme {
                Some(l) => Some(l@),
                None => None,
            },
        }
    }
}

/// Builds a diagnostic that carries no offending lexeme.
pub fn error(line: usize, message: String) -> (d: Diagnostic)
    ensures
        d@ == (DiagnosticModel { line: line as nat, message: message@, lexeme: None }),
{
    Diagnostic { line, message, lexeme: None }
}

} // verus!
