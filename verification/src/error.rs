//! The two failure kinds of the calculator: malformed syntax (unrecognized
//! token, unparsable number, stack underflow, bad assignment target) and
//! resolution of a variable that was never assigned.

use vstd::prelude::*;

verus! {

/// Mathematical model of an error: an undefined-variable error carries the
/// offending name as a sequence of characters.
pub enum ErrorView {
    Syntax,
    Undefined(Seq<char>),
}

/// A failure raised by the lexer or the interpreter.
#[derive(Debug, PartialEq, Eq)]
pub enum VmError {
    /// Unrecognized token, unparsable integer literal, stack underflow, or an
    /// assignment whose target is not a name.
    SyntaxError,
    /// A name was resolved but is not present in the variable table; carries
    /// the name.
    UndefinedVariable(String),
}

impl View for VmError {
    type V = ErrorView;

    open spec fn view(&self) -> ErrorView {
        match self {
            VmError::SyntaxError => ErrorView::Syntax,
            VmError::UndefinedVariable(s) => ErrorView::Undefined(s@),
        }
    }
}

} // verus!
