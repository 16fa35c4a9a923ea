//! The errors a preprocessing run can end with.

use vstd::prelude::*;

verus! {

/// A preprocessing error. Per-file errors are fatal to that file.
#[derive(Debug)]
pub enum PreprocessError {
    /// A header could not be located in the search roots.
    HeaderNotFound(Vec<u8>),
    /// A directive line fails its syntactic match.
    MalformedDirective,
    /// A directive name outside the known set.
    UnknownDirective(Vec<u8>),
    /// A stray `#elif`, `#else` or `#endif`.
    UnbalancedConditional,
    /// A function-like macro call with the wrong argument count.
    MacroArityMismatch,
    /// A line whose rescanning substitutions exceeded the expansion budget.
    ExpansionOverflow,
    /// An `#error` directive with its message.
    DirectiveError(Vec<u8>),
    /// A header inclusion chain deeper than the recursion budget.
    NestingTooDeep,
}

/// The mathematical shape of an error.
pub enum ErrKind {
    HeaderNotFound { name: Seq<u8> },
    MalformedDirective,
    UnknownDirective { name: Seq<u8> },
    UnbalancedConditional,
    MacroArityMismatch,
    ExpansionOverflow,
    DirectiveError { message: Seq<u8> },
    NestingTooDeep,
}

impl View for PreprocessError {
    type V = ErrKind;

    open spec fn view(&self) -> ErrKind {
        match self {
            PreprocessError::HeaderNotFound(n) => ErrKind::HeaderNotFound { name: n@ },
            PreprocessError::MalformedDirective => ErrKind::MalformedDirective,
            PreprocessError::UnknownDirective(n) => ErrKind::UnknownDirective { name: n@ },
            PreprocessError::UnbalancedConditional => ErrKind::UnbalancedConditional,
            PreprocessError::MacroArityMismatch => ErrKind::MacroArityMismatch,
            PreprocessError::ExpansionOverflow => ErrKind::ExpansionOverflow,
            PreprocessError::DirectiveError(m) => ErrKind::DirectiveError { message: m@ },
            PreprocessError::NestingTooDeep => ErrKind::NestingTooDeep,
        }
    }
}

} // verus!
