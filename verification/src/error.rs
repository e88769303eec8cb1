//! The two-tier error type: fatal grammar violations and the one
//! recoverable feature-limitation error.

use crate::token::Token;
use vstd::prelude::*;

verus! {

/// A parse failure.
///
/// All variants but `UnsupportedDiscriminant` are fatal grammar violations:
/// the observed token matches no production the grammar permits at that
/// position, and the enclosing parse is abandoned. `UnsupportedDiscriminant`
/// is recoverable: the input is syntactically valid but an enum discriminant
/// value held more than one token, which exceeds a deliberate expressiveness
/// limit of this representation (parenthesizing the value makes it a single
/// group token).
#[derive(Debug, PartialEq, Eq)]
pub enum ParseError {
    /// An identifier was required; `found` is the offending token, or
    /// absent when the stream ended instead.
    ExpectedIdent { found: Option<Token> },
    /// A colon was required; `found` is the offending token, or absent when
    /// the stream ended instead.
    ExpectedColon { found: Option<Token> },
    /// No production permits this token (or this end-of-stream) here.
    UnexpectedToken { found: Option<Token> },
    /// A generic-argument list never found its closing angle bracket.
    UnclosedArgList { found: Option<Token> },
    /// A field's type position held no tokens; `found` is the comma that
    /// followed, or absent when the stream ended instead.
    EmptyFieldType { found: Option<Token> },
    /// An enum discriminant value held more than one token; `extra` is the
    /// first surplus token. Recoverable.
    UnsupportedDiscriminant { extra: Token },
}

impl ParseError {
    /// A fatal error aborts the whole enclosing parse; a recoverable one
    /// only abandons the variant being built.
    pub open spec fn fatal(self) -> bool {
        !(self is UnsupportedDiscriminant)
    }

    /// Whether this error is a recoverable feature limitation rather than a
    /// grammar violation.
    pub fn is_recoverable(&self) -> (r: bool)
        ensures
            r == !self.fatal(),
    {
        matches!(self, ParseError::UnsupportedDiscriminant { .. })
    }
}

} // verus!
