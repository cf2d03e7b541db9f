//! Warnings emitted by the semantic analyzer.
use vstd::prelude::*;

use crate::span::Span;

verus! {

#[derive(Debug, Clone, PartialEq, Eq, Hash)]
pub enum SemanticWarning {
    SpecificQuotationsNotSupported(Span),
}

impl SemanticWarning {
    pub fn message(&self) -> (r: &'static str)
        ensures
            r@ == "Specific quotation constraints are not yet supported"@,
    {
        match self {
            SemanticWarning::SpecificQuotationsNotSupported(_) => {
                "Specific quotation constraints are not yet supported"
            },
        }
    }

    pub fn code(&self) -> (r: &'static str)
        ensures
            r@ == "W203"@,
    {
        match self {
            SemanticWarning::SpecificQuotationsNotSupported(_) => "W203",
        }
    }

    /// The span the warning points at.
    pub fn span(&self) -> (r: Span)
        ensures
            r == (match self {
                SemanticWarning::SpecificQuotationsNotSupported(s) => *s,
            }),
    {
        match self {
            SemanticWarning::SpecificQuotationsNotSupported(s) => *s,
        }
    }
}

} // verus!
