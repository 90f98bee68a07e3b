//! Builder for PDF documents: a tree of typed values organized into indirect
//! objects, resolved into a numbered object graph and serialized to PDF
//! object syntax.
use vstd::prelude::*;

verus! {

/// Errors surfaced by the document lifecycle. All of them report misuse by the
/// producer; the library itself never parses untrusted input.
#[derive(Debug, PartialEq, Eq, Structural, Clone, Copy)]
pub enum DocError {
    /// A deferred reference (or a parent sentinel) had no target among the
    /// document's objects at resolution time. Carries the index of the object
    /// whose tree held the dangling node, and the missing identity (`None`
    /// for a parent sentinel, which carries no identity).
    DanglingReference { object: usize, identity: Option<u64> },
    /// `resolve` was called on an already resolved document.
    DoubleResolve,
    /// The encoder met a node that resolution should have eliminated, or a
    /// stream payload, whose encoding is unsupported.
    EncoderContractViolation,
    /// Pages-tree synthesis was invoked a second time on the same document.
    DuplicatePagesSynthesis,
}

} // verus!

pub mod bytebuf;
pub mod document;
pub mod encode;
pub mod object;
pub mod page;
pub mod pages;
pub mod prim;
