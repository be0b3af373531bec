//! Static template expansion: named markup components are inlined wherever their
//! tag is used, each with the bindings of its own attributes, `{expression}` spans
//! in text are replaced by their evaluated answers, and the expanded tree is
//! rendered back to markup.
use vstd::prelude::*;

pub mod document;
pub mod engine;
pub mod expr;
pub mod laws;
pub mod node;
pub mod registry;
pub mod scope;

verus! {

/// Why an expansion pass fails.
#[derive(Debug, PartialEq, Eq, Structural)]
pub enum EngineError {
    /// The document has no top-level `<component>` element.
    MissingComponentWrapper,
    /// A `<style>` element does not start with a text child.
    MalformedStyleBlock,
    /// Components nest deeper than the limit allows.
    RecursionLimitExceeded,
    /// The answers handed in do not match the expressions, one for one.
    AnswerCountMismatch,
}

} // verus!
