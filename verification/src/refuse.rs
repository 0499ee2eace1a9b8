//! Refusals and conformance violations.

use vstd::prelude::*;
use crate::ir::{Node, NodeId, Type};

verus! {

/// A construct the determinizer cannot legalize.
#[derive(Debug)]
pub struct RefuseError {
    pub node: NodeId,
    pub construct: String,
    pub reason: String,
}

/// The kind of a FlatPDL conformance violation.
#[derive(Clone, Copy, PartialEq, Eq, Structural, Debug)]
pub enum NonConformKind {
    StochasticPhase,
    MeasureTyped,
    LikelihoodTyped,
    KernelNotBuiltinArg,
    Failed,
    DanglingSelfRef,
    FreeBareName,
    ResidualUserCall,
    BuiltinArity,
}

/// One FlatPDL conformance violation.
#[derive(Debug)]
pub struct NonConformance {
    pub node: NodeId,
    pub kind: NonConformKind,
    pub reason: String,
}

/// The `Debug` rendering of a node.
pub uninterp spec fn debug_text(n: Node) -> Seq<char>;

/// Render a node with its derived `Debug` formatting (`{:?}`); the text is
/// named, not spelled out.
#[verifier::external_body]
pub fn node_debug_text(n: &Node) -> (s: String)
    ensures
        s@ == debug_text(*n),
{
    format!("{:?}", n)
}


/// The `Debug` rendering of an inferred-type slot.
pub uninterp spec fn type_debug_text(t: Option<Type>) -> Seq<char>;

/// Render an inferred-type slot with its derived `Debug` formatting (`{:?}`);
/// the text is named, not spelled out.
#[verifier::external_body]
pub fn type_debug(t: &Option<Type>) -> (s: String)
    ensures
        s@ == type_debug_text(*t),
{
    format!("{:?}", t)
}

} // verus!
