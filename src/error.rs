//! Why a conversion failed, with the chain of nodes that led there.
use vstd::prelude::*;

verus! {

/// Error while converting the source tree into a text.
///
/// Each node that a failure passes on its way up wraps it in
/// `WhileEmitting`, so that the outermost value names the root and the
/// innermost `source` is the failure itself.
#[derive(Debug, PartialEq, Eq)]
pub enum ToMinimadError {
    WhileEmitting { node: &'static str, source: Box<ToMinimadError> },
    UnsupportedNode { node: &'static str },
    UnsupportedChildNode { child: &'static str },
    UnsupportedNumberedLists,
    ListTooMuchNested,
}

/// `inner`, wrapped with the name of the node that was being emitted.
pub open spec fn while_emitting(node: &'static str, inner: ToMinimadError) -> ToMinimadError {
    ToMinimadError::WhileEmitting { node, source: Box::new(inner) }
}

/// The failure at the bottom of a chain of `WhileEmitting` frames.
pub open spec fn root_cause(e: ToMinimadError) -> ToMinimadError
    decreases e,
{
    match e {
        ToMinimadError::WhileEmitting { source, .. } => root_cause(*source),
        _ => e,
    }
}

impl ToMinimadError {
    /// Wraps `self` in a frame naming the node that was being emitted.
    pub fn while_emitting(self, node: &'static str) -> (r: ToMinimadError)
        ensures
            r == while_emitting(node, self),
    {
        ToMinimadError::WhileEmitting { node, source: Box::new(self) }
    }

    /// The failure at the bottom of the chain.
    pub fn root_cause(&self) -> (r: &ToMinimadError)
        ensures
            *r == root_cause(*self),
        decreases self,
    {
        match self {
            ToMinimadError::WhileEmitting { source, .. } => source.root_cause(),
            _ => self,
        }
    }
}

} // verus!
