use vstd::prelude::*;

verus! {

/// Why a parse failed; every variant carries the byte offset where the problem was found.
#[derive(Debug, Clone, Copy, PartialEq, Eq, Structural)]
pub enum Error {
    /// Opening a tag would nest deeper than the depth limit.
    DepthExceeded {
        /// The depth limit in force.
        limit: usize,
        /// Offset of the opening `{{` of the tag that would nest too deep.
        offset: usize,
    },
    /// Creating a node would exceed the node limit.
    NodeLimitExceeded {
        /// The node limit in force.
        limit: usize,
        /// Offset where the node that would exceed the limit starts.
        offset: usize,
    },
    /// The input ended inside a tag.
    UnclosedVariable {
        /// Offset of the `{{` that was never closed.
        offset: usize,
    },
    /// A tag was closed without any content.
    EmptyVariable {
        /// Offset of the `{{` of the empty tag.
        offset: usize,
    },
    /// The depth bookkeeping went below zero when leaving a tag.
    UnbalancedTag {
        /// Offset of the `{{` of the tag being left.
        offset: usize,
    },
}

} // verus!
