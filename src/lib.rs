//! A parser for text with `{{ ... }}` variable tags, which may nest.
//!
//! The parser turns its input into a tree of text and variable nodes and
//! enforces a ceiling on nesting depth and on the number of nodes.
use vstd::prelude::*;
use vstd::string::StringSliceAdditionalSpecFns;

pub mod ast;
pub mod error;
pub mod parser;
pub mod properties;

pub use ast::{Limits, Node};
pub use error::Error;
pub use parser::Parser;

use ast::{count, depth, nodes_trees, render, vars_nonempty};
use parser::{parse_model, result_model};
use properties::{lemma_round_trip, lemma_variables_nonempty, lemma_within_limits};

verus! {

/// Parses `input` into its top-level nodes, under `limits`.
pub fn parse(input: &str, limits: &Limits) -> (r: Result<Vec<Node>, Error>)
    ensures
        result_model(r) == parse_model(input.spec_bytes(), *limits),
        r matches Ok(v) ==> {
            &&& vars_nonempty(nodes_trees(v@))
            &&& render(nodes_trees(v@)) == input.spec_bytes()
            &&& count(nodes_trees(v@)) <= limits.max_nodes
            &&& depth(nodes_trees(v@)) <= limits.max_depth
        },
{
    proof {
        lemma_variables_nonempty(input.spec_bytes(), *limits);
        lemma_round_trip(input.spec_bytes(), *limits);
        lemma_within_limits(input.spec_bytes(), *limits);
    }
    parser::parse_inner(input, limits)
}

} // verus!
