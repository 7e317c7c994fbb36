//! Proof-checking core of metacat: text scanning for `.hex` sources, rose-tree
//! rendering of types, open hypergraph duals and spider extraction, type-map
//! evaluation, the raw theory syntax with its dependency ordering and resolution, the
//! interpreter of first-order terms, the rounds of inlining definitions, and
//! the editor's view of a project:
//! manifests, unused arrows, hover targets and arrow details.

pub mod text;
pub mod tree;
pub mod project;
pub mod syntax;
pub mod lang;
pub mod term;
pub mod fol;
pub mod hypergraph;
pub mod dual;
pub mod spiders;
pub mod check;
pub mod analysis;
pub mod diagnostics;
pub mod arrow_details;
pub mod hover;
pub mod expr;
pub mod order;
pub mod raw;
pub mod graph;
pub mod load;
pub mod deps;
pub mod interpreter;
pub mod unused;
pub mod manifest;
pub mod declaration;
pub mod resolve;
pub mod inline;
