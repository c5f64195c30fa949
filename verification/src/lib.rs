//! An equality-saturation engine: an e-graph with congruence closure over a
//! union-find, e-matching, and rewriting.
//!
//! - [`unionfind`]: the disjoint-set forest over class ids.
//! - [`node`]: e-nodes and e-classes.
//! - [`tables`]: the hash-indexed tables that the e-graph is built on.
//! - [`model`], [`growth`], [`closure`], [`semantics`]: the mathematical
//!   value of an e-graph, what holds of it, and how it changes.
//! - [`graph`]: the e-graph with `push_eclass`, `union` and `rebuild`.
//! - [`term`], [`insert`]: terms, patterns and rules, and the insertion of terms.
//! - [`bindings`], [`matcher`], [`rewrite`]: e-matching and rewriting.
//! - [`laws`]: what follows for every e-graph.

pub mod node;
pub mod tables;
pub mod unionfind;
pub mod model;
pub mod growth;
pub mod closure;
pub mod semantics;
pub mod graph;
pub mod term;
pub mod insert;
pub mod bindings;
pub mod matcher;
pub mod rewrite;
pub mod laws;
