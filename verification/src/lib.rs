//! Static-analysis toolkit over a mid-level program representation:
//! field-sensitive alias analysis with union-find, a dataflow dependency
//! graph, and interval (range) analysis with a widen/narrow fixpoint.
//!
//! The host program representation (`ir`) is a plain-value model of the
//! input: basic blocks, statements, terminators, operands and places
//! over indexed locals.  The analyses build on it: `alias_domain` and
//! `alias_analysis` compute may-alias facts per function, `extraction`
//! projects them into `alias_summary` relations between arguments and
//! the return value, `dataflow` builds the node/edge dependency graph,
//! and `range` with `constraints` runs the interval fixpoint.  The
//! drivers in `analysis` publish per-function results; `args` handles
//! the command-line surface of the cargo wrapper.

pub mod alias_analysis;
pub mod alias_domain;
pub mod alias_summary;
pub mod analysis;
pub mod args;
pub mod constraints;
pub mod dataflow;
pub mod extraction;
pub mod ir;
pub mod places;
pub mod range;
pub mod render;
pub mod symbolic;

pub use places::PlaceId;
