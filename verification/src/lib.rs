//! A library of relational query optimizers over a small logical IR:
//! heuristic rewriting, a rule engine driven to a fixpoint, and a memo of
//! equivalent join expressions.

pub mod ir;
pub mod order;
pub mod sorting;
pub mod canon;
pub mod remap;
pub mod render;
pub mod catalog;
pub mod error;
pub mod p1;
pub mod p2;
pub mod stats;
pub mod p3;
pub mod text;
pub mod p4;
pub mod opt;
pub mod sql;
pub mod bind;
pub mod harness;
