//! A boolean-expression matching engine over a shared DAG.
//!
//! Registered boolean expressions are interned into a directed acyclic graph
//! whose nodes carry content-derived identifiers, so that structurally equal
//! subtrees are stored once and shared.  Incoming events are matched by
//! propagating per-predicate outcomes bottom-up through the DAG with
//! three-valued (Kleene) logic.

pub mod logical_operations;
pub mod nodes;
pub mod predicates;
pub mod store;

pub mod atree;
