//! Reconstructs the control flow of a recorded EVM transaction: each
//! contract's bytecode is split into basic blocks and given its
//! control-flow graph, a solver on symbolic stacks resolves indirect
//! jumps, and the graphs of all contracts are composed, along the trace,
//! into one global graph that can be written out for Graphviz.

pub mod address;
pub mod analyzer;
pub mod blockchain;
pub mod cfg_gen;
pub mod composer;
pub mod config;
pub mod error;
pub mod global_graph;
pub mod text;
pub mod tx_graph;
