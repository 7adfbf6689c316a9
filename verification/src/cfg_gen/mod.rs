//! The control-flow graph of one contract: opcode table, disassembly,
//! stack information, basic edges, the stack solver, pruning, and the
//! trace of a transaction.

pub mod cfg_dot;
pub mod cfg_graph;
pub mod dag;
pub mod dasm;
pub mod jump_table;
pub mod lattice;
pub mod opcode;
pub mod render;
pub mod stack_info;
pub mod stack_solve;
pub mod symbolic;
pub mod trace;
pub mod word;

pub use opcode::{opcode, OpcodeInfo};
