//! Flat-AST context packing, markdown knowledge compilation and the
//! retrieval helpers of the T.A.N.U.K.I. knowledge engine.

pub mod text;
pub mod flat_ast;
pub mod frontend;
pub mod playground;
pub mod db;
pub mod serving;
pub mod cli;
pub mod checkpoint;
pub mod pipeline;
pub mod middle;
pub mod llm;
pub mod packing;
pub mod memory;
