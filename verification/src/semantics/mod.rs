//! Semantic analysis: fresh node ids, error collection, the conversion of
//! object initializers, type checking and the lowering that follows it.

pub mod diagnostics;
pub mod id_generator;
pub mod typing;
pub mod typechecker;
pub mod phase5_desugar;
pub mod pass3;
