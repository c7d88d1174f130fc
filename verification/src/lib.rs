//! A compiler for the slang language: lexing with indentation tracking,
//! typed trees with their checks and rewrites (object initializers into
//! tuples, type checking, lowering of assignments) and a readable dump,
//! bytecode generation with label resolution, and an LLVM text backend.

pub mod text;
pub mod id_map;
pub mod location;
pub mod token;
pub mod lexing;
pub mod errors;
pub mod ast;
pub mod bytecode;
pub mod semantics;
pub mod tast;
pub mod ir_gen;
pub mod llvm_backend;
pub mod compilation;
