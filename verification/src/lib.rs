//! A compiler, peephole optimizer, and virtual machine for a minimal
//! esoteric language that operates on a fixed-size circular byte tape.
//!
//! The pipeline is: source bytes -> [`compiler::compile`] -> instruction
//! tree -> [`optimizer::optimize`] -> optimized tree -> executed step by
//! step against an [`interpreter::Interpreter`].

pub mod compiler;
pub mod interpreter;
pub mod optimizer;
pub mod token;
