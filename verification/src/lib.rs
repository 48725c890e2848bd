//! A verified assembler and interpreter for the Little Man Computer (LMC):
//! a 100-cell, single-accumulator teaching machine.
//!
//! The crate covers the whole pipeline from source text to execution:
//! a hand-written parser for the LMC assembly grammar, a two-pass
//! assembler that resolves symbolic labels into cell addresses and encodes
//! each statement into a machine word, and a fetch-decode-execute state
//! machine that interprets the assembled image. Console I/O is left to the
//! embedding program, which drives the state machine step by step.

pub mod assembler;
pub mod ast;
pub mod grammar;
pub mod runtime;
