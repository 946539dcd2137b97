//! The VM-to-assembly lowering stage.
pub mod parse;
pub mod vmcomp;

