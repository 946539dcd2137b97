//! The two-pass assembler: source classification, symbol resolution and
//! machine-word emission.
pub mod assemble;
pub mod parse;
