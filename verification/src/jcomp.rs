//! The class-language front end: symbol tables and the compiler to VM text.
pub mod compiler;
pub mod symbols;
