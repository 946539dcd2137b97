//! A four-stage build toolchain for a 16-bit stack machine: a class-based
//! source language is compiled to a stack-oriented VM language, many VM
//! translation units are tree-shaken and merged, the merged VM is lowered to
//! symbolic assembly, and the assembly is resolved into 16-bit machine words.
//! A program database is accumulated across stages for source-level debugging.
pub mod assembler;
pub mod constants;
pub mod jcomp;
pub mod keymap;
pub mod linker;
pub mod pdb;
pub mod text;
pub mod utils;
pub mod vcomp;
