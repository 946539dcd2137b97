//! The program database: a cross-stage record of files, symbols and a
//! source map, accumulated by the compiler stages and finalized by the
//! assembler. The driver renders it as a JSON sidecar.
use vstd::prelude::*;

verus! {

/// The language a recorded file was written in.
#[derive(Clone, Debug, PartialEq, Eq, Structural)]
pub enum FileType {
    Jack,
    Vm,
    Asm,
    C,
    Unknown,
}

/// What kind of program entity a symbol records.
#[derive(Clone, Debug, PartialEq, Eq, Structural)]
pub enum SymbolType {
    Func,
    Var,
    Label,
    Unknown,
}

/// One recorded file.
#[derive(Clone, Debug)]
pub struct FileInfo {
    pub name: String,
    pub file_type: FileType,
}

/// One recorded symbol. Function addresses are back-patched by the
/// assembler; variable addresses are assigned at declaration.
#[derive(Clone, Debug)]
pub struct Symbol {
    pub symbol_type: SymbolType,
    pub name: String,
    pub func_type: i64,
    pub var_type: i64,
    pub storage_class: i64,
    pub size: i64,
    pub address: u16,
    pub instance_type: String,
    pub file_type: FileType,
}

/// One source-map record: a source position and the ROM address of the
/// first instruction emitted for it.
#[derive(Clone, Debug)]
pub struct SourceMap {
    pub file: usize,
    pub line_no: usize,
    pub col_no: usize,
    pub addr: u16,
}

/// The program database accumulated across stages.
#[derive(Debug)]
pub struct Pdb {
    pub symbols: Vec<Symbol>,
    pub source_lines: Vec<String>,
    pub source_map: Vec<SourceMap>,
    pub file_info: Vec<FileInfo>,
}

impl Pdb {
    /// An empty database.
    pub fn new() -> (pdb: Pdb)
        ensures
            pdb.symbols@.len() == 0,
            pdb.source_lines@.len() == 0,
            pdb.source_map@.len() == 0,
            pdb.file_info@.len() == 0,
    {
        Pdb { symbols: Vec::new(), source_lines: Vec::new(), source_map: Vec::new(), file_info: Vec::new() }
    }
}

impl Default for Pdb {
    /// Same as `Pdb::new`.
    fn default() -> (pdb: Pdb)
        ensures
            pdb.symbols@.len() == 0,
            pdb.source_lines@.len() == 0,
            pdb.source_map@.len() == 0,
            pdb.file_info@.len() == 0,
    {
        Pdb::new()
    }
}

} // verus!
