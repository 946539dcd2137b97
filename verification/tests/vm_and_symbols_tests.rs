use compcore::jcomp::symbols::{SymbolTable, VarKind, VarType};
use compcore::pdb::Pdb;
use compcore::vcomp::vmcomp::VMComp;

#[test]
fn symbol_indices_are_dense_per_kind() {
    let mut t = SymbolTable::new();
    let a: Vec<char> = "a".chars().collect();
    let b: Vec<char> = "b".chars().collect();
    let c: Vec<char> = "c".chars().collect();
    assert_eq!(t.insert(a, VarType::Int, VarKind::Local), Ok(0));
    assert_eq!(t.insert(b, VarType::Int, VarKind::Argument), Ok(0));
    assert_eq!(t.insert(c, VarType::Bool, VarKind::Local), Ok(1));
    assert_eq!(t.get_count(VarKind::Local), 2);
    assert_eq!(t.get_count(VarKind::Argument), 1);
    assert_eq!(t.get_count(VarKind::Static), 0);
    let dup: Vec<char> = "a".chars().collect();
    assert_eq!(t.insert(dup, VarType::Char, VarKind::Static), Err(()));
}

#[test]
fn unary_operators_work_in_place() {
    let mut c = VMComp::new();
    c.run("push constant 5\nneg\nnot", "T").unwrap();
    let text = c.output_code();
    assert!(text.contains("M=-M"));
    assert!(text.contains("M=!M"));
}

#[test]
fn negative_constants_load_the_magnitude_and_negate() {
    let mut c = VMComp::new();
    c.run("push constant -7", "T").unwrap();
    let text = c.output_code();
    assert!(text.contains("@7\nD=-A"));
}

#[test]
fn pop_with_zero_offset_skips_the_add() {
    let mut c = VMComp::new();
    c.run("push temp 1\npop local 0\npush temp 1\npop local 3", "T").unwrap();
    let text = c.output_code();
    assert!(!text.contains("@0\nD=D+A"), "a zero offset adds nothing");
    assert!(text.contains("@3\nD=D+A"));
}

#[test]
fn empty_sources_are_fine() {
    let mut c = VMComp::new();
    c.run("", "T").unwrap();
    assert_eq!(c.output_code(), "");

    let mut a = compcore::assembler::assemble::Assembler::new();
    let mut pdb = Pdb::new();
    a.run("", &mut pdb).unwrap();
    assert!(a.instructions.is_empty());

    let mut l = compcore::linker::Linker::new();
    l.load("").unwrap();
}

#[test]
fn minted_labels_count_up_per_file() {
    let mut c = VMComp::new();
    c.run("push constant 1\npush constant 2\neq\ncall F.g 0", "Mod").unwrap();
    let text = c.output_code();
    assert!(text.contains("(L_Mod_1)"));
    assert!(text.contains("(L_Mod_2)"));
    assert!(text.contains("(L_Mod_3)"));
}

#[test]
fn pop_constant_is_a_syntax_error() {
    let mut c = VMComp::new();
    let r = c.run("push constant 1\npop constant 3", "T");
    assert_eq!(r, Err(compcore::vcomp::vmcomp::VmError::Syntax { line: 1 }));
}

#[test]
fn negative_constant_add_does_not_fuse_and_still_sums() {
    let mut c = VMComp::new();
    c.run("push constant 5\npush constant -1\nadd", "T").unwrap();
    let text = c.output_code();
    assert!(!text.contains("A=M-1"), "a negative constant must not fuse");
    assert!(text.contains("@1\nD=-A"));
}
