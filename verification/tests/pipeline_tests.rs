use compcore::assembler::assemble::Assembler;
use compcore::jcomp::compiler::Compiler;
use compcore::linker::{LinkError, Linker};
use compcore::pdb::Pdb;
use compcore::vcomp::vmcomp::{VmError, VMComp};

/// A small register machine that executes assembled words, for the
/// execution scenarios.
struct Machine {
    ram: Vec<u16>,
    a: u16,
    d: u16,
    pc: usize,
}

fn alu(comp: u16, a: u16, d: u16, m: u16) -> u16 {
    let y = if comp & 0x40 != 0 { m } else { a };
    match comp & 0x3f {
        0b101010 => 0,
        0b111111 => 1,
        0b111010 => 0xffff,
        0b001100 => d,
        0b110000 => y,
        0b001101 => !d,
        0b110001 => !y,
        0b001111 => d.wrapping_neg(),
        0b110011 => y.wrapping_neg(),
        0b011111 => d.wrapping_add(1),
        0b110111 => y.wrapping_add(1),
        0b001110 => d.wrapping_sub(1),
        0b110010 => y.wrapping_sub(1),
        0b000010 => d.wrapping_add(y),
        0b010011 => d.wrapping_sub(y),
        0b000111 => y.wrapping_sub(d),
        0b000000 => d & y,
        0b010101 => d | y,
        other => panic!("unknown comp bits {:07b}", other),
    }
}

impl Machine {
    fn new() -> Machine {
        Machine { ram: vec![0u16; 0x8000], a: 0, d: 0, pc: 0 }
    }

    fn step(&mut self, rom: &[u16]) {
        let w = rom[self.pc];
        if w & 0x8000 == 0 {
            self.a = w;
            self.pc += 1;
            return;
        }
        let m = self.ram[self.a as usize];
        let out = alu((w >> 6) & 0x7f, self.a, self.d, m);
        if w & 0x08 != 0 {
            self.ram[self.a as usize] = out;
        }
        if w & 0x20 != 0 {
            self.a = out;
        }
        if w & 0x10 != 0 {
            self.d = out;
        }
        let s = out as i16;
        let jump = w & 0x7;
        let taken = match jump {
            0 => false,
            1 => s > 0,
            2 => s == 0,
            3 => s >= 0,
            4 => s < 0,
            5 => s != 0,
            6 => s <= 0,
            _ => true,
        };
        if taken {
            self.pc = self.a as usize;
        } else {
            self.pc += 1;
        }
    }
}

fn assemble_text(text: &str) -> Vec<u16> {
    let mut a = Assembler::new();
    let mut pdb = Pdb::new();
    a.run(text, &mut pdb).expect("assembly should succeed");
    a.instructions
}

#[test]
fn push_push_fused_add_leaves_the_sum() {
    let mut c = VMComp::new();
    c.run("push constant 7\npush constant 8\nadd", "Main").unwrap();
    let text = c.output_code();
    assert!(text.contains("A=M-1\nM=D+M"), "the constant add should fuse");
    let rom = assemble_text(&text);
    let mut m = Machine::new();
    m.ram[0] = 256;
    while m.pc < rom.len() {
        m.step(&rom);
    }
    assert_eq!(m.ram[0], 257);
    assert_eq!(m.ram[256], 15);
}

#[test]
fn bootstrap_and_firmware_leave_the_returned_value() {
    let mut c = VMComp::new();
    c.bootstrap();
    c.run(
        "function Sys.init 0\ncall F.seven 0\npop temp 0\nlabel END\ngoto END\nfunction F.seven 0\npush constant 7\nreturn",
        "Sys",
    )
    .unwrap();
    c.emit_firmware();
    let rom = assemble_text(&c.output_code());
    let mut m = Machine::new();
    for _ in 0..2000 {
        if m.pc >= rom.len() {
            break;
        }
        m.step(&rom);
    }
    assert_eq!(m.ram[5], 7, "the returned value should land in temp 0");
}

#[test]
fn nested_calls_compose() {
    let mut c = VMComp::new();
    c.bootstrap();
    c.run(
        "function Sys.init 0\ncall A.f 0\npop temp 1\nlabel END\ngoto END\nfunction A.f 0\ncall B.g 0\npush constant 1\nadd\nreturn\nfunction B.g 0\npush constant 6\nreturn",
        "Sys",
    )
    .unwrap();
    c.emit_firmware();
    let rom = assemble_text(&c.output_code());
    let mut m = Machine::new();
    for _ in 0..4000 {
        if m.pc >= rom.len() {
            break;
        }
        m.step(&rom);
    }
    assert_eq!(m.ram[6], 7, "six plus one should come back through both frames");
}

#[test]
fn comparison_pushes_all_ones_or_zero() {
    let mut c = VMComp::new();
    c.run("push constant 3\npush constant 5\nlt\npush constant 5\npush constant 5\neq", "T")
        .unwrap();
    let rom = assemble_text(&c.output_code());
    let mut m = Machine::new();
    m.ram[0] = 256;
    for _ in 0..200 {
        if m.pc >= rom.len() {
            break;
        }
        m.step(&rom);
    }
    assert_eq!(m.ram[256], 0xffff, "three is below five");
    assert_eq!(m.ram[257], 0xffff, "five equals five");
    assert_eq!(m.ram[0], 258);
}

#[test]
fn static_references_use_the_module_name() {
    let mut c = VMComp::new();
    c.run("function Foo.bar 0\npush static 2\npop static 3", "F").unwrap();
    let text = c.output_code();
    assert!(text.contains("@Foo.2"));
    assert!(text.contains("@Foo.3"));
}

#[test]
fn local_labels_are_rewritten_per_function() {
    let mut c = VMComp::new();
    c.run("function Foo.bar 0\nlabel L1\ngoto L1\nif-goto L1", "Mod").unwrap();
    let text = c.output_code();
    assert!(text.contains("(Mod.Foo.bar$L1)"));
    assert!(text.contains("@Mod.Foo.bar$L1"));
}

#[test]
fn vm_syntax_error_names_the_line() {
    let mut c = VMComp::new();
    let r = c.run("push constant 1\npush nowhere 3", "T");
    assert_eq!(r, Err(VmError::Syntax { line: 1 }));
}

#[test]
fn pdb_markers_survive_fusion() {
    let mut c = VMComp::new();
    c.run("push constant 7\n// ++pdb 0:4:2\npop temp 0", "T").unwrap();
    let text = c.output_code();
    assert!(text.contains("// ++pdb 0:4:2"), "the marker must not be lost to fusion");
    assert!(!text.contains("@SP\nA=M\nM=D"), "the push and pop should fuse");
}

#[test]
fn linker_emits_only_the_reachable_chunks_in_depth_first_order() {
    let mut l = Linker::new();
    l.load(
        "function Sys.init 0\ncall Main.main 0\nreturn\nfunction Main.main 0\ncall Math.multiply 0\nreturn\nfunction Math.multiply 0\nreturn\nfunction Unused.foo 0\nreturn",
    )
    .unwrap();
    let out = l.output_code().unwrap();
    let sys = out.find("function Sys.init 0").unwrap();
    let main = out.find("function Main.main 0").unwrap();
    let mult = out.find("function Math.multiply 0").unwrap();
    assert!(sys < main && main < mult);
    assert!(!out.contains("Unused.foo"));
}

#[test]
fn linker_keeps_one_copy_under_a_diamond() {
    let mut l = Linker::new();
    l.load(
        "function Sys.init 0\ncall A.f 0\ncall B.g 0\nreturn\nfunction A.f 0\ncall C.h 0\nreturn\nfunction B.g 0\ncall C.h 0\nreturn\nfunction C.h 0\nreturn",
    )
    .unwrap();
    let out = l.output_code().unwrap();
    assert_eq!(out.matches("function C.h 0").count(), 1);
}

#[test]
fn linker_rejects_duplicates_and_unresolved_calls() {
    let mut l = Linker::new();
    let r = l.load("function A.f 0\nreturn\nfunction A.f 0\nreturn");
    assert_eq!(r, Err(LinkError::DuplicateFunction { line: 2 }));

    let mut l2 = Linker::new();
    l2.load("function Sys.init 0\ncall Gone.f 0\nreturn").unwrap();
    assert_eq!(l2.output_code(), Err(LinkError::Unresolved));

    let mut l3 = Linker::new();
    let r3 = l3.load("push constant 1\nfunction A.f 0");
    assert_eq!(r3, Err(LinkError::OutsideFunction { line: 0 }));
}

#[test]
fn jack_let_with_argument_and_constant() {
    let mut c = Compiler::new();
    let mut pdb = Pdb::new();
    let ok = c
        .run(
            "class T { method void m(int a) { var int x; let x = a + 1; return; } }",
            "T.jack",
            &mut pdb,
        )
        .unwrap();
    assert!(ok);
    let text = c.output_code();
    assert!(
        text.contains("push argument 1\npush constant 1\nadd\npop local 0"),
        "got:\n{}",
        text
    );
    assert!(text.contains("function T.m 1"));
    assert!(text.contains("push argument 0\npop pointer 0"));
}

#[test]
fn jack_constructor_allocates_fields() {
    let mut c = Compiler::new();
    let mut pdb = Pdb::new();
    let ok = c
        .run(
            "class P { field int x, y; constructor P new() { return this; } }",
            "P.jack",
            &mut pdb,
        )
        .unwrap();
    assert!(ok);
    let text = c.output_code();
    assert!(text.contains("function P.new 0"));
    assert!(text.contains("push constant 2\ncall Memory.alloc 1\npop pointer 0"));
    assert!(text.contains("push pointer 0\nreturn"));
}

#[test]
fn jack_while_and_if_label_scheme() {
    let mut c = Compiler::new();
    let mut pdb = Pdb::new();
    let ok = c
        .run(
            "class W { function void f() { var int i; while (i < 3) { let i = i + 1; } if (i = 3) { return; } else { return; } return; } }",
            "W.jack",
            &mut pdb,
        )
        .unwrap();
    assert!(ok);
    let text = c.output_code();
    assert!(text.contains("label WHILE"));
    assert!(text.contains("if-goto ENDWHILE"));
    assert!(text.contains("if-goto IFTRUE"));
    assert!(text.contains("goto IFFALSE"));
    assert!(text.contains("label IFEND"));
}

#[test]
fn jack_calls_resolve_instances_and_classes() {
    let mut c = Compiler::new();
    let mut pdb = Pdb::new();
    let ok = c
        .run(
            "class C { field D obj; method void m() { do obj.go(1); do D.stat(2); do local();  return; } }",
            "C.jack",
            &mut pdb,
        )
        .unwrap();
    assert!(ok);
    let text = c.output_code();
    assert!(text.contains("push this 0\npush constant 1\ncall D.go 2"));
    assert!(text.contains("push constant 2\ncall D.stat 1"));
    assert!(text.contains("push pointer 0\ncall C.local 1"));
}

#[test]
fn jack_string_literal_builds_a_string() {
    let mut c = Compiler::new();
    let mut pdb = Pdb::new();
    let ok = c
        .run(
            "class S { function void f() { do Output.printString(\"Hi\"); return; } }",
            "S.jack",
            &mut pdb,
        )
        .unwrap();
    assert!(ok);
    let text = c.output_code();
    assert!(text.contains("push constant 2\ncall String.new 1"));
    assert!(text.contains("push constant 72\ncall String.appendChar 2"));
    assert!(text.contains("push constant 105\ncall String.appendChar 2"));
}

#[test]
fn jack_unresolved_name_sets_the_failure_flag() {
    let mut c = Compiler::new();
    let mut pdb = Pdb::new();
    let ok = c
        .run("class U { function int f() { return missing; } }", "U.jack", &mut pdb)
        .unwrap();
    assert!(!ok);
}

#[test]
fn jack_records_file_and_variable_symbols() {
    let mut c = Compiler::new();
    let mut pdb = Pdb::new();
    c.run("class V { static int s; field int f; function void g() { return; } }", "V.jack", &mut pdb)
        .unwrap();
    assert_eq!(pdb.file_info.len(), 1);
    assert_eq!(pdb.file_info[0].name, "V.jack");
    assert!(pdb.symbols.iter().any(|s| s.name == "V.s"));
    assert!(pdb.symbols.iter().any(|s| s.name == "V.f"));
    assert!(pdb.symbols.iter().all(|s| s.size == 2));
}

#[test]
fn whole_pipeline_runs_a_jack_program() {
    let mut jc = Compiler::new();
    let mut pdb = Pdb::new();
    let ok = jc
        .run(
            "class Main { function void main() { do Sys.store(4 + 5); return; } }",
            "Main.jack",
            &mut pdb,
        )
        .unwrap();
    assert!(ok);
    let main_vm = jc.output_code();

    let sys_vm = "function Sys.init 0\ncall Main.main 0\npop temp 2\nlabel END\ngoto END\nfunction Sys.store 1\npush argument 0\npop temp 3\npush constant 0\nreturn";
    let mut l = Linker::new();
    l.load(&main_vm).unwrap();
    l.load(sys_vm).unwrap();
    let linked = l.output_code().unwrap();

    let mut vc = VMComp::new();
    vc.bootstrap();
    vc.run(&linked, "prog").unwrap();
    vc.emit_firmware();
    let asm_text = vc.output_code();

    let mut a = Assembler::new();
    a.run(&asm_text, &mut pdb).expect("assembly should succeed");

    let rom = a.instructions.clone();
    let mut m = Machine::new();
    for _ in 0..20000 {
        if m.pc >= rom.len() {
            break;
        }
        m.step(&rom);
    }
    assert_eq!(m.ram[8], 9, "four plus five should land in temp 3");
}

#[test]
fn negative_constant_add_executes_correctly() {
    let mut c = VMComp::new();
    c.run("push constant 5\npush constant -1\nadd", "T").unwrap();
    let rom = assemble_text(&c.output_code());
    let mut m = Machine::new();
    m.ram[0] = 256;
    for _ in 0..100 {
        if m.pc >= rom.len() {
            break;
        }
        m.step(&rom);
    }
    assert_eq!(m.ram[256], 4, "five plus minus one is four");
    assert_eq!(m.ram[0], 257);
}

#[test]
fn jack_array_store_pushes_the_base_first() {
    let mut c = Compiler::new();
    let mut pdb = Pdb::new();
    let ok = c
        .run(
            "class A { function void f(Array a) { let a[2] = 5; return; } }",
            "A.jack",
            &mut pdb,
        )
        .unwrap();
    assert!(ok);
    let text = c.output_code();
    assert!(
        text.contains(
            "push argument 0\npush constant 2\nadd\npush constant 5\npop temp 0\npop pointer 1\npush temp 0\npop that 0"
        ),
        "got:\n{}",
        text
    );
}

#[test]
fn dest_fields_combine_in_any_order() {
    let rom = assemble_text("DM=1\nADM=0\nMD=1");
    assert_eq!(rom, vec![0xefd8, 0xeab8, 0xefd8]);
}
