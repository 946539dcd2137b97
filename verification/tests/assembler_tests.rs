use compcore::assembler::assemble::{AsmError, Assembler, Format};
use compcore::pdb::{FileType, Pdb, Symbol, SymbolType};

fn assemble(src: &str) -> (Assembler, Pdb) {
    let mut a = Assembler::new();
    let mut pdb = Pdb::new();
    a.run(src, &mut pdb).expect("assembly should succeed");
    (a, pdb)
}

#[test]
fn a_and_c_instructions_encode() {
    let (a, _) = assemble("@17\nD=A\n@1\nM=D");
    assert_eq!(a.instructions, vec![0x0011, 0xec10, 0x0001, 0xe308]);
}

#[test]
fn label_binds_to_next_instruction() {
    let (a, _) = assemble("(LOOP)\n@LOOP\n0;JMP");
    assert_eq!(a.instructions, vec![0x0000, 0xea87]);
    let name: Vec<char> = "LOOP".chars().collect();
    assert_eq!(a.labels.get(&name).copied(), Some(0usize));
}

#[test]
fn variables_allocate_from_sixteen_in_name_order() {
    // Undefined names get dense addresses from 16 in lexicographic order,
    // so `bar` comes before `foo` whatever the reference order.
    let (a, _) = assemble("@foo\nM=1\n@bar\nM=0");
    assert_eq!(a.instructions, vec![0x0011, 0xefc8, 0x0010, 0xea88]);
    let (b, _) = assemble("@bar\nM=1\n@foo\nM=0");
    assert_eq!(b.instructions, vec![0x0010, 0xefc8, 0x0011, 0xea88]);
}

#[test]
fn every_c_word_keeps_high_bits() {
    let (a, _) = assemble("D=A\nM=D+M\nAMD=M-1\nD;JLE\n0;JMP\nA=!D");
    for w in a.instructions.iter() {
        assert_eq!(w & 0xe000, 0xe000);
    }
}

#[test]
fn reserved_symbols_resolve_to_their_values() {
    let (a, _) = assemble("@SP\n@LCL\n@ARG\n@THIS\n@THAT\n@R13\n@SCREEN\n@KBD");
    assert_eq!(a.instructions, vec![0, 1, 2, 3, 4, 13, 0x4000, 0x6000]);
}

#[test]
fn hex_constants_parse() {
    let (a, _) = assemble("@0x1f\n@0X002A");
    assert_eq!(a.instructions, vec![0x1f, 0x2a]);
}

#[test]
fn duplicate_label_is_an_error() {
    let mut a = Assembler::new();
    let mut pdb = Pdb::new();
    let r = a.run("(X)\n@1\n(X)", &mut pdb);
    assert_eq!(r, Err(AsmError::DuplicateLabel { line: 2 }));
}

#[test]
fn reserved_label_is_an_error() {
    let mut a = Assembler::new();
    let mut pdb = Pdb::new();
    let r = a.run("(R0)", &mut pdb);
    assert_eq!(r, Err(AsmError::ReservedLabel { line: 0 }));
}

#[test]
fn malformed_line_is_a_syntax_error() {
    let mut a = Assembler::new();
    let mut pdb = Pdb::new();
    let r = a.run("@1\n=@=\n@2", &mut pdb);
    assert_eq!(r, Err(AsmError::Syntax { line: 1 }));
}

#[test]
fn debug_markers_append_source_map_records() {
    let (_, pdb) = assemble("@1\n// ++pdb 0:18:9\nD=A\n// ++pdb 0:19:3\nM=D");
    assert_eq!(pdb.source_map.len(), 2);
    assert_eq!(pdb.source_map[0].file, 0);
    assert_eq!(pdb.source_map[0].line_no, 18);
    assert_eq!(pdb.source_map[0].col_no, 9);
    assert_eq!(pdb.source_map[0].addr, 1);
    assert_eq!(pdb.source_map[1].addr, 2);
    assert!(pdb.source_map[0].addr <= pdb.source_map[1].addr);
}

#[test]
fn malformed_marker_with_three_parts_is_an_error() {
    let mut a = Assembler::new();
    let mut pdb = Pdb::new();
    let r = a.run("// ++pdb a:b:c", &mut pdb);
    assert_eq!(r, Err(AsmError::Syntax { line: 0 }));
}

#[test]
fn ordinary_comments_are_ignored() {
    let (a, pdb) = assemble("// just a note\n@5\n// ++pdb 1:2\nD=A");
    assert_eq!(a.instructions, vec![5, 0xec10]);
    assert_eq!(pdb.source_map.len(), 0);
}

#[test]
fn function_symbols_are_back_patched() {
    let mut a = Assembler::new();
    let mut pdb = Pdb::new();
    pdb.symbols.push(Symbol {
        symbol_type: SymbolType::Func,
        name: "Sys.halt".to_string(),
        func_type: 0,
        var_type: 0,
        storage_class: 0,
        size: 0,
        address: 0,
        instance_type: String::new(),
        file_type: FileType::Asm,
    });
    a.run("@3\n(Sys.halt)\nD=A", &mut pdb).unwrap();
    assert_eq!(pdb.symbols[0].address, 1);
    assert_eq!(a.halt_addr, 1);
}

#[test]
fn forward_reference_to_label_is_fixed_up() {
    let (a, _) = assemble("@end\n0;JMP\n@1\n(end)\nD=A");
    assert_eq!(a.instructions[0], 3);
}

#[test]
fn raw_binary_and_hex_renderings() {
    let (a, _) = assemble("@5\nD=A");
    assert_eq!(a.output_code(Format::RawBinary), "0000000000000101\n1110110000010000\n");
    assert_eq!(a.output_code(Format::RawHex), "0005\nec10\n");
    assert_eq!(a.output_code(Format::Test), " cpu.rom[0]=0x0005;\n cpu.rom[1]=0xec10;\n");
}

#[test]
fn loader_rendering_with_data_section() {
    let (a, _) = assemble("@1\n.org 0x10\n.word 7\n.word 0x2a\n.org 32\n.word 1");
    let out = a.output_code(Format::Hackem);
    assert_eq!(out, "hackem v1.0 0x0000\nROM@0000\n0001\nRAM@0010\n0007\n002a\nRAM@0020\n0001\n");
}

#[test]
fn listing_aligns_lines_to_addresses() {
    let (a, _) = assemble("(LOOP)\n@LOOP\n0;JMP");
    let listing = a.listing();
    let lines: Vec<&str> = listing.lines().collect();
    assert_eq!(lines.len(), 3);
    assert_eq!(lines[0], "                       (LOOP)");
    assert_eq!(lines[1], "0x0000 (0000) 0x0000  @LOOP");
    assert_eq!(lines[2], "0x0001 (0001) 0xea87  0;JMP");
}

#[test]
fn listing_recovers_the_rom_image() {
    let src = "@17\nD=A\n(X)\n@X\n0;JMP\n// note\n@foo\nM=1";
    let (a, _) = assemble(src);
    let listing = a.listing();
    let mut rom: Vec<u16> = Vec::new();
    for line in listing.lines() {
        if line.starts_with("0x") {
            let word = u16::from_str_radix(&line[16..20], 16).unwrap();
            rom.push(word);
        }
    }
    assert_eq!(rom, a.instructions);
}

#[test]
fn adjust_canonicalization_strips_verbatim_prefix() {
    assert_eq!(compcore::utils::adjust_canonicalization("\\\\?\\C:\\x"), "C:\\x");
    assert_eq!(compcore::utils::adjust_canonicalization("/plain/path"), "/plain/path");
}

#[test]
fn number_renderings() {
    assert_eq!(compcore::text::dec_string(1234), "1234");
    assert_eq!(compcore::text::hex4_string(0x12ab), "12ab");
    assert_eq!(compcore::text::bin16_string(5), "0000000000000101");
}
