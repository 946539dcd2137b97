//! Lowering from the stack-oriented VM language to symbolic assembly: a
//! shared call/return firmware, a bootstrap preamble, and per-statement
//! templates with two peephole fusions.
use crate::constants;
use crate::text::{dec_rep, trim, spec_lines, push_dec, push_char, push_chars, string_of};
use crate::vcomp::parse::{classify_vm, ArithOp, Segment, VmItem, VmItemV, VMParser};
use vstd::prelude::*;

verus! {

broadcast use vstd::string::group_string_axioms;

/// The code buffer view: one sequence of characters per emitted line.
pub open spec fn code_view(code: Seq<String>) -> Seq<Seq<char>> {
    code.map_values(|l: String| l@)
}

/// The echo comment placed above a statement's code.
pub open spec fn echo(raw: Seq<char>) -> Seq<char> {
    "// "@ + raw
}

/// `@n` for a decimal constant.
pub open spec fn at_num(n: nat) -> Seq<char> {
    seq!['@'] + dec_rep(n)
}

/// `@NAME` for a symbol.
pub open spec fn at_sym(name: Seq<char>) -> Seq<char> {
    seq!['@'] + name
}

/// `(NAME)`.
pub open spec fn paren(name: Seq<char>) -> Seq<char> {
    seq!['('] + name + seq![')']
}

/// The five lines that push the D register.
pub open spec fn lines_push_d() -> Seq<Seq<char>> {
    seq!["@SP"@, "A=M"@, "M=D"@, "@SP"@, "M=M+1"@]
}

/// Loading a constant into D: negative constants load the magnitude and
/// negate.
pub open spec fn lines_const_d(v: i16) -> Seq<Seq<char>> {
    if v < 0 {
        seq![at_num((-(v as int)) as nat), "D=-A"@]
    } else {
        seq![at_num(v as nat), "D=A"@]
    }
}

/// The three lines that pop the stack and leave the top's address in A.
pub open spec fn lines_dec_load_sp() -> Seq<Seq<char>> {
    seq!["@SP"@, "M=M-1"@, "A=M"@]
}

/// Loading `*(*base + offset)` into D.
pub open spec fn lines_load_ind_d(base: u16, offset: u16) -> Seq<Seq<char>> {
    seq![at_num(base as nat), "D=M"@, at_num(offset as nat), "A=D+A"@, "D=M"@]
}

/// Loading `*(THIS/THAT + index)` into D.
pub open spec fn lines_load_this_that(index: u16, ptr: Seq<char>) -> Seq<Seq<char>> {
    seq![at_sym(ptr), "D=M"@, at_num(index as nat), "A=D+A"@, "D=M"@]
}

/// The label a local VM label is rewritten to: `<file>.<function>$<label>`.
pub open spec fn private_label(file: Seq<char>, func: Seq<char>, l: Seq<char>) -> Seq<char> {
    file + seq!['.'] + func + seq!['$'] + l
}

/// A minted label `L_<file>_<n>`.
pub open spec fn minted_label(file: Seq<char>, n: nat) -> Seq<char> {
    "L_"@ + file + seq!['_'] + dec_rep(n)
}

/// The static-segment symbol `<module>.<index>`.
pub open spec fn static_sym(module: Seq<char>, index: nat) -> Seq<char> {
    module + seq!['.'] + dec_rep(index)
}

/// Loading the value a `push` names into D, without touching the stack.
pub open spec fn lines_seg_d(seg: Segment, index: i16, module: Seq<char>) -> Seq<Seq<char>> {
    match seg {
        Segment::Local => lines_load_ind_d(constants::LCL, index as u16),
        Segment::Argument => lines_load_ind_d(constants::ARG, index as u16),
        Segment::Constant => lines_const_d(index),
        Segment::This => lines_load_this_that(index as u16, "THIS"@),
        Segment::That => lines_load_this_that(index as u16, "THAT"@),
        Segment::Temp => seq![at_num(((constants::TEMP + index as u16) as u16) as nat), "D=M"@],
        Segment::Pointer => seq![at_num(((constants::POINTER + index as u16) as u16) as nat), "D=M"@],
        Segment::Static => seq![at_sym(static_sym(module, index as u16 as nat)), "D=M"@],
    }
}

/// Computing `*seg + offset` into R13, popping into D and storing.
pub open spec fn lines_pop_seg_off(seg: u16, offset: u16) -> Seq<Seq<char>> {
    seq![at_num(seg as nat), "D=M"@] + (if offset != 0 {
        seq![at_num(offset as nat), "D=D+A"@]
    } else {
        Seq::empty()
    }) + seq!["@R13"@, "M=D"@, "@SP"@, "AM=M-1"@, "D=M"@, "@R13"@, "A=M"@, "M=D"@]
}

/// Storing D through `*seg + offset`, saving D in R14 meanwhile.
pub open spec fn lines_d_seg_off(seg: u16, offset: u16) -> Seq<Seq<char>> {
    seq!["@R14"@, "M=D"@, at_num(seg as nat), "D=M"@] + (if offset != 0 {
        seq![at_num(offset as nat), "D=D+A"@]
    } else {
        Seq::empty()
    }) + seq!["@R13"@, "M=D"@, "@R14"@, "D=M"@, "@R13"@, "A=M"@, "M=D"@]
}

/// The code a plain `pop <seg> <i>` emits.
pub open spec fn lines_pop(seg: Segment, index: u16, module: Seq<char>) -> Seq<Seq<char>> {
    match seg {
        Segment::Local => lines_pop_seg_off(constants::LCL, index),
        Segment::Argument => lines_pop_seg_off(constants::ARG, index),
        Segment::This => lines_pop_seg_off(constants::THIS, index),
        Segment::That => lines_pop_seg_off(constants::THAT, index),
        Segment::Temp => lines_dec_load_sp() + seq![
            "D=M"@,
            at_num(((constants::TEMP + index) as u16) as nat),
            "M=D"@,
        ],
        Segment::Pointer => lines_dec_load_sp() + seq![
            "D=M"@,
            at_num(((constants::POINTER + index) as u16) as nat),
            "M=D"@,
        ],
        Segment::Static => lines_dec_load_sp() + seq![
            "D=M"@,
            at_sym(static_sym(module, index as nat)),
            "M=D"@,
        ],
        // The reader rejects pops of the constant segment, so no code
        // belongs to this arm.
        Segment::Constant => Seq::empty(),
    }
}

/// Storing D into what a `pop <seg> <i>` names, without touching the stack.
pub open spec fn lines_d_store(seg: Segment, index: u16, module: Seq<char>) -> Seq<Seq<char>> {
    match seg {
        Segment::Local => lines_d_seg_off(constants::LCL, index),
        Segment::Argument => lines_d_seg_off(constants::ARG, index),
        Segment::This => lines_d_seg_off(constants::THIS, index),
        Segment::That => lines_d_seg_off(constants::THAT, index),
        Segment::Temp => seq![at_num(((constants::TEMP + index) as u16) as nat), "M=D"@],
        Segment::Pointer => seq![at_num(((constants::POINTER + index) as u16) as nat), "M=D"@],
        Segment::Static => seq![at_sym(static_sym(module, index as nat)), "M=D"@],
        // The reader rejects pops of the constant segment.
        Segment::Constant => Seq::empty(),
    }
}

/// A binary operator applied in place on the two topmost stack cells.
pub open spec fn lines_binary(op: char) -> Seq<Seq<char>> {
    lines_dec_load_sp() + seq!["D=M"@] + lines_dec_load_sp() + seq![
        seq!['M', '=', 'D', op, 'M'],
    ] + (if op == '-' {
        seq!["M=-M"@]
    } else {
        Seq::empty()
    }) + seq!["@SP"@, "M=M+1"@]
}

/// A comparison: subtract, branch on the flags, push all-ones or zero.
pub open spec fn lines_cmp(op: ArithOp, file: Seq<char>, count: nat) -> Seq<Seq<char>> {
    lines_dec_load_sp() + seq!["D=M"@] + lines_dec_load_sp() + seq![
        "D=D-M"@,
        at_sym(minted_label(file, count + 1)),
        (if op is CmpEq {
            "D;JNE"@
        } else if op is CmpLt {
            "D;JLE"@
        } else {
            "D;JGE"@
        }),
        "D=-1"@,
        at_sym(minted_label(file, count + 2)),
        "D;JMP"@,
        paren(minted_label(file, count + 1)),
        "D=0"@,
        paren(minted_label(file, count + 2)),
    ] + lines_push_d()
}

/// An in-place unary operator on the top of the stack.
pub open spec fn lines_unary(op: ArithOp) -> Seq<Seq<char>> {
    lines_dec_load_sp() + seq![
        (if op is Neg {
            "M=-M"@
        } else {
            "M=!M"@
        }),
        "@SP"@,
        "M=M+1"@,
    ]
}

/// A call: argument count to R13, the callee's address to R14, the return
/// label to D, then the shared firmware.
pub open spec fn lines_call(name: Seq<char>, args: u16, file: Seq<char>, count: nat) -> Seq<
    Seq<char>,
> {
    seq![
        at_num(args as nat),
        "D=A"@,
        "@R13"@,
        "M=D"@,
        at_sym(name),
        "D=A"@,
        "@R14"@,
        "M=D"@,
        at_sym(minted_label(file, count + 1)),
        "D=A"@,
        "@FW__CALL"@,
        "0;JMP"@,
        paren(minted_label(file, count + 1)),
    ]
}

/// The in-place increment `push constant k ; add` fuses into.
pub open spec fn lines_fast_plus(v: u16, raw: Seq<char>) -> Seq<Seq<char>> {
    seq![at_num(v as nat), "D=A"@, echo(raw), "@SP"@, "A=M-1"@, "M=D+M"@]
}

/// The translator from merged VM text to symbolic assembly.
pub struct VMComp {
    pub code: Vec<String>,
    pub file_name: Vec<char>,
    pub label_count: u128,
    pub current_function: Vec<char>,
    pub current_module: Vec<char>,
    pub last_push: Option<(Segment, i16, usize)>,
}

impl VMComp {
    /// The code buffer as character sequences.
    pub open spec fn code_v(&self) -> Seq<Seq<char>> {
        code_view(self.code@)
    }

    /// Any recorded fusion candidate points into the buffer.
    pub open spec fn wf(&self) -> bool {
        match self.last_push {
            Some((seg, i, off)) => off <= self.code@.len(),
            None => true,
        }
    }

    /// A fresh translator with an empty buffer.
    pub fn new() -> (c: VMComp)
        ensures
            c.code_v() =~= Seq::<Seq<char>>::empty(),
            c.file_name@.len() == 0,
            c.label_count == 0,
            c.current_function@.len() == 0,
            c.current_module@.len() == 0,
            c.last_push is None,
            c.wf(),
    {
        let c = VMComp {
            code: Vec::new(),
            file_name: Vec::new(),
            label_count: 0,
            current_function: Vec::new(),
            current_module: Vec::new(),
            last_push: None,
        };
        proof {
            assert(c.code_v() =~= Seq::<Seq<char>>::empty());
        }
        c
    }

    /// Appends one literal line to the buffer.
    pub fn write(&mut self, inst: &str)
        ensures
            final(self).code_v() == old(self).code_v().push(inst@),
            final(self).file_name == old(self).file_name,
            final(self).label_count == old(self).label_count,
            final(self).current_function == old(self).current_function,
            final(self).current_module == old(self).current_module,
            final(self).last_push == old(self).last_push,
            old(self).wf() ==> final(self).wf(),
    {
        self.code.push(inst.to_owned());
        proof {
            assert(self.code_v() =~= old(self).code_v().push(inst@));
        }
    }

    /// Appends one built line to the buffer.
    pub fn write_s(&mut self, inst: String)
        ensures
            final(self).code_v() == old(self).code_v().push(inst@),
            final(self).file_name == old(self).file_name,
            final(self).label_count == old(self).label_count,
            final(self).current_function == old(self).current_function,
            final(self).current_module == old(self).current_module,
            final(self).last_push == old(self).last_push,
            old(self).wf() ==> final(self).wf(),
    {
        let ghost iv = inst@;
        self.code.push(inst);
        proof {
            assert(self.code_v() =~= old(self).code_v().push(iv));
        }
    }

    /// Appends `@n` for a number.
    fn write_at_num(&mut self, n: u64)
        ensures
            final(self).code_v() == old(self).code_v().push(at_num(n as nat)),
            final(self).file_name == old(self).file_name,
            final(self).label_count == old(self).label_count,
            final(self).current_function == old(self).current_function,
            final(self).current_module == old(self).current_module,
            final(self).last_push == old(self).last_push,
            old(self).wf() ==> final(self).wf(),
    {
        let mut s = String::new();
        push_char(&mut s, '@');
        push_dec(&mut s, n);
        assert(s@ =~= at_num(n as nat));
        self.write_s(s);
    }

    /// Appends `@NAME` for a symbol.
    fn write_at_sym(&mut self, name: &[char])
        ensures
            final(self).code_v() == old(self).code_v().push(at_sym(name@)),
            final(self).file_name == old(self).file_name,
            final(self).label_count == old(self).label_count,
            final(self).current_function == old(self).current_function,
            final(self).current_module == old(self).current_module,
            final(self).last_push == old(self).last_push,
            old(self).wf() ==> final(self).wf(),
    {
        let mut s = String::new();
        push_char(&mut s, '@');
        push_chars(&mut s, name);
        assert(s@ =~= at_sym(name@));
        self.write_s(s);
    }

    /// Pushes the D register.
    fn emit_push_d(&mut self)
        ensures
            final(self).code_v() == old(self).code_v() + lines_push_d(),
            final(self).file_name == old(self).file_name,
            final(self).label_count == old(self).label_count,
            final(self).current_function == old(self).current_function,
            final(self).current_module == old(self).current_module,
            final(self).last_push == old(self).last_push,
            old(self).wf() ==> final(self).wf(),
    {
        self.write("@SP");
        self.write("A=M");
        self.write("M=D");
        self.write("@SP");
        self.write("M=M+1");
        assert(final(self).code_v() =~= old(self).code_v() + lines_push_d());
    }

    /// Pops the stack, leaving the popped cell's address in A.
    fn emit_dec_load_sp(&mut self)
        ensures
            final(self).code_v() == old(self).code_v() + lines_dec_load_sp(),
            final(self).file_name == old(self).file_name,
            final(self).label_count == old(self).label_count,
            final(self).current_function == old(self).current_function,
            final(self).current_module == old(self).current_module,
            final(self).last_push == old(self).last_push,
            old(self).wf() ==> final(self).wf(),
    {
        self.write("@SP");
        self.write("M=M-1");
        self.write("A=M");
        assert(final(self).code_v() =~= old(self).code_v() + lines_dec_load_sp());
    }

    /// Loads a constant into D.
    fn emit_const_d(&mut self, v: i16)
        ensures
            final(self).code_v() == old(self).code_v() + lines_const_d(v),
            final(self).file_name == old(self).file_name,
            final(self).label_count == old(self).label_count,
            final(self).current_function == old(self).current_function,
            final(self).current_module == old(self).current_module,
            final(self).last_push == old(self).last_push,
            old(self).wf() ==> final(self).wf(),
    {
        if v < 0 {
            let mag: u64 = (-(v as i64)) as u64;
            self.write_at_num(mag);
            self.write("D=-A");
        } else {
            self.write_at_num(v as u64);
            self.write("D=A");
        }
        assert(final(self).code_v() =~= old(self).code_v() + lines_const_d(v));
    }

    /// Loads `*(*base + offset)` into D.
    fn emit_load_ind_d(&mut self, base: u16, offset: u16)
        ensures
            final(self).code_v() == old(self).code_v() + lines_load_ind_d(base, offset),
            final(self).file_name == old(self).file_name,
            final(self).label_count == old(self).label_count,
            final(self).current_function == old(self).current_function,
            final(self).current_module == old(self).current_module,
            final(self).last_push == old(self).last_push,
            old(self).wf() ==> final(self).wf(),
    {
        self.write_at_num(base as u64);
        self.write("D=M");
        self.write_at_num(offset as u64);
        self.write("A=D+A");
        self.write("D=M");
        assert(final(self).code_v() =~= old(self).code_v() + lines_load_ind_d(base, offset));
    }

    /// Loads `*(THIS + i)` or `*(THAT + i)` into D.
    fn emit_load_this_that(&mut self, index: u16, that: bool)
        ensures
            final(self).code_v() == old(self).code_v() + lines_load_this_that(
                index,
                if that {
                    "THAT"@
                } else {
                    "THIS"@
                },
            ),
            final(self).file_name == old(self).file_name,
            final(self).label_count == old(self).label_count,
            final(self).current_function == old(self).current_function,
            final(self).current_module == old(self).current_module,
            final(self).last_push == old(self).last_push,
            old(self).wf() ==> final(self).wf(),
    {
        if that {
            self.write("@THAT");
        } else {
            self.write("@THIS");
        }
        proof {
            reveal_strlit("@THAT");
            reveal_strlit("@THIS");
            reveal_strlit("THAT");
            reveal_strlit("THIS");
            assert("@THAT"@ =~= at_sym("THAT"@));
            assert("@THIS"@ =~= at_sym("THIS"@));
        }
        self.write("D=M");
        self.write_at_num(index as u64);
        self.write("A=D+A");
        self.write("D=M");
        assert(final(self).code_v() =~= old(self).code_v() + lines_load_this_that(
            index,
            if that {
                "THAT"@
            } else {
                "THIS"@
            },
        ));
    }

    /// Appends the static-segment symbol reference `@<module>.<i>`.
    fn write_at_static(&mut self, index: u16)
        ensures
            final(self).code_v() == old(self).code_v().push(
                at_sym(static_sym(old(self).current_module@, index as nat)),
            ),
            final(self).file_name == old(self).file_name,
            final(self).label_count == old(self).label_count,
            final(self).current_function == old(self).current_function,
            final(self).current_module == old(self).current_module,
            final(self).last_push == old(self).last_push,
            old(self).wf() ==> final(self).wf(),
    {
        let mut s = String::new();
        push_char(&mut s, '@');
        push_chars(&mut s, self.current_module.as_slice());
        push_char(&mut s, '.');
        push_dec(&mut s, index as u64);
        assert(s@ =~= at_sym(static_sym(self.current_module@, index as nat)));
        self.write_s(s);
    }

    /// Loads what a `push` names into D, without touching the stack.
    fn emit_seg_d(&mut self, seg: Segment, index: i16)
        ensures
            final(self).code_v() == old(self).code_v() + lines_seg_d(
                seg,
                index,
                old(self).current_module@,
            ),
            final(self).file_name == old(self).file_name,
            final(self).label_count == old(self).label_count,
            final(self).current_function == old(self).current_function,
            final(self).current_module == old(self).current_module,
            final(self).last_push == old(self).last_push,
            old(self).wf() ==> final(self).wf(),
    {
        match seg {
            Segment::Local => {
                #[verifier::truncate]
                let off = index as u16;
                self.emit_load_ind_d(constants::LCL, off);
            },
            Segment::Argument => {
                #[verifier::truncate]
                let off = index as u16;
                self.emit_load_ind_d(constants::ARG, off);
            },
            Segment::Constant => {
                self.emit_const_d(index);
            },
            Segment::This => {
                #[verifier::truncate]
                let off = index as u16;
                self.emit_load_this_that(off, false);
            },
            Segment::That => {
                #[verifier::truncate]
                let off = index as u16;
                self.emit_load_this_that(off, true);
            },
            Segment::Temp => {
                #[verifier::truncate]
                let off = index as u16;
                let addr = constants::TEMP.wrapping_add(off);
                proof {
                    assert(addr == (constants::TEMP + index as u16) as u16) by (bit_vector)
                        requires
                            addr == (constants::TEMP as u16).wrapping_add((index as u16)),
                            constants::TEMP == 5u16,
                    ;
                }
                self.write_at_num(addr as u64);
                self.write("D=M");
                assert(final(self).code_v() =~= old(self).code_v() + lines_seg_d(
                    seg,
                    index,
                    old(self).current_module@,
                ));
            },
            Segment::Pointer => {
                #[verifier::truncate]
                let off = index as u16;
                let addr = constants::POINTER.wrapping_add(off);
                proof {
                    assert(addr == (constants::POINTER + index as u16) as u16) by (bit_vector)
                        requires
                            addr == (constants::POINTER as u16).wrapping_add((index as u16)),
                            constants::POINTER == 3u16,
                    ;
                }
                self.write_at_num(addr as u64);
                self.write("D=M");
                assert(final(self).code_v() =~= old(self).code_v() + lines_seg_d(
                    seg,
                    index,
                    old(self).current_module@,
                ));
            },
            Segment::Static => {
                #[verifier::truncate]
                let off = index as u16;
                self.write_at_static(off);
                self.write("D=M");
                assert(final(self).code_v() =~= old(self).code_v() + lines_seg_d(
                    seg,
                    index,
                    old(self).current_module@,
                ));
            },
        }
        assert(final(self).code_v() =~= old(self).code_v() + lines_seg_d(
            seg,
            index,
            old(self).current_module@,
        ));
    }
}

/// The zero-pushes that reserve a function's locals.
pub open spec fn lines_locals(k: nat) -> Seq<Seq<char>>
    decreases k,
{
    if k == 0 {
        Seq::empty()
    } else {
        lines_locals((k - 1) as nat) + lines_const_d(0) + lines_push_d()
    }
}

/// The module of a function name: the part before the first dot, or the
/// whole name.
pub open spec fn module_of(f: Seq<char>) -> Seq<char> {
    match crate::assembler::parse::find_char(f, '.') {
        Some(i) => f.take(i),
        None => f,
    }
}

/// The shared return routine of the firmware.
pub open spec fn fw_return_lines() -> Seq<Seq<char>> {
    seq![
        "(FW__RETURN)"@, "@LCL"@, "D=M"@, "@R13"@, "M=D"@, "@5"@, "A=D-A"@, "D=M"@, "@R14"@,
        "M=D"@,
    ] + lines_dec_load_sp() + seq![
        "D=M"@, "@ARG"@, "A=M"@, "M=D"@, "@ARG"@, "D=M+1"@, "@SP"@, "M=D"@, "@R13"@, "D=M"@,
        "A=D-1"@, "D=M"@, "@THAT"@, "M=D"@, "@2"@, "D=A"@, "@R13"@, "A=M-D"@, "D=M"@, "@THIS"@,
        "M=D"@, "@3"@, "D=A"@, "@R13"@, "A=M-D"@, "D=M"@, "@ARG"@, "M=D"@, "@4"@, "D=A"@, "@R13"@,
        "A=M-D"@, "D=M"@, "@LCL"@, "M=D"@, "@R14"@, "A=M"@, "0;JMP"@,
    ]
}

/// The shared call routine of the firmware.
pub open spec fn fw_call_lines() -> Seq<Seq<char>> {
    seq!["(FW__CALL)"@] + lines_push_d() + seq!["@LCL"@, "D=M"@] + lines_push_d() + seq![
        "@ARG"@,
        "D=M"@,
    ] + lines_push_d() + seq!["@THIS"@, "D=M"@] + lines_push_d() + seq!["@THAT"@, "D=M"@]
        + lines_push_d() + seq![
        "@SP"@, "D=M"@, "@5"@, "D=D-A"@, "@R13"@, "D=D-M"@, "@ARG"@, "M=D"@, "@SP"@, "D=M"@,
        "@LCL"@, "M=D"@, "@R14"@, "A=M"@, "0;JMP"@,
    ]
}

/// The firmware: one shared return routine and one shared call routine.
pub open spec fn firmware_lines() -> Seq<Seq<char>> {
    fw_return_lines() + fw_call_lines()
}

/// The translator's evolving state, at the specification level.
pub struct VmSt {
    pub code: Seq<Seq<char>>,
    pub file: Seq<char>,
    pub func: Seq<char>,
    pub module: Seq<char>,
    pub count: nat,
    pub last: Option<(Segment, i16, nat)>,
}

/// A recorded fusion candidate points into the buffer and the buffer's
/// tail from there is exactly the push it describes.
pub open spec fn fusion_wf(st: VmSt) -> bool {
    match st.last {
        Some((seg, ix, off)) => off <= st.code.len() && st.code.skip(off as int) == lines_seg_d(
            seg,
            ix,
            st.module,
        ) + lines_push_d(),
        None => true,
    }
}

/// One step of the lowering pass over a classified line.
pub open spec fn vm_step(st: VmSt, item: VmItemV, raw: Seq<char>) -> VmSt {
    match item {
        VmItemV::Blank => st,
        VmItemV::Bad => st,
        VmItemV::PdbComment => match st.last {
            Some((seg, ix, off)) => VmSt {
                code: st.code.insert(off as int, raw),
                last: Some((seg, ix, (off + 1) as nat)),
                ..st
            },
            None => VmSt { code: st.code.push(raw), ..st },
        },
        VmItemV::Push(seg, i) => VmSt {
            code: st.code.push(echo(raw)) + lines_seg_d(seg, i, st.module) + lines_push_d(),
            last: Some((seg, i, (st.code.len() + 1) as nat)),
            ..st
        },
        VmItemV::Pop(seg, i) => match st.last {
            Some((psg, pix, off)) => VmSt {
                code: st.code.push(echo(raw)).take(off as int) + lines_seg_d(psg, pix, st.module)
                    + seq![echo(raw)] + lines_d_store(seg, i, st.module),
                last: None,
                ..st
            },
            None => VmSt {
                code: st.code.push(echo(raw)) + lines_pop(seg, i, st.module),
                last: None,
                ..st
            },
        },
        VmItemV::Arith(op) => match op {
            ArithOp::Plus => match st.last {
                Some((Segment::Constant, pix, off)) => if pix >= 0 {
                    VmSt {
                        code: st.code.push(echo(raw)).take(off as int) + lines_fast_plus(
                            pix as u16,
                            raw,
                        ),
                        last: None,
                        ..st
                    }
                } else {
                    // A negative constant does not fit a machine constant
                    // load, so it is not fused; the plain operator handles
                    // the value already on the stack.
                    VmSt {
                        code: st.code.push(echo(raw)) + lines_binary('+'),
                        last: None,
                        ..st
                    }
                },
                _ => VmSt {
                    code: st.code.push(echo(raw)) + lines_binary('+'),
                    last: None,
                    ..st
                },
            },
            ArithOp::Minus => VmSt {
                code: st.code.push(echo(raw)) + lines_binary('-'),
                last: None,
                ..st
            },
            ArithOp::BitAnd => VmSt {
                code: st.code.push(echo(raw)) + lines_binary('&'),
                last: None,
                ..st
            },
            ArithOp::BitOr => VmSt {
                code: st.code.push(echo(raw)) + lines_binary('|'),
                last: None,
                ..st
            },
            ArithOp::Neg => VmSt {
                code: st.code.push(echo(raw)) + lines_unary(ArithOp::Neg),
                last: None,
                ..st
            },
            ArithOp::BitNot => VmSt {
                code: st.code.push(echo(raw)) + lines_unary(ArithOp::BitNot),
                last: None,
                ..st
            },
            _ => VmSt {
                code: st.code.push(echo(raw)) + lines_cmp(op, st.file, st.count),
                count: st.count + 2,
                last: None,
                ..st
            },
        },
        VmItemV::Label(l) => VmSt {
            code: st.code.push(echo(raw)).push(paren(private_label(st.file, st.func, l))),
            last: None,
            ..st
        },
        VmItemV::Goto(l) => VmSt {
            code: st.code.push(echo(raw)).push(at_sym(private_label(st.file, st.func, l))).push(
                "0;JMP"@,
            ),
            last: None,
            ..st
        },
        VmItemV::IfGoto(l) => VmSt {
            code: st.code.push(echo(raw)) + lines_dec_load_sp() + seq![
                "D=M"@,
                at_sym(private_label(st.file, st.func, l)),
                "D;JNE"@,
            ],
            last: None,
            ..st
        },
        VmItemV::Function(f, k) => VmSt {
            code: st.code.push(echo(raw)).push(paren(f)) + lines_locals(k as nat),
            func: f,
            module: module_of(f),
            last: None,
            ..st
        },
        VmItemV::Call(f, n) => VmSt {
            code: st.code.push(echo(raw)) + lines_call(f, n, st.file, st.count),
            count: st.count + 1,
            last: None,
            ..st
        },
        VmItemV::Return => VmSt {
            code: st.code.push(echo(raw)).push("@FW__RETURN"@).push("0;JMP"@),
            last: None,
            ..st
        },
    }
}

/// The lowering pass over a whole sequence of classified lines.
pub open spec fn vm_fold(st: VmSt, pairs: Seq<(Seq<char>, VmItemV)>) -> VmSt
    decreases pairs.len(),
{
    if pairs.len() == 0 {
        st
    } else {
        vm_fold(vm_step(st, pairs[0].1, pairs[0].0), pairs.drop_first())
    }
}

/// The classified, trimmed lines of a VM source text.
pub open spec fn vm_lines(src: Seq<char>) -> Seq<(Seq<char>, VmItemV)> {
    spec_lines(src).map_values(|l: Seq<char>| (trim(l), classify_vm(trim(l))))
}

/// Extending the lowering pass by one line performs one step.
#[verifier::rlimit(100)]
pub proof fn lemma_vm_fold_snoc(st0: VmSt, pairs: Seq<(Seq<char>, VmItemV)>, i: int)
    requires
        0 <= i < pairs.len(),
    ensures
        vm_fold(st0, pairs.take(i + 1)) == vm_step(
            vm_fold(st0, pairs.take(i)),
            pairs[i].1,
            pairs[i].0,
        ),
    decreases i,
{
    if i == 0 {
        assert(pairs.take(0) =~= Seq::<(Seq<char>, VmItemV)>::empty());
        assert(vm_fold(st0, pairs.take(0)) == st0);
        assert(pairs.take(1)[0] == pairs[0]);
        assert(pairs.take(1).len() == 1);
        assert(pairs.take(1).drop_first() =~= Seq::<(Seq<char>, VmItemV)>::empty());
        let st1 = vm_step(st0, pairs.take(1)[0].1, pairs.take(1)[0].0);
        assert(vm_fold(st1, pairs.take(1).drop_first()) == st1);
        assert(vm_fold(st0, pairs.take(1)) == st1);
        assert(st1 == vm_step(st0, pairs[0].1, pairs[0].0));
    } else {
        assert(pairs.take(i)[0] == pairs[0]);
        assert(pairs.take(i).drop_first() =~= pairs.drop_first().take(i - 1));
        let st1 = vm_step(st0, pairs[0].1, pairs[0].0);
        assert(vm_fold(st0, pairs.take(i)) == vm_fold(st1, pairs.drop_first().take(i - 1))) by {
            assert(vm_step(st0, pairs.take(i)[0].1, pairs.take(i)[0].0) == st1);
        }
        lemma_vm_fold_snoc(st1, pairs.drop_first(), i - 1);
        assert(pairs.take(i + 1)[0] == pairs[0]);
        assert(pairs.take(i + 1).drop_first() =~= pairs.drop_first().take(i));
        assert(pairs.drop_first()[i - 1] == pairs[i]);
        assert(vm_fold(st0, pairs.take(i + 1)) == vm_fold(st1, pairs.drop_first().take(i))) by {
            assert(vm_step(st0, pairs.take(i + 1)[0].1, pairs.take(i + 1)[0].0) == st1);
        }
    }
}

/// How one stream of VM lines failed to translate.
#[derive(Clone, Copy, Debug, PartialEq, Eq, Structural)]
pub enum VmError {
    /// A line no grammar rule accepts.
    Syntax { line: usize },
}

impl VMComp {
    /// The whole state view.
    pub open spec fn st(&self) -> VmSt {
        VmSt {
            code: self.code_v(),
            file: self.file_name@,
            func: self.current_function@,
            module: self.current_module@,
            count: self.label_count as nat,
            last: match self.last_push {
                Some((seg, i, off)) => Some((seg, i, off as nat)),
                None => None,
            },
        }
    }

    /// Mints the next label `L_<file>_<n>`.
    pub fn make_label(&mut self) -> (s: String)
        requires
            old(self).label_count < 0xffff_ffff_ffff_ffff_ffff_ffff_ffff_ffff,
        ensures
            final(self).label_count == old(self).label_count + 1,
            s@ == minted_label(old(self).file_name@, (old(self).label_count + 1) as nat),
            final(self).code == old(self).code,
            final(self).file_name == old(self).file_name,
            final(self).current_function == old(self).current_function,
            final(self).current_module == old(self).current_module,
            final(self).last_push == old(self).last_push,
    {
        self.label_count = self.label_count + 1;
        let mut s = String::new();
        proof {
            reveal_strlit("L_");
        }
        s.append("L_");
        push_chars(&mut s, self.file_name.as_slice());
        push_char(&mut s, '_');
        crate::text::push_dec128(&mut s, self.label_count);
        assert(s@ =~= minted_label(self.file_name@, self.label_count as nat));
        s
    }

    /// The label a local VM label is rewritten to.
    pub fn make_private_label(&self, l: &[char]) -> (s: String)
        ensures
            s@ == private_label(self.file_name@, self.current_function@, l@),
    {
        let mut s = String::new();
        push_chars(&mut s, self.file_name.as_slice());
        push_char(&mut s, '.');
        push_chars(&mut s, self.current_function.as_slice());
        push_char(&mut s, '$');
        push_chars(&mut s, l);
        assert(s@ =~= private_label(self.file_name@, self.current_function@, l@));
        s
    }

    /// Emits a call: argument count, callee address, return label, firmware.
    pub fn emit_call(&mut self, name: &[char], args: u16)
        requires
            old(self).label_count < 0xffff_ffff_ffff_ffff_ffff_ffff_ffff_ffff,
        ensures
            final(self).code_v() == old(self).code_v() + lines_call(
                name@,
                args,
                old(self).file_name@,
                old(self).label_count as nat,
            ),
            final(self).label_count == old(self).label_count + 1,
            final(self).file_name == old(self).file_name,
            final(self).current_function == old(self).current_function,
            final(self).current_module == old(self).current_module,
            final(self).last_push == old(self).last_push,
    {
        let return_label = self.make_label();
        self.write_at_num(args as u64);
        self.write("D=A");
        self.write("@R13");
        self.write("M=D");
        self.write_at_sym(name);
        self.write("D=A");
        self.write("@R14");
        self.write("M=D");
        let mut at_ret = String::new();
        push_char(&mut at_ret, '@');
        at_ret.append(return_label.as_str());
        self.write_s(at_ret);
        self.write("D=A");
        self.write("@FW__CALL");
        self.write("0;JMP");
        let mut def_ret = String::new();
        push_char(&mut def_ret, '(');
        def_ret.append(return_label.as_str());
        push_char(&mut def_ret, ')');
        self.write_s(def_ret);
        assert(final(self).code_v() =~= old(self).code_v() + lines_call(
            name@,
            args,
            old(self).file_name@,
            old(self).label_count as nat,
        ));
    }

    /// Emits the shared return jump.
    pub fn return_st(&mut self)
        ensures
            final(self).code_v() == old(self).code_v().push("@FW__RETURN"@).push("0;JMP"@),
            final(self).file_name == old(self).file_name,
            final(self).label_count == old(self).label_count,
            final(self).current_function == old(self).current_function,
            final(self).current_module == old(self).current_module,
            final(self).last_push == old(self).last_push,
    {
        self.write("@FW__RETURN");
        self.write("0;JMP");
    }

    /// Emits a binary operator.
    fn emit_op(&mut self, op: char)
        requires
            op == '+' || op == '-' || op == '&' || op == '|',
        ensures
            final(self).code_v() == old(self).code_v() + lines_binary(op),
            final(self).file_name == old(self).file_name,
            final(self).label_count == old(self).label_count,
            final(self).current_function == old(self).current_function,
            final(self).current_module == old(self).current_module,
            final(self).last_push == old(self).last_push,
    {
        self.emit_dec_load_sp();
        self.write("D=M");
        self.emit_dec_load_sp();
        let mut inst = String::new();
        proof {
            reveal_strlit("M=D");
            reveal_strlit("M");
        }
        inst.append("M=D");
        push_char(&mut inst, op);
        inst.append("M");
        assert(inst@ =~= seq!['M', '=', 'D', op, 'M']);
        self.write_s(inst);
        if op == '-' {
            self.write("M=-M");
        }
        self.write("@SP");
        self.write("M=M+1");
        assert(final(self).code_v() =~= old(self).code_v() + lines_binary(op));
    }

    /// Emits a comparison.
    fn emit_cmp(&mut self, op: ArithOp)
        requires
            old(self).label_count < 0xffff_ffff_ffff_ffff_ffff_ffff_ffff_fffe,
            op is CmpEq || op is CmpLt || op is CmpGt,
        ensures
            final(self).code_v() == old(self).code_v() + lines_cmp(
                op,
                old(self).file_name@,
                old(self).label_count as nat,
            ),
            final(self).label_count == old(self).label_count + 2,
            final(self).file_name == old(self).file_name,
            final(self).current_function == old(self).current_function,
            final(self).current_module == old(self).current_module,
            final(self).last_push == old(self).last_push,
    {
        self.emit_dec_load_sp();
        self.write("D=M");
        self.emit_dec_load_sp();
        self.write("D=D-M");
        let if_label = self.make_label();
        let exit_label = self.make_label();
        let mut at_if = String::new();
        push_char(&mut at_if, '@');
        at_if.append(if_label.as_str());
        self.write_s(at_if);
        match op {
            ArithOp::CmpEq => self.write("D;JNE"),
            ArithOp::CmpLt => self.write("D;JLE"),
            _ => self.write("D;JGE"),
        }
        self.write("D=-1");
        let mut at_exit = String::new();
        push_char(&mut at_exit, '@');
        at_exit.append(exit_label.as_str());
        self.write_s(at_exit);
        self.write("D;JMP");
        let mut def_if = String::new();
        push_char(&mut def_if, '(');
        def_if.append(if_label.as_str());
        push_char(&mut def_if, ')');
        self.write_s(def_if);
        self.write("D=0");
        let mut def_exit = String::new();
        push_char(&mut def_exit, '(');
        def_exit.append(exit_label.as_str());
        push_char(&mut def_exit, ')');
        self.write_s(def_exit);
        self.emit_push_d();
        assert(final(self).code_v() =~= old(self).code_v() + lines_cmp(
            op,
            old(self).file_name@,
            old(self).label_count as nat,
        ));
    }

    /// Emits an in-place unary operator.
    fn emit_unary(&mut self, op: ArithOp)
        requires
            op is Neg || op is BitNot,
        ensures
            final(self).code_v() == old(self).code_v() + lines_unary(op),
            final(self).file_name == old(self).file_name,
            final(self).label_count == old(self).label_count,
            final(self).current_function == old(self).current_function,
            final(self).current_module == old(self).current_module,
            final(self).last_push == old(self).last_push,
    {
        self.emit_dec_load_sp();
        match op {
            ArithOp::Neg => self.write("M=-M"),
            _ => self.write("M=!M"),
        }
        self.write("@SP");
        self.write("M=M+1");
        assert(final(self).code_v() =~= old(self).code_v() + lines_unary(op));
    }

    /// Pops into `*seg + offset` through R13.
    fn pop_to_seg_off(&mut self, seg: u16, offset: u16)
        ensures
            final(self).code_v() == old(self).code_v() + lines_pop_seg_off(seg, offset),
            final(self).file_name == old(self).file_name,
            final(self).label_count == old(self).label_count,
            final(self).current_function == old(self).current_function,
            final(self).current_module == old(self).current_module,
            final(self).last_push == old(self).last_push,
    {
        self.write_at_num(seg as u64);
        self.write("D=M");
        if offset != 0 {
            self.write_at_num(offset as u64);
            self.write("D=D+A");
        }
        self.write("@R13");
        self.write("M=D");
        self.write("@SP");
        self.write("AM=M-1");
        self.write("D=M");
        self.write("@R13");
        self.write("A=M");
        self.write("M=D");
        assert(final(self).code_v() =~= old(self).code_v() + lines_pop_seg_off(seg, offset));
    }

    /// Stores D through `*seg + offset`, via R13 and R14.
    fn d_to_seg_off(&mut self, seg: u16, offset: u16)
        ensures
            final(self).code_v() == old(self).code_v() + lines_d_seg_off(seg, offset),
            final(self).file_name == old(self).file_name,
            final(self).label_count == old(self).label_count,
            final(self).current_function == old(self).current_function,
            final(self).current_module == old(self).current_module,
            final(self).last_push == old(self).last_push,
    {
        self.write("@R14");
        self.write("M=D");
        self.write_at_num(seg as u64);
        self.write("D=M");
        if offset != 0 {
            self.write_at_num(offset as u64);
            self.write("D=D+A");
        }
        self.write("@R13");
        self.write("M=D");
        self.write("@R14");
        self.write("D=M");
        self.write("@R13");
        self.write("A=M");
        self.write("M=D");
        assert(final(self).code_v() =~= old(self).code_v() + lines_d_seg_off(seg, offset));
    }

    /// Emits a plain (unfused) pop.
    fn pop_plain(&mut self, seg: Segment, index: u16)
        ensures
            final(self).code_v() == old(self).code_v() + lines_pop(
                seg,
                index,
                old(self).current_module@,
            ),
            final(self).file_name == old(self).file_name,
            final(self).label_count == old(self).label_count,
            final(self).current_function == old(self).current_function,
            final(self).current_module == old(self).current_module,
            final(self).last_push == old(self).last_push,
    {
        match seg {
            Segment::Local => self.pop_to_seg_off(constants::LCL, index),
            Segment::Argument => self.pop_to_seg_off(constants::ARG, index),
            Segment::This => self.pop_to_seg_off(constants::THIS, index),
            Segment::That => self.pop_to_seg_off(constants::THAT, index),
            Segment::Temp => {
                self.emit_dec_load_sp();
                self.write("D=M");
                let addr = constants::TEMP.wrapping_add(index);
                proof {
                    assert(addr == (constants::TEMP + index) as u16) by (bit_vector)
                        requires
                            addr == (constants::TEMP as u16).wrapping_add(index),
                            constants::TEMP == 5u16,
                    ;
                }
                self.write_at_num(addr as u64);
                self.write("M=D");
            },
            Segment::Pointer => {
                self.emit_dec_load_sp();
                self.write("D=M");
                let addr = constants::POINTER.wrapping_add(index);
                proof {
                    assert(addr == (constants::POINTER + index) as u16) by (bit_vector)
                        requires
                            addr == (constants::POINTER as u16).wrapping_add(index),
                            constants::POINTER == 3u16,
                    ;
                }
                self.write_at_num(addr as u64);
                self.write("M=D");
            },
            Segment::Static => {
                self.emit_dec_load_sp();
                self.write("D=M");
                self.write_at_static(index);
                self.write("M=D");
            },
            Segment::Constant => {},
        }
        assert(final(self).code_v() =~= old(self).code_v() + lines_pop(
            seg,
            index,
            old(self).current_module@,
        ));
    }

    /// Stores D into what a pop names, without touching the stack.
    fn d_store(&mut self, seg: Segment, index: u16)
        ensures
            final(self).code_v() == old(self).code_v() + lines_d_store(
                seg,
                index,
                old(self).current_module@,
            ),
            final(self).file_name == old(self).file_name,
            final(self).label_count == old(self).label_count,
            final(self).current_function == old(self).current_function,
            final(self).current_module == old(self).current_module,
            final(self).last_push == old(self).last_push,
    {
        match seg {
            Segment::Local => self.d_to_seg_off(constants::LCL, index),
            Segment::Argument => self.d_to_seg_off(constants::ARG, index),
            Segment::This => self.d_to_seg_off(constants::THIS, index),
            Segment::That => self.d_to_seg_off(constants::THAT, index),
            Segment::Temp => {
                let addr = constants::TEMP.wrapping_add(index);
                proof {
                    assert(addr == (constants::TEMP + index) as u16) by (bit_vector)
                        requires
                            addr == (constants::TEMP as u16).wrapping_add(index),
                            constants::TEMP == 5u16,
                    ;
                }
                self.write_at_num(addr as u64);
                self.write("M=D");
            },
            Segment::Pointer => {
                let addr = constants::POINTER.wrapping_add(index);
                proof {
                    assert(addr == (constants::POINTER + index) as u16) by (bit_vector)
                        requires
                            addr == (constants::POINTER as u16).wrapping_add(index),
                            constants::POINTER == 3u16,
                    ;
                }
                self.write_at_num(addr as u64);
                self.write("M=D");
            },
            Segment::Static => {
                self.write_at_static(index);
                self.write("M=D");
            },
            Segment::Constant => {},
        }
        assert(final(self).code_v() =~= old(self).code_v() + lines_d_store(
            seg,
            index,
            old(self).current_module@,
        ));
    }

    /// The bootstrap preamble: set SP to 256 and call the entry function.
    pub fn bootstrap(&mut self)
        requires
            old(self).label_count < 0xffff_ffff_ffff_ffff_ffff_ffff_ffff_ffff,
        ensures
            final(self).code_v() == old(self).code_v() + seq![
                "@256"@,
                "D=A"@,
                "@SP"@,
                "M=D"@,
            ] + lines_call("Sys.init"@, 0, "Sys"@, old(self).label_count as nat),
            final(self).file_name@ == "Sys"@,
            final(self).label_count == old(self).label_count + 1,
            final(self).current_function == old(self).current_function,
            final(self).current_module == old(self).current_module,
            final(self).last_push == old(self).last_push,
    {
        self.write("@256");
        self.write("D=A");
        self.write("@SP");
        self.write("M=D");
        self.file_name = crate::text::chars_of("Sys");
        let callee = crate::text::chars_of("Sys.init");
        self.emit_call(callee.as_slice(), 0);
        assert(final(self).code_v() =~= old(self).code_v() + seq![
            "@256"@,
            "D=A"@,
            "@SP"@,
            "M=D"@,
        ] + lines_call("Sys.init"@, 0, "Sys"@, old(self).label_count as nat));
    }

    /// Emits the shared return routine.
    #[verifier::rlimit(100)]
    fn emit_fw_return(&mut self)
        ensures
            final(self).code_v() == old(self).code_v() + fw_return_lines(),
            final(self).file_name == old(self).file_name,
            final(self).label_count == old(self).label_count,
            final(self).current_function == old(self).current_function,
            final(self).current_module == old(self).current_module,
            final(self).last_push == old(self).last_push,
    {
        self.write("(FW__RETURN)");
        self.write("@LCL");
        self.write("D=M");
        self.write("@R13");
        self.write("M=D");
        self.write("@5");
        self.write("A=D-A");
        self.write("D=M");
        self.write("@R14");
        self.write("M=D");
        self.emit_dec_load_sp();
        self.write("D=M");
        self.write("@ARG");
        self.write("A=M");
        self.write("M=D");
        self.write("@ARG");
        self.write("D=M+1");
        self.write("@SP");
        self.write("M=D");
        self.write("@R13");
        self.write("D=M");
        self.write("A=D-1");
        self.write("D=M");
        self.write("@THAT");
        self.write("M=D");
        self.write("@2");
        self.write("D=A");
        self.write("@R13");
        self.write("A=M-D");
        self.write("D=M");
        self.write("@THIS");
        self.write("M=D");
        self.write("@3");
        self.write("D=A");
        self.write("@R13");
        self.write("A=M-D");
        self.write("D=M");
        self.write("@ARG");
        self.write("M=D");
        self.write("@4");
        self.write("D=A");
        self.write("@R13");
        self.write("A=M-D");
        self.write("D=M");
        self.write("@LCL");
        self.write("M=D");
        self.write("@R14");
        self.write("A=M");
        self.write("0;JMP");
        assert(final(self).code_v() =~= old(self).code_v() + fw_return_lines());
    }

    /// Emits the shared call routine.
    #[verifier::rlimit(100)]
    fn emit_fw_call(&mut self)
        ensures
            final(self).code_v() == old(self).code_v() + fw_call_lines(),
            final(self).file_name == old(self).file_name,
            final(self).label_count == old(self).label_count,
            final(self).current_function == old(self).current_function,
            final(self).current_module == old(self).current_module,
            final(self).last_push == old(self).last_push,
    {
        self.write("(FW__CALL)");
        self.emit_push_d();
        self.write("@LCL");
        self.write("D=M");
        self.emit_push_d();
        self.write("@ARG");
        self.write("D=M");
        self.emit_push_d();
        self.write("@THIS");
        self.write("D=M");
        self.emit_push_d();
        self.write("@THAT");
        self.write("D=M");
        self.emit_push_d();
        self.write("@SP");
        self.write("D=M");
        self.write("@5");
        self.write("D=D-A");
        self.write("@R13");
        self.write("D=D-M");
        self.write("@ARG");
        self.write("M=D");
        self.write("@SP");
        self.write("D=M");
        self.write("@LCL");
        self.write("M=D");
        self.write("@R14");
        self.write("A=M");
        self.write("0;JMP");
        assert(final(self).code_v() =~= old(self).code_v() + fw_call_lines());
    }

    /// Emits the shared call/return firmware at the end of the output.
    pub fn emit_firmware(&mut self)
        ensures
            final(self).code_v() == old(self).code_v() + firmware_lines(),
            final(self).file_name == old(self).file_name,
            final(self).label_count == old(self).label_count,
            final(self).current_function == old(self).current_function,
            final(self).current_module == old(self).current_module,
            final(self).last_push == old(self).last_push,
    {
        self.emit_fw_return();
        self.emit_fw_call();
        assert(final(self).code_v() =~= old(self).code_v() + firmware_lines());
    }

    /// Translates a whole VM text: classifies every line and makes the
    /// lowering pass described by `vm_fold`, echoing each statement as a
    /// comment above its code, rewriting local labels, and applying the
    /// two peephole fusions. Debug-marker comments are kept; when one
    /// arrives between a push and its fused successor it is placed before
    /// the pending push so that fusion still applies across it.
    #[verifier::rlimit(100)]
    pub fn run(&mut self, source: &str, file_name: &str) -> (r: Result<(), VmError>)
        requires
            old(self).last_push is None,
            old(self).label_count + 2 * spec_lines(source@).len() < 0xffff_ffff_ffff_ffff_ffff_ffff_ffff_ffff,
        ensures
            match r {
                Ok(()) => final(self).st() == vm_fold(
                    VmSt {
                        code: code_view(old(self).code@),
                        file: file_name@,
                        func: Seq::empty(),
                        module: Seq::empty(),
                        count: old(self).label_count as nat,
                        last: None,
                    },
                    vm_lines(source@),
                ),
                Err(VmError::Syntax { line }) => {
                    &&& 0 <= line < vm_lines(source@).len()
                    &&& vm_lines(source@)[line as int].1 is Bad
                    &&& forall|j: int|
                        0 <= j < line ==> !((#[trigger] vm_lines(source@)[j]).1 is Bad)
                    &&& *final(self) == *old(self)
                },
            },
    {
        let ghost pairs = vm_lines(source@);
        let chars = crate::text::chars_of(source);
        let raw_lines = crate::text::split_lines(&chars);
        proof {
            assert(raw_lines@.map_values(|l: Vec<char>| l@) == spec_lines(source@));
        }
        let mut items: Vec<VmItem> = Vec::new();
        let mut trimmed: Vec<Vec<char>> = Vec::new();
        let n = raw_lines.len();
        assert(n == pairs.len());
        let mut i: usize = 0;
        while i < n
            invariant
                i <= n == raw_lines@.len(),
                pairs == vm_lines(source@),
                raw_lines@.map_values(|l: Vec<char>| l@) == spec_lines(source@),
                pairs.len() == n,
                items@.len() == i,
                trimmed@.len() == i,
                forall|j: int|
                    0 <= j < i ==> !((#[trigger] pairs[j]).1 is Bad) && items@[j]@ == pairs[j].1
                        && trimmed@[j]@ == pairs[j].0,
                *self == *old(self),
            decreases n - i,
        {
            let t = crate::text::trim_chars(&raw_lines[i]);
            proof {
                assert(raw_lines@.map_values(|l: Vec<char>| l@)[i as int] == raw_lines@[i as int]@);
            }
            match VMParser::parse_line(t.as_slice()) {
                Some(it) => {
                    items.push(it);
                    trimmed.push(t);
                },
                None => {
                    return Err(VmError::Syntax { line: i });
                },
            }
            i = i + 1;
        }
        self.file_name = crate::text::chars_of(file_name);
        self.current_function = Vec::new();
        self.current_module = Vec::new();
        let ghost st0 = VmSt {
            code: code_view(old(self).code@),
            file: file_name@,
            func: Seq::empty(),
            module: Seq::empty(),
            count: old(self).label_count as nat,
            last: None,
        };
        proof {
            assert(pairs.take(0) =~= Seq::<(Seq<char>, VmItemV)>::empty());
            assert(self.current_function@ =~= Seq::<char>::empty());
            assert(self.current_module@ =~= Seq::<char>::empty());
            assert(self.st() == st0);
        }
        let mut i: usize = 0;
        while i < n
            invariant
                i <= n,
                pairs == vm_lines(source@),
                st0 == (VmSt {
                    code: code_view(old(self).code@),
                    file: file_name@,
                    func: Seq::empty(),
                    module: Seq::empty(),
                    count: old(self).label_count as nat,
                    last: None,
                }),
                pairs.len() == n,
                items@.len() == n,
                trimmed@.len() == n,
                forall|j: int|
                    0 <= j < n ==> !((#[trigger] pairs[j]).1 is Bad) && items@[j]@ == pairs[j].1
                        && trimmed@[j]@ == pairs[j].0,
                self.st() == vm_fold(st0, pairs.take(i as int)),
                fusion_wf(self.st()),
                self.label_count as int <= old(self).label_count + 2 * i,
                old(self).label_count + 2 * n < 0xffff_ffff_ffff_ffff_ffff_ffff_ffff_ffff,
            decreases n - i,
        {
            let ghost m = vm_fold(st0, pairs.take(i as int));
            proof {
                assert(pairs.take(i + 1).drop_last() =~= pairs.take(i as int));
                assert(pairs.take(i + 1).last() == pairs[i as int]);
                lemma_vm_fold_snoc(st0, pairs, i as int);
            }
            let line_len = trimmed[i].len();
            let raw = crate::assembler::parse::subvec(trimmed[i].as_slice(), 0, line_len);
            assert(raw@ =~= pairs[i as int].0);
            let mut echo_line = String::new();
            proof {
                reveal_strlit("// ");
            }
            echo_line.append("// ");
            push_chars(&mut echo_line, raw.as_slice());
            assert(echo_line@ =~= echo(raw@));
            match &items[i] {
                VmItem::Blank => {},
                VmItem::PdbComment => {
                    match self.last_push {
                        Some((psg, pix, off)) => {
                            let txt = string_of(raw.as_slice());
                            self.code.insert(off, txt);
                            let cur_len = self.code.len();
                            assert(off < cur_len);
                            self.last_push = Some((psg, pix, off + 1));
                            proof {
                                assert(self.code_v() =~= m.code.insert(off as int, raw@));
                            }
                        },
                        None => {
                            let txt = string_of(raw.as_slice());
                            self.code.push(txt);
                            proof {
                                assert(self.code_v() =~= m.code.push(raw@));
                            }
                        },
                    }
                },
                VmItem::Push(seg, index) => {
                    let seg = *seg;
                    let index = *index;
                    self.write_s(echo_line);
                    let off = self.code.len();
                    self.last_push = Some((seg, index, off));
                    self.emit_seg_d(seg, index);
                    self.emit_push_d();
                    proof {
                        assert(self.code_v() =~= m.code.push(echo(raw@)) + lines_seg_d(
                            seg,
                            index,
                            m.module,
                        ) + lines_push_d());
                        assert(self.code_v().skip(off as int) =~= lines_seg_d(seg, index, m.module)
                            + lines_push_d());
                    }
                },
                VmItem::Pop(seg, index) => {
                    let seg = *seg;
                    let index = *index;
                    self.write_s(echo_line);
                    match self.last_push {
                        Some((psg, pix, off)) => {
                            let ghost c1 = self.code_v();
                            self.code.truncate(off);
                            proof {
                                assert(self.code_v() =~= c1.take(off as int));
                            }
                            self.last_push = None;
                            self.emit_seg_d(psg, pix);
                            let mut echo2 = String::new();
                            proof {
                                reveal_strlit("// ");
                            }
                            echo2.append("// ");
                            push_chars(&mut echo2, raw.as_slice());
                            assert(echo2@ =~= echo(raw@));
                            self.write_s(echo2);
                            self.d_store(seg, index);
                            proof {
                                assert(self.code_v() =~= m.code.push(echo(raw@)).take(
                                    m.last->Some_0.2 as int,
                                ) + lines_seg_d(psg, pix, m.module) + seq![echo(raw@)]
                                    + lines_d_store(seg, index, m.module));
                            }
                        },
                        None => {
                            self.pop_plain(seg, index);
                            proof {
                                assert(self.code_v() =~= m.code.push(echo(raw@)) + lines_pop(
                                    seg,
                                    index,
                                    m.module,
                                ));
                            }
                        },
                    }
                },
                VmItem::Arith(op) => {
                    let op = *op;
                    self.write_s(echo_line);
                    match op {
                        ArithOp::Plus => {
                            let mut fused = false;
                            let mut fval: u16 = 0;
                            let mut foff: usize = 0;
                            match self.last_push {
                                Some((Segment::Constant, pix, off)) => {
                                    if pix >= 0 {
                                        fused = true;
                                        fval = pix as u16;
                                        foff = off;
                                    }
                                },
                                _ => {},
                            }
                            if fused {
                                let ghost c1 = self.code_v();
                                self.code.truncate(foff);
                                proof {
                                    assert(self.code_v() =~= c1.take(foff as int));
                                }
                                self.last_push = None;
                                self.write_at_num(fval as u64);
                                self.write("D=A");
                                let mut echo2 = String::new();
                                proof {
                                    reveal_strlit("// ");
                                }
                                echo2.append("// ");
                                push_chars(&mut echo2, raw.as_slice());
                                assert(echo2@ =~= echo(raw@));
                                self.write_s(echo2);
                                self.write("@SP");
                                self.write("A=M-1");
                                self.write("M=D+M");
                                proof {
                                    assert(self.code_v() =~= m.code.push(echo(raw@)).take(
                                        m.last->Some_0.2 as int,
                                    ) + lines_fast_plus((m.last->Some_0.1) as u16, raw@));
                                }
                            } else {
                                self.last_push = None;
                                self.emit_op('+');
                                proof {
                                    assert(self.code_v() =~= m.code.push(echo(raw@))
                                        + lines_binary('+'));
                                }
                            }
                        },
                        ArithOp::Minus => {
                            self.last_push = None;
                            self.emit_op('-');
                            proof {
                                assert(self.code_v() =~= m.code.push(echo(raw@)) + lines_binary(
                                    '-',
                                ));
                            }
                        },
                        ArithOp::BitAnd => {
                            self.last_push = None;
                            self.emit_op('&');
                            proof {
                                assert(self.code_v() =~= m.code.push(echo(raw@)) + lines_binary(
                                    '&',
                                ));
                            }
                        },
                        ArithOp::BitOr => {
                            self.last_push = None;
                            self.emit_op('|');
                            proof {
                                assert(self.code_v() =~= m.code.push(echo(raw@)) + lines_binary(
                                    '|',
                                ));
                            }
                        },
                        ArithOp::Neg => {
                            self.last_push = None;
                            self.emit_unary(ArithOp::Neg);
                            proof {
                                assert(self.code_v() =~= m.code.push(echo(raw@)) + lines_unary(
                                    ArithOp::Neg,
                                ));
                            }
                        },
                        ArithOp::BitNot => {
                            self.last_push = None;
                            self.emit_unary(ArithOp::BitNot);
                            proof {
                                assert(self.code_v() =~= m.code.push(echo(raw@)) + lines_unary(
                                    ArithOp::BitNot,
                                ));
                            }
                        },
                        _ => {
                            self.last_push = None;
                            self.emit_cmp(op);
                            proof {
                                assert(self.code_v() =~= m.code.push(echo(raw@)) + lines_cmp(
                                    op,
                                    m.file,
                                    m.count,
                                ));
                            }
                        },
                    }
                },
                VmItem::Label(l) => {
                    self.write_s(echo_line);
                    self.last_push = None;
                    let plabel = self.make_private_label(l.as_slice());
                    let mut def = String::new();
                    push_char(&mut def, '(');
                    def.append(plabel.as_str());
                    push_char(&mut def, ')');
                    assert(def@ =~= paren(private_label(m.file, m.func, l@)));
                    self.write_s(def);
                },
                VmItem::Goto(l) => {
                    self.write_s(echo_line);
                    self.last_push = None;
                    let plabel = self.make_private_label(l.as_slice());
                    let mut jmp = String::new();
                    push_char(&mut jmp, '@');
                    jmp.append(plabel.as_str());
                    assert(jmp@ =~= at_sym(private_label(m.file, m.func, l@)));
                    self.write_s(jmp);
                    self.write("0;JMP");
                },
                VmItem::IfGoto(l) => {
                    self.write_s(echo_line);
                    self.last_push = None;
                    self.emit_dec_load_sp();
                    self.write("D=M");
                    let plabel = self.make_private_label(l.as_slice());
                    let mut jmp = String::new();
                    push_char(&mut jmp, '@');
                    jmp.append(plabel.as_str());
                    assert(jmp@ =~= at_sym(private_label(m.file, m.func, l@)));
                    self.write_s(jmp);
                    self.write("D;JNE");
                    proof {
                        assert(self.code_v() =~= m.code.push(echo(raw@)) + lines_dec_load_sp()
                            + seq![
                            "D=M"@,
                            at_sym(private_label(m.file, m.func, l@)),
                            "D;JNE"@,
                        ]);
                    }
                },
                VmItem::Function(f, k) => {
                    let k = *k;
                    self.write_s(echo_line);
                    self.last_push = None;
                    let mut def = String::new();
                    push_char(&mut def, '(');
                    push_chars(&mut def, f.as_slice());
                    push_char(&mut def, ')');
                    assert(def@ =~= paren(f@));
                    self.write_s(def);
                    let flen = f.len();
                    self.current_function = crate::assembler::parse::subvec(f.as_slice(), 0, flen);
                    assert(self.current_function@ =~= f@);
                    match crate::assembler::parse::find_char_at(f.as_slice(), '.') {
                        Some(d) => {
                            self.current_module = crate::assembler::parse::subvec(
                                f.as_slice(),
                                0,
                                d,
                            );
                            assert(self.current_module@ =~= module_of(f@));
                        },
                        None => {
                            self.current_module = crate::assembler::parse::subvec(
                                f.as_slice(),
                                0,
                                flen,
                            );
                            assert(self.current_module@ =~= module_of(f@));
                        },
                    }
                    let ghost base = self.code_v();
                    let ghost fname0 = self.file_name@;
                    let ghost count0 = self.label_count;
                    let ghost func0 = self.current_function@;
                    let ghost mod0 = self.current_module@;
                    let mut j: u16 = 0;
                    while j < k
                        invariant
                            j <= k,
                            self.code_v() == base + lines_locals(j as nat),
                            self.file_name@ == fname0,
                            self.label_count == count0,
                            self.current_function@ == func0,
                            self.current_module@ == mod0,
                            self.last_push is None,
                        decreases k - j,
                    {
                        self.emit_const_d(0);
                        self.emit_push_d();
                        proof {
                            assert(self.code_v() =~= base + lines_locals((j + 1) as nat));
                        }
                        j = j + 1;
                    }
                    proof {
                        assert(self.code_v() =~= m.code.push(echo(raw@)).push(paren(f@))
                            + lines_locals(k as nat));
                    }
                },
                VmItem::Call(f, nargs) => {
                    let nargs = *nargs;
                    self.write_s(echo_line);
                    self.last_push = None;
                    self.emit_call(f.as_slice(), nargs);
                    proof {
                        assert(self.code_v() =~= m.code.push(echo(raw@)) + lines_call(
                            f@,
                            nargs,
                            m.file,
                            m.count,
                        ));
                    }
                },
                VmItem::Return => {
                    self.write_s(echo_line);
                    self.last_push = None;
                    self.return_st();
                },
            }
            proof {
                assert(items@[i as int]@ == pairs[i as int].1);
                let mnext = vm_step(m, pairs[i as int].1, pairs[i as int].0);
                assert(self.st() == mnext) by {
                    assert(self.code_v() =~= mnext.code);
                    assert(self.current_function@ =~= mnext.func);
                    assert(self.current_module@ =~= mnext.module);
                }
                assert(fusion_wf(self.st())) by {
                    if self.st().last is Some {
                        if pairs[i as int].1 is Push {
                            assert(self.st().code.skip(self.st().last->Some_0.2 as int)
                                =~= lines_seg_d(
                                self.st().last->Some_0.0,
                                self.st().last->Some_0.1,
                                self.st().module,
                            ) + lines_push_d());
                        } else if pairs[i as int].1 is PdbComment {
                            assert(self.st().code.skip(self.st().last->Some_0.2 as int)
                                =~= m.code.skip(m.last->Some_0.2 as int));
                        }
                    }
                }
            }
            i = i + 1;
        }
        proof {
            assert(pairs.take(n as int) =~= pairs);
        }
        Ok(())
    }

    /// The whole output as one text, lines joined with newlines.
    pub fn output_code(&self) -> (s: String)
        ensures
            self.code_v().len() == 0 ==> s@ == Seq::<char>::empty(),
            self.code_v().len() > 0 ==> s@ == crate::text::join_lines(self.code_v()),
    {
        let mut s = String::new();
        let n = self.code.len();
        let mut i: usize = 0;
        while i < n
            invariant
                i <= n == self.code@.len(),
                i == 0 ==> s@ == Seq::<char>::empty(),
                i > 0 ==> s@ == crate::text::join_lines(self.code_v().take(i as int)),
            decreases n - i,
        {
            if i > 0 {
                push_char(&mut s, '\n');
            }
            let ghost pre = self.code_v().take(i as int);
            s.append(self.code[i].as_str());
            proof {
                if i > 0 {
                    crate::text::lemma_join_snoc(pre, self.code_v()[i as int]);
                    assert(pre.push(self.code_v()[i as int]) =~= self.code_v().take(i + 1));
                } else {
                    assert(self.code_v().take(1)[0] == self.code_v()[0]);
                }
            }
            i = i + 1;
        }
        proof {
            if n > 0 {
                assert(self.code_v().take(n as int) =~= self.code_v());
            }
        }
        s
    }
}

// ---------------------------------------------------------------------------
// Laws
// ---------------------------------------------------------------------------

/// How one emitted line moves SP: all emitted SP arithmetic uses exactly
/// these three instructions, always addressed at SP.
pub open spec fn sp_line_delta(l: Seq<char>) -> int {
    if l == "M=M+1"@ {
        1
    } else if l == "M=M-1"@ {
        -1
    } else if l == "AM=M-1"@ {
        -1
    } else {
        0
    }
}

/// The net SP movement of a line sequence.
pub open spec fn sp_net(ls: Seq<Seq<char>>) -> int
    decreases ls.len(),
{
    if ls.len() == 0 {
        0
    } else {
        sp_net(ls.drop_last()) + sp_line_delta(ls.last())
    }
}

/// The compile-time stack delta of a VM statement whose SP motion is
/// emitted inline. Calls and returns delegate their motion to the shared
/// firmware and are excluded.
pub open spec fn vm_stack_delta(item: VmItemV) -> int {
    match item {
        VmItemV::Push(_, _) => 1,
        VmItemV::Pop(_, _) => -1,
        VmItemV::Arith(op) => match op {
            ArithOp::Neg => 0,
            ArithOp::BitNot => 0,
            _ => -1,
        },
        VmItemV::Label(_) => 0,
        VmItemV::Goto(_) => 0,
        VmItemV::IfGoto(_) => -1,
        VmItemV::Function(_, k) => k as int,
        VmItemV::Blank => 0,
        _ => 0,
    }
}

/// Net SP movement adds over concatenation.
proof fn lemma_sp_net_concat(a: Seq<Seq<char>>, b: Seq<Seq<char>>)
    ensures
        sp_net(a + b) == sp_net(a) + sp_net(b),
    decreases b.len(),
{
    if b.len() == 0 {
        assert(a + b =~= a);
    } else {
        assert((a + b).drop_last() =~= a + b.drop_last());
        assert((a + b).last() == b.last());
        lemma_sp_net_concat(a, b.drop_last());
    }
}

/// A line starting with `@`, `(`, `/` or `D` never moves SP.
proof fn lemma_sp_inert(l: Seq<char>)
    requires
        l.len() > 0,
        l[0] == '@' || l[0] == '(' || l[0] == '/' || l[0] == 'D',
    ensures
        sp_line_delta(l) == 0,
{
    lemma_line_facts();
}

/// Lengths and leading characters of the emitted instruction literals,
/// fixing which lines move SP.
proof fn lemma_line_facts()
    ensures
        "M=M+1"@.len() == 5 && "M=M+1"@[0] == 'M' && "M=M+1"@[2] == 'M' && "M=M+1"@[3] == '+',
        "M=M-1"@.len() == 5 && "M=M-1"@[0] == 'M' && "M=M-1"@[2] == 'M' && "M=M-1"@[3] == '-',
        "AM=M-1"@.len() == 6 && "AM=M-1"@[0] == 'A',
        "@SP"@.len() == 3 && "@SP"@[0] == '@',
        "A=M"@.len() == 3,
        "M=D"@.len() == 3,
        "D=M"@.len() == 3,
        "D=A"@.len() == 3,
        "D=-A"@.len() == 4,
        "A=D+A"@.len() == 5 && "A=D+A"@[0] == 'A',
        "D=D+A"@.len() == 5 && "D=D+A"@[0] == 'D',
        "M=-M"@.len() == 4,
        "M=!M"@.len() == 4,
        "@R13"@.len() == 4 && "@R13"@[0] == '@',
        "@R14"@.len() == 4 && "@R14"@[0] == '@',
        "D=D-M"@.len() == 5 && "D=D-M"@[0] == 'D',
        "D=-1"@.len() == 4,
        "D=0"@.len() == 3,
        "D;JNE"@.len() == 5 && "D;JNE"@[0] == 'D',
        "D;JLE"@.len() == 5 && "D;JLE"@[0] == 'D',
        "D;JGE"@.len() == 5 && "D;JGE"@[0] == 'D',
        "D;JMP"@.len() == 5 && "D;JMP"@[0] == 'D',
        "0;JMP"@.len() == 5 && "0;JMP"@[0] == '0',
        "A=M-1"@.len() == 5 && "A=M-1"@[0] == 'A',
        "M=D+M"@.len() == 5 && "M=D+M"@[2] == 'D',
        "M=M+1"@[1] == '=',
        "D=M+1"@.len() == 5 && "D=M+1"@[0] == 'D',
        "A=D-A"@.len() == 5 && "A=D-A"@[0] == 'A',
        "A=D-1"@.len() == 5 && "A=D-1"@[0] == 'A',
        "A=M-D"@.len() == 5 && "A=M-D"@[0] == 'A',
        "@FW__RETURN"@.len() == 11 && "@FW__RETURN"@[0] == '@',
{
    reveal_strlit("M=M+1");
    reveal_strlit("M=M-1");
    reveal_strlit("AM=M-1");
    reveal_strlit("@SP");
    reveal_strlit("A=M");
    reveal_strlit("M=D");
    reveal_strlit("D=M");
    reveal_strlit("D=A");
    reveal_strlit("D=-A");
    reveal_strlit("A=D+A");
    reveal_strlit("D=D+A");
    reveal_strlit("M=-M");
    reveal_strlit("M=!M");
    reveal_strlit("@R13");
    reveal_strlit("@R14");
    reveal_strlit("D=D-M");
    reveal_strlit("D=-1");
    reveal_strlit("D=0");
    reveal_strlit("D;JNE");
    reveal_strlit("D;JLE");
    reveal_strlit("D;JGE");
    reveal_strlit("D;JMP");
    reveal_strlit("0;JMP");
    reveal_strlit("A=M-1");
    reveal_strlit("M=D+M");
    reveal_strlit("D=M+1");
    reveal_strlit("A=D-A");
    reveal_strlit("A=D-1");
    reveal_strlit("A=M-D");
    reveal_strlit("@FW__RETURN");
}

/// In a sequence with at most one SP-moving line, the net movement is that
/// line's.
proof fn lemma_sp_single(ls: Seq<Seq<char>>, j: int)
    requires
        0 <= j < ls.len(),
        forall|k: int| 0 <= k < ls.len() && k != j ==> sp_line_delta(#[trigger] ls[k]) == 0,
    ensures
        sp_net(ls) == sp_line_delta(ls[j]),
    decreases ls.len(),
{
    if j == ls.len() - 1 {
        assert forall|k: int| 0 <= k < ls.drop_last().len() implies sp_line_delta(
            #[trigger] ls.drop_last()[k],
        ) == 0 by {
            assert(ls.drop_last()[k] == ls[k]);
        }
        lemma_sp_all_inert(ls.drop_last());
    } else {
        assert forall|k: int|
            0 <= k < ls.drop_last().len() && k != j implies sp_line_delta(
            #[trigger] ls.drop_last()[k],
        ) == 0 by {
            assert(ls.drop_last()[k] == ls[k]);
        }
        assert(ls.drop_last()[j] == ls[j]);
        lemma_sp_single(ls.drop_last(), j);
        assert(sp_line_delta(ls.last()) == 0);
    }
}

proof fn lemma_sp_push_d()
    ensures
        sp_net(lines_push_d()) == 1,
{
    lemma_line_facts();
    reveal_strlit("M=M+1");
    reveal_strlit("M=M-1");
    reveal_strlit("AM=M-1");
    reveal_strlit("@SP");
    reveal_strlit("A=M");
    reveal_strlit("M=D");
    let ls = lines_push_d();
    assert(sp_line_delta(ls[0]) == 0);
    assert(sp_line_delta(ls[1]) == 0);
    assert(sp_line_delta(ls[2]) == 0);
    assert(sp_line_delta(ls[3]) == 0);
    assert(sp_line_delta(ls[4]) == 1);
    lemma_sp_single(ls, 4);
}

proof fn lemma_sp_dec_load()
    ensures
        sp_net(lines_dec_load_sp()) == -1,
{
    lemma_line_facts();
    reveal_strlit("M=M+1");
    reveal_strlit("M=M-1");
    reveal_strlit("AM=M-1");
    reveal_strlit("@SP");
    reveal_strlit("A=M");
    let ls = lines_dec_load_sp();
    assert(sp_line_delta(ls[0]) == 0);
    assert(sp_line_delta(ls[1]) == -1);
    assert(sp_line_delta(ls[2]) == 0);
    lemma_sp_single(ls, 1);
}

/// A line starting with `@`, `(`, `/`, `D`, or `A` (other than the SP
/// decrement) never moves SP.
proof fn lemma_sp_inert_wide(l: Seq<char>)
    requires
        l.len() > 0,
        l[0] == '@' || l[0] == '(' || l[0] == '/' || l[0] == 'D' || (l[0] == 'A' && l != "AM=M-1"@)
            || (l[0] == 'M' && l.len() < 5),
    ensures
        sp_line_delta(l) == 0,
{
    lemma_line_facts();
}

proof fn lemma_sp_all_inert(ls: Seq<Seq<char>>)
    requires
        forall|k: int| 0 <= k < ls.len() ==> sp_line_delta(#[trigger] ls[k]) == 0,
    ensures
        sp_net(ls) == 0,
    decreases ls.len(),
{
    if ls.len() > 0 {
        assert forall|k: int| 0 <= k < ls.drop_last().len() implies sp_line_delta(
            #[trigger] ls.drop_last()[k],
        ) == 0 by {
            assert(ls.drop_last()[k] == ls[k]);
        }
        lemma_sp_all_inert(ls.drop_last());
    }
}

proof fn lemma_sp_seg_d(seg: Segment, i: i16, module: Seq<char>)
    ensures
        sp_net(lines_seg_d(seg, i, module)) == 0,
{
    reveal_strlit("M=M+1");
    reveal_strlit("M=M-1");
    reveal_strlit("AM=M-1");
    reveal_strlit("D=M");
    reveal_strlit("D=A");
    reveal_strlit("D=-A");
    reveal_strlit("A=D+A");
    lemma_line_facts();
    let ls = lines_seg_d(seg, i, module);
    assert forall|k: int| 0 <= k < ls.len() implies sp_line_delta(#[trigger] ls[k]) == 0 by {
        lemma_sp_inert_wide(ls[k]);
    }
    lemma_sp_all_inert(ls);
}

proof fn lemma_sp_d_store(seg: Segment, i: u16, module: Seq<char>)
    ensures
        sp_net(lines_d_store(seg, i, module)) == 0,
{
    reveal_strlit("M=M+1");
    reveal_strlit("M=M-1");
    reveal_strlit("AM=M-1");
    reveal_strlit("D=M");
    reveal_strlit("D=D+A");
    reveal_strlit("M=D");
    reveal_strlit("@R13");
    reveal_strlit("@R14");
    reveal_strlit("A=M");
    lemma_line_facts();
    let ls = lines_d_store(seg, i, module);
    assert forall|k: int| 0 <= k < ls.len() implies sp_line_delta(#[trigger] ls[k]) == 0 by {
        lemma_sp_inert_wide(ls[k]);
    }
    lemma_sp_all_inert(ls);
}

proof fn lemma_sp_pop(seg: Segment, i: u16, module: Seq<char>)
    requires
        !(seg is Constant),
    ensures
        sp_net(lines_pop(seg, i, module)) == -1,
{
    reveal_strlit("M=M+1");
    reveal_strlit("M=M-1");
    reveal_strlit("AM=M-1");
    reveal_strlit("D=M");
    reveal_strlit("D=D+A");
    reveal_strlit("M=D");
    reveal_strlit("@R13");
    reveal_strlit("@SP");
    reveal_strlit("A=M");
    lemma_line_facts();
    match seg {
        Segment::Local | Segment::Argument | Segment::This | Segment::That => {
            let base: u16 = match seg {
                Segment::Local => constants::LCL,
                Segment::Argument => constants::ARG,
                Segment::This => constants::THIS,
                _ => constants::THAT,
            };
            let ls = lines_pop_seg_off(base, i);
            assert(lines_pop(seg, i, module) == ls);
            if i != 0 {
                assert(ls =~= seq![at_num(base as nat), "D=M"@, at_num(i as nat), "D=D+A"@,
                    "@R13"@, "M=D"@, "@SP"@, "AM=M-1"@, "D=M"@, "@R13"@, "A=M"@, "M=D"@]);
                assert forall|k: int| 0 <= k < ls.len() && k != 7 implies sp_line_delta(
                    #[trigger] ls[k],
                ) == 0 by {
                    lemma_sp_inert_wide(ls[k]);
                }
                assert(sp_line_delta(ls[7]) == -1);
                lemma_sp_single(ls, 7);
            } else {
                assert(ls =~= seq![at_num(base as nat), "D=M"@, "@R13"@, "M=D"@, "@SP"@,
                    "AM=M-1"@, "D=M"@, "@R13"@, "A=M"@, "M=D"@]);
                assert forall|k: int| 0 <= k < ls.len() && k != 5 implies sp_line_delta(
                    #[trigger] ls[k],
                ) == 0 by {
                    lemma_sp_inert_wide(ls[k]);
                }
                assert(sp_line_delta(ls[5]) == -1);
                lemma_sp_single(ls, 5);
            }
        },
        _ => {
            lemma_sp_dec_load();
            let tail = lines_pop(seg, i, module).skip(3);
            assert(lines_pop(seg, i, module) =~= lines_dec_load_sp() + tail);
            lemma_sp_net_concat(lines_dec_load_sp(), tail);
            assert forall|k: int| 0 <= k < tail.len() implies sp_line_delta(
                #[trigger] tail[k],
            ) == 0 by {
                lemma_sp_inert_wide(tail[k]);
            }
            lemma_sp_all_inert(tail);
        },
    }
}

proof fn lemma_sp_binary(op: char)
    ensures
        sp_net(lines_binary(op)) == -1,
{
    reveal_strlit("M=M+1");
    reveal_strlit("M=M-1");
    reveal_strlit("AM=M-1");
    reveal_strlit("D=M");
    reveal_strlit("M=-M");
    reveal_strlit("@SP");
    lemma_line_facts();
    lemma_sp_dec_load();
    let opline = seq!['M', '=', 'D', op, 'M'];
    let mid = seq![opline] + (if op == '-' {
        seq!["M=-M"@]
    } else {
        Seq::<Seq<char>>::empty()
    }) + seq!["@SP"@, "M=M+1"@];
    assert(lines_binary(op) =~= lines_dec_load_sp() + seq!["D=M"@] + lines_dec_load_sp() + mid);
    lemma_sp_net_concat(lines_dec_load_sp() + seq!["D=M"@] + lines_dec_load_sp(), mid);
    lemma_sp_net_concat(lines_dec_load_sp() + seq!["D=M"@], lines_dec_load_sp());
    lemma_sp_net_concat(lines_dec_load_sp(), seq!["D=M"@]);
    assert(sp_net(seq!["D=M"@]) == 0) by {
        lemma_sp_single(seq!["D=M"@, "M=M+1"@], 1);
        assert(seq!["D=M"@, "M=M+1"@].drop_last() =~= seq!["D=M"@]);
        assert(sp_net(seq!["D=M"@, "M=M+1"@]) == sp_net(seq!["D=M"@]) + 1);
    }
    assert(sp_net(mid) == 1) by {
        if op == '-' {
            assert(mid =~= seq![opline, "M=-M"@, "@SP"@, "M=M+1"@]);
            assert(sp_line_delta(mid[0]) == 0);
            assert(sp_line_delta(mid[1]) == 0);
            assert(sp_line_delta(mid[2]) == 0);
            assert(sp_line_delta(mid[3]) == 1);
            lemma_sp_single(mid, 3);
        } else {
            assert(mid =~= seq![opline, "@SP"@, "M=M+1"@]);
            assert(sp_line_delta(mid[0]) == 0) by {
                assert(opline.len() == 5);
                if opline == "M=M+1"@ {
                    assert(opline[2] == 'D' && "M=M+1"@[2] == 'M');
                }
            }
            assert(sp_line_delta(mid[1]) == 0);
            assert(sp_line_delta(mid[2]) == 1);
            lemma_sp_single(mid, 2);
        }
    }
}

proof fn lemma_sp_unary(op: ArithOp)
    ensures
        sp_net(lines_unary(op)) == 0,
{
    reveal_strlit("M=M+1");
    reveal_strlit("M=M-1");
    reveal_strlit("AM=M-1");
    reveal_strlit("M=-M");
    reveal_strlit("M=!M");
    reveal_strlit("@SP");
    lemma_line_facts();
    lemma_sp_dec_load();
    let mid = lines_unary(op).skip(3);
    assert(lines_unary(op) =~= lines_dec_load_sp() + mid);
    lemma_sp_net_concat(lines_dec_load_sp(), mid);
    assert(sp_line_delta(mid[0]) == 0);
    assert(sp_line_delta(mid[1]) == 0);
    assert(sp_line_delta(mid[2]) == 1);
    lemma_sp_single(mid, 2);
}

/// The stack discipline: every statement whose SP motion is emitted inline
/// changes the net SP movement of the output by exactly its compile-time
/// stack delta, fused or not. Calls and returns delegate to the firmware;
/// comments emit no SP motion.
pub proof fn lemma_stack_discipline(st: VmSt, item: VmItemV, raw: Seq<char>)
    requires
        fusion_wf(st),
        !(item is Call),
        !(item is Return),
        !(item is PdbComment),
        !(item is Bad),
        match item {
            VmItemV::Pop(seg, _) => !(seg is Constant),
            _ => true,
        },
    ensures
        sp_net(vm_step(st, item, raw).code) == sp_net(st.code) + vm_stack_delta(item),
{
    reveal_strlit("M=M+1");
    reveal_strlit("M=M-1");
    reveal_strlit("AM=M-1");
    reveal_strlit("// ");
    reveal_strlit("D=M");
    reveal_strlit("D=A");
    reveal_strlit("D=D-M");
    reveal_strlit("D=-1");
    reveal_strlit("D=0");
    reveal_strlit("D;JNE");
    reveal_strlit("D;JLE");
    reveal_strlit("D;JGE");
    reveal_strlit("D;JMP");
    reveal_strlit("@SP");
    reveal_strlit("A=M-1");
    reveal_strlit("M=D+M");
    reveal_strlit("M=-M");
    reveal_strlit("M=!M");
    reveal_strlit("0;JMP");
    reveal_strlit("@FW__RETURN");
    lemma_line_facts();
    assert(sp_line_delta(echo(raw)) == 0) by {
        lemma_sp_inert_wide(echo(raw));
    }
    assert(sp_net(seq![echo(raw)]) == 0) by {
        assert(sp_line_delta(seq![echo(raw)][0]) == 0);
        lemma_sp_all_inert(seq![echo(raw)]);
    }
    match item {
        VmItemV::Blank => {
            assert(vm_step(st, item, raw) == st);
            assert(vm_stack_delta(item) == 0);
        },
        VmItemV::Push(seg, i) => {
            let c = st.code.push(echo(raw)) + lines_seg_d(seg, i, st.module) + lines_push_d();
            lemma_sp_net_concat(st.code.push(echo(raw)) + lines_seg_d(seg, i, st.module),
                lines_push_d());
            lemma_sp_net_concat(st.code.push(echo(raw)), lines_seg_d(seg, i, st.module));
            assert(st.code.push(echo(raw)) =~= st.code + seq![echo(raw)]);
            lemma_sp_net_concat(st.code, seq![echo(raw)]);
            assert(sp_net(seq![echo(raw)]) == 0) by {
                assert(sp_line_delta(seq![echo(raw)][0]) == 0);
                lemma_sp_all_inert(seq![echo(raw)]);
            }
            lemma_sp_seg_d(seg, i, st.module);
            lemma_sp_push_d();
            assert(sp_net(vm_step(st, item, raw).code) == sp_net(st.code) + vm_stack_delta(item));
        },
        VmItemV::Pop(seg, i) => {
            match st.last {
                Some((psg, pix, off)) => {
                    let c1 = st.code.push(echo(raw));
                    assert(c1.take(off as int) =~= st.code.take(off as int));
                    assert(st.code =~= st.code.take(off as int) + st.code.skip(off as int));
                    lemma_sp_net_concat(st.code.take(off as int), st.code.skip(off as int));
                    lemma_sp_net_concat(
                        lines_seg_d(psg, pix, st.module),
                        lines_push_d(),
                    );
                    lemma_sp_seg_d(psg, pix, st.module);
                    lemma_sp_push_d();
                    let newc = c1.take(off as int) + lines_seg_d(psg, pix, st.module) + seq![
                        echo(raw),
                    ] + lines_d_store(seg, i, st.module);
                    lemma_sp_net_concat(
                        c1.take(off as int) + lines_seg_d(psg, pix, st.module) + seq![echo(raw)],
                        lines_d_store(seg, i, st.module),
                    );
                    lemma_sp_net_concat(
                        c1.take(off as int) + lines_seg_d(psg, pix, st.module),
                        seq![echo(raw)],
                    );
                    lemma_sp_net_concat(c1.take(off as int), lines_seg_d(psg, pix, st.module));
                    lemma_sp_d_store(seg, i, st.module);
        assert(sp_net(vm_step(st, item, raw).code) == sp_net(st.code) + vm_stack_delta(item));
                },
                None => {
                    let c1 = st.code.push(echo(raw));
                    assert(c1 =~= st.code + seq![echo(raw)]);
                    lemma_sp_net_concat(st.code, seq![echo(raw)]);
                    lemma_sp_net_concat(c1, lines_pop(seg, i, st.module));
                    lemma_sp_pop(seg, i, st.module);
        assert(sp_net(vm_step(st, item, raw).code) == sp_net(st.code) + vm_stack_delta(item));
                },
            }
        },
        VmItemV::Arith(op) => {
            let c1 = st.code.push(echo(raw));
            assert(c1 =~= st.code + seq![echo(raw)]);
            lemma_sp_net_concat(st.code, seq![echo(raw)]);
            match op {
                ArithOp::Plus => {
                    match st.last {
                        Some((Segment::Constant, pix, off)) => {
                            if pix >= 0 {
                                assert(c1.take(off as int) =~= st.code.take(off as int));
                                assert(st.code =~= st.code.take(off as int) + st.code.skip(
                                    off as int,
                                ));
                                lemma_sp_net_concat(
                                    st.code.take(off as int),
                                    st.code.skip(off as int),
                                );
                                lemma_sp_net_concat(
                                    lines_seg_d(Segment::Constant, pix, st.module),
                                    lines_push_d(),
                                );
                                lemma_sp_seg_d(Segment::Constant, pix, st.module);
                                lemma_sp_push_d();
                                lemma_sp_net_concat(
                                    c1.take(off as int),
                                    lines_fast_plus(pix as u16, raw),
                                );
                                assert(sp_net(lines_fast_plus(pix as u16, raw)) == 0) by {
                                    let fl = lines_fast_plus(pix as u16, raw);
                                    assert(sp_line_delta(fl[0]) == 0) by {
                                        lemma_sp_inert_wide(fl[0]);
                                    }
                                    assert(sp_line_delta(fl[1]) == 0) by {
                                        lemma_sp_inert_wide(fl[1]);
                                    }
                                    assert(sp_line_delta(fl[2]) == 0) by {
                                        lemma_sp_inert_wide(fl[2]);
                                    }
                                    assert(sp_line_delta(fl[3]) == 0) by {
                                        lemma_sp_inert_wide(fl[3]);
                                    }
                                    reveal_strlit("A=M-1");
                                    reveal_strlit("M=D+M");
                                    assert(sp_line_delta(fl[4]) == 0);
                                    assert(sp_line_delta(fl[5]) == 0);
                                    lemma_sp_all_inert(fl);
                                }
                                assert(st.code.skip(off as int) == lines_seg_d(
                                    Segment::Constant,
                                    pix,
                                    st.module,
                                ) + lines_push_d());
                                assert(sp_net(st.code.skip(off as int)) == 1);
                                assert(sp_net(st.code) == sp_net(st.code.take(off as int)) + 1);
                                assert(sp_net(vm_step(st, item, raw).code) == sp_net(
                                    c1.take(off as int),
                                ) + 0);
                            } else {
                                lemma_sp_net_concat(c1, lines_binary('+'));
                                lemma_sp_binary('+');
                            }
                        },
                        _ => {
                            lemma_sp_net_concat(c1, lines_binary('+'));
                            lemma_sp_binary('+');
                        },
                    }
                },
                ArithOp::Minus => {
                    lemma_sp_net_concat(c1, lines_binary('-'));
                    lemma_sp_binary('-');
                },
                ArithOp::BitAnd => {
                    lemma_sp_net_concat(c1, lines_binary('&'));
                    lemma_sp_binary('&');
                },
                ArithOp::BitOr => {
                    lemma_sp_net_concat(c1, lines_binary('|'));
                    lemma_sp_binary('|');
                },
                ArithOp::Neg => {
                    lemma_sp_net_concat(c1, lines_unary(ArithOp::Neg));
                    lemma_sp_unary(ArithOp::Neg);
                },
                ArithOp::BitNot => {
                    lemma_sp_net_concat(c1, lines_unary(ArithOp::BitNot));
                    lemma_sp_unary(ArithOp::BitNot);
                },
                _ => {
                    lemma_sp_net_concat(c1, lines_cmp(op, st.file, st.count));
                    let ls = lines_cmp(op, st.file, st.count);
                    lemma_sp_dec_load();
                    lemma_sp_push_d();
                    let mid = ls.subrange(7, 16);
                    assert(ls =~= lines_dec_load_sp() + seq!["D=M"@] + lines_dec_load_sp() + mid
                        + lines_push_d());
                    lemma_sp_net_concat(
                        lines_dec_load_sp() + seq!["D=M"@] + lines_dec_load_sp() + mid,
                        lines_push_d(),
                    );
                    lemma_sp_net_concat(
                        lines_dec_load_sp() + seq!["D=M"@] + lines_dec_load_sp(),
                        mid,
                    );
                    lemma_sp_net_concat(lines_dec_load_sp() + seq!["D=M"@], lines_dec_load_sp());
                    lemma_sp_net_concat(lines_dec_load_sp(), seq!["D=M"@]);
                    assert(sp_net(seq!["D=M"@]) == 0) by {
                        assert(sp_line_delta(seq!["D=M"@][0]) == 0);
                        lemma_sp_all_inert(seq!["D=M"@]);
                    }
                    lemma_sp_dec_load();
                    lemma_sp_push_d();
                    assert forall|k: int| 0 <= k < mid.len() implies sp_line_delta(
                        #[trigger] mid[k],
                    ) == 0 by {
                        lemma_sp_inert_wide(mid[k]);
                    }
                    lemma_sp_all_inert(mid);
                },
            }
            assert(sp_net(vm_step(st, item, raw).code) == sp_net(st.code) + vm_stack_delta(item));
        },
        VmItemV::Label(l) => {
            let tail = seq![echo(raw), paren(private_label(st.file, st.func, l))];
            let c = st.code.push(echo(raw)).push(paren(private_label(st.file, st.func, l)));
            assert(c =~= st.code + tail);
            lemma_sp_net_concat(st.code, tail);
            assert(sp_net(tail) == 0) by {
                assert(sp_line_delta(tail[0]) == 0);
                assert(sp_line_delta(tail[1]) == 0) by {
                    lemma_sp_inert_wide(paren(private_label(st.file, st.func, l)));
                }
                lemma_sp_all_inert(tail);
            }
            assert(sp_net(vm_step(st, item, raw).code) == sp_net(st.code) + vm_stack_delta(item));
        },
        VmItemV::Goto(l) => {
            let tail = seq![echo(raw), at_sym(private_label(st.file, st.func, l)), "0;JMP"@];
            let c = st.code.push(echo(raw)).push(at_sym(private_label(st.file, st.func, l))).push(
                "0;JMP"@,
            );
            assert(c =~= st.code + tail);
            lemma_sp_net_concat(st.code, tail);
            assert(sp_net(tail) == 0) by {
                assert(sp_line_delta(tail[0]) == 0);
                assert(sp_line_delta(tail[1]) == 0) by {
                    lemma_sp_inert_wide(at_sym(private_label(st.file, st.func, l)));
                }
                assert(sp_line_delta(tail[2]) == 0);
                lemma_sp_all_inert(tail);
            }
            assert(sp_net(vm_step(st, item, raw).code) == sp_net(st.code) + vm_stack_delta(item));
        },
        VmItemV::IfGoto(l) => {
            let tail = seq!["D=M"@, at_sym(private_label(st.file, st.func, l)), "D;JNE"@];
            let c = st.code.push(echo(raw)) + lines_dec_load_sp() + tail;
            assert(st.code.push(echo(raw)) =~= st.code + seq![echo(raw)]);
            lemma_sp_net_concat(st.code, seq![echo(raw)]);
            lemma_sp_net_concat(st.code.push(echo(raw)), lines_dec_load_sp());
            lemma_sp_net_concat(st.code.push(echo(raw)) + lines_dec_load_sp(), tail);
            lemma_sp_dec_load();
            assert(sp_net(tail) == 0) by {
                assert(sp_line_delta(tail[0]) == 0);
                assert(sp_line_delta(tail[1]) == 0) by {
                    lemma_sp_inert_wide(at_sym(private_label(st.file, st.func, l)));
                }
                assert(sp_line_delta(tail[2]) == 0);
                lemma_sp_all_inert(tail);
            }
            assert(sp_net(vm_step(st, item, raw).code) == sp_net(st.code) + vm_stack_delta(item));
        },
        VmItemV::Function(f, k) => {
            let c = st.code.push(echo(raw)).push(paren(f)) + lines_locals(k as nat);
            assert(st.code.push(echo(raw)).push(paren(f)) =~= st.code + seq![
                echo(raw),
                paren(f),
            ]);
            lemma_sp_net_concat(st.code, seq![echo(raw), paren(f)]);
            assert(sp_net(seq![echo(raw), paren(f)]) == 0) by {
                assert(sp_line_delta(seq![echo(raw), paren(f)][0]) == 0);
                assert(sp_line_delta(seq![echo(raw), paren(f)][1]) == 0) by {
                    lemma_sp_inert_wide(paren(f));
                }
                lemma_sp_all_inert(seq![echo(raw), paren(f)]);
            }
            lemma_sp_net_concat(st.code.push(echo(raw)).push(paren(f)), lines_locals(k as nat));
            lemma_sp_locals(k as nat);
            assert(sp_net(vm_step(st, item, raw).code) == sp_net(st.code) + vm_stack_delta(item));
        },
        _ => {
            assert(false);
        },
    }
}

proof fn lemma_sp_locals(k: nat)
    ensures
        sp_net(lines_locals(k)) == k,
    decreases k,
{
    if k == 0 {
    } else {
        lemma_line_facts();
        lemma_sp_locals((k - 1) as nat);
        lemma_sp_net_concat(lines_locals((k - 1) as nat) + lines_const_d(0), lines_push_d());
        lemma_sp_net_concat(lines_locals((k - 1) as nat), lines_const_d(0));
        lemma_sp_push_d();
        assert(sp_net(lines_const_d(0)) == 0) by {
            lemma_sp_inert_wide(at_num(0));
            assert(sp_line_delta("D=A"@) == 0);
            lemma_sp_all_inert(lines_const_d(0));
        }
    }
}

} // verus!
