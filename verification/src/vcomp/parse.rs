//! The VM language reader: classifies one trimmed line as a memory,
//! arithmetic, control or function statement.
use crate::assembler::parse::{find_char, find_char_at, subvec, valid_symbol, check_symbol};
use crate::text::{
    all_dec_digits, dec_val, has_prefix, trim, trim_chars, parse_dec, starts_with, chars_of,
};
use vstd::prelude::*;

verus! {

/// One of the eight logical memory segments.
#[derive(Clone, Copy, Debug, PartialEq, Eq, Structural)]
pub enum Segment {
    Local,
    Argument,
    This,
    That,
    Constant,
    Static,
    Temp,
    Pointer,
}

/// One classified VM line, at the specification level.
pub enum VmItemV {
    Push(Segment, i16),
    Pop(Segment, u16),
    Arith(ArithOp),
    Label(Seq<char>),
    Goto(Seq<char>),
    IfGoto(Seq<char>),
    Function(Seq<char>, u16),
    Call(Seq<char>, u16),
    Return,
    /// A debug-marker comment, echoed into the output verbatim.
    PdbComment,
    /// A blank line or an ordinary comment, dropped.
    Blank,
    /// A line no rule accepts.
    Bad,
}

/// The nine arithmetic and logic statements.
#[derive(Clone, Copy, Debug, PartialEq, Eq, Structural)]
pub enum ArithOp {
    Plus,
    Minus,
    Neg,
    CmpEq,
    CmpGt,
    CmpLt,
    BitAnd,
    BitOr,
    BitNot,
}

/// One classified VM line.
pub enum VmItem {
    Push(Segment, i16),
    Pop(Segment, u16),
    Arith(ArithOp),
    Label(Vec<char>),
    Goto(Vec<char>),
    IfGoto(Vec<char>),
    Function(Vec<char>, u16),
    Call(Vec<char>, u16),
    Return,
    PdbComment,
    Blank,
}

impl View for VmItem {
    type V = VmItemV;

    open spec fn view(&self) -> VmItemV {
        match self {
            VmItem::Push(s, i) => VmItemV::Push(*s, *i),
            VmItem::Pop(s, i) => VmItemV::Pop(*s, *i),
            VmItem::Arith(o) => VmItemV::Arith(*o),
            VmItem::Label(l) => VmItemV::Label(l@),
            VmItem::Goto(l) => VmItemV::Goto(l@),
            VmItem::IfGoto(l) => VmItemV::IfGoto(l@),
            VmItem::Function(f, k) => VmItemV::Function(f@, *k),
            VmItem::Call(f, k) => VmItemV::Call(f@, *k),
            VmItem::Return => VmItemV::Return,
            VmItem::PdbComment => VmItemV::PdbComment,
            VmItem::Blank => VmItemV::Blank,
        }
    }
}

/// The first whitespace-separated token and the trimmed remainder.
pub open spec fn split2(s: Seq<char>) -> (Seq<char>, Seq<char>) {
    match find_char(s, ' ') {
        Some(i) => (s.take(i), trim(s.skip(i))),
        None => (s, Seq::empty()),
    }
}

/// The segment a keyword names.
pub open spec fn seg_of(s: Seq<char>) -> Option<Segment> {
    if s == "local"@ {
        Some(Segment::Local)
    } else if s == "argument"@ {
        Some(Segment::Argument)
    } else if s == "this"@ {
        Some(Segment::This)
    } else if s == "that"@ {
        Some(Segment::That)
    } else if s == "constant"@ {
        Some(Segment::Constant)
    } else if s == "static"@ {
        Some(Segment::Static)
    } else if s == "temp"@ {
        Some(Segment::Temp)
    } else if s == "pointer"@ {
        Some(Segment::Pointer)
    } else {
        None
    }
}

/// A signed sixteen-bit index: optional minus sign, then digits.
pub open spec fn idx_i16(s: Seq<char>) -> Option<i16> {
    if s.len() > 0 && s[0] == '-' {
        let d = s.skip(1);
        if d.len() > 0 && all_dec_digits(d) && dec_val(d) <= 32768 {
            Some((-(dec_val(d) as int)) as i16)
        } else {
            None
        }
    } else if s.len() > 0 && all_dec_digits(s) && dec_val(s) <= 32767 {
        Some(dec_val(s) as i16)
    } else {
        None
    }
}

/// An unsigned sixteen-bit number.
pub open spec fn idx_u16(s: Seq<char>) -> Option<u16> {
    if s.len() > 0 && all_dec_digits(s) && dec_val(s) <= 0xffff {
        Some(dec_val(s) as u16)
    } else {
        None
    }
}

/// Classifies one trimmed VM line.
pub open spec fn classify_vm(t: Seq<char>) -> VmItemV {
    if t.len() == 0 {
        VmItemV::Blank
    } else if has_prefix(t, "// ++pdb "@) {
        VmItemV::PdbComment
    } else if has_prefix(t, "//"@) {
        VmItemV::Blank
    } else {
        let (t1, r1) = split2(t);
        if t1 == "push"@ {
            let (t2, r2) = split2(r1);
            match (seg_of(t2), idx_i16(r2)) {
                (Some(seg), Some(i)) => VmItemV::Push(seg, i),
                _ => VmItemV::Bad,
            }
        } else if t1 == "pop"@ {
            let (t2, r2) = split2(r1);
            match (seg_of(t2), idx_u16(r2)) {
                (Some(seg), Some(i)) => if seg is Constant {
                    VmItemV::Bad
                } else {
                    VmItemV::Pop(seg, i)
                },
                _ => VmItemV::Bad,
            }
        } else if t1 == "add"@ && r1.len() == 0 {
            VmItemV::Arith(ArithOp::Plus)
        } else if t1 == "sub"@ && r1.len() == 0 {
            VmItemV::Arith(ArithOp::Minus)
        } else if t1 == "neg"@ && r1.len() == 0 {
            VmItemV::Arith(ArithOp::Neg)
        } else if t1 == "eq"@ && r1.len() == 0 {
            VmItemV::Arith(ArithOp::CmpEq)
        } else if t1 == "gt"@ && r1.len() == 0 {
            VmItemV::Arith(ArithOp::CmpGt)
        } else if t1 == "lt"@ && r1.len() == 0 {
            VmItemV::Arith(ArithOp::CmpLt)
        } else if t1 == "and"@ && r1.len() == 0 {
            VmItemV::Arith(ArithOp::BitAnd)
        } else if t1 == "or"@ && r1.len() == 0 {
            VmItemV::Arith(ArithOp::BitOr)
        } else if t1 == "not"@ && r1.len() == 0 {
            VmItemV::Arith(ArithOp::BitNot)
        } else if t1 == "return"@ && r1.len() == 0 {
            VmItemV::Return
        } else if t1 == "label"@ {
            if valid_symbol(r1) {
                VmItemV::Label(r1)
            } else {
                VmItemV::Bad
            }
        } else if t1 == "goto"@ {
            if valid_symbol(r1) {
                VmItemV::Goto(r1)
            } else {
                VmItemV::Bad
            }
        } else if t1 == "if-goto"@ {
            if valid_symbol(r1) {
                VmItemV::IfGoto(r1)
            } else {
                VmItemV::Bad
            }
        } else if t1 == "function"@ {
            let (t2, r2) = split2(r1);
            match idx_u16(r2) {
                Some(k) => if valid_symbol(t2) {
                    VmItemV::Function(t2, k)
                } else {
                    VmItemV::Bad
                },
                None => VmItemV::Bad,
            }
        } else if t1 == "call"@ {
            let (t2, r2) = split2(r1);
            match idx_u16(r2) {
                Some(k) => if valid_symbol(t2) {
                    VmItemV::Call(t2, k)
                } else {
                    VmItemV::Bad
                },
                None => VmItemV::Bad,
            }
        } else {
            VmItemV::Bad
        }
    }
}

/// Splits off the first token, executably.
pub fn split2_at(t: &[char]) -> (r: (Vec<char>, Vec<char>))
    ensures
        (r.0@, r.1@) == split2(t@),
{
    match find_char_at(t, ' ') {
        Some(i) => {
            let tok = subvec(t, 0, i);
            assert(tok@ =~= t@.take(i as int));
            let rest_raw = subvec(t, i, t.len());
            assert(rest_raw@ =~= t@.skip(i as int));
            let rest = trim_chars(&rest_raw);
            (tok, rest)
        },
        None => {
            let tok = subvec(t, 0, t.len());
            assert(tok@ =~= t@);
            (tok, Vec::new())
        },
    }
}

/// Executable segment-keyword lookup.
pub fn parse_segment(s: &[char]) -> (r: Option<Segment>)
    ensures
        r == seg_of(s@),
{
    if crate::keymap::chars_eq_lit(s, "local") {
        Some(Segment::Local)
    } else if crate::keymap::chars_eq_lit(s, "argument") {
        Some(Segment::Argument)
    } else if crate::keymap::chars_eq_lit(s, "this") {
        Some(Segment::This)
    } else if crate::keymap::chars_eq_lit(s, "that") {
        Some(Segment::That)
    } else if crate::keymap::chars_eq_lit(s, "constant") {
        Some(Segment::Constant)
    } else if crate::keymap::chars_eq_lit(s, "static") {
        Some(Segment::Static)
    } else if crate::keymap::chars_eq_lit(s, "temp") {
        Some(Segment::Temp)
    } else if crate::keymap::chars_eq_lit(s, "pointer") {
        Some(Segment::Pointer)
    } else {
        None
    }
}

/// Executable signed index parse.
pub fn parse_idx_i16(s: &[char]) -> (r: Option<i16>)
    ensures
        r == idx_i16(s@),
{
    if s.len() > 0 && s[0] == '-' {
        assert(s@.subrange(1, s@.len() as int) =~= s@.skip(1));
        match parse_dec(s, 1, s.len()) {
            Some(v) => {
                if v <= 32768 {
                    Some((-(v as i32)) as i16)
                } else {
                    None
                }
            },
            None => None,
        }
    } else if s.len() > 0 {
        assert(s@.subrange(0, s@.len() as int) =~= s@);
        match parse_dec(s, 0, s.len()) {
            Some(v) => {
                if v <= 32767 {
                    Some(v as i16)
                } else {
                    None
                }
            },
            None => None,
        }
    } else {
        None
    }
}

/// Executable unsigned index parse.
pub fn parse_idx_u16(s: &[char]) -> (r: Option<u16>)
    ensures
        r == idx_u16(s@),
{
    if s.len() == 0 {
        return None;
    }
    assert(s@.subrange(0, s@.len() as int) =~= s@);
    match parse_dec(s, 0, s.len()) {
        Some(v) => {
            if v <= 0xffff {
                Some(v as u16)
            } else {
                None
            }
        },
        None => None,
    }
}

/// The grammar front of the VM translator.
pub struct VMParser;

impl VMParser {
    /// Classifies one trimmed VM line; `None` is a syntax error.
    pub fn parse_line(t: &[char]) -> (res: Option<VmItem>)
        ensures
            match res {
                Some(it) => it@ == classify_vm(t@) && !(classify_vm(t@) is Bad),
                None => classify_vm(t@) is Bad,
            },
    {
        if t.len() == 0 {
            return Some(VmItem::Blank);
        }
        let marker = chars_of("// ++pdb ");
        if starts_with(t, marker.as_slice()) {
            return Some(VmItem::PdbComment);
        }
        let slashes = chars_of("//");
        if starts_with(t, slashes.as_slice()) {
            return Some(VmItem::Blank);
        }
        let (t1, r1) = split2_at(t);
        let t1s = t1.as_slice();
        if crate::keymap::chars_eq_lit(t1s, "push") {
            let (t2, r2) = split2_at(r1.as_slice());
            match (parse_segment(t2.as_slice()), parse_idx_i16(r2.as_slice())) {
                (Some(seg), Some(i)) => Some(VmItem::Push(seg, i)),
                _ => None,
            }
        } else if crate::keymap::chars_eq_lit(t1s, "pop") {
            let (t2, r2) = split2_at(r1.as_slice());
            match (parse_segment(t2.as_slice()), parse_idx_u16(r2.as_slice())) {
                (Some(seg), Some(i)) => match seg {
                    Segment::Constant => None,
                    _ => Some(VmItem::Pop(seg, i)),
                },
                _ => None,
            }
        } else if crate::keymap::chars_eq_lit(t1s, "add") && r1.len() == 0 {
            Some(VmItem::Arith(ArithOp::Plus))
        } else if crate::keymap::chars_eq_lit(t1s, "sub") && r1.len() == 0 {
            Some(VmItem::Arith(ArithOp::Minus))
        } else if crate::keymap::chars_eq_lit(t1s, "neg") && r1.len() == 0 {
            Some(VmItem::Arith(ArithOp::Neg))
        } else if crate::keymap::chars_eq_lit(t1s, "eq") && r1.len() == 0 {
            Some(VmItem::Arith(ArithOp::CmpEq))
        } else if crate::keymap::chars_eq_lit(t1s, "gt") && r1.len() == 0 {
            Some(VmItem::Arith(ArithOp::CmpGt))
        } else if crate::keymap::chars_eq_lit(t1s, "lt") && r1.len() == 0 {
            Some(VmItem::Arith(ArithOp::CmpLt))
        } else if crate::keymap::chars_eq_lit(t1s, "and") && r1.len() == 0 {
            Some(VmItem::Arith(ArithOp::BitAnd))
        } else if crate::keymap::chars_eq_lit(t1s, "or") && r1.len() == 0 {
            Some(VmItem::Arith(ArithOp::BitOr))
        } else if crate::keymap::chars_eq_lit(t1s, "not") && r1.len() == 0 {
            Some(VmItem::Arith(ArithOp::BitNot))
        } else if crate::keymap::chars_eq_lit(t1s, "return") && r1.len() == 0 {
            Some(VmItem::Return)
        } else if crate::keymap::chars_eq_lit(t1s, "label") {
            if check_symbol(r1.as_slice()) {
                Some(VmItem::Label(r1))
            } else {
                None
            }
        } else if crate::keymap::chars_eq_lit(t1s, "goto") {
            if check_symbol(r1.as_slice()) {
                Some(VmItem::Goto(r1))
            } else {
                None
            }
        } else if crate::keymap::chars_eq_lit(t1s, "if-goto") {
            if check_symbol(r1.as_slice()) {
                Some(VmItem::IfGoto(r1))
            } else {
                None
            }
        } else if crate::keymap::chars_eq_lit(t1s, "function") {
            let (t2, r2) = split2_at(r1.as_slice());
            match parse_idx_u16(r2.as_slice()) {
                Some(k) => if check_symbol(t2.as_slice()) {
                    Some(VmItem::Function(t2, k))
                } else {
                    None
                },
                None => None,
            }
        } else if crate::keymap::chars_eq_lit(t1s, "call") {
            let (t2, r2) = split2_at(r1.as_slice());
            match parse_idx_u16(r2.as_slice()) {
                Some(k) => if check_symbol(t2.as_slice()) {
                    Some(VmItem::Call(t2, k))
                } else {
                    None
                },
                None => None,
            }
        } else {
            None
        }
    }
}

} // verus!
