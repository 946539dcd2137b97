//! The assembly language reader: classifies one trimmed source line as an
//! A-instruction, C-instruction, label definition, directive, data word,
//! comment or debug marker, and encodes C-instruction fields.
use crate::text::{
    all_dec_digits, all_hex_digits, dec_val, hex_val, is_dec_digit, trim, has_prefix,
    check_dec_digit, parse_dec, parse_hex,
};
use vstd::prelude::*;

verus! {

/// A character that may appear in a symbolic name.
pub open spec fn is_symbol_char(c: char) -> bool {
    is_dec_digit(c) || (65 <= c as int <= 90) || (97 <= c as int <= 122) || c == '_' || c == '.'
        || c == '$' || c == ':'
}

/// A valid symbolic name: non-empty, does not start with a digit, and made
/// of letters, digits, `_`, `.`, `$` and `:`.
pub open spec fn valid_symbol(s: Seq<char>) -> bool {
    s.len() > 0 && !is_dec_digit(s[0]) && forall|i: int|
        0 <= i < s.len() ==> is_symbol_char(#[trigger] s[i])
}

/// Executable test for `is_symbol_char`.
pub fn check_symbol_char(c: char) -> (r: bool)
    ensures
        r == is_symbol_char(c),
{
    check_dec_digit(c) || (c >= 'A' && c <= 'Z') || (c >= 'a' && c <= 'z') || c == '_' || c == '.'
        || c == '$' || c == ':'
}

/// Executable test for `valid_symbol`.
pub fn check_symbol(s: &[char]) -> (r: bool)
    ensures
        r == valid_symbol(s@),
{
    if s.len() == 0 {
        return false;
    }
    if check_dec_digit(s[0]) {
        return false;
    }
    let mut i: usize = 0;
    while i < s.len()
        invariant
            i <= s@.len(),
            forall|j: int| 0 <= j < i ==> is_symbol_char(#[trigger] s@[j]),
        decreases s@.len() - i,
    {
        if !check_symbol_char(s[i]) {
            return false;
        }
        i = i + 1;
    }
    true
}

/// The value of a reserved symbol: the sixteen registers, the segment
/// pointers, and the two device addresses.
pub open spec fn reserved_val(s: Seq<char>) -> Option<u16> {
    if s == "R0"@ {
        Some(0u16)
    } else if s == "R1"@ {
        Some(1u16)
    } else if s == "R2"@ {
        Some(2u16)
    } else if s == "R3"@ {
        Some(3u16)
    } else if s == "R4"@ {
        Some(4u16)
    } else if s == "R5"@ {
        Some(5u16)
    } else if s == "R6"@ {
        Some(6u16)
    } else if s == "R7"@ {
        Some(7u16)
    } else if s == "R8"@ {
        Some(8u16)
    } else if s == "R9"@ {
        Some(9u16)
    } else if s == "R10"@ {
        Some(10u16)
    } else if s == "R11"@ {
        Some(11u16)
    } else if s == "R12"@ {
        Some(12u16)
    } else if s == "R13"@ {
        Some(13u16)
    } else if s == "R14"@ {
        Some(14u16)
    } else if s == "R15"@ {
        Some(15u16)
    } else if s == "SCREEN"@ {
        Some(0x4000u16)
    } else if s == "KBD"@ {
        Some(0x6000u16)
    } else if s == "SP"@ {
        Some(0u16)
    } else if s == "LCL"@ {
        Some(1u16)
    } else if s == "ARG"@ {
        Some(2u16)
    } else if s == "THIS"@ {
        Some(3u16)
    } else if s == "THAT"@ {
        Some(4u16)
    } else {
        None
    }
}

/// Looks a symbol up in the reserved table.
pub fn lookup_reserved(s: &[char]) -> (r: Option<u16>)
    ensures
        r == reserved_val(s@),
{
    if crate::keymap::chars_eq_lit(s, "R0") {
        Some(0)
    } else if crate::keymap::chars_eq_lit(s, "R1") {
        Some(1)
    } else if crate::keymap::chars_eq_lit(s, "R2") {
        Some(2)
    } else if crate::keymap::chars_eq_lit(s, "R3") {
        Some(3)
    } else if crate::keymap::chars_eq_lit(s, "R4") {
        Some(4)
    } else if crate::keymap::chars_eq_lit(s, "R5") {
        Some(5)
    } else if crate::keymap::chars_eq_lit(s, "R6") {
        Some(6)
    } else if crate::keymap::chars_eq_lit(s, "R7") {
        Some(7)
    } else if crate::keymap::chars_eq_lit(s, "R8") {
        Some(8)
    } else if crate::keymap::chars_eq_lit(s, "R9") {
        Some(9)
    } else if crate::keymap::chars_eq_lit(s, "R10") {
        Some(10)
    } else if crate::keymap::chars_eq_lit(s, "R11") {
        Some(11)
    } else if crate::keymap::chars_eq_lit(s, "R12") {
        Some(12)
    } else if crate::keymap::chars_eq_lit(s, "R13") {
        Some(13)
    } else if crate::keymap::chars_eq_lit(s, "R14") {
        Some(14)
    } else if crate::keymap::chars_eq_lit(s, "R15") {
        Some(15)
    } else if crate::keymap::chars_eq_lit(s, "SCREEN") {
        Some(0x4000)
    } else if crate::keymap::chars_eq_lit(s, "KBD") {
        Some(0x6000)
    } else if crate::keymap::chars_eq_lit(s, "SP") {
        Some(0)
    } else if crate::keymap::chars_eq_lit(s, "LCL") {
        Some(1)
    } else if crate::keymap::chars_eq_lit(s, "ARG") {
        Some(2)
    } else if crate::keymap::chars_eq_lit(s, "THIS") {
        Some(3)
    } else if crate::keymap::chars_eq_lit(s, "THAT") {
        Some(4)
    } else {
        None
    }
}

/// A syntactically valid destination field: any combination of `A`, `D`
/// and `M`, in any order, each at most once; the empty field is allowed.
pub open spec fn valid_dest(s: Seq<char>) -> bool {
    &&& forall|i: int| 0 <= i < s.len() ==> (#[trigger] s[i] == 'A' || s[i] == 'D' || s[i] == 'M')
    &&& forall|i: int, j: int| 0 <= i < j < s.len() ==> s[i] != s[j]
}

/// The destination bits: `A` contributes 4, `D` contributes 2, `M`
/// contributes 1, combined regardless of order.
pub open spec fn dest_bits(s: Seq<char>) -> u16 {
    (((if s.contains('A') {
        4int
    } else {
        0int
    }) + (if s.contains('D') {
        2int
    } else {
        0int
    }) + (if s.contains('M') {
        1int
    } else {
        0int
    })) as u16)
}

/// Executable destination check and encoding.
pub fn parse_dest(s: &[char]) -> (r: Option<u16>)
    ensures
        match r {
            Some(b) => valid_dest(s@) && b == dest_bits(s@),
            None => !valid_dest(s@),
        },
{
    let mut has_a = false;
    let mut has_d = false;
    let mut has_m = false;
    let mut i: usize = 0;
    while i < s.len()
        invariant
            i <= s@.len(),
            has_a == s@.take(i as int).contains('A'),
            has_d == s@.take(i as int).contains('D'),
            has_m == s@.take(i as int).contains('M'),
            forall|j: int| 0 <= j < i ==> (#[trigger] s@[j] == 'A' || s@[j] == 'D' || s@[j] == 'M'),
            forall|j: int, k: int| 0 <= j < k < i ==> s@[j] != s@[k],
        decreases s@.len() - i,
    {
        let c = s[i];
        proof {
            assert(s@.take(i + 1) =~= s@.take(i as int).push(s@[i as int]));
            assert forall|ch: char| #[trigger] s@.take(i + 1).contains(ch) implies s@.take(
                i as int,
            ).contains(ch) || ch == s@[i as int] by {
                let k = choose|k: int| 0 <= k < i + 1 && (#[trigger] s@.take(i + 1)[k]) == ch;
                if k < i {
                    assert(s@.take(i as int)[k] == ch);
                }
            }
            assert forall|ch: char| s@.take(i as int).contains(ch) implies #[trigger] s@.take(
                i + 1,
            ).contains(ch) by {
                let k = choose|k: int| 0 <= k < i && (#[trigger] s@.take(i as int)[k]) == ch;
                assert(s@.take(i + 1)[k] == ch);
            }
            assert(s@.take(i + 1).contains(s@[i as int])) by {
                assert(s@.take(i + 1)[i as int] == s@[i as int]);
            }
        }
        if c == 'A' {
            if has_a {
                assert(s@.take(i as int).contains('A'));
                proof {
                    let k = choose|k: int| 0 <= k < i && (#[trigger] s@.take(i as int)[k]) == 'A';
                    assert(s@[k] == 'A' && s@[i as int] == 'A');
                }
                return None;
            }
            has_a = true;
        } else if c == 'D' {
            if has_d {
                assert(s@.take(i as int).contains('D'));
                proof {
                    let k = choose|k: int| 0 <= k < i && (#[trigger] s@.take(i as int)[k]) == 'D';
                    assert(s@[k] == 'D' && s@[i as int] == 'D');
                }
                return None;
            }
            has_d = true;
        } else if c == 'M' {
            if has_m {
                assert(s@.take(i as int).contains('M'));
                proof {
                    let k = choose|k: int| 0 <= k < i && (#[trigger] s@.take(i as int)[k]) == 'M';
                    assert(s@[k] == 'M' && s@[i as int] == 'M');
                }
                return None;
            }
            has_m = true;
        } else {
            return None;
        }
        proof {
            assert forall|j: int| 0 <= j < i implies s@[j] != s@[i as int] by {
                if s@[j] == s@[i as int] {
                    assert(s@.take(i as int)[j] == s@[i as int]);
                }
            }
        }
        i = i + 1;
    }
    proof {
        assert(s@.take(s@.len() as int) =~= s@);
    }
    let bits: u16 = (if has_a {
        4u16
    } else {
        0u16
    }) + (if has_d {
        2u16
    } else {
        0u16
    }) + (if has_m {
        1u16
    } else {
        0u16
    });
    Some(bits)
}

/// The computation bits of the 28-entry ALU table.
pub open spec fn comp_bits(s: Seq<char>) -> Option<u16> {
    if s == "0"@ {
        Some(0b0101010u16)
    } else if s == "1"@ {
        Some(0b0111111u16)
    } else if s == "-1"@ {
        Some(0b0111010u16)
    } else if s == "D"@ {
        Some(0b0001100u16)
    } else if s == "A"@ {
        Some(0b0110000u16)
    } else if s == "!D"@ {
        Some(0b0001101u16)
    } else if s == "!A"@ {
        Some(0b0110001u16)
    } else if s == "-D"@ {
        Some(0b0001111u16)
    } else if s == "-A"@ {
        Some(0b0110011u16)
    } else if s == "D+1"@ {
        Some(0b0011111u16)
    } else if s == "A+1"@ {
        Some(0b0110111u16)
    } else if s == "D-1"@ {
        Some(0b0001110u16)
    } else if s == "A-1"@ {
        Some(0b0110010u16)
    } else if s == "D+A"@ {
        Some(0b0000010u16)
    } else if s == "D-A"@ {
        Some(0b0010011u16)
    } else if s == "A-D"@ {
        Some(0b0000111u16)
    } else if s == "D&A"@ {
        Some(0b0000000u16)
    } else if s == "D|A"@ {
        Some(0b0010101u16)
    } else if s == "M"@ {
        Some(0b1110000u16)
    } else if s == "!M"@ {
        Some(0b1110001u16)
    } else if s == "-M"@ {
        Some(0b1110011u16)
    } else if s == "M+1"@ {
        Some(0b1110111u16)
    } else if s == "M-1"@ {
        Some(0b1110010u16)
    } else if s == "D+M"@ {
        Some(0b1000010u16)
    } else if s == "D-M"@ {
        Some(0b1010011u16)
    } else if s == "M-D"@ {
        Some(0b1000111u16)
    } else if s == "D&M"@ {
        Some(0b1000000u16)
    } else if s == "D|M"@ {
        Some(0b1010101u16)
    } else {
        None
    }
}

/// Executable computation-field lookup.
pub fn parse_comp(s: &[char]) -> (r: Option<u16>)
    ensures
        r == comp_bits(s@),
{
    if crate::keymap::chars_eq_lit(s, "0") {
        Some(0b0101010)
    } else if crate::keymap::chars_eq_lit(s, "1") {
        Some(0b0111111)
    } else if crate::keymap::chars_eq_lit(s, "-1") {
        Some(0b0111010)
    } else if crate::keymap::chars_eq_lit(s, "D") {
        Some(0b0001100)
    } else if crate::keymap::chars_eq_lit(s, "A") {
        Some(0b0110000)
    } else if crate::keymap::chars_eq_lit(s, "!D") {
        Some(0b0001101)
    } else if crate::keymap::chars_eq_lit(s, "!A") {
        Some(0b0110001)
    } else if crate::keymap::chars_eq_lit(s, "-D") {
        Some(0b0001111)
    } else if crate::keymap::chars_eq_lit(s, "-A") {
        Some(0b0110011)
    } else if crate::keymap::chars_eq_lit(s, "D+1") {
        Some(0b0011111)
    } else if crate::keymap::chars_eq_lit(s, "A+1") {
        Some(0b0110111)
    } else if crate::keymap::chars_eq_lit(s, "D-1") {
        Some(0b0001110)
    } else if crate::keymap::chars_eq_lit(s, "A-1") {
        Some(0b0110010)
    } else if crate::keymap::chars_eq_lit(s, "D+A") {
        Some(0b0000010)
    } else if crate::keymap::chars_eq_lit(s, "D-A") {
        Some(0b0010011)
    } else if crate::keymap::chars_eq_lit(s, "A-D") {
        Some(0b0000111)
    } else if crate::keymap::chars_eq_lit(s, "D&A") {
        Some(0b0000000)
    } else if crate::keymap::chars_eq_lit(s, "D|A") {
        Some(0b0010101)
    } else if crate::keymap::chars_eq_lit(s, "M") {
        Some(0b1110000)
    } else if crate::keymap::chars_eq_lit(s, "!M") {
        Some(0b1110001)
    } else if crate::keymap::chars_eq_lit(s, "-M") {
        Some(0b1110011)
    } else if crate::keymap::chars_eq_lit(s, "M+1") {
        Some(0b1110111)
    } else if crate::keymap::chars_eq_lit(s, "M-1") {
        Some(0b1110010)
    } else if crate::keymap::chars_eq_lit(s, "D+M") {
        Some(0b1000010)
    } else if crate::keymap::chars_eq_lit(s, "D-M") {
        Some(0b1010011)
    } else if crate::keymap::chars_eq_lit(s, "M-D") {
        Some(0b1000111)
    } else if crate::keymap::chars_eq_lit(s, "D&M") {
        Some(0b1000000)
    } else if crate::keymap::chars_eq_lit(s, "D|M") {
        Some(0b1010101)
    } else {
        None
    }
}

/// The jump bits of the eight-entry jump table; the empty field is zero.
pub open spec fn jump_bits(s: Seq<char>) -> Option<u16> {
    if s.len() == 0 {
        Some(0u16)
    } else if s == "JGT"@ {
        Some(1u16)
    } else if s == "JEQ"@ {
        Some(2u16)
    } else if s == "JGE"@ {
        Some(3u16)
    } else if s == "JLT"@ {
        Some(4u16)
    } else if s == "JNE"@ {
        Some(5u16)
    } else if s == "JLE"@ {
        Some(6u16)
    } else if s == "JMP"@ {
        Some(7u16)
    } else {
        None
    }
}

/// Executable jump-field lookup.
pub fn parse_jump(s: &[char]) -> (r: Option<u16>)
    ensures
        r == jump_bits(s@),
{
    if s.len() == 0 {
        Some(0)
    } else if crate::keymap::chars_eq_lit(s, "JGT") {
        Some(1)
    } else if crate::keymap::chars_eq_lit(s, "JEQ") {
        Some(2)
    } else if crate::keymap::chars_eq_lit(s, "JGE") {
        Some(3)
    } else if crate::keymap::chars_eq_lit(s, "JLT") {
        Some(4)
    } else if crate::keymap::chars_eq_lit(s, "JNE") {
        Some(5)
    } else if crate::keymap::chars_eq_lit(s, "JLE") {
        Some(6)
    } else if crate::keymap::chars_eq_lit(s, "JMP") {
        Some(7)
    } else {
        None
    }
}

/// The word for a C-instruction: the three high bits set, then the
/// computation, destination and jump fields.
pub open spec fn encode_c(comp: u16, dest: u16, jump: u16) -> u16
    recommends
        comp < 128,
        dest < 8,
        jump < 8,
{
    (0xe000 + comp * 64 + dest * 8 + jump) as u16
}

/// Every encoded C-instruction keeps its three high bits set.
pub proof fn lemma_c_high_bits(w: u16)
    requires
        0xe000 <= w,
    ensures
        w & 0xe000 == 0xe000,
{
    assert(w & 0xe000 == 0xe000) by (bit_vector)
        requires
            0xe000 <= w,
    ;
}

/// The first position of `c` in `s`, if any.
pub open spec fn find_char(s: Seq<char>, c: char) -> Option<int>
    decreases s.len(),
{
    if s.len() == 0 {
        None
    } else if s[0] == c {
        Some(0int)
    } else {
        match find_char(s.drop_first(), c) {
            Some(i) => Some(i + 1),
            None => None,
        }
    }
}

proof fn lemma_find_char_skip(s: Seq<char>, c: char, k: int)
    requires
        0 <= k <= s.len(),
        forall|j: int| 0 <= j < k ==> s[j] != c,
    ensures
        find_char(s, c) == match find_char(s.skip(k), c) {
            Some(i) => Some(i + k),
            None => None::<int>,
        },
    decreases k,
{
    if k > 0 {
        assert(s.drop_first() =~= s.skip(1));
        assert forall|j: int| 0 <= j < k - 1 implies s.skip(1)[j] != c by {
            assert(s.skip(1)[j] == s[j + 1]);
        }
        lemma_find_char_skip(s.skip(1), c, k - 1);
        assert(s.skip(1).skip(k - 1) =~= s.skip(k));
    } else {
        assert(s.skip(0) =~= s);
    }
}

/// Scans for the first occurrence of `c`.
pub fn find_char_at(s: &[char], c: char) -> (r: Option<usize>)
    ensures
        match r {
            Some(i) => find_char(s@, c) == Some(i as int) && i < s@.len() && s@[i as int] == c,
            None => find_char(s@, c) is None,
        },
{
    let mut i: usize = 0;
    while i < s.len()
        invariant
            i <= s@.len(),
            forall|j: int| 0 <= j < i ==> s@[j] != c,
        decreases s@.len() - i,
    {
        if s[i] == c {
            proof {
                lemma_find_char_skip(s@, c, i as int);
                assert(s@.skip(i as int)[0] == s@[i as int]);
            }
            return Some(i);
        }
        i = i + 1;
    }
    proof {
        lemma_find_char_skip(s@, c, s@.len() as int);
        assert(s@.skip(s@.len() as int) =~= Seq::<char>::empty());
    }
    None
}

/// A copy of `s[lo..hi]`.
pub fn subvec(s: &[char], lo: usize, hi: usize) -> (v: Vec<char>)
    requires
        lo <= hi <= s@.len(),
    ensures
        v@ == s@.subrange(lo as int, hi as int),
{
    let mut v: Vec<char> = Vec::new();
    let mut i: usize = lo;
    while i < hi
        invariant
            lo <= i <= hi <= s@.len(),
            v@ =~= s@.subrange(lo as int, i as int),
        decreases hi - i,
    {
        v.push(s[i]);
        i = i + 1;
    }
    assert(v@ =~= s@.subrange(lo as int, hi as int));
    v
}

/// One classified assembly line, at the specification level.
pub enum ItemV {
    /// `@` with a constant or reserved value.
    AConst(u16),
    /// `@` with a symbolic name that is not reserved.
    ASym(Seq<char>),
    /// An encoded C-instruction word.
    CInst(u16),
    /// A `(NAME)` definition.
    LabelDef(Seq<char>),
    /// The data-origin directive.
    Org(u16),
    /// A data word.
    WordData(u16),
    /// A debug marker comment carrying file, line and column.
    PdbMark(usize, usize, usize),
    /// A blank line or an ordinary comment.
    Blank,
    /// A line no rule accepts.
    Bad,
}

/// One classified assembly line.
pub enum AsmItem {
    AConst(u16),
    ASym(Vec<char>),
    CInst(u16),
    LabelDef(Vec<char>),
    Org(u16),
    WordData(u16),
    PdbMark(usize, usize, usize),
    Blank,
}

impl View for AsmItem {
    type V = ItemV;

    open spec fn view(&self) -> ItemV {
        match self {
            AsmItem::AConst(v) => ItemV::AConst(*v),
            AsmItem::ASym(s) => ItemV::ASym(s@),
            AsmItem::CInst(w) => ItemV::CInst(*w),
            AsmItem::LabelDef(s) => ItemV::LabelDef(s@),
            AsmItem::Org(v) => ItemV::Org(*v),
            AsmItem::WordData(v) => ItemV::WordData(*v),
            AsmItem::PdbMark(f, l, c) => ItemV::PdbMark(*f, *l, *c),
            AsmItem::Blank => ItemV::Blank,
        }
    }
}

/// The largest value `i64` holds, as a plain number.
pub open spec fn i64_max() -> nat {
    0x7fff_ffff_ffff_ffff
}

/// Classifies the part after `@`: a decimal or hexadecimal constant is
/// truncated to sixteen bits, a reserved name becomes its value, any other
/// valid symbol stays symbolic.
pub open spec fn classify_at(r: Seq<char>) -> ItemV {
    if has_prefix(r, "0x"@) || has_prefix(r, "0X"@) {
        if r.len() > 2 && all_hex_digits(r.skip(2)) && hex_val(r.skip(2)) <= i64_max() {
            ItemV::AConst((hex_val(r.skip(2)) % 0x10000) as u16)
        } else {
            ItemV::Bad
        }
    } else if r.len() > 0 && all_dec_digits(r) {
        if dec_val(r) <= i64_max() {
            ItemV::AConst((dec_val(r) % 0x10000) as u16)
        } else {
            ItemV::Bad
        }
    } else if valid_symbol(r) {
        match reserved_val(r) {
            Some(v) => ItemV::AConst(v),
            None => ItemV::ASym(r),
        }
    } else {
        ItemV::Bad
    }
}

/// The value of a directive operand: decimal, or hexadecimal after `0x`,
/// and at most sixteen bits.
pub open spec fn operand16(s: Seq<char>) -> Option<u16> {
    if has_prefix(s, "0x"@) || has_prefix(s, "0X"@) {
        if s.len() > 2 && all_hex_digits(s.skip(2)) && hex_val(s.skip(2)) <= 0xffff {
            Some(hex_val(s.skip(2)) as u16)
        } else {
            None
        }
    } else if s.len() > 0 && all_dec_digits(s) && dec_val(s) <= 0xffff {
        Some(dec_val(s) as u16)
    } else {
        None
    }
}

/// Classifies a directive line: `.org N` or `.word N`.
pub open spec fn classify_directive(t: Seq<char>) -> ItemV {
    match find_char(t, ' ') {
        Some(sp) => {
            let cmd = t.take(sp);
            let rest = trim(t.skip(sp));
            if cmd == ".org"@ {
                match operand16(rest) {
                    Some(v) => ItemV::Org(v),
                    None => ItemV::Bad,
                }
            } else if cmd == ".word"@ {
                match operand16(rest) {
                    Some(v) => ItemV::WordData(v),
                    None => ItemV::Bad,
                }
            } else {
                ItemV::Bad
            }
        },
        None => ItemV::Bad,
    }
}

/// Classifies a comment. A `// ++pdb f:l:c` marker with exactly two colons
/// must carry three numbers; any other comment is ignored.
pub open spec fn classify_comment(t: Seq<char>) -> ItemV {
    if has_prefix(t, "// ++pdb "@) {
        let rest = t.skip(9);
        match find_char(rest, ':') {
            Some(i) => {
                let tail = rest.skip(i + 1);
                match find_char(tail, ':') {
                    Some(j) => {
                        if tail.skip(j + 1).contains(':') {
                            ItemV::Blank
                        } else {
                            let p1 = rest.take(i);
                            let p2 = tail.take(j);
                            let p3 = tail.skip(j + 1);
                            if p1.len() > 0 && all_dec_digits(p1) && dec_val(p1) <= usize::MAX
                                as nat && p2.len() > 0 && all_dec_digits(p2) && dec_val(p2)
                                <= usize::MAX as nat && p3.len() > 0 && all_dec_digits(p3)
                                && dec_val(p3) <= usize::MAX as nat {
                                ItemV::PdbMark(
                                    dec_val(p1) as usize,
                                    dec_val(p2) as usize,
                                    dec_val(p3) as usize,
                                )
                            } else {
                                ItemV::Bad
                            }
                        }
                    },
                    None => ItemV::Blank,
                }
            },
            None => ItemV::Blank,
        }
    } else {
        ItemV::Blank
    }
}

/// Classifies a C-instruction `dest=comp;jump` with optional `dest=` and
/// optional `;jump`, and encodes it.
pub open spec fn classify_c(t: Seq<char>) -> ItemV {
    let dest = match find_char(t, '=') {
        Some(i) => t.take(i),
        None => Seq::<char>::empty(),
    };
    let rest = match find_char(t, '=') {
        Some(i) => t.skip(i + 1),
        None => t,
    };
    let comp = match find_char(rest, ';') {
        Some(j) => rest.take(j),
        None => rest,
    };
    let jump = match find_char(rest, ';') {
        Some(j) => rest.skip(j + 1),
        None => Seq::<char>::empty(),
    };
    if valid_dest(dest) && comp_bits(comp) is Some && jump_bits(jump) is Some {
        ItemV::CInst(
            encode_c(comp_bits(comp).unwrap(), dest_bits(dest), jump_bits(jump).unwrap()),
        )
    } else {
        ItemV::Bad
    }
}

/// A missing occurrence means the character is absent, and vice versa.
pub proof fn lemma_find_char_contains(s: Seq<char>, c: char)
    ensures
        (find_char(s, c) is Some) == s.contains(c),
    decreases s.len(),
{
    if s.len() > 0 {
        lemma_find_char_contains(s.drop_first(), c);
        if s[0] != c {
            if s.contains(c) {
                let i = choose|i: int| 0 <= i < s.len() && s[i] == c;
                assert(s.drop_first()[i - 1] == c);
            }
            if s.drop_first().contains(c) {
                let i = choose|i: int| 0 <= i < s.drop_first().len() && s.drop_first()[i] == c;
                assert(s[i + 1] == c);
            }
        }
    }
}

/// Executable test for `all_dec_digits`.
pub fn check_all_dec(s: &[char]) -> (r: bool)
    ensures
        r == all_dec_digits(s@),
{
    let mut i: usize = 0;
    while i < s.len()
        invariant
            i <= s@.len(),
            forall|j: int| 0 <= j < i ==> is_dec_digit(#[trigger] s@[j]),
        decreases s@.len() - i,
    {
        if !check_dec_digit(s[i]) {
            return false;
        }
        i = i + 1;
    }
    true
}

/// Classifies one trimmed assembly line.
pub open spec fn classify(t: Seq<char>) -> ItemV {
    if t.len() == 0 {
        ItemV::Blank
    } else if t[0] == '(' {
        if t.last() == ')' && valid_symbol(t.subrange(1, t.len() - 1)) {
            ItemV::LabelDef(t.subrange(1, t.len() - 1))
        } else {
            ItemV::Bad
        }
    } else if t[0] == '@' {
        classify_at(t.skip(1))
    } else if t[0] == '.' {
        classify_directive(t)
    } else if has_prefix(t, "//"@) {
        classify_comment(t)
    } else if t[0] == '/' {
        ItemV::Bad
    } else {
        classify_c(t)
    }
}

/// Reads the part after `@`.
fn parse_at_part(r: &[char]) -> (res: Option<AsmItem>)
    ensures
        match res {
            Some(it) => it@ == classify_at(r@),
            None => classify_at(r@) is Bad,
        },
{
    let hx = crate::text::chars_of("0x");
    let hxu = crate::text::chars_of("0X");
    proof {
        reveal_strlit("0x");
        reveal_strlit("0X");
    }
    if crate::text::starts_with(r, hx.as_slice()) || crate::text::starts_with(r, hxu.as_slice()) {
        match parse_hex(r, 2, r.len()) {
            Some(v) => {
                assert(r@.subrange(2, r@.len() as int) =~= r@.skip(2));
                if v <= 0x7fff_ffff_ffff_ffff {
                    Some(AsmItem::AConst((v % 0x10000) as u16))
                } else {
                    None
                }
            },
            None => {
                assert(r@.subrange(2, r@.len() as int) =~= r@.skip(2));
                None
            },
        }
    } else if r.len() > 0 && check_all_dec(r) {
        assert(r@.subrange(0, r@.len() as int) =~= r@);
        match parse_dec(r, 0, r.len()) {
            Some(v) => {
                if v <= 0x7fff_ffff_ffff_ffff {
                    Some(AsmItem::AConst((v % 0x10000) as u16))
                } else {
                    None
                }
            },
            None => None,
        }
    } else if check_symbol(r) {
        match lookup_reserved(r) {
            Some(v) => Some(AsmItem::AConst(v)),
            None => Some(AsmItem::ASym(subvec(r, 0, r.len()))),
        }
    } else {
        None
    }
}

/// Reads a directive operand.
fn parse_operand16(s: &[char]) -> (r: Option<u16>)
    ensures
        r == operand16(s@),
{
    let hx = crate::text::chars_of("0x");
    let hxu = crate::text::chars_of("0X");
    proof {
        reveal_strlit("0x");
        reveal_strlit("0X");
    }
    if crate::text::starts_with(s, hx.as_slice()) || crate::text::starts_with(s, hxu.as_slice()) {
        assert(s@.subrange(2, s@.len() as int) =~= s@.skip(2));
        match parse_hex(s, 2, s.len()) {
            Some(v) => {
                if v <= 0xffff {
                    Some(v as u16)
                } else {
                    None
                }
            },
            None => None,
        }
    } else {
        assert(s@.subrange(0, s@.len() as int) =~= s@);
        match parse_dec(s, 0, s.len()) {
            Some(v) => {
                if v <= 0xffff {
                    Some(v as u16)
                } else {
                    None
                }
            },
            None => None,
        }
    }
}

/// Reads a `.org` or `.word` directive line.
fn parse_directive_part(t: &[char]) -> (res: Option<AsmItem>)
    ensures
        match res {
            Some(it) => it@ == classify_directive(t@),
            None => classify_directive(t@) is Bad,
        },
{
    match find_char_at(t, ' ') {
        Some(sp) => {
            let cmd = subvec(t, 0, sp);
            assert(cmd@ =~= t@.take(sp as int));
            let rest_raw = subvec(t, sp, t.len());
            assert(rest_raw@ =~= t@.skip(sp as int));
            let rest = crate::text::trim_chars(&rest_raw);
            if crate::keymap::chars_eq_lit(cmd.as_slice(), ".org") {
                match parse_operand16(rest.as_slice()) {
                    Some(v) => Some(AsmItem::Org(v)),
                    None => None,
                }
            } else if crate::keymap::chars_eq_lit(cmd.as_slice(), ".word") {
                match parse_operand16(rest.as_slice()) {
                    Some(v) => Some(AsmItem::WordData(v)),
                    None => None,
                }
            } else {
                None
            }
        },
        None => None,
    }
}

/// Reads a comment line, recognizing the debug-marker protocol.
fn parse_comment_part(t: &[char]) -> (res: Option<AsmItem>)
    ensures
        match res {
            Some(it) => it@ == classify_comment(t@),
            None => classify_comment(t@) is Bad,
        },
{
    let marker = crate::text::chars_of("// ++pdb ");
    if !crate::text::starts_with(t, marker.as_slice()) {
        return Some(AsmItem::Blank);
    }
    proof {
        reveal_strlit("// ++pdb ");
        assert(marker@.len() == 9);
    }
    let rest = subvec(t, 9, t.len());
    assert(rest@ =~= t@.skip(9));
    let i = match find_char_at(rest.as_slice(), ':') {
        Some(i) => i,
        None => {
            return Some(AsmItem::Blank);
        },
    };
    let tail = subvec(rest.as_slice(), i + 1, rest.len());
    assert(tail@ =~= rest@.skip(i + 1));
    let j = match find_char_at(tail.as_slice(), ':') {
        Some(j) => j,
        None => {
            return Some(AsmItem::Blank);
        },
    };
    let tail2 = subvec(tail.as_slice(), j + 1, tail.len());
    assert(tail2@ =~= tail@.skip(j + 1));
    proof {
        lemma_find_char_contains(tail2@, ':');
    }
    if let Some(_) = find_char_at(tail2.as_slice(), ':') {
        return Some(AsmItem::Blank);
    }
    assert(rest@.subrange(0, i as int) =~= rest@.take(i as int));
    assert(tail@.subrange(0, j as int) =~= tail@.take(j as int));
    assert(tail2@.subrange(0, tail2@.len() as int) =~= tail2@);
    let p1 = parse_dec(rest.as_slice(), 0, i);
    let p2 = parse_dec(tail.as_slice(), 0, j);
    let p3 = parse_dec(tail2.as_slice(), 0, tail2.len());
    match (p1, p2, p3) {
        (Some(f), Some(l), Some(c)) => {
            if f <= usize::MAX as u64 && l <= usize::MAX as u64 && c <= usize::MAX as u64 {
                Some(AsmItem::PdbMark(f as usize, l as usize, c as usize))
            } else {
                None
            }
        },
        _ => None,
    }
}

/// Reads a C-instruction line.
fn parse_c_part(t: &[char]) -> (res: Option<AsmItem>)
    ensures
        match res {
            Some(it) => it@ == classify_c(t@),
            None => classify_c(t@) is Bad,
        },
{
    let (dest, rest) = match find_char_at(t, '=') {
        Some(i) => {
            assert(i < t@.len());
            let d = subvec(t, 0, i);
            assert(d@ =~= t@.take(i as int));
            let r = subvec(t, i + 1, t.len());
            assert(r@ =~= t@.skip(i + 1));
            (d, r)
        },
        None => {
            let r = subvec(t, 0, t.len());
            assert(r@ =~= t@);
            (Vec::new(), r)
        },
    };
    let (comp, jump) = match find_char_at(rest.as_slice(), ';') {
        Some(j) => {
            let c = subvec(rest.as_slice(), 0, j);
            assert(c@ =~= rest@.take(j as int));
            let ju = subvec(rest.as_slice(), j + 1, rest.len());
            assert(ju@ =~= rest@.skip(j + 1));
            (c, ju)
        },
        None => {
            let c = subvec(rest.as_slice(), 0, rest.len());
            assert(c@ =~= rest@);
            (c, Vec::new())
        },
    };
    let db = match parse_dest(dest.as_slice()) {
        Some(db) => db,
        None => {
            return None;
        },
    };
    let cb = match parse_comp(comp.as_slice()) {
        Some(cb) => cb,
        None => {
            return None;
        },
    };
    let jb = match parse_jump(jump.as_slice()) {
        Some(jb) => jb,
        None => {
            return None;
        },
    };
    assert(cb < 128 && db < 8 && jb < 8);
    let word: u16 = 0xe000 + cb * 64 + db * 8 + jb;
    Some(AsmItem::CInst(word))
}

/// The grammar front of the assembler.
pub struct AsmParser;

impl AsmParser {
    /// Classifies one trimmed assembly line; `None` is a syntax error.
    pub fn parse_line(t: &[char]) -> (res: Option<AsmItem>)
        ensures
            match res {
                Some(it) => it@ == classify(t@) && !(classify(t@) is Bad),
                None => classify(t@) is Bad,
            },
    {
        if t.len() == 0 {
            return Some(AsmItem::Blank);
        }
        let c0 = t[0];
        if c0 == '(' {
            if t[t.len() - 1] != ')' {
                return None;
            }
            let mid = subvec(t, 1, t.len() - 1);
            if check_symbol(mid.as_slice()) {
                Some(AsmItem::LabelDef(mid))
            } else {
                None
            }
        } else if c0 == '@' {
            let rest = subvec(t, 1, t.len());
            assert(rest@ =~= t@.skip(1));
            parse_at_part(rest.as_slice())
        } else if c0 == '.' {
            parse_directive_part(t)
        } else {
            let slashes = crate::text::chars_of("//");
            if crate::text::starts_with(t, slashes.as_slice()) {
                parse_comment_part(t)
            } else if c0 == '/' {
                proof {
                    reveal_strlit("//");
                }
                None
            } else {
                proof {
                    reveal_strlit("//");
                }
                parse_c_part(t)
            }
        }
    }
}

} // verus!
