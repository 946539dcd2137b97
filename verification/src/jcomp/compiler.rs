//! The compiler from the class language to VM text: a tokenizer, a
//! recursive-descent walk of the class with flat left-to-right expressions,
//! and per-statement emission with debug markers.
use crate::jcomp::symbols::{Symbol, SymbolTable, VarKind, VarType};
use crate::keymap::{chars_eq_lit, find_in};
use crate::pdb::{FileInfo, FileType, Pdb, SymbolType};
use crate::text::{push_char, push_chars, push_dec, string_of, string_of_str, chars_of};
use vstd::prelude::*;

verus! {

/// One token with its source position.
pub struct Tok {
    pub kind: TokKind,
    pub line: usize,
    pub col: usize,
}

/// What a token is.
pub enum TokKind {
    /// A single punctuation or operator character.
    Punct(char),
    /// A non-negative integer constant.
    IntConst(u16),
    /// A string constant, quotes removed.
    StrConst(Vec<char>),
    /// An identifier or keyword.
    Word(Vec<char>),
}

/// How compiling a class fails. Unresolved names are not fatal: they set
/// the failure flag and compilation goes on.
#[derive(Clone, Copy, Debug, PartialEq, Eq, Structural)]
pub enum JackError {
    /// Bad character, unterminated text, or a construct out of place, at
    /// the given source line.
    Syntax { line: usize },
    /// An integer constant above the machine's positive range.
    BigConstant { line: usize },
    /// Too many symbols.
    TableFull { line: usize },
}

/// The grammar front of the class compiler.
pub struct JackParser;

impl JackParser {
    /// Cuts a source text into tokens, tracking line and column; comments
    /// and whitespace separate tokens and are dropped.
    pub fn tokenize(src: &[char]) -> (r: Result<Vec<Tok>, JackError>) {
        let mut toks: Vec<Tok> = Vec::new();
        let mut i: usize = 0;
        let mut line: usize = 1;
        let mut col: usize = 1;
        let n = src.len();
        while i < n
            invariant
                i <= n == src@.len(),
            decreases n - i,
        {
            let c = src[i];
            if c == '\n' {
                line = if line < usize::MAX {
                    line + 1
                } else {
                    line
                };
                col = 1;
                i = i + 1;
            } else if c == ' ' || c == '\t' || c == '\r' {
                col = if col < usize::MAX {
                    col + 1
                } else {
                    col
                };
                i = i + 1;
            } else if c == '/' && i + 1 < n && src[i + 1] == '/' {
                i = i + 2;
                let ghost i_entry = i;
                while i < n && src[i] != '\n'
                    invariant
                        i_entry <= i <= n == src@.len(),
                    decreases n - i,
                {
                    i = i + 1;
                }
            } else if c == '/' && i + 1 < n && src[i + 1] == '*' {
                i = i + 2;
                let ghost i_entry = i;
                let mut closed = false;
                while i < n && !closed
                    invariant
                        i_entry <= i <= n == src@.len(),
                    decreases n - i,
                {
                    if src[i] == '*' && i + 1 < n && src[i + 1] == '/' {
                        i = i + 2;
                        closed = true;
                    } else {
                        if src[i] == '\n' {
                            line = if line < usize::MAX {
                                line + 1
                            } else {
                                line
                            };
                            col = 1;
                        }
                        i = i + 1;
                    }
                }
                if !closed {
                    return Err(JackError::Syntax { line });
                }
            } else if crate::text::check_dec_digit(c) {
                let start = i;
                let mut value: u32 = (c as u32) - 48;
                let mut overflow = value > 0x7fff;
                if overflow {
                    value = 0;
                }
                i = i + 1;
                while i < n && crate::text::check_dec_digit(src[i])
                    invariant
                        start < i <= n,
                        n == src@.len(),
                        value <= 0x7fff,
                    decreases n - i,
                {
                    let d = (src[i] as u32) - 48;
                    let next = value * 10 + d;
                    if next > 0x7fff {
                        overflow = true;
                        value = 0;
                    } else {
                        value = next;
                    }
                    i = i + 1;
                }
                if overflow {
                    return Err(JackError::BigConstant { line });
                }
                toks.push(Tok { kind: TokKind::IntConst(value as u16), line, col });
                col = if col < usize::MAX {
                    col + 1
                } else {
                    col
                };
            } else if c == '"' {
                i = i + 1;
                let ghost i_entry = i;
                let mut text: Vec<char> = Vec::new();
                let mut closed = false;
                while i < n && !closed
                    invariant
                        i_entry <= i <= n == src@.len(),
                    decreases n - i,
                {
                    if src[i] == '"' {
                        closed = true;
                    } else if src[i] == '\n' {
                        return Err(JackError::Syntax { line });
                    } else {
                        text.push(src[i]);
                    }
                    i = i + 1;
                }
                if !closed {
                    return Err(JackError::Syntax { line });
                }
                toks.push(Tok { kind: TokKind::StrConst(text), line, col });
                col = if col < usize::MAX {
                    col + 1
                } else {
                    col
                };
            } else if crate::assembler::parse::check_symbol_char(c) && !crate::text::check_dec_digit(
                c,
            ) && c != '.' && c != '$' && c != ':' {
                let start = i;
                i = i + 1;
                while i < n && (crate::assembler::parse::check_symbol_char(src[i]) && src[i] != '.'
                    && src[i] != '$' && src[i] != ':')
                    invariant
                        start < i <= n,
                        n == src@.len(),
                    decreases n - i,
                {
                    i = i + 1;
                }
                let word = crate::assembler::parse::subvec(src, start, i);
                toks.push(Tok { kind: TokKind::Word(word), line, col });
                col = if col < usize::MAX {
                    col + 1
                } else {
                    col
                };
            } else if c == '{' || c == '}' || c == '(' || c == ')' || c == '[' || c == ']' || c
                == '.' || c == ',' || c == ';' || c == '+' || c == '-' || c == '*' || c == '/' || c
                == '&' || c == '|' || c == '<' || c == '>' || c == '=' || c == '~' {
                toks.push(Tok { kind: TokKind::Punct(c), line, col });
                col = if col < usize::MAX {
                    col + 1
                } else {
                    col
                };
                i = i + 1;
            } else {
                return Err(JackError::Syntax { line });
            }
        }
        Ok(toks)
    }
}

/// A token at the specification level.
pub struct TokSpec {
    pub kind: TokKindV,
    pub line: usize,
    pub col: usize,
}

/// A token kind at the specification level.
pub enum TokKindV {
    Punct(char),
    IntConst(u16),
    StrConst(Seq<char>),
    Word(Seq<char>),
}

impl View for Tok {
    type V = TokSpec;

    open spec fn view(&self) -> TokSpec {
        TokSpec {
            kind: match &self.kind {
                TokKind::Punct(c) => TokKindV::Punct(*c),
                TokKind::IntConst(v) => TokKindV::IntConst(*v),
                TokKind::StrConst(t) => TokKindV::StrConst(t@),
                TokKind::Word(w) => TokKindV::Word(w@),
            },
            line: self.line,
            col: self.col,
        }
    }
}

/// The token view of a token vector.
pub open spec fn tv(toks: Seq<Tok>) -> Seq<TokSpec> {
    toks.map_values(|t: Tok| t@)
}

/// The given bare word.
pub open spec fn is_wordv(t: TokSpec, w: Seq<char>) -> bool {
    t.kind matches TokKindV::Word(x) && x == w
}

/// The given punctuation.
pub open spec fn is_punctv(t: TokSpec, c: char) -> bool {
    t.kind matches TokKindV::Punct(p) && p == c
}

/// One of the nine binary operators.
pub open spec fn is_opv(t: TokSpec) -> bool {
    ||| is_punctv(t, '+')
    ||| is_punctv(t, '-')
    ||| is_punctv(t, '*')
    ||| is_punctv(t, '/')
    ||| is_punctv(t, '&')
    ||| is_punctv(t, '|')
    ||| is_punctv(t, '<')
    ||| is_punctv(t, '>')
    ||| is_punctv(t, '=')
}

/// One of the four keyword constants.
pub open spec fn is_kw_const(t: TokSpec) -> bool {
    is_wordv(t, "true"@) || is_wordv(t, "false"@) || is_wordv(t, "null"@) || is_wordv(t, "this"@)
}

/// Where the term starting at `pos` ends, if the tokens form one.
pub open spec fn term_end(t: Seq<TokSpec>, pos: int) -> Option<int>
    decreases t.len() - pos, 1int,
{
    if pos < 0 || pos >= t.len() {
        None
    } else {
        match t[pos].kind {
            TokKindV::IntConst(_) => Some(pos + 1),
            TokKindV::StrConst(_) => Some(pos + 1),
            TokKindV::Punct(c) => {
                if c == '(' {
                    match expr_end(t, pos + 1) {
                        Some(e) => if 0 <= e < t.len() && is_punctv(t[e], ')') {
                            Some(e + 1)
                        } else {
                            None
                        },
                        None => None,
                    }
                } else {
                    None
                }
            },
            TokKindV::Word(_) => {
                if is_kw_const(t[pos]) {
                    Some(pos + 1)
                } else if pos + 1 < t.len() && is_punctv(t[pos + 1], '[') {
                    match expr_end(t, pos + 2) {
                        Some(e) => if 0 <= e < t.len() && is_punctv(t[e], ']') {
                            Some(e + 1)
                        } else {
                            None
                        },
                        None => None,
                    }
                } else if pos + 1 < t.len() && (is_punctv(t[pos + 1], '(') || is_punctv(
                    t[pos + 1],
                    '.',
                )) {
                    match subcall_end(t, pos) {
                        Some((e, _)) => Some(e),
                        None => None,
                    }
                } else {
                    Some(pos + 1)
                }
            },
        }
    }
}

/// Where the expression starting at `pos` ends: one term, optionally
/// preceded by a unary operator, then any chain of operator-term pairs.
pub open spec fn expr_end(t: Seq<TokSpec>, pos: int) -> Option<int>
    decreases t.len() - pos, 2int,
{
    if pos < 0 || pos >= t.len() {
        None
    } else if is_punctv(t[pos], '-') || is_punctv(t[pos], '~') {
        match term_end(t, pos + 1) {
            Some(e) => ops_end(t, if e > pos + 1 && e <= t.len() {
                e
            } else {
                pos + 1
            }),
            None => None,
        }
    } else {
        match term_end(t, pos) {
            Some(e) => ops_end(t, if e > pos && e <= t.len() {
                e
            } else {
                pos + 1
            }),
            None => None,
        }
    }
}

/// Consumes operator-term pairs from `pos` on.
pub open spec fn ops_end(t: Seq<TokSpec>, pos: int) -> Option<int>
    decreases t.len() - pos, 3int,
{
    if 0 <= pos < t.len() && is_opv(t[pos]) {
        match term_end(t, pos + 1) {
            Some(e) => ops_end(t, if e > pos + 1 && e <= t.len() {
                e
            } else {
                pos + 1
            }),
            None => None,
        }
    } else {
        Some(pos)
    }
}

/// Where a call's argument list ending in `)` ends, with the number of
/// argument expressions read.
pub open spec fn args_end(t: Seq<TokSpec>, pos: int) -> Option<(int, nat)>
    decreases t.len() - pos, 4int,
{
    if pos < 0 || pos >= t.len() {
        None
    } else if is_punctv(t[pos], ')') {
        Some((pos + 1, 0nat))
    } else {
        match expr_end(t, pos) {
            Some(e) => {
                let p2 = if 0 <= e < t.len() && is_punctv(t[e], ',') {
                    e + 1
                } else {
                    e
                };
                match args_end(t, if p2 > pos && p2 <= t.len() {
                    p2
                } else {
                    pos + 1
                }) {
                    Some((end, nargs)) => Some((end, (nargs + 1) as nat)),
                    None => None,
                }
            },
            None => None,
        }
    }
}

/// Where the subroutine call starting at `pos` ends, with its explicit
/// argument count.
pub open spec fn subcall_end(t: Seq<TokSpec>, pos: int) -> Option<(int, nat)>
    decreases t.len() - pos, 0int,
{
    if pos < 0 || pos >= t.len() || !(t[pos].kind matches TokKindV::Word(_)) {
        None
    } else if pos + 1 < t.len() && is_punctv(t[pos + 1], '.') {
        if t.len() - pos > 3 && (t[pos + 2].kind matches TokKindV::Word(_)) && is_punctv(
            t[pos + 3],
            '(',
        ) {
            args_end(t, pos + 4)
        } else {
            None
        }
    } else if pos + 1 < t.len() && is_punctv(t[pos + 1], '(') {
        args_end(t, pos + 2)
    } else {
        None
    }
}

/// Where the `let` statement starting at `pos` ends.
#[verifier::opaque]
pub open spec fn let_end(t: Seq<TokSpec>, pos: int) -> Option<int>
    decreases t.len() - pos, 5int,
{
    if !(0 <= pos < t.len() && is_wordv(t[pos], "let"@)) {
        None
    } else if !(pos + 1 < t.len() && (t[pos + 1].kind matches TokKindV::Word(_))) {
        None
    } else if t.len() - pos > 2 && is_punctv(t[pos + 2], '[') {
        match expr_end(t, pos + 3) {
            Some(ip) => {
                if 0 <= ip < t.len() && is_punctv(t[ip], ']') && ip + 1 < t.len() && is_punctv(
                    t[ip + 1],
                    '=',
                ) {
                    match expr_end(t, ip + 2) {
                        Some(vp) => if 0 <= vp < t.len() && is_punctv(t[vp], ';') {
                            Some(vp + 1)
                        } else {
                            None
                        },
                        None => None,
                    }
                } else {
                    None
                }
            },
            None => None,
        }
    } else if t.len() - pos > 2 && is_punctv(t[pos + 2], '=') {
        match expr_end(t, pos + 3) {
            Some(vp) => if 0 <= vp < t.len() && is_punctv(t[vp], ';') {
                Some(vp + 1)
            } else {
                None
            },
            None => None,
        }
    } else {
        None
    }
}

/// Where the `return` statement starting at `pos` ends.
#[verifier::opaque]
pub open spec fn return_end(t: Seq<TokSpec>, pos: int) -> Option<int>
    decreases t.len() - pos, 5int,
{
    if !(0 <= pos < t.len() && is_wordv(t[pos], "return"@)) {
        None
    } else if pos + 1 < t.len() && is_punctv(t[pos + 1], ';') {
        Some(pos + 2)
    } else {
        match expr_end(t, pos + 1) {
            Some(e) => if 0 <= e < t.len() && is_punctv(t[e], ';') {
                Some(e + 1)
            } else {
                None
            },
            None => None,
        }
    }
}

/// Where the `if` statement starting at `pos` ends.
pub open spec fn if_end(t: Seq<TokSpec>, pos: int) -> Option<int>
    decreases t.len() - pos, 5int,
{
    if !(0 <= pos < t.len() && is_wordv(t[pos], "if"@) && pos + 1 < t.len() && is_punctv(
        t[pos + 1],
        '(',
    )) {
        None
    } else {
        match expr_end(t, pos + 2) {
            Some(cp) => {
                if 0 <= cp < t.len() && is_punctv(t[cp], ')') && cp + 1 < t.len() && is_punctv(
                    t[cp + 1],
                    '{',
                ) {
                    match stmts_end(t, if cp + 2 > pos + 1 && cp + 2 <= t.len() {
                        cp + 2
                    } else {
                        pos + 1
                    }) {
                        Some(bp) => {
                            if 0 <= bp < t.len() && is_punctv(t[bp], '}') {
                                if bp + 1 < t.len() && is_wordv(t[bp + 1], "else"@) && bp + 2
                                    < t.len() && is_punctv(t[bp + 2], '{') {
                                    match stmts_end(t, if bp + 3 > pos + 1 && bp + 3 <= t.len() {
                                        bp + 3
                                    } else {
                                        pos + 1
                                    }) {
                                        Some(ep) => if 0 <= ep < t.len() && is_punctv(
                                            t[ep],
                                            '}',
                                        ) {
                                            Some(ep + 1)
                                        } else {
                                            None
                                        },
                                        None => None,
                                    }
                                } else {
                                    Some(bp + 1)
                                }
                            } else {
                                None
                            }
                        },
                        None => None,
                    }
                } else {
                    None
                }
            },
            None => None,
        }
    }
}

/// Where the `while` statement starting at `pos` ends.
pub open spec fn while_end(t: Seq<TokSpec>, pos: int) -> Option<int>
    decreases t.len() - pos, 5int,
{
    if !(0 <= pos < t.len() && is_wordv(t[pos], "while"@) && pos + 1 < t.len() && is_punctv(
        t[pos + 1],
        '(',
    )) {
        None
    } else {
        match expr_end(t, pos + 2) {
            Some(cp) => {
                if 0 <= cp < t.len() && is_punctv(t[cp], ')') && cp + 1 < t.len() && is_punctv(
                    t[cp + 1],
                    '{',
                ) {
                    match stmts_end(t, if cp + 2 > pos + 1 && cp + 2 <= t.len() {
                        cp + 2
                    } else {
                        pos + 1
                    }) {
                        Some(bp) => if 0 <= bp < t.len() && is_punctv(t[bp], '}') {
                            Some(bp + 1)
                        } else {
                            None
                        },
                        None => None,
                    }
                } else {
                    None
                }
            },
            None => None,
        }
    }
}

/// Where the `do` statement starting at `pos` ends.
#[verifier::opaque]
pub open spec fn do_end(t: Seq<TokSpec>, pos: int) -> Option<int>
    decreases t.len() - pos, 5int,
{
    if !(0 <= pos < t.len() && is_wordv(t[pos], "do"@)) {
        None
    } else {
        match subcall_end(t, pos + 1) {
            Some((e, _)) => if 0 <= e < t.len() && is_punctv(t[e], ';') {
                Some(e + 1)
            } else {
                None
            },
            None => None,
        }
    }
}

/// Whether the token at `pos` opens a statement.
pub open spec fn starts_stmt(t: Seq<TokSpec>, pos: int) -> bool {
    0 <= pos < t.len() && (is_wordv(t[pos], "let"@) || is_wordv(t[pos], "if"@) || is_wordv(
        t[pos],
        "while"@,
    ) || is_wordv(t[pos], "do"@) || is_wordv(t[pos], "return"@))
}

/// Where the run of statements starting at `pos` ends: the first position
/// that does not open a statement. `None` only when a statement is
/// malformed.
pub open spec fn stmts_end(t: Seq<TokSpec>, pos: int) -> Option<int>
    decreases t.len() - pos, 6int,
{
    if !starts_stmt(t, pos) {
        Some(if pos < 0 {
            0
        } else {
            pos
        })
    } else {
        let one = if is_wordv(t[pos], "let"@) {
            let_end(t, pos)
        } else if is_wordv(t[pos], "if"@) {
            if_end(t, pos)
        } else if is_wordv(t[pos], "while"@) {
            while_end(t, pos)
        } else if is_wordv(t[pos], "do"@) {
            do_end(t, pos)
        } else {
            return_end(t, pos)
        };
        match one {
            Some(e) => stmts_end(t, if e > pos && e <= t.len() {
                e
            } else {
                pos + 1
            }),
            None => None,
        }
    }
}

/// The line a symbol push compiles to, by the symbol's kind: a field is
/// reached through `this`.
pub open spec fn push_sym_line(kind: VarKind, n: u32) -> Seq<char> {
    (match kind {
        VarKind::Local => "push local "@,
        VarKind::Field => "push this "@,
        VarKind::Static => "push static "@,
        VarKind::Argument => "push argument "@,
    }) + crate::text::dec_rep(n as nat)
}

/// The line a symbol pop compiles to.
pub open spec fn pop_sym_line(kind: VarKind, n: u32) -> Seq<char> {
    (match kind {
        VarKind::Local => "pop local "@,
        VarKind::Field => "pop this "@,
        VarKind::Static => "pop static "@,
        VarKind::Argument => "pop argument "@,
    }) + crate::text::dec_rep(n as nat)
}

/// What kind of subroutine is being compiled.
#[derive(Clone, Copy, PartialEq, Eq, Structural)]
pub enum SubroutineKind {
    Constructor,
    Function,
    Method,
    NoKind,
}

/// The class compiler. One instance compiles one class file to VM text.
pub struct Compiler {
    pub class_name: Vec<char>,
    pub global_symbols: SymbolTable,
    pub subroutine_symbols: SymbolTable,
    pub code: Vec<String>,
    pub subroutine_kind: SubroutineKind,
    pub error: bool,
    pub file_number: usize,
}

impl Compiler {
    /// The emitted VM lines.
    pub open spec fn code_v(&self) -> Seq<Seq<char>> {
        self.code@.map_values(|l: String| l@)
    }

    /// Both symbol tables keep unique names and stay small enough to
    /// index.
    pub open spec fn wf(&self) -> bool {
        &&& self.global_symbols.wf()
        &&& self.subroutine_symbols.wf()
        &&& self.global_symbols.entries().len() < 0xffff
        &&& self.subroutine_symbols.entries().len() < 0xffff
    }

    /// The emitted lines only grow, keeping what was there.
    pub open spec fn code_extends(&self, older: Seq<Seq<char>>) -> bool {
        self.code_v() == older + self.code_v().skip(older.len() as int)
    }

    /// A fresh compiler with nothing compiled.
    pub fn new() -> (c: Compiler)
        ensures
            c.wf(),
            c.code_v().len() == 0,
            c.error == false,
    {
        let c = Compiler {
            class_name: Vec::new(),
            global_symbols: SymbolTable::new(),
            subroutine_symbols: SymbolTable::new(),
            code: Vec::new(),
            subroutine_kind: SubroutineKind::NoKind,
            error: false,
            file_number: 0,
        };
        proof {
            assert(c.code_v() =~= Seq::<Seq<char>>::empty());
        }
        c
    }

    /// Appends one literal line.
    pub fn write(&mut self, line: &str)
        ensures
            final(self).code_v() == old(self).code_v().push(line@),
            final(self).class_name == old(self).class_name,
            final(self).global_symbols == old(self).global_symbols,
            final(self).subroutine_symbols == old(self).subroutine_symbols,
            final(self).subroutine_kind == old(self).subroutine_kind,
            final(self).error == old(self).error,
            final(self).file_number == old(self).file_number,
            old(self).wf() ==> final(self).wf(),
    {
        self.code.push(line.to_owned());
        proof {
            assert(self.code_v() =~= old(self).code_v().push(line@));
        }
    }

    /// Appends one built line.
    fn write_s(&mut self, line: String)
        ensures
            final(self).code_v() == old(self).code_v().push(line@),
            final(self).class_name == old(self).class_name,
            final(self).global_symbols == old(self).global_symbols,
            final(self).subroutine_symbols == old(self).subroutine_symbols,
            final(self).subroutine_kind == old(self).subroutine_kind,
            final(self).error == old(self).error,
            final(self).file_number == old(self).file_number,
            old(self).wf() ==> final(self).wf(),
    {
        let ghost lv = line@;
        self.code.push(line);
        proof {
            assert(self.code_v() =~= old(self).code_v().push(lv));
        }
    }

    /// Emits the push reaching a symbol's storage.
    pub fn push_symbol(&mut self, sym: &Symbol)
        ensures
            final(self).code_v() == old(self).code_v().push(
                push_sym_line(sym.var_kind, sym.number),
            ),
            final(self).class_name == old(self).class_name,
            final(self).global_symbols == old(self).global_symbols,
            final(self).subroutine_symbols == old(self).subroutine_symbols,
            final(self).subroutine_kind == old(self).subroutine_kind,
            final(self).error == old(self).error,
            final(self).file_number == old(self).file_number,
            old(self).wf() ==> final(self).wf(),
    {
        let mut s = String::new();
        match sym.var_kind {
            VarKind::Local => s.append("push local "),
            VarKind::Field => s.append("push this "),
            VarKind::Static => s.append("push static "),
            VarKind::Argument => s.append("push argument "),
        }
        push_dec(&mut s, sym.number as u64);
        assert(s@ =~= push_sym_line(sym.var_kind, sym.number));
        self.write_s(s);
    }

    /// Emits the pop reaching a symbol's storage.
    pub fn pop_symbol(&mut self, sym: &Symbol)
        ensures
            final(self).code_v() == old(self).code_v().push(
                pop_sym_line(sym.var_kind, sym.number),
            ),
            final(self).class_name == old(self).class_name,
            final(self).global_symbols == old(self).global_symbols,
            final(self).subroutine_symbols == old(self).subroutine_symbols,
            final(self).subroutine_kind == old(self).subroutine_kind,
            final(self).error == old(self).error,
            final(self).file_number == old(self).file_number,
            old(self).wf() ==> final(self).wf(),
    {
        let mut s = String::new();
        match sym.var_kind {
            VarKind::Local => s.append("pop local "),
            VarKind::Field => s.append("pop this "),
            VarKind::Static => s.append("pop static "),
            VarKind::Argument => s.append("pop argument "),
        }
        push_dec(&mut s, sym.number as u64);
        assert(s@ =~= pop_sym_line(sym.var_kind, sym.number));
        self.write_s(s);
    }

    /// Resolves a name, subroutine table first, and pushes its value; an
    /// unknown name sets the failure flag.
    pub fn lookup_push_symbol(&mut self, name: &[char])
        requires
            old(self).wf(),
        ensures
            final(self).wf(),
            final(self).class_name == old(self).class_name,
            final(self).global_symbols == old(self).global_symbols,
            final(self).subroutine_symbols == old(self).subroutine_symbols,
            final(self).subroutine_kind == old(self).subroutine_kind,
            final(self).file_number == old(self).file_number,
            match find_in(old(self).subroutine_symbols.entries(), name@) {
                Some(sym) => final(self).code_v() == old(self).code_v().push(
                    push_sym_line(sym.var_kind, sym.number),
                ) && final(self).error == old(self).error,
                None => match find_in(old(self).global_symbols.entries(), name@) {
                    Some(sym) => final(self).code_v() == old(self).code_v().push(
                        push_sym_line(sym.var_kind, sym.number),
                    ) && final(self).error == old(self).error,
                    None => final(self).code_v() == old(self).code_v() && final(self).error,
                },
            },
    {
        let found: Option<Symbol> = match self.subroutine_symbols.get(name) {
            Some(sym) => Some(sym.clone_sym()),
            None => match self.global_symbols.get(name) {
                Some(sym) => Some(sym.clone_sym()),
                None => None,
            },
        };
        match found {
            Some(sym) => {
                self.push_symbol(&sym);
            },
            None => {
                self.error = true;
            },
        }
    }

    /// Emits the multiply call.
    pub fn mul(&mut self)
        ensures
            final(self).code_v() == old(self).code_v().push("call Math.multiply 2"@),
            final(self).class_name == old(self).class_name,
            final(self).global_symbols == old(self).global_symbols,
            final(self).subroutine_symbols == old(self).subroutine_symbols,
            final(self).subroutine_kind == old(self).subroutine_kind,
            final(self).error == old(self).error,
            final(self).file_number == old(self).file_number,
            old(self).wf() ==> final(self).wf(),
    {
        self.write("call Math.multiply 2");
    }

    /// Emits the divide call.
    pub fn div(&mut self)
        ensures
            final(self).code_v() == old(self).code_v().push("call Math.divide 2"@),
            final(self).class_name == old(self).class_name,
            final(self).global_symbols == old(self).global_symbols,
            final(self).subroutine_symbols == old(self).subroutine_symbols,
            final(self).subroutine_kind == old(self).subroutine_kind,
            final(self).error == old(self).error,
            final(self).file_number == old(self).file_number,
            old(self).wf() ==> final(self).wf(),
    {
        self.write("call Math.divide 2");
    }

    /// Emits `push constant <n>`.
    fn push_constant(&mut self, n: u64)
        ensures
            final(self).code_v() == old(self).code_v().push(
                "push constant "@ + crate::text::dec_rep(n as nat),
            ),
            final(self).class_name == old(self).class_name,
            final(self).global_symbols == old(self).global_symbols,
            final(self).subroutine_symbols == old(self).subroutine_symbols,
            final(self).subroutine_kind == old(self).subroutine_kind,
            final(self).error == old(self).error,
            final(self).file_number == old(self).file_number,
            old(self).wf() ==> final(self).wf(),
    {
        let mut s = String::new();
        s.append("push constant ");
        push_dec(&mut s, n);
        assert(s@ =~= "push constant "@ + crate::text::dec_rep(n as nat));
        self.write_s(s);
    }
}

/// `push constant <n>`.
pub open spec fn pc_line(n: nat) -> Seq<char> {
    "push constant "@ + crate::text::dec_rep(n)
}

/// `call <callee> <n>`.
pub open spec fn call_line(callee: Seq<char>, n: nat) -> Seq<char> {
    "call "@ + callee + seq![' '] + crate::text::dec_rep(n)
}

/// The code of a string constant's first `k` characters: each pushed and
/// appended.
pub open spec fn str_chars_upto(sc: Seq<char>, k: int) -> Seq<Seq<char>>
    decreases k,
{
    if k <= 0 {
        Seq::empty()
    } else {
        str_chars_upto(sc, k - 1) + seq![
            pc_line((sc[k - 1] as u32) as nat),
            "call String.appendChar 2"@,
        ]
    }
}

/// The code of a whole string constant.
pub open spec fn str_const_lines(sc: Seq<char>) -> Seq<Seq<char>> {
    seq![pc_line(sc.len()), "call String.new 1"@] + str_chars_upto(sc, sc.len() as int)
}

/// Resolution of a name: the subroutine table first, then the class table.
pub open spec fn resolve2(
    subt: Seq<(Vec<char>, Symbol)>,
    globt: Seq<(Vec<char>, Symbol)>,
    w: Seq<char>,
) -> Option<Symbol> {
    match find_in(subt, w) {
        Some(sym) => Some(sym),
        None => find_in(globt, w),
    }
}

/// The push a resolved name compiles to; an unresolved name emits nothing
/// (and sets the failure flag).
pub open spec fn lookup_lines(
    subt: Seq<(Vec<char>, Symbol)>,
    globt: Seq<(Vec<char>, Symbol)>,
    w: Seq<char>,
) -> Seq<Seq<char>> {
    match resolve2(subt, globt, w) {
        Some(sym) => seq![push_sym_line(sym.var_kind, sym.number)],
        None => Seq::empty(),
    }
}

/// Whether a name resolves in neither table.
pub open spec fn lookup_fails(
    subt: Seq<(Vec<char>, Symbol)>,
    globt: Seq<(Vec<char>, Symbol)>,
    w: Seq<char>,
) -> bool {
    resolve2(subt, globt, w) is None
}

/// Tests whether a token is the given bare word.
fn is_word(t: &Tok, lit: &str) -> (r: bool)
    ensures
        r == is_wordv(t@, lit@),
{
    match &t.kind {
        TokKind::Word(w) => chars_eq_lit(w.as_slice(), lit),
        _ => false,
    }
}

/// Tests whether a token is the given punctuation.
fn is_punct(t: &Tok, c: char) -> (r: bool)
    ensures
        r == is_punctv(t@, c),
{
    match &t.kind {
        TokKind::Punct(p) => *p == c,
        _ => false,
    }
}

/// A `label`/`goto`/`if-goto` line with a minted label `<stem><n>`.
pub open spec fn jline(op: Seq<char>, stem: Seq<char>, n: nat) -> Seq<char> {
    op + seq![' '] + stem + crate::text::dec_rep(n)
}

/// The if statement's emitted shape: condition code, the three-label
/// branch scheme minted at the post-condition emission count, the two
/// bodies.
#[verifier::opaque]
pub open spec fn if_emits(oldc: Seq<Seq<char>>, newc: Seq<Seq<char>>) -> bool {
    exists|cond: Seq<Seq<char>>, body: Seq<Seq<char>>, tail: Seq<Seq<char>>|
        #![trigger cond.len(), body.len(), tail.len()]
        ({
            let site = (oldc.len() + cond.len()) as nat;
            newc == oldc + cond + seq![
                jline("if-goto"@, "IFTRUE"@, site),
                jline("goto"@, "IFFALSE"@, site),
                jline("label"@, "IFTRUE"@, site),
            ] + body + seq![
                jline("goto"@, "IFEND"@, site),
                jline("label"@, "IFFALSE"@, site),
            ] + tail + seq![jline("label"@, "IFEND"@, site)]
        })
}

/// The let statement's emitted shape: for the array form the base push,
/// the index, `add`, the value and the canonical store; for the plain
/// form the value and the pop to the resolved symbol, with the failure
/// flag set when the name resolves in neither table.
#[verifier::opaque]
pub open spec fn let_emits(
    subt: Seq<(Vec<char>, Symbol)>,
    globt: Seq<(Vec<char>, Symbol)>,
    t: Seq<TokSpec>,
    pos: int,
    oldc: Seq<Seq<char>>,
    newc: Seq<Seq<char>>,
    err1: bool,
) -> bool {
    let w = t[pos + 1].kind->Word_0;
    if t.len() - pos > 2 && is_punctv(t[pos + 2], '[') {
        exists|idx: Seq<Seq<char>>, rhs: Seq<Seq<char>>|
            #![trigger idx.len(), rhs.len()]
            newc == oldc + lookup_lines(subt, globt, w) + idx + seq!["add"@] + rhs + seq![
                "pop temp 0"@,
                "pop pointer 1"@,
                "push temp 0"@,
                "pop that 0"@,
            ]
    } else {
        (exists|rhs: Seq<Seq<char>>|
            newc == oldc + rhs + (match resolve2(subt, globt, w) {
                Some(sym) => seq![pop_sym_line(sym.var_kind, sym.number)],
                None => Seq::empty(),
            })) && (lookup_fails(subt, globt, w) ==> err1)
    }
}

/// The subroutine call's emitted shape: the implicit argument push when
/// one is owed, the argument expressions, and the final call line with
/// the resolved callee and count.
#[verifier::opaque]
pub open spec fn subcall_emits(
    subt: Seq<(Vec<char>, Symbol)>,
    globt: Seq<(Vec<char>, Symbol)>,
    cls: Seq<char>,
    t: Seq<TokSpec>,
    pos: int,
    nargs: nat,
    oldc: Seq<Seq<char>>,
    newc: Seq<Seq<char>>,
) -> bool {
    let a = t[pos].kind->Word_0;
    if pos + 1 < t.len() && is_punctv(t[pos + 1], '.') {
        let b = t[pos + 2].kind->Word_0;
        match resolve2(subt, globt, a) {
            Some(sym) => if sym.var_type matches VarType::Instance(cl) {
                exists|args: Seq<Seq<char>>|
                    #![trigger args.len()]
                    newc == oldc + seq![push_sym_line(sym.var_kind, sym.number)] + args + seq![
                        call_line(sym.var_type->Instance_0@ + seq!['.'] + b, (nargs + 1) as nat),
                    ]
            } else {
                exists|args: Seq<Seq<char>>|
                    #![trigger args.len()]
                    newc == oldc + args + seq![call_line(a + seq!['.'] + b, nargs)]
            },
            None => exists|args: Seq<Seq<char>>|
                #![trigger args.len()]
                newc == oldc + args + seq![call_line(a + seq!['.'] + b, nargs)],
        }
    } else {
        exists|args: Seq<Seq<char>>|
            #![trigger args.len()]
            newc == oldc + seq!["push pointer 0"@] + args + seq![
                call_line(cls + seq!['.'] + a, (nargs + 1) as nat),
            ]
    }
}

/// The while statement's emitted shape: the head label at the statement
/// site, the condition, `not`, the exit branch, the body, and the back
/// jump.
#[verifier::opaque]
pub open spec fn while_emits(oldc: Seq<Seq<char>>, newc: Seq<Seq<char>>) -> bool {
    exists|cond: Seq<Seq<char>>, body: Seq<Seq<char>>|
        #![trigger cond.len(), body.len()]
        ({
            let h = oldc.len() as nat;
            let t = (oldc.len() + 1 + cond.len() + 1) as nat;
            newc == oldc.push(jline("label"@, "WHILE"@, h)) + cond + seq![
                "not"@,
                jline("if-goto"@, "ENDWHILE"@, t),
            ] + body + seq![jline("goto"@, "WHILE"@, h), jline("label"@, "ENDWHILE"@, t)]
        })
}

/// A debug-marker line `// ++pdb <file>:<line>:<col>`.
pub open spec fn marker_line(f: nat, l: nat, c: nat) -> Seq<char> {
    "// ++pdb "@ + crate::text::dec_rep(f) + seq![':'] + crate::text::dec_rep(l) + seq![':']
        + crate::text::dec_rep(c)
}

/// One well-formed leading statement advances the statement run.
proof fn lemma_stmts_step(t: Seq<TokSpec>, p: int, e: int)
    requires
        starts_stmt(t, p),
        p < e <= t.len(),
        is_wordv(t[p], "let"@) ==> let_end(t, p) == Some(e),
        !is_wordv(t[p], "let"@) && is_wordv(t[p], "if"@) ==> if_end(t, p) == Some(e),
        !is_wordv(t[p], "let"@) && !is_wordv(t[p], "if"@) && is_wordv(t[p], "while"@) ==> while_end(
            t,
            p,
        ) == Some(e),
        !is_wordv(t[p], "let"@) && !is_wordv(t[p], "if"@) && !is_wordv(t[p], "while"@) && is_wordv(
            t[p],
            "do"@,
        ) ==> do_end(t, p) == Some(e),
        !is_wordv(t[p], "let"@) && !is_wordv(t[p], "if"@) && !is_wordv(t[p], "while"@) && !is_wordv(
            t[p],
            "do"@,
        ) && is_wordv(t[p], "return"@) ==> return_end(t, p) == Some(e),
    ensures
        stmts_end(t, p) == stmts_end(t, e),
{
    reveal_strlit("let");
    reveal_strlit("if");
    reveal_strlit("while");
    reveal_strlit("do");
    reveal_strlit("return");
}

/// One malformed leading statement fails the statement run.
proof fn lemma_stmts_fail(t: Seq<TokSpec>, p: int)
    requires
        starts_stmt(t, p),
        is_wordv(t[p], "let"@) ==> let_end(t, p) is None,
        !is_wordv(t[p], "let"@) && is_wordv(t[p], "if"@) ==> if_end(t, p) is None,
        !is_wordv(t[p], "let"@) && !is_wordv(t[p], "if"@) && is_wordv(t[p], "while"@) ==> while_end(
            t,
            p,
        ) is None,
        !is_wordv(t[p], "let"@) && !is_wordv(t[p], "if"@) && !is_wordv(t[p], "while"@) && is_wordv(
            t[p],
            "do"@,
        ) ==> do_end(t, p) is None,
        !is_wordv(t[p], "let"@) && !is_wordv(t[p], "if"@) && !is_wordv(t[p], "while"@) && !is_wordv(
            t[p],
            "do"@,
        ) && is_wordv(t[p], "return"@) ==> return_end(t, p) is None,
    ensures
        stmts_end(t, p) is None,
{
    reveal_strlit("let");
    reveal_strlit("if");
    reveal_strlit("while");
    reveal_strlit("do");
    reveal_strlit("return");
}

/// Assembles the if statement's emitted shape from the staged buffer
/// snapshots.
proof fn lemma_if_assemble(
    code0: Seq<Seq<char>>,
    withcond: Seq<Seq<char>>,
    withhead: Seq<Seq<char>>,
    withbody: Seq<Seq<char>>,
    withmid: Seq<Seq<char>>,
    withtail: Seq<Seq<char>>,
    fin: Seq<Seq<char>>,
    sn: nat,
)
    requires
        sn == withcond.len(),
        code0.len() <= withcond.len(),
        withcond == code0 + withcond.skip(code0.len() as int),
        withhead == withcond + seq![
            jline("if-goto"@, "IFTRUE"@, sn),
            jline("goto"@, "IFFALSE"@, sn),
            jline("label"@, "IFTRUE"@, sn),
        ],
        withbody == withhead + withbody.skip(withhead.len() as int),
        withmid == withbody + seq![
            jline("goto"@, "IFEND"@, sn),
            jline("label"@, "IFFALSE"@, sn),
        ],
        withtail == withmid + withtail.skip(withmid.len() as int),
        fin == withtail.push(jline("label"@, "IFEND"@, sn)),
    ensures
        if_emits(code0, fin),
        fin == code0 + fin.skip(code0.len() as int),
{
    let cond = withcond.skip(code0.len() as int);
    let body = withbody.skip(withhead.len() as int);
    let tail = withtail.skip(withmid.len() as int);
    assert(sn == (code0.len() + cond.len()) as nat);
    assert(fin == code0 + cond + seq![
        jline("if-goto"@, "IFTRUE"@, sn),
        jline("goto"@, "IFFALSE"@, sn),
        jline("label"@, "IFTRUE"@, sn),
    ] + body + seq![
        jline("goto"@, "IFEND"@, sn),
        jline("label"@, "IFFALSE"@, sn),
    ] + tail + seq![jline("label"@, "IFEND"@, sn)]) by {
        assert(fin =~= code0 + cond + seq![
            jline("if-goto"@, "IFTRUE"@, sn),
            jline("goto"@, "IFFALSE"@, sn),
            jline("label"@, "IFTRUE"@, sn),
        ] + body + seq![
            jline("goto"@, "IFEND"@, sn),
            jline("label"@, "IFFALSE"@, sn),
        ] + tail + seq![jline("label"@, "IFEND"@, sn)]);
    }
    assert(if_emits(code0, fin)) by {
        reveal(if_emits);
    }
    assert(fin =~= code0 + fin.skip(code0.len() as int));
}

/// Prefix extension composes.
proof fn lemma_prefix_trans(a: Seq<Seq<char>>, b: Seq<Seq<char>>, c: Seq<Seq<char>>)
    requires
        b == a + b.skip(a.len() as int),
        c == b + c.skip(b.len() as int),
    ensures
        c == a + c.skip(a.len() as int),
{
    assert(c =~= a + c.skip(a.len() as int)) by {
        assert(b.len() >= a.len());
        assert(c.len() >= b.len());
        assert forall|j: int| 0 <= j < c.len() implies c[j] == (a + c.skip(a.len() as int))[j] by {
            if j < a.len() {
                assert(c[j] == b[j]);
                assert(b[j] == a[j]);
            }
        }
    }
}

impl Compiler {
    /// Emits the debug marker `// ++pdb <file>:<line>:<col>` above a
    /// statement's code.
    fn write_marker(&mut self, line: usize, col: usize)
        requires
            old(self).wf(),
        ensures
            final(self).wf(),
            final(self).code_v() == old(self).code_v().push(
                marker_line(old(self).file_number as nat, line as nat, col as nat),
            ),
            final(self).code_extends(old(self).code_v()),
            final(self).class_name == old(self).class_name,
            final(self).global_symbols == old(self).global_symbols,
            final(self).subroutine_symbols == old(self).subroutine_symbols,
            final(self).subroutine_kind == old(self).subroutine_kind,
            final(self).error == old(self).error,
            final(self).file_number == old(self).file_number,
    {
        let mut s = String::new();
        proof {
            reveal_strlit("// ++pdb ");
        }
        s.append("// ++pdb ");
        push_dec(&mut s, self.file_number as u64);
        push_char(&mut s, ':');
        push_dec(&mut s, line as u64);
        push_char(&mut s, ':');
        push_dec(&mut s, col as u64);
        assert(s@ =~= marker_line(self.file_number as nat, line as nat, col as nat));
        self.write_s(s);
        proof {
            assert(final(self).code_v() =~= old(self).code_v() + final(self).code_v().skip(
                old(self).code_v().len() as int,
            ));
        }
    }

    /// Emits `label`, `goto` or `if-goto` with a minted label
    /// `<stem><n>`, where `n` is the emission count at the statement site.
    fn write_jump(&mut self, op: &str, stem: &str, n: usize)
        requires
            old(self).wf(),
        ensures
            final(self).wf(),
            final(self).code_v() == old(self).code_v().push(jline(op@, stem@, n as nat)),
            final(self).code_extends(old(self).code_v()),
            final(self).class_name == old(self).class_name,
            final(self).global_symbols == old(self).global_symbols,
            final(self).subroutine_symbols == old(self).subroutine_symbols,
            final(self).subroutine_kind == old(self).subroutine_kind,
            final(self).error == old(self).error,
            final(self).file_number == old(self).file_number,
    {
        let mut s = String::new();
        s.append(op);
        push_char(&mut s, ' ');
        s.append(stem);
        push_dec(&mut s, n as u64);
        assert(s@ =~= jline(op@, stem@, n as nat));
        self.write_s(s);
        proof {
            assert(final(self).code_v() =~= old(self).code_v() + final(self).code_v().skip(
                old(self).code_v().len() as int,
            ));
        }
    }

    /// Compiles one expression: flat `term (op term)*`, left to right,
    /// with no precedence; the value is left on the stack. Succeeds with
    /// the end position exactly when the grammar accepts an expression
    /// here; the emitted code only grows.
    pub fn do_expr(&mut self, toks: &Vec<Tok>, pos: usize) -> (r: Result<usize, JackError>)
        requires
            old(self).wf(),
            pos <= toks@.len(),
        ensures
            final(self).wf(),
            final(self).class_name == old(self).class_name,
            final(self).global_symbols == old(self).global_symbols,
            final(self).subroutine_symbols == old(self).subroutine_symbols,
            final(self).subroutine_kind == old(self).subroutine_kind,
            final(self).file_number == old(self).file_number,
            final(self).code_extends(old(self).code_v()),
            match r {
                Ok(np) => pos < np <= toks@.len() && expr_end(tv(toks@), pos as int) == Some(
                    np as int,
                ),
                Err(_) => expr_end(tv(toks@), pos as int) is None,
            },
        decreases toks@.len() - pos, 2int,
    {
        let ghost tvv = tv(toks@);
        let ghost code0 = self.code_v();
        let n = toks.len();
        if pos >= n {
            proof {
                assert(self.code_v() =~= code0 + self.code_v().skip(code0.len() as int));
            }
            return Err(JackError::Syntax { line: 0 });
        }
        proof {
            assert(tvv[pos as int] == toks@[pos as int]@);
        }
        let mut p: usize;
        if is_punct(&toks[pos], '-') || is_punct(&toks[pos], '~') {
            let neg = is_punct(&toks[pos], '-');
            p = match self.do_term(toks, pos + 1) {
                Ok(np) => np,
                Err(e) => {
                    proof {
                        assert(self.code_extends(code0));
                    }
                    return Err(e);
                },
            };
            let ghost mid = self.code_v();
            if neg {
                self.write("neg");
            } else {
                self.write("not");
            }
            proof {
                assert(self.code_v() == mid + self.code_v().skip(mid.len() as int)) by {
                    assert(self.code_v() =~= mid + self.code_v().skip(mid.len() as int));
                }
                lemma_prefix_trans(code0, mid, self.code_v());
            }
        } else {
            p = match self.do_term(toks, pos) {
                Ok(np) => np,
                Err(e) => {
                    return Err(e);
                },
            };
        }
        proof {
            assert(expr_end(tvv, pos as int) == ops_end(tvv, p as int));
        }
        while p < n && (is_punct(&toks[p], '+') || is_punct(&toks[p], '-') || is_punct(
            &toks[p],
            '*',
        ) || is_punct(&toks[p], '/') || is_punct(&toks[p], '&') || is_punct(&toks[p], '|')
            || is_punct(&toks[p], '<') || is_punct(&toks[p], '>') || is_punct(&toks[p], '='))
            invariant
                pos < p <= n == toks@.len(),
                tvv == tv(toks@),
                self.wf(),
                self.class_name == old(self).class_name,
                self.global_symbols == old(self).global_symbols,
                self.subroutine_symbols == old(self).subroutine_symbols,
                self.subroutine_kind == old(self).subroutine_kind,
                self.file_number == old(self).file_number,
                self.code_extends(code0),
                code0 == old(self).code_v(),
                expr_end(tvv, pos as int) == ops_end(tvv, p as int),
            decreases n - p,
        {
            proof {
                    assert(tvv[p as int] == toks@[p as int]@);
                assert(is_opv(tvv[p as int]));
            }
            let op: char = match &toks[p].kind {
                TokKind::Punct(c) => *c,
                _ => ' ',
            };
            let ghost pre = self.code_v();
            let np = match self.do_term(toks, p + 1) {
                Ok(np) => np,
                Err(e) => {
                    proof {
                        lemma_prefix_trans(code0, pre, self.code_v());
                    }
                    return Err(e);
                },
            };
            let ghost mid = self.code_v();
            if op == '+' {
                self.write("add");
            } else if op == '-' {
                self.write("sub");
            } else if op == '*' {
                self.mul();
            } else if op == '/' {
                self.div();
            } else if op == '&' {
                self.write("and");
            } else if op == '|' {
                self.write("or");
            } else if op == '<' {
                self.write("lt");
            } else if op == '>' {
                self.write("gt");
            } else {
                self.write("eq");
            }
            proof {
                assert(mid == pre + mid.skip(pre.len() as int));
                lemma_prefix_trans(code0, pre, mid);
                assert(self.code_v() == mid + self.code_v().skip(mid.len() as int)) by {
                    assert(self.code_v() =~= mid + self.code_v().skip(mid.len() as int));
                }
                lemma_prefix_trans(code0, mid, self.code_v());
                assert(ops_end(tvv, p as int) == ops_end(tvv, np as int));
            }
            p = np;
        }
        proof {
            if p < n {
                assert(tvv[p as int] == toks@[p as int]@);
                assert(!is_opv(tvv[p as int]));
            }
            assert(ops_end(tvv, p as int) == Some(p as int));
        }
        Ok(p)
    }

    /// Compiles one term: a constant, a variable, an array entry, a
    /// subroutine call, or a parenthesized expression. Succeeds with the
    /// end position exactly when the grammar accepts a term here, and the
    /// constant, keyword, plain-name and array cases pin their emission;
    /// an unresolvable name sets the failure flag.
    pub fn do_term(&mut self, toks: &Vec<Tok>, pos: usize) -> (r: Result<usize, JackError>)
        requires
            old(self).wf(),
            pos <= toks@.len(),
        ensures
            final(self).wf(),
            final(self).class_name == old(self).class_name,
            final(self).global_symbols == old(self).global_symbols,
            final(self).subroutine_symbols == old(self).subroutine_symbols,
            final(self).subroutine_kind == old(self).subroutine_kind,
            final(self).file_number == old(self).file_number,
            final(self).code_extends(old(self).code_v()),
            match r {
                Ok(np) => {
                    &&& pos < np <= toks@.len()
                    &&& term_end(tv(toks@), pos as int) == Some(np as int)
                    &&& (match tv(toks@)[pos as int].kind {
                        TokKindV::IntConst(v) => final(self).code_v() == old(self).code_v().push(
                            pc_line(v as nat),
                        ) && final(self).error == old(self).error,
                        TokKindV::StrConst(sc) => final(self).code_v() == old(self).code_v()
                            + str_const_lines(sc) && final(self).error == old(self).error,
                        TokKindV::Word(w) => {
                            if w == "true"@ {
                                final(self).code_v() == old(self).code_v().push(
                                    "push constant 1"@,
                                ).push("neg"@) && final(self).error == old(self).error
                            } else if w == "false"@ || w == "null"@ {
                                final(self).code_v() == old(self).code_v().push(
                                    "push constant 0"@,
                                ) && final(self).error == old(self).error
                            } else if w == "this"@ {
                                final(self).code_v() == old(self).code_v().push(
                                    "push pointer 0"@,
                                ) && final(self).error == old(self).error
                            } else if pos + 1 < toks@.len() && is_punctv(
                                tv(toks@)[pos + 1],
                                '[',
                            ) {
                                exists|idx: Seq<Seq<char>>|
                                    final(self).code_v() == old(self).code_v() + lookup_lines(
                                        old(self).subroutine_symbols.entries(),
                                        old(self).global_symbols.entries(),
                                        w,
                                    ) + idx + seq!["add"@, "pop pointer 1"@, "push that 0"@]
                            } else if pos + 1 < toks@.len() && (is_punctv(tv(toks@)[pos + 1], '(')
                                || is_punctv(tv(toks@)[pos + 1], '.')) {
                                true
                            } else {
                                final(self).code_v() == old(self).code_v() + lookup_lines(
                                    old(self).subroutine_symbols.entries(),
                                    old(self).global_symbols.entries(),
                                    w,
                                ) && final(self).error == (old(self).error || lookup_fails(
                                    old(self).subroutine_symbols.entries(),
                                    old(self).global_symbols.entries(),
                                    w,
                                ))
                            }
                        },
                        TokKindV::Punct(_) => true,
                    })
                },
                Err(_) => term_end(tv(toks@), pos as int) is None,
            },
        decreases toks@.len() - pos, 1int,
    {
        let ghost tvv = tv(toks@);
        let ghost code0 = self.code_v();
        let n = toks.len();
        if pos >= n {
            proof {
                assert(self.code_v() =~= code0 + self.code_v().skip(code0.len() as int));
            }
            return Err(JackError::Syntax { line: 0 });
        }
        proof {
            assert(tvv[pos as int] == toks@[pos as int]@);
        }
        let line = toks[pos].line;
        match &toks[pos].kind {
            TokKind::IntConst(v) => {
                let v = *v;
                self.push_constant(v as u64);
                proof {
                    assert(self.code_v() =~= code0 + self.code_v().skip(code0.len() as int));
                }
                Ok(pos + 1)
            },
            TokKind::StrConst(text) => {
                let ghost scv = text@;
                let text_len = text.len();
                let text_copy = crate::assembler::parse::subvec(text.as_slice(), 0, text_len);
                assert(text_copy@ =~= scv);
                self.push_constant(text_len as u64);
                self.write("call String.new 1");
                let ghost head = self.code_v();
                proof {
                    assert(head =~= code0 + seq![pc_line(scv.len()), "call String.new 1"@]);
                }
                let mut k: usize = 0;
                while k < text_copy.len()
                    invariant
                        k <= text_copy@.len(),
                        text_copy@ == scv,
                        head == code0 + seq![pc_line(scv.len()), "call String.new 1"@],
                        self.code_v() == head + str_chars_upto(scv, k as int),
                        self.wf(),
                        self.class_name == old(self).class_name,
                        self.global_symbols == old(self).global_symbols,
                        self.subroutine_symbols == old(self).subroutine_symbols,
                        self.subroutine_kind == old(self).subroutine_kind,
                        self.error == old(self).error,
                        self.file_number == old(self).file_number,
                    decreases text_copy@.len() - k,
                {
                    let code = text_copy[k] as u32;
                    self.push_constant(code as u64);
                    self.write("call String.appendChar 2");
                    proof {
                        assert(self.code_v() =~= head + str_chars_upto(scv, k + 1));
                    }
                    k = k + 1;
                }
                proof {
                            assert(self.code_v() =~= code0 + str_const_lines(scv));
                    assert(self.code_v() =~= code0 + self.code_v().skip(code0.len() as int));
                }
                Ok(pos + 1)
            },
            TokKind::Punct(c) => {
                if *c == '(' {
                    let np = match self.do_expr(toks, pos + 1) {
                        Ok(np) => np,
                        Err(e) => {
                            return Err(e);
                        },
                    };
                    proof {
                        if np < n {
                            assert(tvv[np as int] == toks@[np as int]@);
                        }
                    }
                    if np < n && is_punct(&toks[np], ')') {
                        Ok(np + 1)
                    } else {
                        Err(JackError::Syntax { line })
                    }
                } else {
                    proof {
                        assert(self.code_v() =~= code0 + self.code_v().skip(code0.len() as int));
                    }
                    Err(JackError::Syntax { line })
                }
            },
            TokKind::Word(w) => {
                let ghost wv = w@;
                if chars_eq_lit(w.as_slice(), "true") {
                    self.write("push constant 1");
                    self.write("neg");
                    proof {
                        assert(self.code_v() =~= code0 + self.code_v().skip(code0.len() as int));
                    }
                    Ok(pos + 1)
                } else if chars_eq_lit(w.as_slice(), "false") || chars_eq_lit(
                    w.as_slice(),
                    "null",
                ) {
                    self.write("push constant 0");
                    proof {
                        assert(self.code_v() =~= code0 + self.code_v().skip(code0.len() as int));
                    }
                    Ok(pos + 1)
                } else if chars_eq_lit(w.as_slice(), "this") {
                    self.write("push pointer 0");
                    proof {
                        assert(self.code_v() =~= code0 + self.code_v().skip(code0.len() as int));
                    }
                    Ok(pos + 1)
                } else if pos + 1 < n && is_punct(&toks[pos + 1], '[') {
                    proof {
                        assert(tvv[pos + 1] == toks@[pos + 1]@);
                        assert(!is_kw_const(tvv[pos as int])) by {
                            reveal_strlit("true");
                            reveal_strlit("false");
                            reveal_strlit("null");
                            reveal_strlit("this");
                        }
                    }
                    let w_len = w.len();
                    let name = crate::assembler::parse::subvec(w.as_slice(), 0, w_len);
                    assert(name@ =~= wv);
                    self.lookup_push_symbol(name.as_slice());
                    let ghost base = self.code_v();
                    proof {
                        assert(base =~= code0 + lookup_lines(
                            old(self).subroutine_symbols.entries(),
                            old(self).global_symbols.entries(),
                            wv,
                        ));
                        assert(base == code0 + base.skip(code0.len() as int)) by {
                            assert(base =~= code0 + base.skip(code0.len() as int));
                        }
                    }
                    let np = match self.do_expr(toks, pos + 2) {
                        Ok(np) => np,
                        Err(e) => {
                            proof {
                                lemma_prefix_trans(code0, base, self.code_v());
                            }
                            return Err(e);
                        },
                    };
                    let ghost withidx = self.code_v();
                    proof {
                        if np < n {
                            assert(tvv[np as int] == toks@[np as int]@);
                        }
                    }
                    if np < n && is_punct(&toks[np], ']') {
                        self.write("add");
                        self.write("pop pointer 1");
                        self.write("push that 0");
                        proof {
                            let idx = withidx.skip(base.len() as int);
                            assert(self.code_v() =~= code0 + lookup_lines(
                                old(self).subroutine_symbols.entries(),
                                old(self).global_symbols.entries(),
                                wv,
                            ) + idx + seq!["add"@, "pop pointer 1"@, "push that 0"@]);
                            assert(self.code_v() =~= code0 + self.code_v().skip(
                                code0.len() as int,
                            ));
                        }
                        Ok(np + 1)
                    } else {
                        proof {
                            lemma_prefix_trans(code0, base, self.code_v());
                        }
                        Err(JackError::Syntax { line })
                    }
                } else if pos + 1 < n && (is_punct(&toks[pos + 1], '(') || is_punct(
                    &toks[pos + 1],
                    '.',
                )) {
                    proof {
                        assert(tvv[pos + 1] == toks@[pos + 1]@);
                        assert(!is_kw_const(tvv[pos as int])) by {
                            reveal_strlit("true");
                            reveal_strlit("false");
                            reveal_strlit("null");
                            reveal_strlit("this");
                        }
                    }
                    self.do_subcall(toks, pos)
                } else {
                    proof {
                        if pos + 1 < n {
                            assert(tvv[pos + 1] == toks@[pos + 1]@);
                        }
                        assert(!is_kw_const(tvv[pos as int])) by {
                            reveal_strlit("true");
                            reveal_strlit("false");
                            reveal_strlit("null");
                            reveal_strlit("this");
                        }
                    }
                    let w_len = w.len();
                    let name = crate::assembler::parse::subvec(w.as_slice(), 0, w_len);
                    assert(name@ =~= wv);
                    self.lookup_push_symbol(name.as_slice());
                    proof {
                        assert(self.code_v() =~= code0 + self.code_v().skip(code0.len() as int));
                    }
                    Ok(pos + 1)
                }
            },
        }
    }

    /// Compiles a subroutine call: a method on a resolved instance gets
    /// the instance pushed as an implicit first argument and the call
    /// counts one more; an unknown left side is a class name; a bare call
    /// is a method on `this`. Succeeds exactly when the grammar accepts a
    /// call here, and the implicit push and the final call line are
    /// pinned.
    pub fn do_subcall(&mut self, toks: &Vec<Tok>, pos: usize) -> (r: Result<usize, JackError>)
        requires
            old(self).wf(),
            pos <= toks@.len(),
        ensures
            final(self).wf(),
            final(self).class_name == old(self).class_name,
            final(self).global_symbols == old(self).global_symbols,
            final(self).subroutine_symbols == old(self).subroutine_symbols,
            final(self).subroutine_kind == old(self).subroutine_kind,
            final(self).file_number == old(self).file_number,
            final(self).code_extends(old(self).code_v()),
            match r {
                Ok(np) => {
                    &&& pos < np <= toks@.len()
                    &&& subcall_end(tv(toks@), pos as int) matches Some(sc) && sc.0 == np as int
                    &&& subcall_emits(
                        old(self).subroutine_symbols.entries(),
                        old(self).global_symbols.entries(),
                        old(self).class_name@,
                        tv(toks@),
                        pos as int,
                        subcall_end(tv(toks@), pos as int)->Some_0.1,
                        old(self).code_v(),
                        final(self).code_v(),
                    )
                },
                Err(_) => subcall_end(tv(toks@), pos as int) is None,
            },
        decreases toks@.len() - pos, 0int,
    {
        let ghost tvv = tv(toks@);
        let ghost code0 = self.code_v();
        let n = toks.len();
        if pos >= n {
            proof {
                assert(self.code_v() =~= code0 + self.code_v().skip(code0.len() as int));
            }
            return Err(JackError::Syntax { line: 0 });
        }
        proof {
            assert(tvv[pos as int] == toks@[pos as int]@);
            if pos + 1 < n {
                assert(tvv[pos + 1] == toks@[pos + 1]@);
            }
        }
        let line = toks[pos].line;
        let a: Vec<char> = match &toks[pos].kind {
            TokKind::Word(w) => crate::assembler::parse::subvec(w.as_slice(), 0, w.len()),
            _ => {
                proof {
                    assert(self.code_v() =~= code0 + self.code_v().skip(code0.len() as int));
                }
                return Err(JackError::Syntax { line });
            },
        };
        assert(a@ =~= tvv[pos as int].kind->Word_0);
        let mut callee = String::new();
        let mut extra: u64 = 0;
        let args_at: usize;
        let ghost mut pushed: Seq<Seq<char>> = Seq::empty();
        if pos + 1 < n && is_punct(&toks[pos + 1], '.') {
            let rem = n - pos;
            if !(rem > 3 && is_punct(&toks[pos + 3], '(')) {
                proof {
                    if pos + 2 < n {
                        assert(tvv[pos + 2] == toks@[pos + 2]@);
                    }
                    if pos + 3 < n {
                        assert(tvv[pos + 3] == toks@[pos + 3]@);
                    }
                    assert(self.code_v() =~= code0 + self.code_v().skip(code0.len() as int));
                }
                return Err(JackError::Syntax { line });
            }
            proof {
                assert(tvv[pos + 2] == toks@[pos + 2]@);
                assert(tvv[pos + 3] == toks@[pos + 3]@);
            }
            let b: Vec<char> = match &toks[pos + 2].kind {
                TokKind::Word(w) => crate::assembler::parse::subvec(w.as_slice(), 0, w.len()),
                _ => {
                    proof {
                        assert(self.code_v() =~= code0 + self.code_v().skip(code0.len() as int));
                    }
                    return Err(JackError::Syntax { line });
                },
            };
            assert(b@ =~= tvv[pos + 2].kind->Word_0);
            let resolved: Option<Symbol> = match self.subroutine_symbols.get(a.as_slice()) {
                Some(sym) => Some(sym.clone_sym()),
                None => match self.global_symbols.get(a.as_slice()) {
                    Some(sym) => Some(sym.clone_sym()),
                    None => None,
                },
            };
            let mut cls: Option<Vec<char>> = None;
            match resolved {
                Some(sym) => {
                    let inst = match self.subroutine_symbols.get(a.as_slice()) {
                        Some(s2) => match &s2.var_type {
                            VarType::Instance(cl) => Some(
                                crate::assembler::parse::subvec(cl.as_slice(), 0, cl.len()),
                            ),
                            _ => None,
                        },
                        None => match self.global_symbols.get(a.as_slice()) {
                            Some(s2) => match &s2.var_type {
                                VarType::Instance(cl) => Some(
                                    crate::assembler::parse::subvec(cl.as_slice(), 0, cl.len()),
                                ),
                                _ => None,
                            },
                            None => None,
                        },
                    };
                    match inst {
                        Some(cl) => {
                            self.push_symbol(&sym);
                            proof {
                                let spec_sym = resolve2(
                                    old(self).subroutine_symbols.entries(),
                                    old(self).global_symbols.entries(),
                                    a@,
                                )->Some_0;
                                pushed = seq![
                                    push_sym_line(spec_sym.var_kind, spec_sym.number),
                                ];
                                assert(cl@ =~= spec_sym.var_type->Instance_0@);
                            }
                            extra = 1;
                            cls = Some(cl);
                        },
                        None => {},
                    }
                },
                None => {},
            }
            match cls {
                Some(cl) => push_chars(&mut callee, cl.as_slice()),
                None => push_chars(&mut callee, a.as_slice()),
            }
            push_char(&mut callee, '.');
            push_chars(&mut callee, b.as_slice());
            args_at = pos + 4;
        } else if pos + 1 < n && is_punct(&toks[pos + 1], '(') {
            push_chars(&mut callee, self.class_name.as_slice());
            push_char(&mut callee, '.');
            push_chars(&mut callee, a.as_slice());
            self.write("push pointer 0");
            proof {
                pushed = seq!["push pointer 0"@];
            }
            extra = 1;
            args_at = pos + 2;
        } else {
            proof {
                assert(self.code_v() =~= code0 + self.code_v().skip(code0.len() as int));
            }
            return Err(JackError::Syntax { line });
        }
        let ghost base = self.code_v();
        proof {
            assert(base =~= code0 + pushed);
            assert(base == code0 + base.skip(code0.len() as int)) by {
                assert(base =~= code0 + base.skip(code0.len() as int));
            }
            assert(subcall_end(tvv, pos as int) == args_end(tvv, args_at as int));
        }
        let mut count: u64 = 0;
        let mut p = args_at;
        assert(pos + 1 < p);
        if p > n {
            return Err(JackError::Syntax { line });
        }
        while p < n && !is_punct(&toks[p], ')')
            invariant
                pos + 1 < p <= n == toks@.len(),
                count <= p,
                tvv == tv(toks@),
                self.wf(),
                self.class_name == old(self).class_name,
                self.global_symbols == old(self).global_symbols,
                self.subroutine_symbols == old(self).subroutine_symbols,
                self.subroutine_kind == old(self).subroutine_kind,
                self.file_number == old(self).file_number,
                self.code_extends(base),
                base == code0 + base.skip(code0.len() as int),
                code0 == old(self).code_v(),
                args_end(tvv, args_at as int) == (match args_end(tvv, p as int) {
                    Some((e, m)) => Some((e, (m + count) as nat)),
                    None => None::<(int, nat)>,
                }),
                subcall_end(tvv, pos as int) == args_end(tvv, args_at as int),
            decreases n - p,
        {
            proof {
                    assert(tvv[p as int] == toks@[p as int]@);
            }
            let ghost pre = self.code_v();
            let np = match self.do_expr(toks, p) {
                Ok(np) => np,
                Err(e) => {
                    proof {
                        lemma_prefix_trans(base, pre, self.code_v());
                        lemma_prefix_trans(code0, base, self.code_v());
                        assert(expr_end(tvv, p as int) is None);
                        assert(args_end(tvv, p as int) is None);
                        assert(args_end(tvv, args_at as int) is None);
                        assert(subcall_end(tvv, pos as int) is None);
                    }
                    return Err(e);
                },
            };
            proof {
                lemma_prefix_trans(base, pre, self.code_v());
                if np < n {
                    assert(tvv[np as int] == toks@[np as int]@);
                }
            }
            count = count + 1;
            if np < n && is_punct(&toks[np], ',') {
                p = np + 1;
            } else {
                p = np;
            }
        }
        if p >= n {
            proof {
                lemma_prefix_trans(code0, base, self.code_v());
            }
            return Err(JackError::Syntax { line });
        }
        proof {
            assert(tvv[p as int] == toks@[p as int]@);
            assert(args_end(tvv, p as int) == Some((p + 1, 0nat)));
        }
        let mut call_ln = String::new();
        call_ln.append("call ");
        call_ln.append(callee.as_str());
        push_char(&mut call_ln, ' ');
        assert(count < 0xffff_ffff_ffff_ffff) by {
            assert(count <= p);
        }
        let total = count + extra;
        push_dec(&mut call_ln, total);
        let ghost withargs = self.code_v();
        self.write_s(call_ln);
        proof {
            reveal_strlit("call ");
            let nargs = subcall_end(tvv, pos as int)->Some_0.1;
            assert(nargs == count as nat);
            let args = withargs.skip(base.len() as int);
            assert(withargs == base + args) by {
                assert(withargs =~= base + args);
            }
            assert(self.code_v() == code0 + pushed + args + seq![call_ln@]) by {
                assert(self.code_v() =~= code0 + pushed + args + seq![call_ln@]);
            }
            assert(subcall_emits(
                old(self).subroutine_symbols.entries(),
                old(self).global_symbols.entries(),
                old(self).class_name@,
                tvv,
                pos as int,
                nargs,
                code0,
                self.code_v(),
            )) by {
                reveal(subcall_emits);
            }
            assert(self.code_v() =~= code0 + self.code_v().skip(code0.len() as int));
        }
        Ok(p + 1)
    }
}

impl Compiler {
    /// Compiles statements until something that is not a statementimpl Compiler {
    /// Compiles one statement, emitting the debug marker with the
    /// statement's source position first; a `do` statement discards its
    /// value with `pop temp 0`.
    #[verifier::rlimit(100)]
    pub fn do_statement(&mut self, toks: &Vec<Tok>, pos: usize) -> (r: Result<usize, JackError>)
        requires
            old(self).wf(),
            pos < toks@.len(),
            starts_stmt(tv(toks@), pos as int),
        ensures
            final(self).wf(),
            final(self).class_name == old(self).class_name,
            final(self).global_symbols == old(self).global_symbols,
            final(self).subroutine_symbols == old(self).subroutine_symbols,
            final(self).subroutine_kind == old(self).subroutine_kind,
            final(self).file_number == old(self).file_number,
            final(self).code_extends(old(self).code_v()),
            match r {
                Ok(np) => pos < np <= toks@.len() && stmts_end(tv(toks@), pos as int) == stmts_end(
                    tv(toks@),
                    np as int,
                ),
                Err(_) => stmts_end(tv(toks@), pos as int) is None,
            },
        decreases toks@.len() - pos, 4int,
    {
        let ghost tvv = tv(toks@);
        let ghost code0 = self.code_v();
        let n = toks.len();
        proof {
            assert(tvv[pos as int] == toks@[pos as int]@);
        }
        let line = toks[pos].line;
        let col = toks[pos].col;
        self.write_marker(line, col);
        let ghost mid = self.code_v();
        if is_word(&toks[pos], "let") {
            let np = match self.do_let(toks, pos) {
                Ok(np) => np,
                Err(e) => {
                    proof {
                        lemma_prefix_trans(code0, mid, self.code_v());
                        lemma_stmts_fail(tvv, pos as int);
                    }
                    return Err(e);
                },
            };
            proof {
                lemma_prefix_trans(code0, mid, self.code_v());
                lemma_stmts_step(tvv, pos as int, np as int);
            }
            Ok(np)
        } else if is_word(&toks[pos], "if") {
            let np = match self.do_if(toks, pos) {
                Ok(np) => np,
                Err(e) => {
                    proof {
                        lemma_prefix_trans(code0, mid, self.code_v());
                        lemma_stmts_fail(tvv, pos as int);
                    }
                    return Err(e);
                },
            };
            proof {
                lemma_prefix_trans(code0, mid, self.code_v());
                lemma_stmts_step(tvv, pos as int, np as int);
            }
            Ok(np)
        } else if is_word(&toks[pos], "while") {
            let np = match self.do_while(toks, pos) {
                Ok(np) => np,
                Err(e) => {
                    proof {
                        lemma_prefix_trans(code0, mid, self.code_v());
                        lemma_stmts_fail(tvv, pos as int);
                    }
                    return Err(e);
                },
            };
            proof {
                lemma_prefix_trans(code0, mid, self.code_v());
                lemma_stmts_step(tvv, pos as int, np as int);
            }
            Ok(np)
        } else if is_word(&toks[pos], "do") {
            let np = match self.do_subcall(toks, pos + 1) {
                Ok(np) => np,
                Err(e) => {
                    proof {
                        lemma_prefix_trans(code0, mid, self.code_v());
                        reveal_with_fuel(do_end, 1);
                        assert(do_end(tvv, pos as int) is None);
                        lemma_stmts_fail(tvv, pos as int);
                    }
                    return Err(e);
                },
            };
            proof {
                lemma_prefix_trans(code0, mid, self.code_v());
                if np < n {
                    assert(tvv[np as int] == toks@[np as int]@);
                }
            }
            if !(np < n && is_punct(&toks[np], ';')) {
                proof {
                    reveal_with_fuel(do_end, 1);
                    assert(do_end(tvv, pos as int) is None);
                    lemma_stmts_fail(tvv, pos as int);
                }
                return Err(JackError::Syntax { line });
            }
            let ghost mid2 = self.code_v();
            proof {
                lemma_prefix_trans(code0, mid, mid2);
            }
            self.write("pop temp 0");
            proof {
                assert(self.code_v() == mid2 + self.code_v().skip(mid2.len() as int)) by {
                    assert(self.code_v() =~= mid2 + self.code_v().skip(mid2.len() as int));
                }
                lemma_prefix_trans(code0, mid2, self.code_v());
                reveal_with_fuel(do_end, 1);
                assert(do_end(tvv, pos as int) == Some(np + 1));
                lemma_stmts_step(tvv, pos as int, np + 1);
            }
            Ok(np + 1)
        } else {
            let np = match self.do_return(toks, pos) {
                Ok(np) => np,
                Err(e) => {
                    proof {
                        lemma_prefix_trans(code0, mid, self.code_v());
                        lemma_stmts_fail(tvv, pos as int);
                    }
                    return Err(e);
                },
            };
            proof {
                lemma_prefix_trans(code0, mid, self.code_v());
                lemma_stmts_step(tvv, pos as int, np as int);
            }
            Ok(np)
        }
    }

    /// Compiles statements until something that is not a statement.
    /// Succeeds with the stopping position exactly when every leading
    /// statement is well formed.
    pub fn do_statements(&mut self, toks: &Vec<Tok>, pos: usize) -> (r: Result<usize, JackError>)
        requires
            old(self).wf(),
            pos <= toks@.len(),
        ensures
            final(self).wf(),
            final(self).class_name == old(self).class_name,
            final(self).global_symbols == old(self).global_symbols,
            final(self).subroutine_symbols == old(self).subroutine_symbols,
            final(self).subroutine_kind == old(self).subroutine_kind,
            final(self).file_number == old(self).file_number,
            final(self).code_extends(old(self).code_v()),
            match r {
                Ok(np) => pos <= np <= toks@.len() && stmts_end(tv(toks@), pos as int) == Some(
                    np as int,
                ),
                Err(_) => stmts_end(tv(toks@), pos as int) is None,
            },
        decreases toks@.len() - pos, 5int,
    {
        let ghost tvv = tv(toks@);
        let ghost code0 = self.code_v();
        let n = toks.len();
        let mut p = pos;
        proof {
            assert(self.code_v() =~= code0 + self.code_v().skip(code0.len() as int));
        }
        loop
            invariant
                pos <= p <= n == toks@.len(),
                tvv == tv(toks@),
                self.wf(),
                self.class_name == old(self).class_name,
                self.global_symbols == old(self).global_symbols,
                self.subroutine_symbols == old(self).subroutine_symbols,
                self.subroutine_kind == old(self).subroutine_kind,
                self.file_number == old(self).file_number,
                self.code_extends(code0),
                code0 == old(self).code_v(),
                stmts_end(tvv, pos as int) == stmts_end(tvv, p as int),
            decreases toks@.len() - p, 4int,
        {
            if p >= n {
                proof {
                    assert(!starts_stmt(tvv, p as int));
                    assert(stmts_end(tvv, p as int) == Some(p as int));
                }
                return Ok(p);
            }
            proof {
                assert(tvv[p as int] == toks@[p as int]@);
            }
            if !(is_word(&toks[p], "let") || is_word(&toks[p], "if") || is_word(&toks[p], "while")
                || is_word(&toks[p], "do") || is_word(&toks[p], "return")) {
                proof {
                    assert(!starts_stmt(tvv, p as int));
                    assert(stmts_end(tvv, p as int) == Some(p as int));
                }
                return Ok(p);
            }
            let ghost pre = self.code_v();
            let np = match self.do_statement(toks, p) {
                Ok(np) => np,
                Err(e) => {
                    proof {
                        lemma_prefix_trans(code0, pre, self.code_v());
                    }
                    return Err(e);
                },
            };
            proof {
                lemma_prefix_trans(code0, pre, self.code_v());
            }
            p = np;
        }
    }

    /// Compiles `let name = expr;` or the array store    /// Compiles `let name = expr;` or the array store    /// Compiles `let name = expr;` or the array store
    /// `let name[index] = expr;`. Succeeds with the end position exactly
    /// when the grammar accepts a let statement here. The plain form pops
    /// the value to the resolved symbol, subroutine table first, and an
    /// unresolvable name sets the failure flag; the array form pushes the
    /// base, the index, `add`, the value, and the canonical store
    /// sequence.
    pub fn do_let(&mut self, toks: &Vec<Tok>, pos: usize) -> (r: Result<usize, JackError>)
        requires
            old(self).wf(),
            pos <= toks@.len(),
        ensures
            final(self).wf(),
            final(self).class_name == old(self).class_name,
            final(self).global_symbols == old(self).global_symbols,
            final(self).subroutine_symbols == old(self).subroutine_symbols,
            final(self).subroutine_kind == old(self).subroutine_kind,
            final(self).file_number == old(self).file_number,
            final(self).code_extends(old(self).code_v()),
            match r {
                Ok(np) => {
                    &&& pos < np <= toks@.len()
                    &&& let_end(tv(toks@), pos as int) == Some(np as int)
                    &&& let_emits(
                        old(self).subroutine_symbols.entries(),
                        old(self).global_symbols.entries(),
                        tv(toks@),
                        pos as int,
                        old(self).code_v(),
                        final(self).code_v(),
                        final(self).error,
                    )
                },
                Err(_) => let_end(tv(toks@), pos as int) is None,
            },
        decreases toks@.len() - pos, 3int,
    {
        let ghost tvv = tv(toks@);
        let ghost code0 = self.code_v();
        let n = toks.len();
        if pos >= n {
            proof {
                reveal_with_fuel(let_end, 1);
                assert(let_end(tvv, pos as int) is None);
                assert(self.code_v() =~= code0 + self.code_v().skip(code0.len() as int));
            }
            return Err(JackError::Syntax { line: 0 });
        }
        proof {
            assert(tvv[pos as int] == toks@[pos as int]@);
            if pos + 1 < n {
                assert(tvv[pos + 1] == toks@[pos + 1]@);
            }
        }
        let line = toks[pos].line;
        if !is_word(&toks[pos], "let") {
            proof {
                reveal_with_fuel(let_end, 1);
                assert(let_end(tvv, pos as int) is None);
            }
            proof {
                assert(self.code_v() =~= code0 + self.code_v().skip(code0.len() as int));
            }
            return Err(JackError::Syntax { line });
        }
        if pos + 1 >= n {
            proof {
                reveal_with_fuel(let_end, 1);
                assert(let_end(tvv, pos as int) is None);
                assert(self.code_v() =~= code0 + self.code_v().skip(code0.len() as int));
            }
            return Err(JackError::Syntax { line });
        }
        let name: Vec<char> = match &toks[pos + 1].kind {
            TokKind::Word(w) => crate::assembler::parse::subvec(w.as_slice(), 0, w.len()),
            _ => {
                proof {
                    reveal_with_fuel(let_end, 1);
                    assert(let_end(tvv, pos as int) is None);
                    assert(self.code_v() =~= code0 + self.code_v().skip(code0.len() as int));
                }
                return Err(JackError::Syntax { line });
            },
        };
        assert(name@ =~= tvv[pos + 1].kind->Word_0);
        let rem = n - pos;
        proof {
            if rem > 2 {
                assert(tvv[pos + 2] == toks@[pos + 2]@);
            }
        }
        if rem > 2 && is_punct(&toks[pos + 2], '[') {
            self.lookup_push_symbol(name.as_slice());
            let ghost base = self.code_v();
            proof {
                assert(base =~= code0 + lookup_lines(
                    old(self).subroutine_symbols.entries(),
                    old(self).global_symbols.entries(),
                    name@,
                ));
                assert(base == code0 + base.skip(code0.len() as int)) by {
                    assert(base =~= code0 + base.skip(code0.len() as int));
                }
            }
            let ip = match self.do_expr(toks, pos + 3) {
                Ok(np) => np,
                Err(e) => {
                    proof {
                        reveal_with_fuel(let_end, 1);
                        assert(let_end(tvv, pos as int) is None);
                        lemma_prefix_trans(code0, base, self.code_v());
                    }
                    return Err(e);
                },
            };
            let ghost withidx = self.code_v();
            proof {
                lemma_prefix_trans(code0, base, withidx);
                if ip < n {
                    assert(tvv[ip as int] == toks@[ip as int]@);
                }
                if ip + 1 < n {
                    assert(tvv[ip + 1] == toks@[ip + 1]@);
                }
            }
            if !(ip < n && is_punct(&toks[ip], ']') && ip + 1 < n && is_punct(&toks[ip + 1], '=')) {
                proof {
                    reveal_with_fuel(let_end, 1);
                    assert(let_end(tvv, pos as int) is None);
                }
                return Err(JackError::Syntax { line });
            }
            self.write("add");
            let ghost withadd = self.code_v();
            proof {
                assert(withadd == withidx + withadd.skip(withidx.len() as int)) by {
                    assert(withadd =~= withidx + withadd.skip(withidx.len() as int));
                }
                lemma_prefix_trans(code0, withidx, withadd);
            }
            let vp = match self.do_expr(toks, ip + 2) {
                Ok(np) => np,
                Err(e) => {
                    proof {
                        reveal_with_fuel(let_end, 1);
                        assert(let_end(tvv, pos as int) is None);
                        lemma_prefix_trans(code0, withadd, self.code_v());
                    }
                    return Err(e);
                },
            };
            let ghost withrhs = self.code_v();
            proof {
                lemma_prefix_trans(code0, withadd, withrhs);
                if vp < n {
                    assert(tvv[vp as int] == toks@[vp as int]@);
                }
            }
            if !(vp < n && is_punct(&toks[vp], ';')) {
                proof {
                    reveal_with_fuel(let_end, 1);
                    assert(let_end(tvv, pos as int) is None);
                }
                return Err(JackError::Syntax { line });
            }
            self.write("pop temp 0");
            self.write("pop pointer 1");
            self.write("push temp 0");
            self.write("pop that 0");
            proof {
                let idx = withidx.skip(base.len() as int);
                let rhs = withrhs.skip(withadd.len() as int);
                assert(self.code_v() == code0 + lookup_lines(
                    old(self).subroutine_symbols.entries(),
                    old(self).global_symbols.entries(),
                    name@,
                ) + idx + seq!["add"@] + rhs + seq![
                    "pop temp 0"@,
                    "pop pointer 1"@,
                    "push temp 0"@,
                    "pop that 0"@,
                ]) by {
                    assert(self.code_v() =~= code0 + lookup_lines(
                        old(self).subroutine_symbols.entries(),
                        old(self).global_symbols.entries(),
                        name@,
                    ) + idx + seq!["add"@] + rhs + seq![
                        "pop temp 0"@,
                        "pop pointer 1"@,
                        "push temp 0"@,
                        "pop that 0"@,
                    ]);
                }
                assert(let_emits(
                    old(self).subroutine_symbols.entries(),
                    old(self).global_symbols.entries(),
                    tvv,
                    pos as int,
                    code0,
                    self.code_v(),
                    self.error,
                )) by {
                    reveal(let_emits);
                }
                reveal_with_fuel(let_end, 1);
                assert(let_end(tvv, pos as int) == Some(vp + 1));
                assert(self.code_v() =~= code0 + self.code_v().skip(code0.len() as int));
            }
            Ok(vp + 1)
        } else if rem > 2 && is_punct(&toks[pos + 2], '=') {
            let vp = match self.do_expr(toks, pos + 3) {
                Ok(np) => np,
                Err(e) => {
                    proof {
                        reveal_with_fuel(let_end, 1);
                        assert(let_end(tvv, pos as int) is None);
                    }
                    return Err(e);
                },
            };
            let ghost withrhs = self.code_v();
            proof {
                if vp < n {
                    assert(tvv[vp as int] == toks@[vp as int]@);
                }
            }
            if !(vp < n && is_punct(&toks[vp], ';')) {
                proof {
                    reveal_with_fuel(let_end, 1);
                    assert(let_end(tvv, pos as int) is None);
                }
                return Err(JackError::Syntax { line });
            }
            let resolved: Option<Symbol> = match self.subroutine_symbols.get(name.as_slice()) {
                Some(sym) => Some(sym.clone_sym()),
                None => match self.global_symbols.get(name.as_slice()) {
                    Some(sym) => Some(sym.clone_sym()),
                    None => None,
                },
            };
            match resolved {
                Some(sym) => {
                    self.pop_symbol(&sym);
                },
                None => {
                    self.error = true;
                },
            }
            proof {
                let rhs = withrhs.skip(code0.len() as int);
                assert(self.code_v() == code0 + rhs + (match resolve2(
                    old(self).subroutine_symbols.entries(),
                    old(self).global_symbols.entries(),
                    name@,
                ) {
                    Some(sym) => seq![pop_sym_line(sym.var_kind, sym.number)],
                    None => Seq::<Seq<char>>::empty(),
                })) by {
                    assert(self.code_v() =~= code0 + rhs + (match resolve2(
                        old(self).subroutine_symbols.entries(),
                        old(self).global_symbols.entries(),
                        name@,
                    ) {
                        Some(sym) => seq![pop_sym_line(sym.var_kind, sym.number)],
                        None => Seq::<Seq<char>>::empty(),
                    }));
                }
                assert(let_emits(
                    old(self).subroutine_symbols.entries(),
                    old(self).global_symbols.entries(),
                    tvv,
                    pos as int,
                    code0,
                    self.code_v(),
                    self.error,
                )) by {
                    reveal(let_emits);
                }
                reveal_with_fuel(let_end, 1);
                assert(let_end(tvv, pos as int) == Some(vp + 1));
                assert(self.code_v() =~= code0 + self.code_v().skip(code0.len() as int));
            }
            Ok(vp + 1)
        } else {
            proof {
                reveal_with_fuel(let_end, 1);
                assert(let_end(tvv, pos as int) is None);
                assert(self.code_v() =~= code0 + self.code_v().skip(code0.len() as int));
            }
            Err(JackError::Syntax { line })
        }
    }

    /// Compiles `if (expr) { A } [else { B }]` with the three-label
    /// scheme, all three labels minted from the emission count after the
    /// condition. Succeeds with the end position exactly when the grammar
    /// accepts an if statement here, and the label lines are pinned.
    #[verifier::rlimit(100)]
    pub fn do_if(&mut self, toks: &Vec<Tok>, pos: usize) -> (r: Result<usize, JackError>)
        requires
            old(self).wf(),
            pos <= toks@.len(),
        ensures
            final(self).wf(),
            final(self).class_name == old(self).class_name,
            final(self).global_symbols == old(self).global_symbols,
            final(self).subroutine_symbols == old(self).subroutine_symbols,
            final(self).subroutine_kind == old(self).subroutine_kind,
            final(self).file_number == old(self).file_number,
            final(self).code_extends(old(self).code_v()),
            match r {
                Ok(np) => {
                    &&& pos < np <= toks@.len()
                    &&& if_end(tv(toks@), pos as int) == Some(np as int)
                    &&& if_emits(old(self).code_v(), final(self).code_v())
                },
                Err(_) => if_end(tv(toks@), pos as int) is None,
            },
        decreases toks@.len() - pos, 3int,
    {
        let ghost tvv = tv(toks@);
        let ghost code0 = self.code_v();
        let n = toks.len();
        if pos >= n {
            proof {
                assert(if_end(tvv, pos as int) is None);
                assert(self.code_v() =~= code0 + self.code_v().skip(code0.len() as int));
            }
            return Err(JackError::Syntax { line: 0 });
        }
        proof {
            assert(tvv[pos as int] == toks@[pos as int]@);
            if pos + 1 < n {
                assert(tvv[pos + 1] == toks@[pos + 1]@);
            }
        }
        let line = toks[pos].line;
        if !(is_word(&toks[pos], "if") && pos + 1 < n && is_punct(&toks[pos + 1], '(')) {
            proof {
                assert(if_end(tvv, pos as int) is None);
                assert(self.code_v() =~= code0 + self.code_v().skip(code0.len() as int));
            }
            return Err(JackError::Syntax { line });
        }
        let cp = match self.do_expr(toks, pos + 2) {
            Ok(np) => np,
            Err(e) => {
                proof {
                    assert(if_end(tvv, pos as int) is None);
                }
                return Err(e);
            },
        };
        let ghost withcond = self.code_v();
        proof {
            if cp < n {
                assert(tvv[cp as int] == toks@[cp as int]@);
            }
            if cp + 1 < n {
                assert(tvv[cp + 1] == toks@[cp + 1]@);
            }
        }
        if !(cp < n && is_punct(&toks[cp], ')') && cp + 1 < n && is_punct(&toks[cp + 1], '{')) {
            proof {
                assert(if_end(tvv, pos as int) is None);
            }
            return Err(JackError::Syntax { line });
        }
        let site = self.code.len();
        self.write_jump("if-goto", "IFTRUE", site);
        self.write_jump("goto", "IFFALSE", site);
        self.write_jump("label", "IFTRUE", site);
        let ghost withhead = self.code_v();
        proof {
            assert(withhead == withcond + withhead.skip(withcond.len() as int)) by {
                assert(withhead =~= withcond + withhead.skip(withcond.len() as int));
            }
            lemma_prefix_trans(code0, withcond, withhead);
        }
        let bp = match self.do_statements(toks, cp + 2) {
            Ok(np) => np,
            Err(e) => {
                proof {
                    assert(stmts_end(tvv, cp + 2) is None);
                    assert(cp + 2 <= n);
                    assert(if_end(tvv, pos as int) is None);
                    lemma_prefix_trans(code0, withhead, self.code_v());
                }
                return Err(e);
            },
        };
        let ghost withbody = self.code_v();
        proof {
            lemma_prefix_trans(code0, withhead, withbody);
            if bp < n {
                assert(tvv[bp as int] == toks@[bp as int]@);
            }
        }
        if !(bp < n && is_punct(&toks[bp], '}')) {
            proof {
                assert(stmts_end(tvv, cp + 2) == Some(bp as int));
                assert(cp + 2 <= n);
                assert(if_end(tvv, pos as int) is None);
            }
            return Err(JackError::Syntax { line });
        }
        self.write_jump("goto", "IFEND", site);
        self.write_jump("label", "IFFALSE", site);
        let ghost withmid = self.code_v();
        proof {
            assert(withmid == withbody + withmid.skip(withbody.len() as int)) by {
                assert(withmid =~= withbody + withmid.skip(withbody.len() as int));
            }
            lemma_prefix_trans(code0, withbody, withmid);
        }
        let mut p = bp + 1;
        proof {
            if p < n {
                assert(tvv[p as int] == toks@[p as int]@);
            }
            if p + 1 < n {
                assert(tvv[p + 1] == toks@[p + 1]@);
            }
        }
        if p < n && is_word(&toks[p], "else") && p + 1 < n && is_punct(&toks[p + 1], '{') {
            let ep = match self.do_statements(toks, p + 2) {
                Ok(np) => np,
                Err(e) => {
                    proof {
                        assert(stmts_end(tvv, cp + 2) == Some(bp as int));
                        assert(stmts_end(tvv, bp + 3) is None);
                        assert(cp + 2 <= n && bp + 3 <= n);
                        assert(if_end(tvv, pos as int) is None);
                        lemma_prefix_trans(code0, withmid, self.code_v());
                    }
                    return Err(e);
                },
            };
            proof {
                lemma_prefix_trans(code0, withmid, self.code_v());
                if ep < n {
                    assert(tvv[ep as int] == toks@[ep as int]@);
                }
            }
            if !(ep < n && is_punct(&toks[ep], '}')) {
                proof {
                    assert(stmts_end(tvv, cp + 2) == Some(bp as int));
                    assert(stmts_end(tvv, bp + 3) == Some(ep as int));
                    assert(cp + 2 <= n && bp + 3 <= n);
                    assert(if_end(tvv, pos as int) is None);
                }
                return Err(JackError::Syntax { line });
            }
            p = ep + 1;
        }
        let ghost withtail = self.code_v();
        proof {
            lemma_prefix_trans(code0, withmid, withtail);
        }
        self.write_jump("label", "IFEND", site);
        proof {
            assert(stmts_end(tvv, cp + 2) == Some(bp as int));
            assert(cp + 2 <= n);
            assert(if_end(tvv, pos as int) == Some(p as int));
            assert(site as nat == withcond.len());
            assert(withhead == withcond + seq![
                jline("if-goto"@, "IFTRUE"@, site as nat),
                jline("goto"@, "IFFALSE"@, site as nat),
                jline("label"@, "IFTRUE"@, site as nat),
            ]) by {
                assert(withhead =~= withcond + seq![
                    jline("if-goto"@, "IFTRUE"@, site as nat),
                    jline("goto"@, "IFFALSE"@, site as nat),
                    jline("label"@, "IFTRUE"@, site as nat),
                ]);
            }
            assert(withmid == withbody + seq![
                jline("goto"@, "IFEND"@, site as nat),
                jline("label"@, "IFFALSE"@, site as nat),
            ]) by {
                assert(withmid =~= withbody + seq![
                    jline("goto"@, "IFEND"@, site as nat),
                    jline("label"@, "IFFALSE"@, site as nat),
                ]);
            }
            lemma_if_assemble(
                code0,
                withcond,
                withhead,
                withbody,
                withmid,
                withtail,
                self.code_v(),
                site as nat,
            );
        }
        Ok(p)
    }

    /// Compiles `while (expr) { A }` with the negate-and-exit scheme.
    /// Succeeds with the end position exactly when the grammar accepts a
    /// while statement here, and the label lines are pinned: the head
    /// label is minted at the statement site, the exit label after the
    /// negated condition.
    #[verifier::rlimit(100)]
    pub fn do_while(&mut self, toks: &Vec<Tok>, pos: usize) -> (r: Result<usize, JackError>)
        requires
            old(self).wf(),
            pos <= toks@.len(),
        ensures
            final(self).wf(),
            final(self).class_name == old(self).class_name,
            final(self).global_symbols == old(self).global_symbols,
            final(self).subroutine_symbols == old(self).subroutine_symbols,
            final(self).subroutine_kind == old(self).subroutine_kind,
            final(self).file_number == old(self).file_number,
            final(self).code_extends(old(self).code_v()),
            match r {
                Ok(np) => {
                    &&& pos < np <= toks@.len()
                    &&& while_end(tv(toks@), pos as int) == Some(np as int)
                    &&& while_emits(old(self).code_v(), final(self).code_v())
                },
                Err(_) => while_end(tv(toks@), pos as int) is None,
            },
        decreases toks@.len() - pos, 3int,
    {
        let ghost tvv = tv(toks@);
        let ghost code0 = self.code_v();
        let n = toks.len();
        if pos >= n {
            proof {
                assert(while_end(tvv, pos as int) is None);
                assert(self.code_v() =~= code0 + self.code_v().skip(code0.len() as int));
            }
            return Err(JackError::Syntax { line: 0 });
        }
        proof {
            assert(tvv[pos as int] == toks@[pos as int]@);
            if pos + 1 < n {
                assert(tvv[pos + 1] == toks@[pos + 1]@);
            }
        }
        let line = toks[pos].line;
        if !(is_word(&toks[pos], "while") && pos + 1 < n && is_punct(&toks[pos + 1], '(')) {
            proof {
                assert(while_end(tvv, pos as int) is None);
                assert(self.code_v() =~= code0 + self.code_v().skip(code0.len() as int));
            }
            return Err(JackError::Syntax { line });
        }
        let head = self.code.len();
        self.write_jump("label", "WHILE", head);
        let ghost withlbl = self.code_v();
        let cp = match self.do_expr(toks, pos + 2) {
            Ok(np) => np,
            Err(e) => {
                proof {
                    assert(while_end(tvv, pos as int) is None);
                    lemma_prefix_trans(code0, withlbl, self.code_v());
                }
                return Err(e);
            },
        };
        let ghost withcond = self.code_v();
        proof {
            lemma_prefix_trans(code0, withlbl, withcond);
            if cp < n {
                assert(tvv[cp as int] == toks@[cp as int]@);
            }
            if cp + 1 < n {
                assert(tvv[cp + 1] == toks@[cp + 1]@);
            }
        }
        if !(cp < n && is_punct(&toks[cp], ')') && cp + 1 < n && is_punct(&toks[cp + 1], '{')) {
            proof {
                assert(while_end(tvv, pos as int) is None);
            }
            return Err(JackError::Syntax { line });
        }
        self.write("not");
        let tail = self.code.len();
        self.write_jump("if-goto", "ENDWHILE", tail);
        let ghost withhead = self.code_v();
        proof {
            assert(withhead == withcond + withhead.skip(withcond.len() as int)) by {
                assert(withhead =~= withcond + withhead.skip(withcond.len() as int));
            }
            lemma_prefix_trans(code0, withcond, withhead);
        }
        let bp = match self.do_statements(toks, cp + 2) {
            Ok(np) => np,
            Err(e) => {
                proof {
                    assert(stmts_end(tvv, cp + 2) is None);
                    assert(cp + 2 <= n);
                    assert(while_end(tvv, pos as int) is None);
                    lemma_prefix_trans(code0, withhead, self.code_v());
                }
                return Err(e);
            },
        };
        let ghost withbody = self.code_v();
        proof {
            lemma_prefix_trans(code0, withhead, withbody);
            if bp < n {
                assert(tvv[bp as int] == toks@[bp as int]@);
            }
        }
        if !(bp < n && is_punct(&toks[bp], '}')) {
            proof {
                assert(stmts_end(tvv, cp + 2) == Some(bp as int));
                assert(cp + 2 <= n);
                assert(while_end(tvv, pos as int) is None);
            }
            return Err(JackError::Syntax { line });
        }
        self.write_jump("goto", "WHILE", head);
        self.write_jump("label", "ENDWHILE", tail);
        proof {
            assert(stmts_end(tvv, cp + 2) == Some(bp as int));
            assert(cp + 2 <= n);
            assert(while_end(tvv, pos as int) == Some(bp + 1));
            let cond = withcond.skip(withlbl.len() as int);
            let body = withbody.skip(withhead.len() as int);
            let h = code0.len() as nat;
            let t = (code0.len() + 1 + cond.len() + 1) as nat;
            assert(head as nat == h);
            assert(tail as nat == t);
            assert(self.code_v() == code0.push(jline("label"@, "WHILE"@, h)) + cond + seq![
                "not"@,
                jline("if-goto"@, "ENDWHILE"@, t),
            ] + body + seq![jline("goto"@, "WHILE"@, h), jline("label"@, "ENDWHILE"@, t)]) by {
                assert(self.code_v() =~= code0.push(jline("label"@, "WHILE"@, h)) + cond + seq![
                    "not"@,
                    jline("if-goto"@, "ENDWHILE"@, t),
                ] + body + seq![jline("goto"@, "WHILE"@, h), jline("label"@, "ENDWHILE"@, t)]);
            }
            assert(while_emits(code0, self.code_v())) by {
                reveal(while_emits);
            }
            assert(self.code_v() =~= code0 + self.code_v().skip(code0.len() as int));
        }
        Ok(bp + 1)
    }

    /// Compiles `return;` or `return expr;`; a bare return pushes zero.
    /// Succeeds with the end position exactly when the grammar accepts a
    /// return statement here, and the emitted tail is pinned.
    pub fn do_return(&mut self, toks: &Vec<Tok>, pos: usize) -> (r: Result<usize, JackError>)
        requires
            old(self).wf(),
            pos <= toks@.len(),
        ensures
            final(self).wf(),
            final(self).class_name == old(self).class_name,
            final(self).global_symbols == old(self).global_symbols,
            final(self).subroutine_symbols == old(self).subroutine_symbols,
            final(self).subroutine_kind == old(self).subroutine_kind,
            final(self).file_number == old(self).file_number,
            final(self).code_extends(old(self).code_v()),
            match r {
                Ok(np) => {
                    &&& pos < np <= toks@.len()
                    &&& return_end(tv(toks@), pos as int) == Some(np as int)
                    &&& (if pos + 1 < toks@.len() && is_punctv(tv(toks@)[pos + 1], ';') {
                        final(self).code_v() == old(self).code_v().push(
                            "push constant 0"@,
                        ).push("return"@) && final(self).error == old(self).error
                    } else {
                        exists|e: Seq<Seq<char>>|
                            final(self).code_v() == old(self).code_v() + e + seq!["return"@]
                    })
                },
                Err(_) => return_end(tv(toks@), pos as int) is None,
            },
        decreases toks@.len() - pos, 3int,
    {
        let ghost tvv = tv(toks@);
        let ghost code0 = self.code_v();
        let n = toks.len();
        if pos >= n {
            proof {
                reveal_with_fuel(return_end, 1);
                assert(return_end(tvv, pos as int) is None);
                assert(self.code_v() =~= code0 + self.code_v().skip(code0.len() as int));
            }
            return Err(JackError::Syntax { line: 0 });
        }
        proof {
            assert(tvv[pos as int] == toks@[pos as int]@);
            if pos + 1 < n {
                assert(tvv[pos + 1] == toks@[pos + 1]@);
            }
        }
        let line = toks[pos].line;
        if !is_word(&toks[pos], "return") {
            proof {
                reveal_with_fuel(return_end, 1);
                assert(return_end(tvv, pos as int) is None);
                assert(self.code_v() =~= code0 + self.code_v().skip(code0.len() as int));
            }
            return Err(JackError::Syntax { line });
        }
        let p: usize;
        if pos + 1 < n && is_punct(&toks[pos + 1], ';') {
            self.write("push constant 0");
            p = pos + 1;
        } else {
            p = match self.do_expr(toks, pos + 1) {
                Ok(np) => np,
                Err(e) => {
                    proof {
                        reveal_with_fuel(return_end, 1);
                        assert(return_end(tvv, pos as int) is None);
                    }
                    return Err(e);
                },
            };
            proof {
                if p < n {
                    assert(tvv[p as int] == toks@[p as int]@);
                }
            }
            if !(p < n && is_punct(&toks[p], ';')) {
                proof {
                    reveal_with_fuel(return_end, 1);
                    assert(return_end(tvv, pos as int) is None);
                }
                return Err(JackError::Syntax { line });
            }
        }
        let ghost withval = self.code_v();
        self.write("return");
        proof {
            reveal_with_fuel(return_end, 1);
            assert(return_end(tvv, pos as int) == Some(p + 1));
            let e = withval.skip(code0.len() as int);
            assert(self.code_v() =~= code0 + e + seq!["return"@]);
            assert(self.code_v() =~= code0 + self.code_v().skip(code0.len() as int));
        }
        Ok(p + 1)
    }
}

/// Reads a type token into a variable type./// Reads a type token into a variable type.
fn read_type(t: &Tok) -> (r: Option<VarType>) {
    match &t.kind {
        TokKind::Word(w) => {
            if chars_eq_lit(w.as_slice(), "int") {
                Some(VarType::Int)
            } else if chars_eq_lit(w.as_slice(), "char") {
                Some(VarType::Char)
            } else if chars_eq_lit(w.as_slice(), "boolean") {
                Some(VarType::Bool)
            } else {
                Some(VarType::Instance(crate::assembler::parse::subvec(w.as_slice(), 0, w.len())))
            }
        },
        _ => None,
    }
}

impl Compiler {
    /// Compiles one `static` or `field` declaration into the class table.
    pub fn do_class_var(&mut self, toks: &Vec<Tok>, pos: usize) -> (r: Result<usize, JackError>)
        requires
            old(self).wf(),
            pos <= toks@.len(),
        ensures
            final(self).wf(),
            final(self).class_name == old(self).class_name,
            final(self).file_number == old(self).file_number,
            final(self).subroutine_symbols == old(self).subroutine_symbols,
            final(self).code == old(self).code,
            match r {
                Ok(np) => {
                    &&& pos < np <= toks@.len()
                    &&& final(self).global_symbols.entries().len() > old(self).global_symbols.entries().len()
                    &&& (forall|j: int|
                        0 <= j < old(self).global_symbols.entries().len()
                            ==> final(self).global_symbols.entries()[j] == old(self).global_symbols.entries()[j])
                    &&& (forall|j: int|
                        old(self).global_symbols.entries().len() <= j
                            < final(self).global_symbols.entries().len() ==> (
                        #[trigger] final(self).global_symbols.entries()[j]).1.var_kind == (
                        if is_wordv(tv(toks@)[pos as int], "static"@) {
                            VarKind::Static
                        } else {
                            VarKind::Field
                        }))
                },
                Err(_) => true,
            },
        decreases toks@.len() - pos,
    {
        let n = toks.len();
        if pos >= n {
            return Err(JackError::Syntax { line: 0 });
        }
        let line = toks[pos].line;
        let kind = if is_word(&toks[pos], "static") {
            VarKind::Static
        } else {
            VarKind::Field
        };
        if pos + 1 >= n {
            return Err(JackError::Syntax { line });
        }
        let vtype = match read_type(&toks[pos + 1]) {
            Some(t) => t,
            None => {
                return Err(JackError::Syntax { line });
            },
        };
        proof {
            assert(tv(toks@)[pos as int] == toks@[pos as int]@);
        }
        let ghost kind0 = kind;
        let mut p = pos + 2;
        let mut inserted = false;
        loop
            invariant
                pos + 2 <= p <= n == toks@.len(),
                self.wf(),
                self.class_name == old(self).class_name,
                self.file_number == old(self).file_number,
                self.subroutine_symbols == old(self).subroutine_symbols,
                self.code == old(self).code,
                kind == kind0,
                kind0 == (if is_wordv(tv(toks@)[pos as int], "static"@) {
                    VarKind::Static
                } else {
                    VarKind::Field
                }),
                pos < toks@.len(),
                inserted ==> self.global_symbols.entries().len() > old(self).global_symbols.entries().len(),
                !inserted ==> self.global_symbols == old(self).global_symbols,
                forall|j: int|
                    0 <= j < old(self).global_symbols.entries().len()
                        ==> self.global_symbols.entries()[j] == old(self).global_symbols.entries()[j],
                forall|j: int|
                    old(self).global_symbols.entries().len() <= j
                        < self.global_symbols.entries().len() ==> (
                    #[trigger] self.global_symbols.entries()[j]).1.var_kind == kind0,
            decreases n - p,
        {
            if p >= n {
                return Err(JackError::Syntax { line });
            }
            let name: Vec<char> = match &toks[p].kind {
                TokKind::Word(w) => crate::assembler::parse::subvec(w.as_slice(), 0, w.len()),
                _ => {
                    return Err(JackError::Syntax { line });
                },
            };
            if self.global_symbols.table.entries.len() >= 0xfffe {
                return Err(JackError::TableFull { line });
            }
            let vt = match &vtype {
                VarType::Int => VarType::Int,
                VarType::Char => VarType::Char,
                VarType::Bool => VarType::Bool,
                VarType::Instance(c) => VarType::Instance(
                    crate::assembler::parse::subvec(c.as_slice(), 0, c.len()),
                ),
            };
            match self.global_symbols.insert(name, vt, kind) {
                Ok(_) => {},
                Err(()) => {
                    return Err(JackError::Syntax { line });
                },
            }
            inserted = true;
            if p + 1 < n && is_punct(&toks[p + 1], ',') {
                p = p + 2;
            } else if p + 1 < n && is_punct(&toks[p + 1], ';') {
                return Ok(p + 2);
            } else {
                return Err(JackError::Syntax { line });
            }
        }
    }

    /// Appends one table's symbols to the database as variable records:
    /// full name `<Class>.<name>`, numeric codes for kind and type, size
    /// two words, the dense index as the address.
    pub fn generate_debug_symbols(&mut self, global: bool, pdb: &mut Pdb)
        requires
            old(self).wf(),
        ensures
            final(self).wf(),
            *final(self) == *old(self),
            final(pdb).source_map == old(pdb).source_map,
            final(pdb).source_lines == old(pdb).source_lines,
            final(pdb).file_info == old(pdb).file_info,
            final(pdb).symbols@.len() == old(pdb).symbols@.len() + (if global {
                old(self).global_symbols.entries().len()
            } else {
                old(self).subroutine_symbols.entries().len()
            }),
            forall|j: int|
                0 <= j < old(pdb).symbols@.len() ==> final(pdb).symbols@[j] == old(pdb).symbols@[j],
            forall|j: int|
                old(pdb).symbols@.len() <= j < final(pdb).symbols@.len() ==> (
                #[trigger] final(pdb).symbols@[j]).symbol_type == SymbolType::Var
                    && final(pdb).symbols@[j].size == 2
                    && final(pdb).symbols@[j].file_type == FileType::Jack,
    {
        let count = if global {
            self.global_symbols.table.entries.len()
        } else {
            self.subroutine_symbols.table.entries.len()
        };
        let mut i: usize = 0;
        while i < count
            invariant
                i <= count == (if global {
                    self.global_symbols.entries().len()
                } else {
                    self.subroutine_symbols.entries().len()
                }),
                self.wf(),
                *self == *old(self),
                pdb.source_map == old(pdb).source_map,
                pdb.source_lines == old(pdb).source_lines,
                pdb.file_info == old(pdb).file_info,
                pdb.symbols@.len() == old(pdb).symbols@.len() + i,
                forall|j: int|
                    0 <= j < old(pdb).symbols@.len() ==> pdb.symbols@[j] == old(pdb).symbols@[j],
                forall|j: int|
                    old(pdb).symbols@.len() <= j < pdb.symbols@.len() ==> (
                    #[trigger] pdb.symbols@[j]).symbol_type == SymbolType::Var && pdb.symbols@[
                        j
                    ].size == 2 && pdb.symbols@[j].file_type == FileType::Jack,
            decreases count - i,
        {
            let entry_name: Vec<char>;
            let sym: Symbol;
            if global {
                entry_name = crate::assembler::parse::subvec(
                    self.global_symbols.table.entries[i].0.as_slice(),
                    0,
                    self.global_symbols.table.entries[i].0.len(),
                );
                sym = self.global_symbols.table.entries[i].1.clone_sym();
            } else {
                entry_name = crate::assembler::parse::subvec(
                    self.subroutine_symbols.table.entries[i].0.as_slice(),
                    0,
                    self.subroutine_symbols.table.entries[i].0.len(),
                );
                sym = self.subroutine_symbols.table.entries[i].1.clone_sym();
            }
            let storage_class: i64 = match sym.var_kind {
                VarKind::Local => 1,
                VarKind::Field => 2,
                VarKind::Static => 3,
                VarKind::Argument => 4,
            };
            let var_type_code: i64 = match &sym.var_type {
                VarType::Int => 1,
                VarType::Char => 2,
                VarType::Bool => 3,
                VarType::Instance(_) => 4,
            };
            let mut full = String::new();
            push_chars(&mut full, self.class_name.as_slice());
            push_char(&mut full, '.');
            push_chars(&mut full, entry_name.as_slice());
            let instance: String = match &sym.var_type {
                VarType::Instance(cl) => string_of(cl.as_slice()),
                _ => String::new(),
            };
            pdb.symbols.push(
                crate::pdb::Symbol {
                    symbol_type: SymbolType::Var,
                    name: full,
                    func_type: 0,
                    var_type: var_type_code,
                    storage_class,
                    size: 2,
                    address: (sym.number % 0x10000) as u16,
                    instance_type: instance,
                    file_type: FileType::Jack,
                },
            );
            i = i + 1;
        }
    }

    /// Compiles one subroutine: arguments and locals into a fresh table,
    /// the `function` header with the local count, the kind's prelude, and
    /// the statements.
    pub fn do_subroutine(&mut self, toks: &Vec<Tok>, pos: usize, pdb: &mut Pdb) -> (r: Result<
        usize,
        JackError,
    >)
        requires
            old(self).wf(),
            pos <= toks@.len(),
        ensures
            final(self).wf(),
            final(self).class_name == old(self).class_name,
            final(self).file_number == old(self).file_number,
            final(pdb).source_map == old(pdb).source_map,
            final(pdb).source_lines == old(pdb).source_lines,
            final(pdb).file_info == old(pdb).file_info,
            match r {
                Ok(np) => {
                    &&& pos < np <= toks@.len()
                    &&& final(self).subroutine_kind == (if is_wordv(
                        tv(toks@)[pos as int],
                        "constructor"@,
                    ) {
                        SubroutineKind::Constructor
                    } else if is_wordv(tv(toks@)[pos as int], "method"@) {
                        SubroutineKind::Method
                    } else {
                        SubroutineKind::Function
                    })
                    &&& (final(self).subroutine_kind == SubroutineKind::Method
                        ==> final(self).subroutine_symbols.entries().len() >= 1
                        && (#[trigger] final(self).subroutine_symbols.entries()[0]).0@ == "this"@
                        && final(self).subroutine_symbols.entries()[0].1.var_kind
                            == VarKind::Argument
                        && final(self).subroutine_symbols.entries()[0].1.number == 0
                        && (final(self).subroutine_symbols.entries()[0].1.var_type
                            matches VarType::Instance(cl) && cl@ == old(self).class_name@))
                },
                Err(_) => true,
            },
        decreases toks@.len() - pos,
    {
        let n = toks.len();
        if pos >= n {
            return Err(JackError::Syntax { line: 0 });
        }
        let line = toks[pos].line;
        proof {
            assert(tv(toks@)[pos as int] == toks@[pos as int]@);
        }
        self.subroutine_kind = if is_word(&toks[pos], "constructor") {
            SubroutineKind::Constructor
        } else if is_word(&toks[pos], "method") {
            SubroutineKind::Method
        } else {
            SubroutineKind::Function
        };
        let ghost kind_g = self.subroutine_kind;
        let rem0 = n - pos;
        if rem0 <= 2 {
            return Err(JackError::Syntax { line });
        }
        let name: Vec<char> = match &toks[pos + 2].kind {
            TokKind::Word(w) => crate::assembler::parse::subvec(w.as_slice(), 0, w.len()),
            _ => {
                return Err(JackError::Syntax { line });
            },
        };
        self.subroutine_symbols = SymbolTable::new();
        if match self.subroutine_kind {
            SubroutineKind::Method => true,
            _ => false,
        } {
            let this_name = chars_of("this");
            let cls = crate::assembler::parse::subvec(
                self.class_name.as_slice(),
                0,
                self.class_name.len(),
            );
            match self.subroutine_symbols.insert(
                this_name,
                VarType::Instance(cls),
                VarKind::Argument,
            ) {
                Ok(_) => {},
                Err(()) => {
                    return Err(JackError::Syntax { line });
                },
            }
            proof {
                reveal_strlit("this");
                assert(self.subroutine_symbols.entries()[0].0@ =~= "this"@);
            }
        }
        if !(rem0 > 4 && is_punct(&toks[pos + 3], '(')) {
            return Err(JackError::Syntax { line });
        }
        let mut p = pos + 4;
        loop
            invariant
                pos + 4 <= p <= n == toks@.len(),
                self.wf(),
                self.class_name == old(self).class_name,
                self.file_number == old(self).file_number,
                self.subroutine_kind == kind_g,
                kind_g == SubroutineKind::Method ==> self.subroutine_symbols.entries().len() >= 1
                    && (#[trigger] self.subroutine_symbols.entries()[0]).0@ == "this"@
                    && self.subroutine_symbols.entries()[0].1.var_kind == VarKind::Argument
                    && self.subroutine_symbols.entries()[0].1.number == 0
                    && (self.subroutine_symbols.entries()[0].1.var_type matches VarType::Instance(
                    cl) && cl@ == old(self).class_name@),
                pdb.source_map == old(pdb).source_map,
                pdb.source_lines == old(pdb).source_lines,
                pdb.file_info == old(pdb).file_info,
                pdb.symbols@.len() >= old(pdb).symbols@.len(),
            decreases n - p,
        {
            if p >= n {
                return Err(JackError::Syntax { line });
            }
            if is_punct(&toks[p], ')') {
                p = p + 1;
                break ;
            }
            if p + 1 >= n {
                return Err(JackError::Syntax { line });
            }
            let vtype = match read_type(&toks[p]) {
                Some(t) => t,
                None => {
                    return Err(JackError::Syntax { line });
                },
            };
            let pname: Vec<char> = match &toks[p + 1].kind {
                TokKind::Word(w) => crate::assembler::parse::subvec(w.as_slice(), 0, w.len()),
                _ => {
                    return Err(JackError::Syntax { line });
                },
            };
            if self.subroutine_symbols.table.entries.len() >= 0xfffe {
                return Err(JackError::TableFull { line });
            }
            match self.subroutine_symbols.insert(pname, vtype, VarKind::Argument) {
                Ok(_) => {},
                Err(()) => {
                    return Err(JackError::Syntax { line });
                },
            }
            if p + 2 < n && is_punct(&toks[p + 2], ',') {
                p = p + 3;
            } else {
                p = p + 2;
            }
        }
        if !(p < n && is_punct(&toks[p], '{')) {
            return Err(JackError::Syntax { line });
        }
        let body_line = toks[p].line;
        let body_col = toks[p].col;
        p = p + 1;
        let ghost p_vars = p;
        while p < n && is_word(&toks[p], "var")
            invariant
                p_vars <= p <= n == toks@.len(),
                self.wf(),
                self.class_name == old(self).class_name,
                self.file_number == old(self).file_number,
                self.subroutine_kind == kind_g,
                kind_g == SubroutineKind::Method ==> self.subroutine_symbols.entries().len() >= 1
                    && (#[trigger] self.subroutine_symbols.entries()[0]).0@ == "this"@
                    && self.subroutine_symbols.entries()[0].1.var_kind == VarKind::Argument
                    && self.subroutine_symbols.entries()[0].1.number == 0
                    && (self.subroutine_symbols.entries()[0].1.var_type matches VarType::Instance(
                    cl) && cl@ == old(self).class_name@),
            decreases n - p,
        {
            if p + 1 >= n {
                return Err(JackError::Syntax { line });
            }
            let vtype = match read_type(&toks[p + 1]) {
                Some(t) => t,
                None => {
                    return Err(JackError::Syntax { line });
                },
            };
            let mut q = p + 2;
            loop
                invariant
                    p + 2 <= q <= n == toks@.len(),
                    self.wf(),
                    self.class_name == old(self).class_name,
                    self.file_number == old(self).file_number,
                    self.subroutine_kind == kind_g,
                kind_g == SubroutineKind::Method ==> self.subroutine_symbols.entries().len() >= 1
                    && (#[trigger] self.subroutine_symbols.entries()[0]).0@ == "this"@
                    && self.subroutine_symbols.entries()[0].1.var_kind == VarKind::Argument
                    && self.subroutine_symbols.entries()[0].1.number == 0
                    && (self.subroutine_symbols.entries()[0].1.var_type matches VarType::Instance(
                    cl) && cl@ == old(self).class_name@),
                decreases n - q,
            {
                if q >= n {
                    return Err(JackError::Syntax { line });
                }
                let vname: Vec<char> = match &toks[q].kind {
                    TokKind::Word(w) => crate::assembler::parse::subvec(w.as_slice(), 0, w.len()),
                    _ => {
                        return Err(JackError::Syntax { line });
                    },
                };
                if self.subroutine_symbols.table.entries.len() >= 0xfffe {
                    return Err(JackError::TableFull { line });
                }
                let vt = match &vtype {
                    VarType::Int => VarType::Int,
                    VarType::Char => VarType::Char,
                    VarType::Bool => VarType::Bool,
                    VarType::Instance(c) => VarType::Instance(
                        crate::assembler::parse::subvec(c.as_slice(), 0, c.len()),
                    ),
                };
                match self.subroutine_symbols.insert(vname, vt, VarKind::Local) {
                    Ok(_) => {},
                    Err(()) => {
                        return Err(JackError::Syntax { line });
                    },
                }
                if q + 1 < n && is_punct(&toks[q + 1], ',') {
                    q = q + 2;
                } else if q + 1 < n && is_punct(&toks[q + 1], ';') {
                    q = q + 2;
                    break ;
                } else {
                    return Err(JackError::Syntax { line });
                }
            }
            p = q;
        }
        let local_count = self.subroutine_symbols.get_count(VarKind::Local);
        let mut header = String::new();
        header.append("function ");
        push_chars(&mut header, self.class_name.as_slice());
        push_char(&mut header, '.');
        push_chars(&mut header, name.as_slice());
        push_char(&mut header, ' ');
        push_dec(&mut header, local_count as u64);
        self.write_s(header);
        match self.subroutine_kind {
            SubroutineKind::Constructor => {
                let field_count = self.global_symbols.get_count(VarKind::Field);
                self.write_marker(body_line, body_col);
                self.push_constant(field_count as u64);
                self.write("call Memory.alloc 1");
                self.write("pop pointer 0");
            },
            SubroutineKind::Method => {
                self.write_marker(body_line, body_col);
                self.write("push argument 0");
                self.write("pop pointer 0");
            },
            _ => {},
        }
        let sp = match self.do_statements(toks, p) {
            Ok(np) => np,
            Err(e) => {
                return Err(e);
            },
        };
        if !(sp < n && is_punct(&toks[sp], '}')) {
            return Err(JackError::Syntax { line });
        }
        self.generate_debug_symbols(false, pdb);
        Ok(sp + 1)
    }

    /// Compiles one class file to VM text: the class header, the class
    /// variables, and every subroutine. Records the file in the database
    /// and appends variable symbols for both tables. Returns whether every
    /// name resolved.
    pub fn run(&mut self, source: &str, path: &str, pdb: &mut Pdb) -> (r: Result<bool, JackError>)
        requires
            old(self).wf(),
        ensures
            final(self).wf(),
            final(pdb).source_map == old(pdb).source_map,
            final(pdb).source_lines == old(pdb).source_lines,
            match r {
                Ok(ok) => {
                    &&& ok == !final(self).error
                    &&& final(pdb).file_info@.len() == old(pdb).file_info@.len() + 1
                    &&& final(pdb).file_info@.last().name@ == path@
                    &&& final(pdb).file_info@.last().file_type == FileType::Jack
                    &&& forall|j: int|
                        0 <= j < old(pdb).file_info@.len() ==> final(pdb).file_info@[j] == old(pdb).file_info@[j]
                },
                Err(_) => true,
            },
    {
        let chars = chars_of(source);
        let toks = match JackParser::tokenize(chars.as_slice()) {
            Ok(toks) => toks,
            Err(e) => {
                return Err(e);
            },
        };
        self.file_number = pdb.file_info.len();
        pdb.file_info.push(FileInfo { name: string_of_str(path), file_type: FileType::Jack });
        let n = toks.len();
        if !(n >= 3 && is_word(&toks[0], "class") && is_punct(&toks[2], '{')) {
            return Err(JackError::Syntax { line: 1 });
        }
        self.class_name = match &toks[1].kind {
            TokKind::Word(w) => crate::assembler::parse::subvec(w.as_slice(), 0, w.len()),
            _ => {
                return Err(JackError::Syntax { line: 1 });
            },
        };
        let mut p: usize = 3;
        while p < n && (is_word(&toks[p], "static") || is_word(&toks[p], "field"))
            invariant
                3 <= p <= n == toks@.len(),
                self.wf(),
                pdb.source_map == old(pdb).source_map,
                pdb.source_lines == old(pdb).source_lines,
                pdb.file_info@.len() == old(pdb).file_info@.len() + 1,
                pdb.file_info@.last().name@ == path@,
                pdb.file_info@.last().file_type == FileType::Jack,
                forall|j: int|
                    0 <= j < old(pdb).file_info@.len() ==> pdb.file_info@[j] == old(
                        pdb,
                    ).file_info@[j],
            decreases n - p,
        {
            p = match self.do_class_var(&toks, p) {
                Ok(np) => np,
                Err(e) => {
                    return Err(e);
                },
            };
        }
        while p < n && (is_word(&toks[p], "constructor") || is_word(&toks[p], "function")
            || is_word(&toks[p], "method"))
            invariant
                3 <= p <= n == toks@.len(),
                self.wf(),
                pdb.source_map == old(pdb).source_map,
                pdb.source_lines == old(pdb).source_lines,
                pdb.file_info@.len() == old(pdb).file_info@.len() + 1,
                pdb.file_info@.last().name@ == path@,
                pdb.file_info@.last().file_type == FileType::Jack,
                forall|j: int|
                    0 <= j < old(pdb).file_info@.len() ==> pdb.file_info@[j] == old(
                        pdb,
                    ).file_info@[j],
            decreases n - p,
        {
            p = match self.do_subroutine(&toks, p, pdb) {
                Ok(np) => np,
                Err(e) => {
                    return Err(e);
                },
            };
        }
        if !(p < n && is_punct(&toks[p], '}')) {
            return Err(JackError::Syntax { line: 1 });
        }
        self.generate_debug_symbols(true, pdb);
        Ok(!self.error)
    }

    /// The whole output as one text: the lines joined with newlines and a
    /// final blank line.
    pub fn output_code(&self) -> (s: String)
        ensures
            self.code_v().len() == 0 ==> s@ == "\n"@,
            self.code_v().len() > 0 ==> s@ == crate::text::join_lines(self.code_v()) + "\n\n"@,
    {
        let mut s = String::new();
        let n = self.code.len();
        let mut i: usize = 0;
        while i < n
            invariant
                i <= n == self.code@.len(),
                i == 0 ==> s@ == Seq::<char>::empty(),
                i > 0 ==> s@ == crate::text::join_lines(self.code_v().take(i as int)),
            decreases n - i,
        {
            if i > 0 {
                push_char(&mut s, '\n');
            }
            let ghost pre = self.code_v().take(i as int);
            s.append(self.code[i].as_str());
            proof {
                if i > 0 {
                    crate::text::lemma_join_snoc(pre, self.code_v()[i as int]);
                    assert(pre.push(self.code_v()[i as int]) =~= self.code_v().take(i + 1));
                } else {
                    assert(self.code_v().take(1)[0] == self.code_v()[0]);
                }
            }
            i = i + 1;
        }
        proof {
            reveal_strlit("\n");
            reveal_strlit("\n\n");
        }
        if n == 0 {
            s.append("\n");
            assert(s@ =~= "\n"@);
        } else {
            s.append("\n\n");
            proof {
                assert(self.code_v().take(n as int) =~= self.code_v());
                assert(s@ =~= crate::text::join_lines(self.code_v()) + "\n\n"@);
            }
        }
        s
    }
}

impl Symbol {
    /// A field-for-field copy.
    pub fn clone_sym(&self) -> (r: Symbol)
        ensures
            r.var_kind == self.var_kind,
            r.number == self.number,
    {
        Symbol {
            var_type: match &self.var_type {
                VarType::Int => VarType::Int,
                VarType::Bool => VarType::Bool,
                VarType::Char => VarType::Char,
                VarType::Instance(c) => VarType::Instance(
                    crate::assembler::parse::subvec(c.as_slice(), 0, c.len()),
                ),
            },
            var_kind: self.var_kind,
            number: self.number,
        }
    }
}

} // verus!
