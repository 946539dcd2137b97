//! The assembler proper: a single pass over classified lines that emits
//! words, binds labels and records forward references, followed by a fixup
//! pass that resolves forward references and allocates variable addresses
//! in lexicographic order of names.
use crate::assembler::parse::{classify, reserved_val, AsmItem, AsmParser, ItemV};
use crate::keymap::{chars_eq, lex_less, lex_lt, lemma_lex_irrefl, lemma_lex_connex};
use crate::pdb::{Pdb, SourceMap, Symbol, SymbolType};
use crate::text::{spec_lines, trim, trim_chars, chars_of, split_lines};
use vstd::prelude::*;

verus! {

/// How one stream of assembly lines failed to assemble.
#[derive(Clone, Copy, Debug, PartialEq, Eq, Structural)]
pub enum AsmError {
    /// A line no grammar rule accepts, or a malformed debug marker.
    Syntax { line: usize },
    /// A `(NAME)` that redefines a reserved symbol.
    ReservedLabel { line: usize },
    /// A `(NAME)` whose name is already bound.
    DuplicateLabel { line: usize },
    /// More data words than the data address space holds.
    DataOverflow { line: usize },
}

/// Why one processing step failed.
#[derive(Clone, Copy, Debug, PartialEq, Eq, Structural)]
pub enum StepErr {
    Reserved,
    Duplicate,
    Overflow,
}

/// The assembler's evolving state, at the specification level.
pub struct AsmSt {
    /// Bound labels, in definition order, with their instruction index.
    pub labels: Seq<(Seq<char>, usize)>,
    /// Emitted instruction words, before fixup.
    pub instructions: Seq<u16>,
    /// Forward references: names in lexicographic order, each with the
    /// instruction slots awaiting its address.
    pub frefs: Seq<(Seq<char>, Seq<usize>)>,
    /// Every processed line with the index of the instruction it emitted.
    pub lines: Seq<(Seq<char>, Option<usize>)>,
    /// The instruction index of the `Sys.halt` label.
    pub halt: u16,
    /// Where the next data word goes.
    pub daddr: u16,
    /// Emitted data words with their addresses.
    pub data: Seq<(u16, u16)>,
    /// Source-map records appended for debug markers.
    pub smap: Seq<SourceMap>,
}

/// The first binding of `name` in a label sequence.
pub open spec fn lk(labels: Seq<(Seq<char>, usize)>, name: Seq<char>) -> Option<usize>
    decreases labels.len(),
{
    if labels.len() == 0 {
        None
    } else if labels[0].0 == name {
        Some(labels[0].1)
    } else {
        lk(labels.drop_first(), name)
    }
}

/// The position of `name` among the forward references, if present.
pub open spec fn fr_find(frefs: Seq<(Seq<char>, Seq<usize>)>, name: Seq<char>) -> Option<int>
    decreases frefs.len(),
{
    if frefs.len() == 0 {
        None
    } else if frefs[0].0 == name {
        Some(0int)
    } else {
        match fr_find(frefs.drop_first(), name) {
            Some(p) => Some(p + 1),
            None => None,
        }
    }
}

/// Where `name` belongs in the sorted forward-reference table.
pub open spec fn fr_ins_pos(frefs: Seq<(Seq<char>, Seq<usize>)>, name: Seq<char>) -> int
    decreases frefs.len(),
{
    if frefs.len() > 0 && lex_lt(frefs[0].0, name) {
        1 + fr_ins_pos(frefs.drop_first(), name)
    } else {
        0
    }
}

/// Records one more slot awaiting `name`: appended to its entry, or a new
/// entry at the sorted position.
pub open spec fn fr_add(
    frefs: Seq<(Seq<char>, Seq<usize>)>,
    name: Seq<char>,
    idx: usize,
) -> Seq<(Seq<char>, Seq<usize>)> {
    match fr_find(frefs, name) {
        Some(p) => frefs.update(p, (frefs[p].0, frefs[p].1.push(idx))),
        None => frefs.insert(fr_ins_pos(frefs, name), (name, seq![idx])),
    }
}

/// One step of the assembly pass over a classified line.
pub open spec fn asm_step(st: AsmSt, item: ItemV, raw: Seq<char>) -> Result<AsmSt, StepErr> {
    match item {
        ItemV::AConst(w) => Ok(
            AsmSt {
                instructions: st.instructions.push(w),
                lines: st.lines.push((raw, Some(st.instructions.len() as usize))),
                ..st
            },
        ),
        ItemV::CInst(w) => Ok(
            AsmSt {
                instructions: st.instructions.push(w),
                lines: st.lines.push((raw, Some(st.instructions.len() as usize))),
                ..st
            },
        ),
        ItemV::ASym(name) => match lk(st.labels, name) {
            Some(a) => Ok(
                AsmSt {
                    instructions: st.instructions.push((a as nat % 0x10000) as u16),
                    lines: st.lines.push((raw, Some(st.instructions.len() as usize))),
                    ..st
                },
            ),
            None => Ok(
                AsmSt {
                    frefs: fr_add(st.frefs, name, st.instructions.len() as usize),
                    instructions: st.instructions.push(0u16),
                    lines: st.lines.push((raw, Some(st.instructions.len() as usize))),
                    ..st
                },
            ),
        },
        ItemV::LabelDef(name) => {
            if reserved_val(name) is Some {
                Err(StepErr::Reserved)
            } else if lk(st.labels, name) is Some {
                Err(StepErr::Duplicate)
            } else {
                Ok(
                    AsmSt {
                        labels: st.labels.push((name, st.instructions.len() as usize)),
                        halt: if name == "Sys.halt"@ {
                            (st.instructions.len() % 0x10000) as u16
                        } else {
                            st.halt
                        },
                        lines: st.lines.push((raw, None)),
                        ..st
                    },
                )
            }
        },
        ItemV::Org(v) => Ok(AsmSt { daddr: v, lines: st.lines.push((raw, None)), ..st }),
        ItemV::WordData(v) => {
            if st.daddr == 0xffff {
                Err(StepErr::Overflow)
            } else {
                Ok(
                    AsmSt {
                        data: st.data.push((v, st.daddr)),
                        daddr: (st.daddr + 1) as u16,
                        lines: st.lines.push((raw, None)),
                        ..st
                    },
                )
            }
        },
        ItemV::PdbMark(f, l, c) => Ok(
            AsmSt {
                smap: st.smap.push(
                    SourceMap {
                        file: f,
                        line_no: l,
                        col_no: c,
                        addr: (st.instructions.len() % 0x10000) as u16,
                    },
                ),
                lines: st.lines.push((raw, None)),
                ..st
            },
        ),
        ItemV::Blank => Ok(AsmSt { lines: st.lines.push((raw, None)), ..st }),
        ItemV::Bad => Ok(AsmSt { lines: st.lines.push((raw, None)), ..st }),
    }
}

/// The assembly pass over a whole sequence of classified lines; an error
/// names the index of the line that failed.
pub open spec fn asm_fold(st: AsmSt, pairs: Seq<(Seq<char>, ItemV)>) -> Result<
    AsmSt,
    (int, StepErr),
>
    decreases pairs.len(),
{
    if pairs.len() == 0 {
        Ok(st)
    } else {
        match asm_step(st, pairs[0].1, pairs[0].0) {
            Ok(st2) => match asm_fold(st2, pairs.drop_first()) {
                Ok(stf) => Ok(stf),
                Err((i, e)) => Err((i + 1, e)),
            },
            Err(e) => Err((0, e)),
        }
    }
}

/// In a uniquely keyed label table, every entry is what lookup finds.
pub proof fn lemma_lk_at(labels: Seq<(Seq<char>, usize)>, li: int)
    requires
        0 <= li < labels.len(),
        forall|i: int, j: int|
            0 <= i < j < labels.len() ==> (#[trigger] labels[i]).0 != (#[trigger] labels[j]).0,
    ensures
        lk(labels, labels[li].0) == Some(labels[li].1),
    decreases li,
{
    if li > 0 {
        assert(labels[0].0 != labels[li].0);
        assert(labels.drop_first() =~= labels.skip(1));
        assert forall|i: int, j: int|
            0 <= i < j < labels.skip(1).len() implies (#[trigger] labels.skip(1)[i]).0 != (
        #[trigger] labels.skip(1)[j]).0 by {
            assert(labels.skip(1)[i] == labels[i + 1]);
            assert(labels.skip(1)[j] == labels[j + 1]);
        }
        assert(labels.skip(1)[li - 1] == labels[li]);
        lemma_lk_at(labels.skip(1), li - 1);
    }
}

/// A name that lookup misses is on no entry.
pub proof fn lemma_lk_none(labels: Seq<(Seq<char>, usize)>, name: Seq<char>)
    requires
        lk(labels, name) is None,
    ensures
        forall|j: int| 0 <= j < labels.len() ==> (#[trigger] labels[j]).0 != name,
    decreases labels.len(),
{
    if labels.len() > 0 {
        lemma_lk_none(labels.drop_first(), name);
        assert forall|j: int| 0 <= j < labels.len() implies (#[trigger] labels[j]).0 != name by {
            if j > 0 {
                assert(labels.drop_first()[j - 1] == labels[j]);
            }
        }
    }
}

/// Extending a successful fold by one line performs one step.
pub proof fn lemma_fold_snoc(st0: AsmSt, pairs: Seq<(Seq<char>, ItemV)>, i: int, m: AsmSt)
    requires
        0 <= i < pairs.len(),
        asm_fold(st0, pairs.take(i)) == Ok::<AsmSt, (int, StepErr)>(m),
    ensures
        asm_fold(st0, pairs.take(i + 1)) == match asm_step(m, pairs[i].1, pairs[i].0) {
            Ok(x) => Ok::<AsmSt, (int, StepErr)>(x),
            Err(e) => Err((i, e)),
        },
    decreases i,
{
    if i == 0 {
        assert(pairs.take(0) =~= Seq::<(Seq<char>, ItemV)>::empty());
        assert(m == st0);
        assert(pairs.take(1)[0] == pairs[0]);
        assert(pairs.take(1).drop_first() =~= Seq::<(Seq<char>, ItemV)>::empty());
        match asm_step(st0, pairs[0].1, pairs[0].0) {
            Ok(x) => {
                assert(asm_fold(x, pairs.take(1).drop_first()) == Ok::<AsmSt, (int, StepErr)>(x));
                assert(asm_fold(st0, pairs.take(1)) == Ok::<AsmSt, (int, StepErr)>(x));
            },
            Err(e) => {
                assert(asm_fold(st0, pairs.take(1)) == Err::<AsmSt, (int, StepErr)>((0, e)));
            },
        }
    } else {
        assert(pairs.take(i)[0] == pairs[0]);
        let s1 = asm_step(st0, pairs[0].1, pairs[0].0);
        assert(s1 is Ok);
        let st1 = s1.unwrap();
        assert(pairs.take(i).drop_first() =~= pairs.drop_first().take(i - 1));
        assert(asm_fold(st1, pairs.drop_first().take(i - 1)) == Ok::<AsmSt, (int, StepErr)>(m));
        lemma_fold_snoc(st1, pairs.drop_first(), i - 1, m);
        assert(pairs.take(i + 1)[0] == pairs[0]);
        assert(pairs.take(i + 1).drop_first() =~= pairs.drop_first().take(i));
        assert(pairs.drop_first()[i - 1] == pairs[i]);
    }
}

/// A failed prefix decides the whole fold.
pub proof fn lemma_fold_err_prefix(st0: AsmSt, pairs: Seq<(Seq<char>, ItemV)>, j: int)
    requires
        0 <= j <= pairs.len(),
        asm_fold(st0, pairs.take(j)) is Err,
    ensures
        asm_fold(st0, pairs) == asm_fold(st0, pairs.take(j)),
    decreases j,
{
    assert(j > 0);
    assert(pairs.take(j)[0] == pairs[0]);
    match asm_step(st0, pairs[0].1, pairs[0].0) {
        Ok(st1) => {
            assert(pairs.take(j).drop_first() =~= pairs.drop_first().take(j - 1));
            lemma_fold_err_prefix(st1, pairs.drop_first(), j - 1);
        },
        Err(e) => {},
    }
}

/// The classified, trimmed lines of a source text.
pub open spec fn classified_lines(src: Seq<char>) -> Seq<(Seq<char>, ItemV)> {
    spec_lines(src).map_values(|l: Seq<char>| (trim(l), classify(trim(l))))
}

/// The first position of `x` in a slot list.
pub open spec fn slot_in(lst: Seq<usize>, s: int) -> bool {
    exists|k: int| 0 <= k < lst.len() && lst[k] == s
}

/// The first forward-reference entry whose slots mention `s`.
pub open spec fn slot_owner(frefs: Seq<(Seq<char>, Seq<usize>)>, s: int) -> Option<int>
    decreases frefs.len(),
{
    if frefs.len() == 0 {
        None
    } else if slot_in(frefs[0].1, s) {
        Some(0int)
    } else {
        match slot_owner(frefs.drop_first(), s) {
            Some(p) => Some(p + 1),
            None => None,
        }
    }
}

/// How many of the first `upto` forward-referenced names are not defined
/// as labels.
pub open spec fn undef_count(
    frefs: Seq<(Seq<char>, Seq<usize>)>,
    labels: Seq<(Seq<char>, usize)>,
    upto: int,
) -> int
    decreases upto,
{
    if upto <= 0 {
        0
    } else {
        undef_count(frefs, labels, upto - 1) + if lk(labels, frefs[upto - 1].0) is None {
            1int
        } else {
            0int
        }
    }
}

/// The word written into every slot of forward-reference entry `p`: the
/// label's address when defined, else the next dense variable address
/// starting at 16.
pub open spec fn resolved_word(
    frefs: Seq<(Seq<char>, Seq<usize>)>,
    labels: Seq<(Seq<char>, usize)>,
    p: int,
) -> u16 {
    match lk(labels, frefs[p].0) {
        Some(a) => (a as nat % 0x10000) as u16,
        None => ((16 + undef_count(frefs, labels, p)) % 0x10000) as u16,
    }
}

/// The instruction stream after fixup.
pub open spec fn fixed_instructions(
    frefs: Seq<(Seq<char>, Seq<usize>)>,
    labels: Seq<(Seq<char>, usize)>,
    inst: Seq<u16>,
) -> Seq<u16> {
    Seq::new(
        inst.len(),
        |s: int|
            match slot_owner(frefs, s) {
                Some(p) => resolved_word(frefs, labels, p),
                None => inst[s],
            },
    )
}

/// The index of the first function symbol named `name`.
pub open spec fn func_sym_idx(syms: Seq<Symbol>, name: Seq<char>) -> Option<int>
    decreases syms.len(),
{
    if syms.len() == 0 {
        None
    } else if syms[0].name@ == name && syms[0].symbol_type == SymbolType::Func {
        Some(0int)
    } else {
        match func_sym_idx(syms.drop_first(), name) {
            Some(p) => Some(p + 1),
            None => None,
        }
    }
}

/// `b` is `a` with only the address replaced.
pub open spec fn sym_readdressed(a: Symbol, b: Symbol, addr: u16) -> bool {
    &&& b.address == addr
    &&& b.symbol_type == a.symbol_type
    &&& b.name@ == a.name@
    &&& b.func_type == a.func_type
    &&& b.var_type == a.var_type
    &&& b.storage_class == a.storage_class
    &&& b.size == a.size
    &&& b.instance_type == a.instance_type
    &&& b.file_type == a.file_type
}

/// The name-to-address view of a label table.
pub open spec fn labels_view(entries: Seq<(Vec<char>, usize)>) -> Seq<(Seq<char>, usize)> {
    entries.map_values(|e: (Vec<char>, usize)| (e.0@, e.1))
}

/// Looking a name up through the view agrees with looking it up directly.
proof fn lemma_lk_find(entries: Seq<(Vec<char>, usize)>, k: Seq<char>)
    ensures
        lk(labels_view(entries), k) == crate::keymap::find_in(entries, k),
    decreases entries.len(),
{
    if entries.len() > 0 {
        assert(labels_view(entries).drop_first() =~= labels_view(entries.drop_first()));
        lemma_lk_find(entries.drop_first(), k);
    }
}

proof fn lemma_fr_find_skip(frefs: Seq<(Seq<char>, Seq<usize>)>, name: Seq<char>, p: int)
    requires
        0 <= p <= frefs.len(),
        forall|j: int| 0 <= j < p ==> (#[trigger] frefs[j]).0 != name,
    ensures
        fr_find(frefs, name) == match fr_find(frefs.skip(p), name) {
            Some(q) => Some(q + p),
            None => None::<int>,
        },
    decreases p,
{
    if p > 0 {
        assert(frefs.drop_first() =~= frefs.skip(1));
        assert forall|j: int| 0 <= j < p - 1 implies (#[trigger] frefs.skip(1)[j]).0 != name by {
            assert(frefs.skip(1)[j] == frefs[j + 1]);
        }
        lemma_fr_find_skip(frefs.skip(1), name, p - 1);
        assert(frefs.skip(1).skip(p - 1) =~= frefs.skip(p));
    } else {
        assert(frefs.skip(0) =~= frefs);
    }
}

proof fn lemma_fr_pos_skip(frefs: Seq<(Seq<char>, Seq<usize>)>, name: Seq<char>, p: int)
    requires
        0 <= p <= frefs.len(),
        forall|j: int| 0 <= j < p ==> lex_lt((#[trigger] frefs[j]).0, name),
    ensures
        fr_ins_pos(frefs, name) == p + fr_ins_pos(frefs.skip(p), name),
    decreases p,
{
    if p > 0 {
        assert(frefs.drop_first() =~= frefs.skip(1));
        assert forall|j: int| 0 <= j < p - 1 implies lex_lt(
            (#[trigger] frefs.skip(1)[j]).0,
            name,
        ) by {
            assert(frefs.skip(1)[j] == frefs[j + 1]);
        }
        lemma_fr_pos_skip(frefs.skip(1), name, p - 1);
        assert(frefs.skip(1).skip(p - 1) =~= frefs.skip(p));
    } else {
        assert(frefs.skip(0) =~= frefs);
    }
}

/// In a table whose entries are all lexicographically above `name`, the
/// name is absent.
proof fn lemma_fr_find_none_above(frefs: Seq<(Seq<char>, Seq<usize>)>, name: Seq<char>)
    requires
        forall|j: int| 0 <= j < frefs.len() ==> lex_lt(name, (#[trigger] frefs[j]).0),
    ensures
        fr_find(frefs, name) is None,
    decreases frefs.len(),
{
    if frefs.len() > 0 {
        lemma_lex_irrefl(name);
        assert(frefs[0].0 != name);
        assert forall|j: int| 0 <= j < frefs.drop_first().len() implies lex_lt(
            name,
            (#[trigger] frefs.drop_first()[j]).0,
        ) by {
            assert(frefs.drop_first()[j] == frefs[j + 1]);
        }
        lemma_fr_find_none_above(frefs.drop_first(), name);
    }
}

/// The assembler. `run` makes the assembly pass over a source text and
/// resolves forward references; the output renderers and the listing read
/// the result.
pub struct Assembler {
    pub labels: crate::keymap::KeyMap<usize>,
    pub instructions: Vec<u16>,
    pub forward_refs: Vec<(Vec<char>, Vec<usize>)>,
    pub lines: Vec<(Vec<char>, Option<usize>)>,
    pub halt_addr: u16,
    pub generated_inst_addr: Option<usize>,
    pub current_data_address: u16,
    pub data: Vec<(u16, u16)>,
}

impl Assembler {
    /// The forward-reference view.
    pub open spec fn frefs_v(&self) -> Seq<(Seq<char>, Seq<usize>)> {
        self.forward_refs@.map_values(|e: (Vec<char>, Vec<usize>)| (e.0@, e.1@))
    }

    /// The line-record view.
    pub open spec fn lines_v(&self) -> Seq<(Seq<char>, Option<usize>)> {
        self.lines@.map_values(|e: (Vec<char>, Option<usize>)| (e.0@, e.1))
    }

    /// The label view.
    pub open spec fn labels_v(&self) -> Seq<(Seq<char>, usize)> {
        labels_view(self.labels.entries@)
    }

    /// The whole state view; the source-map field is always empty here and
    /// is meaningful only relative to one `run`.
    pub open spec fn st(&self) -> AsmSt {
        AsmSt {
            labels: self.labels_v(),
            instructions: self.instructions@,
            frefs: self.frefs_v(),
            lines: self.lines_v(),
            halt: self.halt_addr,
            daddr: self.current_data_address,
            data: self.data@,
            smap: Seq::empty(),
        }
    }

    /// The state view agrees with `st` on everything but the source map.
    pub open spec fn matches_st(&self, st: AsmSt) -> bool {
        &&& self.labels_v() == st.labels
        &&& self.instructions@ == st.instructions
        &&& self.frefs_v() == st.frefs
        &&& self.lines_v() == st.lines
        &&& self.halt_addr == st.halt
        &&& self.current_data_address == st.daddr
        &&& self.data@ == st.data
    }

    /// Structural invariant: unique label names; forward references sorted
    /// by name, every slot in range, slots increasing within an entry and
    /// disjoint across entries.
    pub open spec fn wf(&self) -> bool {
        &&& self.labels.wf()
        &&& forall|i: int, j: int|
            0 <= i < j < self.frefs_v().len() ==> lex_lt(
                (#[trigger] self.frefs_v()[i]).0,
                (#[trigger] self.frefs_v()[j]).0,
            )
        &&& forall|p: int, k: int|
            0 <= p < self.frefs_v().len() && 0 <= k < (#[trigger] self.frefs_v()[p]).1.len()
                ==> #[trigger] self.frefs_v()[p].1[k] < self.instructions@.len()
        &&& forall|p: int, k1: int, k2: int|
            0 <= p < self.frefs_v().len() && 0 <= k1 < k2 < (#[trigger] self.frefs_v()[p]).1.len()
                ==> #[trigger] self.frefs_v()[p].1[k1] < #[trigger] self.frefs_v()[p].1[k2]
        &&& forall|p1: int, k1: int, p2: int, k2: int|
            0 <= p1 < p2 < self.frefs_v().len() && 0 <= k1 < (#[trigger] self.frefs_v()[p1]).1.len()
                && 0 <= k2 < (#[trigger] self.frefs_v()[p2]).1.len()
                ==> #[trigger] self.frefs_v()[p1].1[k1] != #[trigger] self.frefs_v()[p2].1[k2]
    }

    /// A fresh assembler with nothing assembled.
    pub fn new() -> (a: Assembler)
        ensures
            a.wf(),
            a.labels_v().len() == 0,
            a.instructions@.len() == 0,
            a.frefs_v().len() == 0,
            a.lines_v().len() == 0,
            a.halt_addr == 0,
            a.generated_inst_addr is None,
            a.current_data_address == 0,
            a.data@.len() == 0,
    {
        let a = Assembler {
            labels: crate::keymap::KeyMap::new(),
            instructions: Vec::new(),
            forward_refs: Vec::new(),
            lines: Vec::new(),
            halt_addr: 0,
            generated_inst_addr: None,
            current_data_address: 0,
            data: Vec::new(),
        };
        assert(a.frefs_v() =~= Seq::<(Seq<char>, Seq<usize>)>::empty());
        assert(a.lines_v() =~= Seq::<(Seq<char>, Option<usize>)>::empty());
        assert(a.labels_v() =~= Seq::<(Seq<char>, usize)>::empty());
        a
    }

    /// Emits one instruction word and remembers its index.
    pub fn gen_inst(&mut self, inst: u16)
        ensures
            final(self).instructions@ == old(self).instructions@.push(inst),
            final(self).generated_inst_addr == Some(old(self).instructions@.len() as usize),
            final(self).labels == old(self).labels,
            final(self).forward_refs == old(self).forward_refs,
            final(self).lines == old(self).lines,
            final(self).halt_addr == old(self).halt_addr,
            final(self).current_data_address == old(self).current_data_address,
            final(self).data == old(self).data,
            old(self).wf() ==> final(self).wf(),
    {
        let idx = self.instructions.len();
        self.instructions.push(inst);
        self.generated_inst_addr = Some(idx);
        proof {
            assert(self.frefs_v() =~= old(self).frefs_v());
            assert(self.labels_v() =~= old(self).labels_v());
        }
    }

    /// Emits one data word at the current data address.
    pub fn gen_data(&mut self, data: u16)
        requires
            old(self).current_data_address < 0xffff,
        ensures
            final(self).data@ == old(self).data@.push((data, old(self).current_data_address)),
            final(self).current_data_address == old(self).current_data_address + 1,
            final(self).labels == old(self).labels,
            final(self).instructions == old(self).instructions,
            final(self).forward_refs == old(self).forward_refs,
            final(self).lines == old(self).lines,
            final(self).halt_addr == old(self).halt_addr,
            final(self).generated_inst_addr == old(self).generated_inst_addr,
            old(self).wf() ==> final(self).wf(),
    {
        self.data.push((data, self.current_data_address));
        self.current_data_address = self.current_data_address + 1;
        proof {
            assert(self.frefs_v() =~= old(self).frefs_v());
            assert(self.labels_v() =~= old(self).labels_v());
        }
    }

    /// Records that instruction slot `idx` awaits the address of `name`.
    fn insert_ref(&mut self, name: Vec<char>, idx: usize)
        requires
            old(self).wf(),
            idx == old(self).instructions@.len(),
        ensures
            final(self).frefs_v() == fr_add(old(self).frefs_v(), name@, idx),
            final(self).labels == old(self).labels,
            final(self).instructions == old(self).instructions,
            final(self).lines == old(self).lines,
            final(self).halt_addr == old(self).halt_addr,
            final(self).generated_inst_addr == old(self).generated_inst_addr,
            final(self).current_data_address == old(self).current_data_address,
            final(self).data == old(self).data,
            forall|p: int, k: int|
                0 <= p < final(self).frefs_v().len() && 0 <= k < (
                #[trigger] final(self).frefs_v()[p]).1.len() ==> (#[trigger] final(self).frefs_v()[p].1[k]) <= idx,
            fr_find(final(self).frefs_v(), name@) is Some,
            final(self).wf_after_ref(idx),
    {
        let ghost fv0 = self.frefs_v();
        let n = self.forward_refs.len();
        let mut p: usize = 0;
        while p < n && lex_less(self.forward_refs[p].0.as_slice(), name.as_slice())
            invariant
                p <= n == self.forward_refs@.len(),
                forall|j: int| 0 <= j < p ==> lex_lt((#[trigger] self.frefs_v()[j]).0, name@),
            decreases n - p,
        {
            assert(self.frefs_v()[p as int].0 == self.forward_refs@[p as int].0@);
            p = p + 1;
        }
        proof {
            assert forall|j: int| 0 <= j < p implies (#[trigger] fv0[j]).0 != name@ by {
                lemma_lex_irrefl(name@);
                if fv0[j].0 == name@ {
                    assert(lex_lt(name@, name@));
                }
            }
            lemma_fr_find_skip(fv0, name@, p as int);
            lemma_fr_pos_skip(fv0, name@, p as int);
        }
        if p < n && chars_eq(self.forward_refs[p].0.as_slice(), name.as_slice()) {
            proof {
                assert(fv0.skip(p as int)[0] == fv0[p as int]);
                assert(fr_find(fv0, name@) == Some(p as int));
            }
            let (k, mut lst) = self.forward_refs.remove(p);
            lst.push(idx);
            self.forward_refs.insert(p, (k, lst));
            proof {
                let fv1 = self.frefs_v();
                assert(fv1 =~= fv0.update(
                    p as int,
                    (fv0[p as int].0, fv0[p as int].1.push(idx)),
                ));
                assert forall|j: int| 0 <= j < p implies (#[trigger] fv1[j]).0 != name@ by {
                    assert(fv1[j] == fv0[j]);
                }
                lemma_fr_find_skip(fv1, name@, p as int);
                assert(fv1.skip(p as int)[0] == fv1[p as int]);
                assert(fr_find(fv1, name@) == Some(p as int));
            }
        } else {
            proof {
                if p < n {
                    assert(fv0.skip(p as int)[0] == fv0[p as int]);
                    assert(!lex_lt(fv0[p as int].0, name@));
                    assert(fv0[p as int].0 != name@);
                    if !lex_lt(name@, fv0[p as int].0) {
                        lemma_lex_connex(fv0[p as int].0, name@);
                    }
                    assert(lex_lt(name@, fv0[p as int].0));
                    assert forall|j: int| 0 <= j < fv0.skip(p as int).len() implies lex_lt(
                        name@,
                        (#[trigger] fv0.skip(p as int)[j]).0,
                    ) by {
                        assert(fv0.skip(p as int)[j] == fv0[p + j]);
                        if j > 0 {
                            crate::keymap::lemma_lex_trans(name@, fv0[p as int].0, fv0[p + j].0);
                        }
                    }
                    lemma_fr_find_none_above(fv0.skip(p as int), name@);
                    assert(fr_ins_pos(fv0.skip(p as int), name@) == 0);
                } else {
                    assert(fv0.skip(p as int) =~= Seq::<(Seq<char>, Seq<usize>)>::empty());
                }
                assert(fr_find(fv0, name@) is None);
                assert(fr_ins_pos(fv0, name@) == p as int);
            }
            let mut single: Vec<usize> = Vec::new();
            single.push(idx);
            self.forward_refs.insert(p, (name, single));
            proof {
                let fv1 = self.frefs_v();
                assert(fv1 =~= fv0.insert(p as int, (self.forward_refs@[p as int].0@, seq![idx])));
                assert forall|j: int| 0 <= j < p implies (#[trigger] fv1[j]).0 != name@ by {
                    assert(fv1[j] == fv0[j]);
                }
                lemma_fr_find_skip(fv1, name@, p as int);
                assert(fv1.skip(p as int)[0] == fv1[p as int]);
                assert(fv1[p as int].0 == name@);
                assert(fr_find(fv1, name@) == Some(p as int));
            }
        }
    }

    /// Binds a label to the next instruction index, rejecting reserved and
    /// duplicate names, and remembers the halt target.
    pub fn define_label(&mut self, name: Vec<char>, line: usize) -> (r: Result<(), AsmError>)
        requires
            old(self).wf(),
        ensures
            final(self).instructions == old(self).instructions,
            final(self).forward_refs == old(self).forward_refs,
            final(self).lines == old(self).lines,
            final(self).generated_inst_addr == old(self).generated_inst_addr,
            final(self).current_data_address == old(self).current_data_address,
            final(self).data == old(self).data,
            final(self).wf(),
            match r {
                Ok(()) => {
                    &&& reserved_val(name@) is None
                    &&& lk(old(self).labels_v(), name@) is None
                    &&& final(self).labels_v() == old(self).labels_v().push(
                        (name@, old(self).instructions@.len() as usize),
                    )
                    &&& final(self).halt_addr == if name@ == "Sys.halt"@ {
                        (old(self).instructions@.len() % 0x10000) as u16
                    } else {
                        old(self).halt_addr
                    }
                },
                Err(e) => {
                    &&& final(self).labels == old(self).labels
                    &&& final(self).halt_addr == old(self).halt_addr
                    &&& (e == (AsmError::ReservedLabel { line }) && reserved_val(name@) is Some || e
                        == (AsmError::DuplicateLabel { line }) && reserved_val(name@) is None && lk(
                        old(self).labels_v(),
                        name@,
                    ) is Some)
                },
            },
    {
        if crate::assembler::parse::lookup_reserved(name.as_slice()).is_some() {
            return Err(AsmError::ReservedLabel { line });
        }
        proof {
            lemma_lk_find(self.labels.entries@, name@);
            crate::keymap::lemma_find_in_key(self.labels.entries@, name@);
        }
        if self.labels.contains_key(name.as_slice()) {
            return Err(AsmError::DuplicateLabel { line });
        }
        let addr = self.instructions.len();
        let is_halt = crate::keymap::chars_eq_lit(name.as_slice(), "Sys.halt");
        let ghost entries0 = self.labels.entries@;
        self.labels.insert(name, addr);
        if is_halt {
            self.halt_addr = (addr % 0x10000) as u16;
        }
        proof {
            assert(self.labels_v() =~= labels_view(entries0).push(
                (self.labels.entries@.last().0@, addr),
            ));
            assert(self.frefs_v() =~= old(self).frefs_v());
        }
        Ok(())
    }

    /// Assembles a whole source text: classifies every line, makes the
    /// assembly pass described by `asm_fold`, and resolves forward
    /// references. Debug markers append to the database's source map, and
    /// label definitions back-patch function symbols.
    pub fn run(&mut self, source: &str, pdb: &mut Pdb) -> (r: Result<(), AsmError>)
        requires
            old(self).wf(),
            old(self).labels_v().len() == 0,
        ensures
            final(pdb).source_lines == old(pdb).source_lines,
            final(pdb).file_info == old(pdb).file_info,
            final(self).wf(),
            match r {
                Ok(()) => {
                    &&& forall|i: int|
                        0 <= i < classified_lines(source@).len() ==> !((#[trigger] classified_lines(
                            source@,
                        )[i]).1 is Bad)
                    &&& asm_fold(old(self).st(), classified_lines(source@)) is Ok
                    &&& ({
                        let stf = (asm_fold(old(self).st(), classified_lines(source@))->Ok_0);
                        &&& final(self).labels_v() == stf.labels
                        &&& final(self).frefs_v() == stf.frefs
                        &&& final(self).lines_v() == stf.lines
                        &&& final(self).halt_addr == stf.halt
                        &&& final(self).current_data_address == stf.daddr
                        &&& final(self).data@ == stf.data
                        &&& final(self).instructions@ == fixed_instructions(
                            stf.frefs,
                            stf.labels,
                            stf.instructions,
                        )
                        &&& final(pdb).source_map@ == old(pdb).source_map@ + stf.smap
                        &&& final(pdb).symbols@.len() == old(pdb).symbols@.len()
                        &&& forall|k: int|
                            0 <= k < old(pdb).symbols@.len() ==> sym_readdressed(
                                (#[trigger] old(pdb).symbols@[k]),
                                final(pdb).symbols@[k],
                                final(pdb).symbols@[k].address,
                            )
                        &&& forall|li: int|
                            0 <= li < stf.labels.len() ==> match func_sym_idx(
                                old(pdb).symbols@,
                                (#[trigger] stf.labels[li]).0,
                            ) {
                                Some(k) => final(pdb).symbols@[k].address == (stf.labels[li].1
                                    as nat % 0x10000) as u16,
                                None => true,
                            }
                    })
                },
                Err(AsmError::Syntax { line }) => {
                    &&& 0 <= line < classified_lines(source@).len()
                    &&& classified_lines(source@)[line as int].1 is Bad
                    &&& forall|j: int|
                        0 <= j < line ==> !((#[trigger] classified_lines(source@)[j]).1 is Bad)
                    &&& *final(self) == *old(self)
                    &&& *final(pdb) == *old(pdb)
                },
                Err(AsmError::ReservedLabel { line }) => asm_fold(
                    old(self).st(),
                    classified_lines(source@),
                ) == Err::<AsmSt, (int, StepErr)>(((line as int), StepErr::Reserved)),
                Err(AsmError::DuplicateLabel { line }) => asm_fold(
                    old(self).st(),
                    classified_lines(source@),
                ) == Err::<AsmSt, (int, StepErr)>(((line as int), StepErr::Duplicate)),
                Err(AsmError::DataOverflow { line }) => asm_fold(
                    old(self).st(),
                    classified_lines(source@),
                ) == Err::<AsmSt, (int, StepErr)>(((line as int), StepErr::Overflow)),
            },
    {
        let ghost pairs = classified_lines(source@);
        let chars = chars_of(source);
        let raw_lines = split_lines(&chars);
        proof {
            assert(raw_lines@.map_values(|l: Vec<char>| l@) == spec_lines(source@));
            assert(pairs.len() == spec_lines(source@).len());
        }
        let mut items: Vec<AsmItem> = Vec::new();
        let mut trimmed: Vec<Vec<char>> = Vec::new();
        let n = raw_lines.len();
        assert(n == pairs.len());
        let mut i: usize = 0;
        while i < n
            invariant
                i <= n == raw_lines@.len(),
                pairs == classified_lines(source@),
                raw_lines@.map_values(|l: Vec<char>| l@) == spec_lines(source@),
                pairs.len() == n,
                items@.len() == i,
                trimmed@.len() == i,
                forall|j: int|
                    0 <= j < i ==> !((#[trigger] pairs[j]).1 is Bad) && items@[j]@ == pairs[j].1
                        && trimmed@[j]@ == pairs[j].0,
                *self == *old(self),
                *pdb == *old(pdb),
                self.wf(),
            decreases n - i,
        {
            let t = trim_chars(&raw_lines[i]);
            proof {
                assert(raw_lines@.map_values(|l: Vec<char>| l@)[i as int] == raw_lines@[i as int]@);
                assert(pairs[i as int] == (
                    trim(spec_lines(source@)[i as int]),
                    classify(trim(spec_lines(source@)[i as int])),
                ));
            }
            match AsmParser::parse_line(t.as_slice()) {
                Some(it) => {
                    items.push(it);
                    trimmed.push(t);
                },
                None => {
                    assert(self.wf());
                    return Err(AsmError::Syntax { line: i });
                },
            }
            i = i + 1;
        }
        let ghost st0 = old(self).st();
        let ghost syms0 = pdb.symbols@;
        let ghost smap0 = pdb.source_map@;
        proof {
            assert(pairs.take(0) =~= Seq::<(Seq<char>, ItemV)>::empty());
        }
        let mut i: usize = 0;
        while i < n
            invariant
                i <= n,
                pairs == classified_lines(source@),
                st0 == old(self).st(),
                syms0 == old(pdb).symbols@,
                smap0 == old(pdb).source_map@,
                pairs.len() == n,
                items@.len() == n,
                trimmed@.len() == n,
                forall|j: int|
                    0 <= j < n ==> !((#[trigger] pairs[j]).1 is Bad) && items@[j]@ == pairs[j].1
                        && trimmed@[j]@ == pairs[j].0,
                asm_fold(st0, pairs.take(i as int)) is Ok,
                self.matches_st(
                    AsmSt {
                        smap: Seq::empty(),
                        ..(asm_fold(st0, pairs.take(i as int))->Ok_0)
                    },
                ),
                self.wf(),
                pdb.source_map@ == smap0 + (asm_fold(st0, pairs.take(i as int))->Ok_0).smap,
                pdb.source_lines == old(pdb).source_lines,
                pdb.file_info == old(pdb).file_info,
                pdb.symbols@.len() == syms0.len(),
                forall|k: int|
                    0 <= k < syms0.len() ==> sym_readdressed(
                        (#[trigger] syms0[k]),
                        pdb.symbols@[k],
                        pdb.symbols@[k].address,
                    ),
                forall|li: int|
                    0 <= li < (asm_fold(st0, pairs.take(i as int))->Ok_0).labels.len() ==> match
                        func_sym_idx(
                        syms0,
                        (#[trigger] (asm_fold(st0, pairs.take(i as int))->Ok_0).labels[li]).0,
                    ) {
                        Some(k) => pdb.symbols@[k].address == ((asm_fold(
                            st0,
                            pairs.take(i as int),
                        )->Ok_0).labels[li].1 as nat % 0x10000) as u16,
                        None => true,
                    },
            decreases n - i,
        {
            let ghost m = (asm_fold(st0, pairs.take(i as int))->Ok_0);
            proof {
                lemma_fold_snoc(st0, pairs, i as int, m);
            }
            self.generated_inst_addr = None;
            let line_len = trimmed[i].len();
            let line_copy = crate::assembler::parse::subvec(trimmed[i].as_slice(), 0, line_len);
            assert(line_copy@ == pairs[i as int].0);
            match &items[i] {
                AsmItem::AConst(w) => {
                    let w = *w;
                    self.gen_inst(w);
                },
                AsmItem::CInst(w) => {
                    let w = *w;
                    self.gen_inst(w);
                },
                AsmItem::ASym(name_ref) => {
                    let name_len = name_ref.len();
                    let name = crate::assembler::parse::subvec(name_ref.as_slice(), 0, name_len);
                    assert(name@ =~= name_ref@);
                    proof {
                        lemma_lk_find(self.labels.entries@, name@);
                    }
                    let looked: Option<usize> = match self.labels.get(name.as_slice()) {
                        Some(a) => Some(*a),
                        None => None,
                    };
                    match looked {
                        Some(a) => {
                            self.gen_inst((a % 0x10000) as u16);
                        },
                        None => {
                            let idx = self.instructions.len();
                            self.insert_ref(name, idx);
                            self.gen_inst(0);
                        },
                    }
                },
                AsmItem::LabelDef(name_ref) => {
                    let name_len = name_ref.len();
                    let name = crate::assembler::parse::subvec(name_ref.as_slice(), 0, name_len);
                    assert(name@ =~= name_ref@);
                    let addr = self.instructions.len();
                    let ghost syms_before = pdb.symbols@;
                    match self.define_label(name, i) {
                        Ok(()) => {
                            let name2 = crate::assembler::parse::subvec(
                                name_ref.as_slice(),
                                0,
                                name_len,
                            );
                            assert(name2@ =~= name_ref@);
                            patch_func_symbol(
                                &mut pdb.symbols,
                                name2.as_slice(),
                                (addr % 0x10000) as u16,
                            );
                            proof {
                                lemma_func_sym_stable(syms0, syms_before, name2@);
                                lemma_lk_none(m.labels, name2@);
                                let lv2 = m.labels.push((name2@, addr as usize));
                                assert forall|li: int|
                                    0 <= li < lv2.len() implies match func_sym_idx(
                                    syms0,
                                    (#[trigger] lv2[li]).0,
                                ) {
                                    Some(k) => pdb.symbols@[k].address == (lv2[li].1 as nat
                                        % 0x10000) as u16,
                                    None => true,
                                } by {
                                    lemma_func_sym_props(syms0, lv2[li].0);
                                    if func_sym_idx(syms0, lv2[li].0) is Some {
                                        let k = func_sym_idx(syms0, lv2[li].0)->Some_0;
                                        if li < m.labels.len() {
                                            assert(lv2[li] == m.labels[li]);
                                            if func_sym_idx(syms0, name2@) == Some(k) {
                                                lemma_func_sym_props(syms0, name2@);
                                                assert(syms0[k].name@ == m.labels[li].0);
                                                assert(syms0[k].name@ == name2@);
                                                assert(false);
                                            }
                                        } else {
                                            assert(lv2[li].0 == name2@);
                                            assert(lv2[li].1 == addr as usize);
                                        }
                                    }
                                }
                            }
                        },
                        Err(e) => {
                            proof {
                                assert(items@[i as int]@ == pairs[i as int].1);
                                assert(items@[i as int] == AsmItem::LabelDef(*name_ref));
                                assert(pairs[i as int].1 == ItemV::LabelDef(name_ref@));
                                assert(name@ =~= name_ref@);
                                assert(m.labels == self.labels_v());
                                assert(asm_step(m, pairs[i as int].1, pairs[i as int].0) is Err);
                                assert(asm_fold(st0, pairs.take(i + 1)) is Err);
                                lemma_fold_err_prefix(st0, pairs, i + 1);
                            }
                            assert(e == (AsmError::ReservedLabel { line: i })
                                ==> asm_fold(st0, pairs) == Err::<AsmSt, (int, StepErr)>(
                                ((i as int), StepErr::Reserved),
                            ));
                            assert(e == (AsmError::DuplicateLabel { line: i })
                                ==> asm_fold(st0, pairs) == Err::<AsmSt, (int, StepErr)>(
                                ((i as int), StepErr::Duplicate),
                            ));
                            return Err(e);
                        },
                    }
                },
                AsmItem::Org(v) => {
                    self.current_data_address = *v;
                },
                AsmItem::WordData(v) => {
                    if self.current_data_address == 0xffff {
                        proof {
                            assert(items@[i as int]@ == pairs[i as int].1);
                            assert(asm_step(m, pairs[i as int].1, pairs[i as int].0) is Err);
                            assert(asm_fold(st0, pairs.take(i + 1)) is Err);
                            lemma_fold_err_prefix(st0, pairs, i + 1);
                        }
                        assert(asm_fold(st0, pairs) == Err::<AsmSt, (int, StepErr)>(
                            ((i as int), StepErr::Overflow),
                        ));
                        return Err(AsmError::DataOverflow { line: i });
                    }
                    self.gen_data(*v);
                },
                AsmItem::PdbMark(f, l, c) => {
                    let addr16 = (self.instructions.len() % 0x10000) as u16;
                    pdb.source_map.push(
                        SourceMap { file: *f, line_no: *l, col_no: *c, addr: addr16 },
                    );
                },
                AsmItem::Blank => {},
            }
            self.lines.push((line_copy, self.generated_inst_addr));
            proof {
                assert(items@[i as int]@ == pairs[i as int].1);
                let itv = pairs[i as int].1;
                let raw = pairs[i as int].0;
                let mnext = asm_step(m, itv, raw)->Ok_0;
                assert(self.lines_v() =~= m.lines.push((raw, self.generated_inst_addr)));
                if itv is AConst {
                    assert(self.labels_v() =~= mnext.labels);
                    assert(self.frefs_v() =~= mnext.frefs);
                    assert(self.instructions@ =~= mnext.instructions);
                    assert(self.lines_v() =~= mnext.lines);
                    assert(self.data@ =~= mnext.data);
                } else if itv is CInst {
                    assert(self.labels_v() =~= mnext.labels);
                    assert(self.frefs_v() =~= mnext.frefs);
                    assert(self.instructions@ =~= mnext.instructions);
                    assert(self.lines_v() =~= mnext.lines);
                    assert(self.data@ =~= mnext.data);
                } else if itv is ASym {
                    assert(self.labels_v() =~= mnext.labels);
                    assert(self.frefs_v() =~= mnext.frefs);
                    assert(self.instructions@ =~= mnext.instructions);
                    assert(self.lines_v() =~= mnext.lines);
                    assert(self.data@ =~= mnext.data);
                } else if itv is LabelDef {
                    assert(self.labels_v() =~= mnext.labels);
                    assert(self.frefs_v() =~= mnext.frefs);
                    assert(self.instructions@ =~= mnext.instructions);
                    assert(self.lines_v() =~= mnext.lines);
                    assert(self.data@ =~= mnext.data);
                } else {
                    assert(self.labels_v() =~= mnext.labels);
                    assert(self.frefs_v() =~= mnext.frefs);
                    assert(self.instructions@ =~= mnext.instructions);
                    assert(self.lines_v() =~= mnext.lines);
                    assert(self.data@ =~= mnext.data);
                }
                assert(self.matches_st(AsmSt { smap: Seq::empty(), ..mnext }));
                assert(pdb.source_map@ =~= smap0 + mnext.smap);
            }
            i = i + 1;
        }
        proof {
            assert(pairs.take(n as int) =~= pairs);
        }
        let ghost stf = asm_fold(st0, pairs)->Ok_0;
        let ghost syms_pre = pdb.symbols@;
        self.complete(pdb);
        proof {
            let fv = stf.frefs;
            let lv = stf.labels;
            assert forall|li: int|
                0 <= li < lv.len() implies match func_sym_idx(syms0, (#[trigger] lv[li]).0) {
                Some(k) => pdb.symbols@[k].address == (lv[li].1 as nat % 0x10000) as u16,
                None => true,
            } by {
                lemma_func_sym_props(syms0, lv[li].0);
                if func_sym_idx(syms0, lv[li].0) is Some {
                    let k = func_sym_idx(syms0, lv[li].0)->Some_0;
                    if pdb.symbols@[k].address != syms_pre[k].address {
                        let p = choose|p: int|
                            0 <= p < fv.len() && lk(lv, (#[trigger] fv[p]).0) is Some
                                && func_sym_idx(syms_pre, fv[p].0) == Some(k);
                        lemma_func_sym_stable(syms0, syms_pre, fv[p].0);
                        lemma_func_sym_props(syms0, fv[p].0);
                        assert(syms0[k].name@ == fv[p].0);
                        assert(syms0[k].name@ == lv[li].0);
                        lemma_lk_at(lv, li);
                        assert(lk(lv, fv[p].0) == Some(lv[li].1));
                        lemma_func_sym_stable(syms0, syms_pre, lv[li].0);
                    }
                }
            }
        }
        Ok(())
    }

    /// Resolves every forward reference: a defined label contributes its
    /// address, every remaining name is allocated a fresh variable address,
    /// dense from 16 in lexicographic order of names; function symbols of
    /// defined names get their address back-patched.
    pub fn complete(&mut self, pdb: &mut Pdb)
        requires
            old(self).wf(),
        ensures
            final(self).instructions@ == fixed_instructions(
                old(self).frefs_v(),
                old(self).labels_v(),
                old(self).instructions@,
            ),
            final(self).labels == old(self).labels,
            final(self).forward_refs == old(self).forward_refs,
            final(self).lines == old(self).lines,
            final(self).halt_addr == old(self).halt_addr,
            final(self).generated_inst_addr == old(self).generated_inst_addr,
            final(self).current_data_address == old(self).current_data_address,
            final(self).data == old(self).data,
            final(self).wf(),
            final(pdb).source_map == old(pdb).source_map,
            final(pdb).source_lines == old(pdb).source_lines,
            final(pdb).file_info == old(pdb).file_info,
            final(pdb).symbols@.len() == old(pdb).symbols@.len(),
            forall|k: int|
                0 <= k < old(pdb).symbols@.len() ==> sym_readdressed(
                    (#[trigger] old(pdb).symbols@[k]),
                    final(pdb).symbols@[k],
                    final(pdb).symbols@[k].address,
                ),
            forall|p: int|
                0 <= p < old(self).frefs_v().len() ==> match lk(
                    old(self).labels_v(),
                    (#[trigger] old(self).frefs_v()[p]).0,
                ) {
                    Some(a) => match func_sym_idx(old(pdb).symbols@, old(self).frefs_v()[p].0) {
                        Some(k) => final(pdb).symbols@[k].address == (a as nat % 0x10000) as u16,
                        None => true,
                    },
                    None => true,
                },
            forall|k: int|
                0 <= k < old(pdb).symbols@.len() ==> final(pdb).symbols@[k].address == old(
                    pdb,
                ).symbols@[k].address || exists|p: int|
                    0 <= p < old(self).frefs_v().len() && lk(
                        old(self).labels_v(),
                        (#[trigger] old(self).frefs_v()[p]).0,
                    ) is Some && func_sym_idx(old(pdb).symbols@, old(self).frefs_v()[p].0) == Some(
                        k,
                    ),
    {
        let ghost fv = self.frefs_v();
        let ghost lv = self.labels_v();
        let ghost inst0 = self.instructions@;
        let ghost syms0 = pdb.symbols@;
        let n = self.forward_refs.len();
        let mut var_word: u16 = 16;
        assert(undef_count(fv, lv, 0) == 0);
        let mut e: usize = 0;
        while e < n
            invariant
                e <= n == self.forward_refs@.len(),
                self.wf(),
                self.frefs_v() == fv,
                self.labels_v() == lv,
                self.labels == old(self).labels,
                self.forward_refs == old(self).forward_refs,
                self.lines == old(self).lines,
                self.halt_addr == old(self).halt_addr,
                self.generated_inst_addr == old(self).generated_inst_addr,
                self.current_data_address == old(self).current_data_address,
                self.data == old(self).data,
                self.instructions@.len() == inst0.len(),
                var_word as int == (16 + undef_count(fv, lv, e as int)) % 0x10000,
                forall|s: int|
                    0 <= s < inst0.len() ==> #[trigger] self.instructions@[s] == match slot_owner(
                        fv,
                        s,
                    ) {
                        Some(pp) => if 0 <= pp < e {
                            resolved_word(fv, lv, pp)
                        } else {
                            inst0[s]
                        },
                        None => inst0[s],
                    },
                pdb.source_map == old(pdb).source_map,
                pdb.source_lines == old(pdb).source_lines,
                pdb.file_info == old(pdb).file_info,
                pdb.symbols@.len() == syms0.len(),
                forall|k: int|
                    0 <= k < syms0.len() ==> sym_readdressed(
                        (#[trigger] syms0[k]),
                        pdb.symbols@[k],
                        pdb.symbols@[k].address,
                    ),
                forall|p: int|
                    0 <= p < e ==> match lk(lv, (#[trigger] fv[p]).0) {
                        Some(a) => match func_sym_idx(syms0, fv[p].0) {
                            Some(k) => pdb.symbols@[k].address == (a as nat % 0x10000) as u16,
                            None => true,
                        },
                        None => true,
                    },
                forall|k: int|
                    0 <= k < syms0.len() ==> #[trigger] pdb.symbols@[k].address == syms0[k].address
                        || exists|p: int|
                        0 <= p < e && lk(lv, (#[trigger] fv[p]).0) is Some && func_sym_idx(
                            syms0,
                            fv[p].0,
                        ) == Some(k),
            decreases n - e,
        {
            let name_len = self.forward_refs[e].0.len();
            let name = crate::assembler::parse::subvec(
                self.forward_refs[e].0.as_slice(),
                0,
                name_len,
            );
            assert(name@ =~= fv[e as int].0);
            proof {
                lemma_lk_find(self.labels.entries@, name@);
            }
            let ghost syms_mid = pdb.symbols@;
            let ghost var_word_prev = var_word;
            let w: u16 = match self.labels.get(name.as_slice()) {
                Some(a) => {
                    let w = ((*a) % 0x10000) as u16;
                    let ghost syms_before = pdb.symbols@;
                    patch_func_symbol(&mut pdb.symbols, name.as_slice(), w);
                    proof {
                        lemma_func_sym_stable(syms0, syms_before, name@);
                        lemma_func_sym_props(syms0, name@);
                        assert(lk(lv, fv[e as int].0) == Some(*a));
                        assert forall|p: int| 0 <= p < e + 1 implies match lk(
                            lv,
                            (#[trigger] fv[p]).0,
                        ) {
                            Some(aa) => match func_sym_idx(syms0, fv[p].0) {
                                Some(kk) => pdb.symbols@[kk].address == (aa as nat % 0x10000)
                                    as u16,
                                None => true,
                            },
                            None => true,
                        } by {
                            if p < e {
                                if lk(lv, fv[p].0) is Some && func_sym_idx(syms0, fv[p].0)
                                    is Some {
                                    let kp = func_sym_idx(syms0, fv[p].0).unwrap();
                                    lemma_func_sym_props(syms0, fv[p].0);
                                    if func_sym_idx(syms0, name@) == Some(kp) {
                                        assert(syms0[kp].name@ == fv[p].0);
                                        assert(syms0[kp].name@ == name@);
                                        lemma_lex_irrefl(fv[p].0);
                                        assert(lex_lt(fv[p].0, fv[e as int].0));
                                        assert(false);
                                    }
                                }
                            }
                        }
                    }
                    w
                },
                None => {
                    let w = var_word;
                    var_word = if var_word == 0xffff {
                        0
                    } else {
                        var_word + 1
                    };
                    w
                },
            };
            proof {
                if lk(lv, fv[e as int].0) is Some {
                    assert(resolved_word(fv, lv, e as int) == w);
                } else {
                    assert(w as int == (16 + undef_count(fv, lv, e as int)) % 0x10000);
                    assert(resolved_word(fv, lv, e as int) == w);
                }
            }
            let lst_len = self.forward_refs[e].1.len();
            let mut k: usize = 0;
            while k < lst_len
                invariant
                    k <= lst_len == fv[e as int].1.len(),
                    e < n == self.forward_refs@.len(),
                    self.wf(),
                    self.frefs_v() == fv,
                    self.labels_v() == lv,
                    self.labels == old(self).labels,
                    self.forward_refs == old(self).forward_refs,
                    self.lines == old(self).lines,
                    self.halt_addr == old(self).halt_addr,
                    self.generated_inst_addr == old(self).generated_inst_addr,
                    self.current_data_address == old(self).current_data_address,
                    self.data == old(self).data,
                    self.instructions@.len() == inst0.len(),
                    forall|s: int|
                        0 <= s < inst0.len() ==> #[trigger] self.instructions@[s] == match
                            slot_owner(fv, s) {
                            Some(pp) => if 0 <= pp < e {
                                resolved_word(fv, lv, pp)
                            } else if pp == e && slot_in(fv[e as int].1.take(k as int), s) {
                                w
                            } else {
                                inst0[s]
                            },
                            None => inst0[s],
                        },
                decreases lst_len - k,
            {
                let idx = self.forward_refs[e].1[k];
                assert(idx == fv[e as int].1[k as int]);
                assert(idx < self.instructions@.len());
                self.instructions[idx] = w;
                proof {
                    assert forall|j: int| 0 <= j < e implies !slot_in((#[trigger] fv[j]).1, idx as int) by {
                        if slot_in(fv[j].1, idx as int) {
                            let kk = choose|kk: int|
                                0 <= kk < fv[j].1.len() && fv[j].1[kk] == idx as int;
                            assert(fv[j].1[kk] != fv[e as int].1[k as int]);
                        }
                    }
                    lemma_slot_owner_skip(fv, idx as int, e as int);
                    assert(fv.skip(e as int)[0] == fv[e as int]);
                    assert(slot_in(fv[e as int].1, idx as int));
                    assert(fv[e as int].1.take(k + 1)[k as int] == idx);
                    assert(slot_in(fv.skip(e as int)[0].1, idx as int));
                    assert(slot_owner(fv.skip(e as int), idx as int) == Some(0int));
                    assert(slot_owner(fv, idx as int) == Some(e as int));
                    assert(slot_in(fv[e as int].1.take(k + 1), idx as int));
                    assert forall|s: int|
                        #![trigger slot_in(fv[e as int].1.take(k + 1), s)]
                        0 <= s < inst0.len() && s != idx as int && slot_owner(fv, s) == Some(
                            e as int,
                        ) && slot_in(fv[e as int].1.take(k + 1), s) implies slot_in(
                        fv[e as int].1.take(k as int),
                        s,
                    ) by {
                        let kk = choose|kk: int|
                            0 <= kk < k + 1 && (#[trigger] fv[e as int].1.take(k + 1)[kk]) == s;
                        assert(fv[e as int].1[kk] == s);
                        assert(kk != k);
                    }
                }
                k = k + 1;
            }
            proof {
                assert(fv[e as int].1.take(fv[e as int].1.len() as int) =~= fv[e as int].1);
                if lk(lv, fv[e as int].0) is None {
                    let u0 = undef_count(fv, lv, e as int);
                    assert(undef_count(fv, lv, e + 1) == u0 + 1);
                    vstd::arithmetic::div_mod::lemma_add_mod_noop(16 + u0, 1, 0x10000);
                    vstd::arithmetic::div_mod::lemma_small_mod(1nat, 0x10000nat);
                    assert((16 + u0 + 1) % 0x10000 == ((16 + u0) % 0x10000 + 1) % 0x10000);
                    if var_word_prev == 0xffff {
                        assert((var_word_prev + 1) % 0x10000 == 0);
                    } else {
                        vstd::arithmetic::div_mod::lemma_small_mod(
                            (var_word_prev + 1) as nat,
                            0x10000nat,
                        );
                    }
                }
                assert forall|s: int|
                    0 <= s < inst0.len() implies #[trigger] self.instructions@[s] == match
                        slot_owner(fv, s) {
                        Some(pp) => if 0 <= pp < e + 1 {
                            resolved_word(fv, lv, pp)
                        } else {
                            inst0[s]
                        },
                        None => inst0[s],
                    } by {
                    lemma_slot_owner_props(fv, s);
                    if slot_owner(fv, s) == Some(e as int) {
                        assert(slot_in(fv[e as int].1, s));
                        assert(resolved_word(fv, lv, e as int) == w);
                    }
                }
                let symsf = pdb.symbols@;
                assert forall|kx: int|
                    0 <= kx < syms0.len() implies (#[trigger] symsf[kx]).address
                    == syms0[kx].address || exists|p: int|
                    0 <= p < e + 1 && lk(lv, (#[trigger] fv[p]).0) is Some && func_sym_idx(
                        syms0,
                        fv[p].0,
                    ) == Some(kx) by {
                    if symsf[kx].address != syms0[kx].address {
                        if syms_mid[kx].address != syms0[kx].address {
                            let p0 = choose|p: int|
                                0 <= p < e && lk(lv, (#[trigger] fv[p]).0) is Some && func_sym_idx(
                                    syms0,
                                    fv[p].0,
                                ) == Some(kx);
                            assert(0 <= p0 < e + 1 && lk(lv, fv[p0].0) is Some && func_sym_idx(
                                syms0,
                                fv[p0].0,
                            ) == Some(kx));
                        } else {
                            assert(lk(lv, fv[e as int].0) is Some);
                            assert(func_sym_idx(syms0, fv[e as int].0) == Some(kx));
                        }
                    }
                }
            }
            e = e + 1;
        }
        proof {
            assert forall|s: int| 0 <= s < inst0.len() implies #[trigger] self.instructions@[s]
                == fixed_instructions(fv, lv, inst0)[s] by {
                lemma_slot_owner_props(fv, s);
            }
            assert(self.instructions@ =~= fixed_instructions(fv, lv, inst0));
        }
    }

    /// The invariant of `wf` with slot bound `idx + 1`, used between the
    /// reference insertion and the instruction emission that follows it.
    pub open spec fn wf_after_ref(&self, idx: usize) -> bool {
        &&& self.labels.wf()
        &&& forall|i: int, j: int|
            0 <= i < j < self.frefs_v().len() ==> lex_lt(
                (#[trigger] self.frefs_v()[i]).0,
                (#[trigger] self.frefs_v()[j]).0,
            )
        &&& forall|p: int, k: int|
            0 <= p < self.frefs_v().len() && 0 <= k < (#[trigger] self.frefs_v()[p]).1.len()
                ==> #[trigger] self.frefs_v()[p].1[k] < idx + 1
        &&& forall|p: int, k1: int, k2: int|
            0 <= p < self.frefs_v().len() && 0 <= k1 < k2 < (#[trigger] self.frefs_v()[p]).1.len()
                ==> #[trigger] self.frefs_v()[p].1[k1] < #[trigger] self.frefs_v()[p].1[k2]
        &&& forall|p1: int, k1: int, p2: int, k2: int|
            0 <= p1 < p2 < self.frefs_v().len() && 0 <= k1 < (#[trigger] self.frefs_v()[p1]).1.len()
                && 0 <= k2 < (#[trigger] self.frefs_v()[p2]).1.len()
                ==> #[trigger] self.frefs_v()[p1].1[k1] != #[trigger] self.frefs_v()[p2].1[k2]
    }
}

/// What a found slot owner satisfies.
proof fn lemma_slot_owner_props(frefs: Seq<(Seq<char>, Seq<usize>)>, s: int)
    ensures
        match slot_owner(frefs, s) {
            Some(p) => 0 <= p < frefs.len() && slot_in(frefs[p].1, s),
            None => true,
        },
    decreases frefs.len(),
{
    if frefs.len() > 0 {
        lemma_slot_owner_props(frefs.drop_first(), s);
    }
}

/// A number in decimal, zero-padded to at least four digits.
pub open spec fn dec_pad4(n: nat) -> Seq<char> {
    if n < 10 {
        seq!['0', '0', '0'] + crate::text::dec_rep(n)
    } else if n < 100 {
        seq!['0', '0'] + crate::text::dec_rep(n)
    } else if n < 1000 {
        seq!['0'] + crate::text::dec_rep(n)
    } else {
        crate::text::dec_rep(n)
    }
}

/// One listing line: address, decimal address, resolved word and source
/// text for emitting lines; the text alone, right-aligned, otherwise.
pub open spec fn listing_line(
    text: Seq<char>,
    gen: Option<usize>,
    instructions: Seq<u16>,
) -> Seq<char> {
    match gen {
        Some(a) => {
            let a16 = (a as nat % 0x10000) as u16;
            let word: u16 = if a < instructions.len() {
                instructions[a as int]
            } else {
                0u16
            };
            "0x"@ + crate::text::hex4_rep(a16 as nat) + " ("@ + dec_pad4(a16 as nat) + ") 0x"@
                + crate::text::hex4_rep(word as nat) + "  "@ + text
        },
        None => Seq::new(23, |i: int| ' ') + text,
    }
}

/// The listing text up to line `k`, newline-joined.
pub open spec fn listing_upto(
    lines: Seq<(Seq<char>, Option<usize>)>,
    instructions: Seq<u16>,
    k: int,
) -> Seq<char>
    decreases k,
{
    if k <= 0 {
        Seq::empty()
    } else if k == 1 {
        listing_line(lines[0].0, lines[0].1, instructions)
    } else {
        listing_upto(lines, instructions, k - 1) + seq!['\n'] + listing_line(
            lines[k - 1].0,
            lines[k - 1].1,
            instructions,
        )
    }
}

/// The rendering of one word per line, in binary or hexadecimal, up to
/// word `k`.
pub open spec fn words_upto(ws: Seq<u16>, k: int, hex: bool) -> Seq<char>
    decreases k,
{
    if k <= 0 {
        Seq::empty()
    } else {
        words_upto(ws, k - 1, hex) + (if hex {
            crate::text::hex4_rep(ws[k - 1] as nat)
        } else {
            crate::text::bin_rep(ws[k - 1] as nat, 16)
        }) + seq!['\n']
    }
}

/// The test-harness rendering up to word `k`: one store statement per word.
pub open spec fn test_upto(ws: Seq<u16>, k: int) -> Seq<char>
    decreases k,
{
    if k <= 0 {
        Seq::empty()
    } else {
        test_upto(ws, k - 1) + " cpu.rom["@ + crate::text::dec_rep((k - 1) as nat) + "]=0x"@
            + crate::text::hex4_rep(ws[k - 1] as nat) + ";"@ + seq!['\n']
    }
}

/// The loader data section up to entry `k`: an address marker opens every
/// non-contiguous run.
pub open spec fn data_upto(data: Seq<(u16, u16)>, k: int) -> Seq<char>
    decreases k,
{
    if k <= 0 {
        Seq::empty()
    } else {
        let last: int = if k == 1 {
            0
        } else {
            data[k - 2].1 as int
        };
        data_upto(data, k - 1) + (if data[k - 1].1 != last + 1 {
            "RAM@"@ + crate::text::hex4_rep(data[k - 1].1 as nat) + seq!['\n']
        } else {
            Seq::empty()
        }) + crate::text::hex4_rep(data[k - 1].0 as nat) + seq!['\n']
    }
}

proof fn lemma_slot_owner_skip(frefs: Seq<(Seq<char>, Seq<usize>)>, s: int, p: int)
    requires
        0 <= p <= frefs.len(),
        forall|j: int| 0 <= j < p ==> !slot_in((#[trigger] frefs[j]).1, s),
    ensures
        slot_owner(frefs, s) == match slot_owner(frefs.skip(p), s) {
            Some(q) => Some(q + p),
            None => None::<int>,
        },
    decreases p,
{
    if p > 0 {
        assert(frefs.drop_first() =~= frefs.skip(1));
        assert forall|j: int| 0 <= j < p - 1 implies !slot_in(
            (#[trigger] frefs.skip(1)[j]).1,
            s,
        ) by {
            assert(frefs.skip(1)[j] == frefs[j + 1]);
        }
        lemma_slot_owner_skip(frefs.skip(1), s, p - 1);
        assert(frefs.skip(1).skip(p - 1) =~= frefs.skip(p));
    } else {
        assert(frefs.skip(0) =~= frefs);
    }
}

proof fn lemma_func_sym_skip(syms: Seq<Symbol>, name: Seq<char>, p: int)
    requires
        0 <= p <= syms.len(),
        forall|j: int|
            0 <= j < p ==> !((#[trigger] syms[j]).name@ == name && syms[j].symbol_type
                == SymbolType::Func),
    ensures
        func_sym_idx(syms, name) == match func_sym_idx(syms.skip(p), name) {
            Some(q) => Some(q + p),
            None => None::<int>,
        },
    decreases p,
{
    if p > 0 {
        assert(syms.drop_first() =~= syms.skip(1));
        assert forall|j: int|
            0 <= j < p - 1 implies !((#[trigger] syms.skip(1)[j]).name@ == name && syms.skip(
            1,
        )[j].symbol_type == SymbolType::Func) by {
            assert(syms.skip(1)[j] == syms[j + 1]);
        }
        lemma_func_sym_skip(syms.skip(1), name, p - 1);
        assert(syms.skip(1).skip(p - 1) =~= syms.skip(p));
    } else {
        assert(syms.skip(0) =~= syms);
    }
}

/// The output renderings the assembler offers.
pub enum Format {
    RawBinary,
    RawHex,
    Hackem,
    Test,
}

impl Assembler {
    /// The listing: one line per source line, aligned to its address and
    /// resolved word when it emitted an instruction.
    /// Renders one listing line.
    #[verifier::rlimit(50)]
    fn render_listing_line(text: &[char], gen: Option<usize>, instructions: &Vec<u16>) -> (s:
        String)
        ensures
            s@ == listing_line(text@, gen, instructions@),
    {
        let mut s = String::new();
        match gen {
            Some(a) => {
                let a16 = (a % 0x10000) as u16;
                let word: u16 = if a < instructions.len() {
                    instructions[a]
                } else {
                    0
                };
                proof {
                    reveal_strlit("0x");
                    reveal_strlit(" (");
                    reveal_strlit(") 0x");
                    reveal_strlit("  ");
                    reveal_strlit("000");
                    reveal_strlit("00");
                    reveal_strlit("0");
                }
                s.append("0x");
                crate::text::push_hex4(&mut s, a16);
                s.append(" (");
                if a16 < 10 {
                    s.append("000");
                } else if a16 < 100 {
                    s.append("00");
                } else if a16 < 1000 {
                    s.append("0");
                }
                crate::text::push_dec(&mut s, a16 as u64);
                s.append(") 0x");
                crate::text::push_hex4(&mut s, word);
                s.append("  ");
                crate::text::push_chars(&mut s, text);
                proof {
                    assert(seq!['0', '0', '0'] =~= "000"@);
                    assert(seq!['0', '0'] =~= "00"@);
                    assert(seq!['0'] =~= "0"@);
                    assert(s@ =~= listing_line(text@, gen, instructions@));
                }
            },
            None => {
                let mut sp: usize = 0;
                while sp < 23
                    invariant
                        sp <= 23,
                        s@ == Seq::new(sp as nat, |j: int| ' '),
                    decreases 23 - sp,
                {
                    crate::text::push_char(&mut s, ' ');
                    proof {
                        assert(s@ =~= Seq::new((sp + 1) as nat, |j: int| ' '));
                    }
                    sp = sp + 1;
                }
                crate::text::push_chars(&mut s, text);
                proof {
                    assert(s@ =~= listing_line(text@, gen, instructions@));
                }
            },
        }
        s
    }

    /// The listing: one line per source line, aligned to its address and
    /// resolved word when it emitted an instruction.
    pub fn listing(&self) -> (s: String)
        ensures
            s@ == listing_upto(self.lines_v(), self.instructions@, self.lines_v().len() as int),
    {
        let mut s = String::new();
        let n = self.lines.len();
        let mut i: usize = 0;
        while i < n
            invariant
                i <= n == self.lines@.len(),
                s@ == listing_upto(self.lines_v(), self.instructions@, i as int),
            decreases n - i,
        {
            if i > 0 {
                crate::text::push_char(&mut s, '\n');
            }
            let line = Self::render_listing_line(
                self.lines[i].0.as_slice(),
                self.lines[i].1,
                &self.instructions,
            );
            s.append(line.as_str());
            proof {
                assert(self.lines_v()[i as int].0 == self.lines@[i as int].0@);
                assert(s@ =~= listing_upto(self.lines_v(), self.instructions@, i + 1));
            }
            i = i + 1;
        }
        s
    }

    /// Renders the assembled words (and, for the loader format, the halt
    /// address and the data section) in the chosen format.
    pub fn output_code(&self, format: Format) -> (s: String)
        ensures
            match format {
                Format::RawBinary => s@ == words_upto(
                    self.instructions@,
                    self.instructions@.len() as int,
                    false,
                ),
                Format::RawHex => s@ == words_upto(
                    self.instructions@,
                    self.instructions@.len() as int,
                    true,
                ),
                Format::Test => s@ == test_upto(
                    self.instructions@,
                    self.instructions@.len() as int,
                ),
                Format::Hackem => s@ == "hackem v1.0 0x"@ + crate::text::hex4_rep(
                    self.halt_addr as nat,
                ) + seq!['\n'] + "ROM@0000"@ + seq!['\n'] + words_upto(
                    self.instructions@,
                    self.instructions@.len() as int,
                    true,
                ) + data_upto(self.data@, self.data@.len() as int),
            },
    {
        let mut s = String::new();
        let n = self.instructions.len();
        match format {
            Format::RawBinary => {
                let mut i: usize = 0;
                while i < n
                    invariant
                        i <= n == self.instructions@.len(),
                        s@ == words_upto(self.instructions@, i as int, false),
                    decreases n - i,
                {
                    crate::text::push_bin(&mut s, self.instructions[i], 16);
                    crate::text::push_char(&mut s, '\n');
                    i = i + 1;
                }
                s
            },
            Format::RawHex => {
                let mut i: usize = 0;
                while i < n
                    invariant
                        i <= n == self.instructions@.len(),
                        s@ == words_upto(self.instructions@, i as int, true),
                    decreases n - i,
                {
                    crate::text::push_hex4(&mut s, self.instructions[i]);
                    crate::text::push_char(&mut s, '\n');
                    i = i + 1;
                }
                s
            },
            Format::Test => {
                proof {
                    reveal_strlit(" cpu.rom[");
                    reveal_strlit("]=0x");
                    reveal_strlit(";");
                }
                let mut i: usize = 0;
                while i < n
                    invariant
                        i <= n == self.instructions@.len(),
                        s@ == test_upto(self.instructions@, i as int),
                    decreases n - i,
                {
                    s.append(" cpu.rom[");
                    crate::text::push_dec(&mut s, i as u64);
                    s.append("]=0x");
                    crate::text::push_hex4(&mut s, self.instructions[i]);
                    s.append(";");
                    crate::text::push_char(&mut s, '\n');
                    proof {
                        reveal_strlit(" cpu.rom[");
                        reveal_strlit("]=0x");
                        reveal_strlit(";");
                        assert(s@ =~= test_upto(self.instructions@, i + 1));
                    }
                    i = i + 1;
                }
                s
            },
            Format::Hackem => {
                proof {
                    reveal_strlit("hackem v1.0 0x");
                    reveal_strlit("ROM@0000");
                    reveal_strlit("RAM@");
                }
                s.append("hackem v1.0 0x");
                crate::text::push_hex4(&mut s, self.halt_addr);
                crate::text::push_char(&mut s, '\n');
                s.append("ROM@0000");
                crate::text::push_char(&mut s, '\n');
                let ghost head = s@;
                let mut i: usize = 0;
                while i < n
                    invariant
                        i <= n == self.instructions@.len(),
                        s@ == head + words_upto(self.instructions@, i as int, true),
                    decreases n - i,
                {
                    crate::text::push_hex4(&mut s, self.instructions[i]);
                    crate::text::push_char(&mut s, '\n');
                    proof {
                        assert(s@ =~= head + words_upto(self.instructions@, i + 1, true));
                    }
                    i = i + 1;
                }
                let ghost mid = s@;
                let m = self.data.len();
                let mut last_addr: u16 = 0;
                let mut k: usize = 0;
                while k < m
                    invariant
                        k <= m == self.data@.len(),
                        s@ == mid + data_upto(self.data@, k as int),
                        last_addr as int == if k == 0 {
                            0
                        } else {
                            self.data@[k - 1].1 as int
                        },
                    decreases m - k,
                {
                    let (value, addr) = self.data[k];
                    let needs_marker: bool = if last_addr == 0xffff {
                        true
                    } else {
                        addr != last_addr + 1
                    };
                    if needs_marker {
                        proof {
                            reveal_strlit("RAM@");
                        }
                        s.append("RAM@");
                        crate::text::push_hex4(&mut s, addr);
                        crate::text::push_char(&mut s, '\n');
                    }
                    crate::text::push_hex4(&mut s, value);
                    crate::text::push_char(&mut s, '\n');
                    proof {
                        assert(s@ =~= mid + data_upto(self.data@, k + 1));
                    }
                    last_addr = addr;
                    k = k + 1;
                }
                s
            },
        }
    }
}

/// What a found first function symbol satisfies.
proof fn lemma_func_sym_props(syms: Seq<Symbol>, name: Seq<char>)
    ensures
        match func_sym_idx(syms, name) {
            Some(k) => 0 <= k < syms.len() && syms[k].name@ == name && syms[k].symbol_type
                == SymbolType::Func,
            None => true,
        },
    decreases syms.len(),
{
    if syms.len() > 0 {
        lemma_func_sym_props(syms.drop_first(), name);
    }
}

/// Readdressing symbols never moves the first function symbol of a name.
pub proof fn lemma_func_sym_stable(a: Seq<Symbol>, b: Seq<Symbol>, name: Seq<char>)
    requires
        a.len() == b.len(),
        forall|k: int|
            0 <= k < a.len() ==> (#[trigger] b[k]).name@ == a[k].name@ && b[k].symbol_type
                == a[k].symbol_type,
    ensures
        func_sym_idx(b, name) == func_sym_idx(a, name),
    decreases a.len(),
{
    if a.len() > 0 {
        assert(a.drop_first().len() == b.drop_first().len());
        assert forall|k: int|
            0 <= k < a.drop_first().len() implies (#[trigger] b.drop_first()[k]).name@
            == a.drop_first()[k].name@ && b.drop_first()[k].symbol_type
            == a.drop_first()[k].symbol_type by {
            assert(a.drop_first()[k] == a[k + 1]);
            assert(b.drop_first()[k] == b[k + 1]);
        }
        lemma_func_sym_stable(a.drop_first(), b.drop_first(), name);
    }
}

/// Sets the address of the first function symbol named `name`, if there is
/// one; every other record is left alone.
pub fn patch_func_symbol(syms: &mut Vec<Symbol>, name: &[char], addr: u16)
    ensures
        final(syms)@.len() == old(syms)@.len(),
        match func_sym_idx(old(syms)@, name@) {
            Some(k) => sym_readdressed(old(syms)@[k], final(syms)@[k], addr) && forall|j: int|
                0 <= j < old(syms)@.len() && j != k ==> final(syms)@[j] == old(syms)@[j],
            None => final(syms)@ == old(syms)@,
        },
{
    let n = syms.len();
    let mut i: usize = 0;
    while i < n
        invariant
            i <= n == syms@.len(),
            syms@ == old(syms)@,
            forall|j: int|
                0 <= j < i ==> !((#[trigger] syms@[j]).name@ == name@ && syms@[j].symbol_type
                    == SymbolType::Func),
        decreases n - i,
    {
        let matches_name = crate::keymap::chars_eq_lit(name, syms[i].name.as_str());
        if matches_name && syms[i].symbol_type == SymbolType::Func {
            proof {
                lemma_func_sym_skip(syms@, name@, i as int);
                assert(syms@.skip(i as int)[0] == syms@[i as int]);
                assert(func_sym_idx(syms@, name@) == Some(i as int));
            }
            let mut s = syms.remove(i);
            s.address = addr;
            syms.insert(i, s);
            proof {
                assert(final(syms)@.len() == old(syms)@.len());
            }
            return ;
        }
        i = i + 1;
    }
    proof {
        lemma_func_sym_skip(syms@, name@, n as int);
        assert(syms@.skip(n as int) =~= Seq::<Symbol>::empty());
    }
}

// ---------------------------------------------------------------------------
// Laws
// ---------------------------------------------------------------------------

/// Every emitted C-instruction word keeps its three high bits set: a line
/// classified as a C-instruction always encodes to a word `w` with
/// `w & 0xE000 == 0xE000`.
pub proof fn lemma_c_word_high_bits(t: Seq<char>)
    requires
        classify(t) is CInst,
    ensures
        (classify(t)->CInst_0) & 0xe000 == 0xe000,
{
    let w = classify(t)->CInst_0;
    assert(0xe000 <= w);
    crate::assembler::parse::lemma_c_high_bits(w);
}

/// A label definition binds the name to the address of the next
/// instruction at the definition site.
pub proof fn lemma_label_binds_next_instruction(st: AsmSt, name: Seq<char>, raw: Seq<char>)
    requires
        asm_step(st, ItemV::LabelDef(name), raw) is Ok,
    ensures
        (asm_step(st, ItemV::LabelDef(name), raw)->Ok_0).labels == st.labels.push(
            (name, st.instructions.len() as usize),
        ),
        lk((asm_step(st, ItemV::LabelDef(name), raw)->Ok_0).labels, name) is Some,
{
    let lv2 = (asm_step(st, ItemV::LabelDef(name), raw)->Ok_0).labels;
    assert(lk(st.labels, name) is None);
    lemma_lk_none(st.labels, name);
    assert forall|j: int| 0 <= j < lv2.len() - 1 implies (#[trigger] lv2[j]).0 != name by {
        assert(lv2[j] == st.labels[j]);
    }
    lemma_lk_at_gen(lv2, lv2.len() - 1);
}

proof fn lemma_lk_at_gen(labels: Seq<(Seq<char>, usize)>, li: int)
    requires
        0 <= li < labels.len(),
        forall|j: int| 0 <= j < li ==> (#[trigger] labels[j]).0 != labels[li].0,
    ensures
        lk(labels, labels[li].0) == Some(labels[li].1),
    decreases li,
{
    if li > 0 {
        assert(labels.drop_first() =~= labels.skip(1));
        assert forall|j: int| 0 <= j < li - 1 implies (#[trigger] labels.skip(1)[j]).0 != labels.skip(
            1,
        )[li - 1].0 by {
            assert(labels.skip(1)[j] == labels[j + 1]);
            assert(labels.skip(1)[li - 1] == labels[li]);
        }
        assert(labels.skip(1)[li - 1] == labels[li]);
        lemma_lk_at_gen(labels.skip(1), li - 1);
    }
}

proof fn lemma_undef_mono(
    frefs: Seq<(Seq<char>, Seq<usize>)>,
    labels: Seq<(Seq<char>, usize)>,
    a: int,
    b: int,
)
    requires
        0 <= a <= b,
    ensures
        undef_count(frefs, labels, a) <= undef_count(frefs, labels, b),
    decreases b - a,
{
    if a < b {
        lemma_undef_mono(frefs, labels, a, b - 1);
    }
}

/// Variable allocation: in the fixed instruction stream, every slot of a
/// forward-referenced name holds that name's single resolved word; a name
/// not defined as a label gets an address at least 16 and below the screen
/// base, and distinct such names get distinct addresses — provided fewer
/// than `0x3ff0` distinct names need variables.
pub proof fn lemma_variable_addresses(
    frefs: Seq<(Seq<char>, Seq<usize>)>,
    labels: Seq<(Seq<char>, usize)>,
    inst: Seq<u16>,
)
    requires
        forall|i: int, j: int|
            0 <= i < j < frefs.len() ==> lex_lt((#[trigger] frefs[i]).0, (#[trigger] frefs[j]).0),
        forall|p: int, k: int|
            0 <= p < frefs.len() && 0 <= k < (#[trigger] frefs[p]).1.len()
                ==> #[trigger] frefs[p].1[k] < inst.len(),
        forall|p1: int, k1: int, p2: int, k2: int|
            0 <= p1 < p2 < frefs.len() && 0 <= k1 < (#[trigger] frefs[p1]).1.len() && 0 <= k2 < (
            #[trigger] frefs[p2]).1.len() ==> #[trigger] frefs[p1].1[k1] != #[trigger] frefs[p2].1[k2],
        undef_count(frefs, labels, frefs.len() as int) <= 0x3ff0,
    ensures
        forall|p: int, k: int|
            0 <= p < frefs.len() && 0 <= k < (#[trigger] frefs[p]).1.len()
                ==> fixed_instructions(frefs, labels, inst)[#[trigger] frefs[p].1[k] as int]
                == resolved_word(frefs, labels, p),
        forall|p: int|
            0 <= p < frefs.len() && lk(labels, (#[trigger] frefs[p]).0) is None ==> 16
                <= resolved_word(frefs, labels, p) < 0x4000,
        forall|p1: int, p2: int|
            0 <= p1 < p2 < frefs.len() && lk(labels, (#[trigger] frefs[p1]).0) is None && lk(
                labels,
                (#[trigger] frefs[p2]).0,
            ) is None ==> resolved_word(frefs, labels, p1) != resolved_word(frefs, labels, p2),
{
    assert forall|p: int, k: int|
        0 <= p < frefs.len() && 0 <= k < (#[trigger] frefs[p]).1.len() implies fixed_instructions(
        frefs,
        labels,
        inst,
    )[#[trigger] frefs[p].1[k] as int] == resolved_word(frefs, labels, p) by {
        let s = frefs[p].1[k] as int;
        assert forall|j: int| 0 <= j < p implies !slot_in((#[trigger] frefs[j]).1, s) by {
            if slot_in(frefs[j].1, s) {
                let kk = choose|kk: int| 0 <= kk < frefs[j].1.len() && frefs[j].1[kk] == s;
                assert(frefs[j].1[kk] != frefs[p].1[k]);
            }
        }
        lemma_slot_owner_skip(frefs, s, p);
        assert(frefs.skip(p)[0] == frefs[p]);
        assert(slot_in(frefs[p].1, s));
        assert(slot_owner(frefs, s) == Some(p));
    }
    assert forall|p: int|
        0 <= p < frefs.len() && lk(labels, (#[trigger] frefs[p]).0) is None implies 16
        <= resolved_word(frefs, labels, p) < 0x4000 by {
        lemma_undef_mono(frefs, labels, 0, p);
        lemma_undef_mono(frefs, labels, p + 1, frefs.len() as int);
        assert(undef_count(frefs, labels, p + 1) == undef_count(frefs, labels, p) + 1);
        assert(0 <= undef_count(frefs, labels, p) <= 0x3fef);
        vstd::arithmetic::div_mod::lemma_small_mod(
            (16 + undef_count(frefs, labels, p)) as nat,
            0x10000nat,
        );
    }
    assert forall|p1: int, p2: int|
        0 <= p1 < p2 < frefs.len() && lk(labels, (#[trigger] frefs[p1]).0) is None && lk(
            labels,
            (#[trigger] frefs[p2]).0,
        ) is None implies resolved_word(frefs, labels, p1) != resolved_word(frefs, labels, p2) by {
        lemma_undef_mono(frefs, labels, 0, p1);
        lemma_undef_mono(frefs, labels, p1 + 1, p2);
        assert(undef_count(frefs, labels, p1 + 1) == undef_count(frefs, labels, p1) + 1);
        lemma_undef_mono(frefs, labels, p2 + 1, frefs.len() as int);
        assert(undef_count(frefs, labels, p2 + 1) == undef_count(frefs, labels, p2) + 1);
        assert(0 <= undef_count(frefs, labels, p1) < undef_count(frefs, labels, p2) <= 0x3fef);
        vstd::arithmetic::div_mod::lemma_small_mod(
            (16 + undef_count(frefs, labels, p1)) as nat,
            0x10000nat,
        );
        vstd::arithmetic::div_mod::lemma_small_mod(
            (16 + undef_count(frefs, labels, p2)) as nat,
            0x10000nat,
        );
    }
}

proof fn lemma_hex_digit_inverse(d: nat)
    requires
        d < 16,
    ensures
        crate::text::hex_digit_val(crate::text::hex_digit(d)) == d,
        crate::text::is_hex_digit(crate::text::hex_digit(d)),
{
}

/// Four hexadecimal digits read back to the word they rendered.
pub proof fn lemma_hex4_inverse(w: u16)
    ensures
        crate::text::hex_val(crate::text::hex4_rep(w as nat)) == w,
        crate::text::hex4_rep(w as nat).len() == 4,
{
    reveal_with_fuel(crate::text::hex_val, 6);
    let s = crate::text::hex4_rep(w as nat);
    lemma_hex_digit_inverse(w as nat / 4096 % 16);
    lemma_hex_digit_inverse(w as nat / 256 % 16);
    lemma_hex_digit_inverse(w as nat / 16 % 16);
    lemma_hex_digit_inverse(w as nat % 16);
    assert(s.drop_last() =~= crate::text::hex4_rep(w as nat).take(3));
    assert(crate::text::hex_val(s) == ((w as nat / 4096 % 16) * 16 + (w as nat / 256 % 16)) * 16
        * 16 + (w as nat / 16 % 16) * 16 + (w as nat % 16)) by {
        let s3 = s.drop_last();
        let s2 = s3.drop_last();
        let s1 = s2.drop_last();
        assert(s1.drop_last() =~= Seq::<char>::empty());
        assert(s1.last() == s[0]);
        assert(s2.last() == s[1]);
        assert(s3.last() == s[2]);
        assert(s.last() == s[3]);
    }
    assert(w / 4096 % 16 * 4096 + w / 256 % 16 * 256 + w / 16 % 16 * 16 + w % 16 == w)
        by (bit_vector);
}

/// The padded decimal field is exactly four characters below ten thousand.
proof fn lemma_dec_pad4_len(n: nat)
    requires
        n < 10000,
    ensures
        dec_pad4(n).len() == 4,
{
    reveal_with_fuel(crate::text::dec_rep, 6);
    if n < 10 {
    } else if n < 100 {
        assert(crate::text::dec_rep(n).len() == 2);
    } else if n < 1000 {
        assert(crate::text::dec_rep(n / 10).len() == 2);
        assert(crate::text::dec_rep(n).len() == 3);
    } else {
        assert(crate::text::dec_rep(n / 100).len() == 2);
        assert(crate::text::dec_rep(n / 10).len() == 3);
        assert(crate::text::dec_rep(n).len() == 4);
    }
}

/// One listing line gives back the word it shows: for an emitting line at
/// an address below ten thousand, the four characters after the second
/// `0x` are exactly the resolved word in hexadecimal, and reading them as
/// a number restores it. This is the line-level half of the round trip
/// from a listing back to the ROM image.
pub proof fn lemma_listing_line_recovers(text: Seq<char>, a: usize, instructions: Seq<u16>)
    requires
        a < instructions.len(),
        a < 10000,
    ensures
        listing_line(text, Some(a), instructions).subrange(16, 20) == crate::text::hex4_rep(
            instructions[a as int] as nat,
        ),
        crate::text::hex_val(listing_line(text, Some(a), instructions).subrange(16, 20))
            == instructions[a as int],
        listing_line(text, Some(a), instructions)[0] == '0',
        listing_line(text, Some(a), instructions)[1] == 'x',
{
    let word = instructions[a as int];
    let a16 = (a as nat % 0x10000) as u16;
    vstd::arithmetic::div_mod::lemma_small_mod(a as nat, 0x10000nat);
    lemma_dec_pad4_len(a16 as nat);
    let l = listing_line(text, Some(a), instructions);
    reveal_strlit("0x");
    reveal_strlit(" (");
    reveal_strlit(") 0x");
    reveal_strlit("  ");
    lemma_hex4_inverse(word);
    lemma_hex4_inverse(a16);
    assert(l.subrange(16, 20) =~= crate::text::hex4_rep(word as nat));
    assert(l[0] == '0');
    assert(l[1] == 'x');
}

/// Source-map addresses never decrease within one assembly pass.
pub open spec fn smap_sorted(s: Seq<SourceMap>) -> bool {
    forall|i: int, j: int| 0 <= i <= j < s.len() ==> (#[trigger] s[i]).addr <= (#[trigger] s[j]).addr
}

/// The assembly pass appends source-map records with non-decreasing
/// addresses, as long as the instruction stream stays within the sixteen-bit
/// address space.
pub proof fn lemma_source_map_monotone(st0: AsmSt, pairs: Seq<(Seq<char>, ItemV)>)
    requires
        asm_fold(st0, pairs) is Ok,
        smap_sorted(st0.smap),
        forall|i: int|
            0 <= i < st0.smap.len() ==> (#[trigger] st0.smap[i]).addr <= st0.instructions.len(),
        st0.instructions.len() + pairs.len() <= 0xffff,
    ensures
        smap_sorted((asm_fold(st0, pairs)->Ok_0).smap),
        forall|i: int|
            0 <= i < (asm_fold(st0, pairs)->Ok_0).smap.len() ==> (#[trigger] (asm_fold(
                st0,
                pairs,
            )->Ok_0).smap[i]).addr <= (asm_fold(st0, pairs)->Ok_0).instructions.len(),
        (asm_fold(st0, pairs)->Ok_0).instructions.len() <= st0.instructions.len() + pairs.len(),
    decreases pairs.len(),
{
    if pairs.len() > 0 {
        let st1 = asm_step(st0, pairs[0].1, pairs[0].0)->Ok_0;
        assert(st1.instructions.len() <= st0.instructions.len() + 1);
        assert(smap_sorted(st1.smap) && forall|i: int|
            0 <= i < st1.smap.len() ==> (#[trigger] st1.smap[i]).addr <= st1.instructions.len())
            by {
            if pairs[0].1 is PdbMark {
                vstd::arithmetic::div_mod::lemma_small_mod(
                    st0.instructions.len(),
                    0x10000nat,
                );
                assert(st1.smap =~= st0.smap.push(st1.smap.last()));
            }
        }
        lemma_source_map_monotone(st1, pairs.drop_first());
    }
}

} // verus!
