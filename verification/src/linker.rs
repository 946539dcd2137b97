//! The link stage: partitions VM files into one chunk per function,
//! records each chunk's calls, and emits exactly the chunks reachable from
//! the entry function, depth first, each once.
use crate::assembler::parse::subvec;
use crate::keymap::{chars_eq, chars_eq_lit, key_in, lemma_find_in_key, KeyMap};
use crate::text::{spec_lines, trim, trim_chars, chars_of, split_lines, join_lines, string_of};
use crate::vcomp::parse::split2_at;
use crate::vcomp::parse::split2;
use vstd::prelude::*;

verus! {

/// One function's lines and the functions it calls, in encounter order.
pub struct Chunk {
    pub code: Vec<String>,
    pub calls: Vec<Vec<char>>,
}

/// A chunk at the specification level.
#[verifier::ext_equal]
pub struct ChunkV {
    pub code: Seq<Seq<char>>,
    pub calls: Seq<Seq<char>>,
}

impl View for Chunk {
    type V = ChunkV;

    open spec fn view(&self) -> ChunkV {
        ChunkV {
            code: self.code@.map_values(|l: String| l@),
            calls: self.calls@.map_values(|c: Vec<char>| c@),
        }
    }
}

/// What one linker line means.
pub enum LinkItemV {
    /// A `function <name> ...` header opening a new chunk.
    FuncDef(Seq<char>),
    /// A `call <name> ...` statement, recorded as an edge.
    CallRef(Seq<char>),
    /// Any other line, stored in the current chunk.
    Plain,
    /// A `function` or `call` with no name after it.
    Bad,
}

/// Classifies one line for the linker: only the first two
/// whitespace-separated tokens matter.
pub open spec fn link_classify(l: Seq<char>) -> LinkItemV {
    let t = trim(l);
    let (t1, r1) = split2(t);
    if t1 == "function"@ {
        let (t2, _r2) = split2(r1);
        if t2.len() > 0 {
            LinkItemV::FuncDef(t2)
        } else {
            LinkItemV::Bad
        }
    } else if t1 == "call"@ {
        let (t2, _r2) = split2(r1);
        if t2.len() > 0 {
            LinkItemV::CallRef(t2)
        } else {
            LinkItemV::Bad
        }
    } else {
        LinkItemV::Plain
    }
}

/// How loading or linking fails.
#[derive(Clone, Copy, Debug, PartialEq, Eq, Structural)]
pub enum LinkError {
    /// Two chunks define the same function.
    DuplicateFunction { line: usize },
    /// A `call` or other line before any `function` header.
    OutsideFunction { line: usize },
    /// A `function` or `call` with no name.
    Syntax { line: usize },
    /// A call whose target is not among the chunks.
    Unresolved,
    /// No entry function.
    NoEntry,
}

/// The chunk table view.
pub open spec fn chunks_v(chunks: Seq<(Vec<char>, Chunk)>) -> Seq<(Seq<char>, ChunkV)> {
    chunks.map_values(|e: (Vec<char>, Chunk)| (e.0@, e.1@))
}

/// The first chunk bound to `name`.
pub open spec fn ck_find(cs: Seq<(Seq<char>, ChunkV)>, name: Seq<char>) -> Option<int>
    decreases cs.len(),
{
    if cs.len() == 0 {
        None
    } else if cs[0].0 == name {
        Some(0int)
    } else {
        match ck_find(cs.drop_first(), name) {
            Some(p) => Some(p + 1),
            None => None,
        }
    }
}

proof fn lemma_ck_find_skip(cs: Seq<(Seq<char>, ChunkV)>, name: Seq<char>, p: int)
    requires
        0 <= p <= cs.len(),
        forall|j: int| 0 <= j < p ==> (#[trigger] cs[j]).0 != name,
    ensures
        ck_find(cs, name) == match ck_find(cs.skip(p), name) {
            Some(q) => Some(q + p),
            None => None::<int>,
        },
    decreases p,
{
    if p > 0 {
        assert(cs.drop_first() =~= cs.skip(1));
        assert forall|j: int| 0 <= j < p - 1 implies (#[trigger] cs.skip(1)[j]).0 != name by {
            assert(cs.skip(1)[j] == cs[j + 1]);
        }
        lemma_ck_find_skip(cs.skip(1), name, p - 1);
        assert(cs.skip(1).skip(p - 1) =~= cs.skip(p));
    } else {
        assert(cs.skip(0) =~= cs);
    }
}

/// One step of the loading pass.
pub open spec fn link_step(
    cs: Seq<(Seq<char>, ChunkV)>,
    cur: Option<int>,
    l: Seq<char>,
) -> Result<(Seq<(Seq<char>, ChunkV)>, Option<int>), LinkItemV> {
    match link_classify(l) {
        LinkItemV::FuncDef(name) => {
            if ck_find(cs, name) is Some {
                Err(LinkItemV::FuncDef(name))
            } else {
                Ok(
                    (
                        cs.push((name, ChunkV { code: seq![l], calls: Seq::empty() })),
                        Some(cs.len() as int),
                    ),
                )
            }
        },
        LinkItemV::CallRef(name) => match cur {
            Some(i) => Ok(
                (
                    cs.update(
                        i,
                        (
                            cs[i].0,
                            ChunkV { code: cs[i].1.code.push(l), calls: cs[i].1.calls.push(name) },
                        ),
                    ),
                    cur,
                ),
            ),
            None => Err(LinkItemV::CallRef(name)),
        },
        LinkItemV::Plain => match cur {
            Some(i) => Ok(
                (cs.update(i, (cs[i].0, ChunkV { code: cs[i].1.code.push(l), calls: cs[i].1.calls })), cur),
            ),
            None => Err(LinkItemV::Plain),
        },
        LinkItemV::Bad => Err(LinkItemV::Bad),
    }
}

/// The loading pass over a whole source, chunking every line.
pub open spec fn link_fold(
    cs: Seq<(Seq<char>, ChunkV)>,
    cur: Option<int>,
    lines: Seq<Seq<char>>,
) -> Result<(Seq<(Seq<char>, ChunkV)>, Option<int>), (int, LinkItemV)>
    decreases lines.len(),
{
    if lines.len() == 0 {
        Ok((cs, cur))
    } else {
        match link_step(cs, cur, lines[0]) {
            Ok((cs2, cur2)) => match link_fold(cs2, cur2, lines.drop_first()) {
                Ok(r) => Ok(r),
                Err((i, e)) => Err((i + 1, e)),
            },
            Err(e) => Err((0, e)),
        }
    }
}

proof fn lemma_link_fold_snoc(
    cs: Seq<(Seq<char>, ChunkV)>,
    cur: Option<int>,
    lines: Seq<Seq<char>>,
    i: int,
)
    requires
        0 <= i < lines.len(),
        link_fold(cs, cur, lines.take(i)) is Ok,
    ensures
        link_fold(cs, cur, lines.take(i + 1)) == match link_step(
            (link_fold(cs, cur, lines.take(i))->Ok_0).0,
            (link_fold(cs, cur, lines.take(i))->Ok_0).1,
            lines[i],
        ) {
            Ok(r) => Ok::<_, (int, LinkItemV)>(r),
            Err(e) => Err::<(Seq<(Seq<char>, ChunkV)>, Option<int>), _>((i, e)),
        },
    decreases i,
{
    if i == 0 {
        assert(lines.take(0) =~= Seq::<Seq<char>>::empty());
        assert(link_fold(cs, cur, lines.take(0)) == Ok::<_, (int, LinkItemV)>((cs, cur)));
        assert(lines.take(1)[0] == lines[0]);
        assert(lines.take(1).len() == 1);
        assert(lines.take(1).drop_first() =~= Seq::<Seq<char>>::empty());
        match link_step(cs, cur, lines[0]) {
            Ok((cs2, cur2)) => {
                assert(link_fold(cs2, cur2, lines.take(1).drop_first()) == Ok::<
                    _,
                    (int, LinkItemV),
                >((cs2, cur2)));
                assert(link_fold(cs, cur, lines.take(1)) == Ok::<_, (int, LinkItemV)>(
                    (cs2, cur2),
                ));
            },
            Err(e) => {
                assert(link_fold(cs, cur, lines.take(1)) == Err::<
                    (Seq<(Seq<char>, ChunkV)>, Option<int>),
                    _,
                >((0int, e)));
            },
        }
    } else {
        assert(lines.take(i)[0] == lines[0]);
        assert(lines.take(i).drop_first() =~= lines.drop_first().take(i - 1));
        let s1 = link_step(cs, cur, lines[0]);
        assert(s1 is Ok);
        let cs1 = s1->Ok_0.0;
        let cur1 = s1->Ok_0.1;
        assert(link_fold(cs, cur, lines.take(i)) == link_fold(
            cs1,
            cur1,
            lines.drop_first().take(i - 1),
        )) by {
            assert(link_step(cs, cur, lines.take(i)[0]) == s1);
        }
        lemma_link_fold_snoc(cs1, cur1, lines.drop_first(), i - 1);
        assert(lines.take(i + 1)[0] == lines[0]);
        assert(lines.take(i + 1).drop_first() =~= lines.drop_first().take(i));
        assert(lines.drop_first()[i - 1] == lines[i]);
        assert(link_fold(cs, cur, lines.take(i + 1)) == match link_fold(
            cs1,
            cur1,
            lines.drop_first().take(i),
        ) {
            Ok(r) => Ok::<_, (int, LinkItemV)>(r),
            Err((j, e)) => Err((j + 1, e)),
        }) by {
            assert(link_step(cs, cur, lines.take(i + 1)[0]) == s1);
        }
    }
}

/// A failed prefix decides the whole loading pass.
proof fn lemma_link_fold_err_prefix(
    cs: Seq<(Seq<char>, ChunkV)>,
    cur: Option<int>,
    lines: Seq<Seq<char>>,
    j: int,
)
    requires
        0 <= j <= lines.len(),
        link_fold(cs, cur, lines.take(j)) is Err,
    ensures
        link_fold(cs, cur, lines) == link_fold(cs, cur, lines.take(j)),
    decreases j,
{
    assert(j > 0);
    assert(lines.take(j)[0] == lines[0]);
    match link_step(cs, cur, lines[0]) {
        Ok((cs2, cur2)) => {
            assert(lines.take(j).drop_first() =~= lines.drop_first().take(j - 1));
            lemma_link_fold_err_prefix(cs2, cur2, lines.drop_first(), j - 1);
        },
        Err(e) => {},
    }
}

/// The lines the loader sees: the pieces of the source, without the empty
/// piece a trailing newline leaves behind.
pub open spec fn link_lines(src: Seq<char>) -> Seq<Seq<char>> {
    if spec_lines(src).last().len() == 0 {
        spec_lines(src).drop_last()
    } else {
        spec_lines(src)
    }
}

/// The linker: loads chunked VM files and emits the reachable subset.
pub struct Linker {
    pub chunks: Vec<(Vec<char>, Chunk)>,
    pub current: Option<usize>,
}

impl Linker {
    /// Unique chunk names, and the cursor points at the last chunk.
    pub open spec fn wf(&self) -> bool {
        &&& forall|i: int, j: int|
            0 <= i < j < self.chunks@.len() ==> (#[trigger] self.chunks@[i]).0@ != (
            #[trigger] self.chunks@[j]).0@
        &&& match self.current {
            Some(i) => self.chunks@.len() > 0 && i == self.chunks@.len() - 1,
            None => self.chunks@.len() == 0,
        }
    }

    /// The chunk table view.
    pub open spec fn cs(&self) -> Seq<(Seq<char>, ChunkV)> {
        chunks_v(self.chunks@)
    }

    /// The cursor view.
    pub open spec fn cur_v(&self) -> Option<int> {
        match self.current {
            Some(i) => Some(i as int),
            None => None,
        }
    }

    /// An empty linker.
    pub fn new() -> (l: Linker)
        ensures
            l.cs() =~= Seq::<(Seq<char>, ChunkV)>::empty(),
            l.current is None,
            l.wf(),
    {
        let l = Linker { chunks: Vec::new(), current: None };
        proof {
            assert(l.cs() =~= Seq::<(Seq<char>, ChunkV)>::empty());
        }
        l
    }

    /// Loads one VM file: every line joins the chunk of the most recent
    /// `function` header, and every `call` is recorded as an edge of it.
    pub fn load(&mut self, source: &str) -> (r: Result<(), LinkError>)
        requires
            old(self).wf(),
        ensures
            final(self).wf(),
            match r {
                Ok(()) => {
                    &&& link_fold(old(self).cs(), old(self).cur_v(), link_lines(source@)) is Ok
                    &&& final(self).cs() == (link_fold(
                        old(self).cs(),
                        old(self).cur_v(),
                        link_lines(source@),
                    )->Ok_0).0
                    &&& final(self).cur_v() == (link_fold(
                        old(self).cs(),
                        old(self).cur_v(),
                        link_lines(source@),
                    )->Ok_0).1
                },
                Err(e) => {
                    &&& link_fold(old(self).cs(), old(self).cur_v(), link_lines(source@)) is Err
                    &&& ({
                        let fail = link_fold(
                            old(self).cs(),
                            old(self).cur_v(),
                            link_lines(source@),
                        )->Err_0;
                        match e {
                            LinkError::DuplicateFunction { line } => fail.0 == line as int
                                && fail.1 is FuncDef,
                            LinkError::Syntax { line } => fail.0 == line as int && fail.1 is Bad,
                            LinkError::OutsideFunction { line } => fail.0 == line as int && (
                            fail.1 is CallRef || fail.1 is Plain),
                            _ => false,
                        }
                    })
                },
            },
    {
        let ghost lines0 = link_lines(source@);
        let chars = chars_of(source);
        let raw_lines = split_lines(&chars);
        let full = raw_lines.len();
        let n = if raw_lines[full - 1].len() == 0 {
            full - 1
        } else {
            full
        };
        proof {
            assert(raw_lines@.map_values(|l: Vec<char>| l@) == spec_lines(source@));
            if spec_lines(source@).last().len() == 0 {
                assert(lines0 =~= spec_lines(source@).drop_last());
            }
            assert(lines0.len() == n);
            assert forall|j: int| 0 <= j < n implies #[trigger] lines0[j] == raw_lines@[j]@ by {
                assert(raw_lines@.map_values(|l: Vec<char>| l@)[j] == raw_lines@[j]@);
            }
            assert(lines0.take(0) =~= Seq::<Seq<char>>::empty());
        }
        let mut i: usize = 0;
        while i < n
            invariant
                i <= n <= raw_lines@.len(),
                lines0 == link_lines(source@),
                lines0.len() == n,
                forall|j: int| 0 <= j < n ==> #[trigger] lines0[j] == raw_lines@[j]@,
                link_fold(old(self).cs(), old(self).cur_v(), lines0.take(i as int)) is Ok,
                self.cs() == (link_fold(
                    old(self).cs(),
                    old(self).cur_v(),
                    lines0.take(i as int),
                )->Ok_0).0,
                self.cur_v() == (link_fold(
                    old(self).cs(),
                    old(self).cur_v(),
                    lines0.take(i as int),
                )->Ok_0).1,
                self.wf(),
            decreases n - i,
        {
            let ghost m = link_fold(old(self).cs(), old(self).cur_v(), lines0.take(i as int))->Ok_0;
            proof {
                lemma_link_fold_snoc(old(self).cs(), old(self).cur_v(), lines0, i as int);
            }
            let raw_len = raw_lines[i].len();
            let line = subvec(raw_lines[i].as_slice(), 0, raw_len);
            assert(line@ =~= lines0[i as int]);
            let t = trim_chars(&line);
            let (t1, r1) = split2_at(t.as_slice());
            if chars_eq_lit(t1.as_slice(), "function") {
                let (name, _rest) = split2_at(r1.as_slice());
                if name.len() == 0 {
                    proof {
                        assert(link_classify(lines0[i as int]) is Bad);
                        assert(link_step(m.0, m.1, lines0[i as int]) is Err);
                        lemma_link_fold_snoc(old(self).cs(), old(self).cur_v(), lines0, i as int);
                        assert(link_fold(old(self).cs(), old(self).cur_v(), lines0.take(i + 1))
                            is Err);
                        lemma_link_fold_err_prefix(
                            old(self).cs(),
                            old(self).cur_v(),
                            lines0,
                            i + 1,
                        );
                        assert(lines0.take(lines0.len() as int) =~= lines0);
                    }
                    return Err(LinkError::Syntax { line: i });
                }
                let mut dup = false;
                let cn = self.chunks.len();
                let mut j: usize = 0;
                while j < cn
                    invariant
                        j <= cn == self.chunks@.len(),
                        dup <==> exists|q: int|
                            0 <= q < j && (#[trigger] self.cs()[q]).0 == name@,
                    decreases cn - j,
                {
                    if chars_eq(self.chunks[j].0.as_slice(), name.as_slice()) {
                        assert(self.cs()[j as int].0 == name@);
                        dup = true;
                    }
                    j = j + 1;
                }
                if dup {
                    proof {
                        lemma_ck_find_none(self.cs(), name@);
                        assert(link_classify(lines0[i as int]) == LinkItemV::FuncDef(name@));
                        assert(ck_find(m.0, name@) is Some);
                        assert(link_step(m.0, m.1, lines0[i as int]) is Err);
                        lemma_link_fold_snoc(old(self).cs(), old(self).cur_v(), lines0, i as int);
                        assert(link_fold(old(self).cs(), old(self).cur_v(), lines0.take(i + 1))
                            is Err);
                        lemma_link_fold_err_prefix(
                            old(self).cs(),
                            old(self).cur_v(),
                            lines0,
                            i + 1,
                        );
                        assert(lines0.take(lines0.len() as int) =~= lines0);
                    }
                    return Err(LinkError::DuplicateFunction { line: i });
                }
                proof {
                    assert forall|q: int| 0 <= q < self.cs().len() implies (
                    #[trigger] self.cs()[q]).0 != name@ by {}
                    lemma_ck_find_skip(self.cs(), name@, self.cs().len() as int);
                    assert(self.cs().skip(self.cs().len() as int) =~= Seq::<
                        (Seq<char>, ChunkV),
                    >::empty());
                }
                let code0: Vec<String> = vec![string_of(line.as_slice())];
                let chunk = Chunk { code: code0, calls: Vec::new() };
                let cidx = self.chunks.len();
                self.chunks.push((name, chunk));
                self.current = Some(cidx);
                proof {
                    assert(self.cs() =~~= m.0.push(
                        (
                            self.chunks@.last().0@,
                            ChunkV { code: seq![lines0[i as int]], calls: Seq::empty() },
                        ),
                    ));
                    assert(self.wf()) by {
                        assert forall|a: int, b: int|
                            0 <= a < b < self.chunks@.len() implies (
                        #[trigger] self.chunks@[a]).0@ != (#[trigger] self.chunks@[b]).0@ by {
                            if b == self.chunks@.len() - 1 {
                                assert(self.cs()[a].0 == self.chunks@[a].0@);
                            }
                        }
                    }
                }
            } else if chars_eq_lit(t1.as_slice(), "call") {
                let (name, _rest) = split2_at(r1.as_slice());
                if name.len() == 0 {
                    proof {
                        reveal_strlit("function");
                        reveal_strlit("call");
                        assert("function"@.len() == 8 && "call"@.len() == 4);
                        assert(link_classify(lines0[i as int]) is Bad);
                        assert(link_step(m.0, m.1, lines0[i as int]) is Err);
                        lemma_link_fold_snoc(old(self).cs(), old(self).cur_v(), lines0, i as int);
                        assert(link_fold(old(self).cs(), old(self).cur_v(), lines0.take(i + 1))
                            is Err);
                        lemma_link_fold_err_prefix(
                            old(self).cs(),
                            old(self).cur_v(),
                            lines0,
                            i + 1,
                        );
                        assert(lines0.take(lines0.len() as int) =~= lines0);
                    }
                    return Err(LinkError::Syntax { line: i });
                }
                match self.current {
                    Some(ci) => {
                        let (k, mut c) = self.chunks.pop().unwrap();
                        c.calls.push(name);
                        c.code.push(string_of(line.as_slice()));
                        self.chunks.push((k, c));
                        proof {
                            assert(self.cs() =~~= m.0.update(
                                ci as int,
                                (
                                    m.0[ci as int].0,
                                    ChunkV {
                                        code: m.0[ci as int].1.code.push(lines0[i as int]),
                                        calls: m.0[ci as int].1.calls.push(name@),
                                    },
                                ),
                            ));
                        }
                    },
                    None => {
                        proof {
                            reveal_strlit("function");
                            reveal_strlit("call");
                            assert("function"@.len() == 8 && "call"@.len() == 4);
                            assert(link_classify(lines0[i as int]) is CallRef);
                            assert(link_step(m.0, m.1, lines0[i as int]) is Err);
                            lemma_link_fold_snoc(old(self).cs(), old(self).cur_v(), lines0, i as int);
                        assert(link_fold(old(self).cs(), old(self).cur_v(), lines0.take(i + 1))
                            is Err);
                        lemma_link_fold_err_prefix(
                            old(self).cs(),
                            old(self).cur_v(),
                            lines0,
                            i + 1,
                        );
                        assert(lines0.take(lines0.len() as int) =~= lines0);
                        }
                        return Err(LinkError::OutsideFunction { line: i });
                    },
                }
            } else {
                match self.current {
                    Some(ci) => {
                        let (k, mut c) = self.chunks.pop().unwrap();
                        c.code.push(string_of(line.as_slice()));
                        self.chunks.push((k, c));
                        proof {
                            assert(self.cs() =~~= m.0.update(
                                ci as int,
                                (
                                    m.0[ci as int].0,
                                    ChunkV {
                                        code: m.0[ci as int].1.code.push(lines0[i as int]),
                                        calls: m.0[ci as int].1.calls,
                                    },
                                ),
                            ));
                        }
                    },
                    None => {
                        proof {
                            reveal_strlit("function");
                            reveal_strlit("call");
                            assert("function"@.len() == 8 && "call"@.len() == 4);
                            assert(link_classify(lines0[i as int]) is Plain);
                            assert(link_step(m.0, m.1, lines0[i as int]) is Err);
                            lemma_link_fold_snoc(old(self).cs(), old(self).cur_v(), lines0, i as int);
                        assert(link_fold(old(self).cs(), old(self).cur_v(), lines0.take(i + 1))
                            is Err);
                        lemma_link_fold_err_prefix(
                            old(self).cs(),
                            old(self).cur_v(),
                            lines0,
                            i + 1,
                        );
                        assert(lines0.take(lines0.len() as int) =~= lines0);
                        }
                        return Err(LinkError::OutsideFunction { line: i });
                    },
                }
            }
            i = i + 1;
        }
        proof {
            assert(lines0.take(n as int) =~= lines0);
        }
        Ok(())
    }
}

/// The emitted names' code, concatenated in order.
pub open spec fn emit_code(cs: Seq<(Seq<char>, ChunkV)>, names: Seq<Seq<char>>) -> Seq<Seq<char>>
    decreases names.len(),
{
    if names.len() == 0 {
        Seq::empty()
    } else {
        (match ck_find(cs, names[0]) {
            Some(p) => cs[p].1.code,
            None => Seq::empty(),
        }) + emit_code(cs, names.drop_first())
    }
}

/// Membership of a name in the emitted set.
pub open spec fn em_has(em: KeyMap<()>, name: Seq<char>) -> bool {
    key_in(em.entries@, name)
}

/// Every emitted name is a chunk.
pub open spec fn emitted_ok(cs: Seq<(Seq<char>, ChunkV)>, em: KeyMap<()>) -> bool {
    forall|j: int|
        0 <= j < em.entries@.len() ==> ck_find(cs, (#[trigger] em.entries@[j]).0@) is Some
}

/// Distinct keys that all name chunks are no more numerous than the chunks.
proof fn lemma_emitted_bound(entries: Seq<(Vec<char>, ())>, cs: Seq<(Seq<char>, ChunkV)>)
    requires
        forall|a: int, b: int|
            0 <= a < b < entries.len() ==> (#[trigger] entries[a]).0@ != (#[trigger] entries[b]).0@,
        forall|j: int| 0 <= j < entries.len() ==> ck_find(cs, (#[trigger] entries[j]).0@) is Some,
    ensures
        entries.len() <= cs.len(),
    decreases cs.len(),
{
    if entries.len() > 0 {
        let k0 = entries[0].0@;
        lemma_ck_props(cs, k0);
        let p = ck_find(cs, k0)->Some_0;
        let cs2 = cs.remove(p);
        let rest = entries.drop_first();
        assert forall|a: int, b: int|
            0 <= a < b < rest.len() implies (#[trigger] rest[a]).0@ != (#[trigger] rest[b]).0@ by {
            assert(rest[a] == entries[a + 1]);
            assert(rest[b] == entries[b + 1]);
        }
        assert forall|j: int| 0 <= j < rest.len() implies ck_find(cs2, (#[trigger] rest[j]).0@)
            is Some by {
            assert(rest[j] == entries[j + 1]);
            let kj = entries[j + 1].0@;
            lemma_ck_props(cs, kj);
            let q = ck_find(cs, kj)->Some_0;
            assert(kj != k0);
            assert(q != p);
            lemma_ck_find_none(cs2, kj);
            if q < p {
                assert(cs2[q].0 == kj);
            } else {
                assert(cs2[q - 1].0 == kj);
            }
        }
        lemma_emitted_bound(rest, cs2);
    }
}

/// What a found chunk satisfies.
proof fn lemma_ck_props(cs: Seq<(Seq<char>, ChunkV)>, name: Seq<char>)
    ensures
        match ck_find(cs, name) {
            Some(p) => 0 <= p < cs.len() && cs[p].0 == name,
            None => true,
        },
    decreases cs.len(),
{
    if cs.len() > 0 {
        lemma_ck_props(cs.drop_first(), name);
    }
}

/// The emitted-name view of the emitted set, in insertion order.
pub open spec fn em_seq(em: KeyMap<()>) -> Seq<Seq<char>> {
    em.entries@.map_values(|e: (Vec<char>, ())| e.0@)
}

/// Set membership agrees between the map and its name sequence.
proof fn lemma_em_seq_has(em: KeyMap<()>, k: Seq<char>)
    ensures
        em_has(em, k) == em_seq(em).contains(k),
{
    if em_has(em, k) {
        let j = choose|j: int| 0 <= j < em.entries@.len() && (#[trigger] em.entries@[j]).0@ == k;
        assert(em_seq(em)[j] == k);
    }
    if em_seq(em).contains(k) {
        let j = choose|j: int| 0 <= j < em_seq(em).len() && (#[trigger] em_seq(em)[j]) == k;
        assert(em.entries@[j].0@ == k);
    }
}

/// The depth-first emission, as a function: visiting `name` emits nothing
/// if it is already emitted; otherwise it marks `name`, then visits each
/// callee in call order. The result is the names newly emitted, in
/// preorder; a missing chunk is the error. The fuel only serves
/// termination: any amount at least `chunks - emitted` gives the answer.
pub open spec fn emit_fuel(
    cs: Seq<(Seq<char>, ChunkV)>,
    name: Seq<char>,
    em: Seq<Seq<char>>,
    fuel: nat,
) -> Option<Result<Seq<Seq<char>>, ()>>
    decreases fuel, 0nat, 0nat,
{
    if em.contains(name) {
        Some(Ok(Seq::empty()))
    } else if fuel == 0 {
        None
    } else {
        match ck_find(cs, name) {
            None => Some(Err(())),
            Some(p) => match emit_list(cs, cs[p].1.calls, em.push(name), (fuel - 1) as nat) {
                None => None,
                Some(Err(())) => Some(Err(())),
                Some(Ok(sub)) => Some(Ok(seq![name] + sub)),
            },
        }
    }
}

/// Visits a list of callees in order, threading the emitted set.
pub open spec fn emit_list(
    cs: Seq<(Seq<char>, ChunkV)>,
    calls: Seq<Seq<char>>,
    em: Seq<Seq<char>>,
    fuel: nat,
) -> Option<Result<Seq<Seq<char>>, ()>>
    decreases fuel, calls.len(), 1nat,
{
    if calls.len() == 0 {
        Some(Ok(Seq::empty()))
    } else {
        match emit_fuel(cs, calls[0], em, fuel) {
            None => None,
            Some(Err(())) => Some(Err(())),
            Some(Ok(sub1)) => match emit_list(cs, calls.drop_first(), em + sub1, fuel) {
                None => None,
                Some(Err(())) => Some(Err(())),
                Some(Ok(rest)) => Some(Ok(sub1 + rest)),
            },
        }
    }
}

/// Visiting one more callee extends the visit of a call-list prefix.
proof fn lemma_emit_list_snoc(
    cs: Seq<(Seq<char>, ChunkV)>,
    calls: Seq<Seq<char>>,
    em: Seq<Seq<char>>,
    fuel: nat,
    k: int,
)
    requires
        0 <= k < calls.len(),
        emit_list(cs, calls.take(k), em, fuel) matches Some(r) && r is Ok,
    ensures
        emit_list(cs, calls.take(k + 1), em, fuel) == match emit_fuel(
            cs,
            calls[k],
            em + (emit_list(cs, calls.take(k), em, fuel)->Some_0->Ok_0),
            fuel,
        ) {
            None => None::<Result<Seq<Seq<char>>, ()>>,
            Some(Err(())) => Some(Err(())),
            Some(Ok(s)) => Some(
                Ok((emit_list(cs, calls.take(k), em, fuel)->Some_0->Ok_0) + s),
            ),
        },
    decreases k,
{
    if k == 0 {
        assert(calls.take(0) =~= Seq::<Seq<char>>::empty());
        let done = emit_list(cs, calls.take(0), em, fuel)->Some_0->Ok_0;
        assert(done =~= Seq::<Seq<char>>::empty());
        assert(em + done =~= em);
        assert(calls.take(1)[0] == calls[0]);
        assert(calls.take(1).len() == 1);
        assert(calls.take(1).drop_first() =~= Seq::<Seq<char>>::empty());
        match emit_fuel(cs, calls[0], em, fuel) {
            None => {},
            Some(Err(())) => {},
            Some(Ok(sub1)) => {
                assert(emit_list(cs, calls.take(1).drop_first(), em + sub1, fuel) == Some(
                    Ok::<Seq<Seq<char>>, ()>(Seq::empty()),
                ));
                assert(sub1 + Seq::<Seq<char>>::empty() =~= sub1);
                assert(Seq::<Seq<char>>::empty() + sub1 =~= sub1);
            },
        }
    } else {
        assert(calls.take(k)[0] == calls[0]);
        let h = emit_fuel(cs, calls[0], em, fuel);
        assert(h is Some && h->Some_0 is Ok);
        let sub1 = h->Some_0->Ok_0;
        assert(calls.take(k).drop_first() =~= calls.drop_first().take(k - 1));
        let t = emit_list(cs, calls.drop_first().take(k - 1), em + sub1, fuel);
        assert(t is Some && t->Some_0 is Ok);
        lemma_emit_list_snoc(cs, calls.drop_first(), em + sub1, fuel, k - 1);
        assert(calls.take(k + 1)[0] == calls[0]);
        assert(calls.take(k + 1).drop_first() =~= calls.drop_first().take(k));
        assert(calls.drop_first()[k - 1] == calls[k]);
        let done = emit_list(cs, calls.take(k), em, fuel)->Some_0->Ok_0;
        assert(done == sub1 + t->Some_0->Ok_0);
        assert(em + done =~= (em + sub1) + (t->Some_0->Ok_0));
        match emit_fuel(cs, calls[k], em + done, fuel) {
            None => {},
            Some(Err(())) => {},
            Some(Ok(sx)) => {
                assert((sub1 + (t->Some_0->Ok_0)) + sx =~= sub1 + ((t->Some_0->Ok_0) + sx));
            },
        }
    }
}

/// An erring call-list prefix decides the whole visit.
proof fn lemma_emit_list_err_prefix(
    cs: Seq<(Seq<char>, ChunkV)>,
    calls: Seq<Seq<char>>,
    em: Seq<Seq<char>>,
    fuel: nat,
    j: int,
)
    requires
        0 <= j <= calls.len(),
        emit_list(cs, calls.take(j), em, fuel) == Some(Err::<Seq<Seq<char>>, ()>(())),
    ensures
        emit_list(cs, calls, em, fuel) == Some(Err::<Seq<Seq<char>>, ()>(())),
    decreases j,
{
    assert(j > 0);
    assert(calls.take(j)[0] == calls[0]);
    match emit_fuel(cs, calls[0], em, fuel) {
        None => {},
        Some(Err(())) => {},
        Some(Ok(sub1)) => {
            assert(calls.take(j).drop_first() =~= calls.drop_first().take(j - 1));
            lemma_emit_list_err_prefix(cs, calls.drop_first(), em + sub1, fuel, j - 1);
        },
    }
}

/// A chain of calls from `src` ending at its last name.
pub open spec fn is_call_path(
    cs: Seq<(Seq<char>, ChunkV)>,
    src: Seq<char>,
    p: Seq<Seq<char>>,
) -> bool {
    &&& p.len() >= 1
    &&& p[0] == src
    &&& forall|i: int|
        0 <= i < p.len() - 1 ==> (#[trigger] ck_find(cs, p[i])) is Some && cs[ck_find(
            cs,
            p[i],
        )->Some_0].1.calls.contains(p[i + 1])
}

/// `n` is reachable from `src` along call edges.
pub open spec fn reaches(cs: Seq<(Seq<char>, ChunkV)>, src: Seq<char>, n: Seq<char>) -> bool {
    exists|p: Seq<Seq<char>>| is_call_path(cs, src, p) && p.last() == n
}

/// Every name reaches itself.
proof fn lemma_reaches_self(cs: Seq<(Seq<char>, ChunkV)>, src: Seq<char>)
    ensures
        reaches(cs, src, src),
{
    let p = seq![src];
    assert(is_call_path(cs, src, p) && p.last() == src);
}

/// A call edge out of `src` prepends to any chain from the callee.
proof fn lemma_reaches_prepend(
    cs: Seq<(Seq<char>, ChunkV)>,
    src: Seq<char>,
    c: Seq<char>,
    n: Seq<char>,
)
    requires
        ck_find(cs, src) is Some,
        cs[ck_find(cs, src)->Some_0].1.calls.contains(c),
        reaches(cs, c, n),
    ensures
        reaches(cs, src, n),
{
    let pc = choose|p: Seq<Seq<char>>| is_call_path(cs, c, p) && p.last() == n;
    let p = seq![src] + pc;
    assert(p[0] == src);
    assert(p.last() == n);
    assert forall|i: int|
        0 <= i < p.len() - 1 implies (#[trigger] ck_find(cs, p[i])) is Some && cs[ck_find(
        cs,
        p[i],
    )->Some_0].1.calls.contains(p[i + 1]) by {
        if i == 0 {
            assert(p[0] == src && p[1] == pc[0] && pc[0] == c);
        } else {
            assert(p[i] == pc[i - 1]);
            assert(p[i + 1] == pc[i]);
        }
    }
    assert(is_call_path(cs, src, p));
}

/// In a call-closed name set holding the root, every name the root
/// reaches is in the set.
proof fn lemma_reaches_in_closed(
    cs: Seq<(Seq<char>, ChunkV)>,
    root: Seq<char>,
    names: Seq<Seq<char>>,
    p: Seq<Seq<char>>,
    i: int,
)
    requires
        names.contains(root),
        forall|j: int|
            0 <= j < names.len() ==> (#[trigger] ck_find(cs, names[j])) is Some && (forall|c: int|
                0 <= c < cs[ck_find(cs, names[j])->Some_0].1.calls.len() ==> names.contains(
                    #[trigger] cs[ck_find(cs, names[j])->Some_0].1.calls[c],
                )),
        is_call_path(cs, root, p),
        0 <= i < p.len(),
    ensures
        names.contains(p[i]),
    decreases i,
{
    if i == 0 {
    } else {
        lemma_reaches_in_closed(cs, root, names, p, i - 1);
        let j = choose|j: int| 0 <= j < names.len() && (#[trigger] names[j]) == p[i - 1];
        let q = ck_find(cs, p[i - 1])->Some_0;
        let c = choose|c: int|
            0 <= c < cs[q].1.calls.len() && (#[trigger] cs[q].1.calls[c]) == p[i];
        assert(names.contains(cs[ck_find(cs, names[j])->Some_0].1.calls[c]));
    }
}

impl Linker {
    /// Emits `name`'s chunk if it has not been emitted, then, depth first,
    /// every function it calls. Returns the names newly emitted, in order.
    fn emit(
        &self,
        name: &[char],
        emitted: &mut KeyMap<()>,
        out: &mut Vec<String>,
    ) -> (r: Result<Ghost<Seq<Seq<char>>>, LinkError>)
        requires
            self.wf(),
            old(emitted).wf(),
            emitted_ok(self.cs(), *old(emitted)),
        ensures
            final(emitted).wf(),
            emitted_ok(self.cs(), *final(emitted)),
            forall|k: Seq<char>| em_has(*old(emitted), k) ==> em_has(*final(emitted), k),
            final(emitted).entries@.len() >= old(emitted).entries@.len(),
            match r {
                Ok(names) => {
                    &&& em_has(*final(emitted), name@)
                    &&& (!em_has(*old(emitted), name@) ==> names@.len() >= 1 && names@[0] == name@)
                    &&& forall|a: int, b: int|
                        0 <= a < b < names@.len() ==> names@[a] != names@[b]
                    &&& forall|j: int|
                        0 <= j < names@.len() ==> !em_has(*old(emitted), #[trigger] names@[j])
                            && em_has(*final(emitted), names@[j]) && ck_find(self.cs(), names@[j])
                            is Some
                    &&& forall|k: Seq<char>|
                        em_has(*final(emitted), k) <==> em_has(*old(emitted), k)
                            || names@.contains(k)
                    &&& final(out)@.map_values(|l: String| l@) == old(out)@.map_values(
                        |l: String| l@,
                    ) + emit_code(self.cs(), names@)
                    &&& forall|j: int|
                        0 <= j < names@.len() ==> ({
                            let p = ck_find(self.cs(), #[trigger] names@[j])->Some_0;
                            forall|c: int|
                                0 <= c < self.cs()[p].1.calls.len() ==> em_has(
                                    *final(emitted),
                                    #[trigger] self.cs()[p].1.calls[c],
                                )
                        })
                    &&& em_seq(*final(emitted)) == em_seq(*old(emitted)) + names@
                    &&& forall|fuel: nat|
                        fuel + em_seq(*old(emitted)).len() >= self.cs().len() + 1
                            ==> #[trigger] emit_fuel(self.cs(), name@, em_seq(*old(emitted)), fuel)
                            == Some(Ok::<Seq<Seq<char>>, ()>(names@))
                    &&& forall|j: int|
                        0 <= j < names@.len() ==> reaches(self.cs(), name@, #[trigger] names@[j])
                },
                Err(e) => {
                    &&& e == LinkError::Unresolved
                    &&& forall|fuel: nat|
                        fuel + em_seq(*old(emitted)).len() >= self.cs().len() + 1
                            ==> #[trigger] emit_fuel(self.cs(), name@, em_seq(*old(emitted)), fuel)
                            == Some(Err::<Seq<Seq<char>>, ()>(()))
                    &&& exists|n: Seq<char>|
                        reaches(self.cs(), name@, n) && ck_find(self.cs(), n) is None
                },
            },
        decreases self.cs().len() - old(emitted).entries@.len(),
    {
        proof {
            lemma_find_in_key(emitted.entries@, name@);
        }
        if emitted.contains_key(name) {
            let ghost names: Seq<Seq<char>> = Seq::empty();
            proof {
                assert(final(out)@.map_values(|l: String| l@) =~= old(out)@.map_values(
                    |l: String| l@,
                ) + emit_code(self.cs(), names));
                lemma_em_seq_has(*emitted, name@);
                assert(em_seq(*emitted) =~= em_seq(*emitted) + names);
            }
            return Ok(Ghost(names));
        }
        proof {
            lemma_emitted_bound(emitted.entries@, self.cs());
            lemma_em_seq_has(*emitted, name@);
            assert(em_seq(*emitted).len() == emitted.entries@.len());
        }
        let n = self.chunks.len();
        let mut scan: usize = 0;
        let mut p: usize = 0;
        let mut found: bool = false;
        while scan < n
            invariant
                scan <= n == self.chunks@.len(),
                !found ==> forall|j: int| 0 <= j < scan ==> (#[trigger] self.cs()[j]).0 != name@,
                found ==> p < n && self.cs()[p as int].0 == name@ && forall|j: int|
                    0 <= j < p ==> (#[trigger] self.cs()[j]).0 != name@,
            decreases n - scan,
        {
            if !found && chars_eq(self.chunks[scan].0.as_slice(), name) {
                assert(self.cs()[scan as int].0 == name@);
                found = true;
                p = scan;
            }
            scan = scan + 1;
        }
        if !found {
            proof {
                lemma_ck_find_skip(self.cs(), name@, self.cs().len() as int);
                assert(self.cs().skip(self.cs().len() as int) =~= Seq::<
                    (Seq<char>, ChunkV),
                >::empty());
                lemma_reaches_self(self.cs(), name@);
                assert forall|fuel: nat|
                    fuel + em_seq(*old(emitted)).len() >= self.cs().len() + 1 implies #[trigger]
                emit_fuel(self.cs(), name@, em_seq(*old(emitted)), fuel) == Some(Err::<
                    Seq<Seq<char>>,
                    (),
                >(())) by {
                    assert(!em_seq(*old(emitted)).contains(name@));
                    assert(fuel >= 1);
                }
            }
            return Err(LinkError::Unresolved);
        }
        proof {
            lemma_ck_find_skip(self.cs(), name@, p as int);
            assert(self.cs().skip(p as int)[0] == self.cs()[p as int]);
            assert(ck_find(self.cs(), name@) == Some(p as int));
        }
        let name_owned = subvec(name, 0, name.len());
        assert(name_owned@ =~= name@);
        emitted.insert(name_owned, ());
        let ghost em1 = *emitted;
        let code_len = self.chunks[p].1.code.len();
        let ghost out0 = out@.map_values(|l: String| l@);
        let mut ci: usize = 0;
        while ci < code_len
            invariant
                ci <= code_len == self.chunks@[p as int].1.code@.len(),
                p < self.chunks@.len(),
                out@.map_values(|l: String| l@) =~= out0 + self.cs()[p as int].1.code.take(
                    ci as int,
                ),
            decreases code_len - ci,
        {
            let ghost pre = out@.map_values(|l: String| l@);
            let line = crate::text::string_of_str(self.chunks[p].1.code[ci].as_str());
            out.push(line);
            proof {
                assert(out@.map_values(|l: String| l@) =~= pre.push(
                    self.cs()[p as int].1.code[ci as int],
                ));
                assert(pre.push(self.cs()[p as int].1.code[ci as int]) =~= out0
                    + self.cs()[p as int].1.code.take(ci + 1));
            }
            ci = ci + 1;
        }
        proof {
            assert(self.cs()[p as int].1.code.take(code_len as int) =~= self.cs()[p as int].1.code);
        }
        let ghost mut names: Seq<Seq<char>> = seq![name@];
        proof {
            assert(em1.entries@ == old(emitted).entries@.push((em1.entries@.last().0, ())));
            assert(em1.entries@.last().0@ == name@);
            assert forall|kk: Seq<char>|
                em_has(*emitted, kk) <==> em_has(*old(emitted), kk) || names.contains(kk) by {
                if em_has(*emitted, kk) {
                    let j = choose|j: int|
                        0 <= j < emitted.entries@.len() && (#[trigger] emitted.entries@[j]).0@
                            == kk;
                    if j < old(emitted).entries@.len() {
                        assert(old(emitted).entries@[j].0@ == kk);
                    } else {
                        assert(kk == name@);
                        assert(names[0] == kk);
                    }
                }
                if em_has(*old(emitted), kk) {
                    let j = choose|j: int|
                        0 <= j < old(emitted).entries@.len() && (
                        #[trigger] old(emitted).entries@[j]).0@ == kk;
                    assert(emitted.entries@[j].0@ == kk);
                }
                if names.contains(kk) {
                    assert(kk == name@);
                    assert(emitted.entries@.last().0@ == kk);
                    assert(em_has(*emitted, kk));
                }
            }
            assert(em_has(*emitted, name@)) by {
                assert(emitted.entries@.last().0@ == name@);
            }
            assert(names.contains(name@)) by {
                assert(names[0] == name@);
            }
            assert forall|kk: Seq<char>| em_has(*old(emitted), kk) implies em_has(
                *emitted,
                kk,
            ) by {
                let j = choose|j: int|
                    0 <= j < old(emitted).entries@.len() && (
                    #[trigger] old(emitted).entries@[j]).0@ == kk;
                assert(emitted.entries@[j].0@ == kk);
            }
            assert(emitted_ok(self.cs(), *emitted)) by {
                assert forall|j: int|
                    0 <= j < emitted.entries@.len() implies ck_find(
                    self.cs(),
                    (#[trigger] emitted.entries@[j]).0@,
                ) is Some by {
                    if j < old(emitted).entries@.len() {
                        assert(old(emitted).entries@[j].0@ == emitted.entries@[j].0@);
                    }
                }
            }
            assert(emit_code(self.cs(), names) =~= self.cs()[p as int].1.code) by {
                assert(names.drop_first() =~= Seq::<Seq<char>>::empty());
                assert(emit_code(self.cs(), names.drop_first()) =~= Seq::<Seq<char>>::empty());
            }
            assert(em_seq(*emitted) =~= em_seq(*old(emitted)) + names);
            assert(names.skip(1) =~= Seq::<Seq<char>>::empty());
            assert(em_seq(*old(emitted)).push(name@) =~= em_seq(*old(emitted)) + names);
            lemma_reaches_self(self.cs(), name@);
            assert(out@.map_values(|l: String| l@) =~= old(out)@.map_values(|l: String| l@)
                + emit_code(self.cs(), names));
        }
        let calls_len = self.chunks[p].1.calls.len();
        let mut k: usize = 0;
        while k < calls_len
            invariant
                k <= calls_len == self.chunks@[p as int].1.calls@.len(),
                p < self.chunks@.len(),
                self.wf(),
                emitted.wf(),
                emitted_ok(self.cs(), *emitted),
                names.len() >= 1,
                names[0] == name@,
                ck_find(self.cs(), name@) == Some(p as int),
                emitted.entries@.len() > old(emitted).entries@.len(),
                forall|a: int, b: int| 0 <= a < b < names.len() ==> names[a] != names[b],
                forall|j: int|
                    0 <= j < names.len() ==> !em_has(*old(emitted), #[trigger] names[j]) && em_has(
                        *emitted,
                        names[j],
                    ) && ck_find(self.cs(), names[j]) is Some,
                forall|kk: Seq<char>|
                    em_has(*emitted, kk) <==> em_has(*old(emitted), kk) || names.contains(kk),
                forall|kk: Seq<char>| em_has(*old(emitted), kk) ==> em_has(*emitted, kk),
                out@.map_values(|l: String| l@) == old(out)@.map_values(|l: String| l@)
                    + emit_code(self.cs(), names),
                forall|j: int|
                    1 <= j < names.len() ==> ({
                        let q = ck_find(self.cs(), #[trigger] names[j])->Some_0;
                        forall|c: int|
                            0 <= c < self.cs()[q].1.calls.len() ==> em_has(
                                *emitted,
                                #[trigger] self.cs()[q].1.calls[c],
                            )
                    }),
                forall|c: int|
                    0 <= c < k ==> em_has(*emitted, #[trigger] self.cs()[p as int].1.calls[c]),
                em_seq(*emitted) == em_seq(*old(emitted)) + names,
                em_seq(*old(emitted)).len() <= self.cs().len(),
                !em_seq(*old(emitted)).contains(name@),
                forall|fuel: nat|
                    fuel + em_seq(*old(emitted)).len() >= self.cs().len() ==> #[trigger] emit_list(
                        self.cs(),
                        self.cs()[p as int].1.calls.take(k as int),
                        em_seq(*old(emitted)).push(name@),
                        fuel,
                    ) == Some(Ok::<Seq<Seq<char>>, ()>(names.skip(1))),
                forall|j: int|
                    0 <= j < names.len() ==> reaches(self.cs(), name@, #[trigger] names[j]),
            decreases calls_len - k,
        {
            let callee_len = self.chunks[p].1.calls[k].len();
            let callee = subvec(self.chunks[p].1.calls[k].as_slice(), 0, callee_len);
            assert(callee@ =~= self.cs()[p as int].1.calls[k as int]);
            let ghost em_before = *emitted;
            let ghost names_before = names;
            proof {
                lemma_emitted_bound(emitted.entries@, self.cs());
            }
            match self.emit(callee.as_slice(), emitted, out) {
                Ok(g) => {
                    proof {
                        let sub = g@;
                        names = names + sub;
                        assert(names == names_before + sub);
                        assert forall|kk: Seq<char>|
                            em_has(em_before, kk) implies em_has(*emitted, kk) by {}
                        lemma_emit_code_concat(self.cs(), names_before, sub);
                        assert(emit_code(self.cs(), names) == emit_code(self.cs(), names_before)
                            + emit_code(self.cs(), sub)) by {
                            assert(names =~= names_before + sub);
                        }
                        assert forall|a: int, b: int|
                            0 <= a < b < names.len() implies names[a] != names[b] by {
                            if a < names_before.len() && b >= names_before.len() {
                                assert(names[a] == names_before[a]);
                                assert(names[b] == sub[b - names_before.len()]);
                                assert(em_has(em_before, names_before[a]));
                                assert(!em_has(em_before, sub[b - names_before.len()]));
                            } else if a >= names_before.len() {
                                assert(names[a] == sub[a - names_before.len()]);
                                assert(names[b] == sub[b - names_before.len()]);
                            } else {
                                assert(names[a] == names_before[a]);
                                assert(names[b] == names_before[b]);
                            }
                        }
                        assert forall|j: int|
                            0 <= j < names.len() implies !em_has(
                            *old(emitted),
                            #[trigger] names[j],
                        ) && em_has(*emitted, names[j]) && ck_find(self.cs(), names[j])
                            is Some by {
                            if j < names_before.len() {
                                assert(names[j] == names_before[j]);
                            } else {
                                assert(names[j] == sub[j - names_before.len()]);
                                if em_has(*old(emitted), sub[j - names_before.len()]) {
                                    assert(em_has(em_before, sub[j - names_before.len()]));
                                }
                            }
                        }
                        assert forall|kk: Seq<char>|
                            em_has(*emitted, kk) <==> em_has(*old(emitted), kk) || names.contains(
                                kk,
                            ) by {
                            assert(names.len() == names_before.len() + sub.len());
                            if em_has(*emitted, kk) {
                                if em_has(em_before, kk) {
                                    if !em_has(*old(emitted), kk) {
                                        assert(names_before.contains(kk));
                                        let j = choose|j: int|
                                            0 <= j < names_before.len() && names_before[j] == kk;
                                        assert(names_before[j] == kk);
                                        assert(names[j] == names_before[j]);
                                        assert(names.contains(kk)) by {
                                            assert(names[j] == kk);
                                        }
                                    }
                                } else {
                                    assert(sub.contains(kk));
                                    let j = choose|j: int| 0 <= j < sub.len() && sub[j] == kk;
                                    assert(sub[j] == kk);
                                    assert(names[names_before.len() + j] == sub[j]);
                                    assert(names.contains(kk)) by {
                                        assert(names[names_before.len() + j] == kk);
                                    }
                                }
                            }
                            if names.contains(kk) {
                                let j = choose|j: int| 0 <= j < names.len() && names[j] == kk;
                                if j < names_before.len() {
                                    assert(names_before[j] == kk);
                                    assert(em_has(em_before, kk));
                                } else {
                                    assert(sub[j - names_before.len()] == kk);
                                }
                            }
                        }
                        assert forall|j: int|
                            1 <= j < names.len() implies ({
                            let q = ck_find(self.cs(), #[trigger] names[j])->Some_0;
                            forall|c: int|
                                0 <= c < self.cs()[q].1.calls.len() ==> em_has(
                                    *emitted,
                                    #[trigger] self.cs()[q].1.calls[c],
                                )
                        }) by {
                            if j < names_before.len() {
                                assert(names[j] == names_before[j]);
                            } else {
                                assert(names[j] == sub[j - names_before.len()]);
                            }
                        }
                        let cs = self.cs();
                        let em0 = em_seq(*old(emitted));
                        let calls = cs[p as int].1.calls;
                        assert(em_seq(*emitted) =~= em0 + names);
                        assert(em_seq(em_before) =~= em0.push(name@) + names_before.skip(1)) by {
                            assert(em_seq(em_before) =~= em0 + names_before);
                            assert(em0 + names_before =~= em0.push(name@) + names_before.skip(1));
                        }
                        assert(names.skip(1) =~= names_before.skip(1) + sub);
                        assert forall|fuel: nat|
                            fuel + em0.len() >= cs.len() implies #[trigger] emit_list(
                            cs,
                            calls.take(k + 1),
                            em0.push(name@),
                            fuel,
                        ) == Some(Ok::<Seq<Seq<char>>, ()>(names.skip(1))) by {
                            assert(emit_list(cs, calls.take(k as int), em0.push(name@), fuel)
                                == Some(Ok::<Seq<Seq<char>>, ()>(names_before.skip(1))));
                            assert(fuel + em_seq(em_before).len() >= cs.len() + 1);
                            assert(emit_fuel(cs, callee@, em_seq(em_before), fuel) == Some(Ok::<
                                Seq<Seq<char>>,
                                (),
                            >(sub)));
                            lemma_emit_list_snoc(cs, calls, em0.push(name@), fuel, k as int);
                            assert(em0.push(name@) + names_before.skip(1) =~= em_seq(em_before));
                        }
                        assert forall|j: int|
                            0 <= j < names.len() implies reaches(
                            cs,
                            name@,
                            #[trigger] names[j],
                        ) by {
                            if j < names_before.len() {
                                assert(names[j] == names_before[j]);
                            } else {
                                assert(names[j] == sub[j - names_before.len()]);
                                assert(reaches(cs, callee@, sub[j - names_before.len()]));
                                assert(calls.contains(callee@)) by {
                                    assert(calls[k as int] == callee@);
                                }
                                lemma_reaches_prepend(
                                    cs,
                                    name@,
                                    callee@,
                                    sub[j - names_before.len()],
                                );
                            }
                        }
                    }
                },
                Err(e) => {
                    proof {
                        let cs = self.cs();
                        let em0 = em_seq(*old(emitted));
                        let calls = cs[p as int].1.calls;
                        assert(em_seq(em_before) =~= em0.push(name@) + names_before.skip(1)) by {
                            assert(em_seq(em_before) =~= em0 + names_before);
                            assert(em0 + names_before =~= em0.push(name@) + names_before.skip(1));
                        }
                        assert forall|fuel: nat|
                            fuel + em0.len() >= cs.len() + 1 implies #[trigger] emit_fuel(
                            cs,
                            name@,
                            em0,
                            fuel,
                        ) == Some(Err::<Seq<Seq<char>>, ()>(())) by {
                            assert(!em0.contains(name@));
                            assert(fuel >= 1);
                            let f1 = (fuel - 1) as nat;
                            assert(f1 + em0.len() >= cs.len());
                            assert(emit_list(cs, calls.take(k as int), em0.push(name@), f1)
                                == Some(Ok::<Seq<Seq<char>>, ()>(names_before.skip(1))));
                            assert(f1 + em_seq(em_before).len() >= cs.len() + 1);
                            assert(emit_fuel(cs, callee@, em_seq(em_before), f1) == Some(Err::<
                                Seq<Seq<char>>,
                                (),
                            >(())));
                            lemma_emit_list_snoc(cs, calls, em0.push(name@), f1, k as int);
                            assert(em0.push(name@) + names_before.skip(1) =~= em_seq(em_before));
                            assert(emit_list(cs, calls.take(k + 1), em0.push(name@), f1) == Some(
                                Err::<Seq<Seq<char>>, ()>(()),
                            ));
                            lemma_emit_list_err_prefix(cs, calls, em0.push(name@), f1, k + 1);
                        }
                        let nbad = choose|nn: Seq<char>|
                            reaches(cs, callee@, nn) && ck_find(cs, nn) is None;
                        assert(calls.contains(callee@)) by {
                            assert(calls[k as int] == callee@);
                        }
                        lemma_reaches_prepend(cs, name@, callee@, nbad);
                    }
                    return Err(e);
                },
            }
            k = k + 1;
        }
        proof {
            assert(em_has(*emitted, name@));
            let cs = self.cs();
            let em0 = em_seq(*old(emitted));
            let calls = cs[p as int].1.calls;
            assert(calls.take(calls_len as int) =~= calls);
            assert forall|fuel: nat|
                fuel + em0.len() >= cs.len() + 1 implies #[trigger] emit_fuel(cs, name@, em0, fuel)
                == Some(Ok::<Seq<Seq<char>>, ()>(names)) by {
                assert(!em0.contains(name@));
                assert(fuel >= 1);
                let f1 = (fuel - 1) as nat;
                assert(f1 + em0.len() >= cs.len());
                assert(emit_list(cs, calls, em0.push(name@), f1) == Some(Ok::<Seq<Seq<char>>, ()>(
                    names.skip(1),
                )));
                assert(seq![name@] + names.skip(1) =~= names);
            }
        }
        Ok(Ghost(names))
    }

    /// Links the loaded chunks: the output is exactly the chunks reachable
    /// from the entry `Sys.init`, each once, in the depth-first order the
    /// visit `emit_fuel` describes; every call in the output names a
    /// function that is also in the output. The link fails, with the
    /// unresolved error, exactly when some reachable name has no chunk.
    pub fn output_code(&mut self) -> (r: Result<String, LinkError>)
        requires
            old(self).wf(),
        ensures
            *final(self) == *old(self),
            match r {
                Ok(s) => ({
                    let visit = emit_fuel(
                        old(self).cs(),
                        "Sys.init"@,
                        Seq::empty(),
                        (old(self).cs().len() + 1) as nat,
                    );
                    &&& visit matches Some(v) && v is Ok
                    &&& ({
                        let names = visit->Some_0->Ok_0;
                        &&& (forall|a: int, b: int|
                            0 <= a < b < names.len() ==> names[a] != names[b])
                        &&& names.len() >= 1 && names[0] == "Sys.init"@
                        &&& (forall|j: int|
                            0 <= j < names.len() ==> ck_find(
                                old(self).cs(),
                                #[trigger] names[j],
                            ) is Some)
                        &&& (forall|j: int|
                            0 <= j < names.len() ==> ({
                                let p = ck_find(old(self).cs(), #[trigger] names[j])->Some_0;
                                forall|c: int|
                                    0 <= c < old(self).cs()[p].1.calls.len() ==> names.contains(
                                        #[trigger] old(self).cs()[p].1.calls[c],
                                    )
                            }))
                        &&& (forall|nn: Seq<char>|
                            #[trigger] names.contains(nn) <==> reaches(
                                old(self).cs(),
                                "Sys.init"@,
                                nn,
                            ))
                        &&& (s@.len() == 0 && emit_code(old(self).cs(), names).len() == 0 || s@
                            == join_lines(emit_code(old(self).cs(), names)) + seq!['\n'])
                    })
                }),
                Err(e) => {
                    &&& e == LinkError::Unresolved
                    &&& emit_fuel(
                        old(self).cs(),
                        "Sys.init"@,
                        Seq::empty(),
                        (old(self).cs().len() + 1) as nat,
                    ) == Some(Err::<Seq<Seq<char>>, ()>(()))
                    &&& exists|nn: Seq<char>|
                        reaches(old(self).cs(), "Sys.init"@, nn) && ck_find(
                            old(self).cs(),
                            nn,
                        ) is None
                },
            },
    {
        let mut emitted: KeyMap<()> = KeyMap::new();
        let ghost em0 = emitted;
        let mut out: Vec<String> = Vec::new();
        let entry = chars_of("Sys.init");
        assert(!em_has(emitted, "Sys.init"@));
        proof {
            assert(out@.map_values(|l: String| l@) =~= Seq::<Seq<char>>::empty());
        }
        match self.emit(entry.as_slice(), &mut emitted, &mut out) {
            Ok(g) => {
                let ghost names = g@;
                proof {
                    assert(names.len() >= 1 && names[0] == "Sys.init"@);
                    assert forall|j2: int|
                        0 <= j2 < names.len() implies ({
                        let p = ck_find(old(self).cs(), #[trigger] names[j2])->Some_0;
                        forall|c: int|
                            0 <= c < old(self).cs()[p].1.calls.len() ==> names.contains(
                                #[trigger] old(self).cs()[p].1.calls[c],
                            )
                    }) by {
                        let p = ck_find(old(self).cs(), names[j2])->Some_0;
                        assert forall|c: int|
                            0 <= c < old(self).cs()[p].1.calls.len() implies names.contains(
                            #[trigger] old(self).cs()[p].1.calls[c],
                        ) by {
                            if j2 == 0 {
                                assert(em_has(emitted, old(self).cs()[p].1.calls[c]));
                            } else {
                                assert(em_has(emitted, old(self).cs()[p].1.calls[c]));
                            }
                        }
                    }
                    let cs = old(self).cs();
                    assert(em_seq(em0) =~= Seq::<Seq<char>>::empty());
                    assert(emit_fuel(cs, "Sys.init"@, Seq::empty(), (cs.len() + 1) as nat) == Some(
                        Ok::<Seq<Seq<char>>, ()>(names),
                    )) by {
                        assert((cs.len() + 1) as nat + em_seq(em0).len() >= cs.len() + 1);
                    }
                    assert forall|nn: Seq<char>| #[trigger]
                        names.contains(nn) <==> reaches(cs, "Sys.init"@, nn) by {
                        if names.contains(nn) {
                            let j = choose|j: int| 0 <= j < names.len() && names[j] == nn;
                            assert(reaches(cs, "Sys.init"@, names[j]));
                        }
                        if reaches(cs, "Sys.init"@, nn) {
                            let pth = choose|pth: Seq<Seq<char>>|
                                is_call_path(cs, "Sys.init"@, pth) && pth.last() == nn;
                            lemma_reaches_in_closed(cs, "Sys.init"@, names, pth, pth.len() - 1);
                        }
                    }
                }
                let mut s = String::new();
                let m = out.len();
                let mut i: usize = 0;
                while i < m
                    invariant
                        i <= m == out@.len(),
                        i == 0 ==> s@ == Seq::<char>::empty(),
                        i > 0 ==> s@ == join_lines(
                            out@.map_values(|l: String| l@).take(i as int),
                        ) + seq!['\n'],
                    decreases m - i,
                {
                    let ghost pre = out@.map_values(|l: String| l@).take(i as int);
                    s.append(out[i].as_str());
                    crate::text::push_char(&mut s, '\n');
                    proof {
                        if i > 0 {
                            crate::text::lemma_join_snoc(
                                pre,
                                out@.map_values(|l: String| l@)[i as int],
                            );
                            assert(pre.push(out@.map_values(|l: String| l@)[i as int])
                                =~= out@.map_values(|l: String| l@).take(i + 1));
                        } else {
                            assert(out@.map_values(|l: String| l@).take(1)[0] == out@.map_values(
                                |l: String| l@,
                            )[0]);
                        }
                    }
                    i = i + 1;
                }
                proof {
                    assert(out@.map_values(|l: String| l@).take(m as int) =~= out@.map_values(
                        |l: String| l@,
                    ));
                    assert(out@.map_values(|l: String| l@) == emit_code(old(self).cs(), names));
                }
                Ok(s)
            },
            Err(e) => {
                proof {
                    let cs = old(self).cs();
                    assert(em_seq(em0) =~= Seq::<Seq<char>>::empty());
                    assert(emit_fuel(cs, "Sys.init"@, Seq::empty(), (cs.len() + 1) as nat) == Some(
                        Err::<Seq<Seq<char>>, ()>(()),
                    )) by {
                        assert((cs.len() + 1) as nat + em_seq(em0).len() >= cs.len() + 1);
                    }
                }
                Err(e)
            },
        }
    }
}

/// Concatenating emitted-name lists concatenates their code.
proof fn lemma_emit_code_concat(
    cs: Seq<(Seq<char>, ChunkV)>,
    a: Seq<Seq<char>>,
    b: Seq<Seq<char>>,
)
    ensures
        emit_code(cs, a + b) == emit_code(cs, a) + emit_code(cs, b),
    decreases a.len(),
{
    if a.len() == 0 {
        assert(a + b =~= b);
        assert(emit_code(cs, a) =~= Seq::<Seq<char>>::empty());
    } else {
        assert((a + b)[0] == a[0]);
        assert((a + b).drop_first() =~= a.drop_first() + b);
        lemma_emit_code_concat(cs, a.drop_first(), b);
        assert(emit_code(cs, a + b) =~= emit_code(cs, a) + emit_code(cs, b));
    }
}

/// In a table where every name differs from `name`, the name is absent.
proof fn lemma_ck_find_none(cs: Seq<(Seq<char>, ChunkV)>, name: Seq<char>)
    ensures
        (ck_find(cs, name) is Some) == exists|q: int|
            0 <= q < cs.len() && (#[trigger] cs[q]).0 == name,
    decreases cs.len(),
{
    if cs.len() > 0 {
        lemma_ck_find_none(cs.drop_first(), name);
        if cs[0].0 != name {
            if exists|q: int| 0 <= q < cs.len() && (#[trigger] cs[q]).0 == name {
                let q = choose|q: int| 0 <= q < cs.len() && (#[trigger] cs[q]).0 == name;
                assert(cs.drop_first()[q - 1].0 == name);
            }
            if exists|q: int|
                0 <= q < cs.drop_first().len() && (#[trigger] cs.drop_first()[q]).0 == name {
                let q = choose|q: int|
                    0 <= q < cs.drop_first().len() && (#[trigger] cs.drop_first()[q]).0 == name;
                assert(cs[q + 1].0 == name);
            }
        }
    }
}

} // verus!
