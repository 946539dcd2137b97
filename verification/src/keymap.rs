//! A small name-keyed association map used throughout the toolchain in place
//! of a hash map: lookups are linear, the key set is an invariant-checked
//! unique list, and iteration order is insertion order. A lexicographic
//! order on names supports the sorted table the assembler keeps for
//! forward references.
use vstd::prelude::*;

verus! {

/// Strict lexicographic order on character sequences.
pub open spec fn lex_lt(a: Seq<char>, b: Seq<char>) -> bool
    decreases a.len(),
{
    if b.len() == 0 {
        false
    } else if a.len() == 0 {
        true
    } else if a[0] != b[0] {
        (a[0] as int) < (b[0] as int)
    } else {
        lex_lt(a.drop_first(), b.drop_first())
    }
}

/// Two names not ordered either way are equal.
pub proof fn lemma_lex_connex(a: Seq<char>, b: Seq<char>)
    requires
        !lex_lt(a, b),
        !lex_lt(b, a),
    ensures
        a == b,
    decreases a.len(),
{
    if a.len() == 0 || b.len() == 0 {
        assert(a =~= b);
    } else {
        assert(a[0] == b[0]);
        lemma_lex_connex(a.drop_first(), b.drop_first());
        assert(a =~= seq![a[0]] + a.drop_first());
        assert(b =~= seq![b[0]] + b.drop_first());
    }
}

/// Lexicographic order is transitive.
pub proof fn lemma_lex_trans(a: Seq<char>, b: Seq<char>, c: Seq<char>)
    requires
        lex_lt(a, b),
        lex_lt(b, c),
    ensures
        lex_lt(a, c),
    decreases a.len(),
{
    if a.len() == 0 {
        assert(b.len() > 0);
        assert(c.len() > 0);
    } else {
        assert(b.len() > 0);
        assert(c.len() > 0);
        if a[0] == b[0] && b[0] == c[0] {
            lemma_lex_trans(a.drop_first(), b.drop_first(), c.drop_first());
        }
    }
}

/// Lexicographic order is irreflexive.
pub proof fn lemma_lex_irrefl(a: Seq<char>)
    ensures
        !lex_lt(a, a),
    decreases a.len(),
{
    if a.len() > 0 {
        lemma_lex_irrefl(a.drop_first());
    }
}

/// Executable comparison deciding `lex_lt`.
pub fn lex_less(a: &[char], b: &[char]) -> (r: bool)
    ensures
        r == lex_lt(a@, b@),
    decreases a@.len(),
{
    let mut i: usize = 0;
    assert(a@.skip(0) =~= a@);
    assert(b@.skip(0) =~= b@);
    loop
        invariant
            i <= a@.len(),
            i <= b@.len(),
            forall|j: int| 0 <= j < i ==> a@[j] == b@[j],
            lex_lt(a@, b@) == lex_lt(a@.skip(i as int), b@.skip(i as int)),
        decreases a@.len() - i,
    {
        proof {
            if i < a@.len() && i < b@.len() {
                assert(a@.skip(i as int).drop_first() =~= a@.skip(i + 1));
                assert(b@.skip(i as int).drop_first() =~= b@.skip(i + 1));
            }
        }
        if i >= b.len() {
            return false;
        }
        if i >= a.len() {
            return true;
        }
        if a[i] != b[i] {
            assert(a@.skip(i as int)[0] == a@[i as int]);
            assert(b@.skip(i as int)[0] == b@[i as int]);
            return a[i] < b[i];
        }
        i = i + 1;
    }
}

/// Equality test between two character slices.
pub fn chars_eq(a: &[char], b: &[char]) -> (r: bool)
    ensures
        r == (a@ == b@),
{
    if a.len() != b.len() {
        assert(a@ != b@) by {
            assert(a@.len() != b@.len());
        }
        return false;
    }
    let mut i: usize = 0;
    while i < a.len()
        invariant
            i <= a@.len(),
            a@.len() == b@.len(),
            forall|j: int| 0 <= j < i ==> a@[j] == b@[j],
        decreases a@.len() - i,
    {
        if a[i] != b[i] {
            return false;
        }
        i = i + 1;
    }
    assert(a@ =~= b@);
    true
}

/// Equality test between a character slice and a literal string.
pub fn chars_eq_lit(a: &[char], lit: &str) -> (r: bool)
    ensures
        r == (a@ == lit@),
{
    let n = lit.unicode_len();
    if a.len() != n {
        assert(a@.len() != lit@.len());
        return false;
    }
    let mut i: usize = 0;
    while i < n
        invariant
            i <= n,
            n == lit@.len() == a@.len(),
            forall|j: int| 0 <= j < i ==> a@[j] == lit@[j],
        decreases n - i,
    {
        if a[i] != lit.get_char(i) {
            return false;
        }
        i = i + 1;
    }
    assert(a@ =~= lit@);
    true
}

/// An association list from names to values with unique keys.
pub struct KeyMap<V> {
    pub entries: Vec<(Vec<char>, V)>,
}

/// The first value bound to `k` in an entry sequence.
pub open spec fn find_in<V>(s: Seq<(Vec<char>, V)>, k: Seq<char>) -> Option<V>
    decreases s.len(),
{
    if s.len() == 0 {
        None
    } else if s[0].0@ == k {
        Some(s[0].1)
    } else {
        find_in(s.drop_first(), k)
    }
}

/// Membership of key `k` in an entry sequence.
pub open spec fn key_in<V>(s: Seq<(Vec<char>, V)>, k: Seq<char>) -> bool {
    exists|i: int| 0 <= i < s.len() && (#[trigger] s[i]).0@ == k
}

/// A found binding is a real binding, and a missing one is truly absent.
pub proof fn lemma_find_in_key<V>(s: Seq<(Vec<char>, V)>, k: Seq<char>)
    ensures
        find_in(s, k) is Some <==> key_in(s, k),
    decreases s.len(),
{
    if s.len() > 0 {
        lemma_find_in_key(s.drop_first(), k);
        if s[0].0@ == k {
        } else {
            if key_in(s, k) {
                let i = choose|i: int| 0 <= i < s.len() && (#[trigger] s[i]).0@ == k;
                assert(s.drop_first()[i - 1].0@ == k);
            }
            if key_in(s.drop_first(), k) {
                let i = choose|i: int|
                    0 <= i < s.drop_first().len() && (#[trigger] s.drop_first()[i]).0@ == k;
                assert(s[i + 1].0@ == k);
            }
        }
    }
}

/// Appending a new entry leaves earlier lookups unchanged and binds its key.
pub proof fn lemma_find_in_push<V>(s: Seq<(Vec<char>, V)>, k: Seq<char>, e: (Vec<char>, V))
    ensures
        find_in(s.push(e), k) == if find_in(s, k) is Some {
            find_in(s, k)
        } else if e.0@ == k {
            Some(e.1)
        } else {
            None
        },
    decreases s.len(),
{
    if s.len() == 0 {
        assert(s.push(e)[0] == e);
        assert(s.push(e).drop_first() =~= Seq::<(Vec<char>, V)>::empty());
        assert(find_in(s.push(e).drop_first(), k) == None::<V>);
    } else {
        assert(s.push(e).drop_first() =~= s.drop_first().push(e));
        lemma_find_in_push(s.drop_first(), k, e);
    }
}

impl<V> KeyMap<V> {
    /// Keys are pairwise distinct.
    pub open spec fn wf(&self) -> bool {
        forall|i: int, j: int|
            0 <= i < j < self.entries@.len() ==> (#[trigger] self.entries@[i]).0@ != (
            #[trigger] self.entries@[j]).0@
    }

    /// The value bound to `k`, if any.
    pub open spec fn spec_get(&self, k: Seq<char>) -> Option<V> {
        find_in(self.entries@, k)
    }

    /// Whether `k` is bound.
    pub open spec fn has(&self, k: Seq<char>) -> bool {
        key_in(self.entries@, k)
    }

    /// An empty map.
    pub fn new() -> (m: KeyMap<V>)
        ensures
            m.entries@.len() == 0,
            m.wf(),
    {
        KeyMap { entries: Vec::new() }
    }

    /// Looks `k` up by scanning the entries in order.
    pub fn get(&self, k: &[char]) -> (r: Option<&V>)
        ensures
            match r {
                Some(v) => self.spec_get(k@) == Some(*v),
                None => self.spec_get(k@) is None,
            },
    {
        let n = self.entries.len();
        assert(self.entries@.skip(0) =~= self.entries@);
        let mut i: usize = 0;
        while i < n
            invariant
                i <= n == self.entries@.len(),
                find_in(self.entries@, k@) == find_in(self.entries@.skip(i as int), k@),
            decreases n - i,
        {
            proof {
                assert(self.entries@.skip(i as int).drop_first() =~= self.entries@.skip(i + 1));
                assert(self.entries@.skip(i as int)[0] == self.entries@[i as int]);
            }
            if chars_eq(self.entries[i].0.as_slice(), k) {
                return Some(&self.entries[i].1);
            }
            i = i + 1;
        }
        None
    }

    /// Whether `k` is bound, executably.
    pub fn contains_key(&self, k: &[char]) -> (r: bool)
        ensures
            r == self.has(k@),
    {
        proof {
            lemma_find_in_key(self.entries@, k@);
        }
        match self.get(k) {
            Some(_) => true,
            None => false,
        }
    }

    /// Binds a fresh key; the entry list grows by exactly this binding.
    pub fn insert(&mut self, k: Vec<char>, v: V)
        requires
            !old(self).has(k@),
        ensures
            final(self).entries@ == old(self).entries@.push((k, v)),
            old(self).wf() ==> final(self).wf(),
            final(self).spec_get(k@) == Some::<V>(v),
    {
        let ghost k0 = k@;
        let ghost prev = self.entries@;
        proof {
            lemma_find_in_key(prev, k0);
        }
        self.entries.push((k, v));
        proof {
            lemma_find_in_push(prev, k0, self.entries@.last());
            if old(self).wf() {
                assert forall|i: int, j: int|
                    0 <= i < j < self.entries@.len() implies (#[trigger] self.entries@[i]).0@ != (
                #[trigger] self.entries@[j]).0@ by {
                    if j < self.entries@.len() - 1 {
                        assert(prev[i].0@ != prev[j].0@);
                    } else {
                        assert(self.entries@[j].0@ == k0);
                        assert(0 <= i < prev.len() && (#[trigger] prev[i]).0@ == prev[i].0@);
                    }
                }
            }
        }
    }

    /// The number of entries.
    pub fn len(&self) -> (n: usize)
        ensures
            n == self.entries@.len(),
    {
        self.entries.len()
    }
}

} // verus!
