//! Character-level helpers shared by every stage: rendering numbers as
//! decimal, hexadecimal and binary text, parsing them back, splitting a
//! source into lines, and trimming whitespace.
use vstd::prelude::*;

verus! {

// ---------------------------------------------------------------------------
// Digits and number rendering
// ---------------------------------------------------------------------------

/// The decimal digit character for a value below ten.
pub open spec fn dec_digit(d: nat) -> char
    recommends
        d < 10,
{
    if d == 0 {
        '0'
    } else if d == 1 {
        '1'
    } else if d == 2 {
        '2'
    } else if d == 3 {
        '3'
    } else if d == 4 {
        '4'
    } else if d == 5 {
        '5'
    } else if d == 6 {
        '6'
    } else if d == 7 {
        '7'
    } else if d == 8 {
        '8'
    } else {
        '9'
    }
}

/// The shortest decimal rendering of `n`, most significant digit first.
pub open spec fn dec_rep(n: nat) -> Seq<char>
    decreases n,
{
    if n < 10 {
        seq![dec_digit(n)]
    } else {
        dec_rep(n / 10).push(dec_digit(n % 10))
    }
}

/// The lowercase hexadecimal digit character for a value below sixteen.
pub open spec fn hex_digit(d: nat) -> char
    recommends
        d < 16,
{
    if d < 10 {
        dec_digit(d)
    } else if d == 10 {
        'a'
    } else if d == 11 {
        'b'
    } else if d == 12 {
        'c'
    } else if d == 13 {
        'd'
    } else if d == 14 {
        'e'
    } else {
        'f'
    }
}

/// `n` rendered as exactly four lowercase hexadecimal digits.
pub open spec fn hex4_rep(n: nat) -> Seq<char> {
    seq![
        hex_digit(n / 4096 % 16),
        hex_digit(n / 256 % 16),
        hex_digit(n / 16 % 16),
        hex_digit(n % 16),
    ]
}

/// The low `w` bits of `n` rendered as `w` binary digits.
pub open spec fn bin_rep(n: nat, w: nat) -> Seq<char>
    decreases w,
{
    if w == 0 {
        Seq::empty()
    } else {
        bin_rep(n / 2, (w - 1) as nat).push(dec_digit(n % 2))
    }
}

/// Appends the single decimal digit `d` to `s`.
pub fn push_dec_digit(s: &mut String, d: u8)
    requires
        d < 10,
    ensures
        final(s)@ == old(s)@ + seq![dec_digit(d as nat)],
{
    proof {
        reveal_strlit("0");
        reveal_strlit("1");
        reveal_strlit("2");
        reveal_strlit("3");
        reveal_strlit("4");
        reveal_strlit("5");
        reveal_strlit("6");
        reveal_strlit("7");
        reveal_strlit("8");
        reveal_strlit("9");
    }
    match d {
        0 => s.append("0"),
        1 => s.append("1"),
        2 => s.append("2"),
        3 => s.append("3"),
        4 => s.append("4"),
        5 => s.append("5"),
        6 => s.append("6"),
        7 => s.append("7"),
        8 => s.append("8"),
        _ => s.append("9"),
    }
    assert(final(s)@ =~= old(s)@ + seq![dec_digit(d as nat)]);
}

/// Appends the single lowercase hexadecimal digit `d` to `s`.
pub fn push_hex_digit(s: &mut String, d: u8)
    requires
        d < 16,
    ensures
        final(s)@ == old(s)@ + seq![hex_digit(d as nat)],
{
    if d < 10 {
        push_dec_digit(s, d);
    } else {
        proof {
            reveal_strlit("a");
            reveal_strlit("b");
            reveal_strlit("c");
            reveal_strlit("d");
            reveal_strlit("e");
            reveal_strlit("f");
        }
        match d {
            10 => s.append("a"),
            11 => s.append("b"),
            12 => s.append("c"),
            13 => s.append("d"),
            14 => s.append("e"),
            _ => s.append("f"),
        }
    }
    assert(final(s)@ =~= old(s)@ + seq![hex_digit(d as nat)]);
}

/// Appends the shortest decimal rendering of `n` to `s`.
pub fn push_dec(s: &mut String, n: u64)
    ensures
        final(s)@ == old(s)@ + dec_rep(n as nat),
    decreases n,
{
    if n >= 10 {
        push_dec(s, n / 10);
    }
    push_dec_digit(s, (n % 10) as u8);
    assert(final(s)@ =~= old(s)@ + dec_rep(n as nat));
}

/// Appends the shortest decimal rendering of a wide counter to `s`.
pub fn push_dec128(s: &mut String, n: u128)
    ensures
        final(s)@ == old(s)@ + dec_rep(n as nat),
    decreases n,
{
    if n >= 10 {
        push_dec128(s, n / 10);
    }
    push_dec_digit(s, (n % 10) as u8);
    assert(final(s)@ =~= old(s)@ + dec_rep(n as nat));
}

/// The shortest decimal rendering of `n` as a fresh string.
pub fn dec_string(n: u64) -> (s: String)
    ensures
        s@ == dec_rep(n as nat),
{
    let mut s = String::new();
    push_dec(&mut s, n);
    assert(s@ =~= dec_rep(n as nat));
    s
}

/// Appends exactly four lowercase hexadecimal digits of `n` to `s`.
pub fn push_hex4(s: &mut String, n: u16)
    ensures
        final(s)@ == old(s)@ + hex4_rep(n as nat),
{
    push_hex_digit(s, (n / 4096 % 16) as u8);
    push_hex_digit(s, (n / 256 % 16) as u8);
    push_hex_digit(s, (n / 16 % 16) as u8);
    push_hex_digit(s, (n % 16) as u8);
    assert(final(s)@ =~= old(s)@ + hex4_rep(n as nat));
}

/// `n` as exactly four lowercase hexadecimal digits.
pub fn hex4_string(n: u16) -> (s: String)
    ensures
        s@ == hex4_rep(n as nat),
{
    let mut s = String::new();
    push_hex4(&mut s, n);
    assert(s@ =~= hex4_rep(n as nat));
    s
}

/// Appends the low `w` binary digits of `n` to `s`.
pub fn push_bin(s: &mut String, n: u16, w: u8)
    ensures
        final(s)@ == old(s)@ + bin_rep(n as nat, w as nat),
    decreases w,
{
    if w > 0 {
        push_bin(s, n / 2, w - 1);
        push_dec_digit(s, (n % 2) as u8);
    }
    assert(final(s)@ =~= old(s)@ + bin_rep(n as nat, w as nat));
}

/// `n` as exactly sixteen binary digits.
pub fn bin16_string(n: u16) -> (s: String)
    ensures
        s@ == bin_rep(n as nat, 16),
{
    let mut s = String::new();
    push_bin(&mut s, n, 16);
    assert(s@ =~= bin_rep(n as nat, 16));
    s
}

// ---------------------------------------------------------------------------
// Character classes
// ---------------------------------------------------------------------------

/// Decimal digit, `0` through `9`.
pub open spec fn is_dec_digit(c: char) -> bool {
    48 <= c as int <= 57
}

/// The numeric value of a decimal digit character.
pub open spec fn dec_digit_val(c: char) -> nat {
    (c as int - 48) as nat
}

/// Lowercase or uppercase hexadecimal digit.
pub open spec fn is_hex_digit(c: char) -> bool {
    is_dec_digit(c) || 97 <= c as int <= 102 || 65 <= c as int <= 70
}

/// The numeric value of a hexadecimal digit character.
pub open spec fn hex_digit_val(c: char) -> nat {
    if is_dec_digit(c) {
        dec_digit_val(c)
    } else if 97 <= c as int <= 102 {
        (c as int - 87) as nat
    } else {
        (c as int - 55) as nat
    }
}

/// Horizontal whitespace and the carriage return.
pub open spec fn is_space(c: char) -> bool {
    c == ' ' || c == '\t' || c == '\r'
}

/// Executable test for `is_dec_digit`.
pub fn check_dec_digit(c: char) -> (r: bool)
    ensures
        r == is_dec_digit(c),
{
    c >= '0' && c <= '9'
}

/// Executable test for `is_hex_digit`.
pub fn check_hex_digit(c: char) -> (r: bool)
    ensures
        r == is_hex_digit(c),
{
    (c >= '0' && c <= '9') || (c >= 'a' && c <= 'f') || (c >= 'A' && c <= 'F')
}

/// Executable test for `is_space`.
pub fn check_space(c: char) -> (r: bool)
    ensures
        r == is_space(c),
{
    c == ' ' || c == '\t' || c == '\r'
}

// ---------------------------------------------------------------------------
// Number parsing
// ---------------------------------------------------------------------------

/// Every character of `s` is a decimal digit.
pub open spec fn all_dec_digits(s: Seq<char>) -> bool {
    forall|i: int| 0 <= i < s.len() ==> is_dec_digit(#[trigger] s[i])
}

/// Every character of `s` is a hexadecimal digit.
pub open spec fn all_hex_digits(s: Seq<char>) -> bool {
    forall|i: int| 0 <= i < s.len() ==> is_hex_digit(#[trigger] s[i])
}

/// The value of a string of decimal digits, most significant first.
pub open spec fn dec_val(s: Seq<char>) -> nat
    decreases s.len(),
{
    if s.len() == 0 {
        0
    } else {
        dec_val(s.drop_last()) * 10 + dec_digit_val(s.last())
    }
}

/// The value of a string of hexadecimal digits, most significant first.
pub open spec fn hex_val(s: Seq<char>) -> nat
    decreases s.len(),
{
    if s.len() == 0 {
        0
    } else {
        hex_val(s.drop_last()) * 16 + hex_digit_val(s.last())
    }
}

/// A digit string's value never shrinks as digits are appended.
proof fn lemma_dec_val_take_le(s: Seq<char>, k: int)
    requires
        0 <= k <= s.len(),
    ensures
        dec_val(s.take(k)) <= dec_val(s),
    decreases s.len() - k,
{
    if k < s.len() {
        lemma_dec_val_take_le(s, k + 1);
        assert(s.take(k + 1).drop_last() =~= s.take(k));
        assert(dec_val(s.take(k)) <= dec_val(s.take(k + 1)));
    } else {
        assert(s.take(k) =~= s);
    }
}

/// Counterpart of `lemma_dec_val_take_le` for hexadecimal strings.
proof fn lemma_hex_val_take_le(s: Seq<char>, k: int)
    requires
        0 <= k <= s.len(),
    ensures
        hex_val(s.take(k)) <= hex_val(s),
    decreases s.len() - k,
{
    if k < s.len() {
        lemma_hex_val_take_le(s, k + 1);
        assert(s.take(k + 1).drop_last() =~= s.take(k));
        assert(hex_val(s.take(k)) <= hex_val(s.take(k + 1)));
    } else {
        assert(s.take(k) =~= s);
    }
}

/// Parses `s[lo..hi]` as an unsigned decimal number. Returns the value
/// exactly when the range is non-empty, all digits, and the value fits in
/// `u64`; returns `None` otherwise.
pub fn parse_dec(s: &[char], lo: usize, hi: usize) -> (r: Option<u64>)
    requires
        lo <= hi <= s@.len(),
    ensures
        match r {
            Some(v) => {
                &&& hi > lo
                &&& all_dec_digits(s@.subrange(lo as int, hi as int))
                &&& v as nat == dec_val(s@.subrange(lo as int, hi as int))
            },
            None => {
                hi == lo || !all_dec_digits(s@.subrange(lo as int, hi as int)) || dec_val(
                    s@.subrange(lo as int, hi as int),
                ) > u64::MAX
            },
        },
{
    let ghost whole = s@.subrange(lo as int, hi as int);
    if lo == hi {
        return None;
    }
    let mut acc: u64 = 0;
    let mut i: usize = lo;
    while i < hi
        invariant
            lo <= i <= hi <= s@.len(),
            whole == s@.subrange(lo as int, hi as int),
            all_dec_digits(whole.take(i - lo)),
            acc as nat == dec_val(whole.take(i - lo)),
        decreases hi - i,
    {
        let c = s[i];
        if !check_dec_digit(c) {
            assert(whole[i - lo] == c);
            return None;
        }
        let d: u64 = (c as u32 as u64) - 48;
        assert(d == dec_digit_val(c));
        if acc > (u64::MAX - d) / 10 {
            proof {
                assert(acc * 10 + d > u64::MAX) by (nonlinear_arith)
                    requires
                        acc > (u64::MAX - d) / 10,
                        d <= 9,
                ;
                assert(whole.take(i - lo + 1).drop_last() =~= whole.take(i - lo));
                assert(whole.take(i - lo + 1).last() == c);
                assert(dec_val(whole.take(i - lo + 1)) > u64::MAX);
                lemma_dec_val_take_le(whole, i - lo + 1);
            }
            return None;
        }
        proof {
            assert(acc * 10 + d <= u64::MAX) by (nonlinear_arith)
                requires
                    acc <= (u64::MAX - d) / 10,
                    d <= 9,
            ;
            assert(whole.take(i - lo + 1).drop_last() =~= whole.take(i - lo));
            assert(whole.take(i - lo + 1).last() == c);
        }
        acc = acc * 10 + d;
        i = i + 1;
    }
    assert(whole.take(hi - lo) =~= whole);
    Some(acc)
}

/// Parses `s[lo..hi]` as an unsigned hexadecimal number. Returns the value
/// exactly when the range is non-empty, all hexadecimal digits, and the value
/// fits in `u64`; returns `None` otherwise.
pub fn parse_hex(s: &[char], lo: usize, hi: usize) -> (r: Option<u64>)
    requires
        lo <= hi <= s@.len(),
    ensures
        match r {
            Some(v) => {
                &&& hi > lo
                &&& all_hex_digits(s@.subrange(lo as int, hi as int))
                &&& v as nat == hex_val(s@.subrange(lo as int, hi as int))
            },
            None => {
                hi == lo || !all_hex_digits(s@.subrange(lo as int, hi as int)) || hex_val(
                    s@.subrange(lo as int, hi as int),
                ) > u64::MAX
            },
        },
{
    let ghost whole = s@.subrange(lo as int, hi as int);
    if lo == hi {
        return None;
    }
    let mut acc: u64 = 0;
    let mut i: usize = lo;
    while i < hi
        invariant
            lo <= i <= hi <= s@.len(),
            whole == s@.subrange(lo as int, hi as int),
            all_hex_digits(whole.take(i - lo)),
            acc as nat == hex_val(whole.take(i - lo)),
        decreases hi - i,
    {
        let c = s[i];
        if !check_hex_digit(c) {
            assert(whole[i - lo] == c);
            return None;
        }
        let cu: u64 = c as u32 as u64;
        let d: u64 = if cu >= 97 {
            cu - 87
        } else if cu >= 65 {
            cu - 55
        } else {
            cu - 48
        };
        assert(d == hex_digit_val(c));
        if acc > (u64::MAX - d) / 16 {
            proof {
                assert(acc * 16 + d > u64::MAX) by (nonlinear_arith)
                    requires
                        acc > (u64::MAX - d) / 16,
                        d <= 15,
                ;
                assert(whole.take(i - lo + 1).drop_last() =~= whole.take(i - lo));
                assert(whole.take(i - lo + 1).last() == c);
                assert(hex_val(whole.take(i - lo + 1)) > u64::MAX);
                lemma_hex_val_take_le(whole, i - lo + 1);
            }
            return None;
        }
        proof {
            assert(acc * 16 + d <= u64::MAX) by (nonlinear_arith)
                requires
                    acc <= (u64::MAX - d) / 16,
                    d <= 15,
            ;
            assert(whole.take(i - lo + 1).drop_last() =~= whole.take(i - lo));
            assert(whole.take(i - lo + 1).last() == c);
        }
        acc = acc * 16 + d;
        i = i + 1;
    }
    assert(whole.take(hi - lo) =~= whole);
    Some(acc)
}

// ---------------------------------------------------------------------------
// Lines and trimming
// ---------------------------------------------------------------------------

/// Relies on `String::push`: appends exactly the given character.
#[verifier::external_body]
pub fn push_char(s: &mut String, c: char)
    ensures
        final(s)@ == old(s)@ + seq![c],
{
    s.push(c);
}

/// A fresh copy of a borrowed string.
pub fn string_of_str(s: &str) -> (r: String)
    ensures
        r@ == s@,
{
    s.to_owned()
}

/// A fresh string holding exactly the characters of `v`.
pub fn string_of(v: &[char]) -> (s: String)
    ensures
        s@ == v@,
{
    let mut s = String::new();
    let mut i: usize = 0;
    while i < v.len()
        invariant
            i <= v@.len(),
            s@ =~= v@.take(i as int),
        decreases v@.len() - i,
    {
        push_char(&mut s, v[i]);
        i = i + 1;
    }
    assert(s@ =~= v@);
    s
}

/// Appends every character of `v` to `s`.
pub fn push_chars(s: &mut String, v: &[char])
    ensures
        final(s)@ == old(s)@ + v@,
{
    let mut i: usize = 0;
    while i < v.len()
        invariant
            i <= v@.len(),
            s@ =~= old(s)@ + v@.take(i as int),
        decreases v@.len() - i,
    {
        push_char(s, v[i]);
        i = i + 1;
    }
    assert(s@ =~= old(s)@ + v@);
}

/// The characters of `s` as a vector.
pub fn chars_of(s: &str) -> (v: Vec<char>)
    ensures
        v@ == s@,
{
    let n = s.unicode_len();
    let mut v: Vec<char> = Vec::new();
    let mut i: usize = 0;
    while i < n
        invariant
            i <= n,
            n == s@.len(),
            v@ =~= s@.take(i as int),
        decreases n - i,
    {
        v.push(s.get_char(i));
        i = i + 1;
    }
    assert(v@ =~= s@);
    v
}

/// The lines of `ls` joined with a newline between each pair.
pub open spec fn join_lines(ls: Seq<Seq<char>>) -> Seq<char>
    recommends
        ls.len() >= 1,
    decreases ls.len(),
{
    if ls.len() <= 1 {
        ls[0]
    } else {
        ls[0] + seq!['\n'] + join_lines(ls.drop_first())
    }
}

/// Joining one more line appends a newline and that line.
pub proof fn lemma_join_snoc(ls: Seq<Seq<char>>, x: Seq<char>)
    requires
        ls.len() >= 1,
    ensures
        join_lines(ls.push(x)) == join_lines(ls) + seq!['\n'] + x,
    decreases ls.len(),
{
    if ls.len() == 1 {
        assert(ls.push(x).drop_first() =~= seq![x]);
        assert(join_lines(seq![x]) == seq![x][0]);
        assert(ls.push(x)[0] == ls[0]);
        assert(join_lines(ls.push(x)) == ls.push(x)[0] + seq!['\n'] + join_lines(
            ls.push(x).drop_first(),
        ));
        assert(join_lines(ls) == ls[0]);
    } else {
        lemma_join_snoc(ls.drop_first(), x);
        assert(ls.push(x).drop_first() =~= ls.drop_first().push(x));
        assert(join_lines(ls.push(x)) =~= join_lines(ls) + seq!['\n'] + x);
    }
}

/// Splits `s` at newline characters. The result is pinned down by its
/// contract: the pieces contain no newline and joining them with newlines
/// restores `s`.
pub fn split_lines(s: &Vec<char>) -> (ls: Vec<Vec<char>>)
    ensures
        ls@.len() >= 1,
        forall|i: int| 0 <= i < ls@.len() ==> !(#[trigger] ls@[i]@).contains('\n'),
        join_lines(ls@.map_values(|l: Vec<char>| l@)) == s@,
        ls@.map_values(|l: Vec<char>| l@) == spec_lines(s@),
{
    let ghost goal = spec_lines(s@);
    proof {
        lemma_spec_lines_join(s@);
    }
    let mut done: Vec<Vec<char>> = Vec::new();
    let mut cur: Vec<char> = Vec::new();
    let mut i: usize = 0;
    while i < s.len()
        invariant
            i <= s@.len(),
            forall|j: int| 0 <= j < done@.len() ==> !(#[trigger] done@[j]@).contains('\n'),
            !cur@.contains('\n'),
            join_lines(done@.map_values(|l: Vec<char>| l@).push(cur@)) =~= s@.take(i as int),
        decreases s@.len() - i,
    {
        let ghost prev_done = done@.map_values(|l: Vec<char>| l@);
        let ghost prev_cur = cur@;
        let c = s[i];
        if c == '\n' {
            done.push(cur);
            cur = Vec::new();
            proof {
                assert(done@.map_values(|l: Vec<char>| l@) =~= prev_done.push(prev_cur));
                lemma_join_snoc(prev_done.push(prev_cur), cur@);
                assert(s@.take(i as int + 1) =~= s@.take(i as int).push('\n'));
                assert(join_lines(prev_done.push(prev_cur)) + seq!['\n'] + cur@ =~= s@.take(
                    i as int,
                ).push('\n'));
            }
        } else {
            proof {
                lemma_join_push_last(done@.map_values(|l: Vec<char>| l@), cur@, c);
            }
            cur.push(c);
            assert(join_lines(done@.map_values(|l: Vec<char>| l@).push(cur@)) =~= s@.take(
                i as int + 1,
            ));
        }
        i = i + 1;
    }
    assert(s@.take(s@.len() as int) =~= s@);
    let ghost fin_done = done@.map_values(|l: Vec<char>| l@);
    let ghost fin_cur = cur@;
    done.push(cur);
    proof {
        assert(done@.map_values(|l: Vec<char>| l@) =~= fin_done.push(fin_cur));
        lemma_join_unique(done@.map_values(|l: Vec<char>| l@), goal);
    }
    done
}

/// Appending a character to the final line appends it to the joined text.
proof fn lemma_join_push_last(done: Seq<Seq<char>>, cur: Seq<char>, c: char)
    ensures
        join_lines(done.push(cur.push(c))) == join_lines(done.push(cur)).push(c),
    decreases done.len(),
{
    if done.len() == 0 {
        assert(join_lines(done.push(cur.push(c))) == cur.push(c));
        assert(join_lines(done.push(cur)) == cur);
    } else {
        lemma_join_push_last(done.drop_first(), cur, c);
        assert(done.push(cur).drop_first() =~= done.drop_first().push(cur));
        assert(done.push(cur.push(c)).drop_first() =~= done.drop_first().push(cur.push(c)));
        assert(join_lines(done.push(cur.push(c))) =~= join_lines(done.push(cur)).push(c));
    }
}

/// The lines of `s`: maximal newline-free pieces, one more than the number
/// of newline characters.
pub open spec fn spec_lines(s: Seq<char>) -> Seq<Seq<char>>
    decreases s.len(),
{
    if s.len() == 0 {
        seq![s]
    } else if s[0] == '\n' {
        seq![Seq::<char>::empty()] + spec_lines(s.drop_first())
    } else {
        let r = spec_lines(s.drop_first());
        seq![seq![s[0]] + r[0]] + r.drop_first()
    }
}

/// `spec_lines` yields at least one piece, none holding a newline, and
/// joining them with newlines restores the input.
pub proof fn lemma_spec_lines_join(s: Seq<char>)
    ensures
        spec_lines(s).len() >= 1,
        forall|i: int| 0 <= i < spec_lines(s).len() ==> !(#[trigger] spec_lines(s)[i]).contains(
            '\n',
        ),
        join_lines(spec_lines(s)) == s,
    decreases s.len(),
{
    if s.len() == 0 {
        assert(spec_lines(s) =~= seq![s]);
        assert(join_lines(seq![s]) == s);
        assert forall|i: int| 0 <= i < 1 implies !(#[trigger] spec_lines(s)[i]).contains('\n') by {
            assert(spec_lines(s)[i] == s);
        }
    } else if s[0] == '\n' {
        lemma_spec_lines_join(s.drop_first());
        let r = spec_lines(s.drop_first());
        let w = seq![Seq::<char>::empty()] + r;
        assert(w.drop_first() =~= r);
        assert(join_lines(w) == Seq::<char>::empty() + seq!['\n'] + join_lines(r));
        assert(join_lines(w) =~= s);
        assert(!w[0].contains('\n'));
        assert forall|i: int| 0 <= i < w.len() implies !(#[trigger] w[i]).contains('\n') by {
            if i > 0 {
                assert(w[i] == r[i - 1]);
            }
        }
    } else {
        lemma_spec_lines_join(s.drop_first());
        let r = spec_lines(s.drop_first());
        let h = seq![s[0]] + r[0];
        let w = seq![h] + r.drop_first();
        assert(spec_lines(s) == w);
        if r.len() == 1 {
            assert(w =~= seq![h]);
            assert(join_lines(w) == h);
            assert(join_lines(r) == r[0]);
            assert(join_lines(w) =~= s);
        } else {
            assert(w.drop_first() =~= r.drop_first());
            assert(w[0] == h);
            assert(join_lines(w) == h + seq!['\n'] + join_lines(r.drop_first()));
            assert(join_lines(r) == r[0] + seq!['\n'] + join_lines(r.drop_first()));
            assert(join_lines(w) =~= seq![s[0]] + join_lines(r));
            assert(join_lines(w) =~= s);
        }
        assert(!h.contains('\n')) by {
            assert(!r[0].contains('\n'));
            if h.contains('\n') {
                let i = choose|i: int| 0 <= i < h.len() && h[i] == '\n';
                assert(i > 0);
                assert(r[0][i - 1] == '\n');
            }
        }
        assert forall|i: int| 0 <= i < w.len() implies !(#[trigger] w[i]).contains('\n') by {
            if i > 0 {
                assert(w[i] == r[i]);
            }
        }
    }
}

/// Two newline-free line lists with the same joined text are the same list.
pub proof fn lemma_join_unique(a: Seq<Seq<char>>, b: Seq<Seq<char>>)
    requires
        a.len() >= 1,
        b.len() >= 1,
        forall|i: int| 0 <= i < a.len() ==> !(#[trigger] a[i]).contains('\n'),
        forall|i: int| 0 <= i < b.len() ==> !(#[trigger] b[i]).contains('\n'),
        join_lines(a) == join_lines(b),
    ensures
        a == b,
    decreases a.len(),
{
    let s = join_lines(a);
    if a.len() == 1 && b.len() == 1 {
        assert(a =~= b);
    } else if a.len() == 1 {
        assert(join_lines(b) == b[0] + seq!['\n'] + join_lines(b.drop_first()));
        assert(s[b[0].len() as int] == '\n');
        assert(a[0].contains('\n'));
        assert(false);
    } else if b.len() == 1 {
        assert(join_lines(a) == a[0] + seq!['\n'] + join_lines(a.drop_first()));
        assert(s[a[0].len() as int] == '\n');
        assert(b[0].contains('\n'));
        assert(false);
    } else {
        assert(join_lines(a) == a[0] + seq!['\n'] + join_lines(a.drop_first()));
        assert(join_lines(b) == b[0] + seq!['\n'] + join_lines(b.drop_first()));
        assert(s[a[0].len() as int] == '\n');
        assert(s[b[0].len() as int] == '\n');
        if a[0].len() < b[0].len() {
            assert(b[0][a[0].len() as int] == '\n');
            assert(b[0].contains('\n'));
            assert(false);
        }
        if b[0].len() < a[0].len() {
            assert(a[0][b[0].len() as int] == '\n');
            assert(a[0].contains('\n'));
            assert(false);
        }
        assert forall|k: int| 0 <= k < a[0].len() implies a[0][k] == b[0][k] by {
            assert(a[0][k] == s[k]);
            assert(b[0][k] == join_lines(b)[k]);
        }
        assert(a[0] =~= b[0]);
        assert(join_lines(a.drop_first()) =~= join_lines(b.drop_first())) by {
            assert forall|k: int|
                0 <= k < join_lines(a.drop_first()).len() implies join_lines(a.drop_first())[k]
                == join_lines(b.drop_first())[k] by {
                assert(join_lines(a.drop_first())[k] == s[a[0].len() + 1 + k]);
                assert(join_lines(b.drop_first())[k] == s[b[0].len() + 1 + k]);
            }
        }
        assert forall|i: int|
            0 <= i < a.drop_first().len() implies !(#[trigger] a.drop_first()[i]).contains(
            '\n',
        ) by {
            assert(a.drop_first()[i] == a[i + 1]);
        }
        assert forall|i: int|
            0 <= i < b.drop_first().len() implies !(#[trigger] b.drop_first()[i]).contains(
            '\n',
        ) by {
            assert(b.drop_first()[i] == b[i + 1]);
        }
        lemma_join_unique(a.drop_first(), b.drop_first());
        assert forall|i: int| 0 <= i < a.len() implies a[i] == b[i] by {
            if i > 0 {
                assert(a.drop_first()[i - 1] == a[i]);
                assert(b.drop_first()[i - 1] == b[i]);
            }
        }
        assert(a =~= b);
    }
}

/// `s` with leading whitespace removed.
pub open spec fn trim_start(s: Seq<char>) -> Seq<char>
    decreases s.len(),
{
    if s.len() > 0 && is_space(s[0]) {
        trim_start(s.drop_first())
    } else {
        s
    }
}

/// `s` with trailing whitespace removed.
pub open spec fn trim_end(s: Seq<char>) -> Seq<char>
    decreases s.len(),
{
    if s.len() > 0 && is_space(s.last()) {
        trim_end(s.drop_last())
    } else {
        s
    }
}

/// `s` with leading and trailing whitespace removed.
pub open spec fn trim(s: Seq<char>) -> Seq<char> {
    trim_end(trim_start(s))
}

proof fn lemma_trim_start_skip(s: Seq<char>, k: int)
    requires
        0 <= k <= s.len(),
        forall|i: int| 0 <= i < k ==> is_space(#[trigger] s[i]),
    ensures
        trim_start(s) == trim_start(s.skip(k)),
    decreases k,
{
    if k > 0 {
        assert(is_space(s[0]));
        assert(s.drop_first() =~= s.skip(1));
        assert forall|i: int| 0 <= i < k - 1 implies is_space(#[trigger] s.skip(1)[i]) by {
            assert(s.skip(1)[i] == s[i + 1]);
        }
        lemma_trim_start_skip(s.skip(1), k - 1);
        assert(s.skip(1).skip(k - 1) =~= s.skip(k));
    } else {
        assert(s.skip(0) =~= s);
    }
}

proof fn lemma_trim_end_take(s: Seq<char>, k: int)
    requires
        0 <= k <= s.len(),
        forall|i: int| k <= i < s.len() ==> is_space(#[trigger] s[i]),
    ensures
        trim_end(s) == trim_end(s.take(k)),
    decreases s.len() - k,
{
    if k < s.len() {
        assert(is_space(s.last()));
        assert(s.drop_last() =~= s.take(s.len() - 1));
        assert forall|i: int| k <= i < s.len() - 1 implies is_space(
            #[trigger] s.take(s.len() - 1)[i],
        ) by {
            assert(s.take(s.len() - 1)[i] == s[i]);
        }
        lemma_trim_end_take(s.take(s.len() - 1), k);
        assert(s.take(s.len() - 1).take(k) =~= s.take(k));
    } else {
        assert(s.take(k) =~= s);
    }
}

/// A copy of `s` with surrounding whitespace removed.
pub fn trim_chars(s: &Vec<char>) -> (t: Vec<char>)
    ensures
        t@ == trim(s@),
{
    let mut lo: usize = 0;
    while lo < s.len() && check_space(s[lo])
        invariant
            lo <= s@.len(),
            forall|i: int| 0 <= i < lo ==> is_space(#[trigger] s@[i]),
        decreases s@.len() - lo,
    {
        lo = lo + 1;
    }
    proof {
        lemma_trim_start_skip(s@, lo as int);
        if lo < s@.len() {
            assert(trim_start(s@.skip(lo as int)) == s@.skip(lo as int));
        } else {
            assert(s@.skip(lo as int) =~= Seq::<char>::empty());
        }
    }
    let mut hi: usize = s.len();
    while hi > lo && check_space(s[hi - 1])
        invariant
            lo <= hi <= s@.len(),
            forall|i: int| hi <= i < s@.len() ==> is_space(#[trigger] s@[i]),
            trim_start(s@) == s@.skip(lo as int),
        decreases hi,
    {
        hi = hi - 1;
    }
    proof {
        lemma_trim_end_take(s@.skip(lo as int), hi - lo);
        if hi > lo {
            assert(trim_end(s@.skip(lo as int).take(hi - lo)) == s@.skip(lo as int).take(hi - lo));
        } else {
            assert(s@.skip(lo as int).take(hi - lo) =~= Seq::<char>::empty());
        }
    }
    let mut t: Vec<char> = Vec::new();
    let mut i: usize = lo;
    while i < hi
        invariant
            lo <= i <= hi <= s@.len(),
            t@ =~= s@.subrange(lo as int, i as int),
        decreases hi - i,
    {
        t.push(s[i]);
        i = i + 1;
    }
    assert(t@ =~= s@.skip(lo as int).take(hi - lo));
    t
}

/// True when `p` is a prefix of `s`.
pub open spec fn has_prefix(s: Seq<char>, p: Seq<char>) -> bool {
    p.len() <= s.len() && s.take(p.len() as int) == p
}

/// Executable prefix test against a literal pattern.
pub fn starts_with(s: &[char], p: &[char]) -> (r: bool)
    ensures
        r == has_prefix(s@, p@),
{
    if p.len() > s.len() {
        assert(!has_prefix(s@, p@));
        return false;
    }
    let mut i: usize = 0;
    while i < p.len()
        invariant
            i <= p@.len() <= s@.len(),
            forall|j: int| 0 <= j < i ==> s@[j] == p@[j],
        decreases p@.len() - i,
    {
        if s[i] != p[i] {
            assert(s@.take(p@.len() as int)[i as int] != p@[i as int]);
            return false;
        }
        i = i + 1;
    }
    assert(s@.take(p@.len() as int) =~= p@);
    true
}

} // verus!
