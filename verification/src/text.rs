//! Character-level building blocks: escaping, trimming, decimal and column
//! numbering.

use vstd::prelude::*;

verus! {

/// The characters of `s`, in order.
pub(crate) fn chars_of(s: &str) -> (res: Vec<char>)
    ensures
        res@ == s@,
{
    broadcast use vstd::string::axiom_spec_iter;

    let mut v: Vec<char> = Vec::new();
    for c in it: s.chars()
        invariant
            it.seq() == s@,
            v@ == it.seq().take(it.index() as int),
    {
        v.push(c);
        assert(v@ =~= it.seq().take(it.index() + 1));
    }
    assert(v@ =~= s@);
    v
}

/// A `String` holding exactly the characters `cs`.
#[verifier::external_body]
pub(crate) fn string_of(cs: &[char]) -> (res: String)
    ensures
        res@ == cs@,
{
    cs.iter().collect()
}

/// `Vec::extend_from_slice` for characters, stated over the views.
pub(crate) fn push_all(dst: &mut Vec<char>, src: &[char])
    ensures
        final(dst)@ == old(dst)@ + src@,
{
    let mut i: usize = 0;
    while i < src.len()
        invariant
            i <= src@.len(),
            dst@ == old(dst)@ + src@.take(i as int),
        decreases src@.len() - i,
    {
        dst.push(src[i]);
        i = i + 1;
        assert(src@.take(i as int) == src@.take(i - 1) + seq![src@[i - 1]]);
    }
    assert(src@.take(src@.len() as int) == src@);
}

/// Appends the characters of `s` to `dst`.
pub(crate) fn push_str(dst: &mut Vec<char>, s: &str)
    ensures
        final(dst)@ == old(dst)@ + s@,
{
    let cs = chars_of(s);
    push_all(dst, cs.as_slice());
}

/// Appends the characters `cs` to the text `out`.
pub(crate) fn append_chars(out: &mut String, cs: &[char])
    ensures
        final(out)@ == old(out)@ + cs@,
{
    let s = string_of(cs);
    out.append(s.as_str());
}

/// Whether `s` begins with `prefix`.
pub(crate) fn has_prefix(s: &[char], prefix: &str) -> (res: bool)
    ensures
        res == prefix@.is_prefix_of(s@),
{
    let p = chars_of(prefix);
    if p.len() > s.len() {
        return false;
    }
    let mut i: usize = 0;
    while i < p.len()
        invariant
            p@ == prefix@,
            p@.len() <= s@.len(),
            i <= p@.len(),
            forall|j: int| 0 <= j < i ==> p@[j] == s@[j],
        decreases p@.len() - i,
    {
        if p[i] != s[i] {
            assert(p@[i as int] != s@.subrange(0, p@.len() as int)[i as int]);
            return false;
        }
        i = i + 1;
    }
    assert(p@ =~= s@.subrange(0, p@.len() as int));
    true
}

/// Whether `s` ends with `suffix`.
pub(crate) fn has_suffix(s: &[char], suffix: &str) -> (res: bool)
    ensures
        res == suffix@.is_suffix_of(s@),
{
    let p = chars_of(suffix);
    if p.len() > s.len() {
        return false;
    }
    let off: usize = s.len() - p.len();
    assert(s@.len() == s.len());
    let mut i: usize = 0;
    while i < p.len()
        invariant
            p@ == suffix@,
            p@.len() <= s@.len(),
            s@.len() <= usize::MAX,
            off == s@.len() - p@.len(),
            i <= p@.len(),
            forall|j: int| 0 <= j < i ==> p@[j] == s@[off + j],
        decreases p@.len() - i,
    {
        assert(off + i < s@.len());
        if p[i] != s[off + i] {
            assert(p@[i as int] != s@.subrange(off as int, s@.len() as int)[i as int]);
            return false;
        }
        i = i + 1;
    }
    assert(p@ =~= s@.subrange(off as int, s@.len() as int));
    true
}

/// The escaped form of one character: backslash, tab and newline become two
/// visible characters, a carriage return disappears.
pub open spec fn esc_char(c: char) -> Seq<char> {
    if c == '\\' {
        seq!['\\', '\\']
    } else if c == '\t' {
        seq!['\\', 't']
    } else if c == '\r' {
        Seq::empty()
    } else if c == '\n' {
        seq!['\\', 'n']
    } else {
        seq![c]
    }
}

/// `s` with every character escaped by [`esc_char`].
pub open spec fn esc_spec(s: Seq<char>) -> Seq<char>
    decreases s.len(),
{
    if s.len() == 0 {
        Seq::empty()
    } else {
        esc_spec(s.drop_last()) + esc_char(s.last())
    }
}

/// Appends the escaped form of `s` to `out`.
pub(crate) fn push_escaped(out: &mut Vec<char>, s: &[char])
    ensures
        final(out)@ == old(out)@ + esc_spec(s@),
{
    let mut i: usize = 0;
    while i < s.len()
        invariant
            i <= s@.len(),
            out@ == old(out)@ + esc_spec(s@.take(i as int)),
        decreases s@.len() - i,
    {
        let c = s[i];
        let ghost before = out@;
        if c == '\\' {
            out.push('\\');
            out.push('\\');
        } else if c == '\t' {
            out.push('\\');
            out.push('t');
        } else if c == '\r' {
        } else if c == '\n' {
            out.push('\\');
            out.push('n');
        } else {
            out.push(c);
        }
        assert(out@ == before + esc_char(c));
        assert(s@.take(i + 1).drop_last() == s@.take(i as int));
        i = i + 1;
    }
    assert(s@.take(s@.len() as int) == s@);
}

/// The least escaping that keeps one cell on one line. Line-wise readability
/// of the diff outranks getting the exact bytes of the value back.
pub fn esc(s: &str) -> (res: String)
    ensures
        res@ == esc_spec(s@),
{
    let cs = chars_of(s);
    let mut out: Vec<char> = Vec::new();
    push_escaped(&mut out, cs.as_slice());
    string_of(out.as_slice())
}

/// An escaped value never holds a tab, a newline or a carriage return, so it
/// never breaks the line or the column it is written into.
pub proof fn esc_keeps_one_line(s: Seq<char>)
    ensures
        forall|i: int|
            0 <= i < esc_spec(s).len() ==> {
                let c = #[trigger] esc_spec(s)[i];
                c != '\t' && c != '\n' && c != '\r'
            },
    decreases s.len(),
{
    if s.len() > 0 {
        esc_keeps_one_line(s.drop_last());
        let a = esc_spec(s.drop_last());
        let b = esc_char(s.last());
        assert forall|i: int| 0 <= i < esc_spec(s).len() implies {
            let c = #[trigger] esc_spec(s)[i];
            c != '\t' && c != '\n' && c != '\r'
        } by {
            if i < a.len() {
                assert(esc_spec(s)[i] == a[i]);
            } else {
                assert(esc_spec(s)[i] == b[i - a.len()]);
            }
        }
    }
}


/// Reads an escaped value back, left to right: a backslash followed by a
/// backslash, `t` or `n` stands for a backslash, a tab or a newline; any
/// other character stands for itself.
pub open spec fn unesc_spec(s: Seq<char>) -> Seq<char>
    decreases s.len(),
{
    if s.len() == 0 {
        Seq::empty()
    } else if s.len() >= 2 && s[0] == '\\' && (s[1] == '\\' || s[1] == 't' || s[1] == 'n') {
        seq![if s[1] == '\\' { '\\' } else if s[1] == 't' { '\t' } else { '\n' }] + unesc_spec(s.skip(2))
    } else {
        seq![s[0]] + unesc_spec(s.skip(1))
    }
}

proof fn lemma_esc_concat(a: Seq<char>, b: Seq<char>)
    ensures
        esc_spec(a + b) == esc_spec(a) + esc_spec(b),
    decreases b.len(),
{
    if b.len() == 0 {
        assert(a + b =~= a);
        assert(esc_spec(a) + esc_spec(b) =~= esc_spec(a));
    } else {
        lemma_esc_concat(a, b.drop_last());
        assert((a + b).drop_last() =~= a + b.drop_last());
        assert((a + b).last() == b.last());
        let x = esc_spec(a);
        let y = esc_spec(b.drop_last());
        let z = esc_char(b.last());
        assert(x + y + z =~= x + (y + z));
    }
}

/// Escaping can be undone on text without carriage returns (the one
/// character that escaping drops): reading the escaped value back gives the
/// value. So two such values never escape alike.
pub proof fn escaping_can_be_undone(s: Seq<char>)
    requires
        forall|i: int| 0 <= i < s.len() ==> #[trigger] s[i] != '\r',
    ensures
        unesc_spec(esc_spec(s)) == s,
    decreases s.len(),
{
    if s.len() > 0 {
        let c = s[0];
        let rest = s.skip(1);
        assert(s =~= seq![c] + rest);
        assert forall|i: int| 0 <= i < rest.len() implies #[trigger] rest[i] != '\r' by {
            assert(rest[i] == s[i + 1]);
        }
        escaping_can_be_undone(rest);
        lemma_esc_concat(seq![c], rest);
        let one = seq![c];
        assert(one.drop_last() =~= Seq::<char>::empty());
        assert(one.last() == c);
        assert(esc_spec(one.drop_last()).len() == 0);
        assert(esc_spec(one) == esc_spec(one.drop_last()) + esc_char(c));
        assert(esc_spec(one) =~= esc_char(c));
        let r = esc_spec(rest);
        let x = esc_char(c) + r;
        if c == '\\' || c == '\t' || c == '\n' {
            assert(x.skip(2) =~= r);
        } else {
            assert(x.skip(1) =~= r);
        }
        assert(unesc_spec(x) =~= seq![c] + unesc_spec(r));
    }
}

/// Two values without carriage returns that escape alike are the same.
pub proof fn escaping_is_one_to_one(a: Seq<char>, b: Seq<char>)
    requires
        forall|i: int| 0 <= i < a.len() ==> #[trigger] a[i] != '\r',
        forall|i: int| 0 <= i < b.len() ==> #[trigger] b[i] != '\r',
        esc_spec(a) == esc_spec(b),
    ensures
        a == b,
{
    escaping_can_be_undone(a);
    escaping_can_be_undone(b);
}

/// The column letter for a digit of bijective base 26: 0 is `A`, 25 is `Z`.
pub open spec fn letter(d: nat) -> char {
    ((65 + d) as u8) as char
}

/// Spreadsheet column name of the zero-based column `n`, in bijective base 26.
pub open spec fn col_spec(n: nat) -> Seq<char>
    decreases n,
{
    if n < 26 {
        seq![letter(n)]
    } else {
        col_spec((n / 26 - 1) as nat).push(letter(n % 26))
    }
}

/// The zero-based column that a column name denotes: the inverse of [`col_spec`].
pub open spec fn col_index(s: Seq<char>) -> int
    decreases s.len(),
{
    if s.len() == 0 {
        -1
    } else {
        (col_index(s.drop_last()) + 1) * 26 + (s.last() as int - 65)
    }
}

/// A non-empty word of capital letters `A` to `Z`.
pub open spec fn is_col_name(s: Seq<char>) -> bool {
    s.len() > 0 && forall|i: int| 0 <= i < s.len() ==> 'A' <= #[trigger] s[i] <= 'Z'
}

/// Appends the column name of `n` to `out`.
pub(crate) fn push_column(out: &mut Vec<char>, n: u128)
    ensures
        final(out)@ == old(out)@ + col_spec(n as nat),
    decreases n,
{
    if n >= 26 {
        push_column(out, n / 26 - 1);
    }
    let d: u8 = (n % 26) as u8;
    out.push((65u8 + d) as char);
    assert(col_spec(n as nat) == if n < 26 {
        seq![letter(n as nat)]
    } else {
        col_spec((n / 26 - 1) as nat).push(letter((n % 26) as nat))
    });
}

/// 0 -> A, 25 -> Z, 26 -> AA. Spreadsheet columns are bijective base 26.
pub fn col_letters(n: usize) -> (res: String)
    ensures
        res@ == col_spec(n as nat),
{
    let mut out: Vec<char> = Vec::new();
    push_column(&mut out, n as u128);
    string_of(out.as_slice())
}

/// Decoding a column name gives back the column: no two columns share a name.
pub proof fn col_letters_round_trip(n: nat)
    ensures
        col_index(col_spec(n)) == n,
        is_col_name(col_spec(n)),
    decreases n,
{
    if n < 26 {
        let s = col_spec(n);
        assert(s.drop_last() =~= Seq::<char>::empty());
        assert(col_index(s.drop_last()) == -1);
        assert(letter(n) as int == 65 + n);
        assert(col_index(s) == (col_index(s.drop_last()) + 1) * 26 + (s.last() as int - 65));
    } else {
        let m = (n / 26 - 1) as nat;
        col_letters_round_trip(m);
        let r = (n % 26) as nat;
        let s = col_spec(n);
        assert(s.drop_last() =~= col_spec(m));
        assert(letter(r) as int == 65 + r);
        assert(s.last() == letter(r));
        assert(col_index(s) == (col_index(s.drop_last()) + 1) * 26 + (s.last() as int - 65));
        assert((n / 26) * 26 + n % 26 == n) by (nonlinear_arith);
        assert forall|i: int| 0 <= i < s.len() implies 'A' <= #[trigger] s[i] <= 'Z' by {
            if i < s.len() - 1 {
                assert(s[i] == col_spec(m)[i]);
            }
        }
    }
}

/// Every column name is the name of exactly the column it decodes to: the
/// numbering leaves no name out.
pub proof fn col_names_are_all_used(s: Seq<char>)
    requires
        is_col_name(s),
    ensures
        col_index(s) >= 0,
        col_spec(col_index(s) as nat) == s,
    decreases s.len(),
{
    let c = s.last();
    let d = c as int - 65;
    assert(0 <= d < 26);
    assert(letter(d as nat) == c);
    let p = s.drop_last();
    assert(col_index(s) == (col_index(p) + 1) * 26 + d);
    if s.len() == 1 {
        assert(p =~= Seq::<char>::empty());
        assert(col_index(p) == -1);
        assert(s =~= seq![c]);
    } else {
        assert(is_col_name(p)) by {
            assert forall|i: int| 0 <= i < p.len() implies 'A' <= #[trigger] p[i] <= 'Z' by {
                assert(p[i] == s[i]);
            }
        }
        col_names_are_all_used(p);
        let m = col_index(p);
        let n = (m + 1) * 26 + d;
        assert(n >= 26);
        assert(n / 26 == m + 1 && n % 26 == d) by (nonlinear_arith)
            requires n == (m + 1) * 26 + d, 0 <= d < 26, m >= 0;
        assert(col_spec(n as nat) == col_spec(m as nat).push(letter(d as nat)));
        assert(col_spec(n as nat) =~= s);
    }
}


/// Whether `s` holds no newline.
pub open spec fn one_line(s: Seq<char>) -> bool {
    forall|i: int| 0 <= i < s.len() ==> #[trigger] s[i] != '\n'
}

/// Text without newlines joined to text without newlines has none.
pub proof fn lemma_one_line_concat(a: Seq<char>, b: Seq<char>)
    requires
        one_line(a),
        one_line(b),
    ensures
        one_line(a + b),
{
    assert forall|i: int| 0 <= i < (a + b).len() implies #[trigger] (a + b)[i] != '\n' by {
        if i < a.len() {
            assert((a + b)[i] == a[i]);
        } else {
            assert((a + b)[i] == b[i - a.len()]);
        }
    }
}

/// An escaped value holds no newline.
pub proof fn lemma_esc_one_line(s: Seq<char>)
    ensures
        one_line(esc_spec(s)),
{
    esc_keeps_one_line(s);
    assert forall|i: int| 0 <= i < esc_spec(s).len() implies #[trigger] esc_spec(s)[i] != '\n' by {
        let c = esc_spec(s)[i];
        assert(c != '\t' && c != '\n' && c != '\r');
    }
}

/// The decimal digit for `d < 10`.
pub open spec fn digit(d: nat) -> char {
    ((48 + d) as u8) as char
}

/// The decimal representation of `n`, without leading zeros.
pub open spec fn decimal(n: nat) -> Seq<char>
    decreases n,
{
    if n < 10 {
        seq![digit(n)]
    } else {
        decimal(n / 10).push(digit(n % 10))
    }
}

/// `n` in decimal, padded on the left with zeros to at least `width`
/// characters, as `format!("{n:0width$}")` renders it.
pub open spec fn padded(n: nat, width: nat) -> Seq<char> {
    let d = decimal(n);
    if d.len() < width {
        Seq::new((width - d.len()) as nat, |i: int| '0') + d
    } else {
        d
    }
}

/// Appends the decimal representation of `n` to `out`.
pub(crate) fn push_decimal(out: &mut Vec<char>, n: u128)
    ensures
        final(out)@ == old(out)@ + decimal(n as nat),
    decreases n,
{
    if n >= 10 {
        push_decimal(out, n / 10);
    }
    let d: u8 = (n % 10) as u8;
    out.push((48u8 + d) as char);
}

/// The decimal representation of `n`, as a vector.
pub(crate) fn decimal_vec(n: u128) -> (res: Vec<char>)
    ensures
        res@ == decimal(n as nat),
{
    let mut v: Vec<char> = Vec::new();
    push_decimal(&mut v, n);
    v
}

/// Appends `n` zero-padded to `width` characters to `out`.
pub(crate) fn push_padded(out: &mut Vec<char>, n: u128, width: usize)
    ensures
        final(out)@ == old(out)@ + padded(n as nat, width as nat),
{
    let d = decimal_vec(n);
    let ghost start = out@;
    let mut k: usize = d.len();
    while k < width
        invariant
            d@ == decimal(n as nat),
            d@.len() <= k <= width || (k == d@.len() && k >= width),
            out@ == start + Seq::new((k - d@.len()) as nat, |i: int| '0'),
        decreases width - k,
    {
        out.push('0');
        k = k + 1;
        assert(out@ =~= start + Seq::new((k - d@.len()) as nat, |i: int| '0'));
    }
    let ghost zeros = out@;
    push_all(out, d.as_slice());
    proof {
        if d@.len() >= width {
            assert(zeros =~= start);
            assert(out@ =~= start + d@);
        } else {
            assert(out@ =~= start + (Seq::new((width - d@.len()) as nat, |i: int| '0') + d@));
        }
    }
}

/// Decimal numbers are digits only: they hold no newline.
pub proof fn lemma_decimal_one_line(n: nat)
    ensures
        one_line(decimal(n)),
    decreases n,
{
    if n >= 10 {
        lemma_decimal_one_line(n / 10);
        let d = decimal(n / 10);
        assert forall|i: int| 0 <= i < decimal(n).len() implies #[trigger] decimal(n)[i] != '\n' by {
            if i < d.len() {
                assert(decimal(n)[i] == d[i]);
            } else {
                assert(digit(n % 10) as u32 >= 48);
            }
        }
    } else {
        assert(digit(n) as u32 >= 48);
    }
}

/// Padded numbers hold no newline either.
pub proof fn lemma_padded_one_line(n: nat, width: nat)
    ensures
        one_line(padded(n, width)),
{
    lemma_decimal_one_line(n);
    let d = decimal(n);
    if d.len() < width {
        let z = Seq::new((width - d.len()) as nat, |i: int| '0');
        assert(one_line(z));
        lemma_one_line_concat(z, d);
    }
}

/// Unicode `White_Space`, the set that `char::is_whitespace` and
/// `str::trim` use.
pub open spec fn is_space(c: char) -> bool {
    ||| ('\u{9}' <= c && c <= '\u{d}')
    ||| c == ' '
    ||| c == '\u{85}'
    ||| c == '\u{a0}'
    ||| c == '\u{1680}'
    ||| ('\u{2000}' <= c && c <= '\u{200a}')
    ||| c == '\u{2028}'
    ||| c == '\u{2029}'
    ||| c == '\u{202f}'
    ||| c == '\u{205f}'
    ||| c == '\u{3000}'
}

/// Whether `c` is Unicode white space.
pub fn is_whitespace(c: char) -> (res: bool)
    ensures
        res == is_space(c),
{
    ('\u{9}' <= c && c <= '\u{d}') || c == ' ' || c == '\u{85}' || c == '\u{a0}' || c
        == '\u{1680}' || ('\u{2000}' <= c && c <= '\u{200a}') || c == '\u{2028}' || c
        == '\u{2029}' || c == '\u{202f}' || c == '\u{205f}' || c == '\u{3000}'
}

/// `s` without its leading white space.
pub open spec fn trim_start(s: Seq<char>) -> Seq<char>
    decreases s.len(),
{
    if s.len() > 0 && is_space(s[0]) {
        trim_start(s.drop_first())
    } else {
        s
    }
}

/// `s` without its trailing white space.
pub open spec fn trim_end(s: Seq<char>) -> Seq<char>
    decreases s.len(),
{
    if s.len() > 0 && is_space(s.last()) {
        trim_end(s.drop_last())
    } else {
        s
    }
}

/// `s` without leading and trailing white space, as `str::trim` leaves it.
pub open spec fn trim(s: Seq<char>) -> Seq<char> {
    trim_end(trim_start(s))
}

proof fn lemma_trim_start_skip(s: Seq<char>, i: int)
    requires
        0 <= i <= s.len(),
        forall|j: int| 0 <= j < i ==> is_space(#[trigger] s[j]),
    ensures
        trim_start(s) == trim_start(s.skip(i)),
    decreases i,
{
    if i > 0 {
        assert(s.skip(1) =~= s.drop_first());
        assert forall|j: int| 0 <= j < i - 1 implies is_space(#[trigger] s.skip(1)[j]) by {
            assert(s.skip(1)[j] == s[j + 1]);
        }
        lemma_trim_start_skip(s.skip(1), i - 1);
        assert(s.skip(1).skip(i - 1) =~= s.skip(i));
    } else {
        assert(s.skip(0) =~= s);
    }
}

proof fn lemma_trim_end_take(s: Seq<char>, k: int)
    requires
        0 <= k <= s.len(),
        forall|j: int| k <= j < s.len() ==> is_space(#[trigger] s[j]),
    ensures
        trim_end(s) == trim_end(s.take(k)),
    decreases s.len() - k,
{
    if k < s.len() {
        assert(s.drop_last() =~= s.take(s.len() - 1));
        assert forall|j: int| k <= j < s.drop_last().len() implies is_space(
            #[trigger] s.drop_last()[j],
        ) by {
            assert(s.drop_last()[j] == s[j]);
        }
        lemma_trim_end_take(s.drop_last(), k);
        assert(s.drop_last().take(k) =~= s.take(k));
    } else {
        assert(s.take(k) =~= s);
    }
}

/// The characters of `s` without leading and trailing white space.
pub(crate) fn trimmed(s: &[char]) -> (res: Vec<char>)
    ensures
        res@ == trim(s@),
{
    let mut a: usize = 0;
    while a < s.len() && is_whitespace(s[a])
        invariant
            a <= s@.len(),
            forall|j: int| 0 <= j < a ==> is_space(#[trigger] s@[j]),
        decreases s@.len() - a,
    {
        a = a + 1;
    }
    proof {
        lemma_trim_start_skip(s@, a as int);
    }
    let mut b: usize = s.len();
    while b > a && is_whitespace(s[b - 1])
        invariant
            a <= b <= s@.len(),
            forall|j: int| b <= j < s@.len() ==> is_space(#[trigger] s@[j]),
        decreases b,
    {
        b = b - 1;
    }
    let ghost rest = s@.skip(a as int);
    proof {
        if a < s@.len() {
            assert(!is_space(rest[0]));
            assert(trim_start(rest) == rest);
        } else {
            assert(rest.len() == 0);
        }
        assert forall|j: int| b - a <= j < rest.len() implies is_space(#[trigger] rest[j]) by {
            assert(rest[j] == s@[j + a]);
        }
        lemma_trim_end_take(rest, b - a);
        let t = rest.take(b - a);
        if b > a {
            assert(t.last() == s@[b - 1]);
        }
        assert(trim_end(t) == t);
    }
    let mut res: Vec<char> = Vec::new();
    let mut i: usize = a;
    while i < b
        invariant
            a <= i <= b <= s@.len(),
            res@ == s@.subrange(a as int, i as int),
        decreases b - i,
    {
        res.push(s[i]);
        i = i + 1;
        assert(res@ =~= s@.subrange(a as int, i as int));
    }
    assert(res@ =~= rest.take(b - a));
    res
}

} // verus!
