//! Character-level building blocks shared by the string-processing modules.

use vstd::prelude::*;

verus! {

/// The characters of `s` with every `'` doubled, as SQL string literals need.
pub open spec fn spec_sql_escape(s: Seq<char>) -> Seq<char>
    decreases s.len(),
{
    if s.len() == 0 {
        Seq::empty()
    } else {
        let rest = spec_sql_escape(s.drop_last());
        if s.last() == '\'' {
            rest + seq!['\'', '\'']
        } else {
            rest.push(s.last())
        }
    }
}

/// How SQL reads the body of a single-quoted literal, from the left: a doubled quote is
/// one quote, any other character is itself; `None` when a lone quote would end the
/// literal before the text does.
pub open spec fn sql_literal_read(t: Seq<char>) -> Option<Seq<char>>
    decreases t.len(),
{
    if t.len() == 0 {
        Some(Seq::empty())
    } else if t[0] == '\'' {
        if t.len() >= 2 && t[1] == '\'' {
            match sql_literal_read(t.subrange(2, t.len() as int)) {
                Some(r) => Some(seq!['\''] + r),
                None => None,
            }
        } else {
            None
        }
    } else {
        match sql_literal_read(t.subrange(1, t.len() as int)) {
            Some(r) => Some(seq![t[0]] + r),
            None => None,
        }
    }
}

proof fn lemma_escape_concat(a: Seq<char>, b: Seq<char>)
    ensures
        spec_sql_escape(a + b) == spec_sql_escape(a) + spec_sql_escape(b),
    decreases b.len(),
{
    if b.len() == 0 {
        assert(a + b =~= a);
    } else {
        assert((a + b).drop_last() =~= a + b.drop_last());
        assert((a + b).last() == b.last());
        lemma_escape_concat(a, b.drop_last());
    }
}

/// Escaping is safe and loses nothing: SQL reads an escaped text inside quotes as the
/// text itself, and no quote in it ends the literal early.
pub proof fn law_sql_escape_reads_back(s: Seq<char>)
    ensures
        sql_literal_read(spec_sql_escape(s)) == Some(s),
    decreases s.len(),
{
    if s.len() > 0 {
        let first = s.subrange(0, 1);
        let rest = s.subrange(1, s.len() as int);
        assert(s =~= first + rest);
        lemma_escape_concat(first, rest);
        law_sql_escape_reads_back(rest);
        assert(first.drop_last() =~= Seq::<char>::empty());
        assert(spec_sql_escape(first.drop_last()) == Seq::<char>::empty());
        assert(first.last() == s[0]);
        let e = spec_sql_escape(s);
        if s[0] == '\'' {
            assert(spec_sql_escape(first) =~= seq!['\'', '\'']);
            assert(e.subrange(2, e.len() as int) =~= spec_sql_escape(rest));
            assert(seq!['\''] + rest =~= s);
        } else {
            assert(spec_sql_escape(first) =~= seq![s[0]]);
            assert(e.subrange(1, e.len() as int) =~= spec_sql_escape(rest));
            assert(seq![s[0]] + rest =~= s);
        }
    }
}

/// Whether `char::is_uppercase` holds of a non-ASCII character (Unicode `Uppercase`).
pub uninterp spec fn non_ascii_is_upper(c: char) -> bool;

/// Whether `char::is_lowercase` holds of a non-ASCII character (Unicode `Lowercase`).
pub uninterp spec fn non_ascii_is_lower(c: char) -> bool;

/// Whether `char::is_alphanumeric` holds of a non-ASCII character.
pub uninterp spec fn non_ascii_is_alnum(c: char) -> bool;

/// An ASCII letter `A` to `Z`.
pub open spec fn ascii_upper(c: char) -> bool {
    'A' <= c && c <= 'Z'
}

/// The lowercase of an ASCII character (`A` to `Z` to `a` to `z`, others unchanged).
pub open spec fn ascii_lowercase(c: char) -> char {
    if ascii_upper(c) { ((c as u32) + 32) as char } else { c }
}

/// An ASCII letter `a` to `z`.
pub open spec fn ascii_lower(c: char) -> bool {
    'a' <= c && c <= 'z'
}

/// Whether `char::is_uppercase` holds of a character: among ASCII characters exactly
/// `A` to `Z`; beyond ASCII, the Unicode `Uppercase` property.
pub open spec fn char_is_upper(c: char) -> bool {
    if c <= '\x7f' { ascii_upper(c) } else { non_ascii_is_upper(c) }
}

/// Whether `char::is_lowercase` holds of a character: among ASCII characters exactly
/// `a` to `z`; beyond ASCII, the Unicode `Lowercase` property.
pub open spec fn char_is_lower(c: char) -> bool {
    if c <= '\x7f' { ascii_lower(c) } else { non_ascii_is_lower(c) }
}

/// Whether `char::is_alphanumeric` holds of a character: among ASCII characters exactly
/// the letters and digits; beyond ASCII, Unicode `Alphabetic` or `Numeric`.
pub open spec fn char_is_alnum(c: char) -> bool {
    if c <= '\x7f' { ascii_upper(c) || ascii_lower(c) || ('0' <= c && c <= '9') } else { non_ascii_is_alnum(c) }
}

/// Whether `char::is_whitespace` holds of a non-ASCII character (Unicode `White_Space`).
pub uninterp spec fn non_ascii_is_space(c: char) -> bool;

/// Whether `char::is_whitespace` holds of a character: among ASCII characters, the space
/// and tab through carriage return; beyond ASCII, the Unicode `White_Space` property.
pub open spec fn char_is_space(c: char) -> bool {
    if c <= '\x7f' { c == ' ' || ('\t' <= c && c <= '\r') } else { non_ascii_is_space(c) }
}

/// The first character of the Unicode lowercase mapping of a non-ASCII character
/// (`c.to_lowercase().next()`), which always exists.
pub uninterp spec fn non_ascii_lower_first(c: char) -> char;

/// The first character of the lowercase mapping of a character: among ASCII characters,
/// `A` to `Z` become `a` to `z` and the others stay; beyond ASCII, the Unicode mapping.
pub open spec fn char_lower_first(c: char) -> char {
    if c <= '\x7f' {
        if ascii_upper(c) { ((c as u32) + 32) as char } else { c }
    } else {
        non_ascii_lower_first(c)
    }
}

/// `char::is_uppercase`: `A` to `Z` among ASCII characters, the Unicode `Uppercase`
/// property beyond.
#[verifier::external_body]
pub(crate) fn is_upper(c: char) -> (b: bool)
    ensures
        b == char_is_upper(c),
        c > '\x7f' ==> b == non_ascii_is_upper(c),
{
    c.is_uppercase()
}

/// `char::is_lowercase`: `a` to `z` among ASCII characters, the Unicode `Lowercase`
/// property beyond.
#[verifier::external_body]
pub(crate) fn is_lower(c: char) -> (b: bool)
    ensures
        b == char_is_lower(c),
        c > '\x7f' ==> b == non_ascii_is_lower(c),
{
    c.is_lowercase()
}

/// `char::is_alphanumeric`: letters and digits among ASCII characters, Unicode
/// `Alphabetic` or `Numeric` beyond.
#[verifier::external_body]
pub(crate) fn is_alnum(c: char) -> (b: bool)
    ensures
        b == char_is_alnum(c),
        c > '\x7f' ==> b == non_ascii_is_alnum(c),
{
    c.is_alphanumeric()
}

/// `char::is_whitespace`: the Unicode `White_Space` property, which among ASCII
/// characters holds exactly of the space and of tab through carriage return.
#[verifier::external_body]
pub(crate) fn is_space(c: char) -> (b: bool)
    ensures
        b == char_is_space(c),
        c > '\x7f' ==> b == non_ascii_is_space(c),
{
    c.is_whitespace()
}

/// `char::to_lowercase`, first character of the mapping (the mapping is never empty;
/// `c` itself stands in should it be): `A` to `Z` become `a` to `z`, other ASCII
/// characters stay, and beyond ASCII the Unicode mapping applies.
#[verifier::external_body]
pub(crate) fn lower_first(c: char) -> (l: char)
    ensures
        l == char_lower_first(c),
        c > '\x7f' ==> l == non_ascii_lower_first(c),
{
    c.to_lowercase().next().unwrap_or(c)
}

/// The decimal digit character for `d < 10`.
pub open spec fn digit_char(d: nat) -> char {
    if d == 0 { '0' } else if d == 1 { '1' } else if d == 2 { '2' } else if d == 3 { '3' }
    else if d == 4 { '4' } else if d == 5 { '5' } else if d == 6 { '6' } else if d == 7 { '7' }
    else if d == 8 { '8' } else { '9' }
}

/// The decimal rendering of a natural number, without leading zeros.
pub open spec fn decimal(n: nat) -> Seq<char>
    decreases n,
{
    if n < 10 {
        seq![digit_char(n)]
    } else {
        decimal(n / 10).push(digit_char(n % 10))
    }
}

/// Decimal renderings are never empty, and have more than one digit from 10 on.
pub(crate) proof fn lemma_decimal_len(n: nat)
    ensures
        decimal(n).len() >= 1,
        n >= 10 ==> decimal(n).len() >= 2,
    decreases n,
{
    if n >= 10 {
        lemma_decimal_len(n / 10);
    }
}

/// Different numbers have different decimal renderings.
pub(crate) proof fn lemma_decimal_injective(a: nat, b: nat)
    requires
        decimal(a) == decimal(b),
    ensures
        a == b,
    decreases a,
{
    lemma_decimal_len(a);
    lemma_decimal_len(b);
    if a < 10 {
        assert(b < 10);
        assert(decimal(a) == seq![digit_char(a)]);
        assert(decimal(b) == seq![digit_char(b)]);
        assert(decimal(a)[0] == digit_char(a));
        assert(decimal(b)[0] == digit_char(b));
        assert(decimal(a)[0] == decimal(b)[0]);
    } else {
        assert(b >= 10);
        assert(decimal(a).drop_last() =~= decimal(a / 10));
        assert(decimal(b).drop_last() =~= decimal(b / 10));
        assert(decimal(a) == decimal(a / 10).push(digit_char(a % 10)));
        assert(decimal(b) == decimal(b / 10).push(digit_char(b % 10)));
        assert(decimal(a).last() == digit_char(a % 10));
        assert(decimal(b).last() == digit_char(b % 10));
        assert(decimal(a).last() == decimal(b).last());
        lemma_decimal_injective(a / 10, b / 10);
        let (qa, ra, qb, rb) = (a / 10, a % 10, b / 10, b % 10);
        assert(ra == rb);
        assert(a == qa * 10 + ra && b == qb * 10 + rb) by (nonlinear_arith)
            requires qa == a / 10, ra == a % 10, qb == b / 10, rb == b % 10;
    }
}

/// The decimal rendering of an integer, with a leading `-` when negative.
pub open spec fn signed_decimal(n: int) -> Seq<char> {
    if n < 0 { seq!['-'] + decimal((-n) as nat) } else { decimal(n as nat) }
}

fn digit(d: u64) -> (c: char)
    requires
        d < 10,
    ensures
        c == digit_char(d as nat),
{
    if d == 0 { '0' } else if d == 1 { '1' } else if d == 2 { '2' } else if d == 3 { '3' }
    else if d == 4 { '4' } else if d == 5 { '5' } else if d == 6 { '6' } else if d == 7 { '7' }
    else if d == 8 { '8' } else { '9' }
}

/// Appends the decimal rendering of `n`.
pub fn push_decimal(s: &mut String, n: u128)
    ensures
        final(s)@ == old(s)@ + decimal(n as nat),
    decreases n,
{
    if n >= 10 {
        push_decimal(s, n / 10);
    }
    push_char(s, digit((n % 10) as u64));
    assert(decimal(n as nat) == (if n < 10 { seq![digit_char(n as nat)] } else { decimal((n / 10) as nat).push(digit_char((n % 10) as nat)) }));
}

/// Appends the decimal rendering of `n`, with a leading `-` when negative.
pub fn push_signed_decimal(s: &mut String, n: i64)
    ensures
        final(s)@ == old(s)@ + signed_decimal(n as int),
{
    if n < 0 {
        push_char(s, '-');
        let m: u64 = if n == i64::MIN { 9223372036854775808u64 } else { (-n) as u64 };
        push_decimal(s, m as u128);
    } else {
        push_decimal(s, n as u128);
    }
}

/// `String::push`: appends one character.
#[verifier::external_body]
pub(crate) fn push_char(s: &mut String, c: char)
    ensures
        final(s)@ == old(s)@.push(c),
{
    s.push(c);
}

/// The characters of a string slice, in order.
pub fn chars_of(s: &str) -> (out: Vec<char>)
    ensures
        out@ == s@,
{
    let mut out: Vec<char> = Vec::new();
    for c in it: s.chars()
        invariant
            out@ == it.seq().take(it.index() as int),
    {
        out.push(c);
    }
    out
}

/// Append a string.
pub(crate) fn push_str(out: &mut String, s: &str)
    ensures
        final(out)@ == old(out)@ + s@,
{
    let cs = chars_of(s);
    let mut i: usize = 0;
    while i < cs.len()
        invariant
            i <= cs@.len(),
            cs@ == s@,
            out@ == old(out)@ + cs@.take(i as int),
        decreases cs@.len() - i,
    {
        assert(cs@.take(i + 1) == cs@.take(i as int).push(cs@[i as int]));
        push_char(out, cs[i]);
        i = i + 1;
    }
    assert(cs@.take(cs@.len() as int) == cs@);
}

/// Escape a string for use inside a single-quoted SQL literal.
pub fn sql_escape(s: &str) -> (out: String)
    ensures
        out@ == spec_sql_escape(s@),
{
    let cs = chars_of(s);
    let mut out = String::new();
    let mut i: usize = 0;
    while i < cs.len()
        invariant
            i <= cs@.len(),
            cs@ == s@,
            out@ == spec_sql_escape(cs@.take(i as int)),
        decreases cs@.len() - i,
    {
        let c = cs[i];
        assert(cs@.take(i + 1).drop_last() == cs@.take(i as int));
        if c == '\'' {
            push_char(&mut out, '\'');
            push_char(&mut out, '\'');
        } else {
            push_char(&mut out, c);
        }
        i = i + 1;
    }
    assert(cs@.take(cs@.len() as int) == cs@);
    out
}

/// Whether two string slices hold the same characters.
pub fn str_is(s: &str, t: &str) -> (b: bool)
    ensures
        b == (s@ == t@),
{
    let a = chars_of(s);
    let c = chars_of(t);
    if a.len() != c.len() {
        return false;
    }
    let mut i: usize = 0;
    while i < a.len()
        invariant
            a@.len() == c@.len(),
            a@ == s@,
            c@ == t@,
            i <= a@.len(),
            forall|k: int| 0 <= k < i ==> a@[k] == c@[k],
        decreases a@.len() - i,
    {
        if a[i] != c[i] {
            assert(a@[i as int] != c@[i as int]);
            assert(s@ != t@);
            return false;
        }
        i = i + 1;
    }
    assert(a@ =~= c@);
    true
}

} // verus!
