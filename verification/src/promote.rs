//! Type promotion of CSV columns: which text values read as integers, decimals or
//! dates, and the type a column is promoted to from how many of its values do.

use vstd::prelude::*;
use crate::text::chars_of;

verus! {

pub open spec fn is_digit(c: char) -> bool {
    '0' <= c <= '9'
}

/// The length of the run of digits of `s` that starts at `i`.
pub open spec fn digit_run(s: Seq<char>, i: int) -> int
    decreases s.len() - i,
{
    if 0 <= i < s.len() && is_digit(s[i]) {
        1 + digit_run(s, i + 1)
    } else {
        0
    }
}

/// Whether `s[i..j]` are all digits.
pub open spec fn digits_between(s: Seq<char>, i: int, j: int) -> bool {
    0 <= i <= j <= s.len() && forall|k: int| i <= k < j ==> is_digit(#[trigger] s[k])
}

/// `-?[0-9]+`, the whole text.
pub open spec fn integer_text(s: Seq<char>) -> bool {
    let a: int = if s.len() > 0 && s[0] == '-' { 1 } else { 0 };
    a < s.len() && digits_between(s, a, s.len() as int)
}

/// `-?[0-9]+(\.[0-9]+)?([eE][+-]?[0-9]+)?`, the whole text.
pub open spec fn float_text(s: Seq<char>) -> bool {
    let a: int = if s.len() > 0 && s[0] == '-' { 1 } else { 0 };
    let i = a + digit_run(s, a);
    let frac_ok = !(i < s.len() && s[i] == '.') || digit_run(s, i + 1) > 0;
    let j = if i < s.len() && s[i] == '.' { i + 1 + digit_run(s, i + 1) } else { i };
    let k: int = if j + 1 < s.len() && (s[j + 1] == '+' || s[j + 1] == '-') { j + 2 } else { j + 1 };
    &&& digit_run(s, a) > 0
    &&& frac_ok
    &&& (j == s.len() || ((s[j] == 'e' || s[j] == 'E') && digit_run(s, k) > 0 && k + digit_run(s, k) == s.len()))
}

/// Whether the text holds a `.`, `e` or `E` anywhere.
pub open spec fn has_decimal_mark(s: Seq<char>) -> bool {
    exists|k: int| 0 <= k < s.len() && (s[k] == '.' || s[k] == 'e' || s[k] == 'E')
}

/// `[0-9]{4}-[0-9]{2}-[0-9]{2}`, the whole text.
pub open spec fn iso_date_text(s: Seq<char>) -> bool {
    &&& s.len() == 10
    &&& digits_between(s, 0, 4)
    &&& s[4] == '-'
    &&& digits_between(s, 5, 7)
    &&& s[7] == '-'
    &&& digits_between(s, 8, 10)
}

/// `[0-9]{a}/[0-9]{b}/[0-9]{4}` for given field widths.
pub open spec fn slash_date_with(s: Seq<char>, a: int, b: int) -> bool {
    &&& s.len() == a + b + 6
    &&& digits_between(s, 0, a)
    &&& s[a] == '/'
    &&& digits_between(s, a + 1, a + 1 + b)
    &&& s[a + 1 + b] == '/'
    &&& digits_between(s, a + b + 2, s.len() as int)
}

/// `[0-9]{1,2}/[0-9]{1,2}/[0-9]{4}`, the whole text.
pub open spec fn slash_date_text(s: Seq<char>) -> bool {
    slash_date_with(s, 1, 1) || slash_date_with(s, 1, 2) || slash_date_with(s, 2, 1) || slash_date_with(s, 2, 2)
}

pub open spec fn date_text(s: Seq<char>) -> bool {
    slash_date_text(s) || iso_date_text(s)
}

fn is_digit_char(c: char) -> (b: bool)
    ensures
        b == is_digit(c),
{
    '0' <= c && c <= '9'
}

proof fn lemma_digit_run_bounds(s: Seq<char>, i: int)
    requires
        0 <= i <= s.len(),
    ensures
        0 <= digit_run(s, i) <= s.len() - i,
        digits_between(s, i, i + digit_run(s, i)),
        i + digit_run(s, i) < s.len() ==> !is_digit(s[i + digit_run(s, i)]),
    decreases s.len() - i,
{
    if i < s.len() && is_digit(s[i]) {
        lemma_digit_run_bounds(s, i + 1);
    }
}

/// The digit run of `cs` from `i`.
fn run_of_digits(cs: &Vec<char>, i: usize) -> (n: usize)
    requires
        i <= cs@.len(),
    ensures
        n == digit_run(cs@, i as int),
        i + n <= cs@.len(),
{
    proof {
        lemma_digit_run_bounds(cs@, i as int);
    }
    let mut j: usize = i;
    while j < cs.len() && is_digit_char(cs[j])
        invariant
            i <= j <= cs@.len(),
            digit_run(cs@, i as int) == (j - i) + digit_run(cs@, j as int),
        decreases cs@.len() - j,
    {
        j = j + 1;
    }
    j - i
}

proof fn lemma_digits_between_run(s: Seq<char>, i: int)
    requires
        0 <= i <= s.len(),
    ensures
        digits_between(s, i, s.len() as int) <==> i + digit_run(s, i) == s.len(),
{
    lemma_digit_run_bounds(s, i);
    if digits_between(s, i, s.len() as int) && i + digit_run(s, i) < s.len() {
        assert(is_digit(s[i + digit_run(s, i)]));
    }
}

/// Whether the text reads as an integer.
pub fn is_integer_text(s: &str) -> (b: bool)
    ensures
        b == integer_text(s@),
{
    let cs = chars_of(s);
    let a: usize = if cs.len() > 0 && cs[0] == '-' { 1 } else { 0 };
    if a >= cs.len() {
        return false;
    }
    proof {
        lemma_digits_between_run(cs@, a as int);
    }
    let n = run_of_digits(&cs, a);
    a + n == cs.len()
}

/// Whether the text reads as a decimal number (integers included).
pub fn is_float_text(s: &str) -> (b: bool)
    ensures
        b == float_text(s@),
{
    let cs = chars_of(s);
    let len = cs.len();
    let a: usize = if len > 0 && cs[0] == '-' { 1 } else { 0 };
    proof {
        lemma_digit_run_bounds(cs@, a as int);
    }
    let int_digits = run_of_digits(&cs, a);
    if int_digits == 0 {
        return false;
    }
    let i = a + int_digits;
    let mut j = i;
    if i < len && cs[i] == '.' {
        proof {
            lemma_digit_run_bounds(cs@, i + 1);
        }
        let frac = run_of_digits(&cs, i + 1);
        if frac == 0 {
            return false;
        }
        j = i + 1 + frac;
    }
    if j == len {
        return true;
    }
    if !(cs[j] == 'e' || cs[j] == 'E') {
        return false;
    }
    let k: usize = if j + 1 < len && (cs[j + 1] == '+' || cs[j + 1] == '-') { j + 2 } else { j + 1 };
    proof {
        lemma_digit_run_bounds(cs@, k as int);
    }
    let e = run_of_digits(&cs, k);
    e > 0 && k + e == len
}

/// Whether the text holds a decimal point or an exponent mark.
pub fn has_decimal_mark_text(s: &str) -> (b: bool)
    ensures
        b == has_decimal_mark(s@),
{
    let cs = chars_of(s);
    let mut i: usize = 0;
    while i < cs.len()
        invariant
            i <= cs@.len(),
            cs@ == s@,
            forall|k: int| 0 <= k < i ==> !(cs@[k] == '.' || cs@[k] == 'e' || cs@[k] == 'E'),
        decreases cs@.len() - i,
    {
        let c = cs[i];
        if c == '.' || c == 'e' || c == 'E' {
            return true;
        }
        i = i + 1;
    }
    false
}

fn digits_in(cs: &Vec<char>, i: usize, j: usize) -> (b: bool)
    requires
        i <= j <= cs@.len(),
    ensures
        b == digits_between(cs@, i as int, j as int),
{
    let mut k = i;
    while k < j
        invariant
            i <= k <= j,
            j <= cs@.len(),
            forall|m: int| i <= m < k ==> is_digit(#[trigger] cs@[m]),
        decreases j - k,
    {
        if !is_digit_char(cs[k]) {
            return false;
        }
        k = k + 1;
    }
    true
}

fn slash_date_fits(cs: &Vec<char>, a: usize, b: usize) -> (r: bool)
    requires
        1 <= a <= 2,
        1 <= b <= 2,
    ensures
        r == slash_date_with(cs@, a as int, b as int),
{
    let len = cs.len();
    if len != a + b + 6 {
        return false;
    }
    digits_in(cs, 0, a) && cs[a] == '/' && digits_in(cs, a + 1, a + 1 + b) && cs[a + 1 + b] == '/'
        && digits_in(cs, a + b + 2, len)
}

/// Whether the text reads as a date, `M/D/YYYY` (one or two digits for month and day)
/// or `YYYY-MM-DD`.
pub fn is_date_text(s: &str) -> (b: bool)
    ensures
        b == date_text(s@),
{
    let cs = chars_of(s);
    if slash_date_fits(&cs, 1, 1) || slash_date_fits(&cs, 1, 2) || slash_date_fits(&cs, 2, 1)
        || slash_date_fits(&cs, 2, 2) {
        return true;
    }
    cs.len() == 10 && digits_in(&cs, 0, 4) && cs[4] == '-' && digits_in(&cs, 5, 7) && cs[7] == '-'
        && digits_in(&cs, 8, 10)
}

/// How the value patterns relate: every integer reads as a float; a float without a
/// decimal point or exponent is an integer; no date reads as an integer or a float; and
/// an integer holds no decimal mark.
pub proof fn law_value_patterns(s: Seq<char>)
    ensures
        integer_text(s) ==> float_text(s),
        float_text(s) && !has_decimal_mark(s) ==> integer_text(s),
        date_text(s) ==> !integer_text(s) && !float_text(s),
        integer_text(s) ==> !has_decimal_mark(s),
{
    let a: int = if s.len() > 0 && s[0] == '-' { 1 } else { 0 };
    if s.len() > 0 {
        lemma_digit_run_bounds(s, a);
        lemma_digits_between_run(s, a);
    }
    if integer_text(s) {
        assert(a + digit_run(s, a) == s.len());
        assert(digit_run(s, a) > 0);
        if has_decimal_mark(s) {
            let k = choose|k: int| 0 <= k < s.len() && (s[k] == '.' || s[k] == 'e' || s[k] == 'E');
            if k == 0 && a == 1 {
            } else {
                assert(is_digit(s[k]));
            }
        }
    }
    if float_text(s) && !has_decimal_mark(s) {
        let i = a + digit_run(s, a);
        if i < s.len() {
            assert(!(s[i] == '.'));
            assert(!(s[i] == 'e' || s[i] == 'E'));
        }
    }
    if date_text(s) {
        if iso_date_text(s) {
            assert(is_digit(s[0]));
            assert(digits_between(s, 0, 4));
            assert(is_digit(s[1]) && is_digit(s[2]) && is_digit(s[3]));
            assert(!is_digit(s[4]));
            assert(a == 0);
            lemma_digit_run_bounds(s, 1);
            lemma_digit_run_bounds(s, 2);
            lemma_digit_run_bounds(s, 3);
            lemma_digit_run_bounds(s, 4);
            assert(digit_run(s, 4) == 0);
            assert(digit_run(s, 0) == 4);
        } else {
            let w: int = if slash_date_with(s, 1, 1) || slash_date_with(s, 1, 2) { 1 } else { 2 };
            assert(s[w] == '/');
            assert(is_digit(s[0]));
            assert(a == 0);
            lemma_digit_run_bounds(s, 1);
            lemma_digit_run_bounds(s, 2);
            if w == 2 {
                assert(is_digit(s[1]));
            }
            assert(digit_run(s, w) == 0);
            assert(digit_run(s, 0) == w);
        }
    }
}

/// The type a column ends up with.
#[derive(Clone, Copy, Debug, PartialEq, Eq, Structural)]
pub enum ColumnType {
    Text,
    BigInt,
    DoublePrecision,
    Date,
}

/// The counts that decide a column's type. `non_empty` counts the values that are
/// neither NULL nor empty; the other type counts are among those.
#[derive(Clone, Copy, Debug, PartialEq, Eq, Structural)]
pub struct ColumnCounts {
    pub nil: i64,
    pub empty: i64,
    pub unique: i64,
    pub non_empty: i64,
    pub integer: i64,
    pub float: i64,
    pub decimal: i64,
    pub date: i64,
}

/// The promotion: the first of integer, decimal and date that some value reads as.
/// A decimal column needs at least one value with a decimal point or exponent. The
/// column keeps its raw text beside the typed column when not every value converts.
/// A column with no non-empty value, or none of a type, stays text.
pub open spec fn promotion(c: ColumnCounts) -> (ColumnType, bool) {
    if c.non_empty == 0 {
        (ColumnType::Text, false)
    } else if c.integer != 0 {
        (ColumnType::BigInt, c.integer != c.non_empty)
    } else if c.float != 0 && c.decimal != 0 {
        (ColumnType::DoublePrecision, c.float != c.non_empty)
    } else if c.date != 0 {
        (ColumnType::Date, c.date != c.non_empty)
    } else {
        (ColumnType::Text, false)
    }
}

/// The statistics recorded for a column.
#[derive(Clone, Debug)]
pub struct ColumnStats {
    pub name: String,
    pub original_name: String,
    pub position: i32,
    pub data_type: ColumnType,
    pub has_raw: bool,
    pub nil_count: i64,
    pub empty_count: i64,
    pub unique_count: i64,
    /// The smallest and largest value, as text, once the column's table is typed.
    pub min_val: Option<String>,
    pub max_val: Option<String>,
}

/// Decide a column's type from its counts. The minimum and maximum are read from the
/// typed table afterwards, so they start unknown.
pub fn promote_single_column(name: &str, original_name: &str, position: i32, c: ColumnCounts) -> (st: ColumnStats)
    ensures
        (st.data_type, st.has_raw) == promotion(c),
        st.name@ == name@,
        st.original_name@ == original_name@,
        st.position == position,
        st.nil_count == c.nil,
        st.empty_count == c.empty,
        st.unique_count == c.unique,
        st.min_val is None,
        st.max_val is None,
{
    let (data_type, has_raw) = if c.non_empty == 0 {
        (ColumnType::Text, false)
    } else if c.integer != 0 {
        (ColumnType::BigInt, c.integer != c.non_empty)
    } else if c.float != 0 && c.decimal != 0 {
        (ColumnType::DoublePrecision, c.float != c.non_empty)
    } else if c.date != 0 {
        (ColumnType::Date, c.date != c.non_empty)
    } else {
        (ColumnType::Text, false)
    };
    ColumnStats {
        name: name.to_string(),
        original_name: original_name.to_string(),
        position,
        data_type,
        has_raw,
        nil_count: c.nil,
        empty_count: c.empty,
        unique_count: c.unique,
        min_val: None,
        max_val: None,
    }
}

/// How many of the first `n` values satisfy `p`; a value is `None` for NULL.
pub open spec fn count_values(vals: Seq<Option<Seq<char>>>, n: int, p: spec_fn(Option<Seq<char>>) -> bool) -> int
    decreases n,
{
    if n <= 0 {
        0
    } else {
        count_values(vals, n - 1, p) + (if p(vals[n - 1]) { 1int } else { 0int })
    }
}

pub open spec fn value_views(vals: Seq<Option<String>>) -> Seq<Option<Seq<char>>> {
    vals.map_values(|v: Option<String>| match v {
        Some(s) => Some(s@),
        None => None,
    })
}

pub open spec fn non_empty_with(p: spec_fn(Seq<char>) -> bool) -> spec_fn(Option<Seq<char>>) -> bool {
    |v: Option<Seq<char>>| v matches Some(s) && s.len() > 0 && p(s)
}

pub open spec fn any_text() -> spec_fn(Seq<char>) -> bool {
    |s: Seq<char>| true
}

pub open spec fn is_nil() -> spec_fn(Option<Seq<char>>) -> bool {
    |v: Option<Seq<char>>| v is None
}

pub open spec fn is_empty_text() -> spec_fn(Option<Seq<char>>) -> bool {
    |v: Option<Seq<char>>| v matches Some(s) && s.len() == 0
}

pub open spec fn integer_pred() -> spec_fn(Seq<char>) -> bool {
    |s: Seq<char>| integer_text(s)
}

pub open spec fn float_pred() -> spec_fn(Seq<char>) -> bool {
    |s: Seq<char>| float_text(s)
}

pub open spec fn decimal_pred() -> spec_fn(Seq<char>) -> bool {
    |s: Seq<char>| has_decimal_mark(s)
}

pub open spec fn date_pred() -> spec_fn(Seq<char>) -> bool {
    |s: Seq<char>| date_text(s)
}

proof fn lemma_count_bound(vals: Seq<Option<Seq<char>>>, n: int, p: spec_fn(Option<Seq<char>>) -> bool)
    requires
        0 <= n,
    ensures
        0 <= count_values(vals, n, p) <= n,
    decreases n,
{
    if n > 0 {
        lemma_count_bound(vals, n - 1, p);
    }
}

/// The counts of a column's values (the distinct count is given): NULLs, empty texts,
/// and the non-empty values overall and by what they read as.
pub fn column_counts(values: &[Option<String>], unique: i64) -> (c: ColumnCounts)
    requires
        values@.len() <= i64::MAX,
    ensures
        ({
            let vs = value_views(values@);
            let n = vs.len() as int;
            &&& c.nil == count_values(vs, n, is_nil())
            &&& c.empty == count_values(vs, n, is_empty_text())
            &&& c.unique == unique
            &&& c.non_empty == count_values(vs, n, non_empty_with(any_text()))
            &&& c.integer == count_values(vs, n, non_empty_with(integer_pred()))
            &&& c.float == count_values(vs, n, non_empty_with(float_pred()))
            &&& c.decimal == count_values(vs, n, non_empty_with(decimal_pred()))
            &&& c.date == count_values(vs, n, non_empty_with(date_pred()))
        }),
        c == counts_of(value_views(values@), unique),
{
    let ghost vs = value_views(values@);
    let mut c = ColumnCounts { nil: 0, empty: 0, unique, non_empty: 0, integer: 0, float: 0, decimal: 0, date: 0 };
    let mut i: usize = 0;
    while i < values.len()
        invariant
            i <= values@.len(),
            values@.len() <= i64::MAX,
            vs == value_views(values@),
            vs.len() == values@.len(),
            c.unique == unique,
            c.nil == count_values(vs, i as int, is_nil()),
            c.empty == count_values(vs, i as int, is_empty_text()),
            c.non_empty == count_values(vs, i as int, non_empty_with(any_text())),
            c.integer == count_values(vs, i as int, non_empty_with(integer_pred())),
            c.float == count_values(vs, i as int, non_empty_with(float_pred())),
            c.decimal == count_values(vs, i as int, non_empty_with(decimal_pred())),
            c.date == count_values(vs, i as int, non_empty_with(date_pred())),
        decreases values@.len() - i,
    {
        proof {
            lemma_count_bound(vs, i as int, is_nil());
            lemma_count_bound(vs, i as int, is_empty_text());
            lemma_count_bound(vs, i as int, non_empty_with(any_text()));
            lemma_count_bound(vs, i as int, non_empty_with(integer_pred()));
            lemma_count_bound(vs, i as int, non_empty_with(float_pred()));
            lemma_count_bound(vs, i as int, non_empty_with(decimal_pred()));
            lemma_count_bound(vs, i as int, non_empty_with(date_pred()));
        }
        match &values[i] {
            None => {
                c.nil = c.nil + 1;
            },
            Some(s) => {
                let t = s.as_str();
                let len = chars_of(t).len();
                if len == 0 {
                    c.empty = c.empty + 1;
                } else {
                    c.non_empty = c.non_empty + 1;
                    if is_integer_text(t) {
                        c.integer = c.integer + 1;
                    }
                    if is_float_text(t) {
                        c.float = c.float + 1;
                    }
                    if has_decimal_mark_text(t) {
                        c.decimal = c.decimal + 1;
                    }
                    if is_date_text(t) {
                        c.date = c.date + 1;
                    }
                }
            },
        }
        i = i + 1;
    }
    c
}

/// Whether a value is non-empty text that `p` does not accept.
pub open spec fn fails_with(p: spec_fn(Seq<char>) -> bool) -> spec_fn(Option<Seq<char>>) -> bool {
    |v: Option<Seq<char>>| v matches Some(s) && s.len() > 0 && !p(s)
}

proof fn lemma_count_split(vals: Seq<Option<Seq<char>>>, n: int, p: spec_fn(Seq<char>) -> bool)
    requires
        0 <= n <= vals.len(),
    ensures
        count_values(vals, n, non_empty_with(any_text()))
            == count_values(vals, n, non_empty_with(p)) + count_values(vals, n, fails_with(p)),
        count_values(vals, n, fails_with(p)) == 0
            <==> forall|i: int| 0 <= i < n ==> !(#[trigger] fails_with(p)(vals[i])),
        count_values(vals, n, fails_with(p)) >= 0,
    decreases n,
{
    if n > 0 {
        lemma_count_split(vals, n - 1, p);
        if count_values(vals, n, fails_with(p)) == 0 {
            assert forall|i: int| 0 <= i < n implies !(#[trigger] fails_with(p)(vals[i])) by {
                if i < n - 1 {
                } else {
                }
            }
        }
    }
}

/// The counts of a column's values, as `column_counts` gives them.
pub open spec fn counts_of(vals: Seq<Option<Seq<char>>>, unique: i64) -> ColumnCounts {
    let n = vals.len() as int;
    ColumnCounts {
        nil: count_values(vals, n, is_nil()) as i64,
        empty: count_values(vals, n, is_empty_text()) as i64,
        unique,
        non_empty: count_values(vals, n, non_empty_with(any_text())) as i64,
        integer: count_values(vals, n, non_empty_with(integer_pred())) as i64,
        float: count_values(vals, n, non_empty_with(float_pred())) as i64,
        decimal: count_values(vals, n, non_empty_with(decimal_pred())) as i64,
        date: count_values(vals, n, non_empty_with(date_pred())) as i64,
    }
}

/// Whether some non-empty value is not accepted by `p`.
pub open spec fn some_value_fails(vals: Seq<Option<Seq<char>>>, p: spec_fn(Seq<char>) -> bool) -> bool {
    exists|i: int| 0 <= i < vals.len() && #[trigger] fails_with(p)(vals[i])
}

/// Whether some non-empty value is accepted by `p`.
pub open spec fn some_value_is(vals: Seq<Option<Seq<char>>>, p: spec_fn(Seq<char>) -> bool) -> bool {
    exists|i: int| 0 <= i < vals.len() && #[trigger] non_empty_with(p)(vals[i])
}

proof fn lemma_count_positive(vals: Seq<Option<Seq<char>>>, n: int, q: spec_fn(Option<Seq<char>>) -> bool)
    requires
        0 <= n <= vals.len(),
    ensures
        count_values(vals, n, q) > 0 <==> exists|i: int| 0 <= i < n && #[trigger] q(vals[i]),
        count_values(vals, n, q) >= 0,
    decreases n,
{
    if n > 0 {
        lemma_count_positive(vals, n - 1, q);
        if exists|i: int| 0 <= i < n - 1 && #[trigger] q(vals[i]) {
            let i = choose|i: int| 0 <= i < n - 1 && #[trigger] q(vals[i]);
            assert(0 <= i < n && q(vals[i]));
        }
        if q(vals[n - 1]) {
            assert(0 <= n - 1 < n && q(vals[n - 1]));
        }
        if exists|i: int| 0 <= i < n && #[trigger] q(vals[i]) {
            let i = choose|i: int| 0 <= i < n && #[trigger] q(vals[i]);
            if i < n - 1 {
                assert(0 <= i < n - 1 && q(vals[i]));
            }
        }
    }
}

/// What a column is promoted to, in terms of its values: BIGINT when some non-empty value
/// reads as an integer; else DOUBLE PRECISION when some reads as a float and some has a
/// decimal mark; else DATE when some reads as a date; else TEXT. A promoted column keeps
/// its raw text exactly when some non-empty value does not read as the chosen type, and
/// a TEXT column never does.
pub proof fn law_promotion_by_values(vals: Seq<Option<Seq<char>>>, unique: i64)
    requires
        vals.len() <= i64::MAX,
    ensures
        ({
            let (t, raw) = promotion(counts_of(vals, unique));
            &&& t == ColumnType::BigInt <==> some_value_is(vals, integer_pred())
            &&& t == ColumnType::DoublePrecision <==> (!some_value_is(vals, integer_pred())
                && some_value_is(vals, float_pred()) && some_value_is(vals, decimal_pred()))
            &&& t == ColumnType::Date <==> (!some_value_is(vals, integer_pred())
                && !(some_value_is(vals, float_pred()) && some_value_is(vals, decimal_pred()))
                && some_value_is(vals, date_pred()))
            &&& t == ColumnType::BigInt ==> (raw <==> some_value_fails(vals, integer_pred()))
            &&& t == ColumnType::DoublePrecision ==> (raw <==> some_value_fails(vals, float_pred()))
            &&& t == ColumnType::Date ==> (raw <==> some_value_fails(vals, date_pred()))
            &&& t == ColumnType::Text ==> !raw
        }),
{
    let n = vals.len() as int;
    let c = counts_of(vals, unique);
    lemma_count_bound(vals, n, non_empty_with(any_text()));
    lemma_count_bound(vals, n, non_empty_with(integer_pred()));
    lemma_count_bound(vals, n, non_empty_with(float_pred()));
    lemma_count_bound(vals, n, non_empty_with(decimal_pred()));
    lemma_count_bound(vals, n, non_empty_with(date_pred()));
    lemma_count_split(vals, n, integer_pred());
    lemma_count_split(vals, n, float_pred());
    lemma_count_split(vals, n, date_pred());
    lemma_count_positive(vals, n, non_empty_with(integer_pred()));
    lemma_count_positive(vals, n, non_empty_with(float_pred()));
    lemma_count_positive(vals, n, non_empty_with(decimal_pred()));
    lemma_count_positive(vals, n, non_empty_with(date_pred()));
    lemma_count_positive(vals, n, non_empty_with(any_text()));
    lemma_count_positive(vals, n, fails_with(integer_pred()));
    lemma_count_positive(vals, n, fails_with(float_pred()));
    lemma_count_positive(vals, n, fails_with(date_pred()));
    // a value of any type is a non-empty value
    if some_value_is(vals, integer_pred()) || some_value_is(vals, float_pred()) || some_value_is(vals, date_pred()) {
        assert(c.non_empty != 0);
    }
}

} // verus!
