//! Naming rules for CSV ingestion: table names from file names, column names
//! from headers, and de-duplication of column names.

use vstd::prelude::*;
use crate::text::{
    chars_of, char_is_alnum, char_is_lower, char_is_upper, char_lower_first, decimal, is_alnum,
    is_lower, is_upper, lower_first, push_char, push_decimal, lemma_decimal_len, lemma_decimal_injective,
    push_str, spec_sql_escape, sql_escape, ascii_upper, ascii_lower, ascii_lowercase,
};

verus! {

/// Whether the character at `i` opens a new word in a CamelCase name:
/// an uppercase character after a lowercase one, or the last uppercase
/// character of an acronym that a lowercase character follows.
pub open spec fn starts_word(cs: Seq<char>, i: int) -> bool {
    &&& 0 < i < cs.len()
    &&& char_is_upper(cs[i])
    &&& (char_is_lower(cs[i - 1])
        || (char_is_upper(cs[i - 1]) && i + 1 < cs.len() && char_is_lower(cs[i + 1])))
}

/// What the character at `i` becomes in snake_case.
pub open spec fn snake_piece(cs: Seq<char>, i: int) -> Seq<char> {
    if char_is_upper(cs[i]) {
        if starts_word(cs, i) {
            seq!['_', char_lower_first(cs[i])]
        } else {
            seq![char_lower_first(cs[i])]
        }
    } else {
        seq![cs[i]]
    }
}

/// snake_case of the first `n` characters of `cs` (each read in the context of all of `cs`).
pub open spec fn snake_prefix(cs: Seq<char>, n: int) -> Seq<char>
    decreases n,
{
    if n <= 0 {
        Seq::empty()
    } else {
        snake_prefix(cs, n - 1) + snake_piece(cs, n - 1)
    }
}

/// CamelCase to snake_case: uppercase characters are lowercased, and an
/// underscore goes before each one that starts a word (see `starts_word`).
pub open spec fn spec_camel_to_snake(cs: Seq<char>) -> Seq<char> {
    snake_prefix(cs, cs.len() as int)
}

/// `cs` without a trailing `.csv`, if it has one.
pub open spec fn strip_csv(cs: Seq<char>) -> Seq<char> {
    if cs.len() >= 4 && cs.subrange(cs.len() - 4, cs.len() as int) == seq!['.', 'c', 's', 'v'] {
        cs.subrange(0, cs.len() - 4)
    } else {
        cs
    }
}

/// The table name for a CSV file name.
pub open spec fn spec_derive_table_name(cs: Seq<char>) -> Seq<char> {
    spec_camel_to_snake(strip_csv(cs))
}

/// A table is named after its file without the `.csv` suffix: the name of `stem.csv` is
/// the snake_case of `stem`, and a file name without that suffix is used whole.
pub proof fn law_table_name_drops_csv(stem: Seq<char>, other: Seq<char>)
    ensures
        spec_derive_table_name(stem + ".csv"@) == spec_camel_to_snake(stem),
        !(other.len() >= 4 && other.subrange(other.len() - 4, other.len() as int) == ".csv"@)
            ==> spec_derive_table_name(other) == spec_camel_to_snake(other),
{
    reveal_strlit(".csv");
    let f = stem + ".csv"@;
    assert(f.subrange(f.len() - 4, f.len() as int) =~= seq!['.', 'c', 's', 'v']);
    assert(f.subrange(0, f.len() - 4) =~= stem);
    assert(".csv"@ =~= seq!['.', 'c', 's', 'v']);
}

/// What one header character becomes in a column name.
pub open spec fn column_char(c: char) -> char {
    if char_is_alnum(c) || c == '_' { char_lower_first(c) } else { '_' }
}

/// The column name for a header: each character mapped by `column_char`,
/// `_` in front when that starts with an ASCII digit, and `col` when empty.
pub open spec fn spec_sanitize_column_name(cs: Seq<char>) -> Seq<char> {
    let mapped = cs.map_values(|c: char| column_char(c));
    if mapped.len() == 0 {
        seq!['c', 'o', 'l']
    } else if '0' <= mapped[0] <= '9' {
        seq!['_'] + mapped
    } else {
        mapped
    }
}

/// How many of the first `n` names equal `name`.
pub open spec fn count_prefix(names: Seq<Seq<char>>, n: int, name: Seq<char>) -> nat
    decreases n,
{
    if n <= 0 {
        0
    } else {
        count_prefix(names, n - 1, name) + (if names[n - 1] == name { 1nat } else { 0nat })
    }
}

/// The name numbered `m`: `name_m`.
pub open spec fn numbered(name: Seq<char>, m: nat) -> Seq<char> {
    name + seq!['_'] + decimal(m)
}

/// Whether `x` is `name` numbered `m` or higher.
pub open spec fn numbered_from(x: Seq<char>, name: Seq<char>, m: nat) -> bool {
    exists|m2: nat| m2 >= m && x == #[trigger] numbered(name, m2)
}

/// How many of the taken names are `name` numbered `m` or higher.
pub open spec fn count_numbered_from(taken: Seq<Seq<char>>, name: Seq<char>, m: nat) -> nat
    decreases taken.len(),
{
    if taken.len() == 0 {
        0
    } else {
        count_numbered_from(taken.drop_last(), name, m)
            + (if numbered_from(taken.last(), name, m) { 1nat } else { 0nat })
    }
}

proof fn lemma_numbered_injective(name: Seq<char>, a: nat, b: nat)
    requires
        numbered(name, a) == numbered(name, b),
    ensures
        a == b,
{
    let x = numbered(name, a);
    let y = numbered(name, b);
    assert(x.subrange(name.len() as int + 1, x.len() as int) =~= decimal(a));
    assert(y.subrange(name.len() as int + 1, y.len() as int) =~= decimal(b));
    lemma_decimal_injective(a, b);
}

pub proof fn lemma_count_numbered(taken: Seq<Seq<char>>, name: Seq<char>, m: nat)
    ensures
        count_numbered_from(taken, name, m) <= taken.len(),
        count_numbered_from(taken, name, m + 1) <= count_numbered_from(taken, name, m),
        taken.contains(numbered(name, m)) ==> count_numbered_from(taken, name, m + 1) < count_numbered_from(taken, name, m),
    decreases taken.len(),
{
    if taken.len() > 0 {
        let rest = taken.drop_last();
        let x = taken.last();
        lemma_count_numbered(rest, name, m);
        if numbered_from(x, name, m + 1) {
            let m2 = choose|m2: nat| m2 >= m + 1 && x == #[trigger] numbered(name, m2);
            assert(numbered_from(x, name, m));
            if x == numbered(name, m) {
                lemma_numbered_injective(name, m, m2);
            }
        }
        if x == numbered(name, m) {
            assert(numbered_from(x, name, m));
        }
        if taken.contains(numbered(name, m)) && x != numbered(name, m) {
            let k = choose|k: int| 0 <= k < taken.len() && taken[k] == numbered(name, m);
            assert(rest[k] == taken[k]);
        }
    }
}

/// The least number from `m` on at which `name` is not yet taken.
pub open spec fn first_free(taken: Seq<Seq<char>>, name: Seq<char>, m: nat) -> nat
    decreases count_numbered_from(taken, name, m),
{
    if taken.contains(numbered(name, m)) {
        proof {
            lemma_count_numbered(taken, name, m);
        }
        first_free(taken, name, m + 1)
    } else {
        m
    }
}

proof fn lemma_first_free(taken: Seq<Seq<char>>, name: Seq<char>, m: nat)
    ensures
        first_free(taken, name, m) >= m,
        !taken.contains(numbered(name, first_free(taken, name, m))),
        forall|j: nat| m <= j < first_free(taken, name, m) ==> taken.contains(#[trigger] numbered(name, j)),
    decreases count_numbered_from(taken, name, m),
{
    if taken.contains(numbered(name, m)) {
        lemma_count_numbered(taken, name, m);
        lemma_first_free(taken, name, m + 1);
    }
}

/// The name given to the `k`-th occurrence of `name` when the names before it are
/// `taken`: the name itself at its first occurrence when it is free; otherwise `name_j`
/// for the least `j` from `k` (at least 2) that is free.
pub open spec fn fresh_name(taken: Seq<Seq<char>>, name: Seq<char>, k: nat) -> Seq<char> {
    if k <= 1 && !taken.contains(name) {
        name
    } else {
        numbered(name, first_free(taken, name, if k < 2 { 2 } else { k }))
    }
}

/// The de-duplicated names of the first `n` columns.
pub open spec fn dedup_prefix(names: Seq<Seq<char>>, n: int) -> Seq<Seq<char>>
    decreases n,
{
    if n <= 0 {
        Seq::empty()
    } else {
        let prev = dedup_prefix(names, n - 1);
        prev.push(fresh_name(prev, names[n - 1], count_prefix(names, n, names[n - 1])))
    }
}

/// The de-duplicated column names.
pub open spec fn deduplicated(names: Seq<Seq<char>>) -> Seq<Seq<char>> {
    dedup_prefix(names, names.len() as int)
}

proof fn lemma_fresh_name(taken: Seq<Seq<char>>, name: Seq<char>, k: nat)
    ensures
        !taken.contains(fresh_name(taken, name, k)),
{
    lemma_first_free(taken, name, if k < 2 { 2 } else { k });
}

proof fn lemma_dedup_prefix(names: Seq<Seq<char>>, n: int)
    requires
        0 <= n <= names.len(),
    ensures
        dedup_prefix(names, n).len() == n,
        forall|i: int, j: int| 0 <= i < j < n ==> dedup_prefix(names, n)[i] != dedup_prefix(names, n)[j],
    decreases n,
{
    if n > 0 {
        let prev = dedup_prefix(names, n - 1);
        lemma_dedup_prefix(names, n - 1);
        let x = fresh_name(prev, names[n - 1], count_prefix(names, n, names[n - 1]));
        lemma_fresh_name(prev, names[n - 1], count_prefix(names, n, names[n - 1]));
        let cur = dedup_prefix(names, n);
        assert forall|i: int, j: int| 0 <= i < j < n implies cur[i] != cur[j] by {
            if j == n - 1 {
                assert(cur[i] == prev[i]);
                assert(prev.contains(prev[i]));
            } else {
                assert(cur[i] == prev[i] && cur[j] == prev[j]);
            }
        }
    }
}

/// De-duplicated column names are all different: no two columns get the same name,
/// whatever names the input already holds.
pub proof fn law_repeats_get_distinct_names(names: Seq<Seq<char>>, i: int, j: int)
    requires
        0 <= i < j < names.len(),
    ensures
        deduplicated(names).len() == names.len(),
        deduplicated(names)[i] != deduplicated(names)[j],
{
    lemma_dedup_prefix(names, names.len() as int);
}

/// Where the names it would give are free, the `k`-th occurrence of a name gets `name_k`
/// and a first occurrence keeps its name.
pub proof fn law_occurrence_numbering(taken: Seq<Seq<char>>, name: Seq<char>, k: nat)
    requires
        k >= 1,
        k == 1 ==> !taken.contains(name),
        k >= 2 ==> !taken.contains(numbered(name, k)),
    ensures
        fresh_name(taken, name, k) == (if k == 1 { name } else { numbered(name, k) }),
{
}

/// A character a column name may hold: a lowercase ASCII letter, a digit or `_`.
pub open spec fn column_safe(c: char) -> bool {
    ascii_lower(c) || ('0' <= c && c <= '9') || c == '_'
}

/// Whether every character of a text is ASCII.
pub open spec fn all_ascii(s: Seq<char>) -> bool {
    forall|i: int| 0 <= i < s.len() ==> (#[trigger] s[i]) <= '\x7f'
}

proof fn lemma_column_char_ascii(c: char)
    requires
        c <= '\x7f',
    ensures
        column_safe(column_char(c)),
        column_safe(c) ==> column_char(c) == c,
        ascii_upper(c) ==> column_char(c) == ((c as u32) + 32) as char,
{
}

/// Over ASCII headers, a column name holds only lowercase letters, digits and `_`, is
/// never empty, never starts with a digit, and sanitizing it again changes nothing.
pub proof fn law_sanitized_ascii_name(h: Seq<char>)
    requires
        all_ascii(h),
    ensures
        spec_sanitize_column_name(h).len() > 0,
        forall|i: int| 0 <= i < spec_sanitize_column_name(h).len() ==> column_safe(#[trigger] spec_sanitize_column_name(h)[i]),
        !('0' <= spec_sanitize_column_name(h)[0] && spec_sanitize_column_name(h)[0] <= '9'),
        spec_sanitize_column_name(spec_sanitize_column_name(h)) == spec_sanitize_column_name(h),
{
    let mapped = h.map_values(|c: char| column_char(c));
    assert forall|i: int| 0 <= i < mapped.len() implies column_safe(#[trigger] mapped[i]) by {
        lemma_column_char_ascii(h[i]);
    }
    let r = spec_sanitize_column_name(h);
    assert forall|i: int| 0 <= i < r.len() implies column_safe(#[trigger] r[i]) by {
        if mapped.len() == 0 {
            assert(r == seq!['c', 'o', 'l']);
        } else if '0' <= mapped[0] <= '9' {
            if i > 0 {
                assert(r[i] == mapped[i - 1]);
            }
        }
    }
    let m2 = r.map_values(|c: char| column_char(c));
    assert forall|i: int| 0 <= i < r.len() implies #[trigger] m2[i] == r[i] by {
        lemma_column_char_ascii(r[i]);
    }
    assert(m2 =~= r);
}

/// Over ASCII text, snake_case holds no uppercase letter, and text without uppercase
/// letters is left as it is.
pub proof fn law_snake_ascii(s: Seq<char>)
    requires
        all_ascii(s),
    ensures
        forall|i: int| 0 <= i < spec_camel_to_snake(s).len() ==> !ascii_upper(#[trigger] spec_camel_to_snake(s)[i]),
        (forall|i: int| 0 <= i < s.len() ==> !ascii_upper(#[trigger] s[i])) ==> spec_camel_to_snake(s) == s,
{
    lemma_snake_prefix_ascii(s, s.len() as int);
}

/// A text without its underscores.
pub open spec fn without_underscores(s: Seq<char>) -> Seq<char>
    decreases s.len(),
{
    if s.len() == 0 {
        s
    } else {
        let r = without_underscores(s.drop_last());
        if s.last() == '_' { r } else { r.push(s.last()) }
    }
}

proof fn lemma_without_concat(a: Seq<char>, b: Seq<char>)
    ensures
        without_underscores(a + b) == without_underscores(a) + without_underscores(b),
    decreases b.len(),
{
    if b.len() == 0 {
        assert(a + b =~= a);
        assert(without_underscores(a) + without_underscores(b) =~= without_underscores(a));
    } else {
        lemma_without_concat(a, b.drop_last());
        assert((a + b).drop_last() =~= a + b.drop_last());
        assert((a + b).last() == b.last());
        if b.last() != '_' {
            assert(without_underscores(a) + without_underscores(b.drop_last()).push(b.last())
                =~= (without_underscores(a) + without_underscores(b.drop_last())).push(b.last()));
        }
    }
}

/// Over ASCII text, snake_case only lowercases letters and inserts underscores: without
/// underscores it is the lowercased text without underscores, and it starts with the
/// lowercased first character.
pub proof fn law_snake_only_lowercases_and_inserts(s: Seq<char>)
    requires
        all_ascii(s),
    ensures
        without_underscores(spec_camel_to_snake(s)) == without_underscores(s.map_values(|c: char| ascii_lowercase(c))),
        s.len() > 0 ==> spec_camel_to_snake(s).len() > 0 && spec_camel_to_snake(s)[0] == ascii_lowercase(s[0]),
{
    lemma_snake_without(s, s.len() as int);
    assert(s.map_values(|c: char| ascii_lowercase(c)).take(s.len() as int) =~= s.map_values(|c: char| ascii_lowercase(c)));
    if s.len() > 0 {
        lemma_snake_first(s, s.len() as int);
    }
}

proof fn lemma_snake_first(s: Seq<char>, n: int)
    requires
        all_ascii(s),
        1 <= n <= s.len(),
    ensures
        snake_prefix(s, n).len() > 0 && snake_prefix(s, n)[0] == ascii_lowercase(s[0]),
    decreases n,
{
    assert(s[0] <= '\x7f');
    if n == 1 {
        assert(snake_prefix(s, 0) =~= Seq::<char>::empty());
        assert(snake_prefix(s, 1) =~= snake_piece(s, 0));
    } else {
        lemma_snake_first(s, n - 1);
        assert(snake_prefix(s, n) == snake_prefix(s, n - 1) + snake_piece(s, n - 1));
    }
}

proof fn lemma_snake_without(s: Seq<char>, n: int)
    requires
        all_ascii(s),
        0 <= n <= s.len(),
    ensures
        without_underscores(snake_prefix(s, n)) == without_underscores(s.map_values(|c: char| ascii_lowercase(c)).take(n)),
    decreases n,
{
    let low = s.map_values(|c: char| ascii_lowercase(c));
    if n == 0 {
        assert(low.take(0) =~= Seq::<char>::empty());
    } else {
        lemma_snake_without(s, n - 1);
        let c = s[n - 1];
        assert(c <= '\x7f');
        let piece = snake_piece(s, n - 1);
        lemma_without_concat(snake_prefix(s, n - 1), piece);
        assert(low.take(n) =~= low.take(n - 1) + seq![ascii_lowercase(c)]);
        lemma_without_concat(low.take(n - 1), seq![ascii_lowercase(c)]);
        assert(without_underscores(piece) == without_underscores(seq![ascii_lowercase(c)])) by {
            let one = seq![ascii_lowercase(c)];
            assert(one.drop_last() =~= Seq::<char>::empty());
            assert(without_underscores(Seq::<char>::empty()) == Seq::<char>::empty());
            if char_is_upper(c) {
                let l = char_lower_first(c);
                assert(l == ascii_lowercase(c));
                assert(l != '_');
                assert(without_underscores(one) == seq![l]);
                if starts_word(s, n - 1) {
                    assert(piece == seq!['_', l]);
                    assert(piece.drop_last() =~= seq!['_']);
                    assert(seq!['_'].drop_last() =~= Seq::<char>::empty());
                    assert(without_underscores(seq!['_']) == Seq::<char>::empty());
                    assert(without_underscores(piece) =~= seq![l]);
                } else {
                    assert(piece == seq![l]);
                }
            } else {
                assert(ascii_lowercase(c) == c);
                assert(piece == seq![c]);
            }
        }
    }
}

proof fn lemma_snake_prefix_ascii(s: Seq<char>, n: int)
    requires
        all_ascii(s),
        0 <= n <= s.len(),
    ensures
        forall|i: int| 0 <= i < snake_prefix(s, n).len() ==> !ascii_upper(#[trigger] snake_prefix(s, n)[i]),
        (forall|i: int| 0 <= i < s.len() ==> !ascii_upper(#[trigger] s[i])) ==> snake_prefix(s, n) == s.take(n),
    decreases n,
{
    if n > 0 {
        lemma_snake_prefix_ascii(s, n - 1);
        let prev = snake_prefix(s, n - 1);
        let piece = snake_piece(s, n - 1);
        let c = s[n - 1];
        assert(c <= '\x7f');
        assert forall|i: int| 0 <= i < piece.len() implies !ascii_upper(#[trigger] piece[i]) by {
            if char_is_upper(c) {
                assert(ascii_upper(c));
            }
        }
        let cur = snake_prefix(s, n);
        assert(cur == prev + piece);
        assert forall|i: int| 0 <= i < cur.len() implies !ascii_upper(#[trigger] cur[i]) by {
            if i < prev.len() {
                assert(cur[i] == prev[i]);
            } else {
                assert(cur[i] == piece[i - prev.len()]);
            }
        }
        if forall|i: int| 0 <= i < s.len() ==> !ascii_upper(#[trigger] s[i]) {
            assert(!ascii_upper(c));
            assert(piece =~= seq![c]);
            assert(s.take(n) =~= s.take(n - 1).push(c));
        }
    }
}

/// The views of a list of strings.
pub open spec fn views(v: Seq<String>) -> Seq<Seq<char>> {
    v.map_values(|s: String| s@)
}

/// Convert CamelCase to snake_case; runs of uppercase letters stay together
/// (`MNCAAFoo` gives `mncaa_foo`).
pub fn camel_to_snake(s: &str) -> (out: String)
    ensures
        out@ == spec_camel_to_snake(s@),
{
    let cs = chars_of(s);
    snake_of_chars(&cs)
}

fn snake_of_chars(cs: &Vec<char>) -> (out: String)
    ensures
        out@ == spec_camel_to_snake(cs@),
{
    let mut out = String::new();
    let n = cs.len();
    let mut i: usize = 0;
    while i < n
        invariant
            n == cs@.len(),
            i <= n,
            out@ == snake_prefix(cs@, i as int),
        decreases n - i,
    {
        let c = cs[i];
        if is_upper(c) {
            if i > 0 {
                let prev = cs[i - 1];
                let next_lower = i + 1 < n && is_lower(cs[i + 1]);
                if is_lower(prev) || (is_upper(prev) && next_lower) {
                    push_char(&mut out, '_');
                }
            }
            push_char(&mut out, lower_first(c));
        } else {
            push_char(&mut out, c);
        }
        assert(out@ == snake_prefix(cs@, i + 1));
        i = i + 1;
    }
    out
}

/// Derive a table name from a CSV file name: `MTeams.csv` gives `m_teams`.
pub fn derive_table_name(filename: &str) -> (out: String)
    ensures
        out@ == spec_derive_table_name(filename@),
{
    let cs = chars_of(filename);
    let n = cs.len();
    if n >= 4 && cs[n - 4] == '.' && cs[n - 3] == 'c' && cs[n - 2] == 's' && cs[n - 1] == 'v' {
        assert(cs@.subrange(n - 4, n as int) == seq!['.', 'c', 's', 'v']);
        let mut stem: Vec<char> = Vec::new();
        let mut i: usize = 0;
        while i < n - 4
            invariant
                n == cs@.len(),
                n >= 4,
                i <= n - 4,
                stem@ == cs@.subrange(0, i as int),
            decreases n - 4 - i,
        {
            stem.push(cs[i]);
            i = i + 1;
        }
        snake_of_chars(&stem)
    } else {
        proof {
            if n >= 4 {
                assert(cs@.subrange(n - 4, n as int)[0] == cs@[n - 4]);
                assert(cs@.subrange(n - 4, n as int)[1] == cs@[n - 3]);
                assert(cs@.subrange(n - 4, n as int)[2] == cs@[n - 2]);
                assert(cs@.subrange(n - 4, n as int)[3] == cs@[n - 1]);
            }
        }
        snake_of_chars(&cs)
    }
}

/// Sanitize a CSV header into a column name: lowercase, every character that is
/// neither alphanumeric nor `_` replaced by `_`, a leading `_` when it would
/// start with a digit, and `col` when empty.
pub fn sanitize_column_name(header: &str) -> (out: String)
    ensures
        out@ == spec_sanitize_column_name(header@),
{
    let cs = chars_of(header);
    let n = cs.len();
    let mut mapped: Vec<char> = Vec::new();
    let mut i: usize = 0;
    while i < n
        invariant
            n == cs@.len(),
            i <= n,
            mapped@ == cs@.take(i as int).map_values(|c: char| column_char(c)),
        decreases n - i,
    {
        let c = cs[i];
        let m = if is_alnum(c) || c == '_' { lower_first(c) } else { '_' };
        mapped.push(m);
        assert(cs@.take(i + 1).map_values(|c: char| column_char(c))
            == cs@.take(i as int).map_values(|c: char| column_char(c)).push(column_char(c)));
        i = i + 1;
    }
    assert(cs@.take(n as int) == cs@);
    let mut out = String::new();
    if n == 0 {
        push_char(&mut out, 'c');
        push_char(&mut out, 'o');
        push_char(&mut out, 'l');
        return out;
    }
    if '0' <= mapped[0] && mapped[0] <= '9' {
        push_char(&mut out, '_');
    }
    let ghost start = out@;
    let mut j: usize = 0;
    while j < n
        invariant
            n == mapped@.len(),
            j <= n,
            out@ == start + mapped@.take(j as int),
        decreases n - j,
    {
        push_char(&mut out, mapped[j]);
        assert(mapped@.take(j + 1) == mapped@.take(j as int).push(mapped@[j as int]));
        j = j + 1;
    }
    assert(mapped@.take(n as int) == mapped@);
    out
}

fn contains_string(v: &Vec<String>, s: &String) -> (b: bool)
    ensures
        b == views(v@).contains(s@),
{
    let mut i: usize = 0;
    while i < v.len()
        invariant
            i <= v@.len(),
            forall|k: int| 0 <= k < i ==> v@[k]@ != s@,
        decreases v@.len() - i,
    {
        if v[i] == *s {
            assert(views(v@)[i as int] == s@);
            return true;
        }
        i = i + 1;
    }
    proof {
        if views(v@).contains(s@) {
            let k = choose|k: int| 0 <= k < views(v@).len() && views(v@)[k] == s@;
            assert(v@[k]@ == s@);
        }
    }
    false
}

fn numbered_string(name: &String, m: u128) -> (s: String)
    ensures
        s@ == numbered(name@, m as nat),
{
    let mut s = name.clone();
    push_char(&mut s, '_');
    push_decimal(&mut s, m);
    s
}

/// De-duplicate column names: the k-th occurrence (k >= 2) of a name gets `_k`
/// appended; where that name is already taken (the input may hold it), the next free
/// number is used, so that all names come out different.
pub fn deduplicate_columns(columns: &[String]) -> (out: Vec<String>)
    ensures
        views(out@) == deduplicated(views(columns@)),
        out@.len() == columns@.len(),
{
    let ghost names = views(columns@);
    let n = columns.len();
    let mut out: Vec<String> = Vec::new();
    let mut i: usize = 0;
    while i < n
        invariant
            n == columns@.len(),
            names == views(columns@),
            names.len() == n,
            i <= n,
            out@.len() == i,
            views(out@) == dedup_prefix(names, i as int),
        decreases n - i,
    {
        let mut count: u64 = 0;
        let mut j: usize = 0;
        while j <= i
            invariant
                n == columns@.len(),
                names == views(columns@),
                names.len() == n,
                i < n,
                j <= i + 1,
                count == count_prefix(names, j as int, names[i as int]),
                count <= j,
            decreases i + 1 - j,
        {
            assert(names[j as int] == columns@[j as int]@);
            assert(names[i as int] == columns@[i as int]@);
            if columns[j] == columns[i] {
                count = count + 1;
            }
            j = j + 1;
        }
        let col = &columns[i];
        assert(names[i as int] == col@);
        let ghost taken = views(out@);
        let name = if count <= 1 && !contains_string(&out, col) {
            col.clone()
        } else {
            let m0: u128 = if count < 2 { 2 } else { count as u128 };
            let mut m: u128 = m0;
            let mut cand = numbered_string(col, m);
            proof {
                lemma_count_numbered(taken, col@, m as nat);
            }
            while contains_string(&out, &cand)
                invariant
                    taken == views(out@),
                    taken.len() == i,
                    i < n,
                    m0 <= m,
                    cand@ == numbered(col@, m as nat),
                    first_free(taken, col@, m as nat) == first_free(taken, col@, m0 as nat),
                    (m - m0) + count_numbered_from(taken, col@, m as nat) <= count_numbered_from(taken, col@, m0 as nat),
                    count_numbered_from(taken, col@, m0 as nat) <= taken.len(),
                    m0 <= i + 2,
                decreases count_numbered_from(taken, col@, m as nat),
            {
                proof {
                    lemma_count_numbered(taken, col@, m as nat);
                }
                m = m + 1;
                cand = numbered_string(col, m);
            }
            cand
        };
        proof {
            assert(count_prefix(names, i + 1, names[i as int]) == count);
        }
        out.push(name);
        assert(views(out@) =~= taken.push(name@));
        i = i + 1;
    }
    out
}

/// The data records the `csv` crate reads from a file's text (the header row excluded,
/// records of any length accepted); `None` for a record it reports an error for.
pub uninterp spec fn csv_data_records(content: Seq<char>) -> Seq<Option<Seq<Seq<char>>>>;

pub open spec fn opt_fields(r: Option<Vec<String>>) -> Option<Seq<Seq<char>>> {
    match r {
        Some(v) => Some(views(v@)),
        None => None,
    }
}

/// `csv::ReaderBuilder::new().has_headers(true).flexible(true)` on the text, then
/// `records()`: each data record's fields, or `None` where the reader reports an error.
/// Which records it reads is named, not restated.
#[verifier::external_body]
fn read_csv_records(content: &str) -> (r: Vec<Option<Vec<String>>>)
    ensures
        r@.map_values(|x: Option<Vec<String>>| opt_fields(x)) == csv_data_records(content@),
{
    let mut reader = csv::ReaderBuilder::new().has_headers(true).flexible(true).from_reader(content.as_bytes());
    reader.records().map(|r| r.ok().map(|rec| rec.iter().map(|f| f.to_string()).collect())).collect()
}

/// A record's values for `ncols` columns: a missing or empty field is NULL.
pub open spec fn row_values(fields: Seq<Seq<char>>, ncols: nat) -> Seq<Option<Seq<char>>> {
    Seq::new(ncols, |i: int| if i < fields.len() && fields[i].len() > 0 { Some(fields[i]) } else { None })
}

/// The rows to load: the records read without error, each as its values.
pub open spec fn data_rows(records: Seq<Option<Seq<Seq<char>>>>, ncols: nat) -> Seq<Seq<Option<Seq<char>>>>
    decreases records.len(),
{
    if records.len() == 0 {
        Seq::empty()
    } else {
        let rest = data_rows(records.drop_last(), ncols);
        match records.last() {
            Some(f) => rest.push(row_values(f, ncols)),
            None => rest,
        }
    }
}

/// How many records were read without error.
pub open spec fn records_read(records: Seq<Option<Seq<Seq<char>>>>) -> nat
    decreases records.len(),
{
    if records.len() == 0 {
        0
    } else {
        records_read(records.drop_last()) + (if records.last() is Some { 1nat } else { 0nat })
    }
}

/// Loading raw rows: one row per record read without error (records the reader reports
/// as errors are skipped), each with one value per column. A present, non-empty field is
/// loaded as it is; a missing or empty field is NULL; fields beyond the columns are
/// ignored.
pub proof fn law_raw_rows(records: Seq<Option<Seq<Seq<char>>>>, ncols: nat)
    ensures
        data_rows(records, ncols).len() == records_read(records),
        forall|i: int| 0 <= i < data_rows(records, ncols).len() ==> (#[trigger] data_rows(records, ncols)[i]).len() == ncols,
        data_rows(records.push(None), ncols) == data_rows(records, ncols),
    decreases records.len(),
{
    assert(records.push(None).drop_last() =~= records);
    if records.len() > 0 {
        law_raw_rows(records.drop_last(), ncols);
        let rest = data_rows(records.drop_last(), ncols);
        let all = data_rows(records, ncols);
        assert forall|i: int| 0 <= i < all.len() implies (#[trigger] all[i]).len() == ncols by {
            if i < rest.len() {
                assert(all[i] == rest[i]);
            }
        }
    }
}

/// The values of one record: a present, non-empty field as it is, NULL for a missing or
/// empty one, and fields beyond the columns ignored.
pub proof fn law_row_values(fields: Seq<Seq<char>>, ncols: nat, extra: Seq<Seq<char>>)
    ensures
        row_values(fields, ncols).len() == ncols,
        forall|j: int| 0 <= j < ncols ==> (#[trigger] row_values(fields, ncols)[j] is Some
            <==> (j < fields.len() && fields[j].len() > 0)),
        forall|j: int| 0 <= j < ncols && j < fields.len() && fields[j].len() > 0
            ==> #[trigger] row_values(fields, ncols)[j] == Some(fields[j]),
        fields.len() >= ncols ==> row_values(fields + extra, ncols) == row_values(fields, ncols),
{
    if fields.len() >= ncols {
        assert(row_values(fields + extra, ncols) =~= row_values(fields, ncols));
    }
}

/// Loading rows in batches: `ceil(n / 500)` INSERT statements, the `k`-th loading rows
/// `500k` up to `500k + 500` (or the last row), so every row is loaded once, in order,
/// and no statement loads more than 500 rows.
pub proof fn law_insert_batches(table: Seq<char>, columns: Seq<Seq<char>>, rows: Seq<Seq<Option<Seq<char>>>>)
    ensures
        insert_batches(table, columns, rows).len() == (rows.len() + 499) / 500,
        forall|k: int| 0 <= k < insert_batches(table, columns, rows).len() ==> {
            let lo = 500 * k;
            let hi = if rows.len() < 500 * k + 500 { rows.len() as int } else { 500 * k + 500 };
            &&& 0 <= lo < hi <= rows.len()
            &&& hi - lo <= 500
            &&& #[trigger] insert_batches(table, columns, rows)[k] == insert_sql(table, columns, rows.subrange(lo, hi))
        },
{
    let b = insert_batches(table, columns, rows);
    assert forall|k: int| 0 <= k < b.len() implies {
        let lo = 500 * k;
        let hi = if rows.len() < 500 * k + 500 { rows.len() as int } else { 500 * k + 500 };
        &&& 0 <= lo < hi <= rows.len()
        &&& hi - lo <= 500
        &&& #[trigger] b[k] == insert_sql(table, columns, rows.subrange(lo, hi))
    } by {
        let n = rows.len() as int;
        assert(k < (n + 499) / 500);
        assert(500 * k < n) by (nonlinear_arith)
            requires 0 <= k, k < (n + 499) / 500, n >= 0;
    }
}

pub open spec fn opt_text(v: Option<String>) -> Option<Seq<char>> {
    match v {
        Some(t) => Some(t@),
        None => None,
    }
}

pub open spec fn row_view(r: Vec<Option<String>>) -> Seq<Option<Seq<char>>> {
    r@.map_values(|v: Option<String>| opt_text(v))
}

pub open spec fn rows_view(rows: Seq<Vec<Option<String>>>) -> Seq<Seq<Option<Seq<char>>>> {
    rows.map_values(|r: Vec<Option<String>>| row_view(r))
}

/// The values of one record, for `ncols` columns.
fn record_values(fields: &Vec<String>, ncols: usize) -> (out: Vec<Option<String>>)
    ensures
        row_view(out) == row_values(views(fields@), ncols as nat),
{
    let mut out: Vec<Option<String>> = Vec::new();
    let mut i: usize = 0;
    while i < ncols
        invariant
            i <= ncols,
            out@.len() == i,
            forall|k: int| 0 <= k < i ==> #[trigger] opt_text(out@[k]) == row_values(views(fields@), ncols as nat)[k],
        decreases ncols - i,
    {
        let v = if i < fields.len() && chars_of(fields[i].as_str()).len() > 0 {
            Some(fields[i].clone())
        } else {
            None
        };
        out.push(v);
        i = i + 1;
    }
    assert(row_view(out) =~= row_values(views(fields@), ncols as nat));
    out
}

/// The rows of a CSV text for a table of `ncols` columns: every data record the reader
/// reads without error, a missing or empty field being NULL.
pub fn raw_rows(content: &str, ncols: usize) -> (rows: Vec<Vec<Option<String>>>)
    ensures
        rows_view(rows@) == data_rows(csv_data_records(content@), ncols as nat),
{
    let records = read_csv_records(content);
    let ghost rv = records@.map_values(|x: Option<Vec<String>>| opt_fields(x));
    let mut rows: Vec<Vec<Option<String>>> = Vec::new();
    let mut i: usize = 0;
    while i < records.len()
        invariant
            i <= records@.len(),
            rv == records@.map_values(|x: Option<Vec<String>>| opt_fields(x)),
            rows_view(rows@) == data_rows(rv.take(i as int), ncols as nat),
        decreases records@.len() - i,
    {
        assert(rv.take(i + 1).drop_last() =~= rv.take(i as int));
        assert(rv.take(i + 1).last() == opt_fields(records@[i as int]));
        match &records[i] {
            Some(fields) => {
                let r = record_values(fields, ncols);
                let ghost before = rows@;
                rows.push(r);
                assert(rows_view(rows@) =~= rows_view(before).push(row_view(r)));
            },
            None => {},
        }
        i = i + 1;
    }
    assert(rv.take(records@.len() as int) =~= rv);
    rows
}

/// Items joined with a separator.
pub open spec fn joined(items: Seq<Seq<char>>, sep: Seq<char>) -> Seq<char>
    decreases items.len(),
{
    if items.len() == 0 {
        Seq::empty()
    } else if items.len() == 1 {
        items[0]
    } else {
        joined(items.drop_last(), sep) + sep + items.last()
    }
}

/// A value in an INSERT: the quoted, escaped text, or NULL.
pub open spec fn value_sql(v: Option<Seq<char>>) -> Seq<char> {
    match v {
        Some(t) => seq!['\''] + spec_sql_escape(t) + seq!['\''],
        None => seq!['N', 'U', 'L', 'L'],
    }
}

/// A row in an INSERT: its values in parentheses.
pub open spec fn row_sql(row: Seq<Option<Seq<char>>>) -> Seq<char> {
    seq!['('] + joined(row.map_values(|v: Option<Seq<char>>| value_sql(v)), ", "@) + seq![')']
}

/// A column name, double-quoted.
pub open spec fn quoted_column(c: Seq<char>) -> Seq<char> {
    seq!['"'] + spec_sql_escape(c) + seq!['"']
}

pub open spec fn column_list(columns: Seq<Seq<char>>) -> Seq<char> {
    joined(columns.map_values(|c: Seq<char>| quoted_column(c)), ", "@)
}

/// One INSERT of rows into a table.
pub open spec fn insert_sql(table: Seq<char>, columns: Seq<Seq<char>>, rows: Seq<Seq<Option<Seq<char>>>>) -> Seq<char> {
    "INSERT INTO "@ + table + " ("@ + column_list(columns) + ") VALUES "@
        + joined(rows.map_values(|r: Seq<Option<Seq<char>>>| row_sql(r)), ", "@)
}

/// The INSERTs that load rows, 500 rows to a statement, in order.
pub open spec fn insert_batches(table: Seq<char>, columns: Seq<Seq<char>>, rows: Seq<Seq<Option<Seq<char>>>>) -> Seq<Seq<char>> {
    Seq::new(((rows.len() + 499) / 500) as nat, |k: int| insert_sql(table, columns,
        rows.subrange(500 * k, if 500 * k + 500 < rows.len() { 500 * k + 500 } else { rows.len() as int })))
}

proof fn lemma_joined_push(items: Seq<Seq<char>>, x: Seq<char>, sep: Seq<char>)
    ensures
        joined(items.push(x), sep) == if items.len() == 0 { x } else { joined(items, sep) + sep + x },
{
    assert(items.push(x).drop_last() =~= items);
    if items.len() == 0 {
        assert(items.push(x)[0] == x);
    }
}

fn push_value_sql(out: &mut String, v: &Option<String>)
    ensures
        final(out)@ == old(out)@ + value_sql(opt_text(*v)),
{
    match v {
        Some(t) => {
            push_char(out, '\'');
            push_str(out, sql_escape(t.as_str()).as_str());
            push_char(out, '\'');
            assert(final(out)@ =~= old(out)@ + value_sql(opt_text(*v)));
        },
        None => {
            push_str(out, "NULL");
            proof {
                reveal_strlit("NULL");
            }
            assert(final(out)@ =~= old(out)@ + value_sql(opt_text(*v)));
        },
    }
}

fn push_row_sql(out: &mut String, row: &Vec<Option<String>>)
    ensures
        final(out)@ == old(out)@ + row_sql(row_view(*row)),
{
    let ghost items = row_view(*row).map_values(|v: Option<Seq<char>>| value_sql(v));
    push_char(out, '(');
    let ghost start = out@;
    let mut i: usize = 0;
    while i < row.len()
        invariant
            i <= row@.len(),
            items == row_view(*row).map_values(|v: Option<Seq<char>>| value_sql(v)),
            out@ == start + joined(items.take(i as int), ", "@),
        decreases row@.len() - i,
    {
        proof {
            lemma_joined_push(items.take(i as int), items[i as int], ", "@);
            assert(items.take(i + 1) =~= items.take(i as int).push(items[i as int]));
            assert(items[i as int] == value_sql(opt_text(row@[i as int])));
        }
        if i > 0 {
            push_str(out, ", ");
        }
        push_value_sql(out, &row[i]);
        i = i + 1;
    }
    assert(items.take(row@.len() as int) =~= items);
    push_char(out, ')');
    assert(final(out)@ =~= old(out)@ + row_sql(row_view(*row)));
}

fn push_column_list(out: &mut String, columns: &[String])
    ensures
        final(out)@ == old(out)@ + column_list(views(columns@)),
{
    let ghost items = views(columns@).map_values(|c: Seq<char>| quoted_column(c));
    let ghost start = out@;
    let mut i: usize = 0;
    while i < columns.len()
        invariant
            i <= columns@.len(),
            items == views(columns@).map_values(|c: Seq<char>| quoted_column(c)),
            out@ == start + joined(items.take(i as int), ", "@),
        decreases columns@.len() - i,
    {
        proof {
            lemma_joined_push(items.take(i as int), items[i as int], ", "@);
            assert(items.take(i + 1) =~= items.take(i as int).push(items[i as int]));
        }
        if i > 0 {
            push_str(out, ", ");
        }
        let ghost mark = out@;
        push_char(out, '"');
        push_str(out, sql_escape(columns[i].as_str()).as_str());
        push_char(out, '"');
        assert(out@ =~= mark + quoted_column(columns@[i as int]@));
        i = i + 1;
    }
    assert(items.take(columns@.len() as int) =~= items);
}

/// One INSERT of the rows `lo..hi` into a table.
fn insert_statement(table: &str, columns: &[String], rows: &[Vec<Option<String>>], lo: usize, hi: usize) -> (out: String)
    requires
        lo <= hi <= rows@.len(),
    ensures
        out@ == insert_sql(table@, views(columns@), rows_view(rows@).subrange(lo as int, hi as int)),
{
    let ghost sub = rows_view(rows@).subrange(lo as int, hi as int);
    let ghost items = sub.map_values(|r: Seq<Option<Seq<char>>>| row_sql(r));
    let mut out = String::new();
    push_str(&mut out, "INSERT INTO ");
    push_str(&mut out, table);
    push_str(&mut out, " (");
    push_column_list(&mut out, columns);
    push_str(&mut out, ") VALUES ");
    let ghost start = out@;
    let mut i: usize = lo;
    while i < hi
        invariant
            lo <= i <= hi <= rows@.len(),
            sub == rows_view(rows@).subrange(lo as int, hi as int),
            items == sub.map_values(|r: Seq<Option<Seq<char>>>| row_sql(r)),
            out@ == start + joined(items.take(i - lo), ", "@),
        decreases hi - i,
    {
        proof {
            lemma_joined_push(items.take(i - lo), items[i - lo], ", "@);
            assert(items.take(i - lo + 1) =~= items.take(i - lo).push(items[i - lo]));
            assert(items[i - lo] == row_sql(row_view(rows@[i as int])));
        }
        if i > lo {
            push_str(&mut out, ", ");
        }
        push_row_sql(&mut out, &rows[i]);
        i = i + 1;
    }
    assert(items.take(hi - lo) =~= items);
    out
}

/// The INSERT statements that load rows into a table, 500 rows to a statement.
pub fn insert_statements(table: &str, columns: &[String], rows: &[Vec<Option<String>>]) -> (out: Vec<String>)
    ensures
        views(out@) == insert_batches(table@, views(columns@), rows_view(rows@)),
{
    let n = rows.len();
    let ghost rv = rows_view(rows@);
    let mut out: Vec<String> = Vec::new();
    let mut lo: usize = 0;
    while lo < n
        invariant
            n == rows@.len(),
            rv == rows_view(rows@),
            lo <= n,
            lo < n ==> lo % 500 == 0,
            out@.len() == (lo + 499) / 500,
            forall|k: int| 0 <= k < out@.len() ==> #[trigger] out@[k]@ == insert_batches(table@, views(columns@), rv)[k],
        decreases n - lo,
    {
        let hi = if n - lo > 500 { lo + 500 } else { n };
        let stmt = insert_statement(table, columns, rows, lo, hi);
        proof {
            let k = (lo / 500) as int;
            assert(500 * k == lo);
            assert(out@.len() == k);
            assert(k < (rv.len() + 499) / 500);
        }
        out.push(stmt);
        lo = hi;
    }
    proof {
        assert(out@.len() == (n + 499) / 500);
    }
    assert(views(out@) =~= insert_batches(table@, views(columns@), rv));
    out
}


/// A raw table's column definition: the quoted name, of type TEXT.
pub open spec fn text_column(c: Seq<char>) -> Seq<char> {
    quoted_column(c) + " TEXT"@
}

/// The statements that (re)create a raw table `schema.table` with TEXT columns: the
/// qualified name, the DROP and the CREATE.
pub open spec fn raw_table_sql(schema: Seq<char>, table: Seq<char>, columns: Seq<Seq<char>>) -> (Seq<char>, Seq<char>, Seq<char>) {
    let q = schema + seq!['.'] + table;
    (q,
     "DROP TABLE IF EXISTS "@ + q + " CASCADE"@,
     "CREATE TABLE "@ + q + " ("@ + joined(columns.map_values(|c: Seq<char>| text_column(c)), ", "@) + seq![')'])
}

/// The qualified name of a raw table and the statements that drop and create it, with
/// one TEXT column per name.
pub fn raw_table_statements(schema: &str, table: &str, columns: &[String]) -> (r: (String, String, String))
    ensures
        (r.0@, r.1@, r.2@) == raw_table_sql(schema@, table@, views(columns@)),
{
    let mut q = String::new();
    push_str(&mut q, schema);
    push_char(&mut q, '.');
    push_str(&mut q, table);
    let mut drop = String::new();
    push_str(&mut drop, "DROP TABLE IF EXISTS ");
    push_str(&mut drop, q.as_str());
    push_str(&mut drop, " CASCADE");
    let ghost items = views(columns@).map_values(|c: Seq<char>| text_column(c));
    let mut create = String::new();
    push_str(&mut create, "CREATE TABLE ");
    push_str(&mut create, q.as_str());
    push_str(&mut create, " (");
    let ghost start = create@;
    let mut i: usize = 0;
    while i < columns.len()
        invariant
            i <= columns@.len(),
            items == views(columns@).map_values(|c: Seq<char>| text_column(c)),
            create@ == start + joined(items.take(i as int), ", "@),
        decreases columns@.len() - i,
    {
        proof {
            lemma_joined_push(items.take(i as int), items[i as int], ", "@);
            assert(items.take(i + 1) =~= items.take(i as int).push(items[i as int]));
        }
        if i > 0 {
            push_str(&mut create, ", ");
        }
        let ghost mark = create@;
        push_char(&mut create, '"');
        push_str(&mut create, sql_escape(columns[i].as_str()).as_str());
        push_char(&mut create, '"');
        push_str(&mut create, " TEXT");
        assert(create@ =~= mark + text_column(columns@[i as int]@));
        i = i + 1;
    }
    assert(items.take(columns@.len() as int) =~= items);
    push_char(&mut create, ')');
    assert(q@ =~= schema@ + seq!['.'] + table@);
    assert(create@ =~= raw_table_sql(schema@, table@, views(columns@)).2);
    (q, drop, create)
}

} // verus!
