//! The init document: preferences written as text, one per line — aliases as
//! `name: target`, configuration as `key value` — and the changes that bring the stored
//! preferences in line with a document.

use vstd::prelude::*;
use crate::text::{chars_of, push_char, is_space, char_is_space, str_is, push_str};

verus! {

/// `s` without leading whitespace.
pub open spec fn trim_start(s: Seq<char>) -> Seq<char>
    decreases s.len(),
{
    if s.len() > 0 && char_is_space(s[0]) { trim_start(s.drop_first()) } else { s }
}

/// `s` without trailing whitespace.
pub open spec fn trim_end(s: Seq<char>) -> Seq<char>
    decreases s.len(),
{
    if s.len() > 0 && char_is_space(s.last()) { trim_end(s.drop_last()) } else { s }
}

/// `s` without leading or trailing whitespace.
pub open spec fn trim(s: Seq<char>) -> Seq<char> {
    trim_end(trim_start(s))
}

/// The pieces of `s` between newlines (a text without newline is one piece).
pub open spec fn segments(s: Seq<char>) -> Seq<Seq<char>>
    decreases s.len(),
{
    if s.len() == 0 {
        seq![Seq::empty()]
    } else {
        let r = segments(s.drop_last());
        if s.last() == '\n' {
            r.push(Seq::empty())
        } else {
            r.update(r.len() - 1, r.last().push(s.last()))
        }
    }
}

/// The position of the first character of `s` that satisfies `p`.
pub open spec fn first_where(s: Seq<char>, p: spec_fn(char) -> bool) -> Option<int>
    decreases s.len(),
{
    if s.len() == 0 {
        None
    } else {
        match first_where(s.drop_last(), p) {
            Some(i) => Some(i),
            None => if p(s.last()) { Some(s.len() - 1) } else { None },
        }
    }
}

pub open spec fn is_colon() -> spec_fn(char) -> bool {
    |c: char| c == ':'
}

pub open spec fn is_ws() -> spec_fn(char) -> bool {
    |c: char| char_is_space(c)
}

/// What a line of the document says.
#[derive(Clone, Debug)]
pub enum InitLine {
    Skip,
    Alias { key: String, value: String },
    Config { key: String, value: String },
}

/// A line as plain values: `(kind, key, value)` with kind 0 for nothing, 1 for an
/// alias, 2 for a configuration entry. A line with a `:` after its first character and
/// a non-empty key and value is an alias; a line with whitespace and no `:` is a
/// configuration entry; anything else says nothing.
pub open spec fn line_meaning(line: Seq<char>) -> (int, Seq<char>, Seq<char>) {
    let t = trim(line);
    if t.len() == 0 || t[0] == '#' || (t.len() >= 2 && t[0] == '/' && t[1] == '/') {
        (0, Seq::empty(), Seq::empty())
    } else {
        let alias = match first_where(t, is_colon()) {
            Some(c) => if c > 0 {
                let k = trim(t.subrange(0, c));
                let v = trim(t.subrange(c + 1, t.len() as int));
                if k.len() > 0 && v.len() > 0 { Some((k, v)) } else { None }
            } else {
                None
            },
            None => None,
        };
        match alias {
            Some((k, v)) => (1, k, v),
            None => if first_where(t, is_colon()) is Some {
                (0, Seq::empty(), Seq::empty())
            } else {
                match first_where(t, is_ws()) {
                Some(w) => {
                    let k = trim(t.subrange(0, w));
                    let v = trim(t.subrange(w, t.len() as int));
                    if k.len() > 0 && v.len() > 0 { (2, k, v) } else { (0, Seq::empty(), Seq::empty()) }
                },
                None => (0, Seq::empty(), Seq::empty()),
                }
            },
        }
    }
}

pub open spec fn init_line_view(l: InitLine) -> (int, Seq<char>, Seq<char>) {
    match l {
        InitLine::Skip => (0, Seq::empty(), Seq::empty()),
        InitLine::Alias { key, value } => (1, key@, value@),
        InitLine::Config { key, value } => (2, key@, value@),
    }
}

pub(crate) proof fn lemma_trim_start_drop(s: Seq<char>, a: int)
    requires
        0 <= a <= s.len(),
        forall|k: int| 0 <= k < a ==> char_is_space(#[trigger] s[k]),
    ensures
        trim_start(s) == trim_start(s.subrange(a, s.len() as int)),
    decreases a,
{
    if a > 0 {
        assert(char_is_space(s[0]));
        assert(s.drop_first() =~= s.subrange(1, s.len() as int));
        assert forall|k: int| 0 <= k < a - 1 implies char_is_space(#[trigger] s.drop_first()[k]) by {
            assert(s.drop_first()[k] == s[k + 1]);
        }
        lemma_trim_start_drop(s.drop_first(), a - 1);
        assert(s.drop_first().subrange(a - 1, s.drop_first().len() as int) =~= s.subrange(a, s.len() as int));
    } else {
        assert(s.subrange(0, s.len() as int) =~= s);
    }
}

proof fn lemma_trim_end_drop(s: Seq<char>, b: int)
    requires
        0 <= b <= s.len(),
        forall|k: int| b <= k < s.len() ==> char_is_space(#[trigger] s[k]),
    ensures
        trim_end(s) == trim_end(s.subrange(0, b)),
    decreases s.len() - b,
{
    if b < s.len() {
        assert(s.drop_last() =~= s.subrange(0, s.len() - 1));
        assert forall|k: int| b <= k < s.len() - 1 implies char_is_space(#[trigger] s.drop_last()[k]) by {
            assert(s.drop_last()[k] == s[k]);
        }
        lemma_trim_end_drop(s.drop_last(), b);
        assert(s.drop_last().subrange(0, b) =~= s.subrange(0, b));
    } else {
        assert(s.subrange(0, b) =~= s);
    }
}

/// `s[lo..hi]` without leading or trailing whitespace, as positions into `s`.
pub(crate) fn trim_bounds(cs: &Vec<char>, lo: usize, hi: usize) -> (r: (usize, usize))
    requires
        lo <= hi <= cs@.len(),
    ensures
        lo <= r.0 <= r.1 <= hi,
        cs@.subrange(r.0 as int, r.1 as int) == trim(cs@.subrange(lo as int, hi as int)),
{
    let ghost s = cs@.subrange(lo as int, hi as int);
    let mut a = lo;
    while a < hi && is_space(cs[a])
        invariant
            lo <= a <= hi <= cs@.len(),
            s == cs@.subrange(lo as int, hi as int),
            forall|k: int| lo <= k < a ==> char_is_space(#[trigger] cs@[k]),
        decreases hi - a,
    {
        a = a + 1;
    }
    proof {
        assert forall|k: int| 0 <= k < a - lo implies char_is_space(#[trigger] s[k]) by {
            assert(s[k] == cs@[lo + k]);
        }
        lemma_trim_start_drop(s, a - lo);
        assert(s.subrange(a - lo, s.len() as int) =~= cs@.subrange(a as int, hi as int));
        if a < hi {
            assert(!char_is_space(cs@.subrange(a as int, hi as int)[0]));
        } else {
            assert(cs@.subrange(a as int, hi as int).len() == 0);
        }
    }
    let ghost t = cs@.subrange(a as int, hi as int);
    assert(trim_start(s) == t);
    let mut b = hi;
    while b > a && is_space(cs[b - 1])
        invariant
            lo <= a <= b <= hi <= cs@.len(),
            t == cs@.subrange(a as int, hi as int),
            forall|k: int| b <= k < hi ==> char_is_space(#[trigger] cs@[k]),
        decreases b - a,
    {
        b = b - 1;
    }
    proof {
        assert forall|k: int| b - a <= k < t.len() implies char_is_space(#[trigger] t[k]) by {
            assert(t[k] == cs@[a + k]);
        }
        lemma_trim_end_drop(t, b - a);
        assert(t.subrange(0, b - a) =~= cs@.subrange(a as int, b as int));
        if b > a {
            assert(!char_is_space(cs@.subrange(a as int, b as int).last()));
        }
    }
    (a, b)
}

fn string_of(cs: &Vec<char>, lo: usize, hi: usize) -> (s: String)
    requires
        lo <= hi <= cs@.len(),
    ensures
        s@ == cs@.subrange(lo as int, hi as int),
{
    let mut s = String::new();
    let mut i = lo;
    while i < hi
        invariant
            lo <= i <= hi <= cs@.len(),
            s@ == cs@.subrange(lo as int, i as int),
        decreases hi - i,
    {
        push_char(&mut s, cs[i]);
        i = i + 1;
        assert(s@ =~= cs@.subrange(lo as int, i as int));
    }
    s
}

pub(crate) proof fn lemma_first_where(s: Seq<char>, p: spec_fn(char) -> bool)
    ensures
        first_where(s, p) matches Some(i) ==> 0 <= i < s.len() && p(s[i])
            && forall|k: int| 0 <= k < i ==> !p(#[trigger] s[k]),
        first_where(s, p) is None ==> forall|k: int| 0 <= k < s.len() ==> !p(#[trigger] s[k]),
    decreases s.len(),
{
    if s.len() > 0 {
        lemma_first_where(s.drop_last(), p);
        assert forall|k: int| 0 <= k < s.len() - 1 implies s.drop_last()[k] == s[k] by {}
    }
}

pub(crate) proof fn lemma_first_where_is(s: Seq<char>, p: spec_fn(char) -> bool, i: int)
    requires
        0 <= i < s.len(),
        p(s[i]),
        forall|k: int| 0 <= k < i ==> !p(#[trigger] s[k]),
    ensures
        first_where(s, p) == Some(i),
    decreases s.len(),
{
    lemma_first_where(s, p);
    if i < s.len() - 1 {
        assert forall|k: int| 0 <= k < i implies !p(#[trigger] s.drop_last()[k]) by {
            assert(s.drop_last()[k] == s[k]);
        }
        assert(s.drop_last()[i] == s[i]);
        lemma_first_where_is(s.drop_last(), p, i);
    } else {
        lemma_first_where(s.drop_last(), p);
        assert forall|k: int| 0 <= k < s.drop_last().len() implies !p(#[trigger] s.drop_last()[k]) by {
            assert(s.drop_last()[k] == s[k]);
        }
    }
}

/// The meaning of the characters `cs[lo..hi]` as a line of the document.
fn classify_line(cs: &Vec<char>, lo: usize, hi: usize) -> (r: InitLine)
    requires
        lo <= hi <= cs@.len(),
    ensures
        init_line_view(r) == line_meaning(cs@.subrange(lo as int, hi as int)),
{
    let ghost line = cs@.subrange(lo as int, hi as int);
    let (a, b) = trim_bounds(cs, lo, hi);
    let ghost t = cs@.subrange(a as int, b as int);
    assert(t == trim(line));
    if a == b || cs[a] == '#' || (b - a >= 2 && cs[a] == '/' && cs[a + 1] == '/') {
        return InitLine::Skip;
    }
    assert(t[0] == cs@[a as int]);
    // the first colon
    let mut c = a;
    while c < b && cs[c] != ':'
        invariant
            a <= c <= b <= cs@.len(),
            forall|k: int| a <= k < c ==> cs@[k] != ':',
        decreases b - c,
    {
        c = c + 1;
    }
    proof {
        lemma_first_where(t, is_colon());
        if c < b {
            assert forall|k: int| 0 <= k < c - a implies !is_colon()(#[trigger] t[k]) by {
                assert(t[k] == cs@[a + k]);
            }
            lemma_first_where_is(t, is_colon(), c - a);
        } else {
            assert forall|k: int| 0 <= k < t.len() implies !is_colon()(#[trigger] t[k]) by {
                assert(t[k] == cs@[a + k]);
            }
            if first_where(t, is_colon()) is Some {
                let i = first_where(t, is_colon())->0;
                assert(!is_colon()(t[i]));
            }
        }
    }
    if c < b && c > a {
        let (ka, kb) = trim_bounds(cs, a, c);
        let (va, vb) = trim_bounds(cs, c + 1, b);
        proof {
            assert(t.subrange(0, c - a) =~= cs@.subrange(a as int, c as int));
            assert(t.subrange(c - a + 1, t.len() as int) =~= cs@.subrange(c + 1, b as int));
        }
        if ka < kb && va < vb {
            return InitLine::Alias { key: string_of(cs, ka, kb), value: string_of(cs, va, vb) };
        }
    }
    if c < b {
        // a colon, but no alias: not a configuration entry either
        return InitLine::Skip;
    }
    // the first whitespace
    let mut w = a;
    while w < b && !is_space(cs[w])
        invariant
            a <= w <= b <= cs@.len(),
            forall|k: int| a <= k < w ==> !char_is_space(#[trigger] cs@[k]),
        decreases b - w,
    {
        w = w + 1;
    }
    proof {
        lemma_first_where(t, is_ws());
        if w < b {
            assert forall|k: int| 0 <= k < w - a implies !is_ws()(#[trigger] t[k]) by {
                assert(t[k] == cs@[a + k]);
            }
            lemma_first_where_is(t, is_ws(), w - a);
        } else {
            assert forall|k: int| 0 <= k < t.len() implies !is_ws()(#[trigger] t[k]) by {
                assert(t[k] == cs@[a + k]);
            }
            if first_where(t, is_ws()) is Some {
                let i = first_where(t, is_ws())->0;
                assert(!is_ws()(t[i]));
            }
        }
    }
    if w < b {
        let (ka, kb) = trim_bounds(cs, a, w);
        let (va, vb) = trim_bounds(cs, w, b);
        proof {
            assert(t.subrange(0, w - a) =~= cs@.subrange(a as int, w as int));
            assert(t.subrange(w - a, t.len() as int) =~= cs@.subrange(w as int, b as int));
        }
        if ka < kb && va < vb {
            return InitLine::Config { key: string_of(cs, ka, kb), value: string_of(cs, va, vb) };
        }
    }
    InitLine::Skip
}

/// A preference as plain values.
pub open spec fn pair_view(p: (String, String)) -> (Seq<char>, Seq<char>) {
    (p.0@, p.1@)
}

pub open spec fn pairs_view(ps: Seq<(String, String)>) -> Seq<(Seq<char>, Seq<char>)> {
    ps.map_values(|p: (String, String)| pair_view(p))
}

/// The entries of the given kind that some lines define, in order.
pub open spec fn entries_of(lines: Seq<Seq<char>>, kind: int) -> Seq<(Seq<char>, Seq<char>)>
    decreases lines.len(),
{
    if lines.len() == 0 {
        Seq::empty()
    } else {
        let rest = entries_of(lines.drop_last(), kind);
        let m = line_meaning(lines.last());
        if m.0 == kind { rest.push((m.1, m.2)) } else { rest }
    }
}

/// An init document: its aliases and its configuration entries, in order.
#[derive(Clone, Debug)]
pub struct InitDoc {
    pub aliases: Vec<(String, String)>,
    pub configs: Vec<(String, String)>,
}

/// Record what the line `cs[lo..hi]` defines, after the entries of the lines `before`.
fn add_line(
    cs: &Vec<char>,
    lo: usize,
    hi: usize,
    aliases: &mut Vec<(String, String)>,
    configs: &mut Vec<(String, String)>,
    Ghost(before): Ghost<Seq<Seq<char>>>,
)
    requires
        lo <= hi <= cs@.len(),
        pairs_view(old(aliases)@) == entries_of(before, 1),
        pairs_view(old(configs)@) == entries_of(before, 2),
    ensures
        pairs_view(final(aliases)@) == entries_of(before.push(cs@.subrange(lo as int, hi as int)), 1),
        pairs_view(final(configs)@) == entries_of(before.push(cs@.subrange(lo as int, hi as int)), 2),
{
    let ghost line = cs@.subrange(lo as int, hi as int);
    let l = classify_line(cs, lo, hi);
    proof {
        assert(before.push(line).drop_last() =~= before);
        assert(before.push(line).last() == line);
    }
    match l {
        InitLine::Alias { key, value } => {
            aliases.push((key, value));
            assert(pairs_view(aliases@) =~= pairs_view(old(aliases)@).push(pair_view(aliases@.last())));
        },
        InitLine::Config { key, value } => {
            configs.push((key, value));
            assert(pairs_view(configs@) =~= pairs_view(old(configs)@).push(pair_view(configs@.last())));
        },
        InitLine::Skip => {},
    }
}

/// Parse an init document. Each line is trimmed; blank lines and lines starting with
/// `#` or `//` are skipped; `name: target` (a colon after the first character, with a
/// non-empty name and target) defines an alias; otherwise `key value` (split at the
/// first whitespace) sets a configuration entry.
pub fn parse_init_doc(content: &str) -> (d: InitDoc)
    ensures
        pairs_view(d.aliases@) == entries_of(segments(content@), 1),
        pairs_view(d.configs@) == entries_of(segments(content@), 2),
{
    let cs = chars_of(content);
    let mut aliases: Vec<(String, String)> = Vec::new();
    let mut configs: Vec<(String, String)> = Vec::new();
    let mut start: usize = 0;
    let mut i: usize = 0;
    proof {
        assert(cs@.take(0) =~= Seq::<char>::empty());
        assert(cs@.subrange(0, 0) =~= Seq::<char>::empty());
        assert(segments(cs@.take(0)).drop_last() =~= Seq::<Seq<char>>::empty());
        assert(segments(cs@.take(0)).drop_last().push(cs@.subrange(0, 0)) =~= segments(cs@.take(0)));
    }
    while i < cs.len()
        invariant
            start <= i <= cs@.len(),
            cs@ == content@,
            // the segments before the current line, then the current line so far
            segments(cs@.take(i as int)) == segments(cs@.take(start as int)).drop_last().push(
                cs@.subrange(start as int, i as int)),
            pairs_view(aliases@) == entries_of(segments(cs@.take(start as int)).drop_last(), 1),
            pairs_view(configs@) == entries_of(segments(cs@.take(start as int)).drop_last(), 2),
            segments(cs@.take(start as int)).len() >= 1,
        decreases cs@.len() - i,
    {
        if cs[i] == '\n' {
            let ghost before = segments(cs@.take(start as int)).drop_last();
            let ghost line = cs@.subrange(start as int, i as int);
            add_line(&cs, start, i, &mut aliases, &mut configs, Ghost(before));
            proof {
                let s1 = cs@.take(i + 1);
                assert(s1.drop_last() =~= cs@.take(i as int));
                assert(s1.last() == '\n');
                assert(segments(s1) == segments(cs@.take(i as int)).push(Seq::<char>::empty()));
                assert(segments(s1).drop_last() =~= before.push(line));
                assert(cs@.subrange(i + 1, i + 1) =~= Seq::<char>::empty());
                assert(segments(s1).drop_last().push(Seq::<char>::empty()) =~= segments(s1));
            }
            start = i + 1;
        } else {
            proof {
                let s1 = cs@.take(i + 1);
                assert(s1.drop_last() =~= cs@.take(i as int));
                assert(s1.last() == cs@[i as int]);
                let r = segments(cs@.take(i as int));
                assert(segments(s1) == r.update(r.len() - 1, r.last().push(cs@[i as int])));
                assert(cs@.subrange(start as int, i + 1) =~= cs@.subrange(start as int, i as int).push(cs@[i as int]));
                assert(segments(s1) =~= segments(cs@.take(start as int)).drop_last().push(
                    cs@.subrange(start as int, i + 1)));
            }
        }
        i = i + 1;
    }
    let ghost before = segments(cs@.take(start as int)).drop_last();
    add_line(&cs, start, cs.len(), &mut aliases, &mut configs, Ghost(before));
    assert(cs@.take(cs@.len() as int) =~= cs@);
    InitDoc { aliases, configs }
}

/// The configuration entry that only bootstrap sets: never changed by a document.
pub open spec fn is_connection_key(k: Seq<char>) -> bool {
    k == "postgres.global.connection"@
}

/// A change that brings the stored preferences in line with a document.
#[derive(Clone, Debug)]
pub enum Change {
    Add { key: String, value: String },
    Update { key: String, old: String, new: String },
    Delete { key: String, value: String },
}

/// A change as plain values: `(op, key, first, second)` with op 0 add (value),
/// 1 update (old, new), 2 delete (value).
pub open spec fn change_view(c: Change) -> (int, Seq<char>, Seq<char>, Seq<char>) {
    match c {
        Change::Add { key, value } => (0, key@, value@, Seq::empty()),
        Change::Update { key, old, new } => (1, key@, old@, new@),
        Change::Delete { key, value } => (2, key@, value@, Seq::empty()),
    }
}

pub open spec fn changes_view(cs: Seq<Change>) -> Seq<(int, Seq<char>, Seq<char>, Seq<char>)> {
    cs.map_values(|c: Change| change_view(c))
}

/// The first stored preference with key `k`.
pub open spec fn lookup(stored: Seq<(Seq<char>, Seq<char>)>, k: Seq<char>) -> Option<Seq<char>>
    decreases stored.len(),
{
    if stored.len() == 0 {
        None
    } else {
        match lookup(stored.drop_last(), k) {
            Some(v) => Some(v),
            None => if stored.last().0 == k { Some(stored.last().1) } else { None },
        }
    }
}

/// Whether some entry of a list has key `k`.
pub open spec fn has_key(entries: Seq<(Seq<char>, Seq<char>)>, k: Seq<char>) -> bool {
    exists|i: int| 0 <= i < entries.len() && (#[trigger] entries[i]).0 == k
}

/// The changes for the document's entries, in order: an entry with a new key is added,
/// one whose stored value differs is updated, an unchanged one gives nothing.
pub open spec fn upserts(doc: Seq<(Seq<char>, Seq<char>)>, stored: Seq<(Seq<char>, Seq<char>)>, skip_connection: bool) -> Seq<(int, Seq<char>, Seq<char>, Seq<char>)>
    decreases doc.len(),
{
    if doc.len() == 0 {
        Seq::empty()
    } else {
        let rest = upserts(doc.drop_last(), stored, skip_connection);
        let (k, v) = doc.last();
        if skip_connection && is_connection_key(k) {
            rest
        } else {
            match lookup(stored, k) {
                Some(old) => if old == v { rest } else { rest.push((1, k, old, v)) },
                None => rest.push((0, k, v, Seq::empty())),
            }
        }
    }
}

/// The deletions: every stored preference whose key the document does not mention.
pub open spec fn deletions(doc: Seq<(Seq<char>, Seq<char>)>, stored: Seq<(Seq<char>, Seq<char>)>, skip_connection: bool) -> Seq<(int, Seq<char>, Seq<char>, Seq<char>)>
    decreases stored.len(),
{
    if stored.len() == 0 {
        Seq::empty()
    } else {
        let rest = deletions(doc, stored.drop_last(), skip_connection);
        let (k, v) = stored.last();
        if (skip_connection && is_connection_key(k)) || has_key(doc, k) {
            rest
        } else {
            rest.push((2, k, v, Seq::empty()))
        }
    }
}

/// All changes for one category: the upserts, then the deletions.
pub open spec fn planned_changes(doc: Seq<(Seq<char>, Seq<char>)>, stored: Seq<(Seq<char>, Seq<char>)>, skip_connection: bool) -> Seq<(int, Seq<char>, Seq<char>, Seq<char>)> {
    upserts(doc, stored, skip_connection) + deletions(doc, stored, skip_connection)
}

/// The stored preferences of a category already say what the document says: every
/// document entry's key reads as its value, and every stored key is in the document
/// (the bootstrap connection entry aside, when it is skipped).
pub open spec fn store_matches(doc: Seq<(Seq<char>, Seq<char>)>, stored: Seq<(Seq<char>, Seq<char>)>, skip_connection: bool) -> bool {
    &&& forall|i: int| 0 <= i < doc.len() && !(skip_connection && is_connection_key(#[trigger] doc[i].0))
        ==> lookup(stored, doc[i].0) == Some(doc[i].1)
    &&& forall|j: int| 0 <= j < stored.len() && !(skip_connection && is_connection_key(#[trigger] stored[j].0))
        ==> has_key(doc, stored[j].0)
}

proof fn lemma_upserts_empty(doc: Seq<(Seq<char>, Seq<char>)>, stored: Seq<(Seq<char>, Seq<char>)>, skip: bool)
    ensures
        upserts(doc, stored, skip).len() == 0 <==> forall|i: int| 0 <= i < doc.len() && !(skip && is_connection_key(#[trigger] doc[i].0))
            ==> lookup(stored, doc[i].0) == Some(doc[i].1),
    decreases doc.len(),
{
    if doc.len() > 0 {
        let d = doc.drop_last();
        lemma_upserts_empty(d, stored, skip);
        assert forall|i: int| 0 <= i < d.len() implies #[trigger] d[i] == doc[i] by {}
        let rest = upserts(d, stored, skip);
        if upserts(doc, stored, skip).len() == 0 {
            assert(rest.len() == 0);
            assert forall|i: int| 0 <= i < doc.len() && !(skip && is_connection_key(#[trigger] doc[i].0))
                implies lookup(stored, doc[i].0) == Some(doc[i].1) by {
                if i < d.len() {
                    assert(d[i] == doc[i]);
                }
            }
        } else {
            if rest.len() == 0 {
                let i = doc.len() - 1;
                assert(doc[i] == doc.last());
            } else {
                let i = choose|i: int| 0 <= i < d.len() && !(skip && is_connection_key(#[trigger] d[i].0))
                    && lookup(stored, d[i].0) != Some(d[i].1);
                assert(d[i] == doc[i]);
            }
        }
    }
}

proof fn lemma_deletions_empty(doc: Seq<(Seq<char>, Seq<char>)>, stored: Seq<(Seq<char>, Seq<char>)>, skip: bool)
    ensures
        deletions(doc, stored, skip).len() == 0 <==> forall|j: int| 0 <= j < stored.len() && !(skip && is_connection_key(#[trigger] stored[j].0))
            ==> has_key(doc, stored[j].0),
    decreases stored.len(),
{
    if stored.len() > 0 {
        let t = stored.drop_last();
        lemma_deletions_empty(doc, t, skip);
        let rest = deletions(doc, t, skip);
        if deletions(doc, stored, skip).len() == 0 {
            assert(rest.len() == 0);
            assert forall|j: int| 0 <= j < stored.len() && !(skip && is_connection_key(#[trigger] stored[j].0))
                implies has_key(doc, stored[j].0) by {
                if j < t.len() {
                    assert(t[j] == stored[j]);
                }
            }
        } else {
            if rest.len() == 0 {
                let j = stored.len() - 1;
                assert(stored[j] == stored.last());
            } else {
                let j = choose|j: int| 0 <= j < t.len() && !(skip && is_connection_key(#[trigger] t[j].0))
                    && !has_key(doc, t[j].0);
                assert(t[j] == stored[j]);
            }
        }
    }
}

/// A push plans no change, and a diff shows none, exactly when the stored preferences
/// already say what the document says.
pub proof fn law_push_plans_nothing_iff_store_matches(
    doc: Seq<(Seq<char>, Seq<char>)>,
    stored: Seq<(Seq<char>, Seq<char>)>,
    skip_connection: bool,
)
    ensures
        planned_changes(doc, stored, skip_connection).len() == 0 <==> store_matches(doc, stored, skip_connection),
{
    lemma_upserts_empty(doc, stored, skip_connection);
    lemma_deletions_empty(doc, stored, skip_connection);
}

/// No two entries share a key, as in the preference table.
pub open spec fn keys_unique(s: Seq<(Seq<char>, Seq<char>)>) -> bool {
    forall|i: int, j: int| 0 <= i < j < s.len() ==> (#[trigger] s[i]).0 != (#[trigger] s[j]).0
}

/// Setting a key, as the preference table's upsert does: the entry with the key takes the
/// value, or the entry is added.
pub open spec fn store_upsert(s: Seq<(Seq<char>, Seq<char>)>, k: Seq<char>, v: Seq<char>) -> Seq<(Seq<char>, Seq<char>)> {
    if has_key(s, k) {
        s.map_values(|e: (Seq<char>, Seq<char>)| if e.0 == k { (k, v) } else { e })
    } else {
        s.push((k, v))
    }
}

/// Deleting a key from a store.
pub open spec fn store_remove(s: Seq<(Seq<char>, Seq<char>)>, k: Seq<char>) -> Seq<(Seq<char>, Seq<char>)>
    decreases s.len(),
{
    if s.len() == 0 {
        s
    } else {
        let r = store_remove(s.drop_last(), k);
        if s.last().0 == k { r } else { r.push(s.last()) }
    }
}

/// A store after one change: an addition or update sets the key, a deletion removes it.
pub open spec fn apply_change(s: Seq<(Seq<char>, Seq<char>)>, c: (int, Seq<char>, Seq<char>, Seq<char>)) -> Seq<(Seq<char>, Seq<char>)> {
    if c.0 == 2 {
        store_remove(s, c.1)
    } else if c.0 == 0 {
        store_upsert(s, c.1, c.2)
    } else {
        store_upsert(s, c.1, c.3)
    }
}

/// A store after changes, in order.
pub open spec fn apply_changes(s: Seq<(Seq<char>, Seq<char>)>, cs: Seq<(int, Seq<char>, Seq<char>, Seq<char>)>) -> Seq<(Seq<char>, Seq<char>)>
    decreases cs.len(),
{
    if cs.len() == 0 {
        s
    } else {
        apply_change(apply_changes(s, cs.drop_last()), cs.last())
    }
}

proof fn lemma_lookup_unique(s: Seq<(Seq<char>, Seq<char>)>, k: Seq<char>)
    requires
        keys_unique(s),
    ensures
        forall|i: int| 0 <= i < s.len() && (#[trigger] s[i]).0 == k ==> lookup(s, k) == Some(s[i].1),
        !has_key(s, k) ==> lookup(s, k) is None,
        lookup(s, k) is Some ==> has_key(s, k),
{
    assert forall|i: int| 0 <= i < s.len() && (#[trigger] s[i]).0 == k implies lookup(s, k) == Some(s[i].1) by {
        assert forall|j: int| 0 <= j < i implies (#[trigger] s[j]).0 != k by {
            assert(s[j].0 != s[i].0);
        }
        lemma_lookup_first(s, k, i);
    }
    if !has_key(s, k) {
        lemma_lookup_none(s, k);
    }
    lemma_lookup(s, k);
}

proof fn lemma_upsert(s: Seq<(Seq<char>, Seq<char>)>, k: Seq<char>, v: Seq<char>)
    requires
        keys_unique(s),
    ensures
        keys_unique(store_upsert(s, k, v)),
        lookup(store_upsert(s, k, v), k) == Some(v),
        forall|k2: Seq<char>| k2 != k ==> #[trigger] lookup(store_upsert(s, k, v), k2) == lookup(s, k2),
        forall|k2: Seq<char>| #[trigger] has_key(store_upsert(s, k, v), k2) <==> (has_key(s, k2) || k2 == k),
{
    let u = store_upsert(s, k, v);
    if has_key(s, k) {
        assert forall|i: int| 0 <= i < s.len() implies (#[trigger] u[i]).0 == s[i].0 by {}
    } else {
        assert forall|i: int| 0 <= i < s.len() implies #[trigger] u[i] == s[i] by {}
        assert(u[s.len() as int] == (k, v));
    }
    assert(keys_unique(u)) by {
        assert forall|i: int, j: int| 0 <= i < j < u.len() implies (#[trigger] u[i]).0 != (#[trigger] u[j]).0 by {
            if has_key(s, k) {
                assert(s[i].0 != s[j].0);
            } else if j < s.len() {
                assert(s[i].0 != s[j].0);
            } else {
                assert(s[i].0 != k);
            }
        }
    }
    lemma_lookup_unique(u, k);
    if has_key(s, k) {
        let i = choose|i: int| 0 <= i < s.len() && (#[trigger] s[i]).0 == k;
        assert(u[i] == (k, v));
    } else {
        assert(u[s.len() as int] == (k, v));
    }
    assert forall|k2: Seq<char>| #[trigger] has_key(u, k2) <==> (has_key(s, k2) || k2 == k) by {
        if has_key(u, k2) {
            let i = choose|i: int| 0 <= i < u.len() && (#[trigger] u[i]).0 == k2;
            if i < s.len() {
                assert(u[i].0 == s[i].0);
            }
        }
        if has_key(s, k2) {
            let i = choose|i: int| 0 <= i < s.len() && (#[trigger] s[i]).0 == k2;
            assert(u[i].0 == s[i].0);
        }
        if k2 == k {
            if has_key(s, k) {
                let i = choose|i: int| 0 <= i < s.len() && (#[trigger] s[i]).0 == k;
                assert(u[i].0 == k);
            } else {
                assert(u[s.len() as int].0 == k);
            }
        }
    }
    assert forall|k2: Seq<char>| k2 != k implies #[trigger] lookup(u, k2) == lookup(s, k2) by {
        lemma_lookup_unique(s, k2);
        lemma_lookup_unique(u, k2);
        if has_key(s, k2) {
            let i = choose|i: int| 0 <= i < s.len() && (#[trigger] s[i]).0 == k2;
            assert(u[i] == s[i]);
        } else {
            assert(!has_key(u, k2));
        }
    }
}

proof fn lemma_remove(s: Seq<(Seq<char>, Seq<char>)>, k: Seq<char>)
    requires
        keys_unique(s),
    ensures
        keys_unique(store_remove(s, k)),
        !has_key(store_remove(s, k), k),
        forall|k2: Seq<char>| k2 != k ==> #[trigger] lookup(store_remove(s, k), k2) == lookup(s, k2),
        forall|k2: Seq<char>| #[trigger] has_key(store_remove(s, k), k2) <==> (has_key(s, k2) && k2 != k),
    decreases s.len(),
{
    if s.len() == 0 {
        assert(!has_key(store_remove(s, k), k));
        assert forall|k2: Seq<char>| #[trigger] has_key(store_remove(s, k), k2) <==> (has_key(s, k2) && k2 != k) by {}
    } else {
        let t = s.drop_last();
        assert(keys_unique(t)) by {
            assert forall|i: int, j: int| 0 <= i < j < t.len() implies (#[trigger] t[i]).0 != (#[trigger] t[j]).0 by {
                assert(s[i].0 != s[j].0);
            }
        }
        lemma_remove(t, k);
        let r = store_remove(t, k);
        let out = store_remove(s, k);
        let last = s.last();
        assert forall|k2: Seq<char>| #[trigger] has_key(s, k2) <==> (has_key(t, k2) || last.0 == k2) by {
            if has_key(s, k2) {
                let i = choose|i: int| 0 <= i < s.len() && (#[trigger] s[i]).0 == k2;
                if i < t.len() {
                    assert(t[i] == s[i]);
                }
            }
            if has_key(t, k2) {
                let i = choose|i: int| 0 <= i < t.len() && (#[trigger] t[i]).0 == k2;
                assert(s[i] == t[i]);
            }
            if last.0 == k2 {
                assert(s[s.len() - 1].0 == k2);
            }
        }
        assert(!has_key(t, last.0)) by {
            if has_key(t, last.0) {
                let i = choose|i: int| 0 <= i < t.len() && (#[trigger] t[i]).0 == last.0;
                assert(s[i].0 != s[s.len() - 1].0);
            }
        }
        if last.0 != k {
            assert forall|k2: Seq<char>| #[trigger] has_key(out, k2) <==> (has_key(r, k2) || last.0 == k2) by {
                if has_key(out, k2) {
                    let i = choose|i: int| 0 <= i < out.len() && (#[trigger] out[i]).0 == k2;
                    if i < r.len() {
                        assert(out[i] == r[i]);
                    }
                }
                if has_key(r, k2) {
                    let i = choose|i: int| 0 <= i < r.len() && (#[trigger] r[i]).0 == k2;
                    assert(out[i] == r[i]);
                }
                if last.0 == k2 {
                    assert(out[r.len() as int].0 == k2);
                }
            }
            assert(keys_unique(out)) by {
                assert forall|i: int, j: int| 0 <= i < j < out.len() implies (#[trigger] out[i]).0 != (#[trigger] out[j]).0 by {
                    if j < r.len() {
                        assert(out[i] == r[i] && out[j] == r[j]);
                    } else {
                        assert(out[i] == r[i]);
                        assert(has_key(r, r[i].0));
                    }
                }
            }
            assert forall|k2: Seq<char>| k2 != k implies #[trigger] lookup(out, k2) == lookup(s, k2) by {
                lemma_lookup_unique(out, k2);
                lemma_lookup_unique(s, k2);
                lemma_lookup_unique(r, k2);
                lemma_lookup_unique(t, k2);
                if k2 == last.0 {
                    assert(out[r.len() as int] == last);
                    assert(s[s.len() - 1] == last);
                } else if has_key(r, k2) {
                    let i = choose|i: int| 0 <= i < r.len() && (#[trigger] r[i]).0 == k2;
                    assert(out[i] == r[i]);
                    assert(lookup(r, k2) == lookup(t, k2));
                    let j = choose|j: int| 0 <= j < t.len() && (#[trigger] t[j]).0 == k2;
                    assert(s[j] == t[j]);
                } else {
                    assert(!has_key(out, k2));
                    assert(!has_key(s, k2));
                }
            }
        } else {
            assert(out == r);
            assert forall|k2: Seq<char>| k2 != k implies #[trigger] lookup(out, k2) == lookup(s, k2) by {
                lemma_lookup_unique(s, k2);
                lemma_lookup_unique(t, k2);
                if has_key(t, k2) {
                    let j = choose|j: int| 0 <= j < t.len() && (#[trigger] t[j]).0 == k2;
                    assert(s[j] == t[j]);
                } else {
                    assert(!has_key(s, k2));
                }
            }
        }
    }
}

proof fn lemma_apply_concat(s: Seq<(Seq<char>, Seq<char>)>, a: Seq<(int, Seq<char>, Seq<char>, Seq<char>)>, b: Seq<(int, Seq<char>, Seq<char>, Seq<char>)>)
    ensures
        apply_changes(s, a + b) == apply_changes(apply_changes(s, a), b),
    decreases b.len(),
{
    if b.len() == 0 {
        assert(a + b =~= a);
    } else {
        assert((a + b).drop_last() =~= a + b.drop_last());
        assert((a + b).last() == b.last());
        lemma_apply_concat(s, a, b.drop_last());
    }
}

/// Whether a key is left alone.
pub open spec fn skipped_key(k: Seq<char>, skip_connection: bool) -> bool {
    skip_connection && is_connection_key(k)
}

/// The document gives each key it sets one value.
pub open spec fn doc_consistent(doc: Seq<(Seq<char>, Seq<char>)>, skip_connection: bool) -> bool {
    forall|i: int, j: int| 0 <= i < doc.len() && 0 <= j < doc.len() && (#[trigger] doc[i]).0 == (#[trigger] doc[j]).0
        && !skipped_key(doc[i].0, skip_connection) ==> doc[i].1 == doc[j].1
}

/// Whether the document sets a key.
pub open spec fn doc_sets(doc: Seq<(Seq<char>, Seq<char>)>, k: Seq<char>, skip_connection: bool) -> bool {
    has_key(doc, k) && !skipped_key(k, skip_connection)
}

proof fn lemma_has_key_push(d: Seq<(Seq<char>, Seq<char>)>, e: (Seq<char>, Seq<char>))
    ensures
        forall|k: Seq<char>| #[trigger] has_key(d.push(e), k) <==> (has_key(d, k) || e.0 == k),
{
    let doc = d.push(e);
    assert forall|k: Seq<char>| #[trigger] has_key(doc, k) <==> (has_key(d, k) || e.0 == k) by {
        if has_key(doc, k) {
            let i = choose|i: int| 0 <= i < doc.len() && (#[trigger] doc[i]).0 == k;
            if i < d.len() {
                assert(d[i] == doc[i]);
            }
        }
        if has_key(d, k) {
            let i = choose|i: int| 0 <= i < d.len() && (#[trigger] d[i]).0 == k;
            assert(doc[i] == d[i]);
        }
        if e.0 == k {
            assert(doc[d.len() as int] == e);
        }
    }
}

proof fn lemma_upserts_apply(doc: Seq<(Seq<char>, Seq<char>)>, stored: Seq<(Seq<char>, Seq<char>)>, skip: bool)
    requires
        keys_unique(stored),
        doc_consistent(doc, skip),
    ensures
        ({
            let s1 = apply_changes(stored, upserts(doc, stored, skip));
            &&& keys_unique(s1)
            &&& forall|i: int| 0 <= i < doc.len() && !skipped_key(#[trigger] doc[i].0, skip) ==> lookup(s1, doc[i].0) == Some(doc[i].1)
            &&& forall|k: Seq<char>| !doc_sets(doc, k, skip) ==> #[trigger] lookup(s1, k) == lookup(stored, k)
            &&& forall|k: Seq<char>| #[trigger] has_key(s1, k) ==> has_key(stored, k) || has_key(doc, k)
        }),
    decreases doc.len(),
{
    if doc.len() > 0 {
        let d = doc.drop_last();
        let e = doc.last();
        let (k, v) = e;
        assert(doc == d.push(e));
        assert(doc_consistent(d, skip)) by {
            assert forall|i: int, j: int| 0 <= i < d.len() && 0 <= j < d.len() && (#[trigger] d[i]).0 == (#[trigger] d[j]).0
                && !skipped_key(d[i].0, skip) implies d[i].1 == d[j].1 by {
                assert(d[i] == doc[i] && d[j] == doc[j]);
            }
        }
        lemma_upserts_apply(d, stored, skip);
        lemma_has_key_push(d, e);
        let u0 = upserts(d, stored, skip);
        let s0 = apply_changes(stored, u0);
        let s1 = apply_changes(stored, upserts(doc, stored, skip));
        // what the earlier entries say of k
        let earlier = doc_sets(d, k, skip);
        if earlier {
            let j = choose|j: int| 0 <= j < d.len() && (#[trigger] d[j]).0 == k;
            assert(d[j] == doc[j]);
            assert(doc[doc.len() - 1] == e);
            assert(d[j].1 == v);
        }
        assert(!earlier ==> lookup(s0, k) == lookup(stored, k));
        if skipped_key(k, skip) {
            assert(s1 == s0);
        } else if lookup(stored, k) == Some(v) {
            assert(s1 == s0);
            assert(lookup(s1, k) == Some(v));
        } else {
            let c = match lookup(stored, k) {
                Some(old) => (1int, k, old, v),
                None => (0int, k, v, Seq::<char>::empty()),
            };
            assert(upserts(doc, stored, skip) == u0.push(c));
            assert(u0.push(c).drop_last() =~= u0);
            assert(s1 == apply_change(s0, c));
            assert(s1 == store_upsert(s0, k, v));
            lemma_upsert(s0, k, v);
        }
        assert forall|i: int| 0 <= i < doc.len() && !skipped_key(#[trigger] doc[i].0, skip)
            implies lookup(s1, doc[i].0) == Some(doc[i].1) by {
            if i < d.len() {
                assert(d[i] == doc[i]);
                if doc[i].0 == k {
                    assert(doc[doc.len() - 1] == e);
                }
            } else {
                assert(doc[i] == e);
            }
        }
        assert forall|k2: Seq<char>| !doc_sets(doc, k2, skip) implies #[trigger] lookup(s1, k2) == lookup(stored, k2) by {
            assert(!doc_sets(d, k2, skip));
        }
    }
}

proof fn lemma_deletions_apply(doc: Seq<(Seq<char>, Seq<char>)>, t: Seq<(Seq<char>, Seq<char>)>, s1: Seq<(Seq<char>, Seq<char>)>, skip: bool)
    requires
        keys_unique(s1),
    ensures
        ({
            let s2 = apply_changes(s1, deletions(doc, t, skip));
            &&& keys_unique(s2)
            &&& forall|k: Seq<char>| has_key(doc, k) ==> #[trigger] lookup(s2, k) == lookup(s1, k)
            &&& forall|j: int| 0 <= j < t.len() && !skipped_key(#[trigger] t[j].0, skip) && !has_key(doc, t[j].0)
                ==> !has_key(s2, t[j].0)
            &&& forall|k: Seq<char>| #[trigger] has_key(s2, k) ==> has_key(s1, k)
        }),
    decreases t.len(),
{
    if t.len() > 0 {
        let r = t.drop_last();
        let (k, v) = t.last();
        lemma_deletions_apply(doc, r, s1, skip);
        let dl = deletions(doc, r, skip);
        let s0 = apply_changes(s1, dl);
        let s2 = apply_changes(s1, deletions(doc, t, skip));
        if skipped_key(k, skip) || has_key(doc, k) {
            assert(s2 == s0);
        } else {
            let c = (2int, k, v, Seq::<char>::empty());
            assert(deletions(doc, t, skip) == dl.push(c));
            assert(dl.push(c).drop_last() =~= dl);
            assert(s2 == store_remove(s0, k));
            lemma_remove(s0, k);
        }
        assert forall|j: int| 0 <= j < t.len() && !skipped_key(#[trigger] t[j].0, skip) && !has_key(doc, t[j].0)
            implies !has_key(s2, t[j].0) by {
            if j < r.len() {
                assert(r[j] == t[j]);
            }
        }
    }
}

/// Pushing a document brings the store in line with it: once the planned changes are
/// applied (additions and updates set their key, deletions remove theirs), the stored
/// preferences say what the document says, so pushing the same document again plans
/// no change and a diff shows none; the store then holds exactly the document's keys.
/// The document must give each key it sets one value;
/// the stored keys are unique, as the preference table keeps them.
pub proof fn law_push_is_idempotent(
    doc: Seq<(Seq<char>, Seq<char>)>,
    stored: Seq<(Seq<char>, Seq<char>)>,
    skip_connection: bool,
)
    requires
        keys_unique(stored),
        doc_consistent(doc, skip_connection),
    ensures
        store_matches(doc, apply_changes(stored, planned_changes(doc, stored, skip_connection)), skip_connection),
        planned_changes(doc, apply_changes(stored, planned_changes(doc, stored, skip_connection)), skip_connection).len() == 0,
        forall|k: Seq<char>| !(skip_connection && is_connection_key(k)) ==>
            (#[trigger] lookup(apply_changes(stored, planned_changes(doc, stored, skip_connection)), k) is Some <==> has_key(doc, k)),
{
    let up = upserts(doc, stored, skip_connection);
    let del = deletions(doc, stored, skip_connection);
    lemma_apply_concat(stored, up, del);
    lemma_upserts_apply(doc, stored, skip_connection);
    let s1 = apply_changes(stored, up);
    lemma_deletions_apply(doc, stored, s1, skip_connection);
    let s2 = apply_changes(s1, del);
    assert(apply_changes(stored, planned_changes(doc, stored, skip_connection)) == s2);
    assert forall|i: int| 0 <= i < doc.len() && !(skip_connection && is_connection_key(#[trigger] doc[i].0))
        implies lookup(s2, doc[i].0) == Some(doc[i].1) by {
        assert(has_key(doc, doc[i].0));
    }
    assert forall|j: int| 0 <= j < s2.len() && !(skip_connection && is_connection_key(#[trigger] s2[j].0))
        implies has_key(doc, s2[j].0) by {
        let k = s2[j].0;
        assert(has_key(s2, k));
        if !has_key(doc, k) {
            assert(has_key(stored, k));
            let j2 = choose|j2: int| 0 <= j2 < stored.len() && (#[trigger] stored[j2]).0 == k;
            assert(!has_key(s2, stored[j2].0));
        }
    }
    law_push_plans_nothing_iff_store_matches(doc, s2, skip_connection);
    assert forall|k: Seq<char>| !(skip_connection && is_connection_key(k)) implies
        (#[trigger] lookup(s2, k) is Some <==> has_key(doc, k)) by {
        lemma_lookup(s2, k);
        if has_key(doc, k) {
            let i = choose|i: int| 0 <= i < doc.len() && (#[trigger] doc[i]).0 == k;
            assert(lookup(s2, doc[i].0) == Some(doc[i].1));
        }
        if lookup(s2, k) is Some {
            let j = choose|j: int| 0 <= j < s2.len() && (#[trigger] s2[j]).0 == k && s2[j].1 == lookup(s2, k)->0;
            assert(has_key(doc, s2[j].0));
        }
    }
}

fn find_value(stored: &[(String, String)], k: &str) -> (r: Option<usize>)
    ensures
        match r {
            Some(i) => i < stored@.len() && lookup(pairs_view(stored@), k@) == Some(stored@[i as int].1@),
            None => lookup(pairs_view(stored@), k@) is None,
        },
{
    let ghost sv = pairs_view(stored@);
    proof {
        lemma_lookup(sv, k@);
    }
    let mut i: usize = 0;
    while i < stored.len()
        invariant
            i <= stored@.len(),
            sv == pairs_view(stored@),
            sv.len() == stored@.len(),
            forall|j: int| 0 <= j < i ==> (#[trigger] sv[j]).0 != k@,
        decreases stored@.len() - i,
    {
        if str_is(stored[i].0.as_str(), k) {
            proof {
                lemma_lookup_first(sv, k@, i as int);
            }
            return Some(i);
        }
        i = i + 1;
    }
    proof {
        lemma_lookup_none(sv, k@);
    }
    None
}

proof fn lemma_lookup(s: Seq<(Seq<char>, Seq<char>)>, k: Seq<char>)
    ensures
        lookup(s, k) matches Some(v) ==> exists|i: int| 0 <= i < s.len() && (#[trigger] s[i]).0 == k && s[i].1 == v,
    decreases s.len(),
{
    if s.len() > 0 {
        lemma_lookup(s.drop_last(), k);
        if let Some(v) = lookup(s.drop_last(), k) {
            let i = choose|i: int| 0 <= i < s.drop_last().len() && (#[trigger] s.drop_last()[i]).0 == k && s.drop_last()[i].1 == v;
            assert(s[i] == s.drop_last()[i]);
        }
    }
}

proof fn lemma_lookup_first(s: Seq<(Seq<char>, Seq<char>)>, k: Seq<char>, i: int)
    requires
        0 <= i < s.len(),
        s[i].0 == k,
        forall|j: int| 0 <= j < i ==> (#[trigger] s[j]).0 != k,
    ensures
        lookup(s, k) == Some(s[i].1),
    decreases s.len(),
{
    if i < s.len() - 1 {
        assert forall|j: int| 0 <= j < i implies (#[trigger] s.drop_last()[j]).0 != k by {
            assert(s.drop_last()[j] == s[j]);
        }
        assert(s.drop_last()[i] == s[i]);
        lemma_lookup_first(s.drop_last(), k, i);
    } else {
        assert forall|j: int| 0 <= j < s.drop_last().len() implies (#[trigger] s.drop_last()[j]).0 != k by {
            assert(s.drop_last()[j] == s[j]);
        }
        lemma_lookup_none(s.drop_last(), k);
    }
}

proof fn lemma_lookup_none(s: Seq<(Seq<char>, Seq<char>)>, k: Seq<char>)
    requires
        forall|j: int| 0 <= j < s.len() ==> (#[trigger] s[j]).0 != k,
    ensures
        lookup(s, k) is None,
    decreases s.len(),
{
    if s.len() > 0 {
        assert forall|j: int| 0 <= j < s.drop_last().len() implies (#[trigger] s.drop_last()[j]).0 != k by {
            assert(s.drop_last()[j] == s[j]);
        }
        lemma_lookup_none(s.drop_last(), k);
    }
}

fn any_key(entries: &[(String, String)], k: &str) -> (b: bool)
    ensures
        b == has_key(pairs_view(entries@), k@),
{
    let mut i: usize = 0;
    while i < entries.len()
        invariant
            i <= entries@.len(),
            forall|j: int| 0 <= j < i ==> (#[trigger] entries@[j]).0@ != k@,
        decreases entries@.len() - i,
    {
        if str_is(entries[i].0.as_str(), k) {
            assert(pairs_view(entries@)[i as int].0 == k@);
            return true;
        }
        i = i + 1;
    }
    proof {
        if has_key(pairs_view(entries@), k@) {
            let j = choose|j: int| 0 <= j < pairs_view(entries@).len() && (#[trigger] pairs_view(entries@)[j]).0 == k@;
            assert(entries@[j].0@ == k@);
        }
    }
    false
}

fn copy_string(s: &String) -> (t: String)
    ensures
        t@ == s@,
{
    s.clone()
}

/// The changes that make one category of stored preferences match the document's
/// entries. With `skip_connection`, the bootstrap connection entry is left alone.
pub fn plan_changes(doc: &[(String, String)], stored: &[(String, String)], skip_connection: bool) -> (out: Vec<Change>)
    ensures
        changes_view(out@) == planned_changes(pairs_view(doc@), pairs_view(stored@), skip_connection),
{
    let ghost dv = pairs_view(doc@);
    let ghost sv = pairs_view(stored@);
    let mut out: Vec<Change> = Vec::new();
    let mut i: usize = 0;
    while i < doc.len()
        invariant
            i <= doc@.len(),
            dv == pairs_view(doc@),
            sv == pairs_view(stored@),
            changes_view(out@) == upserts(dv.take(i as int), sv, skip_connection),
        decreases doc@.len() - i,
    {
        proof {
            assert(dv.take(i + 1).drop_last() =~= dv.take(i as int));
            assert(dv.take(i + 1).last() == pair_view(doc@[i as int]));
            reveal_strlit("postgres.global.connection");
        }
        let k = doc[i].0.as_str();
        let v = doc[i].1.as_str();
        let skip = skip_connection && str_is(k, "postgres.global.connection");
        if !skip {
            match find_value(stored, k) {
                Some(j) => {
                    if !str_is(stored[j].1.as_str(), v) {
                        out.push(Change::Update { key: copy_string(&doc[i].0), old: copy_string(&stored[j].1), new: copy_string(&doc[i].1) });
                        assert(changes_view(out@) =~= changes_view(out@.drop_last()).push(change_view(out@.last())));
                    }
                },
                None => {
                    out.push(Change::Add { key: copy_string(&doc[i].0), value: copy_string(&doc[i].1) });
                    assert(changes_view(out@) =~= changes_view(out@.drop_last()).push(change_view(out@.last())));
                },
            }
        }
        i = i + 1;
    }
    assert(dv.take(doc@.len() as int) =~= dv);
    let ghost ups = out@;
    let mut j: usize = 0;
    while j < stored.len()
        invariant
            j <= stored@.len(),
            dv == pairs_view(doc@),
            sv == pairs_view(stored@),
            changes_view(ups) == upserts(dv, sv, skip_connection),
            out@.len() >= ups.len(),
            out@.take(ups.len() as int) == ups,
            changes_view(out@.skip(ups.len() as int)) == deletions(dv, sv.take(j as int), skip_connection),
        decreases stored@.len() - j,
    {
        proof {
            assert(sv.take(j + 1).drop_last() =~= sv.take(j as int));
            assert(sv.take(j + 1).last() == pair_view(stored@[j as int]));
            reveal_strlit("postgres.global.connection");
        }
        let k = stored[j].0.as_str();
        let skip = (skip_connection && str_is(k, "postgres.global.connection")) || any_key(doc, k);
        if !skip {
            let ghost prev = out@;
            out.push(Change::Delete { key: copy_string(&stored[j].0), value: copy_string(&stored[j].1) });
            assert(out@.take(ups.len() as int) =~= prev.take(ups.len() as int));
            assert(out@.skip(ups.len() as int) =~= prev.skip(ups.len() as int).push(out@.last()));
            assert(changes_view(out@.skip(ups.len() as int)) =~= changes_view(prev.skip(ups.len() as int)).push(change_view(out@.last())));
        }
        j = j + 1;
    }
    assert(sv.take(stored@.len() as int) =~= sv);
    assert(out@ =~= out@.take(ups.len() as int) + out@.skip(ups.len() as int));
    assert(changes_view(out@) =~= changes_view(out@.take(ups.len() as int)) + changes_view(out@.skip(ups.len() as int)));
    out
}

/// The counts of a plan: added, updated, deleted.
pub open spec fn count_op(cs: Seq<(int, Seq<char>, Seq<char>, Seq<char>)>, op: int) -> nat
    decreases cs.len(),
{
    if cs.len() == 0 {
        0
    } else {
        count_op(cs.drop_last(), op) + (if cs.last().0 == op { 1nat } else { 0nat })
    }
}

/// How many changes of each kind a plan holds: `(added, updated, deleted)`.
pub fn change_counts(changes: &[Change]) -> (r: (u64, u64, u64))
    ensures
        r.0 == count_op(changes_view(changes@), 0),
        r.1 == count_op(changes_view(changes@), 1),
        r.2 == count_op(changes_view(changes@), 2),
{
    let ghost cv = changes_view(changes@);
    let mut a: u64 = 0;
    let mut u: u64 = 0;
    let mut d: u64 = 0;
    let mut i: usize = 0;
    while i < changes.len()
        invariant
            i <= changes@.len(),
            cv == changes_view(changes@),
            a == count_op(cv.take(i as int), 0),
            u == count_op(cv.take(i as int), 1),
            d == count_op(cv.take(i as int), 2),
            a + u + d <= i,
        decreases changes@.len() - i,
    {
        assert(cv.take(i + 1).drop_last() =~= cv.take(i as int));
        assert(cv.take(i + 1).last() == change_view(changes@[i as int]));
        proof {
            lemma_count_ops_total(cv.take(i as int));
        }
        match &changes[i] {
            Change::Add { .. } => { a = a + 1; },
            Change::Update { .. } => { u = u + 1; },
            Change::Delete { .. } => { d = d + 1; },
        }
        i = i + 1;
    }
    assert(cv.take(changes@.len() as int) =~= cv);
    (a, u, d)
}

proof fn lemma_count_ops_total(cs: Seq<(int, Seq<char>, Seq<char>, Seq<char>)>)
    ensures
        count_op(cs, 0) + count_op(cs, 1) + count_op(cs, 2) <= cs.len(),
    decreases cs.len(),
{
    if cs.len() > 0 {
        lemma_count_ops_total(cs.drop_last());
    }
}

/// Whether every change is an addition, an update or a deletion.
pub open spec fn ops_known(cs: Seq<(int, Seq<char>, Seq<char>, Seq<char>)>) -> bool {
    forall|i: int| 0 <= i < cs.len() ==> 0 <= (#[trigger] cs[i]).0 <= 2
}

proof fn lemma_count_ops_exact(cs: Seq<(int, Seq<char>, Seq<char>, Seq<char>)>)
    requires
        ops_known(cs),
    ensures
        count_op(cs, 0) + count_op(cs, 1) + count_op(cs, 2) == cs.len(),
    decreases cs.len(),
{
    if cs.len() > 0 {
        assert(ops_known(cs.drop_last())) by {
            assert forall|i: int| 0 <= i < cs.drop_last().len() implies 0 <= (#[trigger] cs.drop_last()[i]).0 <= 2 by {
                assert(cs.drop_last()[i] == cs[i]);
            }
        }
        lemma_count_ops_exact(cs.drop_last());
        assert(0 <= cs[cs.len() - 1].0 <= 2);
    }
}

proof fn lemma_upserts_known(doc: Seq<(Seq<char>, Seq<char>)>, stored: Seq<(Seq<char>, Seq<char>)>, skip: bool)
    ensures
        ops_known(upserts(doc, stored, skip)),
    decreases doc.len(),
{
    if doc.len() > 0 {
        lemma_upserts_known(doc.drop_last(), stored, skip);
    }
}

proof fn lemma_deletions_known(doc: Seq<(Seq<char>, Seq<char>)>, stored: Seq<(Seq<char>, Seq<char>)>, skip: bool)
    ensures
        ops_known(deletions(doc, stored, skip)),
    decreases stored.len(),
{
    if stored.len() > 0 {
        lemma_deletions_known(doc, stored.drop_last(), skip);
    }
}

proof fn lemma_planned_known(doc: Seq<(Seq<char>, Seq<char>)>, stored: Seq<(Seq<char>, Seq<char>)>, skip: bool)
    ensures
        ops_known(planned_changes(doc, stored, skip)),
{
    lemma_upserts_known(doc, stored, skip);
    lemma_deletions_known(doc, stored, skip);
    let u = upserts(doc, stored, skip);
    let d = deletions(doc, stored, skip);
    let all = u + d;
    assert forall|i: int| 0 <= i < all.len() implies 0 <= (#[trigger] all[i]).0 <= 2 by {
        if i < u.len() { assert(all[i] == u[i]); } else { assert(all[i] == d[i - u.len()]); }
    }
}

/// A diff counts what a push does: `diff_init` lists the planned alias and
/// configuration changes that `push_init` plans (both contracts name the same
/// `planned_changes`), and every planned change is an addition, an update or a
/// deletion, so `push_init`'s three counts add up to the number of changes listed.
pub proof fn law_diff_counts_match_push(text: Seq<char>, stored_aliases: Seq<(Seq<char>, Seq<char>)>, stored_configs: Seq<(Seq<char>, Seq<char>)>)
    ensures
        ({
            let lines = segments(text);
            let ac = planned_changes(entries_of(lines, 1), stored_aliases, false);
            let cc = planned_changes(entries_of(lines, 2), stored_configs, true);
            count_op(ac + cc, 0) + count_op(ac + cc, 1) + count_op(ac + cc, 2) == ac.len() + cc.len()
        }),
{
    let lines = segments(text);
    let da = entries_of(lines, 1);
    let dc = entries_of(lines, 2);
    let ac = planned_changes(da, stored_aliases, false);
    let cc = planned_changes(dc, stored_configs, true);
    lemma_upserts_known(da, stored_aliases, false);
    lemma_deletions_known(da, stored_aliases, false);
    lemma_upserts_known(dc, stored_configs, true);
    lemma_deletions_known(dc, stored_configs, true);
    let all = ac + cc;
    assert forall|i: int| 0 <= i < all.len() implies 0 <= (#[trigger] all[i]).0 <= 2 by {
        let ua = upserts(da, stored_aliases, false);
        let uc = upserts(dc, stored_configs, true);
        if i < ac.len() {
            assert(all[i] == ac[i]);
            if i < ua.len() { assert(ac[i] == ua[i]); } else { assert(ac[i] == deletions(da, stored_aliases, false)[i - ua.len()]); }
        } else {
            let j = i - ac.len();
            assert(all[i] == cc[j]);
            if j < uc.len() { assert(cc[j] == uc[j]); } else { assert(cc[j] == deletions(dc, stored_configs, true)[j - uc.len()]); }
        }
    }
    lemma_count_ops_exact(all);
}

/// Lines each followed by a newline.
pub open spec fn terminated(lines: Seq<Seq<char>>) -> Seq<char>
    decreases lines.len(),
{
    if lines.len() == 0 {
        Seq::empty()
    } else {
        terminated(lines.drop_last()) + lines.last() + seq!['\n']
    }
}

pub open spec fn alias_line(e: (Seq<char>, Seq<char>)) -> Seq<char> {
    e.0 + ": "@ + e.1
}

pub open spec fn config_line(e: (Seq<char>, Seq<char>)) -> Seq<char> {
    e.0 + " "@ + e.1
}

/// The lines of the document for some stored preferences: an `# aliases` section with
/// `name: target` lines, then (after a blank line when aliases came first) a `# config`
/// section with `key value` lines; a hint comment when there are none.
pub open spec fn doc_lines(aliases: Seq<(Seq<char>, Seq<char>)>, configs: Seq<(Seq<char>, Seq<char>)>) -> Seq<Seq<char>> {
    let al = if aliases.len() > 0 {
        seq!["# aliases"@] + aliases.map_values(|e: (Seq<char>, Seq<char>)| alias_line(e))
    } else {
        Seq::empty()
    };
    let cl = if configs.len() > 0 {
        (if al.len() > 0 { seq![Seq::<char>::empty()] } else { Seq::empty() }) + seq!["# config"@]
            + configs.map_values(|e: (Seq<char>, Seq<char>)| config_line(e))
    } else {
        Seq::empty()
    };
    if al.len() + cl.len() == 0 {
        seq!["# empty \u{2014} add aliases (name: target) and config (key value)"@]
    } else {
        al + cl
    }
}

fn push_line(out: &mut String, Ghost(lines): Ghost<Seq<Seq<char>>>, line: &str) -> (r: Ghost<Seq<Seq<char>>>)
    requires
        old(out)@ == terminated(lines),
    ensures
        r@ == lines.push(line@),
        final(out)@ == terminated(r@),
{
    push_str(out, line);
    push_char(out, '\n');
    let ghost r = lines.push(line@);
    assert(r.drop_last() =~= lines);
    assert(out@ =~= terminated(r));
    Ghost(r)
}

fn push_entry_line(out: &mut String, Ghost(lines): Ghost<Seq<Seq<char>>>, key: &str, sep: &str, value: &str) -> (r: Ghost<Seq<Seq<char>>>)
    requires
        old(out)@ == terminated(lines),
    ensures
        r@ == lines.push(key@ + sep@ + value@),
        final(out)@ == terminated(r@),
{
    push_str(out, key);
    push_str(out, sep);
    push_str(out, value);
    push_char(out, '\n');
    let ghost r = lines.push(key@ + sep@ + value@);
    assert(r.drop_last() =~= lines);
    assert(out@ =~= terminated(r));
    Ghost(r)
}

/// Render stored preferences (aliases and configuration, each in key order) as an init
/// document.
pub fn render_init_doc(aliases: &[(String, String)], configs: &[(String, String)]) -> (doc: String)
    ensures
        doc@ == terminated(doc_lines(pairs_view(aliases@), pairs_view(configs@))),
{
    let ghost av = pairs_view(aliases@);
    let ghost cv = pairs_view(configs@);
    let mut doc = String::new();
    let ghost mut lines: Seq<Seq<char>> = Seq::empty();
    assert(doc@ =~= terminated(lines));
    if aliases.len() > 0 {
        let Ghost(l) = push_line(&mut doc, Ghost(lines), "# aliases");
        proof { lines = l; }
        let mut i: usize = 0;
        while i < aliases.len()
            invariant
                i <= aliases@.len(),
                av == pairs_view(aliases@),
                doc@ == terminated(lines),
                lines == seq!["# aliases"@] + av.take(i as int).map_values(|e: (Seq<char>, Seq<char>)| alias_line(e)),
            decreases aliases@.len() - i,
        {
            let Ghost(l) = push_entry_line(&mut doc, Ghost(lines), aliases[i].0.as_str(), ": ", aliases[i].1.as_str());
            proof {
                lines = l;
                assert(av.take(i + 1).map_values(|e: (Seq<char>, Seq<char>)| alias_line(e)) =~=
                    av.take(i as int).map_values(|e: (Seq<char>, Seq<char>)| alias_line(e)).push(alias_line(av[i as int])));
                assert(lines =~= seq!["# aliases"@] + av.take(i + 1).map_values(|e: (Seq<char>, Seq<char>)| alias_line(e)));
            }
            i = i + 1;
        }
        assert(av.take(aliases@.len() as int) =~= av);
    }
    let ghost al = lines;
    assert(aliases@.len() > 0 ==> al.len() >= 1);
    assert(aliases@.len() == 0 ==> al.len() == 0);
    proof {
        reveal_strlit("");
    }
    if configs.len() > 0 {
        if aliases.len() > 0 {
            let Ghost(l) = push_line(&mut doc, Ghost(lines), "");
            proof {
                lines = l;
                assert(""@ =~= Seq::<char>::empty());
                assert(lines =~= al + seq![Seq::<char>::empty()]);
            }
        } else {
            assert(lines =~= al + Seq::<Seq<char>>::empty());
        }
        let Ghost(l) = push_line(&mut doc, Ghost(lines), "# config");
        proof { lines = l; }
        let ghost head = lines;
        assert(head =~= al + (if al.len() > 0 { seq![Seq::<char>::empty()] } else { Seq::<Seq<char>>::empty() })
            + seq!["# config"@]);
        let mut i: usize = 0;
        while i < configs.len()
            invariant
                i <= configs@.len(),
                cv == pairs_view(configs@),
                doc@ == terminated(lines),
                lines == head + cv.take(i as int).map_values(|e: (Seq<char>, Seq<char>)| config_line(e)),
            decreases configs@.len() - i,
        {
            let Ghost(l) = push_entry_line(&mut doc, Ghost(lines), configs[i].0.as_str(), " ", configs[i].1.as_str());
            proof {
                lines = l;
                assert(cv.take(i + 1).map_values(|e: (Seq<char>, Seq<char>)| config_line(e)) =~=
                    cv.take(i as int).map_values(|e: (Seq<char>, Seq<char>)| config_line(e)).push(config_line(cv[i as int])));
                assert(lines =~= head + cv.take(i + 1).map_values(|e: (Seq<char>, Seq<char>)| config_line(e)));
            }
            i = i + 1;
        }
        assert(cv.take(configs@.len() as int) =~= cv);
        assert(lines =~= al + ((if al.len() > 0 { seq![Seq::<char>::empty()] } else { Seq::<Seq<char>>::empty() })
            + seq!["# config"@] + cv.map_values(|e: (Seq<char>, Seq<char>)| config_line(e))));
    }
    if aliases.len() == 0 && configs.len() == 0 {
        let Ghost(l) = push_line(&mut doc, Ghost(lines), "# empty \u{2014} add aliases (name: target) and config (key value)");
        proof { lines = l; }
        assert(lines =~= doc_lines(av, cv));
    } else {
        assert(lines =~= doc_lines(av, cv));
    }
    doc
}

/// The JSON string escape of a text: backslash, quote, newline, carriage return and tab.
pub open spec fn spec_json_escape(s: Seq<char>) -> Seq<char>
    decreases s.len(),
{
    if s.len() == 0 {
        Seq::empty()
    } else {
        let rest = spec_json_escape(s.drop_last());
        let c = s.last();
        if c == '\\' {
            rest + seq!['\\', '\\']
        } else if c == '"' {
            rest + seq!['\\', '"']
        } else if c == '\n' {
            rest + seq!['\\', 'n']
        } else if c == '\r' {
            rest + seq!['\\', 'r']
        } else if c == '\t' {
            rest + seq!['\\', 't']
        } else {
            rest.push(c)
        }
    }
}

/// Escape a text for a JSON string.
pub fn json_escape(s: &str) -> (out: String)
    ensures
        out@ == spec_json_escape(s@),
{
    let cs = chars_of(s);
    let mut out = String::new();
    let mut i: usize = 0;
    while i < cs.len()
        invariant
            i <= cs@.len(),
            cs@ == s@,
            out@ == spec_json_escape(cs@.take(i as int)),
        decreases cs@.len() - i,
    {
        let c = cs[i];
        assert(cs@.take(i + 1).drop_last() == cs@.take(i as int));
        if c == '\\' {
            push_char(&mut out, '\\');
            push_char(&mut out, '\\');
        } else if c == '"' {
            push_char(&mut out, '\\');
            push_char(&mut out, '"');
        } else if c == '\n' {
            push_char(&mut out, '\\');
            push_char(&mut out, 'n');
        } else if c == '\r' {
            push_char(&mut out, '\\');
            push_char(&mut out, 'r');
        } else if c == '\t' {
            push_char(&mut out, '\\');
            push_char(&mut out, 't');
        } else {
            push_char(&mut out, c);
        }
        i = i + 1;
    }
    assert(cs@.take(cs@.len() as int) == cs@);
    out
}

/// The JSON object describing one change of a category.
pub open spec fn change_json(c: (int, Seq<char>, Seq<char>, Seq<char>), category: Seq<char>) -> Seq<char> {
    if c.0 == 1 {
        "{\"op\":\"update\",\"category\":\""@ + category + "\",\"key\":\""@ + spec_json_escape(c.1)
            + "\",\"old\":\""@ + spec_json_escape(c.2) + "\",\"new\":\""@ + spec_json_escape(c.3) + "\"}"@
    } else if c.0 == 0 {
        "{\"op\":\"add\",\"category\":\""@ + category + "\",\"key\":\""@ + spec_json_escape(c.1)
            + "\",\"value\":\""@ + spec_json_escape(c.2) + "\"}"@
    } else {
        "{\"op\":\"delete\",\"category\":\""@ + category + "\",\"key\":\""@ + spec_json_escape(c.1)
            + "\",\"value\":\""@ + spec_json_escape(c.2) + "\"}"@
    }
}

/// The JSON objects of a list of changes, comma-separated.
pub open spec fn changes_json(cs: Seq<(int, Seq<char>, Seq<char>, Seq<char>)>, category: Seq<char>, first: bool) -> Seq<char>
    decreases cs.len(),
{
    if cs.len() == 0 {
        Seq::empty()
    } else {
        let rest = changes_json(cs.drop_last(), category, first);
        let sep = if first && cs.len() == 1 { Seq::<char>::empty() } else { ","@ };
        rest + sep + change_json(cs.last(), category)
    }
}

/// The JSON array of the alias changes followed by the configuration changes.
pub open spec fn diff_json(alias_changes: Seq<(int, Seq<char>, Seq<char>, Seq<char>)>, config_changes: Seq<(int, Seq<char>, Seq<char>, Seq<char>)>) -> Seq<char> {
    "["@ + changes_json(alias_changes, "alias"@, true) + changes_json(config_changes, "config"@, alias_changes.len() == 0) + "]"@
}

fn push_change_json(out: &mut String, c: &Change, category: &str)
    ensures
        final(out)@ == old(out)@ + change_json(change_view(*c), category@),
{
    match c {
        Change::Update { key, old, new } => {
            push_str(out, "{\"op\":\"update\",\"category\":\"");
            push_str(out, category);
            push_str(out, "\",\"key\":\"");
            push_str(out, json_escape(key.as_str()).as_str());
            push_str(out, "\",\"old\":\"");
            push_str(out, json_escape(old.as_str()).as_str());
            push_str(out, "\",\"new\":\"");
            push_str(out, json_escape(new.as_str()).as_str());
            push_str(out, "\"}");
        },
        Change::Add { key, value } => {
            push_str(out, "{\"op\":\"add\",\"category\":\"");
            push_str(out, category);
            push_str(out, "\",\"key\":\"");
            push_str(out, json_escape(key.as_str()).as_str());
            push_str(out, "\",\"value\":\"");
            push_str(out, json_escape(value.as_str()).as_str());
            push_str(out, "\"}");
        },
        Change::Delete { key, value } => {
            push_str(out, "{\"op\":\"delete\",\"category\":\"");
            push_str(out, category);
            push_str(out, "\",\"key\":\"");
            push_str(out, json_escape(key.as_str()).as_str());
            push_str(out, "\",\"value\":\"");
            push_str(out, json_escape(value.as_str()).as_str());
            push_str(out, "\"}");
        },
    }
    assert(out@ =~= old(out)@ + change_json(change_view(*c), category@));
}

fn push_changes_json(out: &mut String, cs: &[Change], category: &str, first: bool)
    ensures
        final(out)@ == old(out)@ + changes_json(changes_view(cs@), category@, first),
{
    let ghost cv = changes_view(cs@);
    let mut i: usize = 0;
    while i < cs.len()
        invariant
            i <= cs@.len(),
            cv == changes_view(cs@),
            out@ == old(out)@ + changes_json(cv.take(i as int), category@, first),
        decreases cs@.len() - i,
    {
        assert(cv.take(i + 1).drop_last() =~= cv.take(i as int));
        assert(cv.take(i + 1).last() == change_view(cs@[i as int]));
        if !(first && i == 0) {
            push_char(out, ',');
            proof {
                reveal_strlit(",");
            }
        } else {
            assert(cv.take(i + 1).len() == 1);
        }
        push_change_json(out, &cs[i], category);
        proof {
            reveal_strlit(",");
            let sep = if first && i == 0 { Seq::<char>::empty() } else { ","@ };
            assert(changes_json(cv.take(i + 1), category@, first) == changes_json(cv.take(i as int), category@, first) + sep
                + change_json(cv.take(i + 1).last(), category@));
        }
        assert(out@ =~= old(out)@ + changes_json(cv.take(i + 1), category@, first));
        i = i + 1;
    }
    assert(cv.take(cs@.len() as int) =~= cv);
}

/// The JSON objects of a diff, one per change: the alias changes, then the
/// configuration changes.
pub open spec fn diff_objects(ac: Seq<(int, Seq<char>, Seq<char>, Seq<char>)>, cc: Seq<(int, Seq<char>, Seq<char>, Seq<char>)>) -> Seq<Seq<char>> {
    ac.map_values(|c: (int, Seq<char>, Seq<char>, Seq<char>)| change_json(c, "alias"@))
        + cc.map_values(|c: (int, Seq<char>, Seq<char>, Seq<char>)| change_json(c, "config"@))
}

/// Texts joined by commas.
pub open spec fn comma_joined(objs: Seq<Seq<char>>) -> Seq<char>
    decreases objs.len(),
{
    if objs.len() == 0 {
        Seq::empty()
    } else {
        comma_joined(objs.drop_last()) + (if objs.len() == 1 { Seq::<char>::empty() } else { ","@ }) + objs.last()
    }
}

/// The letter after `{"op":"` in a change object: `a`dd, `u`pdate or `d`elete.
pub open spec fn op_letter(o: Seq<char>) -> char {
    o[7]
}

/// How many objects have the given operation letter.
pub open spec fn count_op_letter(objs: Seq<Seq<char>>, l: char) -> nat
    decreases objs.len(),
{
    if objs.len() == 0 {
        0
    } else {
        count_op_letter(objs.drop_last(), l) + (if objs.last().len() > 7 && op_letter(objs.last()) == l { 1nat } else { 0nat })
    }
}

/// The operation letter of a change kind.
pub open spec fn letter_of_op(k: int) -> char {
    if k == 0 { 'a' } else if k == 1 { 'u' } else { 'd' }
}

proof fn lemma_change_json_letter(c: (int, Seq<char>, Seq<char>, Seq<char>), cat: Seq<char>)
    ensures
        change_json(c, cat).len() > 7,
        op_letter(change_json(c, cat)) == (if c.0 == 0 { 'a' } else if c.0 == 1 { 'u' } else { 'd' }),
{
    reveal_strlit("{\"op\":\"update\",\"category\":\"");
    reveal_strlit("{\"op\":\"add\",\"category\":\"");
    reveal_strlit("{\"op\":\"delete\",\"category\":\"");
}

proof fn lemma_joined_prefix(p: Seq<Seq<char>>, cs: Seq<(int, Seq<char>, Seq<char>, Seq<char>)>, cat: Seq<char>)
    ensures
        comma_joined(p + cs.map_values(|c: (int, Seq<char>, Seq<char>, Seq<char>)| change_json(c, cat)))
            == comma_joined(p) + changes_json(cs, cat, p.len() == 0),
    decreases cs.len(),
{
    let m = cs.map_values(|c: (int, Seq<char>, Seq<char>, Seq<char>)| change_json(c, cat));
    if cs.len() == 0 {
        assert(p + m =~= p);
        assert(comma_joined(p) + Seq::<char>::empty() =~= comma_joined(p));
    } else {
        let front = cs.drop_last();
        lemma_joined_prefix(p, front, cat);
        let mf = front.map_values(|c: (int, Seq<char>, Seq<char>, Seq<char>)| change_json(c, cat));
        assert((p + m).drop_last() =~= p + mf);
        assert((p + m).last() == change_json(cs.last(), cat));
        let sep = if (p + m).len() == 1 { Seq::<char>::empty() } else { ","@ };
        let sep2 = if p.len() == 0 && cs.len() == 1 { Seq::<char>::empty() } else { ","@ };
        assert(sep == sep2);
        assert(comma_joined(p + mf) + sep + change_json(cs.last(), cat)
            =~= comma_joined(p) + (changes_json(front, cat, p.len() == 0) + sep2 + change_json(cs.last(), cat)));
    }
}

proof fn lemma_count_letters(cs: Seq<(int, Seq<char>, Seq<char>, Seq<char>)>, cat: Seq<char>, k: int)
    requires
        ops_known(cs),
        0 <= k <= 2,
    ensures
        count_op_letter(cs.map_values(|c: (int, Seq<char>, Seq<char>, Seq<char>)| change_json(c, cat)), letter_of_op(k))
            == count_op(cs, k),
    decreases cs.len(),
{
    if cs.len() > 0 {
        let front = cs.drop_last();
        assert(ops_known(front)) by {
            assert forall|i: int| 0 <= i < front.len() implies 0 <= (#[trigger] front[i]).0 <= 2 by {
                assert(front[i] == cs[i]);
            }
        }
        lemma_count_letters(front, cat, k);
        let m = cs.map_values(|c: (int, Seq<char>, Seq<char>, Seq<char>)| change_json(c, cat));
        assert(m.drop_last() =~= front.map_values(|c: (int, Seq<char>, Seq<char>, Seq<char>)| change_json(c, cat)));
        lemma_change_json_letter(cs.last(), cat);
        assert(0 <= cs[cs.len() - 1].0 <= 2);
    }
}

proof fn lemma_count_letters_concat(a: Seq<Seq<char>>, b: Seq<Seq<char>>, l: char)
    ensures
        count_op_letter(a + b, l) == count_op_letter(a, l) + count_op_letter(b, l),
    decreases b.len(),
{
    if b.len() == 0 {
        assert(a + b =~= a);
    } else {
        lemma_count_letters_concat(a, b.drop_last(), l);
        assert((a + b).drop_last() =~= a + b.drop_last());
    }
}

proof fn lemma_count_op_concat(a: Seq<(int, Seq<char>, Seq<char>, Seq<char>)>, b: Seq<(int, Seq<char>, Seq<char>, Seq<char>)>, k: int)
    ensures
        count_op(a + b, k) == count_op(a, k) + count_op(b, k),
    decreases b.len(),
{
    if b.len() == 0 {
        assert(a + b =~= a);
    } else {
        lemma_count_op_concat(a, b.drop_last(), k);
        assert((a + b).drop_last() =~= a + b.drop_last());
    }
}

/// The diff's JSON array holds one object per planned change, the alias changes first,
/// and as many `add`, `update` and `delete` objects as `push_init` counts additions,
/// updates and deletions for the same document and stored preferences.
pub proof fn law_diff_json_matches_push_counts(text: Seq<char>, stored_aliases: Seq<(Seq<char>, Seq<char>)>, stored_configs: Seq<(Seq<char>, Seq<char>)>, k: int)
    requires
        0 <= k <= 2,
    ensures
        ({
            let lines = segments(text);
            let ac = planned_changes(entries_of(lines, 1), stored_aliases, false);
            let cc = planned_changes(entries_of(lines, 2), stored_configs, true);
            &&& diff_json(ac, cc) == "["@ + comma_joined(diff_objects(ac, cc)) + "]"@
            &&& diff_objects(ac, cc).len() == ac.len() + cc.len()
            &&& count_op_letter(diff_objects(ac, cc), letter_of_op(k)) == count_op(ac + cc, k)
        }),
{
    let lines = segments(text);
    let da = entries_of(lines, 1);
    let dc = entries_of(lines, 2);
    let ac = planned_changes(da, stored_aliases, false);
    let cc = planned_changes(dc, stored_configs, true);
    let ma = ac.map_values(|c: (int, Seq<char>, Seq<char>, Seq<char>)| change_json(c, "alias"@));
    let mc = cc.map_values(|c: (int, Seq<char>, Seq<char>, Seq<char>)| change_json(c, "config"@));
    lemma_joined_prefix(Seq::empty(), ac, "alias"@);
    assert(Seq::<Seq<char>>::empty() + ma =~= ma);
    assert(comma_joined(Seq::<Seq<char>>::empty()) + changes_json(ac, "alias"@, true) =~= changes_json(ac, "alias"@, true));
    lemma_joined_prefix(ma, cc, "config"@);
    assert(diff_json(ac, cc) =~= "["@ + comma_joined(diff_objects(ac, cc)) + "]"@);
    lemma_planned_known(da, stored_aliases, false);
    lemma_planned_known(dc, stored_configs, true);
    lemma_count_letters(ac, "alias"@, k);
    lemma_count_letters(cc, "config"@, k);
    lemma_count_letters_concat(ma, mc, letter_of_op(k));
    lemma_count_op_concat(ac, cc, k);
}

/// What `diff_init` shows: the changes that pushing the document would make, as a JSON
/// array; an empty array when the stack is empty.
pub fn diff_init(document: Option<&str>, stored_aliases: &[(String, String)], stored_configs: &[(String, String)]) -> (out: String)
    ensures
        document is None ==> out@ == "[]"@,
        document matches Some(text) ==> {
            let lines = segments(text@);
            out@ == diff_json(
                planned_changes(entries_of(lines, 1), pairs_view(stored_aliases@), false),
                planned_changes(entries_of(lines, 2), pairs_view(stored_configs@), true))
        },
{
    let text = match document {
        Some(t) => t,
        None => {
            let out = String::new();
            let mut out = out;
            push_str(&mut out, "[]");
            assert(out@ =~= "[]"@);
            return out;
        },
    };
    let doc = parse_init_doc(text);
    let alias_changes = plan_changes(doc.aliases.as_slice(), stored_aliases, false);
    let config_changes = plan_changes(doc.configs.as_slice(), stored_configs, true);
    let mut out = String::new();
    push_str(&mut out, "[");
    push_changes_json(&mut out, alias_changes.as_slice(), "alias", true);
    push_changes_json(&mut out, config_changes.as_slice(), "config", alias_changes.len() == 0);
    push_str(&mut out, "]");
    assert(out@ =~= diff_json(changes_view(alias_changes@), changes_view(config_changes@)));
    out
}

/// The outcome of pushing a document: the changes to make to the aliases and to the
/// configuration, and how many were added, updated and deleted.
#[derive(Clone, Debug)]
pub struct PushPlan {
    pub alias_changes: Vec<Change>,
    pub config_changes: Vec<Change>,
    pub added: u64,
    pub updated: u64,
    pub deleted: u64,
}

/// What `push_init` applies: the changes that make the stored aliases and configuration
/// match the document on the stack; `None` when the stack is empty.
pub fn push_init(document: Option<&str>, stored_aliases: &[(String, String)], stored_configs: &[(String, String)]) -> (r: Option<PushPlan>)
    requires
        document matches Some(t) ==> t@.len() + stored_aliases@.len() + stored_configs@.len() < u64::MAX,
    ensures
        r is None <==> document is None,
        r matches Some(p) ==> {
            let lines = segments(document->0@);
            let ac = planned_changes(entries_of(lines, 1), pairs_view(stored_aliases@), false);
            let cc = planned_changes(entries_of(lines, 2), pairs_view(stored_configs@), true);
            &&& changes_view(p.alias_changes@) == ac
            &&& changes_view(p.config_changes@) == cc
            &&& p.added == count_op(ac + cc, 0)
            &&& p.updated == count_op(ac + cc, 1)
            &&& p.deleted == count_op(ac + cc, 2)
        },
{
    let text = match document {
        Some(t) => t,
        None => return None,
    };
    let doc = parse_init_doc(text);
    let alias_changes = plan_changes(doc.aliases.as_slice(), stored_aliases, false);
    let config_changes = plan_changes(doc.configs.as_slice(), stored_configs, true);
    let (a1, u1, d1) = change_counts(alias_changes.as_slice());
    let (a2, u2, d2) = change_counts(config_changes.as_slice());
    let ghost ac = changes_view(alias_changes@);
    let ghost cc = changes_view(config_changes@);
    proof {
        let lines = segments(text@);
        lemma_segments_len(text@);
        lemma_entries_len(lines);
        lemma_planned_len(entries_of(lines, 1), pairs_view(stored_aliases@), false);
        lemma_planned_len(entries_of(lines, 2), pairs_view(stored_configs@), true);
        lemma_count_op_append(ac, cc, 0);
        lemma_count_op_append(ac, cc, 1);
        lemma_count_op_append(ac, cc, 2);
        lemma_count_ops_total(ac);
        lemma_count_ops_total(cc);
    }
    Some(PushPlan { alias_changes, config_changes, added: a1 + a2, updated: u1 + u2, deleted: d1 + d2 })
}

proof fn lemma_segments_len(s: Seq<char>)
    ensures
        segments(s).len() <= s.len() + 1,
        segments(s).len() >= 1,
    decreases s.len(),
{
    if s.len() > 0 {
        lemma_segments_len(s.drop_last());
    }
}

proof fn lemma_entries_len(lines: Seq<Seq<char>>)
    ensures
        entries_of(lines, 1).len() + entries_of(lines, 2).len() <= lines.len(),
    decreases lines.len(),
{
    if lines.len() > 0 {
        lemma_entries_len(lines.drop_last());
    }
}

proof fn lemma_planned_len(doc: Seq<(Seq<char>, Seq<char>)>, stored: Seq<(Seq<char>, Seq<char>)>, skip: bool)
    ensures
        planned_changes(doc, stored, skip).len() <= doc.len() + stored.len(),
{
    lemma_upserts_len(doc, stored, skip);
    lemma_deletions_len(doc, stored, skip);
}

proof fn lemma_upserts_len(doc: Seq<(Seq<char>, Seq<char>)>, stored: Seq<(Seq<char>, Seq<char>)>, skip: bool)
    ensures
        upserts(doc, stored, skip).len() <= doc.len(),
    decreases doc.len(),
{
    if doc.len() > 0 {
        lemma_upserts_len(doc.drop_last(), stored, skip);
    }
}

proof fn lemma_deletions_len(doc: Seq<(Seq<char>, Seq<char>)>, stored: Seq<(Seq<char>, Seq<char>)>, skip: bool)
    ensures
        deletions(doc, stored, skip).len() <= stored.len(),
    decreases stored.len(),
{
    if stored.len() > 0 {
        lemma_deletions_len(doc, stored.drop_last(), skip);
    }
}

proof fn lemma_count_op_append(a: Seq<(int, Seq<char>, Seq<char>, Seq<char>)>, b: Seq<(int, Seq<char>, Seq<char>, Seq<char>)>, op: int)
    ensures
        count_op(a + b, op) == count_op(a, op) + count_op(b, op),
    decreases b.len(),
{
    if b.len() > 0 {
        lemma_count_op_append(a, b.drop_last(), op);
        assert((a + b).drop_last() =~= a + b.drop_last());
    } else {
        assert(a + b =~= a);
    }
}

/// The summary `push_init` returns: `{"added":A,"updated":U,"deleted":D}`.
pub open spec fn push_summary(added: nat, updated: nat, deleted: nat) -> Seq<char> {
    "{\"added\":"@ + crate::text::decimal(added) + ",\"updated\":"@ + crate::text::decimal(updated)
        + ",\"deleted\":"@ + crate::text::decimal(deleted) + "}"@
}

/// Render the summary of a push.
pub fn render_push_summary(p: &PushPlan) -> (out: String)
    ensures
        out@ == push_summary(p.added as nat, p.updated as nat, p.deleted as nat),
{
    let mut out = String::new();
    push_str(&mut out, "{\"added\":");
    crate::text::push_decimal(&mut out, p.added as u128);
    push_str(&mut out, ",\"updated\":");
    crate::text::push_decimal(&mut out, p.updated as u128);
    push_str(&mut out, ",\"deleted\":");
    crate::text::push_decimal(&mut out, p.deleted as u128);
    push_str(&mut out, "}");
    assert(out@ =~= push_summary(p.added as nat, p.updated as nat, p.deleted as nat));
    out
}

/// An alias whose `name: target` line reads back as the same alias: a non-empty name
/// without colons, not starting a comment, and a non-empty target, neither with
/// whitespace at its ends nor a newline inside.
pub open spec fn alias_renderable(e: (Seq<char>, Seq<char>)) -> bool {
    &&& e.0.len() > 0
    &&& e.1.len() > 0
    &&& !char_is_space(e.0[0]) && !char_is_space(e.0.last())
    &&& !char_is_space(e.1[0]) && !char_is_space(e.1.last())
    &&& forall|i: int| 0 <= i < e.0.len() ==> (#[trigger] e.0[i]) != ':' && e.0[i] != '\n'
    &&& forall|i: int| 0 <= i < e.1.len() ==> (#[trigger] e.1[i]) != '\n'
    &&& e.0[0] != '#'
    &&& !(e.0.len() >= 2 && e.0[0] == '/' && e.0[1] == '/')
}

/// A configuration entry whose `key value` line reads back as the same entry: a
/// non-empty key without whitespace or colons, not starting a comment, and a non-empty
/// value without colons or newlines and without whitespace at its ends.
pub open spec fn config_renderable(e: (Seq<char>, Seq<char>)) -> bool {
    &&& e.0.len() > 0
    &&& e.1.len() > 0
    &&& forall|i: int| 0 <= i < e.0.len() ==> !char_is_space(#[trigger] e.0[i]) && e.0[i] != ':'
    &&& !char_is_space(e.1[0]) && !char_is_space(e.1.last())
    &&& forall|i: int| 0 <= i < e.1.len() ==> (#[trigger] e.1[i]) != ':' && e.1[i] != '\n'
    &&& e.0[0] != '#'
    &&& !(e.0.len() >= 2 && e.0[0] == '/' && e.0[1] == '/')
}

/// No two entries share a key.
pub open spec fn unique_keys(s: Seq<(Seq<char>, Seq<char>)>) -> bool {
    forall|i: int, j: int| 0 <= i < j < s.len() ==> (#[trigger] s[i]).0 != (#[trigger] s[j]).0
}

proof fn lemma_segments_append(p: Seq<char>, x: Seq<char>)
    requires
        forall|i: int| 0 <= i < x.len() ==> (#[trigger] x[i]) != '\n',
    ensures
        segments(p + x) == segments(p).update(segments(p).len() - 1, segments(p).last() + x),
    decreases x.len(),
{
    lemma_segments_len(p);
    if x.len() == 0 {
        assert(p + x =~= p);
        assert(segments(p).last() + x =~= segments(p).last());
        assert(segments(p).update(segments(p).len() - 1, segments(p).last()) =~= segments(p));
    } else {
        let x1 = x.drop_last();
        assert forall|i: int| 0 <= i < x1.len() implies (#[trigger] x1[i]) != '\n' by {
            assert(x1[i] == x[i]);
        }
        lemma_segments_append(p, x1);
        assert((p + x).drop_last() =~= p + x1);
        assert((p + x).last() == x.last());
        assert(x.last() != '\n');
        let r = segments(p + x1);
        assert(r.last() == segments(p).last() + x1);
        assert(r.last().push(x.last()) =~= segments(p).last() + x);
        assert(segments(p + x) =~= segments(p).update(segments(p).len() - 1, segments(p).last() + x));
    }
}

/// Lines without newlines, each followed by a newline, split back into the same lines
/// and an empty rest.
proof fn lemma_segments_terminated(lines: Seq<Seq<char>>)
    requires
        forall|i: int, j: int| 0 <= i < lines.len() && 0 <= j < lines[i].len() ==> (#[trigger] lines[i][j]) != '\n',
    ensures
        segments(terminated(lines)) == lines.push(Seq::<char>::empty()),
    decreases lines.len(),
{
    if lines.len() == 0 {
        assert(segments(Seq::<char>::empty()) =~= seq![Seq::<char>::empty()]);
        assert(lines.push(Seq::<char>::empty()) =~= seq![Seq::<char>::empty()]);
    } else {
        let init = lines.drop_last();
        assert forall|i: int, j: int| 0 <= i < init.len() && 0 <= j < init[i].len() implies (#[trigger] init[i][j]) != '\n' by {
            assert(init[i] == lines[i]);
        }
        lemma_segments_terminated(init);
        let t = terminated(init);
        let x = lines.last();
        assert forall|j: int| 0 <= j < x.len() implies (#[trigger] x[j]) != '\n' by {
            assert(lines[lines.len() - 1][j] == x[j]);
        }
        lemma_segments_append(t, x);
        let tx = t + x;
        assert(segments(tx) =~= init.push(x));
        let full = tx + seq!['\n'];
        assert(full == terminated(lines));
        assert(full.drop_last() =~= tx);
        assert(segments(full) == segments(tx).push(Seq::<char>::empty()));
        assert(init.push(x) =~= lines);
    }
}

proof fn lemma_entries_append(a: Seq<Seq<char>>, b: Seq<Seq<char>>, kind: int)
    ensures
        entries_of(a + b, kind) == entries_of(a, kind) + entries_of(b, kind),
    decreases b.len(),
{
    if b.len() == 0 {
        assert(a + b =~= a);
        assert(entries_of(a, kind) + entries_of(b, kind) =~= entries_of(a, kind));
    } else {
        lemma_entries_append(a, b.drop_last(), kind);
        assert((a + b).drop_last() =~= a + b.drop_last());
        assert((a + b).last() == b.last());
        let m = line_meaning(b.last());
        if m.0 == kind {
            assert(entries_of(a + b, kind) =~= entries_of(a, kind) + entries_of(b, kind));
        }
    }
}

proof fn lemma_trim_id(s: Seq<char>)
    requires
        s.len() == 0 || (!char_is_space(s[0]) && !char_is_space(s.last())),
    ensures
        trim(s) == s,
{
    assert(trim_start(s) == s);
}

proof fn lemma_trim_space_prefix(v: Seq<char>)
    requires
        v.len() > 0,
        !char_is_space(v[0]),
        !char_is_space(v.last()),
    ensures
        trim(seq![' '] + v) == v,
{
    let w = seq![' '] + v;
    assert(w.drop_first() =~= v);
    assert(trim_start(w) == trim_start(v));
    lemma_trim_id(v);
}

proof fn lemma_alias_line(e: (Seq<char>, Seq<char>))
    requires
        alias_renderable(e),
    ensures
        line_meaning(alias_line(e)) == (1int, e.0, e.1),
{
    reveal_strlit(": ");
    let (k, v) = e;
    let line = alias_line(e);
    assert(line =~= k + seq![':', ' '] + v);
    assert(line[0] == k[0]);
    assert(line.last() == v.last());
    lemma_trim_id(line);
    let t = trim(line);
    assert(t[0] != '#');
    assert(!(t.len() >= 2 && t[0] == '/' && t[1] == '/')) by {
        if k.len() == 1 {
            assert(t[1] == ':');
        } else {
            assert(t[1] == k[1]);
        }
    }
    assert forall|i: int| 0 <= i < k.len() implies !is_colon()(#[trigger] t[i]) by {
        assert(t[i] == k[i]);
    }
    lemma_first_where_is(t, is_colon(), k.len() as int);
    assert(t.subrange(0, k.len() as int) =~= k);
    lemma_trim_id(k);
    assert(t.subrange(k.len() as int + 1, t.len() as int) =~= seq![' '] + v);
    lemma_trim_space_prefix(v);
}

proof fn lemma_config_line(e: (Seq<char>, Seq<char>))
    requires
        config_renderable(e),
    ensures
        line_meaning(config_line(e)) == (2int, e.0, e.1),
{
    reveal_strlit(" ");
    let (k, v) = e;
    let line = config_line(e);
    assert(line =~= k + seq![' '] + v);
    assert(line[0] == k[0]);
    assert(line.last() == v.last());
    assert(!char_is_space(k[0]));
    lemma_trim_id(line);
    let t = trim(line);
    assert(!(t.len() >= 2 && t[0] == '/' && t[1] == '/')) by {
        if k.len() == 1 {
            assert(t[1] == ' ');
        } else {
            assert(t[1] == k[1]);
        }
    }
    lemma_first_where(t, is_colon());
    assert forall|i: int| 0 <= i < t.len() implies !is_colon()(#[trigger] t[i]) by {
        if i < k.len() {
            assert(t[i] == k[i]);
        } else if i > k.len() {
            assert(t[i] == v[i - k.len() - 1]);
        }
    }
    if first_where(t, is_colon()) is Some {
        let c = first_where(t, is_colon())->0;
        assert(is_colon()(t[c]));
    }
    assert forall|i: int| 0 <= i < k.len() implies !is_ws()(#[trigger] t[i]) by {
        assert(t[i] == k[i]);
    }
    lemma_first_where_is(t, is_ws(), k.len() as int);
    assert(t.subrange(0, k.len() as int) =~= k);
    assert(!char_is_space(k.last()));
    lemma_trim_id(k);
    assert(t.subrange(k.len() as int, t.len() as int) =~= seq![' '] + v);
    lemma_trim_space_prefix(v);
}

proof fn lemma_comment_line(line: Seq<char>)
    requires
        line.len() > 0,
        line[0] == '#',
        !char_is_space(line.last()),
    ensures
        line_meaning(line).0 == 0,
{
    lemma_trim_id(line);
}

proof fn lemma_alias_entries(a: Seq<(Seq<char>, Seq<char>)>)
    requires
        forall|i: int| 0 <= i < a.len() ==> alias_renderable(#[trigger] a[i]),
    ensures
        entries_of(a.map_values(|e: (Seq<char>, Seq<char>)| alias_line(e)), 1) == a,
        entries_of(a.map_values(|e: (Seq<char>, Seq<char>)| alias_line(e)), 2) == Seq::<(Seq<char>, Seq<char>)>::empty(),
    decreases a.len(),
{
    let m = a.map_values(|e: (Seq<char>, Seq<char>)| alias_line(e));
    if a.len() > 0 {
        let a1 = a.drop_last();
        assert forall|i: int| 0 <= i < a1.len() implies alias_renderable(#[trigger] a1[i]) by {
            assert(a1[i] == a[i]);
        }
        lemma_alias_entries(a1);
        assert(m.drop_last() =~= a1.map_values(|e: (Seq<char>, Seq<char>)| alias_line(e)));
        lemma_alias_line(a.last());
        assert(m.last() == alias_line(a.last()));
        assert(a1.push(a.last()) =~= a);
    } else {
        assert(m.len() == 0);
    }
}

proof fn lemma_config_entries(c: Seq<(Seq<char>, Seq<char>)>)
    requires
        forall|i: int| 0 <= i < c.len() ==> config_renderable(#[trigger] c[i]),
    ensures
        entries_of(c.map_values(|e: (Seq<char>, Seq<char>)| config_line(e)), 2) == c,
        entries_of(c.map_values(|e: (Seq<char>, Seq<char>)| config_line(e)), 1) == Seq::<(Seq<char>, Seq<char>)>::empty(),
    decreases c.len(),
{
    let m = c.map_values(|e: (Seq<char>, Seq<char>)| config_line(e));
    if c.len() > 0 {
        let c1 = c.drop_last();
        assert forall|i: int| 0 <= i < c1.len() implies config_renderable(#[trigger] c1[i]) by {
            assert(c1[i] == c[i]);
        }
        lemma_config_entries(c1);
        assert(m.drop_last() =~= c1.map_values(|e: (Seq<char>, Seq<char>)| config_line(e)));
        lemma_config_line(c.last());
        assert(m.last() == config_line(c.last()));
        assert(c1.push(c.last()) =~= c);
    } else {
        assert(m.len() == 0);
    }
}

proof fn lemma_doc_entries(a: Seq<(Seq<char>, Seq<char>)>, c: Seq<(Seq<char>, Seq<char>)>)
    requires
        forall|i: int| 0 <= i < a.len() ==> alias_renderable(#[trigger] a[i]),
        forall|i: int| 0 <= i < c.len() ==> config_renderable(#[trigger] c[i]),
    ensures
        entries_of(doc_lines(a, c), 1) == a,
        entries_of(doc_lines(a, c), 2) == c,
{
    reveal_strlit("# aliases");
    reveal_strlit("# config");
    reveal_strlit("# empty \u{2014} add aliases (name: target) and config (key value)");
    let am = a.map_values(|e: (Seq<char>, Seq<char>)| alias_line(e));
    let cm = c.map_values(|e: (Seq<char>, Seq<char>)| config_line(e));
    lemma_alias_entries(a);
    lemma_config_entries(c);
    let ha = seq!["# aliases"@];
    let hc = seq!["# config"@];
    let blank = seq![Seq::<char>::empty()];
    lemma_comment_line("# aliases"@);
    lemma_comment_line("# config"@);
    lemma_comment_line("# empty \u{2014} add aliases (name: target) and config (key value)"@);
    assert(line_meaning(Seq::<char>::empty()).0 == 0);
    assert(entries_of(Seq::<Seq<char>>::empty(), 1) == Seq::<(Seq<char>, Seq<char>)>::empty());
    assert(entries_of(Seq::<Seq<char>>::empty(), 2) == Seq::<(Seq<char>, Seq<char>)>::empty());
    assert(ha.last() == "# aliases"@);
    assert(hc.last() == "# config"@);
    assert(entries_of(ha, 1) =~= Seq::<(Seq<char>, Seq<char>)>::empty()) by {
        assert(ha.drop_last() =~= Seq::<Seq<char>>::empty());
    }
    assert(entries_of(ha, 2) =~= Seq::<(Seq<char>, Seq<char>)>::empty()) by {
        assert(ha.drop_last() =~= Seq::<Seq<char>>::empty());
    }
    assert(entries_of(hc, 1) =~= Seq::<(Seq<char>, Seq<char>)>::empty()) by {
        assert(hc.drop_last() =~= Seq::<Seq<char>>::empty());
    }
    assert(entries_of(hc, 2) =~= Seq::<(Seq<char>, Seq<char>)>::empty()) by {
        assert(hc.drop_last() =~= Seq::<Seq<char>>::empty());
    }
    assert(entries_of(blank, 1) =~= Seq::<(Seq<char>, Seq<char>)>::empty()) by {
        assert(blank.drop_last() =~= Seq::<Seq<char>>::empty());
    }
    assert(entries_of(blank, 2) =~= Seq::<(Seq<char>, Seq<char>)>::empty()) by {
        assert(blank.drop_last() =~= Seq::<Seq<char>>::empty());
    }
    let al = if a.len() > 0 { ha + am } else { Seq::empty() };
    let pre = if al.len() > 0 { blank } else { Seq::<Seq<char>>::empty() };
    let cl = if c.len() > 0 { pre + hc + cm } else { Seq::empty() };
    lemma_entries_append(ha, am, 1);
    lemma_entries_append(ha, am, 2);
    lemma_entries_append(pre, hc, 1);
    lemma_entries_append(pre, hc, 2);
    lemma_entries_append(pre + hc, cm, 1);
    lemma_entries_append(pre + hc, cm, 2);
    lemma_entries_append(al, cl, 1);
    lemma_entries_append(al, cl, 2);
    assert(entries_of(Seq::<Seq<char>>::empty(), 1) == Seq::<(Seq<char>, Seq<char>)>::empty());
    assert(entries_of(Seq::<Seq<char>>::empty(), 2) == Seq::<(Seq<char>, Seq<char>)>::empty());
    if a.len() > 0 {
        assert(entries_of(al, 1) =~= a);
        assert(entries_of(al, 2) =~= Seq::<(Seq<char>, Seq<char>)>::empty());
    } else {
        assert(am.len() == 0);
        assert(a =~= Seq::<(Seq<char>, Seq<char>)>::empty());
    }
    if c.len() > 0 {
        assert(entries_of(cl, 2) =~= c);
        assert(entries_of(cl, 1) =~= Seq::<(Seq<char>, Seq<char>)>::empty());
    } else {
        assert(cm.len() == 0);
        assert(c =~= Seq::<(Seq<char>, Seq<char>)>::empty());
    }
    if al.len() + cl.len() == 0 {
        let e = seq!["# empty \u{2014} add aliases (name: target) and config (key value)"@];
        assert(e.drop_last() =~= Seq::<Seq<char>>::empty());
        assert(entries_of(e, 1) =~= Seq::<(Seq<char>, Seq<char>)>::empty());
        assert(entries_of(e, 2) =~= Seq::<(Seq<char>, Seq<char>)>::empty());
    } else {
        assert(entries_of(al + cl, 1) =~= a);
        assert(entries_of(al + cl, 2) =~= c);
    }
}

proof fn lemma_no_changes(s: Seq<(Seq<char>, Seq<char>)>, skip: bool)
    requires
        unique_keys(s),
    ensures
        planned_changes(s, s, skip) == Seq::<(int, Seq<char>, Seq<char>, Seq<char>)>::empty(),
{
    lemma_upserts_none(s, s.len() as int, skip);
    lemma_deletions_none(s, s.len() as int, skip);
    assert(s.take(s.len() as int) =~= s);
}

proof fn lemma_upserts_none(s: Seq<(Seq<char>, Seq<char>)>, n: int, skip: bool)
    requires
        unique_keys(s),
        0 <= n <= s.len(),
    ensures
        upserts(s.take(n), s, skip).len() == 0,
    decreases n,
{
    if n > 0 {
        lemma_upserts_none(s, n - 1, skip);
        assert(s.take(n).drop_last() =~= s.take(n - 1));
        assert(s.take(n).last() == s[n - 1]);
        assert forall|j: int| 0 <= j < n - 1 implies (#[trigger] s[j]).0 != s[n - 1].0 by {}
        lemma_lookup_first(s, s[n - 1].0, n - 1);
    }
}

proof fn lemma_deletions_none(s: Seq<(Seq<char>, Seq<char>)>, n: int, skip: bool)
    requires
        0 <= n <= s.len(),
    ensures
        deletions(s, s.take(n), skip).len() == 0,
    decreases n,
{
    if n > 0 {
        lemma_deletions_none(s, n - 1, skip);
        assert(s.take(n).drop_last() =~= s.take(n - 1));
        assert(s.take(n).last() == s[n - 1]);
        assert(has_key(s, s[n - 1].0));
    }
}

/// Pushing the document that `pull_init` rendered changes nothing: the stored aliases
/// and configuration (each with distinct keys, as stored preferences have) read back
/// exactly, so no entry is added, updated or deleted. Holds of entries that render as
/// lines that read back (see `alias_renderable` and `config_renderable`).
pub proof fn law_pull_then_push_changes_nothing(aliases: Seq<(Seq<char>, Seq<char>)>, configs: Seq<(Seq<char>, Seq<char>)>)
    requires
        unique_keys(aliases),
        unique_keys(configs),
        forall|i: int| 0 <= i < aliases.len() ==> alias_renderable(#[trigger] aliases[i]),
        forall|i: int| 0 <= i < configs.len() ==> config_renderable(#[trigger] configs[i]),
    ensures
        ({
            let lines = segments(terminated(doc_lines(aliases, configs)));
            &&& entries_of(lines, 1) == aliases
            &&& entries_of(lines, 2) == configs
            &&& planned_changes(entries_of(lines, 1), aliases, false).len() == 0
            &&& planned_changes(entries_of(lines, 2), configs, true).len() == 0
        }),
{
    let dl = doc_lines(aliases, configs);
    reveal_strlit("# aliases");
    reveal_strlit("# config");
    reveal_strlit("# empty \u{2014} add aliases (name: target) and config (key value)");
    reveal_strlit(": ");
    reveal_strlit(" ");
    assert forall|i: int, j: int| 0 <= i < dl.len() && 0 <= j < dl[i].len() implies (#[trigger] dl[i][j]) != '\n' by {
        let am = aliases.map_values(|e: (Seq<char>, Seq<char>)| alias_line(e));
        let cm = configs.map_values(|e: (Seq<char>, Seq<char>)| config_line(e));
        let line = dl[i];
        if exists|k: int| 0 <= k < am.len() && am[k] == line {
            let k = choose|k: int| 0 <= k < am.len() && am[k] == line;
            let e = aliases[k];
            assert(line =~= e.0 + seq![':', ' '] + e.1);
            if j < e.0.len() {
                assert(line[j] == e.0[j]);
            } else if j >= e.0.len() + 2 {
                assert(line[j] == e.1[j - e.0.len() - 2]);
            }
        } else if exists|k: int| 0 <= k < cm.len() && cm[k] == line {
            let k = choose|k: int| 0 <= k < cm.len() && cm[k] == line;
            let e = configs[k];
            assert(line =~= e.0 + seq![' '] + e.1);
            if j < e.0.len() {
                assert(line[j] == e.0[j]);
                assert(!char_is_space(e.0[j]));
            } else if j > e.0.len() {
                assert(line[j] == e.1[j - e.0.len() - 1]);
            }
        } else {
            lemma_doc_line_cases(aliases, configs, i);
        }
    }
    lemma_segments_terminated(dl);
    lemma_entries_append(dl, seq![Seq::<char>::empty()], 1);
    lemma_entries_append(dl, seq![Seq::<char>::empty()], 2);
    let blank = seq![Seq::<char>::empty()];
    assert(blank.drop_last() =~= Seq::<Seq<char>>::empty());
    assert(line_meaning(Seq::<char>::empty()).0 == 0);
    assert(entries_of(Seq::<Seq<char>>::empty(), 1) == Seq::<(Seq<char>, Seq<char>)>::empty());
    assert(entries_of(Seq::<Seq<char>>::empty(), 2) == Seq::<(Seq<char>, Seq<char>)>::empty());
    assert(entries_of(blank, 1) =~= Seq::<(Seq<char>, Seq<char>)>::empty());
    assert(entries_of(blank, 2) =~= Seq::<(Seq<char>, Seq<char>)>::empty());
    assert(dl.push(Seq::<char>::empty()) =~= dl + blank);
    lemma_doc_entries(aliases, configs);
    assert(entries_of(dl + blank, 1) =~= aliases);
    assert(entries_of(dl + blank, 2) =~= configs);
    lemma_no_changes(aliases, false);
    lemma_no_changes(configs, true);
}

/// Each line of the document is a header, a blank line, an alias line or a
/// configuration line.
proof fn lemma_doc_line_cases(aliases: Seq<(Seq<char>, Seq<char>)>, configs: Seq<(Seq<char>, Seq<char>)>, i: int)
    requires
        0 <= i < doc_lines(aliases, configs).len(),
    ensures
        ({
            let line = doc_lines(aliases, configs)[i];
            ||| line == "# aliases"@
            ||| line == "# config"@
            ||| line == Seq::<char>::empty()
            ||| line == "# empty \u{2014} add aliases (name: target) and config (key value)"@
            ||| exists|k: int| 0 <= k < aliases.len() && #[trigger] alias_line(aliases[k]) == line
            ||| exists|k: int| 0 <= k < configs.len() && #[trigger] config_line(configs[k]) == line
        }),
{
    let am = aliases.map_values(|e: (Seq<char>, Seq<char>)| alias_line(e));
    let cm = configs.map_values(|e: (Seq<char>, Seq<char>)| config_line(e));
    let ha = seq!["# aliases"@];
    let hc = seq!["# config"@];
    let blank = seq![Seq::<char>::empty()];
    let al = if aliases.len() > 0 { ha + am } else { Seq::empty() };
    let pre = if al.len() > 0 { blank } else { Seq::<Seq<char>>::empty() };
    let cl = if configs.len() > 0 { pre + hc + cm } else { Seq::empty() };
    let dl = doc_lines(aliases, configs);
    if al.len() + cl.len() > 0 {
        assert(dl == al + cl);
        if i < al.len() {
            if i >= 1 {
                assert(dl[i] == am[i - 1]);
                assert(alias_line(aliases[i - 1]) == dl[i]);
            }
        } else {
            let j = i - al.len();
            assert(dl[i] == cl[j]);
            if j >= pre.len() + 1 {
                assert(cl[j] == cm[j - pre.len() - 1]);
                assert(config_line(configs[j - pre.len() - 1]) == dl[i]);
            }
        }
    }
}

} // verus!
