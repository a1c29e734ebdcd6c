//! References found in documents: canonical keys for deduplication, the registry of
//! references and the paragraphs that cite them, author novelty, and the extraction of
//! DOIs, arXiv ids, URLs and citations by regular expression.

use vstd::prelude::*;
use vstd::string::StringSliceAdditionalSpecFns;
use crate::text::{chars_of, push_char, push_str, is_space, char_is_space, str_is, ascii_lowercase};
use crate::init_doc::{trim, trim_start, first_where, is_ws, lemma_trim_start_drop, lemma_first_where, lemma_first_where_is, trim_bounds};

verus! {

/// The Unicode lowercase of a text (`str::to_lowercase`).
pub uninterp spec fn lowercase_of(s: Seq<char>) -> Seq<char>;

/// `str::to_lowercase`: the text with every character replaced by its Unicode lowercase
/// mapping. Over ASCII text that mapping takes `A` to `Z` to `a` to `z` and keeps every
/// other character; beyond ASCII it is named, not restated.
#[verifier::external_body]
fn to_lowercase(s: &str) -> (r: String)
    ensures
        r@ == lowercase_of(s@),
        (forall|i: int| 0 <= i < s@.len() ==> #[trigger] s@[i] <= '\x7f')
            ==> r@ == s@.map_values(|c: char| ascii_lowercase(c)),
{
    s.to_lowercase()
}

pub open spec fn is_comma() -> spec_fn(char) -> bool {
    |c: char| c == ','
}

/// The text before the first character satisfying `p` (all of it when there is none).
pub open spec fn before_first(s: Seq<char>, p: spec_fn(char) -> bool) -> Seq<char> {
    match first_where(s, p) {
        Some(i) => s.take(i),
        None => s,
    }
}

/// The first whitespace-separated word of a text, if any.
pub open spec fn first_word(s: Seq<char>) -> Option<Seq<char>> {
    let t = trim_start(s);
    if t.len() == 0 { None } else { Some(before_first(t, is_ws())) }
}

/// A Latin letter with its diacritic taken off (precomposed letters of Latin-1 and
/// Latin Extended-A, either case, give the plain lowercase letter); other characters
/// are kept.
pub open spec fn letter_base(c: char) -> char {
    if ('\u{C0}' <= c && c <= '\u{C5}') || ('\u{E0}' <= c && c <= '\u{E5}') || ('\u{100}' <= c && c <= '\u{105}') {
        'a'
    } else if c == '\u{C7}' || c == '\u{E7}' || ('\u{106}' <= c && c <= '\u{10D}') {
        'c'
    } else if '\u{10E}' <= c && c <= '\u{111}' {
        'd'
    } else if ('\u{C8}' <= c && c <= '\u{CB}') || ('\u{E8}' <= c && c <= '\u{EB}') || ('\u{112}' <= c && c <= '\u{11B}') {
        'e'
    } else if '\u{11C}' <= c && c <= '\u{123}' {
        'g'
    } else if '\u{124}' <= c && c <= '\u{127}' {
        'h'
    } else if ('\u{CC}' <= c && c <= '\u{CF}') || ('\u{EC}' <= c && c <= '\u{EF}') || ('\u{128}' <= c && c <= '\u{131}') {
        'i'
    } else if '\u{134}' <= c && c <= '\u{135}' {
        'j'
    } else if '\u{136}' <= c && c <= '\u{137}' {
        'k'
    } else if '\u{139}' <= c && c <= '\u{142}' {
        'l'
    } else if c == '\u{D1}' || c == '\u{F1}' || ('\u{143}' <= c && c <= '\u{148}') {
        'n'
    } else if ('\u{D2}' <= c && c <= '\u{D6}') || c == '\u{D8}' || ('\u{F2}' <= c && c <= '\u{F6}') || c == '\u{F8}' || ('\u{14C}' <= c && c <= '\u{151}') {
        'o'
    } else if '\u{154}' <= c && c <= '\u{159}' {
        'r'
    } else if '\u{15A}' <= c && c <= '\u{161}' {
        's'
    } else if '\u{162}' <= c && c <= '\u{167}' {
        't'
    } else if ('\u{D9}' <= c && c <= '\u{DC}') || ('\u{F9}' <= c && c <= '\u{FC}') || ('\u{168}' <= c && c <= '\u{173}') {
        'u'
    } else if '\u{174}' <= c && c <= '\u{175}' {
        'w'
    } else if c == '\u{DD}' || c == '\u{FD}' || c == '\u{FF}' || ('\u{176}' <= c && c <= '\u{178}') {
        'y'
    } else if '\u{179}' <= c && c <= '\u{17E}' {
        'z'
    } else {
        c
    }
}

/// A combining diacritical mark (U+0300 to U+036F), as a decomposed letter carries.
pub open spec fn is_combining_mark(c: char) -> bool {
    '\u{300}' <= c && c <= '\u{36F}'
}

/// Whether a character is dropped from a key: soft hyphen, no-break space, hyphen, or
/// a combining mark.
pub open spec fn dropped_from_key(c: char) -> bool {
    c == '\u{00AD}' || c == '\u{00A0}' || c == '-' || is_combining_mark(c)
}

/// The text without soft hyphens, no-break spaces, hyphens and diacritics.
pub open spec fn strip_marks(s: Seq<char>) -> Seq<char>
    decreases s.len(),
{
    if s.len() == 0 {
        s
    } else {
        let rest = strip_marks(s.drop_last());
        let c = s.last();
        if dropped_from_key(c) { rest } else { rest.push(letter_base(c)) }
    }
}

/// The key of an author-year reference: the first word of the first author (the whole
/// author text when there is no word), lowercased, without hyphens and diacritics,
/// then `-` and the year.
pub open spec fn author_year_key(authors: Seq<char>, year: Seq<char>) -> Seq<char> {
    strip_marks(lowercase_of(author_word(authors))) + seq!['-'] + year
}

/// The first word of the first author (the whole author text when there is no word).
pub open spec fn author_word(authors: Seq<char>) -> Seq<char> {
    match first_word(before_first(authors, is_comma())) {
        Some(w) => w,
        None => authors,
    }
}

/// The normalized first-author key used for novelty: the first word of the first author
/// (empty when there is none), lowercased, without hyphens and diacritics.
pub open spec fn spec_first_author_key(authors: Seq<char>) -> Seq<char> {
    match first_word(before_first(authors, is_comma())) {
        Some(w) => strip_marks(lowercase_of(w)),
        None => Seq::empty(),
    }
}

/// The position of the first character of `cs[from..]` satisfying the comma test.
fn find_comma(cs: &Vec<char>) -> (r: usize)
    ensures
        r <= cs@.len(),
        r < cs@.len() ==> first_where(cs@, is_comma()) == Some(r as int),
        r == cs@.len() ==> first_where(cs@, is_comma()) is None,
{
    let mut i: usize = 0;
    while i < cs.len() && cs[i] != ','
        invariant
            i <= cs@.len(),
            forall|k: int| 0 <= k < i ==> cs@[k] != ',',
        decreases cs@.len() - i,
    {
        i = i + 1;
    }
    proof {
        lemma_first_where(cs@, is_comma());
        if i < cs@.len() {
            assert forall|k: int| 0 <= k < i implies !is_comma()(#[trigger] cs@[k]) by {}
            lemma_first_where_is(cs@, is_comma(), i as int);
        } else if first_where(cs@, is_comma()) is Some {
            let j = first_where(cs@, is_comma())->0;
            assert(is_comma()(cs@[j]));
        }
    }
    i
}

/// The first word of `cs[..limit]`, as positions `[a, b)`; `None` when there is none.
fn first_word_bounds(cs: &Vec<char>, limit: usize) -> (r: Option<(usize, usize)>)
    requires
        limit <= cs@.len(),
    ensures
        match r {
            Some((a, b)) => a < b <= limit && first_word(cs@.take(limit as int)) == Some(cs@.subrange(a as int, b as int)),
            None => first_word(cs@.take(limit as int)) is None,
        },
{
    let ghost s = cs@.take(limit as int);
    let mut a: usize = 0;
    while a < limit && is_space(cs[a])
        invariant
            a <= limit <= cs@.len(),
            s == cs@.take(limit as int),
            forall|k: int| 0 <= k < a ==> char_is_space(#[trigger] cs@[k]),
        decreases limit - a,
    {
        a = a + 1;
    }
    proof {
        assert forall|k: int| 0 <= k < a implies char_is_space(#[trigger] s[k]) by {
            assert(s[k] == cs@[k]);
        }
        lemma_trim_start_drop(s, a as int);
        let t0 = s.subrange(a as int, s.len() as int);
        if a < limit {
            assert(t0[0] == cs@[a as int]);
        }
        assert(trim_start(t0) == t0) by {
            if t0.len() > 0 {
                assert(!char_is_space(t0[0]));
            }
        }
    }
    let ghost t = s.subrange(a as int, s.len() as int);
    assert(trim_start(s) == t);
    if a == limit {
        return None;
    }
    let mut b = a;
    while b < limit && !is_space(cs[b])
        invariant
            a <= b <= limit <= cs@.len(),
            forall|k: int| a <= k < b ==> !char_is_space(#[trigger] cs@[k]),
        decreases limit - b,
    {
        b = b + 1;
    }
    proof {
        lemma_first_where(t, is_ws());
        if b < limit {
            assert forall|k: int| 0 <= k < b - a implies !is_ws()(#[trigger] t[k]) by {
                assert(t[k] == cs@[a + k]);
            }
            assert(t[b - a] == cs@[b as int]);
            lemma_first_where_is(t, is_ws(), b - a);
        } else {
            assert forall|k: int| 0 <= k < t.len() implies !is_ws()(#[trigger] t[k]) by {
                assert(t[k] == cs@[a + k]);
            }
            if first_where(t, is_ws()) is Some {
                let j = first_where(t, is_ws())->0;
                assert(is_ws()(t[j]));
            }
        }
        assert(t.take(b - a) =~= cs@.subrange(a as int, b as int));
        assert(t =~= cs@.subrange(a as int, limit as int));
    }
    Some((a, b))
}

fn string_of(cs: &Vec<char>, lo: usize, hi: usize) -> (s: String)
    requires
        lo <= hi <= cs@.len(),
    ensures
        s@ == cs@.subrange(lo as int, hi as int),
{
    let mut s = String::new();
    let mut i = lo;
    while i < hi
        invariant
            lo <= i <= hi <= cs@.len(),
            s@ == cs@.subrange(lo as int, i as int),
        decreases hi - i,
    {
        push_char(&mut s, cs[i]);
        i = i + 1;
        assert(s@ =~= cs@.subrange(lo as int, i as int));
    }
    s
}

fn base_letter(c: char) -> (r: char)
    ensures
        r == letter_base(c),
{
    if ('\u{C0}' <= c && c <= '\u{C5}') || ('\u{E0}' <= c && c <= '\u{E5}') || ('\u{100}' <= c && c <= '\u{105}') {
        'a'
    } else if c == '\u{C7}' || c == '\u{E7}' || ('\u{106}' <= c && c <= '\u{10D}') {
        'c'
    } else if '\u{10E}' <= c && c <= '\u{111}' {
        'd'
    } else if ('\u{C8}' <= c && c <= '\u{CB}') || ('\u{E8}' <= c && c <= '\u{EB}') || ('\u{112}' <= c && c <= '\u{11B}') {
        'e'
    } else if '\u{11C}' <= c && c <= '\u{123}' {
        'g'
    } else if '\u{124}' <= c && c <= '\u{127}' {
        'h'
    } else if ('\u{CC}' <= c && c <= '\u{CF}') || ('\u{EC}' <= c && c <= '\u{EF}') || ('\u{128}' <= c && c <= '\u{131}') {
        'i'
    } else if '\u{134}' <= c && c <= '\u{135}' {
        'j'
    } else if '\u{136}' <= c && c <= '\u{137}' {
        'k'
    } else if '\u{139}' <= c && c <= '\u{142}' {
        'l'
    } else if c == '\u{D1}' || c == '\u{F1}' || ('\u{143}' <= c && c <= '\u{148}') {
        'n'
    } else if ('\u{D2}' <= c && c <= '\u{D6}') || c == '\u{D8}' || ('\u{F2}' <= c && c <= '\u{F6}') || c == '\u{F8}' || ('\u{14C}' <= c && c <= '\u{151}') {
        'o'
    } else if '\u{154}' <= c && c <= '\u{159}' {
        'r'
    } else if '\u{15A}' <= c && c <= '\u{161}' {
        's'
    } else if '\u{162}' <= c && c <= '\u{167}' {
        't'
    } else if ('\u{D9}' <= c && c <= '\u{DC}') || ('\u{F9}' <= c && c <= '\u{FC}') || ('\u{168}' <= c && c <= '\u{173}') {
        'u'
    } else if '\u{174}' <= c && c <= '\u{175}' {
        'w'
    } else if c == '\u{DD}' || c == '\u{FD}' || c == '\u{FF}' || ('\u{176}' <= c && c <= '\u{178}') {
        'y'
    } else if '\u{179}' <= c && c <= '\u{17E}' {
        'z'
    } else {
        c
    }
}

fn push_stripped(out: &mut String, s: &str)
    ensures
        final(out)@ == old(out)@ + strip_marks(s@),
{
    let cs = chars_of(s);
    let mut i: usize = 0;
    while i < cs.len()
        invariant
            i <= cs@.len(),
            cs@ == s@,
            out@ == old(out)@ + strip_marks(cs@.take(i as int)),
        decreases cs@.len() - i,
    {
        assert(cs@.take(i + 1).drop_last() =~= cs@.take(i as int));
        assert(cs@.take(i + 1).last() == cs@[i as int]);
        let c = cs[i];
        if !(c == '\u{00AD}' || c == '\u{00A0}' || c == '-' || ('\u{300}' <= c && c <= '\u{36F}')) {
            push_char(out, base_letter(c));
        }
        assert(out@ =~= old(out)@ + strip_marks(cs@.take(i + 1)));
        i = i + 1;
    }
    assert(cs@.take(cs@.len() as int) =~= cs@);
}

/// The canonical author-year key of a reference, such as `friston-2010`. Over ASCII
/// author text the lowercasing is plain ASCII lowercasing.
pub fn make_author_year_key(authors: &str, year: &str) -> (key: String)
    ensures
        key@ == author_year_key(authors@, year@),
        (forall|i: int| 0 <= i < authors@.len() ==> #[trigger] authors@[i] <= '\x7f')
            ==> key@ == strip_marks(author_word(authors@).map_values(|c: char| ascii_lowercase(c))) + seq!['-'] + year@,
{
    let cs = chars_of(authors);
    let c = find_comma(&cs);
    proof {
        assert(before_first(cs@, is_comma()) =~= cs@.take(c as int));
    }
    let bounds = first_word_bounds(&cs, c);
    let word: String = match bounds {
        Some((a, b)) => string_of(&cs, a, b),
        None => authors.to_string(),
    };
    proof {
        assert(word@ == author_word(authors@));
        if forall|i: int| 0 <= i < authors@.len() ==> #[trigger] authors@[i] <= '\x7f' {
            if let Some((a, b)) = bounds {
                assert forall|i: int| 0 <= i < word@.len() implies #[trigger] word@[i] <= '\x7f' by {
                    assert(word@[i] == cs@[a + i]);
                }
            }
        }
    }
    let lower = to_lowercase(word.as_str());
    let mut key = String::new();
    push_stripped(&mut key, lower.as_str());
    push_char(&mut key, '-');
    let ys = chars_of(year);
    let mut i: usize = 0;
    let ghost head = key@;
    while i < ys.len()
        invariant
            i <= ys@.len(),
            ys@ == year@,
            key@ == head + ys@.take(i as int),
        decreases ys@.len() - i,
    {
        assert(ys@.take(i + 1) =~= ys@.take(i as int).push(ys@[i as int]));
        push_char(&mut key, ys[i]);
        i = i + 1;
    }
    assert(ys@.take(ys@.len() as int) =~= ys@);
    assert(key@ =~= author_year_key(authors@, year@));
    key
}

/// The normalized first-author key of an author list (empty when there is no author).
pub fn first_author_key(authors: &str) -> (key: String)
    ensures
        key@ == spec_first_author_key(authors@),
{
    let cs = chars_of(authors);
    let c = find_comma(&cs);
    proof {
        assert(before_first(cs@, is_comma()) =~= cs@.take(c as int));
    }
    let mut key = String::new();
    match first_word_bounds(&cs, c) {
        Some((a, b)) => {
            let word = string_of(&cs, a, b);
            let lower = to_lowercase(word.as_str());
            push_stripped(&mut key, lower.as_str());
            assert(key@ =~= spec_first_author_key(authors@));
        },
        None => {
            assert(key@ =~= spec_first_author_key(authors@));
        },
    }
    key
}

/// Whether `needle` occurs in `hay` as a contiguous piece.
pub open spec fn occurs_in(needle: Seq<char>, hay: Seq<char>) -> bool {
    exists|i: int| 0 <= i <= hay.len() - needle.len() && #[trigger] hay.subrange(i, i + needle.len()) == needle
}

/// Whether a text occurs in another.
pub fn contains_text(hay: &str, needle: &str) -> (b: bool)
    ensures
        b == occurs_in(needle@, hay@),
{
    let h = chars_of(hay);
    let n = chars_of(needle);
    if n.len() > h.len() {
        proof {
            if occurs_in(needle@, hay@) {
                let i = choose|i: int| 0 <= i <= hay@.len() - needle@.len() && #[trigger] hay@.subrange(i, i + needle@.len()) == needle@;
                assert(false);
            }
        }
        return false;
    }
    let hl = h.len();
    let mut i: usize = 0;
    while i <= h.len() - n.len()
        invariant
            hl == h@.len(),
            h@ == hay@,
            n@ == needle@,
            n@.len() <= h@.len(),
            i <= h@.len() - n@.len() + 1,
            forall|k: int| 0 <= k < i ==> #[trigger] h@.subrange(k, k + n@.len()) != n@,
        decreases h@.len() - n@.len() + 1 - i,
    {
        let mut j: usize = 0;
        let mut same = true;
        while j < n.len() && same
            invariant
                hl == h@.len(),
                i <= h@.len() - n@.len(),
                j <= n@.len(),
                n@.len() <= h@.len(),
                forall|k: int| 0 <= k < j ==> h@[i + k] == n@[k],
                !same ==> j < n@.len() && h@[i + j] != n@[j as int],
            decreases n@.len() - j, (if same { 1int } else { 0int }),
        {
            if h[i + j] == n[j] {
                j = j + 1;
            } else {
                same = false;
            }
        }
        if j == n.len() {
            assert(h@.subrange(i as int, i + n@.len()) =~= n@);
            return true;
        }
        assert(h@.subrange(i as int, i + n@.len())[j as int] != n@[j as int]);
        i = i + 1;
    }
    proof {
        if occurs_in(needle@, hay@) {
            let k = choose|k: int| 0 <= k <= hay@.len() - needle@.len() && #[trigger] hay@.subrange(k, k + needle@.len()) == needle@;
            assert(h@.subrange(k, k + n@.len()) != n@);
        }
    }
    false
}

/// How new an author is to the crawler.
#[derive(Clone, Copy, Debug, PartialEq, Eq, Structural)]
pub enum Novelty {
    /// No first author could be read.
    Unknown,
    /// Some resolved reference already names the author.
    Known,
    /// No resolved reference names the author.
    New,
}

pub open spec fn spec_novelty(authors: Seq<char>, known: Seq<Seq<char>>) -> Novelty {
    let key = spec_first_author_key(authors);
    if key.len() == 0 {
        Novelty::Unknown
    } else if exists|i: int| 0 <= i < known.len() && occurs_in(key, #[trigger] known[i]) {
        Novelty::Known
    } else {
        Novelty::New
    }
}

/// The novelty of a reference's first author against the (lowercased) authors of the
/// resolved references.
pub fn author_novelty(authors: &str, known: &[String]) -> (n: Novelty)
    ensures
        n == spec_novelty(authors@, crate::ingest::views(known@)),
{
    let key = first_author_key(authors);
    if chars_of(key.as_str()).len() == 0 {
        return Novelty::Unknown;
    }
    let ghost kv = crate::ingest::views(known@);
    let mut i: usize = 0;
    while i < known.len()
        invariant
            i <= known@.len(),
            kv == crate::ingest::views(known@),
            key@ == spec_first_author_key(authors@),
            key@.len() > 0,
            forall|k: int| 0 <= k < i ==> !occurs_in(key@, #[trigger] kv[k]),
        decreases known@.len() - i,
    {
        assert(kv[i as int] == known@[i as int]@);
        if contains_text(known[i].as_str(), key.as_str()) {
            assert(occurs_in(key@, kv[i as int]));
            return Novelty::Known;
        }
        assert(kv[i as int] == known@[i as int]@);
        i = i + 1;
    }
    Novelty::New
}

/// The kind of a reference.
#[derive(Clone, Copy, Debug, PartialEq, Eq, Structural)]
pub enum RefType {
    Bibliography,
    Citation,
    Doi,
    Arxiv,
    Url,
}

/// What a reference says of itself, as far as it was read.
#[derive(Clone, Debug)]
pub struct RefDetails {
    pub authors: Option<String>,
    pub year: Option<String>,
    pub title: Option<String>,
    pub doi: Option<String>,
    pub arxiv_id: Option<String>,
    pub url: Option<String>,
}

pub open spec fn opt_view(o: Option<String>) -> Option<Seq<char>> {
    match o {
        Some(s) => Some(s@),
        None => None,
    }
}

/// The details as plain values: authors, year, title, DOI, arXiv id, URL.
pub type DetailsView = (Option<Seq<char>>, Option<Seq<char>>, Option<Seq<char>>, Option<Seq<char>>, Option<Seq<char>>, Option<Seq<char>>);

pub open spec fn details_view(d: RefDetails) -> DetailsView {
    (opt_view(d.authors), opt_view(d.year), opt_view(d.title), opt_view(d.doi), opt_view(d.arxiv_id), opt_view(d.url))
}

/// A reference found in the documents, with the paragraphs that cite it.
#[derive(Clone, Debug)]
pub struct ExtractedRef {
    pub key: String,
    pub content: String,
    pub ref_type: RefType,
    pub details: RefDetails,
    pub citing: Vec<u128>,
}

/// A reference as plain values: key, content, type, details and citing paragraphs.
pub type RefView = (Seq<char>, Seq<char>, RefType, DetailsView, Seq<u128>);

pub open spec fn ref_view(r: ExtractedRef) -> RefView {
    (r.key@, r.content@, r.ref_type, details_view(r.details), r.citing@)
}

pub open spec fn refs_view(rs: Seq<ExtractedRef>) -> Seq<RefView> {
    rs.map_values(|r: ExtractedRef| ref_view(r))
}

/// The position of the reference with a key.
pub open spec fn ref_index(rs: Seq<RefView>, key: Seq<char>) -> Option<int> {
    if exists|i: int| 0 <= i < rs.len() && (#[trigger] rs[i]).0 == key {
        Some(choose|i: int| 0 <= i < rs.len() && (#[trigger] rs[i]).0 == key
            && forall|j: int| 0 <= j < i ==> (#[trigger] rs[j]).0 != key)
    } else {
        None
    }
}

/// The registry after a paragraph cites a reference: a known key gains the paragraph
/// (once); a new key becomes a reference with the given content and type.
pub open spec fn after_citation(rs: Seq<RefView>, r: (Seq<char>, Seq<char>, RefType, DetailsView), para: u128) -> Seq<RefView> {
    match ref_index(rs, r.0) {
        Some(i) => if rs[i].4.contains(para) {
            rs
        } else {
            rs.update(i, (rs[i].0, rs[i].1, rs[i].2, rs[i].3, rs[i].4.push(para)))
        },
        None => rs.push((r.0, r.1, r.2, r.3, seq![para])),
    }
}

/// Every key names one reference, and no reference lists a citing paragraph twice.
pub open spec fn registry_wf(rs: Seq<RefView>) -> bool {
    &&& forall|i: int, j: int| 0 <= i < j < rs.len() ==> (#[trigger] rs[i]).0 != (#[trigger] rs[j]).0
    &&& forall|i: int| 0 <= i < rs.len() ==> (#[trigger] rs[i]).4.no_duplicates()
}

/// Whether the registry holds a reference with a key that a paragraph cites.
pub open spec fn cited_by(rs: Seq<RefView>, key: Seq<char>, para: u128) -> bool {
    exists|i: int| 0 <= i < rs.len() && (#[trigger] rs[i]).0 == key && rs[i].4.contains(para)
}

proof fn lemma_ref_index_unique(rs: Seq<RefView>, key: Seq<char>, i: int)
    requires
        registry_wf(rs),
        0 <= i < rs.len(),
        rs[i].0 == key,
    ensures
        ref_index(rs, key) == Some(i),
{
    assert forall|j: int| 0 <= j < i implies (#[trigger] rs[j]).0 != key by {}
    let c = choose|c: int| 0 <= c < rs.len() && (#[trigger] rs[c]).0 == key
        && forall|j: int| 0 <= j < c ==> (#[trigger] rs[j]).0 != key;
    if c < i {
        assert(rs[c].0 != rs[i].0);
    } else if c > i {
        assert(rs[i].0 != key);
    }
}

/// Citing keeps the registry deduplicated: keys stay unique, no paragraph is listed twice
/// for a reference, and afterwards the cited key's reference lists the paragraph.
pub proof fn law_citation_keeps_registry(rs: Seq<RefView>, r: (Seq<char>, Seq<char>, RefType, DetailsView), para: u128)
    requires
        registry_wf(rs),
    ensures
        registry_wf(after_citation(rs, r, para)),
        cited_by(after_citation(rs, r, para), r.0, para),
        after_citation(rs, r, para).len() == rs.len() || after_citation(rs, r, para).len() == rs.len() + 1,
{
    let out = after_citation(rs, r, para);
    if exists|i: int| 0 <= i < rs.len() && (#[trigger] rs[i]).0 == r.0 {
        let w = choose|i: int| 0 <= i < rs.len() && (#[trigger] rs[i]).0 == r.0;
        lemma_ref_index_unique(rs, r.0, w);
        if rs[w].4.contains(para) {
            assert(out[w].0 == r.0);
        } else {
            let e = rs[w];
            let ne = (e.0, e.1, e.2, e.3, e.4.push(para));
            assert(out == rs.update(w, ne));
            assert forall|i: int, j: int| 0 <= i < j < out.len() implies (#[trigger] out[i]).0 != (#[trigger] out[j]).0 by {
                assert(rs[i].0 != rs[j].0);
            }
            assert forall|i: int| 0 <= i < out.len() implies (#[trigger] out[i]).4.no_duplicates() by {
                if i == w {
                    assert(rs[w].4.no_duplicates());
                    assert forall|a: int, b: int| 0 <= a < b < ne.4.len() implies ne.4[a] != ne.4[b] by {
                        if b == e.4.len() {
                            assert(e.4[a] == ne.4[a]);
                        }
                    }
                }
            }
            assert(out[w].4[e.4.len() as int] == para);
        }
    } else {
        assert(ref_index(rs, r.0) is None);
        let ne = (r.0, r.1, r.2, r.3, seq![para]);
        assert(out == rs.push(ne));
        assert forall|i: int, j: int| 0 <= i < j < out.len() implies (#[trigger] out[i]).0 != (#[trigger] out[j]).0 by {
            if j == rs.len() {
                assert(rs[i].0 != r.0);
            } else {
                assert(rs[i].0 != rs[j].0);
            }
        }
        assert forall|i: int| 0 <= i < out.len() implies (#[trigger] out[i]).4.no_duplicates() by {
            if i < rs.len() {
                assert(out[i] == rs[i]);
            }
        }
        assert(out[rs.len() as int].4[0] == para);
    }
}

/// A reference as an extractor reads it, before it is cited.
pub struct NewRef {
    pub key: String,
    pub content: String,
    pub ref_type: RefType,
    pub details: RefDetails,
}

pub open spec fn new_ref_view(r: NewRef) -> (Seq<char>, Seq<char>, RefType, DetailsView) {
    (r.key@, r.content@, r.ref_type, details_view(r.details))
}

/// Record that a paragraph cites a reference.
pub fn record_citation(refs: &mut Vec<ExtractedRef>, r: NewRef, para: u128)
    ensures
        refs_view(final(refs)@) == after_citation(refs_view(old(refs)@), new_ref_view(r), para),
{
    let ghost rv = refs_view(refs@);
    let ghost key = r.key@;
    let mut i: usize = 0;
    while i < refs.len()
        invariant
            i <= refs@.len(),
            refs@ == old(refs)@,
            rv == refs_view(refs@),
            rv.len() == refs@.len(),
            key == r.key@,
            forall|j: int| 0 <= j < i ==> (#[trigger] rv[j]).0 != key,
        decreases refs@.len() - i,
    {
        if str_is(refs[i].key.as_str(), r.key.as_str()) {
            proof {
                assert(rv[i as int].0 == key);
                let c = choose|c: int| 0 <= c < rv.len() && (#[trigger] rv[c]).0 == key
                    && forall|j: int| 0 <= j < c ==> (#[trigger] rv[j]).0 != key;
                if c < i {
                    assert(rv[c].0 != key);
                }
                if c > i {
                    assert(rv[i as int].0 != key);
                }
                assert(ref_index(rv, key) == Some(i as int));
            }
            if crate::ledger::wallet_exists(refs[i].citing.as_slice(), para) {
                return;
            }
            let ghost before = refs@;
            let mut e = refs.remove(i);
            e.citing.push(para);
            refs.insert(i, e);
            assert(refs@ =~= before.update(i as int, e));
            assert(refs_view(refs@) =~= after_citation(rv, new_ref_view(r), para));
            return;
        }
        i = i + 1;
    }
    proof {
        if exists|c: int| 0 <= c < rv.len() && (#[trigger] rv[c]).0 == key {
            let c = choose|c: int| 0 <= c < rv.len() && (#[trigger] rv[c]).0 == key;
            assert(rv[c].0 != key);
        }
    }
    let ghost nv = new_ref_view(r);
    let mut citing: Vec<u128> = Vec::new();
    citing.push(para);
    let e = ExtractedRef { key: r.key, content: r.content, ref_type: r.ref_type, details: r.details, citing };
    assert(ref_view(e) == (nv.0, nv.1, nv.2, nv.3, seq![para]));
    let ghost before = refs@;
    refs.push(e);
    assert(refs_view(refs@) =~= refs_view(before).push(ref_view(e)));
    assert(refs_view(refs@) =~= after_citation(rv, nv, para));
}

/// A text without its trailing dots.
pub open spec fn trim_dots(s: Seq<char>) -> Seq<char>
    decreases s.len(),
{
    if s.len() > 0 && s.last() == '.' { trim_dots(s.drop_last()) } else { s }
}

/// Remove trailing dots (`str::trim_end_matches('.')`).
pub fn trim_trailing_dots(s: &str) -> (r: String)
    ensures
        r@ == trim_dots(s@),
{
    let cs = chars_of(s);
    let mut n = cs.len();
    assert(cs@.take(n as int) =~= cs@);
    while n > 0 && cs[n - 1] == '.'
        invariant
            n <= cs@.len(),
            cs@ == s@,
            trim_dots(s@) == trim_dots(cs@.take(n as int)),
        decreases n,
    {
        assert(cs@.take(n as int).drop_last() =~= cs@.take(n - 1));
        n = n - 1;
    }
    assert(trim_dots(cs@.take(n as int)) == cs@.take(n as int));
    let r = string_of(&cs, 0, n);
    assert(cs@.subrange(0, n as int) =~= cs@.take(n as int));
    r
}

/// The arXiv id of a match: its first whitespace-separated word (empty when it has
/// none), without trailing dots.
pub open spec fn clean_arxiv(id: Seq<char>) -> Seq<char> {
    trim_dots(match first_word(id) { Some(w) => w, None => Seq::empty() })
}

/// Clean an arXiv id.
pub fn clean_arxiv_id(id: &str) -> (r: String)
    ensures
        r@ == clean_arxiv(id@),
{
    let cs = chars_of(id);
    assert(cs@.take(cs@.len() as int) =~= cs@);
    let word: String = match first_word_bounds(&cs, cs.len()) {
        Some((a, b)) => string_of(&cs, a, b),
        None => String::new(),
    };
    trim_trailing_dots(word.as_str())
}

/// A match of a regular expression: the byte offset where it starts in the text, and its
/// capture groups (group 0 is the whole match; `None` for a group that took no part).
pub type MatchView = (usize, Seq<Option<Seq<char>>>);

/// The successive non-overlapping matches of a pattern in a text, as `regex` finds them;
/// `None` when the pattern does not compile.
pub uninterp spec fn regex_matches(pattern: Seq<char>, text: Seq<char>) -> Option<Seq<MatchView>>;

pub open spec fn match_view(m: (usize, Vec<Option<String>>)) -> MatchView {
    (m.0, m.1@.map_values(|g: Option<String>| opt_view(g)))
}

/// `regex::Regex::new(pattern)` and `captures_iter(text)`: every match with its start
/// offset and capture groups. Which texts match is named, not restated.
#[verifier::external_body]
fn captures_all(pattern: &str, text: &str) -> (r: Option<Vec<(usize, Vec<Option<String>>)>>)
    ensures
        match r {
            Some(ms) => regex_matches(pattern@, text@) == Some(ms@.map_values(|m: (usize, Vec<Option<String>>)| match_view(m))),
            None => regex_matches(pattern@, text@) is None,
        },
{
    let re = regex::Regex::new(pattern).ok()?;
    Some(re.captures_iter(text).map(|c| (c.get(0).map_or(0, |m| m.start()),
        c.iter().map(|g| g.map(|m| m.as_str().to_string())).collect())).collect())
}

/// Group `i` of a match; empty when it took no part (the groups read here always do).
pub open spec fn group(m: MatchView, i: int) -> Seq<char> {
    if 0 <= i < m.1.len() && m.1[i] is Some { m.1[i]->0 } else { Seq::empty() }
}

/// The matches of a pattern; none when it does not compile.
pub open spec fn matches_of(pattern: Seq<char>, text: Seq<char>) -> Seq<MatchView> {
    match regex_matches(pattern, text) {
        Some(ms) => ms,
        None => Seq::empty(),
    }
}

/// The registry after citing each reference in turn.
pub open spec fn cite_all(rs: Seq<RefView>, news: Seq<(Seq<char>, Seq<char>, RefType, DetailsView)>, para: u128) -> Seq<RefView>
    decreases news.len(),
{
    if news.len() == 0 {
        rs
    } else {
        after_citation(cite_all(rs, news.drop_last(), para), news.last(), para)
    }
}

fn group_text(m: &(usize, Vec<Option<String>>), i: usize) -> (s: String)
    ensures
        s@ == group(match_view(*m), i as int),
{
    if i < m.1.len() {
        match &m.1[i] {
            Some(g) => {
                return g.clone();
            },
            None => {},
        }
    }
    String::new()
}

fn trimmed(s: &str) -> (r: String)
    ensures
        r@ == trim(s@),
{
    let cs = chars_of(s);
    let (a, b) = trim_bounds(&cs, 0, cs.len());
    assert(cs@.subrange(0, cs@.len() as int) =~= cs@);
    string_of(&cs, a, b)
}

fn none_details() -> (d: RefDetails)
    ensures
        details_view(d) == (None::<Seq<char>>, None::<Seq<char>>, None::<Seq<char>>, None::<Seq<char>>, None::<Seq<char>>, None::<Seq<char>>),
{
    RefDetails { authors: None, year: None, title: None, doi: None, arxiv_id: None, url: None }
}

/// Cite the references read from each match, in order.
fn cite_matches(
    refs: &mut Vec<ExtractedRef>,
    ms: &Vec<(usize, Vec<Option<String>>)>,
    text: &str,
    kind: RefType,
    para: u128,
    Ghost(read): Ghost<spec_fn(MatchView, Seq<char>) -> (Seq<char>, Seq<char>, RefType, DetailsView)>,
)
    requires
        forall|m: MatchView, t: Seq<char>| #[trigger] read(m, t) == read_ref(kind, m, t),
    ensures
        refs_view(final(refs)@) == cite_all(refs_view(old(refs)@),
            ms@.map_values(|m: (usize, Vec<Option<String>>)| read(match_view(m), text@)), para),
{
    let ghost start = refs_view(refs@);
    let ghost news = ms@.map_values(|m: (usize, Vec<Option<String>>)| read(match_view(m), text@));
    let mut i: usize = 0;
    while i < ms.len()
        invariant
            i <= ms@.len(),
            news == ms@.map_values(|m: (usize, Vec<Option<String>>)| read(match_view(m), text@)),
            forall|m: MatchView, t: Seq<char>| #[trigger] read(m, t) == read_ref(kind, m, t),
            refs_view(refs@) == cite_all(start, news.take(i as int), para),
        decreases ms@.len() - i,
    {
        let r = read_match(&ms[i], text, kind);
        assert(news.take(i + 1).drop_last() =~= news.take(i as int));
        assert(news.take(i + 1).last() == news[i as int]);
        record_citation(refs, r, para);
        i = i + 1;
    }
    assert(news.take(ms@.len() as int) =~= news);
}

/// `doi:?(10\.\d{4,}/[^\s,;]+)`
pub open spec fn doi_pattern() -> Seq<char> {
    "doi:?(10\\.\\d{4,}/[^\\s,;]+)"@
}

/// `arXiv[:\s]+([\d.]+(?:v\d+)?(?:\s*\[[a-z.,\s]+\])?)`
pub open spec fn arxiv_pattern() -> Seq<char> {
    "arXiv[:\\s]+([\\d.]+(?:v\\d+)?(?:\\s*\\[[a-z.,\\s]+\\])?)"@
}

/// `https?://[^\s,;)\]]+`
pub open spec fn url_pattern() -> Seq<char> {
    "https?://[^\\s,;)\\]]+"@
}

/// Inline author-year citations such as `(Friston 2010)`, `(Parr & Friston, 2019)`,
/// `(Da Costa et al., 2020)` or `(Friston, FitzGerald et al. 2016)`: capitalised names
/// (inner capitals allowed) joined by `and`, `&`, a comma or a space, an optional
/// `et al.`, then the year.
pub open spec fn citation_pattern() -> Seq<char> {
    "\\(([A-Z][A-Za-z\\x{00AD}\\x{00C0}-\\x{024F}]+(?:(?:,?\\s*(?:and|&)\\s*|,?\\s+)[A-Z][A-Za-z\\x{00AD}\\x{00C0}-\\x{024F}]+)*(?:,?\\s*et\\s+al\\.?)?),?\\s*(\\d{4}[a-z]?)\\)"@
}

/// Bibliography entries: `Author, F. N. (YYYY). "Title."`
pub open spec fn bibliography_pattern() -> Seq<char> {
    "([A-Z][a-z\\x{00AD}\\x{00C0}-\\x{024F}]+(?:,\\s*(?:[A-Z]\\.\\s*)+(?:and\\s+)?)*(?:,?\\s*(?:et\\s+al\\.))?)\\s*\\((\\d{4}[a-z]?)\\)\\.\\s*[\"\\x{201C}]([^\"\\x{201D}]+)[\"\\x{201D}]"@
}

/// The reference a match stands for, by kind:
/// - DOI: the DOI without trailing dots, shown as `doi:...`;
/// - arXiv: the cleaned id, keyed `arxiv:...` and shown as `arXiv:...`;
/// - URL: the URL without trailing dots;
/// - citation: the trimmed authors and the year, keyed by `author_year_key`, shown as
///   `Authors (YYYY)`;
/// - bibliography: as a citation, with the trimmed title, shown as `Authors (YYYY). "Title"`;
///   keyed by the DOI found after it when there is one (see `doi_after`).
pub open spec fn read_ref(kind: RefType, m: MatchView, text: Seq<char>) -> (Seq<char>, Seq<char>, RefType, DetailsView) {
    match kind {
        RefType::Doi => {
            let d = trim_dots(group(m, 1));
            (d, "doi:"@ + d, RefType::Doi, (None, None, None, Some(d), None, None))
        },
        RefType::Arxiv => {
            let a = clean_arxiv(trim(group(m, 1)));
            ("arxiv:"@ + a, "arXiv:"@ + a, RefType::Arxiv, (None, None, None, None, Some(a), None))
        },
        RefType::Url => {
            let u = trim_dots(group(m, 0));
            (u, u, RefType::Url, (None, None, None, None, None, Some(u)))
        },
        RefType::Citation => {
            let authors = trim(group(m, 1));
            let year = group(m, 2);
            (author_year_key(authors, year), authors + " ("@ + year + ")"@, RefType::Citation,
                (Some(authors), Some(year), None, None, None, None))
        },
        RefType::Bibliography => {
            let authors = trim(group(m, 1));
            let year = group(m, 2);
            let title = trim(group(m, 3));
            let doi = doi_after(text, m.0 as int);
            let key = match doi { Some(d) => d, None => author_year_key(authors, year) };
            (key, authors + " ("@ + year + "). \""@ + title + "\""@, RefType::Bibliography,
                (Some(authors), Some(year), Some(title), doi, None, None))
        },
    }
}

fn read_match(m: &(usize, Vec<Option<String>>), text: &str, kind: RefType) -> (r: NewRef)
    ensures
        new_ref_view(r) == read_ref(kind, match_view(*m), text@),
{
    let mv = Ghost(match_view(*m));
    match kind {
        RefType::Doi => {
            let d = trim_trailing_dots(group_text(m, 1).as_str());
            let mut content = String::new();
            push_str(&mut content, "doi:");
            push_str(&mut content, d.as_str());
            let doi = d.clone();
            let r = NewRef { key: d, content, ref_type: RefType::Doi, details: RefDetails { doi: Some(doi), ..none_details() } };
            assert(new_ref_view(r) =~= read_ref(kind, mv@, text@));
            r
        },
        RefType::Arxiv => {
            let a = clean_arxiv_id(trimmed(group_text(m, 1).as_str()).as_str());
            let mut key = String::new();
            push_str(&mut key, "arxiv:");
            push_str(&mut key, a.as_str());
            let mut content = String::new();
            push_str(&mut content, "arXiv:");
            push_str(&mut content, a.as_str());
            let r = NewRef { key, content, ref_type: RefType::Arxiv, details: RefDetails { arxiv_id: Some(a), ..none_details() } };
            assert(new_ref_view(r) =~= read_ref(kind, mv@, text@));
            r
        },
        RefType::Url => {
            let u = trim_trailing_dots(group_text(m, 0).as_str());
            let content = u.clone();
            let url = u.clone();
            let r = NewRef { key: u, content, ref_type: RefType::Url, details: RefDetails { url: Some(url), ..none_details() } };
            assert(new_ref_view(r) =~= read_ref(kind, mv@, text@));
            r
        },
        RefType::Citation => {
            let authors = trimmed(group_text(m, 1).as_str());
            let year = group_text(m, 2);
            let key = make_author_year_key(authors.as_str(), year.as_str());
            let mut content = String::new();
            push_str(&mut content, authors.as_str());
            push_str(&mut content, " (");
            push_str(&mut content, year.as_str());
            push_str(&mut content, ")");
            let r = NewRef { key, content, ref_type: RefType::Citation,
                details: RefDetails { authors: Some(authors), year: Some(year), ..none_details() } };
            assert(new_ref_view(r) =~= read_ref(kind, mv@, text@));
            r
        },
        RefType::Bibliography => {
            let authors = trimmed(group_text(m, 1).as_str());
            let year = group_text(m, 2);
            let title = trimmed(group_text(m, 3).as_str());
            let doi = extract_doi_from_segment(text, m.0);
            let key = match &doi {
                Some(d) => d.clone(),
                None => make_author_year_key(authors.as_str(), year.as_str()),
            };
            let mut content = String::new();
            push_str(&mut content, authors.as_str());
            push_str(&mut content, " (");
            push_str(&mut content, year.as_str());
            push_str(&mut content, "). \"");
            push_str(&mut content, title.as_str());
            push_str(&mut content, "\"");
            let r = NewRef { key, content, ref_type: RefType::Bibliography,
                details: RefDetails { authors: Some(authors), year: Some(year), title: Some(title), doi, arxiv_id: None, url: None } };
            assert(new_ref_view(r) =~= read_ref(kind, mv@, text@));
            r
        },
    }
}

/// The largest character boundary in `(start, pos]`, or `start` when there is none.
pub open spec fn boundary_down(bytes: Seq<u8>, pos: int, start: int) -> int
    decreases pos - start,
{
    if pos <= start {
        start
    } else if vstd::utf8::is_char_boundary(bytes, pos) {
        pos
    } else {
        boundary_down(bytes, pos - 1, start)
    }
}

/// The DOI of the first DOI match within the 500 bytes that follow `start` (cut back to a
/// character boundary), without trailing dots.
pub open spec fn doi_after(text: Seq<char>, start: int) -> Option<Seq<char>> {
    let bytes = vstd::utf8::encode_utf8(text);
    let target = if start + 500 < bytes.len() { start + 500 } else { bytes.len() as int };
    let end = boundary_down(bytes, target, start);
    if end <= start || !vstd::utf8::is_char_boundary(bytes, start) {
        None
    } else {
        let seg = vstd::utf8::decode_utf8(bytes.subrange(start, end));
        let ms = matches_of(doi_pattern(), seg);
        if ms.len() > 0 { Some(trim_dots(group(ms[0], 1))) } else { None }
    }
}

/// Find a DOI near a position of the text: within the next 500 bytes, cut back to a
/// character boundary.
pub fn extract_doi_from_segment(text: &str, start: usize) -> (r: Option<String>)
    ensures
        opt_view(r) == doi_after(text@, start as int),
{
    broadcast use vstd::utf8::encode_utf8_decode_utf8, vstd::utf8::encode_utf8_valid_utf8;
    let len = text.as_bytes().len();
    let target: usize = if start < len && len - start > 500 { start + 500 } else { len };
    let ghost bytes = vstd::utf8::encode_utf8(text@);
    assert(target == (if start + 500 < bytes.len() { start + 500 } else { bytes.len() as int }));
    let mut pos = target;
    while pos > start && !text.is_char_boundary(pos)
        invariant
            start <= pos || pos == target,
            boundary_down(bytes, target as int, start as int) == boundary_down(bytes, pos as int, start as int),
            bytes == vstd::utf8::encode_utf8(text@),
        decreases pos,
    {
        pos = pos - 1;
    }
    assert(boundary_down(bytes, pos as int, start as int) == (if pos <= start { start as int } else { pos as int }));
    if pos <= start || !text.is_char_boundary(start) {
        return None;
    }
    let (_, rest) = text.split_at(start);
    proof {
        let rb = bytes.subrange(start as int, bytes.len() as int);
        assert(rest.spec_bytes() =~= rb);
        vstd::utf8::valid_utf8_split(bytes, start as int);
        if pos < len {
            vstd::utf8::is_char_boundary_iff_not_is_continuation_byte(bytes, pos as int);
            vstd::utf8::is_char_boundary_iff_not_is_continuation_byte(rb, pos - start);
            assert(rb[pos - start] == bytes[pos as int]);
        } else {
            vstd::utf8::is_char_boundary_start_end_of_seq(rb);
        }
    }
    let (seg, _) = rest.split_at(pos - start);
    assert(seg.spec_bytes() =~= bytes.subrange(start as int, pos as int));
    assert(vstd::utf8::decode_utf8(seg.spec_bytes()) == seg@);
    let ms = match captures_all("doi:?(10\\.\\d{4,}/[^\\s,;]+)", seg) {
        Some(ms) => ms,
        None => return None,
    };
    if ms.len() == 0 {
        return None;
    }
    let d = trim_trailing_dots(group_text(&ms[0], 1).as_str());
    assert(ms@.map_values(|m: (usize, Vec<Option<String>>)| match_view(m))[0] == match_view(ms@[0]));
    Some(d)
}

/// The references a paragraph's text yields with one pattern, as `read_ref` reads them.
pub open spec fn refs_from(kind: RefType, pattern: Seq<char>, text: Seq<char>) -> Seq<(Seq<char>, Seq<char>, RefType, DetailsView)> {
    matches_of(pattern, text).map_values(|m: MatchView| read_ref(kind, m, text))
}

fn extract_with(refs: &mut Vec<ExtractedRef>, pattern: &str, text: &str, kind: RefType, para: u128)
    ensures
        refs_view(final(refs)@) == cite_all(refs_view(old(refs)@), refs_from(kind, pattern@, text@), para),
{
    match captures_all(pattern, text) {
        Some(ms) => {
            let ghost read = |m: MatchView, t: Seq<char>| read_ref(kind, m, t);
            cite_matches(refs, &ms, text, kind, para, Ghost(read));
            assert(ms@.map_values(|m: (usize, Vec<Option<String>>)| read(match_view(m), text@)) =~= refs_from(kind, pattern@, text@));
        },
        None => {
            assert(refs_from(kind, pattern@, text@) =~= Seq::<(Seq<char>, Seq<char>, RefType, DetailsView)>::empty());
        },
    }
}

/// The registry after scanning one paragraph: bibliography entries, inline citations,
/// DOIs, arXiv ids and URLs, in that order.
pub open spec fn after_paragraph(rs: Seq<RefView>, text: Seq<char>, para: u128) -> Seq<RefView> {
    let r1 = cite_all(rs, refs_from(RefType::Bibliography, bibliography_pattern(), text), para);
    let r2 = cite_all(r1, refs_from(RefType::Citation, citation_pattern(), text), para);
    let r3 = cite_all(r2, refs_from(RefType::Doi, doi_pattern(), text), para);
    let r4 = cite_all(r3, refs_from(RefType::Arxiv, arxiv_pattern(), text), para);
    cite_all(r4, refs_from(RefType::Url, url_pattern(), text), para)
}

/// Scan a paragraph for references and record that it cites them.
pub fn scan_paragraph(refs: &mut Vec<ExtractedRef>, text: &str, para: u128)
    ensures
        refs_view(final(refs)@) == after_paragraph(refs_view(old(refs)@), text@, para),
{
    extract_with(refs, "([A-Z][a-z\\x{00AD}\\x{00C0}-\\x{024F}]+(?:,\\s*(?:[A-Z]\\.\\s*)+(?:and\\s+)?)*(?:,?\\s*(?:et\\s+al\\.))?)\\s*\\((\\d{4}[a-z]?)\\)\\.\\s*[\"\\x{201C}]([^\"\\x{201D}]+)[\"\\x{201D}]", text, RefType::Bibliography, para);
    extract_with(refs, "\\(([A-Z][A-Za-z\\x{00AD}\\x{00C0}-\\x{024F}]+(?:(?:,?\\s*(?:and|&)\\s*|,?\\s+)[A-Z][A-Za-z\\x{00AD}\\x{00C0}-\\x{024F}]+)*(?:,?\\s*et\\s+al\\.?)?),?\\s*(\\d{4}[a-z]?)\\)", text, RefType::Citation, para);
    extract_with(refs, "doi:?(10\\.\\d{4,}/[^\\s,;]+)", text, RefType::Doi, para);
    extract_with(refs, "arXiv[:\\s]+([\\d.]+(?:v\\d+)?(?:\\s*\\[[a-z.,\\s]+\\])?)", text, RefType::Arxiv, para);
    extract_with(refs, "https?://[^\\s,;)\\]]+", text, RefType::Url, para);
}

/// The registry after scanning paragraphs in order.
pub open spec fn after_paragraphs(rs: Seq<RefView>, paras: Seq<(u128, Seq<char>)>) -> Seq<RefView>
    decreases paras.len(),
{
    if paras.len() == 0 {
        rs
    } else {
        after_paragraph(after_paragraphs(rs, paras.drop_last()), paras.last().1, paras.last().0)
    }
}

proof fn lemma_cite_all_wf(rs: Seq<RefView>, news: Seq<(Seq<char>, Seq<char>, RefType, DetailsView)>, para: u128)
    requires
        registry_wf(rs),
    ensures
        registry_wf(cite_all(rs, news, para)),
    decreases news.len(),
{
    if news.len() > 0 {
        lemma_cite_all_wf(rs, news.drop_last(), para);
        law_citation_keeps_registry(cite_all(rs, news.drop_last(), para), news.last(), para);
    }
}

proof fn lemma_paragraphs_wf(rs: Seq<RefView>, paras: Seq<(u128, Seq<char>)>)
    requires
        registry_wf(rs),
    ensures
        registry_wf(after_paragraphs(rs, paras)),
    decreases paras.len(),
{
    if paras.len() > 0 {
        lemma_paragraphs_wf(rs, paras.drop_last());
        let r0 = after_paragraphs(rs, paras.drop_last());
        let text = paras.last().1;
        let para = paras.last().0;
        let r1 = cite_all(r0, refs_from(RefType::Bibliography, bibliography_pattern(), text), para);
        let r2 = cite_all(r1, refs_from(RefType::Citation, citation_pattern(), text), para);
        let r3 = cite_all(r2, refs_from(RefType::Doi, doi_pattern(), text), para);
        let r4 = cite_all(r3, refs_from(RefType::Arxiv, arxiv_pattern(), text), para);
        lemma_cite_all_wf(r0, refs_from(RefType::Bibliography, bibliography_pattern(), text), para);
        lemma_cite_all_wf(r1, refs_from(RefType::Citation, citation_pattern(), text), para);
        lemma_cite_all_wf(r2, refs_from(RefType::Doi, doi_pattern(), text), para);
        lemma_cite_all_wf(r3, refs_from(RefType::Arxiv, arxiv_pattern(), text), para);
        lemma_cite_all_wf(r4, refs_from(RefType::Url, url_pattern(), text), para);
    }
}

/// Whether the registry already records that `para` cites every reference in `news`.
pub open spec fn all_cited(rs: Seq<RefView>, news: Seq<(Seq<char>, Seq<char>, RefType, DetailsView)>, para: u128) -> bool {
    forall|k: int| 0 <= k < news.len() ==> cited_by(rs, (#[trigger] news[k]).0, para)
}

proof fn lemma_cited_noop(rs: Seq<RefView>, r: (Seq<char>, Seq<char>, RefType, DetailsView), para: u128)
    requires
        registry_wf(rs),
        cited_by(rs, r.0, para),
    ensures
        after_citation(rs, r, para) == rs,
{
    let w = choose|i: int| 0 <= i < rs.len() && (#[trigger] rs[i]).0 == r.0 && rs[i].4.contains(para);
    lemma_ref_index_unique(rs, r.0, w);
}

proof fn lemma_cited_kept(rs: Seq<RefView>, r: (Seq<char>, Seq<char>, RefType, DetailsView), para: u128, key: Seq<char>, p: u128)
    requires
        registry_wf(rs),
        cited_by(rs, key, p),
    ensures
        cited_by(after_citation(rs, r, para), key, p),
{
    let w = choose|i: int| 0 <= i < rs.len() && (#[trigger] rs[i]).0 == key && rs[i].4.contains(p);
    let out = after_citation(rs, r, para);
    match ref_index(rs, r.0) {
        Some(i) => {
            if !rs[i].4.contains(para) {
                if i == w {
                    let k = choose|k: int| 0 <= k < rs[w].4.len() && rs[w].4[k] == p;
                    assert(out[w].4[k] == p);
                }
                assert(out[w].0 == key && out[w].4.contains(p));
            }
        },
        None => {
            assert(out[w] == rs[w]);
        },
    }
}

proof fn lemma_cite_all_kept(rs: Seq<RefView>, news: Seq<(Seq<char>, Seq<char>, RefType, DetailsView)>, para: u128, key: Seq<char>, p: u128)
    requires
        registry_wf(rs),
        cited_by(rs, key, p),
    ensures
        cited_by(cite_all(rs, news, para), key, p),
    decreases news.len(),
{
    if news.len() > 0 {
        lemma_cite_all_kept(rs, news.drop_last(), para, key, p);
        lemma_cite_all_wf(rs, news.drop_last(), para);
        lemma_cited_kept(cite_all(rs, news.drop_last(), para), news.last(), para, key, p);
    }
}

proof fn lemma_all_cited_kept(rs: Seq<RefView>, news: Seq<(Seq<char>, Seq<char>, RefType, DetailsView)>, para: u128,
    olds: Seq<(Seq<char>, Seq<char>, RefType, DetailsView)>, p: u128)
    requires
        registry_wf(rs),
        all_cited(rs, olds, p),
    ensures
        all_cited(cite_all(rs, news, para), olds, p),
{
    assert forall|k: int| 0 <= k < olds.len() implies cited_by(cite_all(rs, news, para), (#[trigger] olds[k]).0, p) by {
        lemma_cite_all_kept(rs, news, para, olds[k].0, p);
    }
}

proof fn lemma_cite_all_cites(rs: Seq<RefView>, news: Seq<(Seq<char>, Seq<char>, RefType, DetailsView)>, para: u128)
    requires
        registry_wf(rs),
    ensures
        all_cited(cite_all(rs, news, para), news, para),
    decreases news.len(),
{
    if news.len() > 0 {
        let front = news.drop_last();
        lemma_cite_all_cites(rs, front, para);
        lemma_cite_all_wf(rs, front, para);
        let mid = cite_all(rs, front, para);
        law_citation_keeps_registry(mid, news.last(), para);
        assert forall|k: int| 0 <= k < news.len() implies cited_by(cite_all(rs, news, para), (#[trigger] news[k]).0, para) by {
            if k < front.len() {
                assert(front[k] == news[k]);
                lemma_cited_kept(mid, news.last(), para, news[k].0, para);
            }
        }
    }
}

proof fn lemma_cite_all_noop(rs: Seq<RefView>, news: Seq<(Seq<char>, Seq<char>, RefType, DetailsView)>, para: u128)
    requires
        registry_wf(rs),
        all_cited(rs, news, para),
    ensures
        cite_all(rs, news, para) == rs,
    decreases news.len(),
{
    if news.len() > 0 {
        let front = news.drop_last();
        assert forall|k: int| 0 <= k < front.len() implies cited_by(rs, (#[trigger] front[k]).0, para) by {
            assert(front[k] == news[k]);
        }
        lemma_cite_all_noop(rs, front, para);
        assert(cited_by(rs, news[news.len() - 1].0, para));
        lemma_cited_noop(rs, news.last(), para);
    }
}

/// The five lists of references a paragraph's text yields.
pub open spec fn paragraph_refs(text: Seq<char>) -> Seq<Seq<(Seq<char>, Seq<char>, RefType, DetailsView)>> {
    seq![
        refs_from(RefType::Bibliography, bibliography_pattern(), text),
        refs_from(RefType::Citation, citation_pattern(), text),
        refs_from(RefType::Doi, doi_pattern(), text),
        refs_from(RefType::Arxiv, arxiv_pattern(), text),
        refs_from(RefType::Url, url_pattern(), text),
    ]
}

/// Whether the registry already records every reference of a paragraph as cited by it.
pub open spec fn paragraph_cited(rs: Seq<RefView>, text: Seq<char>, para: u128) -> bool {
    forall|j: int| 0 <= j < 5 ==> all_cited(rs, #[trigger] paragraph_refs(text)[j], para)
}

proof fn lemma_paragraph_kept(rs: Seq<RefView>, text: Seq<char>, para: u128, t2: Seq<char>, p2: u128)
    requires
        registry_wf(rs),
        paragraph_cited(rs, t2, p2),
    ensures
        paragraph_cited(after_paragraph(rs, text, para), t2, p2),
        registry_wf(after_paragraph(rs, text, para)),
{
    let l = paragraph_refs(text);
    let r1 = cite_all(rs, l[0], para);
    let r2 = cite_all(r1, l[1], para);
    let r3 = cite_all(r2, l[2], para);
    let r4 = cite_all(r3, l[3], para);
    lemma_cite_all_wf(rs, l[0], para);
    lemma_cite_all_wf(r1, l[1], para);
    lemma_cite_all_wf(r2, l[2], para);
    lemma_cite_all_wf(r3, l[3], para);
    lemma_cite_all_wf(r4, l[4], para);
    assert(after_paragraph(rs, text, para) == cite_all(r4, l[4], para));
    assert forall|j: int| 0 <= j < 5 implies all_cited(after_paragraph(rs, text, para), #[trigger] paragraph_refs(t2)[j], p2) by {
        let o = paragraph_refs(t2)[j];
        assert(all_cited(rs, o, p2));
        lemma_all_cited_kept(rs, l[0], para, o, p2);
        lemma_all_cited_kept(r1, l[1], para, o, p2);
        lemma_all_cited_kept(r2, l[2], para, o, p2);
        lemma_all_cited_kept(r3, l[3], para, o, p2);
        lemma_all_cited_kept(r4, l[4], para, o, p2);
    }
}

proof fn lemma_paragraph_cites(rs: Seq<RefView>, text: Seq<char>, para: u128)
    requires
        registry_wf(rs),
    ensures
        paragraph_cited(after_paragraph(rs, text, para), text, para),
{
    let l = paragraph_refs(text);
    let r1 = cite_all(rs, l[0], para);
    let r2 = cite_all(r1, l[1], para);
    let r3 = cite_all(r2, l[2], para);
    let r4 = cite_all(r3, l[3], para);
    let r5 = cite_all(r4, l[4], para);
    lemma_cite_all_wf(rs, l[0], para);
    lemma_cite_all_wf(r1, l[1], para);
    lemma_cite_all_wf(r2, l[2], para);
    lemma_cite_all_wf(r3, l[3], para);
    assert(after_paragraph(rs, text, para) == r5);
    lemma_cite_all_cites(rs, l[0], para);
    lemma_cite_all_cites(r1, l[1], para);
    lemma_cite_all_cites(r2, l[2], para);
    lemma_cite_all_cites(r3, l[3], para);
    lemma_cite_all_cites(r4, l[4], para);
    lemma_all_cited_kept(r1, l[1], para, l[0], para);
    lemma_all_cited_kept(r2, l[2], para, l[0], para);
    lemma_all_cited_kept(r3, l[3], para, l[0], para);
    lemma_all_cited_kept(r4, l[4], para, l[0], para);
    lemma_all_cited_kept(r2, l[2], para, l[1], para);
    lemma_all_cited_kept(r3, l[3], para, l[1], para);
    lemma_all_cited_kept(r4, l[4], para, l[1], para);
    lemma_all_cited_kept(r3, l[3], para, l[2], para);
    lemma_all_cited_kept(r4, l[4], para, l[2], para);
    lemma_all_cited_kept(r4, l[4], para, l[3], para);
    assert forall|j: int| 0 <= j < 5 implies all_cited(r5, #[trigger] paragraph_refs(text)[j], para) by {
        if j == 0 { assert(paragraph_refs(text)[j] == l[0]); }
        else if j == 1 { assert(paragraph_refs(text)[j] == l[1]); }
        else if j == 2 { assert(paragraph_refs(text)[j] == l[2]); }
        else if j == 3 { assert(paragraph_refs(text)[j] == l[3]); }
        else { assert(paragraph_refs(text)[j] == l[4]); }
    }
}

proof fn lemma_paragraph_noop(rs: Seq<RefView>, text: Seq<char>, para: u128)
    requires
        registry_wf(rs),
        paragraph_cited(rs, text, para),
    ensures
        after_paragraph(rs, text, para) == rs,
{
    let l = paragraph_refs(text);
    assert(all_cited(rs, l[0], para));
    assert(all_cited(rs, l[1], para));
    assert(all_cited(rs, l[2], para));
    assert(all_cited(rs, l[3], para));
    assert(all_cited(rs, l[4], para));
    lemma_cite_all_noop(rs, l[0], para);
    lemma_cite_all_noop(rs, l[1], para);
    lemma_cite_all_noop(rs, l[2], para);
    lemma_cite_all_noop(rs, l[3], para);
    lemma_cite_all_noop(rs, l[4], para);
}

proof fn lemma_paragraphs_cite(rs: Seq<RefView>, paras: Seq<(u128, Seq<char>)>)
    requires
        registry_wf(rs),
    ensures
        forall|i: int| 0 <= i < paras.len() ==>
            paragraph_cited(after_paragraphs(rs, paras), (#[trigger] paras[i]).1, paras[i].0),
    decreases paras.len(),
{
    if paras.len() > 0 {
        let front = paras.drop_last();
        lemma_paragraphs_cite(rs, front);
        lemma_paragraphs_wf(rs, front);
        let mid = after_paragraphs(rs, front);
        lemma_paragraph_cites(mid, paras.last().1, paras.last().0);
        assert forall|i: int| 0 <= i < paras.len() implies
            paragraph_cited(after_paragraphs(rs, paras), (#[trigger] paras[i]).1, paras[i].0) by {
            if i < front.len() {
                assert(front[i] == paras[i]);
                lemma_paragraph_kept(mid, paras.last().1, paras.last().0, paras[i].1, paras[i].0);
            }
        }
    }
}

proof fn lemma_paragraphs_noop(rs: Seq<RefView>, paras: Seq<(u128, Seq<char>)>)
    requires
        registry_wf(rs),
        forall|i: int| 0 <= i < paras.len() ==> paragraph_cited(rs, (#[trigger] paras[i]).1, paras[i].0),
    ensures
        after_paragraphs(rs, paras) == rs,
    decreases paras.len(),
{
    if paras.len() > 0 {
        let front = paras.drop_last();
        assert forall|i: int| 0 <= i < front.len() implies paragraph_cited(rs, (#[trigger] front[i]).1, front[i].0) by {
            assert(front[i] == paras[i]);
        }
        lemma_paragraphs_noop(rs, front);
        assert(paragraph_cited(rs, paras[paras.len() - 1].1, paras[paras.len() - 1].0));
        lemma_paragraph_noop(rs, paras.last().1, paras.last().0);
    }
}

/// Extracting references is idempotent: scanning the same paragraphs again adds no
/// reference and no citation to the registry they produced.
pub proof fn law_extraction_idempotent(rs: Seq<RefView>, paras: Seq<(u128, Seq<char>)>)
    requires
        registry_wf(rs),
    ensures
        after_paragraphs(after_paragraphs(rs, paras), paras) == after_paragraphs(rs, paras),
{
    lemma_paragraphs_wf(rs, paras);
    lemma_paragraphs_cite(rs, paras);
    lemma_paragraphs_noop(after_paragraphs(rs, paras), paras);
}

/// The references cited by the paragraphs (id and text), deduplicated by key, each with
/// the paragraphs that cite it.
pub fn extract_references(paragraphs: &[(u128, String)]) -> (refs: Vec<ExtractedRef>)
    ensures
        refs_view(refs@) == after_paragraphs(Seq::empty(),
            paragraphs@.map_values(|p: (u128, String)| (p.0, p.1@))),
        registry_wf(refs_view(refs@)),
{
    let ghost ps = paragraphs@.map_values(|p: (u128, String)| (p.0, p.1@));
    let mut refs: Vec<ExtractedRef> = Vec::new();
    let mut i: usize = 0;
    assert(refs_view(refs@) =~= Seq::<RefView>::empty());
    while i < paragraphs.len()
        invariant
            i <= paragraphs@.len(),
            ps == paragraphs@.map_values(|p: (u128, String)| (p.0, p.1@)),
            refs_view(refs@) == after_paragraphs(Seq::empty(), ps.take(i as int)),
        decreases paragraphs@.len() - i,
    {
        assert(ps.take(i + 1).drop_last() =~= ps.take(i as int));
        assert(ps.take(i + 1).last() == ps[i as int]);
        scan_paragraph(&mut refs, paragraphs[i].1.as_str(), paragraphs[i].0);
        i = i + 1;
    }
    assert(ps.take(paragraphs@.len() as int) =~= ps);
    proof {
        lemma_paragraphs_wf(Seq::empty(), ps);
    }
    refs
}

} // verus!
