//! Comments of a parsed source file: which comment blocks become nodes, where each
//! one sits relative to the code (above, trailing, between, end of file), which AST
//! node it documents, and which rule suggestions are emitted or dismissed.

use vstd::prelude::*;
use crate::text::{chars_of, push_char, str_is};
use crate::ingest::views;

verus! {

/// A block of consecutive comment lines as the extractor found it.
#[derive(Clone, Debug)]
pub struct CommentBlock {
    pub lines: Vec<String>,
    pub start_line: usize,
    pub end_line: usize,
    pub col: usize,
    pub is_doc: bool,
    pub is_block_style: bool,
}

/// Where a comment sits relative to the code it belongs to.
#[derive(Clone, Copy, Debug, PartialEq, Eq, Structural)]
pub enum CommentPlacement {
    Above,
    Trailing,
    Between,
    Eof,
}

/// The node kind of a comment: a single comment, or a run of several line comments.
#[derive(Clone, Copy, Debug, PartialEq, Eq, Structural)]
pub enum CommentKind {
    Comment,
    CommentBlock,
}

/// An AST node as comment matching sees it: its id, its first line (if known) and
/// whether it is itself a comment.
#[derive(Clone, Copy, Debug, PartialEq, Eq, Structural)]
pub struct AstNode {
    pub id: u128,
    pub span_start: Option<i32>,
    pub is_comment: bool,
}

/// The node a comment block becomes.
#[derive(Clone, Debug)]
pub struct CommentNode {
    pub kind: CommentKind,
    pub block_style: bool,
    pub placement: CommentPlacement,
    pub content: String,
    pub start_line: usize,
    pub end_line: usize,
    pub col: usize,
    pub line_count: usize,
    /// The node the comment documents, if any.
    pub target: Option<u128>,
}

/// A node takes part in matching when its first line is known and it is not a comment.
pub open spec fn matchable(n: AstNode) -> bool {
    n.span_start is Some && !n.is_comment
}

pub open spec fn line_of(n: AstNode) -> int {
    n.span_start->0 as int
}

/// `j` is the first node, in the order of the nodes stably sorted by line, whose line
/// satisfies `p`: no matchable node satisfying `p` has a smaller line, and none before
/// `j` has the same line.
pub open spec fn first_by_line(nodes: Seq<AstNode>, j: int, p: spec_fn(int) -> bool) -> bool {
    &&& 0 <= j < nodes.len()
    &&& matchable(nodes[j])
    &&& p(line_of(nodes[j]))
    &&& forall|k: int| 0 <= k < nodes.len() && matchable(#[trigger] nodes[k]) && p(line_of(nodes[k]))
        ==> line_of(nodes[j]) <= line_of(nodes[k])
    &&& forall|k: int| 0 <= k < j && matchable(#[trigger] nodes[k]) ==> line_of(nodes[k]) != line_of(nodes[j])
        || !p(line_of(nodes[k]))
}

/// Whether some matchable node's line satisfies `p`.
pub open spec fn any_line(nodes: Seq<AstNode>, p: spec_fn(int) -> bool) -> bool {
    exists|k: int| 0 <= k < nodes.len() && matchable(#[trigger] nodes[k]) && p(line_of(nodes[k]))
}

pub open spec fn at_line(x: int) -> spec_fn(int) -> bool {
    |l: int| l == x
}

pub open spec fn after_line(x: int) -> spec_fn(int) -> bool {
    |l: int| l > x
}

pub open spec fn before_line(x: int) -> spec_fn(int) -> bool {
    |l: int| l < x
}

/// The placement of a comment spanning lines `start..=end` and the node it documents,
/// described by the nodes it can refer to:
/// - a single-line comment on the line where a node starts trails that node;
/// - otherwise it documents the first node after it: directly above when that node
///   starts on the next line, between when there is a gap and some node starts before
///   the comment, above otherwise;
/// - with no node after it, it is an end-of-file comment documenting nothing.
pub open spec fn placement_ok(nodes: Seq<AstNode>, start: int, end: int, r: (CommentPlacement, Option<u128>)) -> bool {
    let on_line = at_line(start);
    let after = after_line(end);
    let before = before_line(start);
    if start == end && any_line(nodes, on_line) {
        r.0 == CommentPlacement::Trailing && exists|j: int| first_by_line(nodes, j, on_line) && r.1 == Some(nodes[j].id)
    } else if any_line(nodes, after) {
        exists|j: int| first_by_line(nodes, j, after) && r.1 == Some(nodes[j].id) && r.0 == (
            if line_of(nodes[j]) == end + 1 {
                CommentPlacement::Above
            } else if any_line(nodes, before) {
                CommentPlacement::Between
            } else {
                CommentPlacement::Above
            })
    } else {
        r == (CommentPlacement::Eof, None::<u128>)
    }
}

/// Where a comment goes, in terms of the nodes: a single-line comment on a line where a
/// node starts trails it; otherwise the comment documents the nearest node that starts
/// after it, directly above it when that node starts on the next line, between nodes
/// when there is a gap and some node starts before the comment, and above otherwise;
/// with no node after it, it is an end-of-file comment that documents nothing.
pub proof fn law_comment_placement(nodes: Seq<AstNode>, start: int, end: int, r: (CommentPlacement, Option<u128>))
    requires
        start <= end,
        placement_ok(nodes, start, end, r),
    ensures
        r.0 == CommentPlacement::Eof <==> r.1 is None,
        r.0 == CommentPlacement::Trailing <==> (start == end
            && exists|k: int| 0 <= k < nodes.len() && matchable(#[trigger] nodes[k]) && line_of(nodes[k]) == start),
        r.0 == CommentPlacement::Eof ==> forall|k: int| 0 <= k < nodes.len() && matchable(#[trigger] nodes[k])
            ==> line_of(nodes[k]) <= end,
        r.0 == CommentPlacement::Trailing ==> exists|j: int| 0 <= j < nodes.len() && matchable(#[trigger] nodes[j])
            && r.1 == Some(nodes[j].id) && line_of(nodes[j]) == start,
        (r.0 == CommentPlacement::Above || r.0 == CommentPlacement::Between) ==>
            exists|j: int| 0 <= j < nodes.len() && matchable(#[trigger] nodes[j]) && r.1 == Some(nodes[j].id)
                && line_of(nodes[j]) > end
                && (forall|k: int| 0 <= k < nodes.len() && matchable(#[trigger] nodes[k]) && line_of(nodes[k]) > end
                    ==> line_of(nodes[j]) <= line_of(nodes[k]))
                && (r.0 == CommentPlacement::Between <==> (line_of(nodes[j]) != end + 1
                    && exists|b: int| 0 <= b < nodes.len() && matchable(#[trigger] nodes[b]) && line_of(nodes[b]) < start)),
{
    let on_line = at_line(start);
    let after = after_line(end);
    let before = before_line(start);
    if start == end && any_line(nodes, on_line) {
        let j = choose|j: int| first_by_line(nodes, j, on_line) && r.1 == Some(nodes[j].id);
        assert(on_line(line_of(nodes[j])));
        let k = choose|k: int| 0 <= k < nodes.len() && matchable(#[trigger] nodes[k]) && on_line(line_of(nodes[k]));
        assert(line_of(nodes[k]) == start);
    } else {
        if start == end && exists|k: int| 0 <= k < nodes.len() && matchable(#[trigger] nodes[k]) && line_of(nodes[k]) == start {
            let k = choose|k: int| 0 <= k < nodes.len() && matchable(#[trigger] nodes[k]) && line_of(nodes[k]) == start;
            assert(on_line(line_of(nodes[k])));
            assert(false);
        }
        if any_line(nodes, after) {
            let j = choose|j: int| first_by_line(nodes, j, after) && r.1 == Some(nodes[j].id) && r.0 == (
                if line_of(nodes[j]) == end + 1 {
                    CommentPlacement::Above
                } else if any_line(nodes, before) {
                    CommentPlacement::Between
                } else {
                    CommentPlacement::Above
                });
            assert(after(line_of(nodes[j])));
            assert forall|k: int| 0 <= k < nodes.len() && matchable(#[trigger] nodes[k]) && line_of(nodes[k]) > end
                implies line_of(nodes[j]) <= line_of(nodes[k]) by {
                assert(after(line_of(nodes[k])));
            }
            if any_line(nodes, before) {
                let b = choose|b: int| 0 <= b < nodes.len() && matchable(#[trigger] nodes[b]) && before(line_of(nodes[b]));
                assert(line_of(nodes[b]) < start);
            }
            if exists|b: int| 0 <= b < nodes.len() && matchable(#[trigger] nodes[b]) && line_of(nodes[b]) < start {
                let b = choose|b: int| 0 <= b < nodes.len() && matchable(#[trigger] nodes[b]) && line_of(nodes[b]) < start;
                assert(before(line_of(nodes[b])));
            }
        } else {
            assert forall|k: int| 0 <= k < nodes.len() && matchable(#[trigger] nodes[k]) implies line_of(nodes[k]) <= end by {
                if line_of(nodes[k]) > end {
                    assert(after(line_of(nodes[k])));
                }
            }
        }
    }
}

/// The first node, by line, whose line satisfies `p`; `None` when there is none.
fn find_first_by_line(nodes: &[AstNode], Ghost(p): Ghost<spec_fn(int) -> bool>, lo: i64, hi: i64) -> (r: Option<usize>)
    requires
        forall|l: int| i32::MIN <= l <= i32::MAX ==> (#[trigger] p(l) <==> lo <= l <= hi),
    ensures
        r matches Some(j) ==> first_by_line(nodes@, j as int, p),
        r is None ==> !any_line(nodes@, p),
{
    let mut best: Option<usize> = None;
    let mut i: usize = 0;
    while i < nodes.len()
        invariant
            i <= nodes@.len(),
            forall|l: int| i32::MIN <= l <= i32::MAX ==> (#[trigger] p(l) <==> lo <= l <= hi),
            best matches Some(j) ==> {
                &&& j < i
                &&& matchable(nodes@[j as int])
                &&& p(line_of(nodes@[j as int]))
                &&& forall|k: int| 0 <= k < i && matchable(#[trigger] nodes@[k]) && p(line_of(nodes@[k]))
                    ==> line_of(nodes@[j as int]) <= line_of(nodes@[k])
                &&& forall|k: int| 0 <= k < j && matchable(#[trigger] nodes@[k]) ==> line_of(nodes@[k]) != line_of(nodes@[j as int])
                    || !p(line_of(nodes@[k]))
            },
            best is None ==> forall|k: int| 0 <= k < i && matchable(#[trigger] nodes@[k]) ==> !p(line_of(nodes@[k])),
        decreases nodes@.len() - i,
    {
        let n = nodes[i];
        if !n.is_comment {
            if let Some(line) = n.span_start {
                let l = line as i64;
                if lo <= l && l <= hi {
                    let better = match best {
                        None => true,
                        Some(j) => match nodes[j].span_start {
                            Some(bl) => line < bl,
                            None => false,
                        },
                    };
                    if better {
                        best = Some(i);
                    }
                }
            }
        }
        i = i + 1;
    }
    best
}

/// Match each comment block to the AST node it documents and classify its placement.
pub fn match_comments_to_ast(blocks: &[CommentBlock], nodes: &[AstNode]) -> (out: Vec<(CommentPlacement, Option<u128>)>)
    requires
        forall|i: int| 0 <= i < blocks@.len() ==> (#[trigger] blocks@[i]).start_line <= i32::MAX
            && blocks@[i].end_line < i32::MAX,
    ensures
        out@.len() == blocks@.len(),
        forall|i: int| 0 <= i < blocks@.len() ==> placement_ok(nodes@,
            (#[trigger] blocks@[i]).start_line as int, blocks@[i].end_line as int, out@[i]),
{
    let mut out: Vec<(CommentPlacement, Option<u128>)> = Vec::new();
    let mut b: usize = 0;
    while b < blocks.len()
        invariant
            b <= blocks@.len(),
            out@.len() == b,
            forall|i: int| 0 <= i < blocks@.len() ==> (#[trigger] blocks@[i]).start_line <= i32::MAX
                && blocks@[i].end_line < i32::MAX,
            forall|i: int| 0 <= i < b ==> placement_ok(nodes@,
                (#[trigger] blocks@[i]).start_line as int, blocks@[i].end_line as int, out@[i]),
        decreases blocks@.len() - b,
    {
        let start = blocks[b].start_line as i64;
        let end = blocks[b].end_line as i64;
        let ghost st: int = blocks@[b as int].start_line as int;
        let ghost en: int = blocks@[b as int].end_line as int;
        let ghost on_line = at_line(st);
        let ghost after = after_line(en);
        let ghost before = before_line(st);
        let trailing = if start == end {
            find_first_by_line(nodes, Ghost(on_line), start, start)
        } else {
            None
        };
        let r: (CommentPlacement, Option<u128>) = match trailing {
            Some(j) => {
                let r = (CommentPlacement::Trailing, Some(nodes[j].id));
                assert(first_by_line(nodes@, j as int, on_line) && r.1 == Some(nodes@[j as int].id));
                assert(any_line(nodes@, on_line));
                assert(st == en);
                assert(placement_ok(nodes@, st, en, r));
                r
            },
            None => {
                assert(!(st == en && any_line(nodes@, on_line)));
                match find_first_by_line(nodes, Ghost(after), end + 1, i64::MAX) {
                    Some(j) => {
                        assert(any_line(nodes@, after));
                        let next_line = match nodes[j].span_start {
                            Some(l) => l as i64,
                            None => 0,
                        };
                        let has_before = match find_first_by_line(nodes, Ghost(before), i64::MIN, start - 1) {
                            Some(k) => {
                                assert(any_line(nodes@, before));
                                true
                            },
                            None => false,
                        };
                        let placement = if next_line == end + 1 {
                            CommentPlacement::Above
                        } else if has_before {
                            CommentPlacement::Between
                        } else {
                            CommentPlacement::Above
                        };
                        let r = (placement, Some(nodes[j].id));
                        assert(placement_ok(nodes@, st, en, r));
                        r
                    },
                    None => {
                        let r = (CommentPlacement::Eof, None);
                        assert(placement_ok(nodes@, st, en, r));
                        r
                    },
                }
            },
        };
        out.push(r);
        proof {
            assert forall|i: int| 0 <= i < b + 1 implies placement_ok(nodes@,
                (#[trigger] blocks@[i]).start_line as int, blocks@[i].end_line as int, out@[i]) by {
                if i < b {
                    assert(out@[i] == out@.drop_last()[i]);
                }
            }
        }
        b = b + 1;
    }
    out
}

/// Whether `s` begins with `prefix`.
pub open spec fn has_prefix(s: Seq<char>, prefix: Seq<char>) -> bool {
    s.len() >= prefix.len() && s.subrange(0, prefix.len() as int) == prefix
}

/// Whether a string begins with a prefix.
pub fn starts_with(s: &str, prefix: &str) -> (b: bool)
    ensures
        b == has_prefix(s@, prefix@),
{
    let a = chars_of(s);
    let p = chars_of(prefix);
    if a.len() < p.len() {
        return false;
    }
    let mut i: usize = 0;
    while i < p.len()
        invariant
            a@ == s@,
            p@ == prefix@,
            p@.len() <= a@.len(),
            i <= p@.len(),
            forall|k: int| 0 <= k < i ==> a@[k] == p@[k],
        decreases p@.len() - i,
    {
        if a[i] != p[i] {
            assert(s@.subrange(0, prefix@.len() as int)[i as int] != prefix@[i as int]);
            return false;
        }
        i = i + 1;
    }
    assert(s@.subrange(0, prefix@.len() as int) =~= prefix@);
    true
}

/// A comment block stays when it is not a doc comment (those come with the items they
/// document) and its first line is not a `kerai:` directive.
pub open spec fn keeps_block(lines: Seq<Seq<char>>, is_doc: bool) -> bool {
    let first = if lines.len() > 0 { lines[0] } else { Seq::<char>::empty() };
    &&& !is_doc
    &&& !has_prefix(first, seq![' ', 'k', 'e', 'r', 'a', 'i', ':'])
    &&& !has_prefix(first, seq!['k', 'e', 'r', 'a', 'i', ':'])
}

/// Doc comments never become comment nodes, nor do `kerai:` directives (a first line
/// that begins `kerai:` or ` kerai:`); every other block does.
pub proof fn law_kept_blocks_rule(lines: Seq<Seq<char>>, is_doc: bool)
    ensures
        is_doc ==> !keeps_block(lines, is_doc),
        ({
            let first = if lines.len() > 0 { lines[0] } else { Seq::<char>::empty() };
            &&& (first.len() >= 6 && first.take(6) == "kerai:"@) ==> !keeps_block(lines, is_doc)
            &&& (first.len() >= 7 && first.take(7) == " kerai:"@) ==> !keeps_block(lines, is_doc)
            &&& (!is_doc && !(first.len() >= 6 && first.take(6) == "kerai:"@)
                && !(first.len() >= 7 && first.take(7) == " kerai:"@)) ==> keeps_block(lines, is_doc)
        }),
{
    reveal_strlit("kerai:");
    reveal_strlit(" kerai:");
    let first = if lines.len() > 0 { lines[0] } else { Seq::<char>::empty() };
    assert(first.take(6) =~= first.subrange(0, 6) || first.len() < 6);
    assert(first.take(7) =~= first.subrange(0, 7) || first.len() < 7);
    assert("kerai:"@ =~= seq!['k', 'e', 'r', 'a', 'i', ':']);
    assert(" kerai:"@ =~= seq![' ', 'k', 'e', 'r', 'a', 'i', ':']);
}

/// Whether a comment block becomes a node.
pub fn keep_comment_block(block: &CommentBlock) -> (b: bool)
    ensures
        b == keeps_block(views(block.lines@), block.is_doc),
{
    if block.is_doc {
        return false;
    }
    proof {
        reveal_strlit("");
        reveal_strlit(" kerai:");
        reveal_strlit("kerai:");
    }
    let first: &str = if block.lines.len() > 0 { block.lines[0].as_str() } else { "" };
    let ghost lines = views(block.lines@);
    let ghost first_view = if lines.len() > 0 { lines[0] } else { Seq::<char>::empty() };
    assert(first@ == first_view);
    let spaced = starts_with(first, " kerai:");
    let bare = starts_with(first, "kerai:");
    assert(" kerai:"@ == seq![' ', 'k', 'e', 'r', 'a', 'i', ':']);
    assert("kerai:"@ == seq!['k', 'e', 'r', 'a', 'i', ':']);
    !spaced && !bare
}

/// Lines joined with newlines.
pub open spec fn join_lines(lines: Seq<Seq<char>>) -> Seq<char>
    decreases lines.len(),
{
    if lines.len() == 0 {
        Seq::empty()
    } else if lines.len() == 1 {
        lines[0]
    } else {
        join_lines(lines.drop_last()) + seq!['\n'] + lines.last()
    }
}

/// How many newlines a text holds.
pub open spec fn newline_count(s: Seq<char>) -> nat
    decreases s.len(),
{
    if s.len() == 0 { 0 } else { newline_count(s.drop_last()) + (if s.last() == '\n' { 1nat } else { 0nat }) }
}

proof fn lemma_newline_concat(a: Seq<char>, b: Seq<char>)
    ensures
        newline_count(a + b) == newline_count(a) + newline_count(b),
    decreases b.len(),
{
    if b.len() == 0 {
        assert(a + b =~= a);
    } else {
        lemma_newline_concat(a, b.drop_last());
        assert((a + b).drop_last() =~= a + b.drop_last());
    }
}

/// A comment's content is its lines joined by newlines: one newline between each two
/// lines (for lines without newlines of their own), the lines in order.
pub proof fn law_join_lines(lines: Seq<Seq<char>>, extra: Seq<char>)
    requires
        forall|i: int| 0 <= i < lines.len() ==> newline_count(#[trigger] lines[i]) == 0,
    ensures
        lines.len() > 0 ==> newline_count(join_lines(lines)) == lines.len() - 1,
        lines.len() > 0 ==> join_lines(lines.push(extra)) == join_lines(lines) + seq!['\n'] + extra,
        lines.len() == 1 ==> join_lines(lines) == lines[0],
    decreases lines.len(),
{
    assert(lines.push(extra).drop_last() =~= lines);
    if lines.len() > 1 {
        let front = lines.drop_last();
        assert forall|i: int| 0 <= i < front.len() implies newline_count(#[trigger] front[i]) == 0 by {
            assert(front[i] == lines[i]);
        }
        law_join_lines(front, lines.last());
        lemma_newline_concat(join_lines(front), seq!['\n']);
        lemma_newline_concat(join_lines(front) + seq!['\n'], lines.last());
        let nl: Seq<char> = seq!['\n'];
        assert(nl.len() == 1 && nl.last() == '\n');
        assert(nl.drop_last() =~= Seq::<char>::empty());
        assert(newline_count(nl.drop_last()) == 0);
        assert(newline_count(nl) == 1);
        assert(newline_count(lines[lines.len() - 1]) == 0);
    }
}

/// Append a string's characters.
fn push_all(out: &mut String, s: &str)
    ensures
        final(out)@ == old(out)@ + s@,
{
    let cs = chars_of(s);
    let mut i: usize = 0;
    while i < cs.len()
        invariant
            i <= cs@.len(),
            cs@ == s@,
            out@ == old(out)@ + cs@.take(i as int),
        decreases cs@.len() - i,
    {
        assert(cs@.take(i + 1) == cs@.take(i as int).push(cs@[i as int]));
        push_char(out, cs[i]);
        i = i + 1;
    }
    assert(cs@.take(cs@.len() as int) == cs@);
}

/// The lines of a block joined with newlines.
pub fn join_comment_lines(lines: &[String]) -> (out: String)
    ensures
        out@ == join_lines(views(lines@)),
{
    let mut out = String::new();
    let mut i: usize = 0;
    while i < lines.len()
        invariant
            i <= lines@.len(),
            out@ == join_lines(views(lines@.take(i as int))),
        decreases lines@.len() - i,
    {
        let ghost before = lines@.take(i as int);
        assert(views(lines@.take(i + 1)).drop_last() =~= views(before));
        if i > 0 {
            push_char(&mut out, '\n');
        }
        push_all(&mut out, lines[i].as_str());
        assert(views(lines@.take(i + 1)).last() == lines@[i as int]@);
        i = i + 1;
    }
    assert(lines@.take(lines@.len() as int) =~= lines@);
    out
}

/// The kind of node a comment block becomes: a run of several line comments is a
/// comment block, anything else a single comment.
pub open spec fn comment_kind(is_block_style: bool, line_count: int) -> CommentKind {
    if !is_block_style && line_count > 1 { CommentKind::CommentBlock } else { CommentKind::Comment }
}

/// The positions of the blocks that stay, in order.
pub open spec fn kept_blocks(blocks: Seq<CommentBlock>) -> Seq<int>
    decreases blocks.len(),
{
    if blocks.len() == 0 {
        Seq::empty()
    } else {
        let rest = kept_blocks(blocks.drop_last());
        if keeps_block(views(blocks.last().lines@), blocks.last().is_doc) {
            rest.push(blocks.len() - 1)
        } else {
            rest
        }
    }
}

proof fn lemma_kept_blocks_bound(blocks: Seq<CommentBlock>)
    ensures
        forall|a: int| 0 <= a < kept_blocks(blocks).len() ==> 0 <= #[trigger] kept_blocks(blocks)[a] < blocks.len(),
    decreases blocks.len(),
{
    if blocks.len() > 0 {
        let rest = kept_blocks(blocks.drop_last());
        lemma_kept_blocks_bound(blocks.drop_last());
        assert forall|a: int| 0 <= a < kept_blocks(blocks).len() implies 0 <= #[trigger] kept_blocks(blocks)[a] < blocks.len() by {
            if a < rest.len() {
                assert(kept_blocks(blocks)[a] == rest[a]);
            }
        }
    }
}

/// The node a kept block becomes, described field by field.
pub open spec fn comment_node_of(n: CommentNode, blk: CommentBlock, nodes: Seq<AstNode>) -> bool {
    &&& n.kind == comment_kind(blk.is_block_style, blk.lines@.len() as int)
    &&& n.block_style == blk.is_block_style
    &&& n.content@ == join_lines(views(blk.lines@))
    &&& n.start_line == blk.start_line
    &&& n.end_line == blk.end_line
    &&& n.col == blk.col
    &&& n.line_count == blk.lines@.len()
    &&& placement_ok(nodes, blk.start_line as int, blk.end_line as int, (n.placement, n.target))
}

/// A comment node is a comment block exactly when it stands for a run of more than one
/// line comment; a single line comment, and any block-style comment, is a comment.
pub proof fn law_comment_block_kind(n: CommentNode, blk: CommentBlock, nodes: Seq<AstNode>)
    requires
        comment_node_of(n, blk, nodes),
    ensures
        n.kind == CommentKind::CommentBlock <==> (!n.block_style && n.line_count > 1),
        n.kind == CommentKind::Comment <==> (n.block_style || n.line_count <= 1),
{
}

/// The comment nodes of a file: one for each block that stays, in order, with its kind,
/// content, placement and the node it documents.
pub fn file_comment_nodes(blocks: &[CommentBlock], nodes: &[AstNode]) -> (out: Vec<CommentNode>)
    requires
        forall|i: int| 0 <= i < blocks@.len() ==> (#[trigger] blocks@[i]).start_line <= i32::MAX
            && blocks@[i].end_line < i32::MAX,
    ensures
        out@.len() == kept_blocks(blocks@).len(),
        forall|a: int| 0 <= a < out@.len() ==>
            comment_node_of(#[trigger] out@[a], blocks@[kept_blocks(blocks@)[a]], nodes@),
        forall|a: int| 0 <= a < out@.len() ==>
            ((#[trigger] out@[a]).kind == CommentKind::CommentBlock <==> (!out@[a].block_style && out@[a].line_count > 1)),
{
    let matches = match_comments_to_ast(blocks, nodes);
    let mut out: Vec<CommentNode> = Vec::new();
    let mut i: usize = 0;
    while i < blocks.len()
        invariant
            i <= blocks@.len(),
            matches@.len() == blocks@.len(),
            forall|k: int| 0 <= k < blocks@.len() ==> placement_ok(nodes@,
                (#[trigger] blocks@[k]).start_line as int, blocks@[k].end_line as int, matches@[k]),
            out@.len() == kept_blocks(blocks@.take(i as int)).len(),
            forall|a: int| 0 <= a < out@.len() ==>
                comment_node_of(#[trigger] out@[a], blocks@[kept_blocks(blocks@.take(i as int))[a]], nodes@),
        decreases blocks@.len() - i,
    {
        let ghost prev = kept_blocks(blocks@.take(i as int));
        assert(blocks@.take(i + 1).drop_last() =~= blocks@.take(i as int));
        assert(blocks@.take(i + 1).last() == blocks@[i as int]);
        proof {
            lemma_kept_blocks_bound(blocks@.take(i as int));
        }
        let blk = &blocks[i];
        if keep_comment_block(blk) {
            let kind = if !blk.is_block_style && blk.lines.len() > 1 {
                CommentKind::CommentBlock
            } else {
                CommentKind::Comment
            };
            let (placement, target) = matches[i];
            let node = CommentNode {
                kind,
                block_style: blk.is_block_style,
                placement,
                content: join_comment_lines(blk.lines.as_slice()),
                start_line: blk.start_line,
                end_line: blk.end_line,
                col: blk.col,
                line_count: blk.lines.len(),
                target,
            };
            out.push(node);
            assert(kept_blocks(blocks@.take(i + 1)) == prev.push(i as int));
            assert forall|a: int| 0 <= a < out@.len() implies
                comment_node_of(#[trigger] out@[a], blocks@[kept_blocks(blocks@.take(i + 1))[a]], nodes@) by {
                if a < prev.len() {
                    assert(out@[a] == old_out_at(out@, a));
                }
            }
        } else {
            assert(kept_blocks(blocks@.take(i + 1)) == prev);
        }
        i = i + 1;
    }
    assert(blocks@.take(blocks@.len() as int) =~= blocks@);
    out
}

spec fn old_out_at(s: Seq<CommentNode>, a: int) -> CommentNode {
    s[a]
}

/// A rule finding on a node of the file.
#[derive(Clone, Debug)]
pub struct Finding {
    pub rule_id: String,
    pub target: u128,
}

/// A dismissed suggestion: the rule and the node it targeted.
#[derive(Clone, Debug)]
pub struct Dismissal {
    pub rule_id: String,
    pub target: u128,
}

/// A finding becomes a suggestion unless it was dismissed for the same node, or the
/// suggestion comment for its rule is still in the source awaiting review.
pub open spec fn emits(f: Finding, dismissed: Seq<Dismissal>, pending_rules: Seq<Seq<char>>) -> bool {
    &&& !exists|k: int| 0 <= k < dismissed.len() && (#[trigger] dismissed[k]).rule_id@ == f.rule_id@
        && dismissed[k].target == f.target
    &&& !pending_rules.contains(f.rule_id@)
}

fn is_dismissed(f: &Finding, dismissed: &[Dismissal]) -> (b: bool)
    ensures
        b == exists|k: int| 0 <= k < dismissed@.len() && (#[trigger] dismissed@[k]).rule_id@ == f.rule_id@
            && dismissed@[k].target == f.target,
{
    let mut i: usize = 0;
    while i < dismissed.len()
        invariant
            i <= dismissed@.len(),
            forall|k: int| 0 <= k < i ==> !((#[trigger] dismissed@[k]).rule_id@ == f.rule_id@
                && dismissed@[k].target == f.target),
        decreases dismissed@.len() - i,
    {
        if dismissed[i].target == f.target && str_is(dismissed[i].rule_id.as_str(), f.rule_id.as_str()) {
            return true;
        }
        i = i + 1;
    }
    false
}

/// Whether a string is among a list of strings.
pub fn contains_str(list: &[String], s: &str) -> (b: bool)
    ensures
        b == views(list@).contains(s@),
{
    let mut i: usize = 0;
    while i < list.len()
        invariant
            i <= list@.len(),
            forall|k: int| 0 <= k < i ==> (#[trigger] list@[k])@ != s@,
        decreases list@.len() - i,
    {
        if str_is(list[i].as_str(), s) {
            assert(views(list@)[i as int] == s@);
            return true;
        }
        i = i + 1;
    }
    proof {
        if views(list@).contains(s@) {
            let k = choose|k: int| 0 <= k < views(list@).len() && views(list@)[k] == s@;
            assert(list@[k]@ == s@);
        }
    }
    false
}

/// The positions of the findings that become suggestions, in order.
pub open spec fn emitted_findings(findings: Seq<Finding>, dismissed: Seq<Dismissal>, pending_rules: Seq<Seq<char>>) -> Seq<usize>
    decreases findings.len(),
{
    if findings.len() == 0 {
        Seq::empty()
    } else {
        let rest = emitted_findings(findings.drop_last(), dismissed, pending_rules);
        if emits(findings.last(), dismissed, pending_rules) {
            rest.push((findings.len() - 1) as usize)
        } else {
            rest
        }
    }
}

/// A finding becomes a suggestion exactly when it was not dismissed before for the same
/// rule and node and no suggestion comment for its rule still awaits review; the
/// suggestions keep the order of the findings.
pub proof fn law_findings_emitted(findings: Seq<Finding>, dismissed: Seq<Dismissal>, pending_rules: Seq<Seq<char>>, p: int)
    requires
        findings.len() <= usize::MAX,
    ensures
        emitted_findings(findings, dismissed, pending_rules).contains(p as usize) && 0 <= p <= usize::MAX
            <==> (0 <= p < findings.len()
                && !(exists|k: int| 0 <= k < dismissed.len() && (#[trigger] dismissed[k]).rule_id@ == findings[p].rule_id@
                    && dismissed[k].target == findings[p].target)
                && !pending_rules.contains(findings[p].rule_id@)),
        forall|a: int, b: int| 0 <= a < b < emitted_findings(findings, dismissed, pending_rules).len() ==>
            emitted_findings(findings, dismissed, pending_rules)[a] < emitted_findings(findings, dismissed, pending_rules)[b],
    decreases findings.len(),
{
    lemma_emitted_range(findings, dismissed, pending_rules);
    if findings.len() > 0 {
        let front = findings.drop_last();
        law_findings_emitted(front, dismissed, pending_rules, p);
        let rest = emitted_findings(front, dismissed, pending_rules);
        let all = emitted_findings(findings, dismissed, pending_rules);
        lemma_emitted_range(front, dismissed, pending_rules);
        if 0 <= p < front.len() {
            assert(front[p] == findings[p]);
        }
        if all.contains(p as usize) && 0 <= p <= usize::MAX {
            let i = choose|i: int| 0 <= i < all.len() && all[i] == p as usize;
            if i < rest.len() {
                assert(rest[i] == all[i]);
            }
        }
        if 0 <= p < front.len() && rest.contains(p as usize) {
            let i = choose|i: int| 0 <= i < rest.len() && rest[i] == p as usize;
            assert(all[i] == rest[i]);
        }
        if p == findings.len() - 1 && emits(findings.last(), dismissed, pending_rules) {
            assert(all[all.len() - 1] == p as usize);
        }
    }
}

proof fn lemma_emitted_range(findings: Seq<Finding>, dismissed: Seq<Dismissal>, pending_rules: Seq<Seq<char>>)
    requires
        findings.len() <= usize::MAX,
    ensures
        forall|i: int| 0 <= i < emitted_findings(findings, dismissed, pending_rules).len()
            ==> (#[trigger] emitted_findings(findings, dismissed, pending_rules)[i]) < findings.len(),
        forall|a: int, b: int| 0 <= a < b < emitted_findings(findings, dismissed, pending_rules).len() ==>
            emitted_findings(findings, dismissed, pending_rules)[a] < emitted_findings(findings, dismissed, pending_rules)[b],
    decreases findings.len(),
{
    if findings.len() > 0 {
        let front = findings.drop_last();
        lemma_emitted_range(front, dismissed, pending_rules);
        let rest = emitted_findings(front, dismissed, pending_rules);
        let all = emitted_findings(findings, dismissed, pending_rules);
        assert forall|i: int| 0 <= i < all.len() implies (#[trigger] all[i]) < findings.len() by {
            if i < rest.len() {
                assert(all[i] == rest[i]);
            }
        }
        assert forall|a: int, b: int| 0 <= a < b < all.len() implies all[a] < all[b] by {
            assert(all[a] == rest[a]);
            if b < rest.len() {
                assert(all[b] == rest[b]);
            } else {
                assert(rest[a] < front.len());
            }
        }
    }
}

/// The findings that become new suggestions, by position; none when the file's flags
/// skip suggestions.
pub fn findings_to_emit(
    findings: &[Finding],
    dismissed: &[Dismissal],
    pending_rules: &[String],
    skip_suggestions: bool,
) -> (out: Vec<usize>)
    ensures
        out@ == (if skip_suggestions {
            Seq::<usize>::empty()
        } else {
            emitted_findings(findings@, dismissed@, views(pending_rules@))
        }),
{
    let mut out: Vec<usize> = Vec::new();
    if skip_suggestions {
        return out;
    }
    let mut i: usize = 0;
    while i < findings.len()
        invariant
            i <= findings@.len(),
            out@ == emitted_findings(findings@.take(i as int), dismissed@, views(pending_rules@)),
        decreases findings@.len() - i,
    {
        assert(findings@.take(i + 1).drop_last() =~= findings@.take(i as int));
        assert(findings@.take(i + 1).last() == findings@[i as int]);
        let d = is_dismissed(&findings[i], dismissed);
        let p = contains_str(pending_rules, findings[i].rule_id.as_str());
        if !d && !p {
            out.push(i);
        }
        i = i + 1;
    }
    assert(findings@.take(findings@.len() as int) =~= findings@);
    out
}

/// The nodes of the emitted suggestions whose comment is gone from the source.
pub open spec fn stale_suggestions(emitted: Seq<Finding>, pending_rules: Seq<Seq<char>>) -> Seq<u128>
    decreases emitted.len(),
{
    if emitted.len() == 0 {
        Seq::empty()
    } else {
        let rest = stale_suggestions(emitted.drop_last(), pending_rules);
        if !pending_rules.contains(emitted.last().rule_id@) {
            rest.push(emitted.last().target)
        } else {
            rest
        }
    }
}

/// An emitted suggestion becomes dismissed exactly when its comment is gone from the
/// source (no pending comment for its rule), in the order the suggestions come.
pub proof fn law_stale_suggestions(emitted: Seq<Finding>, pending_rules: Seq<Seq<char>>, t: u128)
    ensures
        stale_suggestions(emitted, pending_rules).contains(t)
            <==> exists|i: int| 0 <= i < emitted.len() && (#[trigger] emitted[i]).target == t
                && !pending_rules.contains(emitted[i].rule_id@),
    decreases emitted.len(),
{
    if emitted.len() > 0 {
        let front = emitted.drop_last();
        law_stale_suggestions(front, pending_rules, t);
        let rest = stale_suggestions(front, pending_rules);
        let all = stale_suggestions(emitted, pending_rules);
        if all.contains(t) {
            let j = choose|j: int| 0 <= j < all.len() && all[j] == t;
            if j < rest.len() {
                assert(rest[j] == all[j]);
                let i = choose|i: int| 0 <= i < front.len() && (#[trigger] front[i]).target == t
                    && !pending_rules.contains(front[i].rule_id@);
                assert(emitted[i] == front[i]);
            } else {
                let i = emitted.len() - 1;
                assert(emitted[i].target == t && !pending_rules.contains(emitted[i].rule_id@));
            }
        }
        if exists|i: int| 0 <= i < emitted.len() && (#[trigger] emitted[i]).target == t
            && !pending_rules.contains(emitted[i].rule_id@) {
            let i = choose|i: int| 0 <= i < emitted.len() && (#[trigger] emitted[i]).target == t
                && !pending_rules.contains(emitted[i].rule_id@);
            if i < front.len() {
                assert(front[i] == emitted[i]);
                let j = choose|j: int| 0 <= j < rest.len() && rest[j] == t;
                assert(all[j] == rest[j]);
            } else {
                assert(all[all.len() - 1] == t);
            }
        }
    }
}

/// The emitted suggestions whose comment is gone from the source: they become dismissed.
/// `emitted` pairs each suggestion node with its rule.
pub fn suggestions_to_dismiss(emitted: &[Finding], pending_rules: &[String]) -> (out: Vec<u128>)
    ensures
        out@ == stale_suggestions(emitted@, views(pending_rules@)),
{
    let mut out: Vec<u128> = Vec::new();
    let mut i: usize = 0;
    while i < emitted.len()
        invariant
            i <= emitted@.len(),
            out@ == stale_suggestions(emitted@.take(i as int), views(pending_rules@)),
        decreases emitted@.len() - i,
    {
        assert(emitted@.take(i + 1).drop_last() =~= emitted@.take(i as int));
        assert(emitted@.take(i + 1).last() == emitted@[i as int]);
        let present = contains_str(pending_rules, emitted[i].rule_id.as_str());
        if !present {
            out.push(emitted[i].target);
        }
        i = i + 1;
    }
    assert(emitted@.take(emitted@.len() as int) =~= emitted@);
    out
}

/// Whether `syn` accepts the text as a Rust source file.
pub uninterp spec fn rust_file_syntax_ok(source: Seq<char>) -> bool;

/// `syn::parse_file`: whether the text parses as a Rust source file. Only success or
/// failure is used; what `syn` accepts is named, not restated.
#[verifier::external_body]
fn syn_parses(source: &str) -> (b: bool)
    ensures
        b == rust_file_syntax_ok(source@),
{
    syn::parse_file(source).is_ok()
}

/// How many comment nodes document a node (each gets a `documents` edge).
pub open spec fn documenting(ns: Seq<CommentNode>) -> nat
    decreases ns.len(),
{
    if ns.len() == 0 {
        0
    } else {
        documenting(ns.drop_last()) + (if ns.last().target is Some { 1nat } else { 0nat })
    }
}

/// What parsing one file adds: the comment nodes, the findings that become suggestions,
/// and the node and edge counts.
#[derive(Clone, Debug)]
pub struct FileParse {
    pub comments: Vec<CommentNode>,
    pub suggestions: Vec<usize>,
    pub node_count: usize,
    pub edge_count: usize,
}

/// The parse of one Rust file, given what the AST walker produced from it (its nodes
/// and edge count), the comment blocks found in it, and the rule findings with the
/// dismissals and pending suggestion comments. A file `syn` refuses adds nothing.
/// Nodes: the walked nodes, the comments, the suggestions, and the file node itself.
/// Edges: the walked edges, one per documenting comment, one per suggestion.
pub fn parse_single_file(
    source: &str,
    ast_nodes: &[AstNode],
    ast_edge_count: usize,
    blocks: &[CommentBlock],
    findings: &[Finding],
    dismissed: &[Dismissal],
    pending_rules: &[String],
    skip_suggestions: bool,
) -> (r: Option<FileParse>)
    requires
        forall|i: int| 0 <= i < blocks@.len() ==> (#[trigger] blocks@[i]).start_line <= i32::MAX
            && blocks@[i].end_line < i32::MAX,
        ast_nodes@.len() + blocks@.len() + findings@.len() + 1 <= usize::MAX,
        ast_edge_count + blocks@.len() + findings@.len() <= usize::MAX,
    ensures
        r is None <==> !rust_file_syntax_ok(source@),
        r matches Some(p) ==> {
            &&& p.comments@.len() == kept_blocks(blocks@).len()
            &&& forall|a: int| 0 <= a < p.comments@.len() ==>
                comment_node_of(#[trigger] p.comments@[a], blocks@[kept_blocks(blocks@)[a]], ast_nodes@)
            &&& p.suggestions@ == (if skip_suggestions {
                Seq::<usize>::empty()
            } else {
                emitted_findings(findings@, dismissed@, views(pending_rules@))
            })
            &&& p.node_count == ast_nodes@.len() + p.comments@.len() + p.suggestions@.len() + 1
            &&& p.edge_count == ast_edge_count + documenting(p.comments@) + p.suggestions@.len()
        },
{
    if !syn_parses(source) {
        return None;
    }
    let comments = file_comment_nodes(blocks, ast_nodes);
    let suggestions = findings_to_emit(findings, dismissed, pending_rules, skip_suggestions);
    proof {
        lemma_kept_blocks_len(blocks@);
        lemma_emitted_len(findings@, dismissed@, views(pending_rules@));
    }
    let mut documented: usize = 0;
    let mut i: usize = 0;
    while i < comments.len()
        invariant
            i <= comments@.len(),
            comments@.len() <= blocks@.len(),
            documented == documenting(comments@.take(i as int)),
            documented <= i,
        decreases comments@.len() - i,
    {
        assert(comments@.take(i + 1).drop_last() =~= comments@.take(i as int));
        if comments[i].target.is_some() {
            documented = documented + 1;
        }
        i = i + 1;
    }
    assert(comments@.take(comments@.len() as int) =~= comments@);
    let node_count = ast_nodes.len() + comments.len() + suggestions.len() + 1;
    let edge_count = ast_edge_count + documented + suggestions.len();
    Some(FileParse { comments, suggestions, node_count, edge_count })
}

proof fn lemma_kept_blocks_len(blocks: Seq<CommentBlock>)
    ensures
        kept_blocks(blocks).len() <= blocks.len(),
    decreases blocks.len(),
{
    if blocks.len() > 0 {
        lemma_kept_blocks_len(blocks.drop_last());
    }
}

proof fn lemma_emitted_len(findings: Seq<Finding>, dismissed: Seq<Dismissal>, pending: Seq<Seq<char>>)
    ensures
        emitted_findings(findings, dismissed, pending).len() <= findings.len(),
    decreases findings.len(),
{
    if findings.len() > 0 {
        lemma_emitted_len(findings.drop_last(), dismissed, pending);
    }
}

} // verus!
