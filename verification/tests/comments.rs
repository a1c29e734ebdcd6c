use kerai::comments::{
    file_comment_nodes, findings_to_emit, join_comment_lines, keep_comment_block, match_comments_to_ast,
    parse_single_file, starts_with, suggestions_to_dismiss, AstNode, CommentBlock, CommentKind,
    CommentPlacement, Dismissal, Finding,
};

fn block(lines: &[&str], start: usize, end: usize) -> CommentBlock {
    CommentBlock {
        lines: lines.iter().map(|s| s.to_string()).collect(),
        start_line: start,
        end_line: end,
        col: 0,
        is_doc: false,
        is_block_style: false,
    }
}

fn node(id: u128, line: i32) -> AstNode {
    AstNode { id, span_start: Some(line), is_comment: false }
}

#[test]
fn placements() {
    let nodes = [node(1, 3), node(2, 10), node(3, 10), AstNode { id: 9, span_start: Some(20), is_comment: true }];
    let blocks = [
        block(&["header"], 1, 2),       // next node on line 3: directly above
        block(&["trailing"], 3, 3),     // same line as node 1
        block(&["gap"], 5, 6),          // next node at 10 after a gap, node 1 before: between
        block(&["end"], 15, 15),        // nothing after (comment nodes do not count)
        block(&["first"], 0, 0),        // before the first node with a gap: above
    ];
    let out = match_comments_to_ast(&blocks, &nodes);
    assert_eq!(
        out,
        vec![
            (CommentPlacement::Above, Some(1)),
            (CommentPlacement::Trailing, Some(1)),
            (CommentPlacement::Between, Some(2)),
            (CommentPlacement::Eof, None),
            (CommentPlacement::Above, Some(1)),
        ]
    );
}

#[test]
fn directive_and_doc_comments_are_dropped() {
    assert!(starts_with(" kerai: skip", " kerai:"));
    assert!(!starts_with("ker", "kerai:"));
    assert!(!keep_comment_block(&block(&[" kerai: skip"], 1, 1)));
    assert!(!keep_comment_block(&block(&["kerai:flag"], 1, 1)));
    let mut doc = block(&["docs"], 1, 1);
    doc.is_doc = true;
    assert!(!keep_comment_block(&doc));
    assert!(keep_comment_block(&block(&["a note"], 1, 1)));
    assert!(keep_comment_block(&CommentBlock { lines: vec![], ..block(&[], 1, 1) }));
}

#[test]
fn comment_nodes_of_a_file() {
    assert_eq!(join_comment_lines(&["a".to_string(), "b".to_string()]), "a\nb");
    assert_eq!(join_comment_lines(&[]), "");
    let nodes = [node(1, 4)];
    let blocks = [block(&[" kerai: skip"], 1, 1), block(&["one", "two"], 2, 3)];
    let out = file_comment_nodes(&blocks, &nodes);
    assert_eq!(out.len(), 1);
    assert_eq!(out[0].kind, CommentKind::CommentBlock);
    assert_eq!(out[0].content, "one\ntwo");
    assert_eq!(out[0].line_count, 2);
    assert_eq!(out[0].placement, CommentPlacement::Above);
    assert_eq!(out[0].target, Some(1));
}

#[test]
fn suggestions_filtered_by_dismissals_and_pending_comments() {
    let findings = vec![
        Finding { rule_id: "long_fn".to_string(), target: 1 },
        Finding { rule_id: "unused".to_string(), target: 2 },
        Finding { rule_id: "long_fn".to_string(), target: 3 },
    ];
    let dismissed = vec![Dismissal { rule_id: "long_fn".to_string(), target: 1 }];
    let pending = vec!["unused".to_string()];
    assert_eq!(findings_to_emit(&findings, &dismissed, &pending, false), vec![2]);
    assert_eq!(findings_to_emit(&findings, &[], &[], false), vec![0, 1, 2]);
    assert_eq!(findings_to_emit(&findings, &[], &[], true), Vec::<usize>::new());
    let emitted = vec![
        Finding { rule_id: "unused".to_string(), target: 40 },
        Finding { rule_id: "gone".to_string(), target: 41 },
    ];
    assert_eq!(suggestions_to_dismiss(&emitted, &pending), vec![41]);
}

#[test]
fn parse_single_file_counts() {
    let nodes = [node(1, 2), node(2, 5)];
    let blocks = [block(&["about f"], 1, 1), block(&["tail"], 9, 9)];
    let findings = vec![Finding { rule_id: "r".to_string(), target: 1 }];
    let p = parse_single_file("fn f() {}\nfn g() {}\n", &nodes, 1, &blocks, &findings, &[], &[], false).unwrap();
    assert_eq!(p.comments.len(), 2);
    // 2 walked + 2 comments + 1 suggestion + file node
    assert_eq!(p.node_count, 6);
    // 1 walked + 1 documenting comment (the tail one documents nothing) + 1 suggestion
    assert_eq!(p.edge_count, 3);
    assert!(parse_single_file("fn broken( {", &nodes, 1, &blocks, &findings, &[], &[], false).is_none());
}
