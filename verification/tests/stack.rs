use kerai::stack::{dup_by_id, preview_of, stack_list, Document, Stack, WorkspaceItem};

fn doc(s: &str) -> Document {
    Document { label: None, content: s.to_string() }
}

#[test]
fn push_peek_pop() {
    let mut s: Stack<Document> = Stack::new();
    assert!(s.peek().is_none());
    assert_eq!(s.push(doc("a")), (0, 1));
    assert_eq!(s.push(doc("b")), (1, 2));
    assert_eq!(s.peek().unwrap().content, "b");
    assert_eq!(s.depth(), 2);
    assert_eq!(s.pop().unwrap().content, "b");
    // the next push goes one above the new top
    assert_eq!(s.push(doc("c")), (1, 3));
    assert!(s.replace_top(doc("C")));
    assert_eq!(s.peek().unwrap().content, "C");
    assert_eq!(s.clear(), 2);
    assert!(s.pop().is_none());
    assert!(!s.replace_top(doc("x")));
}

#[test]
fn listing_top_first() {
    let mut s: Stack<Document> = Stack::new();
    s.push(Document { label: Some("init".to_string()), content: "line one\nline two".to_string() });
    s.push(doc("x"));
    let l = stack_list(&s);
    assert_eq!(l.len(), 2);
    assert_eq!((l[0].position, l[0].label.as_str(), l[0].preview.as_str()), (1, "", "x"));
    assert_eq!((l[1].position, l[1].label.as_str(), l[1].preview.as_str()), (0, "init", "line one line two"));
    let long: String = std::iter::repeat('a').take(100).collect();
    assert_eq!(preview_of(&long).chars().count(), 60);
}

#[test]
fn workspace_items() {
    let mut s: Stack<WorkspaceItem> = Stack::new();
    let item = |k: &str| WorkspaceItem { kind: k.to_string(), ref_id: "r".to_string(), meta: "{}".to_string() };
    let (_, a) = s.push(item("node"));
    let (_, b) = s.push(item("query"));
    let c = dup_by_id(&mut s, a).unwrap();
    assert_eq!(c, 3);
    assert_eq!(s.peek().unwrap().kind, "node");
    assert_eq!(s.entries.last().unwrap().position, 2);
    assert!(dup_by_id(&mut s, 99).is_none());
    assert!(s.drop_by_id(b));
    assert!(!s.drop_by_id(b));
    assert_eq!(s.depth(), 2);
    let (pos, _) = s.push(item("x"));
    assert_eq!(pos, 3);
}
