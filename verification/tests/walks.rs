use kerai::walks::{
    build_adjacency, build_vocab, edge_walk, edge_walks, generate_walks, parse_walk_type, tree_walk, tree_walks,
    EdgeRow, WalkType,
};

fn row(src: i32, tgt: i32) -> EdgeRow {
    EdgeRow { src, tgt }
}

#[test]
fn vocab_indices_are_first_positions() {
    assert_eq!(build_vocab(&[10, 20, 10, 30, 20]), vec![0, 1, 0, 3, 1]);
    assert_eq!(build_vocab(&[]), Vec::<usize>::new());
}

#[test]
fn adjacency_from_rows() {
    let a = build_adjacency(&[row(0, 1), row(0, 2), row(-1, 2), row(2, 0)], false);
    assert_eq!(a.adj[0], vec![1, 2]);
    assert_eq!(a.adj[2], vec![0]);
    assert!(a.adj[1].is_empty());
    assert_eq!(a.starts, vec![0, 2]);
    let b = build_adjacency(&[row(0, 1), row(1, 2)], true);
    assert_eq!(b.adj[1], vec![0, 2]);
    assert_eq!(b.starts, vec![0, 1, 2]);
}

#[test]
fn tree_walk_is_preorder() {
    // 0 -> 1, 2 ; 1 -> 3
    let a = build_adjacency(&[row(0, 1), row(0, 2), row(1, 3)], false);
    let (root, w) = tree_walk(&a, &[0], 10);
    assert_eq!(root, 0);
    assert_eq!(w, vec![0, 1, 3, 2]);
    let (_, w) = tree_walk(&a, &[0], 2);
    assert_eq!(w, vec![0, 1]);
    let all = tree_walks(&a, &[0], 5, 3);
    assert_eq!(all.len(), 5);
    assert!(all.iter().all(|w| w == &vec![0, 1, 3]));
    assert!(tree_walks(&a, &[], 5, 3).is_empty());
}

#[test]
fn edge_walks_follow_edges() {
    let rows = [row(0, 1), row(1, 2), row(2, 0), row(2, 3)];
    let a = build_adjacency(&rows, false);
    for _ in 0..50 {
        let w = edge_walk(&a, 6);
        assert!(a.starts.contains(&w[0]));
        assert!(w.len() <= 6);
        for p in w.windows(2) {
            assert!(a.adj[p[0]].contains(&p[1]));
        }
        if w.len() < 6 {
            // stopped at the dead end
            assert_eq!(*w.last().unwrap(), 3);
        }
    }
    let ws = edge_walks(&a, 20, 4);
    assert!(ws.len() <= 20 && ws.iter().all(|w| w.len() >= 2));
}

#[test]
fn walk_kinds() {
    assert_eq!(parse_walk_type("tree"), Some(WalkType::Tree));
    assert_eq!(parse_walk_type("perspective"), Some(WalkType::Perspective));
    assert_eq!(parse_walk_type("random"), Some(WalkType::Random));
    assert_eq!(parse_walk_type("edge"), Some(WalkType::Edge));
    assert_eq!(parse_walk_type("spiral"), None);
    let tree = build_adjacency(&[row(0, 1)], false);
    let no_edges = build_adjacency(&[], false);
    let graph = build_adjacency(&[row(0, 1)], true);
    assert!(generate_walks(WalkType::Perspective, &tree, &[0], &no_edges, &graph, 3, 4).is_none());
    // without edges, edge walks fall back to tree walks
    let ws = generate_walks(WalkType::Edge, &tree, &[0], &no_edges, &graph, 3, 4).unwrap();
    assert_eq!(ws, vec![vec![0, 1]; 3]);
    let ws = generate_walks(WalkType::Random, &tree, &[0], &no_edges, &graph, 3, 3).unwrap();
    assert_eq!(ws.len(), 3);
    assert!(ws.iter().all(|w| w.len() == 3));
}

#[test]
fn every_attempt_keeps_a_walk_when_it_can() {
    let edges = build_adjacency(&[row(0, 1), row(1, 2), row(2, 0)], false);
    assert_eq!(edge_walks(&edges, 7, 3).len(), 7);
    assert!(edge_walks(&edges, 7, 1).is_empty());
    let tree = build_adjacency(&[row(0, 1), row(0, 2), row(3, 4)], false);
    assert_eq!(tree_walks(&tree, &[0, 3], 6, 2).len(), 6);
    // leaves as roots give single-node walks, which are dropped
    assert!(tree_walks(&tree, &[1, 2, 4], 6, 3).is_empty());
    assert!(tree_walks(&tree, &[0, 3], 6, 1).is_empty());
}
