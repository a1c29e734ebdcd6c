//! Walks over the graph that become training sequences: the vocabulary of node
//! indices, adjacency built from edge rows, depth-first tree walks and random edge
//! walks.

use vstd::prelude::*;
use crate::text::str_is;
use rand::Rng;

verus! {

/// `rand::thread_rng().gen_range(0..n)`: an index below `n`, chosen at random. Only the
/// range is promised; the value depends on the generator's state.
#[verifier::external_body]
fn random_below(n: usize) -> (r: usize)
    requires
        n > 0,
    ensures
        r < n,
{
    rand::thread_rng().gen_range(0..n)
}

/// The token index of each node: the position of its first occurrence in the list.
pub open spec fn first_position(ids: Seq<u128>, id: u128) -> int
    decreases ids.len(),
{
    if ids.len() == 0 {
        0
    } else if ids.drop_last().contains(id) {
        first_position(ids.drop_last(), id)
    } else if ids.last() == id {
        ids.len() - 1
    } else {
        0
    }
}

proof fn lemma_first_position(ids: Seq<u128>, i: int)
    requires
        0 <= i < ids.len(),
        forall|k: int| 0 <= k < i ==> ids[k] != ids[i],
    ensures
        first_position(ids, ids[i]) == i,
    decreases ids.len(),
{
    if i < ids.len() - 1 {
        assert(ids.drop_last()[i] == ids[i]);
        assert(ids.drop_last().contains(ids[i]));
        assert forall|k: int| 0 <= k < i implies ids.drop_last()[k] != ids.drop_last()[i] by {
            assert(ids.drop_last()[k] == ids[k]);
        }
        lemma_first_position(ids.drop_last(), i);
    } else {
        if ids.drop_last().contains(ids[i]) {
            let k = choose|k: int| 0 <= k < ids.drop_last().len() && ids.drop_last()[k] == ids[i];
            assert(ids[k] == ids.drop_last()[k]);
        }
    }
}

/// The vocabulary entries of a model: each node with the index of its first occurrence
/// in the list of nodes (in path and position order).
pub fn build_vocab(node_ids: &[u128]) -> (idx: Vec<usize>)
    ensures
        idx@.len() == node_ids@.len(),
        forall|i: int| 0 <= i < node_ids@.len() ==> #[trigger] idx@[i] == first_position(node_ids@, node_ids@[i]),
{
    let mut idx: Vec<usize> = Vec::new();
    let mut i: usize = 0;
    while i < node_ids.len()
        invariant
            i <= node_ids@.len(),
            idx@.len() == i,
            forall|k: int| 0 <= k < i ==> #[trigger] idx@[k] == first_position(node_ids@, node_ids@[k]),
        decreases node_ids@.len() - i,
    {
        let mut j: usize = 0;
        while j < i && node_ids[j] != node_ids[i]
            invariant
                j <= i < node_ids@.len(),
                forall|k: int| 0 <= k < j ==> node_ids@[k] != node_ids@[i as int],
            decreases i - j,
        {
            j = j + 1;
        }
        proof {
            if j < i {
                assert forall|k: int| 0 <= k < j implies node_ids@[k] != node_ids@[j as int] by {}
                lemma_first_position(node_ids@, j as int);
            } else {
                lemma_first_position(node_ids@, i as int);
            }
        }
        idx.push(j);
        i = i + 1;
    }
    idx
}

/// An edge row: source and target token indices; negative for a node outside the
/// vocabulary.
#[derive(Clone, Copy, Debug, PartialEq, Eq, Structural)]
pub struct EdgeRow {
    pub src: i32,
    pub tgt: i32,
}

/// Whether a row joins two nodes of the vocabulary.
pub open spec fn row_ok(r: EdgeRow) -> bool {
    r.src >= 0 && r.tgt >= 0
}

/// The neighbours of `v` given by the first `n` rows, in row order: the target of each
/// row from `v`, and, when `both_ways`, the source of each row to `v`.
pub open spec fn neighbors(rows: Seq<EdgeRow>, n: int, v: int, both_ways: bool) -> Seq<usize>
    decreases n,
{
    if n <= 0 {
        Seq::empty()
    } else {
        let rest = neighbors(rows, n - 1, v, both_ways);
        let r = rows[n - 1];
        if !row_ok(r) {
            rest
        } else {
            let a = if r.src == v { rest.push(r.tgt as usize) } else { rest };
            if both_ways && r.tgt == v { a.push(r.src as usize) } else { a }
        }
    }
}

/// The nodes the first `n` rows start from (and end at, when `both_ways`), each once, in
/// the order first seen.
pub open spec fn start_nodes(rows: Seq<EdgeRow>, n: int, both_ways: bool) -> Seq<usize>
    decreases n,
{
    if n <= 0 {
        Seq::empty()
    } else {
        let rest = start_nodes(rows, n - 1, both_ways);
        let r = rows[n - 1];
        if !row_ok(r) {
            rest
        } else {
            let a = if rest.contains(r.src as usize) { rest } else { rest.push(r.src as usize) };
            if both_ways && !a.contains(r.tgt as usize) { a.push(r.tgt as usize) } else { a }
        }
    }
}

/// The adjacency of a graph: neighbours by node, and the nodes walks may start from,
/// with the rows it was built from.
pub struct Adjacency {
    pub adj: Vec<Vec<usize>>,
    pub starts: Vec<usize>,
    pub both_ways: bool,
    pub rows: Ghost<Seq<EdgeRow>>,
}

/// The adjacency is that of its rows.
pub open spec fn adjacency_wf(a: Adjacency) -> bool {
    adjacency_of(a, a.rows@, a.both_ways)
}

/// The adjacency is that of the rows.
pub open spec fn adjacency_of(a: Adjacency, rows: Seq<EdgeRow>, both_ways: bool) -> bool {
    &&& forall|v: int| 0 <= v < a.adj@.len() ==> (#[trigger] a.adj@[v])@ == neighbors(rows, rows.len() as int, v, both_ways)
    &&& forall|v: int| v >= a.adj@.len() ==> #[trigger] neighbors(rows, rows.len() as int, v, both_ways).len() == 0
    &&& a.starts@ == start_nodes(rows, rows.len() as int, both_ways)
}

proof fn lemma_neighbors_beyond(rows: Seq<EdgeRow>, n: int, v: int, both_ways: bool)
    requires
        0 <= n <= rows.len(),
        forall|k: int| 0 <= k < n && row_ok(rows[k]) ==> (#[trigger] rows[k]).src < v && rows[k].tgt < v,
    ensures
        neighbors(rows, n, v, both_ways).len() == 0,
    decreases n,
{
    if n > 0 {
        lemma_neighbors_beyond(rows, n - 1, v, both_ways);
    }
}

proof fn lemma_starts_bound(rows: Seq<EdgeRow>, n: int, both_ways: bool, m: int)
    requires
        0 <= n <= rows.len(),
        forall|k: int| 0 <= k < n && row_ok(rows[k]) ==> (#[trigger] rows[k]).src < m && rows[k].tgt < m,
    ensures
        forall|i: int| 0 <= i < start_nodes(rows, n, both_ways).len() ==> #[trigger] start_nodes(rows, n, both_ways)[i] < m,
    decreases n,
{
    if n > 0 {
        lemma_starts_bound(rows, n - 1, both_ways, m);
        let rest = start_nodes(rows, n - 1, both_ways);
        let cur = start_nodes(rows, n, both_ways);
        assert forall|i: int| 0 <= i < cur.len() implies #[trigger] cur[i] < m by {
            if i < rest.len() {
                let r = rows[n - 1];
                if row_ok(r) {
                    let a = if rest.contains(r.src as usize) { rest } else { rest.push(r.src as usize) };
                    assert(a[i] == rest[i]);
                    if i < a.len() {
                        assert(cur[i] == a[i]);
                    }
                }
            }
        }
    }
}

fn seen(list: &Vec<usize>, x: usize) -> (b: bool)
    ensures
        b == list@.contains(x),
{
    let mut i: usize = 0;
    while i < list.len()
        invariant
            i <= list@.len(),
            forall|k: int| 0 <= k < i ==> list@[k] != x,
        decreases list@.len() - i,
    {
        if list[i] == x {
            return true;
        }
        i = i + 1;
    }
    false
}

/// Build the adjacency of edge rows, skipping rows with a node outside the vocabulary.
/// With `both_ways` every edge is also walked backwards (random walks); the start nodes
/// are then the nodes at either end.
pub fn build_adjacency(rows: &[EdgeRow], both_ways: bool) -> (a: Adjacency)
    ensures
        adjacency_wf(a),
        a.rows@ == rows@,
        a.both_ways == both_ways,
{
    // one more than the largest index in the rows
    let mut size: usize = 0;
    let mut i: usize = 0;
    while i < rows.len()
        invariant
            i <= rows@.len(),
            size <= 0x8000_0000,
            forall|k: int| 0 <= k < i && row_ok(rows@[k]) ==> (#[trigger] rows@[k]).src < size && rows@[k].tgt < size,
        decreases rows@.len() - i,
    {
        let r = rows[i];
        if r.src >= 0 && r.tgt >= 0 {
            if r.src as usize >= size {
                size = r.src as usize + 1;
            }
            if r.tgt as usize >= size {
                size = r.tgt as usize + 1;
            }
        }
        i = i + 1;
    }
    let mut adj: Vec<Vec<usize>> = Vec::new();
    let mut v: usize = 0;
    while v < size
        invariant
            v <= size,
            adj@.len() == v,
            forall|k: int| 0 <= k < v ==> (#[trigger] adj@[k])@.len() == 0,
        decreases size - v,
    {
        adj.push(Vec::new());
        v = v + 1;
    }
    let mut starts: Vec<usize> = Vec::new();
    let mut i: usize = 0;
    while i < rows.len()
        invariant
            i <= rows@.len(),
            adj@.len() == size,
            forall|k: int| 0 <= k < rows@.len() && row_ok(rows@[k]) ==> (#[trigger] rows@[k]).src < size && rows@[k].tgt < size,
            forall|w: int| 0 <= w < size ==> (#[trigger] adj@[w])@ == neighbors(rows@, i as int, w, both_ways),
            starts@ == start_nodes(rows@, i as int, both_ways),
        decreases rows@.len() - i,
    {
        let r = rows[i];
        if r.src >= 0 && r.tgt >= 0 {
            let s = r.src as usize;
            let t = r.tgt as usize;
            let ghost before = adj@;
            let mut list = adj.remove(s);
            list.push(t);
            adj.insert(s, list);
            assert forall|w: int| 0 <= w < size && w != s implies (#[trigger] adj@[w]) == before[w] by {}
            if both_ways {
                let ghost mid = adj@;
                let mut back = adj.remove(t);
                back.push(s);
                adj.insert(t, back);
                assert forall|w: int| 0 <= w < size && w != t implies (#[trigger] adj@[w]) == mid[w] by {}
            }
            if !seen(&starts, s) {
                starts.push(s);
            }
            if both_ways && !seen(&starts, t) {
                starts.push(t);
            }
        }
        proof {
            assert forall|w: int| 0 <= w < size implies (#[trigger] adj@[w])@ == neighbors(rows@, i + 1, w, both_ways) by {}
        }
        i = i + 1;
    }
    proof {
        assert forall|w: int| w >= size implies #[trigger] neighbors(rows@, rows@.len() as int, w, both_ways).len() == 0 by {
            lemma_neighbors_beyond(rows@, rows@.len() as int, w, both_ways);
        }
    }
    Adjacency { adj, starts, both_ways, rows: Ghost(rows@) }
}

/// A walk of the graph: it follows edges, and stops early only at a node without
/// neighbours.
pub open spec fn is_edge_walk(walk: Seq<usize>, rows: Seq<EdgeRow>, both_ways: bool, context_len: int) -> bool {
    &&& walk.len() >= 1
    &&& walk.len() <= (if context_len > 1 { context_len } else { 1 })
    &&& forall|i: int| 0 <= i < walk.len() - 1 ==>
        neighbors(rows, rows.len() as int, walk[i] as int, both_ways).contains(#[trigger] walk[i + 1])
    &&& walk.len() < context_len ==> neighbors(rows, rows.len() as int, walk.last() as int, both_ways).len() == 0
}

/// One random walk from a random start node: up to `context_len` nodes, each a random
/// neighbour of the one before.
pub fn edge_walk(a: &Adjacency, context_len: usize) -> (walk: Vec<usize>)
    requires
        adjacency_wf(*a),
        a.starts@.len() > 0,
    ensures
        a.starts@.contains(walk@[0]),
        is_edge_walk(walk@, a.rows@, a.both_ways, context_len as int),
{
    let ghost rows = a.rows@;
    let ghost both_ways = a.both_ways;
    let start = a.starts[random_below(a.starts.len())];
    let mut walk: Vec<usize> = vec![start];
    let mut current = start;
    let mut step: usize = 1;
    let mut stuck = false;
    while step < context_len && !stuck
        invariant
            adjacency_of(*a, rows, both_ways),
            1 <= step,
            step <= (if context_len > 1 { context_len as int } else { 1int }),
            walk@.len() == step,
            walk@.last() == current,
            walk@[0] == start,
            a.starts@.contains(start),
            stuck ==> neighbors(rows, rows.len() as int, current as int, both_ways).len() == 0,
            forall|i: int| 0 <= i < walk@.len() - 1 ==>
                neighbors(rows, rows.len() as int, walk@[i] as int, both_ways).contains(#[trigger] walk@[i + 1]),
        decreases context_len - step, (if stuck { 0int } else { 1int }),
    {
        if current >= a.adj.len() || a.adj[current].len() == 0 {
            proof {
                if current < a.adj@.len() {
                    assert(a.adj@[current as int]@ == neighbors(rows, rows.len() as int, current as int, both_ways));
                }
            }
            stuck = true;
        } else {
            let nbrs = &a.adj[current];
            let k = random_below(nbrs.len());
            let next = nbrs[k];
            proof {
                assert(nbrs@[k as int] == next);
                assert(neighbors(rows, rows.len() as int, current as int, both_ways).contains(next));
            }
            walk.push(next);
            current = next;
            step = step + 1;
        }
    }
    walk
}

/// Every start node has a neighbour: it begins (or, walked both ways, ends) a row.
proof fn lemma_start_has_neighbors(rows: Seq<EdgeRow>, n: int, both_ways: bool, v: usize)
    requires
        0 <= n <= rows.len(),
        start_nodes(rows, n, both_ways).contains(v),
    ensures
        neighbors(rows, n, v as int, both_ways).len() > 0,
    decreases n,
{
    if n > 0 {
        let rest = start_nodes(rows, n - 1, both_ways);
        if rest.contains(v) {
            lemma_start_has_neighbors(rows, n - 1, both_ways, v);
        }
    }
}

/// Random walks over edges: `n_sequences` attempts, keeping the walks of at least two
/// nodes.
pub fn edge_walks(a: &Adjacency, n_sequences: usize, context_len: usize) -> (out: Vec<Vec<usize>>)
    requires
        adjacency_wf(*a),
    ensures
        out@.len() == (if a.starts@.len() > 0 && context_len >= 2 { n_sequences as int } else { 0 }),
        forall|i: int| 0 <= i < out@.len() ==> (#[trigger] out@[i])@.len() >= 2
            && a.starts@.contains(out@[i]@[0])
            && is_edge_walk(out@[i]@, a.rows@, a.both_ways, context_len as int),
{
    let ghost rows = a.rows@;
    let ghost both_ways = a.both_ways;
    let mut out: Vec<Vec<usize>> = Vec::new();
    if a.starts.len() == 0 {
        return out;
    }
    let mut n: usize = 0;
    while n < n_sequences
        invariant
            adjacency_wf(*a),
            rows == a.rows@,
            both_ways == a.both_ways,
            a.starts@.len() > 0,
            n <= n_sequences,
            out@.len() == (if context_len >= 2 { n as int } else { 0 }),
            forall|i: int| 0 <= i < out@.len() ==> (#[trigger] out@[i])@.len() >= 2
                && a.starts@.contains(out@[i]@[0])
                && is_edge_walk(out@[i]@, rows, both_ways, context_len as int),
        decreases n_sequences - n,
    {
        let w = edge_walk(a, context_len);
        proof {
            lemma_start_has_neighbors(rows, rows.len() as int, both_ways, w@[0]);
        }
        if w.len() >= 2 {
            out.push(w);
        }
        n = n + 1;
    }
    out
}

/// The children of each node, in position order, from parent-child rows.
pub open spec fn children_of(rows: Seq<EdgeRow>, v: int) -> Seq<usize> {
    neighbors(rows, rows.len() as int, v, false)
}

/// The depth-first walk from a stack of nodes: take the top, then push its children so
/// that the first child comes next; at most `n` nodes.
pub open spec fn dfs(rows: Seq<EdgeRow>, stack: Seq<usize>, n: nat) -> Seq<usize>
    decreases n,
{
    if n == 0 || stack.len() == 0 {
        Seq::empty()
    } else {
        let v = stack.last();
        seq![v] + dfs(rows, stack.drop_last() + children_of(rows, v as int).reverse(), (n - 1) as nat)
    }
}

/// A depth-first walk from a random root: the first `context_len` nodes of the
/// pre-order walk.
pub fn tree_walk(a: &Adjacency, roots: &[usize], context_len: usize) -> (r: (usize, Vec<usize>))
    requires
        adjacency_wf(*a),
        !a.both_ways,
        roots@.len() > 0,
    ensures
        roots@.contains(r.0),
        r.1@ == dfs(a.rows@, seq![r.0], context_len as nat),
{
    let ghost rows = a.rows@;
    let root = roots[random_below(roots.len())];
    let mut walk: Vec<usize> = Vec::new();
    let mut stack: Vec<usize> = vec![root];
    let mut left: usize = context_len;
    assert(stack@ =~= seq![root]);
    assert(walk@ + dfs(rows, stack@, left as nat) =~= dfs(rows, seq![root], context_len as nat));
    while stack.len() > 0 && left > 0
        invariant
            adjacency_wf(*a),
            !a.both_ways,
            rows == a.rows@,
            left <= context_len,
            walk@ + dfs(rows, stack@, left as nat) == dfs(rows, seq![root], context_len as nat),
        decreases left,
    {
        let ghost s0 = stack@;
        let v = match stack.pop() {
            Some(x) => x,
            None => 0,
        };
        assert(v == s0.last());
        assert(stack@ =~= s0.drop_last());
        if v < a.adj.len() {
            let children = &a.adj[v];
            let mut k: usize = children.len();
            assert(children@.subrange(k as int, children@.len() as int).reverse() =~= Seq::<usize>::empty());
            while k > 0
                invariant
                    k <= children@.len(),
                    stack@ == s0.drop_last() + children@.subrange(k as int, children@.len() as int).reverse(),
                decreases k,
            {
                k = k - 1;
                stack.push(children[k]);
                assert(children@.subrange(k as int, children@.len() as int).reverse() =~=
                    children@.subrange(k + 1, children@.len() as int).reverse().push(children@[k as int]));
            }
            assert(children@.subrange(0, children@.len() as int) =~= children@);
            assert(children@ == children_of(rows, v as int));
        } else {
            assert(children_of(rows, v as int).reverse() =~= Seq::<usize>::empty());
            assert(stack@ =~= s0.drop_last() + children_of(rows, v as int).reverse());
        }
        let ghost w0 = walk@;
        walk.push(v);
        proof {
            assert(dfs(rows, s0, left as nat) == seq![v] + dfs(rows, stack@, (left - 1) as nat));
            assert(walk@ + dfs(rows, stack@, (left - 1) as nat) =~= w0 + dfs(rows, s0, left as nat));
        }
        left = left - 1;
    }
    assert(dfs(rows, stack@, left as nat) =~= Seq::<usize>::empty());
    assert(walk@ + Seq::<usize>::empty() =~= walk@);
    (root, walk)
}

/// A depth-first walk takes at most `n` nodes.
proof fn lemma_dfs_len(rows: Seq<EdgeRow>, stack: Seq<usize>, n: nat)
    ensures
        dfs(rows, stack, n).len() <= n,
    decreases n,
{
    if n > 0 && stack.len() > 0 {
        let v = stack.last();
        lemma_dfs_len(rows, stack.drop_last() + children_of(rows, v as int).reverse(), (n - 1) as nat);
    }
}

/// A depth-first walk from one root has at least two nodes exactly when it may take two
/// and the root has a child.
proof fn lemma_dfs_root_len(rows: Seq<EdgeRow>, r: usize, n: nat)
    ensures
        dfs(rows, seq![r], n).len() >= 2 <==> (n >= 2 && children_of(rows, r as int).len() > 0),
{
    if n > 0 {
        let c = children_of(rows, r as int).reverse();
        assert(seq![r].last() == r);
        assert(seq![r].drop_last() + c =~= c);
        let tail = dfs(rows, c, (n - 1) as nat);
        assert(dfs(rows, seq![r], n) == seq![r] + tail);
        if n - 1 > 0 && c.len() > 0 {
            assert(tail.len() >= 1);
        } else {
            assert(tail.len() == 0);
        }
    }
}

/// A depth-first walk of at most `n` nodes from one of the roots.
pub open spec fn is_tree_walk(w: Seq<usize>, roots: Seq<usize>, rows: Seq<EdgeRow>, n: nat) -> bool {
    exists|r: usize| roots.contains(r) && w == dfs(rows, seq![r], n)
}

/// Tree walks: `n_sequences` attempts from random roots, keeping walks of at least two
/// nodes.
pub fn tree_walks(a: &Adjacency, roots: &[usize], n_sequences: usize, context_len: usize) -> (out: Vec<Vec<usize>>)
    requires
        adjacency_wf(*a),
        !a.both_ways,
    ensures
        out@.len() <= n_sequences,
        roots@.len() > 0 && context_len >= 2 && (forall|k: int| 0 <= k < roots@.len()
            ==> #[trigger] children_of(a.rows@, roots@[k] as int).len() > 0) ==> out@.len() == n_sequences,
        roots@.len() == 0 || context_len < 2 || (forall|k: int| 0 <= k < roots@.len()
            ==> #[trigger] children_of(a.rows@, roots@[k] as int).len() == 0) ==> out@.len() == 0,
        forall|i: int| 0 <= i < out@.len() ==> (#[trigger] out@[i])@.len() >= 2
            && is_tree_walk(out@[i]@, roots@, a.rows@, context_len as nat),
        forall|i: int| 0 <= i < out@.len() ==> (#[trigger] out@[i])@.len() <= context_len,
{
    let ghost rows = a.rows@;
    let mut out: Vec<Vec<usize>> = Vec::new();
    if roots.len() == 0 {
        return out;
    }
    let mut n: usize = 0;
    while n < n_sequences
        invariant
            adjacency_wf(*a),
            !a.both_ways,
            rows == a.rows@,
            roots@.len() > 0,
            n <= n_sequences,
            out@.len() <= n,
            context_len >= 2 && (forall|k: int| 0 <= k < roots@.len()
                ==> #[trigger] children_of(rows, roots@[k] as int).len() > 0) ==> out@.len() == n,
            context_len < 2 || (forall|k: int| 0 <= k < roots@.len()
                ==> #[trigger] children_of(rows, roots@[k] as int).len() == 0) ==> out@.len() == 0,
            forall|i: int| 0 <= i < out@.len() ==> (#[trigger] out@[i])@.len() <= context_len,
            forall|i: int| 0 <= i < out@.len() ==> (#[trigger] out@[i])@.len() >= 2
                && is_tree_walk(out@[i]@, roots@, rows, context_len as nat),
        decreases n_sequences - n,
    {
        let (root, w) = tree_walk(a, roots, context_len);
        proof {
            lemma_dfs_root_len(rows, root, context_len as nat);
            lemma_dfs_len(rows, seq![root], context_len as nat);
            let k = choose|k: int| 0 <= k < roots@.len() && roots@[k] == root;
            assert(children_of(rows, roots@[k] as int) == children_of(rows, root as int));
        }
        if w.len() >= 2 {
            out.push(w);
            assert(out@.last()@ == dfs(rows, seq![root], context_len as nat));
        }
        n = n + 1;
    }
    out
}

/// The kinds of walk.
#[derive(Clone, Copy, Debug, PartialEq, Eq, Structural)]
pub enum WalkType {
    Tree,
    Edge,
    Perspective,
    Random,
}

pub open spec fn walk_type_named(s: Seq<char>) -> Option<WalkType> {
    if s == "tree"@ {
        Some(WalkType::Tree)
    } else if s == "edge"@ {
        Some(WalkType::Edge)
    } else if s == "perspective"@ {
        Some(WalkType::Perspective)
    } else if s == "random"@ {
        Some(WalkType::Random)
    } else {
        None
    }
}

/// The name of each kind of walk.
pub open spec fn walk_type_text(t: WalkType) -> Seq<char> {
    match t {
        WalkType::Tree => "tree"@,
        WalkType::Edge => "edge"@,
        WalkType::Perspective => "perspective"@,
        WalkType::Random => "random"@,
    }
}

/// The walk kinds are exactly `tree`, `edge`, `perspective` and `random`: each name reads
/// as its own kind, and no other name is a kind.
pub proof fn law_walk_types(s: Seq<char>, t: WalkType)
    ensures
        walk_type_named(walk_type_text(t)) == Some(t),
        walk_type_named(s) matches Some(u) ==> s == walk_type_text(u),
{
    reveal_strlit("tree");
    reveal_strlit("edge");
    reveal_strlit("perspective");
    reveal_strlit("random");
    assert("tree"@ != "edge"@) by { assert("tree"@[0] != "edge"@[0]); }
    assert("tree"@ != "perspective"@) by { assert("tree"@.len() != "perspective"@.len()); }
    assert("tree"@ != "random"@) by { assert("tree"@.len() != "random"@.len()); }
    assert("edge"@ != "perspective"@) by { assert("edge"@.len() != "perspective"@.len()); }
    assert("edge"@ != "random"@) by { assert("edge"@.len() != "random"@.len()); }
    assert("perspective"@ != "random"@) by { assert("perspective"@.len() != "random"@.len()); }
}

/// The kind of walk a name denotes; `None` for an unknown kind.
pub fn parse_walk_type(s: &str) -> (t: Option<WalkType>)
    ensures
        t == walk_type_named(s@),
{
    if str_is(s, "tree") {
        Some(WalkType::Tree)
    } else if str_is(s, "edge") {
        Some(WalkType::Edge)
    } else if str_is(s, "perspective") {
        Some(WalkType::Perspective)
    } else if str_is(s, "random") {
        Some(WalkType::Random)
    } else {
        None
    }
}

/// Walks of a kind over the graph: tree walks over the parent-child adjacency, edge
/// walks over the edges (tree walks when there are no edges), random walks over both
/// in both directions (none when the graph is empty). Perspective walks weigh edges by
/// perspective weights and are not made here: `None`.
pub fn generate_walks(
    kind: WalkType,
    tree: &Adjacency,
    roots: &[usize],
    edges: &Adjacency,
    graph: &Adjacency,
    n_sequences: usize,
    context_len: usize,
) -> (r: Option<Vec<Vec<usize>>>)
    requires
        adjacency_wf(*tree),
        !tree.both_ways,
        adjacency_wf(*edges),
        !edges.both_ways,
        adjacency_wf(*graph),
        graph.both_ways,
    ensures
        r is None <==> kind == WalkType::Perspective,
        r matches Some(out) ==> out@.len() <= n_sequences && forall|i: int| 0 <= i < out@.len() ==> {
            let w = #[trigger] out@[i]@;
            &&& w.len() >= 2
            &&& (kind == WalkType::Tree || (kind == WalkType::Edge && edges.starts@.len() == 0))
                ==> is_tree_walk(w, roots@, tree.rows@, context_len as nat)
            &&& (kind == WalkType::Edge && edges.starts@.len() > 0)
                ==> edges.starts@.contains(w[0]) && is_edge_walk(w, edges.rows@, false, context_len as int)
            &&& kind == WalkType::Random
                ==> graph.starts@.contains(w[0]) && is_edge_walk(w, graph.rows@, true, context_len as int)
        },
        r matches Some(out) ==> forall|i: int| 0 <= i < out@.len() ==> (#[trigger] out@[i])@.len() <= context_len,
        r matches Some(out) ==> (kind == WalkType::Tree || (kind == WalkType::Edge && edges.starts@.len() == 0)) ==> {
            &&& roots@.len() > 0 && context_len >= 2 && (forall|k: int| 0 <= k < roots@.len()
                ==> #[trigger] children_of(tree.rows@, roots@[k] as int).len() > 0) ==> out@.len() == n_sequences
            &&& roots@.len() == 0 || context_len < 2 || (forall|k: int| 0 <= k < roots@.len()
                ==> #[trigger] children_of(tree.rows@, roots@[k] as int).len() == 0) ==> out@.len() == 0
        },
        r matches Some(out) ==> (kind == WalkType::Edge && edges.starts@.len() > 0
            ==> out@.len() == (if context_len >= 2 { n_sequences as int } else { 0 })),
        r matches Some(out) ==> (kind == WalkType::Random
            ==> out@.len() == (if graph.starts@.len() > 0 && context_len >= 2 { n_sequences as int } else { 0 })),
{
    match kind {
        WalkType::Tree => {
            let out = tree_walks(tree, roots, n_sequences, context_len);
            Some(out)
        },
        WalkType::Edge => {
            if edges.starts.len() == 0 {
                let out = tree_walks(tree, roots, n_sequences, context_len);
                Some(out)
            } else {
                Some(edge_walks(edges, n_sequences, context_len))
            }
        },
        WalkType::Random => Some(edge_walks(graph, n_sequences, context_len)),
        WalkType::Perspective => None,
    }
}

} // verus!
