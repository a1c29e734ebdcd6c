//! CSV files as a graph: the plan for one file (table name, headers, column names),
//! the table and column nodes of a dataset, and the `shared_column` edges between
//! columns of the same name.

use vstd::prelude::*;
use crate::ingest::{deduplicate_columns, derive_table_name, sanitize_column_name, spec_derive_table_name,
    spec_sanitize_column_name, deduplicated, views, count_prefix};
use crate::promote::ColumnStats;
use crate::text::str_is;

verus! {

/// The header row that the `csv` crate reads from a file's text, when it can.
pub uninterp spec fn csv_header_row(content: Seq<char>) -> Option<Seq<Seq<char>>>;

/// `csv::ReaderBuilder::new().has_headers(true).from_reader(..).headers()`: the header
/// row of the text, or `None` when the reader reports an error. What the reader accepts
/// is named, not restated.
#[verifier::external_body]
fn read_csv_headers(content: &str) -> (r: Option<Vec<String>>)
    ensures
        match r {
            Some(h) => csv_header_row(content@) == Some(views(h@)),
            None => csv_header_row(content@) is None,
        },
{
    let mut reader = csv::ReaderBuilder::new().has_headers(true).from_reader(content.as_bytes());
    match reader.headers() {
        Ok(h) => Some(h.iter().map(|s| s.to_string()).collect()),
        Err(_) => None,
    }
}

/// What is known of a CSV file before its data is loaded.
#[derive(Clone, Debug)]
pub struct CsvPlan {
    pub table_name: String,
    /// The headers as the file has them.
    pub headers: Vec<String>,
    /// The column names: sanitized, then made unique.
    pub columns: Vec<String>,
}

/// The sanitized names of the headers.
pub open spec fn sanitized_names(headers: Seq<Seq<char>>) -> Seq<Seq<char>> {
    headers.map_values(|h: Seq<char>| spec_sanitize_column_name(h))
}

/// Plan the table for a CSV file: its name from the file name, and its column names from
/// the header row. `None` when the headers cannot be read or there are none.
pub fn plan_csv_file(content: &str, filename: &str) -> (r: Option<CsvPlan>)
    ensures
        r is None <==> (csv_header_row(content@) is None || csv_header_row(content@)->0.len() == 0),
        r matches Some(p) ==> {
            let hs = csv_header_row(content@)->0;
            &&& p.table_name@ == spec_derive_table_name(filename@)
            &&& views(p.headers@) == hs
            &&& p.columns@.len() == hs.len()
            &&& views(p.columns@) == deduplicated(sanitized_names(hs))
        },
{
    let headers = match read_csv_headers(content) {
        Some(h) => h,
        None => return None,
    };
    if headers.len() == 0 {
        return None;
    }
    let table_name = derive_table_name(filename);
    let mut sanitized: Vec<String> = Vec::new();
    let mut i: usize = 0;
    while i < headers.len()
        invariant
            i <= headers@.len(),
            sanitized@.len() == i,
            forall|k: int| 0 <= k < i ==> #[trigger] sanitized@[k]@ == spec_sanitize_column_name(headers@[k]@),
        decreases headers@.len() - i,
    {
        sanitized.push(sanitize_column_name(headers[i].as_str()));
        i = i + 1;
    }
    assert(views(sanitized@) =~= sanitized_names(views(headers@)));
    let columns = deduplicate_columns(sanitized.as_slice());
    Some(CsvPlan { table_name, headers, columns })
}

/// The pairs `(a, b)` with `a < limit` and `names[a] == names[b]`, in order of `a`.
pub open spec fn pairs_before(names: Seq<Seq<char>>, b: int, limit: int) -> Seq<(usize, usize)>
    decreases limit,
{
    if limit <= 0 {
        Seq::empty()
    } else {
        let rest = pairs_before(names, b, limit - 1);
        if names[limit - 1] == names[b] {
            rest.push(((limit - 1) as usize, b as usize))
        } else {
            rest
        }
    }
}

/// All pairs `(a, b)` with `a < b < n` of columns with the same name: each becomes a
/// `shared_column` edge from `a` to `b`.
pub open spec fn shared_pairs(names: Seq<Seq<char>>, n: int) -> Seq<(usize, usize)>
    decreases n,
{
    if n <= 0 {
        Seq::empty()
    } else {
        shared_pairs(names, n - 1) + pairs_before(names, n - 1, n - 1)
    }
}

proof fn lemma_pairs_before(names: Seq<Seq<char>>, b: int, limit: int)
    requires
        0 <= limit <= b < names.len(),
        b <= usize::MAX,
    ensures
        forall|k: int| 0 <= k < pairs_before(names, b, limit).len() ==>
            (#[trigger] pairs_before(names, b, limit)[k]).0 < limit && pairs_before(names, b, limit)[k].1 == b
            && names[pairs_before(names, b, limit)[k].0 as int] == names[b],
        forall|a: int| 0 <= a < limit && names[a] == names[b] ==> pairs_before(names, b, limit).contains((a as usize, b as usize)),
    decreases limit,
{
    if limit > 0 {
        lemma_pairs_before(names, b, limit - 1);
        let rest = pairs_before(names, b, limit - 1);
        let cur = pairs_before(names, b, limit);
        assert forall|a: int| 0 <= a < limit && names[a] == names[b] implies cur.contains((a as usize, b as usize)) by {
            if a < limit - 1 {
                let k = choose|k: int| 0 <= k < rest.len() && rest[k] == (a as usize, b as usize);
                assert(cur[k] == rest[k]);
            } else {
                assert(cur[cur.len() - 1] == (a as usize, b as usize));
            }
        }
        assert forall|k: int| 0 <= k < cur.len() implies (#[trigger] cur[k]).0 < limit && cur[k].1 == b
            && names[cur[k].0 as int] == names[b] by {
            if k < rest.len() {
                assert(cur[k] == rest[k]);
            }
        }
    }
}

/// The `shared_column` edges are exactly the pairs of distinct columns, earlier first,
/// that have the same name.
pub proof fn law_shared_pairs_exact(names: Seq<Seq<char>>, n: int, a: int, b: int)
    requires
        0 <= n <= names.len(),
        names.len() <= usize::MAX,
        0 <= a <= usize::MAX,
        0 <= b <= usize::MAX,
    ensures
        shared_pairs(names, n).contains((a as usize, b as usize)) <==> (a < b < n && names[a] == names[b]),
    decreases n,
{
    if n > 0 {
        law_shared_pairs_exact(names, n - 1, a, b);
        lemma_pairs_before(names, n - 1, n - 1);
        let rest = shared_pairs(names, n - 1);
        let new = pairs_before(names, n - 1, n - 1);
        let all = shared_pairs(names, n);
        assert(all == rest + new);
        if all.contains((a as usize, b as usize)) {
            let k = choose|k: int| 0 <= k < all.len() && all[k] == (a as usize, b as usize);
            if k < rest.len() {
                assert(rest[k] == all[k]);
                assert(rest.contains((a as usize, b as usize)));
            } else {
                assert(new[k - rest.len()] == all[k]);
            }
        }
        if a < b < n && names[a] == names[b] {
            if b < n - 1 {
                let k = choose|k: int| 0 <= k < rest.len() && rest[k] == (a as usize, b as usize);
                assert(all[k] == rest[k]);
            } else {
                assert(new.contains((a as usize, b as usize)));
                let k = choose|k: int| 0 <= k < new.len() && new[k] == (a as usize, b as usize);
                assert(all[rest.len() + k] == new[k]);
            }
        }
    } else {
        assert(shared_pairs(names, n).len() == 0);
    }
}

/// For each of the first `n` columns, how many earlier columns share its name, summed.
/// Grouped by name, a name held by `k` columns adds `0 + 1 + ... + (k - 1)`, that is
/// `k(k-1)/2`.
pub open spec fn earlier_matches(names: Seq<Seq<char>>, n: int) -> nat
    decreases n,
{
    if n <= 0 {
        0
    } else {
        earlier_matches(names, n - 1) + count_prefix(names, n - 1, names[n - 1])
    }
}

proof fn lemma_pairs_before_len(names: Seq<Seq<char>>, b: int, limit: int)
    requires
        0 <= limit <= b < names.len(),
    ensures
        pairs_before(names, b, limit).len() == count_prefix(names, limit, names[b]),
    decreases limit,
{
    if limit > 0 {
        lemma_pairs_before_len(names, b, limit - 1);
    }
}

/// The number of `shared_column` edges: for each column, one per earlier column of the
/// same name; a name shared by `k` columns gives `k(k-1)/2` edges.
pub proof fn law_shared_pair_count(names: Seq<Seq<char>>, n: int)
    requires
        0 <= n <= names.len(),
    ensures
        shared_pairs(names, n).len() == earlier_matches(names, n),
    decreases n,
{
    if n > 0 {
        law_shared_pair_count(names, n - 1);
        lemma_pairs_before_len(names, n - 1, n - 1);
    }
}

/// `0 + 1 + ... + (k - 1)`: the pairs among `k` columns of one name.
pub open spec fn pairs_among(k: nat) -> nat
    decreases k,
{
    if k == 0 { 0 } else { pairs_among((k - 1) as nat) + (k - 1) as nat }
}

/// The distinct names among the first `n` columns, in order of first occurrence.
pub open spec fn distinct_names(names: Seq<Seq<char>>, n: int) -> Seq<Seq<char>>
    decreases n,
{
    if n <= 0 {
        Seq::empty()
    } else {
        let d = distinct_names(names, n - 1);
        if d.contains(names[n - 1]) { d } else { d.push(names[n - 1]) }
    }
}

/// For each name in `ds`, the pairs among the first `n` columns that carry it, summed.
pub open spec fn pairs_by_name(ds: Seq<Seq<char>>, names: Seq<Seq<char>>, n: int) -> nat
    decreases ds.len(),
{
    if ds.len() == 0 {
        0
    } else {
        pairs_by_name(ds.drop_last(), names, n) + pairs_among(count_prefix(names, n, ds.last()))
    }
}

proof fn lemma_distinct_names(names: Seq<Seq<char>>, n: int, x: Seq<char>)
    requires
        0 <= n <= names.len(),
    ensures
        distinct_names(names, n).no_duplicates(),
        distinct_names(names, n).contains(x) <==> count_prefix(names, n, x) > 0,
    decreases n,
{
    if n > 0 {
        lemma_distinct_names(names, n - 1, x);
        lemma_distinct_names(names, n - 1, names[n - 1]);
        let d = distinct_names(names, n - 1);
        if !d.contains(names[n - 1]) {
            let e = d.push(names[n - 1]);
            assert forall|i: int, j: int| 0 <= i < j < e.len() implies e[i] != e[j] by {
                if j == d.len() {
                    assert(d.contains(d[i]));
                }
            }
            if e.contains(x) && x != names[n - 1] {
                let k = choose|k: int| 0 <= k < e.len() && e[k] == x;
                assert(d[k] == x);
            }
            if x == names[n - 1] {
                assert(e[d.len() as int] == x);
            }
            if d.contains(x) {
                let k = choose|k: int| 0 <= k < d.len() && d[k] == x;
                assert(e[k] == x);
            }
        }
    }
}

proof fn lemma_pairs_by_name_step(ds: Seq<Seq<char>>, names: Seq<Seq<char>>, n: int)
    requires
        1 <= n <= names.len(),
        ds.no_duplicates(),
    ensures
        pairs_by_name(ds, names, n) == pairs_by_name(ds, names, n - 1)
            + (if ds.contains(names[n - 1]) { count_prefix(names, n - 1, names[n - 1]) } else { 0 }),
    decreases ds.len(),
{
    if ds.len() > 0 {
        let front = ds.drop_last();
        assert(front.no_duplicates()) by {
            assert forall|i: int, j: int| 0 <= i < j < front.len() implies front[i] != front[j] by {
                assert(front[i] == ds[i] && front[j] == ds[j]);
            }
        }
        lemma_pairs_by_name_step(front, names, n);
        let y = names[n - 1];
        let l = ds.last();
        if l == y {
            assert(!front.contains(y)) by {
                if front.contains(y) {
                    let k = choose|k: int| 0 <= k < front.len() && front[k] == y;
                    assert(ds[k] == ds[ds.len() - 1]);
                }
            }
            let k = count_prefix(names, n - 1, y);
            assert(count_prefix(names, n, y) == k + 1);
            assert(pairs_among(k + 1) == pairs_among(k) + k);
        } else {
            assert(count_prefix(names, n, l) == count_prefix(names, n - 1, l));
            if ds.contains(y) {
                let k = choose|k: int| 0 <= k < ds.len() && ds[k] == y;
                assert(front[k] == y);
            }
            if front.contains(y) {
                let k = choose|k: int| 0 <= k < front.len() && front[k] == y;
                assert(ds[k] == y);
            }
        }
    }
}

proof fn lemma_pairs_by_name_zero(ds: Seq<Seq<char>>, names: Seq<Seq<char>>)
    ensures
        pairs_by_name(ds, names, 0) == 0,
    decreases ds.len(),
{
    if ds.len() > 0 {
        lemma_pairs_by_name_zero(ds.drop_last(), names);
    }
}

/// The number of `shared_column` edges, grouped by name: a name carried by `k` columns
/// gives `pairs_among(k) = k(k-1)/2` edges, and the edges are the sum over all distinct
/// names.
pub proof fn law_shared_pairs_by_name(names: Seq<Seq<char>>, n: int)
    requires
        0 <= n <= names.len(),
    ensures
        shared_pairs(names, n).len() == pairs_by_name(distinct_names(names, n), names, n),
    decreases n,
{
    law_shared_pair_count(names, n);
    lemma_earlier_by_name(names, n);
}

proof fn lemma_earlier_by_name(names: Seq<Seq<char>>, n: int)
    requires
        0 <= n <= names.len(),
    ensures
        earlier_matches(names, n) == pairs_by_name(distinct_names(names, n), names, n),
    decreases n,
{
    if n == 0 {
        lemma_pairs_by_name_zero(distinct_names(names, 0), names);
    } else {
        lemma_earlier_by_name(names, n - 1);
        let y = names[n - 1];
        let d = distinct_names(names, n - 1);
        lemma_distinct_names(names, n - 1, y);
        lemma_pairs_by_name_step(d, names, n);
        if !d.contains(y) {
            let e = d.push(y);
            lemma_distinct_names(names, n, y);
            assert(e.drop_last() =~= d);
            assert(count_prefix(names, n - 1, y) == 0);
            assert(count_prefix(names, n, y) == 1);
            assert(pairs_among(0) == 0);
            assert(pairs_among(1) == 0);
        }
    }
}

/// `pairs_among(k)` is `k(k-1)/2`.
pub proof fn law_pairs_among(k: nat)
    ensures
        2 * pairs_among(k) == k * (k - 1),
    decreases k,
{
    if k > 0 {
        law_pairs_among((k - 1) as nat);
        assert(2 * pairs_among(k) == (k - 1) * (k - 2) + 2 * (k - 1)) by (nonlinear_arith)
            requires
                2 * pairs_among((k - 1) as nat) == (k - 1) * (k - 2),
                pairs_among(k) == pairs_among((k - 1) as nat) + (k - 1);
        assert((k - 1) * (k - 2) + 2 * (k - 1) == k * (k - 1)) by (nonlinear_arith);
    } else {
        assert(k * (k - 1) == 0) by (nonlinear_arith) requires k == 0;
    }
}

/// When all `n` columns share one name, there are `n(n-1)/2` `shared_column` edges.
pub proof fn law_shared_pair_count_one_name(names: Seq<Seq<char>>, n: int)
    requires
        0 <= n <= names.len(),
        forall|i: int| 0 <= i < n ==> #[trigger] names[i] == names[0],
    ensures
        2 * shared_pairs(names, n).len() == n * (n - 1),
    decreases n,
{
    law_shared_pair_count(names, n);
    lemma_one_name(names, n);
}

proof fn lemma_count_all_same(names: Seq<Seq<char>>, m: int)
    requires
        0 <= m <= names.len(),
        forall|i: int| 0 <= i < m ==> #[trigger] names[i] == names[0],
    ensures
        count_prefix(names, m, names[0]) == m,
    decreases m,
{
    if m > 0 {
        lemma_count_all_same(names, m - 1);
        assert(names[m - 1] == names[0]);
    }
}

proof fn lemma_one_name(names: Seq<Seq<char>>, n: int)
    requires
        0 <= n <= names.len(),
        forall|i: int| 0 <= i < n ==> #[trigger] names[i] == names[0],
    ensures
        2 * earlier_matches(names, n) == n * (n - 1),
    decreases n,
{
    if n > 0 {
        lemma_one_name(names, n - 1);
        lemma_count_all_same(names, n - 1);
        assert(names[n - 1] == names[0]);
        assert(earlier_matches(names, n) == earlier_matches(names, n - 1) + (n - 1));
        assert(2 * earlier_matches(names, n) == (n - 1) * (n - 2) + 2 * (n - 1)) by (nonlinear_arith)
            requires
                2 * earlier_matches(names, n - 1) == (n - 1) * (n - 2),
                earlier_matches(names, n) == earlier_matches(names, n - 1) + (n - 1);
        assert((n - 1) * (n - 2) + 2 * (n - 1) == n * (n - 1)) by (nonlinear_arith);
    } else {
        assert(n * (n - 1) == 0) by (nonlinear_arith) requires n == 0;
    }
}

/// The `shared_column` edges of a list of column names, as pairs of positions.
pub fn shared_column_pairs(names: &[String]) -> (out: Vec<(usize, usize)>)
    ensures
        out@ == shared_pairs(views(names@), names@.len() as int),
{
    let ghost ns = views(names@);
    let mut out: Vec<(usize, usize)> = Vec::new();
    let mut b: usize = 0;
    while b < names.len()
        invariant
            b <= names@.len(),
            ns == views(names@),
            ns.len() == names@.len(),
            out@ == shared_pairs(ns, b as int),
        decreases names@.len() - b,
    {
        let mut a: usize = 0;
        while a < b
            invariant
                a <= b < names@.len(),
                ns == views(names@),
                ns.len() == names@.len(),
                out@ == shared_pairs(ns, b as int) + pairs_before(ns, b as int, a as int),
            decreases b - a,
        {
            if str_is(names[a].as_str(), names[b].as_str()) {
                out.push((a, b));
                assert(ns[a as int] == names@[a as int]@);
                assert(ns[b as int] == names@[b as int]@);
            } else {
                assert(ns[a as int] == names@[a as int]@);
                assert(ns[b as int] == names@[b as int]@);
            }
            proof {
                assert(pairs_before(ns, b as int, a + 1) == (if ns[a as int] == ns[b as int] {
                    pairs_before(ns, b as int, a as int).push((a, b))
                } else {
                    pairs_before(ns, b as int, a as int)
                }));
            }
            a = a + 1;
        }
        b = b + 1;
    }
    out
}

/// A CSV file that was loaded, with the statistics of its columns.
#[derive(Clone, Debug)]
pub struct FileInfo {
    pub filename: String,
    pub table_name: String,
    pub schema: String,
    pub row_count: i64,
    pub column_stats: Vec<ColumnStats>,
}

/// The table node of a file.
#[derive(Clone, Copy, Debug, PartialEq, Eq, Structural)]
pub struct TableSummary {
    pub position: usize,
    pub column_count: usize,
    pub nil_total: i64,
}

/// The nodes and edges of a dataset's tables and columns.
#[derive(Clone, Debug)]
pub struct DatasetGraph {
    pub tables: Vec<TableSummary>,
    /// Every column: the table it belongs to and its name, in order.
    pub columns: Vec<(usize, String)>,
    pub shared: Vec<(usize, usize)>,
    pub node_count: usize,
    pub edge_count: usize,
}

/// The sum of the NULL counts of some columns.
pub open spec fn nil_sum(cs: Seq<ColumnStats>) -> int
    decreases cs.len(),
{
    if cs.len() == 0 {
        0
    } else {
        nil_sum(cs.drop_last()) + cs.last().nil_count
    }
}

/// The columns of the files, in order, each with the position of its file.
pub open spec fn all_columns(files: Seq<FileInfo>) -> Seq<(usize, Seq<char>)>
    decreases files.len(),
{
    if files.len() == 0 {
        Seq::empty()
    } else {
        all_columns(files.drop_last()) + files.last().column_stats@.map_values(
            |c: ColumnStats| ((files.len() - 1) as usize, c.name@))
    }
}

pub open spec fn column_names(cols: Seq<(usize, Seq<char>)>) -> Seq<Seq<char>> {
    cols.map_values(|c: (usize, Seq<char>)| c.1)
}

/// The table and column nodes of a dataset: one table node per file, one column node per
/// column, and the `shared_column` edges. `nil_totals_fit` says the NULL totals fit.
pub fn table_and_column_nodes(files: &[FileInfo]) -> (g: DatasetGraph)
    requires
        forall|i: int| 0 <= i < files@.len() ==> i64::MIN <= #[trigger] nil_sum(files@[i].column_stats@) <= i64::MAX
            && forall|k: int| 0 <= k <= files@[i].column_stats@.len() ==>
                i64::MIN <= nil_sum(#[trigger] files@[i].column_stats@.take(k)) <= i64::MAX,
        files@.len() + all_columns(files@).len() <= usize::MAX,
    ensures
        g.tables@.len() == files@.len(),
        forall|i: int| 0 <= i < files@.len() ==> #[trigger] g.tables@[i] == (TableSummary {
            position: i as usize,
            column_count: files@[i].column_stats@.len() as usize,
            nil_total: nil_sum(files@[i].column_stats@) as i64,
        }),
        g.columns@.len() == all_columns(files@).len(),
        forall|k: int| 0 <= k < g.columns@.len() ==> (#[trigger] g.columns@[k]).0 == all_columns(files@)[k].0
            && g.columns@[k].1@ == all_columns(files@)[k].1,
        g.shared@ == shared_pairs(column_names(all_columns(files@)), all_columns(files@).len() as int),
        g.node_count == files@.len() + all_columns(files@).len(),
        g.edge_count == g.shared@.len(),
        ({
            let cn = column_names(all_columns(files@));
            g.edge_count == pairs_by_name(distinct_names(cn, cn.len() as int), cn, cn.len() as int)
        }),
{
    let mut tables: Vec<TableSummary> = Vec::new();
    let mut columns: Vec<(usize, String)> = Vec::new();
    let mut names: Vec<String> = Vec::new();
    let mut f: usize = 0;
    while f < files.len()
        invariant
            f <= files@.len(),
            forall|i: int| 0 <= i < files@.len() ==> i64::MIN <= #[trigger] nil_sum(files@[i].column_stats@) <= i64::MAX
                && forall|k: int| 0 <= k <= files@[i].column_stats@.len() ==>
                    i64::MIN <= nil_sum(#[trigger] files@[i].column_stats@.take(k)) <= i64::MAX,
            files@.len() + all_columns(files@).len() <= usize::MAX,
            tables@.len() == f,
            forall|i: int| 0 <= i < f ==> #[trigger] tables@[i] == (TableSummary {
                position: i as usize,
                column_count: files@[i].column_stats@.len() as usize,
                nil_total: nil_sum(files@[i].column_stats@) as i64,
            }),
            columns@.len() == all_columns(files@.take(f as int)).len(),
            names@.len() == columns@.len(),
            forall|k: int| 0 <= k < columns@.len() ==> (#[trigger] columns@[k]).0 == all_columns(files@.take(f as int))[k].0
                && columns@[k].1@ == all_columns(files@.take(f as int))[k].1
                && names@[k]@ == columns@[k].1@,
        decreases files@.len() - f,
    {
        let ghost before_cols = all_columns(files@.take(f as int));
        assert(files@.take(f + 1).drop_last() =~= files@.take(f as int));
        assert(files@.take(f + 1).last() == files@[f as int]);
        proof {
            lemma_all_columns_prefix(files@, f as int + 1);
        }
        let stats = &files[f].column_stats;
        assert(i64::MIN <= nil_sum(files@[f as int].column_stats@) <= i64::MAX);
        let mut nil_total: i64 = 0;
        let mut c: usize = 0;
        while c < stats.len()
            invariant
                f < files@.len(),
                stats == &files@[f as int].column_stats,
                c <= stats@.len(),
                nil_total == nil_sum(stats@.take(c as int)),
                forall|k: int| 0 <= k <= stats@.len() ==> i64::MIN <= nil_sum(#[trigger] stats@.take(k)) <= i64::MAX,
                files@.len() + all_columns(files@).len() <= usize::MAX,
                all_columns(files@.take(f + 1)) == before_cols + stats@.map_values(
                    |cs: ColumnStats| (f, cs.name@)),
                all_columns(files@.take(f + 1)).len() <= all_columns(files@).len(),
                columns@.len() == before_cols.len() + c,
                names@.len() == columns@.len(),
                forall|k: int| 0 <= k < columns@.len() ==> (#[trigger] columns@[k]).0 == all_columns(files@.take(f + 1))[k].0
                    && columns@[k].1@ == all_columns(files@.take(f + 1))[k].1
                    && names@[k]@ == columns@[k].1@,
            decreases stats@.len() - c,
        {
            assert(stats@.take(c + 1).drop_last() =~= stats@.take(c as int));
            nil_total = nil_total + stats[c].nil_count;
            let name1 = stats[c].name.clone();
            let name2 = stats[c].name.clone();
            assert(name1@ == stats@[c as int].name@);
            columns.push((f, name1));
            names.push(name2);
            c = c + 1;
        }
        assert(stats@.take(stats@.len() as int) =~= stats@);
        tables.push(TableSummary { position: f, column_count: stats.len(), nil_total });
        f = f + 1;
    }
    assert(files@.take(files@.len() as int) =~= files@);
    assert forall|k: int| 0 <= k < names@.len() implies #[trigger] views(names@)[k] == column_names(all_columns(files@))[k] by {
        assert(columns@[k].1@ == all_columns(files@)[k].1);
    }
    assert(views(names@) =~= column_names(all_columns(files@)));
    let shared = shared_column_pairs(names.as_slice());
    proof {
        let cn = column_names(all_columns(files@));
        law_shared_pairs_by_name(cn, cn.len() as int);
    }
    let node_count = tables.len() + columns.len();
    let edge_count = shared.len();
    DatasetGraph { tables, columns, shared, node_count, edge_count }
}

proof fn lemma_all_columns_prefix(files: Seq<FileInfo>, n: int)
    requires
        0 <= n <= files.len(),
    ensures
        all_columns(files.take(n)).len() <= all_columns(files).len(),
    decreases files.len() - n,
{
    if n < files.len() {
        lemma_all_columns_prefix(files, n + 1);
        assert(files.take(n + 1).drop_last() =~= files.take(n));
    } else {
        assert(files.take(n) =~= files);
    }
}

/// The rows of the files, summed.
pub open spec fn row_sum(files: Seq<FileInfo>) -> int
    decreases files.len(),
{
    if files.len() == 0 {
        0
    } else {
        row_sum(files.drop_last()) + files.last().row_count
    }
}

/// What loading a directory of CSV files reports.
#[derive(Clone, Copy, Debug, PartialEq, Eq, Structural)]
pub struct DatasetTotals {
    pub files: usize,
    pub total_rows: i128,
    pub total_columns: usize,
    pub nodes: usize,
    pub edges: usize,
}

/// The totals of a dataset loaded from the files: the number of files, their rows and
/// columns summed, the nodes (the dataset node, one per file, one per column) and the
/// `shared_column` edges, `k(k-1)/2` for each name carried by `k` columns.
pub fn dataset_totals(files: &[FileInfo], graph: &DatasetGraph) -> (t: DatasetTotals)
    requires
        graph.node_count == files@.len() + all_columns(files@).len(),
        ({
            let cn = column_names(all_columns(files@));
            graph.edge_count == pairs_by_name(distinct_names(cn, cn.len() as int), cn, cn.len() as int)
        }),
        files@.len() + all_columns(files@).len() < usize::MAX,
    ensures
        t.files == files@.len(),
        t.total_rows == row_sum(files@),
        t.total_columns == all_columns(files@).len(),
        t.nodes == 1 + files@.len() + all_columns(files@).len(),
        ({
            let cn = column_names(all_columns(files@));
            t.edges == pairs_by_name(distinct_names(cn, cn.len() as int), cn, cn.len() as int)
        }),
{
    let mut rows: i128 = 0;
    let mut f: usize = 0;
    while f < files.len()
        invariant
            f <= files@.len(),
            rows == row_sum(files@.take(f as int)),
            i64::MIN * f <= rows <= i64::MAX * f,
            files@.len() <= usize::MAX,
        decreases files@.len() - f,
    {
        assert(files@.take(f + 1).drop_last() =~= files@.take(f as int));
        assert(f <= usize::MAX);
        assert(i64::MIN * (f + 1) == i64::MIN * f + i64::MIN) by (nonlinear_arith);
        assert(i64::MAX * (f + 1) == i64::MAX * f + i64::MAX) by (nonlinear_arith);
        assert(i64::MAX * f <= i64::MAX * usize::MAX) by (nonlinear_arith) requires f <= usize::MAX;
        assert(i64::MIN * f >= i64::MIN * usize::MAX) by (nonlinear_arith) requires f <= usize::MAX;
        rows = rows + files[f].row_count as i128;
        f = f + 1;
    }
    assert(files@.take(files@.len() as int) =~= files@);
    let columns = graph.node_count - files.len();
    DatasetTotals { files: files.len(), total_rows: rows, total_columns: columns, nodes: graph.node_count + 1, edges: graph.edge_count }
}

} // verus!
