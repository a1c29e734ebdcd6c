use kerai::csv_graph::{dataset_totals, plan_csv_file, shared_column_pairs, table_and_column_nodes, DatasetTotals, FileInfo, TableSummary};
use kerai::promote::{ColumnStats, ColumnType};

#[test]
fn plan_from_headers() {
    let p = plan_csv_file("Team ID,Name,Name,1st\n1,a,b,c\n", "MTeams.csv").unwrap();
    assert_eq!(p.table_name, "m_teams");
    assert_eq!(p.headers, vec!["Team ID", "Name", "Name", "1st"]);
    assert_eq!(p.columns, vec!["team_id", "name", "name_2", "_1st"]);
    assert!(plan_csv_file("", "Empty.csv").is_none());
}

#[test]
fn shared_columns_are_all_pairs() {
    let names: Vec<String> = ["season", "team", "season", "score", "season"].iter().map(|s| s.to_string()).collect();
    let pairs = shared_column_pairs(&names);
    assert_eq!(pairs, vec![(0, 2), (0, 4), (2, 4)]);
    assert!(shared_column_pairs(&[]).is_empty());
}

fn col(name: &str, nil: i64) -> ColumnStats {
    ColumnStats {
        name: name.to_string(),
        original_name: name.to_string(),
        position: 0,
        data_type: ColumnType::Text,
        has_raw: false,
        nil_count: nil,
        empty_count: 0,
        unique_count: 0,
        min_val: None,
        max_val: None,
    }
}

#[test]
fn dataset_graph() {
    let files = vec![
        FileInfo {
            filename: "A.csv".to_string(),
            table_name: "a".to_string(),
            schema: "s".to_string(),
            row_count: 3,
            column_stats: vec![col("id", 1), col("season", 2)],
        },
        FileInfo {
            filename: "B.csv".to_string(),
            table_name: "b".to_string(),
            schema: "s".to_string(),
            row_count: 5,
            column_stats: vec![col("season", 0), col("x", 4)],
        },
    ];
    let g = table_and_column_nodes(&files);
    assert_eq!(
        g.tables,
        vec![
            TableSummary { position: 0, column_count: 2, nil_total: 3 },
            TableSummary { position: 1, column_count: 2, nil_total: 4 },
        ]
    );
    assert_eq!(g.columns.len(), 4);
    assert_eq!(g.columns[2], (1, "season".to_string()));
    assert_eq!(g.shared, vec![(1, 2)]);
    assert_eq!(g.node_count, 6);
    assert_eq!(g.edge_count, 1);
}

#[test]
fn directory_totals() {
    let file = |name: &str, rows: i64, cols: &[&str]| FileInfo {
        filename: format!("{}.csv", name),
        table_name: name.to_string(),
        schema: "s".to_string(),
        row_count: rows,
        column_stats: cols.iter().map(|c| col(c, 0)).collect(),
    };
    let files = vec![file("a", 10, &["id", "name"]), file("b", 7, &["id", "id", "x"]), file("c", 1, &["name"])];
    let g = table_and_column_nodes(&files);
    // "id" on 3 columns gives 3 edges, "name" on 2 gives 1
    assert_eq!(
        dataset_totals(&files, &g),
        DatasetTotals { files: 3, total_rows: 18, total_columns: 6, nodes: 1 + 3 + 6, edges: 4 }
    );
    let none: Vec<FileInfo> = Vec::new();
    let g0 = table_and_column_nodes(&none);
    assert_eq!(dataset_totals(&none, &g0), DatasetTotals { files: 0, total_rows: 0, total_columns: 0, nodes: 1, edges: 0 });
}
