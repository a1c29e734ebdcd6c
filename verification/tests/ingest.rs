use kerai::ingest::{
    camel_to_snake, deduplicate_columns, derive_table_name, insert_statements, raw_rows, raw_table_statements,
    sanitize_column_name,
};

#[test]
fn test_derive_table_name() {
    assert_eq!(derive_table_name("MTeams.csv"), "m_teams");
    // MNCAA is treated as one uppercase run (can't distinguish M+NCAA without domain knowledge)
    assert_eq!(
        derive_table_name("MNCAATourneyCompactResults.csv"),
        "mncaa_tourney_compact_results"
    );
    assert_eq!(derive_table_name("Cities.csv"), "cities");
    assert_eq!(
        derive_table_name("MRegularSeasonCompactResults.csv"),
        "m_regular_season_compact_results"
    );
    assert_eq!(
        derive_table_name("SampleSubmissionStage1.csv"),
        "sample_submission_stage1"
    );
    assert_eq!(derive_table_name("WTeams.csv"), "w_teams");
    assert_eq!(derive_table_name("MSeasons.csv"), "m_seasons");
    assert_eq!(derive_table_name("MTeamCoaches.csv"), "m_team_coaches");
    assert_eq!(derive_table_name("Conferences.csv"), "conferences");
}

#[test]
fn test_camel_to_snake() {
    assert_eq!(camel_to_snake("MTeams"), "m_teams");
    assert_eq!(camel_to_snake("NCAA"), "ncaa");
    // Runs of uppercase are kept together — M+NCAA merges
    assert_eq!(camel_to_snake("MNCAAFoo"), "mncaa_foo");
    assert_eq!(camel_to_snake("ABCDef"), "abc_def");
    assert_eq!(camel_to_snake("already_snake"), "already_snake");
}

#[test]
fn test_sanitize_column_name() {
    assert_eq!(sanitize_column_name("TeamID"), "teamid");
    assert_eq!(sanitize_column_name("Team Name"), "team_name");
    assert_eq!(sanitize_column_name("1stPlace"), "_1stplace");
    assert_eq!(sanitize_column_name("foo-bar"), "foo_bar");
}

#[test]
fn test_deduplicate_columns() {
    let cols = vec![
        "a".to_string(),
        "b".to_string(),
        "a".to_string(),
        "c".to_string(),
        "a".to_string(),
    ];
    let deduped = deduplicate_columns(&cols);
    assert_eq!(deduped, vec!["a", "b", "a_2", "c", "a_3"]);
}

#[test]
fn derive_table_name_without_csv_suffix_keeps_stem() {
    assert_eq!(derive_table_name("Data"), "data");
    assert_eq!(derive_table_name(".csv"), "");
    assert_eq!(derive_table_name("Report.CSV"), "report.csv");
}

#[test]
fn sanitize_empty_header_gives_col() {
    assert_eq!(sanitize_column_name(""), "col");
    assert_eq!(sanitize_column_name("9"), "_9");
    assert_eq!(sanitize_column_name("a b"), "a_b");
}

#[test]
fn deduplicate_counts_past_nine() {
    let cols: Vec<String> = (0..12).map(|_| "x".to_string()).collect();
    let deduped = deduplicate_columns(&cols);
    assert_eq!(deduped[0], "x");
    assert_eq!(deduped[9], "x_10");
    assert_eq!(deduped[11], "x_12");
}

#[test]
fn repeated_names_become_distinct() {
    let cols: Vec<String> = ["x", "y", "x", "x", "y"].iter().map(|s| s.to_string()).collect();
    let out = deduplicate_columns(&cols);
    assert_eq!(out, vec!["x", "y", "x_2", "x_3", "y_2"]);
    for i in 0..out.len() {
        for j in (i + 1)..out.len() {
            assert_ne!(out[i], out[j]);
        }
    }
}

#[test]
fn generated_names_skip_names_already_taken() {
    let cols: Vec<String> = ["a", "a", "a_2"].iter().map(|s| s.to_string()).collect();
    assert_eq!(deduplicate_columns(&cols), vec!["a", "a_2", "a_2_2"]);
    let cols: Vec<String> = ["a_2", "a", "a"].iter().map(|s| s.to_string()).collect();
    assert_eq!(deduplicate_columns(&cols), vec!["a_2", "a", "a_3"]);
}

fn some(s: &str) -> Option<String> {
    Some(s.to_string())
}

#[test]
fn raw_rows_fill_missing_and_empty_fields_with_null() {
    let rows = raw_rows("a,b\n1,\n2,3,4\nx\n\"it's\",\"q,r\"\n", 2);
    assert_eq!(
        rows,
        vec![
            vec![some("1"), None],
            vec![some("2"), some("3")],
            vec![some("x"), None],
            vec![some("it's"), some("q,r")],
        ]
    );
    assert!(raw_rows("a,b\n", 2).is_empty());
}

#[test]
fn insert_statements_quote_values_and_batch_by_500() {
    let cols = vec!["a".to_string(), "b\"c".to_string()];
    let rows = vec![vec![some("1"), None], vec![some("it's"), some("2")]];
    assert_eq!(
        insert_statements("s.t", &cols, &rows),
        vec!["INSERT INTO s.t (\"a\", \"b\"c\") VALUES ('1', NULL), ('it''s', '2')".to_string()]
    );
    let many: Vec<Vec<Option<String>>> = (0..1001).map(|i| vec![Some(i.to_string())]).collect();
    let stmts = insert_statements("t", &["v".to_string()], &many);
    assert_eq!(stmts.len(), 3);
    assert!(stmts[0].ends_with("('498'), ('499')"));
    assert!(stmts[1].starts_with("INSERT INTO t (\"v\") VALUES ('500'), "));
    assert_eq!(stmts[2], "INSERT INTO t (\"v\") VALUES ('1000')");
    assert!(insert_statements("t", &cols, &[]).is_empty());
}

#[test]
fn raw_table_statements_text_columns() {
    let (q, drop, create) = raw_table_statements("kaggle", "m_teams", &["team_id".to_string(), "name".to_string()]);
    assert_eq!(q, "kaggle.m_teams");
    assert_eq!(drop, "DROP TABLE IF EXISTS kaggle.m_teams CASCADE");
    assert_eq!(create, "CREATE TABLE kaggle.m_teams (\"team_id\" TEXT, \"name\" TEXT)");
}

#[test]
fn ascii_names_follow_the_naming_laws() {
    assert_eq!(camel_to_snake("already_snake_1"), "already_snake_1");
    assert_eq!(camel_to_snake("A"), "a");
    assert_eq!(camel_to_snake("MTeamsX"), "m_teams_x");
    for h in ["9 Lives!", "Team ID", "", "__x__", "Ab-Cd"] {
        let once = sanitize_column_name(h);
        assert_eq!(sanitize_column_name(&once), once);
        assert!(!once.is_empty() && !once.starts_with(|c: char| c.is_ascii_digit()));
        assert!(once.chars().all(|c| c.is_ascii_lowercase() || c.is_ascii_digit() || c == '_'));
    }
}
