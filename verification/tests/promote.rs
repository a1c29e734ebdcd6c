use kerai::promote::{
    column_counts, has_decimal_mark_text, is_date_text, is_float_text, is_integer_text, promote_single_column,
    ColumnCounts, ColumnType,
};

#[test]
fn integer_texts() {
    assert!(is_integer_text("42"));
    assert!(is_integer_text("-7"));
    assert!(is_integer_text("007"));
    assert!(!is_integer_text("-"));
    assert!(!is_integer_text(""));
    assert!(!is_integer_text("4.2"));
    assert!(!is_integer_text("+4"));
    assert!(!is_integer_text("1e5"));
}

#[test]
fn float_texts() {
    assert!(is_float_text("3.14"));
    assert!(is_float_text("-0.5"));
    assert!(is_float_text("12"));
    assert!(is_float_text("1e10"));
    assert!(is_float_text("2.5E-3"));
    assert!(is_float_text("7e+2"));
    assert!(!is_float_text(".5"));
    assert!(!is_float_text("5."));
    assert!(!is_float_text("1e"));
    assert!(!is_float_text("1e+"));
    assert!(!is_float_text("abc"));
    assert!(!is_float_text("1.2.3"));
    assert!(has_decimal_mark_text("1.0"));
    assert!(has_decimal_mark_text("1E3"));
    assert!(has_decimal_mark_text("hello"));
    assert!(!has_decimal_mark_text("123"));
}

#[test]
fn date_texts() {
    assert!(is_date_text("2024-01-31"));
    assert!(is_date_text("1/2/2024"));
    assert!(is_date_text("12/31/1999"));
    assert!(is_date_text("01/2/2020"));
    assert!(!is_date_text("2024-1-31"));
    assert!(!is_date_text("123/1/2020"));
    assert!(!is_date_text("1/1/20"));
    assert!(!is_date_text("2024/01/31"));
}

fn counts(non_empty: i64, integer: i64, float: i64, decimal: i64, date: i64) -> ColumnCounts {
    ColumnCounts { nil: 1, empty: 2, unique: 3, non_empty, integer, float, decimal, date }
}

#[test]
fn promotion_decisions() {
    let st = promote_single_column("score", "Score", 4, counts(10, 10, 10, 0, 0));
    assert_eq!((st.data_type, st.has_raw), (ColumnType::BigInt, false));
    assert_eq!(st.name, "score");
    assert_eq!(st.original_name, "Score");
    assert_eq!((st.position, st.nil_count, st.empty_count, st.unique_count), (4, 1, 2, 3));
    let st = promote_single_column("c", "c", 0, counts(10, 9, 9, 0, 0));
    assert_eq!((st.data_type, st.has_raw), (ColumnType::BigInt, true));
    let st = promote_single_column("c", "c", 0, counts(10, 0, 10, 4, 0));
    assert_eq!((st.data_type, st.has_raw), (ColumnType::DoublePrecision, false));
    // float-looking values without any decimal mark: not a decimal column
    let st = promote_single_column("c", "c", 0, counts(10, 0, 10, 0, 0));
    assert_eq!((st.data_type, st.has_raw), (ColumnType::Text, false));
    let st = promote_single_column("c", "c", 0, counts(10, 0, 0, 0, 7));
    assert_eq!((st.data_type, st.has_raw), (ColumnType::Date, true));
    let st = promote_single_column("c", "c", 0, counts(0, 0, 0, 0, 0));
    assert_eq!((st.data_type, st.has_raw), (ColumnType::Text, false));
}

#[test]
fn counting_values() {
    let vals = vec![
        None,
        Some(String::new()),
        Some("12".to_string()),
        Some("1.5".to_string()),
        Some("2024-02-03".to_string()),
        Some("x".to_string()),
    ];
    let c = column_counts(&vals, 4);
    assert_eq!(c, ColumnCounts { nil: 1, empty: 1, unique: 4, non_empty: 4, integer: 1, float: 2, decimal: 1, date: 1 });
    let st = promote_single_column("mixed", "mixed", 0, c);
    assert_eq!((st.data_type, st.has_raw), (ColumnType::BigInt, true));
}
