use sql_splitter::render::file_name;
use sql_splitter::render::serialize_batch;

#[test]
fn serializes_with_semicolons_and_blank_lines() {
    let batch = vec!["SELECT 1".to_string(), "SELECT 2".to_string()];
    assert_eq!(serialize_batch(&batch), "SELECT 1;\n\nSELECT 2;");
}

#[test]
fn serializes_a_single_statement() {
    let batch = vec!["SELECT 1".to_string()];
    assert_eq!(serialize_batch(&batch), "SELECT 1;");
}

#[test]
fn serializes_an_empty_batch_to_nothing() {
    let batch: Vec<String> = Vec::new();
    assert_eq!(serialize_batch(&batch), "");
}

#[test]
fn file_names_are_zero_padded_in_plan_order() {
    assert_eq!(file_name(1), "split_001.sql");
    assert_eq!(file_name(2), "split_002.sql");
    assert_eq!(file_name(10), "split_010.sql");
    assert_eq!(file_name(99), "split_099.sql");
    assert_eq!(file_name(100), "split_100.sql");
    assert_eq!(file_name(12345), "split_12345.sql");
}

#[test]
fn file_name_of_zero_is_all_zeros() {
    assert_eq!(file_name(0), "split_000.sql");
}

#[test]
fn tokenize_then_serialize_round_trips_clean_batches() {
    let input = "SELECT 1;\n\nSELECT 2;";
    let statements = sql_splitter::SqlSplitter::split_statements(input);
    let batch: Vec<String> = statements;
    assert_eq!(serialize_batch(&batch), input);
}
