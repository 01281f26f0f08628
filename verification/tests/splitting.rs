use sql_splitter::SqlSplitter;

#[test]
fn test_split_statements() {
    let input = "SELECT * FROM table1; INSERT INTO table2 VALUES ('test;test'); UPDATE table3 SET col = 1;";
    let statements = SqlSplitter::split_statements(input);
    assert_eq!(statements.len(), 3);
    assert_eq!(
        statements[1].trim(),
        "INSERT INTO table2 VALUES ('test;test')"
    );
}

#[test]
fn test_split_statements_with_escaped_quotes() {
    let input = "SELECT 'it\\'s working'; INSERT INTO table2 VALUES ('test');";
    let statements = SqlSplitter::split_statements(input);
    assert_eq!(statements.len(), 2);
    assert_eq!(statements[0].trim(), "SELECT 'it\\'s working'");
}

#[test]
fn semicolon_inside_literal_does_not_split() {
    let statements = SqlSplitter::split_statements("SELECT 'a;b'; SELECT 2;");
    assert_eq!(statements.len(), 2);
    assert_eq!(statements[0], "SELECT 'a;b'");
    assert_eq!(statements[1], "SELECT 2");
}

#[test]
fn escaped_quote_does_not_close_literal() {
    let statements = SqlSplitter::split_statements("SELECT 'it\\'s ok'; SELECT 2;");
    assert_eq!(statements.len(), 2);
    assert_eq!(statements[0], "SELECT 'it\\'s ok'");
    assert_eq!(statements[1], "SELECT 2");
}

#[test]
fn trailing_text_without_semicolon_is_kept() {
    let statements = SqlSplitter::split_statements("SELECT 1; SELECT 2");
    assert_eq!(statements, vec!["SELECT 1".to_string(), "SELECT 2".to_string()]);
}

#[test]
fn blank_segments_are_dropped() {
    let statements = SqlSplitter::split_statements("a; ;\t\n ;b;");
    assert_eq!(statements, vec!["a".to_string(), "b".to_string()]);
}

#[test]
fn empty_input_yields_no_statements() {
    assert_eq!(SqlSplitter::split_statements("").len(), 0);
    assert_eq!(SqlSplitter::split_statements("   \n\t  ").len(), 0);
}

#[test]
fn unterminated_literal_runs_to_end() {
    let statements = SqlSplitter::split_statements("SELECT 'abc");
    assert_eq!(statements, vec!["SELECT 'abc".to_string()]);
}

#[test]
fn escape_flag_persists_until_a_quote() {
    // The backslash arms the escape; it is consumed only by a quote, so the
    // quote after the escaped character does not close the literal and the
    // later semicolons stay inside it.
    let statements = SqlSplitter::split_statements("SELECT '\\a'; X;");
    assert_eq!(statements, vec!["SELECT '\\a'; X;".to_string()]);
}

#[test]
fn statements_are_trimmed() {
    let statements = SqlSplitter::split_statements("  SELECT 1  ;\n\n  SELECT 2\t;");
    assert_eq!(statements, vec!["SELECT 1".to_string(), "SELECT 2".to_string()]);
}
