use sql_splitter::plan::plan_batches;
use sql_splitter::SqlSplitter;

fn stmts(v: &[&str]) -> Vec<String> {
    v.iter().map(|s| s.to_string()).collect()
}

#[test]
fn packs_in_order_under_the_budget() {
    // Each statement is 8 bytes, so it contributes 9; two fit in 20, the
    // third starts the next batch.
    let statements = stmts(&["SELECT 1", "SELECT 2", "SELECT 3"]);
    let batches = plan_batches(&statements, 20);
    assert_eq!(batches.len(), 2);
    assert_eq!(batches[0], stmts(&["SELECT 1", "SELECT 2"]));
    assert_eq!(batches[1], stmts(&["SELECT 3"]));
}

#[test]
fn budget_boundary_is_exact() {
    let statements = stmts(&["SELECT 1", "SELECT 2"]);
    // 9 + 9 == 18 fits a budget of 18 exactly...
    assert_eq!(plan_batches(&statements, 18).len(), 1);
    // ...and not a budget of 17.
    assert_eq!(plan_batches(&statements, 17).len(), 2);
}

#[test]
fn oversized_statement_stands_alone() {
    let long = "SELECT 'AAAAAAAAAAAAAAAAAAAA'";
    let statements = stmts(&[long, "B", long]);
    let batches = plan_batches(&statements, 10);
    assert_eq!(batches.len(), 3);
    assert_eq!(batches[0], stmts(&[long]));
    assert_eq!(batches[1], stmts(&["B"]));
    assert_eq!(batches[2], stmts(&[long]));
}

#[test]
fn zero_budget_gives_one_statement_per_batch() {
    let statements = stmts(&["a", "bb", "ccc"]);
    let batches = plan_batches(&statements, 0);
    assert_eq!(batches.len(), 3);
    for (batch, stmt) in batches.iter().zip(statements.iter()) {
        assert_eq!(batch, &vec![stmt.clone()]);
    }
}

#[test]
fn concatenated_batches_restore_the_statements() {
    let statements = stmts(&["SELECT 1", "SELECT 22", "SELECT 333", "SELECT 4444"]);
    let batches = plan_batches(&statements, 25);
    let mut restored: Vec<String> = Vec::new();
    for batch in &batches {
        restored.extend(batch.iter().cloned());
    }
    assert_eq!(restored, statements);
}

#[test]
fn planning_twice_gives_the_same_plan() {
    let statements = stmts(&["SELECT 1", "SELECT 22", "SELECT 333"]);
    let first = plan_batches(&statements, 15);
    let second = plan_batches(&statements, 15);
    assert_eq!(first, second);
}

#[test]
fn multibyte_statements_are_charged_in_bytes() {
    // Four euro signs are twelve UTF-8 bytes, so one statement contributes
    // thirteen: two such statements do not share a batch of 25.
    let statements = stmts(&["€€€€", "€€€€"]);
    assert_eq!(plan_batches(&statements, 25).len(), 2);
    assert_eq!(plan_batches(&statements, 26).len(), 1);
}

#[test]
fn plan_content_runs_the_whole_pipeline() {
    let splitter = SqlSplitter::new("out", 1, 2);
    let a = format!("SELECT '{}'", "A".repeat(600));
    let b = format!("SELECT '{}'", "B".repeat(600));
    let content = format!("{};\n{};\n", a, b);
    let batches = splitter.plan_content(&content);
    assert_eq!(batches.len(), 2);
    assert_eq!(batches[0], vec![a]);
    assert_eq!(batches[1], vec![b]);
}

#[test]
fn plan_content_keeps_small_scripts_whole() {
    let splitter = SqlSplitter::new("out", 1, 4);
    let batches = splitter.plan_content("SELECT 1; SELECT 2; SELECT 3;");
    assert_eq!(batches.len(), 1);
    assert_eq!(
        batches[0],
        vec!["SELECT 1".to_string(), "SELECT 2".to_string(), "SELECT 3".to_string()]
    );
}

#[test]
fn new_keeps_its_configuration() {
    let splitter = SqlSplitter::new("some/dir", 7, 3);
    assert_eq!(splitter.max_size_kb, 7);
    assert_eq!(splitter.output_dir, "some/dir");
    assert_eq!(splitter.concurrent_writes, 3);
}
