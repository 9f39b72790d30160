use s3_csv_agg::aggregate::{aggregate, AggError, AggregationPlan, GroupCount};

fn csv(text: &str) -> Vec<u8> {
    text.as_bytes().to_vec()
}

fn col(name: &str) -> Vec<u8> {
    name.as_bytes().to_vec()
}

fn row(key: &str, count: usize) -> GroupCount {
    GroupCount { key: key.as_bytes().to_vec(), count }
}

#[test]
fn counts_categories_sorted_ascending() {
    let data = csv("SIC_CODE_CATEGORY\nA\nB\nA\nC\nB\nA\n");
    let out = aggregate(&data, &col("SIC_CODE_CATEGORY")).unwrap();
    assert_eq!(out, vec![row("A", 3), row("B", 2), row("C", 1)]);
}

#[test]
fn counts_categories_without_trailing_newline() {
    let data = csv("SIC_CODE_CATEGORY\nA\nB\nA\nC\nB\nA");
    let out = aggregate(&data, &col("SIC_CODE_CATEGORY")).unwrap();
    assert_eq!(out, vec![row("A", 3), row("B", 2), row("C", 1)]);
}

#[test]
fn sorts_unsorted_categories() {
    let data = csv("k\nzeta\nalpha\nmid\nalpha\n");
    let out = aggregate(&data, &col("k")).unwrap();
    assert_eq!(out, vec![row("alpha", 2), row("mid", 1), row("zeta", 1)]);
}

#[test]
fn picks_the_named_column_among_several() {
    let data = csv("id,SIC_CODE_CATEGORY,name\n1,X,foo\n2,Y,bar\n3,X,baz\n");
    let out = aggregate(&data, &col("SIC_CODE_CATEGORY")).unwrap();
    assert_eq!(out, vec![row("X", 2), row("Y", 1)]);
}

#[test]
fn missing_column_is_a_schema_error() {
    let data = csv("id,name\n1,foo\n");
    let r = aggregate(&data, &col("SIC_CODE_CATEGORY"));
    assert_eq!(r, Err(AggError::MissingColumn));
}

#[test]
fn header_only_gives_empty_table() {
    let data = csv("SIC_CODE_CATEGORY\n");
    let out = aggregate(&data, &col("SIC_CODE_CATEGORY")).unwrap();
    assert_eq!(out, Vec::<GroupCount>::new());
}

#[test]
fn empty_file_is_an_error() {
    let data: Vec<u8> = Vec::new();
    let r = aggregate(&data, &col("SIC_CODE_CATEGORY"));
    assert_eq!(r, Err(AggError::EmptyInput));
}

#[test]
fn ragged_row_is_a_parse_error() {
    let data = csv("a,b\n1,2\n3\n");
    let r = aggregate(&data, &col("a"));
    assert_eq!(r, Err(AggError::RaggedRow));
}

#[test]
fn crlf_line_endings_read_like_lf() {
    let data = csv("SIC_CODE_CATEGORY\r\nA\r\nB\r\nA\r\n");
    let out = aggregate(&data, &col("SIC_CODE_CATEGORY")).unwrap();
    assert_eq!(out, vec![row("A", 2), row("B", 1)]);
}

#[test]
fn empty_field_values_group_together() {
    let data = csv("k,v\n,1\n,2\nx,3\n");
    let out = aggregate(&data, &col("k")).unwrap();
    assert_eq!(out, vec![row("", 2), row("x", 1)]);
}

#[test]
fn first_matching_header_field_counts() {
    let data = csv("k,k\na,b\na,c\n");
    let out = aggregate(&data, &col("k")).unwrap();
    assert_eq!(out, vec![row("a", 2)]);
}

#[test]
fn a_plan_runs_the_same_aggregation() {
    let plan = AggregationPlan::new(col("SIC_CODE_CATEGORY"));
    let data = csv("SIC_CODE_CATEGORY\nA\nB\nA\nC\nB\nA\n");
    let out = plan.run(&data).unwrap();
    assert_eq!(out, vec![row("A", 3), row("B", 2), row("C", 1)]);
    let header_only = csv("SIC_CODE_CATEGORY\n");
    assert_eq!(plan.run(&header_only).unwrap(), Vec::<GroupCount>::new());
}

#[test]
fn single_category_many_rows() {
    let data = csv("k\nsame\nsame\nsame\nsame\n");
    let out = aggregate(&data, &col("k")).unwrap();
    assert_eq!(out, vec![row("same", 4)]);
}
