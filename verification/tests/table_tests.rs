use tabledecode::compose::compose;
use tabledecode::error::PipelineError;
use tabledecode::table::Column;
use tabledecode::table::Table;
use tabledecode::table::find_column;
use tabledecode::table::project;

fn col(name: &str, cells: &[Option<&str>]) -> Column {
    Column {
        name: name.to_owned(),
        cells: cells.iter().map(|c| c.map(|s| s.to_owned())).collect(),
    }
}

#[test]
fn compose_concatenates_around_separator() {
    let a = vec![Some("ABC-1".to_owned()), Some("ABC-2".to_owned())];
    let b = vec![Some("Fix bug".to_owned()), Some("Add test".to_owned())];
    let out = compose(&a, &b, " - ");
    assert_eq!(out.len(), 2);
    assert_eq!(out[0], Some("ABC-1 - Fix bug".to_owned()));
    assert_eq!(out[1], Some("ABC-2 - Add test".to_owned()));
}

#[test]
fn compose_with_pipe_separator() {
    let a = vec![Some("X".to_owned())];
    let b = vec![Some("Y".to_owned())];
    let out = compose(&a, &b, " | ");
    assert_eq!(out[0], Some("X | Y".to_owned()));
}

#[test]
fn compose_passes_absence_through() {
    let a = vec![Some("X".to_owned()), None, None];
    let b = vec![None, Some("Y".to_owned()), None];
    let out = compose(&a, &b, "-");
    assert_eq!(out, vec![None, None, None]);
}

#[test]
fn compose_of_empty_columns_is_empty() {
    let a: Vec<Option<String>> = Vec::new();
    let b: Vec<Option<String>> = Vec::new();
    assert!(compose(&a, &b, ",").is_empty());
}

#[test]
fn find_column_first_match_by_name() {
    let t = Table {
        columns: vec![
            col("A", &[Some("1")]),
            col("B", &[Some("2")]),
            col("A", &[Some("3")]),
        ],
    };
    assert_eq!(find_column(&t, "A"), Some(0));
    assert_eq!(find_column(&t, "B"), Some(1));
    assert_eq!(find_column(&t, "C"), None);
}

#[test]
fn project_reorders_and_filters_columns() {
    let t = Table {
        columns: vec![
            col("A", &[Some("a1"), Some("a2")]),
            col("B", &[Some("b1"), Some("b2")]),
            col("C", &[None, Some("c2")]),
        ],
    };
    let names = vec!["C".to_owned(), "A".to_owned()];
    let out = project(&t, &names).unwrap();
    assert_eq!(out.columns.len(), 2);
    assert_eq!(out.columns[0].name, "C");
    assert_eq!(out.columns[0].cells, vec![None, Some("c2".to_owned())]);
    assert_eq!(out.columns[1].name, "A");
    assert_eq!(out.columns[1].cells, vec![Some("a1".to_owned()), Some("a2".to_owned())]);
}

#[test]
fn project_unknown_name_fails_whole_call() {
    let t = Table { columns: vec![col("A", &[Some("a1")])] };
    let names = vec!["A".to_owned(), "Missing".to_owned()];
    match project(&t, &names) {
        Err(PipelineError::MissingColumn { name }) => assert_eq!(name, "Missing"),
        other => panic!("expected a missing-column failure, got {:?}", other),
    }
}

#[test]
fn project_onto_no_names_yields_empty_table() {
    let t = Table { columns: vec![col("A", &[Some("a1")])] };
    let names: Vec<String> = Vec::new();
    let out = project(&t, &names).unwrap();
    assert!(out.columns.is_empty());
}
