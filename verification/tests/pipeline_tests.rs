use tabledecode::decode::Decoder;
use tabledecode::decode::DecoderConfig;
use tabledecode::error::PipelineError;
use tabledecode::pipeline::output_column_names;
use tabledecode::pipeline::run_pipeline;
use tabledecode::table::Column;
use tabledecode::table::Table;
use tabledecode::table::find_column;

fn rule(input_key: &str, output_key: &str) -> Decoder {
    Decoder { input_key: input_key.to_owned(), output_key: output_key.to_owned() }
}

fn col(name: &str, cells: &[&str]) -> Column {
    Column {
        name: name.to_owned(),
        cells: cells.iter().map(|s| Some((*s).to_owned())).collect(),
    }
}

/// One record with every source column the canonical projection needs.
fn input_table(sprint: &str, epic: &str) -> Table {
    Table {
        columns: vec![
            col("Summary", &["Fix bug"]),
            col("Issue key", &["ABC-1"]),
            col("Issue Type", &["Bug"]),
            col("Custom field (Story Points)", &["3"]),
            col("Priority", &["High"]),
            col("Custom field (Epic Link)", &[epic]),
            col("Fix Version/s", &["1.0"]),
            col("Description", &["It is broken"]),
            col("Sprint", &[sprint]),
        ],
    }
}

fn scenario_config() -> DecoderConfig {
    DecoderConfig {
        sprints: vec![rule("Sprint-2024-05-S5", "2024-05-S5")],
        epics: Vec::new(),
    }
}

fn cell(out: &Table, name: &str, row: usize) -> String {
    let i = find_column(out, name).expect("column should exist");
    out.columns[i].cells[row].clone().expect("cell should be present")
}

#[test]
fn end_to_end_scenario_decodes_and_composes() {
    let table = input_table("Sprint-2024-05-S5", "EPIC-9");
    let out = run_pipeline(&table, &scenario_config(), " - ").unwrap();
    assert_eq!(cell(&out, "Sprint Output", 0), "2024-05-S5");
    assert_eq!(cell(&out, "Epic Link Output", 0), "Not Decoded");
    assert_eq!(cell(&out, "Summary Output", 0), "ABC-1 - Fix bug");
}

#[test]
fn end_to_end_unmatched_sprint_is_not_decoded() {
    let table = input_table("Sprint-XYZ", "EPIC-9");
    let out = run_pipeline(&table, &scenario_config(), " - ").unwrap();
    assert_eq!(cell(&out, "Sprint Output", 0), "Not Decoded");
}

#[test]
fn pipeline_output_has_canonical_columns_in_order() {
    let table = input_table("Sprint-2024-05-S5", "EPIC-9");
    let out = run_pipeline(&table, &scenario_config(), " - ").unwrap();
    let names = output_column_names();
    assert_eq!(out.columns.len(), names.len());
    for (c, n) in out.columns.iter().zip(names.iter()) {
        assert_eq!(&c.name, n);
    }
    assert_eq!(cell(&out, "Summary", 0), "Fix bug");
    assert_eq!(cell(&out, "Sprint", 0), "Sprint-2024-05-S5");
    assert_eq!(cell(&out, "Priority", 0), "High");
}

#[test]
fn pipeline_keeps_separator_a_parameter() {
    let table = input_table("Sprint-2024-05-S5", "EPIC-9");
    let out = run_pipeline(&table, &scenario_config(), " | ").unwrap();
    assert_eq!(cell(&out, "Summary Output", 0), "ABC-1 | Fix bug");
}

#[test]
fn pipeline_fails_without_sprint_column() {
    let mut table = input_table("Sprint-2024-05-S5", "EPIC-9");
    table.columns.retain(|c| c.name != "Sprint");
    match run_pipeline(&table, &scenario_config(), " - ") {
        Err(PipelineError::MissingColumn { name }) => assert_eq!(name, "Sprint"),
        other => panic!("expected a missing-column failure, got {:?}", other),
    }
}

#[test]
fn pipeline_fails_on_absent_sprint_cell() {
    let mut table = input_table("Sprint-2024-05-S5", "EPIC-9");
    let i = find_column(&table, "Sprint").unwrap();
    table.columns[i].cells = vec![None];
    match run_pipeline(&table, &scenario_config(), " - ") {
        Err(PipelineError::MissingCell { column, row }) => {
            assert_eq!(column, "Sprint");
            assert_eq!(row, 0);
        },
        other => panic!("expected a missing-cell failure, got {:?}", other),
    }
}

#[test]
fn pipeline_fails_on_first_missing_projected_column() {
    let mut table = input_table("Sprint-2024-05-S5", "EPIC-9");
    table.columns.retain(|c| c.name != "Priority");
    match run_pipeline(&table, &scenario_config(), " - ") {
        Err(PipelineError::MissingColumn { name }) => assert_eq!(name, "Priority"),
        other => panic!("expected a missing-column failure, got {:?}", other),
    }
}
