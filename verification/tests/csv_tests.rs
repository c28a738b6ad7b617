use tabledecode::csv::encode_csv;
use tabledecode::csv::parse_csv;
use tabledecode::table::Column;
use tabledecode::table::Table;

fn col(name: &str, cells: &[Option<&str>]) -> Column {
    Column {
        name: name.to_owned(),
        cells: cells.iter().map(|c| c.map(|s| s.to_owned())).collect(),
    }
}

fn assert_tables_equal(a: &Table, b: &Table) {
    assert_eq!(a.columns.len(), b.columns.len());
    for (ca, cb) in a.columns.iter().zip(b.columns.iter()) {
        assert_eq!(ca.name, cb.name);
        assert_eq!(ca.cells, cb.cells);
    }
}

#[test]
fn encode_writes_header_and_quoted_rows() {
    let t = Table {
        columns: vec![
            col("Issue key", &[Some("ABC-1")]),
            col("Summary", &[Some("Fix bug")]),
        ],
    };
    let s = encode_csv(&t);
    assert_eq!(s, "\"Issue key\",\"Summary\"\n\"ABC-1\",\"Fix bug\"\n");
}

#[test]
fn encode_doubles_quotes_and_keeps_separators_inside_fields() {
    let t = Table {
        columns: vec![col("A", &[Some("say \"hi\""), Some("a,b\nc")])],
    };
    let s = encode_csv(&t);
    assert_eq!(s, "\"A\"\n\"say \"\"hi\"\"\"\n\"a,b\nc\"\n");
}

#[test]
fn encode_writes_absent_cell_as_empty_field() {
    let t = Table { columns: vec![col("A", &[None]), col("B", &[Some("")])] };
    let s = encode_csv(&t);
    assert_eq!(s, "\"A\",\"B\"\n,\"\"\n");
}

#[test]
fn round_trip_keeps_names_rows_and_cells() {
    let t = Table {
        columns: vec![
            col("Issue key", &[Some("ABC-1"), Some("ABC-2"), None]),
            col("Summary", &[Some("a \"quoted\" one"), Some(""), Some("x,y\nz")]),
            col("", &[None, Some("Not Decoded"), Some("–")]),
        ],
    };
    let back = parse_csv(encode_csv(&t).as_str()).unwrap();
    assert_tables_equal(&t, &back);
}

#[test]
fn round_trip_keeps_empty_string_distinct_from_absent() {
    let t = Table { columns: vec![col("A", &[Some(""), None])] };
    let back = parse_csv(encode_csv(&t).as_str()).unwrap();
    assert_eq!(back.columns[0].cells, vec![Some("".to_owned()), None]);
}

#[test]
fn parse_reads_unquoted_fields() {
    let back = parse_csv("A,B\nx,\ny,z\n").unwrap();
    assert_eq!(back.columns.len(), 2);
    assert_eq!(back.columns[0].name, "A");
    assert_eq!(back.columns[1].name, "B");
    assert_eq!(back.columns[0].cells, vec![Some("x".to_owned()), Some("y".to_owned())]);
    assert_eq!(back.columns[1].cells, vec![None, Some("z".to_owned())]);
}

#[test]
fn parse_rejects_unterminated_quote() {
    assert!(parse_csv("A\n\"oops\n").is_err());
}

#[test]
fn parse_rejects_text_after_closing_quote() {
    assert!(parse_csv("A\n\"x\"y\n").is_err());
}

#[test]
fn parse_rejects_ragged_rows() {
    assert!(parse_csv("A,B\nx\n").is_err());
}

#[test]
fn parse_rejects_missing_final_newline() {
    assert!(parse_csv("A\nx").is_err());
}

#[test]
fn parse_rejects_empty_input() {
    assert!(parse_csv("").is_err());
}
