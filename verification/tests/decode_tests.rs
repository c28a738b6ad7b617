use tabledecode::decode::Decoder;
use tabledecode::decode::decode_row_with;
use tabledecode::decode::transform;

fn rule(input_key: &str, output_key: &str) -> Decoder {
    Decoder { input_key: input_key.to_owned(), output_key: output_key.to_owned() }
}

#[test]
fn decode_hit_returns_output_key() {
    let table = vec![rule("Sprint-2024-05-S5", "2024-05-S5")];
    assert_eq!(decode_row_with("Sprint-2024-05-S5", &table), "2024-05-S5");
}

#[test]
fn decode_miss_returns_sentinel() {
    let table = vec![rule("Sprint-2024-05-S5", "2024-05-S5")];
    assert_eq!(decode_row_with("Sprint-XYZ", &table), "Not Decoded");
}

#[test]
fn decode_empty_table_returns_sentinel() {
    let table: Vec<Decoder> = Vec::new();
    assert_eq!(decode_row_with("anything", &table), "Not Decoded");
}

#[test]
fn decode_is_case_sensitive_and_untrimmed() {
    let table = vec![rule("Key", "Value")];
    assert_eq!(decode_row_with("key", &table), "Not Decoded");
    assert_eq!(decode_row_with(" Key", &table), "Not Decoded");
    assert_eq!(decode_row_with("Key", &table), "Value");
}

#[test]
fn decode_duplicate_keys_first_match_wins() {
    let table = vec![rule("K", "first"), rule("K", "second")];
    assert_eq!(decode_row_with("K", &table), "first");
}

#[test]
fn transform_decodes_every_cell_in_order() {
    let table = vec![rule("a", "A"), rule("b", "B")];
    let cells = vec![
        Some("a".to_owned()),
        Some("b".to_owned()),
        Some("c".to_owned()),
        Some("a".to_owned()),
    ];
    let out = transform(&cells, &table).unwrap();
    assert_eq!(out.len(), cells.len());
    assert_eq!(out[0], Some("A".to_owned()));
    assert_eq!(out[1], Some("B".to_owned()));
    assert_eq!(out[2], Some("Not Decoded".to_owned()));
    assert_eq!(out[3], Some("A".to_owned()));
}

#[test]
fn transform_of_empty_column_is_empty() {
    let table = vec![rule("a", "A")];
    let cells: Vec<Option<String>> = Vec::new();
    let out = transform(&cells, &table).unwrap();
    assert!(out.is_empty());
}

#[test]
fn transform_fails_on_first_missing_cell() {
    let table = vec![rule("a", "A")];
    let cells = vec![Some("a".to_owned()), None, None];
    assert_eq!(transform(&cells, &table), Err(1));
}
