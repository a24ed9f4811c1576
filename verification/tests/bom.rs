//! The bill of materials as CSV.

use alladin_pcb::bom::{comes_before, csv_field, to_csv, BomRow};

#[test]
fn to_csv_has_the_exact_header_jlcpcb_expects() {
    assert!(to_csv(&[]).starts_with("Comment,Designator,Footprint,LCSC Part #\n"));
}

#[test]
fn to_csv_quotes_a_designator_list_only_because_it_contains_a_comma() {
    let rows = vec![BomRow {
        comment: "10k".to_string(),
        designators: vec!["R1".to_string(), "R2".to_string()],
        footprint: "0603".to_string(),
        lcsc_part_number: Some("C25804".to_string()),
    }];
    let csv = to_csv(&rows);
    assert_eq!(csv, "Comment,Designator,Footprint,LCSC Part #\n10k,\"R1, R2\",0603,C25804\n");
}

#[test]
fn to_csv_leaves_the_lcsc_column_empty_for_a_part_with_no_known_part_number() {
    let rows = vec![BomRow {
        comment: "2-pin header".to_string(),
        designators: vec!["P1".to_string()],
        footprint: "2-pin THT".to_string(),
        lcsc_part_number: None,
    }];
    let csv = to_csv(&rows);
    assert!(csv.ends_with("2-pin header,P1,2-pin THT,\n"));
}

#[test]
fn a_quoted_field_doubles_its_quotes() {
    assert_eq!(csv_field("plain"), "plain");
    assert_eq!(csv_field("a\"b"), "\"a\"\"b\"");
    assert_eq!(csv_field("a\nb"), "\"a\nb\"");
}

#[test]
fn texts_are_ordered_character_by_character() {
    assert!(comes_before("P1", "P2"));
    assert!(comes_before("P1", "P10"));
    assert!(comes_before("P10", "P2"));
    assert!(!comes_before("P2", "P10"));
    assert!(comes_before("P", "P"));
}
