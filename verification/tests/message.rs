use cortex::golden::csv;
use cortex::message::{ids_message, parse_ids_message};

#[test]
fn messages_carry_ids() {
    assert_eq!(ids_message(&[1, 2, 3]), "ids=1,2,3");
    assert_eq!(ids_message(&[]), "ids=");
    assert_eq!(parse_ids_message("ids=1,2,3"), Some(vec![1, 2, 3]));
}

#[test]
fn messages_round_trip() {
    let ids = vec![0, 4294967295, 10, 10, 7];
    assert_eq!(parse_ids_message(&ids_message(&ids)), Some(ids));
}

#[test]
fn blank_fields_are_skipped() {
    assert_eq!(parse_ids_message("ids= 1 ,, 2\t,"), Some(vec![1, 2]));
    assert_eq!(parse_ids_message("ids=+5"), Some(vec![5]));
    assert_eq!(parse_ids_message("ids=007"), Some(vec![7]));
}

#[test]
fn other_messages_carry_nothing() {
    assert_eq!(parse_ids_message(""), None);
    assert_eq!(parse_ids_message("ids="), None);
    assert_eq!(parse_ids_message("ids= , ,"), None);
    assert_eq!(parse_ids_message("IDS=1"), None);
    assert_eq!(parse_ids_message("merge: 1,2"), None);
}

#[test]
fn one_bad_field_spoils_the_message() {
    assert_eq!(parse_ids_message("ids=1,x,3"), None);
    assert_eq!(parse_ids_message("ids=1,-2"), None);
    assert_eq!(parse_ids_message("ids=4294967296"), None);
    assert_eq!(parse_ids_message("ids=1 2"), None);
    assert_eq!(parse_ids_message("ids=+"), None);
}

#[test]
fn csv_joins_decimals() {
    assert_eq!(csv(&[0, 42, 4294967295]), "0,42,4294967295");
    assert_eq!(csv(&[]), "");
}
