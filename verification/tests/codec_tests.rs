use contact_manager::codec::{parse_record, parse_records, render_records, ParseError};
use contact_manager::store::{Record, Records};

fn rec(id: i64, name: &str, email: Option<&str>) -> Record {
    Record { id, name: name.to_string(), email: email.map(|e| e.to_string()) }
}

#[test]
fn parse_line_with_email() {
    let r = parse_record("3,Alice,alice@x.com").unwrap();
    assert_eq!(r.id, 3);
    assert_eq!(r.name, "Alice");
    assert_eq!(r.email.as_deref(), Some("alice@x.com"));
}

#[test]
fn parse_line_with_bad_id_is_invalid() {
    let e = parse_record("x,Bob,").unwrap_err();
    assert!(matches!(e, ParseError::InvalidId));
    assert_eq!(e.message(), "invalid id");
}

#[test]
fn parse_line_with_empty_email_has_none() {
    let r = parse_record("3,Bob,").unwrap();
    assert_eq!(r.id, 3);
    assert_eq!(r.name, "Bob");
    assert_eq!(r.email, None);
}

#[test]
fn parse_line_without_email_field() {
    let r = parse_record("4,Dana").unwrap();
    assert_eq!(r.id, 4);
    assert_eq!(r.name, "Dana");
    assert_eq!(r.email, None);
}

#[test]
fn parse_line_with_missing_name() {
    let e = parse_record("5,").unwrap_err();
    assert!(matches!(e, ParseError::MissingField(ref f) if f == "name"));
    assert_eq!(e.message(), "missing fields name");
    let e = parse_record("5").unwrap_err();
    assert!(matches!(e, ParseError::MissingField(ref f) if f == "name"));
}

#[test]
fn parse_line_with_empty_text_is_invalid() {
    let e = parse_record("").unwrap_err();
    assert!(matches!(e, ParseError::InvalidId));
}

#[test]
fn parse_extreme_ids() {
    let r = parse_record("9223372036854775807,Max,").unwrap();
    assert_eq!(r.id, i64::MAX);
    let r = parse_record("-9223372036854775808,Min,").unwrap();
    assert_eq!(r.id, i64::MIN);
    let r = parse_record("+42,Plus,").unwrap();
    assert_eq!(r.id, 42);
    let e = parse_record("9223372036854775808,Big,").unwrap_err();
    assert!(matches!(e, ParseError::InvalidId));
    let e = parse_record("-,Dash,").unwrap_err();
    assert!(matches!(e, ParseError::InvalidId));
}

#[test]
fn render_writes_header_and_sorted_lines() {
    let mut recs = Records::new();
    recs.add(rec(2, "Bob", None));
    recs.add(rec(1, "Alice", Some("a@x")));
    let text = render_records(recs);
    assert_eq!(text, "id,name,email\n1,Alice,a@x\n2,Bob,\n");
}

#[test]
fn render_of_empty_store_is_header_only() {
    let recs = Records::new();
    assert_eq!(render_records(recs), "id,name,email\n");
}

#[test]
fn load_skips_bad_lines_and_reports_them() {
    let text = "id,name,email\n1,Alice,a@x\nx,Bob,\n\n3,Carol,\n";
    let (recs, issues) = parse_records(text);
    let list = recs.into_vec();
    let ids: Vec<i64> = list.iter().map(|r| r.id).collect();
    assert_eq!(ids, vec![1, 3]);
    assert_eq!(issues.len(), 2);
    assert_eq!(issues[0].line_no, 1);
    assert_eq!(issues[0].content, "id,name,email");
    assert!(matches!(issues[0].error, ParseError::InvalidId));
    assert_eq!(issues[1].line_no, 3);
    assert_eq!(issues[1].content, "x,Bob,");
    assert!(matches!(issues[1].error, ParseError::InvalidId));
}

#[test]
fn later_line_with_same_id_wins() {
    let text = "1,Alice,\n1,Alicia,\n";
    let (recs, _) = parse_records(text);
    let list = recs.into_vec();
    assert_eq!(list.len(), 1);
    assert_eq!(list[0].name, "Alicia");
}

#[test]
fn round_trip_preserves_comma_free_fields() {
    let mut recs = Records::new();
    recs.add(rec(1, "Alice", Some("alice@x.com")));
    recs.add(rec(2, "Bob", None));
    recs.add(rec(-3, "Neg", Some("n@x")));
    let text = render_records(recs);
    let (loaded, issues) = parse_records(&text);
    assert_eq!(issues.len(), 1);
    assert_eq!(issues[0].line_no, 1);
    let list = loaded.into_vec();
    assert_eq!(list.len(), 3);
    assert_eq!(list[0].id, -3);
    assert_eq!(list[0].name, "Neg");
    assert_eq!(list[0].email.as_deref(), Some("n@x"));
    assert_eq!(list[1].id, 1);
    assert_eq!(list[1].name, "Alice");
    assert_eq!(list[1].email.as_deref(), Some("alice@x.com"));
    assert_eq!(list[2].id, 2);
    assert_eq!(list[2].name, "Bob");
    assert_eq!(list[2].email, None);
}

#[test]
fn round_trip_corrupts_field_holding_a_comma() {
    let mut recs = Records::new();
    recs.add(rec(1, "Doe, John", None));
    let text = render_records(recs);
    let (loaded, _) = parse_records(&text);
    let list = loaded.into_vec();
    assert_eq!(list.len(), 1);
    assert_eq!(list[0].name, "Doe");
    assert_eq!(list[0].email.as_deref(), Some(" John"));
}
