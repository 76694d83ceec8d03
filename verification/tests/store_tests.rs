use contact_manager::store::{Record, Records};

fn rec(id: i64, name: &str, email: Option<&str>) -> Record {
    Record { id, name: name.to_string(), email: email.map(|e| e.to_string()) }
}

#[test]
fn next_id_on_ids_1_3_5_is_6() {
    let mut recs = Records::new();
    recs.add(rec(1, "Alice", None));
    recs.add(rec(3, "Bob", None));
    recs.add(rec(5, "Carol", None));
    assert_eq!(recs.next_id(), 6);
}

#[test]
fn next_id_on_empty_store_is_1() {
    let recs = Records::new();
    assert_eq!(recs.next_id(), 1);
}

#[test]
fn next_id_after_negative_id() {
    let mut recs = Records::new();
    recs.add(rec(-5, "Neg", None));
    assert_eq!(recs.next_id(), -4);
}

#[test]
fn into_vec_is_sorted_by_id() {
    let mut recs = Records::new();
    recs.add(rec(5, "Carol", None));
    recs.add(rec(1, "Alice", None));
    recs.add(rec(3, "Bob", None));
    let list = recs.into_vec();
    let ids: Vec<i64> = list.iter().map(|r| r.id).collect();
    assert_eq!(ids, vec![1, 3, 5]);
}

#[test]
fn add_overwrites_record_with_same_id() {
    let mut recs = Records::new();
    recs.add(rec(5, "Old", Some("old@x.com")));
    recs.add(rec(5, "New", None));
    let list = recs.into_vec();
    assert_eq!(list.len(), 1);
    assert_eq!(list[0].id, 5);
    assert_eq!(list[0].name, "New");
    assert_eq!(list[0].email, None);
}

#[test]
fn added_record_is_found_once_by_its_id() {
    let mut recs = Records::new();
    recs.add(rec(2, "Alice", None));
    recs.add(rec(4, "Bob", None));
    let found: Vec<Record> = recs.into_vec().into_iter().filter(|r| r.id == 2).collect();
    assert_eq!(found.len(), 1);
    assert_eq!(found[0].name, "Alice");
}

#[test]
fn removed_record_is_found_no_more() {
    let mut recs = Records::new();
    recs.add(rec(2, "Alice", Some("alice@x.com")));
    let removed = recs.remove(2);
    assert!(removed.is_some());
    let removed = removed.unwrap();
    assert_eq!(removed.id, 2);
    assert_eq!(removed.name, "Alice");
    assert!(recs.remove(2).is_none());
    assert_eq!(recs.into_vec().len(), 0);
}

#[test]
fn remove_missing_id_reports_not_found() {
    let mut recs = Records::new();
    recs.add(rec(1, "Alice", None));
    assert!(recs.remove(9).is_none());
    assert_eq!(recs.into_vec().len(), 1);
}

#[test]
fn search_matches_case_insensitively() {
    let mut recs = Records::new();
    recs.add(rec(1, "Alice", None));
    recs.add(rec(2, "alicia", None));
    recs.add(rec(3, "Bob", None));
    let hits = recs.search("ali");
    let names: Vec<String> = hits.iter().map(|r| r.name.clone()).collect();
    assert_eq!(names, vec!["Alice".to_string(), "alicia".to_string()]);
}

#[test]
fn search_with_uppercase_query_still_matches() {
    let mut recs = Records::new();
    recs.add(rec(1, "alice", None));
    let hits = recs.search("ALI");
    assert_eq!(hits.len(), 1);
    assert_eq!(hits[0].name, "alice");
}

#[test]
fn search_without_match_is_empty() {
    let mut recs = Records::new();
    recs.add(rec(1, "Alice", None));
    assert!(recs.search("zz").is_empty());
}

#[test]
fn edit_overwrites_name_and_clears_email() {
    let mut recs = Records::new();
    recs.add(rec(7, "Old", Some("old@x.com")));
    recs.edit(7, "NewName", None);
    let list = recs.into_vec();
    assert_eq!(list.len(), 1);
    assert_eq!(list[0].id, 7);
    assert_eq!(list[0].name, "NewName");
    assert_eq!(list[0].email, None);
}

#[test]
fn edit_at_fresh_id_inserts() {
    let mut recs = Records::new();
    recs.edit(9, "Fresh", Some("f@x.com".to_string()));
    let list = recs.into_vec();
    assert_eq!(list.len(), 1);
    assert_eq!(list[0].id, 9);
    assert_eq!(list[0].name, "Fresh");
    assert_eq!(list[0].email.as_deref(), Some("f@x.com"));
}
