use contacts::record::Record;
use contacts::store::Records;

fn rec(id: i64, name: &str, email: Option<&str>) -> Record {
    Record { id, name: name.to_string(), email: email.map(|e| e.to_string()) }
}

fn ids(recs: Records) -> Vec<i64> {
    recs.into_vec().iter().map(|r| r.id).collect()
}

#[test]
fn next_id_after_largest() {
    let mut recs = Records::new();
    recs.add(rec(3, "C", None));
    recs.add(rec(7, "G", None));
    recs.add(rec(2, "B", None));
    assert_eq!(recs.next_id(), 8);
}

#[test]
fn next_id_empty_is_one() {
    let recs = Records::new();
    assert_eq!(recs.next_id(), 1);
    assert_eq!(recs.last_id(), None);
}

#[test]
fn next_id_negative_ids() {
    let mut recs = Records::new();
    recs.add(rec(-5, "N", None));
    assert_eq!(recs.next_id(), -4);
}

#[test]
fn add_overwrites_same_id() {
    let mut recs = Records::new();
    recs.add(rec(1, "Alice", None));
    recs.add(rec(1, "Alicia", Some("a@x.com")));
    let out = recs.into_vec();
    assert_eq!(out.len(), 1);
    assert_eq!(out[0].name, "Alicia");
    assert_eq!(out[0].email.as_deref(), Some("a@x.com"));
}

#[test]
fn edit_is_upsert() {
    let mut recs = Records::new();
    recs.add(rec(2, "Bob", None));
    recs.edit(2, "Robert", Some("r@x.com".to_string()));
    recs.edit(9, "New", None);
    let out = recs.into_vec();
    assert_eq!(out.len(), 2);
    assert_eq!(out[0].id, 2);
    assert_eq!(out[0].name, "Robert");
    assert_eq!(out[1].id, 9);
    assert_eq!(out[1].email, None);
}

#[test]
fn export_unique_and_sorted() {
    let mut recs = Records::new();
    for id in [5i64, 1, 9, 5, 3, 1, 7] {
        recs.add(rec(id, "X", None));
    }
    recs.edit(4, "Y", None);
    recs.edit(9, "Z", None);
    assert_eq!(ids(recs), vec![1, 3, 4, 5, 7, 9]);
}

#[test]
fn remove_missing_leaves_store() {
    let mut recs = Records::new();
    recs.add(rec(1, "A", None));
    recs.add(rec(2, "B", None));
    assert!(!recs.remove(3));
    assert_eq!(ids(recs), vec![1, 2]);
}

#[test]
fn remove_existing() {
    let mut recs = Records::new();
    recs.add(rec(1, "A", None));
    recs.add(rec(2, "B", None));
    assert!(recs.remove(1));
    assert!(!recs.remove(1));
    assert_eq!(ids(recs), vec![2]);
}

#[test]
fn search_ignores_case() {
    let mut recs = Records::new();
    recs.add(rec(1, "Alice", None));
    recs.add(rec(2, "Bob", None));
    recs.add(rec(3, "Malice", None));
    let hits: Vec<i64> = recs.search("ali").iter().map(|r| r.id).collect();
    assert_eq!(hits, vec![1, 3]);
    let hits: Vec<i64> = recs.search("ALICE").iter().map(|r| r.id).collect();
    assert_eq!(hits, vec![1, 3]);
    assert!(recs.search("zed").is_empty());
}

#[test]
fn search_empty_query_matches_all() {
    let mut recs = Records::new();
    recs.add(rec(4, "Dana", None));
    recs.add(rec(1, "Alice", None));
    let hits: Vec<i64> = recs.search("").iter().map(|r| r.id).collect();
    assert_eq!(hits, vec![1, 4]);
}

#[test]
fn search_matches_name_only() {
    let mut recs = Records::new();
    recs.add(rec(1, "Alice", Some("bob@x.com")));
    assert!(recs.search("bob").is_empty());
}

#[test]
fn coordinate_is_fixed() {
    assert_eq!(contacts::coordinate(), (1, 7));
}

#[test]
fn add_next_uses_next_id() {
    let mut recs = Records::new();
    assert_eq!(recs.add_next("Ann".to_string(), None), Some(1));
    recs.add(rec(7, "G", None));
    assert_eq!(recs.add_next("Cy".to_string(), Some("c@x.com".to_string())), Some(8));
    let out = recs.into_vec();
    assert_eq!(out.len(), 3);
    assert_eq!(out[2].name, "Cy");
}

#[test]
fn add_next_refuses_when_ids_run_out() {
    let mut recs = Records::new();
    recs.add(rec(i64::MAX, "Last", None));
    assert_eq!(recs.last_id(), Some(i64::MAX));
    assert_eq!(recs.add_next("More".to_string(), None), None);
    assert_eq!(ids(recs), vec![i64::MAX]);
}
