use npass::store::{Entry, Store, StoreError};

#[test]
fn set_get_and_overwrite_rules() {
    let mut s = Store::default();
    assert!(s.set("x", "v", false).is_ok());
    assert_eq!(s.get("x").map(|e| e.value.as_str()), Some("v"));

    let second = s.set("x", "v2", false);
    assert_eq!(second, Err(StoreError::AlreadyExists));
    assert_eq!(s.get("x").map(|e| e.value.as_str()), Some("v"));

    assert!(s.set("x", "v2", true).is_ok());
    assert_eq!(s.get("x").map(|e| e.value.as_str()), Some("v2"));
}

#[test]
fn get_absent_is_none() {
    let s = Store::default();
    assert!(s.get("nothing").is_none());
}

#[test]
fn remove_present_and_missing() {
    let mut s = Store::default();
    s.set("x", "v", false).expect("set x");
    s.set("y", "w", false).expect("set y");

    let e = s.remove("x").expect("x was present");
    assert_eq!(e.name, "x");
    assert_eq!(e.value, "v");
    assert!(s.get("x").is_none());
    assert_eq!(s.get("y").map(|e| e.value.as_str()), Some("w"));

    assert!(s.remove("missing").is_none());
    assert_eq!(s.entries.len(), 1);
}

#[test]
fn backup_then_restore_by_hand() {
    let mut s = Store::default();
    s.set("a", "1", false).expect("set a");
    let removed = s.remove("a").expect("a was present");
    s.backup_entry(removed);
    assert_eq!(s.backups.len(), 1);

    let back = s.remove_backup("a").expect("a was in backups");
    assert_eq!(back.name, "a");
    assert_eq!(back.value, "1");
    s.set(&back.name.clone(), &back.value, false).expect("reinsert a");
    assert_eq!(s.get("a").map(|e| e.value.as_str()), Some("1"));
    assert!(!s.backups.iter().any(|b| b.name == "a"));
}

#[test]
fn restore_roundtrip() {
    let mut s = Store::default();
    s.set("a", "1", false).expect("set a");
    let removed = s.remove("a").expect("a was present");
    s.backup_entry(removed);

    assert!(s.restore("a").is_ok());
    assert_eq!(s.get("a").map(|e| e.value.as_str()), Some("1"));
    assert!(s.backups.is_empty());
}

#[test]
fn restore_missing_reports_not_found() {
    let mut s = Store::default();
    s.set("a", "1", false).expect("set a");
    assert_eq!(s.restore("b"), Err(StoreError::NotFound));
    assert_eq!(s.entries.len(), 1);
    assert!(s.backups.is_empty());
}

#[test]
fn restore_conflict_keeps_both_copies() {
    let mut s = Store::default();
    s.set("a", "live", false).expect("set a");
    s.backup_entry(Entry { name: "a".to_string(), value: "old".to_string() });

    assert_eq!(s.restore("a"), Err(StoreError::RestoreConflict));
    assert_eq!(s.get("a").map(|e| e.value.as_str()), Some("live"));
    assert_eq!(s.backups.len(), 1);
    assert_eq!(s.backups[0].name, "a");
    assert_eq!(s.backups[0].value, "old");
}

#[test]
fn remove_backup_no_match_changes_nothing() {
    let mut s = Store::default();
    s.backup_entry(Entry { name: "a".to_string(), value: "1".to_string() });
    assert!(s.remove_backup("nope").is_none());
    assert_eq!(s.backups.len(), 1);
}

#[test]
fn remove_backup_takes_first_match() {
    let mut s = Store::default();
    s.backup_entry(Entry { name: "a".to_string(), value: "first".to_string() });
    s.backup_entry(Entry { name: "b".to_string(), value: "other".to_string() });
    s.backup_entry(Entry { name: "a".to_string(), value: "second".to_string() });

    let got = s.remove_backup("a").expect("a was in backups");
    assert_eq!(got.value, "first");
    assert_eq!(s.backups.len(), 2);
    assert_eq!(s.backups[0].name, "b");
    assert_eq!(s.backups[1].value, "second");
}

#[test]
fn well_formed_detects_duplicates() {
    let mut s = Store::default();
    s.set("a", "1", false).expect("set a");
    s.set("b", "2", false).expect("set b");
    assert!(s.well_formed());

    s.entries.push(Entry { name: "a".to_string(), value: "3".to_string() });
    assert!(!s.well_formed());
}
