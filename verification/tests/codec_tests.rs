use npass::codec::{deserialize, serialize};
use npass::store::{Entry, Store, StoreError};
use npass::store::LoadFailure;

#[test]
fn serialize_empty_store_exact_text() {
    let s = Store::default();
    assert_eq!(serialize(&s), "E0;B0;");
}

#[test]
fn serialize_one_entry_exact_text() {
    let mut s = Store::default();
    s.set("x", "v", false).expect("set x");
    assert_eq!(serialize(&s), "E1;1:x1:vB0;");
}

#[test]
fn serialize_entries_and_backups_exact_text() {
    let mut s = Store::default();
    s.set("key", "value", false).expect("set key");
    s.backup_entry(Entry { name: "old".to_string(), value: "gone".to_string() });
    assert_eq!(serialize(&s), "E1;3:key5:valueB1;3:old4:gone");
}

#[test]
fn deserialize_own_output_roundtrips() {
    let mut s = Store::default();
    s.set("alice", "secret1", false).expect("set alice");
    s.set("bob", "s:2;E", false).expect("set bob");
    s.backup_entry(Entry { name: "alice".to_string(), value: "older".to_string() });
    s.backup_entry(Entry { name: "alice".to_string(), value: "oldest".to_string() });

    let text = serialize(&s);
    let s2 = deserialize(&text).expect("parse own output");
    assert_eq!(s2.get("alice").map(|e| e.value.as_str()), Some("secret1"));
    assert_eq!(s2.get("bob").map(|e| e.value.as_str()), Some("s:2;E"));
    assert_eq!(s2.backups.len(), 2);
    assert_eq!(s2.backups[0].value, "older");
    assert_eq!(s2.backups[1].value, "oldest");
}

#[test]
fn deserialize_exact_text() {
    let s = deserialize("E1;1:a1:1B0;").expect("well-formed text");
    assert_eq!(s.get("a").map(|e| e.value.as_str()), Some("1"));
    assert!(s.backups.is_empty());
}

#[test]
fn deserialize_rejects_malformed_text() {
    let malformed = Err(StoreError::Load(LoadFailure::Malformed));
    assert_eq!(deserialize("").map(|_| ()), malformed);
    assert_eq!(deserialize("X0;B0;").map(|_| ()), malformed);
    assert_eq!(deserialize("E01;B0;").map(|_| ()), malformed);
    assert_eq!(deserialize("E;B0;").map(|_| ()), malformed);
    assert_eq!(deserialize("E1;B0;").map(|_| ()), malformed);
    assert_eq!(deserialize("E1;1:x9:vB0;").map(|_| ()), malformed);
    assert_eq!(deserialize("E0;B0;junk").map(|_| ()), malformed);
    assert_eq!(deserialize("E0;B0").map(|_| ()), malformed);
    assert_eq!(deserialize("E99999999999999999999999;B0;").map(|_| ()), malformed);
}

#[test]
fn deserialize_rejects_duplicate_names() {
    let text = "E2;1:x1:a1:x1:bB0;";
    assert_eq!(
        deserialize(text).map(|_| ()),
        Err(StoreError::Load(LoadFailure::Malformed))
    );
}

#[test]
fn serialize_two_digit_length_exact_text() {
    let mut s = Store::default();
    s.set("k", "twelve chars", false).expect("set k");
    assert_eq!(serialize(&s), "E1;1:k12:twelve charsB0;");
}

#[test]
fn roundtrip_with_many_entries() {
    let mut s = Store::default();
    for i in 0..12 {
        let name = format!("name{}", i);
        let value = format!("value number {}", i);
        s.set(&name, &value, false).expect("set entry");
    }
    let text = serialize(&s);
    assert!(text.starts_with("E12;"));

    let s2 = deserialize(&text).expect("parse own output");
    assert_eq!(s2.entries.len(), 12);
    for i in 0..12 {
        let name = format!("name{}", i);
        let value = format!("value number {}", i);
        assert_eq!(s2.get(&name).map(|e| e.value.as_str()), Some(value.as_str()));
    }
}

#[test]
fn file_content_roundtrip() {
    let mut s = Store::default();
    s.set("name", "hunter2", false).expect("set name");
    s.backup_entry(Entry { name: "temp".to_string(), value: "val1".to_string() });

    let bytes = s.to_file_content().expect("to bytes");
    let s2 = Store::from_file_content(Some(bytes)).expect("from bytes");
    assert_eq!(s2.get("name").map(|e| e.value.as_str()), Some("hunter2"));
    assert_eq!(s2.backups.len(), 1);
    assert_eq!(s2.backups[0].name, "temp");
    assert_eq!(s2.backups[0].value, "val1");
}

#[test]
fn file_content_roundtrip_keeps_unicode() {
    let mut s = Store::default();
    s.set("greeting", "héllo wörld ☃", false).expect("set greeting");
    let bytes = s.to_file_content().expect("to bytes");
    assert!(bytes.len() > "héllo wörld ☃".len());

    let s2 = Store::from_file_content(Some(bytes)).expect("from bytes");
    assert_eq!(s2.get("greeting").map(|e| e.value.as_str()), Some("héllo wörld ☃"));
}

#[test]
fn missing_file_loads_empty_store() {
    let s = Store::from_file_content(None).expect("missing file is fine");
    assert!(s.entries.is_empty());
    assert!(s.backups.is_empty());
}

#[test]
fn zero_length_file_loads_empty_store() {
    let s = Store::from_file_content(Some(Vec::new())).expect("empty file is fine");
    assert!(s.entries.is_empty());
    assert!(s.backups.is_empty());
}

#[test]
fn invalid_utf8_reports_decode_failure() {
    let r = Store::from_file_content(Some(vec![0xff, 0xfe, 0x41]));
    assert_eq!(r.map(|_| ()), Err(StoreError::Load(LoadFailure::Decode)));
}

#[test]
fn roundtrip_store_serialize() {
    let mut s = Store::default();
    s.set("foo", "bar", true).expect("set foo");
    let bytes = s.to_file_content().expect("save");

    let s2 = Store::from_file_content(Some(bytes)).expect("load");
    assert_eq!(s2.get("foo").map(|e| e.value.as_str()), Some("bar"));
}

#[test]
fn rm_moves_to_backups_and_force_deletes() {
    // add alice
    let mut s = Store::default();
    s.set("alice", "secret1", true).expect("set alice");
    let saved = s.to_file_content().expect("save alice");

    // load and remove non-force (should move to backups)
    let mut s2 = Store::from_file_content(Some(saved)).expect("load");
    let e = s2.remove("alice");
    assert!(e.is_some(), "expected alice to be present before remove");
    s2.backup_entry(e.unwrap());
    let saved = s2.to_file_content().expect("save after backup");

    let s3 = Store::from_file_content(Some(saved)).expect("load after backup");
    assert!(
        s3.get("alice").is_none(),
        "alice should no longer be in entries"
    );
    assert!(
        s3.backups.iter().any(|b| b.name == "alice"),
        "alice should be in backups"
    );

    // now set and force delete
    let mut s4 = Store::from_file_content(Some(
        s3.to_file_content().expect("save for bob"),
    ))
    .expect("load for bob");
    s4.set("bob", "secret2", true).expect("set bob");
    let saved = s4.to_file_content().expect("save bob");

    let mut s5 = Store::from_file_content(Some(saved)).expect("load bob");
    let e = s5.remove("bob");
    assert!(e.is_some(), "expected bob to exist before remove");

    // force: do not backup
    let saved = s5.to_file_content().expect("save after bob remove");
    let s6 = Store::from_file_content(Some(saved)).expect("load after bob remove");
    assert!(s6.get("bob").is_none(), "bob should be deleted");
    assert!(
        !s6.backups.iter().any(|b| b.name == "bob"),
        "bob should not be in backups"
    );
}
