use npass::crypto::{decrypt_store, encrypt_store};

#[test]
fn pass_through_roundtrip() {
    let data = b"hello";
    let blob = encrypt_store(data, "").expect("encrypt");
    let pt = decrypt_store(&blob, "").expect("decrypt");
    assert_eq!(pt, data);
}

#[test]
fn encrypt_is_identity_on_empty() {
    let blob = encrypt_store(&[], "ignored").expect("encrypt");
    assert!(blob.is_empty());
}

#[test]
fn decrypt_ignores_password() {
    let blob = encrypt_store(b"secret", "pw1").expect("encrypt");
    let pt = decrypt_store(&blob, "pw2").expect("decrypt");
    assert_eq!(pt, b"secret");
}
