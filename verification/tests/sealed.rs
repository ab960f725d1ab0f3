use macrun::sealed::{exact_field, open_scope, seal_scope, seal_with, SealError, SealedField};

const PAYLOAD: &str = r#"{"kind":"scope","project":"my-app","env":"dev","secrets":{"APP_KEY":"secret"}}"#;

#[test]
fn sealed_scope_round_trips() {
    let sealed = seal_scope("correct horse battery staple", PAYLOAD.as_bytes()).unwrap();
    let opened = open_scope("correct horse battery staple", &sealed).unwrap();
    let value: serde_json::Value = serde_json::from_slice(&opened).unwrap();
    assert_eq!(value["kind"], "scope");
    assert_eq!(value["project"], "my-app");
    assert_eq!(value["env"], "dev");
    assert_eq!(value["secrets"]["APP_KEY"], "secret");
}

#[test]
fn sealing_writes_the_format_and_fresh_randomness() {
    let a = seal_scope("pw", b"{}").unwrap();
    let b = seal_scope("pw", b"{}").unwrap();
    assert_eq!(a.format, "macrun-sealed-scope");
    assert_eq!(a.version, 1);
    assert_ne!(a.salt, b.salt);
    assert_ne!(a.ciphertext, b.ciphertext);
    assert!(matches!(seal_scope("", b"{}"), Err(SealError::EmptyMasterSecret)));
}

#[test]
fn opening_refuses_wrong_secrets_and_damaged_files() {
    let sealed = seal_scope("pw", b"payload").unwrap();
    assert!(matches!(open_scope("other", &sealed), Err(SealError::DecryptFailure)));
    let mut f = sealed.clone();
    f.format = "other".to_owned();
    assert!(matches!(open_scope("pw", &f), Err(SealError::UnsupportedFormat(_))));
    let mut f = sealed.clone();
    f.version = 2;
    assert!(matches!(open_scope("pw", &f), Err(SealError::UnsupportedVersion(2))));
    let mut f = sealed.clone();
    f.salt = "AAAA".to_owned();
    assert!(matches!(open_scope("pw", &f), Err(SealError::InvalidLength(SealedField::Salt))));
    let mut f = sealed.clone();
    f.nonce = "***".to_owned();
    assert!(matches!(open_scope("pw", &f), Err(SealError::InvalidEncoding(SealedField::Nonce))));
    let mut f = sealed;
    f.ciphertext = "%".to_owned();
    assert!(matches!(open_scope("pw", &f), Err(SealError::InvalidEncoding(SealedField::Ciphertext))));
}

#[test]
fn fields_must_decode_to_their_length() {
    assert_eq!(exact_field(Some(vec![1u8, 2, 3]), 3, SealedField::Salt).unwrap(), vec![1u8, 2, 3]);
    assert!(matches!(exact_field(Some(vec![1u8, 2]), 3, SealedField::Nonce), Err(SealError::InvalidLength(SealedField::Nonce))));
    assert!(matches!(exact_field(None, 3, SealedField::Ciphertext), Err(SealError::InvalidEncoding(SealedField::Ciphertext))));
}

#[test]
fn sealing_with_given_salt_and_nonce_is_deterministic() {
    let salt = vec![7u8; 16];
    let nonce = vec![9u8; 12];
    let a = seal_with("pw", b"payload", salt.clone(), nonce.clone()).unwrap();
    let b = seal_with("pw", b"payload", salt, nonce).unwrap();
    assert_eq!(a.salt, "BwcHBwcHBwcHBwcHBwcHBw==");
    assert_eq!(a.nonce, "CQkJCQkJCQkJCQkJ");
    assert_eq!(a.ciphertext, b.ciphertext);
    assert_eq!(a.format, "macrun-sealed-scope");
    assert_eq!(a.version, 1);
    assert_eq!(open_scope("pw", &a).unwrap(), b"payload".to_vec());
    let c = seal_with("other", b"payload", vec![7u8; 16], vec![9u8; 12]).unwrap();
    assert_ne!(a.ciphertext, c.ciphertext);
}
