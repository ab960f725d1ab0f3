use macrun::vault::{
    check_response, decode_plaintext, decrypt_url, encode_plaintext, encrypt_url, parse_key_version,
    plaintext_from_decoded, vault_settings, VaultError,
};

#[test]
fn parse_key_version_reads_vault_prefix() {
    assert_eq!(parse_key_version("vault:v3:abcdef"), Some(3));
}

#[test]
fn parse_key_version_rejects_non_vault_ciphertext() {
    assert_eq!(parse_key_version("not-vault"), None);
}

#[test]
fn parse_key_version_follows_u32_parsing() {
    assert_eq!(parse_key_version("vault:v3"), None);
    assert_eq!(parse_key_version("vault:v3:"), Some(3));
    assert_eq!(parse_key_version("vault:v+7:x"), Some(7));
    assert_eq!(parse_key_version("vault:v007:x"), Some(7));
    assert_eq!(parse_key_version("vault:v:x"), None);
    assert_eq!(parse_key_version("vault:3:x"), None);
    assert_eq!(parse_key_version("vault:v-1:x"), None);
    assert_eq!(parse_key_version("vault:v4294967295:x"), Some(4294967295));
    assert_eq!(parse_key_version("vault:v4294967296:x"), None);
    assert_eq!(parse_key_version("Vault:v1:x"), None);
}

#[test]
fn vault_settings_trim_slashes_and_refuse_blanks() {
    let s = vault_settings("http://127.0.0.1:8200//", "/transit/", "tok").unwrap();
    assert_eq!(s.vault_addr, "http://127.0.0.1:8200");
    assert_eq!(s.transit_path, "transit");
    assert!(matches!(vault_settings("  ", "t", "x"), Err(VaultError::EmptyAddress)));
    assert!(matches!(vault_settings("a", "", "x"), Err(VaultError::EmptyTransitPath)));
    assert!(matches!(vault_settings("a", "t", " \t"), Err(VaultError::EmptyToken)));
}

#[test]
fn transit_urls_are_built_from_the_settings() {
    let s = vault_settings("http://v:8200/", "transit", "tok").unwrap();
    assert_eq!(encrypt_url(&s, "app").unwrap(), "http://v:8200/v1/transit/encrypt/app");
    assert_eq!(decrypt_url(&s, "app").unwrap(), "http://v:8200/v1/transit/decrypt/app");
    assert!(matches!(encrypt_url(&s, " "), Err(VaultError::EmptyKeyName)));
}

#[test]
fn responses_outside_the_success_range_are_refused() {
    assert_eq!(check_response(200, "ok".to_owned()).unwrap(), "ok");
    assert_eq!(check_response(299, "ok".to_owned()).unwrap(), "ok");
    match check_response(403, "denied".to_owned()) {
        Err(VaultError::RequestFailed(status, body)) => {
            assert_eq!(status, 403);
            assert_eq!(body, "denied");
        }
        _ => panic!("expected a refusal"),
    }
}

#[test]
fn plaintext_round_trips_through_base64() {
    let encoded = encode_plaintext("héllo".as_bytes());
    assert_eq!(encoded, "aMOpbGxv");
    assert_eq!(decode_plaintext(&encoded).unwrap(), "héllo");
    assert!(matches!(decode_plaintext("!!!"), Err(VaultError::InvalidBase64)));
    assert!(matches!(decode_plaintext("/w=="), Err(VaultError::InvalidUtf8)));
}

#[test]
fn decoded_bytes_must_be_utf8() {
    assert_eq!(plaintext_from_decoded(Some("ok".as_bytes().to_vec())).unwrap(), "ok");
    assert!(matches!(plaintext_from_decoded(Some(vec![0xffu8])), Err(VaultError::InvalidUtf8)));
    assert!(matches!(plaintext_from_decoded(None), Err(VaultError::InvalidBase64)));
}
