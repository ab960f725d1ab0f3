use macrun::keychain::{
    delete_secret, legacy_service, list_names, project_bundle_service, read_scope_secrets,
    read_secret, store_secret, write_scope_secrets, ProjectSecretBundle,
};
use macrun::strmap::StrMap;

#[test]
fn a_read_after_a_store_gives_the_value_back() {
    let mut bundle = ProjectSecretBundle::new();
    store_secret(&mut bundle, "staging", "API_TOKEN", "one");
    assert_eq!(read_secret(&bundle, "staging", "API_TOKEN").as_deref(), Some("one"));
    store_secret(&mut bundle, "staging", "API_TOKEN", "two");
    assert_eq!(read_secret(&bundle, "staging", "API_TOKEN").as_deref(), Some("two"));
}

#[test]
fn environments_are_kept_apart() {
    let mut bundle = ProjectSecretBundle::new();
    store_secret(&mut bundle, "staging", "API_TOKEN", "s");
    store_secret(&mut bundle, "production", "API_TOKEN", "p");
    store_secret(&mut bundle, "staging", "DATABASE_URL", "d");
    assert_eq!(read_secret(&bundle, "staging", "API_TOKEN").as_deref(), Some("s"));
    assert_eq!(read_secret(&bundle, "production", "API_TOKEN").as_deref(), Some("p"));
    assert_eq!(read_secret(&bundle, "production", "DATABASE_URL"), None);
    assert_eq!(list_names(&bundle, "staging"), vec!["API_TOKEN".to_owned(), "DATABASE_URL".to_owned()]);
    assert_eq!(list_names(&bundle, "production"), vec!["API_TOKEN".to_owned()]);
    assert!(list_names(&bundle, "dev").is_empty());
}

#[test]
fn deleting_the_last_secret_drops_the_environment() {
    let mut bundle = ProjectSecretBundle::new();
    store_secret(&mut bundle, "dev", "A", "1");
    delete_secret(&mut bundle, "dev", "MISSING");
    assert_eq!(read_secret(&bundle, "dev", "A").as_deref(), Some("1"));
    delete_secret(&mut bundle, "dev", "A");
    assert_eq!(read_secret(&bundle, "dev", "A"), None);
    assert!(bundle.is_empty());
}

#[test]
fn writing_an_empty_scope_removes_it() {
    let mut bundle = ProjectSecretBundle::new();
    let mut secrets = StrMap::new();
    secrets.insert("K".to_owned(), "V".to_owned());
    write_scope_secrets(&mut bundle, "dev", &secrets);
    assert_eq!(read_scope_secrets(&bundle, "dev").get("K").map(|s| s.as_str()), Some("V"));
    write_scope_secrets(&mut bundle, "dev", &StrMap::new());
    assert!(bundle.is_empty());
}

#[test]
fn keychain_services_are_named_per_project() {
    assert_eq!(project_bundle_service("shop"), "macrun/shop");
    assert_eq!(legacy_service("shop", "dev"), "macrun/shop/dev");
}
