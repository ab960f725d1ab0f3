use macrun::app::{
    apply_ciphertext, check_init_project, is_machine_project, check_master_secret, check_secret_value, check_spawn,
    exit_status_for, export_line, legacy_default_project_name, list_uses_options,
    metadata_line, parse_mappings, simple_scope, split_scope_and_name, trim_line_endings,
    vault_injection_target, apply_ciphertexts, App, AppError, PublicScope,
};
use macrun::config::{config_file_name, default_env, default_project_key};
use macrun::keychain::{global_service, master_secret_account, project_bundle_account};
use macrun::util::EnvError;

use macrun::cli::ArchiveExportMode;
use macrun::sealed::SealedScopePayload;
use macrun::config::{resolve_scope, LocalConfig, LocalConfigHit, DEFAULT_ENV, DEFAULT_PROJECT_KEY};
use macrun::index::{IndexFile, StoredSecretMeta};
use macrun::keychain::{read_secret, store_secret, ProjectSecretBundle};
use macrun::strmap::StrMap;

fn parts(values: &[&str]) -> Vec<String> {
    values.iter().map(|value| (*value).to_owned()).collect()
}

fn app() -> App {
    App { state_dir: "/tmp/state".to_owned(), index_path: "/tmp/state/index.json".to_owned() }
}

#[test]
fn simple_scope_defaults_to_the_machine() {
    let scope = simple_scope(&[]).unwrap();
    assert_eq!(scope.project, DEFAULT_PROJECT_KEY);
    assert_eq!(scope.env, DEFAULT_ENV);
}

#[test]
fn simple_scope_accepts_a_project_without_an_environment() {
    let scope = simple_scope(&parts(&["shop"])).unwrap();
    assert_eq!(scope.project, "shop");
    assert_eq!(scope.env, DEFAULT_ENV);
}

#[test]
fn simple_scope_accepts_a_project_and_environment() {
    let scope = simple_scope(&parts(&["shop", "staging"])).unwrap();
    assert_eq!(scope.project, "shop");
    assert_eq!(scope.env, "staging");
}

#[test]
fn simple_scope_refuses_bad_shapes() {
    assert!(matches!(simple_scope(&parts(&["a", "b", "c"])), Err(AppError::ScopeShape)));
    assert!(matches!(simple_scope(&parts(&[""])), Err(AppError::EmptyProject)));
    assert!(matches!(simple_scope(&parts(&["__default_project__"])), Err(AppError::ReservedProject)));
    assert!(matches!(simple_scope(&parts(&["shop", ""])), Err(AppError::EmptyEnvironment)));
}

#[test]
fn projects_are_shown_and_imported_by_their_label() {
    let a = app();
    let machine = simple_scope(&[]).unwrap();
    assert_eq!(a.display_project(&machine), "(default)");
    assert_eq!(a.export_project_name(&machine), "(default)");
    let shop = simple_scope(&parts(&["shop"])).unwrap();
    assert_eq!(a.display_project(&shop), "shop");
    assert_eq!(a.import_project_name("(default)".to_owned()), DEFAULT_PROJECT_KEY);
    assert_eq!(a.import_project_name("shop".to_owned()), "shop");
}

#[test]
fn scope_comes_from_options_then_local_binding_then_defaults() {
    let hit = LocalConfigHit {
        path: "/w/.macrun.toml".to_owned(),
        config: LocalConfig { project: "bound".to_owned(), default_env: "qa".to_owned() },
    };
    let s = resolve_scope(None, None, Some(hit.clone()));
    assert_eq!((s.project.as_str(), s.env.as_str()), ("bound", "qa"));
    assert_eq!(s.config_path.as_deref(), Some("/w/.macrun.toml"));
    let s = resolve_scope(Some("p".to_owned()), Some("e".to_owned()), Some(hit));
    assert_eq!((s.project.as_str(), s.env.as_str()), ("p", "e"));
    let s = resolve_scope(None, None, None);
    assert_eq!((s.project.as_str(), s.env.as_str()), (DEFAULT_PROJECT_KEY, DEFAULT_ENV));
    assert!(s.config_path.is_none());
}

#[test]
fn the_last_word_of_set_is_always_a_name() {
    let a = app();
    let (scope_parts, name) = split_scope_and_name(&parts(&["API_TOKEN=aaa"]));
    assert!(scope_parts.is_empty());
    assert_eq!(name, "API_TOKEN=aaa");
    let scope = match a.resolve_public_scope(&scope_parts, None, None).unwrap() {
        PublicScope::Words(scope) => scope,
        PublicScope::Options { .. } => panic!("expected words"),
    };
    let mut bundle = ProjectSecretBundle::new();
    let mut index = IndexFile::empty();
    assert!(matches!(
        a.set_one(&mut bundle, &mut index, &scope, &name, "v".to_owned()),
        Err(AppError::Env(EnvError::InvalidCharacter(_)))
    ));
    assert!(bundle.is_empty());
    assert!(index.entries.is_empty());
    let (scope_parts, name) = split_scope_and_name(&parts(&["myapp", "production", "API_TOKEN=aaa"]));
    assert_eq!(scope_parts, parts(&["myapp", "production"]));
    assert_eq!(name, "API_TOKEN=aaa");
}

#[test]
fn set_one_stores_and_records() {
    let a = app();
    let scope = simple_scope(&parts(&["shop", "staging"])).unwrap();
    let mut bundle = ProjectSecretBundle::new();
    let mut index = IndexFile::empty();
    a.set_one(&mut bundle, &mut index, &scope, "API_TOKEN", "v1".to_owned()).unwrap();
    a.set_one(&mut bundle, &mut index, &scope, "API_TOKEN", "v2".to_owned()).unwrap();
    assert_eq!(read_secret(&bundle, "staging", "API_TOKEN").as_deref(), Some("v2"));
    assert_eq!(index.entries.len(), 1);
    assert_eq!(index.entries[0].source, "manual");
    assert!(matches!(a.set_one(&mut bundle, &mut index, &scope, "BAD-NAME", "x".to_owned()), Err(AppError::Env(_))));
    assert_eq!(index.entries.len(), 1);
}

#[test]
fn unset_removes_and_absent_names_are_harmless() {
    let a = app();
    let scope = simple_scope(&parts(&["shop"])).unwrap();
    let mut bundle = ProjectSecretBundle::new();
    let mut index = IndexFile::empty();
    a.set_one(&mut bundle, &mut index, &scope, "A", "1".to_owned()).unwrap();
    a.set_one(&mut bundle, &mut index, &scope, "B", "2".to_owned()).unwrap();
    a.remove_simple(&mut bundle, &mut index, &scope, "A").unwrap();
    a.remove_simple(&mut bundle, &mut index, &scope, "MISSING").unwrap();
    assert_eq!(read_secret(&bundle, "dev", "A"), None);
    assert_eq!(read_secret(&bundle, "dev", "B").as_deref(), Some("2"));
    assert!(!index.contains("shop", "dev", "A"));
    assert!(index.contains("shop", "dev", "B"));
}

#[test]
fn set_pairs_is_all_or_nothing() {
    let a = app();
    let scope = simple_scope(&parts(&["shop"])).unwrap();
    let mut bundle = ProjectSecretBundle::new();
    let mut index = IndexFile::empty();
    let err = a.set_pairs(&mut bundle, &mut index, &scope, parts(&["A=1", "B"]), "manual", None);
    assert!(matches!(err, Err(AppError::Env(_))));
    assert!(bundle.is_empty());
    assert!(index.entries.is_empty());
    let written = a
        .set_pairs(&mut bundle, &mut index, &scope, parts(&["B=2", "A=1", "B=3"]), "cli", Some("n".to_owned()))
        .unwrap();
    assert_eq!(written, parts(&["B", "A", "B"]));
    assert_eq!(read_secret(&bundle, "dev", "B").as_deref(), Some("3"));
    assert_eq!(index.entries.len(), 2);
    assert_eq!(index.entries[0].key, "A");
    assert_eq!(index.entries[1].note.as_deref(), Some("n"));
}

#[test]
fn import_skips_recorded_names_unless_replacing() {
    let a = app();
    let scope = simple_scope(&parts(&["shop"])).unwrap();
    let mut bundle = ProjectSecretBundle::new();
    let mut index = IndexFile::empty();
    a.set_one(&mut bundle, &mut index, &scope, "A", "old".to_owned()).unwrap();
    let pairs = vec![
        ("A".to_owned(), "new".to_owned()),
        ("B".to_owned(), "b1".to_owned()),
        ("B".to_owned(), "b2".to_owned()),
    ];
    let (imported, skipped) = a.import_pairs(&mut bundle, &mut index, &scope, &pairs, false, "import", &None);
    assert_eq!(imported, parts(&["B"]));
    assert_eq!(skipped, parts(&["A", "B"]));
    assert_eq!(read_secret(&bundle, "dev", "A").as_deref(), Some("old"));
    assert_eq!(read_secret(&bundle, "dev", "B").as_deref(), Some("b1"));
    let (imported, skipped) = a.import_pairs(&mut bundle, &mut index, &scope, &pairs, true, "import", &None);
    assert_eq!(imported, parts(&["A", "B", "B"]));
    assert!(skipped.is_empty());
    assert_eq!(read_secret(&bundle, "dev", "A").as_deref(), Some("new"));
    assert_eq!(read_secret(&bundle, "dev", "B").as_deref(), Some("b2"));
}

#[test]
fn purge_needs_confirmation_and_empties_the_scope() {
    let a = app();
    let scope = simple_scope(&parts(&["shop"])).unwrap();
    let other = simple_scope(&parts(&["shop", "prod"])).unwrap();
    let mut bundle = ProjectSecretBundle::new();
    let mut index = IndexFile::empty();
    a.set_one(&mut bundle, &mut index, &scope, "B", "2".to_owned()).unwrap();
    a.set_one(&mut bundle, &mut index, &scope, "A", "1".to_owned()).unwrap();
    a.set_one(&mut bundle, &mut index, &other, "A", "p".to_owned()).unwrap();
    assert!(matches!(a.purge_scope(&mut bundle, &mut index, &scope, false), Err(AppError::PurgeNotConfirmed)));
    let purged = a.purge_scope(&mut bundle, &mut index, &scope, true).unwrap();
    assert_eq!(purged, parts(&["A", "B"]));
    assert_eq!(read_secret(&bundle, "dev", "A"), None);
    assert_eq!(read_secret(&bundle, "prod", "A").as_deref(), Some("p"));
    assert_eq!(index.entries.len(), 1);
}

#[test]
fn spawning_needs_secrets_and_a_command() {
    let mut env_map = StrMap::new();
    assert!(matches!(check_spawn(&env_map, &parts(&["env"])), Err(AppError::NoSecretsForScope)));
    env_map.insert("A".to_owned(), "1".to_owned());
    assert!(matches!(check_spawn(&env_map, &[]), Err(AppError::MissingCommand)));
    assert!(check_spawn(&env_map, &parts(&["env"])).is_ok());
    assert_eq!(exit_status_for(Some(3)), 3);
    assert_eq!(exit_status_for(Some(256 + 7)), 7);
    assert_eq!(exit_status_for(None), 1);
}

#[test]
fn vault_injection_needs_address_and_key() {
    assert!(vault_injection_target(&[], None, None).unwrap().is_none());
    let items = parts(&["A"]);
    assert!(matches!(vault_injection_target(&items, None, None), Err(AppError::VaultAddrRequired)));
    assert!(matches!(vault_injection_target(&items, Some("a".to_owned()), None), Err(AppError::VaultKeyRequired)));
    assert_eq!(
        vault_injection_target(&items, Some("a".to_owned()), Some("k".to_owned())).unwrap(),
        Some(("a".to_owned(), "k".to_owned()))
    );
}

#[test]
fn output_lines_are_formatted() {
    assert_eq!(export_line("A", "it's"), "export A='it'\\''s'");
    let entry = StoredSecretMeta {
        project: "p".to_owned(),
        profile: "dev".to_owned(),
        key: "K".to_owned(),
        source: "manual".to_owned(),
        updated_at: "17".to_owned(),
        note: Some("hi".to_owned()),
    };
    assert_eq!(metadata_line(&entry), "K\tsource=manual\tupdated_at=17\tnote=hi");
    assert_eq!(trim_line_endings("secret\r\n\n"), "secret");
    assert!(matches!(check_master_secret("a".to_owned(), Some("b".to_owned())), Err(AppError::MasterSecretMismatch)));
    assert!(matches!(check_master_secret(String::new(), None), Err(AppError::EmptyMasterSecret)));
    assert_eq!(check_master_secret("a".to_owned(), Some("a".to_owned())).unwrap(), "a");
}

#[test]
fn migration_moves_default_project_secrets_to_the_machine() {
    let a = app();
    let mut index = IndexFile::empty();
    let mut machine = ProjectSecretBundle::new();
    let mut legacy = ProjectSecretBundle::new();
    store_secret(&mut legacy, "dev", "A", "1");
    let meta = StoredSecretMeta::new("default".to_owned(), "dev".to_owned(), "A".to_owned(), "manual".to_owned(), None);
    index.upsert(meta.clone());
    let moved = vec![(meta, "1".to_owned())];
    a.migrate_default_scope("dev", &mut index, &mut machine, &mut legacy, &moved);
    assert_eq!(read_secret(&machine, "dev", "A").as_deref(), Some("1"));
    assert_eq!(read_secret(&legacy, "dev", "A"), None);
    assert!(index.contains(DEFAULT_PROJECT_KEY, "dev", "A"));
    assert!(!index.contains("default", "dev", "A"));
}

#[test]
fn whole_project_archive_imports_each_environment() {
    let a = app();
    let mut bundle = ProjectSecretBundle::new();
    let mut index = IndexFile::empty();
    let prod_scope = simple_scope(&parts(&["shop", "prod"])).unwrap();
    a.set_one(&mut bundle, &mut index, &prod_scope, "A", "old".to_owned()).unwrap();
    let mut prod = StrMap::new();
    prod.insert("B".to_owned(), "b".to_owned());
    prod.insert("A".to_owned(), "new".to_owned());
    let mut dev = StrMap::new();
    dev.insert("C".to_owned(), "c".to_owned());
    let mut envs = StrMap::new();
    envs.insert("prod".to_owned(), prod);
    envs.insert("dev".to_owned(), dev);
    let note = Some("imported from a.json".to_owned());
    let (imported, skipped) = a.import_project_archive(&mut bundle, &mut index, "shop", &envs, false, &note);
    assert_eq!(imported, parts(&["dev/C", "prod/B"]));
    let c = index.entries.iter().find(|e| e.key == "C").unwrap();
    assert_eq!(c.source, "archive");
    assert_eq!(c.note, note);
    let a_entry = index.entries.iter().find(|e| e.key == "A").unwrap();
    assert_eq!(a_entry.source, "manual");
    assert_eq!(skipped, parts(&["prod/A"]));
    assert_eq!(read_secret(&bundle, "prod", "A").as_deref(), Some("old"));
    assert_eq!(read_secret(&bundle, "prod", "B").as_deref(), Some("b"));
    assert_eq!(read_secret(&bundle, "dev", "C").as_deref(), Some("c"));
    assert!(index.contains("shop", "dev", "C"));
    assert!(index.contains("shop", "prod", "B"));
    assert_eq!(index.entries.len(), 3);
    let (imported, skipped) = a.import_project_archive(&mut bundle, &mut index, "shop", &envs, true, &None);
    assert_eq!(imported, parts(&["dev/C", "prod/A", "prod/B"]));
    assert!(skipped.is_empty());
    assert_eq!(read_secret(&bundle, "prod", "A").as_deref(), Some("new"));
}

#[test]
fn archive_payload_holds_the_scope_or_the_project() {
    let a = app();
    let machine = simple_scope(&[]).unwrap();
    let mut bundle = ProjectSecretBundle::new();
    assert!(matches!(a.archive_payload(&bundle, &machine, ArchiveExportMode::Scope), Err(AppError::NothingToExportForScope)));
    assert!(matches!(a.archive_payload(&bundle, &machine, ArchiveExportMode::Project), Err(AppError::NothingToExportForProject)));
    store_secret(&mut bundle, "dev", "K", "v");
    store_secret(&mut bundle, "prod", "K", "w");
    match a.archive_payload(&bundle, &machine, ArchiveExportMode::Scope).unwrap() {
        SealedScopePayload::Scope { project, env, secrets } => {
            assert_eq!(project, "(default)");
            assert_eq!(env, "dev");
            assert_eq!(secrets.len(), 1);
            assert_eq!(secrets.get("K").map(|v| v.as_str()), Some("v"));
        }
        SealedScopePayload::Project { .. } => panic!("expected a scope payload"),
    }
    match a.archive_payload(&bundle, &machine, ArchiveExportMode::Project).unwrap() {
        SealedScopePayload::Project { project, envs } => {
            assert_eq!(project, "(default)");
            assert_eq!(envs.keys(), parts(&["dev", "prod"]));
        }
        SealedScopePayload::Scope { .. } => panic!("expected a project payload"),
    }
}

#[test]
fn bundle_migration_finds_and_absorbs_loose_secrets() {
    let a = app();
    let mut index = IndexFile::empty();
    let mut bundle = ProjectSecretBundle::new();
    store_secret(&mut bundle, "dev", "KEPT", "1");
    for key in ["KEPT", "LOOSE"] {
        index.upsert(StoredSecretMeta::new("shop".to_owned(), "dev".to_owned(), key.to_owned(), "manual".to_owned(), None));
    }
    index.upsert(StoredSecretMeta::new("other".to_owned(), "dev".to_owned(), "X".to_owned(), "manual".to_owned(), None));
    let found = a.bundle_migration_candidates(&index, &bundle, "shop");
    assert_eq!(found, vec![("dev".to_owned(), "LOOSE".to_owned())]);
    assert!(!a.absorb_legacy_secrets(&mut bundle, &Vec::new()));
    let recovered = vec![("dev".to_owned(), "LOOSE".to_owned(), "2".to_owned())];
    assert!(a.absorb_legacy_secrets(&mut bundle, &recovered));
    assert_eq!(read_secret(&bundle, "dev", "LOOSE").as_deref(), Some("2"));
    assert!(a.bundle_migration_candidates(&index, &bundle, "shop").is_empty());
}

#[test]
fn public_scope_comes_from_words_or_options() {
    let a = app();
    match a.resolve_public_scope(&parts(&["shop", "qa"]), None, None).unwrap() {
        PublicScope::Words(scope) => {
            assert_eq!((scope.project.as_str(), scope.env.as_str()), ("shop", "qa"));
            assert!(scope.config_path.is_none());
        }
        PublicScope::Options { .. } => panic!("expected words"),
    }
    match a.resolve_public_scope(&[], Some("p".to_owned()), None).unwrap() {
        PublicScope::Options { project, env } => {
            assert_eq!(project.as_deref(), Some("p"));
            assert!(env.is_none());
        }
        PublicScope::Words(_) => panic!("expected options"),
    }
    assert!(matches!(
        a.resolve_public_scope(&parts(&["shop"]), None, Some("qa".to_owned())),
        Err(AppError::ScopeGivenTwice)
    ));
    assert!(matches!(a.resolve_simple_scope(&parts(&["a", "b", "c"])), Err(AppError::ScopeShape)));
    assert_eq!(a.resolve_simple_scope(&parts(&["shop"])).unwrap().env, "dev");
}

#[test]
fn the_last_word_is_the_secret_name() {
    let (scope, name) = split_scope_and_name(&parts(&["shop", "staging", "API_TOKEN"]));
    assert_eq!(scope, parts(&["shop", "staging"]));
    assert_eq!(name, "API_TOKEN");
    let (scope, name) = split_scope_and_name(&parts(&["API_TOKEN"]));
    assert!(scope.is_empty());
    assert_eq!(name, "API_TOKEN");
}

#[test]
fn list_reads_options_only_when_asked() {
    assert!(!list_uses_options(false, false, false, false));
    assert!(list_uses_options(true, false, false, false));
    assert!(list_uses_options(false, true, false, false));
    assert!(list_uses_options(false, false, true, false));
    assert!(list_uses_options(false, false, false, true));
}

#[test]
fn vault_mappings_replace_plaintext_with_ciphertext() {
    let mappings = parse_mappings(&parts(&["A", "B=B_CIPHERTEXT"])).unwrap();
    assert_eq!(mappings.len(), 2);
    assert!(matches!(parse_mappings(&parts(&["A", "1X"])), Err(EnvError::LeadingDigit(_))));
    let mut env_map = StrMap::new();
    env_map.insert("A".to_owned(), "a".to_owned());
    env_map.insert("B".to_owned(), "b".to_owned());
    apply_ciphertext(&mut env_map, &mappings[0], "vault:v1:aa".to_owned());
    apply_ciphertext(&mut env_map, &mappings[1], "vault:v1:bb".to_owned());
    assert_eq!(env_map.keys(), parts(&["A", "B_CIPHERTEXT"]));
    assert_eq!(env_map.get("A").map(|v| v.as_str()), Some("vault:v1:aa"));
    assert_eq!(env_map.get("B_CIPHERTEXT").map(|v| v.as_str()), Some("vault:v1:bb"));
}

#[test]
fn init_and_secret_inputs_are_checked() {
    assert!(matches!(check_init_project(None), Err(AppError::InitNeedsProject)));
    assert!(matches!(check_init_project(Some(DEFAULT_PROJECT_KEY.to_owned())), Err(AppError::InitReservedProject)));
    assert_eq!(check_init_project(Some("shop".to_owned())).unwrap(), "shop");
    assert!(matches!(check_secret_value(String::new()), Err(AppError::EmptySecretValue)));
    assert_eq!(check_secret_value("v".to_owned()).unwrap(), "v");
}

#[test]
fn fixed_names_are_spelled_out() {
    assert_eq!(config_file_name(), ".macrun.toml");
    assert_eq!(default_project_key(), DEFAULT_PROJECT_KEY);
    assert_eq!(default_env(), DEFAULT_ENV);
    assert_eq!(legacy_default_project_name(), "default");
    assert_eq!(global_service(), "macrun/global");
    assert_eq!(master_secret_account(), "__master_secret__");
    assert_eq!(project_bundle_account(), "__project_bundle__");
}

#[test]
fn a_command_gets_exactly_its_scope() {
    let a = app();
    let mut bundle = ProjectSecretBundle::new();
    store_secret(&mut bundle, "staging", "A", "1");
    store_secret(&mut bundle, "prod", "B", "2");
    let scope = simple_scope(&parts(&["shop", "staging"])).unwrap();
    let env_map = a.selected_env(&bundle, &scope);
    assert_eq!(env_map.keys(), parts(&["A"]));
}

#[test]
fn archive_targets_follow_the_options() {
    let a = app();
    let t = a.archive_scope_target(None, None, "(default)".to_owned(), "dev".to_owned());
    assert_eq!((t.project.as_str(), t.env.as_str()), (DEFAULT_PROJECT_KEY, "dev"));
    let t = a.archive_scope_target(Some("shop".to_owned()), Some("qa".to_owned()), "x".to_owned(), "dev".to_owned());
    assert_eq!((t.project.as_str(), t.env.as_str()), ("shop", "qa"));
    assert!(t.config_path.is_none());
    assert_eq!(a.archive_project_target(None, &None, "shop".to_owned()).unwrap(), "shop");
    assert_eq!(a.archive_project_target(None, &None, "(default)".to_owned()).unwrap(), DEFAULT_PROJECT_KEY);
    assert_eq!(a.archive_project_target(Some("b".to_owned()), &None, "shop".to_owned()).unwrap(), "b");
    assert!(matches!(
        a.archive_project_target(None, &Some("qa".to_owned()), "shop".to_owned()),
        Err(AppError::EnvWithProjectArchive)
    ));
    assert!(is_machine_project(DEFAULT_PROJECT_KEY));
    assert!(!is_machine_project("default"));
}

#[test]
fn importing_with_replace_lays_the_pairs_over_the_scope() {
    let a = app();
    let scope = simple_scope(&parts(&["shop"])).unwrap();
    let mut bundle = ProjectSecretBundle::new();
    let mut index = IndexFile::empty();
    store_secret(&mut bundle, "dev", "A", "old");
    store_secret(&mut bundle, "dev", "C", "c");
    let pairs = vec![
        ("A".to_owned(), "1".to_owned()),
        ("B".to_owned(), "2".to_owned()),
        ("A".to_owned(), "3".to_owned()),
    ];
    a.import_pairs(&mut bundle, &mut index, &scope, &pairs, true, "import", &None);
    let env_map = a.selected_env(&bundle, &scope);
    assert_eq!(env_map.keys(), parts(&["A", "B", "C"]));
    assert_eq!(read_secret(&bundle, "dev", "A").as_deref(), Some("3"));
    assert_eq!(read_secret(&bundle, "dev", "C").as_deref(), Some("c"));
}

#[test]
fn an_exported_scope_imports_back_unchanged() {
    let a = app();
    let source_scope = simple_scope(&parts(&["shop", "staging"])).unwrap();
    let mut source = ProjectSecretBundle::new();
    store_secret(&mut source, "staging", "B", "two");
    store_secret(&mut source, "staging", "A", "one");
    let secrets = match a.archive_payload(&source, &source_scope, ArchiveExportMode::Scope).unwrap() {
        SealedScopePayload::Scope { secrets, .. } => secrets,
        SealedScopePayload::Project { .. } => panic!("expected a scope payload"),
    };
    let pairs: Vec<(String, String)> = secrets.pairs().clone();
    let mut target = ProjectSecretBundle::new();
    let mut index = IndexFile::empty();
    a.import_pairs(&mut target, &mut index, &source_scope, &pairs, true, "archive", &None);
    let back = a.selected_env(&target, &source_scope);
    assert_eq!(back.pairs(), a.selected_env(&source, &source_scope).pairs());
}

#[test]
fn ciphertexts_replace_their_plaintexts_in_order() {
    let mappings = parse_mappings(&parts(&["A", "B=B_CT"])).unwrap();
    let mut env_map = StrMap::new();
    env_map.insert("A".to_owned(), "a".to_owned());
    env_map.insert("B".to_owned(), "b".to_owned());
    env_map.insert("C".to_owned(), "c".to_owned());
    let n = apply_ciphertexts(&mut env_map, &mappings, vec!["vault:v1:x".to_owned(), "vault:v1:y".to_owned()]);
    assert_eq!(n, 2);
    assert_eq!(env_map.keys(), parts(&["A", "B_CT", "C"]));
    assert_eq!(env_map.get("A").map(|v| v.as_str()), Some("vault:v1:x"));
    assert_eq!(env_map.get("B_CT").map(|v| v.as_str()), Some("vault:v1:y"));
}

#[test]
fn skipped_names_keep_their_index_entries() {
    let a = app();
    let scope = simple_scope(&parts(&["shop"])).unwrap();
    let mut bundle = ProjectSecretBundle::new();
    let mut index = IndexFile::empty();
    a.set_one(&mut bundle, &mut index, &scope, "A", "old".to_owned()).unwrap();
    let before = index.entries[0].clone();
    let pairs = vec![("A".to_owned(), "new".to_owned())];
    let (imported, skipped) = a.import_pairs(&mut bundle, &mut index, &scope, &pairs, false, "import", &Some("n".to_owned()));
    assert!(imported.is_empty());
    assert_eq!(skipped, parts(&["A"]));
    assert_eq!(index.entries.len(), 1);
    assert_eq!(index.entries[0].source, before.source);
    assert_eq!(index.entries[0].note, before.note);
    assert_eq!(index.entries[0].updated_at, before.updated_at);
}

#[test]
fn an_import_that_stores_nothing_drops_an_empty_environment() {
    let a = app();
    let scope = simple_scope(&parts(&["shop"])).unwrap();
    let mut bundle = ProjectSecretBundle::new();
    bundle.envs.insert("dev".to_owned(), StrMap::new());
    let mut index = IndexFile::empty();
    a.import_pairs(&mut bundle, &mut index, &scope, &Vec::new(), false, "import", &None);
    assert!(bundle.is_empty());
}
