use macrun::index::{IndexFile, StoredSecretMeta};

fn meta(project: &str, profile: &str, key: &str, source: &str) -> StoredSecretMeta {
    StoredSecretMeta {
        project: project.to_owned(),
        profile: profile.to_owned(),
        key: key.to_owned(),
        source: source.to_owned(),
        updated_at: "0".to_owned(),
        note: None,
    }
}

fn keys(index: &IndexFile) -> Vec<(String, String, String)> {
    index.entries.iter().map(|e| (e.project.clone(), e.profile.clone(), e.key.clone())).collect()
}

#[test]
fn upsert_keeps_the_index_sorted_and_unique() {
    let mut index = IndexFile::empty();
    index.upsert(meta("b", "dev", "X", "1"));
    index.upsert(meta("a", "prod", "Y", "1"));
    index.upsert(meta("a", "dev", "Z", "1"));
    index.upsert(meta("a", "dev", "A", "1"));
    index.upsert(meta("a", "dev", "Z", "2"));
    assert_eq!(
        keys(&index),
        vec![
            ("a".to_owned(), "dev".to_owned(), "A".to_owned()),
            ("a".to_owned(), "dev".to_owned(), "Z".to_owned()),
            ("a".to_owned(), "prod".to_owned(), "Y".to_owned()),
            ("b".to_owned(), "dev".to_owned(), "X".to_owned()),
        ]
    );
    assert_eq!(index.entries[1].source, "2");
}

#[test]
fn upsert_sorts_by_code_point_like_string_order() {
    let mut index = IndexFile::empty();
    for key in ["b", "B", "é", "a", "_", "ab", "A"] {
        index.upsert(meta("p", "dev", key, "s"));
    }
    let got: Vec<String> = index.entries.iter().map(|e| e.key.clone()).collect();
    let mut expected: Vec<String> = ["b", "B", "é", "a", "_", "ab", "A"].iter().map(|s| s.to_string()).collect();
    expected.sort();
    assert_eq!(got, expected);
}

#[test]
fn contains_and_remove_work_on_the_full_key() {
    let mut index = IndexFile::empty();
    index.upsert(meta("p", "dev", "A", "s"));
    index.upsert(meta("p", "prod", "A", "s"));
    assert!(index.contains("p", "dev", "A"));
    assert!(!index.contains("p", "dev", "B"));
    assert!(!index.contains("q", "dev", "A"));
    index.remove("p", "dev", "A");
    assert!(!index.contains("p", "dev", "A"));
    assert!(index.contains("p", "prod", "A"));
    index.remove("p", "dev", "A");
    assert_eq!(index.entries.len(), 1);
}

#[test]
fn scope_queries_filter_in_index_order() {
    let mut index = IndexFile::empty();
    index.upsert(meta("p", "dev", "APP_B", "s"));
    index.upsert(meta("p", "dev", "APP_A", "s"));
    index.upsert(meta("p", "dev", "OTHER", "s"));
    index.upsert(meta("p", "prod", "APP_C", "s"));
    index.upsert(meta("q", "dev", "APP_D", "s"));
    let scoped: Vec<&str> = index.entries_for_scope("p", "dev").iter().map(|e| e.key.as_str()).collect();
    assert_eq!(scoped, vec!["APP_A", "APP_B", "OTHER"]);
    let filtered: Vec<String> = index
        .filtered_entries("p", "dev", &["APP_".to_owned()])
        .into_iter()
        .map(|e| e.key)
        .collect();
    assert_eq!(filtered, vec!["APP_A".to_owned(), "APP_B".to_owned()]);
    assert_eq!(index.filtered_entries("p", "dev", &[]).len(), 3);
    assert_eq!(index.entries_owned_for_scope("p", "dev").len(), 3);
    assert_eq!(index.entries_owned_for_project("p").len(), 4);
}

#[test]
fn new_entries_carry_a_timestamp() {
    let m = StoredSecretMeta::new("p".to_owned(), "dev".to_owned(), "K".to_owned(), "manual".to_owned(), None);
    assert!(m.updated_at.chars().all(|c| c.is_ascii_digit()));
    assert_eq!(m.copy().key, "K");
}

#[test]
fn removing_a_new_key_undoes_its_upsert() {
    let mut index = IndexFile::empty();
    index.upsert(meta("a", "dev", "A", "s"));
    index.upsert(meta("c", "dev", "C", "s"));
    let before = keys(&index);
    index.upsert(meta("b", "dev", "B", "s"));
    assert_eq!(index.entries.len(), 3);
    index.remove("b", "dev", "B");
    assert_eq!(keys(&index), before);
}
