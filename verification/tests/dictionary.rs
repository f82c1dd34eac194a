use realtime_ai_translation::dictionary::{
    DictionaryError, DictionaryRow, DictionaryStore, StorageFault,
};
use realtime_ai_translation::domain::{CorrectionRequest, GlossaryEntry};

fn store() -> DictionaryStore {
    DictionaryStore::open(Vec::new(), 0)
}

fn entry(source: &str, aliases: &[&str]) -> GlossaryEntry {
    GlossaryEntry {
        id: None,
        source: source.to_owned(),
        source_language: "zh".to_owned(),
        target: "target".to_owned(),
        target_language: "en".to_owned(),
        aliases: aliases.iter().map(|alias| (*alias).to_owned()).collect(),
        domain: "product".to_owned(),
        confidence: 1.0f64.to_bits(),
        evidence_count: 2,
        active: true,
    }
}

#[test]
fn aliases_normalize_asr_and_terms_feed_hotwords() {
    let mut store = store();
    store
        .upsert(
            &GlossaryEntry {
                id: None,
                source: "Saymore".to_owned(),
                source_language: "zh".to_owned(),
                target: "Saymore".to_owned(),
                target_language: "en".to_owned(),
                aliases: vec!["CM".to_owned()],
                domain: "product".to_owned(),
                confidence: 1.0f64.to_bits(),
                evidence_count: 2,
                active: true,
            },
            1,
        )
        .expect("entry");
    assert_eq!(
        store
            .normalize_source("我们使用 CM 开发", "zh")
            .expect("normalize"),
        Some("我们使用 Saymore 开发".to_owned())
    );
    let words = store.hotwords("zh-CN").expect("hotwords");
    assert!(words.contains(&"Saymore".to_owned()));
    assert!(words.contains(&"CM".to_owned()));
}

#[test]
fn explicit_correction_creates_a_bilingual_entry() {
    let mut store = store();
    let entry = store
        .learn_correction(
            &CorrectionRequest {
                original_source: "我们使用 CM 开发".to_owned(),
                corrected_source: "我们使用 Saymore 开发".to_owned(),
                original_translation: "We develop with CM".to_owned(),
                corrected_translation: "We develop with Saymore".to_owned(),
                source_language: "zh".to_owned(),
                target_language: "en".to_owned(),
            },
            1,
        )
        .expect("correction")
        .expect("entry");
    assert_eq!(entry.source, "Saymore");
    assert_eq!(entry.target, "Saymore");
    assert_eq!(entry.aliases, vec!["CM"]);
}

#[test]
fn unchanged_text_teaches_nothing() {
    let mut store = store();
    let learned = store
        .learn_correction(
            &CorrectionRequest {
                original_source: "一样".to_owned(),
                corrected_source: " 一样 ".to_owned(),
                original_translation: "old".to_owned(),
                corrected_translation: "new".to_owned(),
                source_language: "zh".to_owned(),
                target_language: "en".to_owned(),
            },
            1,
        )
        .expect("correction");
    assert!(learned.is_none());
    assert!(store.list().expect("list").is_empty());
}

#[test]
fn upsert_merges_with_what_is_known() {
    let mut store = store();
    let first = store.upsert(&entry(" 词 ", &[" 别名 ", "词", "别名", ""]), 1).expect("first");
    assert_eq!(first.id, Some(1));
    assert_eq!(first.source, "词");
    assert_eq!(first.aliases, vec!["别名"]);
    let mut weaker = entry("词", &["其他"]);
    weaker.confidence = 0.25f64.to_bits();
    weaker.evidence_count = 1;
    weaker.target = "new target".to_owned();
    weaker.active = false;
    let second = store.upsert(&weaker, 2).expect("second");
    assert_eq!(second.id, Some(1));
    assert_eq!(second.target, "new target");
    assert_eq!(second.aliases, vec!["其他"]);
    assert_eq!(f64::from_bits(second.confidence), 1.0);
    assert_eq!(second.evidence_count, 2);
    assert!(!second.active);
    assert_eq!(store.list().expect("list").len(), 1);
    assert_eq!(store.find("词", "zh", "en").expect("find"), Some(second));
    assert_eq!(store.find("词", "en", "zh").expect("find"), None);
}

#[test]
fn entries_are_listed_from_the_latest_change() {
    let mut store = store();
    store.upsert(&entry("一", &[]), 10).expect("one");
    store.upsert(&entry("二", &[]), 20).expect("two");
    store.upsert(&entry("三", &[]), 20).expect("three");
    store.upsert(&entry("一", &[]), 30).expect("one again");
    let sources: Vec<String> = store.list().expect("list").into_iter().map(|e| e.source).collect();
    assert_eq!(sources, vec!["一", "三", "二"]);
}

#[test]
fn deleted_numbers_are_not_given_again() {
    let mut store = store();
    store.upsert(&entry("一", &[]), 1).expect("one");
    store.upsert(&entry("二", &[]), 2).expect("two");
    assert!(store.delete(2));
    assert!(!store.delete(2));
    let third = store.upsert(&entry("三", &[]), 3).expect("three");
    assert_eq!(third.id, Some(3));
    assert_eq!(store.last_id(), 3);
}

#[test]
fn invalid_entries_change_nothing() {
    let mut store = store();
    let mut invalid = entry("词", &[]);
    invalid.target_language = "zh".to_owned();
    let error = store.upsert(&invalid, 1).expect_err("invalid");
    assert_eq!(error.message(), "dictionary data is invalid: source and target languages must differ");
    assert!(store.list().expect("list").is_empty());
}

#[test]
fn a_full_table_takes_no_new_term() {
    let mut store = DictionaryStore::open(Vec::new(), i64::MAX);
    let error = store.upsert(&entry("词", &[]), 1).expect_err("full");
    assert_eq!(error, DictionaryError::Storage(StorageFault::Full));
    assert_eq!(error.message(), "dictionary storage failed: database or disk is full");
}

fn row(id: i64, source: &str, aliases_json: &str, updated_at_ms: i64) -> DictionaryRow {
    DictionaryRow {
        id,
        source: source.to_owned(),
        source_language: "zh".to_owned(),
        target: "t".to_owned(),
        target_language: "en".to_owned(),
        aliases_json: aliases_json.to_owned(),
        domain: "general".to_owned(),
        confidence: 1.0f64.to_bits(),
        evidence_count: 1,
        active: true,
        updated_at_ms,
    }
}

#[test]
fn stored_rows_are_read_in_order() {
    let store = DictionaryStore::open(
        vec![row(1, "一", r#"["a","b"]"#, 5), row(7, "二", "[]", 9)],
        3,
    );
    let entries = store.list().expect("list");
    assert_eq!(entries[0].source, "二");
    assert_eq!(entries[1].aliases, vec!["a", "b"]);
    assert_eq!(store.last_id(), 7);
    assert_eq!(store.row("一", "zh", "en").expect("row").aliases_json, r#"["a","b"]"#);
}

#[test]
fn broken_aliases_fail_every_reading() {
    let store = DictionaryStore::open(vec![row(1, "一", "[\"é", 5)], 1);
    let error = store.list().expect_err("broken");
    match &error {
        DictionaryError::Storage(StorageFault::Conversion { length, .. }) => assert_eq!(*length, 4),
        other => panic!("unexpected {other:?}"),
    }
    assert!(error
        .message()
        .starts_with("dictionary storage failed: Conversion error from type Text at index: 4, "));
    assert!(store.hotwords("zh").is_err());
    assert!(store.relevant("x", "zh", "en").is_err());
    assert!(store.normalize_source("x", "zh").is_err());
    assert!(store.find("一", "zh", "en").is_err());
}

#[test]
fn saved_aliases_are_stored_as_json() {
    let mut store = store();
    store.upsert(&entry("词", &["a\"b", "c"]), 1).expect("entry");
    assert_eq!(store.row("词", "zh", "en").expect("row").aliases_json, r#"["a\"b","c"]"#);
}

#[test]
fn relevant_entries_ignore_case_and_other_languages() {
    let mut store = store();
    store.upsert(&entry("DeepSeek", &["Deep Seek"]), 1).expect("entry");
    let mut other = entry("deepseek", &[]);
    other.source_language = "fr".to_owned();
    store.upsert(&other, 2).expect("other");
    let mut inactive = entry("seek", &[]);
    inactive.active = false;
    store.upsert(&inactive, 3).expect("inactive");
    let found = store.relevant("我用 DEEP SEEK", "zh_CN", "en-US").expect("relevant");
    assert_eq!(found.len(), 1);
    assert_eq!(found[0].source, "DeepSeek");
    assert!(store.relevant("别的", "zh", "en").expect("relevant").is_empty());
}

#[test]
fn other_errors_have_their_messages() {
    assert_eq!(
        DictionaryError::Filesystem("gone".to_owned()).message(),
        "dictionary filesystem failed: gone"
    );
    assert_eq!(
        DictionaryError::Aliases("bad".to_owned()).message(),
        "dictionary aliases are invalid JSON: bad"
    );
    assert_eq!(
        DictionaryError::Storage(StorageFault::Other("locked".to_owned())).message(),
        "dictionary storage failed: locked"
    );
}
