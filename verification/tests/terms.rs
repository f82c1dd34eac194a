use realtime_ai_translation::domain::{CorrectionRequest, GlossaryEntry};
use realtime_ai_translation::language::{base_language, language_matches};
use realtime_ai_translation::replace::{replace_case_insensitive, replace_lowered};
use realtime_ai_translation::terms::{
    changed_fragment, eligible_term, expected_words, lesson_of, mentions, normalize_terms,
    normalized_aliases, push_unique, relevant_entries, MAX_HOTWORDS, MAX_RELEVANT,
};

fn entry(source: &str, aliases: &[&str]) -> GlossaryEntry {
    GlossaryEntry {
        id: None,
        source: source.to_owned(),
        source_language: "zh".to_owned(),
        target: "t".to_owned(),
        target_language: "en".to_owned(),
        aliases: aliases.iter().map(|alias| (*alias).to_owned()).collect(),
        domain: "d".to_owned(),
        confidence: 1.0f64.to_bits(),
        evidence_count: 1,
        active: true,
    }
}

#[test]
fn replacement_ignores_case() {
    assert_eq!(
        replace_case_insensitive("Deep seek, DEEP SEEK!", "deep Seek", "DeepSeek"),
        Some("DeepSeek, DeepSeek!".to_owned())
    );
    assert_eq!(replace_case_insensitive("abc", "", "x"), Some("abc".to_owned()));
    assert_eq!(replace_case_insensitive("abc", "z", "x"), Some("abc".to_owned()));
    assert_eq!(replace_case_insensitive("我用CM和cm", "Cm", "词"), Some("我用词和词".to_owned()));
}

#[test]
fn replacement_stops_where_it_would_cut_a_character() {
    assert_eq!(replace_lowered("aé", "aab", "x", "b", "y"), Some("aé".to_owned()));
    assert_eq!(replace_lowered("ab", "aé", "bb", "a", "y"), None);
}

#[test]
fn longer_aliases_are_replaced_first() {
    let entries = vec![entry("甲", &["CM"]), entry("乙", &["CMX"])];
    assert_eq!(normalize_terms(&entries, "cmx cm", "zh"), Some("乙 甲".to_owned()));
    assert_eq!(normalize_terms(&entries, "cmx cm", "en"), Some("cmx cm".to_owned()));
}

#[test]
fn hotwords_are_distinct_and_few() {
    let entries = vec![entry("Term", &["TERM", "other"]), entry("OTHER", &["third"])];
    assert_eq!(expected_words(&entries, "zh-CN"), vec!["Term", "other", "third"]);
    let many: Vec<GlossaryEntry> = (0..60).map(|i| entry(&format!("word{i}"), &[])).collect();
    assert_eq!(expected_words(&many, "zh").len(), MAX_HOTWORDS);
    let wide: Vec<String> = (0..80).map(|i| format!("alias{i}")).collect();
    let mut big = entry("s", &[]);
    big.aliases = wide;
    assert_eq!(expected_words(&vec![big], "zh").len(), MAX_HOTWORDS);
}

#[test]
fn no_more_entries_than_a_translation_takes() {
    let many: Vec<GlossaryEntry> = (0..30).map(|_| entry("词", &[])).collect();
    assert_eq!(relevant_entries(&many, "一个词", "zh", "en").len(), MAX_RELEVANT);
}

#[test]
fn lists_hold_each_text_once() {
    let mut values = vec!["One".to_owned()];
    push_unique(&mut values, "oNE".to_owned());
    push_unique(&mut values, "two".to_owned());
    assert_eq!(values, vec!["One", "two"]);
    let aliases = vec![" a ".to_owned(), "A".to_owned(), "s".to_owned(), " ".to_owned()];
    assert_eq!(normalized_aliases(&aliases, "s"), vec!["a"]);
    assert!(mentions("xay", &vec!["q".to_owned(), "a".to_owned()]));
    assert!(!mentions("xay", &vec!["q".to_owned()]));
}

#[test]
fn only_the_changed_part_is_found() {
    assert_eq!(
        changed_fragment("我们使用 CM 开发", "我们使用 Saymore 开发"),
        ("CM".to_owned(), "Saymore".to_owned())
    );
    assert_eq!(changed_fragment("same", "same"), (String::new(), String::new()));
    assert_eq!(changed_fragment("aa", "aaa"), (String::new(), "a".to_owned()));
    assert_eq!(changed_fragment("", "x"), (String::new(), "x".to_owned()));
}

#[test]
fn terms_are_short_and_on_one_line() {
    assert!(eligible_term("词"));
    assert!(!eligible_term(""));
    assert!(!eligible_term("a\nb"));
    assert!(!eligible_term("a\rb"));
    assert!(eligible_term(&"x".repeat(64)));
    assert!(!eligible_term(&"x".repeat(65)));
}

#[test]
fn a_correction_without_a_usable_original_has_no_alias() {
    let lesson = lesson_of(&CorrectionRequest {
        original_source: "".to_owned(),
        corrected_source: "Aurora".to_owned(),
        original_translation: "".to_owned(),
        corrected_translation: "Dawn".to_owned(),
        source_language: "zh".to_owned(),
        target_language: "en".to_owned(),
    })
    .expect("lesson");
    assert_eq!(lesson.source, "Aurora");
    assert_eq!(lesson.target, "Dawn");
    assert!(lesson.aliases.is_empty());
    assert_eq!(lesson.domain, "learned");
    assert_eq!(lesson.evidence_count, 1);
}

#[test]
fn languages_match_by_their_first_part() {
    assert!(language_matches("zh", "zh-CN"));
    assert!(language_matches("ZH_tw", "zh-CN"));
    assert!(!language_matches("en", "zh"));
    assert_eq!(base_language("en_US"), "en");
    assert_eq!(base_language("zh"), "zh");
    assert_eq!(base_language("-x"), "");
}
