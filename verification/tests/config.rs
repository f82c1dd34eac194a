use realtime_ai_translation::config::{
    load_local_env, unquote, AppConfig, ConfigError, Environment, PathSetting,
};
use realtime_ai_translation::number::{decimal, parse_u64, rank_of_double};

fn environment(variables: &[(&str, &str)]) -> Environment {
    Environment {
        variables: variables
            .iter()
            .map(|(name, value)| ((*name).to_owned(), Some((*value).to_owned())))
            .collect(),
    }
}

#[test]
fn unquotes_local_values() {
    assert_eq!(unquote("plain"), "plain");
    assert_eq!(unquote("\"quoted\""), "quoted");
    assert_eq!(unquote("'single'"), "single");
}

#[test]
fn unmatched_quotes_stay() {
    assert_eq!(unquote("\"open"), "\"open");
    assert_eq!(unquote("\"mixed'"), "\"mixed'");
    assert_eq!(unquote("\""), "\"");
    assert_eq!(unquote("''"), "");
}

#[test]
fn an_empty_environment_gives_the_defaults() {
    let config = AppConfig::from_env(&environment(&[]));
    assert_eq!(config.listen, "127.0.0.1:8765");
    assert!(!config.fake_translation);
    assert_eq!(config.segment_idle_ms, 1_500);
    assert_eq!(config.preview_interval_ms, 200);
    assert!(!config.llm.enabled);
    assert_eq!(config.llm.base_url, "https://api.openai.com/v1");
    assert_eq!(config.llm.api_key, "");
    assert_eq!(config.llm.model, "");
    assert_eq!(config.llm.timeout_seconds, 20);
    assert!(!config.llm.thinking_disabled);
}

#[test]
fn the_environment_sets_what_it_names() {
    let config = AppConfig::from_env(&environment(&[
        ("RT_TRANSLATION_LISTEN", "0.0.0.0:1"),
        ("RT_TRANSLATION_FAKE_TRANSLATION", "YES"),
        ("RT_TRANSLATION_SEGMENT_IDLE_MS", "+900"),
        ("RT_TRANSLATION_PREVIEW_INTERVAL_MS", "5000"),
        ("RT_TRANSLATION_LLM_ENABLED", "on"),
        ("RT_TRANSLATION_LLM_MODEL", "m"),
        ("RT_TRANSLATION_LLM_TIMEOUT", "x"),
        ("RT_TRANSLATION_LLM_THINKING_DISABLED", "0"),
    ]));
    assert_eq!(config.listen, "0.0.0.0:1");
    assert!(config.fake_translation);
    assert_eq!(config.segment_idle_ms, 900);
    assert_eq!(config.preview_interval_ms, 1_000);
    assert!(config.llm.enabled);
    assert_eq!(config.llm.model, "m");
    assert_eq!(config.llm.timeout_seconds, 20);
    assert!(!config.llm.thinking_disabled);
    let fast = AppConfig::from_env(&environment(&[("RT_TRANSLATION_PREVIEW_INTERVAL_MS", "1")]));
    assert_eq!(fast.preview_interval_ms, 100);
}

#[test]
fn the_local_file_fills_in_what_is_not_set() {
    let mut environment = environment(&[("KEPT", "old")]);
    let outcome = load_local_env(
        "# comment\n\n KEPT = new\nADDED='a b'\r\nADDED=again\nEMPTY=\n",
        &mut environment,
    );
    assert_eq!(outcome, Ok(()));
    assert_eq!(environment.value("KEPT"), Some("old".to_owned()));
    assert_eq!(environment.value("ADDED"), Some("a b".to_owned()));
    assert_eq!(environment.value("EMPTY"), Some(String::new()));
    assert_eq!(environment.value("OTHER"), None);
    assert_eq!(environment.variables.len(), 3);
}

#[test]
fn values_that_are_no_text_still_win() {
    let mut environment = Environment { variables: vec![("RAW".to_owned(), None)] };
    assert!(environment.has("RAW"));
    assert_eq!(load_local_env("RAW=1", &mut environment), Ok(()));
    assert_eq!(environment.value("RAW"), None);
}

#[test]
fn wrong_lines_are_named() {
    let mut environment = environment(&[]);
    let entry = load_local_env("A=1\nno assignment\nB=2", &mut environment);
    assert_eq!(entry, Err(ConfigError::InvalidEntry(2)));
    assert_eq!(
        ConfigError::InvalidEntry(2).message(),
        "invalid .env.local entry on line 2"
    );
    assert_eq!(environment.value("A"), Some("1".to_owned()));
    assert!(!environment.has("B"));
    let variable = load_local_env("\nA-B=1", &mut environment);
    assert_eq!(variable, Err(ConfigError::InvalidVariable(2)));
    assert_eq!(
        ConfigError::InvalidVariable(12).message(),
        "invalid .env.local variable on line 12"
    );
    assert_eq!(load_local_env("=1", &mut environment), Err(ConfigError::InvalidVariable(1)));
}

#[test]
fn paths_have_variables_and_defaults() {
    assert_eq!(PathSetting::Database.variable(), "RT_TRANSLATION_DB");
    assert_eq!(PathSetting::Database.default_path(), Some("data/dictionary.sqlite3"));
    assert_eq!(PathSetting::SherpaBridge.default_path(), Some("scripts/sherpa-onnx-bridge"));
    assert_eq!(PathSetting::Python.default_path(), Some(".venv/bin/python"));
    assert_eq!(PathSetting::ModelWorker.variable(), "RT_TRANSLATION_MODEL_WORKER");
    assert_eq!(
        PathSetting::OverlayApp.default_path(),
        Some("target/RealtimeTranslationOverlay.app")
    );
    assert_eq!(PathSetting::SpeechBridge.variable(), "RT_TRANSLATION_SPEECH_BRIDGE");
}

#[test]
fn numbers_are_read_and_written() {
    assert_eq!(parse_u64("0"), Some(0));
    assert_eq!(parse_u64("18446744073709551615"), Some(u64::MAX));
    assert_eq!(parse_u64("18446744073709551616"), None);
    assert_eq!(parse_u64("+"), None);
    assert_eq!(parse_u64(""), None);
    assert_eq!(parse_u64("-1"), None);
    assert_eq!(parse_u64("1 "), None);
    assert_eq!(parse_u64("007"), Some(7));
    assert_eq!(decimal(0), "0");
    assert_eq!(decimal(9_876_543_210), "9876543210");
}

#[test]
fn doubles_are_ranked_by_value() {
    let mut doubles = vec![1.0f64, -1.0, 0.0, -0.0, 2.5, f64::NEG_INFINITY, -3.0];
    doubles.sort_by_key(|double| rank_of_double(double.to_bits()));
    let mut expected = doubles.clone();
    expected.sort_by(f64::total_cmp);
    assert_eq!(format!("{doubles:?}"), format!("{expected:?}"));
}
