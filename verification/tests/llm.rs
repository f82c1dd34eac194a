use realtime_ai_translation::config::LlmConfig;
use realtime_ai_translation::domain::GlossaryEntry;
use realtime_ai_translation::llm::{
    may_correct, refinement_content, reply_from, settle, LlmError, LlmRefinementInput, LlmRefiner,
    LlmReply, RefinementStep, TRANSLATION_REFINEMENT_PROMPT,
};

fn config() -> LlmConfig {
    LlmConfig {
        enabled: true,
        base_url: "http://127.0.0.1:1/v1".to_owned(),
        api_key: "test-key".to_owned(),
        model: "test-model".to_owned(),
        timeout_seconds: 2,
        thinking_disabled: false,
    }
}

fn input<'a>() -> LlmRefinementInput<'a> {
    LlmRefinementInput {
        source_text: "你好",
        draft_translation: "Hello",
        source_language: "zh",
        target_language: "en",
        previous_context: &[],
        glossary: &[],
        reference_document: None,
    }
}

#[test]
fn disabled_llm_returns_the_draft_without_a_request() {
    let refiner = LlmRefiner::new(LlmConfig {
        enabled: false,
        base_url: "http://127.0.0.1:1/v1".to_owned(),
        api_key: String::new(),
        model: String::new(),
        timeout_seconds: 1,
        thinking_disabled: false,
    });
    match refiner.refine(&input()) {
        RefinementStep::Done(output) => {
            assert_eq!(output.text, "Hello");
            assert!(!output.applied);
        }
        RefinementStep::Ask(_) => panic!("a request"),
    }
    let nameless = LlmRefiner::new(LlmConfig { model: "  ".to_owned(), ..config() });
    assert!(matches!(nameless.refine(&input()), RefinementStep::Done(_)));
}

#[test]
fn enabled_llm_uses_openai_compatible_chat_completions() {
    let refiner = LlmRefiner::new(LlmConfig {
        base_url: "http://127.0.0.1:1/v1//".to_owned(),
        ..config()
    });
    let context = [("上一句".to_owned(), "Previous sentence.".to_owned())];
    let input = LlmRefinementInput {
        source_text: "这是最终译文。",
        draft_translation: "This is final translation.",
        source_language: "zh",
        target_language: "en",
        previous_context: &context,
        glossary: &[],
        reference_document: None,
    };
    let call = match refiner.refine(&input) {
        RefinementStep::Ask(call) => call,
        RefinementStep::Done(_) => panic!("no request"),
    };
    assert_eq!(call.endpoint, "http://127.0.0.1:1/v1/chat/completions");
    assert_eq!(call.bearer, Some("test-key".to_owned()));
    assert_eq!(call.request.model, "test-model");
    assert!(call.request.thinking.is_none());
    assert_eq!(call.request.messages.len(), 2);
    assert_eq!(call.request.messages[0].role, "system");
    assert_eq!(call.request.messages[0].content, TRANSLATION_REFINEMENT_PROMPT);
    assert_eq!(call.request.messages[1].role, "user");
    assert_eq!(call.request.messages[1].content, refinement_content(&input));
    let output = LlmRefiner::conclude(
        input.source_text,
        input.draft_translation,
        &[" This is the polished final translation.\n".to_owned()],
        7,
    )
    .expect("refined translation");
    assert_eq!(output.text, "This is the polished final translation.");
    assert!(output.applied);
    assert_eq!(output.latency_ms, 7);
}

#[test]
fn fast_model_request_can_disable_thinking() {
    let refiner = LlmRefiner::new(LlmConfig {
        model: "deepseek-v4-flash".to_owned(),
        thinking_disabled: true,
        api_key: " ".to_owned(),
        ..config()
    });
    match refiner.refine(&input()) {
        RefinementStep::Ask(call) => {
            assert_eq!(call.request.thinking.expect("thinking").mode, "disabled");
            assert!(call.bearer.is_none());
        }
        RefinementStep::Done(_) => panic!("no request"),
    }
}

#[test]
fn conservative_prompt_preserves_speech_acts_and_context_boundaries() {
    assert!(TRANSLATION_REFINEMENT_PROMPT.contains("A question stays a question"));
    assert!(TRANSLATION_REFINEMENT_PROMPT.contains("unfinished fragment"));
    assert!(TRANSLATION_REFINEMENT_PROMPT.contains("context only"));
    assert!(TRANSLATION_REFINEMENT_PROMPT.contains("Never copy, repeat, summarize"));
    assert!(TRANSLATION_REFINEMENT_PROMPT.contains("strong phonetic/contextual match"));
    assert!(TRANSLATION_REFINEMENT_PROMPT.contains("Coverage:"));
    assert!(TRANSLATION_REFINEMENT_PROMPT.contains("Boundary:"));
    assert!(TRANSLATION_REFINEMENT_PROMPT.contains("corrected_source"));
    assert!(TRANSLATION_REFINEMENT_PROMPT.contains("JSON object"));
}

#[test]
fn refinement_content_separates_current_context_and_glossary() {
    let glossary = vec![GlossaryEntry {
        id: Some(1),
        source: "低配色可".to_owned(),
        source_language: "zh-CN".to_owned(),
        target: "DeepSeek".to_owned(),
        target_language: "en-US".to_owned(),
        aliases: vec!["Deep Seek".to_owned()],
        domain: "general".to_owned(),
        confidence: 1.0f64.to_bits(),
        evidence_count: 1,
        active: true,
    }];
    let payload: serde_json::Value = serde_json::from_str(&refinement_content(&LlmRefinementInput {
        source_text: "这一段",
        draft_translation: "This segment",
        source_language: "zh-CN",
        target_language: "en-US",
        previous_context: &[("上一段".to_owned(), "Previous segment".to_owned())],
        glossary: &glossary,
        reference_document: Some("Aurora 是产品名。"),
    }))
    .expect("valid refinement JSON");

    assert_eq!(payload["current_segment"]["source_text"], "这一段");
    assert_eq!(payload["previous_segments"][0]["source_text"], "上一段");
    assert_eq!(payload["glossary"][0]["target"], "DeepSeek");
    assert_eq!(payload["reference_document"], "Aurora 是产品名。");
    assert!(payload["glossary"][0].get("confidence").is_none());
    assert_eq!(payload["source_language"], "zh-CN");
    assert_eq!(payload["target_language"], "en-US");
    assert_eq!(payload["current_segment"]["draft_translation"], "This segment");
    assert_eq!(payload["previous_segments"][0]["translation"], "Previous segment");
    assert_eq!(payload["glossary"][0]["source"], "低配色可");
    assert_eq!(payload["glossary"][0]["aliases"][0], "Deep Seek");
}

#[test]
fn refinement_content_is_compact_json() {
    assert_eq!(
        refinement_content(&input()),
        r#"{"current_segment":{"draft_translation":"Hello","source_text":"你好"},"glossary":[],"previous_segments":[],"reference_document":null,"source_language":"zh","target_language":"en"}"#
    );
}

#[test]
fn implausible_answers_are_refused() {
    assert_eq!(LlmRefiner::conclude("原文", "draft", &[], 1).expect_err("none"), LlmError::Empty);
    assert_eq!(
        LlmRefiner::conclude("原文", "draft", &[" \n".to_owned(), "second".to_owned()], 1)
            .expect_err("blank"),
        LlmError::Empty
    );
    assert!(LlmRefiner::conclude("原文", "draft", &["x".repeat(256)], 1).is_ok());
    assert_eq!(
        LlmRefiner::conclude("原文", "draft", &["x".repeat(257)], 1).expect_err("long"),
        LlmError::TooLong
    );
    assert!(LlmRefiner::conclude("原文", &"d".repeat(100), &["x".repeat(400)], 1).is_ok());
    assert_eq!(
        LlmRefiner::conclude("原文", &"d".repeat(100), &["x".repeat(401)], 1).expect_err("long"),
        LlmError::TooLong
    );
}

#[test]
fn a_structured_answer_gives_translation_and_corrected_source() {
    let answer = r#"{"corrected_source":" 我想使用 DeepSeek ","translation":" I want to use DeepSeek.\n"}"#;
    let output = LlmRefiner::conclude(
        "我想使用低配色可",
        "I want to use low color.",
        &[answer.to_owned()],
        3,
    )
    .expect("refined translation");
    assert_eq!(output.text, "I want to use DeepSeek.");
    assert_eq!(output.corrected_source, Some("我想使用 DeepSeek".to_owned()));
    assert!(output.applied);
    let answer = r#"{"corrected_source":" 我想使用实时翻译。 ","translation":"Hello"}"#;
    let output = LlmRefiner::conclude("我想使用实时翻一", "Hi", &[answer.to_owned()], 3)
        .expect("refined translation");
    assert_eq!(output.text, "Hello");
    assert_eq!(output.corrected_source, Some("我想使用实时翻译。".to_owned()));
}

#[test]
fn an_answer_without_a_translation_is_plain_text() {
    for answer in [
        "Hello",
        r#"{"text":"Hello"}"#,
        r#"{"translation":7}"#,
        r#"["translation"]"#,
        "12",
        r#"{"translation":"Hello""#,
    ] {
        let output = LlmRefiner::conclude("你好", "Hi", &[answer.to_owned()], 1).expect("plain");
        assert_eq!(output.text, answer);
        assert_eq!(output.corrected_source, None);
    }
    assert_eq!(
        LlmRefiner::conclude("你好", "Hi", &[r#"{"translation":" "}"#.to_owned()], 1)
            .expect_err("blank"),
        LlmError::Empty
    );
    let long = format!("{{\"translation\":\"{}\"}}", "x".repeat(257));
    assert_eq!(
        LlmRefiner::conclude("你好", "Hi", &[long], 1).expect_err("long"),
        LlmError::TooLong
    );
}

#[test]
fn replies_are_read_from_documents() {
    let parsed = serde_json::from_str(r#"{"translation":"a","corrected_source":null}"#).ok();
    let reply = reply_from("answer", parsed);
    assert_eq!(reply.translation, "a");
    assert_eq!(reply.corrected_source, None);
    let plain = reply_from("answer", None);
    assert_eq!(plain.translation, "answer");
    assert_eq!(plain.corrected_source, None);
}

#[test]
fn aggressive_rewrites_of_the_source_are_dropped() {
    assert!(may_correct("abcde", "abcde"));
    assert!(may_correct("abcde", "abxyz"));
    assert!(!may_correct("abcde", "avxyz"));
    assert!(may_correct("ab", "abx"));
    assert!(!may_correct("ab", "abcde"));
    assert!(!may_correct("abcde", "ab"));
    assert!(!may_correct("abcde", ""));
    assert!(!may_correct("", "a"));
    let reply = LlmReply {
        translation: "text".to_owned(),
        corrected_source: Some("完全不同的另一句话".to_owned()),
    };
    let (text, corrected) = settle("今天天气怎么样", "draft", &reply).expect("translation");
    assert_eq!(text, "text");
    assert_eq!(corrected, None);
}

#[test]
fn refinement_errors_have_their_messages() {
    assert_eq!(LlmError::Request("timed out".to_owned()).message(), "LLM request failed: timed out");
    assert_eq!(LlmError::Empty.message(), "LLM returned no translation");
    assert_eq!(LlmError::TooLong.message(), "LLM returned an implausibly long translation");
}
