use realtime_ai_translation::domain::GlossaryEntry;
use realtime_ai_translation::translation::{
    exact_glossary_translation, exchange_outcome, is_installed, refuse, warmup_probe,
    worker_outcome, ExchangeEvent, FakeTranslator, PythonMarianTranslator, TranslationError,
    TranslationStep, WorkerResponse, WorkerState,
};

fn glossary() -> Vec<GlossaryEntry> {
    vec![GlossaryEntry {
        id: None,
        source: "实时翻译".to_owned(),
        source_language: "zh".to_owned(),
        target: "real-time translation".to_owned(),
        target_language: "en".to_owned(),
        aliases: vec!["RTT".to_owned()],
        domain: "AI".to_owned(),
        confidence: 1.0f64.to_bits(),
        evidence_count: 1,
        active: true,
    }]
}

fn response() -> WorkerResponse {
    WorkerResponse {
        id: Some(9),
        translation: Some(" Hello ".to_owned()),
        latency_ms: Some(12),
        error: None,
    }
}

#[test]
fn fake_translator_honors_an_exact_glossary_term() {
    let output = FakeTranslator.translate("实时翻译", "en", &glossary(), 0);
    assert_eq!(output.text, "real-time translation");
}

#[test]
fn translator_warmup_runs_a_small_inference() {
    let output = FakeTranslator.translate(warmup_probe("zh-CN"), "en-US", &[], 3);
    assert_eq!(output.text, "[en-US] 准备");
    assert_eq!(output.latency_ms, 3);
    assert_eq!(warmup_probe("ZH"), "准备");
    assert_eq!(warmup_probe("en"), "Ready");
}

#[test]
fn terms_need_no_worker() {
    assert_eq!(
        exact_glossary_translation(" rtt ", &glossary()),
        Some("real-time translation".to_owned())
    );
    assert_eq!(exact_glossary_translation("rtt!", &glossary()), None);
    match PythonMarianTranslator.translate("实时翻译 ", "zh", "en", &glossary()) {
        TranslationStep::Done(output) => {
            assert_eq!(output.text, "real-time translation");
            assert_eq!(output.latency_ms, 0);
        }
        TranslationStep::Ask(_) => panic!("a request"),
    }
}

#[test]
fn other_text_is_asked_of_the_worker() {
    match PythonMarianTranslator.translate_as(9, "你好", "zh", "en", &glossary()) {
        TranslationStep::Ask(request) => {
            assert_eq!(request.id, 9);
            assert_eq!(request.text, "你好");
            assert_eq!(request.source_language, "zh");
            assert_eq!(request.target_language, "en");
            assert_eq!(request.glossary, glossary());
        }
        TranslationStep::Done(_) => panic!("no request"),
    }
    let ids: Vec<u128> = (0..2)
        .map(|_| match PythonMarianTranslator.translate("你好", "zh", "en", &[]) {
            TranslationStep::Ask(request) => request.id,
            TranslationStep::Done(_) => panic!("no request"),
        })
        .collect();
    assert_ne!(ids[0], ids[1]);
}

#[test]
fn answers_are_checked() {
    let output = worker_outcome(9, response()).expect("translation");
    assert_eq!(output.text, " Hello ");
    assert_eq!(output.latency_ms, 12);
    let mismatch = worker_outcome(8, response()).expect_err("other request");
    assert_eq!(
        mismatch.message(),
        "translation failed: worker response id did not match request"
    );
    let unnamed = worker_outcome(9, WorkerResponse { id: None, ..response() });
    assert!(unnamed.is_err());
    let failed = worker_outcome(9, WorkerResponse { error: Some("oom".to_owned()), ..response() });
    assert_eq!(failed.expect_err("error"), TranslationError::Model("oom".to_owned()));
    let blank =
        worker_outcome(9, WorkerResponse { translation: Some(" ".to_owned()), ..response() });
    assert_eq!(
        blank.expect_err("blank"),
        TranslationError::Model("empty translation".to_owned())
    );
    let none = worker_outcome(9, WorkerResponse { translation: None, ..response() });
    assert!(none.is_err());
    let untimed = worker_outcome(9, WorkerResponse { latency_ms: None, ..response() });
    assert_eq!(untimed.expect("translation").latency_ms, 0);
}

#[test]
fn exchanges_end_in_a_translation_or_an_error() {
    assert!(exchange_outcome(9, ExchangeEvent::Answered(response())).is_ok());
    assert_eq!(
        exchange_outcome(9, ExchangeEvent::Malformed("eof".to_owned())).expect_err("bad").message(),
        "model worker protocol failed: eof"
    );
    assert_eq!(
        exchange_outcome(9, ExchangeEvent::IoFailed("pipe".to_owned())).expect_err("io").message(),
        "model worker I/O failed: pipe"
    );
    assert_eq!(
        exchange_outcome(9, ExchangeEvent::Ended).expect_err("end").message(),
        "model worker stopped unexpectedly"
    );
}

#[test]
fn workers_that_do_not_run_refuse() {
    assert!(is_installed(true, true));
    assert!(!is_installed(true, false));
    assert_eq!(
        refuse(&WorkerState::NotInstalled).expect("refusal").message(),
        "model worker is not installed; run scripts/setup-models.sh"
    );
    assert_eq!(
        refuse(&WorkerState::Failed("denied".to_owned())).expect("refusal").message(),
        "failed to start model worker: denied"
    );
    assert_eq!(refuse(&WorkerState::Unreachable), Some(TranslationError::Stopped));
    assert_eq!(refuse(&WorkerState::Running), None);
}
