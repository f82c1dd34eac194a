use realtime_ai_translation::domain::{
    default_active, default_confidence, default_domain, default_evidence, AsrEngine, AudioSource,
    GlossaryEntry, StartSessionRequest,
};

fn request(json: &str) -> StartSessionRequest {
    let value: serde_json::Value = serde_json::from_str(json).expect("JSON");
    let text = |name: &str| value[name].as_str().expect("text").to_owned();
    StartSessionRequest {
        source_language: text("source_language"),
        target_language: text("target_language"),
        audio_source: match value.get("audio_source").and_then(|v| v.as_str()) {
            Some("system_audio") => AudioSource::SystemAudio,
            Some(_) => AudioSource::Microphone,
            None => AudioSource::default(),
        },
        asr_engine: match value.get("asr_engine").and_then(|v| v.as_str()) {
            Some("sherpa_onnx") => AsrEngine::SherpaOnnx,
            Some(_) => AsrEngine::AppleSpeech,
            None => AsrEngine::default(),
        },
    }
}

#[test]
fn session_defaults_to_microphone_for_old_clients() {
    let request = request(r#"{"source_language": "zh-CN", "target_language": "en-US"}"#);
    assert_eq!(request.audio_source, AudioSource::Microphone);
    assert_eq!(request.asr_engine, AsrEngine::AppleSpeech);
}

#[test]
fn session_accepts_system_audio() {
    let request = request(
        r#"{"source_language": "en-US", "target_language": "zh-CN", "audio_source": "system_audio"}"#,
    );
    assert_eq!(request.audio_source, AudioSource::SystemAudio);
    assert_eq!(request.audio_source.bridge_argument(), "system_audio");
}

#[test]
fn session_accepts_replaceable_asr_engine() {
    let request = request(
        r#"{"source_language": "en-US", "target_language": "zh-CN", "asr_engine": "sherpa_onnx"}"#,
    );
    assert_eq!(request.asr_engine, AsrEngine::SherpaOnnx);
    assert_eq!(request.asr_engine.id(), "sherpa_onnx");
}

fn entry() -> GlossaryEntry {
    GlossaryEntry {
        id: None,
        source: "实时翻译".to_owned(),
        source_language: "zh".to_owned(),
        target: "real-time translation".to_owned(),
        target_language: "en".to_owned(),
        aliases: Vec::new(),
        domain: default_domain(),
        confidence: default_confidence(),
        evidence_count: default_evidence(),
        active: default_active(),
    }
}

#[test]
fn entries_are_validated() {
    assert_eq!(entry().validate(), Ok(()));
    let mut blank = entry();
    blank.target = "  ".to_owned();
    assert_eq!(blank.validate(), Err("source and target are required"));
    let mut same = entry();
    same.target_language = "zh".to_owned();
    assert_eq!(same.validate(), Err("source and target languages must differ"));
    for confidence in [1.5f64, -0.1, f64::NAN, f64::INFINITY] {
        let mut odd = entry();
        odd.confidence = confidence.to_bits();
        assert_eq!(odd.validate(), Err("confidence must be between 0 and 1"));
    }
    for confidence in [0.0f64, -0.0, 0.5, 1.0] {
        let mut fine = entry();
        fine.confidence = confidence.to_bits();
        assert_eq!(fine.validate(), Ok(()));
    }
}

#[test]
fn defaults_fill_in_what_an_entry_leaves_open() {
    assert_eq!(default_domain(), "general");
    assert_eq!(f64::from_bits(default_confidence()), 1.0);
    assert_eq!(default_evidence(), 1);
    assert!(default_active());
    assert_eq!(AudioSource::SystemAudio.description(), "系统音频");
    assert_eq!(AudioSource::Microphone.bridge_argument(), "microphone");
    assert_eq!(AsrEngine::AppleSpeech.description(), "Apple Speech");
}
