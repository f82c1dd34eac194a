use realtime_ai_translation::asr::{AsrProviderRegistry, BridgeFacts, PathFacts};
use realtime_ai_translation::config::{AppConfig, Environment};
use realtime_ai_translation::dictionary::DictionaryError;
use realtime_ai_translation::domain::{
    AsrEngine, AudioSource, CaptionState, SegmentSnapshot, ServerEvent, StartSessionRequest,
};
use realtime_ai_translation::server::{
    admit_session, deletion_outcome, dictionary_error_event, event_revision, health, socket_action,
    source_snapshot_event, validate_direction, InstallationFacts, SocketAction, SocketEvent,
};

fn request(source: &str, target: &str) -> StartSessionRequest {
    StartSessionRequest {
        source_language: source.to_owned(),
        target_language: target.to_owned(),
        audio_source: AudioSource::Microphone,
        asr_engine: AsrEngine::AppleSpeech,
    }
}

#[test]
fn later_asr_revisions_outrank_every_phase_of_older_text() {
    assert!(event_revision(4, 0) > event_revision(3, 2));
    assert!(event_revision(4, 2) > event_revision(4, 1));
}

#[test]
fn ranks_end_at_the_largest_number() {
    assert_eq!(event_revision(2, 1), 7);
    assert_eq!(event_revision(u64::MAX, 0), u64::MAX);
    assert_eq!(event_revision(u64::MAX / 3, 2), u64::MAX);
}

#[test]
fn only_chinese_and_english_are_translated() {
    assert!(validate_direction(&request("zh-CN", "en_US")).is_ok());
    assert!(validate_direction(&request("en", "zh")).is_ok());
    for (source, target) in [("zh", "zh"), ("fr", "en"), ("ZH", "en"), ("en", "")] {
        let error = validate_direction(&request(source, target)).expect_err("direction");
        assert_eq!(error.status, 400);
        assert_eq!(error.message, "MVP only supports Chinese-English translation");
    }
}

#[test]
fn sessions_are_refused_for_languages_before_the_dictionary() {
    let broken = || Err(DictionaryError::Filesystem("gone".to_owned()));
    assert_eq!(admit_session(&request("fr", "en"), broken()).expect_err("language").status, 400);
    let error = admit_session(&request("zh", "en"), broken()).expect_err("dictionary");
    assert_eq!(error.status, 500);
    assert_eq!(error.message, "dictionary filesystem failed: gone");
    assert_eq!(
        admit_session(&request("zh", "en"), Ok(vec!["词".to_owned()])),
        Ok(vec!["词".to_owned()])
    );
}

#[test]
fn deletions_are_announced_or_refused() {
    assert!(matches!(deletion_outcome(true), Ok(ServerEvent::DictionaryChanged)));
    let error = deletion_outcome(false).expect_err("missing");
    assert_eq!(error.status, 404);
    assert_eq!(error.message, "dictionary entry was not found");
}

#[test]
fn recognised_text_is_shown_at_once() {
    let event = source_snapshot_event(
        &request("zh", "en"),
        &SegmentSnapshot {
            segment_id: 4,
            revision: 3,
            state: CaptionState::Final,
            source_text: "你好".to_owned(),
        },
    );
    match event {
        ServerEvent::Caption {
            segment_id,
            revision,
            state,
            source_text,
            translation_text,
            source_language,
            target_language,
            llm_applied,
            latency_ms,
        } => {
            assert_eq!((segment_id, revision, state), (4, 9, CaptionState::Partial));
            assert_eq!(source_text, "你好");
            assert_eq!(translation_text, "");
            assert_eq!((source_language.as_str(), target_language.as_str()), ("zh", "en"));
            assert!(!llm_applied);
            assert_eq!(latency_ms, 0);
        }
        other => panic!("unexpected {other:?}"),
    }
    match dictionary_error_event(&DictionaryError::Invalid("x".to_owned())) {
        ServerEvent::Error { code, message } => {
            assert_eq!(code, "dictionary_failed");
            assert_eq!(message, "dictionary data is invalid: x");
        }
        other => panic!("unexpected {other:?}"),
    }
}

#[test]
fn health_says_what_is_there() {
    let config = AppConfig::from_env(&Environment {
        variables: vec![("RT_TRANSLATION_FAKE_TRANSLATION".to_owned(), Some("1".to_owned()))],
    });
    let registry = AsrProviderRegistry::new("/a".to_owned(), None);
    let directory = PathFacts { is_dir: true, is_file: false };
    let report = health(
        &config,
        &registry,
        InstallationFacts {
            speech_bridge_is_file: false,
            python_is_file: true,
            model_worker_is_file: true,
            bridges: BridgeFacts { apple_speech: directory, sherpa_onnx: directory },
        },
    );
    assert!(report.ok);
    assert!(report.fake_translation);
    assert!(report.model_worker_ready);
    assert!(!report.speech_bridge_ready);
    assert!(!report.llm_enabled);
    assert!(report.asr_providers[0].available);
    assert!(!report.asr_providers[1].available);
}

#[test]
fn sockets_live_until_they_close_or_fail() {
    assert_eq!(socket_action(SocketEvent::Announcement), SocketAction::Send);
    assert_eq!(socket_action(SocketEvent::ClientSpoke), SocketAction::Wait);
    assert_eq!(socket_action(SocketEvent::Missed), SocketAction::Wait);
    assert_eq!(socket_action(SocketEvent::ClientClosed), SocketAction::Leave);
    assert_eq!(socket_action(SocketEvent::NoMoreAnnouncements), SocketAction::Leave);
    assert_eq!(socket_action(SocketEvent::SendFailed), SocketAction::Leave);
}
