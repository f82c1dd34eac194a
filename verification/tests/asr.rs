use realtime_ai_translation::asr::{
    launch_outcome, launch_plan, line_or_exit, new_socket_name, normalized_locale, socket_name,
    AsrError, AsrProviderRegistry, BridgeFacts, LaunchArgument, LaunchEvent, PathFacts,
};
use realtime_ai_translation::domain::{AsrEngine, AudioSource};
use realtime_ai_translation::identity::{id_digits, new_id};

const NOTHING: PathFacts = PathFacts { is_dir: false, is_file: false };
const DIRECTORY: PathFacts = PathFacts { is_dir: true, is_file: false };
const FILE: PathFacts = PathFacts { is_dir: false, is_file: true };

fn facts(apple_speech: PathFacts, sherpa_onnx: PathFacts) -> BridgeFacts {
    BridgeFacts { apple_speech, sherpa_onnx }
}

fn shown(arguments: &[LaunchArgument]) -> Vec<String> {
    arguments
        .iter()
        .map(|argument| match argument {
            LaunchArgument::Text(text) => text.clone(),
            LaunchArgument::BridgePath => "<bridge>".to_owned(),
            LaunchArgument::SocketPath => "<socket>".to_owned(),
        })
        .collect()
}

#[test]
fn maps_mvp_languages_to_provider_locales() {
    assert_eq!(normalized_locale("zh"), "zh-CN");
    assert_eq!(normalized_locale("zh-CN"), "zh-CN");
    assert_eq!(normalized_locale("en"), "en-US");
}

#[test]
fn registry_reports_lazy_provider_availability_without_starting_processes() {
    let registry = AsrProviderRegistry::new("/missing/apple".to_owned(), None);
    let statuses = registry.statuses(facts(NOTHING, NOTHING));

    assert_eq!(statuses.len(), 2);
    assert_eq!(statuses[0].id, "apple_speech");
    assert!(!statuses[0].available);
    assert_eq!(statuses[0].load_policy, "on_session_start");
    assert_eq!(statuses[1].id, "sherpa_onnx");
    assert!(!statuses[1].available);
}

#[test]
fn other_languages_map_to_chinese() {
    assert_eq!(normalized_locale("EN_gb"), "en-US");
    assert_eq!(normalized_locale("fr"), "zh-CN");
    assert_eq!(normalized_locale("e"), "zh-CN");
}

#[test]
fn bridges_are_available_by_their_kind() {
    let registry = AsrProviderRegistry::new("/a".to_owned(), Some("/s".to_owned()));
    assert!(registry.available(AsrEngine::AppleSpeech, facts(DIRECTORY, NOTHING)));
    assert!(!registry.available(AsrEngine::AppleSpeech, facts(FILE, FILE)));
    assert!(registry.available(AsrEngine::SherpaOnnx, facts(NOTHING, FILE)));
    assert!(registry.available(AsrEngine::SherpaOnnx, facts(NOTHING, DIRECTORY)));
    assert!(!registry.available(AsrEngine::SherpaOnnx, facts(DIRECTORY, NOTHING)));
}

#[test]
fn bundles_are_launched_through_the_system() {
    let registry = AsrProviderRegistry::new("/a".to_owned(), Some("/s".to_owned()));
    let plan = registry
        .start(
            AsrEngine::AppleSpeech,
            facts(DIRECTORY, NOTHING),
            "zh",
            AudioSource::Microphone,
            &["词".to_owned(), "b".to_owned()],
        )
        .expect("plan");
    assert_eq!(plan.program, Some("/usr/bin/open"));
    assert_eq!(
        shown(&plan.arguments),
        vec![
            "-n", "-W", "-a", "<bridge>", "--args", "--socket", "<socket>", "--locale", "zh-CN",
            "--audio-source", "microphone", "--term", "词", "--term", "b",
        ]
    );
    let program = registry
        .start(AsrEngine::SherpaOnnx, facts(NOTHING, FILE), "en", AudioSource::SystemAudio, &[])
        .expect("plan");
    assert_eq!(program.program, None);
    assert_eq!(
        shown(&program.arguments),
        vec!["--socket", "<socket>", "--locale", "en-US", "--audio-source", "system_audio"]
    );
    let sherpa_bundle = registry
        .start(AsrEngine::SherpaOnnx, facts(NOTHING, DIRECTORY), "en", AudioSource::SystemAudio, &[])
        .expect("plan");
    assert_eq!(sherpa_bundle.program, Some("/usr/bin/open"));
    assert_eq!(launch_plan(false, "en", AudioSource::Microphone, &[]).program, None);
}

#[test]
fn bridges_that_cannot_be_launched_say_why() {
    let registry = AsrProviderRegistry::new("/a".to_owned(), None);
    let missing = registry
        .start(AsrEngine::AppleSpeech, facts(FILE, FILE), "zh", AudioSource::Microphone, &[])
        .expect_err("missing");
    assert_eq!(missing.message(), "Apple Speech bridge 不存在：/a");
    let unset = registry
        .start(AsrEngine::SherpaOnnx, facts(FILE, FILE), "zh", AudioSource::Microphone, &[])
        .expect_err("unset");
    assert_eq!(unset.message(), "Sherpa-ONNX 尚未配置；请设置 RT_TRANSLATION_SHERPA_BRIDGE");
}

#[test]
fn launches_end_in_a_connection_or_an_error() {
    assert!(launch_outcome(AsrEngine::AppleSpeech, LaunchEvent::Connected).is_ok());
    assert_eq!(
        launch_outcome(AsrEngine::AppleSpeech, LaunchEvent::Ended("exit status: 1".to_owned()))
            .expect_err("ended")
            .message(),
        "Apple Speech bridge 在连接前退出：exit status: 1"
    );
    assert_eq!(
        launch_outcome(AsrEngine::SherpaOnnx, LaunchEvent::TimedOut)
            .expect_err("late")
            .message(),
        "等待 Sherpa-ONNX bridge 连接超时"
    );
    assert_eq!(line_or_exit(Some("{}".to_owned())), Ok("{}".to_owned()));
    assert_eq!(line_or_exit(None), Err(AsrError::Exited));
    assert_eq!(AsrError::Exited.message(), "ASR bridge 已退出");
    assert_eq!(
        AsrError::Start { engine: AsrEngine::AppleSpeech, source: "denied".to_owned() }.message(),
        "无法启动 Apple Speech bridge：denied"
    );
    assert_eq!(AsrError::Io("eof".to_owned()).message(), "ASR bridge I/O 失败：eof");
    assert_eq!(
        AsrError::Protocol("bad".to_owned()).message(),
        "ASR bridge 返回了无效 JSON：bad"
    );
}

#[test]
fn sockets_are_named_by_identifiers() {
    assert_eq!(socket_name(0x1f), "rt-asr-0000000000000000000000000000001f.sock");
    let first = new_socket_name();
    let second = new_socket_name();
    assert_ne!(first, second);
    assert_eq!(first.len(), 44);
    assert!(format!("/tmp/{first}").len() <= 104);
}

#[test]
fn identifiers_are_random_and_written_in_hexadecimal() {
    let id = new_id();
    assert_eq!((id >> 76) & 0xf, 4);
    assert_eq!((id >> 62) & 0x3, 2);
    assert_ne!(id, new_id());
    assert_eq!(id_digits(u128::MAX), "f".repeat(32));
    assert_eq!(id_digits(id), format!("{id:032x}"));
}
