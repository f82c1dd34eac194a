use realtime_ai_translation::asr::AsrEvent;
use realtime_ai_translation::dictionary::{DictionaryError, DictionaryRow, DictionaryStore};
use realtime_ai_translation::domain::{
    AsrEngine, AudioSource, CaptionState, GlossaryEntry, SegmentSnapshot, ServerEvent,
    StartSessionRequest,
};
use realtime_ai_translation::job::{ContextMemory, GateMode, PlannedJob, SnapshotJob};
use realtime_ai_translation::llm::{LlmError, LlmOutput};
use realtime_ai_translation::session::{
    ended_event, start_failure_events, waiting_event, SessionAction, SessionInput, SessionLoop,
    SessionRegistry,
};
use realtime_ai_translation::streaming::{TranslationPhase, TranslationStateMachine};
use realtime_ai_translation::translation::{
    FakeTranslator, PythonMarianTranslator, TranslationError, TranslationOutput, TranslationStep,
};

const MS: u128 = 1_000_000;

fn request() -> StartSessionRequest {
    StartSessionRequest {
        source_language: "zh-CN".to_owned(),
        target_language: "en-US".to_owned(),
        audio_source: AudioSource::Microphone,
        asr_engine: AsrEngine::AppleSpeech,
    }
}

fn session() -> SessionLoop {
    SessionLoop::new(request(), 900 * MS, 500 * MS)
}

fn partial(text: &str) -> SessionInput {
    SessionInput::Heard(AsrEvent::Partial { text: text.to_owned() })
}

fn shown(actions: &[SessionAction]) -> Vec<String> {
    actions
        .iter()
        .map(|action| match action {
            SessionAction::Emit(ServerEvent::Caption { revision, source_text, .. }) => {
                format!("show {revision} {source_text}")
            }
            SessionAction::Emit(ServerEvent::Error { code, message }) => {
                format!("error {code} {message}")
            }
            SessionAction::Emit(ServerEvent::SessionStatus { running, message }) => {
                format!("status {running} {message}")
            }
            SessionAction::Emit(ServerEvent::DictionaryChanged) => "dictionary".to_owned(),
            SessionAction::Translate(snapshot) => {
                format!("translate {:?} {}", snapshot.state, snapshot.source_text)
            }
        })
        .collect()
}

#[test]
fn running_text_is_shown_and_previewed_now_and_then() {
    let mut session = session();
    assert_eq!(
        shown(&session.handle(partial("一"), 0)),
        vec!["show 3 一", "translate Partial 一"]
    );
    assert_eq!(shown(&session.handle(partial("一二"), 499 * MS)), vec!["show 6 一二"]);
    assert_eq!(
        shown(&session.handle(partial("一二三"), 500 * MS)),
        vec!["show 9 一二三", "translate Partial 一二三"]
    );
    assert!(session.handle(partial("一二三"), 600 * MS).is_empty());
}

#[test]
fn idle_segments_are_closed() {
    let mut session = session();
    session.handle(partial("一"), 0);
    assert!(session.handle(SessionInput::Tick, 899 * MS).is_empty());
    assert_eq!(
        shown(&session.handle(SessionInput::Tick, 900 * MS)),
        vec!["show 6 一", "translate Final 一"]
    );
    assert!(session.handle(SessionInput::Tick, 9_000 * MS).is_empty());
}

#[test]
fn final_text_closes_its_segment() {
    let mut session = session();
    let input = SessionInput::Heard(AsrEvent::Final { text: "好。".to_owned() });
    assert_eq!(
        shown(&session.handle(input, 0)),
        vec!["show 3 好。", "show 6 好。", "translate Final 好。"]
    );
    assert!(!session.is_over());
}

#[test]
fn captions_move_forward() {
    let mut session = session();
    let mut places: Vec<(u64, u64)> = Vec::new();
    let inputs = [
        partial("一"),
        partial("一二"),
        SessionInput::Heard(AsrEvent::Final { text: "一二三。".to_owned() }),
        partial("一二三。四"),
        partial("别的"),
        SessionInput::Stop,
    ];
    for (step, input) in inputs.into_iter().enumerate() {
        for action in session.handle(input, step as u128 * 100 * MS) {
            if let SessionAction::Emit(ServerEvent::Caption { segment_id, revision, .. }) = action {
                places.push((segment_id, revision));
            }
        }
    }
    assert_eq!(places, vec![(1, 3), (1, 6), (1, 9), (1, 12), (2, 3), (3, 3), (3, 6)]);
}

#[test]
fn readiness_is_announced() {
    let mut session = session();
    let input = SessionInput::Heard(AsrEvent::Ready { locale: "zh-CN".to_owned() });
    assert_eq!(
        shown(&session.handle(input, 0)),
        vec!["status true Apple Speech 已就绪：zh-CN"]
    );
}

#[test]
fn a_session_ends_with_what_was_still_said() {
    let mut stopped = session();
    stopped.handle(partial("一"), 0);
    assert_eq!(
        shown(&stopped.handle(SessionInput::Stop, MS)),
        vec!["show 6 一", "translate Final 一"]
    );
    assert!(stopped.is_over());
    assert!(stopped.handle(partial("二"), 2 * MS).is_empty());

    let mut failed = session();
    let error = SessionInput::Heard(AsrEvent::Error { message: "no mic".to_owned() });
    assert_eq!(shown(&failed.handle(error, 0)), vec!["error asr_failed no mic"]);
    assert!(failed.is_over());

    let mut broken = session();
    broken.handle(partial("一"), 0);
    assert_eq!(
        shown(&broken.handle(SessionInput::BridgeFailed("eof".to_owned()), MS)),
        vec!["error asr_bridge_failed eof", "show 6 一", "translate Final 一"]
    );
    assert!(broken.is_over());
}

#[test]
fn session_states_are_announced() {
    assert!(matches!(
        waiting_event(AsrEngine::AppleSpeech),
        ServerEvent::SessionStatus { running: true, message } if message == "正在等待 Apple Speech"
    ));
    let (error, status) = start_failure_events("denied".to_owned());
    assert!(matches!(
        error,
        ServerEvent::Error { code, message } if code == "asr_start_failed" && message == "denied"
    ));
    assert!(matches!(
        status,
        ServerEvent::SessionStatus { running: false, message } if message == "语音识别启动失败"
    ));
    assert!(matches!(
        ended_event(),
        ServerEvent::SessionStatus { running: false, message } if message == "会话已结束"
    ));
}

#[test]
fn there_is_one_session_at_a_time() {
    let mut registry = SessionRegistry::new();
    let (response, tell) = registry.stop();
    assert_eq!((response.session_id, response.running, tell), (None, false, false));
    let (response, started) = registry.start(5);
    assert_eq!((response.session_id, response.running, started), (Some(5), true, true));
    let (response, started) = registry.start(6);
    assert_eq!((response.session_id, response.running, started), (Some(5), true, false));
    let (response, tell) = registry.stop();
    assert_eq!((response.session_id, response.running, tell), (Some(5), false, true));
    assert!(!registry.stop().1);
    registry.finish(6);
    assert_eq!(registry.start(7).0.session_id, Some(5));
    registry.finish(5);
    let (response, started) = registry.start_new();
    assert!(started);
    assert!(response.session_id.is_some());
    assert_eq!(registry.start_new().0.session_id, response.session_id);
}

fn snapshot(state: CaptionState, text: &str) -> SegmentSnapshot {
    SegmentSnapshot { segment_id: 1, revision: 2, state, source_text: text.to_owned() }
}

fn captions(events: &[ServerEvent]) -> Vec<(CaptionState, u64, String, String, bool, u128)> {
    events
        .iter()
        .filter_map(|event| match event {
            ServerEvent::Caption {
                state,
                revision,
                source_text,
                translation_text,
                llm_applied,
                latency_ms,
                ..
            } => Some((
                *state,
                *revision,
                source_text.clone(),
                translation_text.clone(),
                *llm_applied,
                *latency_ms,
            )),
            _ => None,
        })
        .collect()
}

fn entry(source: &str, alias: &str) -> GlossaryEntry {
    GlossaryEntry {
        id: None,
        source: source.to_owned(),
        source_language: "zh".to_owned(),
        target: "target".to_owned(),
        target_language: "en".to_owned(),
        aliases: vec![alias.to_owned()],
        domain: "d".to_owned(),
        confidence: 1.0f64.to_bits(),
        evidence_count: 1,
        active: true,
    }
}

#[test]
fn busy_model_drops_partial_but_preserves_final() {
    let stale = SegmentSnapshot {
        segment_id: 1,
        revision: 1,
        state: CaptionState::Partial,
        source_text: "旧的部分文本".to_owned(),
    };
    let partial = SnapshotJob::new(request(), stale, 0);
    assert_eq!(partial.gate_mode(), GateMode::TryNow);
    let job = SnapshotJob::new(request(), snapshot(CaptionState::Final, "最终文本"), 0);
    assert_eq!(job.gate_mode(), GateMode::Wait);
    let (events, prepared) = job.look_up(&DictionaryStore::open(Vec::new(), 0));
    assert!(events.is_empty());
    let prepared = prepared.expect("prepared");
    let output = FakeTranslator.translate(prepared.normalized(), "en-US", prepared.glossary(), 0);
    let mut machine = TranslationStateMachine::default();
    let planned = prepared.plan(&mut machine).expect("final text");
    let (draft, drafted) = planned.draft(&mut machine, vec![Ok(output)], MS);
    assert!(matches!(
        draft[0],
        ServerEvent::Caption { state: CaptionState::Draft, .. }
    ));
    let mut context = ContextMemory::new();
    let final_caption = drafted.expect("final segment").finish(
        Ok(LlmOutput {
            text: "text".to_owned(),
            corrected_source: None,
            applied: false,
            latency_ms: 0,
        }),
        &mut context,
        2 * MS,
    );
    assert!(matches!(
        final_caption[0],
        ServerEvent::Caption { state: CaptionState::Final, .. }
    ));
}

#[test]
fn a_final_segment_goes_all_the_way() {
    let mut dictionary = DictionaryStore::open(Vec::new(), 0);
    dictionary.upsert(&entry("Saymore", "CM"), 1).expect("entry");
    let mut context = ContextMemory::new();
    context.remember("一", "one");
    context.remember("二", "two");
    let job = SnapshotJob::new(request(), snapshot(CaptionState::Final, "使用 cm"), 10 * MS);
    let (events, prepared) = job.look_up(&dictionary);
    assert!(events.is_empty());
    let prepared = prepared.expect("prepared");
    assert_eq!(prepared.normalized(), "使用 Saymore");
    assert_eq!(prepared.glossary().len(), 1);
    let mut machine = TranslationStateMachine::default();
    let planned = prepared.plan(&mut machine).expect("final text");
    assert_eq!(machine.phase(), TranslationPhase::Finalizing);
    assert_eq!(planned.text(0), Some("使用 Saymore"));
    assert_eq!(planned.text(1), None);
    assert!(planned.ask(1, &PythonMarianTranslator).is_none());
    match planned.ask(0, &PythonMarianTranslator).expect("one text") {
        TranslationStep::Ask(request) => {
            assert_eq!(request.text, "使用 Saymore");
            assert_eq!(request.target_language, "en-US");
            assert_eq!(request.glossary.len(), 1);
        }
        TranslationStep::Done(_) => panic!("no request"),
    }
    let (events, drafted) = planned.draft(
        &mut machine,
        vec![Ok(TranslationOutput { text: "Use it".to_owned(), latency_ms: 40 })],
        25 * MS,
    );
    assert_eq!(machine.phase(), TranslationPhase::Finalized);
    assert_eq!(
        captions(&events),
        vec![(CaptionState::Draft, 7, "使用 Saymore".to_owned(), "Use it".to_owned(), false, 40)]
    );
    let drafted = drafted.expect("drafted");
    let input = drafted.refinement_input(&context, Some("background"));
    assert_eq!(input.source_text, "使用 Saymore");
    assert_eq!(input.draft_translation, "Use it");
    assert_eq!(input.previous_context.len(), 2);
    assert_eq!(input.glossary[0].source, "Saymore");
    assert_eq!(input.reference_document, Some("background"));
    let events = drafted.finish(
        Ok(LlmOutput {
            text: "Use Saymore".to_owned(),
            corrected_source: None,
            applied: true,
            latency_ms: 9,
        }),
        &mut context,
        100 * MS,
    );
    assert_eq!(
        captions(&events),
        vec![(CaptionState::Final, 8, "使用 Saymore".to_owned(), "Use Saymore".to_owned(), true, 90)]
    );
    assert_eq!(
        context.pairs(),
        &vec![
            ("二".to_owned(), "two".to_owned()),
            ("使用 Saymore".to_owned(), "Use Saymore".to_owned()),
        ]
    );
    context.clear();
    assert!(context.pairs().is_empty());
}

#[test]
fn a_corrected_source_is_shown_and_remembered() {
    let job = SnapshotJob::new(request(), snapshot(CaptionState::Final, "使用低配色可"), 0);
    let (_, prepared) = job.look_up(&DictionaryStore::open(Vec::new(), 0));
    let mut machine = TranslationStateMachine::default();
    let planned = prepared.expect("prepared").plan(&mut machine).expect("final text");
    let (_, drafted) = planned.draft(
        &mut machine,
        vec![Ok(TranslationOutput { text: "Use low color".to_owned(), latency_ms: 4 })],
        10 * MS,
    );
    let mut context = ContextMemory::new();
    let events = drafted.expect("drafted").finish(
        Ok(LlmOutput {
            text: "Use DeepSeek".to_owned(),
            corrected_source: Some("使用 DeepSeek".to_owned()),
            applied: true,
            latency_ms: 9,
        }),
        &mut context,
        20 * MS,
    );
    assert_eq!(
        captions(&events),
        vec![(CaptionState::Final, 8, "使用 DeepSeek".to_owned(), "Use DeepSeek".to_owned(), true, 20)]
    );
    assert_eq!(
        context.pairs(),
        &vec![("使用 DeepSeek".to_owned(), "Use DeepSeek".to_owned())]
    );
}

#[test]
fn failures_leave_the_text_that_there_is() {
    let job = SnapshotJob::new(request(), snapshot(CaptionState::Final, "文本"), 0);
    let (events, normalized) = job.normalize(Err(DictionaryError::Filesystem("gone".to_owned())));
    assert_eq!(events.len(), 1);
    let normalized = normalized.expect("goes on");
    assert_eq!(normalized.normalized(), "文本");
    assert_eq!(normalized.job().source_language(), "zh-CN");
    let (events, prepared) =
        normalized.prepare(Err(DictionaryError::Filesystem("gone".to_owned())));
    assert!(matches!(&events[0], ServerEvent::Error { code, .. } if code == "dictionary_failed"));
    assert!(prepared.glossary().is_empty());
    let mut machine = TranslationStateMachine::default();
    let planned = prepared.plan(&mut machine).expect("final text");
    let (events, drafted) = planned.draft(&mut machine, vec![Err(TranslationError::Stopped)], MS);
    assert!(matches!(
        &events[0],
        ServerEvent::Error { code, message }
            if code == "translation_failed" && message == "model worker stopped unexpectedly"
    ));
    assert_eq!(
        captions(&events),
        vec![(CaptionState::Draft, 7, "文本".to_owned(), "文本".to_owned(), false, 1)]
    );
    let mut context = ContextMemory::new();
    let events = drafted.expect("drafted").finish(Err(LlmError::Empty), &mut context, 3 * MS);
    assert!(matches!(
        &events[0],
        ServerEvent::Error { code, message }
            if code == "llm_refinement_failed" && message == "LLM returned no translation"
    ));
    assert_eq!(
        captions(&events),
        vec![(CaptionState::Final, 8, "文本".to_owned(), "文本".to_owned(), false, 3)]
    );
    assert_eq!(context.pairs().len(), 1);
}

#[test]
fn a_running_segment_ends_with_its_draft() {
    let job = SnapshotJob::new(request(), snapshot(CaptionState::Partial, "文本"), 0);
    let (_, prepared) = job.look_up(&DictionaryStore::open(Vec::new(), 0));
    let mut machine = TranslationStateMachine::default();
    let planned = prepared.expect("prepared").plan(&mut machine).expect("new text");
    let (events, drafted) = planned.draft(&mut machine, vec![output("t", 0)], 0);
    assert_eq!(events.len(), 1);
    assert!(drafted.is_none());
}

fn output(text: &str, latency_ms: u128) -> Result<TranslationOutput, TranslationError> {
    Ok(TranslationOutput { text: text.to_owned(), latency_ms })
}

fn running(revision: u64, text: &str, machine: &mut TranslationStateMachine) -> Option<PlannedJob> {
    let snapshot = SegmentSnapshot {
        segment_id: 1,
        revision,
        state: CaptionState::Partial,
        source_text: text.to_owned(),
    };
    let job = SnapshotJob::new(request(), snapshot, 0);
    let (_, prepared) = job.look_up(&DictionaryStore::open(Vec::new(), 0));
    prepared.expect("prepared").plan(machine)
}

#[test]
fn running_text_is_translated_in_its_window() {
    let mut machine = TranslationStateMachine::with_limits(12, 4);
    let first = running(1, "abcdefghijkl", &mut machine).expect("new text");
    assert_eq!(first.text(0), Some("abcdefghijkl"));
    assert_eq!(first.text(1), None);
    let (events, _) = first.draft(&mut machine, vec![output("first", 3)], 5 * MS);
    assert_eq!(
        captions(&events),
        vec![(CaptionState::Draft, 4, "abcdefghijkl".to_owned(), "first".to_owned(), false, 5)]
    );
    let second = running(2, "abcdefghijklmnop", &mut machine).expect("new text");
    assert_eq!(second.text(0), Some("abcdefgh"));
    assert_eq!(second.text(1), Some("ijklmnop"));
    assert_eq!(second.text(2), None);
    let answers = vec![output("ABCDEFGH", 30), output("IJKLMNOP", 12)];
    let (events, drafted) = second.draft(&mut machine, answers, 5 * MS);
    assert!(drafted.is_none());
    assert_eq!(
        captions(&events),
        vec![(
            CaptionState::Draft,
            7,
            "abcdefghijklmnop".to_owned(),
            "ABCDEFGH IJKLMNOP".to_owned(),
            false,
            42
        )]
    );
    let third = running(3, "abcdefghijklmnopqrst", &mut machine).expect("new text");
    assert_eq!(third.text(0), Some("ijklmnopqrst"));
    let (events, _) = third.draft(&mut machine, vec![output("REST", 0)], 5 * MS);
    assert_eq!(captions(&events)[0].3, "ABCDEFGH REST");
    assert!(running(3, "abcdefghijklmnopqrstu", &mut machine).is_none());
    let whole = SnapshotJob::new(request(), snapshot(CaptionState::Final, "abc"), 0);
    let (_, prepared) = whole.look_up(&DictionaryStore::open(Vec::new(), 0));
    assert!(prepared.expect("prepared").plan(&mut machine).is_some());
}

#[test]
fn late_windows_are_not_shown() {
    let mut machine = TranslationStateMachine::with_limits(12, 4);
    let old = running(1, "abcd", &mut machine).expect("new text");
    let new = running(2, "abcde", &mut machine).expect("new text");
    let (events, drafted) = old.draft(&mut machine, vec![output("old", 0)], 0);
    assert!(events.is_empty());
    assert!(drafted.is_none());
    let (events, _) = new.draft(&mut machine, vec![output("new", 0)], 0);
    assert_eq!(captions(&events)[0].3, "new");
}

#[test]
fn a_failed_chunk_leaves_what_is_kept() {
    let mut machine = TranslationStateMachine::with_limits(12, 4);
    let first = running(1, "abcdefghijkl", &mut machine).expect("new text");
    first.draft(&mut machine, vec![output("first", 0)], 0);
    let second = running(2, "abcdefghijklmnop", &mut machine).expect("new text");
    let answers = vec![output("ABCDEFGH", 0), Err(TranslationError::Model("no".to_owned()))];
    let (events, _) = second.draft(&mut machine, answers, 0);
    assert_eq!(events.len(), 2);
    assert_eq!(captions(&events)[0].3, "abcdefghijklmnop");
    let third = running(3, "abcdefghijklmnop", &mut machine).expect("new text");
    assert_eq!(third.text(0), Some("abcdefgh"));
    let (events, _) = third.draft(&mut machine, vec![output("A", 0)], 0);
    assert!(matches!(
        &events[0],
        ServerEvent::Error { message, .. } if message == "model worker stopped unexpectedly"
    ));
    assert_eq!(captions(&events)[0].3, "abcdefghijklmnop");
}

#[test]
fn a_broken_dictionary_is_announced_twice() {
    let broken = DictionaryStore::open(
        vec![DictionaryRow {
            id: 1,
            source: "s".to_owned(),
            source_language: "zh".to_owned(),
            target: "t".to_owned(),
            target_language: "en".to_owned(),
            aliases_json: "no json".to_owned(),
            domain: "d".to_owned(),
            confidence: 0,
            evidence_count: 1,
            active: true,
            updated_at_ms: 1,
        }],
        1,
    );
    let job = SnapshotJob::new(request(), snapshot(CaptionState::Final, "文本"), 0);
    let (events, prepared) = job.look_up(&broken);
    assert_eq!(events.len(), 2);
    assert_eq!(prepared.expect("goes on").normalized(), "文本");
}

#[test]
fn text_that_cannot_be_searched_goes_nowhere() {
    let job = SnapshotJob::new(request(), snapshot(CaptionState::Final, "文本"), 0);
    let (events, next) = job.normalize(Ok(None));
    assert!(events.is_empty());
    assert!(next.is_none());
}
