use realtime_ai_translation::baseline::{id_text, session_value, typical_session, MetricDoubles};
use realtime_ai_translation::domain::{
    AsrEngine, AudioSource, CaptionState, CorrectionRequest, SegmentSnapshot,
};
use realtime_ai_translation::median::{median_json, MetricValue};
use realtime_ai_translation::metrics::{
    BaselineError, LlmCall, MetricsStore, SegmentFinalizationReason, SessionMetricDescriptor,
    SessionMetricsSnapshot,
};
use realtime_ai_translation::revision::{
    character_edit_distance, common_prefix_characters, is_short_by_counts, is_short_segment,
    meaningful_character_count,
};
use realtime_ai_translation::summary::{
    checked_sum, percentage, percentile, sort_numbers, DistributionSummary, Ratio,
};

const MS: u128 = 1_000_000;

fn average(summary: &DistributionSummary) -> Option<f64> {
    summary
        .average
        .map(|ratio| ratio.numerator as f64 / ratio.denominator as f64)
}

fn percent(ratio: Option<Ratio>) -> Option<f64> {
    ratio.map(|ratio| ratio.numerator as f64 * 100.0 / ratio.denominator as f64)
}

fn descriptor(session_id: u128) -> SessionMetricDescriptor {
    SessionMetricDescriptor {
        session_id,
        asr_engine: AsrEngine::SherpaOnnx,
        audio_source: AudioSource::SystemAudio,
        source_language: "zh-CN".to_owned(),
        target_language: "en-US".to_owned(),
        reference_context_chars: 1200,
    }
}

fn snapshot(text: &str) -> SegmentSnapshot {
    SegmentSnapshot {
        segment_id: 1,
        revision: 1,
        state: CaptionState::Partial,
        source_text: text.to_owned(),
    }
}

fn average_bits(summary: &DistributionSummary) -> u64 {
    average(summary).unwrap_or_default().to_bits()
}

fn percent_bits(ratio: Option<Ratio>) -> u64 {
    percent(ratio).unwrap_or_default().to_bits()
}

fn doubles(snapshot: &SessionMetricsSnapshot) -> MetricDoubles {
    MetricDoubles {
        asr_partial_interval_ms: average_bits(&snapshot.asr_partial_interval_ms),
        asr_revision_rate_percent: percent_bits(snapshot.asr_revision_rate_percent),
        short_segment_rate_percent: percent_bits(snapshot.short_segment_rate_percent),
        segment_characters: average_bits(&snapshot.segment_characters),
        segment_duration_ms: average_bits(&snapshot.segment_duration_ms),
        finalization_silence_ms: average_bits(&snapshot.finalization_silence_ms),
        translation_model_latency_ms: average_bits(&snapshot.translation_model_latency_ms),
        draft_ready_ms: average_bits(&snapshot.draft_ready_ms),
        final_draft_ready_ms: average_bits(&snapshot.final_draft_ready_ms),
        llm_latency_ms: average_bits(&snapshot.llm_latency_ms),
        llm_input_characters: average_bits(&snapshot.llm_input_characters),
        llm_reference_characters: average_bits(&snapshot.llm_reference_characters),
        llm_source_revision_rate_percent: percent_bits(snapshot.llm_source_revision_rate_percent),
        llm_translation_revision_rate_percent: percent_bits(snapshot.llm_translation_revision_rate_percent),
        final_ready_ms: average_bits(&snapshot.final_ready_ms),
        user_source_revision_rate_percent: percent_bits(snapshot.user_source_revision_rate_percent),
        user_translation_revision_rate_percent: percent_bits(snapshot.user_translation_revision_rate_percent),
    }
}

fn candidates(metrics: &MetricsStore) -> Vec<SessionMetricsSnapshot> {
    metrics.baseline_candidates(3 * MS, 5).expect("candidates")
}

fn get<'a>(value: &'a MetricValue, name: &str) -> &'a MetricValue {
    match value {
        MetricValue::Object(fields) => {
            &fields.iter().find(|field| field.0 == name).expect("field").1
        }
        other => panic!("no object: {other:?}"),
    }
}

#[test]
fn distribution_uses_nearest_rank_percentiles() {
    let summary = DistributionSummary::from_samples(&[10, 20, 30, 40, 100]);
    assert_eq!(summary.p50, Some(30));
    assert_eq!(summary.p95, Some(100));
    assert_eq!(average(&summary), Some(40.0));
}

#[test]
fn appended_asr_text_is_not_counted_as_a_revision() {
    let mut metrics = MetricsStore::new(None);
    metrics.begin(descriptor(1), 0);
    metrics.record_asr_snapshot(&snapshot("我想做"), true, MS);
    metrics.record_asr_snapshot(&snapshot("我想做实时翻译"), true, 2 * MS);
    let response = metrics.response(3 * MS, 0);
    let current = response.current.expect("current metrics");
    assert_eq!(current.asr_revision_events, 0);
    assert_eq!(percent(current.asr_revision_rate_percent), Some(0.0));
}

#[test]
fn changed_visible_prefix_is_counted_as_an_asr_revision() {
    let mut metrics = MetricsStore::new(None);
    metrics.begin(descriptor(1), 0);
    metrics.record_asr_snapshot(&snapshot("我想使用低配色可"), true, MS);
    metrics.record_asr_snapshot(&snapshot("我想使用 DeepSeek"), true, 2 * MS);
    let response = metrics.response(3 * MS, 0);
    let current = response.current.expect("current metrics");
    assert_eq!(current.asr_revision_events, 1);
    assert!(percent(current.asr_revision_rate_percent).unwrap_or_default() > 0.0);
    assert_eq!(percent(current.asr_revision_rate_percent), Some(50.0));
}

#[test]
fn completed_session_can_be_persisted_as_the_next_baseline() {
    let mut metrics = MetricsStore::new(None);
    let mut session_id: u128 = 0;
    for latency in [100, 300, 200] {
        session_id += 1;
        metrics.begin(descriptor(session_id), 0);
        metrics.record_asr_snapshot(&snapshot("这是一个足够长的测试句子"), true, MS);
        metrics.record_segment_final(
            &snapshot("这是一个足够长的测试句子"),
            SegmentFinalizationReason::AsrFinal,
            2 * MS,
        );
        metrics.record_translation(latency);
        metrics.finish();
    }
    let candidates = candidates(&metrics);
    assert_eq!(candidates.len(), 3);
    assert_eq!(candidates[0].session_id, 3);
    assert_eq!(candidates[2].session_id, 1);
    let numbers = candidates.iter().map(doubles).collect();
    let baseline = metrics
        .save_latest_as_baseline(&numbers, 3 * MS, 77)
        .expect("sessions")
        .expect("baseline");
    assert!(matches!(get(&baseline, "finalized_segments"), MetricValue::Unsigned(1)));
    assert!(matches!(get(&baseline, "running"), MetricValue::Bool(false)));
    assert!(matches!(get(&baseline, "captured_at_unix_ms"), MetricValue::Unsigned(77)));
    let latency = get(&baseline, "translation_model_latency_ms");
    assert!(matches!(get(latency, "p50"), MetricValue::Unsigned(200)));
    match get(latency, "average") {
        MetricValue::Float(bits) => assert_eq!(f64::from_bits(*bits), 200.0),
        other => panic!("no double: {other:?}"),
    }
    let same = typical_session(&candidates, &numbers, 77).expect("typical session");
    assert_eq!(format!("{same:?}"), format!("{baseline:?}"));
    let shown = format!("{baseline:?}");
    assert_eq!(format!("{:?}", metrics.response(4 * MS, 6).baseline.expect("baseline")), shown);
    let reloaded = MetricsStore::new(Some(baseline)).response(0, 0);
    assert_eq!(format!("{:?}", reloaded.baseline.expect("baseline")), shown);
}

#[test]
fn baseline_requires_three_compatible_sessions() {
    let mut metrics = MetricsStore::new(None);
    metrics.begin(descriptor(1), 0);
    metrics.finish();
    let error = metrics
        .baseline_candidates(0, 0)
        .expect_err("one session is not a stable baseline");
    assert!(error.message().contains("3 次"));
}

#[test]
fn a_baseline_needs_completed_and_comparable_sessions() {
    let mut metrics = MetricsStore::new(None);
    assert_eq!(metrics.baseline_candidates(0, 0).expect_err("none"), BaselineError::NoSession);
    for id in 0..2 {
        metrics.begin(descriptor(id), 0);
        metrics.finish();
    }
    let mut other = descriptor(9);
    other.reference_context_chars = 0;
    metrics.begin(other, 0);
    metrics.finish();
    assert_eq!(
        metrics.baseline_candidates(0, 0).expect_err("other"),
        BaselineError::TooFewSessions
    );
    metrics.begin(descriptor(4), 0);
    assert_eq!(
        metrics.baseline_candidates(0, 0).expect_err("running"),
        BaselineError::SessionRunning
    );
    assert_eq!(BaselineError::NoSession.message(), "还没有可设为基线的会话指标");
    assert_eq!(BaselineError::SessionRunning.message(), "请先结束当前会话，再保存稳定基线");
}

#[test]
fn a_refused_baseline_changes_nothing() {
    let mut metrics = MetricsStore::new(Some(MetricValue::Unsigned(5)));
    let unchanged = |metrics: &MetricsStore| {
        matches!(metrics.response(0, 0).baseline, Some(MetricValue::Unsigned(5)))
    };
    let save = |metrics: &mut MetricsStore, numbers: &Vec<MetricDoubles>| {
        metrics.save_latest_as_baseline(numbers, 0, 9).map(|kept| kept.is_some())
    };
    assert_eq!(save(&mut metrics, &Vec::new()), Err(BaselineError::NoSession));
    assert!(unchanged(&metrics));
    for id in 0..2 {
        metrics.begin(descriptor(id), 0);
        metrics.finish();
        assert_eq!(save(&mut metrics, &Vec::new()), Err(BaselineError::TooFewSessions));
        assert!(unchanged(&metrics));
    }
    metrics.begin(descriptor(2), 0);
    assert_eq!(save(&mut metrics, &Vec::new()), Err(BaselineError::SessionRunning));
    assert!(unchanged(&metrics));
    metrics.finish();
    assert_eq!(save(&mut metrics, &Vec::new()), Ok(false));
    assert!(unchanged(&metrics));
    let numbers = candidates(&metrics).iter().map(doubles).collect();
    assert_eq!(save(&mut metrics, &numbers), Ok(true));
    assert!(!unchanged(&metrics));
}

#[test]
fn a_session_is_measured_field_by_field() {
    let mut metrics = MetricsStore::new(None);
    metrics.begin(descriptor(0x0123_4567_89ab_cdef_0123_4567_89ab_cdef), 0);
    metrics.record_translation(30);
    metrics.record_translation(60);
    let snapshot = metrics.response(2_000 * MS, 9).current.expect("current");
    let value = session_value(&snapshot, &doubles(&snapshot)).expect("value");
    match &value {
        MetricValue::Object(fields) => {
            assert_eq!(fields.len(), 41);
            assert_eq!(fields[0].0, "schema_version");
            assert_eq!(fields[40].0, "user_translation_revision_rate_percent");
        }
        other => panic!("no object: {other:?}"),
    }
    match get(&value, "session_id") {
        MetricValue::Text(text) => assert_eq!(text, "01234567-89ab-cdef-0123-456789abcdef"),
        other => panic!("no text: {other:?}"),
    }
    assert!(matches!(get(&value, "running"), MetricValue::Bool(true)));
    assert!(matches!(get(&value, "duration_ms"), MetricValue::Unsigned(2_000)));
    assert!(matches!(get(&value, "captured_at_unix_ms"), MetricValue::Unsigned(9)));
    assert!(matches!(get(&value, "asr_startup_ms"), MetricValue::Null));
    assert!(matches!(get(&value, "short_segment_rate_percent"), MetricValue::Null));
    let latency = get(&value, "translation_model_latency_ms");
    assert!(matches!(get(latency, "count"), MetricValue::Unsigned(2)));
    assert!(matches!(get(latency, "maximum"), MetricValue::Unsigned(60)));
    match get(latency, "average") {
        MetricValue::Float(bits) => assert_eq!(f64::from_bits(*bits), 45.0),
        other => panic!("no double: {other:?}"),
    }
    metrics.record_translation(u128::from(u64::MAX) + 1);
    let large = metrics.response(0, 0).current.expect("current");
    assert!(session_value(&large, &doubles(&large)).is_none());
    assert!(typical_session(&vec![snapshot], &Vec::new(), 0).is_none());
    assert_eq!(id_text(7), "00000000-0000-0000-0000-000000000007");
}

#[test]
fn a_session_is_counted_from_start_to_end() {
    let mut metrics = MetricsStore::new(None);
    metrics.record_translation(1);
    metrics.begin(descriptor(7), 1_000 * MS);
    metrics.record_asr_ready(1_250 * MS);
    metrics.record_asr_ready(9_000 * MS);
    metrics.record_asr_snapshot(&snapshot("hello"), true, 1_300 * MS);
    metrics.record_asr_snapshot(&snapshot("hello there"), true, 1_450 * MS);
    metrics.record_segment_final(
        &snapshot("hello there"),
        SegmentFinalizationReason::IdleOrBoundary,
        2_000 * MS,
    );
    metrics.record_translation(40);
    metrics.record_translation_failure();
    metrics.record_draft_ready(50, false);
    metrics.record_draft_ready(60, true);
    metrics.record_llm(&LlmCall {
        latency_ms: 90,
        input_chars: 11,
        reference_chars: 3,
        original_source: "kitten",
        corrected_source: Some("sitting"),
        draft_translation: "same",
        final_translation: "same",
    });
    metrics.record_llm_failure();
    metrics.record_final_ready(120);
    assert!(metrics.can_summarize());
    let current = metrics.response(3_000 * MS, 42).current.expect("current");
    assert_eq!(current.schema_version, 1);
    assert_eq!(current.session_id, 7);
    assert_eq!(current.captured_at_unix_ms, 42);
    assert!(current.running);
    assert_eq!(current.duration_ms, 2_000);
    assert_eq!(current.asr_engine, "sherpa_onnx");
    assert_eq!(current.audio_source, "system_audio");
    assert_eq!(current.asr_startup_ms, Some(250));
    assert_eq!(current.first_asr_text_ms, Some(300));
    assert_eq!(current.asr_partial_updates, 2);
    assert_eq!(current.asr_partial_interval_ms.maximum, Some(150));
    assert_eq!(current.finalized_segments, 1);
    assert_eq!(current.short_segments, 1);
    assert_eq!(percent(current.short_segment_rate_percent), Some(100.0));
    assert_eq!(current.segment_characters.p50, Some(10));
    assert_eq!(current.segment_duration_ms.p50, Some(700));
    assert_eq!(current.finalization_silence_ms.p50, Some(550));
    assert_eq!(current.idle_or_boundary_segments, 1);
    assert_eq!(current.translation_calls, 1);
    assert_eq!(current.translation_failures, 1);
    assert_eq!(current.draft_ready_ms.count, 2);
    assert_eq!(current.final_draft_ready_ms.maximum, Some(60));
    assert_eq!(current.llm_calls, 1);
    assert_eq!(current.llm_failures, 1);
    assert_eq!(current.llm_input_characters.p95, Some(11));
    assert_eq!(current.llm_reference_characters.p95, Some(3));
    assert_eq!(percent(current.llm_source_revision_rate_percent), Some(50.0));
    assert_eq!(percent(current.llm_translation_revision_rate_percent), Some(0.0));
    assert_eq!(current.final_ready_ms.p50, Some(120));
    assert_eq!(current.user_source_revision_rate_percent, None);
}

#[test]
fn corrections_count_for_the_last_session() {
    let correction = CorrectionRequest {
        original_source: "abcd".to_owned(),
        corrected_source: "abxd".to_owned(),
        original_translation: "".to_owned(),
        corrected_translation: "new".to_owned(),
        source_language: "en".to_owned(),
        target_language: "zh".to_owned(),
    };
    let mut metrics = MetricsStore::new(None);
    metrics.record_user_correction(&correction);
    metrics.begin(descriptor(1), 0);
    metrics.finish();
    metrics.record_user_correction(&correction);
    let last = metrics.response(0, 0).last_completed.expect("completed");
    assert!(!last.running);
    assert_eq!(last.user_corrections, 1);
    assert_eq!(percent(last.user_source_revision_rate_percent), Some(25.0));
    assert_eq!(percent(last.user_translation_revision_rate_percent), Some(300.0));
}

#[test]
fn ten_sessions_are_kept() {
    let mut metrics = MetricsStore::new(None);
    for id in 0..13 {
        metrics.begin(descriptor(id), 0);
        metrics.finish();
    }
    let recent = metrics.response(0, 0).recent_completed;
    assert_eq!(recent.len(), 10);
    assert_eq!(recent[0].session_id, 3);
    assert_eq!(recent[9].session_id, 12);
}

#[test]
fn sums_that_are_too_large_are_found() {
    let mut metrics = MetricsStore::new(None);
    metrics.begin(descriptor(1), 0);
    metrics.record_translation(u128::MAX);
    assert!(metrics.can_summarize());
    metrics.record_translation(1);
    assert!(!metrics.can_summarize());
    assert_eq!(checked_sum(&[1, 2, 3]), Some(6));
    assert_eq!(checked_sum(&[u128::MAX, 1]), None);
}

#[test]
fn numbers_are_ordered_and_ranked() {
    assert_eq!(sort_numbers(&[3, 1, 2, 1]), vec![1, 1, 2, 3]);
    assert_eq!(percentile(&[5], 95), Some(5));
    assert_eq!(percentile(&[1, 2, 3, 4], 50), Some(3));
    assert_eq!(percentile(&[], 50), None);
    let samples = sort_numbers(&[40, 10, 30, 20]);
    assert!(percentile(&samples, 50) <= percentile(&samples, 95));
    assert_eq!(percentile(&samples, 0), Some(10));
    assert_eq!(percentile(&samples, 100), Some(40));
    assert_eq!(percentage(1, 0), None);
    assert_eq!(percentage(1, 4), Some(Ratio { numerator: 1, denominator: 4 }));
    let empty = DistributionSummary::from_samples(&[]);
    assert_eq!(empty.count, 0);
    assert_eq!(empty.average, None);
    assert_eq!(empty.maximum, None);
}

#[test]
fn edit_distances_are_least() {
    assert_eq!(character_edit_distance("kitten", "sitting"), 3);
    assert_eq!(character_edit_distance("", "abc"), 3);
    assert_eq!(character_edit_distance("abc", ""), 3);
    assert_eq!(character_edit_distance("实时翻译", "实时反译"), 1);
    assert_eq!(character_edit_distance("same", "same"), 0);
    assert_eq!(character_edit_distance("flaw", "lawn"), 2);
    assert!(
        character_edit_distance("kitten", "sitting")
            <= character_edit_distance("kitten", "mitten")
                + character_edit_distance("mitten", "sitting")
    );
    assert_eq!(common_prefix_characters("我想做", "我想吃"), 2);
}

#[test]
fn segments_are_short_by_words_and_characters() {
    assert_eq!(meaningful_character_count("a-1 实!"), 3);
    assert!(is_short_segment("only five words are here"));
    assert!(!is_short_segment("now there are six words here"));
    assert!(is_short_segment("一二三四五六七八九"));
    assert!(!is_short_segment("一二三四五六七八九十"));
    assert!(is_short_by_counts(5, 9));
    assert!(!is_short_by_counts(5, 10));
    assert!(!is_short_by_counts(6, 1));
    assert!(is_short_by_counts(0, 0));
}

#[test]
fn mixed_numbers_have_a_middle_double() {
    let middle = median_json(&vec![
        MetricValue::Unsigned(3),
        MetricValue::Float(2.5f64.to_bits()),
        MetricValue::Negative(-7),
    ]);
    match middle {
        MetricValue::Float(bits) => assert_eq!(f64::from_bits(bits), 2.5),
        other => panic!("no double: {other:?}"),
    }
    let whole = median_json(&vec![
        MetricValue::Float((-1.5f64).to_bits()),
        MetricValue::Unsigned(4),
        MetricValue::Float(9.0f64.to_bits()),
    ]);
    match whole {
        MetricValue::Float(bits) => assert_eq!(f64::from_bits(bits), 4.0),
        other => panic!("no double: {other:?}"),
    }
}

#[test]
fn missing_numbers_do_not_count() {
    assert!(matches!(
        median_json(&vec![MetricValue::Unsigned(5), MetricValue::Null]),
        MetricValue::Unsigned(5)
    ));
    assert!(matches!(median_json(&vec![MetricValue::Null, MetricValue::Null]), MetricValue::Null));
    assert!(matches!(median_json(&Vec::new()), MetricValue::Null));
    assert!(matches!(
        median_json(&vec![MetricValue::Bool(false), MetricValue::Bool(true)]),
        MetricValue::Bool(true)
    ));
    match median_json(&vec![
        MetricValue::Text("a".to_owned()),
        MetricValue::List(vec![MetricValue::Unsigned(1)]),
    ]) {
        MetricValue::List(items) => assert_eq!(items.len(), 1),
        other => panic!("no list: {other:?}"),
    }
}
