//! The baseline: the measurements of a session field by field, and what is typical of
//! several sessions.
use crate::identity::{hex, id_digits, lemma_hex_len};
use crate::median::{
    aggregate_snapshots, aggregated, counts_in, field, median, owned_models, values_under,
    MetricModel, MetricValue,
};
use crate::metrics::{
    law_baseline_sessions_are_comparable, metrics_models, BaselineError, MetricsModel, MetricsStore,
    RecordModel, SessionMetricsSnapshot, SessionModel, BASELINE_SESSIONS,
};
use crate::summary::{
    ascending, law_ascending_is_the_order, placed_number, DistributionSummary, Ratio,
};
use crate::text::{chars_of, join3, slice_of, string_of};
use vstd::prelude::*;

verus! {

/// The averages and rates of a session as doubles, by their bits. What stands for a
/// number that the session does not have is not looked at.
#[derive(Debug, Clone, Copy, PartialEq, Eq, Structural)]
pub struct MetricDoubles {
    pub asr_partial_interval_ms: u64,
    pub asr_revision_rate_percent: u64,
    pub short_segment_rate_percent: u64,
    pub segment_characters: u64,
    pub segment_duration_ms: u64,
    pub finalization_silence_ms: u64,
    pub translation_model_latency_ms: u64,
    pub draft_ready_ms: u64,
    pub final_draft_ready_ms: u64,
    pub llm_latency_ms: u64,
    pub llm_input_characters: u64,
    pub llm_reference_characters: u64,
    pub llm_source_revision_rate_percent: u64,
    pub llm_translation_revision_rate_percent: u64,
    pub final_ready_ms: u64,
    pub user_source_revision_rate_percent: u64,
    pub user_translation_revision_rate_percent: u64,
}

// ---------------------------------------------------------------------------------
// Numbers
// ---------------------------------------------------------------------------------

/// Whether a number is one that a measurement can be.
pub open spec fn is_measurable(n: u128) -> bool {
    n <= u64::MAX
}

/// Whether a number, if there is one, is one that a measurement can be.
pub open spec fn may_be_measured(n: Option<u128>) -> bool {
    n matches Some(n) ==> is_measurable(n)
}

/// A number that may be missing as a measurement.
pub open spec fn optional_count(n: Option<u128>) -> MetricModel {
    match n {
        Some(n) => MetricModel::Unsigned(n as u64),
        None => MetricModel::Null,
    }
}

/// A ratio that may be missing as a measurement: the double that stands for it.
pub open spec fn optional_double(ratio: Option<Ratio>, bits: u64) -> MetricModel {
    match ratio {
        Some(_) => MetricModel::Float(bits),
        None => MetricModel::Null,
    }
}

/// A number that may be missing as a measurement.
fn count_value(n: Option<u128>) -> (value: MetricValue)
    requires
        may_be_measured(n),
    ensures
        value.model() == optional_count(n),
{
    match n {
        Some(n) => MetricValue::Unsigned(n as u64),
        None => MetricValue::Null,
    }
}

/// A ratio that may be missing as a measurement.
fn double_value(ratio: Option<Ratio>, bits: u64) -> (value: MetricValue)
    ensures
        value.model() == optional_double(ratio, bits),
{
    match ratio {
        Some(_) => MetricValue::Float(bits),
        None => MetricValue::Null,
    }
}

/// Whether a number, if there is one, is one that a measurement can be.
fn can_be_measured(n: Option<u128>) -> (can: bool)
    ensures
        can == may_be_measured(n),
{
    match n {
        Some(n) => n <= u64::MAX as u128,
        None => true,
    }
}

// ---------------------------------------------------------------------------------
// Fields
// ---------------------------------------------------------------------------------

/// The contents of some fields.
pub open spec fn field_models(fields: Seq<(String, MetricValue)>) -> Seq<
    (Seq<char>, MetricModel),
> {
    fields.map_values(|field: (String, MetricValue)| (field.0@, field.1.model()))
}

/// Adds a field.
fn put(fields: &mut Vec<(String, MetricValue)>, name: &str, value: MetricValue)
    ensures
        field_models(final(fields)@) == field_models(old(fields)@).push((name@, value.model())),
{
    let ghost before = fields@;
    fields.push((name.to_owned(), value));
    proof {
        assert(field_models(fields@) =~= field_models(before).push((name@, value.model())));
    }
}

/// No fields.
fn no_fields() -> (fields: Vec<(String, MetricValue)>)
    ensures
        field_models(fields@) == Seq::<(Seq<char>, MetricModel)>::empty(),
{
    let fields: Vec<(String, MetricValue)> = Vec::new();
    proof {
        assert(field_models(fields@) =~= Seq::empty());
    }
    fields
}

/// The measurement with some fields.
fn object_of(fields: Vec<(String, MetricValue)>) -> (value: MetricValue)
    ensures
        value.model() == MetricModel::Object(field_models(fields@)),
{
    let value = MetricValue::Object(fields);
    proof {
        assert(value.model()->Object_0 =~= field_models(fields@));
    }
    value
}

/// A summary as a measurement.
pub open spec fn summary_model(summary: DistributionSummary, average: u64) -> MetricModel {
    MetricModel::Object(
        seq![
            ("count"@, MetricModel::Unsigned(summary.count as u64)),
            ("average"@, optional_double(summary.average, average)),
            ("p50"@, optional_count(summary.p50)),
            ("p95"@, optional_count(summary.p95)),
            ("maximum"@, optional_count(summary.maximum)),
        ],
    )
}

/// Whether the numbers of a summary are such as measurements can be.
pub open spec fn is_measurable_summary(summary: DistributionSummary) -> bool {
    may_be_measured(summary.p50) && may_be_measured(summary.p95) && may_be_measured(summary.maximum)
}

/// A summary as a measurement.
fn summary_value(summary: &DistributionSummary, average: u64) -> (value: MetricValue)
    requires
        is_measurable_summary(*summary),
    ensures
        value.model() == summary_model(*summary, average),
{
    let mut fields = no_fields();
    put(&mut fields, "count", MetricValue::Unsigned(summary.count as u64));
    put(&mut fields, "average", double_value(summary.average, average));
    put(&mut fields, "p50", count_value(summary.p50));
    put(&mut fields, "p95", count_value(summary.p95));
    put(&mut fields, "maximum", count_value(summary.maximum));
    proof {
        assert(field_models(fields@) =~= summary_model(*summary, average)->Object_0);
    }
    object_of(fields)
}

/// Whether the numbers of a summary are such as measurements can be.
fn can_be_summarized(summary: &DistributionSummary) -> (can: bool)
    ensures
        can == is_measurable_summary(*summary),
{
    can_be_measured(summary.p50) && can_be_measured(summary.p95) && can_be_measured(
        summary.maximum,
    )
}

// ---------------------------------------------------------------------------------
// Sessions
// ---------------------------------------------------------------------------------

/// The digits of an identifier in groups of eight, four, four, four and twelve.
pub open spec fn grouped(digits: Seq<char>) -> Seq<char> {
    digits.subrange(0, 8) + "-"@ + digits.subrange(8, 12) + "-"@ + digits.subrange(12, 16) + "-"@
        + digits.subrange(16, 20) + "-"@ + digits.subrange(20, 32)
}

/// The text of an identifier, in groups.
pub fn id_text(id: u128) -> (text: String)
    ensures
        text@ == grouped(hex(id as nat, 32)),
{
    let digits = chars_of(id_digits(id).as_str());
    proof {
        lemma_hex_len(id as nat, 32);
    }
    let head = join3(
        string_of(&slice_of(&digits, 0, 8)).as_str(),
        "-",
        string_of(&slice_of(&digits, 8, 12)).as_str(),
    );
    let front = join3(head.as_str(), "-", string_of(&slice_of(&digits, 12, 16)).as_str());
    let most = join3(front.as_str(), "-", string_of(&slice_of(&digits, 16, 20)).as_str());
    join3(most.as_str(), "-", string_of(&slice_of(&digits, 20, 32)).as_str())
}

/// The measurements of a session: what it was about.
pub open spec fn about_fields(session: MetricsModel, doubles: MetricDoubles) -> Seq<
    (Seq<char>, MetricModel),
> {
    seq![
        ("schema_version"@, MetricModel::Unsigned(session.schema_version as u64)),
        ("session_id"@, MetricModel::Text(grouped(hex(session.session_id as nat, 32)))),
        ("captured_at_unix_ms"@, MetricModel::Unsigned(session.captured_at_unix_ms as u64)),
        ("running"@, MetricModel::Bool(session.running)),
        ("duration_ms"@, MetricModel::Unsigned(session.duration_ms as u64)),
        ("asr_engine"@, MetricModel::Text(session.asr_engine)),
        ("audio_source"@, MetricModel::Text(session.audio_source)),
        ("source_language"@, MetricModel::Text(session.source_language)),
        ("target_language"@, MetricModel::Text(session.target_language)),
        ("reference_context_chars"@, MetricModel::Unsigned(session.reference_context_chars as u64)),
        ("asr_startup_ms"@, optional_count(session.asr_startup_ms)),
        ("first_asr_text_ms"@, optional_count(session.first_asr_text_ms)),
    ]
}

/// The measurements of a session: its recognition.
pub open spec fn recognition_fields(session: MetricsModel, doubles: MetricDoubles) -> Seq<
    (Seq<char>, MetricModel),
> {
    seq![
        ("asr_partial_updates"@, MetricModel::Unsigned(session.asr_partial_updates as u64)),
        (
            "asr_partial_interval_ms"@,
            summary_model(session.asr_partial_interval_ms, doubles.asr_partial_interval_ms),
        ),
        ("asr_revision_events"@, MetricModel::Unsigned(session.asr_revision_events as u64)),
        (
            "asr_revision_rate_percent"@,
            optional_double(session.asr_revision_rate_percent, doubles.asr_revision_rate_percent),
        ),
        ("finalized_segments"@, MetricModel::Unsigned(session.finalized_segments as u64)),
        ("short_segments"@, MetricModel::Unsigned(session.short_segments as u64)),
        (
            "short_segment_rate_percent"@,
            optional_double(session.short_segment_rate_percent, doubles.short_segment_rate_percent),
        ),
    ]
}

/// The measurements of a session: its segments.
pub open spec fn segment_fields(session: MetricsModel, doubles: MetricDoubles) -> Seq<
    (Seq<char>, MetricModel),
> {
    seq![
        (
            "segment_characters"@,
            summary_model(session.segment_characters, doubles.segment_characters),
        ),
        (
            "segment_duration_ms"@,
            summary_model(session.segment_duration_ms, doubles.segment_duration_ms),
        ),
        (
            "finalization_silence_ms"@,
            summary_model(session.finalization_silence_ms, doubles.finalization_silence_ms),
        ),
        (
            "idle_or_boundary_segments"@,
            MetricModel::Unsigned(session.idle_or_boundary_segments as u64),
        ),
        ("asr_final_segments"@, MetricModel::Unsigned(session.asr_final_segments as u64)),
        ("stop_segments"@, MetricModel::Unsigned(session.stop_segments as u64)),
    ]
}

/// The measurements of a session: its translations.
pub open spec fn translation_fields(session: MetricsModel, doubles: MetricDoubles) -> Seq<
    (Seq<char>, MetricModel),
> {
    seq![
        ("translation_calls"@, MetricModel::Unsigned(session.translation_calls as u64)),
        ("translation_failures"@, MetricModel::Unsigned(session.translation_failures as u64)),
        (
            "translation_model_latency_ms"@,
            summary_model(session.translation_model_latency_ms, doubles.translation_model_latency_ms),
        ),
        ("draft_ready_ms"@, summary_model(session.draft_ready_ms, doubles.draft_ready_ms)),
        (
            "final_draft_ready_ms"@,
            summary_model(session.final_draft_ready_ms, doubles.final_draft_ready_ms),
        ),
    ]
}

/// The measurements of a session: its refinement.
pub open spec fn refinement_fields(session: MetricsModel, doubles: MetricDoubles) -> Seq<
    (Seq<char>, MetricModel),
> {
    seq![
        ("llm_calls"@, MetricModel::Unsigned(session.llm_calls as u64)),
        ("llm_failures"@, MetricModel::Unsigned(session.llm_failures as u64)),
        ("llm_latency_ms"@, summary_model(session.llm_latency_ms, doubles.llm_latency_ms)),
        (
            "llm_input_characters"@,
            summary_model(session.llm_input_characters, doubles.llm_input_characters),
        ),
        (
            "llm_reference_characters"@,
            summary_model(session.llm_reference_characters, doubles.llm_reference_characters),
        ),
        (
            "llm_source_revision_rate_percent"@,
            optional_double(session.llm_source_revision_rate_percent, doubles.llm_source_revision_rate_percent),
        ),
        (
            "llm_translation_revision_rate_percent"@,
            optional_double(session.llm_translation_revision_rate_percent, doubles.llm_translation_revision_rate_percent),
        ),
        ("final_ready_ms"@, summary_model(session.final_ready_ms, doubles.final_ready_ms)),
    ]
}

/// The measurements of a session: the corrections of its captions.
pub open spec fn correction_fields(session: MetricsModel, doubles: MetricDoubles) -> Seq<
    (Seq<char>, MetricModel),
> {
    seq![
        ("user_corrections"@, MetricModel::Unsigned(session.user_corrections as u64)),
        (
            "user_source_revision_rate_percent"@,
            optional_double(session.user_source_revision_rate_percent, doubles.user_source_revision_rate_percent),
        ),
        (
            "user_translation_revision_rate_percent"@,
            optional_double(session.user_translation_revision_rate_percent, doubles.user_translation_revision_rate_percent),
        ),
    ]
}

/// The measurements of a session, field by field.
#[verifier::opaque]
pub open spec fn session_fields(session: MetricsModel, doubles: MetricDoubles) -> Seq<
    (Seq<char>, MetricModel),
> {
    about_fields(session, doubles) + recognition_fields(session, doubles) + segment_fields(
        session,
        doubles,
    ) + translation_fields(session, doubles) + refinement_fields(session, doubles)
        + correction_fields(session, doubles)
}

/// Whether the numbers of a session are such as measurements can be.
pub open spec fn is_measurable_session(session: MetricsModel) -> bool {
    &&& is_measurable(session.captured_at_unix_ms)
    &&& is_measurable(session.duration_ms)
    &&& may_be_measured(session.asr_startup_ms)
    &&& may_be_measured(session.first_asr_text_ms)
    &&& is_measurable_summary(session.asr_partial_interval_ms)
    &&& is_measurable_summary(session.segment_characters)
    &&& is_measurable_summary(session.segment_duration_ms)
    &&& is_measurable_summary(session.finalization_silence_ms)
    &&& is_measurable_summary(session.translation_model_latency_ms)
    &&& is_measurable_summary(session.draft_ready_ms)
    &&& is_measurable_summary(session.final_draft_ready_ms)
    &&& is_measurable_summary(session.llm_latency_ms)
    &&& is_measurable_summary(session.llm_input_characters)
    &&& is_measurable_summary(session.llm_reference_characters)
    &&& is_measurable_summary(session.final_ready_ms)
}

/// Adds more fields.
fn put_all(fields: &mut Vec<(String, MetricValue)>, more: Vec<(String, MetricValue)>)
    ensures
        field_models(final(fields)@) == field_models(old(fields)@) + field_models(more@),
{
    let mut more = more;
    let ghost before = fields@;
    let ghost added = more@;
    fields.append(&mut more);
    proof {
        assert(field_models(fields@) =~= field_models(before) + field_models(added));
    }
}

/// The measurements of a session: what it was about.
fn put_about(session: &SessionMetricsSnapshot, doubles: &MetricDoubles) -> (fields: Vec<
    (String, MetricValue),
>)
    requires
        is_measurable_session(session@),
    ensures
        field_models(fields@) == about_fields(session@, *doubles),
{
    let mut fields = no_fields();
    put(&mut fields, "schema_version", MetricValue::Unsigned(session.schema_version as u64));
    put(&mut fields, "session_id", MetricValue::Text(id_text(session.session_id)));
    put(
        &mut fields,
        "captured_at_unix_ms",
        MetricValue::Unsigned(session.captured_at_unix_ms as u64),
    );
    put(&mut fields, "running", MetricValue::Bool(session.running));
    put(&mut fields, "duration_ms", MetricValue::Unsigned(session.duration_ms as u64));
    put(&mut fields, "asr_engine", MetricValue::Text(session.asr_engine.clone()));
    put(&mut fields, "audio_source", MetricValue::Text(session.audio_source.clone()));
    put(&mut fields, "source_language", MetricValue::Text(session.source_language.clone()));
    put(&mut fields, "target_language", MetricValue::Text(session.target_language.clone()));
    put(
        &mut fields,
        "reference_context_chars",
        MetricValue::Unsigned(session.reference_context_chars as u64),
    );
    put(&mut fields, "asr_startup_ms", count_value(session.asr_startup_ms));
    put(&mut fields, "first_asr_text_ms", count_value(session.first_asr_text_ms));
    proof {
        assert(field_models(fields@) =~= about_fields(session@, *doubles));
    }
    fields
}

/// The measurements of a session: its recognition.
fn put_recognition(session: &SessionMetricsSnapshot, doubles: &MetricDoubles) -> (fields: Vec<
    (String, MetricValue),
>)
    requires
        is_measurable_session(session@),
    ensures
        field_models(fields@) == recognition_fields(session@, *doubles),
{
    let mut fields = no_fields();
    put(
        &mut fields,
        "asr_partial_updates",
        MetricValue::Unsigned(session.asr_partial_updates as u64),
    );
    put(
        &mut fields,
        "asr_partial_interval_ms",
        summary_value(&session.asr_partial_interval_ms, doubles.asr_partial_interval_ms),
    );
    put(
        &mut fields,
        "asr_revision_events",
        MetricValue::Unsigned(session.asr_revision_events as u64),
    );
    put(
        &mut fields,
        "asr_revision_rate_percent",
        double_value(session.asr_revision_rate_percent, doubles.asr_revision_rate_percent),
    );
    put(
        &mut fields,
        "finalized_segments",
        MetricValue::Unsigned(session.finalized_segments as u64),
    );
    put(&mut fields, "short_segments", MetricValue::Unsigned(session.short_segments as u64));
    put(
        &mut fields,
        "short_segment_rate_percent",
        double_value(session.short_segment_rate_percent, doubles.short_segment_rate_percent),
    );
    proof {
        assert(field_models(fields@) =~= recognition_fields(session@, *doubles));
    }
    fields
}

/// The measurements of a session: its segments.
fn put_segment(session: &SessionMetricsSnapshot, doubles: &MetricDoubles) -> (fields: Vec<
    (String, MetricValue),
>)
    requires
        is_measurable_session(session@),
    ensures
        field_models(fields@) == segment_fields(session@, *doubles),
{
    let mut fields = no_fields();
    put(
        &mut fields,
        "segment_characters",
        summary_value(&session.segment_characters, doubles.segment_characters),
    );
    put(
        &mut fields,
        "segment_duration_ms",
        summary_value(&session.segment_duration_ms, doubles.segment_duration_ms),
    );
    put(
        &mut fields,
        "finalization_silence_ms",
        summary_value(&session.finalization_silence_ms, doubles.finalization_silence_ms),
    );
    put(
        &mut fields,
        "idle_or_boundary_segments",
        MetricValue::Unsigned(session.idle_or_boundary_segments as u64),
    );
    put(
        &mut fields,
        "asr_final_segments",
        MetricValue::Unsigned(session.asr_final_segments as u64),
    );
    put(&mut fields, "stop_segments", MetricValue::Unsigned(session.stop_segments as u64));
    proof {
        assert(field_models(fields@) =~= segment_fields(session@, *doubles));
    }
    fields
}

/// The measurements of a session: its translations.
fn put_translation(session: &SessionMetricsSnapshot, doubles: &MetricDoubles) -> (fields: Vec<
    (String, MetricValue),
>)
    requires
        is_measurable_session(session@),
    ensures
        field_models(fields@) == translation_fields(session@, *doubles),
{
    let mut fields = no_fields();
    put(&mut fields, "translation_calls", MetricValue::Unsigned(session.translation_calls as u64));
    put(
        &mut fields,
        "translation_failures",
        MetricValue::Unsigned(session.translation_failures as u64),
    );
    put(
        &mut fields,
        "translation_model_latency_ms",
        summary_value(&session.translation_model_latency_ms, doubles.translation_model_latency_ms),
    );
    put(
        &mut fields,
        "draft_ready_ms",
        summary_value(&session.draft_ready_ms, doubles.draft_ready_ms),
    );
    put(
        &mut fields,
        "final_draft_ready_ms",
        summary_value(&session.final_draft_ready_ms, doubles.final_draft_ready_ms),
    );
    proof {
        assert(field_models(fields@) =~= translation_fields(session@, *doubles));
    }
    fields
}

/// The measurements of a session: its refinement.
fn put_refinement(session: &SessionMetricsSnapshot, doubles: &MetricDoubles) -> (fields: Vec<
    (String, MetricValue),
>)
    requires
        is_measurable_session(session@),
    ensures
        field_models(fields@) == refinement_fields(session@, *doubles),
{
    let mut fields = no_fields();
    put(&mut fields, "llm_calls", MetricValue::Unsigned(session.llm_calls as u64));
    put(&mut fields, "llm_failures", MetricValue::Unsigned(session.llm_failures as u64));
    put(
        &mut fields,
        "llm_latency_ms",
        summary_value(&session.llm_latency_ms, doubles.llm_latency_ms),
    );
    put(
        &mut fields,
        "llm_input_characters",
        summary_value(&session.llm_input_characters, doubles.llm_input_characters),
    );
    put(
        &mut fields,
        "llm_reference_characters",
        summary_value(&session.llm_reference_characters, doubles.llm_reference_characters),
    );
    put(
        &mut fields,
        "llm_source_revision_rate_percent",
        double_value(session.llm_source_revision_rate_percent, doubles.llm_source_revision_rate_percent),
    );
    put(
        &mut fields,
        "llm_translation_revision_rate_percent",
        double_value(session.llm_translation_revision_rate_percent, doubles.llm_translation_revision_rate_percent),
    );
    put(
        &mut fields,
        "final_ready_ms",
        summary_value(&session.final_ready_ms, doubles.final_ready_ms),
    );
    proof {
        assert(field_models(fields@) =~= refinement_fields(session@, *doubles));
    }
    fields
}

/// The measurements of a session: the corrections of its captions.
fn put_correction(session: &SessionMetricsSnapshot, doubles: &MetricDoubles) -> (fields: Vec<
    (String, MetricValue),
>)
    requires
        is_measurable_session(session@),
    ensures
        field_models(fields@) == correction_fields(session@, *doubles),
{
    let mut fields = no_fields();
    put(&mut fields, "user_corrections", MetricValue::Unsigned(session.user_corrections as u64));
    put(
        &mut fields,
        "user_source_revision_rate_percent",
        double_value(session.user_source_revision_rate_percent, doubles.user_source_revision_rate_percent),
    );
    put(
        &mut fields,
        "user_translation_revision_rate_percent",
        double_value(session.user_translation_revision_rate_percent, doubles.user_translation_revision_rate_percent),
    );
    proof {
        assert(field_models(fields@) =~= correction_fields(session@, *doubles));
    }
    fields
}

/// The measurements of a session, if its numbers are such as measurements can be.
pub fn session_value(session: &SessionMetricsSnapshot, doubles: &MetricDoubles) -> (value: Option<
    MetricValue,
>)
    ensures
        match value {
            Some(value) => is_measurable_session(session@) && value.model() == MetricModel::Object(
                session_fields(session@, *doubles),
            ),
            None => !is_measurable_session(session@),
        },
{
    if !(session.captured_at_unix_ms <= u64::MAX as u128 && session.duration_ms <= u64::MAX as u128
        && can_be_measured(session.asr_startup_ms) && can_be_measured(session.first_asr_text_ms)
        && can_be_summarized(&session.asr_partial_interval_ms)
        && can_be_summarized(&session.segment_characters)
        && can_be_summarized(&session.segment_duration_ms)
        && can_be_summarized(&session.finalization_silence_ms)
        && can_be_summarized(&session.translation_model_latency_ms)
        && can_be_summarized(&session.draft_ready_ms)
        && can_be_summarized(&session.final_draft_ready_ms)
        && can_be_summarized(&session.llm_latency_ms)
        && can_be_summarized(&session.llm_input_characters)
        && can_be_summarized(&session.llm_reference_characters)
        && can_be_summarized(&session.final_ready_ms)) {
        return None;
    }
    let mut fields = put_about(session, doubles);
    put_all(&mut fields, put_recognition(session, doubles));
    put_all(&mut fields, put_segment(session, doubles));
    put_all(&mut fields, put_translation(session, doubles));
    put_all(&mut fields, put_refinement(session, doubles));
    put_all(&mut fields, put_correction(session, doubles));
    proof {
        reveal(session_fields);
    }
    Some(object_of(fields))
}

/// What is typical of several sessions with the doubles of each.
pub open spec fn session_models_of(sessions: Seq<MetricsModel>, doubles: Seq<MetricDoubles>) -> Seq<
    MetricModel,
> {
    Seq::new(
        sessions.len(),
        |i: int| MetricModel::Object(session_fields(sessions[i], doubles[i])),
    )
}

/// Whether the numbers of all sessions are such as measurements can be.
pub open spec fn are_measurable(sessions: Seq<MetricsModel>) -> bool {
    forall|i: int| 0 <= i < sessions.len() ==> is_measurable_session(#[trigger] sessions[i])
}

/// What is typical of several sessions, as measured at a time. There is nothing where a
/// session has no doubles, or a number that no measurement can be.
pub fn typical_session(
    sessions: &Vec<SessionMetricsSnapshot>,
    doubles: &Vec<MetricDoubles>,
    captured_at_unix_ms: u64,
) -> (typical: Option<MetricValue>)
    ensures
        match typical {
            Some(value) => sessions@.len() == doubles@.len() && are_measurable(
                metrics_models(sessions@),
            ) && value.model() == aggregated(
                session_models_of(metrics_models(sessions@), doubles@),
                captured_at_unix_ms,
            ),
            None => sessions@.len() != doubles@.len() || !are_measurable(metrics_models(sessions@)),
        },
{
    if sessions.len() != doubles.len() {
        return None;
    }
    let ghost models = metrics_models(sessions@);
    let mut values: Vec<MetricValue> = Vec::new();
    let mut i: usize = 0;
    while i < sessions.len()
        invariant
            i <= sessions.len(),
            sessions@.len() == doubles@.len(),
            models == metrics_models(sessions@),
            values@.len() == i,
            forall|k: int| 0 <= k < i ==> is_measurable_session(#[trigger] models[k]),
            forall|k: int|
                0 <= k < i ==> (#[trigger] values@[k]).model() == MetricModel::Object(
                    session_fields(models[k], doubles@[k]),
                ),
        decreases sessions.len() - i,
    {
        proof {
            assert(models[i as int] == sessions@[i as int]@);
        }
        match session_value(&sessions[i], &doubles[i]) {
            Some(value) => values.push(value),
            None => {
                return None;
            },
        }
        i = i + 1;
    }
    proof {
        assert(owned_models(values@) =~= session_models_of(models, doubles@));
    }
    Some(aggregate_snapshots(&values, captured_at_unix_ms))
}

/// The sessions that make a baseline, as they are measured at a time.
pub open spec fn baseline_snapshots(record: RecordModel, now: u128, unix_ms: u128) -> Seq<
    MetricsModel,
> {
    record.baseline_sessions()->Ok_0.map_values(
        |session: SessionModel| session.snapshot(false, now, unix_ms),
    )
}

/// The sessions that make a baseline, field by field, with the doubles of each.
pub open spec fn baseline_values(
    record: RecordModel,
    doubles: Seq<MetricDoubles>,
    now: u128,
    unix_ms: u128,
) -> Seq<MetricModel> {
    session_models_of(baseline_snapshots(record, now, unix_ms), doubles)
}

impl MetricsStore {
    /// Keeps the median of the sessions that make a baseline, given the doubles of each,
    /// and returns it. There is nothing to keep where a session has no doubles, or a number
    /// that no measurement can be.
    pub fn save_latest_as_baseline(
        &mut self,
        doubles: &Vec<MetricDoubles>,
        now: u128,
        unix_ms: u64,
    ) -> (outcome: Result<Option<MetricValue>, BaselineError>)
        requires
            old(self)@.sums_fit(),
        ensures
            match old(self)@.baseline_sessions() {
                Ok(sessions) => {
                    let can_be_kept = doubles@.len() == sessions.len() && are_measurable(
                        baseline_snapshots(old(self)@, now, unix_ms as u128),
                    );
                    match outcome {
                        Ok(Some(value)) => can_be_kept && value.model() == aggregated(
                            baseline_values(old(self)@, doubles@, now, unix_ms as u128),
                            unix_ms,
                        ) && final(self)@ == (RecordModel {
                            baseline: Some(value.model()),
                            ..old(self)@
                        }),
                        Ok(None) => !can_be_kept && final(self)@ == old(self)@,
                        Err(_) => false,
                    }
                },
                Err(expected) => outcome matches Err(error) && error == expected && final(self)@
                    == old(self)@,
            },
    {
        let sessions = match self.baseline_candidates(now, unix_ms as u128) {
            Ok(sessions) => sessions,
            Err(error) => {
                return Err(error);
            },
        };
        proof {
            assert(metrics_models(sessions@) =~= baseline_snapshots(self@, now, unix_ms as u128));
            assert(metrics_models(sessions@).len() == sessions@.len());
        }
        match typical_session(&sessions, doubles, unix_ms) {
            Some(value) => {
                self.set_baseline(value.copy());
                Ok(Some(value))
            },
            None => Ok(None),
        }
    }
}

// ---------------------------------------------------------------------------------
// Laws
// ---------------------------------------------------------------------------------

/// The names of some fields.
pub open spec fn names_of(fields: Seq<(Seq<char>, MetricModel)>) -> Seq<Seq<char>> {
    fields.map_values(|field: (Seq<char>, MetricModel)| field.0)
}

/// The names of the fields do not depend on the session.
proof fn lemma_sessions_have_the_same_names(
    one: MetricsModel,
    first: MetricDoubles,
    other: MetricsModel,
    second: MetricDoubles,
)
    ensures
        names_of(session_fields(one, first)) == names_of(session_fields(other, second)),
{
    reveal(session_fields);
    assert(names_of(about_fields(one, first)) =~= names_of(about_fields(other, second)));
    assert(names_of(recognition_fields(one, first)) =~= names_of(recognition_fields(other, second)));
    assert(names_of(segment_fields(one, first)) =~= names_of(segment_fields(other, second)));
    assert(names_of(translation_fields(one, first)) =~= names_of(translation_fields(other, second)));
    assert(names_of(refinement_fields(one, first)) =~= names_of(refinement_fields(other, second)));
    assert(names_of(correction_fields(one, first)) =~= names_of(correction_fields(other, second)));
    assert(names_of(session_fields(one, first)) =~= names_of(
        about_fields(one, first),
    )
        + names_of(recognition_fields(one, first)) + names_of(segment_fields(one, first))
        + names_of(translation_fields(one, first)) + names_of(refinement_fields(one, first))
        + names_of(correction_fields(one, first)));
    assert(names_of(session_fields(other, second)) =~= names_of(
        about_fields(other, second),
    )
        + names_of(recognition_fields(other, second)) + names_of(segment_fields(other, second))
        + names_of(translation_fields(other, second)) + names_of(refinement_fields(other, second))
        + names_of(correction_fields(other, second)));
}

/// Fields with the same names have the same names to be found.
proof fn lemma_field_by_name(
    fields: Seq<(Seq<char>, MetricModel)>,
    others: Seq<(Seq<char>, MetricModel)>,
    name: Seq<char>,
)
    requires
        names_of(fields) == names_of(others),
    ensures
        field(fields, name) is Some <==> field(others, name) is Some,
    decreases fields.len(),
{
    assert(names_of(fields).len() == fields.len());
    assert(names_of(others).len() == others.len());
    if fields.len() > 0 {
        assert(names_of(fields)[0] == fields[0].0);
        assert(names_of(others)[0] == others[0].0);
        assert(names_of(fields.skip(1)) =~= names_of(fields).skip(1));
        assert(names_of(others.skip(1)) =~= names_of(others).skip(1));
        lemma_field_by_name(fields.skip(1), others.skip(1), name);
    }
}

/// A field whose value its name decides has that value.
proof fn lemma_field_of_name(
    fields: Seq<(Seq<char>, MetricModel)>,
    value: spec_fn(Seq<char>) -> MetricModel,
    name: Seq<char>,
)
    requires
        forall|i: int| 0 <= i < fields.len() ==> (#[trigger] fields[i]).1 == value(fields[i].0),
        field(fields, name) is Some,
    ensures
        field(fields, name) == Some(value(name)),
    decreases fields.len(),
{
    if fields[0].0 != name {
        let rest = fields.skip(1);
        assert forall|i: int| 0 <= i < rest.len() implies (#[trigger] rest[i]).1 == value(
            rest[i].0,
        ) by {
            assert(rest[i] == fields[i + 1]);
        }
        lemma_field_of_name(rest, value, name);
    }
}

/// The value of a field of the baseline: what is typical of the values that the sessions
/// have under its name, but for when it was taken, and that no session runs.
pub open spec fn baseline_field(
    values: Seq<MetricModel>,
    captured_at_unix_ms: u64,
    name: Seq<char>,
) -> MetricModel {
    if name == "captured_at_unix_ms"@ {
        MetricModel::Unsigned(captured_at_unix_ms)
    } else if name == "running"@ {
        MetricModel::Bool(false)
    } else {
        median(values_under(values, name))
    }
}

/// The baseline is the median of the sessions that make it, field by field: under every
/// name of a session's measurements it has the median of what the three sessions have
/// there, and no other names.
pub proof fn law_baseline_is_the_median(
    record: RecordModel,
    doubles: Seq<MetricDoubles>,
    now: u128,
    unix_ms: u128,
    captured_at_unix_ms: u64,
    name: Seq<char>,
)
    requires
        record.baseline_sessions() is Ok,
        doubles.len() == BASELINE_SESSIONS,
    ensures
        ({
            let values = baseline_values(record, doubles, now, unix_ms);
            let first = field(values[0]->Object_0, name);
            let second = field(values[1]->Object_0, name);
            let third = field(values[2]->Object_0, name);
            &&& aggregated(values, captured_at_unix_ms) is Object
            &&& match field(aggregated(values, captured_at_unix_ms)->Object_0, name) {
                Some(value) => {
                    &&& first is Some && second is Some && third is Some
                    &&& values_under(values, name) == seq![first->0, second->0, third->0]
                    &&& value == baseline_field(values, captured_at_unix_ms, name)
                },
                None => first is None && second is None && third is None,
            }
        }),
{
    let sessions = baseline_snapshots(record, now, unix_ms);
    law_baseline_sessions_are_comparable(record);
    let values = baseline_values(record, doubles, now, unix_ms);
    assert(values.len() == 3);
    assert(values[0] == MetricModel::Object(session_fields(sessions[0], doubles[0])));
    assert(values[1] == MetricModel::Object(session_fields(sessions[1], doubles[1])));
    assert(values[2] == MetricModel::Object(session_fields(sessions[2], doubles[2])));
    lemma_sessions_have_the_same_names(sessions[0], doubles[0], sessions[2], doubles[2]);
    lemma_sessions_have_the_same_names(sessions[1], doubles[1], sessions[2], doubles[2]);
    lemma_median_by_field(values, captured_at_unix_ms, name);
}

/// Of three measurements with the same names the typical one has these names, with what is
/// typical of the values under each.
proof fn lemma_median_by_field(values: Seq<MetricModel>, captured_at_unix_ms: u64, name: Seq<char>)
    requires
        values.len() == 3,
        values[0] is Object && values[1] is Object && values[2] is Object,
        names_of(values[0]->Object_0) == names_of(values[2]->Object_0),
        names_of(values[1]->Object_0) == names_of(values[2]->Object_0),
    ensures
        ({
            let first = field(values[0]->Object_0, name);
            let second = field(values[1]->Object_0, name);
            let third = field(values[2]->Object_0, name);
            &&& aggregated(values, captured_at_unix_ms) is Object
            &&& match field(aggregated(values, captured_at_unix_ms)->Object_0, name) {
                Some(value) => {
                    &&& first is Some && second is Some && third is Some
                    &&& values_under(values, name) == seq![first->0, second->0, third->0]
                    &&& value == baseline_field(values, captured_at_unix_ms, name)
                },
                None => first is None && second is None && third is None,
            }
        }),
{
    let a = values[0]->Object_0;
    let b = values[1]->Object_0;
    let c = values[2]->Object_0;
    lemma_field_by_name(a, c, name);
    lemma_field_by_name(b, c, name);
    let typical = median(values)->Object_0;
    let whole = aggregated(values, captured_at_unix_ms)->Object_0;
    let value = |name: Seq<char>| baseline_field(values, captured_at_unix_ms, name);
    assert forall|i: int| 0 <= i < whole.len() implies (#[trigger] whole[i]).1 == value(
        whole[i].0,
    ) && whole[i].0 == c[i].0 by {
        assert(typical[i] == (c[i].0, median(values_under(values, c[i].0))));
    }
    assert(names_of(whole) =~= names_of(c));
    lemma_field_by_name(whole, c, name);
    if field(whole, name) is Some {
        lemma_field_of_name(whole, value, name);
        let two = values.drop_last();
        let one = two.drop_last();
        assert(values_under(one.drop_last(), name) =~= Seq::empty());
        assert(values_under(one, name) =~= seq![field(a, name)->0]);
        assert(values_under(two, name) =~= seq![field(a, name)->0, field(b, name)->0]);
        assert(values_under(values, name) =~= seq![
            field(a, name)->0,
            field(b, name)->0,
            field(c, name)->0,
        ]);
    }
}

/// Of three whole numbers the typical one is one of them, and lies between the others.
pub proof fn law_median_of_three_lies_between(a: u64, b: u64, c: u64)
    ensures
        ({
            let values = seq![
                MetricModel::Unsigned(a),
                MetricModel::Unsigned(b),
                MetricModel::Unsigned(c),
            ];
            median(values) matches MetricModel::Unsigned(m) && {
                ||| m == a && (b <= a <= c || c <= a <= b)
                ||| m == b && (a <= b <= c || c <= b <= a)
                ||| m == c && (a <= c <= b || b <= c <= a)
            }
        }),
{
    let values = seq![
        MetricModel::Unsigned(a),
        MetricModel::Unsigned(b),
        MetricModel::Unsigned(c),
    ];
    let numbers = seq![a as u128, b as u128, c as u128];
    let two = values.drop_last();
    let one = two.drop_last();
    assert(counts_in(one.drop_last()) =~= Seq::empty());
    assert(counts_in(one) =~= seq![a as u128]);
    assert(counts_in(two) =~= seq![a as u128, b as u128]);
    assert(counts_in(values) =~= numbers);
    law_ascending_is_the_order(numbers);
    let sorted = ascending(numbers);
    broadcast use vstd::seq_lib::group_to_multiset_ensures;

    assert(sorted.len() == sorted.to_multiset().len());
    assert(sorted.len() == 3);
    assert(sorted =~= seq![sorted[0], sorted[1], sorted[2]]);
    lemma_three(numbers, sorted);
}

/// Three numbers in rising order are the three numbers.
proof fn lemma_three(numbers: Seq<u128>, sorted: Seq<u128>)
    requires
        numbers.len() == 3,
        sorted == ascending(numbers),
    ensures
        sorted.len() == 3,
        ({
            let (a, b, c) = (numbers[0], numbers[1], numbers[2]);
            let m = sorted[1];
            ||| m == a && (b <= a <= c || c <= a <= b)
            ||| m == b && (a <= b <= c || c <= b <= a)
            ||| m == c && (a <= c <= b || b <= c <= a)
        }),
{
    reveal_with_fuel(ascending, 4);
    reveal_with_fuel(placed_number, 4);
    let two = numbers.drop_last();
    let one = two.drop_last();
    assert(ascending(one.drop_last()) =~= Seq::empty());
    assert(ascending(one) =~= seq![numbers[0]]);
    assert(ascending(two) =~= if numbers[0] <= numbers[1] {
        seq![numbers[0], numbers[1]]
    } else {
        seq![numbers[1], numbers[0]]
    });
}

/// Whether the measurements of a session have a value under a name.
pub open spec fn says(
    session: MetricsModel,
    doubles: MetricDoubles,
    name: Seq<char>,
    value: MetricModel,
) -> bool {
    session_fields(session, doubles).contains((name, value))
}

/// What a part of the measurements has, all of them have.
proof fn lemma_parts_are_in_the_whole(
    session: MetricsModel,
    doubles: MetricDoubles,
    pair: (Seq<char>, MetricModel),
)
    ensures
        about_fields(session, doubles).contains(pair) || recognition_fields(
            session,
            doubles,
        ).contains(pair) || segment_fields(session, doubles).contains(pair) || translation_fields(
            session,
            doubles,
        ).contains(pair) || refinement_fields(session, doubles).contains(pair) || correction_fields(
            session,
            doubles,
        ).contains(pair) <==> session_fields(session, doubles).contains(pair),
{
    let a = about_fields(session, doubles);
    let b = recognition_fields(session, doubles);
    let c = segment_fields(session, doubles);
    let d = translation_fields(session, doubles);
    let e = refinement_fields(session, doubles);
    let f = correction_fields(session, doubles);
    reveal(session_fields);
    lemma_contained_in_either(a, b, pair);
    lemma_contained_in_either(a + b, c, pair);
    lemma_contained_in_either(a + b + c, d, pair);
    lemma_contained_in_either(a + b + c + d, e, pair);
    lemma_contained_in_either(a + b + c + d + e, f, pair);
}

/// Two lists together hold what one of them holds.
proof fn lemma_contained_in_either(
    left: Seq<(Seq<char>, MetricModel)>,
    right: Seq<(Seq<char>, MetricModel)>,
    pair: (Seq<char>, MetricModel),
)
    ensures
        (left + right).contains(pair) <==> left.contains(pair) || right.contains(pair),
{
    let both = left + right;
    if left.contains(pair) {
        let i = choose|i: int| 0 <= i < left.len() && left[i] == pair;
        assert(both[i] == pair);
    }
    if right.contains(pair) {
        let i = choose|i: int| 0 <= i < right.len() && right[i] == pair;
        assert(both[left.len() + i] == pair);
    }
    if both.contains(pair) {
        let i = choose|i: int| 0 <= i < both.len() && both[i] == pair;
        if i < left.len() {
            assert(left[i] == pair);
        } else {
            assert(right[i - left.len()] == pair);
        }
    }
}

/// The measurements of a session have every number of it under its own name.
pub proof fn law_every_number_has_its_name(session: MetricsModel, doubles: MetricDoubles)
    ensures
        says(
            session,
            doubles,
            "schema_version"@,
            MetricModel::Unsigned(session.schema_version as u64),
        ),
        says(
            session,
            doubles,
            "session_id"@,
            MetricModel::Text(grouped(hex(session.session_id as nat, 32))),
        ),
        says(
            session,
            doubles,
            "captured_at_unix_ms"@,
            MetricModel::Unsigned(session.captured_at_unix_ms as u64),
        ),
        says(session, doubles, "running"@, MetricModel::Bool(session.running)),
        says(session, doubles, "duration_ms"@, MetricModel::Unsigned(session.duration_ms as u64)),
        says(session, doubles, "asr_engine"@, MetricModel::Text(session.asr_engine)),
        says(session, doubles, "audio_source"@, MetricModel::Text(session.audio_source)),
        says(session, doubles, "source_language"@, MetricModel::Text(session.source_language)),
        says(session, doubles, "target_language"@, MetricModel::Text(session.target_language)),
        says(
            session,
            doubles,
            "reference_context_chars"@,
            MetricModel::Unsigned(session.reference_context_chars as u64),
        ),
        says(session, doubles, "asr_startup_ms"@, count_or_nothing(session.asr_startup_ms)),
        says(session, doubles, "first_asr_text_ms"@, count_or_nothing(session.first_asr_text_ms)),
        says(
            session,
            doubles,
            "asr_partial_updates"@,
            MetricModel::Unsigned(session.asr_partial_updates as u64),
        ),
        says(
            session,
            doubles,
            "asr_partial_interval_ms"@,
            summary_model(session.asr_partial_interval_ms, doubles.asr_partial_interval_ms),
        ),
        says(
            session,
            doubles,
            "asr_revision_events"@,
            MetricModel::Unsigned(session.asr_revision_events as u64),
        ),
        says(
            session,
            doubles,
            "asr_revision_rate_percent"@,
            double_or_nothing(session.asr_revision_rate_percent, doubles.asr_revision_rate_percent),
        ),
        says(
            session,
            doubles,
            "finalized_segments"@,
            MetricModel::Unsigned(session.finalized_segments as u64),
        ),
        says(
            session,
            doubles,
            "short_segments"@,
            MetricModel::Unsigned(session.short_segments as u64),
        ),
        says(
            session,
            doubles,
            "short_segment_rate_percent"@,
            double_or_nothing(
                session.short_segment_rate_percent,
                doubles.short_segment_rate_percent,
            ),
        ),
        says(
            session,
            doubles,
            "segment_characters"@,
            summary_model(session.segment_characters, doubles.segment_characters),
        ),
        says(
            session,
            doubles,
            "segment_duration_ms"@,
            summary_model(session.segment_duration_ms, doubles.segment_duration_ms),
        ),
        says(
            session,
            doubles,
            "finalization_silence_ms"@,
            summary_model(session.finalization_silence_ms, doubles.finalization_silence_ms),
        ),
        says(
            session,
            doubles,
            "idle_or_boundary_segments"@,
            MetricModel::Unsigned(session.idle_or_boundary_segments as u64),
        ),
        says(
            session,
            doubles,
            "asr_final_segments"@,
            MetricModel::Unsigned(session.asr_final_segments as u64),
        ),
        says(
            session,
            doubles,
            "stop_segments"@,
            MetricModel::Unsigned(session.stop_segments as u64),
        ),
        says(
            session,
            doubles,
            "translation_calls"@,
            MetricModel::Unsigned(session.translation_calls as u64),
        ),
        says(
            session,
            doubles,
            "translation_failures"@,
            MetricModel::Unsigned(session.translation_failures as u64),
        ),
        says(
            session,
            doubles,
            "translation_model_latency_ms"@,
            summary_model(
                session.translation_model_latency_ms,
                doubles.translation_model_latency_ms,
            ),
        ),
        says(
            session,
            doubles,
            "draft_ready_ms"@,
            summary_model(session.draft_ready_ms, doubles.draft_ready_ms),
        ),
        says(
            session,
            doubles,
            "final_draft_ready_ms"@,
            summary_model(session.final_draft_ready_ms, doubles.final_draft_ready_ms),
        ),
        says(session, doubles, "llm_calls"@, MetricModel::Unsigned(session.llm_calls as u64)),
        says(session, doubles, "llm_failures"@, MetricModel::Unsigned(session.llm_failures as u64)),
        says(
            session,
            doubles,
            "llm_latency_ms"@,
            summary_model(session.llm_latency_ms, doubles.llm_latency_ms),
        ),
        says(
            session,
            doubles,
            "llm_input_characters"@,
            summary_model(session.llm_input_characters, doubles.llm_input_characters),
        ),
        says(
            session,
            doubles,
            "llm_reference_characters"@,
            summary_model(session.llm_reference_characters, doubles.llm_reference_characters),
        ),
        says(
            session,
            doubles,
            "llm_source_revision_rate_percent"@,
            double_or_nothing(
                session.llm_source_revision_rate_percent,
                doubles.llm_source_revision_rate_percent,
            ),
        ),
        says(
            session,
            doubles,
            "llm_translation_revision_rate_percent"@,
            double_or_nothing(
                session.llm_translation_revision_rate_percent,
                doubles.llm_translation_revision_rate_percent,
            ),
        ),
        says(
            session,
            doubles,
            "final_ready_ms"@,
            summary_model(session.final_ready_ms, doubles.final_ready_ms),
        ),
        says(
            session,
            doubles,
            "user_corrections"@,
            MetricModel::Unsigned(session.user_corrections as u64),
        ),
        says(
            session,
            doubles,
            "user_source_revision_rate_percent"@,
            double_or_nothing(
                session.user_source_revision_rate_percent,
                doubles.user_source_revision_rate_percent,
            ),
        ),
        says(
            session,
            doubles,
            "user_translation_revision_rate_percent"@,
            double_or_nothing(
                session.user_translation_revision_rate_percent,
                doubles.user_translation_revision_rate_percent,
            ),
        ),
{
    assert forall|name: Seq<char>, value: MetricModel|
        about_fields(session, doubles).contains((name, value)) || recognition_fields(
            session,
            doubles,
        ).contains((name, value)) || segment_fields(session, doubles).contains((name, value))
            || translation_fields(session, doubles).contains((name, value)) || refinement_fields(
            session,
            doubles,
        ).contains((name, value)) || correction_fields(session, doubles).contains(
            (name, value),
        ) implies #[trigger] says(session, doubles, name, value) by {
        lemma_parts_are_in_the_whole(session, doubles, (name, value));
    }
    let about = about_fields(session, doubles);
    let recognition = recognition_fields(session, doubles);
    let segment = segment_fields(session, doubles);
    let translation = translation_fields(session, doubles);
    let refinement = refinement_fields(session, doubles);
    let correction = correction_fields(session, doubles);
    assert(about[0].0 == "schema_version"@);
    assert(about[1].0 == "session_id"@);
    assert(about[2].0 == "captured_at_unix_ms"@);
    assert(about[3].0 == "running"@);
    assert(about[4].0 == "duration_ms"@);
    assert(about[5].0 == "asr_engine"@);
    assert(about[6].0 == "audio_source"@);
    assert(about[7].0 == "source_language"@);
    assert(about[8].0 == "target_language"@);
    assert(about[9].0 == "reference_context_chars"@);
    assert(about[10].0 == "asr_startup_ms"@);
    assert(about[11].0 == "first_asr_text_ms"@);
    assert(recognition[0].0 == "asr_partial_updates"@);
    assert(recognition[1].0 == "asr_partial_interval_ms"@);
    assert(recognition[2].0 == "asr_revision_events"@);
    assert(recognition[3].0 == "asr_revision_rate_percent"@);
    assert(recognition[4].0 == "finalized_segments"@);
    assert(recognition[5].0 == "short_segments"@);
    assert(recognition[6].0 == "short_segment_rate_percent"@);
    assert(segment[0].0 == "segment_characters"@);
    assert(segment[1].0 == "segment_duration_ms"@);
    assert(segment[2].0 == "finalization_silence_ms"@);
    assert(segment[3].0 == "idle_or_boundary_segments"@);
    assert(segment[4].0 == "asr_final_segments"@);
    assert(segment[5].0 == "stop_segments"@);
    assert(translation[0].0 == "translation_calls"@);
    assert(translation[1].0 == "translation_failures"@);
    assert(translation[2].0 == "translation_model_latency_ms"@);
    assert(translation[3].0 == "draft_ready_ms"@);
    assert(translation[4].0 == "final_draft_ready_ms"@);
    assert(refinement[0].0 == "llm_calls"@);
    assert(refinement[1].0 == "llm_failures"@);
    assert(refinement[2].0 == "llm_latency_ms"@);
    assert(refinement[3].0 == "llm_input_characters"@);
    assert(refinement[4].0 == "llm_reference_characters"@);
    assert(refinement[5].0 == "llm_source_revision_rate_percent"@);
    assert(refinement[6].0 == "llm_translation_revision_rate_percent"@);
    assert(refinement[7].0 == "final_ready_ms"@);
    assert(correction[0].0 == "user_corrections"@);
    assert(correction[1].0 == "user_source_revision_rate_percent"@);
    assert(correction[2].0 == "user_translation_revision_rate_percent"@);
}

/// A summary as a measurement has its count, its average as the double that stands for it,
/// its percentiles and its maximum, and nothing for what it does not have.
pub proof fn law_summary_has_its_numbers(summary: DistributionSummary, average: u64)
    ensures
        summary_model(summary, average) matches MetricModel::Object(fields) && {
            &&& fields.len() == 5
            &&& fields[0] == ("count"@, MetricModel::Unsigned(summary.count as u64))
            &&& fields[1] == (
                "average"@,
                match summary.average {
                    Some(_) => MetricModel::Float(average),
                    None => MetricModel::Null,
                },
            )
            &&& fields[2] == ("p50"@, count_or_nothing(summary.p50))
            &&& fields[3] == ("p95"@, count_or_nothing(summary.p95))
            &&& fields[4] == ("maximum"@, count_or_nothing(summary.maximum))
        },
{
}

/// A double as a measurement where there is a ratio for it, or nothing.
pub open spec fn double_or_nothing(ratio: Option<Ratio>, bits: u64) -> MetricModel {
    if ratio is Some {
        MetricModel::Float(bits)
    } else {
        MetricModel::Null
    }
}

/// A number as a measurement, or nothing.
pub open spec fn count_or_nothing(n: Option<u128>) -> MetricModel {
    match n {
        Some(n) => MetricModel::Unsigned(n as u64),
        None => MetricModel::Null,
    }
}

/// An identifier is written with all its digits in their order, in groups of eight, four,
/// four, four and twelve with a hyphen between each two.
pub proof fn law_identifiers_are_grouped(digits: Seq<char>, i: int)
    requires
        digits.len() == 32,
        0 <= i < 32,
    ensures
        grouped(digits).len() == 36,
        grouped(digits)[8] == '-' && grouped(digits)[13] == '-' && grouped(digits)[18] == '-'
            && grouped(digits)[23] == '-',
        digits[i] == grouped(digits)[if i < 8 {
            i
        } else if i < 12 {
            i + 1
        } else if i < 16 {
            i + 2
        } else if i < 20 {
            i + 3
        } else {
            i + 4
        }],
{
    reveal_strlit("-");
}

} // verus!
