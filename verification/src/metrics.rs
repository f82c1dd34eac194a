//! What a session's recogniser, translator and refiner did, in numbers.
use crate::clock::{elapsed_ms, millis_between};
use crate::domain::{
    AsrEngine, AudioSource, CorrectionRequest, SegmentSnapshot, };
use crate::median::{optional_metric, MetricModel, MetricValue};
use crate::revision::{
    add_revision, common_prefix_characters, distance, foreign_characters, is_short,
    is_short_segment, meaningful_character_count, meaningful_characters, measured_characters,
    law_appending_revises_nothing, saturating_sum,
};
use crate::summary::{
    checked_sum, percentage, share, sum_of, summary_of, DistributionSummary, Ratio,
};
use crate::terms::CorrectionModel;
use crate::text::{chars_of, common_prefix_len, lemma_common_prefix, same_text, words};
use std::collections::HashMap;
use vstd::prelude::*;
use vstd::std_specs::hash::*;

verus! {

broadcast use vstd::std_specs::hash::group_hash_axioms;

/// Why a segment was closed.
#[derive(Debug, Clone, Copy, PartialEq, Eq, Structural)]
pub enum SegmentFinalizationReason {
    /// Nothing new came for a while, or its text ended a sentence.
    IdleOrBoundary,
    /// The recogniser said so.
    AsrFinal,
    /// The session was stopped.
    SessionStop,
}

/// What is known of a session from its start.
#[derive(Debug)]
pub struct SessionMetricDescriptor {
    pub session_id: u128,
    pub asr_engine: AsrEngine,
    pub audio_source: AudioSource,
    pub source_language: String,
    pub target_language: String,
    pub reference_context_chars: usize,
}

/// The content of a session's description.
pub struct DescriptorModel {
    pub session_id: u128,
    pub asr_engine: AsrEngine,
    pub audio_source: AudioSource,
    pub source_language: Seq<char>,
    pub target_language: Seq<char>,
    pub reference_context_chars: usize,
}

impl View for SessionMetricDescriptor {
    type V = DescriptorModel;

    open spec fn view(&self) -> DescriptorModel {
        DescriptorModel {
            session_id: self.session_id,
            asr_engine: self.asr_engine,
            audio_source: self.audio_source,
            source_language: self.source_language@,
            target_language: self.target_language@,
            reference_context_chars: self.reference_context_chars,
        }
    }
}

impl DescriptorModel {
    /// Whether two sessions can be compared: all but their identities agree.
    pub open spec fn compatible(self, other: DescriptorModel) -> bool {
        (DescriptorModel { session_id: other.session_id, ..self }) == other
    }
}

/// The numbers of one session at one time.
#[derive(Debug)]
pub struct SessionMetricsSnapshot {
    pub schema_version: u32,
    pub session_id: u128,
    pub captured_at_unix_ms: u128,
    pub running: bool,
    pub duration_ms: u128,
    pub asr_engine: String,
    pub audio_source: String,
    pub source_language: String,
    pub target_language: String,
    pub reference_context_chars: usize,
    pub asr_startup_ms: Option<u128>,
    pub first_asr_text_ms: Option<u128>,
    pub asr_partial_updates: usize,
    pub asr_partial_interval_ms: DistributionSummary,
    pub asr_revision_events: usize,
    pub asr_revision_rate_percent: Option<Ratio>,
    pub finalized_segments: usize,
    pub short_segments: usize,
    pub short_segment_rate_percent: Option<Ratio>,
    pub segment_characters: DistributionSummary,
    pub segment_duration_ms: DistributionSummary,
    pub finalization_silence_ms: DistributionSummary,
    pub idle_or_boundary_segments: usize,
    pub asr_final_segments: usize,
    pub stop_segments: usize,
    pub translation_calls: usize,
    pub translation_failures: usize,
    pub translation_model_latency_ms: DistributionSummary,
    pub draft_ready_ms: DistributionSummary,
    pub final_draft_ready_ms: DistributionSummary,
    pub llm_calls: usize,
    pub llm_failures: usize,
    pub llm_latency_ms: DistributionSummary,
    pub llm_input_characters: DistributionSummary,
    pub llm_reference_characters: DistributionSummary,
    pub llm_source_revision_rate_percent: Option<Ratio>,
    pub llm_translation_revision_rate_percent: Option<Ratio>,
    pub final_ready_ms: DistributionSummary,
    pub user_corrections: usize,
    pub user_source_revision_rate_percent: Option<Ratio>,
    pub user_translation_revision_rate_percent: Option<Ratio>,
}

/// The content of the numbers of one session.
pub struct MetricsModel {
    pub schema_version: u32,
    pub session_id: u128,
    pub captured_at_unix_ms: u128,
    pub running: bool,
    pub duration_ms: u128,
    pub asr_engine: Seq<char>,
    pub audio_source: Seq<char>,
    pub source_language: Seq<char>,
    pub target_language: Seq<char>,
    pub reference_context_chars: usize,
    pub asr_startup_ms: Option<u128>,
    pub first_asr_text_ms: Option<u128>,
    pub asr_partial_updates: usize,
    pub asr_partial_interval_ms: DistributionSummary,
    pub asr_revision_events: usize,
    pub asr_revision_rate_percent: Option<Ratio>,
    pub finalized_segments: usize,
    pub short_segments: usize,
    pub short_segment_rate_percent: Option<Ratio>,
    pub segment_characters: DistributionSummary,
    pub segment_duration_ms: DistributionSummary,
    pub finalization_silence_ms: DistributionSummary,
    pub idle_or_boundary_segments: usize,
    pub asr_final_segments: usize,
    pub stop_segments: usize,
    pub translation_calls: usize,
    pub translation_failures: usize,
    pub translation_model_latency_ms: DistributionSummary,
    pub draft_ready_ms: DistributionSummary,
    pub final_draft_ready_ms: DistributionSummary,
    pub llm_calls: usize,
    pub llm_failures: usize,
    pub llm_latency_ms: DistributionSummary,
    pub llm_input_characters: DistributionSummary,
    pub llm_reference_characters: DistributionSummary,
    pub llm_source_revision_rate_percent: Option<Ratio>,
    pub llm_translation_revision_rate_percent: Option<Ratio>,
    pub final_ready_ms: DistributionSummary,
    pub user_corrections: usize,
    pub user_source_revision_rate_percent: Option<Ratio>,
    pub user_translation_revision_rate_percent: Option<Ratio>,
}

impl View for SessionMetricsSnapshot {
    type V = MetricsModel;

    open spec fn view(&self) -> MetricsModel {
        MetricsModel {
            schema_version: self.schema_version,
            session_id: self.session_id,
            captured_at_unix_ms: self.captured_at_unix_ms,
            running: self.running,
            duration_ms: self.duration_ms,
            asr_engine: self.asr_engine@,
            audio_source: self.audio_source@,
            source_language: self.source_language@,
            target_language: self.target_language@,
            reference_context_chars: self.reference_context_chars,
            asr_startup_ms: self.asr_startup_ms,
            first_asr_text_ms: self.first_asr_text_ms,
            asr_partial_updates: self.asr_partial_updates,
            asr_partial_interval_ms: self.asr_partial_interval_ms,
            asr_revision_events: self.asr_revision_events,
            asr_revision_rate_percent: self.asr_revision_rate_percent,
            finalized_segments: self.finalized_segments,
            short_segments: self.short_segments,
            short_segment_rate_percent: self.short_segment_rate_percent,
            segment_characters: self.segment_characters,
            segment_duration_ms: self.segment_duration_ms,
            finalization_silence_ms: self.finalization_silence_ms,
            idle_or_boundary_segments: self.idle_or_boundary_segments,
            asr_final_segments: self.asr_final_segments,
            stop_segments: self.stop_segments,
            translation_calls: self.translation_calls,
            translation_failures: self.translation_failures,
            translation_model_latency_ms: self.translation_model_latency_ms,
            draft_ready_ms: self.draft_ready_ms,
            final_draft_ready_ms: self.final_draft_ready_ms,
            llm_calls: self.llm_calls,
            llm_failures: self.llm_failures,
            llm_latency_ms: self.llm_latency_ms,
            llm_input_characters: self.llm_input_characters,
            llm_reference_characters: self.llm_reference_characters,
            llm_source_revision_rate_percent: self.llm_source_revision_rate_percent,
            llm_translation_revision_rate_percent: self.llm_translation_revision_rate_percent,
            final_ready_ms: self.final_ready_ms,
            user_corrections: self.user_corrections,
            user_source_revision_rate_percent: self.user_source_revision_rate_percent,
            user_translation_revision_rate_percent: self.user_translation_revision_rate_percent,
        }
    }
}

/// What is counted of one session. Points in time are nanoseconds since a fixed moment.
#[derive(Debug)]
pub struct SessionMetrics {
    descriptor: SessionMetricDescriptor,
    started_at: u128,
    asr_startup_ms: Option<u128>,
    first_asr_text_ms: Option<u128>,
    last_partial_at: Option<u128>,
    last_asr_at: Option<u128>,
    asr_partial_intervals: Vec<u128>,
    asr_partial_updates: usize,
    asr_revision_events: usize,
    asr_revised_characters: usize,
    asr_prior_characters: usize,
    previous_segment_text: HashMap<u64, String>,
    segment_started_at: HashMap<u64, u128>,
    segment_characters: Vec<u128>,
    segment_duration_ms: Vec<u128>,
    finalization_silence_ms: Vec<u128>,
    short_segments: usize,
    idle_or_boundary_segments: usize,
    asr_final_segments: usize,
    stop_segments: usize,
    translation_model_latency_ms: Vec<u128>,
    translation_failures: usize,
    draft_ready_ms: Vec<u128>,
    final_draft_ready_ms: Vec<u128>,
    llm_latency_ms: Vec<u128>,
    llm_failures: usize,
    llm_input_characters: Vec<u128>,
    llm_reference_characters: Vec<u128>,
    llm_source_edits: usize,
    llm_source_characters: usize,
    llm_translation_edits: usize,
    llm_translation_characters: usize,
    final_ready_ms: Vec<u128>,
    user_corrections: usize,
    user_source_edits: usize,
    user_source_characters: usize,
    user_translation_edits: usize,
    user_translation_characters: usize,
}

/// The state of what is counted of one session.
pub struct SessionModel {
    pub descriptor: DescriptorModel,
    pub started_at: u128,
    pub asr_startup_ms: Option<u128>,
    pub first_asr_text_ms: Option<u128>,
    pub last_partial_at: Option<u128>,
    pub last_asr_at: Option<u128>,
    pub asr_partial_intervals: Seq<u128>,
    pub asr_partial_updates: usize,
    pub asr_revision_events: usize,
    pub asr_revised_characters: usize,
    pub asr_prior_characters: usize,
    pub previous_segment_text: Map<u64, Seq<char>>,
    pub segment_started_at: Map<u64, u128>,
    pub segment_characters: Seq<u128>,
    pub segment_duration_ms: Seq<u128>,
    pub finalization_silence_ms: Seq<u128>,
    pub short_segments: usize,
    pub idle_or_boundary_segments: usize,
    pub asr_final_segments: usize,
    pub stop_segments: usize,
    pub translation_model_latency_ms: Seq<u128>,
    pub translation_failures: usize,
    pub draft_ready_ms: Seq<u128>,
    pub final_draft_ready_ms: Seq<u128>,
    pub llm_latency_ms: Seq<u128>,
    pub llm_failures: usize,
    pub llm_input_characters: Seq<u128>,
    pub llm_reference_characters: Seq<u128>,
    pub llm_source_edits: usize,
    pub llm_source_characters: usize,
    pub llm_translation_edits: usize,
    pub llm_translation_characters: usize,
    pub final_ready_ms: Seq<u128>,
    pub user_corrections: usize,
    pub user_source_edits: usize,
    pub user_source_characters: usize,
    pub user_translation_edits: usize,
    pub user_translation_characters: usize,
}

impl View for SessionMetrics {
    type V = SessionModel;

    closed spec fn view(&self) -> SessionModel {
        SessionModel {
            descriptor: self.descriptor@,
            started_at: self.started_at,
            asr_startup_ms: self.asr_startup_ms,
            first_asr_text_ms: self.first_asr_text_ms,
            last_partial_at: self.last_partial_at,
            last_asr_at: self.last_asr_at,
            asr_partial_intervals: self.asr_partial_intervals@,
            asr_partial_updates: self.asr_partial_updates,
            asr_revision_events: self.asr_revision_events,
            asr_revised_characters: self.asr_revised_characters,
            asr_prior_characters: self.asr_prior_characters,
            previous_segment_text: self.previous_segment_text@.map_values(|text: String| text@),
            segment_started_at: self.segment_started_at@,
            segment_characters: self.segment_characters@,
            segment_duration_ms: self.segment_duration_ms@,
            finalization_silence_ms: self.finalization_silence_ms@,
            short_segments: self.short_segments,
            idle_or_boundary_segments: self.idle_or_boundary_segments,
            asr_final_segments: self.asr_final_segments,
            stop_segments: self.stop_segments,
            translation_model_latency_ms: self.translation_model_latency_ms@,
            translation_failures: self.translation_failures,
            draft_ready_ms: self.draft_ready_ms@,
            final_draft_ready_ms: self.final_draft_ready_ms@,
            llm_latency_ms: self.llm_latency_ms@,
            llm_failures: self.llm_failures,
            llm_input_characters: self.llm_input_characters@,
            llm_reference_characters: self.llm_reference_characters@,
            llm_source_edits: self.llm_source_edits,
            llm_source_characters: self.llm_source_characters,
            llm_translation_edits: self.llm_translation_edits,
            llm_translation_characters: self.llm_translation_characters,
            final_ready_ms: self.final_ready_ms@,
            user_corrections: self.user_corrections,
            user_source_edits: self.user_source_edits,
            user_source_characters: self.user_source_characters,
            user_translation_edits: self.user_translation_edits,
            user_translation_characters: self.user_translation_characters,
        }
    }
}

/// What is counted of one refinement.
pub struct LlmCall<'a> {
    pub latency_ms: u128,
    pub input_chars: usize,
    pub reference_chars: usize,
    pub original_source: &'a str,
    /// What the refinement made of the source, if it says.
    pub corrected_source: Option<&'a str>,
    pub draft_translation: &'a str,
    pub final_translation: &'a str,
}

/// The content of what is counted of one refinement.
pub struct LlmCallModel {
    pub latency_ms: u128,
    pub input_chars: usize,
    pub reference_chars: usize,
    pub original_source: Seq<char>,
    pub corrected_source: Seq<char>,
    pub draft_translation: Seq<char>,
    pub final_translation: Seq<char>,
}

impl<'a> View for LlmCall<'a> {
    type V = LlmCallModel;

    open spec fn view(&self) -> LlmCallModel {
        LlmCallModel {
            latency_ms: self.latency_ms,
            input_chars: self.input_chars,
            reference_chars: self.reference_chars,
            original_source: self.original_source@,
            corrected_source: match self.corrected_source {
                Some(text) => text@,
                None => self.original_source@,
            },
            draft_translation: self.draft_translation@,
            final_translation: self.final_translation@,
        }
    }
}

/// A count that has grown by one, up to the largest one there is.
pub open spec fn counted(count: usize) -> usize {
    saturating_sum(count, 1)
}

/// What is known already, or else what is said now.
pub open spec fn known_or(known: Option<u128>, now: u128) -> Option<u128> {
    match known {
        Some(value) => Some(value),
        None => Some(now),
    }
}

impl SessionModel {
    /// Before anything has happened.
    pub open spec fn initial(descriptor: DescriptorModel, now: u128) -> SessionModel {
        SessionModel {
            descriptor,
            started_at: now,
            asr_startup_ms: None,
            first_asr_text_ms: None,
            last_partial_at: None,
            last_asr_at: None,
            asr_partial_intervals: Seq::empty(),
            asr_partial_updates: 0,
            asr_revision_events: 0,
            asr_revised_characters: 0,
            asr_prior_characters: 0,
            previous_segment_text: Map::empty(),
            segment_started_at: Map::empty(),
            segment_characters: Seq::empty(),
            segment_duration_ms: Seq::empty(),
            finalization_silence_ms: Seq::empty(),
            short_segments: 0,
            idle_or_boundary_segments: 0,
            asr_final_segments: 0,
            stop_segments: 0,
            translation_model_latency_ms: Seq::empty(),
            translation_failures: 0,
            draft_ready_ms: Seq::empty(),
            final_draft_ready_ms: Seq::empty(),
            llm_latency_ms: Seq::empty(),
            llm_failures: 0,
            llm_input_characters: Seq::empty(),
            llm_reference_characters: Seq::empty(),
            llm_source_edits: 0,
            llm_source_characters: 0,
            llm_translation_edits: 0,
            llm_translation_characters: 0,
            final_ready_ms: Seq::empty(),
            user_corrections: 0,
            user_source_edits: 0,
            user_source_characters: 0,
            user_translation_edits: 0,
            user_translation_characters: 0,
        }
    }

    /// Whether the sums of all measured numbers are small enough to be worked out.
    pub open spec fn sums_fit(self) -> bool {
        &&& sum_of(self.asr_partial_intervals) <= u128::MAX
        &&& sum_of(self.segment_characters) <= u128::MAX
        &&& sum_of(self.segment_duration_ms) <= u128::MAX
        &&& sum_of(self.finalization_silence_ms) <= u128::MAX
        &&& sum_of(self.translation_model_latency_ms) <= u128::MAX
        &&& sum_of(self.draft_ready_ms) <= u128::MAX
        &&& sum_of(self.final_draft_ready_ms) <= u128::MAX
        &&& sum_of(self.llm_latency_ms) <= u128::MAX
        &&& sum_of(self.llm_input_characters) <= u128::MAX
        &&& sum_of(self.llm_reference_characters) <= u128::MAX
        &&& sum_of(self.final_ready_ms) <= u128::MAX
    }

    /// The text that a segment had before, if it had any.
    pub open spec fn prior_text(self, segment_id: u64) -> Seq<char> {
        if self.previous_segment_text.contains_key(segment_id) {
            self.previous_segment_text[segment_id]
        } else {
            Seq::empty()
        }
    }

    /// How many characters of a segment's text from before a new text takes back.
    pub open spec fn revised_characters(self, segment_id: u64, text: Seq<char>) -> nat {
        let prior = self.prior_text(segment_id);
        (prior.len() - common_prefix_len(prior, text)) as nat
    }

    /// After the recogniser's readiness.
    pub open spec fn after_ready(self, now: u128) -> SessionModel {
        SessionModel {
            asr_startup_ms: known_or(self.asr_startup_ms, millis_between(self.started_at, now)),
            ..self
        }
    }

    /// After a text of the recogniser.
    pub open spec fn after_text(
        self,
        segment_id: u64,
        text: Seq<char>,
        is_partial: bool,
        now: u128,
    ) -> SessionModel {
        let revised = self.revised_characters(segment_id, text);
        SessionModel {
            first_asr_text_ms: known_or(
                self.first_asr_text_ms,
                millis_between(self.started_at, now),
            ),
            last_asr_at: Some(now),
            segment_started_at: if self.segment_started_at.contains_key(segment_id) {
                self.segment_started_at
            } else {
                self.segment_started_at.insert(segment_id, now)
            },
            asr_partial_updates: if is_partial {
                counted(self.asr_partial_updates)
            } else {
                self.asr_partial_updates
            },
            last_partial_at: if is_partial {
                Some(now)
            } else {
                self.last_partial_at
            },
            asr_partial_intervals: match self.last_partial_at {
                Some(previous_at) if is_partial => self.asr_partial_intervals.push(
                    millis_between(previous_at, now),
                ),
                _ => self.asr_partial_intervals,
            },
            previous_segment_text: self.previous_segment_text.insert(segment_id, text),
            asr_prior_characters: saturating_sum(
                self.asr_prior_characters,
                self.prior_text(segment_id).len(),
            ),
            asr_revised_characters: saturating_sum(self.asr_revised_characters, revised),
            asr_revision_events: if revised > 0 {
                counted(self.asr_revision_events)
            } else {
                self.asr_revision_events
            },
            ..self
        }
    }

    /// After a segment was closed.
    pub open spec fn after_segment(
        self,
        segment_id: u64,
        text: Seq<char>,
        reason: SegmentFinalizationReason,
        now: u128,
    ) -> SessionModel {
        SessionModel {
            segment_characters: self.segment_characters.push(meaningful_characters(text) as u128),
            short_segments: if is_short(words(text).len(), foreign_characters(text)) {
                counted(self.short_segments)
            } else {
                self.short_segments
            },
            segment_duration_ms: if self.segment_started_at.contains_key(segment_id) {
                self.segment_duration_ms.push(
                    millis_between(self.segment_started_at[segment_id], now),
                )
            } else {
                self.segment_duration_ms
            },
            segment_started_at: self.segment_started_at.remove(segment_id),
            finalization_silence_ms: match self.last_asr_at {
                Some(last) => self.finalization_silence_ms.push(millis_between(last, now)),
                None => self.finalization_silence_ms,
            },
            previous_segment_text: self.previous_segment_text.remove(segment_id),
            idle_or_boundary_segments: if reason == SegmentFinalizationReason::IdleOrBoundary {
                counted(self.idle_or_boundary_segments)
            } else {
                self.idle_or_boundary_segments
            },
            asr_final_segments: if reason == SegmentFinalizationReason::AsrFinal {
                counted(self.asr_final_segments)
            } else {
                self.asr_final_segments
            },
            stop_segments: if reason == SegmentFinalizationReason::SessionStop {
                counted(self.stop_segments)
            } else {
                self.stop_segments
            },
            ..self
        }
    }

    /// After a translation.
    pub open spec fn after_translation(self, latency_ms: u128) -> SessionModel {
        SessionModel {
            translation_model_latency_ms: self.translation_model_latency_ms.push(latency_ms),
            ..self
        }
    }

    /// After a translation failed.
    pub open spec fn after_translation_failure(self) -> SessionModel {
        SessionModel { translation_failures: counted(self.translation_failures), ..self }
    }

    /// After a draft was ready.
    pub open spec fn after_draft(self, latency_ms: u128, final_snapshot: bool) -> SessionModel {
        SessionModel {
            draft_ready_ms: self.draft_ready_ms.push(latency_ms),
            final_draft_ready_ms: if final_snapshot {
                self.final_draft_ready_ms.push(latency_ms)
            } else {
                self.final_draft_ready_ms
            },
            ..self
        }
    }

    /// After a refinement.
    pub open spec fn after_llm(self, call: LlmCallModel) -> SessionModel {
        SessionModel {
            llm_latency_ms: self.llm_latency_ms.push(call.latency_ms),
            llm_input_characters: self.llm_input_characters.push(call.input_chars as u128),
            llm_reference_characters: self.llm_reference_characters.push(
                call.reference_chars as u128,
            ),
            llm_source_edits: saturating_sum(
                self.llm_source_edits,
                distance(call.original_source, call.corrected_source),
            ),
            llm_source_characters: saturating_sum(
                self.llm_source_characters,
                measured_characters(call.original_source),
            ),
            llm_translation_edits: saturating_sum(
                self.llm_translation_edits,
                distance(call.draft_translation, call.final_translation),
            ),
            llm_translation_characters: saturating_sum(
                self.llm_translation_characters,
                measured_characters(call.draft_translation),
            ),
            ..self
        }
    }

    /// After a refinement failed.
    pub open spec fn after_llm_failure(self) -> SessionModel {
        SessionModel { llm_failures: counted(self.llm_failures), ..self }
    }

    /// After a final caption was ready.
    pub open spec fn after_final_caption(self, latency_ms: u128) -> SessionModel {
        SessionModel { final_ready_ms: self.final_ready_ms.push(latency_ms), ..self }
    }

    /// After a user's correction.
    pub open spec fn after_correction(self, correction: CorrectionModel) -> SessionModel {
        SessionModel {
            user_corrections: counted(self.user_corrections),
            user_source_edits: saturating_sum(
                self.user_source_edits,
                distance(correction.original_source, correction.corrected_source),
            ),
            user_source_characters: saturating_sum(
                self.user_source_characters,
                measured_characters(correction.original_source),
            ),
            user_translation_edits: saturating_sum(
                self.user_translation_edits,
                distance(correction.original_translation, correction.corrected_translation),
            ),
            user_translation_characters: saturating_sum(
                self.user_translation_characters,
                measured_characters(correction.original_translation),
            ),
            ..self
        }
    }

    /// The numbers of the session.
    pub open spec fn snapshot(self, running: bool, now: u128, unix_ms: u128) -> MetricsModel {
        MetricsModel {
            schema_version: 1,
            session_id: self.descriptor.session_id,
            captured_at_unix_ms: unix_ms,
            running,
            duration_ms: millis_between(self.started_at, now),
            asr_engine: self.descriptor.asr_engine.id_text(),
            audio_source: self.descriptor.audio_source.argument_text(),
            source_language: self.descriptor.source_language,
            target_language: self.descriptor.target_language,
            reference_context_chars: self.descriptor.reference_context_chars,
            asr_startup_ms: self.asr_startup_ms,
            first_asr_text_ms: self.first_asr_text_ms,
            asr_partial_updates: self.asr_partial_updates,
            asr_partial_interval_ms: summary_of(self.asr_partial_intervals),
            asr_revision_events: self.asr_revision_events,
            asr_revision_rate_percent: share(
                self.asr_revised_characters,
                self.asr_prior_characters,
            ),
            finalized_segments: self.segment_characters.len() as usize,
            short_segments: self.short_segments,
            short_segment_rate_percent: share(
                self.short_segments,
                self.segment_characters.len() as usize,
            ),
            segment_characters: summary_of(self.segment_characters),
            segment_duration_ms: summary_of(self.segment_duration_ms),
            finalization_silence_ms: summary_of(self.finalization_silence_ms),
            idle_or_boundary_segments: self.idle_or_boundary_segments,
            asr_final_segments: self.asr_final_segments,
            stop_segments: self.stop_segments,
            translation_calls: self.translation_model_latency_ms.len() as usize,
            translation_failures: self.translation_failures,
            translation_model_latency_ms: summary_of(self.translation_model_latency_ms),
            draft_ready_ms: summary_of(self.draft_ready_ms),
            final_draft_ready_ms: summary_of(self.final_draft_ready_ms),
            llm_calls: self.llm_latency_ms.len() as usize,
            llm_failures: self.llm_failures,
            llm_latency_ms: summary_of(self.llm_latency_ms),
            llm_input_characters: summary_of(self.llm_input_characters),
            llm_reference_characters: summary_of(self.llm_reference_characters),
            llm_source_revision_rate_percent: share(
                self.llm_source_edits,
                self.llm_source_characters,
            ),
            llm_translation_revision_rate_percent: share(
                self.llm_translation_edits,
                self.llm_translation_characters,
            ),
            final_ready_ms: summary_of(self.final_ready_ms),
            user_corrections: self.user_corrections,
            user_source_revision_rate_percent: share(
                self.user_source_edits,
                self.user_source_characters,
            ),
            user_translation_revision_rate_percent: share(
                self.user_translation_edits,
                self.user_translation_characters,
            ),
        }
    }
}

impl SessionMetrics {
    /// Before anything has happened.
    pub fn new(descriptor: SessionMetricDescriptor, now: u128) -> (metrics: Self)
        ensures
            metrics@ == SessionModel::initial(descriptor@, now),
    {
        let metrics = SessionMetrics {
            descriptor,
            started_at: now,
            asr_startup_ms: None,
            first_asr_text_ms: None,
            last_partial_at: None,
            last_asr_at: None,
            asr_partial_intervals: Vec::new(),
            asr_partial_updates: 0,
            asr_revision_events: 0,
            asr_revised_characters: 0,
            asr_prior_characters: 0,
            previous_segment_text: HashMap::new(),
            segment_started_at: HashMap::new(),
            segment_characters: Vec::new(),
            segment_duration_ms: Vec::new(),
            finalization_silence_ms: Vec::new(),
            short_segments: 0,
            idle_or_boundary_segments: 0,
            asr_final_segments: 0,
            stop_segments: 0,
            translation_model_latency_ms: Vec::new(),
            translation_failures: 0,
            draft_ready_ms: Vec::new(),
            final_draft_ready_ms: Vec::new(),
            llm_latency_ms: Vec::new(),
            llm_failures: 0,
            llm_input_characters: Vec::new(),
            llm_reference_characters: Vec::new(),
            llm_source_edits: 0,
            llm_source_characters: 0,
            llm_translation_edits: 0,
            llm_translation_characters: 0,
            final_ready_ms: Vec::new(),
            user_corrections: 0,
            user_source_edits: 0,
            user_source_characters: 0,
            user_translation_edits: 0,
            user_translation_characters: 0,
        };
        proof {
            assert(metrics@.previous_segment_text =~= Map::empty());
            assert(metrics@.segment_started_at =~= Map::empty());
        }
        metrics
    }

    /// Whether the sums of all measured numbers are small enough to be worked out.
    pub fn can_summarize(&self) -> (can: bool)
        ensures
            can == self@.sums_fit(),
    {
        checked_sum(self.asr_partial_intervals.as_slice()).is_some()
            && checked_sum(self.segment_characters.as_slice()).is_some()
            && checked_sum(self.segment_duration_ms.as_slice()).is_some()
            && checked_sum(self.finalization_silence_ms.as_slice()).is_some()
            && checked_sum(self.translation_model_latency_ms.as_slice()).is_some()
            && checked_sum(self.draft_ready_ms.as_slice()).is_some()
            && checked_sum(self.final_draft_ready_ms.as_slice()).is_some()
            && checked_sum(self.llm_latency_ms.as_slice()).is_some()
            && checked_sum(self.llm_input_characters.as_slice()).is_some()
            && checked_sum(self.llm_reference_characters.as_slice()).is_some()
            && checked_sum(self.final_ready_ms.as_slice()).is_some()
    }

    /// The numbers of the session.
    pub fn snapshot(&self, running: bool, now: u128, unix_ms: u128) -> (snapshot:
        SessionMetricsSnapshot)
        requires
            self@.sums_fit(),
        ensures
            snapshot@ == self@.snapshot(running, now, unix_ms),
    {
        SessionMetricsSnapshot {
            schema_version: 1,
            session_id: self.descriptor.session_id,
            captured_at_unix_ms: unix_ms,
            running,
            duration_ms: elapsed_ms(self.started_at, now),
            asr_engine: self.descriptor.asr_engine.id().to_owned(),
            audio_source: self.descriptor.audio_source.bridge_argument().to_owned(),
            source_language: self.descriptor.source_language.clone(),
            target_language: self.descriptor.target_language.clone(),
            reference_context_chars: self.descriptor.reference_context_chars,
            asr_startup_ms: self.asr_startup_ms,
            first_asr_text_ms: self.first_asr_text_ms,
            asr_partial_updates: self.asr_partial_updates,
            asr_partial_interval_ms: DistributionSummary::from_samples(
                self.asr_partial_intervals.as_slice(),
            ),
            asr_revision_events: self.asr_revision_events,
            asr_revision_rate_percent: percentage(
                self.asr_revised_characters,
                self.asr_prior_characters,
            ),
            finalized_segments: self.segment_characters.len(),
            short_segments: self.short_segments,
            short_segment_rate_percent: percentage(
                self.short_segments,
                self.segment_characters.len(),
            ),
            segment_characters: DistributionSummary::from_samples(
                self.segment_characters.as_slice(),
            ),
            segment_duration_ms: DistributionSummary::from_samples(
                self.segment_duration_ms.as_slice(),
            ),
            finalization_silence_ms: DistributionSummary::from_samples(
                self.finalization_silence_ms.as_slice(),
            ),
            idle_or_boundary_segments: self.idle_or_boundary_segments,
            asr_final_segments: self.asr_final_segments,
            stop_segments: self.stop_segments,
            translation_calls: self.translation_model_latency_ms.len(),
            translation_failures: self.translation_failures,
            translation_model_latency_ms: DistributionSummary::from_samples(
                self.translation_model_latency_ms.as_slice(),
            ),
            draft_ready_ms: DistributionSummary::from_samples(self.draft_ready_ms.as_slice()),
            final_draft_ready_ms: DistributionSummary::from_samples(
                self.final_draft_ready_ms.as_slice(),
            ),
            llm_calls: self.llm_latency_ms.len(),
            llm_failures: self.llm_failures,
            llm_latency_ms: DistributionSummary::from_samples(self.llm_latency_ms.as_slice()),
            llm_input_characters: DistributionSummary::from_samples(
                self.llm_input_characters.as_slice(),
            ),
            llm_reference_characters: DistributionSummary::from_samples(
                self.llm_reference_characters.as_slice(),
            ),
            llm_source_revision_rate_percent: percentage(
                self.llm_source_edits,
                self.llm_source_characters,
            ),
            llm_translation_revision_rate_percent: percentage(
                self.llm_translation_edits,
                self.llm_translation_characters,
            ),
            final_ready_ms: DistributionSummary::from_samples(self.final_ready_ms.as_slice()),
            user_corrections: self.user_corrections,
            user_source_revision_rate_percent: percentage(
                self.user_source_edits,
                self.user_source_characters,
            ),
            user_translation_revision_rate_percent: percentage(
                self.user_translation_edits,
                self.user_translation_characters,
            ),
        }
    }
}

impl SessionMetrics {
    /// Counts the recogniser's readiness.
    pub fn record_asr_ready(&mut self, now: u128)
        ensures
            final(self)@ == old(self)@.after_ready(now),
    {
        if self.asr_startup_ms.is_none() {
            self.asr_startup_ms = Some(elapsed_ms(self.started_at, now));
        }
    }

    /// Counts a text of the recogniser.
    pub fn record_asr_snapshot(&mut self, snapshot: &SegmentSnapshot, is_partial: bool, now: u128)
        ensures
            final(self)@ == old(self)@.after_text(
                snapshot.segment_id,
                snapshot.source_text@,
                is_partial,
                now,
            ),
    {
        if self.first_asr_text_ms.is_none() {
            self.first_asr_text_ms = Some(elapsed_ms(self.started_at, now));
        }
        self.last_asr_at = Some(now);
        if !self.segment_started_at.contains_key(&snapshot.segment_id) {
            self.segment_started_at.insert(snapshot.segment_id, now);
        }
        if is_partial {
            self.asr_partial_updates = self.asr_partial_updates.saturating_add(1);
            if let Some(previous_at) = self.last_partial_at {
                self.asr_partial_intervals.push(elapsed_ms(previous_at, now));
            }
            self.last_partial_at = Some(now);
        }
        let ghost before = self.previous_segment_text@;
        let prior = self.previous_segment_text.insert(
            snapshot.segment_id,
            snapshot.source_text.clone(),
        );
        proof {
            assert(self@.previous_segment_text =~= old(self)@.previous_segment_text.insert(
                snapshot.segment_id,
                snapshot.source_text@,
            ));
        }
        match prior {
            Some(previous) => {
                let previous_length: usize = chars_of(previous.as_str()).len();
                let stable_prefix = common_prefix_characters(
                    previous.as_str(),
                    snapshot.source_text.as_str(),
                );
                proof {
                    lemma_common_prefix(previous@, snapshot.source_text@);
                    assert(old(self)@.prior_text(snapshot.segment_id) == previous@);
                }
                let revised: usize = previous_length - stable_prefix;
                self.asr_prior_characters = self.asr_prior_characters.saturating_add(
                    previous_length,
                );
                self.asr_revised_characters = self.asr_revised_characters.saturating_add(revised);
                if revised > 0 {
                    self.asr_revision_events = self.asr_revision_events.saturating_add(1);
                }
            },
            None => {
                proof {
                    lemma_common_prefix(Seq::empty(), snapshot.source_text@);
                }
            },
        }
    }

    /// Counts a segment that was closed.
    pub fn record_segment_final(
        &mut self,
        snapshot: &SegmentSnapshot,
        reason: SegmentFinalizationReason,
        now: u128,
    )
        ensures
            final(self)@ == old(self)@.after_segment(
                snapshot.segment_id,
                snapshot.source_text@,
                reason,
                now,
            ),
    {
        let text = snapshot.source_text.as_str();
        self.segment_characters.push(meaningful_character_count(text) as u128);
        if is_short_segment(text) {
            self.short_segments = self.short_segments.saturating_add(1);
        }
        let started = self.segment_started_at.remove(&snapshot.segment_id);
        if let Some(started_at) = started {
            self.segment_duration_ms.push(elapsed_ms(started_at, now));
        }
        if let Some(last_asr_at) = self.last_asr_at {
            self.finalization_silence_ms.push(elapsed_ms(last_asr_at, now));
        }
        let _removed = self.previous_segment_text.remove(&snapshot.segment_id);
        proof {
            assert(self@.previous_segment_text =~= old(self)@.previous_segment_text.remove(
                snapshot.segment_id,
            ));
            assert(self@.segment_started_at =~= old(self)@.segment_started_at.remove(
                snapshot.segment_id,
            ));
        }
        match reason {
            SegmentFinalizationReason::IdleOrBoundary => {
                self.idle_or_boundary_segments = self.idle_or_boundary_segments.saturating_add(1);
            },
            SegmentFinalizationReason::AsrFinal => {
                self.asr_final_segments = self.asr_final_segments.saturating_add(1);
            },
            SegmentFinalizationReason::SessionStop => {
                self.stop_segments = self.stop_segments.saturating_add(1);
            },
        }
    }

    /// Counts a translation.
    pub fn record_translation(&mut self, latency_ms: u128)
        ensures
            final(self)@ == old(self)@.after_translation(latency_ms),
    {
        self.translation_model_latency_ms.push(latency_ms);
    }

    /// Counts a translation that failed.
    pub fn record_translation_failure(&mut self)
        ensures
            final(self)@ == old(self)@.after_translation_failure(),
    {
        self.translation_failures = self.translation_failures.saturating_add(1);
    }

    /// Counts a draft that is ready.
    pub fn record_draft_ready(&mut self, latency_ms: u128, final_snapshot: bool)
        ensures
            final(self)@ == old(self)@.after_draft(latency_ms, final_snapshot),
    {
        self.draft_ready_ms.push(latency_ms);
        if final_snapshot {
            self.final_draft_ready_ms.push(latency_ms);
        }
    }

    /// Counts a refinement.
    pub fn record_llm(&mut self, call: &LlmCall)
        ensures
            final(self)@ == old(self)@.after_llm(call@),
    {
        self.llm_latency_ms.push(call.latency_ms);
        self.llm_input_characters.push(call.input_chars as u128);
        self.llm_reference_characters.push(call.reference_chars as u128);
        let corrected_source = match call.corrected_source {
            Some(text) => text,
            None => call.original_source,
        };
        add_revision(
            call.original_source,
            corrected_source,
            &mut self.llm_source_edits,
            &mut self.llm_source_characters,
        );
        add_revision(
            call.draft_translation,
            call.final_translation,
            &mut self.llm_translation_edits,
            &mut self.llm_translation_characters,
        );
    }

    /// Counts a refinement that failed.
    pub fn record_llm_failure(&mut self)
        ensures
            final(self)@ == old(self)@.after_llm_failure(),
    {
        self.llm_failures = self.llm_failures.saturating_add(1);
    }

    /// Counts a final caption that is ready.
    pub fn record_final_ready(&mut self, latency_ms: u128)
        ensures
            final(self)@ == old(self)@.after_final_caption(latency_ms),
    {
        self.final_ready_ms.push(latency_ms);
    }

    /// Counts a user's correction.
    pub fn record_user_correction(&mut self, correction: &CorrectionRequest)
        ensures
            final(self)@ == old(self)@.after_correction(correction@),
    {
        self.user_corrections = self.user_corrections.saturating_add(1);
        add_revision(
            correction.original_source.as_str(),
            correction.corrected_source.as_str(),
            &mut self.user_source_edits,
            &mut self.user_source_characters,
        );
        add_revision(
            correction.original_translation.as_str(),
            correction.corrected_translation.as_str(),
            &mut self.user_translation_edits,
            &mut self.user_translation_characters,
        );
    }

    /// Whether this session can be compared with another.
    pub fn is_compatible_with(&self, other: &SessionMetrics) -> (compatible: bool)
        ensures
            compatible == self@.descriptor.compatible(other@.descriptor),
    {
        self.descriptor.asr_engine == other.descriptor.asr_engine && self.descriptor.audio_source
            == other.descriptor.audio_source && same_text(
            self.descriptor.source_language.as_str(),
            other.descriptor.source_language.as_str(),
        ) && same_text(
            self.descriptor.target_language.as_str(),
            other.descriptor.target_language.as_str(),
        ) && self.descriptor.reference_context_chars == other.descriptor.reference_context_chars
    }
}

// ---------------------------------------------------------------------------------
// Sessions
// ---------------------------------------------------------------------------------

/// How many completed sessions are kept.
pub const MAX_COMPLETED: usize = 10;

/// How many comparable sessions make a baseline.
pub const BASELINE_SESSIONS: usize = 3;

/// The numbers of the sessions.
#[derive(Debug)]
pub struct MetricsResponse {
    pub current: Option<SessionMetricsSnapshot>,
    pub last_completed: Option<SessionMetricsSnapshot>,
    pub recent_completed: Vec<SessionMetricsSnapshot>,
    pub baseline: Option<MetricValue>,
}

/// The content of the numbers of the sessions.
pub struct ResponseModel {
    pub current: Option<MetricsModel>,
    pub last_completed: Option<MetricsModel>,
    pub recent_completed: Seq<MetricsModel>,
    pub baseline: Option<MetricModel>,
}

/// The content of numbers that may be missing.
pub open spec fn optional_metrics(snapshot: Option<SessionMetricsSnapshot>) -> Option<MetricsModel> {
    match snapshot {
        Some(s) => Some(s@),
        None => None,
    }
}

/// The contents of the numbers of several sessions.
pub open spec fn metrics_models(snapshots: Seq<SessionMetricsSnapshot>) -> Seq<MetricsModel> {
    snapshots.map_values(|snapshot: SessionMetricsSnapshot| snapshot@)
}

impl View for MetricsResponse {
    type V = ResponseModel;

    open spec fn view(&self) -> ResponseModel {
        ResponseModel {
            current: optional_metrics(self.current),
            last_completed: optional_metrics(self.last_completed),
            recent_completed: metrics_models(self.recent_completed@),
            baseline: optional_metric(self.baseline),
        }
    }
}

/// Why there can be no baseline yet.
#[derive(Debug, Clone, Copy, PartialEq, Eq, Structural)]
pub enum BaselineError {
    /// A session is running.
    SessionRunning,
    /// No session was completed.
    NoSession,
    /// Too few comparable sessions were completed.
    TooFewSessions,
}

impl BaselineError {
    /// The error as people read it.
    pub open spec fn text(self) -> Seq<char> {
        match self {
            BaselineError::SessionRunning => "请先结束当前会话，再保存稳定基线"@,
            BaselineError::NoSession => "还没有可设为基线的会话指标"@,
            BaselineError::TooFewSessions => "需要先完成 3 次 ASR、音频来源、语言方向和背景长度一致的会话"@,
        }
    }

    /// The error as people read it.
    pub fn message(self) -> (message: &'static str)
        ensures
            message@ == self.text(),
    {
        match self {
            BaselineError::SessionRunning => "请先结束当前会话，再保存稳定基线",
            BaselineError::NoSession => "还没有可设为基线的会话指标",
            BaselineError::TooFewSessions => "需要先完成 3 次 ASR、音频来源、语言方向和背景长度一致的会话",
        }
    }
}

/// The state of the record of sessions.
pub struct RecordModel {
    pub current: Option<SessionModel>,
    /// The completed sessions, the oldest first.
    pub completed: Seq<SessionModel>,
    pub baseline: Option<MetricModel>,
}

/// The newest of some sessions that can be compared with a session, the newest first.
pub open spec fn newest_compatible(
    sessions: Seq<SessionModel>,
    latest: SessionModel,
    limit: nat,
) -> Seq<SessionModel>
    decreases sessions.len(),
{
    if sessions.len() == 0 || limit == 0 {
        Seq::empty()
    } else if sessions.last().descriptor.compatible(latest.descriptor) {
        seq![sessions.last()] + newest_compatible(
            sessions.drop_last(),
            latest,
            (limit - 1) as nat,
        )
    } else {
        newest_compatible(sessions.drop_last(), latest, limit)
    }
}

/// The last of some sessions, as many as are kept.
pub open spec fn kept_sessions(sessions: Seq<SessionModel>) -> Seq<SessionModel> {
    if sessions.len() <= MAX_COMPLETED {
        sessions
    } else {
        sessions.skip(sessions.len() - MAX_COMPLETED)
    }
}

impl RecordModel {
    /// Before the first session.
    pub open spec fn initial(baseline: Option<MetricModel>) -> RecordModel {
        RecordModel { current: None, completed: Seq::empty(), baseline }
    }

    /// With something that happened to the current session, if there is one.
    pub open spec fn with_current(self, change: spec_fn(SessionModel) -> SessionModel) -> RecordModel {
        RecordModel {
            current: match self.current {
                Some(session) => Some(change(session)),
                None => None,
            },
            ..self
        }
    }

    /// After a user's correction: it counts for the current session or, if there is
    /// none, for the one that was completed last.
    pub open spec fn after_correction(self, correction: CorrectionModel) -> RecordModel {
        match self.current {
            Some(session) => RecordModel {
                current: Some(session.after_correction(correction)),
                ..self
            },
            None => if self.completed.len() > 0 {
                RecordModel {
                    completed: self.completed.update(
                        self.completed.len() - 1,
                        self.completed.last().after_correction(correction),
                    ),
                    ..self
                }
            } else {
                self
            },
        }
    }

    /// After the current session was completed.
    pub open spec fn finished(self) -> RecordModel {
        match self.current {
            Some(session) => RecordModel {
                current: None,
                completed: kept_sessions(self.completed.push(session)),
                ..self
            },
            None => self,
        }
    }

    /// Whether the sums of all measured numbers are small enough to be worked out.
    pub open spec fn sums_fit(self) -> bool {
        (self.current matches Some(session) ==> session.sums_fit()) && forall|i: int|
            0 <= i < self.completed.len() ==> (#[trigger] self.completed[i]).sums_fit()
    }

    /// The numbers of the sessions.
    pub open spec fn response(self, now: u128, unix_ms: u128) -> ResponseModel {
        ResponseModel {
            current: match self.current {
                Some(session) => Some(session.snapshot(true, now, unix_ms)),
                None => None,
            },
            last_completed: if self.completed.len() > 0 {
                Some(self.completed.last().snapshot(false, now, unix_ms))
            } else {
                None
            },
            recent_completed: self.completed.map_values(
                |session: SessionModel| session.snapshot(false, now, unix_ms),
            ),
            baseline: self.baseline,
        }
    }

    /// The sessions that make a baseline, the newest first, or why there is none.
    pub open spec fn baseline_sessions(self) -> Result<Seq<SessionModel>, BaselineError> {
        if self.current is Some {
            Err(BaselineError::SessionRunning)
        } else if self.completed.len() == 0 {
            Err(BaselineError::NoSession)
        } else {
            let sessions = newest_compatible(
                self.completed,
                self.completed.last(),
                BASELINE_SESSIONS as nat,
            );
            if sessions.len() < BASELINE_SESSIONS {
                Err(BaselineError::TooFewSessions)
            } else {
                Ok(sessions)
            }
        }
    }
}

/// The record of the sessions: the current one, the last completed ones, and the
/// baseline that they are compared with.
#[derive(Debug)]
pub struct MetricsStore {
    current: Option<SessionMetrics>,
    completed: Vec<SessionMetrics>,
    baseline: Option<MetricValue>,
}

/// The states of several sessions.
pub open spec fn session_models(sessions: Seq<SessionMetrics>) -> Seq<SessionModel> {
    sessions.map_values(|session: SessionMetrics| session@)
}

impl View for MetricsStore {
    type V = RecordModel;

    closed spec fn view(&self) -> RecordModel {
        RecordModel {
            current: match self.current {
                Some(session) => Some(session@),
                None => None,
            },
            completed: session_models(self.completed@),
            baseline: optional_metric(self.baseline),
        }
    }
}

/// The states of several borrowed sessions.
pub open spec fn borrowed_models(sessions: Seq<&SessionMetrics>) -> Seq<SessionModel> {
    sessions.map_values(|session: &SessionMetrics| session@)
}

/// Sessions that can be compared come from those that are there.
proof fn lemma_newest_compatible(sessions: Seq<SessionModel>, latest: SessionModel, limit: nat)
    requires
        forall|i: int| 0 <= i < sessions.len() ==> (#[trigger] sessions[i]).sums_fit(),
    ensures
        forall|i: int|
            0 <= i < newest_compatible(sessions, latest, limit).len() ==> (
            #[trigger] newest_compatible(sessions, latest, limit)[i]).sums_fit(),
        newest_compatible(sessions, latest, limit).len() <= limit,
    decreases sessions.len(),
{
    if sessions.len() > 0 && limit > 0 {
        let front = sessions.drop_last();
        assert forall|i: int| 0 <= i < front.len() implies (#[trigger] front[i]).sums_fit() by {
            assert(front[i] == sessions[i]);
        }
        assert(sessions[sessions.len() - 1].sums_fit());
        if sessions.last().descriptor.compatible(latest.descriptor) {
            lemma_newest_compatible(front, latest, (limit - 1) as nat);
            let rest = newest_compatible(front, latest, (limit - 1) as nat);
            let all = newest_compatible(sessions, latest, limit);
            assert forall|i: int| 0 <= i < all.len() implies (#[trigger] all[i]).sums_fit() by {
                if i > 0 {
                    assert(all[i] == rest[i - 1]);
                }
            }
        } else {
            lemma_newest_compatible(front, latest, limit);
        }
    }
}

/// The numbers of several completed sessions.
fn snapshots_of(sessions: &Vec<&SessionMetrics>, now: u128, unix_ms: u128) -> (snapshots: Vec<
    SessionMetricsSnapshot,
>)
    requires
        forall|i: int|
            0 <= i < borrowed_models(sessions@).len() ==> (#[trigger] borrowed_models(
                sessions@,
            )[i]).sums_fit(),
    ensures
        metrics_models(snapshots@) == borrowed_models(sessions@).map_values(
            |session: SessionModel| session.snapshot(false, now, unix_ms),
        ),
{
    let mut snapshots: Vec<SessionMetricsSnapshot> = Vec::new();
    let mut i: usize = 0;
    while i < sessions.len()
        invariant
            i <= sessions.len(),
            forall|k: int|
                0 <= k < borrowed_models(sessions@).len() ==> (#[trigger] borrowed_models(
                    sessions@,
                )[k]).sums_fit(),
            snapshots@.len() == i,
            forall|k: int|
                0 <= k < i ==> (#[trigger] snapshots@[k])@ == sessions@[k]@.snapshot(
                    false,
                    now,
                    unix_ms,
                ),
        decreases sessions.len() - i,
    {
        proof {
            assert(borrowed_models(sessions@)[i as int] == sessions@[i as int]@);
        }
        snapshots.push(sessions[i].snapshot(false, now, unix_ms));
        i = i + 1;
    }
    proof {
        assert(metrics_models(snapshots@) =~= borrowed_models(sessions@).map_values(
            |session: SessionModel| session.snapshot(false, now, unix_ms),
        ));
    }
    snapshots
}

impl MetricsStore {
    /// A record without sessions, with the baseline that was saved before.
    pub fn new(baseline: Option<MetricValue>) -> (store: Self)
        ensures
            store@ == RecordModel::initial(optional_metric(baseline)),
    {
        let store = MetricsStore { current: None, completed: Vec::new(), baseline };
        proof {
            assert(store@.completed =~= Seq::empty());
        }
        store
    }

    /// Begins a session.
    pub fn begin(&mut self, descriptor: SessionMetricDescriptor, now: u128)
        ensures
            final(self)@ == (RecordModel {
                current: Some(SessionModel::initial(descriptor@, now)),
                ..old(self)@
            }),
    {
        self.current = Some(SessionMetrics::new(descriptor, now));
    }

    /// Counts the recogniser's readiness.
    pub fn record_asr_ready(&mut self, now: u128)
        ensures
            final(self)@ == old(self)@.with_current(
                |session: SessionModel| session.after_ready(now),
            ),
    {
        if let Some(current) = &mut self.current {
            current.record_asr_ready(now);
        }
    }

    /// Counts a text of the recogniser.
    pub fn record_asr_snapshot(&mut self, snapshot: &SegmentSnapshot, is_partial: bool, now: u128)
        ensures
            final(self)@ == old(self)@.with_current(|session: SessionModel| session.after_text(
                    snapshot.segment_id,
                    snapshot.source_text@,
                    is_partial,
                    now,
                )),
    {
        if let Some(current) = &mut self.current {
            current.record_asr_snapshot(snapshot, is_partial, now);
        }
    }

    /// Counts a segment that was closed.
    pub fn record_segment_final(&mut self,
        snapshot: &SegmentSnapshot,
        reason: SegmentFinalizationReason,
        now: u128,
    )
        ensures
            final(self)@ == old(self)@.with_current(|session: SessionModel| session.after_segment(
                    snapshot.segment_id,
                    snapshot.source_text@,
                    reason,
                    now,
                )),
    {
        if let Some(current) = &mut self.current {
            current.record_segment_final(snapshot, reason, now);
        }
    }

    /// Counts a translation.
    pub fn record_translation(&mut self, latency_ms: u128)
        ensures
            final(self)@ == old(self)@.with_current(
                |session: SessionModel| session.after_translation(latency_ms),
            ),
    {
        if let Some(current) = &mut self.current {
            current.record_translation(latency_ms);
        }
    }

    /// Counts a translation that failed.
    pub fn record_translation_failure(&mut self)
        ensures
            final(self)@ == old(self)@.with_current(
                |session: SessionModel| session.after_translation_failure(),
            ),
    {
        if let Some(current) = &mut self.current {
            current.record_translation_failure();
        }
    }

    /// Counts a draft that is ready.
    pub fn record_draft_ready(&mut self, latency_ms: u128, final_snapshot: bool)
        ensures
            final(self)@ == old(self)@.with_current(
                |session: SessionModel| session.after_draft(latency_ms, final_snapshot),
            ),
    {
        if let Some(current) = &mut self.current {
            current.record_draft_ready(latency_ms, final_snapshot);
        }
    }

    /// Counts a refinement.
    pub fn record_llm(&mut self, call: &LlmCall)
        ensures
            final(self)@ == old(self)@.with_current(
                |session: SessionModel| session.after_llm(call@),
            ),
    {
        if let Some(current) = &mut self.current {
            current.record_llm(call);
        }
    }

    /// Counts a refinement that failed.
    pub fn record_llm_failure(&mut self)
        ensures
            final(self)@ == old(self)@.with_current(
                |session: SessionModel| session.after_llm_failure(),
            ),
    {
        if let Some(current) = &mut self.current {
            current.record_llm_failure();
        }
    }

    /// Counts a final caption that is ready.
    pub fn record_final_ready(&mut self, latency_ms: u128)
        ensures
            final(self)@ == old(self)@.with_current(
                |session: SessionModel| session.after_final_caption(latency_ms),
            ),
    {
        if let Some(current) = &mut self.current {
            current.record_final_ready(latency_ms);
        }
    }

    /// Counts a user's correction.
    pub fn record_user_correction(&mut self, correction: &CorrectionRequest)
        ensures
            final(self)@ == old(self)@.after_correction(correction@),
    {
        let ghost before = self.completed@;
        match &mut self.current {
            Some(current) => {
                current.record_user_correction(correction);
            },
            None => {
                if self.completed.len() > 0 {
                    let last: usize = self.completed.len() - 1;
                    self.completed[last].record_user_correction(correction);
                    proof {
                        assert(self@.completed =~= old(self)@.after_correction(
                            correction@,
                        ).completed);
                    }
                }
            },
        }
    }

    /// Completes the current session.
    pub fn finish(&mut self)
        ensures
            final(self)@ == old(self)@.finished(),
    {
        let current = self.current.take();
        if let Some(session) = current {
            let ghost all = session_models(self.completed@).push(session@);
            self.completed.push(session);
            proof {
                assert(session_models(self.completed@) =~= all);
                assert(all.skip(0) =~= all);
            }
            let ghost mut dropped: int = 0;
            while self.completed.len() > MAX_COMPLETED
                invariant
                    self.current is None,
                    self.baseline == old(self).baseline,
                    0 <= dropped,
                    all.len() == self.completed.len() + dropped,
                    session_models(self.completed@) == all.skip(dropped),
                    dropped > 0 ==> self.completed.len() >= MAX_COMPLETED,
                decreases self.completed.len(),
            {
                let ghost before = self.completed@;
                let _oldest = self.completed.remove(0);
                proof {
                    assert(session_models(self.completed@) =~= session_models(before).skip(1));
                    assert(all.skip(dropped).skip(1) =~= all.skip(dropped + 1));
                    dropped = dropped + 1;
                }
            }
        }
    }

    /// Whether the sums of all measured numbers are small enough to be worked out.
    pub fn can_summarize(&self) -> (can: bool)
        ensures
            can == self@.sums_fit(),
    {
        if let Some(session) = &self.current {
            if !session.can_summarize() {
                return false;
            }
        }
        let mut i: usize = 0;
        while i < self.completed.len()
            invariant
                i <= self.completed.len(),
                forall|k: int| 0 <= k < i ==> (#[trigger] self@.completed[k]).sums_fit(),
            decreases self.completed.len() - i,
        {
            proof {
                assert(self@.completed[i as int] == self.completed@[i as int]@);
            }
            if !self.completed[i].can_summarize() {
                return false;
            }
            i = i + 1;
        }
        true
    }

    /// The numbers of the sessions.
    pub fn response(&self, now: u128, unix_ms: u128) -> (response: MetricsResponse)
        requires
            self@.sums_fit(),
        ensures
            response@ == self@.response(now, unix_ms),
    {
        let current = match &self.current {
            Some(session) => Some(session.snapshot(true, now, unix_ms)),
            None => None,
        };
        let mut recent_completed: Vec<SessionMetricsSnapshot> = Vec::new();
        let mut i: usize = 0;
        while i < self.completed.len()
            invariant
                i <= self.completed.len(),
                self@.sums_fit(),
                recent_completed@.len() == i,
                forall|k: int|
                    0 <= k < i ==> (#[trigger] recent_completed@[k])@
                        == self.completed@[k]@.snapshot(false, now, unix_ms),
            decreases self.completed.len() - i,
        {
            proof {
                assert(self@.completed[i as int] == self.completed@[i as int]@);
            }
            recent_completed.push(self.completed[i].snapshot(false, now, unix_ms));
            i = i + 1;
        }
        let last_completed = if self.completed.len() > 0 {
            proof {
                assert(self@.completed[self.completed@.len() - 1] == self.completed@[
                    self.completed@.len() - 1
                ]@);
            }
            Some(self.completed[self.completed.len() - 1].snapshot(false, now, unix_ms))
        } else {
            None
        };
        let baseline = match &self.baseline {
            Some(value) => Some(value.copy()),
            None => None,
        };
        let response = MetricsResponse { current, last_completed, recent_completed, baseline };
        proof {
            assert(response@.recent_completed =~= self@.response(now, unix_ms).recent_completed);
        }
        response
    }

    /// The numbers of the sessions that make a baseline, the newest first, or why there
    /// is none.
    pub fn baseline_candidates(&self, now: u128, unix_ms: u128) -> (outcome: Result<
        Vec<SessionMetricsSnapshot>,
        BaselineError,
    >)
        requires
            self@.sums_fit(),
        ensures
            match outcome {
                Ok(snapshots) => self@.baseline_sessions() matches Ok(sessions) && metrics_models(
                    snapshots@,
                ) == sessions.map_values(
                    |session: SessionModel| session.snapshot(false, now, unix_ms),
                ),
                Err(error) => self@.baseline_sessions() matches Err(expected) && error == expected,
            },
    {
        if self.current.is_some() {
            return Err(BaselineError::SessionRunning);
        }
        if self.completed.len() == 0 {
            return Err(BaselineError::NoSession);
        }
        let newest = &self.completed[self.completed.len() - 1];
        let sessions = self.newest_compatible_with(newest);
        proof {
            assert(newest@ == self@.completed.last());
            lemma_newest_compatible(self@.completed, newest@, BASELINE_SESSIONS as nat);
        }
        if sessions.len() < BASELINE_SESSIONS {
            return Err(BaselineError::TooFewSessions);
        }
        Ok(snapshots_of(&sessions, now, unix_ms))
    }

    /// The newest completed sessions that can be compared with a session, the newest
    /// first, as many as make a baseline.
    fn newest_compatible_with(&self, latest: &SessionMetrics) -> (found: Vec<&SessionMetrics>)
        ensures
            borrowed_models(found@) == newest_compatible(
                self@.completed,
                latest@,
                BASELINE_SESSIONS as nat,
            ),
    {
        let ghost sessions = self@.completed;
        let mut found: Vec<&SessionMetrics> = Vec::new();
        let mut i: usize = self.completed.len();
        proof {
            assert(sessions.take(i as int) =~= sessions);
            assert(borrowed_models(found@) + newest_compatible(
                sessions,
                latest@,
                BASELINE_SESSIONS as nat,
            ) =~= newest_compatible(sessions, latest@, BASELINE_SESSIONS as nat));
        }
        while i > 0 && found.len() < BASELINE_SESSIONS
            invariant
                i <= self.completed.len(),
                sessions == self@.completed,
                found.len() <= BASELINE_SESSIONS,
                borrowed_models(found@) + newest_compatible(
                    sessions.take(i as int),
                    latest@,
                    (BASELINE_SESSIONS - found.len()) as nat,
                ) == newest_compatible(sessions, latest@, BASELINE_SESSIONS as nat),
            decreases i,
        {
            let session = &self.completed[i - 1];
            let ghost limit = (BASELINE_SESSIONS - found.len()) as nat;
            proof {
                assert(sessions.take(i as int).last() == session@);
                assert(sessions.take(i as int).drop_last() =~= sessions.take(i - 1));
            }
            if session.is_compatible_with(latest) {
                proof {
                    let rest = newest_compatible(sessions.take(i - 1), latest@, (limit - 1) as nat);
                    assert(borrowed_models(found@.push(session)) + rest =~= borrowed_models(found@)
                        + (seq![session@] + rest));
                }
                found.push(session);
            }
            i = i - 1;
        }
        proof {
            let rest = newest_compatible(
                sessions.take(i as int),
                latest@,
                (BASELINE_SESSIONS - found.len()) as nat,
            );
            assert(borrowed_models(found@) + rest =~= borrowed_models(found@));
        }
        found
    }

    /// Takes a value as the baseline.
    pub(crate) fn set_baseline(&mut self, baseline: MetricValue)
        ensures
            final(self)@ == (RecordModel { baseline: Some(baseline.model()), ..old(self)@ }),
    {
        self.baseline = Some(baseline);
    }
}

// ---------------------------------------------------------------------------------
// Laws
// ---------------------------------------------------------------------------------

/// Text that only grows at its end is no revision.
pub proof fn law_appended_text_is_no_revision(
    session: SessionModel,
    segment_id: u64,
    more: Seq<char>,
    is_partial: bool,
    now: u128,
)
    ensures
        ({
            let text = session.prior_text(segment_id) + more;
            let next = session.after_text(segment_id, text, is_partial, now);
            next.asr_revision_events == session.asr_revision_events && next.asr_revised_characters
                == session.asr_revised_characters
        }),
{
    law_appending_revises_nothing(session.prior_text(segment_id), more);
}

/// Text that takes back any of what was shown before is a revision.
pub proof fn law_changed_text_is_a_revision(
    session: SessionModel,
    segment_id: u64,
    text: Seq<char>,
    is_partial: bool,
    now: u128,
)
    requires
        !session.prior_text(segment_id).is_prefix_of(text),
        session.asr_revision_events < usize::MAX,
    ensures
        session.after_text(segment_id, text, is_partial, now).asr_revision_events
            == session.asr_revision_events + 1,
{
    let prior = session.prior_text(segment_id);
    lemma_common_prefix(prior, text);
    if common_prefix_len(prior, text) == prior.len() {
        assert(prior.take(prior.len() as int) =~= prior);
        assert(text.take(prior.len() as int) =~= text.subrange(0, prior.len() as int));
    }
}

/// No more characters are taken back than were shown: the rate of revision stays at or
/// below the whole.
pub proof fn law_revision_rate_is_a_share(
    session: SessionModel,
    segment_id: u64,
    text: Seq<char>,
    is_partial: bool,
    now: u128,
)
    requires
        session.asr_revised_characters <= session.asr_prior_characters,
    ensures
        ({
            let next = session.after_text(segment_id, text, is_partial, now);
            next.asr_revised_characters <= next.asr_prior_characters
        }),
{
    lemma_common_prefix(session.prior_text(segment_id), text);
}

/// Every closed segment counts under one reason.
pub proof fn law_each_segment_has_one_reason(
    session: SessionModel,
    segment_id: u64,
    text: Seq<char>,
    reason: SegmentFinalizationReason,
    now: u128,
)
    requires
        session.segment_characters.len() == session.idle_or_boundary_segments
            + session.asr_final_segments + session.stop_segments,
        session.segment_characters.len() < usize::MAX,
    ensures
        ({
            let next = session.after_segment(segment_id, text, reason, now);
            next.segment_characters.len() == next.idle_or_boundary_segments
                + next.asr_final_segments + next.stop_segments
        }),
{
}

/// What happens outside a session is not counted, and no more sessions are kept than
/// there is room for.
pub proof fn law_record_is_bounded(
    record: RecordModel,
    change: spec_fn(SessionModel) -> SessionModel,
)
    ensures
        record.current is None ==> record.with_current(change) == record,
        record.current is None ==> record.finished() == record,
        record.completed.len() <= MAX_COMPLETED ==> record.finished().completed.len()
            <= MAX_COMPLETED,
        record.current matches Some(session) ==> record.finished().completed.len() > 0
            && record.finished().completed.last() == session,
{
}

/// A baseline is made of exactly as many sessions as it takes, the one that was
/// completed last first, and all of them can be compared with it.
pub proof fn law_baseline_sessions_are_comparable(record: RecordModel)
    ensures
        record.baseline_sessions() matches Ok(sessions) ==> {
            &&& sessions.len() == BASELINE_SESSIONS
            &&& sessions[0] == record.completed.last()
            &&& forall|i: int|
                0 <= i < sessions.len() ==> (#[trigger] sessions[i]).descriptor.compatible(
                    record.completed.last().descriptor,
                )
        },
{
    if record.completed.len() > 0 {
        lemma_all_compatible(
            record.completed,
            record.completed.last(),
            BASELINE_SESSIONS as nat,
        );
    }
}

proof fn lemma_all_compatible(sessions: Seq<SessionModel>, latest: SessionModel, limit: nat)
    ensures
        newest_compatible(sessions, latest, limit).len() <= limit,
        forall|i: int|
            0 <= i < newest_compatible(sessions, latest, limit).len() ==> (
            #[trigger] newest_compatible(sessions, latest, limit)[i]).descriptor.compatible(
                latest.descriptor,
            ),
    decreases sessions.len(),
{
    if sessions.len() > 0 && limit > 0 {
        let front = sessions.drop_last();
        if sessions.last().descriptor.compatible(latest.descriptor) {
            lemma_all_compatible(front, latest, (limit - 1) as nat);
            let rest = newest_compatible(front, latest, (limit - 1) as nat);
            let all = newest_compatible(sessions, latest, limit);
            assert forall|i: int| 0 <= i < all.len() implies (
            #[trigger] all[i]).descriptor.compatible(latest.descriptor) by {
                if i > 0 {
                    assert(all[i] == rest[i - 1]);
                }
            }
        } else {
            lemma_all_compatible(front, latest, limit);
        }
    }
}

/// The whole milliseconds from one point in time to another, if it is later.
pub open spec fn waited(since: u128, now: u128) -> int {
    if now >= since {
        (now - since) / 1_000_000
    } else {
        0
    }
}

/// A count that has grown by one, if there is a larger number.
pub open spec fn is_one_more(after: usize, before: usize) -> bool {
    after == before + 1 || (before == usize::MAX && after == before)
}

/// The first readiness of the recogniser and its first text count, with the time since the
/// start; later ones change nothing of that.
pub proof fn law_first_times_stay(
    session: SessionModel,
    segment_id: u64,
    text: Seq<char>,
    is_partial: bool,
    now: u128,
)
    ensures
        ({
            let ready = session.after_ready(now);
            let heard = session.after_text(segment_id, text, is_partial, now);
            &&& session.asr_startup_ms is None ==> (ready.asr_startup_ms matches Some(time) && time
                == waited(session.started_at, now))
            &&& session.asr_startup_ms is Some ==> ready == session
            &&& session.first_asr_text_ms is None ==> (heard.first_asr_text_ms matches Some(time)
                && time == waited(session.started_at, now))
            &&& session.first_asr_text_ms is Some ==> heard.first_asr_text_ms
                == session.first_asr_text_ms
            &&& heard.asr_startup_ms == session.asr_startup_ms
            &&& ready == (SessionModel { asr_startup_ms: ready.asr_startup_ms, ..session })
        }),
{
}

/// Every running text counts, with the time since the one before it, and no other text
/// does.
pub proof fn law_running_texts_are_counted(
    session: SessionModel,
    segment_id: u64,
    text: Seq<char>,
    now: u128,
)
    ensures
        ({
            let running = session.after_text(segment_id, text, true, now);
            let last = session.after_text(segment_id, text, false, now);
            &&& is_one_more(running.asr_partial_updates, session.asr_partial_updates)
            &&& running.last_partial_at == Some(now)
            &&& session.last_partial_at is None ==> running.asr_partial_intervals
                == session.asr_partial_intervals
            &&& session.last_partial_at matches Some(before)
                ==> running.asr_partial_intervals.drop_last() == session.asr_partial_intervals
                && running.asr_partial_intervals.len() > 0 && running.asr_partial_intervals.last()
                == waited(before, now)
            &&& last.asr_partial_updates == session.asr_partial_updates
            &&& last.last_partial_at == session.last_partial_at
            &&& last.asr_partial_intervals == session.asr_partial_intervals
            &&& running.last_asr_at == Some(now) && last.last_asr_at == Some(now)
        }),
{
    let running = session.after_text(segment_id, text, true, now);
    if let Some(before) = session.last_partial_at {
        assert(running.asr_partial_intervals.drop_last() =~= session.asr_partial_intervals);
    }
}

/// A text is measured against the one that its segment had before it: all characters of that
/// one count, and as revised those from the first on that the new text does not keep. What
/// the segment has then is the new text, and other segments keep theirs.
pub proof fn law_text_is_measured_against_the_one_before(
    session: SessionModel,
    segment_id: u64,
    kept: Seq<char>,
    gone: Seq<char>,
    new: Seq<char>,
    is_partial: bool,
    now: u128,
)
    requires
        session.prior_text(segment_id) == kept + gone,
        gone.len() > 0 && new.len() > 0 ==> gone[0] != new[0],
        session.asr_prior_characters + kept.len() + gone.len() <= usize::MAX,
        session.asr_revised_characters + gone.len() <= usize::MAX,
    ensures
        ({
            let next = session.after_text(segment_id, kept + new, is_partial, now);
            &&& next.asr_prior_characters == session.asr_prior_characters + kept.len() + gone.len()
            &&& next.asr_revised_characters == session.asr_revised_characters + gone.len()
            &&& gone.len() == 0 ==> next.asr_revision_events == session.asr_revision_events
            &&& gone.len() > 0 ==> is_one_more(
                next.asr_revision_events,
                session.asr_revision_events,
            )
            &&& next.prior_text(segment_id) == kept + new
            &&& forall|other: u64|
                other != segment_id ==> #[trigger] next.prior_text(other) == session.prior_text(
                    other,
                )
        }),
{
    let prior = kept + gone;
    let text = kept + new;
    lemma_common_prefix(prior, text);
    let n = common_prefix_len(prior, text) as int;
    if n < kept.len() {
        assert(prior[n] == kept[n] && text[n] == kept[n]);
    }
    if n > kept.len() {
        assert(prior[kept.len() as int] == gone[0]);
        assert(text[kept.len() as int] == new[0]);
        assert(prior.take(n)[kept.len() as int] == text.take(n)[kept.len() as int]);
    }
}

/// A closed segment counts with its letters and numbers, with the time since its first
/// text, with the time since the last text, and as short if it says little. After that its
/// number is free for another.
pub proof fn law_closed_segment_is_measured(
    session: SessionModel,
    segment_id: u64,
    text: Seq<char>,
    reason: SegmentFinalizationReason,
    now: u128,
)
    requires
        text.len() <= u128::MAX,
    ensures
        ({
            let next = session.after_segment(segment_id, text, reason, now);
            &&& next.segment_characters.len() == session.segment_characters.len() + 1
            &&& next.segment_characters.drop_last() == session.segment_characters
            &&& next.segment_characters.last() == meaningful_characters(text)
            &&& words(text).len() >= 6 || foreign_characters(text) >= 10 ==> next.short_segments
                == session.short_segments
            &&& words(text).len() < 6 && foreign_characters(text) < 10 ==> is_one_more(
                next.short_segments,
                session.short_segments,
            )
            &&& if session.segment_started_at.contains_key(segment_id) {
                &&& next.segment_duration_ms.len() == session.segment_duration_ms.len() + 1
                &&& next.segment_duration_ms.drop_last() == session.segment_duration_ms
                &&& next.segment_duration_ms.last() == waited(
                    session.segment_started_at[segment_id],
                    now,
                )
            } else {
                next.segment_duration_ms == session.segment_duration_ms
            }
            &&& match session.last_asr_at {
                Some(last) => {
                    &&& next.finalization_silence_ms.len() == session.finalization_silence_ms.len()
                        + 1
                    &&& next.finalization_silence_ms.drop_last() == session.finalization_silence_ms
                    &&& next.finalization_silence_ms.last() == waited(last, now)
                },
                None => next.finalization_silence_ms == session.finalization_silence_ms,
            }
            &&& !next.segment_started_at.contains_key(segment_id)
            &&& next.prior_text(segment_id).len() == 0
            &&& match reason {
                SegmentFinalizationReason::IdleOrBoundary => is_one_more(
                    next.idle_or_boundary_segments,
                    session.idle_or_boundary_segments,
                ) && next.asr_final_segments == session.asr_final_segments && next.stop_segments
                    == session.stop_segments,
                SegmentFinalizationReason::AsrFinal => is_one_more(
                    next.asr_final_segments,
                    session.asr_final_segments,
                ) && next.idle_or_boundary_segments == session.idle_or_boundary_segments
                    && next.stop_segments == session.stop_segments,
                SegmentFinalizationReason::SessionStop => is_one_more(
                    next.stop_segments,
                    session.stop_segments,
                ) && next.idle_or_boundary_segments == session.idle_or_boundary_segments
                    && next.asr_final_segments == session.asr_final_segments,
            }
        }),
{
    let next = session.after_segment(segment_id, text, reason, now);
    lemma_meaning_is_bounded(text);
    assert(next.segment_characters.drop_last() =~= session.segment_characters);
    if session.segment_started_at.contains_key(segment_id) {
        assert(next.segment_duration_ms.drop_last() =~= session.segment_duration_ms);
    }
    if session.last_asr_at is Some {
        assert(next.finalization_silence_ms.drop_last() =~= session.finalization_silence_ms);
    }
}

/// No text has more letters and numbers than characters.
proof fn lemma_meaning_is_bounded(text: Seq<char>)
    ensures
        meaningful_characters(text) <= text.len(),
    decreases text.len(),
{
    if text.len() > 0 {
        lemma_meaning_is_bounded(text.drop_last());
    }
}

/// A segment starts with its first text and keeps that start with every further one.
pub proof fn law_segment_starts_with_its_first_text(
    session: SessionModel,
    segment_id: u64,
    text: Seq<char>,
    is_partial: bool,
    now: u128,
)
    ensures
        ({
            let next = session.after_text(segment_id, text, is_partial, now);
            &&& next.segment_started_at.contains_key(segment_id)
            &&& next.segment_started_at[segment_id] == (
            if session.segment_started_at.contains_key(segment_id) {
                session.segment_started_at[segment_id]
            } else {
                now
            })
            &&& forall|other: u64|
                other != segment_id ==> #[trigger] next.segment_started_at.contains_key(other)
                    == session.segment_started_at.contains_key(other)
                    && next.segment_started_at[other] == session.segment_started_at[other]
        }),
{
}

/// Every refinement counts with its time, with what the model was sent, and with how far it
/// changed the source and the translation, against what these were.
pub proof fn law_refinement_is_measured(session: SessionModel, call: LlmCallModel)
    ensures
        ({
            let next = session.after_llm(call);
            &&& next.llm_latency_ms == session.llm_latency_ms + seq![call.latency_ms]
            &&& next.llm_input_characters == session.llm_input_characters + seq![
                call.input_chars as u128,
            ]
            &&& next.llm_reference_characters == session.llm_reference_characters + seq![
                call.reference_chars as u128,
            ]
            &&& has_grown(
                next.llm_source_edits,
                session.llm_source_edits,
                distance(call.original_source, call.corrected_source),
            )
            &&& has_grown(
                next.llm_source_characters,
                session.llm_source_characters,
                length_or_one(call.original_source),
            )
            &&& has_grown(
                next.llm_translation_edits,
                session.llm_translation_edits,
                distance(call.draft_translation, call.final_translation),
            )
            &&& has_grown(
                next.llm_translation_characters,
                session.llm_translation_characters,
                length_or_one(call.draft_translation),
            )
            &&& next.llm_failures == session.llm_failures
        }),
{
    let next = session.after_llm(call);
    assert(next.llm_latency_ms =~= session.llm_latency_ms + seq![call.latency_ms]);
    assert(next.llm_input_characters =~= session.llm_input_characters + seq![
        call.input_chars as u128,
    ]);
    assert(next.llm_reference_characters =~= session.llm_reference_characters + seq![
        call.reference_chars as u128,
    ]);
}

/// A total that has grown by a number, as far as there is a larger one.
pub open spec fn has_grown(after: usize, before: usize, more: nat) -> bool {
    after == before + more || (before + more > usize::MAX && after == usize::MAX)
}

/// The length of a text, or one for a text without a character.
pub open spec fn length_or_one(text: Seq<char>) -> nat {
    if text.len() > 0 {
        text.len()
    } else {
        1
    }
}

/// Translations, drafts, final captions and failures count one by one, each under its own
/// name and nowhere else.
pub proof fn law_each_outcome_is_counted(session: SessionModel, time: u128)
    ensures
        session.after_translation(time) == (SessionModel {
            translation_model_latency_ms: session.translation_model_latency_ms + seq![time],
            ..session
        }),
        session.after_draft(time, false) == (SessionModel {
            draft_ready_ms: session.draft_ready_ms + seq![time],
            ..session
        }),
        session.after_draft(time, true) == (SessionModel {
            draft_ready_ms: session.draft_ready_ms + seq![time],
            final_draft_ready_ms: session.final_draft_ready_ms + seq![time],
            ..session
        }),
        session.after_final_caption(time) == (SessionModel {
            final_ready_ms: session.final_ready_ms + seq![time],
            ..session
        }),
        is_one_more(
            session.after_translation_failure().translation_failures,
            session.translation_failures,
        ),
        is_one_more(session.after_llm_failure().llm_failures, session.llm_failures),
        session.after_translation_failure() == (SessionModel {
            translation_failures: session.after_translation_failure().translation_failures,
            ..session
        }),
        session.after_llm_failure() == (SessionModel {
            llm_failures: session.after_llm_failure().llm_failures,
            ..session
        }),
{
    assert(session.translation_model_latency_ms.push(time)
        =~= session.translation_model_latency_ms + seq![time]);
    assert(session.draft_ready_ms.push(time) =~= session.draft_ready_ms + seq![time]);
    assert(session.final_draft_ready_ms.push(time) =~= session.final_draft_ready_ms + seq![time]);
    assert(session.final_ready_ms.push(time) =~= session.final_ready_ms + seq![time]);
}

/// A correction counts once, with how far it changed the source and the translation, for
/// the session that runs, or else for the one that was completed last.
pub proof fn law_correction_is_measured(record: RecordModel, correction: CorrectionModel)
    ensures
        ({
            let after = record.after_correction(correction);
            &&& match record.current {
                Some(session) => after.completed == record.completed && (
                after.current matches Some(next) && is_corrected(next, session, correction)),
                None => after.current is None && after.completed.len() == record.completed.len()
                    && (record.completed.len() > 0 ==> after.completed.drop_last()
                    == record.completed.drop_last() && is_corrected(
                    after.completed.last(),
                    record.completed.last(),
                    correction,
                )),
            }
            &&& after.baseline == record.baseline
        }),
{
    if record.current is None && record.completed.len() > 0 {
        let after = record.after_correction(correction);
        assert(after.completed.drop_last() =~= record.completed.drop_last());
    }
}

/// Whether a session is another one with a correction counted.
pub open spec fn is_corrected(
    next: SessionModel,
    session: SessionModel,
    correction: CorrectionModel,
) -> bool {
    &&& is_one_more(next.user_corrections, session.user_corrections)
    &&& has_grown(
        next.user_source_edits,
        session.user_source_edits,
        distance(correction.original_source, correction.corrected_source),
    )
    &&& has_grown(
        next.user_source_characters,
        session.user_source_characters,
        length_or_one(correction.original_source),
    )
    &&& has_grown(
        next.user_translation_edits,
        session.user_translation_edits,
        distance(correction.original_translation, correction.corrected_translation),
    )
    &&& has_grown(
        next.user_translation_characters,
        session.user_translation_characters,
        length_or_one(correction.original_translation),
    )
    &&& next == (SessionModel {
        user_corrections: next.user_corrections,
        user_source_edits: next.user_source_edits,
        user_source_characters: next.user_source_characters,
        user_translation_edits: next.user_translation_edits,
        user_translation_characters: next.user_translation_characters,
        ..session
    })
}

/// A completed session comes behind the ones before it, and the last ten are kept.
pub proof fn law_last_ten_sessions_are_kept(record: RecordModel, session: SessionModel)
    requires
        record.current == Some(session),
        record.completed.len() <= 10,
    ensures
        record.finished().current is None,
        record.finished().baseline == record.baseline,
        record.completed.len() < 10 ==> record.finished().completed == record.completed + seq![
            session,
        ],
        record.completed.len() == 10 ==> record.finished().completed == record.completed.skip(1)
            + seq![session],
{
    if record.completed.len() < 10 {
        assert(record.completed.push(session) =~= record.completed + seq![session]);
    } else {
        assert(record.completed.push(session).skip(1) =~= record.completed.skip(1) + seq![session]);
    }
}

/// Whether two sessions had the same recogniser, source of sound, languages and length of
/// background.
pub open spec fn is_like(left: DescriptorModel, right: DescriptorModel) -> bool {
    &&& left.asr_engine == right.asr_engine
    &&& left.audio_source == right.audio_source
    &&& left.source_language == right.source_language
    &&& left.target_language == right.target_language
    &&& left.reference_context_chars == right.reference_context_chars
}

/// The newest sessions that can be compared are the last ones of those that are like the
/// latest, the newest first.
proof fn lemma_newest_are_the_last(sessions: Seq<SessionModel>, latest: SessionModel, limit: nat)
    ensures
        ({
            let like = sessions.filter(
                |session: SessionModel| is_like(session.descriptor, latest.descriptor),
            );
            let newest = newest_compatible(sessions, latest, limit);
            &&& newest.len() == (if like.len() <= limit {
                like.len()
            } else {
                limit
            })
            &&& forall|i: int|
                0 <= i < newest.len() ==> #[trigger] newest[i] == like[like.len() - 1 - i]
        }),
    decreases sessions.len(),
{
    reveal(Seq::filter);
    if sessions.len() > 0 && limit > 0 {
        let last = sessions.last();
        let front = sessions.drop_last();
        assert(last.descriptor.compatible(latest.descriptor) == is_like(
            last.descriptor,
            latest.descriptor,
        ));
        if is_like(last.descriptor, latest.descriptor) {
            lemma_newest_are_the_last(front, latest, (limit - 1) as nat);
        } else {
            lemma_newest_are_the_last(front, latest, limit);
        }
    }
}

/// A baseline is made of the last three sessions that are like the latest one, the newest
/// first, once no session runs and there are as many.
pub proof fn law_baseline_takes_the_last_three(record: RecordModel)
    ensures
        ({
            let like = record.completed.filter(
                |session: SessionModel|
                    is_like(session.descriptor, record.completed.last().descriptor),
            );
            match record.baseline_sessions() {
                Ok(sessions) => {
                    &&& record.current is None && record.completed.len() > 0
                    &&& like.len() >= 3 && sessions.len() == 3
                    &&& sessions[0] == like[like.len() - 1]
                    &&& sessions[1] == like[like.len() - 2]
                    &&& sessions[2] == like[like.len() - 3]
                },
                Err(error) => if record.current is Some {
                    error is SessionRunning
                } else if record.completed.len() == 0 {
                    error is NoSession
                } else {
                    error is TooFewSessions && like.len() < 3
                },
            }
        }),
{
    if record.completed.len() > 0 {
        lemma_newest_are_the_last(record.completed, record.completed.last(), 3);
    }
}

/// The numbers of the sessions are those of the one that runs, of each completed one in
/// their order, and of the last of them.
pub proof fn law_response_covers_all_sessions(record: RecordModel, now: u128, unix_ms: u128)
    ensures
        ({
            let response = record.response(now, unix_ms);
            &&& response.current is Some <==> record.current is Some
            &&& record.current matches Some(session) ==> response.current == Some(
                session.snapshot(true, now, unix_ms),
            )
            &&& response.recent_completed.len() == record.completed.len()
            &&& forall|i: int|
                0 <= i < record.completed.len() ==> #[trigger] response.recent_completed[i]
                    == record.completed[i].snapshot(false, now, unix_ms)
            &&& record.completed.len() == 0 ==> response.last_completed is None
            &&& record.completed.len() > 0 ==> response.last_completed == Some(
                response.recent_completed.last(),
            )
            &&& response.baseline == record.baseline
        }),
{
}

/// The numbers of a session say of everything that was measured what was measured: counts
/// as they stand, summaries of the times and sizes, and shares of what was revised.
pub proof fn law_snapshot_says_what_was_measured(
    session: SessionModel,
    running: bool,
    now: u128,
    unix_ms: u128,
)
    requires
        session.segment_characters.len() <= usize::MAX,
        session.translation_model_latency_ms.len() <= usize::MAX,
        session.llm_latency_ms.len() <= usize::MAX,
    ensures
        ({
            let shown = session.snapshot(running, now, unix_ms);
            &&& shown.session_id == session.descriptor.session_id && shown.running == running
            &&& shown.schema_version == 1 && shown.captured_at_unix_ms == unix_ms
            &&& shown.duration_ms == waited(session.started_at, now)
            &&& shown.asr_engine == session.descriptor.asr_engine.id_text()
            &&& shown.audio_source == session.descriptor.audio_source.argument_text()
            &&& shown.source_language == session.descriptor.source_language
            &&& shown.target_language == session.descriptor.target_language
            &&& shown.reference_context_chars == session.descriptor.reference_context_chars
            &&& shown.asr_startup_ms == session.asr_startup_ms
            &&& shown.first_asr_text_ms == session.first_asr_text_ms
            &&& shown.asr_partial_updates == session.asr_partial_updates
            &&& shown.asr_revision_events == session.asr_revision_events
            &&& shown.finalized_segments == session.segment_characters.len()
            &&& shown.short_segments == session.short_segments
            &&& shown.idle_or_boundary_segments == session.idle_or_boundary_segments
            &&& shown.asr_final_segments == session.asr_final_segments
            &&& shown.stop_segments == session.stop_segments
            &&& shown.translation_calls == session.translation_model_latency_ms.len()
            &&& shown.translation_failures == session.translation_failures
            &&& shown.llm_calls == session.llm_latency_ms.len()
            &&& shown.llm_failures == session.llm_failures
            &&& shown.user_corrections == session.user_corrections
        }),
        ({
            let shown = session.snapshot(running, now, unix_ms);
            &&& shown.asr_partial_interval_ms == summary_of(session.asr_partial_intervals)
            &&& shown.segment_characters == summary_of(session.segment_characters)
            &&& shown.segment_duration_ms == summary_of(session.segment_duration_ms)
            &&& shown.finalization_silence_ms == summary_of(session.finalization_silence_ms)
            &&& shown.translation_model_latency_ms == summary_of(
                session.translation_model_latency_ms,
            )
            &&& shown.draft_ready_ms == summary_of(session.draft_ready_ms)
            &&& shown.final_draft_ready_ms == summary_of(session.final_draft_ready_ms)
            &&& shown.llm_latency_ms == summary_of(session.llm_latency_ms)
            &&& shown.llm_input_characters == summary_of(session.llm_input_characters)
            &&& shown.llm_reference_characters == summary_of(session.llm_reference_characters)
            &&& shown.final_ready_ms == summary_of(session.final_ready_ms)
        }),
        ({
            let shown = session.snapshot(running, now, unix_ms);
            &&& is_part(
                shown.asr_revision_rate_percent,
                session.asr_revised_characters as int,
                session.asr_prior_characters as int,
            )
            &&& is_part(
                shown.short_segment_rate_percent,
                session.short_segments as int,
                session.segment_characters.len() as int,
            )
            &&& is_part(
                shown.llm_source_revision_rate_percent,
                session.llm_source_edits as int,
                session.llm_source_characters as int,
            )
            &&& is_part(
                shown.llm_translation_revision_rate_percent,
                session.llm_translation_edits as int,
                session.llm_translation_characters as int,
            )
            &&& is_part(
                shown.user_source_revision_rate_percent,
                session.user_source_edits as int,
                session.user_source_characters as int,
            )
            &&& is_part(
                shown.user_translation_revision_rate_percent,
                session.user_translation_edits as int,
                session.user_translation_characters as int,
            )
        }),
{
}

/// Whether a share is the one number of the other, or none where that is nothing.
pub open spec fn is_part(share: Option<Ratio>, part: int, whole: int) -> bool {
    match share {
        Some(ratio) => whole > 0 && ratio.numerator == part && ratio.denominator == whole,
        None => whole == 0,
    }
}

} // verus!
