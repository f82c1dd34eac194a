//! The values that the parts of the application exchange.
use crate::text::{clone_strings, same_text, texts, trim, trimmed};
use vstd::prelude::*;

verus! {

/// How settled a caption is.
#[derive(Debug, Clone, Copy, PartialEq, Eq, Structural)]
pub enum CaptionState {
    /// Recognised text that may still change.
    Partial,
    /// A quick translation.
    Draft,
    /// The text that stays.
    Final,
}

/// One revision of one segment of recognised speech.
#[derive(Debug, PartialEq, Eq)]
pub struct SegmentSnapshot {
    pub segment_id: u64,
    pub revision: u64,
    pub state: CaptionState,
    pub source_text: String,
}

/// The content of a segment snapshot.
pub struct SnapshotModel {
    pub segment_id: u64,
    pub revision: u64,
    pub state: CaptionState,
    pub source_text: Seq<char>,
}

impl View for SegmentSnapshot {
    type V = SnapshotModel;

    open spec fn view(&self) -> SnapshotModel {
        SnapshotModel {
            segment_id: self.segment_id,
            revision: self.revision,
            state: self.state,
            source_text: self.source_text@,
        }
    }
}

/// The content of an optional snapshot.
pub open spec fn optional_snapshot(snapshot: Option<SegmentSnapshot>) -> Option<SnapshotModel> {
    match snapshot {
        Some(s) => Some(s@),
        None => None,
    }
}

impl Clone for SegmentSnapshot {
    fn clone(&self) -> (copy: Self)
        ensures
            copy@ == self@,
    {
        SegmentSnapshot {
            segment_id: self.segment_id,
            revision: self.revision,
            state: self.state,
            source_text: self.source_text.clone(),
        }
    }
}

/// What the server tells its clients.
#[derive(Debug)]
pub enum ServerEvent {
    SessionStatus { running: bool, message: String },
    Caption {
        segment_id: u64,
        revision: u64,
        state: CaptionState,
        source_text: String,
        translation_text: String,
        source_language: String,
        target_language: String,
        llm_applied: bool,
        latency_ms: u128,
    },
    Error { code: String, message: String },
    DictionaryChanged,
}

/// The content of a server event.
pub enum EventModel {
    SessionStatus { running: bool, message: Seq<char> },
    Caption {
        segment_id: u64,
        revision: u64,
        state: CaptionState,
        source_text: Seq<char>,
        translation_text: Seq<char>,
        source_language: Seq<char>,
        target_language: Seq<char>,
        llm_applied: bool,
        latency_ms: u128,
    },
    Error { code: Seq<char>, message: Seq<char> },
    DictionaryChanged,
}

impl View for ServerEvent {
    type V = EventModel;

    open spec fn view(&self) -> EventModel {
        match self {
            ServerEvent::SessionStatus { running, message } => EventModel::SessionStatus {
                running: *running,
                message: message@,
            },
            ServerEvent::Caption {
                segment_id,
                revision,
                state,
                source_text,
                translation_text,
                source_language,
                target_language,
                llm_applied,
                latency_ms,
            } => EventModel::Caption {
                segment_id: *segment_id,
                revision: *revision,
                state: *state,
                source_text: source_text@,
                translation_text: translation_text@,
                source_language: source_language@,
                target_language: target_language@,
                llm_applied: *llm_applied,
                latency_ms: *latency_ms,
            },
            ServerEvent::Error { code, message } => EventModel::Error {
                code: code@,
                message: message@,
            },
            ServerEvent::DictionaryChanged => EventModel::DictionaryChanged,
        }
    }
}

/// Where the speech comes from.
#[derive(Debug, Clone, Copy, PartialEq, Eq, Hash, Structural)]
pub enum AudioSource {
    Microphone,
    SystemAudio,
}

/// The speech recognisers that a session can use.
#[derive(Debug, Clone, Copy, PartialEq, Eq, Hash, Structural)]
pub enum AsrEngine {
    AppleSpeech,
    SherpaOnnx,
}

impl Default for AudioSource {
    /// A request that names no audio source means the microphone.
    fn default() -> (source: Self)
        ensures
            source == AudioSource::Microphone,
    {
        AudioSource::Microphone
    }
}

impl Default for AsrEngine {
    /// A request that names no recogniser means Apple Speech.
    fn default() -> (engine: Self)
        ensures
            engine == AsrEngine::AppleSpeech,
    {
        AsrEngine::AppleSpeech
    }
}

impl AsrEngine {
    /// The identifier of the engine.
    pub open spec fn id_text(self) -> Seq<char> {
        match self {
            AsrEngine::AppleSpeech => "apple_speech"@,
            AsrEngine::SherpaOnnx => "sherpa_onnx"@,
        }
    }

    /// The name of the engine as people read it.
    pub open spec fn description_text(self) -> Seq<char> {
        match self {
            AsrEngine::AppleSpeech => "Apple Speech"@,
            AsrEngine::SherpaOnnx => "Sherpa-ONNX"@,
        }
    }

    /// The identifier of the engine.
    pub fn id(self) -> (id: &'static str)
        ensures
            id@ == self.id_text(),
    {
        match self {
            AsrEngine::AppleSpeech => "apple_speech",
            AsrEngine::SherpaOnnx => "sherpa_onnx",
        }
    }

    /// The name of the engine as people read it.
    pub fn description(self) -> (description: &'static str)
        ensures
            description@ == self.description_text(),
    {
        match self {
            AsrEngine::AppleSpeech => "Apple Speech",
            AsrEngine::SherpaOnnx => "Sherpa-ONNX",
        }
    }
}

impl AudioSource {
    /// The word for the source on the command line of a bridge.
    pub open spec fn argument_text(self) -> Seq<char> {
        match self {
            AudioSource::Microphone => "microphone"@,
            AudioSource::SystemAudio => "system_audio"@,
        }
    }

    /// The name of the source as people read it.
    pub open spec fn description_text(self) -> Seq<char> {
        match self {
            AudioSource::Microphone => "麦克风"@,
            AudioSource::SystemAudio => "系统音频"@,
        }
    }

    /// The word for the source on the command line of a bridge.
    pub fn bridge_argument(self) -> (argument: &'static str)
        ensures
            argument@ == self.argument_text(),
    {
        match self {
            AudioSource::Microphone => "microphone",
            AudioSource::SystemAudio => "system_audio",
        }
    }

    /// The name of the source as people read it.
    pub fn description(self) -> (description: &'static str)
        ensures
            description@ == self.description_text(),
    {
        match self {
            AudioSource::Microphone => "麦克风",
            AudioSource::SystemAudio => "系统音频",
        }
    }
}

/// Two engines have the same identifier only if they are the same.
pub proof fn law_engine_ids_differ(left: AsrEngine, right: AsrEngine)
    ensures
        left.id_text() == right.id_text() ==> left == right,
{
    reveal_strlit("apple_speech");
    reveal_strlit("sherpa_onnx");
    assert("apple_speech"@.len() != "sherpa_onnx"@.len());
}

/// A client's wish to start a session.
#[derive(Debug)]
pub struct StartSessionRequest {
    pub source_language: String,
    pub target_language: String,
    pub audio_source: AudioSource,
    pub asr_engine: AsrEngine,
}

/// The content of a client's wish to start a session.
pub struct StartModel {
    pub source_language: Seq<char>,
    pub target_language: Seq<char>,
    pub audio_source: AudioSource,
    pub asr_engine: AsrEngine,
}

impl View for StartSessionRequest {
    type V = StartModel;

    open spec fn view(&self) -> StartModel {
        StartModel {
            source_language: self.source_language@,
            target_language: self.target_language@,
            audio_source: self.audio_source,
            asr_engine: self.asr_engine,
        }
    }
}

impl Clone for StartSessionRequest {
    fn clone(&self) -> (copy: Self)
        ensures
            copy@ == self@,
    {
        StartSessionRequest {
            source_language: self.source_language.clone(),
            target_language: self.target_language.clone(),
            audio_source: self.audio_source,
            asr_engine: self.asr_engine,
        }
    }
}

/// The bit pattern of the number 1 as an IEEE 754 double.
pub const CONFIDENCE_ONE: u64 = 0x3ff0_0000_0000_0000;

/// The bit pattern of negative zero as an IEEE 754 double.
pub const CONFIDENCE_NEGATIVE_ZERO: u64 = 0x8000_0000_0000_0000;

/// Whether a bit pattern is that of a double between 0 and 1. Doubles that are not
/// negative are ordered as their bit patterns are.
pub open spec fn is_unit_confidence(bits: u64) -> bool {
    bits <= CONFIDENCE_ONE || bits == CONFIDENCE_NEGATIVE_ZERO
}

/// An entry of the personal dictionary.
#[derive(Debug, PartialEq)]
pub struct GlossaryEntry {
    pub id: Option<i64>,
    pub source: String,
    pub source_language: String,
    pub target: String,
    pub target_language: String,
    pub aliases: Vec<String>,
    pub domain: String,
    /// The bit pattern of the confidence as an IEEE 754 double.
    pub confidence: u64,
    pub evidence_count: u32,
    pub active: bool,
}

/// The content of a dictionary entry.
pub struct EntryModel {
    pub id: Option<i64>,
    pub source: Seq<char>,
    pub source_language: Seq<char>,
    pub target: Seq<char>,
    pub target_language: Seq<char>,
    pub aliases: Seq<Seq<char>>,
    pub domain: Seq<char>,
    pub confidence: u64,
    pub evidence_count: u32,
    pub active: bool,
}

impl View for GlossaryEntry {
    type V = EntryModel;

    open spec fn view(&self) -> EntryModel {
        EntryModel {
            id: self.id,
            source: self.source@,
            source_language: self.source_language@,
            target: self.target@,
            target_language: self.target_language@,
            aliases: texts(self.aliases@),
            domain: self.domain@,
            confidence: self.confidence,
            evidence_count: self.evidence_count,
            active: self.active,
        }
    }
}

/// The contents of a sequence of entries.
pub open spec fn entry_models(entries: Seq<GlossaryEntry>) -> Seq<EntryModel> {
    entries.map_values(|e: GlossaryEntry| e@)
}

impl Clone for GlossaryEntry {
    fn clone(&self) -> (copy: Self)
        ensures
            copy@ == self@,
    {
        GlossaryEntry {
            id: self.id,
            source: self.source.clone(),
            source_language: self.source_language.clone(),
            target: self.target.clone(),
            target_language: self.target_language.clone(),
            aliases: clone_strings(&self.aliases),
            domain: self.domain.clone(),
            confidence: self.confidence,
            evidence_count: self.evidence_count,
            active: self.active,
        }
    }
}

impl EntryModel {
    /// What is wrong with an entry, or nothing.
    pub open spec fn fault(self) -> Option<Seq<char>> {
        if trimmed(self.source).len() == 0 || trimmed(self.target).len() == 0 {
            Some("source and target are required"@)
        } else if self.source_language == self.target_language {
            Some("source and target languages must differ"@)
        } else if !is_unit_confidence(self.confidence) {
            Some("confidence must be between 0 and 1"@)
        } else {
            None
        }
    }
}

impl GlossaryEntry {
    /// Checks that an entry can be stored.
    pub fn validate(&self) -> (outcome: Result<(), &'static str>)
        ensures
            match outcome {
                Ok(()) => self@.fault() is None,
                Err(message) => self@.fault() == Some(message@),
            },
    {
        if trim(self.source.as_str()).as_str().is_empty() || trim(
            self.target.as_str(),
        ).as_str().is_empty() {
            return Err("source and target are required");
        }
        if same_text(self.source_language.as_str(), self.target_language.as_str()) {
            return Err("source and target languages must differ");
        }
        if !(self.confidence <= CONFIDENCE_ONE || self.confidence == CONFIDENCE_NEGATIVE_ZERO) {
            return Err("confidence must be between 0 and 1");
        }
        Ok(())
    }
}

/// The domain of an entry that names none.
pub fn default_domain() -> (domain: String)
    ensures
        domain@ == "general"@,
{
    "general".to_owned()
}

/// The confidence of an entry that names none: 1, as a bit pattern.
pub fn default_confidence() -> (bits: u64)
    ensures
        bits == CONFIDENCE_ONE,
{
    CONFIDENCE_ONE
}

/// The evidence count of an entry that names none.
pub fn default_evidence() -> (count: u32)
    ensures
        count == 1,
{
    1
}

/// Whether an entry that does not say so is active.
pub fn default_active() -> (active: bool)
    ensures
        active,
{
    true
}

/// A user's correction of a caption.
#[derive(Debug)]
pub struct CorrectionRequest {
    pub original_source: String,
    pub corrected_source: String,
    pub original_translation: String,
    pub corrected_translation: String,
    pub source_language: String,
    pub target_language: String,
}

/// An entry is in order where its source and its target say something, its languages
/// differ and its confidence is no less than nothing and no more than one.
pub proof fn law_entry_is_in_order(entry: EntryModel)
    ensures
        entry.fault() is None <==> {
            &&& trimmed(entry.source).len() > 0
            &&& trimmed(entry.target).len() > 0
            &&& entry.source_language != entry.target_language
            &&& entry.confidence <= 0x3ff0_0000_0000_0000 || entry.confidence
                == 0x8000_0000_0000_0000
        },
{
}

} // verus!
