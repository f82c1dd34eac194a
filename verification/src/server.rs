//! What the server answers and announces.
use crate::asr::{AsrProviderRegistry, AsrProviderStatus, BridgeFacts};
use crate::config::AppConfig;
use crate::dictionary::{DictionaryError, DictionaryErrorModel};
use crate::domain::{
    CaptionState, EventModel, SegmentSnapshot, ServerEvent, SnapshotModel, StartModel,
    StartSessionRequest,
};
use crate::language::{base_language, base_of, is_tag_of, lemma_base};
use crate::text::same_text;
use vstd::prelude::*;

verus! {

// ---------------------------------------------------------------------------------
// Captions
// ---------------------------------------------------------------------------------

/// The rank of a caption: captions of a later text outrank all captions of an earlier
/// one, and of captions of one text the later phase outranks the earlier.
pub open spec fn rank_of(asr_revision: u64, phase: u64) -> u64 {
    let tripled = if 3 * asr_revision > u64::MAX {
        u64::MAX as int
    } else {
        3 * asr_revision
    };
    if tripled + phase > u64::MAX {
        u64::MAX
    } else {
        (tripled + phase) as u64
    }
}

/// The rank of a caption.
pub fn event_revision(asr_revision: u64, phase: u64) -> (revision: u64)
    ensures
        revision == rank_of(asr_revision, phase),
{
    let tripled: u64 = match asr_revision.checked_mul(3) {
        Some(product) => product,
        None => u64::MAX,
    };
    tripled.saturating_add(phase)
}

/// A later text outranks every phase of an earlier one, and a later phase an earlier
/// one, as long as the ranks do not run out.
pub proof fn law_later_text_outranks_earlier(
    earlier: u64,
    later: u64,
    earlier_phase: u64,
    later_phase: u64,
)
    requires
        earlier_phase < 3,
        later_phase < 3,
        3 * later + 2 <= u64::MAX,
    ensures
        earlier < later ==> rank_of(earlier, earlier_phase) < rank_of(later, later_phase),
        earlier == later ==> (earlier_phase < later_phase <==> rank_of(earlier, earlier_phase)
            < rank_of(later, later_phase)),
{
}

/// The caption of a text that was recognised and is not translated yet.
pub open spec fn source_caption(request: StartModel, snapshot: SnapshotModel) -> EventModel {
    EventModel::Caption {
        segment_id: snapshot.segment_id,
        revision: rank_of(snapshot.revision, 0),
        state: CaptionState::Partial,
        source_text: snapshot.source_text,
        translation_text: Seq::empty(),
        source_language: request.source_language,
        target_language: request.target_language,
        llm_applied: false,
        latency_ms: 0,
    }
}

/// The caption of a text that was recognised and is not translated yet.
pub fn source_snapshot_event(request: &StartSessionRequest, snapshot: &SegmentSnapshot) -> (event:
    ServerEvent)
    ensures
        event@ == source_caption(request@, snapshot@),
{
    ServerEvent::Caption {
        segment_id: snapshot.segment_id,
        revision: event_revision(snapshot.revision, 0),
        state: CaptionState::Partial,
        source_text: snapshot.source_text.clone(),
        translation_text: String::new(),
        source_language: request.source_language.clone(),
        target_language: request.target_language.clone(),
        llm_applied: false,
        latency_ms: 0,
    }
}

/// The announcement of an error.
pub fn error_event(code: &str, message: String) -> (event: ServerEvent)
    ensures
        event@ == (EventModel::Error { code: code@, message: message@ }),
{
    ServerEvent::Error { code: code.to_owned(), message }
}

/// The announcement of the state of the session.
pub fn status_event(running: bool, message: &str) -> (event: ServerEvent)
    ensures
        event@ == (EventModel::SessionStatus { running, message: message@ }),
{
    ServerEvent::SessionStatus { running, message: message.to_owned() }
}

/// The announcement of an error of the dictionary.
pub open spec fn dictionary_failure(error: DictionaryErrorModel) -> EventModel {
    EventModel::Error { code: "dictionary_failed"@, message: error.text() }
}

/// The announcement of an error of the dictionary.
pub fn dictionary_error_event(error: &DictionaryError) -> (event: ServerEvent)
    ensures
        event@ == dictionary_failure(error@),
{
    error_event("dictionary_failed", error.message())
}

// ---------------------------------------------------------------------------------
// Answers
// ---------------------------------------------------------------------------------

/// Why a request is refused: an HTTP status and a message.
#[derive(Debug, PartialEq, Eq)]
pub struct ApiError {
    pub status: u16,
    pub message: String,
}

impl ApiError {
    /// The request makes no sense.
    pub fn bad_request(message: &str) -> (error: Self)
        ensures
            error.status == 400,
            error.message@ == message@,
    {
        ApiError { status: 400, message: message.to_owned() }
    }

    /// What the request is about is not there.
    pub fn not_found(message: &str) -> (error: Self)
        ensures
            error.status == 404,
            error.message@ == message@,
    {
        ApiError { status: 404, message: message.to_owned() }
    }

    /// The dictionary failed.
    pub fn from_dictionary(error: &DictionaryError) -> (api_error: Self)
        ensures
            api_error.status == 500,
            api_error.message@ == error@.text(),
    {
        ApiError { status: 500, message: error.message() }
    }
}

/// Whether there is translation between the two languages of a request.
pub open spec fn is_supported(request: StartModel) -> bool {
    let source = base_of(request.source_language);
    let target = base_of(request.target_language);
    (source == "zh"@ && target == "en"@) || (source == "en"@ && target == "zh"@)
}

/// Refuses a session between languages without translation.
pub fn validate_direction(request: &StartSessionRequest) -> (outcome: Result<(), ApiError>)
    ensures
        match outcome {
            Ok(()) => is_supported(request@),
            Err(error) => !is_supported(request@) && error.status == 400 && error.message@
                == "MVP only supports Chinese-English translation"@,
        },
{
    let source = base_language(request.source_language.as_str());
    let target = base_language(request.target_language.as_str());
    if (same_text(source.as_str(), "zh") && same_text(target.as_str(), "en")) || (same_text(
        source.as_str(),
        "en",
    ) && same_text(target.as_str(), "zh")) {
        Ok(())
    } else {
        Err(ApiError::bad_request("MVP only supports Chinese-English translation"))
    }
}

/// The words that the recogniser of a session should expect, or why the session is
/// refused: first for its languages, then for the dictionary.
pub fn admit_session(
    request: &StartSessionRequest,
    hotwords: Result<Vec<String>, DictionaryError>,
) -> (outcome: Result<Vec<String>, ApiError>)
    ensures
        match outcome {
            Ok(words) => is_supported(request@) && hotwords == Ok::<Vec<String>, DictionaryError>(
                words,
            ),
            Err(error) => if !is_supported(request@) {
                error.status == 400 && error.message@
                    == "MVP only supports Chinese-English translation"@
            } else {
                hotwords matches Err(fault) && error.status == 500 && error.message@
                    == fault@.text()
            },
        },
{
    match validate_direction(request) {
        Ok(()) => {},
        Err(error) => {
            return Err(error);
        },
    }
    match hotwords {
        Ok(words) => Ok(words),
        Err(fault) => Err(ApiError::from_dictionary(&fault)),
    }
}

/// What the deletion of an entry is answered: an announcement, or a refusal if there was
/// no such entry.
pub fn deletion_outcome(deleted: bool) -> (outcome: Result<ServerEvent, ApiError>)
    ensures
        match outcome {
            Ok(event) => deleted && event@ is DictionaryChanged,
            Err(error) => !deleted && error.status == 404 && error.message@
                == "dictionary entry was not found"@,
        },
{
    if deleted {
        Ok(ServerEvent::DictionaryChanged)
    } else {
        Err(ApiError::not_found("dictionary entry was not found"))
    }
}

/// What the file system says of the parts of the application.
#[derive(Debug, Clone, Copy, PartialEq, Eq, Structural)]
pub struct InstallationFacts {
    pub speech_bridge_is_file: bool,
    pub python_is_file: bool,
    pub model_worker_is_file: bool,
    pub bridges: BridgeFacts,
}

/// How the application is.
#[derive(Debug)]
pub struct HealthResponse {
    pub ok: bool,
    pub speech_bridge_ready: bool,
    pub model_worker_ready: bool,
    pub fake_translation: bool,
    pub llm_enabled: bool,
    pub asr_providers: Vec<AsrProviderStatus>,
}

/// How the application is.
pub fn health(config: &AppConfig, registry: &AsrProviderRegistry, facts: InstallationFacts) -> (health:
    HealthResponse)
    ensures
        health.ok,
        health.speech_bridge_ready == facts.speech_bridge_is_file,
        health.model_worker_ready == (facts.python_is_file && facts.model_worker_is_file),
        health.fake_translation == config.fake_translation,
        health.llm_enabled == config.llm.enabled,
        crate::asr::status_models(health.asr_providers@) == seq![
            registry@.apple_speech.status(facts.bridges.apple_speech),
            registry@.sherpa_onnx.status(facts.bridges.sherpa_onnx),
        ],
{
    HealthResponse {
        ok: true,
        speech_bridge_ready: facts.speech_bridge_is_file,
        model_worker_ready: facts.python_is_file && facts.model_worker_is_file,
        fake_translation: config.fake_translation,
        llm_enabled: config.llm.enabled,
        asr_providers: registry.statuses(facts.bridges),
    }
}

// ---------------------------------------------------------------------------------
// Web sockets
// ---------------------------------------------------------------------------------

/// What happens at a client's web socket.
#[derive(Debug, Clone, Copy, PartialEq, Eq, Structural)]
pub enum SocketEvent {
    /// The client is gone, or closes the socket.
    ClientClosed,
    /// The client says anything else.
    ClientSpoke,
    /// There is an announcement.
    Announcement,
    /// Announcements were missed.
    Missed,
    /// There will be no more announcements.
    NoMoreAnnouncements,
    /// An announcement could not be sent.
    SendFailed,
}

/// What is done at a client's web socket.
#[derive(Debug, Clone, Copy, PartialEq, Eq, Structural)]
pub enum SocketAction {
    /// The announcement is sent.
    Send,
    /// Nothing.
    Wait,
    /// The socket is given up.
    Leave,
}

/// What is done at a client's web socket.
pub fn socket_action(event: SocketEvent) -> (action: SocketAction)
    ensures
        action == (match event {
            SocketEvent::Announcement => SocketAction::Send,
            SocketEvent::ClientSpoke | SocketEvent::Missed => SocketAction::Wait,
            SocketEvent::ClientClosed | SocketEvent::NoMoreAnnouncements | SocketEvent::SendFailed =>
                SocketAction::Leave,
        }),
{
    match event {
        SocketEvent::Announcement => SocketAction::Send,
        SocketEvent::ClientSpoke => SocketAction::Wait,
        SocketEvent::Missed => SocketAction::Wait,
        SocketEvent::ClientClosed => SocketAction::Leave,
        SocketEvent::NoMoreAnnouncements => SocketAction::Leave,
        SocketEvent::SendFailed => SocketAction::Leave,
    }
}

/// The rank of a caption is three times the revision of its text and its phase on top, up to
/// the largest number there is.
pub proof fn law_rank_is_revision_and_phase(revision: u64, phase: u64)
    ensures
        3 * revision + phase <= u64::MAX ==> rank_of(revision, phase) == 3 * revision + phase,
        3 * revision + phase > u64::MAX ==> rank_of(revision, phase) == u64::MAX,
{
}

/// Sessions go between Chinese and English, the one way and the other, whatever the regions,
/// and between no other languages.
pub proof fn law_two_directions_are_supported(
    request: StartModel,
    source: Seq<char>,
    target: Seq<char>,
)
    requires
        is_tag_of(request.source_language, source),
        is_tag_of(request.target_language, target),
    ensures
        is_supported(request) <==> (source == seq!['z', 'h'] && target == seq!['e', 'n']) || (source
            == seq!['e', 'n'] && target == seq!['z', 'h']),
{
    lemma_base(request.source_language, source);
    lemma_base(request.target_language, target);
    reveal_strlit("zh");
    reveal_strlit("en");
    assert("zh"@ =~= seq!['z', 'h']);
    assert("en"@ =~= seq!['e', 'n']);
}

/// A text that was recognised is shown at once as it is, without a translation, and counts
/// less than any translation of it.
pub proof fn law_recognised_text_is_shown(request: StartModel, snapshot: SnapshotModel)
    ensures
        source_caption(request, snapshot) matches EventModel::Caption {
            segment_id,
            revision,
            state,
            source_text,
            translation_text,
            source_language,
            target_language,
            llm_applied,
            latency_ms,
        } && {
            &&& segment_id == snapshot.segment_id && source_text == snapshot.source_text
            &&& translation_text.len() == 0 && !llm_applied && latency_ms == 0
            &&& state == CaptionState::Partial
            &&& source_language == request.source_language
            &&& target_language == request.target_language
            &&& 3 * snapshot.revision < u64::MAX ==> revision < rank_of(snapshot.revision, 1)
                && forall|earlier: u64, phase: u64|
                earlier < snapshot.revision && phase < 3 ==> #[trigger] rank_of(earlier, phase)
                    < revision
        },
{
}

} // verus!
