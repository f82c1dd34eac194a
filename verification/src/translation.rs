//! Translating with a model worker: what needs no worker, what a worker is asked, and
//! what is made of its answer.
use crate::domain::{entry_models, EntryModel, GlossaryEntry};
use crate::identity::{is_random_id, new_id};
use crate::terms::holds;
use crate::text::{
    begins_ignoring_case, equal_ignoring_case, folded, join2, join3, optional_text,
    starts_ignoring_case, trim, trimmed,
};
use vstd::prelude::*;

verus! {

/// The outcome of a translation.
#[derive(Debug)]
pub struct TranslationOutput {
    pub text: String,
    pub latency_ms: u128,
}

/// The content of the outcome of a translation.
pub struct OutputModel {
    pub text: Seq<char>,
    pub latency_ms: u128,
}

impl View for TranslationOutput {
    type V = OutputModel;

    open spec fn view(&self) -> OutputModel {
        OutputModel { text: self.text@, latency_ms: self.latency_ms }
    }
}

/// Why a translation failed.
#[derive(Debug, PartialEq, Eq)]
pub enum TranslationError {
    WorkerNotInstalled,
    Start(String),
    Io(String),
    Protocol(String),
    Stopped,
    Model(String),
}

/// The content of why a translation failed.
pub enum TranslationErrorModel {
    WorkerNotInstalled,
    Start(Seq<char>),
    Io(Seq<char>),
    Protocol(Seq<char>),
    Stopped,
    Model(Seq<char>),
}

impl View for TranslationError {
    type V = TranslationErrorModel;

    open spec fn view(&self) -> TranslationErrorModel {
        match self {
            TranslationError::WorkerNotInstalled => TranslationErrorModel::WorkerNotInstalled,
            TranslationError::Start(detail) => TranslationErrorModel::Start(detail@),
            TranslationError::Io(detail) => TranslationErrorModel::Io(detail@),
            TranslationError::Protocol(detail) => TranslationErrorModel::Protocol(detail@),
            TranslationError::Stopped => TranslationErrorModel::Stopped,
            TranslationError::Model(detail) => TranslationErrorModel::Model(detail@),
        }
    }
}

impl TranslationErrorModel {
    /// The error as people read it.
    pub open spec fn text(self) -> Seq<char> {
        match self {
            TranslationErrorModel::WorkerNotInstalled =>
                "model worker is not installed; run scripts/setup-models.sh"@,
            TranslationErrorModel::Start(detail) => "failed to start model worker: "@ + detail,
            TranslationErrorModel::Io(detail) => "model worker I/O failed: "@ + detail,
            TranslationErrorModel::Protocol(detail) => "model worker protocol failed: "@ + detail,
            TranslationErrorModel::Stopped => "model worker stopped unexpectedly"@,
            TranslationErrorModel::Model(detail) => "translation failed: "@ + detail,
        }
    }
}

impl TranslationError {
    /// The error as people read it.
    pub fn message(&self) -> (message: String)
        ensures
            message@ == self@.text(),
    {
        match self {
            TranslationError::WorkerNotInstalled =>
                "model worker is not installed; run scripts/setup-models.sh".to_owned(),
            TranslationError::Start(detail) => join2(
                "failed to start model worker: ",
                detail.as_str(),
            ),
            TranslationError::Io(detail) => join2("model worker I/O failed: ", detail.as_str()),
            TranslationError::Protocol(detail) => join2(
                "model worker protocol failed: ",
                detail.as_str(),
            ),
            TranslationError::Stopped => "model worker stopped unexpectedly".to_owned(),
            TranslationError::Model(detail) => join2("translation failed: ", detail.as_str()),
        }
    }
}

/// The outcome of a translation or an error, by their content.
pub open spec fn translation_outcome(outcome: Result<TranslationOutput, TranslationError>) -> Result<
    OutputModel,
    TranslationErrorModel,
> {
    match outcome {
        Ok(output) => Ok(output@),
        Err(error) => Err(error@),
    }
}

// ---------------------------------------------------------------------------------
// Without a worker
// ---------------------------------------------------------------------------------

/// Whether a text is the source of an entry or one of its aliases, ASCII case aside.
pub open spec fn is_term_of(entry: EntryModel, text: Seq<char>) -> bool {
    folded(entry.source) == folded(text) || holds(entry.aliases, text)
}

/// The target of the first entry whose source or alias is the whole text.
pub open spec fn exact_translation(text: Seq<char>, glossary: Seq<EntryModel>) -> Option<Seq<char>>
    decreases glossary.len(),
{
    if glossary.len() == 0 {
        None
    } else if is_term_of(glossary[0], trimmed(text)) {
        Some(glossary[0].target)
    } else {
        exact_translation(text, glossary.skip(1))
    }
}

/// Whether a text is the source of an entry or one of its aliases, ASCII case aside.
fn names_entry(entry: &GlossaryEntry, text: &str) -> (names: bool)
    ensures
        names == is_term_of(entry@, text@),
{
    if equal_ignoring_case(entry.source.as_str(), text) {
        return true;
    }
    let mut i: usize = 0;
    while i < entry.aliases.len()
        invariant
            i <= entry.aliases.len(),
            forall|k: int| 0 <= k < i ==> folded(#[trigger] entry@.aliases[k]) != folded(text@),
        decreases entry.aliases.len() - i,
    {
        if equal_ignoring_case(entry.aliases[i].as_str(), text) {
            proof {
                assert(folded(entry@.aliases[i as int]) == folded(text@));
            }
            return true;
        }
        i = i + 1;
    }
    false
}

/// The target of the first entry whose source or alias is the whole text.
pub fn exact_glossary_translation(text: &str, glossary: &[GlossaryEntry]) -> (target: Option<
    String,
>)
    ensures
        optional_text(target) == exact_translation(text@, entry_models(glossary@)),
{
    let normalized = trim(text);
    let ghost all = entry_models(glossary@);
    let mut i: usize = 0;
    proof {
        assert(all.skip(0) =~= all);
    }
    while i < glossary.len()
        invariant
            i <= glossary.len(),
            all == entry_models(glossary@),
            normalized@ == trimmed(text@),
            exact_translation(text@, all) == exact_translation(text@, all.skip(i as int)),
        decreases glossary.len() - i,
    {
        proof {
            assert(all.skip(i as int)[0] == glossary@[i as int]@);
            assert(all.skip(i as int).skip(1) =~= all.skip(i + 1));
        }
        if names_entry(&glossary[i], normalized.as_str()) {
            return Some(glossary[i].target.clone());
        }
        i = i + 1;
    }
    None
}

/// A stand-in for a translation: the term's target, or the text with the language.
pub open spec fn stand_in(text: Seq<char>, target_language: Seq<char>, glossary: Seq<EntryModel>) -> Seq<
    char,
> {
    match exact_translation(text, glossary) {
        Some(target) => target,
        None => "["@ + target_language + "] "@ + text,
    }
}

/// Translates without a model, for tests and trials.
#[derive(Debug, Clone, Copy)]
pub struct FakeTranslator;

impl FakeTranslator {
    /// A stand-in for a translation.
    pub fn translate(
        &self,
        text: &str,
        target_language: &str,
        glossary: &[GlossaryEntry],
        latency_ms: u128,
    ) -> (output: TranslationOutput)
        ensures
            output@ == (OutputModel {
                text: stand_in(text@, target_language@, entry_models(glossary@)),
                latency_ms,
            }),
    {
        let translated = match exact_glossary_translation(text, glossary) {
            Some(target) => target,
            None => join2(join3("[", target_language, "] ").as_str(), text),
        };
        TranslationOutput { text: translated, latency_ms }
    }
}

/// The text by which a translator is warmed up.
pub open spec fn probe_of(source_language: Seq<char>) -> Seq<char> {
    if begins_ignoring_case(source_language, "zh"@) {
        "准备"@
    } else {
        "Ready"@
    }
}

/// The text by which a translator is warmed up.
pub fn warmup_probe(source_language: &str) -> (probe: &'static str)
    ensures
        probe@ == probe_of(source_language@),
{
    if starts_ignoring_case(source_language, "zh") {
        "准备"
    } else {
        "Ready"
    }
}

// ---------------------------------------------------------------------------------
// With a worker
// ---------------------------------------------------------------------------------

/// What a worker is asked.
#[derive(Debug)]
pub struct WorkerRequest {
    pub id: u128,
    pub text: String,
    pub source_language: String,
    pub target_language: String,
    pub glossary: Vec<GlossaryEntry>,
}

/// The content of what a worker is asked.
pub struct RequestModel {
    pub id: u128,
    pub text: Seq<char>,
    pub source_language: Seq<char>,
    pub target_language: Seq<char>,
    pub glossary: Seq<EntryModel>,
}

impl View for WorkerRequest {
    type V = RequestModel;

    open spec fn view(&self) -> RequestModel {
        RequestModel {
            id: self.id,
            text: self.text@,
            source_language: self.source_language@,
            target_language: self.target_language@,
            glossary: entry_models(self.glossary@),
        }
    }
}

/// What a worker answers.
#[derive(Debug)]
pub struct WorkerResponse {
    pub id: Option<u128>,
    pub translation: Option<String>,
    pub latency_ms: Option<u128>,
    pub error: Option<String>,
}

/// The content of what a worker answers.
pub struct WorkerResponseModel {
    pub id: Option<u128>,
    pub translation: Option<Seq<char>>,
    pub latency_ms: Option<u128>,
    pub error: Option<Seq<char>>,
}

impl View for WorkerResponse {
    type V = WorkerResponseModel;

    open spec fn view(&self) -> WorkerResponseModel {
        WorkerResponseModel {
            id: self.id,
            translation: optional_text(self.translation),
            latency_ms: self.latency_ms,
            error: optional_text(self.error),
        }
    }
}

/// What a translation does first.
#[derive(Debug)]
pub enum TranslationStep {
    /// It is done.
    Done(TranslationOutput),
    /// A worker is to be asked.
    Ask(WorkerRequest),
}

/// Copies of some entries.
fn clone_entries(entries: &[GlossaryEntry]) -> (copies: Vec<GlossaryEntry>)
    ensures
        entry_models(copies@) == entry_models(entries@),
{
    let mut copies: Vec<GlossaryEntry> = Vec::new();
    let mut i: usize = 0;
    while i < entries.len()
        invariant
            i <= entries.len(),
            copies@.len() == i,
            forall|k: int| 0 <= k < i ==> (#[trigger] copies@[k])@ == entries@[k]@,
        decreases entries.len() - i,
    {
        copies.push(entries[i].clone());
        i = i + 1;
    }
    proof {
        assert(entry_models(copies@) =~= entry_models(entries@));
    }
    copies
}

/// Translates with a worker.
#[derive(Debug, Clone, Copy)]
pub struct PythonMarianTranslator;

/// What a worker is asked for a text.
pub open spec fn request_of(
    id: u128,
    text: Seq<char>,
    source_language: Seq<char>,
    target_language: Seq<char>,
    glossary: Seq<EntryModel>,
) -> RequestModel {
    RequestModel { id, text, source_language, target_language, glossary }
}

impl PythonMarianTranslator {
    /// What a translation does first: a term of the dictionary needs no worker. A worker
    /// is asked under a new identifier.
    pub fn translate(
        &self,
        text: &str,
        source_language: &str,
        target_language: &str,
        glossary: &[GlossaryEntry],
    ) -> (step: TranslationStep)
        ensures
            match step {
                TranslationStep::Done(output) => exact_translation(
                    text@,
                    entry_models(glossary@),
                ) == Some(output.text@) && output.latency_ms == 0,
                TranslationStep::Ask(request) => exact_translation(
                    text@,
                    entry_models(glossary@),
                ) is None && is_random_id(request.id) && request@ == request_of(
                    request.id,
                    text@,
                    source_language@,
                    target_language@,
                    entry_models(glossary@),
                ),
            },
    {
        self.translate_as(new_id(), text, source_language, target_language, glossary)
    }

    /// What a translation does first, where a worker is asked under the given identifier.
    pub fn translate_as(
        &self,
        id: u128,
        text: &str,
        source_language: &str,
        target_language: &str,
        glossary: &[GlossaryEntry],
    ) -> (step: TranslationStep)
        ensures
            match step {
                TranslationStep::Done(output) => exact_translation(
                    text@,
                    entry_models(glossary@),
                ) == Some(output.text@) && output.latency_ms == 0,
                TranslationStep::Ask(request) => exact_translation(
                    text@,
                    entry_models(glossary@),
                ) is None && request@ == request_of(
                    id,
                    text@,
                    source_language@,
                    target_language@,
                    entry_models(glossary@),
                ),
            },
    {
        match exact_glossary_translation(text, glossary) {
            Some(target) => TranslationStep::Done(
                TranslationOutput { text: target, latency_ms: 0 },
            ),
            None => TranslationStep::Ask(
                WorkerRequest {
                    id,
                    text: text.to_owned(),
                    source_language: source_language.to_owned(),
                    target_language: target_language.to_owned(),
                    glossary: clone_entries(glossary),
                },
            ),
        }
    }
}

/// What a worker's answer comes to.
pub open spec fn answer_of(request_id: u128, response: WorkerResponseModel) -> Result<
    OutputModel,
    TranslationErrorModel,
> {
    if response.id != Some(request_id) {
        Err(TranslationErrorModel::Model("worker response id did not match request"@))
    } else if response.error is Some {
        Err(TranslationErrorModel::Model(response.error->0))
    } else if response.translation is None || trimmed(response.translation->0).len() == 0 {
        Err(TranslationErrorModel::Model("empty translation"@))
    } else {
        Ok(
            OutputModel {
                text: response.translation->0,
                latency_ms: match response.latency_ms {
                    Some(latency) => latency,
                    None => 0,
                },
            },
        )
    }
}

/// What a worker's answer comes to.
pub fn worker_outcome(request_id: u128, response: WorkerResponse) -> (outcome: Result<
    TranslationOutput,
    TranslationError,
>)
    ensures
        translation_outcome(outcome) == answer_of(request_id, response@),
{
    let matching = match response.id {
        Some(id) => id == request_id,
        None => false,
    };
    if !matching {
        return Err(
            TranslationError::Model("worker response id did not match request".to_owned()),
        );
    }
    if let Some(error) = response.error {
        return Err(TranslationError::Model(error));
    }
    let latency_ms = match response.latency_ms {
        Some(latency) => latency,
        None => 0,
    };
    match response.translation {
        Some(text) => {
            if trim(text.as_str()).as_str().is_empty() {
                Err(TranslationError::Model("empty translation".to_owned()))
            } else {
                Ok(TranslationOutput { text, latency_ms })
            }
        },
        None => Err(TranslationError::Model("empty translation".to_owned())),
    }
}

/// What became of starting the worker.
#[derive(Debug)]
pub enum WorkerState {
    /// Its program or its script is not there.
    NotInstalled,
    /// It could not be started.
    Failed(String),
    /// It cannot be talked to.
    Unreachable,
    /// It runs.
    Running,
}

/// What a request is answered while the worker does not run.
pub open spec fn refusal(state: WorkerState) -> Option<TranslationErrorModel> {
    match state {
        WorkerState::NotInstalled => Some(TranslationErrorModel::WorkerNotInstalled),
        WorkerState::Failed(detail) => Some(TranslationErrorModel::Start(detail@)),
        WorkerState::Unreachable => Some(TranslationErrorModel::Stopped),
        WorkerState::Running => None,
    }
}

/// A translation error that may be missing, by its content.
pub open spec fn optional_error(error: Option<TranslationError>) -> Option<TranslationErrorModel> {
    match error {
        Some(e) => Some(e@),
        None => None,
    }
}

/// Whether a worker can be started, from whether its program and its script are files.
pub fn is_installed(python_is_file: bool, worker_is_file: bool) -> (installed: bool)
    ensures
        installed == (python_is_file && worker_is_file),
{
    python_is_file && worker_is_file
}

/// What a request is answered while the worker does not run.
pub fn refuse(state: &WorkerState) -> (error: Option<TranslationError>)
    ensures
        optional_error(error) == refusal(*state),
{
    match state {
        WorkerState::NotInstalled => Some(TranslationError::WorkerNotInstalled),
        WorkerState::Failed(detail) => Some(TranslationError::Start(detail.clone())),
        WorkerState::Unreachable => Some(TranslationError::Stopped),
        WorkerState::Running => None,
    }
}

/// What became of asking the worker.
#[derive(Debug)]
pub enum ExchangeEvent {
    /// The request cannot be written down, or the answer cannot be understood.
    Malformed(String),
    /// Reading or writing failed.
    IoFailed(String),
    /// The worker gave no answer.
    Ended,
    /// The worker answered.
    Answered(WorkerResponse),
}

/// What asking the worker comes to.
pub open spec fn exchange_of(request_id: u128, event: ExchangeEvent) -> Result<
    OutputModel,
    TranslationErrorModel,
> {
    match event {
        ExchangeEvent::Malformed(detail) => Err(TranslationErrorModel::Protocol(detail@)),
        ExchangeEvent::IoFailed(detail) => Err(TranslationErrorModel::Io(detail@)),
        ExchangeEvent::Ended => Err(TranslationErrorModel::Stopped),
        ExchangeEvent::Answered(response) => answer_of(request_id, response@),
    }
}

/// What asking the worker comes to.
pub fn exchange_outcome(request_id: u128, event: ExchangeEvent) -> (outcome: Result<
    TranslationOutput,
    TranslationError,
>)
    ensures
        translation_outcome(outcome) == exchange_of(request_id, event),
{
    match event {
        ExchangeEvent::Malformed(detail) => Err(TranslationError::Protocol(detail)),
        ExchangeEvent::IoFailed(detail) => Err(TranslationError::Io(detail)),
        ExchangeEvent::Ended => Err(TranslationError::Stopped),
        ExchangeEvent::Answered(response) => worker_outcome(request_id, response),
    }
}

// ---------------------------------------------------------------------------------
// Laws
// ---------------------------------------------------------------------------------

/// An answer counts only for the request it names, and a translation that counts says
/// something.
pub proof fn law_answers_are_matched(request_id: u128, response: WorkerResponseModel)
    ensures
        answer_of(request_id, response) matches Ok(output) ==> {
            &&& response.id == Some(request_id)
            &&& response.error is None
            &&& response.translation == Some(output.text)
            &&& trimmed(output.text).len() > 0
        },
{
}

/// A text that is a term of the dictionary gets the target of the first entry that has
/// it, whatever else the dictionary holds behind that.
pub proof fn law_first_exact_term_wins(
    text: Seq<char>,
    before: Seq<EntryModel>,
    entry: EntryModel,
    after: Seq<EntryModel>,
)
    requires
        forall|i: int| 0 <= i < before.len() ==> !is_term_of(#[trigger] before[i], trimmed(text)),
        is_term_of(entry, trimmed(text)),
    ensures
        exact_translation(text, before.push(entry) + after) == Some(entry.target),
    decreases before.len(),
{
    let all = before.push(entry) + after;
    if before.len() == 0 {
        assert(all[0] == entry);
    } else {
        assert(all[0] == before[0]);
        assert(all.skip(1) =~= before.skip(1).push(entry) + after);
        assert forall|i: int| 0 <= i < before.skip(1).len() implies !is_term_of(
            #[trigger] before.skip(1)[i],
            trimmed(text),
        ) by {
            assert(before.skip(1)[i] == before[i + 1]);
        }
        law_first_exact_term_wins(text, before.skip(1), entry, after);
    }
}

/// An answer that names the request, has no error and a translation that is not blank is
/// the translation as it stands; of any other the first thing that is wrong is the error.
pub proof fn law_good_answers_are_taken(request_id: u128, response: WorkerResponseModel)
    ensures
        match answer_of(request_id, response) {
            Ok(output) => response.translation == Some(output.text) && (match response.latency_ms {
                Some(time) => output.latency_ms == time,
                None => output.latency_ms == 0,
            }),
            Err(error) => if response.id != Some(request_id) {
                error == TranslationErrorModel::Model("worker response id did not match request"@)
            } else {
                match response.error {
                    Some(detail) => error == TranslationErrorModel::Model(detail),
                    None => error == TranslationErrorModel::Model("empty translation"@) && (
                    response.translation matches Some(text) ==> trimmed(text).len() == 0),
                }
            },
        },
        response.id == Some(request_id) && response.error is None && (
        response.translation matches Some(text) && trimmed(text).len() > 0) ==> answer_of(
            request_id,
            response,
        ) is Ok,
{
}

/// A text that is a term is translated as its entry says and no other text is: the entry is
/// the first whose source or one of whose aliases is the text without white space around it,
/// ASCII case aside.
pub proof fn law_terms_are_translated_by_their_entry(text: Seq<char>, glossary: Seq<EntryModel>)
    ensures
        match exact_translation(text, glossary) {
            Some(target) => exists|i: int|
                0 <= i < glossary.len() && #[trigger] names(glossary[i], trimmed(text))
                    && glossary[i].target == target && forall|j: int|
                    0 <= j < i ==> !names(#[trigger] glossary[j], trimmed(text)),
            None => forall|i: int|
                0 <= i < glossary.len() ==> !names(#[trigger] glossary[i], trimmed(text)),
        },
    decreases glossary.len(),
{
    if glossary.len() > 0 {
        let rest = glossary.skip(1);
        let term = trimmed(text);
        assert(is_term_of(glossary[0], term) == names(glossary[0], term));
        if !names(glossary[0], term) {
            law_terms_are_translated_by_their_entry(text, rest);
            match exact_translation(text, rest) {
                Some(target) => {
                    let i = choose|i: int|
                        0 <= i < rest.len() && #[trigger] names(rest[i], term) && rest[i].target
                            == target && forall|j: int|
                            0 <= j < i ==> !names(#[trigger] rest[j], term);
                    assert(glossary[i + 1] == rest[i]);
                    assert(names(glossary[i + 1], term));
                    assert forall|j: int| 0 <= j < i + 1 implies !names(
                        #[trigger] glossary[j],
                        term,
                    ) by {
                        if j > 0 {
                            assert(glossary[j] == rest[j - 1]);
                        }
                    }
                },
                None => {
                    assert forall|i: int| 0 <= i < glossary.len() implies !names(
                        #[trigger] glossary[i],
                        term,
                    ) by {
                        if i > 0 {
                            assert(glossary[i] == rest[i - 1]);
                        }
                    }
                },
            }
        } else {
            assert(names(glossary[0], term));
        }
    }
}

/// Whether an entry has a term as its source or as one of its aliases, ASCII case aside.
pub open spec fn names(entry: EntryModel, term: Seq<char>) -> bool {
    folded(entry.source) == folded(term) || exists|k: int|
        0 <= k < entry.aliases.len() && folded(#[trigger] entry.aliases[k]) == folded(term)
}

/// Every way in which asking a worker can end has an outcome of its own, and a worker that
/// does not run is not asked.
pub proof fn law_every_failure_is_told(request_id: u128, event: ExchangeEvent, state: WorkerState)
    ensures
        match exchange_of(request_id, event) {
            Ok(output) => event matches ExchangeEvent::Answered(response)
                && response@.translation == Some(output.text),
            Err(error) => match event {
                ExchangeEvent::Malformed(detail) => error == TranslationErrorModel::Protocol(
                    detail@,
                ),
                ExchangeEvent::IoFailed(detail) => error == TranslationErrorModel::Io(detail@),
                ExchangeEvent::Ended => error is Stopped,
                ExchangeEvent::Answered(_) => error is Model,
            },
        },
        refusal(state) is None <==> state is Running,
        state is NotInstalled ==> refusal(state) == Some(
            TranslationErrorModel::WorkerNotInstalled,
        ),
        state is Unreachable ==> refusal(state) == Some(TranslationErrorModel::Stopped),
        state matches WorkerState::Failed(detail) ==> refusal(state) == Some(
            TranslationErrorModel::Start(detail@),
        ),
{
}

} // verus!
