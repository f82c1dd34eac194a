//! The way of one segment from its recognised text to its final caption.
use crate::clock::{elapsed_ms, millis_between};
use crate::dictionary::{entries_of, DictionaryError, DictionaryErrorModel, DictionaryStore};
use crate::domain::{
    entry_models, CaptionState, EntryModel, EventModel, GlossaryEntry, SegmentSnapshot,
    ServerEvent, SnapshotModel, StartModel, StartSessionRequest,
};
use crate::identity::is_random_id;
use crate::llm::{pair_texts, InputModel, LlmError, LlmOutput, LlmRefinementInput};
use crate::server::{dictionary_error_event, dictionary_failure, error_event, event_revision, rank_of};
use crate::terms::{at_most, normalized, relevant_of, MAX_RELEVANT};
use crate::streaming::{
    extended_translation, joined_translation, law_current_window_is_taken, optional_plan,
    ChunkModel, MachineModel, PlanModel, TranslationPlan, TranslationStateMachine,
};
use crate::text::{borrowed_text, lemma_texts_push, optional_text, texts};
use crate::translation::{
    exact_translation, request_of, translation_outcome, OutputModel, PythonMarianTranslator,
    TranslationError, TranslationErrorModel, TranslationOutput, TranslationStep,
};
use vstd::prelude::*;

verus! {

/// The contents of some announcements.
pub open spec fn event_models(events: Seq<ServerEvent>) -> Seq<EventModel> {
    events.map_values(|event: ServerEvent| event@)
}

/// Appends an announcement.
fn push_event(events: &mut Vec<ServerEvent>, event: ServerEvent)
    ensures
        event_models(final(events)@) == event_models(old(events)@).push(event@),
{
    let ghost before = events@;
    events.push(event);
    proof {
        assert(event_models(events@) =~= event_models(before).push(event@));
    }
}

/// How a segment gets at the model, which does one thing at a time.
#[derive(Debug, Clone, Copy, PartialEq, Eq, Structural)]
pub enum GateMode {
    /// It waits until the model is free.
    Wait,
    /// It is dropped unless the model is free now.
    TryNow,
}

/// How a segment gets at the model: final text waits, and any other text gives way.
pub fn gate_mode(state: CaptionState) -> (mode: GateMode)
    ensures
        mode == (if state == CaptionState::Final {
            GateMode::Wait
        } else {
            GateMode::TryNow
        }),
{
    if state == CaptionState::Final {
        GateMode::Wait
    } else {
        GateMode::TryNow
    }
}

// ---------------------------------------------------------------------------------
// Context
// ---------------------------------------------------------------------------------

/// How many earlier segments are remembered as context.
pub const CONTEXT_SEGMENTS: usize = 2;

/// The last segments with their translations, the oldest first.
#[derive(Debug)]
pub struct ContextMemory {
    pairs: Vec<(String, String)>,
}

impl View for ContextMemory {
    type V = Seq<(Seq<char>, Seq<char>)>;

    closed spec fn view(&self) -> Seq<(Seq<char>, Seq<char>)> {
        pair_texts(self.pairs@)
    }
}

/// The last pairs, as many as are remembered.
pub open spec fn last_pairs(pairs: Seq<(Seq<char>, Seq<char>)>) -> Seq<(Seq<char>, Seq<char>)> {
    if pairs.len() <= CONTEXT_SEGMENTS {
        pairs
    } else {
        pairs.skip(pairs.len() - CONTEXT_SEGMENTS)
    }
}

impl ContextMemory {
    /// Nothing remembered.
    pub fn new() -> (memory: Self)
        ensures
            memory@ == Seq::<(Seq<char>, Seq<char>)>::empty(),
    {
        let memory = ContextMemory { pairs: Vec::new() };
        proof {
            assert(memory@ =~= Seq::empty());
        }
        memory
    }

    /// Forgets everything.
    pub fn clear(&mut self)
        ensures
            final(self)@ == Seq::<(Seq<char>, Seq<char>)>::empty(),
    {
        self.pairs.clear();
        proof {
            assert(self@ =~= Seq::empty());
        }
    }

    /// Remembers a segment with its translation, and forgets what is too old.
    pub fn remember(&mut self, source: &str, translation: &str)
        ensures
            final(self)@ == last_pairs(old(self)@.push((source@, translation@))),
    {
        let pair = (source.to_owned(), translation.to_owned());
        let ghost all = self@.push((source@, translation@));
        self.pairs.push(pair);
        let ghost mut dropped: int = 0;
        proof {
            assert(self@ =~= all);
            assert(all.skip(0) =~= all);
        }
        while self.pairs.len() > CONTEXT_SEGMENTS
            invariant
                0 <= dropped,
                all.len() == self.pairs.len() + dropped,
                self@ == all.skip(dropped),
                dropped > 0 ==> self.pairs.len() >= CONTEXT_SEGMENTS,
            decreases self.pairs.len(),
        {
            let ghost before = self.pairs@;
            let _oldest = self.pairs.remove(0);
            proof {
                assert(self@ =~= pair_texts(before).skip(1));
                assert(all.skip(dropped).skip(1) =~= all.skip(dropped + 1));
                dropped = dropped + 1;
            }
        }
    }

    /// The segments that are remembered, with their translations.
    pub fn pairs(&self) -> (pairs: &Vec<(String, String)>)
        ensures
            pair_texts(pairs@) == self@,
    {
        &self.pairs
    }
}

// ---------------------------------------------------------------------------------
// The job
// ---------------------------------------------------------------------------------

/// What a job is about.
pub struct JobModel {
    pub request: StartModel,
    pub snapshot: SnapshotModel,
    pub started_at: u128,
}

impl JobModel {
    /// A caption of the segment in a phase of its way.
    pub open spec fn caption(
        self,
        phase: u64,
        state: CaptionState,
        source_text: Seq<char>,
        translation_text: Seq<char>,
        llm_applied: bool,
        latency_ms: u128,
    ) -> EventModel {
        EventModel::Caption {
            segment_id: self.snapshot.segment_id,
            revision: rank_of(self.snapshot.revision, phase),
            state,
            source_text,
            translation_text,
            source_language: self.request.source_language,
            target_language: self.request.target_language,
            llm_applied,
            latency_ms,
        }
    }

    /// The time that a caption gives: since the start, but no less than the model said
    /// it took.
    pub open spec fn latency(self, model_latency_ms: u128, now: u128) -> u128 {
        let waited = millis_between(self.started_at, now);
        if waited >= model_latency_ms {
            waited
        } else {
            model_latency_ms
        }
    }
}

/// The way of one segment, before it is in the words of the dictionary.
#[derive(Debug)]
pub struct SnapshotJob {
    request: StartSessionRequest,
    snapshot: SegmentSnapshot,
    started_at: u128,
}

impl View for SnapshotJob {
    type V = JobModel;

    closed spec fn view(&self) -> JobModel {
        JobModel {
            request: self.request@,
            snapshot: self.snapshot@,
            started_at: self.started_at,
        }
    }
}

/// A text that may be missing or an error of the dictionary, by their content.
pub open spec fn normalization_model(outcome: Result<Option<String>, DictionaryError>) -> Result<
    Option<Seq<char>>,
    DictionaryErrorModel,
> {
    match outcome {
        Ok(text) => Ok(optional_text(text)),
        Err(error) => Err(error@),
    }
}

/// The text to translate: in the words of the dictionary, or as it is if the dictionary
/// failed. There is none where the text cannot be searched for aliases.
pub open spec fn text_to_translate(
    source_text: Seq<char>,
    outcome: Result<Option<Seq<char>>, DictionaryErrorModel>,
) -> Option<Seq<char>> {
    match outcome {
        Ok(text) => text,
        Err(_) => Some(source_text),
    }
}

/// What is announced of what the dictionary made of a text.
pub open spec fn normalization_events(
    outcome: Result<Option<Seq<char>>, DictionaryErrorModel>,
) -> Seq<EventModel> {
    match outcome {
        Ok(_) => Seq::empty(),
        Err(error) => seq![dictionary_failure(error)],
    }
}

/// A segment in the words of the dictionary.
#[derive(Debug)]
pub struct NormalizedJob {
    job: SnapshotJob,
    normalized: String,
}

impl View for NormalizedJob {
    type V = (JobModel, Seq<char>);

    closed spec fn view(&self) -> (JobModel, Seq<char>) {
        (self.job@, self.normalized@)
    }
}

/// A segment with the entries of the dictionary that matter for it.
#[derive(Debug)]
pub struct PreparedJob {
    job: SnapshotJob,
    normalized: String,
    glossary: Vec<GlossaryEntry>,
}

impl View for PreparedJob {
    type V = (JobModel, Seq<char>, Seq<EntryModel>);

    closed spec fn view(&self) -> (JobModel, Seq<char>, Seq<EntryModel>) {
        (self.job@, self.normalized@, entry_models(self.glossary@))
    }
}

/// How a segment is translated.
#[derive(Debug)]
pub enum PlannedWork {
    /// As a whole, once, under a plan of the machine if it made one.
    Whole(Option<TranslationPlan>),
    /// In a window at its end, and in chunks that have left the window.
    Window(TranslationPlan),
}

/// The content of how a segment is translated.
pub enum WorkModel {
    Whole(Option<PlanModel>),
    Window(PlanModel),
}

impl View for PlannedWork {
    type V = WorkModel;

    open spec fn view(&self) -> WorkModel {
        match self {
            PlannedWork::Whole(plan) => WorkModel::Whole(optional_plan(*plan)),
            PlannedWork::Window(plan) => WorkModel::Window(plan@),
        }
    }
}

/// The content of a segment with how it is translated.
pub struct PlannedModel {
    pub job: JobModel,
    pub normalized: Seq<char>,
    pub glossary: Seq<EntryModel>,
    pub work: WorkModel,
}

/// The texts of chunks as the model gets them.
pub open spec fn model_texts(chunks: Seq<ChunkModel>) -> Seq<Seq<char>> {
    chunks.map_values(|chunk: ChunkModel| chunk.model_text)
}

impl PlannedModel {
    /// The texts that are translated: the whole text, or the chunks that leave the window
    /// and then the window.
    pub open spec fn texts(self) -> Seq<Seq<char>> {
        match self.work {
            WorkModel::Whole(_) => seq![self.normalized],
            WorkModel::Window(plan) => model_texts(plan.chunks_to_commit).push(
                plan.mutable_window,
            ),
        }
    }
}

/// A segment with how it is translated.
#[derive(Debug)]
pub struct PlannedJob {
    job: SnapshotJob,
    normalized: String,
    glossary: Vec<GlossaryEntry>,
    work: PlannedWork,
}

impl View for PlannedJob {
    type V = PlannedModel;

    closed spec fn view(&self) -> PlannedModel {
        PlannedModel {
            job: self.job@,
            normalized: self.normalized@,
            glossary: entry_models(self.glossary@),
            work: self.work@,
        }
    }
}

/// The content of a final segment with its draft.
pub struct DraftModel {
    pub job: JobModel,
    pub normalized: Seq<char>,
    pub glossary: Seq<EntryModel>,
    pub draft: OutputModel,
}

/// A final segment with its draft.
#[derive(Debug)]
pub struct DraftedJob {
    job: SnapshotJob,
    normalized: String,
    glossary: Vec<GlossaryEntry>,
    draft: TranslationOutput,
}

impl View for DraftedJob {
    type V = DraftModel;

    closed spec fn view(&self) -> DraftModel {
        DraftModel {
            job: self.job@,
            normalized: self.normalized@,
            glossary: entry_models(self.glossary@),
            draft: self.draft@,
        }
    }
}

impl SnapshotJob {
    /// The way of a segment that starts at a time.
    pub fn new(request: StartSessionRequest, snapshot: SegmentSnapshot, now: u128) -> (job: Self)
        ensures
            job@ == (JobModel { request: request@, snapshot: snapshot@, started_at: now }),
    {
        SnapshotJob { request, snapshot, started_at: now }
    }

    /// How the segment gets at the model.
    pub fn gate_mode(&self) -> (mode: GateMode)
        ensures
            mode == (if self@.snapshot.state == CaptionState::Final {
                GateMode::Wait
            } else {
                GateMode::TryNow
            }),
    {
        gate_mode(self.snapshot.state)
    }

    /// The recognised text.
    pub fn source_text(&self) -> (text: &str)
        ensures
            text@ == self@.snapshot.source_text,
    {
        self.snapshot.source_text.as_str()
    }

    /// The language that is spoken.
    pub fn source_language(&self) -> (language: &str)
        ensures
            language@ == self@.request.source_language,
    {
        self.request.source_language.as_str()
    }

    /// The language of the captions.
    pub fn target_language(&self) -> (language: &str)
        ensures
            language@ == self@.request.target_language,
    {
        self.request.target_language.as_str()
    }

    /// Goes on with what the dictionary made of the text. Returns what is announced, and
    /// the segment in its words, if its way goes on.
    pub fn normalize(self, outcome: Result<Option<String>, DictionaryError>) -> (next: (
        Vec<ServerEvent>,
        Option<NormalizedJob>,
    ))
        ensures
            event_models(next.0@) == normalization_events(normalization_model(outcome)),
            match next.1 {
                Some(job) => text_to_translate(
                    self@.snapshot.source_text,
                    normalization_model(outcome),
                ) == Some(job@.1) && job@.0 == self@,
                None => text_to_translate(
                    self@.snapshot.source_text,
                    normalization_model(outcome),
                ) is None,
            },
    {
        let mut events: Vec<ServerEvent> = Vec::new();
        proof {
            assert(event_models(events@) =~= Seq::empty());
        }
        match outcome {
            Ok(Some(normalized)) => (events, Some(NormalizedJob { job: self, normalized })),
            Ok(None) => (events, None),
            Err(error) => {
                push_event(&mut events, dictionary_error_event(&error));
                proof {
                    assert(event_models(events@) =~= seq![dictionary_failure(error@)]);
                }
                let normalized = self.snapshot.source_text.clone();
                (events, Some(NormalizedJob { job: self, normalized }))
            },
        }
    }

    /// Goes on with the dictionary: the text in its words, and the entries that matter
    /// for that. Returns what is announced, and the segment with its entries, if its way
    /// goes on.
    pub fn look_up(self, dictionary: &DictionaryStore) -> (next: (
        Vec<ServerEvent>,
        Option<PreparedJob>,
    ))
        ensures
            ({
                let language = self@.request.source_language;
                let text = self@.snapshot.source_text;
                match entries_of(dictionary@.rows) {
                    Ok(entries) => event_models(next.0@) == Seq::<EventModel>::empty() && match next.1 {
                        Some(job) => normalized(entries, text, language) == Some(job@.1) && job@.0
                            == self@ && job@.2 == at_most(
                            relevant_of(entries, job@.1, language, self@.request.target_language),
                            MAX_RELEVANT as nat,
                        ),
                        None => normalized(entries, text, language) is None,
                    },
                    Err(error) => event_models(next.0@) == seq![
                        dictionary_failure(error),
                        dictionary_failure(error),
                    ] && (next.1 matches Some(job) && job@ == (
                        self@,
                        text,
                        Seq::<EntryModel>::empty(),
                    )),
                }
            }),
    {
        let outcome = dictionary.normalize_source(self.source_text(), self.source_language());
        let (mut events, step) = self.normalize(outcome);
        match step {
            None => (events, None),
            Some(job) => {
                let relevant = dictionary.relevant(
                    job.normalized(),
                    job.job().source_language(),
                    job.job().target_language(),
                );
                let ghost before = event_models(events@);
                let (mut more, prepared) = job.prepare(relevant);
                let ghost added = event_models(more@);
                let ghost both = events@ + more@;
                events.append(&mut more);
                proof {
                    assert(event_models(both) =~= before + added);
                    assert(event_models(events@) =~= before + added);
                    if let Err(error) = entries_of(dictionary@.rows) {
                        assert(before + added =~= seq![
                            dictionary_failure(error),
                            dictionary_failure(error),
                        ]);
                    } else {
                        assert(before + added =~= Seq::empty());
                    }
                }
                (events, Some(prepared))
            },
        }
    }

    /// A caption of the segment in a phase of its way.
    fn caption(
        &self,
        phase: u64,
        state: CaptionState,
        source_text: &str,
        translation_text: &str,
        llm_applied: bool,
        latency_ms: u128,
    ) -> (event: ServerEvent)
        ensures
            event@ == self@.caption(
                phase,
                state,
                source_text@,
                translation_text@,
                llm_applied,
                latency_ms,
            ),
    {
        ServerEvent::Caption {
            segment_id: self.snapshot.segment_id,
            revision: event_revision(self.snapshot.revision, phase),
            state,
            source_text: source_text.to_owned(),
            translation_text: translation_text.to_owned(),
            source_language: self.request.source_language.clone(),
            target_language: self.request.target_language.clone(),
            llm_applied,
            latency_ms,
        }
    }

    /// The time that a caption gives.
    fn latency(&self, model_latency_ms: u128, now: u128) -> (latency_ms: u128)
        ensures
            latency_ms == self@.latency(model_latency_ms, now),
    {
        let waited = elapsed_ms(self.started_at, now);
        if waited >= model_latency_ms {
            waited
        } else {
            model_latency_ms
        }
    }
}

/// Entries or an error of the dictionary, by their content.
pub open spec fn glossary_model(outcome: Result<Vec<GlossaryEntry>, DictionaryError>) -> Result<
    Seq<EntryModel>,
    DictionaryErrorModel,
> {
    match outcome {
        Ok(entries) => Ok(entry_models(entries@)),
        Err(error) => Err(error@),
    }
}

impl NormalizedJob {
    /// The text in the words of the dictionary.
    pub fn normalized(&self) -> (text: &str)
        ensures
            text@ == self@.1,
    {
        self.normalized.as_str()
    }

    /// What the segment is about.
    pub fn job(&self) -> (job: &SnapshotJob)
        ensures
            job@ == self@.0,
    {
        &self.job
    }

    /// Goes on with the entries that matter for the text, or without any if the
    /// dictionary failed. Returns what is announced, and the segment with its entries.
    pub fn prepare(self, outcome: Result<Vec<GlossaryEntry>, DictionaryError>) -> (next: (
        Vec<ServerEvent>,
        PreparedJob,
    ))
        ensures
            match glossary_model(outcome) {
                Ok(entries) => event_models(next.0@) == Seq::<EventModel>::empty() && next.1@ == (
                    self@.0,
                    self@.1,
                    entries,
                ),
                Err(error) => event_models(next.0@) == seq![dictionary_failure(error)] && next.1@
                    == (self@.0, self@.1, Seq::<EntryModel>::empty()),
            },
    {
        let mut events: Vec<ServerEvent> = Vec::new();
        proof {
            assert(event_models(events@) =~= Seq::empty());
        }
        let glossary = match outcome {
            Ok(entries) => entries,
            Err(error) => {
                push_event(&mut events, dictionary_error_event(&error));
                proof {
                    assert(event_models(events@) =~= seq![dictionary_failure(error@)]);
                }
                let none: Vec<GlossaryEntry> = Vec::new();
                proof {
                    assert(entry_models(none@) =~= Seq::empty());
                }
                none
            },
        };
        (events, PreparedJob { job: self.job, normalized: self.normalized, glossary })
    }
}

/// The draft: what the translator gave, or the text itself if it failed.
pub open spec fn draft_of(
    normalized: Seq<char>,
    outcome: Result<OutputModel, TranslationErrorModel>,
) -> OutputModel {
    match outcome {
        Ok(output) => output,
        Err(_) => OutputModel { text: normalized, latency_ms: 0 },
    }
}

/// What is announced of a draft.
pub open spec fn draft_events(
    job: JobModel,
    normalized: Seq<char>,
    outcome: Result<OutputModel, TranslationErrorModel>,
    now: u128,
) -> Seq<EventModel> {
    let draft = draft_of(normalized, outcome);
    (match outcome {
        Ok(_) => Seq::empty(),
        Err(error) => seq![
            EventModel::Error { code: "translation_failed"@, message: error.text() },
        ],
    }).push(
        job.caption(
            1,
            CaptionState::Draft,
            normalized,
            draft.text,
            false,
            job.latency(draft.latency_ms, now),
        ),
    )
}

impl PreparedJob {
    /// The text in the words of the dictionary.
    pub fn normalized(&self) -> (text: &str)
        ensures
            text@ == self@.1,
    {
        self.normalized.as_str()
    }

    /// The entries of the dictionary that matter for the text.
    pub fn glossary(&self) -> (glossary: &Vec<GlossaryEntry>)
        ensures
            entry_models(glossary@) == self@.2,
    {
        &self.glossary
    }

    /// What the segment is about.
    pub fn job(&self) -> (job: &SnapshotJob)
        ensures
            job@ == self@.0,
    {
        &self.job
    }

    /// Puts the text to the machine, which says how it is translated: final text as a
    /// whole, and running text in a window. The way of running text that is not new to the
    /// machine ends here.
    pub fn plan(self, machine: &mut TranslationStateMachine) -> (next: Option<PlannedJob>)
        requires
            old(machine)@.valid(),
        ensures
            final(machine)@.valid(),
            final(machine)@ == work_planned(old(machine)@, self@.0, self@.1).0,
            match next {
                Some(planned) => work_planned(old(machine)@, self@.0, self@.1).1 == Some(
                    planned@.work,
                ) && planned@.job == self@.0 && planned@.normalized == self@.1
                    && planned@.glossary == self@.2,
                None => work_planned(old(machine)@, self@.0, self@.1).1 is None,
            },
    {
        let is_final = self.job.snapshot.state == CaptionState::Final;
        let plan = machine.begin(
            self.job.snapshot.segment_id,
            self.job.snapshot.revision,
            self.normalized.as_str(),
            self.job.source_language(),
            is_final,
        );
        let work = if is_final {
            PlannedWork::Whole(plan)
        } else {
            match plan {
                Some(plan) => PlannedWork::Window(plan),
                None => {
                    return None;
                },
            }
        };
        Some(
            PlannedJob {
                job: self.job,
                normalized: self.normalized,
                glossary: self.glossary,
                work,
            },
        )
    }
}

/// The state of the machine once a text was put to it, and how the text is translated, if
/// it is.
pub open spec fn work_planned(machine: MachineModel, job: JobModel, normalized: Seq<char>) -> (
    MachineModel,
    Option<WorkModel>,
) {
    let is_final = job.snapshot.state == CaptionState::Final;
    let (after, plan) = machine.begun(
        job.snapshot.segment_id,
        job.snapshot.revision,
        normalized,
        job.request.source_language,
        is_final,
    );
    (
        after,
        if is_final {
            Some(WorkModel::Whole(plan))
        } else {
            match plan {
                Some(plan) => Some(WorkModel::Window(plan)),
                None => None,
            }
        },
    )
}

/// The contents of the outcomes of some translations.
pub open spec fn answer_models(answers: Seq<Result<TranslationOutput, TranslationError>>) -> Seq<
    Result<OutputModel, TranslationErrorModel>,
> {
    answers.map_values(
        |answer: Result<TranslationOutput, TranslationError>| translation_outcome(answer),
    )
}

/// The first `count` translations, or why the first of them that failed did. One that is
/// missing is one whose worker stopped.
pub open spec fn gathered(answers: Seq<Result<OutputModel, TranslationErrorModel>>, count: nat) -> Result<
    Seq<OutputModel>,
    TranslationErrorModel,
>
    decreases count,
{
    if count == 0 {
        Ok(Seq::empty())
    } else {
        match gathered(answers, (count - 1) as nat) {
            Err(error) => Err(error),
            Ok(before) => if count > answers.len() {
                Err(TranslationErrorModel::Stopped)
            } else {
                match answers[count - 1] {
                    Ok(output) => Ok(before.push(output)),
                    Err(error) => Err(error),
                }
            },
        }
    }
}

/// The texts of some translations.
pub open spec fn output_texts(outputs: Seq<OutputModel>) -> Seq<Seq<char>> {
    outputs.map_values(|output: OutputModel| output.text)
}

/// The time that some translations took together, as far as it can be told.
pub open spec fn total_latency(outputs: Seq<OutputModel>) -> u128
    decreases outputs.len(),
{
    if outputs.len() == 0 {
        0
    } else {
        let total = total_latency(outputs.drop_last()) + outputs.last().latency_ms;
        if total <= u128::MAX {
            total as u128
        } else {
            u128::MAX
        }
    }
}

/// Takes the first of some outcomes. One that is missing is one whose worker stopped.
fn next_answer(rest: &mut Vec<Result<TranslationOutput, TranslationError>>) -> (answer: Result<
    TranslationOutput,
    TranslationError,
>)
    ensures
        old(rest)@.len() == 0 ==> translation_outcome(answer) == Err::<
            OutputModel,
            TranslationErrorModel,
        >(TranslationErrorModel::Stopped) && final(rest)@ == old(rest)@,
        old(rest)@.len() > 0 ==> answer == old(rest)@[0] && final(rest)@ == old(rest)@.skip(1),
{
    if rest.len() == 0 {
        return Err(TranslationError::Stopped);
    }
    let ghost before = rest@;
    let answer = rest.remove(0);
    proof {
        assert(rest@ =~= before.skip(1));
    }
    answer
}

/// What is added to the translations that were gathered by the next outcome.
proof fn lemma_gathered_next(
    answers: Seq<Result<TranslationOutput, TranslationError>>,
    i: nat,
    answer: Result<TranslationOutput, TranslationError>,
)
    requires
        gathered(answer_models(answers), i) is Ok,
        i <= answers.len(),
        i < answers.len() ==> answer == answers[i as int],
        i == answers.len() ==> translation_outcome(answer) == Err::<
            OutputModel,
            TranslationErrorModel,
        >(TranslationErrorModel::Stopped),
    ensures
        ({
            let outputs = gathered(answer_models(answers), i)->Ok_0;
            match answer {
                Ok(output) => i < answers.len() && gathered(answer_models(answers), i + 1) == Ok::<
                    Seq<OutputModel>,
                    TranslationErrorModel,
                >(outputs.push(output@)) && output_texts(outputs.push(output@)) == output_texts(
                    outputs,
                ).push(output.text@) && total_latency(outputs.push(output@)) == (if total_latency(
                    outputs,
                ) + output.latency_ms <= u128::MAX {
                    (total_latency(outputs) + output.latency_ms) as u128
                } else {
                    u128::MAX
                }),
                Err(error) => gathered(answer_models(answers), i + 1) == Err::<
                    Seq<OutputModel>,
                    TranslationErrorModel,
                >(error@),
            }
        }),
{
    let outputs = gathered(answer_models(answers), i)->Ok_0;
    assert(answer_models(answers).len() == answers.len());
    if i < answers.len() {
        assert(answer_models(answers)[i as int] == translation_outcome(answer));
    }
    if let Ok(output) = answer {
        assert(outputs.push(output@).drop_last() =~= outputs);
        assert(output_texts(outputs.push(output@)) =~= output_texts(outputs).push(output.text@));
    }
}

/// The sum of two times, as far as it can be told.
fn added(total: u128, latency_ms: u128) -> (sum: u128)
    ensures
        sum == (if total + latency_ms <= u128::MAX {
            (total + latency_ms) as u128
        } else {
            u128::MAX
        }),
{
    if latency_ms <= u128::MAX - total {
        total + latency_ms
    } else {
        u128::MAX
    }
}

/// Gathers the translations of the chunks and the one that follows, and the time they took.
fn gather(answers: Vec<Result<TranslationOutput, TranslationError>>, chunks: usize) -> (outcome:
    Result<(Vec<String>, TranslationOutput), TranslationError>)
    ensures
        match outcome {
            Ok((found, last)) => gathered(answer_models(answers@), (chunks + 1) as nat) matches Ok(
                outputs,
            ) && outputs.len() == chunks + 1 && texts(found@) == output_texts(outputs.drop_last())
                && last.text@ == outputs.last().text && last.latency_ms == total_latency(outputs),
            Err(error) => gathered(answer_models(answers@), (chunks + 1) as nat) == Err::<
                Seq<OutputModel>,
                TranslationErrorModel,
            >(error@),
        },
{
    let ghost all = answer_models(answers@);
    let mut found: Vec<String> = Vec::new();
    let mut latency_ms: u128 = 0;
    let mut rest = answers;
    let mut i: usize = 0;
    proof {
        assert(texts(found@) =~= output_texts(Seq::empty()));
        assert(rest@ =~= answers@.skip(0));
    }
    while i < chunks
        invariant
            i <= chunks,
            i <= answers@.len(),
            all == answer_models(answers@),
            rest@ == answers@.skip(i as int),
            gathered(all, i as nat) is Ok,
            gathered(all, i as nat)->Ok_0.len() == i,
            texts(found@) == output_texts(gathered(all, i as nat)->Ok_0),
            latency_ms == total_latency(gathered(all, i as nat)->Ok_0),
        decreases chunks - i,
    {
        let answer = next_answer(&mut rest);
        proof {
            lemma_gathered_next(answers@, i as nat, answer);
            if i < answers@.len() {
                assert(answers@.skip(i as int).skip(1) =~= answers@.skip(i + 1));
            }
        }
        match answer {
            Ok(output) => {
                latency_ms = added(latency_ms, output.latency_ms);
                proof {
                    lemma_texts_push(found@, output.text);
                }
                found.push(output.text);
            },
            Err(error) => {
                proof {
                    lemma_gathered_failure(all, (i + 1) as nat, (chunks + 1) as nat);
                }
                return Err(error);
            },
        }
        i = i + 1;
    }
    let answer = next_answer(&mut rest);
    proof {
        lemma_gathered_next(answers@, chunks as nat, answer);
    }
    match answer {
        Ok(output) => {
            proof {
                let outputs = gathered(all, chunks as nat)->Ok_0;
                assert(outputs.push(output@).drop_last() =~= outputs);
            }
            Ok(
                (
                    found,
                    TranslationOutput {
                        latency_ms: added(latency_ms, output.latency_ms),
                        text: output.text,
                    },
                ),
            )
        },
        Err(error) => Err(error),
    }
}

/// A failure stays the first one, however many translations are wanted.
proof fn lemma_gathered_failure(
    answers: Seq<Result<OutputModel, TranslationErrorModel>>,
    count: nat,
    more: nat,
)
    requires
        count <= more,
        gathered(answers, count) is Err,
    ensures
        gathered(answers, more) == gathered(answers, count),
    decreases more,
{
    if count < more {
        lemma_gathered_failure(answers, count, (more - 1) as nat);
    }
}

/// The state of the machine once it has the translations, and the text of the draft: the
/// translation of the whole text, or what the machine makes of the window with what it
/// keeps. There is none where the machine has gone on.
pub open spec fn assembled(
    machine: MachineModel,
    planned: PlannedModel,
    outputs: Seq<OutputModel>,
) -> (MachineModel, Option<Seq<char>>) {
    match planned.work {
        WorkModel::Whole(plan) => (
            match plan {
                Some(plan) => machine.final_finished(plan, outputs[0].text).0,
                None => machine,
            },
            Some(outputs[0].text),
        ),
        WorkModel::Window(plan) => machine.window_finished(
            plan,
            output_texts(outputs.drop_last()),
            outputs.last().text,
            planned.job.request.target_language,
        ),
    }
}

/// The state of the machine once it has the outcomes of the translations, and the outcome
/// for the segment, if there is any. A failure leaves the machine as it is.
pub open spec fn drafted(
    machine: MachineModel,
    planned: PlannedModel,
    answers: Seq<Result<OutputModel, TranslationErrorModel>>,
) -> (MachineModel, Option<Result<OutputModel, TranslationErrorModel>>) {
    match gathered(answers, planned.texts().len()) {
        Err(error) => (machine, Some(Err(error))),
        Ok(outputs) => {
            let (after, text) = assembled(machine, planned, outputs);
            (
                after,
                match text {
                    Some(text) => Some(
                        Ok(OutputModel { text, latency_ms: total_latency(outputs) }),
                    ),
                    None => None,
                },
            )
        },
    }
}

impl PlannedJob {
    /// The entries of the dictionary that matter for the text.
    pub fn glossary(&self) -> (glossary: &Vec<GlossaryEntry>)
        ensures
            entry_models(glossary@) == self@.glossary,
    {
        &self.glossary
    }

    /// What the segment is about.
    pub fn job(&self) -> (job: &SnapshotJob)
        ensures
            job@ == self@.job,
    {
        &self.job
    }

    /// A text that is translated, if there are so many.
    pub fn text(&self, index: usize) -> (text: Option<&str>)
        ensures
            match text {
                Some(text) => index < self@.texts().len() && text@ == self@.texts()[index as int],
                None => index >= self@.texts().len(),
            },
    {
        match &self.work {
            PlannedWork::Whole(_) => if index == 0 {
                Some(self.normalized.as_str())
            } else {
                None
            },
            PlannedWork::Window(plan) => {
                let chunks = &plan.chunks_to_commit;
                proof {
                    assert(self@.texts().len() == chunks@.len() + 1);
                    if index < chunks@.len() {
                        assert(self@.texts()[index as int] == chunks@[index as int].model_text@);
                    }
                }
                if index < chunks.len() {
                    Some(chunks[index].model_text.as_str())
                } else if index == chunks.len() {
                    Some(plan.mutable_window.as_str())
                } else {
                    None
                }
            },
        }
    }

    /// What the translation of a text does first, if there are so many texts.
    pub fn ask(&self, index: usize, translator: &PythonMarianTranslator) -> (step: Option<
        TranslationStep,
    >)
        ensures
            match step {
                Some(step) => index < self@.texts().len() && match step {
                    TranslationStep::Done(output) => exact_translation(
                        self@.texts()[index as int],
                        self@.glossary,
                    ) == Some(output.text@) && output.latency_ms == 0,
                    TranslationStep::Ask(request) => exact_translation(
                        self@.texts()[index as int],
                        self@.glossary,
                    ) is None && is_random_id(request.id) && request@ == request_of(
                        request.id,
                        self@.texts()[index as int],
                        self@.job.request.source_language,
                        self@.job.request.target_language,
                        self@.glossary,
                    ),
                },
                None => index >= self@.texts().len(),
            },
    {
        match self.text(index) {
            Some(text) => Some(
                translator.translate(
                    text,
                    self.job.source_language(),
                    self.job.target_language(),
                    self.glossary.as_slice(),
                ),
            ),
            None => None,
        }
    }

    /// Goes on with the translations, which the machine puts together. Returns what is
    /// announced, and the segment with its draft if it is a final one: the way of any other
    /// ends here.
    pub fn draft(
        self,
        machine: &mut TranslationStateMachine,
        answers: Vec<Result<TranslationOutput, TranslationError>>,
        now: u128,
    ) -> (next: (Vec<ServerEvent>, Option<DraftedJob>))
        ensures
            old(machine)@.valid() ==> final(machine)@.valid(),
            ({
                let (after, outcome) = drafted(old(machine)@, self@, answer_models(answers@));
                &&& final(machine)@ == after
                &&& event_models(next.0@) == (match outcome {
                    Some(outcome) => draft_events(self@.job, self@.normalized, outcome, now),
                    None => Seq::empty(),
                })
                &&& match next.1 {
                    Some(job) => self@.work is Whole && outcome is Some && job@ == (DraftModel {
                        job: self@.job,
                        normalized: self@.normalized,
                        glossary: self@.glossary,
                        draft: draft_of(self@.normalized, outcome->0),
                    }),
                    None => self@.work is Window,
                }
            }),
    {
        let chunks: usize = match &self.work {
            PlannedWork::Whole(_) => 0,
            PlannedWork::Window(plan) => plan.chunks_to_commit.len(),
        };
        proof {
            assert(self@.texts().len() == chunks + 1);
        }
        let outcome = match gather(answers, chunks) {
            Err(error) => Some(Err(error)),
            Ok((found, last)) => match &self.work {
                PlannedWork::Whole(plan) => {
                    if let Some(plan) = plan {
                        let _kept = machine.finish_final(plan, last.text.as_str());
                    }
                    Some(Ok(last))
                },
                PlannedWork::Window(plan) => match machine.finish_window(
                    plan,
                    found.as_slice(),
                    last.text.as_str(),
                    self.job.target_language(),
                ) {
                    Some(text) => Some(
                        Ok(TranslationOutput { text, latency_ms: last.latency_ms }),
                    ),
                    None => None,
                },
            },
        };
        match outcome {
            Some(outcome) => self.announce(outcome, now),
            None => {
                let events: Vec<ServerEvent> = Vec::new();
                proof {
                    assert(event_models(events@) =~= Seq::empty());
                }
                (events, None)
            },
        }
    }

    /// Announces the draft.
    fn announce(self, outcome: Result<TranslationOutput, TranslationError>, now: u128) -> (next: (
        Vec<ServerEvent>,
        Option<DraftedJob>,
    ))
        ensures
            event_models(next.0@) == draft_events(
                self@.job,
                self@.normalized,
                translation_outcome(outcome),
                now,
            ),
            match next.1 {
                Some(job) => self@.work is Whole && job@ == (DraftModel {
                    job: self@.job,
                    normalized: self@.normalized,
                    glossary: self@.glossary,
                    draft: draft_of(self@.normalized, translation_outcome(outcome)),
                }),
                None => self@.work is Window,
            },
    {
        let mut events: Vec<ServerEvent> = Vec::new();
        proof {
            assert(event_models(events@) =~= Seq::empty());
        }
        let draft = match outcome {
            Ok(output) => output,
            Err(error) => {
                push_event(&mut events, error_event("translation_failed", error.message()));
                TranslationOutput { text: self.normalized.clone(), latency_ms: 0 }
            },
        };
        let latency_ms = self.job.latency(draft.latency_ms, now);
        push_event(
            &mut events,
            self.job.caption(
                1,
                CaptionState::Draft,
                self.normalized.as_str(),
                draft.text.as_str(),
                false,
                latency_ms,
            ),
        );
        proof {
            assert(event_models(events@) =~= draft_events(
                self@.job,
                self@.normalized,
                translation_outcome(outcome),
                now,
            ));
        }
        match self.work {
            PlannedWork::Whole(_) => (
                events,
                Some(
                    DraftedJob {
                        job: self.job,
                        normalized: self.normalized,
                        glossary: self.glossary,
                        draft,
                    },
                ),
            ),
            PlannedWork::Window(_) => (events, None),
        }
    }
}

/// The final translation, and whether the language model had a part in it.
pub open spec fn final_translation(draft: OutputModel, outcome: Result<LlmOutput, LlmError>) -> (
    Seq<char>,
    bool,
) {
    match outcome {
        Ok(output) => (output.text@, output.applied),
        Err(_) => (draft.text, false),
    }
}

/// The source text that stays: as the language model corrected it, if it did.
pub open spec fn final_source(normalized: Seq<char>, outcome: Result<LlmOutput, LlmError>) -> Seq<
    char,
> {
    match outcome {
        Ok(output) => match output.corrected_source {
            Some(corrected) => corrected@,
            None => normalized,
        },
        Err(_) => normalized,
    }
}

/// What is announced of a final translation.
pub open spec fn final_events(
    model: DraftModel,
    outcome: Result<LlmOutput, LlmError>,
    now: u128,
) -> Seq<EventModel> {
    let (text, applied) = final_translation(model.draft, outcome);
    (match outcome {
        Ok(_) => Seq::empty(),
        Err(error) => seq![
            EventModel::Error { code: "llm_refinement_failed"@, message: error.text() },
        ],
    }).push(
        model.job.caption(
            2,
            CaptionState::Final,
            final_source(model.normalized, outcome),
            text,
            applied,
            model.job.latency(model.draft.latency_ms, now),
        ),
    )
}

impl DraftedJob {
    /// What the refinement works on.
    pub fn refinement_input<'a>(
        &'a self,
        context: &'a ContextMemory,
        reference_document: Option<&'a str>,
    ) -> (input: LlmRefinementInput<'a>)
        ensures
            input@ == (InputModel {
                source_text: self@.normalized,
                draft_translation: self@.draft.text,
                source_language: self@.job.request.source_language,
                target_language: self@.job.request.target_language,
                previous_context: context@,
                glossary: self@.glossary,
                reference_document: borrowed_text(reference_document),
            }),
    {
        LlmRefinementInput {
            source_text: self.normalized.as_str(),
            draft_translation: self.draft.text.as_str(),
            source_language: self.job.source_language(),
            target_language: self.job.target_language(),
            previous_context: context.pairs().as_slice(),
            glossary: self.glossary.as_slice(),
            reference_document,
        }
    }

    /// Ends the way with the refinement. The segment and its translation become context
    /// of the next ones. Returns what is announced.
    pub fn finish(
        self,
        outcome: Result<LlmOutput, LlmError>,
        context: &mut ContextMemory,
        now: u128,
    ) -> (events: Vec<ServerEvent>)
        ensures
            event_models(events@) == final_events(self@, outcome, now),
            final(context)@ == last_pairs(
                old(context)@.push(
                    (
                        final_source(self@.normalized, outcome),
                        final_translation(self@.draft, outcome).0,
                    ),
                ),
            ),
    {
        let mut events: Vec<ServerEvent> = Vec::new();
        proof {
            assert(event_models(events@) =~= Seq::empty());
        }
        let latency_ms = self.job.latency(self.draft.latency_ms, now);
        let (source_text, translation_text, llm_applied) = match outcome {
            Ok(output) => (
                match output.corrected_source {
                    Some(corrected) => corrected,
                    None => self.normalized.clone(),
                },
                output.text,
                output.applied,
            ),
            Err(error) => {
                push_event(&mut events, error_event("llm_refinement_failed", error.message()));
                (self.normalized.clone(), self.draft.text.clone(), false)
            },
        };
        context.remember(source_text.as_str(), translation_text.as_str());
        push_event(
            &mut events,
            self.job.caption(
                2,
                CaptionState::Final,
                source_text.as_str(),
                translation_text.as_str(),
                llm_applied,
                latency_ms,
            ),
        );
        proof {
            assert(event_models(events@) =~= final_events(self@, outcome, now));
        }
        events
    }
}

// ---------------------------------------------------------------------------------
// Laws
// ---------------------------------------------------------------------------------

/// Whatever fails, what is announced of a translation ends with a draft caption; if the
/// translator fails it shows the recognised text.
pub proof fn law_every_segment_gets_a_draft(
    job: JobModel,
    normalized: Seq<char>,
    outcome: Result<OutputModel, TranslationErrorModel>,
    now: u128,
)
    ensures
        draft_events(job, normalized, outcome, now).len() > 0,
        draft_events(job, normalized, outcome, now).last() matches EventModel::Caption {
            segment_id,
            revision,
            state,
            source_text,
            translation_text,
            ..
        } && {
            &&& segment_id == job.snapshot.segment_id
            &&& revision == rank_of(job.snapshot.revision, 1)
            &&& state == CaptionState::Draft
            &&& source_text == normalized
            &&& outcome is Err ==> translation_text == normalized
        },
{
}

/// Running text is translated in its window alone, and the caption shows that behind what
/// was translated before: what is asked for are the chunks that have become stable and the
/// window, and the draft is what the machine keeps, the chunks and the window, joined in
/// that order.
pub proof fn law_running_text_is_translated_in_its_window(
    machine: MachineModel,
    job: JobModel,
    normalized: Seq<char>,
    glossary: Seq<EntryModel>,
    outputs: Seq<OutputModel>,
)
    requires
        job.snapshot.state != CaptionState::Final,
    ensures
        ({
            let (current, work) = work_planned(machine, job, normalized);
            work matches Some(work) ==> {
                let planned = PlannedModel { job, normalized, glossary, work };
                &&& work matches WorkModel::Window(plan)
                &&& planned.texts() == model_texts(plan.chunks_to_commit).push(plan.mutable_window)
                &&& outputs.len() == planned.texts().len() ==> assembled(
                    current,
                    planned,
                    outputs,
                ).1 == Some(
                    joined_translation(
                        extended_translation(
                            current.committed_translation,
                            output_texts(outputs.drop_last()),
                            job.request.target_language,
                        ),
                        outputs.last().text,
                        job.request.target_language,
                    ),
                )
            }
        }),
{
    let (current, work) = work_planned(machine, job, normalized);
    if let Some(WorkModel::Window(plan)) = work {
        if outputs.len() == model_texts(plan.chunks_to_commit).len() + 1 {
            assert(output_texts(outputs.drop_last()).len() == plan.chunks_to_commit.len());
            law_current_window_is_taken(
                machine,
                job.snapshot.segment_id,
                job.snapshot.revision,
                normalized,
                job.request.source_language,
                output_texts(outputs.drop_last()),
                outputs.last().text,
                job.request.target_language,
            );
        }
    }
}

/// Final text always gets to the model, as a whole and once, and its draft is the
/// translation of the whole.
pub proof fn law_final_text_is_translated_as_a_whole(
    machine: MachineModel,
    job: JobModel,
    normalized: Seq<char>,
    glossary: Seq<EntryModel>,
    outputs: Seq<OutputModel>,
)
    requires
        job.snapshot.state == CaptionState::Final,
        outputs.len() == 1,
    ensures
        ({
            let (current, work) = work_planned(machine, job, normalized);
            work matches Some(work) && {
                let planned = PlannedModel { job, normalized, glossary, work };
                &&& planned.texts() == seq![normalized]
                &&& assembled(current, planned, outputs).1 == Some(outputs[0].text)
            }
        }),
{
}

/// Whatever fails, a final segment with a draft gets a final caption as the last thing
/// that is announced of it; if the refinement fails it shows the draft.
pub proof fn law_every_final_segment_gets_a_final_caption(
    model: DraftModel,
    outcome: Result<LlmOutput, LlmError>,
    now: u128,
)
    ensures
        final_events(model, outcome, now).len() > 0,
        final_events(model, outcome, now).last() matches EventModel::Caption {
            segment_id,
            revision,
            state,
            source_text,
            translation_text,
            llm_applied,
            ..
        } && {
            &&& segment_id == model.job.snapshot.segment_id
            &&& revision == rank_of(model.job.snapshot.revision, 2)
            &&& state == CaptionState::Final
            &&& source_text == final_source(model.normalized, outcome)
            &&& outcome is Err ==> source_text == model.normalized && translation_text
                == model.draft.text && !llm_applied
        },
{
}

/// No more segments are remembered than are used as context, and the newest is always
/// among them.
pub proof fn law_context_is_short(
    pairs: Seq<(Seq<char>, Seq<char>)>,
    pair: (Seq<char>, Seq<char>),
)
    ensures
        last_pairs(pairs.push(pair)).len() <= CONTEXT_SEGMENTS,
        last_pairs(pairs.push(pair)).last() == pair,
{
}

/// The time since the start of a job in whole milliseconds, but no less than the model
/// took.
pub open spec fn is_time_taken(time: u128, job: JobModel, model_ms: u128, now: u128) -> bool {
    let waited = if now >= job.started_at {
        (now - job.started_at) / 1_000_000
    } else {
        0
    };
    time >= model_ms && time >= waited && (time == model_ms || time == waited)
}

/// What is announced of a translation is the caption with the text and its translation and
/// nothing else; where there is no translation, why there is none, and then the caption with
/// the text for its translation.
pub proof fn law_draft_caption_shows_the_translation(
    job: JobModel,
    normalized: Seq<char>,
    output: OutputModel,
    error: TranslationErrorModel,
    now: u128,
)
    ensures
        exists|time: u128|
            #[trigger] is_time_taken(time, job, output.latency_ms, now) && draft_events(
                job,
                normalized,
                Ok(output),
                now,
            ) == seq![
                (EventModel::Caption {
                    segment_id: job.snapshot.segment_id,
                    revision: rank_of(job.snapshot.revision, 1),
                    state: CaptionState::Draft,
                    source_text: normalized,
                    translation_text: output.text,
                    source_language: job.request.source_language,
                    target_language: job.request.target_language,
                    llm_applied: false,
                    latency_ms: time,
                }),
            ],
        exists|time: u128|
            #[trigger] is_time_taken(time, job, 0, now) && draft_events(job, normalized, Err(error), now)
                == seq![
                EventModel::Error { code: "translation_failed"@, message: error.text() },
                (EventModel::Caption {
                    segment_id: job.snapshot.segment_id,
                    revision: rank_of(job.snapshot.revision, 1),
                    state: CaptionState::Draft,
                    source_text: normalized,
                    translation_text: normalized,
                    source_language: job.request.source_language,
                    target_language: job.request.target_language,
                    llm_applied: false,
                    latency_ms: time,
                }),
            ],
        draft_of(normalized, Ok(output)) == output,
        draft_of(normalized, Err(error)).text == normalized,
{
    let time = job.latency(output.latency_ms, now);
    let shown = job.caption(1, CaptionState::Draft, normalized, output.text, false, time);
    assert(is_time_taken(time, job, output.latency_ms, now));
    assert(draft_events(job, normalized, Ok(output), now) =~= seq![shown]);
    let late = job.latency(0, now);
    let kept = job.caption(1, CaptionState::Draft, normalized, normalized, false, late);
    let failure = EventModel::Error { code: "translation_failed"@, message: error.text() };
    assert(is_time_taken(late, job, 0, now));
    assert(draft_events(job, normalized, Err(error), now) =~= seq![failure, kept]);
}

/// What is announced of a refinement is the final caption with what came of it and nothing
/// else; where there is none, why there is none, and then the final caption with the draft.
pub proof fn law_final_caption_shows_the_refinement(
    model: DraftModel,
    outcome: Result<LlmOutput, LlmError>,
    now: u128,
)
    ensures
        exists|time: u128|
            #[trigger] is_time_taken(time, model.job, model.draft.latency_ms, now) && final_events(
                model,
                outcome,
                now,
            ) == (match outcome {
                Ok(_) => Seq::empty(),
                Err(error) => seq![
                    EventModel::Error { code: "llm_refinement_failed"@, message: error.text() },
                ],
            }) + seq![
                (EventModel::Caption {
                    segment_id: model.job.snapshot.segment_id,
                    revision: rank_of(model.job.snapshot.revision, 2),
                    state: CaptionState::Final,
                    source_text: match outcome {
                        Ok(output) => match output.corrected_source {
                            Some(corrected) => corrected@,
                            None => model.normalized,
                        },
                        Err(_) => model.normalized,
                    },
                    translation_text: match outcome {
                        Ok(output) => output.text@,
                        Err(_) => model.draft.text,
                    },
                    source_language: model.job.request.source_language,
                    target_language: model.job.request.target_language,
                    llm_applied: outcome matches Ok(output) && output.applied,
                    latency_ms: time,
                }),
            ],
{
    let time = model.job.latency(model.draft.latency_ms, now);
    let (text, applied) = final_translation(model.draft, outcome);
    let source = final_source(model.normalized, outcome);
    let shown = model.job.caption(2, CaptionState::Final, source, text, applied, time);
    assert(is_time_taken(time, model.job, model.draft.latency_ms, now));
    assert(final_events(model, outcome, now).last() == shown);
    assert(final_events(model, outcome, now) =~= (match outcome {
        Ok(_) => Seq::empty(),
        Err(error) => seq![
            EventModel::Error { code: "llm_refinement_failed"@, message: error.text() },
        ],
    }) + seq![shown]);
}

/// Translations are gathered in the order in which they were asked for, and all of them; the
/// first that failed, or that is missing, is why there are none.
pub proof fn law_all_answers_are_gathered(
    answers: Seq<Result<OutputModel, TranslationErrorModel>>,
    count: nat,
)
    ensures
        match gathered(answers, count) {
            Ok(outputs) => outputs.len() == count && count <= answers.len() && forall|i: int|
                0 <= i < count ==> answers[i] == Ok::<OutputModel, TranslationErrorModel>(
                    #[trigger] outputs[i],
                ),
            Err(error) => exists|i: int|
                0 <= i < count && i <= answers.len() && (if i == answers.len() {
                    error is Stopped
                } else {
                    answers[i] == Err::<OutputModel, TranslationErrorModel>(error)
                }) && #[trigger] are_answered(answers, i),
        },
    decreases count,
{
    if count > 0 {
        let before = (count - 1) as nat;
        law_all_answers_are_gathered(answers, before);
        match gathered(answers, before) {
            Ok(outputs) => {
                assert(are_answered(answers, before as int)) by {
                    assert forall|j: int| 0 <= j < before implies #[trigger] answers[j] is Ok by {
                        assert(answers[j] == Ok::<OutputModel, TranslationErrorModel>(outputs[j]));
                    }
                }
                if let Ok(all) = gathered(answers, count) {
                    assert forall|i: int| 0 <= i < count implies answers[i] == Ok::<
                        OutputModel,
                        TranslationErrorModel,
                    >(#[trigger] all[i]) by {
                        if i < before {
                            assert(all[i] == outputs[i]);
                        }
                    }
                }
            },
            Err(_) => {},
        }
    }
}

/// Whether the first translations are there.
pub open spec fn are_answered(
    answers: Seq<Result<OutputModel, TranslationErrorModel>>,
    count: int,
) -> bool {
    forall|j: int| 0 <= j < count ==> #[trigger] answers[j] is Ok
}

/// The time that translations took is the time of each of them added up, up to the largest
/// number there is.
pub proof fn law_times_add_up(outputs: Seq<OutputModel>, output: OutputModel)
    ensures
        total_latency(Seq::empty()) == 0,
        total_latency(outputs) + output.latency_ms <= u128::MAX ==> total_latency(
            outputs.push(output),
        ) == total_latency(outputs) + output.latency_ms,
        total_latency(outputs) + output.latency_ms > u128::MAX ==> total_latency(
            outputs.push(output),
        ) == u128::MAX,
{
    assert(outputs.push(output).drop_last() =~= outputs);
}

/// The draft of a whole text is its one translation, and that of running text is what the
/// machine makes of the translations of the chunks and of the window, in the order in which
/// they were asked for. A failure leaves the machine as it is.
pub proof fn law_answers_make_the_draft(
    machine: MachineModel,
    planned: PlannedModel,
    answers: Seq<Result<OutputModel, TranslationErrorModel>>,
    said: Seq<Seq<char>>,
)
    requires
        said.len() == planned.texts().len(),
    ensures
        (forall|i: int|
            0 <= i < said.len() ==> i < answers.len() && (#[trigger] answers[i] matches Ok(output)
                && output.text == said[i])) ==> match planned.work {
            WorkModel::Whole(_) => drafted(machine, planned, answers).1 matches Some(Ok(output))
                && output.text == said[0] && output.latency_ms == answers[0]->Ok_0.latency_ms,
            WorkModel::Window(plan) => {
                let (after, text) = machine.window_finished(
                    plan,
                    said.drop_last(),
                    said.last(),
                    planned.job.request.target_language,
                );
                &&& drafted(machine, planned, answers).0 == after
                &&& text is None ==> drafted(machine, planned, answers).1 is None
                &&& text matches Some(text) ==> (drafted(machine, planned, answers).1 matches Some(
                    Ok(output),
                ) && output.text == text)
            },
        },
        (exists|i: int|
            0 <= i < said.len() && (i < answers.len() ==> #[trigger] answers[i] is Err)) ==> drafted(
            machine,
            planned,
            answers,
        ).0 == machine && drafted(machine, planned, answers).1 matches Some(Err(_)),
{
    let count = planned.texts().len();
    law_all_answers_are_gathered(answers, count);
    match gathered(answers, count) {
        Ok(outputs) => {
            assert forall|i: int| 0 <= i < count implies #[trigger] answers[i] is Ok by {
                assert(answers[i] == Ok::<OutputModel, TranslationErrorModel>(outputs[i]));
            }
            if forall|i: int|
                0 <= i < said.len() ==> i < answers.len() && (#[trigger] answers[i] matches Ok(
                    output,
                ) && output.text == said[i]) {
                assert forall|i: int| 0 <= i < count implies (#[trigger] outputs[i]).text
                    == said[i] by {
                    assert(answers[i] == Ok::<OutputModel, TranslationErrorModel>(outputs[i]));
                }
                assert(output_texts(outputs.drop_last()) =~= said.drop_last());
                if planned.work is Whole {
                    let none = Seq::<OutputModel>::empty();
                    assert(outputs =~= none.push(outputs[0]));
                    law_times_add_up(none, outputs[0]);
                }
            }
        },
        Err(error) => {
            let i = choose|i: int|
                0 <= i < count && i <= answers.len() && (if i == answers.len() {
                    error is Stopped
                } else {
                    answers[i] == Err::<OutputModel, TranslationErrorModel>(error)
                }) && #[trigger] are_answered(answers, i);
            assert(i == answers.len() || answers[i] is Err);
        },
    }
}

/// The text in the words of the dictionary is put to the machine, under the number and the
/// revision of the segment; running text is translated as the machine plans, and final text
/// in any case.
pub proof fn law_text_is_put_to_the_machine(
    machine: MachineModel,
    job: JobModel,
    normalized: Seq<char>,
)
    ensures
        ({
            let last = job.snapshot.state == CaptionState::Final;
            let (after, plan) = machine.begun(
                job.snapshot.segment_id,
                job.snapshot.revision,
                normalized,
                job.request.source_language,
                last,
            );
            let (current, work) = work_planned(machine, job, normalized);
            &&& current == after
            &&& last ==> work == Some(WorkModel::Whole(plan))
            &&& !last && plan is None ==> work is None
            &&& !last ==> (plan matches Some(plan) ==> work == Some(WorkModel::Window(plan)))
        }),
{
}

/// The last two segments are remembered, the later behind the earlier, and no others.
pub proof fn law_last_two_segments_are_remembered(
    pairs: Seq<(Seq<char>, Seq<char>)>,
    earlier: (Seq<char>, Seq<char>),
    later: (Seq<char>, Seq<char>),
)
    ensures
        last_pairs(last_pairs(pairs.push(earlier)).push(later)) == seq![earlier, later],
        last_pairs(Seq::<(Seq<char>, Seq<char>)>::empty().push(later)) == seq![later],
{
    assert(last_pairs(last_pairs(pairs.push(earlier)).push(later)) =~= seq![earlier, later]);
    assert(last_pairs(Seq::<(Seq<char>, Seq<char>)>::empty().push(later)) =~= seq![later]);
}

/// The text in the words of the dictionary is translated without a word about it; where the
/// dictionary failed that is announced, and the text is translated as it is.
pub proof fn law_failing_dictionary_is_announced(
    source_text: Seq<char>,
    text: Option<Seq<char>>,
    error: DictionaryErrorModel,
)
    ensures
        text_to_translate(source_text, Ok(text)) == text,
        normalization_events(Ok(text)) == Seq::<EventModel>::empty(),
        text_to_translate(source_text, Err(error)) == Some(source_text),
        normalization_events(Err(error)) == seq![
            EventModel::Error { code: "dictionary_failed"@, message: error.text() },
        ],
{
}

} // verus!
