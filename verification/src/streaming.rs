//! The streaming translation state machine: which part of a growing hypothesis is
//! committed for good, and which part stays in the window that may still be revised.
use crate::text::{
    begins_ignoring_case, chars_of, common_prefix, common_prefix_len, fold, folded, is_space,
    is_whitespace, join2, join3, lemma_common_prefix, lemma_strip_end, lemma_strip_fixed,
    lemma_strip_start, lemma_trim_idempotent, lemma_trimmed, optional_text, same_text, slice_of,
    spaces, starts_ignoring_case, starts_with, string_of, strip_start, texts, trim, trim_chars,
    trimmed,
};
use vstd::prelude::*;

verus! {

/// What the machine is doing with its current segment.
#[derive(Debug, Clone, Copy, PartialEq, Eq, Structural)]
pub enum TranslationPhase {
    /// Waiting for the next hypothesis.
    Collecting,
    /// A window translation is under way.
    TranslatingWindow,
    /// The translation of the whole sentence is under way.
    Finalizing,
    /// The sentence has its final translation.
    Finalized,
}

/// A stretch of the source that moves out of the window for good.
#[derive(Debug)]
pub struct SourceChunk {
    /// The exact stretch, white space at its ends included, so that the committed
    /// source stays a prefix of the hypothesis.
    pub raw_source: String,
    /// The stretch as the model gets it, without white space at its ends.
    pub model_text: String,
}

/// The text of a source chunk.
pub struct ChunkModel {
    pub raw_source: Seq<char>,
    pub model_text: Seq<char>,
}

impl View for SourceChunk {
    type V = ChunkModel;

    open spec fn view(&self) -> ChunkModel {
        ChunkModel { raw_source: self.raw_source@, model_text: self.model_text@ }
    }
}

/// The texts of a sequence of source chunks.
pub open spec fn chunk_models(chunks: Seq<SourceChunk>) -> Seq<ChunkModel> {
    chunks.map_values(|c: SourceChunk| c@)
}

/// What is to be translated for one revision of one segment.
#[derive(Debug)]
pub struct TranslationPlan {
    pub segment_id: u64,
    pub revision: u64,
    pub source_text: String,
    pub chunks_to_commit: Vec<SourceChunk>,
    pub mutable_window: String,
    pub full_reconcile: bool,
    /// What was committed when the plan was made.
    pub committed_source_before: String,
}

/// The content of a translation plan.
pub struct PlanModel {
    pub segment_id: u64,
    pub revision: u64,
    pub source_text: Seq<char>,
    pub chunks_to_commit: Seq<ChunkModel>,
    pub mutable_window: Seq<char>,
    pub full_reconcile: bool,
    pub committed_source_before: Seq<char>,
}

impl View for TranslationPlan {
    type V = PlanModel;

    open spec fn view(&self) -> PlanModel {
        PlanModel {
            segment_id: self.segment_id,
            revision: self.revision,
            source_text: self.source_text@,
            chunks_to_commit: chunk_models(self.chunks_to_commit@),
            mutable_window: self.mutable_window@,
            full_reconcile: self.full_reconcile,
            committed_source_before: self.committed_source_before@,
        }
    }
}

/// The streaming translation state of one session.
#[derive(Debug)]
pub struct TranslationStateMachine {
    segment_id: Option<u64>,
    latest_revision: u64,
    previous_hypothesis: String,
    committed_source: String,
    committed_translation: String,
    phase: TranslationPhase,
    limits_override: Option<(usize, usize)>,
}

/// The state of a translation state machine.
pub struct MachineModel {
    pub segment_id: Option<u64>,
    pub latest_revision: u64,
    pub previous_hypothesis: Seq<char>,
    pub committed_source: Seq<char>,
    pub committed_translation: Seq<char>,
    pub phase: TranslationPhase,
    pub limits_override: Option<(usize, usize)>,
}

impl View for TranslationStateMachine {
    type V = MachineModel;

    closed spec fn view(&self) -> MachineModel {
        MachineModel {
            segment_id: self.segment_id,
            latest_revision: self.latest_revision,
            previous_hypothesis: self.previous_hypothesis@,
            committed_source: self.committed_source@,
            committed_translation: self.committed_translation@,
            phase: self.phase,
            limits_override: self.limits_override,
        }
    }
}

/// The largest number of characters in the window, and the number of characters at
/// the end of the stable text that are held back, for a source language.
pub open spec fn limits_of(language: Seq<char>) -> (usize, usize) {
    if begins_ignoring_case(language, "zh"@) {
        (36, 12)
    } else {
        (96, 32)
    }
}

/// Whether a text may well be cut after this character.
pub open spec fn cuts_after(c: char) -> bool {
    is_space(c) || c == '，' || c == '。' || c == '；' || c == '！' || c == '？' || c == ',' || c == '.'
        || c == ';' || c == '!' || c == '?'
}

/// The largest count `k` with `minimum <= k <= count` such that `text` may be cut
/// after its first `k` characters; 0 if there is none.
pub open spec fn last_cut(text: Seq<char>, count: nat, minimum: nat) -> nat
    decreases count,
{
    if count == 0 || count < minimum {
        0
    } else if cuts_after(text[count - 1]) {
        count
    } else {
        last_cut(text, (count - 1) as nat, minimum)
    }
}

/// How many characters to cut off the front of `text` when about `desired` are
/// wanted: up to the last good place in the second half, or else all that is wanted.
pub open spec fn cut_len(text: Seq<char>, desired: nat) -> nat {
    let count = if desired < text.len() { desired } else { text.len() };
    let preferred = last_cut(text, count, desired / 2);
    if preferred > 0 {
        preferred
    } else {
        count
    }
}

/// How many characters the next chunk should have when `available` stable characters
/// follow the committed ones.
pub open spec fn desired_len(available: nat, window: nat, rollback: nat) -> nat {
    let room = if window > rollback + 1 { (window - rollback) as nat } else { 1 };
    if room < available - rollback {
        room
    } else {
        (available - rollback) as nat
    }
}

/// The chunks that leave the window, and where the window then begins, when `source`
/// is committed up to `cursor` and stable up to `stable`: as long as more than
/// `window` characters are left and more than `rollback` and one of them are stable,
/// the next chunk is cut off. A chunk of white space alone is passed over.
pub open spec fn planned(
    source: Seq<char>,
    stable: nat,
    cursor: nat,
    window: nat,
    rollback: nat,
) -> (Seq<ChunkModel>, nat)
    decreases source.len() - cursor,
    via planned_decreases
{
    if stable <= source.len() && cursor + window < source.len() && cursor + rollback + 1 < stable {
        let available = (stable - cursor) as nat;
        let cut = cut_len(
            source.subrange(cursor as int, stable as int),
            desired_len(available, window, rollback),
        );
        let raw = source.subrange(cursor as int, (cursor + cut) as int);
        let (later, end) = planned(source, stable, cursor + cut, window, rollback);
        if trimmed(raw).len() == 0 {
            (later, end)
        } else {
            (seq![ChunkModel { raw_source: raw, model_text: trimmed(raw) }] + later, end)
        }
    } else {
        (Seq::empty(), cursor)
    }
}

#[via_fn]
proof fn planned_decreases(
    source: Seq<char>,
    stable: nat,
    cursor: nat,
    window: nat,
    rollback: nat,
) {
    if stable <= source.len() && cursor + window < source.len() && cursor + rollback + 1 < stable {
        lemma_cut(
            source.subrange(cursor as int, stable as int),
            desired_len((stable - cursor) as nat, window, rollback),
        );
    }
}

/// A cut is one of the counts up to the one asked for, and not 0 when one is wanted.
proof fn lemma_cut(text: Seq<char>, desired: nat)
    ensures
        cut_len(text, desired) <= text.len(),
        cut_len(text, desired) <= desired,
        desired > 0 && text.len() > 0 ==> cut_len(text, desired) > 0,
{
    let count = if desired < text.len() { desired } else { text.len() };
    lemma_last_cut(text, count, desired / 2);
}

proof fn lemma_last_cut(text: Seq<char>, count: nat, minimum: nat)
    ensures
        last_cut(text, count, minimum) <= count,
    decreases count,
{
    if count != 0 && count >= minimum && !cuts_after(text[count - 1]) {
        lemma_last_cut(text, (count - 1) as nat, minimum);
    }
}

/// Whether a text begins with a mark that takes no space before it.
pub open spec fn begins_with_mark(s: Seq<char>) -> bool {
    s.len() > 0 && (s[0] == ',' || s[0] == '.' || s[0] == ';' || s[0] == '!' || s[0] == '?' || s[0]
        == '，' || s[0] == '。' || s[0] == '；' || s[0] == '！' || s[0] == '？')
}

/// Two pieces of a translation put together: Chinese without a space, other languages
/// with one unless a punctuation mark follows.
pub open spec fn joined_translation(
    prefix: Seq<char>,
    suffix: Seq<char>,
    target_language: Seq<char>,
) -> Seq<char> {
    let front = trimmed(prefix);
    let back = trimmed(suffix);
    if front.len() == 0 {
        back
    } else if back.len() == 0 {
        front
    } else if begins_ignoring_case(target_language, "zh"@) || begins_with_mark(back) {
        front + back
    } else {
        front + " "@ + back
    }
}

/// The translation of the committed text once the translations of further chunks
/// have been put to it.
pub open spec fn extended_translation(
    committed: Seq<char>,
    chunks: Seq<Seq<char>>,
    target_language: Seq<char>,
) -> Seq<char>
    decreases chunks.len(),
{
    if chunks.len() == 0 {
        committed
    } else {
        joined_translation(
            extended_translation(committed, chunks.drop_last(), target_language),
            chunks.last(),
            target_language,
        )
    }
}

/// The raw text of a sequence of chunks.
pub open spec fn raw_text(chunks: Seq<ChunkModel>) -> Seq<char>
    decreases chunks.len(),
{
    if chunks.len() == 0 {
        Seq::empty()
    } else {
        raw_text(chunks.drop_last()) + chunks.last().raw_source
    }
}

impl MachineModel {
    /// The state before the first segment.
    pub open spec fn initial(limits_override: Option<(usize, usize)>) -> MachineModel {
        MachineModel {
            segment_id: None,
            latest_revision: 0,
            previous_hypothesis: Seq::empty(),
            committed_source: Seq::empty(),
            committed_translation: Seq::empty(),
            phase: TranslationPhase::Collecting,
            limits_override,
        }
    }

    /// The state at the beginning of a segment.
    pub open spec fn at_segment(self, segment_id: u64) -> MachineModel {
        MachineModel {
            segment_id: Some(segment_id),
            ..MachineModel::initial(self.limits_override)
        }
    }

    /// Whether the limits leave room for the arithmetic on them.
    pub open spec fn valid(self) -> bool {
        self.limits_override matches Some((_, rollback)) ==> rollback < usize::MAX
    }

    /// The limits in force for a source language.
    pub open spec fn limits(self, source_language: Seq<char>) -> (usize, usize) {
        match self.limits_override {
            Some(limits) => limits,
            None => limits_of(source_language),
        }
    }

    /// The state in which a hypothesis for `segment_id` is looked at: a fresh one when
    /// the segment changes.
    pub open spec fn entered(self, segment_id: u64) -> MachineModel {
        if self.segment_id == Some(segment_id) {
            self
        } else {
            self.at_segment(segment_id)
        }
    }

    /// The state in which a new revision is planned: a fresh one when the hypothesis
    /// no longer begins with what was committed.
    pub open spec fn rebased(self, segment_id: u64, source: Seq<char>) -> MachineModel {
        if self.committed_source.is_prefix_of(source) {
            self
        } else {
            self.at_segment(segment_id)
        }
    }

    /// The state after a hypothesis, and the plan for it if it is a new revision of a
    /// text that is not empty.
    pub open spec fn begun(
        self,
        segment_id: u64,
        revision: u64,
        source_text: Seq<char>,
        source_language: Seq<char>,
        is_final: bool,
    ) -> (MachineModel, Option<PlanModel>) {
        let source = trimmed(source_text);
        let entered = self.entered(segment_id);
        if source.len() == 0 {
            (self, None)
        } else if revision <= entered.latest_revision {
            (entered, None)
        } else {
            let base = entered.rebased(segment_id, source);
            if is_final {
                (
                    MachineModel {
                        latest_revision: revision,
                        previous_hypothesis: source,
                        phase: TranslationPhase::Finalizing,
                        ..base
                    },
                    Some(
                        PlanModel {
                            segment_id,
                            revision,
                            source_text: source,
                            chunks_to_commit: Seq::empty(),
                            mutable_window: source,
                            full_reconcile: true,
                            committed_source_before: base.committed_source,
                        },
                    ),
                )
            } else {
                let limits = base.limits(source_language);
                let (chunks, end) = planned(
                    source,
                    common_prefix_len(base.previous_hypothesis, source),
                    base.committed_source.len(),
                    limits.0 as nat,
                    limits.1 as nat,
                );
                (
                    MachineModel {
                        latest_revision: revision,
                        previous_hypothesis: source,
                        phase: TranslationPhase::TranslatingWindow,
                        ..base
                    },
                    Some(
                        PlanModel {
                            segment_id,
                            revision,
                            source_text: source,
                            chunks_to_commit: chunks,
                            mutable_window: trimmed(source.skip(end as int)),
                            full_reconcile: false,
                            committed_source_before: base.committed_source,
                        },
                    ),
                )
            }
        }
    }

    /// Whether a plan is the one that the machine waits for in `phase`.
    pub open spec fn awaits(self, plan: PlanModel, phase: TranslationPhase) -> bool {
        &&& self.segment_id == Some(plan.segment_id)
        &&& self.latest_revision == plan.revision
        &&& self.phase == phase
        &&& self.committed_source == plan.committed_source_before
    }

    /// The state after the translations for a window plan, and the draft if the plan
    /// is the current one.
    pub open spec fn window_finished(
        self,
        plan: PlanModel,
        chunk_translations: Seq<Seq<char>>,
        mutable_translation: Seq<char>,
        target_language: Seq<char>,
    ) -> (MachineModel, Option<Seq<char>>) {
        if self.awaits(plan, TranslationPhase::TranslatingWindow) && !plan.full_reconcile
            && chunk_translations.len() == plan.chunks_to_commit.len() {
            let committed = extended_translation(
                self.committed_translation,
                chunk_translations,
                target_language,
            );
            (
                MachineModel {
                    committed_source: self.committed_source + raw_text(plan.chunks_to_commit),
                    committed_translation: committed,
                    phase: TranslationPhase::Collecting,
                    ..self
                },
                Some(joined_translation(committed, mutable_translation, target_language)),
            )
        } else {
            (self, None)
        }
    }

    /// The state after the translation of a whole sentence, and that translation if
    /// the plan is the current one.
    pub open spec fn final_finished(self, plan: PlanModel, translation: Seq<char>) -> (
        MachineModel,
        Option<Seq<char>>,
    ) {
        if self.awaits(plan, TranslationPhase::Finalizing) && plan.full_reconcile {
            (
                MachineModel {
                    committed_source: plan.source_text,
                    committed_translation: trimmed(translation),
                    phase: TranslationPhase::Finalized,
                    ..self
                },
                Some(trimmed(translation)),
            )
        } else {
            (self, None)
        }
    }
}

/// The content of an optional plan.
pub open spec fn optional_plan(plan: Option<TranslationPlan>) -> Option<PlanModel> {
    match plan {
        Some(p) => Some(p@),
        None => None,
    }
}

/// The limits for a source language.
pub fn language_limits(language: &str) -> (limits: (usize, usize))
    ensures
        limits == limits_of(language@),
{
    if starts_ignoring_case(language, "zh") {
        (36, 12)
    } else {
        (96, 32)
    }
}

/// Whether a text may well be cut after this character.
pub fn is_boundary(character: char) -> (boundary: bool)
    ensures
        boundary == cuts_after(character),
{
    is_whitespace(character) || character == '，' || character == '。' || character == '；'
        || character == '！' || character == '？' || character == ',' || character == '.' || character
        == ';' || character == '!' || character == '?'
}

/// How many characters to cut off the front of `text` when about `desired_chars` are
/// wanted.
pub fn choose_boundary(text: &Vec<char>, desired_chars: usize) -> (cut: usize)
    ensures
        cut == cut_len(text@, desired_chars as nat),
{
    let count = if desired_chars < text.len() {
        desired_chars
    } else {
        text.len()
    };
    let minimum = desired_chars / 2;
    let mut k: usize = count;
    while k > 0 && k >= minimum
        invariant
            k <= count <= text.len(),
            minimum == desired_chars / 2,
            count == if (desired_chars as nat) < text@.len() {
                desired_chars as nat
            } else {
                text@.len()
            },
            last_cut(text@, k as nat, minimum as nat) == last_cut(
                text@,
                count as nat,
                minimum as nat,
            ),
        decreases k,
    {
        if is_boundary(text[k - 1]) {
            return k;
        }
        k = k - 1;
    }
    count
}

/// Two pieces of a translation put together.
pub fn join_translation(prefix: &str, suffix: &str, target_language: &str) -> (whole: String)
    ensures
        whole@ == joined_translation(prefix@, suffix@, target_language@),
{
    let front = trim(prefix);
    let back = trim(suffix);
    if front.as_str().is_empty() {
        return back;
    }
    if back.as_str().is_empty() {
        return front;
    }
    let first = chars_of(back.as_str())[0];
    if starts_ignoring_case(target_language, "zh") || first == ',' || first == '.' || first == ';'
        || first == '!' || first == '?' || first == '，' || first == '。' || first == '；' || first
        == '！' || first == '？' {
        join2(front.as_str(), back.as_str())
    } else {
        join3(front.as_str(), " ", back.as_str())
    }
}

impl Default for TranslationStateMachine {
    /// The machine before the first segment.
    fn default() -> (machine: Self)
        ensures
            machine@ == MachineModel::initial(None),
            machine@.valid(),
    {
        TranslationStateMachine {
            segment_id: None,
            latest_revision: 0,
            previous_hypothesis: String::new(),
            committed_source: String::new(),
            committed_translation: String::new(),
            phase: TranslationPhase::Collecting,
            limits_override: None,
        }
    }
}

impl TranslationStateMachine {
    /// A machine with limits of its own in place of those of the language.
    pub fn with_limits(max_window_chars: usize, rollback_chars: usize) -> (machine: Self)
        requires
            rollback_chars < usize::MAX,
        ensures
            machine@ == MachineModel::initial(Some((max_window_chars, rollback_chars))),
            machine@.valid(),
    {
        TranslationStateMachine {
            segment_id: None,
            latest_revision: 0,
            previous_hypothesis: String::new(),
            committed_source: String::new(),
            committed_translation: String::new(),
            phase: TranslationPhase::Collecting,
            limits_override: Some((max_window_chars, rollback_chars)),
        }
    }

    /// What the machine is doing.
    pub fn phase(&self) -> (phase: TranslationPhase)
        ensures
            phase == self@.phase,
    {
        self.phase
    }

    /// Forgets the session's segments; the limits stay.
    pub fn reset(&mut self)
        ensures
            final(self)@ == MachineModel::initial(old(self)@.limits_override),
            old(self)@.valid() ==> final(self)@.valid(),
    {
        self.segment_id = None;
        self.latest_revision = 0;
        self.previous_hypothesis = String::new();
        self.committed_source = String::new();
        self.committed_translation = String::new();
        self.phase = TranslationPhase::Collecting;
    }

    /// Begins a segment afresh.
    fn reset_segment(&mut self, segment_id: u64)
        ensures
            final(self)@ == old(self)@.at_segment(segment_id),
    {
        self.segment_id = Some(segment_id);
        self.latest_revision = 0;
        self.previous_hypothesis = String::new();
        self.committed_source = String::new();
        self.committed_translation = String::new();
        self.phase = TranslationPhase::Collecting;
    }

    /// Whether a plan is the one that the machine waits for in `phase`.
    fn matches(&self, plan: &TranslationPlan, phase: TranslationPhase) -> (current: bool)
        ensures
            current == self@.awaits(plan@, phase),
    {
        let same_segment = match self.segment_id {
            Some(id) => id == plan.segment_id,
            None => false,
        };
        same_segment && self.latest_revision == plan.revision && self.phase == phase && same_text(
            self.committed_source.as_str(),
            plan.committed_source_before.as_str(),
        )
    }

    /// Takes a hypothesis for a segment. A new revision of a text that is not empty
    /// gets a plan for its translation; anything else gets none.
    pub fn begin(
        &mut self,
        segment_id: u64,
        revision: u64,
        source_text: &str,
        source_language: &str,
        is_final: bool,
    ) -> (plan: Option<TranslationPlan>)
        requires
            old(self)@.valid(),
        ensures
            final(self)@.valid(),
            (final(self)@, optional_plan(plan)) == old(self)@.begun(
                segment_id,
                revision,
                source_text@,
                source_language@,
                is_final,
            ),
    {
        let source = trim_chars(&chars_of(source_text));
        if source.len() == 0 {
            return None;
        }
        let same_segment = match self.segment_id {
            Some(id) => id == segment_id,
            None => false,
        };
        if !same_segment {
            self.reset_segment(segment_id);
        }
        if revision <= self.latest_revision {
            return None;
        }
        // A correction before the commit boundary makes the committed text worthless.
        if !starts_with(&source, &chars_of(self.committed_source.as_str())) {
            self.reset_segment(segment_id);
        }
        let ghost base = self@;
        self.latest_revision = revision;
        if is_final {
            self.previous_hypothesis = string_of(&source);
            self.phase = TranslationPhase::Finalizing;
            let plan = TranslationPlan {
                segment_id,
                revision,
                source_text: string_of(&source),
                chunks_to_commit: Vec::new(),
                mutable_window: string_of(&source),
                full_reconcile: true,
                committed_source_before: self.committed_source.clone(),
            };
            proof {
                assert(plan@.chunks_to_commit =~= Seq::empty());
            }
            return Some(plan);
        }
        let stable_end = common_prefix(&chars_of(self.previous_hypothesis.as_str()), &source);
        proof {
            lemma_common_prefix(base.previous_hypothesis, source@);
        }
        self.previous_hypothesis = string_of(&source);
        let (max_window_chars, rollback_chars) = match self.limits_override {
            Some(limits) => limits,
            None => language_limits(source_language),
        };
        let committed = chars_of(self.committed_source.as_str());
        let (chunks_to_commit, cursor) = plan_chunks(
            &source,
            stable_end,
            committed.len(),
            max_window_chars,
            rollback_chars,
        );
        self.phase = TranslationPhase::TranslatingWindow;
        let window = slice_of(&source, cursor, source.len());
        proof {
            assert(window@ == source@.skip(cursor as int));
        }
        Some(
            TranslationPlan {
                segment_id,
                revision,
                source_text: string_of(&source),
                chunks_to_commit,
                mutable_window: string_of(&trim_chars(&window)),
                full_reconcile: false,
                committed_source_before: self.committed_source.clone(),
            },
        )
    }

    /// Takes the translations for a window plan. If the plan is still the current one,
    /// its chunks are committed and the assembled draft is returned; a late one
    /// changes nothing.
    pub fn finish_window(
        &mut self,
        plan: &TranslationPlan,
        committed_chunk_translations: &[String],
        mutable_translation: &str,
        target_language: &str,
    ) -> (draft: Option<String>)
        ensures
            (final(self)@, optional_text(draft)) == old(self)@.window_finished(
                plan@,
                texts(committed_chunk_translations@),
                mutable_translation@,
                target_language@,
            ),
            old(self)@.valid() ==> final(self)@.valid(),
    {
        if !self.matches(plan, TranslationPhase::TranslatingWindow) || plan.full_reconcile
            || committed_chunk_translations.len() != plan.chunks_to_commit.len() {
            return None;
        }
        let ghost before = self@;
        let ghost chunks = plan@.chunks_to_commit;
        let ghost parts = texts(committed_chunk_translations@);
        let mut i: usize = 0;
        proof {
            assert(chunks.take(0) =~= Seq::empty());
            assert(parts.take(0) =~= Seq::empty());
            assert(before.committed_source + raw_text(chunks.take(0)) =~= before.committed_source);
        }
        while i < plan.chunks_to_commit.len()
            invariant
                i <= plan.chunks_to_commit.len() == committed_chunk_translations.len(),
                chunks == chunk_models(plan.chunks_to_commit@),
                parts == texts(committed_chunk_translations@),
                self@ == (MachineModel {
                    committed_source: before.committed_source + raw_text(chunks.take(i as int)),
                    committed_translation: extended_translation(
                        before.committed_translation,
                        parts.take(i as int),
                        target_language@,
                    ),
                    ..before
                }),
            decreases plan.chunks_to_commit.len() - i,
        {
            self.committed_source.append(plan.chunks_to_commit[i].raw_source.as_str());
            self.committed_translation = join_translation(
                self.committed_translation.as_str(),
                committed_chunk_translations[i].as_str(),
                target_language,
            );
            i = i + 1;
            proof {
                assert(chunks.take(i as int).drop_last() =~= chunks.take(i - 1));
                assert(parts.take(i as int).drop_last() =~= parts.take(i - 1));
                assert(before.committed_source + raw_text(chunks.take(i as int))
                    =~= before.committed_source + raw_text(chunks.take(i - 1)) + chunks[i
                    - 1].raw_source);
            }
        }
        proof {
            assert(chunks.take(i as int) =~= chunks);
            assert(parts.take(i as int) =~= parts);
        }
        let assembled = join_translation(
            self.committed_translation.as_str(),
            mutable_translation,
            target_language,
        );
        self.phase = TranslationPhase::Collecting;
        Some(assembled)
    }

    /// Takes the translation of a whole sentence. If the plan is still the current one,
    /// it replaces the draft; a late one changes nothing.
    pub fn finish_final(&mut self, plan: &TranslationPlan, translation: &str) -> (text: Option<String>)
        ensures
            (final(self)@, optional_text(text)) == old(self)@.final_finished(plan@, translation@),
            old(self)@.valid() ==> final(self)@.valid(),
    {
        if !self.matches(plan, TranslationPhase::Finalizing) || !plan.full_reconcile {
            return None;
        }
        self.committed_source = plan.source_text.clone();
        self.committed_translation = trim(translation);
        self.phase = TranslationPhase::Finalized;
        Some(self.committed_translation.clone())
    }
}

/// Cuts off the chunks that leave the window.
fn plan_chunks(
    source: &Vec<char>,
    stable_end: usize,
    committed_len: usize,
    max_window_chars: usize,
    rollback_chars: usize,
) -> (chunks_and_end: (Vec<SourceChunk>, usize))
    requires
        stable_end <= source.len(),
        committed_len <= source.len(),
        rollback_chars < usize::MAX,
    ensures
        chunks_and_end.1 <= source.len(),
        (chunk_models(chunks_and_end.0@), chunks_and_end.1 as nat) == planned(
            source@,
            stable_end as nat,
            committed_len as nat,
            max_window_chars as nat,
            rollback_chars as nat,
        ),
{
    let mut chunks: Vec<SourceChunk> = Vec::new();
    let mut cursor: usize = committed_len;
    let ghost whole = planned(
        source@,
        stable_end as nat,
        committed_len as nat,
        max_window_chars as nat,
        rollback_chars as nat,
    );
    proof {
        assert(chunk_models(chunks@) + whole.0 =~= whole.0);
    }
    while source.len() - cursor > max_window_chars && stable_end > cursor && stable_end - cursor
        > rollback_chars + 1
        invariant
            stable_end <= source.len(),
            cursor <= source.len(),
            rollback_chars < usize::MAX,
            chunk_models(chunks@) + planned(
                source@,
                stable_end as nat,
                cursor as nat,
                max_window_chars as nat,
                rollback_chars as nat,
            ).0 == whole.0,
            planned(
                source@,
                stable_end as nat,
                cursor as nat,
                max_window_chars as nat,
                rollback_chars as nat,
            ).1 == whole.1,
        decreases source.len() - cursor,
    {
        let available = stable_end - cursor;
        let room = if max_window_chars > rollback_chars + 1 {
            max_window_chars - rollback_chars
        } else {
            1
        };
        let desired = if room < available - rollback_chars {
            room
        } else {
            available - rollback_chars
        };
        let stable_part = slice_of(source, cursor, stable_end);
        let cut = choose_boundary(&stable_part, desired);
        proof {
            lemma_cut(stable_part@, desired as nat);
        }
        let raw = slice_of(source, cursor, cursor + cut);
        let model = trim_chars(&raw);
        let ghost later = planned(
            source@,
            stable_end as nat,
            (cursor + cut) as nat,
            max_window_chars as nat,
            rollback_chars as nat,
        );
        if model.len() > 0 {
            let chunk = SourceChunk { raw_source: string_of(&raw), model_text: string_of(&model) };
            proof {
                assert(chunk_models(chunks@.push(chunk)) + later.0 =~= chunk_models(chunks@) + (
                seq![chunk@] + later.0));
            }
            chunks.push(chunk);
        }
        cursor = cursor + cut;
    }
    proof {
        assert(chunk_models(chunks@) + Seq::<ChunkModel>::empty() =~= chunk_models(chunks@));
    }
    (chunks, cursor)
}

// ---------------------------------------------------------------------------------
// Laws
// ---------------------------------------------------------------------------------

/// Where the window begins lies at or after the committed text, and whenever text
/// leaves the window, at least `rollback` characters of the stable text are held back.
/// The raw chunks are the text between the two places, unless a stretch of white
/// space was passed over.
pub proof fn law_planned(
    source: Seq<char>,
    stable: nat,
    cursor: nat,
    window: nat,
    rollback: nat,
)
    requires
        cursor <= source.len(),
        stable <= source.len(),
    ensures
        cursor <= planned(source, stable, cursor, window, rollback).1 <= source.len(),
        planned(source, stable, cursor, window, rollback).1 == cursor || planned(
            source,
            stable,
            cursor,
            window,
            rollback,
        ).1 + rollback <= stable,
        raw_text(planned(source, stable, cursor, window, rollback).0) == source.subrange(
            cursor as int,
            planned(source, stable, cursor, window, rollback).1 as int,
        ) || raw_text(planned(source, stable, cursor, window, rollback).0).len() < planned(
            source,
            stable,
            cursor,
            window,
            rollback,
        ).1 - cursor,
        forall|i: int|
            0 <= i < planned(source, stable, cursor, window, rollback).0.len() ==> {
                let chunk = #[trigger] planned(source, stable, cursor, window, rollback).0[i];
                chunk.model_text == trimmed(chunk.raw_source) && chunk.model_text.len() > 0
            },
    decreases source.len() - cursor,
{
    let (chunks, end) = planned(source, stable, cursor, window, rollback);
    if stable <= source.len() && cursor + window < source.len() && cursor + rollback + 1 < stable {
        let available = (stable - cursor) as nat;
        let desired = desired_len(available, window, rollback);
        let stable_part = source.subrange(cursor as int, stable as int);
        let cut = cut_len(stable_part, desired);
        lemma_cut(stable_part, desired);
        law_planned(source, stable, cursor + cut, window, rollback);
        let raw = source.subrange(cursor as int, (cursor + cut) as int);
        let (later, later_end) = planned(source, stable, cursor + cut, window, rollback);
        if trimmed(raw).len() > 0 {
            let chunk = ChunkModel { raw_source: raw, model_text: trimmed(raw) };
            lemma_raw_text_front(chunk, later);
            assert(raw + source.subrange((cursor + cut) as int, end as int) =~= source.subrange(
                cursor as int,
                end as int,
            ));
            assert forall|i: int| 0 <= i < chunks.len() implies ({
                let c = #[trigger] chunks[i];
                c.model_text == trimmed(c.raw_source) && c.model_text.len() > 0
            }) by {
                if i > 0 {
                    assert(chunks[i] == later[i - 1]);
                }
            }
        }
    } else {
        assert(source.subrange(cursor as int, cursor as int) =~= Seq::empty());
    }
}

/// The raw text of chunks begins with that of the first.
proof fn lemma_raw_text_front(chunk: ChunkModel, later: Seq<ChunkModel>)
    ensures
        raw_text(seq![chunk] + later) == chunk.raw_source + raw_text(later),
    decreases later.len(),
{
    let all = seq![chunk] + later;
    if later.len() == 0 {
        assert(all.drop_last() =~= Seq::empty());
        assert(raw_text(all.drop_last()) =~= Seq::empty());
        assert(raw_text(all) =~= chunk.raw_source + raw_text(later));
    } else {
        lemma_raw_text_front(chunk, later.drop_last());
        assert(all.drop_last() =~= seq![chunk] + later.drop_last());
        assert(all.last() == later.last());
        assert(chunk.raw_source + raw_text(later.drop_last()) + later.last().raw_source
            =~= chunk.raw_source + (raw_text(later.drop_last()) + later.last().raw_source));
    }
}

/// Planning stops only when the window is within its limit or too little stable text
/// is left in it.
pub proof fn law_window_is_bounded(
    source: Seq<char>,
    stable: nat,
    cursor: nat,
    window: nat,
    rollback: nat,
)
    requires
        cursor <= source.len(),
        stable <= source.len(),
    ensures
        ({
            let end = planned(source, stable, cursor, window, rollback).1;
            source.len() - end <= window || stable <= end + rollback + 1
        }),
    decreases source.len() - cursor,
{
    if stable <= source.len() && cursor + window < source.len() && cursor + rollback + 1 < stable {
        let desired = desired_len((stable - cursor) as nat, window, rollback);
        let stable_part = source.subrange(cursor as int, stable as int);
        lemma_cut(stable_part, desired);
        law_window_is_bounded(
            source,
            stable,
            cursor + cut_len(stable_part, desired),
            window,
            rollback,
        );
    }
}

/// A window plan commits text only from the part that the last two hypotheses share,
/// and holds back the rollback characters at its end; the window is the rest.
pub proof fn law_only_stable_text_is_committed(
    machine: MachineModel,
    segment_id: u64,
    revision: u64,
    source_text: Seq<char>,
    source_language: Seq<char>,
)
    ensures
        machine.begun(segment_id, revision, source_text, source_language, false).1 matches Some(
            plan,
        ) ==> {
            let source = trimmed(source_text);
            let base = machine.entered(segment_id).rebased(segment_id, source);
            let stable = common_prefix_len(base.previous_hypothesis, source);
            let rollback = base.limits(source_language).1;
            exists|end: int|
                base.committed_source.len() <= end <= source.len() && plan.mutable_window
                    == trimmed(#[trigger] source.skip(end)) && (end == base.committed_source.len()
                    || end + rollback <= stable) && (raw_text(plan.chunks_to_commit)
                    == source.subrange(base.committed_source.len() as int, end) || raw_text(
                    plan.chunks_to_commit,
                ).len() < end - base.committed_source.len())
        },
{
    let source = trimmed(source_text);
    let base = machine.entered(segment_id).rebased(segment_id, source);
    let stable = common_prefix_len(base.previous_hypothesis, source);
    let limits = base.limits(source_language);
    if let Some(plan) = machine.begun(
        segment_id,
        revision,
        source_text,
        source_language,
        false,
    ).1 {
        lemma_common_prefix(base.previous_hypothesis, source);
        let committed = base.committed_source.len();
        law_planned(source, stable, committed, limits.0 as nat, limits.1 as nat);
        let end = planned(source, stable, committed, limits.0 as nat, limits.1 as nat).1 as int;
        assert(plan.mutable_window == trimmed(source.skip(end)));
    }
}

/// A correction before the commit boundary discards what was committed: the plan
/// commits nothing and its window is the whole corrected text.
pub proof fn law_correction_rolls_back(
    machine: MachineModel,
    segment_id: u64,
    revision: u64,
    source_text: Seq<char>,
    source_language: Seq<char>,
)
    requires
        trimmed(source_text).len() > 0,
        machine.segment_id == Some(segment_id),
        machine.latest_revision < revision,
        !machine.committed_source.is_prefix_of(trimmed(source_text)),
    ensures
        ({
            let (after, plan) = machine.begun(
                segment_id,
                revision,
                source_text,
                source_language,
                false,
            );
            &&& after.committed_source.len() == 0
            &&& after.committed_translation.len() == 0
            &&& plan matches Some(p) && p.chunks_to_commit.len() == 0 && p.mutable_window
                == trimmed(source_text) && !p.full_reconcile
        }),
{
    let source = trimmed(source_text);
    assert(common_prefix_len(Seq::empty(), source) == 0);
    assert(source.skip(0) =~= source);
    lemma_trim_idempotent(source_text);
}

/// Once a newer revision of the segment has a plan, no result for another revision,
/// or for another segment, is taken: the machine does not change and nothing is shown.
pub proof fn law_late_results_are_dropped(
    machine: MachineModel,
    segment_id: u64,
    revision: u64,
    source_text: Seq<char>,
    source_language: Seq<char>,
    is_final: bool,
    late: PlanModel,
    chunk_translations: Seq<Seq<char>>,
    translation: Seq<char>,
    target_language: Seq<char>,
)
    requires
        machine.begun(segment_id, revision, source_text, source_language, is_final).1 is Some,
        late.segment_id != segment_id || late.revision != revision,
    ensures
        ({
            let current = machine.begun(
                segment_id,
                revision,
                source_text,
                source_language,
                is_final,
            ).0;
            &&& current.window_finished(late, chunk_translations, translation, target_language) == (
                current,
                None::<Seq<char>>,
            )
            &&& current.final_finished(late, translation) == (current, None::<Seq<char>>)
        }),
{
}

/// A revision is planned at most once: the same or an older one of the same segment
/// gets no plan afterwards and changes nothing.
pub proof fn law_revisions_only_grow(
    machine: MachineModel,
    segment_id: u64,
    revision: u64,
    source_text: Seq<char>,
    source_language: Seq<char>,
    is_final: bool,
    other_revision: u64,
    other_text: Seq<char>,
    other_is_final: bool,
)
    requires
        machine.begun(segment_id, revision, source_text, source_language, is_final).1 is Some,
        other_revision <= revision,
    ensures
        ({
            let current = machine.begun(
                segment_id,
                revision,
                source_text,
                source_language,
                is_final,
            ).0;
            current.begun(
                segment_id,
                other_revision,
                other_text,
                source_language,
                other_is_final,
            ) == (current, None::<PlanModel>)
        }),
{
}

/// The results for the current window plan are taken: the draft is what was committed
/// before, the new chunks and the window, joined in that order.
pub proof fn law_current_window_is_taken(
    machine: MachineModel,
    segment_id: u64,
    revision: u64,
    source_text: Seq<char>,
    source_language: Seq<char>,
    chunk_translations: Seq<Seq<char>>,
    window_translation: Seq<char>,
    target_language: Seq<char>,
)
    ensures
        ({
            let (current, plan) = machine.begun(
                segment_id,
                revision,
                source_text,
                source_language,
                false,
            );
            plan matches Some(p) ==> chunk_translations.len() == p.chunks_to_commit.len() ==> {
                let (after, draft) = current.window_finished(
                    p,
                    chunk_translations,
                    window_translation,
                    target_language,
                );
                &&& draft == Some(
                    joined_translation(
                        extended_translation(
                            current.committed_translation,
                            chunk_translations,
                            target_language,
                        ),
                        window_translation,
                        target_language,
                    ),
                )
                &&& after.committed_source == current.committed_source + raw_text(
                    p.chunks_to_commit,
                )
                &&& after.phase == TranslationPhase::Collecting
            }
        }),
{
}

/// A final hypothesis is translated as a whole, once: its translation replaces the
/// draft, and a second result for the same plan is dropped.
pub proof fn law_final_reconciles_once(
    machine: MachineModel,
    segment_id: u64,
    revision: u64,
    source_text: Seq<char>,
    source_language: Seq<char>,
    translation: Seq<char>,
    again: Seq<char>,
)
    requires
        machine.begun(segment_id, revision, source_text, source_language, true).1 is Some,
    ensures
        ({
            let (current, plan) = machine.begun(
                segment_id,
                revision,
                source_text,
                source_language,
                true,
            );
            let p = plan->0;
            let (after, shown) = current.final_finished(p, translation);
            &&& p.full_reconcile
            &&& p.mutable_window == trimmed(source_text)
            &&& p.chunks_to_commit.len() == 0
            &&& shown == Some(trimmed(translation))
            &&& after.phase == TranslationPhase::Finalized
            &&& after.committed_source == trimmed(source_text)
            &&& after.committed_translation == trimmed(translation)
            &&& after.final_finished(p, again) == (after, None::<Seq<char>>)
        }),
{
}

/// When no stretch of white space was passed over, what is committed with the results
/// for a plan is a prefix of that plan's hypothesis, so that a hypothesis which only
/// grows is never rolled back.
pub proof fn law_committed_text_stays_a_prefix(
    machine: MachineModel,
    segment_id: u64,
    revision: u64,
    source_text: Seq<char>,
    source_language: Seq<char>,
    chunk_translations: Seq<Seq<char>>,
    window_translation: Seq<char>,
    target_language: Seq<char>,
)
    requires
        ({
            let source = trimmed(source_text);
            let base = machine.entered(segment_id).rebased(segment_id, source);
            let limits = base.limits(source_language);
            let (chunks, end) = planned(
                source,
                common_prefix_len(base.previous_hypothesis, source),
                base.committed_source.len(),
                limits.0 as nat,
                limits.1 as nat,
            );
            raw_text(chunks).len() == end - base.committed_source.len()
        }),
    ensures
        ({
            let (current, plan) = machine.begun(
                segment_id,
                revision,
                source_text,
                source_language,
                false,
            );
            plan matches Some(p) ==> current.window_finished(
                p,
                chunk_translations,
                window_translation,
                target_language,
            ).0.committed_source.is_prefix_of(trimmed(source_text))
        }),
{
    let source = trimmed(source_text);
    let base = machine.entered(segment_id).rebased(segment_id, source);
    let limits = base.limits(source_language);
    let stable = common_prefix_len(base.previous_hypothesis, source);
    lemma_common_prefix(base.previous_hypothesis, source);
    let committed = base.committed_source;
    if machine.begun(segment_id, revision, source_text, source_language, false).1 is Some {
        assert(committed.is_prefix_of(source)) by {
            if !machine.entered(segment_id).committed_source.is_prefix_of(source) {
                assert(source.subrange(0, 0) =~= Seq::empty());
            }
        }
        law_planned(source, stable, committed.len(), limits.0 as nat, limits.1 as nat);
        let (chunks, end) = planned(
            source,
            stable,
            committed.len(),
            limits.0 as nat,
            limits.1 as nat,
        );
        assert(committed + source.subrange(committed.len() as int, end as int) =~= source.subrange(
            0,
            end as int,
        ));
    }
}

// ---------------------------------------------------------------------------------
// What is shown of a segment
// ---------------------------------------------------------------------------------

/// Some texts without white space around them, and without those that are blank.
pub open spec fn said(texts: Seq<Seq<char>>) -> Seq<Seq<char>>
    decreases texts.len(),
{
    if texts.len() == 0 {
        Seq::empty()
    } else if trimmed(texts.last()).len() > 0 {
        said(texts.drop_last()).push(trimmed(texts.last()))
    } else {
        said(texts.drop_last())
    }
}

/// Whether a text goes on right behind another, without a space: Chinese does, and so does
/// a punctuation mark.
pub open spec fn follows_closely(text: Seq<char>, language: Seq<char>) -> bool {
    ||| language.len() >= 2 && (language[0] == 'z' || language[0] == 'Z') && (language[1] == 'h'
        || language[1] == 'H')
    ||| text.len() > 0 && seq![
        ',',
        '.',
        ';',
        '!',
        '?',
        '，',
        '。',
        '；',
        '！',
        '？',
    ].contains(text[0])
}

/// One text behind another.
pub open spec fn one_behind_other(first: Seq<char>, second: Seq<char>, language: Seq<char>) -> Seq<
    char,
> {
    if follows_closely(second, language) {
        first + second
    } else {
        first.push(' ') + second
    }
}

/// Some texts, one behind the other.
pub open spec fn in_a_row(texts: Seq<Seq<char>>, language: Seq<char>) -> Seq<char>
    decreases texts.len(),
{
    if texts.len() == 0 {
        Seq::empty()
    } else if texts.len() == 1 {
        texts[0]
    } else {
        one_behind_other(in_a_row(texts.drop_last(), language), texts.last(), language)
    }
}

/// Two pieces of a translation are put together as they are: nothing of either is lost or
/// changed but white space at their ends, and nothing but a space comes between.
pub proof fn law_pieces_are_joined(
    prefix: Seq<char>,
    suffix: Seq<char>,
    target_language: Seq<char>,
)
    ensures
        ({
            let whole = joined_translation(prefix, suffix, target_language);
            let front = trimmed(prefix);
            let back = trimmed(suffix);
            &&& front.len() == 0 ==> whole == back
            &&& back.len() == 0 ==> whole == front
            &&& front.len() > 0 && back.len() > 0 ==> whole == one_behind_other(
                front,
                back,
                target_language,
            )
            &&& trimmed(whole) == whole
        }),
{
    reveal_strlit(" ");
    let front = trimmed(prefix);
    let back = trimmed(suffix);
    let whole = joined_translation(prefix, suffix, target_language);
    lemma_trimmed(prefix);
    lemma_trimmed(suffix);
    lemma_trim_idempotent(prefix);
    lemma_trim_idempotent(suffix);
    if front.len() > 0 && back.len() > 0 {
        let marks = seq![',', '.', ';', '!', '?', '，', '。', '；', '！', '？'];
        assert(begins_with_mark(back) == marks.contains(back[0])) by {
            assert(marks[0] == ',' && marks[1] == '.' && marks[2] == ';' && marks[3] == '!'
                && marks[4] == '?' && marks[5] == '，' && marks[6] == '。' && marks[7] == '；'
                && marks[8] == '！' && marks[9] == '？');
        }
        lemma_chinese(target_language);
        assert(front + " "@ + back =~= front.push(' ') + back);
        assert(whole == one_behind_other(front, back, target_language));
        assert(whole[0] == front[0]);
        assert(whole.last() == back.last());
        lemma_strip_fixed(whole, spaces());
    }
}

/// A character stands for a small letter if it is that letter or its capital.
proof fn lemma_fold(c: char, small: char, capital: char)
    requires
        'A' <= capital <= 'Z',
        small as u32 == capital as u32 + 32,
    ensures
        fold(c) == fold(small) <==> (c == small || c == capital),
{
    if c as u32 == small as u32 {
        assert(c == small);
    }
    if c as u32 == capital as u32 {
        assert(c == capital);
    }
}

/// Which languages are Chinese.
proof fn lemma_chinese(language: Seq<char>)
    ensures
        begins_ignoring_case(language, "zh"@) == (language.len() >= 2 && (language[0] == 'z'
            || language[0] == 'Z') && (language[1] == 'h' || language[1] == 'H')),
{
    reveal_strlit("zh");
    assert("zh"@ =~= seq!['z', 'h']);
    let zh = folded("zh"@);
    let tag = folded(language);
    assert(zh.len() == 2 && tag.len() == language.len());
    assert(zh[0] == fold('z') && zh[1] == fold('h'));
    if language.len() >= 2 {
        let (first, second) = (language[0], language[1]);
        assert(tag[0] == fold(first) && tag[1] == fold(second));
        lemma_fold(first, 'z', 'Z');
        lemma_fold(second, 'h', 'H');
        if fold(first) == fold('z') && fold(second) == fold('h') {
            assert(tag.subrange(0, 2) =~= zh);
        } else if zh.is_prefix_of(tag) {
            assert(tag.subrange(0, 2)[0] == tag[0] && tag.subrange(0, 2)[1] == tag[1]);
        }
    }
}

/// One text in a row is that text.
proof fn lemma_one_is_said(text: Seq<char>, language: Seq<char>)
    ensures
        in_a_row(said(seq![text]), language) == trimmed(text),
        trimmed(text).len() > 0 ==> said(seq![text]) == seq![trimmed(text)],
        trimmed(text).len() == 0 ==> said(seq![text]).len() == 0,
{
    assert(seq![text].drop_last() =~= Seq::empty());
    assert(said(seq![text].drop_last()) =~= Seq::empty());
    if trimmed(text).len() > 0 {
        assert(said(seq![text]) =~= seq![trimmed(text)]);
    } else {
        assert(said(seq![text]) =~= Seq::empty());
        assert(trimmed(text) =~= Seq::empty());
    }
}

/// What is committed with some chunks is what was committed before and the chunks.
proof fn lemma_committed_in_a_row(
    committed: Seq<char>,
    chunks: Seq<Seq<char>>,
    language: Seq<char>,
)
    ensures
        trimmed(extended_translation(committed, chunks, language)) == in_a_row(
            said(seq![committed] + chunks),
            language,
        ),
    decreases chunks.len(),
{
    let all = seq![committed] + chunks;
    lemma_trim_idempotent(committed);
    if chunks.len() == 0 {
        assert(all =~= seq![committed]);
        lemma_one_is_said(committed, language);
    } else {
        lemma_committed_in_a_row(committed, chunks.drop_last(), language);
        assert(all.drop_last() =~= seq![committed] + chunks.drop_last());
        assert(all.last() == chunks.last());
        let before = extended_translation(committed, chunks.drop_last(), language);
        law_pieces_are_joined(before, chunks.last(), language);
        lemma_row_of_said(said(all.drop_last()), trimmed(chunks.last()), language);
        lemma_row_is_said(all.drop_last(), language);
    }
}

/// A row of one more text.
proof fn lemma_row_of_said(texts: Seq<Seq<char>>, text: Seq<char>, language: Seq<char>)
    ensures
        texts.len() == 0 ==> in_a_row(texts.push(text), language) == text,
        texts.len() > 0 ==> in_a_row(texts.push(text), language) == one_behind_other(
            in_a_row(texts, language),
            text,
            language,
        ),
{
    assert(texts.push(text).drop_last() =~= texts);
}

/// A row of texts that are not blank is empty only if there are none.
proof fn lemma_row_is_said(texts: Seq<Seq<char>>, language: Seq<char>)
    ensures
        in_a_row(said(texts), language).len() == 0 <==> said(texts).len() == 0,
        forall|i: int| 0 <= i < said(texts).len() ==> (#[trigger] said(texts)[i]).len() > 0,
    decreases texts.len(),
{
    if texts.len() > 0 {
        lemma_row_is_said(texts.drop_last(), language);
        let before = said(texts.drop_last());
        if trimmed(texts.last()).len() > 0 {
            lemma_row_of_said(before, trimmed(texts.last()), language);
        }
    }
}

/// A draft is the sentence from its beginning: what was committed before, the chunks that
/// are new and the window, in this order and none of them left out, each with no more than
/// a space before it. What is committed then is all of that but the window.
pub proof fn law_draft_is_the_whole_sentence(
    machine: MachineModel,
    plan: PlanModel,
    chunk_translations: Seq<Seq<char>>,
    window_translation: Seq<char>,
    target_language: Seq<char>,
)
    requires
        machine.window_finished(
            plan,
            chunk_translations,
            window_translation,
            target_language,
        ).1 is Some,
    ensures
        ({
            let (after, shown) = machine.window_finished(
                plan,
                chunk_translations,
                window_translation,
                target_language,
            );
            let draft = shown->0;
            let committed = trimmed(machine.committed_translation);
            let pieces = seq![machine.committed_translation] + chunk_translations;
            let window = trimmed(window_translation);
            &&& draft == in_a_row(said(pieces.push(window_translation)), target_language)
            &&& trimmed(after.committed_translation) == in_a_row(said(pieces), target_language)
            &&& chunk_translations.len() == 0 ==> after.committed_translation
                == machine.committed_translation
            &&& committed.is_prefix_of(draft)
            &&& committed.is_prefix_of(trimmed(after.committed_translation))
            &&& trimmed(after.committed_translation).is_prefix_of(draft)
            &&& window.is_suffix_of(draft)
            &&& committed.len() == 0 && chunk_translations.len() == 0 ==> draft == window
            &&& committed.len() > 0 && chunk_translations.len() == 0 && window.len() > 0 ==> draft
                == one_behind_other(committed, window, target_language)
            &&& committed.len() > 0 && chunk_translations.len() == 1 && trimmed(
                chunk_translations[0],
            ).len() > 0 && window.len() > 0 ==> draft == one_behind_other(
                one_behind_other(committed, trimmed(chunk_translations[0]), target_language),
                window,
                target_language,
            )
            &&& after.segment_id == machine.segment_id
            &&& after.latest_revision == machine.latest_revision
            &&& after.previous_hypothesis == machine.previous_hypothesis
            &&& after.limits_override == machine.limits_override
        }),
{
    let (after, shown) = machine.window_finished(
        plan,
        chunk_translations,
        window_translation,
        target_language,
    );
    let draft = shown->0;
    let pieces = seq![machine.committed_translation] + chunk_translations;
    lemma_committed_in_a_row(machine.committed_translation, chunk_translations, target_language);
    law_pieces_are_joined(after.committed_translation, window_translation, target_language);
    lemma_row_is_said(pieces, target_language);
    assert(pieces.push(window_translation).drop_last() =~= pieces);
    lemma_row_of_said(said(pieces), trimmed(window_translation), target_language);
    lemma_row_grows(
        machine.committed_translation,
        chunk_translations,
        target_language,
    );
    let front = trimmed(after.committed_translation);
    let back = trimmed(window_translation);
    assert(front.is_prefix_of(draft)) by {
        assert(draft.subrange(0, front.len() as int) =~= front);
    }
    assert(back.is_suffix_of(draft)) by {
        assert(draft.subrange(draft.len() - back.len(), draft.len() as int) =~= back);
    }
    let committed = trimmed(machine.committed_translation);
    assert(committed.is_prefix_of(draft)) by {
        assert(draft.subrange(0, committed.len() as int) =~= draft.subrange(
            0,
            front.len() as int,
        ).subrange(0, committed.len() as int));
    }
    if chunk_translations.len() == 0 {
        assert(pieces =~= seq![machine.committed_translation]);
        lemma_one_is_said(machine.committed_translation, target_language);
    } else if chunk_translations.len() == 1 {
        assert(pieces.drop_last() =~= seq![machine.committed_translation]);
        lemma_one_is_said(machine.committed_translation, target_language);
        assert(pieces.last() == chunk_translations[0]);
        lemma_row_of_said(
            said(pieces.drop_last()),
            trimmed(chunk_translations[0]),
            target_language,
        );
    }
}

/// A row begins with its first text.
proof fn lemma_row_grows(first: Seq<char>, more: Seq<Seq<char>>, language: Seq<char>)
    ensures
        trimmed(first).is_prefix_of(in_a_row(said(seq![first] + more), language)),
    decreases more.len(),
{
    let all = seq![first] + more;
    let head = trimmed(first);
    if more.len() == 0 {
        assert(all =~= seq![first]);
        lemma_one_is_said(first, language);
        assert(head.subrange(0, head.len() as int) =~= head);
    } else {
        lemma_row_grows(first, more.drop_last(), language);
        assert(all.drop_last() =~= seq![first] + more.drop_last());
        let before = in_a_row(said(all.drop_last()), language);
        lemma_row_of_said(said(all.drop_last()), trimmed(more.last()), language);
        lemma_row_is_said(all.drop_last(), language);
        let whole = in_a_row(said(all), language);
        assert(whole.subrange(0, before.len() as int) =~= before);
        assert(whole.subrange(0, head.len() as int) =~= before.subrange(0, head.len() as int));
    }
}

/// A new segment begins with nothing: what is planned and shown of it depends on nothing
/// that was said before.
pub proof fn law_new_segment_starts_afresh(
    machine: MachineModel,
    other: MachineModel,
    segment_id: u64,
    revision: u64,
    source_text: Seq<char>,
    source_language: Seq<char>,
    is_final: bool,
    window_translation: Seq<char>,
    target_language: Seq<char>,
)
    requires
        machine.segment_id != Some(segment_id),
        other.segment_id != Some(segment_id),
        machine.limits_override == other.limits_override,
        trimmed(source_text).len() > 0,
        revision > 0,
    ensures
        ({
            let (after, plan) = machine.begun(
                segment_id,
                revision,
                source_text,
                source_language,
                is_final,
            );
            &&& other.begun(segment_id, revision, source_text, source_language, is_final) == (
                after,
                plan,
            )
            &&& after.segment_id == Some(segment_id)
            &&& after.latest_revision == revision
            &&& after.previous_hypothesis == trimmed(source_text)
            &&& after.committed_source.len() == 0
            &&& after.committed_translation.len() == 0
            &&& after.limits_override == machine.limits_override
            &&& plan matches Some(plan) && {
                &&& plan.segment_id == segment_id && plan.revision == revision
                &&& plan.source_text == trimmed(source_text)
                &&& plan.chunks_to_commit.len() == 0
                &&& plan.mutable_window == trimmed(source_text)
                &&& plan.full_reconcile == is_final
                &&& !is_final ==> after.window_finished(
                    plan,
                    Seq::empty(),
                    window_translation,
                    target_language,
                ).1 == Some(trimmed(window_translation))
            }
        }),
{
    let source = trimmed(source_text);
    assert(Seq::<char>::empty().is_prefix_of(source)) by {
        assert(source.subrange(0, 0) =~= Seq::empty());
    }
    assert(common_prefix_len(Seq::empty(), source) == 0);
    assert(source.skip(0) =~= source);
    lemma_trim_idempotent(source_text);
    law_pieces_are_joined(Seq::empty(), window_translation, target_language);
    assert(trimmed(Seq::<char>::empty()) =~= Seq::empty());
}

/// A text that goes on from what was committed keeps it, and its translation; only a text
/// that takes it back gives it up.
pub proof fn law_growing_text_keeps_what_was_committed(
    machine: MachineModel,
    segment_id: u64,
    revision: u64,
    source_text: Seq<char>,
    source_language: Seq<char>,
    is_final: bool,
)
    requires
        machine.segment_id == Some(segment_id),
        machine.latest_revision < revision,
        trimmed(source_text).len() > 0,
        machine.committed_source.is_prefix_of(trimmed(source_text)),
    ensures
        ({
            let (after, plan) = machine.begun(
                segment_id,
                revision,
                source_text,
                source_language,
                is_final,
            );
            &&& after.segment_id == Some(segment_id)
            &&& after.latest_revision == revision
            &&& after.previous_hypothesis == trimmed(source_text)
            &&& after.committed_source == machine.committed_source
            &&& after.committed_translation == machine.committed_translation
            &&& after.limits_override == machine.limits_override
            &&& plan matches Some(plan) && {
                &&& plan.segment_id == segment_id && plan.revision == revision
                &&& plan.source_text == trimmed(source_text)
                &&& plan.full_reconcile == is_final
                &&& plan.committed_source_before == machine.committed_source
            }
        }),
{
}

/// Blank text, and a revision that is not new to its segment, get no plan and leave all
/// that the machine keeps of the segment as it is.
pub proof fn law_nothing_new_is_not_planned(
    machine: MachineModel,
    segment_id: u64,
    revision: u64,
    source_text: Seq<char>,
    source_language: Seq<char>,
    is_final: bool,
)
    requires
        trimmed(source_text).len() == 0 || (machine.segment_id == Some(segment_id) && revision
            <= machine.latest_revision),
    ensures
        machine.begun(segment_id, revision, source_text, source_language, is_final) == (
            machine,
            None::<PlanModel>,
        ),
{
}

/// The characters of a text that are no white space.
pub open spec fn inked(text: Seq<char>) -> Seq<char>
    decreases text.len(),
{
    if text.len() == 0 {
        Seq::empty()
    } else if is_space(text.last()) {
        inked(text.drop_last())
    } else {
        inked(text.drop_last()).push(text.last())
    }
}

/// What is inked in two texts is inked in both together.
proof fn lemma_inked_concat(left: Seq<char>, right: Seq<char>)
    ensures
        inked(left + right) == inked(left) + inked(right),
    decreases right.len(),
{
    if right.len() == 0 {
        assert(left + right =~= left);
        assert(inked(left) + inked(right) =~= inked(left));
    } else {
        lemma_inked_concat(left, right.drop_last());
        assert((left + right).drop_last() =~= left + right.drop_last());
        assert((left + right).last() == right.last());
        if !is_space(right.last()) {
            assert((inked(left) + inked(right.drop_last())).push(right.last()) =~= inked(left)
                + inked(right.drop_last()).push(right.last()));
        }
    }
}

/// Nothing is inked in white space.
proof fn lemma_inked_blank(text: Seq<char>)
    requires
        forall|i: int| 0 <= i < text.len() ==> is_space(#[trigger] text[i]),
    ensures
        inked(text).len() == 0,
    decreases text.len(),
{
    if text.len() > 0 {
        assert(is_space(text[text.len() - 1]));
        assert forall|i: int| 0 <= i < text.drop_last().len() implies is_space(
            #[trigger] text.drop_last()[i],
        ) by {
            assert(is_space(text[i]));
        }
        lemma_inked_blank(text.drop_last());
    }
}

/// Trimming takes nothing away that is inked.
proof fn lemma_inked_trimmed(text: Seq<char>)
    ensures
        inked(trimmed(text)) == inked(text),
{
    let front = strip_start(text, spaces());
    lemma_strip_start(text, spaces());
    lemma_strip_end(front, spaces());
    let cut = text.len() - front.len();
    let head = text.take(cut);
    let tail = front.skip(trimmed(text).len() as int);
    assert forall|i: int| 0 <= i < head.len() implies is_space(#[trigger] head[i]) by {
        assert(spaces()(text[i]));
    }
    assert forall|i: int| 0 <= i < tail.len() implies is_space(#[trigger] tail[i]) by {
        assert(spaces()(front[trimmed(text).len() + i]));
    }
    lemma_inked_blank(head);
    lemma_inked_blank(tail);
    lemma_inked_concat(head, front);
    lemma_inked_concat(trimmed(text), tail);
    assert(head + front =~= text);
    assert(trimmed(text) + tail =~= front);
    assert(inked(head) + inked(front) =~= inked(front));
    assert(inked(trimmed(text)) + inked(tail) =~= inked(trimmed(text)));
}

/// The chunks hold what lies between the committed text and the window.
proof fn lemma_planned_is_inked(
    source: Seq<char>,
    stable: nat,
    cursor: nat,
    window: nat,
    rollback: nat,
)
    requires
        cursor <= source.len(),
        stable <= source.len(),
    ensures
        ({
            let (chunks, end) = planned(source, stable, cursor, window, rollback);
            cursor <= end <= source.len() && inked(raw_text(chunks)) == inked(
                source.subrange(cursor as int, end as int),
            )
        }),
    decreases source.len() - cursor,
{
    if stable <= source.len() && cursor + window < source.len() && cursor + rollback + 1 < stable {
        let desired = desired_len((stable - cursor) as nat, window, rollback);
        let stable_part = source.subrange(cursor as int, stable as int);
        let cut = cut_len(stable_part, desired);
        lemma_cut(stable_part, desired);
        let raw = source.subrange(cursor as int, (cursor + cut) as int);
        lemma_planned_is_inked(source, stable, cursor + cut, window, rollback);
        let (later, end) = planned(source, stable, cursor + cut, window, rollback);
        let rest = source.subrange((cursor + cut) as int, end as int);
        assert(source.subrange(cursor as int, end as int) =~= raw + rest);
        lemma_inked_concat(raw, rest);
        if trimmed(raw).len() == 0 {
            lemma_trimmed(raw);
            lemma_inked_blank(raw);
            assert(inked(raw) + inked(rest) =~= inked(rest));
        } else {
            let chunk = ChunkModel { raw_source: raw, model_text: trimmed(raw) };
            lemma_raw_text_front(chunk, later);
            lemma_inked_concat(raw, raw_text(later));
        }
    } else {
        assert(source.subrange(cursor as int, cursor as int) =~= Seq::empty());
    }
}

/// What is translated of running text is all of it that is not committed: the chunks and
/// the window hold every character behind the committed text, in order and once, but for
/// white space.
pub proof fn law_nothing_is_left_untranslated(
    machine: MachineModel,
    segment_id: u64,
    revision: u64,
    source_text: Seq<char>,
    source_language: Seq<char>,
)
    ensures
        ({
            let (after, plan) = machine.begun(
                segment_id,
                revision,
                source_text,
                source_language,
                false,
            );
            plan matches Some(plan) ==> {
                &&& after.committed_source.is_prefix_of(trimmed(source_text))
                &&& inked(trimmed(source_text).skip(after.committed_source.len() as int)) == inked(
                    raw_text(plan.chunks_to_commit),
                ) + inked(plan.mutable_window)
                &&& forall|i: int|
                    0 <= i < plan.chunks_to_commit.len() ==> {
                        let chunk = #[trigger] plan.chunks_to_commit[i];
                        chunk.model_text == trimmed(chunk.raw_source) && chunk.model_text.len() > 0
                    }
            }
        }),
{
    let source = trimmed(source_text);
    let base = machine.entered(segment_id).rebased(segment_id, source);
    let (after, plan) = machine.begun(segment_id, revision, source_text, source_language, false);
    if let Some(plan) = plan {
        assert(base.committed_source.is_prefix_of(source)) by {
            if !machine.entered(segment_id).committed_source.is_prefix_of(source) {
                assert(source.subrange(0, 0) =~= Seq::empty());
            }
        }
        let stable = common_prefix_len(base.previous_hypothesis, source);
        lemma_common_prefix(base.previous_hypothesis, source);
        let limits = base.limits(source_language);
        let cursor = base.committed_source.len();
        law_planned(source, stable, cursor, limits.0 as nat, limits.1 as nat);
        lemma_planned_is_inked(source, stable, cursor, limits.0 as nat, limits.1 as nat);
        let end = planned(source, stable, cursor, limits.0 as nat, limits.1 as nat).1 as int;
        let between = source.subrange(cursor as int, end);
        let window = source.skip(end);
        assert(source.skip(cursor as int) =~= between + window);
        lemma_inked_concat(between, window);
        lemma_inked_trimmed(window);
    }
}

/// A chunk is cut behind white space or a mark if there is any in its second half, and then
/// behind the last; otherwise it is cut at its full length.
pub proof fn law_cuts_stand_at_boundaries(text: Seq<char>, desired: nat)
    requires
        0 < desired <= text.len(),
    ensures
        ({
            let cut = cut_len(text, desired);
            let may_cut = |k: int|
                is_space(text[k - 1]) || seq![
                    '，',
                    '。',
                    '；',
                    '！',
                    '？',
                    ',',
                    '.',
                    ';',
                    '!',
                    '?',
                ].contains(text[k - 1]);
            &&& 0 < cut <= desired
            &&& forall|k: int| cut < k <= desired && desired / 2 <= k ==> !#[trigger] may_cut(k)
            &&& cut < desired ==> desired / 2 <= cut && may_cut(cut as int)
        }),
{
    let cut = cut_len(text, desired);
    let marks = seq!['，', '。', '；', '！', '？', ',', '.', ';', '!', '?'];
    assert forall|c: char| #[trigger] cuts_after(c) == (is_space(c) || marks.contains(c)) by {
        assert(marks[0] == '，' && marks[1] == '。' && marks[2] == '；' && marks[3] == '！' && marks[4]
            == '？' && marks[5] == ',' && marks[6] == '.' && marks[7] == ';' && marks[8] == '!'
            && marks[9] == '?');
    }
    lemma_cut(text, desired);
    lemma_last_cut_is_last(text, desired, desired / 2);
    let may_cut = |k: int| is_space(text[k - 1]) || marks.contains(text[k - 1]);
    assert forall|k: int| cut < k <= desired && desired / 2 <= k implies !#[trigger] may_cut(k) by {
        assert(!cuts_after(text[k - 1]));
    }
    if cut < desired {
        assert(cuts_after(text[cut - 1]));
    }
}

proof fn lemma_last_cut_is_last(text: Seq<char>, count: nat, minimum: nat)
    requires
        count <= text.len(),
    ensures
        ({
            let cut = last_cut(text, count, minimum);
            &&& cut <= count
            &&& cut > 0 ==> minimum <= cut && cuts_after(text[cut - 1])
            &&& forall|k: int|
                cut < k <= count && minimum <= k ==> !cuts_after(#[trigger] text[k - 1])
        }),
    decreases count,
{
    if count != 0 && count >= minimum && !cuts_after(text[count - 1]) {
        lemma_last_cut_is_last(text, (count - 1) as nat, minimum);
    }
}

/// Chinese is translated in windows of thirty-six characters with twelve of the stable text
/// held back, other languages in windows of ninety-six with thirty-two held back, unless
/// other limits are set.
pub proof fn law_windows_follow_the_language(machine: MachineModel, language: Seq<char>)
    ensures
        machine.limits_override matches Some(limits) ==> machine.limits(language) == limits,
        machine.limits_override is None ==> machine.limits(language) == (if language.len() >= 2 && (
        language[0] == 'z' || language[0] == 'Z') && (language[1] == 'h' || language[1] == 'H') {
            (36usize, 12usize)
        } else {
            (96usize, 32usize)
        }),
{
    lemma_chinese(language);
}

/// As long as more is left than the window holds, and enough of it is stable, a chunk is cut
/// off in front and planning goes on behind it; otherwise what is left is the window. As much
/// is wanted of a chunk as the window holds beyond what is held back, if that is stable.
pub proof fn law_chunks_are_cut_in_front(
    source: Seq<char>,
    stable: nat,
    cursor: nat,
    window: nat,
    rollback: nat,
)
    requires
        cursor <= stable <= source.len(),
    ensures
        ({
            let left = source.len() - cursor;
            let held = stable - cursor;
            let room = if window > rollback + 1 {
                window - rollback
            } else {
                1
            };
            let wanted = if room < held - rollback {
                room
            } else {
                held - rollback
            };
            let (chunks, end) = planned(source, stable, cursor, window, rollback);
            if left > window && held > rollback + 1 {
                let cut = cut_len(source.subrange(cursor as int, stable as int), wanted as nat);
                let raw = source.subrange(cursor as int, (cursor + cut) as int);
                let (later, rest) = planned(source, stable, cursor + cut, window, rollback);
                &&& 0 < cut <= wanted
                &&& end == rest
                &&& chunks == (if trimmed(raw).len() == 0 {
                    later
                } else {
                    seq![ChunkModel { raw_source: raw, model_text: trimmed(raw) }] + later
                })
            } else {
                chunks.len() == 0 && end == cursor
            }
        }),
{
    if cursor + window < source.len() && cursor + rollback + 1 < stable {
        let wanted = desired_len((stable - cursor) as nat, window, rollback);
        law_cuts_stand_at_boundaries(source.subrange(cursor as int, stable as int), wanted);
    }
}

/// Translations are taken for the plan that the machine waits for and for no other: of the
/// same segment, revision and kind, made from what is committed now, with a translation for
/// each chunk, and once.
pub proof fn law_only_the_awaited_plan_is_taken(
    machine: MachineModel,
    plan: PlanModel,
    chunk_translations: Seq<Seq<char>>,
    translation: Seq<char>,
    target_language: Seq<char>,
)
    ensures
        ({
            let (after, shown) = machine.window_finished(
                plan,
                chunk_translations,
                translation,
                target_language,
            );
            &&& shown is Some <==> {
                &&& machine.segment_id == Some(plan.segment_id)
                &&& machine.latest_revision == plan.revision
                &&& machine.phase == TranslationPhase::TranslatingWindow
                &&& machine.committed_source == plan.committed_source_before
                &&& !plan.full_reconcile
                &&& chunk_translations.len() == plan.chunks_to_commit.len()
            }
            &&& shown is None ==> after == machine
            &&& shown is Some ==> after.window_finished(
                plan,
                chunk_translations,
                translation,
                target_language,
            ) == (after, None::<Seq<char>>)
        }),
        ({
            let (after, shown) = machine.final_finished(plan, translation);
            &&& shown is Some <==> {
                &&& machine.segment_id == Some(plan.segment_id)
                &&& machine.latest_revision == plan.revision
                &&& machine.phase == TranslationPhase::Finalizing
                &&& machine.committed_source == plan.committed_source_before
                &&& plan.full_reconcile
            }
            &&& shown is None ==> after == machine
            &&& shown matches Some(text) ==> text == trimmed(translation)
                && after.committed_translation == text && after.committed_source
                == plan.source_text && after.segment_id == machine.segment_id
                && after.latest_revision == machine.latest_revision && after.previous_hypothesis
                == machine.previous_hypothesis
        }),
{
}

/// What is committed with the results for a plan is the raw text of its chunks, behind what
/// was committed before, each chunk behind the one before it.
pub proof fn law_chunks_are_committed_in_order(
    machine: MachineModel,
    plan: PlanModel,
    chunk_translations: Seq<Seq<char>>,
    translation: Seq<char>,
    target_language: Seq<char>,
    chunk: ChunkModel,
)
    requires
        machine.window_finished(
            plan,
            chunk_translations,
            translation,
            target_language,
        ).1 is Some,
    ensures
        machine.window_finished(
            plan,
            chunk_translations,
            translation,
            target_language,
        ).0.committed_source == machine.committed_source + raw_text(plan.chunks_to_commit),
        raw_text(Seq::empty()).len() == 0,
        raw_text(plan.chunks_to_commit.push(chunk)) == raw_text(plan.chunks_to_commit)
            + chunk.raw_source,
{
    assert(plan.chunks_to_commit.push(chunk).drop_last() =~= plan.chunks_to_commit);
}

} // verus!
