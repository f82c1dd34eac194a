//! Cutting the recogniser's running text into segments with ascending revisions.
use crate::clock::{elapsed, time_between};
use crate::domain::{optional_snapshot, CaptionState, SegmentSnapshot, SnapshotModel};
use crate::revision::{foreign_characters, is_short, is_short_segment};
use crate::text::{
    chars_of, same_chars, slice_of, starts_with, string_of, strip_end, trim_chars, trimmed, words,
};
use vstd::prelude::*;

verus! {

/// For how many nanoseconds a text must stay as it is before the mark of a sentence's end
/// closes its segment.
pub const STABLE_MARK: u128 = 300_000_000;

/// After how many nanoseconds of speech a segment is closed though nothing else closes it.
pub const LONGEST_SEGMENT: u128 = 8_000_000_000;

/// Follows the recogniser's running text. Points in time are nanoseconds since a
/// fixed moment.
#[derive(Debug)]
pub struct SegmentManager {
    committed_prefix: String,
    latest_full_text: String,
    segment_id: u64,
    revision: u64,
    started_at: Option<u128>,
    updated_at: Option<u128>,
    idle_timeout: u128,
}

/// The state of a segment manager.
pub struct ManagerModel {
    pub committed_prefix: Seq<char>,
    pub latest_full_text: Seq<char>,
    pub segment_id: u64,
    pub revision: u64,
    /// When the current segment showed its first text.
    pub started_at: Option<u128>,
    /// When the running text changed last.
    pub updated_at: Option<u128>,
    pub idle_timeout: u128,
}

impl View for SegmentManager {
    type V = ManagerModel;

    closed spec fn view(&self) -> ManagerModel {
        ManagerModel {
            committed_prefix: self.committed_prefix@,
            latest_full_text: self.latest_full_text@,
            segment_id: self.segment_id,
            revision: self.revision,
            started_at: self.started_at,
            updated_at: self.updated_at,
            idle_timeout: self.idle_timeout,
        }
    }
}

/// The number after `n`, or the largest one there is.
pub open spec fn next_count(n: u64) -> u64 {
    if n < u64::MAX {
        (n + 1) as u64
    } else {
        n
    }
}

/// The closing quotes and brackets that may follow the end of a sentence.
pub open spec fn is_closer(c: char) -> bool {
    c == '"' || c == '\'' || c == '”' || c == '’' || c == ')' || c == '）' || c == ']' || c == '】' || c
        == '}' || c == '》'
}

/// The predicate that holds of closing quotes and brackets.
pub open spec fn closers() -> spec_fn(char) -> bool {
    |c: char| is_closer(c)
}

/// The marks that end a sentence.
pub open spec fn is_terminator(c: char) -> bool {
    c == '。' || c == '！' || c == '？' || c == '.' || c == '!' || c == '?' || c == '；' || c == ';' || c
        == '…' || c == '\n'
}

/// Whether a text ends with the mark of a sentence's end, closing quotes aside.
pub open spec fn is_sentence(text: Seq<char>) -> bool {
    let body = strip_end(text, closers());
    body.len() > 0 && is_terminator(body.last())
}

/// Whether a text is long enough for the mark of a sentence's end to close its segment: it
/// has six words, or ten letters and numbers outside ASCII, as Chinese characters are.
pub open spec fn is_long_enough(text: Seq<char>) -> bool {
    !is_short(words(text).len(), foreign_characters(text))
}

impl ManagerModel {
    /// The text of the current segment: what follows the committed prefix.
    pub open spec fn current(self) -> Seq<char> {
        if self.committed_prefix.is_prefix_of(self.latest_full_text) {
            trimmed(self.latest_full_text.skip(self.committed_prefix.len() as int))
        } else {
            trimmed(self.latest_full_text)
        }
    }

    /// The current segment as a snapshot.
    pub open spec fn snapshot(self, state: CaptionState) -> SnapshotModel {
        SnapshotModel {
            segment_id: self.segment_id,
            revision: self.revision,
            state,
            source_text: self.current(),
        }
    }

    /// The state before the first text.
    pub open spec fn initial(idle_timeout: u128) -> ManagerModel {
        ManagerModel {
            committed_prefix: Seq::empty(),
            latest_full_text: Seq::empty(),
            segment_id: 1,
            revision: 0,
            started_at: None,
            updated_at: None,
            idle_timeout,
        }
    }

    /// The state once a text that is new has been taken, before it is counted: a text
    /// that does not begin with the committed prefix opens a new segment.
    pub open spec fn took(self, text: Seq<char>, now: u128) -> ManagerModel {
        let kept = self.committed_prefix.is_prefix_of(text);
        ManagerModel {
            committed_prefix: if kept { self.committed_prefix } else { Seq::empty() },
            latest_full_text: text,
            segment_id: if kept { self.segment_id } else { next_count(self.segment_id) },
            revision: if kept { self.revision } else { 0 },
            started_at: if kept { self.started_at } else { None },
            updated_at: Some(now),
            idle_timeout: self.idle_timeout,
        }
    }

    /// The state after a running text, and the partial snapshot if it shows anything new.
    pub open spec fn updated(self, full_text: Seq<char>, now: u128) -> (
        ManagerModel,
        Option<SnapshotModel>,
    ) {
        let text = trimmed(full_text);
        if text.len() == 0 || text == self.latest_full_text {
            (self, None)
        } else {
            let taken = self.took(text, now);
            if taken.current().len() == 0 {
                (taken, None)
            } else {
                let counted = ManagerModel {
                    revision: next_count(taken.revision),
                    started_at: match taken.started_at {
                        Some(start) => Some(start),
                        None => Some(now),
                    },
                    ..taken
                };
                (counted, Some(counted.snapshot(CaptionState::Partial)))
            }
        }
    }

    /// Whether the current segment is over: nothing new came for the idle time, its text
    /// ends a sentence of some length and has stayed so, or it has gone on for long enough.
    pub open spec fn is_over(self, now: u128) -> bool {
        &&& self.current().len() > 0
        &&& self.updated_at matches Some(at)
        &&& {
            ||| time_between(at, now) >= self.idle_timeout
            ||| is_sentence(self.current()) && is_long_enough(self.current()) && time_between(
                at,
                now,
            ) >= STABLE_MARK
            ||| self.started_at matches Some(start) && time_between(start, now) >= LONGEST_SEGMENT
        }
    }

    /// The state after the current segment was closed, and its final snapshot if it
    /// holds any text.
    pub open spec fn finalized(self) -> (ManagerModel, Option<SnapshotModel>) {
        if self.current().len() == 0 {
            (self, None)
        } else {
            let counted = ManagerModel { revision: next_count(self.revision), ..self };
            (
                ManagerModel {
                    committed_prefix: self.latest_full_text,
                    segment_id: next_count(self.segment_id),
                    revision: 0,
                    started_at: None,
                    updated_at: None,
                    ..self
                },
                Some(counted.snapshot(CaptionState::Final)),
            )
        }
    }
}

impl SegmentManager {
    /// A manager that closes a segment after `idle_timeout` nanoseconds without news.
    pub fn new(idle_timeout: u128) -> (manager: Self)
        ensures
            manager@ == ManagerModel::initial(idle_timeout),
    {
        SegmentManager {
            committed_prefix: String::new(),
            latest_full_text: String::new(),
            segment_id: 1,
            revision: 0,
            started_at: None,
            updated_at: None,
            idle_timeout,
        }
    }

    /// Takes the recogniser's running text. Returns the current segment's next
    /// revision if the text shows anything new.
    pub fn update(&mut self, full_text: &str, now: u128) -> (snapshot: Option<SegmentSnapshot>)
        ensures
            (final(self)@, optional_snapshot(snapshot)) == old(self)@.updated(full_text@, now),
    {
        let text = trim_chars(&chars_of(full_text));
        if text.len() == 0 || same_chars(&text, &chars_of(self.latest_full_text.as_str())) {
            return None;
        }
        if !starts_with(&text, &chars_of(self.committed_prefix.as_str())) {
            self.committed_prefix = String::new();
            self.segment_id = self.segment_id.saturating_add(1);
            self.revision = 0;
            self.started_at = None;
        }
        self.latest_full_text = string_of(&text);
        self.updated_at = Some(now);
        proof {
            assert(self@ == old(self)@.took(text@, now));
        }
        let current = self.current_text();
        if current.as_str().is_empty() {
            return None;
        }
        self.revision = self.revision.saturating_add(1);
        if self.started_at.is_none() {
            self.started_at = Some(now);
        }
        Some(self.snapshot(CaptionState::Partial, current))
    }

    /// Whether the current segment is over.
    pub fn should_finalize(&self, now: u128) -> (over: bool)
        ensures
            over == self@.is_over(now),
    {
        match self.updated_at {
            None => false,
            Some(updated_at) => {
                let current = self.current_text();
                let unchanged = elapsed(updated_at, now);
                let goes_on = match self.started_at {
                    Some(start) => elapsed(start, now) >= LONGEST_SEGMENT,
                    None => false,
                };
                !current.as_str().is_empty() && (unchanged >= self.idle_timeout || goes_on || (
                unchanged >= STABLE_MARK && ends_sentence(current.as_str()) && !is_short_segment(
                    current.as_str(),
                )))
            },
        }
    }

    /// Closes the current segment. Returns its final snapshot if it holds any text.
    pub fn finalize(&mut self) -> (snapshot: Option<SegmentSnapshot>)
        ensures
            (final(self)@, optional_snapshot(snapshot)) == old(self)@.finalized(),
    {
        let current = self.current_text();
        if current.as_str().is_empty() {
            return None;
        }
        self.revision = self.revision.saturating_add(1);
        let snapshot = self.snapshot(CaptionState::Final, current);
        self.committed_prefix = self.latest_full_text.clone();
        self.segment_id = self.segment_id.saturating_add(1);
        self.revision = 0;
        self.started_at = None;
        self.updated_at = None;
        Some(snapshot)
    }

    /// The text of the current segment.
    fn current_text(&self) -> (text: String)
        ensures
            text@ == self@.current(),
    {
        let full = chars_of(self.latest_full_text.as_str());
        let committed = chars_of(self.committed_prefix.as_str());
        if starts_with(&full, &committed) {
            let rest = slice_of(&full, committed.len(), full.len());
            proof {
                assert(rest@ == full@.skip(committed@.len() as int));
            }
            string_of(&trim_chars(&rest))
        } else {
            string_of(&trim_chars(&full))
        }
    }

    /// A snapshot of the current segment with the given text.
    fn snapshot(&self, state: CaptionState, text: String) -> (snapshot: SegmentSnapshot)
        ensures
            snapshot@ == (SnapshotModel {
                segment_id: self@.segment_id,
                revision: self@.revision,
                state,
                source_text: text@,
            }),
    {
        SegmentSnapshot {
            segment_id: self.segment_id,
            revision: self.revision,
            state,
            source_text: text,
        }
    }
}

/// Whether a text ends with the mark of a sentence's end, closing quotes aside.
pub fn ends_sentence(text: &str) -> (ends: bool)
    ensures
        ends == is_sentence(text@),
{
    let chars = chars_of(text);
    let mut end: usize = chars.len();
    proof {
        assert(chars@.take(end as int) == chars@);
    }
    while end > 0 && (chars[end - 1] == '"' || chars[end - 1] == '\'' || chars[end - 1] == '”'
        || chars[end - 1] == '’' || chars[end - 1] == ')' || chars[end - 1] == '）' || chars[end - 1]
        == ']' || chars[end - 1] == '】' || chars[end - 1] == '}' || chars[end - 1] == '》')
        invariant
            end <= chars.len(),
            strip_end(chars@.take(end as int), closers()) == strip_end(chars@, closers()),
        decreases end,
    {
        proof {
            assert(chars@.take(end as int).last() == chars@[end - 1]);
            assert(chars@.take(end as int).drop_last() == chars@.take(end - 1));
        }
        end = end - 1;
    }
    proof {
        if end > 0 {
            assert(chars@.take(end as int).last() == chars@[end - 1]);
        }
    }
    if end == 0 {
        return false;
    }
    let last = chars[end - 1];
    last == '。' || last == '！' || last == '？' || last == '.' || last == '!' || last == '?' || last
        == '；' || last == ';' || last == '…' || last == '\n'
}

// ---------------------------------------------------------------------------------
// Laws
// ---------------------------------------------------------------------------------

/// A text that goes on from what was committed replaces the current segment's text:
/// the same segment, with a higher revision.
pub proof fn law_updates_replace_one_segment(manager: ManagerModel, full_text: Seq<char>, now: u128)
    requires
        manager.committed_prefix.is_prefix_of(trimmed(full_text)),
        manager.revision < u64::MAX,
    ensures
        manager.updated(full_text, now).1 matches Some(snapshot) ==> {
            &&& snapshot.segment_id == manager.segment_id
            &&& snapshot.revision == manager.revision + 1
            &&& snapshot.revision == manager.updated(full_text, now).0.revision
            &&& manager.updated(full_text, now).0.segment_id == manager.segment_id
        },
{
}

/// A text that takes back what was committed opens the next segment, with all of the
/// text in it.
pub proof fn law_retraction_opens_a_segment(manager: ManagerModel, full_text: Seq<char>, now: u128)
    requires
        trimmed(full_text).len() > 0,
        trimmed(full_text) != manager.latest_full_text,
        !manager.committed_prefix.is_prefix_of(trimmed(full_text)),
        manager.segment_id < u64::MAX,
    ensures
        manager.updated(full_text, now).1 == Some(
            SnapshotModel {
                segment_id: (manager.segment_id + 1) as u64,
                revision: 1,
                state: CaptionState::Partial,
                source_text: trimmed(full_text),
            },
        ),
        manager.updated(full_text, now).0.committed_prefix.len() == 0,
        manager.updated(full_text, now).0.latest_full_text == trimmed(full_text),
        manager.updated(full_text, now).0.segment_id == manager.segment_id + 1,
        manager.updated(full_text, now).0.revision == 1,
        manager.updated(full_text, now).0.started_at == Some(now),
        manager.updated(full_text, now).0.updated_at == Some(now),
        manager.updated(full_text, now).0.idle_timeout == manager.idle_timeout,
{
    let text = trimmed(full_text);
    crate::text::lemma_trim_idempotent(full_text);
    assert(text.skip(0) =~= text);
    assert(text.subrange(0, 0) =~= Seq::empty());
    assert(Seq::<char>::empty().is_prefix_of(text));
}

/// The snapshot of a closed segment outranks every earlier one of it, and the next
/// segment starts empty under the next number.
pub proof fn law_closing_moves_on(manager: ManagerModel)
    requires
        manager.current().len() > 0,
        manager.revision < u64::MAX,
        manager.segment_id < u64::MAX,
    ensures
        manager.finalized().1 == Some(
            SnapshotModel {
                segment_id: manager.segment_id,
                revision: (manager.revision + 1) as u64,
                state: CaptionState::Final,
                source_text: manager.current(),
            },
        ),
        manager.finalized().0.segment_id == manager.segment_id + 1,
        manager.finalized().0.current().len() == 0,
        manager.finalized().0.finalized() == (manager.finalized().0, None::<SnapshotModel>),
        forall|now: u128| !manager.finalized().0.is_over(now),
{
    let closed = manager.finalized().0;
    assert(closed.latest_full_text.subrange(0, closed.latest_full_text.len() as int)
        =~= closed.latest_full_text);
    assert(closed.latest_full_text.skip(closed.committed_prefix.len() as int) =~= Seq::empty());
    assert(trimmed(Seq::<char>::empty()) =~= Seq::empty());
}

/// What was committed does not show up in the next segment: a text that goes on from
/// it gives a snapshot of what follows alone.
pub proof fn law_committed_text_is_not_repeated(
    manager: ManagerModel,
    full_text: Seq<char>,
    now: u128,
)
    requires
        manager.current().len() > 0,
        manager.latest_full_text.is_prefix_of(trimmed(full_text)),
        manager.segment_id < u64::MAX,
    ensures
        manager.finalized().0.updated(full_text, now).1 matches Some(snapshot) ==> {
            &&& snapshot.segment_id == manager.segment_id + 1
            &&& snapshot.revision == 1
            &&& snapshot.source_text == trimmed(
                trimmed(full_text).skip(manager.latest_full_text.len() as int),
            )
        },
{
}

/// A running text that is empty, or that was taken before, changes nothing.
pub proof fn law_repeated_text_is_ignored(
    manager: ManagerModel,
    full_text: Seq<char>,
    first: u128,
    second: u128,
)
    ensures
        ({
            let once = manager.updated(full_text, first).0;
            once.updated(full_text, second) == (once, None::<SnapshotModel>)
        }),
{
}

/// The mark of a sentence's end closes no segment at once, and none that is short; what has
/// been said for long enough is closed in any case.
pub proof fn law_marks_must_stay(manager: ManagerModel, now: u128)
    requires
        manager.updated_at is Some,
        manager.started_at is Some,
        time_between(manager.updated_at->0, now) < manager.idle_timeout,
    ensures
        time_between(manager.updated_at->0, now) < STABLE_MARK && time_between(
            manager.started_at->0,
            now,
        ) < LONGEST_SEGMENT ==> !manager.is_over(now),
        !is_long_enough(manager.current()) && time_between(manager.started_at->0, now)
            < LONGEST_SEGMENT ==> !manager.is_over(now),
        manager.current().len() > 0 && time_between(manager.started_at->0, now)
            >= LONGEST_SEGMENT ==> manager.is_over(now),
{
}

/// A segment begins with its first text: later texts of it leave its start where it is.
pub proof fn law_start_stays(manager: ManagerModel, full_text: Seq<char>, now: u128)
    requires
        manager.committed_prefix.is_prefix_of(trimmed(full_text)),
    ensures
        manager.started_at is Some ==> manager.updated(full_text, now).0.started_at
            == manager.started_at,
        manager.started_at is None && manager.updated(full_text, now).1 is Some ==> manager.updated(
            full_text,
            now,
        ).0.started_at == Some(now),
        manager.current().len() > 0 ==> manager.finalized().0.started_at is None,
{
}

/// A running text that is new is taken as it is, white space around it aside. What it shows
/// is what follows the committed text, in the same segment and under the next revision; it
/// shows nothing only where nothing follows.
pub proof fn law_running_text_is_taken(manager: ManagerModel, full_text: Seq<char>, now: u128)
    requires
        trimmed(full_text).len() > 0,
        trimmed(full_text) != manager.latest_full_text,
        manager.committed_prefix.is_prefix_of(trimmed(full_text)),
        manager.revision < u64::MAX,
    ensures
        ({
            let text = trimmed(full_text);
            let rest = trimmed(text.skip(manager.committed_prefix.len() as int));
            let (after, shown) = manager.updated(full_text, now);
            &&& after.latest_full_text == text
            &&& after.committed_prefix == manager.committed_prefix
            &&& after.segment_id == manager.segment_id
            &&& after.updated_at == Some(now)
            &&& after.idle_timeout == manager.idle_timeout
            &&& after.current() == rest
            &&& rest.len() == 0 ==> shown is None && after.revision == manager.revision
            &&& rest.len() > 0 ==> after.revision == manager.revision + 1 && shown == Some(
                SnapshotModel {
                    segment_id: manager.segment_id,
                    revision: (manager.revision + 1) as u64,
                    state: CaptionState::Partial,
                    source_text: rest,
                },
            )
        }),
{
}

/// A running text that is blank or not new changes nothing.
pub proof fn law_old_text_changes_nothing(manager: ManagerModel, full_text: Seq<char>, now: u128)
    requires
        trimmed(full_text).len() == 0 || trimmed(full_text) == manager.latest_full_text,
    ensures
        manager.updated(full_text, now) == (manager, None::<SnapshotModel>),
{
}

/// A segment is closed with all its text: what was taken so far is committed, the next
/// segment has nothing yet, and no time of the closed one is left. A segment without text
/// is not closed.
pub proof fn law_closing_commits_the_text(manager: ManagerModel)
    ensures
        ({
            let (after, closed) = manager.finalized();
            &&& after.current().len() == 0
            &&& after.latest_full_text == manager.latest_full_text
            &&& after.idle_timeout == manager.idle_timeout
            &&& manager.current().len() == 0 ==> closed is None && after == manager
            &&& manager.current().len() > 0 ==> {
                &&& after.committed_prefix == manager.latest_full_text
                &&& after.revision == 0
                &&& after.started_at is None
                &&& after.updated_at is None
                &&& closed matches Some(snapshot) && snapshot.source_text == manager.current()
                    && snapshot.state == CaptionState::Final && snapshot.segment_id
                    == manager.segment_id
                &&& manager.segment_id < u64::MAX ==> after.segment_id == manager.segment_id + 1
                &&& manager.revision < u64::MAX ==> closed->0.revision == manager.revision + 1
            }
        }),
{
    let after = manager.finalized().0;
    if manager.current().len() > 0 {
        assert(after.latest_full_text.subrange(0, after.latest_full_text.len() as int)
            =~= after.latest_full_text);
        assert(after.latest_full_text.skip(after.committed_prefix.len() as int) =~= Seq::empty());
        assert(trimmed(Seq::<char>::empty()) =~= Seq::empty());
    }
}

/// What the segments show together is the running text: with each text that goes on, what
/// was committed and what is shown is that text, white space aside.
pub proof fn law_segments_cover_the_text(manager: ManagerModel, full_text: Seq<char>, now: u128)
    requires
        manager.committed_prefix.is_prefix_of(trimmed(full_text)),
    ensures
        manager.updated(full_text, now).1 matches Some(snapshot) ==> exists|from: int, to: int|
            manager.committed_prefix.len() <= from <= to <= trimmed(full_text).len()
                && #[trigger] trimmed(full_text).subrange(from, to) == snapshot.source_text && (
            forall|i: int|
                (manager.committed_prefix.len() <= i < from || to <= i < trimmed(full_text).len())
                    ==> crate::text::is_space(#[trigger] trimmed(full_text)[i])),
{
    let text = trimmed(full_text);
    let committed = manager.committed_prefix.len() as int;
    let rest = text.skip(committed);
    if let Some(snapshot) = manager.updated(full_text, now).1 {
        let front = crate::text::strip_start(rest, crate::text::spaces());
        crate::text::lemma_strip_start(rest, crate::text::spaces());
        crate::text::lemma_strip_end(front, crate::text::spaces());
        let from = committed + (rest.len() - front.len());
        let to = from + snapshot.source_text.len();
        assert(text.subrange(from, to) =~= snapshot.source_text);
        assert forall|i: int| (committed <= i < from || to <= i < text.len()) implies
            crate::text::is_space(#[trigger] text[i]) by {
            if i < from {
                assert(crate::text::spaces()(rest[i - committed]));
            } else {
                assert(crate::text::spaces()(front[i - from]));
            }
        }
    }
}

/// When a segment is over: it has text, and nothing new came for the idle time, or it ends
/// a sentence, has been so for three tenths of a second and says six words or ten Chinese
/// characters, or it has gone on for eight seconds.
pub proof fn law_segment_is_over(manager: ManagerModel, at: u128, start: u128, now: u128)
    requires
        manager.updated_at == Some(at),
        manager.started_at == Some(start),
        at <= now,
        start <= now,
    ensures
        manager.is_over(now) <==> (manager.current().len() > 0 && (now - at >= manager.idle_timeout
            || now - start >= 8_000_000_000 || (now - at >= 300_000_000 && is_sentence(
            manager.current(),
        ) && (words(manager.current()).len() >= 6 || foreign_characters(manager.current())
            >= 10)))),
{
}

/// A text ends a sentence if its last character that is no closing quote or bracket is one
/// of the marks for that.
pub proof fn law_sentence_ends_with_a_mark(text: Seq<char>, end: int)
    requires
        0 < end <= text.len(),
        forall|i: int| end <= i < text.len() ==> is_closer(#[trigger] text[i]),
        !is_closer(text[end - 1]),
    ensures
        is_sentence(text) <==> seq![
            '。',
            '！',
            '？',
            '.',
            '!',
            '?',
            '；',
            ';',
            '…',
            '\n',
        ].contains(text[end - 1]),
    decreases text.len(),
{
    let marks = seq!['。', '！', '？', '.', '!', '?', '；', ';', '…', '\n'];
    assert(marks[0] == '。' && marks[1] == '！' && marks[2] == '？' && marks[3] == '.' && marks[4] == '!'
        && marks[5] == '?' && marks[6] == '；' && marks[7] == ';' && marks[8] == '…' && marks[9]
        == '\n');
    if end == text.len() {
        assert(strip_end(text, closers()) == text);
    } else {
        assert(is_closer(text[text.len() - 1]));
        assert(strip_end(text, closers()) == strip_end(text.drop_last(), closers()));
        assert forall|i: int| end <= i < text.drop_last().len() implies is_closer(
            #[trigger] text.drop_last()[i],
        ) by {
            assert(is_closer(text[i]));
        }
        law_sentence_ends_with_a_mark(text.drop_last(), end);
    }
}

/// The quotes and brackets that may follow the end of a sentence are the closing ones.
pub proof fn law_closing_marks_may_follow(c: char)
    ensures
        is_closer(c) <==> seq!['"', '\'', '”', '’', ')', '）', ']', '】', '}', '》'].contains(c),
{
    let marks = seq!['"', '\'', '”', '’', ')', '）', ']', '】', '}', '》'];
    assert(marks[0] == '"' && marks[1] == '\'' && marks[2] == '”' && marks[3] == '’');
    assert(marks[4] == ')' && marks[5] == '）' && marks[6] == ']' && marks[7] == '】');
    assert(marks[8] == '}' && marks[9] == '》');
}

/// The first text that is not blank is the first revision of the first segment, with all of
/// the text in it.
pub proof fn law_first_text_opens_the_first_segment(idle: u128, full_text: Seq<char>, now: u128)
    requires
        trimmed(full_text).len() > 0,
    ensures
        ManagerModel::initial(idle).updated(full_text, now).1 == Some(
            SnapshotModel {
                segment_id: 1,
                revision: 1,
                state: CaptionState::Partial,
                source_text: trimmed(full_text),
            },
        ),
        ManagerModel::initial(idle).updated(full_text, now).0.started_at == Some(now),
        ManagerModel::initial(idle).idle_timeout == idle,
        ManagerModel::initial(idle).current().len() == 0,
{
    let text = trimmed(full_text);
    let start = ManagerModel::initial(idle);
    crate::text::lemma_trim_idempotent(full_text);
    assert(start.committed_prefix.is_prefix_of(text)) by {
        assert(text.subrange(0, 0) =~= start.committed_prefix);
    }
    assert(text.skip(0) =~= text);
    assert(trimmed(Seq::empty()) =~= Seq::empty());
    assert(Seq::<char>::empty().skip(0) =~= Seq::empty());
}

} // verus!
