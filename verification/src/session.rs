//! A session: what is announced and what is translated as the recogniser speaks, and
//! which session is the current one.
use crate::asr::{AsrEvent, AsrEventModel};
use crate::clock::{elapsed, time_between};
use crate::domain::{
    AsrEngine, CaptionState, EventModel, SegmentSnapshot, ServerEvent, SnapshotModel, StartModel,
    StartSessionRequest,
};
use crate::identity::{is_random_id, new_id};
use crate::segment::{law_closing_commits_the_text, ManagerModel, SegmentManager};
use crate::server::{error_event, rank_of, source_caption, source_snapshot_event, status_event};
use crate::text::{join2, join3};
use vstd::prelude::*;

verus! {

/// What a session goes by.
#[derive(Debug)]
pub enum SessionInput {
    /// A client asks for its end.
    Stop,
    /// A moment has passed.
    Tick,
    /// The recogniser says something.
    Heard(AsrEvent),
    /// The recogniser's bridge failed; the text says how.
    BridgeFailed(String),
}

/// The content of what a session goes by.
pub enum InputModel {
    Stop,
    Tick,
    Heard(AsrEventModel),
    BridgeFailed(Seq<char>),
}

impl View for SessionInput {
    type V = InputModel;

    open spec fn view(&self) -> InputModel {
        match self {
            SessionInput::Stop => InputModel::Stop,
            SessionInput::Tick => InputModel::Tick,
            SessionInput::Heard(event) => InputModel::Heard(event@),
            SessionInput::BridgeFailed(message) => InputModel::BridgeFailed(message@),
        }
    }
}

/// What a session does.
#[derive(Debug)]
pub enum SessionAction {
    /// Something is announced.
    Emit(ServerEvent),
    /// A segment is to be translated.
    Translate(SegmentSnapshot),
}

/// The content of what a session does.
pub enum ActionModel {
    Emit(EventModel),
    Translate(SnapshotModel),
}

impl View for SessionAction {
    type V = ActionModel;

    open spec fn view(&self) -> ActionModel {
        match self {
            SessionAction::Emit(event) => ActionModel::Emit(event@),
            SessionAction::Translate(snapshot) => ActionModel::Translate(snapshot@),
        }
    }
}

/// The contents of what a session does.
pub open spec fn action_models(actions: Seq<SessionAction>) -> Seq<ActionModel> {
    actions.map_values(|action: SessionAction| action@)
}

/// The state of a session.
pub struct SessionState {
    pub request: StartModel,
    pub manager: ManagerModel,
    pub last_preview: Option<u128>,
    pub preview_interval: u128,
    pub over: bool,
}

impl SessionState {
    /// Before the recogniser has said anything.
    pub open spec fn initial(request: StartModel, idle: u128, preview_interval: u128) -> SessionState {
        SessionState {
            request,
            manager: ManagerModel::initial(idle),
            last_preview: None,
            preview_interval,
            over: false,
        }
    }

    /// Whether it is time for another preview.
    pub open spec fn preview_is_due(self, now: u128) -> bool {
        match self.last_preview {
            Some(last) => time_between(last, now) >= self.preview_interval,
            None => true,
        }
    }

    /// Shows a segment.
    pub open spec fn show(self, snapshot: SnapshotModel) -> ActionModel {
        ActionModel::Emit(source_caption(self.request, snapshot))
    }

    /// Closes the current segment: it is shown and translated, if it holds any text.
    pub open spec fn closing(self) -> (SessionState, Seq<ActionModel>) {
        let (manager, closed) = self.manager.finalized();
        (
            SessionState { manager, ..self },
            match closed {
                Some(snapshot) => seq![self.show(snapshot), ActionModel::Translate(snapshot)],
                None => Seq::empty(),
            },
        )
    }

    /// Ends the session with what is announced first.
    pub open spec fn ending(self, first: Seq<ActionModel>) -> (SessionState, Seq<ActionModel>) {
        let (state, actions) = self.closing();
        (SessionState { over: true, ..state }, first + actions)
    }

    /// Takes a running text that may still change: it is shown, and translated where a
    /// preview is due.
    pub open spec fn heard_partial(self, text: Seq<char>, now: u128) -> (
        SessionState,
        Seq<ActionModel>,
    ) {
        let (manager, shown) = self.manager.updated(text, now);
        match shown {
            None => (SessionState { manager, ..self }, Seq::empty()),
            Some(snapshot) => if self.preview_is_due(now) {
                (
                    SessionState { manager, last_preview: Some(now), ..self },
                    seq![self.show(snapshot), ActionModel::Translate(snapshot)],
                )
            } else {
                (SessionState { manager, ..self }, seq![self.show(snapshot)])
            },
        }
    }

    /// Takes a text that stays: it is shown, and its segment is closed.
    pub open spec fn heard_final(self, text: Seq<char>, now: u128) -> (
        SessionState,
        Seq<ActionModel>,
    ) {
        let (manager, shown) = self.manager.updated(text, now);
        let (state, actions) = (SessionState { manager, ..self }).closing();
        (
            state,
            (match shown {
                Some(snapshot) => seq![self.show(snapshot)],
                None => Seq::empty(),
            }) + actions,
        )
    }

    /// What the session does at a time, and its state after that.
    pub open spec fn after(self, input: InputModel, now: u128) -> (SessionState, Seq<ActionModel>) {
        if self.over {
            (self, Seq::empty())
        } else {
            match input {
                InputModel::Stop => self.ending(Seq::empty()),
                InputModel::Tick => if self.manager.is_over(now) {
                    self.closing()
                } else {
                    (self, Seq::empty())
                },
                InputModel::BridgeFailed(message) => self.ending(
                    seq![
                        ActionModel::Emit(
                            EventModel::Error { code: "asr_bridge_failed"@, message },
                        ),
                    ],
                ),
                InputModel::Heard(event) => match event {
                    AsrEventModel::Ready { locale } => (
                        self,
                        seq![
                            ActionModel::Emit(
                                EventModel::SessionStatus {
                                    running: true,
                                    message: self.request.asr_engine.description_text()
                                        + " 已就绪："@ + locale,
                                },
                            ),
                        ],
                    ),
                    AsrEventModel::Partial { text } => self.heard_partial(text, now),
                    AsrEventModel::Final { text } => self.heard_final(text, now),
                    AsrEventModel::Error { message } => self.ending(
                        seq![
                            ActionModel::Emit(EventModel::Error { code: "asr_failed"@, message }),
                        ],
                    ),
                },
            }
        }
    }
}

/// Runs a session: it says what to announce and what to translate.
#[derive(Debug)]
pub struct SessionLoop {
    request: StartSessionRequest,
    manager: SegmentManager,
    last_preview: Option<u128>,
    preview_interval: u128,
    over: bool,
}

impl View for SessionLoop {
    type V = SessionState;

    closed spec fn view(&self) -> SessionState {
        SessionState {
            request: self.request@,
            manager: self.manager@,
            last_preview: self.last_preview,
            preview_interval: self.preview_interval,
            over: self.over,
        }
    }
}

/// Appends what a session does.
fn push_action(actions: &mut Vec<SessionAction>, action: SessionAction)
    ensures
        action_models(final(actions)@) == action_models(old(actions)@).push(action@),
{
    let ghost before = actions@;
    actions.push(action);
    proof {
        assert(action_models(actions@) =~= action_models(before).push(action@));
    }
}

impl SessionLoop {
    /// A session before the recogniser has said anything. Times are nanoseconds.
    pub fn new(request: StartSessionRequest, idle: u128, preview_interval: u128) -> (session: Self)
        ensures
            session@ == SessionState::initial(request@, idle, preview_interval),
    {
        SessionLoop {
            request,
            manager: SegmentManager::new(idle),
            last_preview: None,
            preview_interval,
            over: false,
        }
    }

    /// Whether the session is over.
    pub fn is_over(&self) -> (over: bool)
        ensures
            over == self@.over,
    {
        self.over
    }

    /// Whether it is time for another preview.
    fn preview_is_due(&self, now: u128) -> (due: bool)
        ensures
            due == self@.preview_is_due(now),
    {
        match self.last_preview {
            Some(last) => elapsed(last, now) >= self.preview_interval,
            None => true,
        }
    }

    /// Closes the current segment, and appends what that does.
    fn close(&mut self, actions: &mut Vec<SessionAction>)
        ensures
            final(self)@ == old(self)@.closing().0,
            action_models(final(actions)@) == action_models(old(actions)@)
                + old(self)@.closing().1,
    {
        let ghost before = action_models(actions@);
        match self.manager.finalize() {
            Some(snapshot) => {
                push_action(
                    actions,
                    SessionAction::Emit(source_snapshot_event(&self.request, &snapshot)),
                );
                push_action(actions, SessionAction::Translate(snapshot));
                proof {
                    assert(action_models(actions@) =~= before + old(self)@.closing().1);
                }
            },
            None => {
                proof {
                    assert(action_models(actions@) =~= before + old(self)@.closing().1);
                }
            },
        }
    }

    /// What the session does at a time.
    pub fn handle(&mut self, input: SessionInput, now: u128) -> (actions: Vec<SessionAction>)
        ensures
            (final(self)@, action_models(actions@)) == old(self)@.after(input@, now),
    {
        let mut actions: Vec<SessionAction> = Vec::new();
        proof {
            assert(action_models(actions@) =~= Seq::empty());
        }
        if self.over {
            return actions;
        }
        match input {
            SessionInput::Stop => {
                self.close(&mut actions);
                self.over = true;
            },
            SessionInput::Tick => {
                if self.manager.should_finalize(now) {
                    self.close(&mut actions);
                    proof {
                        assert(action_models(actions@) =~= old(self)@.closing().1);
                    }
                }
            },
            SessionInput::BridgeFailed(message) => {
                push_action(
                    &mut actions,
                    SessionAction::Emit(error_event("asr_bridge_failed", message)),
                );
                self.close(&mut actions);
                self.over = true;
                proof {
                    assert(action_models(actions@) =~= old(self)@.after(input@, now).1);
                }
            },
            SessionInput::Heard(event) => match event {
                AsrEvent::Ready { locale } => {
                    let message = join3(
                        self.request.asr_engine.description(),
                        " 已就绪：",
                        locale.as_str(),
                    );
                    push_action(
                        &mut actions,
                        SessionAction::Emit(status_event(true, message.as_str())),
                    );
                    proof {
                        assert(action_models(actions@) =~= old(self)@.after(input@, now).1);
                    }
                },
                AsrEvent::Partial { text } => {
                    self.hear_partial(text.as_str(), now, &mut actions);
                },
                AsrEvent::Final { text } => {
                    self.hear_final(text.as_str(), now, &mut actions);
                },
                AsrEvent::Error { message } => {
                    push_action(
                        &mut actions,
                        SessionAction::Emit(error_event("asr_failed", message)),
                    );
                    self.close(&mut actions);
                    self.over = true;
                    proof {
                        assert(action_models(actions@) =~= old(self)@.after(input@, now).1);
                    }
                },
            },
        }
        actions
    }

    /// Takes a running text that may still change.
    fn hear_partial(&mut self, text: &str, now: u128, actions: &mut Vec<SessionAction>)
        requires
            action_models(old(actions)@).len() == 0,
        ensures
            (final(self)@, action_models(final(actions)@)) == old(self)@.heard_partial(text@, now),
    {
        let due = self.preview_is_due(now);
        match self.manager.update(text, now) {
            Some(snapshot) => {
                push_action(
                    actions,
                    SessionAction::Emit(source_snapshot_event(&self.request, &snapshot)),
                );
                if due {
                    push_action(actions, SessionAction::Translate(snapshot));
                    self.last_preview = Some(now);
                }
            },
            None => {},
        }
        proof {
            assert(action_models(actions@) =~= old(self)@.heard_partial(text@, now).1);
        }
    }

    /// Takes a text that stays.
    fn hear_final(&mut self, text: &str, now: u128, actions: &mut Vec<SessionAction>)
        requires
            action_models(old(actions)@).len() == 0,
        ensures
            (final(self)@, action_models(final(actions)@)) == old(self)@.heard_final(text@, now),
    {
        match self.manager.update(text, now) {
            Some(snapshot) => {
                push_action(
                    actions,
                    SessionAction::Emit(source_snapshot_event(&self.request, &snapshot)),
                );
            },
            None => {},
        }
        self.close(actions);
        proof {
            assert(action_models(actions@) =~= old(self)@.heard_final(text@, now).1);
        }
    }
}

/// What is announced while a session waits for its recogniser.
pub fn waiting_event(engine: AsrEngine) -> (event: ServerEvent)
    ensures
        event@ == (EventModel::SessionStatus {
            running: true,
            message: "正在等待 "@ + engine.description_text(),
        }),
{
    status_event(true, join2("正在等待 ", engine.description()).as_str())
}

/// What is announced if the recogniser cannot be started.
pub fn start_failure_events(message: String) -> (events: (ServerEvent, ServerEvent))
    ensures
        events.0@ == (EventModel::Error { code: "asr_start_failed"@, message: message@ }),
        events.1@ == (EventModel::SessionStatus { running: false, message: "语音识别启动失败"@ }),
{
    (error_event("asr_start_failed", message), status_event(false, "语音识别启动失败"))
}

/// What is announced once a session has ended and all its translations are done.
pub fn ended_event() -> (event: ServerEvent)
    ensures
        event@ == (EventModel::SessionStatus { running: false, message: "会话已结束"@ }),
{
    status_event(false, "会话已结束")
}

// ---------------------------------------------------------------------------------
// Which session
// ---------------------------------------------------------------------------------

/// The current session, if there is one.
#[derive(Debug)]
pub struct SessionRegistry {
    current: Option<(u128, bool)>,
}

impl View for SessionRegistry {
    type V = Option<(u128, bool)>;

    /// The identifier of the current session, and whether it was asked to stop.
    closed spec fn view(&self) -> Option<(u128, bool)> {
        self.current
    }
}

/// What a client is told of the session.
#[derive(Debug, Clone, Copy, PartialEq, Eq, Structural)]
pub struct SessionResponse {
    pub session_id: Option<u128>,
    pub running: bool,
}

impl SessionRegistry {
    /// No session.
    pub fn new() -> (registry: Self)
        ensures
            registry@ is None,
    {
        SessionRegistry { current: None }
    }

    /// Starts a session under an identifier, unless there is one. Returns what the
    /// client is told, and whether a session was started.
    pub fn start(&mut self, id: u128) -> (outcome: (SessionResponse, bool))
        ensures
            match old(self)@ {
                Some((current, _)) => final(self)@ == old(self)@ && outcome == (
                    SessionResponse { session_id: Some(current), running: true },
                    false,
                ),
                None => final(self)@ == Some((id, false)) && outcome == (
                    SessionResponse { session_id: Some(id), running: true },
                    true,
                ),
            },
    {
        match self.current {
            Some((current, _)) => (
                SessionResponse { session_id: Some(current), running: true },
                false,
            ),
            None => {
                self.current = Some((id, false));
                (SessionResponse { session_id: Some(id), running: true }, true)
            },
        }
    }

    /// Starts a session under a new identifier, unless there is one. Returns what the
    /// client is told, and whether a session was started.
    pub fn start_new(&mut self) -> (outcome: (SessionResponse, bool))
        ensures
            outcome.0.running,
            match old(self)@ {
                Some((current, _)) => final(self)@ == old(self)@ && outcome.0.session_id == Some(
                    current,
                ) && !outcome.1,
                None => outcome.1 && (outcome.0.session_id matches Some(id) && is_random_id(id)
                    && final(self)@ == Some((id, false))),
            },
    {
        self.start(new_id())
    }

    /// Asks the session to stop. Returns what the client is told, and whether the
    /// session is to be told: it is told once.
    pub fn stop(&mut self) -> (outcome: (SessionResponse, bool))
        ensures
            match old(self)@ {
                None => final(self)@ is None && outcome == (
                    SessionResponse { session_id: None, running: false },
                    false,
                ),
                Some((id, stopping)) => final(self)@ == Some((id, true)) && outcome == (
                    SessionResponse { session_id: Some(id), running: false },
                    !stopping,
                ),
            },
    {
        match self.current {
            None => (SessionResponse { session_id: None, running: false }, false),
            Some((id, stopping)) => {
                self.current = Some((id, true));
                (SessionResponse { session_id: Some(id), running: false }, !stopping)
            },
        }
    }

    /// Notes that a session has ended. A session that is not the current one changes
    /// nothing.
    pub fn finish(&mut self, id: u128)
        ensures
            final(self)@ == (match old(self)@ {
                Some((current, _)) if current == id => None,
                other => other,
            }),
    {
        if let Some((current, _)) = self.current {
            if current == id {
                self.current = None;
            }
        }
    }
}

// ---------------------------------------------------------------------------------
// Laws
// ---------------------------------------------------------------------------------

/// Whatever is translated was shown right before.
pub proof fn law_translated_text_was_shown(state: SessionState, input: InputModel, now: u128)
    ensures
        forall|i: int|
            0 <= i < state.after(input, now).1.len() ==> (#[trigger] state.after(
                input,
                now,
            ).1[i] matches ActionModel::Translate(snapshot) ==> i > 0 && state.after(
                input,
                now,
            ).1[i - 1] == state.show(snapshot)),
{
}

/// Whether one caption replaces another: it is of a later segment, or of the same one and
/// of a higher rank.
pub open spec fn replaces(segment: u64, rank: u64, other_segment: u64, other_rank: u64) -> bool {
    segment > other_segment || (segment == other_segment && rank > other_rank)
}

/// Captions only move forward. What a session shows replaces every caption of what was
/// said before, translations that come late among them, and of two captions that it shows
/// at a time the later replaces the earlier. None of them is ahead of where the session
/// stands afterwards, so that the same holds of what it shows then.
pub proof fn law_captions_move_forward(state: SessionState, input: InputModel, now: u128)
    requires
        state.manager.segment_id < u64::MAX - 2,
        3 * (state.manager.revision + 2) + 2 <= u64::MAX,
    ensures
        ({
            let before = state.manager;
            let (next, actions) = state.after(input, now);
            let after = next.manager;
            &&& before.segment_id < after.segment_id || (before.segment_id == after.segment_id
                && before.revision <= after.revision)
            &&& forall|i: int|
                0 <= i < actions.len() ==> (#[trigger] actions[i] matches ActionModel::Emit(
                    EventModel::Caption { segment_id, revision, .. },
                ) ==> {
                    &&& replaces(
                        segment_id,
                        revision,
                        before.segment_id,
                        rank_of(before.revision, 2),
                    )
                    &&& !replaces(
                        segment_id,
                        revision,
                        after.segment_id,
                        rank_of(after.revision, 0),
                    )
                })
            &&& forall|i: int, j: int|
                0 <= i < j < actions.len() ==> (#[trigger] actions[i] matches ActionModel::Emit(
                    EventModel::Caption { segment_id: first, revision: low, .. },
                ) ==> (#[trigger] actions[j] matches ActionModel::Emit(
                    EventModel::Caption { segment_id: second, revision: high, .. },
                ) ==> replaces(second, high, first, low)))
        }),
{
}

/// A session that is over does nothing more, and only its end makes it so.
pub proof fn law_only_an_end_ends_a_session(state: SessionState, input: InputModel, now: u128)
    ensures
        state.over ==> state.after(input, now) == (state, Seq::<ActionModel>::empty()),
        !state.over ==> (state.after(input, now).0.over <==> (input is Stop || input is BridgeFailed
            || (input matches InputModel::Heard(event) && event is Error))),
{
}

/// When a session ends, what was still being said is shown and translated once, and
/// nothing of it is left.
pub proof fn law_ending_leaves_nothing_unsaid(state: SessionState, now: u128)
    requires
        !state.over,
        state.manager.current().len() > 0,
        state.manager.revision < u64::MAX,
        state.manager.segment_id < u64::MAX,
    ensures
        ({
            let (next, actions) = state.after(InputModel::Stop, now);
            &&& actions.len() == 2
            &&& actions[1] == ActionModel::Translate(state.manager.finalized().1->0)
            &&& next.manager.current().len() == 0
        }),
{
    crate::segment::law_closing_moves_on(state.manager);
}

/// Between two previews lies at least the preview interval, if the clock does not run
/// back: a running text is translated again only that much later.
pub proof fn law_previews_are_spaced(
    state: SessionState,
    text: Seq<char>,
    now: u128,
    other: Seq<char>,
    later: u128,
)
    requires
        now <= later < now + state.preview_interval,
        state.heard_partial(text, now).1.len() == 2,
    ensures
        state.heard_partial(text, now).0.heard_partial(other, later).1.len() < 2,
{
}

/// Whether a session shows a text of a segment as it was recognised, without a translation.
pub open spec fn is_shown(
    action: ActionModel,
    request: StartModel,
    id: u64,
    asr_revision: u64,
    text: Seq<char>,
) -> bool {
    action matches ActionModel::Emit(
        EventModel::Caption {
            segment_id,
            revision,
            state,
            source_text,
            translation_text,
            source_language,
            target_language,
            llm_applied,
            latency_ms,
        },
    ) && {
        &&& segment_id == id
        &&& 3 * asr_revision <= u64::MAX ==> revision == 3 * asr_revision
        &&& state == CaptionState::Partial
        &&& source_text == text
        &&& translation_text.len() == 0
        &&& source_language == request.source_language
        &&& target_language == request.target_language
        &&& !llm_applied
        &&& latency_ms == 0
    }
}

/// Whether actions are those that close the current segment of a manager: it is shown and
/// translated, once, as final text and with all it has said, if it has said anything.
pub open spec fn close_the_segment(
    actions: Seq<ActionModel>,
    request: StartModel,
    manager: ManagerModel,
) -> bool {
    let text = manager.current();
    if text.len() == 0 {
        actions.len() == 0
    } else {
        &&& actions.len() == 2
        &&& actions[1] matches ActionModel::Translate(snapshot) && {
            &&& snapshot.segment_id == manager.segment_id
            &&& manager.revision < u64::MAX ==> snapshot.revision == manager.revision + 1
            &&& snapshot.state == CaptionState::Final
            &&& snapshot.source_text == text
            &&& is_shown(
                actions[0],
                request,
                manager.segment_id,
                snapshot.revision,
                text,
            )
        }
    }
}

/// What is left behind once a segment was closed.
proof fn lemma_closing(state: SessionState)
    ensures
        close_the_segment(state.closing().1, state.request, state.manager),
        state.closing().0.manager.current().len() == 0,
        state.closing().0.manager == state.manager.finalized().0,
        state.closing().0 == (SessionState {
            manager: state.closing().0.manager,
            ..state
        }),
{
    law_closing_commits_the_text(state.manager);
}

/// A final text of the recogniser closes its segment, whether or not it is new: the text is
/// shown if it is new, then the segment is shown and translated as a whole, once, and
/// nothing of it is left open.
pub proof fn law_final_text_closes_its_segment(state: SessionState, text: Seq<char>, now: u128)
    requires
        !state.over,
    ensures
        ({
            let (taken, shown) = state.manager.updated(text, now);
            let (next, actions) = state.after(
                InputModel::Heard(AsrEventModel::Final { text }),
                now,
            );
            let first: int = if shown is Some {
                1
            } else {
                0
            };
            &&& next.manager.current().len() == 0
            &&& !next.over
            &&& next.last_preview == state.last_preview
            &&& next.request == state.request
            &&& next.preview_interval == state.preview_interval
            &&& taken.current().len() > 0 ==> next.manager.committed_prefix
                == taken.latest_full_text
            &&& actions.len() >= first
            &&& shown matches Some(snapshot) ==> is_shown(
                actions[0],
                state.request,
                snapshot.segment_id,
                snapshot.revision,
                snapshot.source_text,
            )
            &&& close_the_segment(actions.skip(first), state.request, taken)
        }),
{
    let (taken, shown) = state.manager.updated(text, now);
    let held = SessionState { manager: taken, ..state };
    lemma_closing(held);
    law_closing_commits_the_text(taken);
    let actions = state.after(InputModel::Heard(AsrEventModel::Final { text }), now).1;
    if shown is Some {
        assert(actions.skip(1) =~= held.closing().1);
    } else {
        assert(actions.skip(0) =~= held.closing().1);
    }
}

/// A running text is shown as soon as it shows anything new, and is translated as well if
/// there was no preview yet or the last one is long enough ago. Nothing is closed by it.
pub proof fn law_running_text_is_shown(state: SessionState, text: Seq<char>, now: u128)
    requires
        !state.over,
    ensures
        ({
            let (taken, shown) = state.manager.updated(text, now);
            let (next, actions) = state.after(
                InputModel::Heard(AsrEventModel::Partial { text }),
                now,
            );
            let due = match state.last_preview {
                None => true,
                Some(last) => if now < last {
                    state.preview_interval == 0
                } else {
                    now - last >= state.preview_interval
                },
            };
            &&& next.manager == taken
            &&& !next.over
            &&& next.request == state.request
            &&& next.preview_interval == state.preview_interval
            &&& match shown {
                None => actions.len() == 0 && next.last_preview == state.last_preview,
                Some(snapshot) => {
                    &&& actions.len() == (if due {
                        2int
                    } else {
                        1int
                    })
                    &&& is_shown(
                        actions[0],
                        state.request,
                        snapshot.segment_id,
                        snapshot.revision,
                        snapshot.source_text,
                    )
                    &&& due ==> actions[1] == ActionModel::Translate(snapshot) && next.last_preview
                        == Some(now)
                    &&& !due ==> next.last_preview == state.last_preview
                },
            }
        }),
{
}

/// A moment that passes closes the segment that is over, and does nothing else.
pub proof fn law_pauses_close_the_segment(state: SessionState, now: u128)
    requires
        !state.over,
    ensures
        ({
            let (next, actions) = state.after(InputModel::Tick, now);
            &&& !next.over
            &&& state.manager.is_over(now) ==> close_the_segment(
                actions,
                state.request,
                state.manager,
            ) && actions.len() == 2 && next.manager.current().len() == 0 && next.manager
                == state.manager.finalized().0 && next.last_preview == state.last_preview
            &&& !state.manager.is_over(now) ==> next == state && actions.len() == 0
        }),
{
    lemma_closing(state);
}

/// However a session ends, what was being said is shown and translated as final text; where
/// it ends by a failure, that is announced before.
pub proof fn law_every_end_closes_the_segment(state: SessionState, message: Seq<char>, now: u128)
    requires
        !state.over,
    ensures
        ({
            let (stopped, last) = state.after(InputModel::Stop, now);
            &&& stopped.over
            &&& close_the_segment(last, state.request, state.manager)
            &&& stopped.manager.current().len() == 0
        }),
        ({
            let (failed, actions) = state.after(InputModel::BridgeFailed(message), now);
            &&& failed.over
            &&& actions.len() > 0
            &&& actions[0] == ActionModel::Emit(
                EventModel::Error { code: "asr_bridge_failed"@, message },
            )
            &&& close_the_segment(actions.skip(1), state.request, state.manager)
            &&& failed.manager.current().len() == 0
        }),
        ({
            let (failed, actions) = state.after(
                InputModel::Heard(AsrEventModel::Error { message }),
                now,
            );
            &&& failed.over
            &&& actions.len() > 0
            &&& actions[0] == ActionModel::Emit(EventModel::Error { code: "asr_failed"@, message })
            &&& close_the_segment(actions.skip(1), state.request, state.manager)
            &&& failed.manager.current().len() == 0
        }),
{
    lemma_closing(state);
    let last = state.closing().1;
    assert(state.after(InputModel::Stop, now).1 =~= last);
    assert(state.after(InputModel::BridgeFailed(message), now).1.skip(1) =~= last);
    assert(state.after(InputModel::Heard(AsrEventModel::Error { message }), now).1.skip(1)
        =~= last);
}

/// That the recogniser is ready is announced, and changes nothing.
pub proof fn law_readiness_is_announced(state: SessionState, locale: Seq<char>, now: u128)
    requires
        !state.over,
    ensures
        ({
            let (next, actions) = state.after(
                InputModel::Heard(AsrEventModel::Ready { locale }),
                now,
            );
            &&& next == state
            &&& actions.len() == 1
            &&& actions[0] matches ActionModel::Emit(
                EventModel::SessionStatus { running, message },
            ) && running && locale.is_suffix_of(message)
                && state.request.asr_engine.description_text().is_prefix_of(message)
        }),
{
    let name = state.request.asr_engine.description_text();
    let message = name + " 已就绪："@ + locale;
    assert(message.subrange(0, name.len() as int) =~= name);
    assert(message.subrange(message.len() - locale.len(), message.len() as int) =~= locale);
}

} // verus!
