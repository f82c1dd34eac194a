//! The settings of the application: from the environment, and from a local file that
//! fills in what the environment leaves open.
use crate::number::{decimal, digits, parse_u64, parsed};
use crate::text::{
    chars_of, equal_ignoring_case, folded, join2, lemma_run_ends, lemma_run_len, lines, lines_of,
    optional_text, run_len, same_text, slice_of, string_of, texts, trim_chars, trimmed,
};
use vstd::prelude::*;

verus! {

/// How the language model that refines translations is reached.
#[derive(Debug)]
pub struct LlmConfig {
    pub enabled: bool,
    pub base_url: String,
    pub api_key: String,
    pub model: String,
    pub timeout_seconds: u64,
    pub thinking_disabled: bool,
}

/// The settings of the application, but for its paths.
#[derive(Debug)]
pub struct AppConfig {
    pub listen: String,
    pub fake_translation: bool,
    pub segment_idle_ms: u64,
    pub preview_interval_ms: u64,
    pub llm: LlmConfig,
}

/// The content of the language model's settings.
pub struct LlmConfigModel {
    pub enabled: bool,
    pub base_url: Seq<char>,
    pub api_key: Seq<char>,
    pub model: Seq<char>,
    pub timeout_seconds: u64,
    pub thinking_disabled: bool,
}

/// The content of the settings.
pub struct ConfigModel {
    pub listen: Seq<char>,
    pub fake_translation: bool,
    pub segment_idle_ms: u64,
    pub preview_interval_ms: u64,
    pub llm: LlmConfigModel,
}

impl View for LlmConfig {
    type V = LlmConfigModel;

    open spec fn view(&self) -> LlmConfigModel {
        LlmConfigModel {
            enabled: self.enabled,
            base_url: self.base_url@,
            api_key: self.api_key@,
            model: self.model@,
            timeout_seconds: self.timeout_seconds,
            thinking_disabled: self.thinking_disabled,
        }
    }
}

impl View for AppConfig {
    type V = ConfigModel;

    open spec fn view(&self) -> ConfigModel {
        ConfigModel {
            listen: self.listen@,
            fake_translation: self.fake_translation,
            segment_idle_ms: self.segment_idle_ms,
            preview_interval_ms: self.preview_interval_ms,
            llm: self.llm@,
        }
    }
}

impl Clone for LlmConfig {
    fn clone(&self) -> (copy: Self)
        ensures
            copy@ == self@,
    {
        LlmConfig {
            enabled: self.enabled,
            base_url: self.base_url.clone(),
            api_key: self.api_key.clone(),
            model: self.model.clone(),
            timeout_seconds: self.timeout_seconds,
            thinking_disabled: self.thinking_disabled,
        }
    }
}

impl Clone for AppConfig {
    fn clone(&self) -> (copy: Self)
        ensures
            copy@ == self@,
    {
        AppConfig {
            listen: self.listen.clone(),
            fake_translation: self.fake_translation,
            segment_idle_ms: self.segment_idle_ms,
            preview_interval_ms: self.preview_interval_ms,
            llm: self.llm.clone(),
        }
    }
}

// ---------------------------------------------------------------------------------
// The environment
// ---------------------------------------------------------------------------------

/// The variables of the environment, each with its value where that is text.
#[derive(Debug)]
pub struct Environment {
    pub variables: Vec<(String, Option<String>)>,
}

/// The content of the environment.
pub open spec fn variable_models(variables: Seq<(String, Option<String>)>) -> Seq<
    (Seq<char>, Option<Seq<char>>),
> {
    variables.map_values(|variable: (String, Option<String>)| (variable.0@, optional_text(variable.1)))
}

impl View for Environment {
    type V = Seq<(Seq<char>, Option<Seq<char>>)>;

    open spec fn view(&self) -> Seq<(Seq<char>, Option<Seq<char>>)> {
        variable_models(self.variables@)
    }
}

/// Whether a variable is set.
pub open spec fn is_set(environment: Seq<(Seq<char>, Option<Seq<char>>)>, name: Seq<char>) -> bool {
    exists|i: int| 0 <= i < environment.len() && (#[trigger] environment[i]).0 == name
}

/// The text of a variable, if it is set and its value is text.
pub open spec fn value_of(environment: Seq<(Seq<char>, Option<Seq<char>>)>, name: Seq<char>) -> Option<
    Seq<char>,
>
    decreases environment.len(),
{
    if environment.len() == 0 {
        None
    } else if environment[0].0 == name {
        environment[0].1
    } else {
        value_of(environment.skip(1), name)
    }
}

/// Whether a setting is switched on: by one of four words, ASCII case aside.
pub open spec fn is_on(value: Seq<char>) -> bool {
    folded(value) == folded("1"@) || folded(value) == folded("true"@) || folded(value) == folded(
        "yes"@,
    ) || folded(value) == folded("on"@)
}

/// A switch of the environment, or what it is where nothing is said.
pub open spec fn switch_of(value: Option<Seq<char>>, default: bool) -> bool {
    match value {
        Some(text) => is_on(text),
        None => default,
    }
}

/// A number of the environment, or what it is where none is given.
pub open spec fn number_of(value: Option<Seq<char>>, default: u64) -> u64 {
    match value {
        Some(text) => match parsed(text, u64::MAX as nat) {
            Some(n) => n as u64,
            None => default,
        },
        None => default,
    }
}

/// A text of the environment, or what it is where none is given.
pub open spec fn text_of(value: Option<Seq<char>>, default: Seq<char>) -> Seq<char> {
    match value {
        Some(text) => text,
        None => default,
    }
}

/// A number brought into a range.
pub open spec fn clamped(n: u64, least: u64, most: u64) -> u64 {
    if n < least {
        least
    } else if n > most {
        most
    } else {
        n
    }
}

/// The settings that an environment gives.
pub open spec fn config_of(environment: Seq<(Seq<char>, Option<Seq<char>>)>) -> ConfigModel {
    ConfigModel {
        listen: text_of(value_of(environment, "RT_TRANSLATION_LISTEN"@), "127.0.0.1:8765"@),
        fake_translation: switch_of(
            value_of(environment, "RT_TRANSLATION_FAKE_TRANSLATION"@),
            false,
        ),
        segment_idle_ms: number_of(
            value_of(environment, "RT_TRANSLATION_SEGMENT_IDLE_MS"@),
            1_500,
        ),
        preview_interval_ms: clamped(
            number_of(value_of(environment, "RT_TRANSLATION_PREVIEW_INTERVAL_MS"@), 200),
            100,
            1_000,
        ),
        llm: LlmConfigModel {
            enabled: switch_of(value_of(environment, "RT_TRANSLATION_LLM_ENABLED"@), false),
            base_url: text_of(
                value_of(environment, "RT_TRANSLATION_LLM_BASE_URL"@),
                "https://api.openai.com/v1"@,
            ),
            api_key: text_of(value_of(environment, "RT_TRANSLATION_LLM_API_KEY"@), Seq::empty()),
            model: text_of(value_of(environment, "RT_TRANSLATION_LLM_MODEL"@), Seq::empty()),
            timeout_seconds: number_of(
                value_of(environment, "RT_TRANSLATION_LLM_TIMEOUT"@),
                20,
            ),
            thinking_disabled: switch_of(
                value_of(environment, "RT_TRANSLATION_LLM_THINKING_DISABLED"@),
                false,
            ),
        },
    }
}

impl Environment {
    /// The text of a variable, if it is set and its value is text.
    pub fn value(&self, name: &str) -> (value: Option<String>)
        ensures
            optional_text(value) == value_of(self@, name@),
    {
        let ghost all = self@;
        let mut i: usize = 0;
        proof {
            assert(all.skip(0) =~= all);
        }
        while i < self.variables.len()
            invariant
                i <= self.variables.len(),
                all == self@,
                value_of(all, name@) == value_of(all.skip(i as int), name@),
            decreases self.variables.len() - i,
        {
            proof {
                assert(all.skip(i as int)[0] == all[i as int]);
                assert(all.skip(i as int).skip(1) =~= all.skip(i + 1));
            }
            if same_text(self.variables[i].0.as_str(), name) {
                return match &self.variables[i].1 {
                    Some(text) => Some(text.clone()),
                    None => None,
                };
            }
            i = i + 1;
        }
        None
    }

    /// Whether a variable is set.
    pub fn has(&self, name: &str) -> (set: bool)
        ensures
            set == is_set(self@, name@),
    {
        let mut i: usize = 0;
        while i < self.variables.len()
            invariant
                i <= self.variables.len(),
                forall|k: int| 0 <= k < i ==> (#[trigger] self@[k]).0 != name@,
            decreases self.variables.len() - i,
        {
            proof {
                assert(self@[i as int].0 == self.variables@[i as int].0@);
            }
            if same_text(self.variables[i].0.as_str(), name) {
                return true;
            }
            i = i + 1;
        }
        false
    }

    /// A switch of the environment, or what it is where nothing is said.
    pub fn env_bool(&self, name: &str, default: bool) -> (on: bool)
        ensures
            on == switch_of(value_of(self@, name@), default),
    {
        match self.value(name) {
            Some(text) => equal_ignoring_case(text.as_str(), "1") || equal_ignoring_case(
                text.as_str(),
                "true",
            ) || equal_ignoring_case(text.as_str(), "yes") || equal_ignoring_case(
                text.as_str(),
                "on",
            ),
            None => default,
        }
    }

    /// A number of the environment, or what it is where none is given.
    fn number(&self, name: &str, default: u64) -> (n: u64)
        ensures
            n == number_of(value_of(self@, name@), default),
    {
        match self.value(name) {
            Some(text) => match parse_u64(text.as_str()) {
                Some(n) => n,
                None => default,
            },
            None => default,
        }
    }

    /// A text of the environment, or what it is where none is given.
    fn text(&self, name: &str, default: &str) -> (text: String)
        ensures
            text@ == text_of(value_of(self@, name@), default@),
    {
        match self.value(name) {
            Some(text) => text,
            None => default.to_owned(),
        }
    }
}

impl AppConfig {
    /// The settings that an environment gives.
    pub fn from_env(environment: &Environment) -> (config: Self)
        ensures
            config@ == config_of(environment@),
    {
        let preview = environment.number("RT_TRANSLATION_PREVIEW_INTERVAL_MS", 200);
        proof {
            reveal_strlit("");
            assert(""@ =~= Seq::empty());
        }
        AppConfig {
            listen: environment.text("RT_TRANSLATION_LISTEN", "127.0.0.1:8765"),
            fake_translation: environment.env_bool("RT_TRANSLATION_FAKE_TRANSLATION", false),
            segment_idle_ms: environment.number("RT_TRANSLATION_SEGMENT_IDLE_MS", 1_500),
            preview_interval_ms: if preview < 100 {
                100
            } else if preview > 1_000 {
                1_000
            } else {
                preview
            },
            llm: LlmConfig {
                enabled: environment.env_bool("RT_TRANSLATION_LLM_ENABLED", false),
                base_url: environment.text(
                    "RT_TRANSLATION_LLM_BASE_URL",
                    "https://api.openai.com/v1",
                ),
                api_key: environment.text("RT_TRANSLATION_LLM_API_KEY", ""),
                model: environment.text("RT_TRANSLATION_LLM_MODEL", ""),
                timeout_seconds: environment.number("RT_TRANSLATION_LLM_TIMEOUT", 20),
                thinking_disabled: environment.env_bool(
                    "RT_TRANSLATION_LLM_THINKING_DISABLED",
                    false,
                ),
            },
        }
    }
}

// ---------------------------------------------------------------------------------
// Paths
// ---------------------------------------------------------------------------------

/// The paths that can be set.
#[derive(Debug, Clone, Copy, PartialEq, Eq, Structural)]
pub enum PathSetting {
    Database,
    SpeechBridge,
    SherpaBridge,
    OverlayApp,
    Python,
    ModelWorker,
}

impl PathSetting {
    /// The variable that sets the path.
    pub open spec fn variable_text(self) -> Seq<char> {
        match self {
            PathSetting::Database => "RT_TRANSLATION_DB"@,
            PathSetting::SpeechBridge => "RT_TRANSLATION_SPEECH_BRIDGE"@,
            PathSetting::SherpaBridge => "RT_TRANSLATION_SHERPA_BRIDGE"@,
            PathSetting::OverlayApp => "RT_TRANSLATION_OVERLAY_APP"@,
            PathSetting::Python => "RT_TRANSLATION_PYTHON"@,
            PathSetting::ModelWorker => "RT_TRANSLATION_MODEL_WORKER"@,
        }
    }

    /// The path below the project's directory that is taken where none is set.
    pub open spec fn default_text(self) -> Option<Seq<char>> {
        match self {
            PathSetting::Database => Some("data/dictionary.sqlite3"@),
            PathSetting::SpeechBridge => Some("target/RealtimeTranslationSpeechBridge.app"@),
            PathSetting::SherpaBridge => Some("scripts/sherpa-onnx-bridge"@),
            PathSetting::OverlayApp => Some("target/RealtimeTranslationOverlay.app"@),
            PathSetting::Python => Some(".venv/bin/python"@),
            PathSetting::ModelWorker => Some("model-worker/worker.py"@),
        }
    }

    /// The variable that sets the path.
    pub fn variable(self) -> (name: &'static str)
        ensures
            name@ == self.variable_text(),
    {
        match self {
            PathSetting::Database => "RT_TRANSLATION_DB",
            PathSetting::SpeechBridge => "RT_TRANSLATION_SPEECH_BRIDGE",
            PathSetting::SherpaBridge => "RT_TRANSLATION_SHERPA_BRIDGE",
            PathSetting::OverlayApp => "RT_TRANSLATION_OVERLAY_APP",
            PathSetting::Python => "RT_TRANSLATION_PYTHON",
            PathSetting::ModelWorker => "RT_TRANSLATION_MODEL_WORKER",
        }
    }

    /// The path below the project's directory that is taken where none is set.
    pub fn default_path(self) -> (path: Option<&'static str>)
        ensures
            match path {
                Some(text) => self.default_text() == Some(text@),
                None => self.default_text() is None,
            },
    {
        match self {
            PathSetting::Database => Some("data/dictionary.sqlite3"),
            PathSetting::SpeechBridge => Some("target/RealtimeTranslationSpeechBridge.app"),
            PathSetting::SherpaBridge => Some("scripts/sherpa-onnx-bridge"),
            PathSetting::OverlayApp => Some("target/RealtimeTranslationOverlay.app"),
            PathSetting::Python => Some(".venv/bin/python"),
            PathSetting::ModelWorker => Some("model-worker/worker.py"),
        }
    }
}

// ---------------------------------------------------------------------------------
// The local file
// ---------------------------------------------------------------------------------

/// What is wrong with the local file, with the number of the line.
#[derive(Debug, Clone, Copy, PartialEq, Eq, Structural)]
pub enum ConfigError {
    /// A line is no assignment.
    InvalidEntry(usize),
    /// A line assigns to what is no name of a variable.
    InvalidVariable(usize),
}

impl ConfigError {
    /// The error as people read it.
    pub open spec fn text(self) -> Seq<char> {
        match self {
            ConfigError::InvalidEntry(line) => "invalid .env.local entry on line "@ + digits(
                line as nat,
            ),
            ConfigError::InvalidVariable(line) => "invalid .env.local variable on line "@ + digits(
                line as nat,
            ),
        }
    }

    /// The error as people read it.
    pub fn message(self) -> (message: String)
        ensures
            message@ == self.text(),
    {
        match self {
            ConfigError::InvalidEntry(line) => join2(
                "invalid .env.local entry on line ",
                decimal(line as u64).as_str(),
            ),
            ConfigError::InvalidVariable(line) => join2(
                "invalid .env.local variable on line ",
                decimal(line as u64).as_str(),
            ),
        }
    }
}

/// A value without the quotation marks that may stand around it.
pub open spec fn unquoted(value: Seq<char>) -> Seq<char> {
    if value.len() >= 2 && value[0] == value.last() && (value[0] == '"' || value[0] == '\'') {
        value.subrange(1, value.len() - 1)
    } else {
        value
    }
}

/// A value without the quotation marks that may stand around it.
pub fn unquote(value: &str) -> (plain: String)
    ensures
        plain@ == unquoted(value@),
{
    let chars = chars_of(value);
    if chars.len() >= 2 && ((chars[0] == '"' && chars[chars.len() - 1] == '"') || (chars[0] == '\''
        && chars[chars.len() - 1] == '\'')) {
        string_of(&slice_of(&chars, 1, chars.len() - 1))
    } else {
        value.to_owned()
    }
}

/// The predicate that holds of the equals sign.
pub open spec fn equals_sign() -> spec_fn(char) -> bool {
    |c: char| c == '='
}

/// The characters of which names of variables are made.
pub open spec fn is_name_character(c: char) -> bool {
    c == '_' || 'a' <= c <= 'z' || 'A' <= c <= 'Z' || '0' <= c <= '9'
}

/// Whether a text is the name of a variable.
pub open spec fn is_name(text: Seq<char>) -> bool {
    text.len() > 0 && forall|i: int| 0 <= i < text.len() ==> is_name_character(#[trigger] text[i])
}

/// What a line of the local file says.
pub enum LineModel {
    /// Nothing: the line is empty or a comment.
    Nothing,
    /// A variable gets a value.
    Assignment(Seq<char>, Seq<char>),
    /// Nothing that makes sense.
    NoAssignment,
    /// An assignment to what is no name.
    NoName,
}

/// What a line of the local file says.
pub open spec fn line_meaning(line: Seq<char>) -> LineModel {
    let text = trimmed(line);
    let n = run_len(text, equals_sign()) as int;
    if text.len() == 0 || text[0] == '#' {
        LineModel::Nothing
    } else if n == text.len() {
        LineModel::NoAssignment
    } else if !is_name(trimmed(text.take(n))) {
        LineModel::NoName
    } else {
        LineModel::Assignment(trimmed(text.take(n)), unquoted(trimmed(text.skip(n + 1))))
    }
}

/// The environment after some lines of the local file, from a line's number on, and what
/// is wrong with them, if anything is. A variable that is set keeps its value.
pub open spec fn after_lines(
    environment: Seq<(Seq<char>, Option<Seq<char>>)>,
    lines: Seq<Seq<char>>,
    number: nat,
) -> (Seq<(Seq<char>, Option<Seq<char>>)>, Option<ConfigError>)
    decreases lines.len(),
{
    if lines.len() == 0 {
        (environment, None)
    } else {
        match line_meaning(lines[0]) {
            LineModel::Nothing => after_lines(environment, lines.skip(1), number + 1),
            LineModel::NoAssignment => (environment, Some(ConfigError::InvalidEntry(number as usize))),
            LineModel::NoName => (environment, Some(ConfigError::InvalidVariable(number as usize))),
            LineModel::Assignment(name, value) => after_lines(
                if is_set(environment, name) {
                    environment
                } else {
                    environment.push((name, Some(value)))
                },
                lines.skip(1),
                number + 1,
            ),
        }
    }
}

/// A line of the local file.
enum LocalLine {
    Nothing,
    Assignment(String, String),
    NoAssignment,
    NoName,
}

impl LocalLine {
    spec fn model(self) -> LineModel {
        match self {
            LocalLine::Nothing => LineModel::Nothing,
            LocalLine::Assignment(name, value) => LineModel::Assignment(name@, value@),
            LocalLine::NoAssignment => LineModel::NoAssignment,
            LocalLine::NoName => LineModel::NoName,
        }
    }
}

/// Whether a text is the name of a variable.
fn is_variable_name(chars: &Vec<char>) -> (name: bool)
    ensures
        name == is_name(chars@),
{
    let mut i: usize = 0;
    while i < chars.len()
        invariant
            i <= chars.len(),
            forall|k: int| 0 <= k < i ==> is_name_character(#[trigger] chars@[k]),
        decreases chars.len() - i,
    {
        let c = chars[i];
        if !(c == '_' || ('a' <= c && c <= 'z') || ('A' <= c && c <= 'Z') || ('0' <= c && c
            <= '9')) {
            return false;
        }
        i = i + 1;
    }
    chars.len() > 0
}

/// What a line of the local file says.
fn read_line(line: &str) -> (meaning: LocalLine)
    ensures
        meaning.model() == line_meaning(line@),
{
    let chars = trim_chars(&chars_of(line));
    if chars.len() == 0 || chars[0] == '#' {
        return LocalLine::Nothing;
    }
    let ghost stop = run_len(chars@, equals_sign());
    proof {
        lemma_run_len(chars@, equals_sign());
    }
    let mut n: usize = 0;
    while n < chars.len() && chars[n] != '='
        invariant
            n <= chars.len(),
            n <= stop <= chars@.len(),
            stop == run_len(chars@, equals_sign()),
            stop < chars@.len() ==> equals_sign()(chars@[stop as int]),
        decreases chars.len() - n,
    {
        n = n + 1;
    }
    proof {
        if n < stop {
            assert(!equals_sign()(chars@[n as int]));
        }
        assert(n == stop);
        assert(chars@.subrange(0, n as int) == chars@.take(n as int));
    }
    if n == chars.len() {
        return LocalLine::NoAssignment;
    }
    let name = trim_chars(&slice_of(&chars, 0, n));
    if !is_variable_name(&name) {
        return LocalLine::NoName;
    }
    let rest = slice_of(&chars, n + 1, chars.len());
    proof {
        assert(rest@ == chars@.skip(n + 1));
    }
    let value = string_of(&trim_chars(&rest));
    LocalLine::Assignment(string_of(&name), unquote(value.as_str()))
}

/// Fills in what the environment leaves open from the contents of the local file. Where
/// a line makes no sense, the lines before it still count.
pub fn load_local_env(contents: &str, environment: &mut Environment) -> (outcome: Result<
    (),
    ConfigError,
>)
    ensures
        (final(environment)@, match outcome {
            Ok(()) => None,
            Err(error) => Some(error),
        }) == after_lines(old(environment)@, lines(contents@), 1),
{
    let found = lines_of(contents);
    let ghost all = texts(found@);
    let mut i: usize = 0;
    proof {
        assert(all.skip(0) =~= all);
    }
    while i < found.len()
        invariant
            i <= found.len(),
            all == texts(found@),
            after_lines(environment@, all.skip(i as int), (i + 1) as nat) == after_lines(
                old(environment)@,
                all,
                1,
            ),
            all == lines(contents@),
        decreases found.len() - i,
    {
        proof {
            assert(all.skip(i as int)[0] == found@[i as int]@);
            assert(all.skip(i as int).skip(1) =~= all.skip(i + 1));
        }
        let number: usize = i + 1;
        match read_line(found[i].as_str()) {
            LocalLine::Nothing => {},
            LocalLine::NoAssignment => {
                return Err(ConfigError::InvalidEntry(number));
            },
            LocalLine::NoName => {
                return Err(ConfigError::InvalidVariable(number));
            },
            LocalLine::Assignment(name, value) => {
                if !environment.has(name.as_str()) {
                    let ghost before = environment@;
                    let ghost added = (name@, Some(value@));
                    environment.variables.push((name, Some(value)));
                    proof {
                        assert(environment@ =~= before.push(added));
                    }
                }
            },
        }
        i = i + 1;
    }
    Ok(())
}

// ---------------------------------------------------------------------------------
// Laws
// ---------------------------------------------------------------------------------

/// The value of a variable that is set does not change by what is added behind it.
proof fn lemma_value_stays(
    environment: Seq<(Seq<char>, Option<Seq<char>>)>,
    added: (Seq<char>, Option<Seq<char>>),
    name: Seq<char>,
)
    requires
        is_set(environment, name),
    ensures
        value_of(environment.push(added), name) == value_of(environment, name),
        is_set(environment.push(added), name),
    decreases environment.len(),
{
    let k = choose|k: int| 0 <= k < environment.len() && (#[trigger] environment[k]).0 == name;
    assert(environment.push(added)[k].0 == name);
    if environment[0].0 != name {
        let rest = environment.skip(1);
        assert(rest[k - 1].0 == name);
        lemma_value_stays(rest, added, name);
        assert(environment.push(added).skip(1) =~= rest.push(added));
    }
}

/// The environment wins over the local file: a variable that is set keeps its value,
/// whatever the file says, and even if the file is refused.
pub proof fn law_environment_wins(
    environment: Seq<(Seq<char>, Option<Seq<char>>)>,
    lines: Seq<Seq<char>>,
    number: nat,
    name: Seq<char>,
)
    requires
        is_set(environment, name),
    ensures
        is_set(after_lines(environment, lines, number).0, name),
        value_of(after_lines(environment, lines, number).0, name) == value_of(environment, name),
    decreases lines.len(),
{
    if lines.len() > 0 {
        match line_meaning(lines[0]) {
            LineModel::Nothing => {
                law_environment_wins(environment, lines.skip(1), number + 1, name);
            },
            LineModel::Assignment(variable, value) => {
                if is_set(environment, variable) {
                    law_environment_wins(environment, lines.skip(1), number + 1, name);
                } else {
                    let added = (variable, Some(value));
                    lemma_value_stays(environment, added, name);
                    law_environment_wins(
                        environment.push(added),
                        lines.skip(1),
                        number + 1,
                        name,
                    );
                }
            },
            _ => {},
        }
    }
}

/// The preview interval is always between a tenth of a second and a second.
pub proof fn law_preview_interval_is_bounded(environment: Seq<(Seq<char>, Option<Seq<char>>)>)
    ensures
        100 <= config_of(environment).preview_interval_ms <= 1_000,
{
}

/// Quotation marks around a value are not part of it.
pub proof fn law_quotes_are_removed(value: Seq<char>)
    ensures
        unquoted(seq!['"'] + value + seq!['"']) == value,
        unquoted(seq!['\''] + value + seq!['\'']) == value,
{
    let double = seq!['"'] + value + seq!['"'];
    let single = seq!['\''] + value + seq!['\''];
    assert(double.last() == '"');
    assert(single.last() == '\'');
    assert(double.subrange(1, double.len() - 1) =~= value);
    assert(single.subrange(1, single.len() - 1) =~= value);
}

/// Of variables with one name the first counts, and where none has the name there is no
/// value.
pub proof fn law_first_variable_counts(
    before: Seq<(Seq<char>, Option<Seq<char>>)>,
    name: Seq<char>,
    value: Option<Seq<char>>,
    after: Seq<(Seq<char>, Option<Seq<char>>)>,
)
    requires
        forall|i: int| 0 <= i < before.len() ==> (#[trigger] before[i]).0 != name,
    ensures
        value_of(before + seq![(name, value)] + after, name) == value,
        value_of(before, name) is None,
        !is_set(before, name),
        is_set(before + seq![(name, value)] + after, name),
    decreases before.len(),
{
    let whole = before + seq![(name, value)] + after;
    assert(whole[before.len() as int].0 == name);
    if before.len() > 0 {
        let rest = before.skip(1);
        assert forall|i: int| 0 <= i < rest.len() implies (#[trigger] rest[i]).0 != name by {
            assert(rest[i] == before[i + 1]);
        }
        law_first_variable_counts(rest, name, value, after);
        assert(whole[0] == before[0]);
        assert(whole.skip(1) =~= rest + seq![(name, value)] + after);
    }
}

/// Every setting comes from the variable of its name, and has its own value where that is
/// not set: texts as they are, switches on by one of four words, numbers if they can be read.
pub proof fn law_settings_come_from_their_variables(
    environment: Seq<(Seq<char>, Option<Seq<char>>)>,
)
    ensures
        ({
            let config = config_of(environment);
            &&& config.listen == given_or(
                value_of(environment, "RT_TRANSLATION_LISTEN"@),
                "127.0.0.1:8765"@,
            )
            &&& config.llm.base_url == given_or(
                value_of(environment, "RT_TRANSLATION_LLM_BASE_URL"@),
                "https://api.openai.com/v1"@,
            )
            &&& config.llm.api_key == given_or(
                value_of(environment, "RT_TRANSLATION_LLM_API_KEY"@),
                Seq::empty(),
            )
            &&& config.llm.model == given_or(
                value_of(environment, "RT_TRANSLATION_LLM_MODEL"@),
                Seq::empty(),
            )
            &&& config.fake_translation == is_switched_on(
                value_of(environment, "RT_TRANSLATION_FAKE_TRANSLATION"@),
            )
            &&& config.llm.enabled == is_switched_on(
                value_of(environment, "RT_TRANSLATION_LLM_ENABLED"@),
            )
            &&& config.llm.thinking_disabled == is_switched_on(
                value_of(environment, "RT_TRANSLATION_LLM_THINKING_DISABLED"@),
            )
            &&& config.segment_idle_ms == read_or(
                value_of(environment, "RT_TRANSLATION_SEGMENT_IDLE_MS"@),
                1_500,
            )
            &&& config.llm.timeout_seconds == read_or(
                value_of(environment, "RT_TRANSLATION_LLM_TIMEOUT"@),
                20,
            )
            &&& {
                let interval = read_or(
                    value_of(environment, "RT_TRANSLATION_PREVIEW_INTERVAL_MS"@),
                    200,
                );
                &&& 100 <= interval <= 1_000 ==> config.preview_interval_ms == interval
                &&& interval < 100 ==> config.preview_interval_ms == 100
                &&& interval > 1_000 ==> config.preview_interval_ms == 1_000
            }
        }),
{
    reveal_strlit("1");
    reveal_strlit("true");
    reveal_strlit("yes");
    reveal_strlit("on");
    assert("1"@ =~= seq!['1']);
    assert("true"@ =~= seq!['t', 'r', 'u', 'e']);
    assert("yes"@ =~= seq!['y', 'e', 's']);
    assert("on"@ =~= seq!['o', 'n']);
}

/// A text if it is there, or else another.
pub open spec fn given_or(value: Option<Seq<char>>, other: Seq<char>) -> Seq<char> {
    if value is Some {
        value->0
    } else {
        other
    }
}

/// Whether a text is there and is one of the words that switch on, ASCII case aside.
pub open spec fn is_switched_on(value: Option<Seq<char>>) -> bool {
    value is Some && (folded(value->0) == folded(seq!['1']) || folded(value->0) == folded(
        seq!['t', 'r', 'u', 'e'],
    ) || folded(value->0) == folded(seq!['y', 'e', 's']) || folded(value->0) == folded(
        seq!['o', 'n'],
    ))
}

/// The number that a text denotes if it is there and denotes one, or else another.
pub open spec fn read_or(value: Option<Seq<char>>, other: int) -> int {
    if value is Some && parsed(value->0, 0xffff_ffff_ffff_ffff) is Some {
        parsed(value->0, 0xffff_ffff_ffff_ffff)->0 as int
    } else {
        other
    }
}

/// A line with an equals sign assigns what stands behind the first one to what stands before
/// it, without white space around them, if that is a name; a blank line and a comment say
/// nothing, and any other line is no assignment.
pub proof fn law_line_assigns(line: Seq<char>, left: Seq<char>, right: Seq<char>)
    requires
        forall|i: int| 0 <= i < left.len() ==> #[trigger] left[i] != '=',
    ensures
        trimmed(line).len() == 0 || trimmed(line)[0] == '#' ==> line_meaning(line) is Nothing,
        left.len() > 0 && left[0] != '#' && trimmed(line) == left ==> line_meaning(
            line,
        ) is NoAssignment,
        (left.len() > 0 ==> left[0] != '#') && trimmed(line) == left + seq!['='] + right ==> (
        if trimmed(left).len() > 0 && (forall|i: int|
            0 <= i < trimmed(left).len() ==> {
                let c = #[trigger] trimmed(left)[i];
                c == '_' || 'a' <= c <= 'z' || 'A' <= c <= 'Z' || '0' <= c <= '9'
            }) {
            line_meaning(line) == LineModel::Assignment(trimmed(left), unquoted(trimmed(right)))
        } else {
            line_meaning(line) is NoName
        }),
{
    let text = trimmed(line);
    let n = left.len();
    if text == left + seq!['='] + right {
        assert forall|i: int| 0 <= i < n implies !#[trigger] equals_sign()(text[i]) by {
            assert(text[i] == left[i]);
        }
        assert(equals_sign()(text[n as int]));
        lemma_run_ends(text, equals_sign(), n);
        assert(text.take(n as int) =~= left);
        assert(text.skip(n as int + 1) =~= right);
        assert(text[0] == (if n > 0 {
            left[0]
        } else {
            '='
        }));
        assert(is_name(trimmed(left)) == (trimmed(left).len() > 0 && forall|i: int|
            0 <= i < trimmed(left).len() ==> {
                let c = #[trigger] trimmed(left)[i];
                c == '_' || 'a' <= c <= 'z' || 'A' <= c <= 'Z' || '0' <= c <= '9'
            }));
    }
    if text == left {
        assert forall|i: int| 0 <= i < n implies !#[trigger] equals_sign()(text[i]) by {
            assert(text[i] == left[i]);
        }
        lemma_run_ends(text, equals_sign(), n);
    }
}

/// A value without quotation marks of one kind at both its ends is taken as it is.
pub proof fn law_other_values_stay(value: Seq<char>)
    requires
        value.len() < 2 || value[0] != value.last() || (value[0] != '"' && value[0] != '\''),
    ensures
        unquoted(value) == value,
{
}

/// The lines of the local file are taken one after the other to the last: each assignment
/// sets its variable if that is not set yet, and the first line that is wrong is reported by
/// its number and ends the reading.
pub proof fn law_every_line_counts(
    environment: Seq<(Seq<char>, Option<Seq<char>>)>,
    line: Seq<char>,
    rest: Seq<Seq<char>>,
    number: nat,
)
    requires
        number <= usize::MAX,
    ensures
        after_lines(environment, Seq::empty(), number) == (environment, None::<ConfigError>),
        ({
            let (after, error) = after_lines(environment, seq![line] + rest, number);
            match line_meaning(line) {
                LineModel::Nothing => (after, error) == after_lines(environment, rest, number + 1),
                LineModel::NoAssignment => after == environment && (
                error matches Some(ConfigError::InvalidEntry(at)) && at == number),
                LineModel::NoName => after == environment && (
                error matches Some(ConfigError::InvalidVariable(at)) && at == number),
                LineModel::Assignment(name, value) => {
                    &&& is_set(environment, name) ==> (after, error) == after_lines(
                        environment,
                        rest,
                        number + 1,
                    )
                    &&& !is_set(environment, name) ==> (after, error) == after_lines(
                        environment.push((name, Some(value))),
                        rest,
                        number + 1,
                    ) && value_of(after, name) == Some(value)
                },
            }
        }),
{
    let all = seq![line] + rest;
    assert(all[0] == line);
    assert(all.skip(1) =~= rest);
    if let LineModel::Assignment(name, value) = line_meaning(line) {
        if !is_set(environment, name) {
            let longer = environment.push((name, Some(value)));
            assert(longer[environment.len() as int].0 == name);
            law_environment_wins(longer, rest, number + 1, name);
            assert forall|i: int| 0 <= i < environment.len() implies (
            #[trigger] environment[i]).0 != name by {}
            law_first_variable_counts(environment, name, Some(value), Seq::empty());
            assert(longer =~= environment + seq![(name, Some(value))] + Seq::empty());
        }
    }
}

} // verus!
