//! Speech recognisers: which there are, how their bridge programs are launched, and what
//! they say.
use crate::domain::{AsrEngine, AudioSource};
use crate::identity::{hex, id_digits, is_random_id, lemma_hex_len, new_id};
use crate::text::{
    begins_ignoring_case, fold, folded, join2, join3, optional_text, starts_ignoring_case, texts,
};
use vstd::prelude::*;

verus! {

/// How long a bridge may take to connect, in seconds.
pub const CONNECT_SECONDS: u64 = 15;

/// How long a bridge may take to stop, in seconds.
pub const STOP_SECONDS: u64 = 3;

/// The line that asks a bridge to stop.
pub const STOP_LINE: &'static str = "stop\n";

/// What a recogniser says.
#[derive(Debug)]
pub enum AsrEvent {
    Ready { locale: String },
    Partial { text: String },
    Final { text: String },
    Error { message: String },
}

/// The content of what a recogniser says.
pub enum AsrEventModel {
    Ready { locale: Seq<char> },
    Partial { text: Seq<char> },
    Final { text: Seq<char> },
    Error { message: Seq<char> },
}

impl View for AsrEvent {
    type V = AsrEventModel;

    open spec fn view(&self) -> AsrEventModel {
        match self {
            AsrEvent::Ready { locale } => AsrEventModel::Ready { locale: locale@ },
            AsrEvent::Partial { text } => AsrEventModel::Partial { text: text@ },
            AsrEvent::Final { text } => AsrEventModel::Final { text: text@ },
            AsrEvent::Error { message } => AsrEventModel::Error { message: message@ },
        }
    }
}

/// What clients are told of a recogniser.
#[derive(Debug)]
pub struct AsrProviderStatus {
    pub id: &'static str,
    pub label: &'static str,
    pub available: bool,
    pub load_policy: &'static str,
}

/// The content of what clients are told of a recogniser.
pub struct StatusModel {
    pub id: Seq<char>,
    pub label: Seq<char>,
    pub available: bool,
    pub load_policy: Seq<char>,
}

impl View for AsrProviderStatus {
    type V = StatusModel;

    open spec fn view(&self) -> StatusModel {
        StatusModel {
            id: self.id@,
            label: self.label@,
            available: self.available,
            load_policy: self.load_policy@,
        }
    }
}

/// Why there is no speech recognition.
#[derive(Debug, PartialEq, Eq)]
pub enum AsrError {
    ProviderUnavailable { engine: AsrEngine, environment_variable: String },
    BridgeMissing { engine: AsrEngine, path: String },
    Start { engine: AsrEngine, source: String },
    Io(String),
    Protocol(String),
    LaunchExited { engine: AsrEngine, status: String },
    ConnectionTimeout(AsrEngine),
    Exited,
}

/// The content of why there is no speech recognition.
pub enum AsrErrorModel {
    ProviderUnavailable { engine: AsrEngine, environment_variable: Seq<char> },
    BridgeMissing { engine: AsrEngine, path: Seq<char> },
    Start { engine: AsrEngine, source: Seq<char> },
    Io(Seq<char>),
    Protocol(Seq<char>),
    LaunchExited { engine: AsrEngine, status: Seq<char> },
    ConnectionTimeout(AsrEngine),
    Exited,
}

impl View for AsrError {
    type V = AsrErrorModel;

    open spec fn view(&self) -> AsrErrorModel {
        match self {
            AsrError::ProviderUnavailable { engine, environment_variable } =>
                AsrErrorModel::ProviderUnavailable {
                engine: *engine,
                environment_variable: environment_variable@,
            },
            AsrError::BridgeMissing { engine, path } => AsrErrorModel::BridgeMissing {
                engine: *engine,
                path: path@,
            },
            AsrError::Start { engine, source } => AsrErrorModel::Start {
                engine: *engine,
                source: source@,
            },
            AsrError::Io(detail) => AsrErrorModel::Io(detail@),
            AsrError::Protocol(detail) => AsrErrorModel::Protocol(detail@),
            AsrError::LaunchExited { engine, status } => AsrErrorModel::LaunchExited {
                engine: *engine,
                status: status@,
            },
            AsrError::ConnectionTimeout(engine) => AsrErrorModel::ConnectionTimeout(*engine),
            AsrError::Exited => AsrErrorModel::Exited,
        }
    }
}

impl AsrErrorModel {
    /// The error as people read it.
    pub open spec fn text(self) -> Seq<char> {
        match self {
            AsrErrorModel::ProviderUnavailable { engine, environment_variable } =>
                engine.description_text() + " 尚未配置；请设置 "@ + environment_variable,
            AsrErrorModel::BridgeMissing { engine, path } => engine.description_text()
                + " bridge 不存在："@ + path,
            AsrErrorModel::Start { engine, source } => "无法启动 "@ + engine.description_text()
                + " bridge："@ + source,
            AsrErrorModel::Io(detail) => "ASR bridge I/O 失败："@ + detail,
            AsrErrorModel::Protocol(detail) => "ASR bridge 返回了无效 JSON："@ + detail,
            AsrErrorModel::LaunchExited { engine, status } => engine.description_text()
                + " bridge 在连接前退出："@ + status,
            AsrErrorModel::ConnectionTimeout(engine) => "等待 "@ + engine.description_text()
                + " bridge 连接超时"@,
            AsrErrorModel::Exited => "ASR bridge 已退出"@,
        }
    }
}

impl AsrError {
    /// The error as people read it.
    pub fn message(&self) -> (message: String)
        ensures
            message@ == self@.text(),
    {
        match self {
            AsrError::ProviderUnavailable { engine, environment_variable } => join3(
                engine.description(),
                " 尚未配置；请设置 ",
                environment_variable.as_str(),
            ),
            AsrError::BridgeMissing { engine, path } => join3(
                engine.description(),
                " bridge 不存在：",
                path.as_str(),
            ),
            AsrError::Start { engine, source } => join2(
                join3("无法启动 ", engine.description(), " bridge：").as_str(),
                source.as_str(),
            ),
            AsrError::Io(detail) => join2("ASR bridge I/O 失败：", detail.as_str()),
            AsrError::Protocol(detail) => join2("ASR bridge 返回了无效 JSON：", detail.as_str()),
            AsrError::LaunchExited { engine, status } => join3(
                engine.description(),
                " bridge 在连接前退出：",
                status.as_str(),
            ),
            AsrError::ConnectionTimeout(engine) => join3(
                "等待 ",
                engine.description(),
                " bridge 连接超时",
            ),
            AsrError::Exited => "ASR bridge 已退出".to_owned(),
        }
    }
}

// ---------------------------------------------------------------------------------
// Bridges
// ---------------------------------------------------------------------------------

/// How a bridge program is launched.
#[derive(Debug, Clone, Copy, PartialEq, Eq, Structural)]
pub enum LaunchMode {
    /// It is an application bundle.
    AppBundle,
    /// It is a plain program or an application bundle.
    ExecutableOrApp,
}

/// What the file system says of a path.
#[derive(Debug, Clone, Copy, PartialEq, Eq, Structural)]
pub struct PathFacts {
    pub is_dir: bool,
    pub is_file: bool,
}

/// What the file system says of the paths of the bridges.
#[derive(Debug, Clone, Copy, PartialEq, Eq, Structural)]
pub struct BridgeFacts {
    pub apple_speech: PathFacts,
    pub sherpa_onnx: PathFacts,
}

impl BridgeFacts {
    /// What the file system says of the path of an engine's bridge.
    pub open spec fn facts(self, engine: AsrEngine) -> PathFacts {
        match engine {
            AsrEngine::AppleSpeech => self.apple_speech,
            AsrEngine::SherpaOnnx => self.sherpa_onnx,
        }
    }

    /// What the file system says of the path of an engine's bridge.
    pub fn of(self, engine: AsrEngine) -> (facts: PathFacts)
        ensures
            facts == self.facts(engine),
    {
        match engine {
            AsrEngine::AppleSpeech => self.apple_speech,
            AsrEngine::SherpaOnnx => self.sherpa_onnx,
        }
    }
}

/// A recogniser that runs in a bridge program.
#[derive(Debug)]
pub struct BridgeProvider {
    pub engine: AsrEngine,
    /// The path of the bridge as it is shown to people, if it is configured.
    pub path: Option<String>,
    pub environment_variable: &'static str,
    pub launch_mode: LaunchMode,
}

/// The content of a recogniser's description.
pub struct ProviderModel {
    pub engine: AsrEngine,
    pub path: Option<Seq<char>>,
    pub environment_variable: Seq<char>,
    pub launch_mode: LaunchMode,
}

impl View for BridgeProvider {
    type V = ProviderModel;

    open spec fn view(&self) -> ProviderModel {
        ProviderModel {
            engine: self.engine,
            path: optional_text(self.path),
            environment_variable: self.environment_variable@,
            launch_mode: self.launch_mode,
        }
    }
}

impl ProviderModel {
    /// The provider of Apple Speech.
    pub open spec fn apple(path: Seq<char>) -> ProviderModel {
        ProviderModel {
            engine: AsrEngine::AppleSpeech,
            path: Some(path),
            environment_variable: "RT_TRANSLATION_SPEECH_BRIDGE"@,
            launch_mode: LaunchMode::AppBundle,
        }
    }

    /// The provider of Sherpa-ONNX.
    pub open spec fn sherpa(path: Option<Seq<char>>) -> ProviderModel {
        ProviderModel {
            engine: AsrEngine::SherpaOnnx,
            path,
            environment_variable: "RT_TRANSLATION_SHERPA_BRIDGE"@,
            launch_mode: LaunchMode::ExecutableOrApp,
        }
    }

    /// Whether the bridge is there.
    pub open spec fn is_available(self, facts: PathFacts) -> bool {
        self.path is Some && match self.launch_mode {
            LaunchMode::AppBundle => facts.is_dir,
            LaunchMode::ExecutableOrApp => facts.is_dir || facts.is_file,
        }
    }

    /// What clients are told of the recogniser.
    pub open spec fn status(self, facts: PathFacts) -> StatusModel {
        StatusModel {
            id: self.engine.id_text(),
            label: self.engine.description_text(),
            available: self.is_available(facts),
            load_policy: "on_session_start"@,
        }
    }

    /// Why the bridge cannot be launched, or nothing.
    pub open spec fn obstacle(self, facts: PathFacts) -> Option<AsrErrorModel> {
        match self.path {
            None => Some(
                AsrErrorModel::ProviderUnavailable {
                    engine: self.engine,
                    environment_variable: self.environment_variable,
                },
            ),
            Some(path) => if self.is_available(facts) {
                None
            } else {
                Some(AsrErrorModel::BridgeMissing { engine: self.engine, path })
            },
        }
    }

    /// Whether the bridge is launched as an application bundle.
    pub open spec fn is_bundle(self, facts: PathFacts) -> bool {
        self.launch_mode == LaunchMode::AppBundle || facts.is_dir
    }
}

/// An argument of a bridge program.
#[derive(Debug)]
pub enum LaunchArgument {
    /// A text.
    Text(String),
    /// The path of the bridge.
    BridgePath,
    /// The path of the socket.
    SocketPath,
}

/// The content of an argument.
pub enum ArgumentModel {
    Text(Seq<char>),
    BridgePath,
    SocketPath,
}

impl View for LaunchArgument {
    type V = ArgumentModel;

    open spec fn view(&self) -> ArgumentModel {
        match self {
            LaunchArgument::Text(text) => ArgumentModel::Text(text@),
            LaunchArgument::BridgePath => ArgumentModel::BridgePath,
            LaunchArgument::SocketPath => ArgumentModel::SocketPath,
        }
    }
}

/// The contents of some arguments.
pub open spec fn argument_models(arguments: Seq<LaunchArgument>) -> Seq<ArgumentModel> {
    arguments.map_values(|argument: LaunchArgument| argument@)
}

/// How a bridge is launched: a program, which is the bridge itself if none is named, and
/// its arguments.
#[derive(Debug)]
pub struct LaunchPlan {
    pub program: Option<&'static str>,
    pub arguments: Vec<LaunchArgument>,
}

/// The content of how a bridge is launched.
pub struct PlanModel {
    pub program: Option<Seq<char>>,
    pub arguments: Seq<ArgumentModel>,
}

impl View for LaunchPlan {
    type V = PlanModel;

    open spec fn view(&self) -> PlanModel {
        PlanModel {
            program: match self.program {
                Some(program) => Some(program@),
                None => None,
            },
            arguments: argument_models(self.arguments@),
        }
    }
}

/// The locale for a language.
pub open spec fn locale_of(language: Seq<char>) -> Seq<char> {
    if begins_ignoring_case(language, "en"@) {
        "en-US"@
    } else {
        "zh-CN"@
    }
}

/// The arguments that name terms to expect.
pub open spec fn term_arguments(hotwords: Seq<Seq<char>>) -> Seq<ArgumentModel>
    decreases hotwords.len(),
{
    if hotwords.len() == 0 {
        Seq::empty()
    } else {
        term_arguments(hotwords.drop_last()) + seq![
            ArgumentModel::Text("--term"@),
            ArgumentModel::Text(hotwords.last()),
        ]
    }
}

/// The arguments of the launcher of application bundles, up to those of the bridge.
pub open spec fn bundle_arguments() -> Seq<ArgumentModel> {
    seq![
        ArgumentModel::Text("-n"@),
        ArgumentModel::Text("-W"@),
        ArgumentModel::Text("-a"@),
        ArgumentModel::BridgePath,
        ArgumentModel::Text("--args"@),
    ]
}

/// How a bridge is launched for a session.
pub open spec fn plan_of(
    bundle: bool,
    source_language: Seq<char>,
    audio_source: AudioSource,
    hotwords: Seq<Seq<char>>,
) -> PlanModel {
    PlanModel {
        program: if bundle {
            Some("/usr/bin/open"@)
        } else {
            None
        },
        arguments: (if bundle {
            bundle_arguments()
        } else {
            Seq::empty()
        }) + seq![
            ArgumentModel::Text("--socket"@),
            ArgumentModel::SocketPath,
            ArgumentModel::Text("--locale"@),
            ArgumentModel::Text(locale_of(source_language)),
            ArgumentModel::Text("--audio-source"@),
            ArgumentModel::Text(audio_source.argument_text()),
        ] + term_arguments(hotwords),
    }
}

/// The locale for a language.
pub fn normalized_locale(language: &str) -> (locale: &'static str)
    ensures
        locale@ == locale_of(language@),
{
    if starts_ignoring_case(language, "en") {
        "en-US"
    } else {
        "zh-CN"
    }
}

/// The name of the socket for a launch. The path of a socket must be short, so it is.
pub open spec fn socket_name_of(id: u128) -> Seq<char> {
    "rt-asr-"@ + hex(id as nat, 32) + ".sock"@
}

/// The name of the socket for a launch.
pub fn socket_name(id: u128) -> (name: String)
    ensures
        name@ == socket_name_of(id),
{
    join3("rt-asr-", id_digits(id).as_str(), ".sock")
}

/// A name for the socket of a new launch, made of a random identifier.
pub fn new_socket_name() -> (name: String)
    ensures
        exists|id: u128| is_random_id(id) && name@ == #[trigger] socket_name_of(id),
{
    let id = new_id();
    socket_name(id)
}

/// Appends an argument that is a text.
fn push_text(arguments: &mut Vec<LaunchArgument>, text: &str)
    ensures
        argument_models(final(arguments)@) == argument_models(old(arguments)@).push(
            ArgumentModel::Text(text@),
        ),
{
    let argument = LaunchArgument::Text(text.to_owned());
    let ghost before = arguments@;
    arguments.push(argument);
    proof {
        assert(argument_models(arguments@) =~= argument_models(before).push(argument@));
    }
}

/// Appends an argument.
fn push_argument(arguments: &mut Vec<LaunchArgument>, argument: LaunchArgument)
    ensures
        argument_models(final(arguments)@) == argument_models(old(arguments)@).push(argument@),
{
    let ghost before = arguments@;
    arguments.push(argument);
    proof {
        assert(argument_models(arguments@) =~= argument_models(before).push(argument@));
    }
}

/// How a bridge is launched for a session.
pub fn launch_plan(
    bundle: bool,
    source_language: &str,
    audio_source: AudioSource,
    hotwords: &[String],
) -> (plan: LaunchPlan)
    ensures
        plan@ == plan_of(bundle, source_language@, audio_source, texts(hotwords@)),
{
    let mut arguments: Vec<LaunchArgument> = Vec::new();
    proof {
        assert(argument_models(arguments@) =~= Seq::empty());
    }
    if bundle {
        push_text(&mut arguments, "-n");
        push_text(&mut arguments, "-W");
        push_text(&mut arguments, "-a");
        push_argument(&mut arguments, LaunchArgument::BridgePath);
        push_text(&mut arguments, "--args");
        proof {
            assert(argument_models(arguments@) =~= bundle_arguments());
        }
    }
    let ghost front = argument_models(arguments@);
    push_text(&mut arguments, "--socket");
    push_argument(&mut arguments, LaunchArgument::SocketPath);
    push_text(&mut arguments, "--locale");
    push_text(&mut arguments, normalized_locale(source_language));
    push_text(&mut arguments, "--audio-source");
    push_text(&mut arguments, audio_source.bridge_argument());
    let ghost fixed = front + seq![
        ArgumentModel::Text("--socket"@),
        ArgumentModel::SocketPath,
        ArgumentModel::Text("--locale"@),
        ArgumentModel::Text(locale_of(source_language@)),
        ArgumentModel::Text("--audio-source"@),
        ArgumentModel::Text(audio_source.argument_text()),
    ];
    let ghost all = texts(hotwords@);
    let mut i: usize = 0;
    proof {
        assert(argument_models(arguments@) =~= fixed);
        assert(all.take(0) =~= Seq::empty());
        assert(fixed + term_arguments(all.take(0)) =~= fixed);
    }
    while i < hotwords.len()
        invariant
            i <= hotwords.len(),
            all == texts(hotwords@),
            argument_models(arguments@) == fixed + term_arguments(all.take(i as int)),
        decreases hotwords.len() - i,
    {
        push_text(&mut arguments, "--term");
        push_text(&mut arguments, hotwords[i].as_str());
        proof {
            assert(all.take(i + 1).drop_last() =~= all.take(i as int));
            assert(all.take(i + 1).last() == hotwords@[i as int]@);
            assert(argument_models(arguments@) =~= fixed + term_arguments(all.take(i + 1)));
        }
        i = i + 1;
    }
    proof {
        assert(all.take(all.len() as int) =~= all);
    }
    LaunchPlan {
        program: if bundle {
            Some("/usr/bin/open")
        } else {
            None
        },
        arguments,
    }
}

impl BridgeProvider {
    /// The provider of Apple Speech.
    pub fn apple(path: String) -> (provider: Self)
        ensures
            provider@ == ProviderModel::apple(path@),
    {
        BridgeProvider {
            engine: AsrEngine::AppleSpeech,
            path: Some(path),
            environment_variable: "RT_TRANSLATION_SPEECH_BRIDGE",
            launch_mode: LaunchMode::AppBundle,
        }
    }

    /// The provider of Sherpa-ONNX.
    pub fn sherpa(path: Option<String>) -> (provider: Self)
        ensures
            provider@ == ProviderModel::sherpa(optional_text(path)),
    {
        BridgeProvider {
            engine: AsrEngine::SherpaOnnx,
            path,
            environment_variable: "RT_TRANSLATION_SHERPA_BRIDGE",
            launch_mode: LaunchMode::ExecutableOrApp,
        }
    }

    /// The path of the bridge, or what to set for it.
    pub fn configured_path(&self) -> (outcome: Result<String, AsrError>)
        ensures
            match outcome {
                Ok(path) => self@.path == Some(path@),
                Err(error) => self@.path is None && error@ == (AsrErrorModel::ProviderUnavailable {
                    engine: self@.engine,
                    environment_variable: self@.environment_variable,
                }),
            },
    {
        match &self.path {
            Some(path) => Ok(path.clone()),
            None => Err(
                AsrError::ProviderUnavailable {
                    engine: self.engine,
                    environment_variable: self.environment_variable.to_owned(),
                },
            ),
        }
    }

    /// Whether the bridge is there.
    pub fn available(&self, facts: PathFacts) -> (available: bool)
        ensures
            available == self@.is_available(facts),
    {
        self.path.is_some() && match self.launch_mode {
            LaunchMode::AppBundle => facts.is_dir,
            LaunchMode::ExecutableOrApp => facts.is_dir || facts.is_file,
        }
    }

    /// What clients are told of the recogniser.
    pub fn status(&self, facts: PathFacts) -> (status: AsrProviderStatus)
        ensures
            status@ == self@.status(facts),
    {
        AsrProviderStatus {
            id: self.engine.id(),
            label: self.engine.description(),
            available: self.available(facts),
            load_policy: "on_session_start",
        }
    }

    /// How the bridge is launched for a session, or why it cannot be.
    pub fn start(
        &self,
        facts: PathFacts,
        source_language: &str,
        audio_source: AudioSource,
        hotwords: &[String],
    ) -> (outcome: Result<LaunchPlan, AsrError>)
        ensures
            match outcome {
                Ok(plan) => self@.obstacle(facts) is None && plan@ == plan_of(
                    self@.is_bundle(facts),
                    source_language@,
                    audio_source,
                    texts(hotwords@),
                ),
                Err(error) => self@.obstacle(facts) == Some(error@),
            },
    {
        let path = match self.configured_path() {
            Ok(path) => path,
            Err(error) => {
                return Err(error);
            },
        };
        if !self.available(facts) {
            return Err(AsrError::BridgeMissing { engine: self.engine, path });
        }
        let bundle = match self.launch_mode {
            LaunchMode::AppBundle => true,
            LaunchMode::ExecutableOrApp => facts.is_dir,
        };
        Ok(launch_plan(bundle, source_language, audio_source, hotwords))
    }
}

// ---------------------------------------------------------------------------------
// All recognisers
// ---------------------------------------------------------------------------------

/// The recognisers that there are.
#[derive(Debug)]
pub struct AsrProviderRegistry {
    apple_speech: BridgeProvider,
    sherpa_onnx: BridgeProvider,
}

/// The descriptions of the recognisers that there are.
pub struct RegistryModel {
    pub apple_speech: ProviderModel,
    pub sherpa_onnx: ProviderModel,
}

impl View for AsrProviderRegistry {
    type V = RegistryModel;

    closed spec fn view(&self) -> RegistryModel {
        RegistryModel { apple_speech: self.apple_speech@, sherpa_onnx: self.sherpa_onnx@ }
    }
}

impl RegistryModel {
    /// The provider of an engine.
    pub open spec fn provider(self, engine: AsrEngine) -> ProviderModel {
        match engine {
            AsrEngine::AppleSpeech => self.apple_speech,
            AsrEngine::SherpaOnnx => self.sherpa_onnx,
        }
    }
}

/// The contents of what clients are told of some recognisers.
pub open spec fn status_models(statuses: Seq<AsrProviderStatus>) -> Seq<StatusModel> {
    statuses.map_values(|status: AsrProviderStatus| status@)
}

impl AsrProviderRegistry {
    /// The recognisers with the paths of their bridges.
    pub fn new(apple_speech_path: String, sherpa_onnx_path: Option<String>) -> (registry: Self)
        ensures
            registry@ == (RegistryModel {
                apple_speech: ProviderModel::apple(apple_speech_path@),
                sherpa_onnx: ProviderModel::sherpa(optional_text(sherpa_onnx_path)),
            }),
    {
        AsrProviderRegistry {
            apple_speech: BridgeProvider::apple(apple_speech_path),
            sherpa_onnx: BridgeProvider::sherpa(sherpa_onnx_path),
        }
    }

    /// What clients are told of the recognisers.
    pub fn statuses(&self, facts: BridgeFacts) -> (statuses: Vec<AsrProviderStatus>)
        ensures
            status_models(statuses@) == seq![
                self@.apple_speech.status(facts.apple_speech),
                self@.sherpa_onnx.status(facts.sherpa_onnx),
            ],
    {
        let statuses = vec![
            self.apple_speech.status(facts.apple_speech),
            self.sherpa_onnx.status(facts.sherpa_onnx),
        ];
        proof {
            assert(status_models(statuses@) =~= seq![
                self@.apple_speech.status(facts.apple_speech),
                self@.sherpa_onnx.status(facts.sherpa_onnx),
            ]);
        }
        statuses
    }

    /// Whether the bridge of an engine is there.
    pub fn available(&self, engine: AsrEngine, facts: BridgeFacts) -> (available: bool)
        ensures
            available == self@.provider(engine).is_available(facts.facts(engine)),
    {
        self.provider(engine).available(facts.of(engine))
    }

    /// How the bridge of an engine is launched for a session, or why it cannot be.
    pub fn start(
        &self,
        engine: AsrEngine,
        facts: BridgeFacts,
        source_language: &str,
        audio_source: AudioSource,
        hotwords: &[String],
    ) -> (outcome: Result<LaunchPlan, AsrError>)
        ensures
            match outcome {
                Ok(plan) => self@.provider(engine).obstacle(facts.facts(engine)) is None && plan@
                    == plan_of(
                    self@.provider(engine).is_bundle(facts.facts(engine)),
                    source_language@,
                    audio_source,
                    texts(hotwords@),
                ),
                Err(error) => self@.provider(engine).obstacle(facts.facts(engine)) == Some(error@),
            },
    {
        self.provider(engine).start(facts.of(engine), source_language, audio_source, hotwords)
    }

    /// The provider of an engine.
    fn provider(&self, engine: AsrEngine) -> (provider: &BridgeProvider)
        ensures
            provider@ == self@.provider(engine),
    {
        match engine {
            AsrEngine::AppleSpeech => &self.apple_speech,
            AsrEngine::SherpaOnnx => &self.sherpa_onnx,
        }
    }
}

// ---------------------------------------------------------------------------------
// A session
// ---------------------------------------------------------------------------------

/// What becomes of a bridge that was launched.
#[derive(Debug)]
pub enum LaunchEvent {
    /// It connected.
    Connected,
    /// It ended with a status.
    Ended(String),
    /// It took too long.
    TimedOut,
}

/// Whether a bridge that was launched can be used.
pub fn launch_outcome(engine: AsrEngine, event: LaunchEvent) -> (outcome: Result<(), AsrError>)
    ensures
        match event {
            LaunchEvent::Connected => outcome is Ok,
            LaunchEvent::Ended(status) => outcome matches Err(error) && error@
                == (AsrErrorModel::LaunchExited { engine, status: status@ }),
            LaunchEvent::TimedOut => outcome matches Err(error) && error@
                == AsrErrorModel::ConnectionTimeout(engine),
        },
{
    match event {
        LaunchEvent::Connected => Ok(()),
        LaunchEvent::Ended(status) => Err(AsrError::LaunchExited { engine, status }),
        LaunchEvent::TimedOut => Err(AsrError::ConnectionTimeout(engine)),
    }
}

/// The next line of a bridge; a bridge that gives none has ended.
pub fn line_or_exit(line: Option<String>) -> (outcome: Result<String, AsrError>)
    ensures
        match line {
            Some(text) => outcome matches Ok(found) && found@ == text@,
            None => outcome matches Err(error) && error@ is Exited,
        },
{
    match line {
        Some(text) => Ok(text),
        None => Err(AsrError::Exited),
    }
}

// ---------------------------------------------------------------------------------
// Laws
// ---------------------------------------------------------------------------------

/// A recogniser can be launched exactly if clients are told that it is available.
pub proof fn law_available_can_be_launched(provider: ProviderModel, facts: PathFacts)
    ensures
        provider.obstacle(facts) is None <==> provider.status(facts).available,
{
}

/// The path of a socket fits into the 104 bytes that some systems allow for it.
pub proof fn law_socket_path_is_short(id: u128)
    ensures
        ("/tmp/"@ + socket_name_of(id)).len() == 49,
{
    lemma_hex_len(id as nat, 32);
    reveal_strlit("/tmp/");
    reveal_strlit("rt-asr-");
    reveal_strlit(".sock");
}

/// Every term to expect is named to the bridge, in order and behind a flag of its own.
pub proof fn law_every_term_is_named(hotwords: Seq<Seq<char>>)
    ensures
        term_arguments(hotwords).len() == 2 * hotwords.len(),
        forall|i: int|
            0 <= i < hotwords.len() ==> {
                &&& term_arguments(hotwords)[2 * i] == ArgumentModel::Text("--term"@)
                &&& #[trigger] term_arguments(hotwords)[2 * i + 1] == ArgumentModel::Text(
                    hotwords[i],
                )
            },
    decreases hotwords.len(),
{
    if hotwords.len() > 0 {
        let front = hotwords.drop_last();
        law_every_term_is_named(front);
        assert forall|i: int| 0 <= i < hotwords.len() implies {
            &&& term_arguments(hotwords)[2 * i] == ArgumentModel::Text("--term"@)
            &&& #[trigger] term_arguments(hotwords)[2 * i + 1] == ArgumentModel::Text(hotwords[i])
        } by {
            if i < front.len() {
                assert(term_arguments(front)[2 * i + 1] == ArgumentModel::Text(front[i]));
                assert(term_arguments(hotwords)[2 * i + 1] == term_arguments(front)[2 * i + 1]);
                assert(term_arguments(hotwords)[2 * i] == term_arguments(front)[2 * i]);
            }
        }
    }
}

/// A bridge is launched with the socket, the locale of the language, the source of sound and
/// every term to expect, in that order; one that is an application bundle through the
/// launcher of those, and any other by itself.
pub proof fn law_bridge_is_told_everything(
    bundle: bool,
    language: Seq<char>,
    audio_source: AudioSource,
    hotwords: Seq<Seq<char>>,
    term: int,
)
    requires
        0 <= term < hotwords.len(),
    ensures
        ({
            let plan = plan_of(bundle, language, audio_source, hotwords);
            let from = if bundle {
                5int
            } else {
                0
            };
            &&& bundle ==> plan.program == Some("/usr/bin/open"@)
            &&& !bundle ==> plan.program is None
            &&& plan.arguments.len() == from + 6 + 2 * hotwords.len()
            &&& bundle ==> plan.arguments[0] == ArgumentModel::Text("-n"@)
            &&& bundle ==> plan.arguments[1] == ArgumentModel::Text("-W"@)
            &&& bundle ==> plan.arguments[2] == ArgumentModel::Text("-a"@)
            &&& bundle ==> plan.arguments[3] == ArgumentModel::BridgePath
            &&& bundle ==> plan.arguments[4] == ArgumentModel::Text("--args"@)
            &&& plan.arguments[from] == ArgumentModel::Text("--socket"@)
            &&& plan.arguments[from + 1] == ArgumentModel::SocketPath
            &&& plan.arguments[from + 2] == ArgumentModel::Text("--locale"@)
            &&& plan.arguments[from + 3] == ArgumentModel::Text(locale_of(language))
            &&& plan.arguments[from + 4] == ArgumentModel::Text("--audio-source"@)
            &&& audio_source is Microphone ==> plan.arguments[from + 5] == ArgumentModel::Text(
                "microphone"@,
            )
            &&& audio_source is SystemAudio ==> plan.arguments[from + 5] == ArgumentModel::Text(
                "system_audio"@,
            )
            &&& plan.arguments[from + 6 + 2 * term] == ArgumentModel::Text("--term"@)
            &&& plan.arguments[from + 7 + 2 * term] == ArgumentModel::Text(hotwords[term])
        }),
{
    law_every_term_is_named(hotwords);
    let terms = term_arguments(hotwords);
    assert(terms[2 * term + 1] == ArgumentModel::Text(hotwords[term]));
    let plan = plan_of(bundle, language, audio_source, hotwords);
    let from = if bundle {
        5int
    } else {
        0
    };
    assert(plan.arguments[from + 6 + 2 * term] == terms[2 * term]);
    assert(plan.arguments[from + 7 + 2 * term] == terms[2 * term + 1]);
}

/// A language whose tag begins with the letters of English, in whatever case, is heard as
/// English, and any other as Chinese.
pub proof fn law_locale_follows_the_language(language: Seq<char>)
    ensures
        language.len() >= 2 && (language[0] == 'e' || language[0] == 'E') && (language[1] == 'n'
            || language[1] == 'N') <==> locale_of(language) == "en-US"@,
        locale_of(language) != "en-US"@ ==> locale_of(language) == "zh-CN"@,
{
    reveal_strlit("en");
    reveal_strlit("en-US");
    reveal_strlit("zh-CN");
    assert("en-US"@[0] != "zh-CN"@[0]);
    let head = folded("en"@);
    if language.len() >= 2 {
        lemma_is_letter(language[0], 'e', 'E');
        lemma_is_letter(language[1], 'n', 'N');
        assert(folded(language)[0] == fold(language[0]));
        assert(folded(language)[1] == fold(language[1]));
        assert(head[0] == fold('e') && head[1] == fold('n'));
        if fold(language[0]) == fold('e') && fold(language[1]) == fold('n') {
            assert(folded(language).subrange(0, 2) =~= head);
        }
        if head.is_prefix_of(folded(language)) {
            assert(folded(language).subrange(0, 2)[0] == head[0]);
            assert(folded(language).subrange(0, 2)[1] == head[1]);
        }
    }
}

/// A small letter and its capital fold to the same, and nothing else does.
proof fn lemma_is_letter(c: char, small: char, capital: char)
    requires
        'a' <= small <= 'z',
        capital as u32 + 32 == small as u32,
    ensures
        fold(c) == fold(small) <==> c == small || c == capital,
{
}

/// A bridge is there if its path is set and leads to a directory, or to a file where the
/// bridge may be one. If not, the error says which variable sets the path, or which path
/// leads nowhere.
pub proof fn law_missing_bridges_are_reported(provider: ProviderModel, facts: PathFacts)
    ensures
        match provider.obstacle(facts) {
            None => provider.path is Some && (facts.is_dir || (facts.is_file
                && provider.launch_mode == LaunchMode::ExecutableOrApp)),
            Some(error) => match provider.path {
                None => error == (AsrErrorModel::ProviderUnavailable {
                    engine: provider.engine,
                    environment_variable: provider.environment_variable,
                }),
                Some(path) => !facts.is_dir && (facts.is_file ==> provider.launch_mode
                    == LaunchMode::AppBundle) && error == (AsrErrorModel::BridgeMissing {
                    engine: provider.engine,
                    path,
                }),
            },
        },
        provider.is_bundle(facts) <==> facts.is_dir || provider.launch_mode
            == LaunchMode::AppBundle,
        provider.status(facts).id == provider.engine.id_text(),
        provider.status(facts).label == provider.engine.description_text(),
{
}

} // verus!
