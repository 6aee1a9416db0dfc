//! Loading and unloading of the module: which servers it runs on, and what is set up in which order.
use vstd::prelude::*;
use vstd::string::StringExecFns;

verus! {

/// The version of the module.
pub const VK_TIMESERIES_VERSION: i32 = 1;

/// The name of the module.
pub const MODULE_NAME: &'static str = "ts";

/// The oldest server that the module runs on: its major, minor and patch number.
pub const MIN_SUPPORTED_MAJOR: i64 = 8;

pub const MIN_SUPPORTED_MINOR: i64 = 0;

pub const MIN_SUPPORTED_PATCH: i64 = 0;

/// The version of a server.
#[derive(Debug, Clone, Copy, PartialEq, Eq, Structural)]
pub struct Version {
    pub major: i32,
    pub minor: i32,
    pub patch: i32,
}

impl Version {
    /// Whether the version is no older than `other`: the first number that differs decides.
    pub open spec fn at_least(self, other: (i64, i64, i64)) -> bool {
        ||| self.major > other.0
        ||| self.major == other.0 && self.minor > other.1
        ||| self.major == other.0 && self.minor == other.1 && self.patch >= other.2
    }

    /// Whether the module runs on the version.
    pub open spec fn supported(self) -> bool {
        self.at_least((MIN_SUPPORTED_MAJOR, MIN_SUPPORTED_MINOR, MIN_SUPPORTED_PATCH))
    }
}

/// Whether the module runs on a server of the version.
pub fn valid_server_version(version: Version) -> (r: bool)
    ensures
        r == version.supported(),
{
    let major: i64 = version.major as i64;
    let minor: i64 = version.minor as i64;
    let patch: i64 = version.patch as i64;
    if major != MIN_SUPPORTED_MAJOR {
        major > MIN_SUPPORTED_MAJOR
    } else if minor != MIN_SUPPORTED_MINOR {
        minor > MIN_SUPPORTED_MINOR
    } else {
        patch >= MIN_SUPPORTED_PATCH
    }
}

/// A server that is no older than one that the module runs on is one that it runs on.
pub proof fn law_newer_servers_are_supported(old_version: Version, new_version: Version)
    requires
        old_version.supported(),
        new_version.at_least(
            (old_version.major as i64, old_version.minor as i64, old_version.patch as i64),
        ),
    ensures
        new_version.supported(),
{
}

/// Whether the module may be loaded.
#[derive(Debug, Clone, Copy, PartialEq, Eq, Structural)]
pub enum LoadStatus {
    Accepted,
    Refused,
}

/// A line for the log of the server.
#[derive(Debug)]
pub enum LogLine {
    Notice(String),
    Warning(String),
}

/// A line for the log of the server.
pub enum LogView {
    Notice(Seq<char>),
    Warning(Seq<char>),
}

impl View for LogLine {
    type V = LogView;

    open spec fn view(&self) -> LogView {
        match self {
            LogLine::Notice(text) => LogView::Notice(text@),
            LogLine::Warning(text) => LogView::Warning(text@),
        }
    }
}

/// A line that may be missing.
pub open spec fn line_view(line: Option<LogLine>) -> Option<LogView> {
    match line {
        Some(l) => Some(l@),
        None => None,
    }
}

/// What is said of a server that is too old.
pub open spec fn unsupported_text() -> Seq<char> {
    "The minimum supported Valkey server version for the valkey-timeseries module is [8, 0, 0]"@
}

/// Whether the module may be loaded into a server of the version, and what is logged of it.
pub fn preload(version: Version) -> (r: (LoadStatus, Option<LogLine>))
    ensures
        version.supported() ==> r.0 == LoadStatus::Accepted && r.1 is None,
        !version.supported() ==> r.0 == LoadStatus::Refused && line_view(r.1) == Some(
            LogView::Warning(unsupported_text()),
        ),
{
    if !valid_server_version(version) {
        let text: String =
            "The minimum supported Valkey server version for the valkey-timeseries module is [8, 0, 0]".to_owned();
        return (LoadStatus::Refused, Some(LogLine::Warning(text)));
    }
    (LoadStatus::Accepted, None)
}

/// What is known of the module while it is loaded.
#[derive(Debug, Clone, Copy, PartialEq, Eq, Structural)]
pub struct ModuleState {
    pub initialized: bool,
}

impl ModuleState {
    /// The state before anything is done.
    pub open spec fn at_start() -> ModuleState {
        ModuleState { initialized: false }
    }

    /// The state after a step of the setup is done.
    pub open spec fn stepped(self, step: InitStep) -> ModuleState {
        ModuleState { initialized: self.initialized || step is InitBackgroundTasks }
    }
}

/// Whether the module is set up.
pub fn is_module_initialized(state: &ModuleState) -> (r: bool)
    ensures
        r == state.initialized,
{
    state.initialized
}

/// What is to be done next to set up the module.
#[derive(Debug, Clone, Copy, PartialEq, Eq, Structural)]
pub enum InitStep {
    InitAllocator,
    SetLogLevel,
    RegisterConfig,
    AskClustered,
    InitFanout,
    RegisterFanoutOperations,
    RegisterServerEvents,
    InitThreadPool,
    InitBackgroundTasks,
    /// Nothing more.
    Finished(LoadStatus),
}

/// What came of a step.
#[derive(Debug)]
pub enum StepReply {
    Done,
    /// The step failed; holds why.
    Failed(String),
    /// Whether the server is part of a cluster.
    Clustered(bool),
}

impl InitStep {
    /// What is logged where the step fails, before the reason; none where it cannot fail.
    pub open spec fn failure_text(self) -> Option<Seq<char>> {
        match self {
            InitStep::RegisterConfig => Some("Failed to register config: "@),
            InitStep::RegisterFanoutOperations => Some("Failed to register fanout operations: "@),
            InitStep::RegisterServerEvents => Some("Failed to register server events: "@),
            _ => None,
        }
    }

    /// Whether the reply stops the setup at this step.
    pub open spec fn stops(self, reply: StepReply) -> bool {
        self.failure_text() is Some && reply is Failed
    }

    /// The step that follows, where this one does not fail.
    pub open spec fn follower(self, reply: StepReply) -> InitStep {
        match self {
            InitStep::InitAllocator => InitStep::SetLogLevel,
            InitStep::SetLogLevel => InitStep::RegisterConfig,
            InitStep::RegisterConfig => InitStep::AskClustered,
            InitStep::AskClustered => if reply == StepReply::Clustered(true) {
                InitStep::InitFanout
            } else {
                InitStep::RegisterServerEvents
            },
            InitStep::InitFanout => InitStep::RegisterFanoutOperations,
            InitStep::RegisterFanoutOperations => InitStep::RegisterServerEvents,
            InitStep::RegisterServerEvents => InitStep::InitThreadPool,
            InitStep::InitThreadPool => InitStep::InitBackgroundTasks,
            InitStep::InitBackgroundTasks => InitStep::Finished(LoadStatus::Accepted),
            InitStep::Finished(status) => InitStep::Finished(status),
        }
    }

    /// The step that follows: a failure ends the setup.
    pub open spec fn after(self, reply: StepReply) -> InitStep {
        if self.stops(reply) {
            InitStep::Finished(LoadStatus::Refused)
        } else {
            self.follower(reply)
        }
    }

    /// What is logged after the step.
    pub open spec fn logged(self, reply: StepReply) -> Option<LogView> {
        if self.stops(reply) {
            Some(LogView::Warning(self.failure_text()->0 + reply->Failed_0@))
        } else if self is InitBackgroundTasks {
            Some(LogView::Notice("valkey-timeseries module initialized"@))
        } else {
            None
        }
    }

    /// How many steps are left at most.
    pub open spec fn left(self) -> nat {
        match self {
            InitStep::InitAllocator => 9,
            InitStep::SetLogLevel => 8,
            InitStep::RegisterConfig => 7,
            InitStep::AskClustered => 6,
            InitStep::InitFanout => 5,
            InitStep::RegisterFanoutOperations => 4,
            InitStep::RegisterServerEvents => 3,
            InitStep::InitThreadPool => 2,
            InitStep::InitBackgroundTasks => 1,
            InitStep::Finished(_) => 0,
        }
    }
}

/// Goes on with setting up the module, `step` having been done; gives the next step and what is
/// logged. The module counts as set up once the last step is done.
pub fn initialize(state: &mut ModuleState, step: InitStep, reply: StepReply) -> (r: (
    InitStep,
    Option<LogLine>,
))
    ensures
        r.0 == step.after(reply),
        line_view(r.1) == step.logged(reply),
        *final(state) == old(state).stepped(step),
{
    match step {
        InitStep::InitAllocator => (InitStep::SetLogLevel, None),
        InitStep::SetLogLevel => (InitStep::RegisterConfig, None),
        InitStep::RegisterConfig => match reply {
            StepReply::Failed(why) => (
                InitStep::Finished(LoadStatus::Refused),
                Some(
                    LogLine::Warning(
                        "Failed to register config: ".to_owned().concat(why.as_str()),
                    ),
                ),
            ),
            _ => (InitStep::AskClustered, None),
        },
        InitStep::AskClustered => match reply {
            StepReply::Clustered(true) => (InitStep::InitFanout, None),
            _ => (InitStep::RegisterServerEvents, None),
        },
        InitStep::InitFanout => (InitStep::RegisterFanoutOperations, None),
        InitStep::RegisterFanoutOperations => match reply {
            StepReply::Failed(why) => (
                InitStep::Finished(LoadStatus::Refused),
                Some(
                    LogLine::Warning(
                        "Failed to register fanout operations: ".to_owned().concat(why.as_str()),
                    ),
                ),
            ),
            _ => (InitStep::RegisterServerEvents, None),
        },
        InitStep::RegisterServerEvents => match reply {
            StepReply::Failed(why) => (
                InitStep::Finished(LoadStatus::Refused),
                Some(
                    LogLine::Warning(
                        "Failed to register server events: ".to_owned().concat(why.as_str()),
                    ),
                ),
            ),
            _ => (InitStep::InitThreadPool, None),
        },
        InitStep::InitThreadPool => (InitStep::InitBackgroundTasks, None),
        InitStep::InitBackgroundTasks => {
            state.initialized = true;
            (
                InitStep::Finished(LoadStatus::Accepted),
                Some(LogLine::Notice("valkey-timeseries module initialized".to_owned())),
            )
        },
        InitStep::Finished(status) => (InitStep::Finished(status), None),
    }
}

/// Unloads the module; gives what is logged.
pub fn deinitialize(state: &mut ModuleState) -> (r: (LoadStatus, LogLine))
    ensures
        *final(state) == ModuleState::at_start(),
        r.0 == LoadStatus::Accepted,
        r.1@ == LogView::Notice("deinitialize"@),
{
    state.initialized = false;
    (LoadStatus::Accepted, LogLine::Notice("deinitialize".to_owned()))
}

/// The step reached after `replies`, from `step` on.
pub open spec fn steps(step: InitStep, replies: Seq<StepReply>) -> InitStep
    decreases replies.len(),
{
    if replies.len() == 0 {
        step
    } else {
        steps(step, replies.drop_last()).after(replies.last())
    }
}

/// The state after `replies`, from `step` on.
pub open spec fn run(state: ModuleState, step: InitStep, replies: Seq<StepReply>) -> ModuleState
    decreases replies.len(),
{
    if replies.len() == 0 {
        state
    } else {
        run(state, step, replies.drop_last()).stepped(steps(step, replies.drop_last()))
    }
}

/// What is done with a module.
pub enum LifeEvent {
    /// It is set up; holds what came of the steps, one after the other.
    SetUp(Seq<StepReply>),
    /// It is unloaded.
    Unload,
}

impl LifeEvent {
    /// Whether the event is a setup that ends with the module accepted.
    pub open spec fn accepts(self) -> bool {
        match self {
            LifeEvent::SetUp(replies) => steps(InitStep::InitAllocator, replies)
                == InitStep::Finished(LoadStatus::Accepted),
            LifeEvent::Unload => false,
        }
    }
}

/// The state after all that is done with a module, in order.
pub open spec fn lived(events: Seq<LifeEvent>) -> ModuleState
    decreases events.len(),
{
    if events.len() == 0 {
        ModuleState::at_start()
    } else {
        match events.last() {
            LifeEvent::SetUp(replies) => run(
                lived(events.drop_last()),
                InitStep::InitAllocator,
                replies,
            ),
            LifeEvent::Unload => ModuleState::at_start(),
        }
    }
}

/// Whether a setup was accepted at `i`, and the module was not unloaded since.
pub open spec fn stands_since(events: Seq<LifeEvent>, i: int) -> bool {
    0 <= i < events.len() && events[i].accepts() && forall|j: int|
        i < j < events.len() ==> !((#[trigger] events[j]) is Unload)
}

/// Setting up the module comes to an end within as many replies as there are steps.
pub proof fn law_initialize_ends(step: InitStep, replies: Seq<StepReply>)
    requires
        replies.len() >= step.left(),
    ensures
        steps(step, replies) is Finished,
{
    lemma_steps_left(step, replies);
}

proof fn lemma_steps_left(step: InitStep, replies: Seq<StepReply>)
    ensures
        steps(step, replies).left() + replies.len() <= step.left() || steps(
            step,
            replies,
        ) is Finished,
    decreases replies.len(),
{
    if replies.len() > 0 {
        lemma_steps_left(step, replies.drop_last());
    }
}

/// From the first step on, the module counts as set up exactly where it did before, or where the
/// setup has ended and the module may be loaded.
pub proof fn law_initialized_where_accepted(state: ModuleState, replies: Seq<StepReply>)
    ensures
        run(state, InitStep::InitAllocator, replies).initialized <==> state.initialized || steps(
            InitStep::InitAllocator,
            replies,
        ) == InitStep::Finished(LoadStatus::Accepted),
    decreases replies.len(),
{
    if replies.len() > 0 {
        law_initialized_where_accepted(state, replies.drop_last());
    }
}

/// Whatever is done with a module, setups and unloadings in any order, it counts as set up exactly
/// where a setup was accepted and no unloading came after it.
pub proof fn law_initialized_since_last_setup(events: Seq<LifeEvent>)
    ensures
        lived(events).initialized <==> exists|i: int| #[trigger] stands_since(events, i),
    decreases events.len(),
{
    if events.len() > 0 {
        let d = events.drop_last();
        let n = events.len() - 1;
        law_initialized_since_last_setup(d);
        match events.last() {
            LifeEvent::SetUp(replies) => {
                law_initialized_where_accepted(lived(d), replies);
                if lived(d).initialized {
                    let i = choose|i: int| #[trigger] stands_since(d, i);
                    assert(d[i] == events[i]);
                    assert forall|j: int| i < j < events.len() implies !((
                    #[trigger] events[j]) is Unload) by {
                        if j < n {
                            assert(d[j] == events[j]);
                        }
                    }
                    assert(stands_since(events, i));
                }
                if events[n].accepts() {
                    assert(stands_since(events, n));
                }
                if exists|i: int| #[trigger] stands_since(events, i) {
                    let i = choose|i: int| #[trigger] stands_since(events, i);
                    if i < n {
                        assert(d[i] == events[i]);
                        assert forall|j: int| i < j < d.len() implies !((
                        #[trigger] d[j]) is Unload) by {
                            assert(d[j] == events[j]);
                        }
                        assert(stands_since(d, i));
                    }
                }
            },
            LifeEvent::Unload => {
                if exists|i: int| #[trigger] stands_since(events, i) {
                    let i = choose|i: int| #[trigger] stands_since(events, i);
                    if i < n {
                        assert(events[n] is Unload);
                    }
                }
            },
        }
    }
}

/// A failure to register anything refuses the module for good.
pub proof fn law_failure_refuses(step: InitStep, reply: StepReply, later: Seq<StepReply>)
    requires
        step.stops(reply),
    ensures
        steps(step.after(reply), later) == InitStep::Finished(LoadStatus::Refused),
    decreases later.len(),
{
    if later.len() > 0 {
        law_failure_refuses(step, reply, later.drop_last());
    }
}

/// The module runs on every server from the eighth major version on, and on none before.
pub proof fn law_supported_from_major_on(version: Version)
    requires
        version.minor >= 0,
        version.patch >= 0,
    ensures
        version.supported() <==> version.major >= 8,
{
}

/// Of two versions one is no older than the other, and both are no older than each other only where
/// they are the same.
pub proof fn law_versions_are_ordered(a: Version, b: Version)
    ensures
        ({
            let of = |v: Version| (v.major as i64, v.minor as i64, v.patch as i64);
            &&& a.at_least(of(b)) || b.at_least(of(a))
            &&& a.at_least(of(b)) && b.at_least(of(a)) ==> a == b
            &&& a.major > b.major ==> !b.at_least(of(a))
        }),
{
}

} // verus!
