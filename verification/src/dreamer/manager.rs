//! The memory of a workspace.
use vstd::prelude::*;

use super::gate;
use super::gate::{DreamGate, GateEvidence, GateStep};
use super::logs;
use super::logs::LogAppend;
use super::pass::{DreamPass, PassStage};
use super::prompt;
use super::{DreamerConfig, DreamerError, DreamerErrorView, MAX_LOG_INPUT_BYTES};
use crate::clock;
use crate::clock::Timestamp;
use crate::config::MemoryConfig;
use crate::paths;
use crate::paths::PathStyle;
use crate::text;

verus! {

broadcast use vstd::seq::group_seq_axioms;

/// Where a memory is kept. A workspace is whatever the caller takes for a path.
#[derive(Debug, Clone, PartialEq, Eq)]
pub enum MemoryPlace<'a, P> {
    /// In a directory whose path is absolute.
    Configured(String),
    /// In the directory to which the paths lead from the workspace, one joined to another.
    BelowWorkspace { workspace: &'a P, paths: Vec<String> },
}

/// What the place of a memory holds.
#[verifier::ext_equal]
pub enum MemoryPlaceView<P> {
    Configured(Seq<char>),
    BelowWorkspace { workspace: P, paths: Seq<Seq<char>> },
}

impl<'a, P> View for MemoryPlace<'a, P> {
    type V = MemoryPlaceView<P>;

    open spec fn view(&self) -> MemoryPlaceView<P> {
        match *self {
            MemoryPlace::Configured(path) => MemoryPlaceView::Configured(path@),
            MemoryPlace::BelowWorkspace { workspace, paths } => MemoryPlaceView::BelowWorkspace {
                workspace: *workspace,
                paths: text::texts(paths@),
            },
        }
    }
}

/// The memory directory of a workspace: the configured one, taken from the workspace where it
/// is relative, or `.claw/memory`.
pub open spec fn resolved_memory_dir<P>(
    style: PathStyle,
    cwd: P,
    configured: Option<Seq<char>>,
) -> MemoryPlaceView<P> {
    match configured {
        Some(path) => if paths::absolute(style, path) {
            MemoryPlaceView::Configured(path)
        } else {
            MemoryPlaceView::BelowWorkspace { workspace: cwd, paths: seq![path] }
        },
        None => MemoryPlaceView::BelowWorkspace {
            workspace: cwd,
            paths: seq![".claw"@, "memory"@],
        },
    }
}

/// The memory directory of a workspace.
#[must_use]
pub fn resolve_memory_dir<'a, P>(cwd: &'a P, config: &MemoryConfig, style: PathStyle) -> (place:
    MemoryPlace<'a, P>)
    ensures
        place@ == resolved_memory_dir(
            style,
            *cwd,
            text::optional_text(config.auto_memory_directory),
        ),
{
    let mut below: Vec<String> = Vec::new();
    match &config.auto_memory_directory {
        Some(path) => {
            if paths::is_absolute(path.as_str(), style) {
                return MemoryPlace::Configured(path.clone());
            }
            below.push(path.clone());
            proof {
                assert(text::texts(below@) =~= seq![path@]);
            }
        },
        None => {
            below.push(".claw".to_owned());
            below.push("memory".to_owned());
            proof {
                assert(text::texts(below@) =~= seq![".claw"@, "memory"@]);
            }
        },
    }
    MemoryPlace::BelowWorkspace { workspace: cwd, paths: below }
}

/// Decides whether a dream with these settings may start by itself, or tells what to look at
/// first. It may where dreams are forced, whether or not they start by themselves.
pub fn auto_dream_step<P>(
    config: &DreamerConfig<P>,
    auto_dream_enabled: bool,
    evidence: &GateEvidence,
) -> (step: GateStep)
    ensures
        step == gate::gate_step(auto_dream_enabled, config.force, *evidence),
{
    gate::auto_dream_gate(auto_dream_enabled, config.force, evidence)
}

/// Starts a dream, where all that matters is known and a dream may start.
pub fn maybe_run_auto_dream<P>(
    config: DreamerConfig<P>,
    style: PathStyle,
    auto_dream_enabled: bool,
    evidence: &GateEvidence,
) -> (pass: Option<DreamPass<P>>)
    ensures
        pass is Some <==> gate::gate_step(auto_dream_enabled, config.force, *evidence)
            == GateStep::Decided(DreamGate::Ready),
        pass is Some ==> {
            &&& pass->0.wf()
            &&& pass->0.config == config
            &&& pass->0.style == style
            &&& pass->0.stage == PassStage::Preparing
        },
{
    if auto_dream_step(&config, auto_dream_enabled, evidence) == GateStep::Decided(
        DreamGate::Ready,
    ) {
        Some(DreamPass::start(config, style))
    } else {
        None
    }
}

/// The memory of a workspace, on a machine that has its paths in a style.
#[derive(Debug, Clone, PartialEq, Eq)]
pub struct MemoryManager<P> {
    cwd: P,
    config: MemoryConfig,
    style: PathStyle,
}

impl<P> MemoryManager<P> {
    /// The workspace.
    pub closed spec fn workspace(&self) -> P {
        self.cwd
    }

    /// The settings.
    pub closed spec fn settings(&self) -> MemoryConfig {
        self.config
    }

    /// How the machine has its paths.
    pub closed spec fn path_style(&self) -> PathStyle {
        self.style
    }

    /// The memory directory.
    pub open spec fn directory(&self) -> MemoryPlaceView<P> {
        resolved_memory_dir(
            self.path_style(),
            self.workspace(),
            text::optional_text(self.settings().auto_memory_directory),
        )
    }

    /// The memory of a workspace with the given settings.
    #[must_use]
    pub fn new(cwd: P, config: MemoryConfig, style: PathStyle) -> (manager: Self)
        ensures
            manager.workspace() == cwd,
            manager.settings() == config,
            manager.path_style() == style,
    {
        MemoryManager { cwd, config, style }
    }

    /// The settings.
    #[must_use]
    pub fn config(&self) -> (config: &MemoryConfig)
        ensures
            *config == self.settings(),
    {
        &self.config
    }

    /// The memory directory.
    #[must_use]
    pub fn memory_dir(&self) -> (place: MemoryPlace<'_, P>)
        ensures
            place@ == self.directory(),
    {
        resolve_memory_dir(&self.cwd, &self.config, self.style)
    }

    /// Plans to append a durable note to the log of the day to which `now` belongs.
    pub fn append_daily_log(&self, note: &str, now: &Timestamp) -> (r: Result<
        LogAppend<MemoryPlace<'_, P>>,
        DreamerError,
    >)
        ensures
            text::trimmed(note@).len() == 0 ==> r is Err && r->Err_0@
                == DreamerErrorView::InvalidOutput("memory log note is empty"@),
            text::trimmed(note@).len() > 0 ==> {
                &&& r is Ok
                &&& r->Ok_0.memory_dir@ == self.directory()
                &&& text::texts(r->Ok_0.directories@) == logs::log_directories(
                    clock::utc_date(*now),
                )
                &&& r->Ok_0.file@ == logs::log_file(clock::utc_date(*now))
                &&& r->Ok_0.entry@ == "\n- "@ + text::trimmed(note@) + "\n"@
            },
    {
        logs::append_daily_log(self.memory_dir(), note, now)
    }

    /// The memory directory, if the memory in it is to be put into prompts.
    pub fn prompt_source(&self) -> (place: Option<MemoryPlace<'_, P>>)
        ensures
            place is Some <==> self.settings().auto_memory_enabled,
            place is Some ==> place->0@ == self.directory(),
    {
        if !self.config.auto_memory_enabled {
            return None;
        }
        Some(self.memory_dir())
    }

    /// The memory as a part of the prompt, given the path of the memory file, as it is shown, and
    /// the content of the file, if there is one.
    pub fn load_memory_prompt(&self, path: &str, content: Option<&str>) -> (r: Option<String>)
        ensures
            text::optional_text(r) == if self.settings().auto_memory_enabled {
                prompt::memory_prompt(path@, prompt::referred_text(content))
            } else {
                None
            },
    {
        if !self.config.auto_memory_enabled {
            return None;
        }
        prompt::load_memory_prompt(path, content)
    }

    /// The settings of a dream.
    pub fn dream_config(&self) -> (config: DreamerConfig<MemoryPlace<'_, P>>)
        ensures
            config.memory_dir@ == self.directory(),
            config.max_input_bytes == MAX_LOG_INPUT_BYTES,
            config.force == false,
    {
        DreamerConfig::new(self.memory_dir())
    }

    /// Decides whether a dream may start by itself, or tells what to look at first.
    pub fn auto_dream_gate(&self, evidence: &GateEvidence) -> (step: GateStep)
        ensures
            step == gate::gate_step(self.settings().auto_dream_enabled, false, *evidence),
    {
        gate::auto_dream_gate(self.config.auto_dream_enabled, false, evidence)
    }

    /// Starts a dream.
    pub fn run_dream(&self, force: bool) -> (pass: DreamPass<MemoryPlace<'_, P>>)
        ensures
            pass.wf(),
            pass.config.memory_dir@ == self.directory(),
            pass.config.max_input_bytes == MAX_LOG_INPUT_BYTES,
            pass.config.force == force,
            pass.style == self.path_style(),
            pass.stage == PassStage::Preparing,
    {
        DreamPass::start(self.dream_config().with_force(force), self.style)
    }
}

// ---------------------------------------------------------------------------
// Laws
// ---------------------------------------------------------------------------

/// A configured directory is used as it is where it is absolute; any other hangs on the
/// workspace, and on no other thing of the machine.
pub proof fn law_only_absolute_directories_leave_the_workspace<P>(
    style: PathStyle,
    cwd: P,
    configured: Option<Seq<char>>,
)
    ensures
        ({
            let place = resolved_memory_dir(style, cwd, configured);
            &&& place is Configured <==> configured is Some && paths::absolute(
                style,
                configured->0,
            )
            &&& place is Configured ==> place->Configured_0 == configured->0
            &&& place is BelowWorkspace ==> place->workspace == cwd
        }),
{
}

/// The memory directory is what was configured, letter for letter: by itself where it is absolute,
/// and else below the workspace; where nothing was, it is `.claw/memory` below the workspace.
pub proof fn law_configured_directory_is_used<P>(
    cwd: &P,
    config: &MemoryConfig,
    style: PathStyle,
    place: MemoryPlace<'_, P>,
)
    requires
        call_ensures(resolve_memory_dir::<P>, (cwd, config, style), place),
    ensures
        match config.auto_memory_directory {
            Some(path) => if paths::absolute(style, path@) {
                place is Configured && place->Configured_0@ == path@
            } else {
                &&& place is BelowWorkspace
                &&& *place->workspace == *cwd
                &&& place->paths@.len() == 1
                &&& place->paths@[0]@ == path@
            },
            None => {
                &&& place is BelowWorkspace
                &&& *place->workspace == *cwd
                &&& place->paths@.len() == 2
                &&& place->paths@[0]@ == ".claw"@
                &&& place->paths@[1]@ == "memory"@
            },
        },
{
    if let MemoryPlace::BelowWorkspace { paths, .. } = place {
        let names = text::texts(paths@);
        assert(names.len() == paths@.len());
        assert(forall|i: int| 0 <= i < paths@.len() ==> names[i] == (#[trigger] paths@[i])@);
    }
}

/// The memory of a workspace is put into prompts exactly where that is switched on, and as it would
/// be by itself.
pub proof fn law_memory_is_shown_where_it_is_switched_on<P>(
    manager: &MemoryManager<P>,
    path: &str,
    content: Option<&str>,
    r: Option<String>,
    s: Option<String>,
)
    requires
        call_ensures(MemoryManager::<P>::load_memory_prompt, (manager, path, content), r),
        call_ensures(prompt::load_memory_prompt, (path, content), s),
    ensures
        manager.settings().auto_memory_enabled ==> text::optional_text(r)
            == text::optional_text(s),
        !manager.settings().auto_memory_enabled ==> r is None,
{
}

/// A dream starts by itself exactly where the same evidence decides that it may: with the settings'
/// own force, and with what is switched on.
pub proof fn law_dreams_start_as_decided<P>(
    config: DreamerConfig<P>,
    style: PathStyle,
    auto_dream_enabled: bool,
    evidence: &GateEvidence,
    step: GateStep,
    pass: Option<DreamPass<P>>,
)
    requires
        call_ensures(gate::auto_dream_gate, (auto_dream_enabled, config.force, evidence), step),
        call_ensures(
            maybe_run_auto_dream::<P>,
            (config, style, auto_dream_enabled, evidence),
            pass,
        ),
    ensures
        pass is Some <==> step == GateStep::Decided(DreamGate::Ready),
        pass is Some ==> pass->0.config == config && pass->0.style == style,
{
}

/// What a manager does it does in its own memory directory, as it would be done there by itself.
pub proof fn law_manager_works_in_its_directory<P>(
    manager: &MemoryManager<P>,
    note: &str,
    now: &Timestamp,
    place: MemoryPlace<'_, P>,
    planned: Result<LogAppend<MemoryPlace<'_, P>>, DreamerError>,
    alone: Result<LogAppend<MemoryPlace<'_, P>>, DreamerError>,
    config: DreamerConfig<MemoryPlace<'_, P>>,
    source: Option<MemoryPlace<'_, P>>,
)
    requires
        call_ensures(MemoryManager::<P>::memory_dir, (manager,), place),
        call_ensures(MemoryManager::<P>::append_daily_log, (manager, note, now), planned),
        call_ensures(
            logs::append_daily_log::<MemoryPlace<'_, P>>,
            (place, note, now),
            alone,
        ),
        call_ensures(MemoryManager::<P>::dream_config, (manager,), config),
        call_ensures(MemoryManager::<P>::prompt_source, (manager,), source),
    ensures
        place@ == resolved_memory_dir(
            manager.path_style(),
            manager.workspace(),
            text::optional_text(manager.settings().auto_memory_directory),
        ),
        planned is Ok <==> alone is Ok,
        planned is Ok ==> {
            &&& planned->Ok_0.memory_dir@ == place@
            &&& planned->Ok_0.entry@ == alone->Ok_0.entry@
            &&& planned->Ok_0.file@ == alone->Ok_0.file@
            &&& text::texts(planned->Ok_0.directories@) == text::texts(alone->Ok_0.directories@)
        },
        config.memory_dir@ == place@,
        config.max_input_bytes == 131_072,
        !config.force,
        source is Some <==> manager.settings().auto_memory_enabled,
        source is Some ==> source->0@ == place@,
{
}

/// A dream of a workspace that is asked for is forced exactly where that is asked for, and one that
/// starts by itself never is.
pub proof fn law_only_asked_for_dreams_are_forced<P>(
    manager: &MemoryManager<P>,
    force: bool,
    evidence: &GateEvidence,
    pass: DreamPass<MemoryPlace<'_, P>>,
    step: GateStep,
    alone: GateStep,
)
    requires
        call_ensures(MemoryManager::<P>::run_dream, (manager, force), pass),
        call_ensures(MemoryManager::<P>::auto_dream_gate, (manager, evidence), step),
        call_ensures(
            gate::auto_dream_gate,
            (manager.settings().auto_dream_enabled, false, evidence),
            alone,
        ),
    ensures
        pass.config.force == force,
        pass.config.max_input_bytes == 131_072,
        pass.config.memory_dir@ == manager.directory(),
        pass.style == manager.path_style(),
        step == alone,
{
}

/// Whether a dream may start is asked with the settings' own force.
pub proof fn law_own_force_is_asked_with<P>(
    config: &DreamerConfig<P>,
    auto_dream_enabled: bool,
    evidence: &GateEvidence,
    step: GateStep,
    alone: GateStep,
)
    requires
        call_ensures(auto_dream_step::<P>, (config, auto_dream_enabled, evidence), step),
        call_ensures(gate::auto_dream_gate, (auto_dream_enabled, config.force, evidence), alone),
    ensures
        step == alone,
{
}

/// A manager hands out the settings that it was made of, and works by them in the workspace that it
/// was made for.
pub proof fn law_manager_is_what_it_was_made_of<P>(
    cwd: P,
    settings: MemoryConfig,
    style: PathStyle,
    manager: MemoryManager<P>,
    config: &MemoryConfig,
    place: MemoryPlace<'_, P>,
)
    requires
        call_ensures(MemoryManager::<P>::new, (cwd, settings, style), manager),
        call_ensures(MemoryManager::<P>::config, (&manager,), config),
        call_ensures(MemoryManager::<P>::memory_dir, (&manager,), place),
    ensures
        *config == settings,
        place@ == resolved_memory_dir(
            style,
            cwd,
            text::optional_text(settings.auto_memory_directory),
        ),
{
}

} // verus!
