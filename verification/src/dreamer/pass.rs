//! A dream from start to end, as a sequence of actions and what comes of them.
use vstd::prelude::*;

use super::consolidate;
use super::output;
use super::output::{FileWrite, FileWriteView};
use super::{
    DreamRun, DreamRunView, DreamerConfig, DreamerError, DreamerErrorView, DreamerFileOutputView,
    MemoryLog, MemoryLogView, DREAM_LOCK_FILENAME, LAST_DREAM_FILENAME,
};
use crate::conversation;
use crate::conversation::{
    ApiRequest, ApiRequestView, AssistantEvent, AssistantEventView, RuntimeError,
};
use crate::paths::PathStyle;
use crate::text;

verus! {

broadcast use vstd::seq::group_seq_axioms;

// ---------------------------------------------------------------------------
// Stages, actions and events
// ---------------------------------------------------------------------------

/// What a dream that wrote its files counts of itself.
#[derive(Debug, Clone, PartialEq, Eq)]
pub struct DreamTally {
    /// The paths of the files, below the memory directory.
    pub files_written: Vec<String>,
    pub log_count: usize,
    pub input_bytes: usize,
}

impl View for DreamTally {
    type V = DreamRunView;

    open spec fn view(&self) -> DreamRunView {
        DreamRunView {
            files_written: text::texts(self.files_written@),
            log_count: self.log_count as nat,
            input_bytes: self.input_bytes as nat,
        }
    }
}

/// How far a dream has come.
pub enum PassStage {
    /// The memory directory is to be created.
    Preparing,
    /// The lock is to be acquired.
    Locking,
    /// The logs are to be read.
    Collecting,
    /// The model is to be asked about the logs.
    Asking { logs: Vec<MemoryLog> },
    /// The memory directory is to be created again, should it be gone. Then the files are to be
    /// written, or the dream fails.
    Opening { plan: Result<Vec<FileWrite>, DreamerError>, log_count: usize, input_bytes: usize },
    /// Files are to be written, of which `written` are.
    Writing { writes: Vec<FileWrite>, written: usize, log_count: usize, input_bytes: usize },
    /// The marker is to be touched.
    Marking { tally: DreamTally },
    /// The lock is to be released.
    Releasing { result: Result<DreamTally, DreamerError> },
    /// The dream is over.
    Finished { result: Result<DreamTally, DreamerError> },
}

/// What a stage holds.
pub enum PassStageView {
    Preparing,
    Locking,
    Collecting,
    Asking { logs: Seq<MemoryLogView> },
    Opening {
        plan: Result<Seq<FileWriteView>, DreamerErrorView>,
        log_count: nat,
        input_bytes: nat,
    },
    Writing { writes: Seq<FileWriteView>, written: nat, log_count: nat, input_bytes: nat },
    Marking { run: DreamRunView },
    Releasing { result: Result<DreamRunView, DreamerErrorView> },
    Finished { result: Result<DreamRunView, DreamerErrorView> },
}

/// What the outcome of a dream holds.
pub open spec fn outcome_view(result: Result<DreamTally, DreamerError>) -> Result<
    DreamRunView,
    DreamerErrorView,
> {
    match result {
        Ok(tally) => Ok(tally@),
        Err(error) => Err(error@),
    }
}

/// What the files to write hold, or the error.
pub open spec fn plan_view(plan: Result<Vec<FileWrite>, DreamerError>) -> Result<
    Seq<FileWriteView>,
    DreamerErrorView,
> {
    match plan {
        Ok(writes) => Ok(output::write_views(writes@)),
        Err(error) => Err(error@),
    }
}

impl View for PassStage {
    type V = PassStageView;

    open spec fn view(&self) -> PassStageView {
        match *self {
            PassStage::Preparing => PassStageView::Preparing,
            PassStage::Locking => PassStageView::Locking,
            PassStage::Collecting => PassStageView::Collecting,
            PassStage::Asking { logs } => PassStageView::Asking { logs: super::log_views(logs@) },
            PassStage::Opening { plan, log_count, input_bytes } => PassStageView::Opening {
                plan: plan_view(plan),
                log_count: log_count as nat,
                input_bytes: input_bytes as nat,
            },
            PassStage::Writing {
                writes,
                written,
                log_count,
                input_bytes,
            } => PassStageView::Writing {
                writes: output::write_views(writes@),
                written: written as nat,
                log_count: log_count as nat,
                input_bytes: input_bytes as nat,
            },
            PassStage::Marking { tally } => PassStageView::Marking { run: tally@ },
            PassStage::Releasing { result } => PassStageView::Releasing {
                result: outcome_view(result),
            },
            PassStage::Finished { result } => PassStageView::Finished {
                result: outcome_view(result),
            },
        }
    }
}

/// A dream. The memory directory is whatever the caller takes for a path; everything that the
/// dream names lies below it.
pub struct DreamPass<P> {
    pub config: DreamerConfig<P>,
    pub style: PathStyle,
    pub stage: PassStage,
}

/// What a dream holds, but for the directory.
pub struct DreamPassView {
    pub style: PathStyle,
    pub max_input_bytes: nat,
    pub force: bool,
    pub stage: PassStageView,
}

impl<P> View for DreamPass<P> {
    type V = DreamPassView;

    open spec fn view(&self) -> DreamPassView {
        DreamPassView {
            style: self.style,
            max_input_bytes: self.config.max_input_bytes as nat,
            force: self.config.force,
            stage: self.stage@,
        }
    }
}

/// What is to be done next, in the memory directory.
pub enum PassAction<'a> {
    /// Create the directory itself, where it is missing.
    CreateDirectory,
    /// Make the lock file of the given name.
    AcquireLock(&'static str),
    CollectLogs { max_input_bytes: usize },
    AskModel(ApiRequest),
    WriteFile(&'a FileWrite),
    /// Write the marker of the given name.
    TouchMarker(&'static str),
    /// Remove the lock file of the given name.
    ReleaseLock(&'static str),
    /// Nothing: the dream is over.
    Finish(&'a Result<DreamTally, DreamerError>),
}

/// What an action holds.
pub enum PassActionView {
    CreateDirectory,
    AcquireLock(Seq<char>),
    CollectLogs { max_input_bytes: nat },
    AskModel(ApiRequestView),
    WriteFile(FileWriteView),
    TouchMarker(Seq<char>),
    ReleaseLock(Seq<char>),
    Finish(Result<DreamRunView, DreamerErrorView>),
}

impl<'a> View for PassAction<'a> {
    type V = PassActionView;

    open spec fn view(&self) -> PassActionView {
        match *self {
            PassAction::CreateDirectory => PassActionView::CreateDirectory,
            PassAction::AcquireLock(name) => PassActionView::AcquireLock(name@),
            PassAction::CollectLogs { max_input_bytes } => PassActionView::CollectLogs {
                max_input_bytes: max_input_bytes as nat,
            },
            PassAction::AskModel(request) => PassActionView::AskModel(request@),
            PassAction::WriteFile(file) => PassActionView::WriteFile(file@),
            PassAction::TouchMarker(name) => PassActionView::TouchMarker(name@),
            PassAction::ReleaseLock(name) => PassActionView::ReleaseLock(name@),
            PassAction::Finish(result) => PassActionView::Finish(outcome_view(*result)),
        }
    }
}

/// What came of an action.
pub enum PassEvent {
    /// The action was done.
    Done,
    /// The lock could not be acquired: another dream has it.
    LockHeld,
    /// The logs were read.
    LogsRead(Vec<MemoryLog>),
    /// The model replied, or failed.
    Replied(Result<Vec<AssistantEvent>, RuntimeError>),
    /// The file system failed, with the text of its error.
    Failed(String),
}

/// What an event holds.
pub enum PassEventView {
    Done,
    LockHeld,
    LogsRead(Seq<MemoryLogView>),
    Replied(Result<Seq<AssistantEventView>, Seq<char>>),
    Failed(Seq<char>),
}

impl View for PassEvent {
    type V = PassEventView;

    open spec fn view(&self) -> PassEventView {
        match *self {
            PassEvent::Done => PassEventView::Done,
            PassEvent::LockHeld => PassEventView::LockHeld,
            PassEvent::LogsRead(logs) => PassEventView::LogsRead(super::log_views(logs@)),
            PassEvent::Replied(reply) => PassEventView::Replied(conversation::reply_view(reply)),
            PassEvent::Failed(message) => PassEventView::Failed(message@),
        }
    }
}

// ---------------------------------------------------------------------------
// The course of a dream
// ---------------------------------------------------------------------------

/// What a dream does at a stage.
pub open spec fn action_of(pass: DreamPassView) -> PassActionView {
    match pass.stage {
        PassStageView::Preparing => PassActionView::CreateDirectory,
        PassStageView::Locking => PassActionView::AcquireLock(DREAM_LOCK_FILENAME@),
        PassStageView::Collecting => PassActionView::CollectLogs {
            max_input_bytes: pass.max_input_bytes,
        },
        PassStageView::Asking { logs } => PassActionView::AskModel(
            consolidate::consolidation_request(logs),
        ),
        PassStageView::Opening { .. } => PassActionView::CreateDirectory,
        PassStageView::Writing { writes, written, .. } => PassActionView::WriteFile(
            writes[written as int],
        ),
        PassStageView::Marking { .. } => PassActionView::TouchMarker(LAST_DREAM_FILENAME@),
        PassStageView::Releasing { .. } => PassActionView::ReleaseLock(DREAM_LOCK_FILENAME@),
        PassStageView::Finished { result } => PassActionView::Finish(result),
    }
}

/// The paths of files to write.
pub open spec fn write_paths(writes: Seq<FileWriteView>) -> Seq<Seq<char>> {
    Seq::new(writes.len(), |i: int| writes[i].path)
}

/// The stage at which some of the files are written: the next is to be written, or, with all
/// of them written, the dream comes to its marker.
pub open spec fn writing_stage(
    writes: Seq<FileWriteView>,
    written: nat,
    log_count: nat,
    input_bytes: nat,
) -> PassStageView {
    if written < writes.len() {
        PassStageView::Writing { writes, written, log_count, input_bytes }
    } else {
        PassStageView::Marking {
            run: DreamRunView { files_written: write_paths(writes), log_count, input_bytes },
        }
    }
}

/// The files that the output of a dream leads to, or the error.
pub open spec fn planned(style: PathStyle, files: Seq<DreamerFileOutputView>) -> Result<
    Seq<FileWriteView>,
    DreamerErrorView,
> {
    match output::planned_failure(style, files) {
        Some(error) => Err(error),
        None => Ok(output::planned_writes(style, files)),
    }
}

/// The stage after an event. An event that no action of the stage can lead to changes nothing.
pub open spec fn stage_after(pass: DreamPassView, event: PassEventView) -> PassStageView {
    match (pass.stage, event) {
        (PassStageView::Preparing, PassEventView::Done) => PassStageView::Locking,
        (PassStageView::Preparing, PassEventView::Failed(message)) => PassStageView::Finished {
            result: Err(DreamerErrorView::Io(message)),
        },
        (PassStageView::Locking, PassEventView::Done) => PassStageView::Collecting,
        (PassStageView::Locking, PassEventView::LockHeld) => PassStageView::Finished {
            result: Err(DreamerErrorView::Locked),
        },
        (PassStageView::Locking, PassEventView::Failed(message)) => PassStageView::Finished {
            result: Err(DreamerErrorView::Io(message)),
        },
        (PassStageView::Collecting, PassEventView::LogsRead(logs)) => if logs.len() == 0 {
            PassStageView::Releasing { result: Err(DreamerErrorView::NoLogs) }
        } else {
            PassStageView::Asking { logs }
        },
        (PassStageView::Collecting, PassEventView::Failed(message)) => PassStageView::Releasing {
            result: Err(DreamerErrorView::Io(message)),
        },
        (PassStageView::Asking { logs }, PassEventView::Replied(reply)) => match consolidate::consolidated(
            pass.style,
            logs,
            reply,
        ) {
            Err(error) => PassStageView::Releasing { result: Err(error) },
            Ok(out) => PassStageView::Opening {
                plan: planned(pass.style, out.files),
                log_count: out.log_count,
                input_bytes: out.input_bytes,
            },
        },
        (
            PassStageView::Opening { plan, log_count, input_bytes },
            PassEventView::Done,
        ) => match plan {
            Err(error) => PassStageView::Releasing { result: Err(error) },
            Ok(writes) => writing_stage(writes, 0, log_count, input_bytes),
        },
        (PassStageView::Opening { .. }, PassEventView::Failed(message)) => PassStageView::Releasing {
            result: Err(DreamerErrorView::Io(message)),
        },
        (
            PassStageView::Writing { writes, written, log_count, input_bytes },
            PassEventView::Done,
        ) => writing_stage(writes, written + 1, log_count, input_bytes),
        (PassStageView::Writing { .. }, PassEventView::Failed(message)) => PassStageView::Releasing {
            result: Err(DreamerErrorView::Io(message)),
        },
        (PassStageView::Marking { run }, PassEventView::Done) => PassStageView::Releasing {
            result: Ok(run),
        },
        (PassStageView::Marking { .. }, PassEventView::Failed(message)) => PassStageView::Releasing {
            result: Err(DreamerErrorView::Io(message)),
        },
        (PassStageView::Releasing { result }, PassEventView::Done) => PassStageView::Finished {
            result,
        },
        (PassStageView::Releasing { result }, PassEventView::Failed(_)) => PassStageView::Finished {
            result,
        },
        _ => pass.stage,
    }
}

/// The paths of files to write.
fn paths_of(writes: &Vec<FileWrite>) -> (r: Vec<String>)
    ensures
        text::texts(r@) == write_paths(output::write_views(writes@)),
{
    let mut r: Vec<String> = Vec::new();
    let mut i: usize = 0;
    while i < writes.len()
        invariant
            i <= writes@.len(),
            r@.len() == i,
            forall|k: int| 0 <= k < i ==> (#[trigger] r@[k])@ == writes@[k].path@,
        decreases writes@.len() - i,
    {
        r.push(writes[i].path.clone());
        i = i + 1;
    }
    proof {
        assert(text::texts(r@) =~= write_paths(output::write_views(writes@)));
    }
    r
}

impl PassStage {
    /// The stage at which some of the files are written.
    fn writing(
        writes: Vec<FileWrite>,
        written: usize,
        log_count: usize,
        input_bytes: usize,
    ) -> (stage: Self)
        requires
            written <= writes@.len(),
        ensures
            stage@ == writing_stage(
                output::write_views(writes@),
                written as nat,
                log_count as nat,
                input_bytes as nat,
            ),
            stage is Writing ==> stage->Writing_written < stage->Writing_writes@.len(),
            stage is Writing || stage is Marking,
    {
        if written < writes.len() {
            return PassStage::Writing { writes, written, log_count, input_bytes };
        }
        let tally = DreamTally { files_written: paths_of(&writes), log_count, input_bytes };
        PassStage::Marking { tally }
    }
}

impl<P> DreamPass<P> {
    /// Whether the dream is in order: the sizes of the logs add up to a number that the
    /// machine can hold, and a file that is to be written exists.
    pub open spec fn wf(&self) -> bool {
        match self.stage {
            PassStage::Asking { logs } => super::input_size(super::log_views(logs@)) <= usize::MAX,
            PassStage::Writing { writes, written, .. } => written < writes@.len(),
            _ => true,
        }
    }

    /// Starts a dream.
    pub fn start(config: DreamerConfig<P>, style: PathStyle) -> (pass: Self)
        ensures
            pass.wf(),
            pass.config == config,
            pass.style == style,
            pass.stage == PassStage::Preparing,
    {
        DreamPass { config, style, stage: PassStage::Preparing }
    }

    /// What is to be done next.
    pub fn action(&self) -> (action: PassAction<'_>)
        requires
            self.wf(),
        ensures
            action@ == action_of(self@),
    {
        match &self.stage {
            PassStage::Preparing => PassAction::CreateDirectory,
            PassStage::Locking => PassAction::AcquireLock(DREAM_LOCK_FILENAME),
            PassStage::Collecting => PassAction::CollectLogs {
                max_input_bytes: self.config.max_input_bytes,
            },
            PassStage::Asking { logs } => PassAction::AskModel(
                consolidate::build_request(logs.as_slice()),
            ),
            PassStage::Opening { .. } => PassAction::CreateDirectory,
            PassStage::Writing { writes, written, .. } => PassAction::WriteFile(&writes[*written]),
            PassStage::Marking { .. } => PassAction::TouchMarker(LAST_DREAM_FILENAME),
            PassStage::Releasing { .. } => PassAction::ReleaseLock(DREAM_LOCK_FILENAME),
            PassStage::Finished { result } => PassAction::Finish(result),
        }
    }

    /// The dream after an event.
    pub fn next(self, event: PassEvent) -> (pass: Self)
        requires
            self.wf(),
            match event {
                PassEvent::LogsRead(logs) => super::input_size(super::log_views(logs@))
                    <= usize::MAX,
                _ => true,
            },
        ensures
            pass.wf(),
            pass.config == self.config,
            pass.style == self.style,
            pass.stage@ == stage_after(self@, event@),
    {
        let config = self.config;
        let style = self.style;
        match (self.stage, event) {
            (PassStage::Preparing, PassEvent::Done) => DreamPass {
                config,
                style,
                stage: PassStage::Locking,
            },
            (PassStage::Preparing, PassEvent::Failed(message)) => DreamPass {
                config,
                style,
                stage: PassStage::Finished { result: Err(DreamerError::Io(message)) },
            },
            (PassStage::Locking, PassEvent::Done) => DreamPass {
                config,
                style,
                stage: PassStage::Collecting,
            },
            (PassStage::Locking, PassEvent::LockHeld) => DreamPass {
                config,
                style,
                stage: PassStage::Finished { result: Err(DreamerError::Locked) },
            },
            (PassStage::Locking, PassEvent::Failed(message)) => DreamPass {
                config,
                style,
                stage: PassStage::Finished { result: Err(DreamerError::Io(message)) },
            },
            (PassStage::Collecting, PassEvent::LogsRead(logs)) => if logs.len() == 0 {
                DreamPass {
                    config,
                    style,
                    stage: PassStage::Releasing { result: Err(DreamerError::NoLogs) },
                }
            } else {
                DreamPass { config, style, stage: PassStage::Asking { logs } }
            },
            (PassStage::Collecting, PassEvent::Failed(message)) => DreamPass {
                config,
                style,
                stage: PassStage::Releasing { result: Err(DreamerError::Io(message)) },
            },
            (
                PassStage::Asking { logs },
                PassEvent::Replied(reply),
            ) => match consolidate::finish_consolidation(logs.as_slice(), reply, style) {
                Err(error) => DreamPass {
                    config,
                    style,
                    stage: PassStage::Releasing { result: Err(error) },
                },
                Ok(out) => {
                    let plan = output::plan_writes(&out, style);
                    DreamPass {
                        config,
                        style,
                        stage: PassStage::Opening {
                            plan,
                            log_count: out.log_count,
                            input_bytes: out.input_bytes,
                        },
                    }
                },
            },
            (
                PassStage::Opening { plan, log_count, input_bytes },
                PassEvent::Done,
            ) => match plan {
                Err(error) => DreamPass {
                    config,
                    style,
                    stage: PassStage::Releasing { result: Err(error) },
                },
                Ok(writes) => DreamPass {
                    config,
                    style,
                    stage: PassStage::writing(writes, 0, log_count, input_bytes),
                },
            },
            (PassStage::Opening { .. }, PassEvent::Failed(message)) => DreamPass {
                config,
                style,
                stage: PassStage::Releasing { result: Err(DreamerError::Io(message)) },
            },
            (
                PassStage::Writing { writes, written, log_count, input_bytes },
                PassEvent::Done,
            ) => {
                assert(written < writes.len());
                DreamPass {
                    config,
                    style,
                    stage: PassStage::writing(writes, written + 1, log_count, input_bytes),
                }
            },
            (PassStage::Writing { .. }, PassEvent::Failed(message)) => DreamPass {
                config,
                style,
                stage: PassStage::Releasing { result: Err(DreamerError::Io(message)) },
            },
            (PassStage::Marking { tally }, PassEvent::Done) => DreamPass {
                config,
                style,
                stage: PassStage::Releasing { result: Ok(tally) },
            },
            (PassStage::Marking { .. }, PassEvent::Failed(message)) => DreamPass {
                config,
                style,
                stage: PassStage::Releasing { result: Err(DreamerError::Io(message)) },
            },
            (PassStage::Releasing { result }, PassEvent::Done) => DreamPass {
                config,
                style,
                stage: PassStage::Finished { result },
            },
            (PassStage::Releasing { result }, PassEvent::Failed(_)) => DreamPass {
                config,
                style,
                stage: PassStage::Finished { result },
            },
            (stage, _) => DreamPass { config, style, stage },
        }
    }

    /// The outcome of the dream, if it is over.
    pub fn into_outcome(self) -> (outcome: Option<Result<DreamRun<P>, DreamerError>>)
        ensures
            match self.stage {
                PassStage::Finished { result: Ok(tally) } => {
                    &&& outcome is Some
                    &&& outcome->0 is Ok
                    &&& outcome->0->Ok_0.memory_dir == self.config.memory_dir
                    &&& outcome->0->Ok_0@ == tally@
                },
                PassStage::Finished { result: Err(error) } => outcome == Some(
                    Err::<DreamRun<P>, DreamerError>(error),
                ),
                _ => outcome is None,
            },
    {
        match self.stage {
            PassStage::Finished { result } => match result {
                Ok(tally) => Some(
                    Ok(
                        DreamRun {
                            memory_dir: self.config.memory_dir,
                            files_written: tally.files_written,
                            log_count: tally.log_count,
                            input_bytes: tally.input_bytes,
                        },
                    ),
                ),
                Err(error) => Some(Err(error)),
            },
            _ => None,
        }
    }
}

// ---------------------------------------------------------------------------
// Laws
// ---------------------------------------------------------------------------

/// Whether a dream has the lock at a stage.
pub open spec fn holds_lock(stage: PassStageView) -> bool {
    match stage {
        PassStageView::Preparing => false,
        PassStageView::Locking => false,
        PassStageView::Finished { .. } => false,
        _ => true,
    }
}

/// Whatever happens, a dream gets the lock only by acquiring it, and loses it only by
/// releasing it; and it reads logs, asks the model, writes files and touches the marker only
/// while it has the lock.
pub proof fn law_lock_surrounds_the_work(pass: DreamPassView, event: PassEventView)
    ensures
        !holds_lock(pass.stage) && holds_lock(stage_after(pass, event)) ==> {
            &&& action_of(pass) == PassActionView::AcquireLock(DREAM_LOCK_FILENAME@)
            &&& event is Done
        },
        holds_lock(pass.stage) && !holds_lock(stage_after(pass, event)) ==> {
            action_of(pass) == PassActionView::ReleaseLock(DREAM_LOCK_FILENAME@)
        },
        action_of(pass) is CollectLogs || action_of(pass) is AskModel || action_of(
            pass,
        ) is WriteFile || action_of(pass) is TouchMarker ==> holds_lock(pass.stage),
{
}

/// A dream that finds the lock held ends at once, with nothing done.
pub proof fn law_held_lock_ends_the_dream(pass: DreamPassView)
    requires
        pass.stage is Locking,
    ensures
        stage_after(pass, PassEventView::LockHeld) == (PassStageView::Finished {
            result: Err(DreamerErrorView::Locked),
        }),
{
}

/// The dream after an event.
pub open spec fn pass_after(pass: DreamPassView, event: PassEventView) -> DreamPassView {
    DreamPassView { stage: stage_after(pass, event), ..pass }
}

/// The dream after a sequence of events.
pub open spec fn pass_after_all(pass: DreamPassView, events: Seq<PassEventView>) -> DreamPassView
    decreases events.len(),
{
    if events.len() == 0 {
        pass
    } else {
        pass_after(pass_after_all(pass, events.drop_last()), events.last())
    }
}

/// Whether the event at `i` is that the logs were read, at the time when they were to be.
pub open spec fn logs_taken(
    pass: DreamPassView,
    events: Seq<PassEventView>,
    i: int,
    logs: Seq<MemoryLogView>,
) -> bool {
    &&& 0 <= i < events.len()
    &&& events[i] == PassEventView::LogsRead(logs)
    &&& pass_after_all(pass, events.take(i)).stage is Collecting
}

/// Whether the logs were read.
pub open spec fn logs_were_taken(
    pass: DreamPassView,
    events: Seq<PassEventView>,
    logs: Seq<MemoryLogView>,
) -> bool {
    exists|i: int| #[trigger] logs_taken(pass, events, i, logs)
}

/// Whether the event at `i` is the reply of the model, when it was asked about the logs.
pub open spec fn reply_taken(
    pass: DreamPassView,
    events: Seq<PassEventView>,
    i: int,
    logs: Seq<MemoryLogView>,
    reply: Result<Seq<AssistantEventView>, Seq<char>>,
) -> bool {
    &&& 0 <= i < events.len()
    &&& events[i] == PassEventView::Replied(reply)
    &&& pass_after_all(pass, events.take(i)).stage == PassStageView::Asking { logs }
}

/// Whether some logs were read, and then a reply about them came that was accepted.
#[verifier::opaque]
pub open spec fn accepted(
    pass: DreamPassView,
    events: Seq<PassEventView>,
    logs: Seq<MemoryLogView>,
    reply: Result<Seq<AssistantEventView>, Seq<char>>,
) -> bool {
    &&& exists|i: int, j: int|
        i < j && #[trigger] logs_taken(pass, events, i, logs) && #[trigger] reply_taken(
            pass,
            events,
            j,
            logs,
            reply,
        )
    &&& consolidate::consolidated(pass.style, logs, reply) is Ok
}

/// Whether the files, or the error, are what the reply that was accepted leads to.
#[verifier::opaque]
pub open spec fn planned_for_reply(
    pass: DreamPassView,
    events: Seq<PassEventView>,
    plan: Result<Seq<FileWriteView>, DreamerErrorView>,
    log_count: nat,
    input_bytes: nat,
) -> bool {
    exists|logs: Seq<MemoryLogView>, reply: Result<Seq<AssistantEventView>, Seq<char>>|
        {
            &&& #[trigger] accepted(pass, events, logs, reply)
            &&& plan == planned(
                pass.style,
                consolidate::consolidated(pass.style, logs, reply)->Ok_0.files,
            )
            &&& log_count == logs.len()
            &&& input_bytes == super::input_size(logs)
        }
}

/// Whether a record tells of the reply that was accepted and of which every file was written.
#[verifier::opaque]
pub open spec fn complete_run(
    pass: DreamPassView,
    events: Seq<PassEventView>,
    run: DreamRunView,
) -> bool {
    exists|writes: Seq<FileWriteView>|
        {
            &&& #[trigger] planned_for_reply(
                pass,
                events,
                Ok(writes),
                run.log_count,
                run.input_bytes,
            )
            &&& run.files_written == write_paths(writes)
        }
}

/// Whether a stage is one that a dream, as it was at first, can come to by the events.
pub open spec fn sound(
    pass: DreamPassView,
    events: Seq<PassEventView>,
    stage: PassStageView,
) -> bool {
    match stage {
        PassStageView::Asking { logs } => logs_were_taken(pass, events, logs),
        PassStageView::Opening { plan, log_count, input_bytes } => planned_for_reply(
            pass,
            events,
            plan,
            log_count,
            input_bytes,
        ),
        PassStageView::Writing { writes, written, log_count, input_bytes } => {
            &&& planned_for_reply(pass, events, Ok(writes), log_count, input_bytes)
            &&& written < writes.len()
        },
        PassStageView::Marking { run } => complete_run(pass, events, run),
        PassStageView::Releasing { result } => result is Ok ==> complete_run(
            pass,
            events,
            result->Ok_0,
        ),
        PassStageView::Finished { result } => result is Ok ==> complete_run(
            pass,
            events,
            result->Ok_0,
        ),
        _ => true,
    }
}

/// In every state of a dream, files are written only for the reply that the model gave to the
/// logs that were read, and only where that was accepted; and the marker is touched, and success
/// is reported, only once every file of it was written.
pub proof fn law_only_accepted_replies_are_written(
    pass: DreamPassView,
    events: Seq<PassEventView>,
)
    requires
        pass.stage is Preparing,
    ensures
        sound(pass, events, pass_after_all(pass, events).stage),
        pass_after_all(pass, events) == (DreamPassView {
            stage: pass_after_all(pass, events).stage,
            ..pass
        }),
    decreases events.len(),
{
    if events.len() > 0 {
        law_only_accepted_replies_are_written(pass, events.drop_last());
        lemma_sound_step(
            pass,
            events,
            pass_after_all(pass, events.drop_last()),
            events.last(),
        );
    }
}

/// What was read at a time stays read, whatever comes after it.
proof fn lemma_logs_stay_taken(
    pass: DreamPassView,
    events: Seq<PassEventView>,
    i: int,
    logs: Seq<MemoryLogView>,
)
    requires
        events.len() > 0,
        logs_taken(pass, events.drop_last(), i, logs),
    ensures
        logs_taken(pass, events, i, logs),
{
    assert(events.take(i) =~= events.drop_last().take(i));
}

/// What was replied at a time stays replied, whatever comes after it.
proof fn lemma_reply_stays_taken(
    pass: DreamPassView,
    events: Seq<PassEventView>,
    j: int,
    logs: Seq<MemoryLogView>,
    reply: Result<Seq<AssistantEventView>, Seq<char>>,
)
    requires
        events.len() > 0,
        reply_taken(pass, events.drop_last(), j, logs, reply),
    ensures
        reply_taken(pass, events, j, logs, reply),
{
    assert(events.take(j) =~= events.drop_last().take(j));
}

/// What was accepted stays accepted, whatever comes after it.
#[verifier::spinoff_prover]
proof fn lemma_stays_accepted(
    pass: DreamPassView,
    events: Seq<PassEventView>,
    logs: Seq<MemoryLogView>,
    reply: Result<Seq<AssistantEventView>, Seq<char>>,
)
    requires
        events.len() > 0,
        accepted(pass, events.drop_last(), logs, reply),
    ensures
        accepted(pass, events, logs, reply),
{
    reveal(accepted);
    let before = events.drop_last();
    let (i, j) = choose|i: int, j: int|
        i < j && #[trigger] logs_taken(pass, before, i, logs) && #[trigger] reply_taken(
            pass,
            before,
            j,
            logs,
            reply,
        );
    lemma_logs_stay_taken(pass, events, i, logs);
    lemma_reply_stays_taken(pass, events, j, logs, reply);
}

#[verifier::spinoff_prover]
proof fn lemma_plan_stays(
    pass: DreamPassView,
    events: Seq<PassEventView>,
    plan: Result<Seq<FileWriteView>, DreamerErrorView>,
    log_count: nat,
    input_bytes: nat,
)
    requires
        events.len() > 0,
        planned_for_reply(pass, events.drop_last(), plan, log_count, input_bytes),
    ensures
        planned_for_reply(pass, events, plan, log_count, input_bytes),
{
    reveal(planned_for_reply);
    let (logs, reply) = choose|
        logs: Seq<MemoryLogView>,
        reply: Result<Seq<AssistantEventView>, Seq<char>>,
    |
        {
            &&& #[trigger] accepted(pass, events.drop_last(), logs, reply)
            &&& plan == planned(
                pass.style,
                consolidate::consolidated(pass.style, logs, reply)->Ok_0.files,
            )
            &&& log_count == logs.len()
            &&& input_bytes == super::input_size(logs)
        };
    lemma_stays_accepted(pass, events, logs, reply);
}

#[verifier::spinoff_prover]
proof fn lemma_run_stays(pass: DreamPassView, events: Seq<PassEventView>, run: DreamRunView)
    requires
        events.len() > 0,
        complete_run(pass, events.drop_last(), run),
    ensures
        complete_run(pass, events, run),
{
    reveal(complete_run);
    let writes = choose|writes: Seq<FileWriteView>|
        {
            &&& #[trigger] planned_for_reply(
                pass,
                events.drop_last(),
                Ok(writes),
                run.log_count,
                run.input_bytes,
            )
            &&& run.files_written == write_paths(writes)
        };
    lemma_plan_stays(pass, events, Ok(writes), run.log_count, run.input_bytes);
}

proof fn lemma_complete_run(
    pass: DreamPassView,
    events: Seq<PassEventView>,
    writes: Seq<FileWriteView>,
    log_count: nat,
    input_bytes: nat,
)
    requires
        planned_for_reply(pass, events, Ok(writes), log_count, input_bytes),
    ensures
        complete_run(
            pass,
            events,
            DreamRunView { files_written: write_paths(writes), log_count, input_bytes },
        ),
{
    reveal(complete_run);
    let run = DreamRunView { files_written: write_paths(writes), log_count, input_bytes };
    assert(planned_for_reply(pass, events, Ok(writes), run.log_count, run.input_bytes));
}

#[verifier::spinoff_prover]
proof fn lemma_reply_is_accepted(
    pass: DreamPassView,
    events: Seq<PassEventView>,
    logs: Seq<MemoryLogView>,
    reply: Result<Seq<AssistantEventView>, Seq<char>>,
)
    requires
        events.len() > 0,
        logs_were_taken(pass, events.drop_last(), logs),
        pass_after_all(pass, events.drop_last()).stage == (PassStageView::Asking { logs }),
        events.last() == PassEventView::Replied(reply),
        consolidate::consolidated(pass.style, logs, reply) is Ok,
    ensures
        accepted(pass, events, logs, reply),
{
    reveal(accepted);
    let last = events.len() - 1;
    let i = choose|i: int| #[trigger] logs_taken(pass, events.drop_last(), i, logs);
    lemma_logs_stay_taken(pass, events, i, logs);
    assert(events.take(last) =~= events.drop_last());
    assert(reply_taken(pass, events, last, logs, reply));
}

/// A reply that is accepted leads to the files, or the error, that it asks for.
proof fn lemma_reply_is_planned(
    pass: DreamPassView,
    events: Seq<PassEventView>,
    logs: Seq<MemoryLogView>,
    reply: Result<Seq<AssistantEventView>, Seq<char>>,
)
    requires
        accepted(pass, events, logs, reply),
    ensures
        planned_for_reply(
            pass,
            events,
            planned(pass.style, consolidate::consolidated(pass.style, logs, reply)->Ok_0.files),
            logs.len(),
            super::input_size(logs),
        ),
{
    reveal(planned_for_reply);
}

/// The events that lead to a stage lead to the next one too, with the last event behind them.
#[verifier::spinoff_prover]
proof fn lemma_sound_step(
    pass: DreamPassView,
    events: Seq<PassEventView>,
    now: DreamPassView,
    event: PassEventView,
)
    requires
        events.len() > 0,
        event == events.last(),
        now == pass_after_all(pass, events.drop_last()),
        now.style == pass.style,
        sound(pass, events.drop_last(), now.stage),
    ensures
        sound(pass, events, stage_after(now, event)),
{
    let before = events.drop_last();
    let last = events.len() - 1;
    match now.stage {
        PassStageView::Preparing => {},
        PassStageView::Locking => {},
        PassStageView::Collecting => {
            if let PassEventView::LogsRead(logs) = event {
                assert(events.take(last) =~= before);
                assert(logs_taken(pass, events, last, logs));
                assert(logs_were_taken(pass, events, logs));
            }
        },
        PassStageView::Asking { logs } => {
            match event {
                PassEventView::Replied(reply) => {
                    if consolidate::consolidated(pass.style, logs, reply) is Ok {
                        lemma_reply_is_accepted(pass, events, logs, reply);
                        lemma_reply_is_planned(pass, events, logs, reply);
                    }
                },
                _ => {
                    let i = choose|i: int| #[trigger] logs_taken(pass, before, i, logs);
                    lemma_logs_stay_taken(pass, events, i, logs);
                },
            }
        },
        PassStageView::Opening { plan, log_count, input_bytes } => {
            lemma_plan_stays(pass, events, plan, log_count, input_bytes);
            if let Ok(writes) = plan {
                lemma_complete_run(pass, events, writes, log_count, input_bytes);
            }
        },
        PassStageView::Writing { writes, log_count, input_bytes, .. } => {
            lemma_plan_stays(pass, events, Ok(writes), log_count, input_bytes);
            lemma_complete_run(pass, events, writes, log_count, input_bytes);
        },
        PassStageView::Marking { run } => {
            lemma_run_stays(pass, events, run);
        },
        PassStageView::Releasing { result } => {
            if let Ok(run) = result {
                lemma_run_stays(pass, events, run);
            }
        },
        PassStageView::Finished { result } => {
            if let Ok(run) = result {
                lemma_run_stays(pass, events, run);
            }
        },
    }
}

/// A dream that succeeded has written the memory, directly in the memory directory.
#[verifier::spinoff_prover]
pub proof fn law_success_means_that_the_memory_was_written(
    pass: DreamPassView,
    events: Seq<PassEventView>,
)
    requires
        pass.stage is Preparing,
        pass_after_all(pass, events).stage is Finished,
        pass_after_all(pass, events).stage->Finished_result is Ok,
    ensures
        ({
            let written = pass_after_all(pass, events).stage->Finished_result->Ok_0.files_written;
            exists|i: int|
                #![trigger written[i]]
                0 <= i < written.len() && output::is_memory_path(pass.style, written[i])
        }),
{
    reveal(accepted);
    reveal(planned_for_reply);
    reveal(complete_run);
    law_only_accepted_replies_are_written(pass, events);
    let style = pass.style;
    let run = pass_after_all(pass, events).stage->Finished_result->Ok_0;
    let writes = choose|writes: Seq<FileWriteView>|
        {
            &&& #[trigger] planned_for_reply(
                pass,
                events,
                Ok(writes),
                run.log_count,
                run.input_bytes,
            )
            &&& run.files_written == write_paths(writes)
        };
    let (logs, reply) = choose|
        logs: Seq<MemoryLogView>,
        reply: Result<Seq<AssistantEventView>, Seq<char>>,
    |
        {
            &&& #[trigger] accepted(pass, events, logs, reply)
            &&& Ok::<Seq<FileWriteView>, DreamerErrorView>(writes) == planned(
                pass.style,
                consolidate::consolidated(pass.style, logs, reply)->Ok_0.files,
            )
            &&& run.log_count == logs.len()
            &&& run.input_bytes == super::input_size(logs)
        };
    let files = consolidate::consolidated(style, logs, reply)->Ok_0.files;
    consolidate::law_accepted_replies_have_a_memory(style, logs, reply);
    output::law_memory_is_written(style, files);
    let i = choose|i: int|
        #![trigger output::planned_writes(style, files)[i]]
        0 <= i < output::planned_writes(style, files).len() && output::planned_writes(
            style,
            files,
        )[i].contents == output::newline_ended(output::memory_markdown(style, files)->0)
            && output::is_memory_path(style, output::planned_writes(style, files)[i].path);
    assert(run.files_written[i] == writes[i].path);
}

/// Whether a dream writes a file or touches the marker next.
pub open spec fn changes_files(pass: DreamPassView) -> bool {
    action_of(pass) is WriteFile || action_of(pass) is TouchMarker
}

/// Whether a stage is one to which a dream can come once it has changed files.
spec fn behind_changes(stage: PassStageView) -> bool {
    match stage {
        PassStageView::Writing { .. } => true,
        PassStageView::Marking { .. } => true,
        PassStageView::Releasing { result } => result is Err ==> result->Err_0 is Io,
        PassStageView::Finished { result } => result is Err ==> result->Err_0 is Io,
        _ => false,
    }
}

proof fn lemma_behind_changes(pass: DreamPassView, events: Seq<PassEventView>, n: int)
    requires
        0 <= n <= events.len(),
        changes_files(pass_after_all(pass, events.take(n))),
    ensures
        behind_changes(pass_after_all(pass, events).stage),
    decreases events.len(),
{
    if n == events.len() {
        assert(events.take(n) =~= events);
    } else {
        assert(events.drop_last().take(n) =~= events.take(n));
        lemma_behind_changes(pass, events.drop_last(), n);
    }
}

/// Failed output preserves the memory: a dream that ends without logs, with the lock held, with a
/// failure of the model or with output that is not valid has at no time written a file or touched
/// the marker.
pub proof fn law_failed_dreams_change_no_file(
    pass: DreamPassView,
    events: Seq<PassEventView>,
    n: int,
)
    requires
        pass.stage is Preparing,
        0 <= n <= events.len(),
        pass_after_all(pass, events).stage matches PassStageView::Finished { result: Err(error) }
            && (error is NoLogs || error is Locked || error is Api || error is InvalidOutput),
    ensures
        !(action_of(pass_after_all(pass, events.take(n))) is WriteFile),
        !(action_of(pass_after_all(pass, events.take(n))) is TouchMarker),
{
    if changes_files(pass_after_all(pass, events.take(n))) {
        lemma_behind_changes(pass, events, n);
    }
}

/// A reply that is not accepted leaves every file as it is: the dream goes on to release the
/// lock, and from there on it does nothing else.
pub proof fn law_rejected_replies_write_nothing(
    pass: DreamPassView,
    reply: Result<Seq<AssistantEventView>, Seq<char>>,
    later: Seq<PassEventView>,
)
    requires
        pass.stage is Asking,
        consolidate::consolidated(pass.style, pass.stage->Asking_logs, reply) is Err,
    ensures
        ({
            let after = pass_after_all(pass_after(pass, PassEventView::Replied(reply)), later);
            let error = consolidate::consolidated(pass.style, pass.stage->Asking_logs, reply)->Err_0;
            after.stage == (PassStageView::Releasing { result: Err(error) }) || after.stage == (
            PassStageView::Finished { result: Err(error) })
        }),
    decreases later.len(),
{
    if later.len() > 0 {
        law_rejected_replies_write_nothing(pass, reply, later.drop_last());
    }
}

/// How far a stage is from the end of a dream.
pub open spec fn stages_left(stage: PassStageView) -> nat {
    match stage {
        PassStageView::Preparing => 8,
        PassStageView::Locking => 7,
        PassStageView::Collecting => 6,
        PassStageView::Asking { .. } => 5,
        PassStageView::Opening { .. } => 4,
        PassStageView::Writing { .. } => 3,
        PassStageView::Marking { .. } => 2,
        PassStageView::Releasing { .. } => 1,
        PassStageView::Finished { .. } => 0,
    }
}

/// Every event that changes a dream brings it nearer to its end: to a later stage, or, while
/// it writes, to the next file.
pub proof fn law_dreams_come_to_an_end(pass: DreamPassView, event: PassEventView)
    ensures
        stage_after(pass, event) != pass.stage ==> {
            let next = stage_after(pass, event);
            ||| stages_left(next) < stages_left(pass.stage)
            ||| pass.stage is Writing && next is Writing && next->Writing_writes
                == pass.stage->Writing_writes && next->Writing_written
                == pass.stage->Writing_written + 1 && next->Writing_written
                < next->Writing_writes.len()
        },
        // What every action can lead to changes the dream, unless it is over.
        !(pass.stage is Finished) && !(pass.stage is Asking) ==> stage_after(
            pass,
            PassEventView::Failed(Seq::empty()),
        ) != pass.stage,
        pass.stage is Asking ==> stage_after(pass, PassEventView::Replied(Err(Seq::empty())))
            != pass.stage,
{
}

/// What fails is told in its own words: a failure of the file system ends the dream with the text
/// of its error, at once where the lock was not acquired, and else once it is released; and a
/// failure to release the lock changes nothing of what came of the dream.
pub proof fn law_failures_are_told(pass: DreamPassView, message: Seq<char>)
    ensures
        ({
            let next = stage_after(pass, PassEventView::Failed(message));
            let failed = Err::<DreamRunView, DreamerErrorView>(DreamerErrorView::Io(message));
            match pass.stage {
                PassStageView::Preparing => next == (PassStageView::Finished { result: failed }),
                PassStageView::Locking => next == (PassStageView::Finished { result: failed }),
                PassStageView::Collecting => next == (PassStageView::Releasing { result: failed }),
                PassStageView::Asking { .. } => next == pass.stage,
                PassStageView::Opening { .. } => next == (PassStageView::Releasing {
                    result: failed,
                }),
                PassStageView::Writing { .. } => next == (PassStageView::Releasing {
                    result: failed,
                }),
                PassStageView::Marking { .. } => next == (PassStageView::Releasing {
                    result: failed,
                }),
                PassStageView::Releasing { result } => next == (PassStageView::Finished {
                    result,
                }),
                PassStageView::Finished { .. } => next == pass.stage,
            }
        }),
{
}

/// As many events as the number says, each that the action was done.
pub open spec fn done_times(n: nat) -> Seq<PassEventView> {
    Seq::new(n, |i: int| PassEventView::Done)
}

/// The events up to the reply of the model, where nothing fails.
pub open spec fn up_to_the_reply(
    logs: Seq<MemoryLogView>,
    reply: Result<Seq<AssistantEventView>, Seq<char>>,
) -> Seq<PassEventView> {
    done_times(2).push(PassEventView::LogsRead(logs)).push(PassEventView::Replied(reply))
}

proof fn lemma_one_event_more(
    pass: DreamPassView,
    events: Seq<PassEventView>,
    event: PassEventView,
)
    ensures
        pass_after_all(pass, events.push(event)) == pass_after(
            pass_after_all(pass, events),
            event,
        ),
{
    assert(events.push(event).drop_last() =~= events);
}

proof fn lemma_up_to_the_logs(pass: DreamPassView, logs: Seq<MemoryLogView>)
    requires
        pass.stage is Preparing,
        logs.len() > 0,
    ensures
        pass_after_all(pass, Seq::empty()) == pass,
        pass_after_all(pass, done_times(1)) == (DreamPassView {
            stage: PassStageView::Locking,
            ..pass
        }),
        pass_after_all(pass, done_times(2)) == (DreamPassView {
            stage: PassStageView::Collecting,
            ..pass
        }),
        pass_after_all(pass, done_times(2).push(PassEventView::LogsRead(logs))) == (DreamPassView {
            stage: PassStageView::Asking { logs },
            ..pass
        }),
{
    let none = Seq::<PassEventView>::empty();
    assert(done_times(1) =~= none.push(PassEventView::Done));
    assert(done_times(2) =~= done_times(1).push(PassEventView::Done));
    lemma_one_event_more(pass, none, PassEventView::Done);
    lemma_one_event_more(pass, done_times(1), PassEventView::Done);
    lemma_one_event_more(pass, done_times(2), PassEventView::LogsRead(logs));
}

/// A dream creates its directory, acquires its lock, reads the logs within its budget, and asks the
/// model about exactly those, one after another as each is done.
pub proof fn law_dream_begins(pass: DreamPassView, logs: Seq<MemoryLogView>)
    requires
        pass.stage is Preparing,
        logs.len() > 0,
    ensures
        action_of(pass) is CreateDirectory,
        action_of(pass_after_all(pass, done_times(1))) == PassActionView::AcquireLock(
            ".consolidate-lock"@,
        ),
        action_of(pass_after_all(pass, done_times(2))) == (PassActionView::CollectLogs {
            max_input_bytes: pass.max_input_bytes,
        }),
        action_of(
            pass_after_all(pass, done_times(2).push(PassEventView::LogsRead(logs))),
        ) == PassActionView::AskModel(consolidate::consolidation_request(logs)),
{
    lemma_up_to_the_logs(pass, logs);
}

/// A dream that finds no logs releases its lock and says so; the model is not asked.
pub proof fn law_dream_without_logs(pass: DreamPassView)
    requires
        pass.stage is Preparing,
    ensures
        ({
            let events = done_times(2).push(PassEventView::LogsRead(Seq::empty()));
            &&& action_of(pass_after_all(pass, events)) == PassActionView::ReleaseLock(
                ".consolidate-lock"@,
            )
            &&& action_of(pass_after_all(pass, events.push(PassEventView::Done)))
                == PassActionView::Finish(Err(DreamerErrorView::NoLogs))
        }),
{
    let none = Seq::<MemoryLogView>::empty();
    let some = seq![MemoryLogView { name: Seq::empty(), content: Seq::empty() }];
    let events = done_times(2).push(PassEventView::LogsRead(none));
    lemma_up_to_the_logs(pass, some);
    lemma_one_event_more(pass, done_times(2), PassEventView::LogsRead(none));
    lemma_one_event_more(pass, events, PassEventView::Done);
}

proof fn lemma_up_to_the_reply(
    pass: DreamPassView,
    logs: Seq<MemoryLogView>,
    reply: Result<Seq<AssistantEventView>, Seq<char>>,
)
    requires
        pass.stage is Preparing,
        logs.len() > 0,
    ensures
        pass_after_all(pass, up_to_the_reply(logs, reply)) == pass_after(
            DreamPassView { stage: PassStageView::Asking { logs }, ..pass },
            PassEventView::Replied(reply),
        ),
{
    lemma_up_to_the_logs(pass, logs);
    lemma_one_event_more(
        pass,
        done_times(2).push(PassEventView::LogsRead(logs)),
        PassEventView::Replied(reply),
    );
}

/// A reply that is not accepted, or of which a file may not be written, leads to the error that it
/// is refused with, once the lock is released.
pub proof fn law_refused_reply_is_told(
    pass: DreamPassView,
    logs: Seq<MemoryLogView>,
    reply: Result<Seq<AssistantEventView>, Seq<char>>,
)
    requires
        pass.stage is Preparing,
        logs.len() > 0,
    ensures
        ({
            let events = up_to_the_reply(logs, reply);
            let out = consolidate::consolidated(pass.style, logs, reply);
            &&& out is Err ==> action_of(pass_after_all(pass, events))
                == PassActionView::ReleaseLock(".consolidate-lock"@) && action_of(
                pass_after_all(pass, events.push(PassEventView::Done)),
            ) == PassActionView::Finish(Err(out->Err_0))
            &&& out is Ok && output::planned_failure(pass.style, out->Ok_0.files) is Some
                ==> action_of(pass_after_all(pass, events)) is CreateDirectory && action_of(
                pass_after_all(pass, events.push(PassEventView::Done)),
            ) == PassActionView::ReleaseLock(".consolidate-lock"@) && action_of(
                pass_after_all(
                    pass,
                    events.push(PassEventView::Done).push(PassEventView::Done),
                ),
            ) == PassActionView::Finish(
                Err(output::planned_failure(pass.style, out->Ok_0.files)->0),
            )
        }),
{
    let events = up_to_the_reply(logs, reply);
    lemma_up_to_the_reply(pass, logs, reply);
    lemma_one_event_more(pass, events, PassEventView::Done);
    lemma_one_event_more(pass, events.push(PassEventView::Done), PassEventView::Done);
}

proof fn lemma_writing(
    pass: DreamPassView,
    logs: Seq<MemoryLogView>,
    reply: Result<Seq<AssistantEventView>, Seq<char>>,
    k: nat,
)
    requires
        pass.stage is Preparing,
        logs.len() > 0,
        consolidate::consolidated(pass.style, logs, reply) is Ok,
        ({
            let files = consolidate::consolidated(pass.style, logs, reply)->Ok_0.files;
            output::planned_failure(pass.style, files) is None && k <= files.len()
        }),
    ensures
        ({
            let files = consolidate::consolidated(pass.style, logs, reply)->Ok_0.files;
            pass_after_all(pass, up_to_the_reply(logs, reply) + done_times(k + 1)) == (
            DreamPassView {
                stage: writing_stage(
                    output::planned_writes(pass.style, files),
                    k,
                    logs.len(),
                    super::input_size(logs),
                ),
                ..pass
            })
        }),
    decreases k,
{
    let events = up_to_the_reply(logs, reply);
    let files = consolidate::consolidated(pass.style, logs, reply)->Ok_0.files;
    if k == 0 {
        assert(events + done_times(1) =~= events.push(PassEventView::Done));
        lemma_up_to_the_reply(pass, logs, reply);
        lemma_one_event_more(pass, events, PassEventView::Done);
    } else {
        let before = (k - 1) as nat;
        lemma_writing(pass, logs, reply, before);
        assert(events + done_times(k + 1) =~= (events + done_times(k)).push(PassEventView::Done));
        assert(before + 1 == k);
        lemma_one_event_more(pass, events + done_times(k), PassEventView::Done);
    }
}

/// A reply that is accepted is written: where nothing fails, each of its files is, under its own
/// path and with its own text and a line feed at its end, in their order and no other between them;
/// then the marker is touched and the lock released; and what is reported is the paths of all the
/// files, the number of the logs and their size.
pub proof fn law_accepted_reply_is_written(
    pass: DreamPassView,
    logs: Seq<MemoryLogView>,
    reply: Result<Seq<AssistantEventView>, Seq<char>>,
    k: nat,
)
    requires
        pass.stage is Preparing,
        logs.len() > 0,
        consolidate::consolidated(pass.style, logs, reply) is Ok,
        output::planned_failure(
            pass.style,
            consolidate::consolidated(pass.style, logs, reply)->Ok_0.files,
        ) is None,
    ensures
        ({
            let files = consolidate::consolidated(pass.style, logs, reply)->Ok_0.files;
            let n = files.len();
            let events = up_to_the_reply(logs, reply);
            &&& action_of(pass_after_all(pass, events)) is CreateDirectory
            &&& k < n ==> {
                let action = action_of(pass_after_all(pass, events + done_times(k + 1)));
                &&& action is WriteFile
                &&& action->WriteFile_0.path == files[k as int].path
                &&& files[k as int].markdown.is_prefix_of(action->WriteFile_0.contents)
                &&& action->WriteFile_0.contents.len() <= files[k as int].markdown.len() + 1
                &&& action->WriteFile_0.contents.last() == '\n'
            }
            &&& action_of(pass_after_all(pass, events + done_times(n + 1)))
                == PassActionView::TouchMarker(".last-dream"@)
            &&& action_of(pass_after_all(pass, events + done_times(n + 2)))
                == PassActionView::ReleaseLock(".consolidate-lock"@)
            &&& action_of(pass_after_all(pass, events + done_times(n + 3)))
                == PassActionView::Finish(
                Ok(
                    DreamRunView {
                        files_written: Seq::new(n, |i: int| files[i].path),
                        log_count: logs.len(),
                        input_bytes: super::input_size(logs),
                    },
                ),
            )
        }),
{
    let files = consolidate::consolidated(pass.style, logs, reply)->Ok_0.files;
    let n = files.len();
    let events = up_to_the_reply(logs, reply);
    let writes = output::planned_writes(pass.style, files);
    lemma_up_to_the_reply(pass, logs, reply);
    if k < n {
        lemma_writing(pass, logs, reply, k);
        output::law_written_texts_end_with_a_line_feed(files[k as int].markdown);
        assert(writes[k as int] == output::write_of(files[k as int]));
    }
    lemma_writing(pass, logs, reply, n);
    assert(write_paths(writes) =~= Seq::new(n, |i: int| files[i].path));
    assert(events + done_times(n + 2) =~= (events + done_times(n + 1)).push(PassEventView::Done));
    assert(events + done_times(n + 3) =~= (events + done_times(n + 2)).push(PassEventView::Done));
    lemma_one_event_more(pass, events + done_times(n + 1), PassEventView::Done);
    lemma_one_event_more(pass, events + done_times(n + 2), PassEventView::Done);
}

/// What a dream reports is its own directory and what it counted, or its error.
pub proof fn law_outcome_is_what_was_counted<P>(
    pass: DreamPass<P>,
    outcome: Option<Result<DreamRun<P>, DreamerError>>,
)
    requires
        call_ensures(DreamPass::<P>::into_outcome, (pass,), outcome),
    ensures
        outcome is Some <==> action_of(pass@) is Finish,
        outcome is Some && outcome->0 is Ok ==> {
            &&& outcome->0->Ok_0.memory_dir == pass.config.memory_dir
            &&& action_of(pass@) == PassActionView::Finish(Ok(outcome->0->Ok_0@))
        },
        outcome is Some && outcome->0 is Err ==> action_of(pass@) == PassActionView::Finish(
            Err(outcome->0->Err_0@),
        ),
{
}

/// A dream is over for good.
pub proof fn law_finished_dreams_stay_finished(pass: DreamPassView, event: PassEventView)
    requires
        pass.stage is Finished,
    ensures
        pass_after(pass, event) == pass,
{
}

/// What comes out of turn changes nothing.
pub proof fn law_events_out_of_turn_change_nothing(pass: DreamPassView, event: PassEventView)
    requires
        match pass.stage {
            PassStageView::Locking => !(event is Done || event is LockHeld || event is Failed),
            PassStageView::Collecting => !(event is LogsRead || event is Failed),
            PassStageView::Asking { .. } => !(event is Replied),
            PassStageView::Finished { .. } => true,
            _ => !(event is Done || event is Failed),
        },
    ensures
        stage_after(pass, event) == pass.stage,
{
}

/// The settings of a dream stay as they are, and its stage goes as the events say.
pub proof fn law_settings_stay<P>(pass: DreamPass<P>, event: PassEvent, next: DreamPass<P>)
    requires
        call_ensures(DreamPass::<P>::next, (pass, event), next),
    ensures
        next.config == pass.config,
        next.style == pass.style,
        next@ == pass_after(pass@, event@),
{
}

/// What is said of an event and of a tally is said of what they hold as it is.
pub proof fn law_views_are_the_fields(event: PassEvent, tally: DreamTally)
    ensures
        match event {
            PassEvent::Done => event@ is Done,
            PassEvent::LockHeld => event@ is LockHeld,
            PassEvent::LogsRead(logs) => event@ == PassEventView::LogsRead(
                super::log_views(logs@),
            ),
            PassEvent::Replied(reply) => event@ == PassEventView::Replied(
                conversation::reply_view(reply),
            ),
            PassEvent::Failed(message) => event@ == PassEventView::Failed(message@),
        },
        tally@.files_written == text::texts(tally.files_written@),
        tally@.log_count == tally.log_count && tally@.input_bytes == tally.input_bytes,
{
}

/// What is to be done next is what the stage asks for.
pub proof fn law_action_is_that_of_the_stage<P>(pass: &DreamPass<P>, action: PassAction<'_>)
    requires
        pass.wf(),
        call_ensures(DreamPass::<P>::action, (pass,), action),
    ensures
        action@ == action_of(pass@),
        match action {
            PassAction::WriteFile(file) => {
                &&& pass.stage is Writing
                &&& file@ == pass.stage->Writing_writes@[pass.stage->Writing_written as int]@
            },
            PassAction::CollectLogs { max_input_bytes } => max_input_bytes
                == pass.config.max_input_bytes,
            _ => true,
        },
{
    if let PassStage::Writing { writes, written, .. } = pass.stage {
        assert(output::write_views(writes@)[written as int] == writes@[written as int]@);
    }
}

} // verus!
