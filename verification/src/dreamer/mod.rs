//! Project-local persistent memory and its consolidation ("dreaming").
//!
//! Agents append raw durable notes to daily logs below the memory directory. A dream reads
//! those logs newest first, asks a model to synthesize them, and writes `MEMORY.md` plus
//! optional topic files at the root of the memory directory.
pub mod blocks;
pub mod consolidate;
pub mod files;
pub mod gate;
pub mod limits;
pub mod logs;
pub mod manager;
pub mod output;
pub mod pass;
pub mod prompt;

use vstd::prelude::*;

use crate::text;

verus! {

broadcast use vstd::seq::group_seq_axioms;

/// Primary memory file, loaded into prompts.
pub const MEMORY_FILENAME: &'static str = "MEMORY.md";

/// Former name of the memory file; such a file is never read as a raw log.
pub const CONSOLIDATED_MEMORY_FILENAME: &'static str = "CONSOLIDATED_MEMORY.md";

/// Lock file that keeps two dreams from running at once.
pub const DREAM_LOCK_FILENAME: &'static str = ".consolidate-lock";

/// Marker file that is touched after every successful dream.
pub const LAST_DREAM_FILENAME: &'static str = ".last-dream";

/// How many bytes of logs a dream reads by default.
pub const MAX_LOG_INPUT_BYTES: usize = 128 * 1024;

/// A raw memory log.
#[derive(Debug, Clone, PartialEq, Eq)]
pub struct MemoryLog {
    /// Path relative to the memory directory, used as a label in the prompt.
    pub name: String,
    /// The text of the log, cut down to what the budget left.
    pub content: String,
}

/// What a raw memory log holds.
#[verifier::ext_equal]
pub struct MemoryLogView {
    pub name: Seq<char>,
    pub content: Seq<char>,
}

impl View for MemoryLog {
    type V = MemoryLogView;

    open spec fn view(&self) -> MemoryLogView {
        MemoryLogView { name: self.name@, content: self.content@ }
    }
}

/// What the logs of a sequence hold.
pub open spec fn log_views(logs: Seq<MemoryLog>) -> Seq<MemoryLogView> {
    Seq::new(logs.len(), |i: int| logs[i]@)
}

/// The number of bytes of all the logs together.
pub open spec fn input_size(logs: Seq<MemoryLogView>) -> nat
    decreases logs.len(),
{
    if logs.len() == 0 {
        0
    } else {
        input_size(logs.drop_last()) + text::byte_len(logs.last().content)
    }
}

/// A file that a dream produced.
#[derive(Debug, Clone, PartialEq, Eq)]
pub struct DreamerFileOutput {
    /// Path at the root of the memory directory, usually `MEMORY.md`.
    pub path: String,
    /// Markdown text.
    pub markdown: String,
}

/// What a file that a dream produced holds.
#[verifier::ext_equal]
pub struct DreamerFileOutputView {
    pub path: Seq<char>,
    pub markdown: Seq<char>,
}

impl View for DreamerFileOutput {
    type V = DreamerFileOutputView;

    open spec fn view(&self) -> DreamerFileOutputView {
        DreamerFileOutputView { path: self.path@, markdown: self.markdown@ }
    }
}

/// What the files of a sequence hold.
pub open spec fn file_views(files: Seq<DreamerFileOutput>) -> Seq<DreamerFileOutputView> {
    Seq::new(files.len(), |i: int| files[i]@)
}

/// What a dream produced.
#[derive(Debug, Clone, PartialEq, Eq)]
pub struct DreamerOutput {
    /// Markdown of `MEMORY.md`.
    pub markdown: String,
    /// All files to write at the root of the memory directory.
    pub files: Vec<DreamerFileOutput>,
    /// Number of logs that the model was given.
    pub log_count: usize,
    /// Number of bytes of those logs.
    pub input_bytes: usize,
}

/// What the output of a dream holds.
#[verifier::ext_equal]
pub struct DreamerOutputView {
    pub markdown: Seq<char>,
    pub files: Seq<DreamerFileOutputView>,
    pub log_count: nat,
    pub input_bytes: nat,
}

impl View for DreamerOutput {
    type V = DreamerOutputView;

    open spec fn view(&self) -> DreamerOutputView {
        DreamerOutputView {
            markdown: self.markdown@,
            files: file_views(self.files@),
            log_count: self.log_count as nat,
            input_bytes: self.input_bytes as nat,
        }
    }
}

/// What a completed dream did. The memory directory is whatever the caller takes for a path.
#[derive(Debug, Clone, PartialEq, Eq)]
pub struct DreamRun<P> {
    pub memory_dir: P,
    /// The paths of the files, below the memory directory.
    pub files_written: Vec<String>,
    pub log_count: usize,
    pub input_bytes: usize,
}

/// What the record of a completed dream holds, but for the directory.
#[verifier::ext_equal]
pub struct DreamRunView {
    pub files_written: Seq<Seq<char>>,
    pub log_count: nat,
    pub input_bytes: nat,
}

impl<P> View for DreamRun<P> {
    type V = DreamRunView;

    open spec fn view(&self) -> DreamRunView {
        DreamRunView {
            files_written: text::texts(self.files_written@),
            log_count: self.log_count as nat,
            input_bytes: self.input_bytes as nat,
        }
    }
}

/// What can go wrong with the memory or a dream.
#[derive(Debug, Clone, PartialEq, Eq)]
pub enum DreamerError {
    /// The file system failed, with the text of its error.
    Io(String),
    /// The model failed, with the text of its error.
    Api(String),
    /// There are no logs to consolidate.
    NoLogs,
    /// Another dream holds the lock.
    Locked,
    /// A text does not have the required form.
    InvalidOutput(String),
}

/// What an error holds.
pub enum DreamerErrorView {
    Io(Seq<char>),
    Api(Seq<char>),
    NoLogs,
    Locked,
    InvalidOutput(Seq<char>),
}

impl View for DreamerError {
    type V = DreamerErrorView;

    open spec fn view(&self) -> DreamerErrorView {
        match *self {
            DreamerError::Io(message) => DreamerErrorView::Io(message@),
            DreamerError::Api(message) => DreamerErrorView::Api(message@),
            DreamerError::NoLogs => DreamerErrorView::NoLogs,
            DreamerError::Locked => DreamerErrorView::Locked,
            DreamerError::InvalidOutput(message) => DreamerErrorView::InvalidOutput(message@),
        }
    }
}

/// The text that tells a user of an error.
pub open spec fn error_text(error: DreamerErrorView) -> Seq<char> {
    match error {
        DreamerErrorView::Io(message) => "dreamer I/O error: "@ + message,
        DreamerErrorView::Api(message) => "dreamer API error: "@ + message,
        DreamerErrorView::NoLogs => "dreamer: no memory log files found in directory"@,
        DreamerErrorView::Locked => "dreamer: another consolidation pass is already running"@,
        DreamerErrorView::InvalidOutput(message) => "dreamer produced invalid output: "@ + message,
    }
}

impl DreamerError {
    /// The text that tells a user of the error.
    pub fn message(&self) -> (r: String)
        ensures
            r@ == error_text(self@),
    {
        match self {
            DreamerError::Io(message) => text::concat("dreamer I/O error: ", message.as_str()),
            DreamerError::Api(message) => text::concat("dreamer API error: ", message.as_str()),
            DreamerError::NoLogs => "dreamer: no memory log files found in directory".to_owned(),
            DreamerError::Locked => "dreamer: another consolidation pass is already running".to_owned(),
            DreamerError::InvalidOutput(message) => text::concat(
                "dreamer produced invalid output: ",
                message.as_str(),
            ),
        }
    }
}

/// The settings of a dream.
#[derive(Debug, Clone, PartialEq, Eq)]
pub struct DreamerConfig<P> {
    /// Directory that holds `MEMORY.md`, topic files and raw logs, as whatever the caller takes
    /// for a path.
    pub memory_dir: P,
    /// How many bytes of logs are read at most.
    pub max_input_bytes: usize,
    /// Whether the gates of time and sessions are bypassed. The lock never is.
    pub force: bool,
}

impl<P> DreamerConfig<P> {
    /// The settings for a directory, with the default budget.
    #[must_use]
    pub fn new(memory_dir: P) -> (config: Self)
        ensures
            config.memory_dir == memory_dir,
            config.max_input_bytes == MAX_LOG_INPUT_BYTES,
            config.force == false,
    {
        DreamerConfig { memory_dir, max_input_bytes: MAX_LOG_INPUT_BYTES, force: false }
    }

    /// The settings with the directory in another form.
    #[must_use]
    pub fn with_memory_dir<Q>(self, memory_dir: Q) -> (config: DreamerConfig<Q>)
        ensures
            config == (DreamerConfig {
                memory_dir,
                max_input_bytes: self.max_input_bytes,
                force: self.force,
            }),
    {
        DreamerConfig { memory_dir, max_input_bytes: self.max_input_bytes, force: self.force }
    }

    /// The settings with another budget.
    #[must_use]
    pub fn with_max_input_bytes(self, max_input_bytes: usize) -> (config: Self)
        ensures
            config == (DreamerConfig { max_input_bytes, ..self }),
    {
        DreamerConfig { max_input_bytes, ..self }
    }

    /// The settings with the gates of time and sessions bypassed, or not.
    #[must_use]
    pub fn with_force(self, force: bool) -> (config: Self)
        ensures
            config == (DreamerConfig { force, ..self }),
    {
        DreamerConfig { force, ..self }
    }
}

// ---------------------------------------------------------------------------
// Laws
// ---------------------------------------------------------------------------

/// The text of an error tells what went wrong in the words of what failed.
pub proof fn law_error_tells_what_failed(error: &DreamerError, r: String)
    requires
        call_ensures(DreamerError::message, (error,), r),
    ensures
        match *error {
            DreamerError::Io(message) => r@ == "dreamer I/O error: "@ + message@,
            DreamerError::Api(message) => r@ == "dreamer API error: "@ + message@,
            DreamerError::NoLogs => r@ == "dreamer: no memory log files found in directory"@,
            DreamerError::Locked => r@ == "dreamer: another consolidation pass is already running"@,
            DreamerError::InvalidOutput(message) => r@ == "dreamer produced invalid output: "@
                + message@,
        },
{
}

/// What is said of a log, a file, an output and a run is said of their fields as they are.
pub proof fn law_views_are_the_fields<P>(
    log: MemoryLog,
    logs: Seq<MemoryLog>,
    file: DreamerFileOutput,
    files: Seq<DreamerFileOutput>,
    output: DreamerOutput,
    run: DreamRun<P>,
    i: int,
)
    ensures
        log@.name == log.name@ && log@.content == log.content@,
        file@.path == file.path@ && file@.markdown == file.markdown@,
        output@.markdown == output.markdown@,
        output@.files == file_views(output.files@),
        output@.log_count == output.log_count && output@.input_bytes == output.input_bytes,
        run@.files_written == text::texts(run.files_written@),
        run@.log_count == run.log_count && run@.input_bytes == run.input_bytes,
        log_views(logs).len() == logs.len(),
        0 <= i < logs.len() ==> log_views(logs)[i] == logs[i]@,
        file_views(files).len() == files.len(),
        0 <= i < files.len() ==> file_views(files)[i] == files[i]@,
{
}

/// Each setting is changed by itself, and the others stay.
pub proof fn law_settings_are_changed_one_by_one<P, Q>(
    config: DreamerConfig<P>,
    memory_dir: Q,
    max_input_bytes: usize,
    force: bool,
    moved: DreamerConfig<Q>,
    budgeted: DreamerConfig<P>,
    forced: DreamerConfig<P>,
)
    requires
        call_ensures(DreamerConfig::<P>::with_memory_dir::<Q>, (config, memory_dir), moved),
        call_ensures(
            DreamerConfig::<P>::with_max_input_bytes,
            (config, max_input_bytes),
            budgeted,
        ),
        call_ensures(DreamerConfig::<P>::with_force, (config, force), forced),
    ensures
        moved.memory_dir == memory_dir && moved.max_input_bytes == config.max_input_bytes
            && moved.force == config.force,
        budgeted.memory_dir == config.memory_dir && budgeted.max_input_bytes == max_input_bytes
            && budgeted.force == config.force,
        forced.memory_dir == config.memory_dir && forced.max_input_bytes == config.max_input_bytes
            && forced.force == force,
{
}

} // verus!
