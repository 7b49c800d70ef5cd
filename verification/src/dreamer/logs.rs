//! Raw memory logs: appending notes, picking the log files, and reading them newest first.
use vstd::prelude::*;

use super::limits;
use super::{
    DreamerError, DreamerErrorView, MemoryLog, MemoryLogView, CONSOLIDATED_MEMORY_FILENAME,
    DREAM_LOCK_FILENAME, LAST_DREAM_FILENAME, MEMORY_FILENAME,
};
use crate::clock;
use crate::clock::Timestamp;
use crate::paths;
use crate::sorting;
use crate::sorting::{Rank, Ranked};
use crate::text;

verus! {

broadcast use vstd::seq::group_seq_axioms;

// ---------------------------------------------------------------------------
// Appending
// ---------------------------------------------------------------------------

/// A note to append to a log file.
#[derive(Debug, Clone, PartialEq, Eq)]
pub struct LogAppend<P> {
    pub memory_dir: P,
    /// The directories in which the log file lies, one below another, the first of them below the
    /// memory directory. They must exist first.
    pub directories: Vec<String>,
    /// The name of the log file.
    pub file: String,
    /// The text to append.
    pub entry: String,
}

/// The directories in which the log file for a date lies, below the memory directory.
pub open spec fn log_directories(date: Seq<char>) -> Seq<Seq<char>> {
    seq!["logs"@, date.subrange(0, 4), date.subrange(5, 7)]
}

/// The name of the log file for a date.
pub open spec fn log_file(date: Seq<char>) -> Seq<char> {
    date + ".md"@
}

proof fn lemma_date_len(time: Timestamp)
    ensures
        clock::utc_date(time).len() >= 10,
{
    let (y, m, d) = clock::civil_of(time.day());
    let year = y as i32;
    if year < 0 {
        text::lemma_zero_padded_len(text::decimal((-year) as nat), 3);
    } else {
        text::lemma_zero_padded_len(text::decimal(year as nat), 4);
    }
    text::lemma_zero_padded_len(text::decimal(m as nat), 2);
    text::lemma_zero_padded_len(text::decimal(d as nat), 2);
}

/// Plans to append a durable note to the log of the day to which `now` belongs.
pub fn append_daily_log<P>(memory_dir: P, note: &str, now: &Timestamp) -> (r: Result<
    LogAppend<P>,
    DreamerError,
>)
    ensures
        text::trimmed(note@).len() == 0 ==> r is Err && r->Err_0@
            == DreamerErrorView::InvalidOutput("memory log note is empty"@),
        text::trimmed(note@).len() > 0 ==> {
            &&& r is Ok
            &&& r->Ok_0.memory_dir == memory_dir
            &&& text::texts(r->Ok_0.directories@) == log_directories(clock::utc_date(*now))
            &&& r->Ok_0.file@ == log_file(clock::utc_date(*now))
            &&& r->Ok_0.entry@ == "\n- "@ + text::trimmed(note@) + "\n"@
        },
{
    let note = text::trim(note);
    if note.as_str().is_empty() {
        return Err(DreamerError::InvalidOutput("memory log note is empty".to_owned()));
    }
    let date = clock::utc_date_string(now);
    let chars = text::to_chars(date.as_str());
    proof {
        lemma_date_len(*now);
    }
    let mut directories: Vec<String> = Vec::new();
    directories.push("logs".to_owned());
    directories.push(text::from_chars(&chars, 0, 4));
    directories.push(text::from_chars(&chars, 5, 7));
    proof {
        assert(text::texts(directories@) =~= log_directories(date@));
    }
    let file = text::concat(date.as_str(), ".md");
    let mut entry = text::concat("\n- ", note.as_str());
    entry.append("\n");
    Ok(LogAppend { memory_dir, directories, file, entry })
}

// ---------------------------------------------------------------------------
// Log files
// ---------------------------------------------------------------------------

/// Whether a name belongs to a file that dreams make or use.
pub open spec fn reserved_name(name: Seq<char>) -> bool {
    ||| name == MEMORY_FILENAME@
    ||| name == CONSOLIDATED_MEMORY_FILENAME@
    ||| name == DREAM_LOCK_FILENAME@
    ||| name == LAST_DREAM_FILENAME@
}

/// Whether a text is `md`, in capitals or not.
pub open spec fn markdown_extension(ext: Seq<char>) -> bool {
    ext.len() == 2 && (ext[0] == 'm' || ext[0] == 'M') && (ext[1] == 'd' || ext[1] == 'D')
}

/// Whether a file of a name may be a raw log: a markdown file that dreams do not make themselves.
pub open spec fn log_candidate(file_name: Option<Seq<char>>) -> bool {
    match file_name {
        Some(name) => !reserved_name(name) && match paths::extension_of(name) {
            Some(ext) => markdown_extension(ext),
            None => false,
        },
        None => false,
    }
}

/// Whether a file may be a raw log, given its name, if it has one.
pub fn is_memory_log_candidate(file_name: Option<&str>) -> (yes: bool)
    ensures
        yes == log_candidate(super::prompt::referred_text(file_name)),
{
    let name = match file_name {
        Some(name) => name,
        None => return false,
    };
    if text::text_eq(name, MEMORY_FILENAME) || text::text_eq(name, CONSOLIDATED_MEMORY_FILENAME)
        || text::text_eq(name, DREAM_LOCK_FILENAME) || text::text_eq(name, LAST_DREAM_FILENAME) {
        return false;
    }
    match paths::extension(name) {
        None => false,
        Some(ext) => {
            let chars = text::to_chars(ext.as_str());
            chars.len() == 2 && (chars[0] == 'm' || chars[0] == 'M') && (chars[1] == 'd' || chars[1]
                == 'D')
        },
    }
}

/// A file below the memory directory.
#[derive(Debug, Clone, PartialEq, Eq)]
pub struct LogEntry {
    /// When the file was last changed.
    pub modified: Timestamp,
    /// The label of the file.
    pub name: String,
    /// The name of the file by itself, if it has one.
    pub file_name: Option<String>,
    /// The number by which whoever reads the file finds it: a path need not be a text.
    pub file: usize,
}

/// Whether the entry `a` belongs before `b`, or they share a place: newer files come first,
/// and of two files of one time the one with the later name.
pub open spec fn newer(a: LogEntry, b: LogEntry) -> bool {
    ||| a.modified.instant() > b.modified.instant()
    ||| a.modified.instant() == b.modified.instant() && text::text_le(b.name@, a.name@)
}

impl Rank for LogEntry {
    open spec fn ranks_before(self, other: Self) -> bool {
        newer(self, other)
    }

    proof fn rank_is_transitive(a: Self, b: Self, c: Self) {
        if a.modified.instant() == b.modified.instant() && b.modified.instant()
            == c.modified.instant() {
            text::lemma_text_le_transitive(c.name@, b.name@, a.name@);
        }
    }

    proof fn rank_is_total(a: Self, b: Self) {
        text::lemma_text_le_total(a.name@, b.name@);
    }
}

impl Ranked for LogEntry {
    fn is_ranked_before(&self, other: &Self) -> (yes: bool) {
        if other.modified.is_before(&self.modified) {
            true
        } else if self.modified.is_before(&other.modified) {
            false
        } else {
            text::is_text_le(other.name.as_str(), self.name.as_str())
        }
    }
}

/// Sorts entries, newest first.
pub fn newest_first(entries: Vec<LogEntry>) -> (r: Vec<LogEntry>)
    ensures
        sorting::stable_sort_of(r@, entries@),
{
    sorting::stable_sort(entries)
}

impl LogEntry {
    /// The entry of a file, from its path relative to the memory directory and its name, each with
    /// whatever is no text in it replaced.
    pub fn new(
        modified: Timestamp,
        relative: &str,
        file_name: Option<String>,
        file: usize,
    ) -> (entry: Self)
        ensures
            entry.modified == modified,
            entry.name@ == paths::with_slashes(relative@),
            entry.file_name == file_name,
            entry.file == file,
    {
        LogEntry { modified, name: paths::to_slashes(relative), file_name, file }
    }
}

// ---------------------------------------------------------------------------
// Reading within a budget
// ---------------------------------------------------------------------------

/// The logs that were taken, and whether a file was turned away because the budget was spent.
#[verifier::ext_equal]
pub struct Gathering {
    pub logs: Seq<MemoryLogView>,
    pub full: bool,
}

/// What becomes of the logs taken so far when the next file is read: a file without text is
/// passed over, any other is cut down to what the budget leaves; with nothing left of it, no
/// further file is taken.
pub open spec fn offered(taken: Gathering, file: MemoryLogView, max_input_bytes: nat) -> Gathering {
    let left = max_input_bytes - input_size_of(taken);
    if taken.full || text::trimmed(file.content).len() == 0 {
        taken
    } else if left <= 0 {
        Gathering { logs: taken.logs, full: true }
    } else {
        Gathering {
            logs: taken.logs.push(
                MemoryLogView { name: file.name, content: limits::clipped(file.content, left) },
            ),
            full: false,
        }
    }
}

/// The number of bytes of the logs that were taken.
pub open spec fn input_size_of(taken: Gathering) -> nat {
    super::input_size(taken.logs)
}

/// The logs that are taken of a sequence of files.
pub open spec fn gathered(files: Seq<MemoryLogView>, max_input_bytes: nat) -> Gathering
    decreases files.len(),
{
    if files.len() == 0 {
        Gathering { logs: Seq::empty(), full: false }
    } else {
        offered(gathered(files.drop_last(), max_input_bytes), files.last(), max_input_bytes)
    }
}

/// The entries that may be raw logs.
pub open spec fn candidates(entries: Seq<LogEntry>) -> Seq<LogEntry> {
    entries.filter(|entry: LogEntry| log_candidate(text::optional_text(entry.file_name)))
}

/// The reading of log files, newest first, within a budget. It tells which file to read next,
/// and is given the text of that file.
pub struct LogCollection {
    queue: Vec<LogEntry>,
    next: usize,
    logs: Vec<MemoryLog>,
    total_bytes: usize,
    max_input_bytes: usize,
    full: bool,
    supplied: Ghost<Seq<MemoryLogView>>,
}

impl LogCollection {
    /// The entries whose files are to be read, in order.
    pub closed spec fn queue(&self) -> Seq<LogEntry> {
        self.queue@
    }

    /// The files that were read so far, with their whole texts.
    pub closed spec fn read(&self) -> Seq<MemoryLogView> {
        self.supplied@
    }

    /// How many bytes of logs are taken at most.
    pub closed spec fn budget(&self) -> nat {
        self.max_input_bytes as nat
    }

    /// Whether every file was read, or one had to be turned away.
    pub open spec fn done(&self) -> bool {
        gathered(self.read(), self.budget()).full || self.read().len() == self.queue().len()
    }

    /// Whether the collection is in order: the files read are the first of the queue, and the
    /// logs are those taken of them.
    pub closed spec fn wf(&self) -> bool {
        &&& self.next <= self.queue@.len()
        &&& self.supplied@.len() == self.next
        &&& forall|i: int|
            0 <= i < self.next ==> (#[trigger] self.supplied@[i]).name == self.queue@[i].name@
        &&& gathered(self.supplied@, self.max_input_bytes as nat) == (Gathering {
            logs: super::log_views(self.logs@),
            full: self.full,
        })
        &&& self.total_bytes == super::input_size(super::log_views(self.logs@))
        &&& self.total_bytes <= self.max_input_bytes
    }

    /// Starts with the files that may be raw logs, newest first.
    pub fn start(entries: Vec<LogEntry>, max_input_bytes: usize) -> (collection: Self)
        ensures
            collection.wf(),
            sorting::stable_sort_of(collection.queue(), candidates(entries@)),
            collection.read() == Seq::<MemoryLogView>::empty(),
            collection.budget() == max_input_bytes,
    {
        let mut picked: Vec<LogEntry> = Vec::new();
        let ghost all = entries@;
        let ghost pred = |entry: LogEntry| log_candidate(text::optional_text(entry.file_name));
        proof {
            reveal(Seq::filter);
            assert(picked@ =~= all.take(0).filter(pred));
        }
        for entry in it: entries
            invariant
                it.seq() == all,
                pred == (|entry: LogEntry| log_candidate(text::optional_text(entry.file_name))),
                picked@ == all.take(it.index() as int).filter(pred),
        {
            proof {
                let next = all.take(it.index() + 1);
                assert(next.drop_last() =~= all.take(it.index() as int));
                assert(next.last() == entry);
                reveal(Seq::filter);
            }
            let file_name = match &entry.file_name {
                Some(name) => Some(name.as_str()),
                None => None,
            };
            if is_memory_log_candidate(file_name) {
                picked.push(entry);
            }
        }
        proof {
            assert(all.take(all.len() as int) =~= all);
        }
        let queue = newest_first(picked);
        let logs: Vec<MemoryLog> = Vec::new();
        proof {
            assert(super::log_views(logs@) =~= Seq::empty());
        }
        LogCollection {
            queue,
            next: 0,
            logs,
            total_bytes: 0,
            max_input_bytes,
            full: false,
            supplied: Ghost(Seq::empty()),
        }
    }

    /// The entry of the file to read next, if any is to be read.
    pub fn next_entry(&self) -> (entry: Option<&LogEntry>)
        requires
            self.wf(),
        ensures
            entry is None <==> self.done(),
            entry is Some ==> *entry->0 == self.queue()[self.read().len() as int],
    {
        if self.full || self.next == self.queue.len() {
            None
        } else {
            Some(&self.queue[self.next])
        }
    }

    /// Takes the text of the file that was to be read next.
    pub fn supply(&mut self, content: &str)
        requires
            old(self).wf(),
            !old(self).done(),
        ensures
            final(self).wf(),
            final(self).queue() == old(self).queue(),
            final(self).budget() == old(self).budget(),
            final(self).read() == old(self).read().push(
                MemoryLogView {
                    name: old(self).queue()[old(self).read().len() as int].name@,
                    content: content@,
                },
            ),
    {
        let ghost file = MemoryLogView {
            name: self.queue@[self.next as int].name@,
            content: content@,
        };
        let ghost before = self.supplied@;
        self.supplied = Ghost(self.supplied@.push(file));
        proof {
            assert(self.supplied@.drop_last() =~= before);
        }
        if !text::trim(content).as_str().is_empty() {
            let available: usize = self.max_input_bytes - self.total_bytes;
            if available == 0 {
                self.full = true;
            } else {
                let truncated = limits::truncate_utf8_bytes(content, available);
                proof {
                    limits::law_clipped(content@, available as int);
                }
                let size: usize = text::byte_count(truncated.as_str());
                let log = MemoryLog {
                    name: self.queue[self.next].name.clone(),
                    content: truncated,
                };
                let ghost old_logs = super::log_views(self.logs@);
                self.logs.push(log);
                proof {
                    let new_logs = super::log_views(self.logs@);
                    assert(new_logs =~= old_logs.push(log@));
                    assert(new_logs.drop_last() =~= old_logs);
                }
                self.total_bytes = self.total_bytes + size;
            }
        }
        assert(self.next < self.queue.len());
        self.next = self.next + 1;
    }

    /// The logs that were taken of the files read.
    pub fn finish(self) -> (logs: Vec<MemoryLog>)
        requires
            self.wf(),
        ensures
            super::log_views(logs@) == gathered(self.read(), self.budget()).logs,
            super::input_size(super::log_views(logs@)) <= self.budget(),
    {
        self.logs
    }

    /// The files that were read are the first of the queue, in its order and under its names.
    pub proof fn law_files_are_read_in_order(&self)
        requires
            self.wf(),
        ensures
            self.read().len() <= self.queue().len(),
            forall|i: int|
                0 <= i < self.read().len() ==> (#[trigger] self.read()[i]).name
                    == self.queue()[i].name@,
    {
    }
}

// ---------------------------------------------------------------------------
// Laws
// ---------------------------------------------------------------------------

/// The logs that are taken never take more bytes than the budget.
pub proof fn law_budget_is_kept(files: Seq<MemoryLogView>, max_input_bytes: nat)
    ensures
        input_size_of(gathered(files, max_input_bytes)) <= max_input_bytes,
    decreases files.len(),
{
    if files.len() > 0 {
        law_budget_is_kept(files.drop_last(), max_input_bytes);
        let before = gathered(files.drop_last(), max_input_bytes);
        let after = gathered(files, max_input_bytes);
        if after.logs.len() > before.logs.len() {
            let left = max_input_bytes - input_size_of(before);
            limits::law_clipped(files.last().content, left);
            assert(after.logs.drop_last() =~= before.logs);
        }
    }
}

/// Whether a file has any text.
pub open spec fn has_text(file: MemoryLogView) -> bool {
    text::trimmed(file.content).len() > 0
}

/// Where the files with any text fit into the budget, exactly those are taken, whole and in
/// order.
pub proof fn law_within_budget_all_is_taken(files: Seq<MemoryLogView>, max_input_bytes: nat)
    requires
        super::input_size(files.filter(|file: MemoryLogView| has_text(file))) <= max_input_bytes,
    ensures
        gathered(files, max_input_bytes).logs == files.filter(|file: MemoryLogView| has_text(file)),
        !gathered(files, max_input_bytes).full,
    decreases files.len(),
{
    let pred = |file: MemoryLogView| has_text(file);
    reveal(Seq::filter);
    if files.len() > 0 {
        let before = files.drop_last();
        let kept = files.filter(pred);
        if pred(files.last()) {
            assert(kept.drop_last() =~= before.filter(pred));
            assert(super::input_size(kept) == super::input_size(before.filter(pred))
                + text::byte_len(files.last().content));
        }
        law_within_budget_all_is_taken(before, max_input_bytes);
        if pred(files.last()) {
            let left = max_input_bytes - super::input_size(before.filter(pred));
            limits::law_clipped(files.last().content, left);
            lemma_text_takes_bytes(files.last().content);
            assert(MemoryLogView { name: files.last().name, content: files.last().content }
                == files.last());
        }
    }
}

proof fn lemma_text_takes_bytes(s: Seq<char>)
    requires
        text::trimmed(s).len() > 0,
    ensures
        text::byte_len(s) > 0,
{
    text::lemma_trimmed_start_shape(s);
    text::lemma_trimmed_end_shape(text::trimmed_start(s));
}

/// Every log that is taken bears the name of a file that was read, has text in that file, and
/// holds the start of it.
pub proof fn law_logs_are_starts_of_files(files: Seq<MemoryLogView>, max_input_bytes: nat, i: int)
    requires
        0 <= i < gathered(files, max_input_bytes).logs.len(),
    ensures
        exists|j: int|
            0 <= j < files.len() && has_text(#[trigger] files[j]) && files[j].name == gathered(
                files,
                max_input_bytes,
            ).logs[i].name && gathered(files, max_input_bytes).logs[i].content.is_prefix_of(
                files[j].content,
            ),
    decreases files.len(),
{
    if files.len() > 0 {
        let before = files.drop_last();
        let taken = gathered(before, max_input_bytes);
        law_budget_is_kept(before, max_input_bytes);
        if i < taken.logs.len() {
            law_logs_are_starts_of_files(before, max_input_bytes, i);
            let j = choose|j: int|
                0 <= j < before.len() && has_text(#[trigger] before[j]) && before[j].name
                    == taken.logs[i].name && taken.logs[i].content.is_prefix_of(before[j].content);
            assert(files[j] == before[j]);
        } else {
            let left = max_input_bytes - input_size_of(taken);
            limits::law_clipped(files.last().content, left);
            assert(has_text(files[files.len() - 1]));
        }
    }
}

/// Files that are read later leave the logs that were taken before as they are.
pub proof fn law_earlier_logs_stay(files: Seq<MemoryLogView>, max_input_bytes: nat, n: int)
    requires
        0 <= n <= files.len(),
    ensures
        gathered(files.take(n), max_input_bytes).logs.is_prefix_of(
            gathered(files, max_input_bytes).logs,
        ),
    decreases files.len(),
{
    if n < files.len() {
        law_earlier_logs_stay(files.drop_last(), max_input_bytes, n);
        assert(files.drop_last().take(n) =~= files.take(n));
    } else {
        assert(files.take(n) =~= files);
        let logs = gathered(files, max_input_bytes).logs;
        assert(logs =~= logs.subrange(0, logs.len() as int));
    }
}

/// Whether a character may stand in a date.
spec fn date_char(c: char) -> bool {
    '0' <= c <= '9' || c == '-'
}

proof fn lemma_date_chars(time: Timestamp)
    ensures
        forall|i: int|
            0 <= i < clock::utc_date(time).len() ==> date_char(#[trigger] clock::utc_date(time)[i]),
{
    let (y, m, d) = clock::civil_of(time.day());
    let year = y as i32;
    let magnitude = if year < 0 {
        (-year) as nat
    } else {
        year as nat
    };
    text::lemma_decimal_is_digits(magnitude);
    text::lemma_decimal_is_digits(m as nat);
    text::lemma_decimal_is_digits(d as nat);
    text::lemma_zero_padded_is_digits(text::decimal(magnitude), 3);
    text::lemma_zero_padded_is_digits(text::decimal(magnitude), 4);
    text::lemma_zero_padded_is_digits(text::decimal(m as nat), 2);
    text::lemma_zero_padded_is_digits(text::decimal(d as nat), 2);
    let year_part = clock::year_text(year);
    assert forall|i: int| 0 <= i < year_part.len() implies date_char(#[trigger] year_part[i]) by {
        if year < 0 && i > 0 {
            assert(year_part[i] == text::zero_padded(text::decimal(magnitude), 3)[i - 1]);
        }
    }
}

/// The file that a note is appended to is one that a dream reads.
pub proof fn law_notes_are_read(time: Timestamp)
    ensures
        log_candidate(Some(log_file(clock::utc_date(time)))),
{
    let date = clock::utc_date(time);
    let name = date + ".md"@;
    lemma_date_len(time);
    lemma_date_chars(time);
    reveal_strlit(".md");
    reveal_strlit("MEMORY.md");
    reveal_strlit("CONSOLIDATED_MEMORY.md");
    reveal_strlit(".consolidate-lock");
    reveal_strlit(".last-dream");
    assert(date_char(date[0]));
    assert(name[0] == date[0]);
    let stem = date.push('.');
    assert(name =~= stem.push('m').push('d'));
    assert(name.drop_last() =~= stem.push('m'));
    assert(name.drop_last().drop_last() =~= stem);
    reveal_with_fuel(paths::behind_last_dot, 3);
    assert(paths::behind_last_dot(name) == stem.len());
    assert(name.skip(stem.len() as int) =~= seq!['m', 'd']);
}

/// The memory itself, its former form, the lock and the marker are never read as logs, in whatever
/// directory they lie.
pub proof fn law_own_files_are_not_read(name: Seq<char>)
    requires
        reserved_name(name),
    ensures
        !log_candidate(Some(name)),
{
}

/// Whether a name is that of a markdown file: something, a dot, and `md` in capitals or not.
pub open spec fn markdown_name(name: Seq<char>) -> bool {
    let n = name.len() as int;
    &&& n > 3
    &&& name[n - 3] == '.'
    &&& name[n - 2] == 'm' || name[n - 2] == 'M'
    &&& name[n - 1] == 'd' || name[n - 1] == 'D'
}

proof fn lemma_candidate(name: Seq<char>)
    ensures
        log_candidate(Some(name)) <==> markdown_name(name) && !reserved_name(name),
{
    paths::law_extension(name);
    let n = name.len() as int;
    if markdown_name(name) {
        let stem = name.take(n - 3);
        let ext = name.skip(n - 2);
        assert(name =~= stem + seq!['.'] + ext);
    }
    if paths::extension_of(name) is Some && paths::extension_of(name)->0.len() == 2 {
        let ext = paths::extension_of(name)->0;
        assert(ext[0] == name[n - 2] && ext[1] == name[n - 1]);
    }
}

/// A file may be a raw log exactly where its name is that of a markdown file, and is not one of
/// the four names that dreams use themselves.
pub proof fn law_markdown_files_are_logs(file_name: Option<&str>, yes: bool)
    requires
        call_ensures(is_memory_log_candidate, (file_name,), yes),
    ensures
        yes <==> {
            &&& file_name is Some
            &&& markdown_name(file_name->0@)
            &&& file_name->0@ != "MEMORY.md"@
            &&& file_name->0@ != "CONSOLIDATED_MEMORY.md"@
            &&& file_name->0@ != ".consolidate-lock"@
            &&& file_name->0@ != ".last-dream"@
        },
{
    if let Some(name) = file_name {
        lemma_candidate(name@);
    }
}

/// The files to read are those that may be raw logs, each once, and come newest first: none whose
/// time of change is later comes behind one whose time is earlier, in seconds and then in
/// nanoseconds, and of two of one time the one with the later name comes first.
pub proof fn law_queue_is_newest_first(
    entries: Vec<LogEntry>,
    max_input_bytes: usize,
    collection: LogCollection,
)
    requires
        call_ensures(LogCollection::start, (entries, max_input_bytes), collection),
    ensures
        ({
            let queue = collection.queue();
            &&& queue.to_multiset() == entries@.filter(
                |entry: LogEntry|
                    entry.file_name is Some && markdown_name(entry.file_name->0@)
                        && !reserved_name(entry.file_name->0@),
            ).to_multiset()
            &&& forall|i: int, j: int|
                0 <= i < j < queue.len() ==> (#[trigger] queue[i]).modified.instant() >= (
                #[trigger] queue[j]).modified.instant()
            &&& forall|i: int, j: int|
                0 <= i < j < queue.len() && (#[trigger] queue[i]).modified.nanos < 1_000_000_000 && (
                #[trigger] queue[j]).modified.nanos < 1_000_000_000 ==> queue[i].modified.secs
                    > queue[j].modified.secs || queue[i].modified.secs == queue[j].modified.secs
                    && queue[i].modified.nanos >= queue[j].modified.nanos
            &&& forall|i: int, j: int|
                0 <= i < j < queue.len() && (#[trigger] queue[i]).modified.instant() == (
                #[trigger] queue[j]).modified.instant() ==> text::text_le(
                    queue[j].name@,
                    queue[i].name@,
                )
        }),
{
    let queue = collection.queue();
    let a = |entry: LogEntry| log_candidate(text::optional_text(entry.file_name));
    let b = |entry: LogEntry|
        entry.file_name is Some && markdown_name(entry.file_name->0@) && !reserved_name(
            entry.file_name->0@,
        );
    assert forall|entry: LogEntry| #[trigger] a(entry) == b(entry) by {
        if let Some(name) = entry.file_name {
            lemma_candidate(name@);
        }
    }
    assert(a =~= b);
    assert forall|i: int, j: int| 0 <= i < j < queue.len() implies newer(
        #[trigger] queue[i],
        #[trigger] queue[j],
    ) by {
        assert(queue[i].ranks_before(queue[j]));
    }
}

proof fn lemma_greedy(files: Seq<MemoryLogView>, max_input_bytes: nat)
    ensures
        ({
            let kept = files.filter(|file: MemoryLogView| has_text(file));
            let taken = gathered(files, max_input_bytes);
            &&& taken.logs.len() <= kept.len()
            &&& taken.full <==> taken.logs.len() < kept.len()
            &&& taken.full ==> super::input_size(taken.logs) == max_input_bytes
            &&& forall|i: int|
                0 <= i < taken.logs.len() ==> {
                    &&& (#[trigger] taken.logs[i]).name == kept[i].name
                    &&& taken.logs[i].content == limits::clipped(
                        kept[i].content,
                        max_input_bytes - super::input_size(taken.logs.take(i)),
                    )
                }
        }),
    decreases files.len(),
{
    reveal(Seq::filter);
    let pred = |file: MemoryLogView| has_text(file);
    let taken = gathered(files, max_input_bytes);
    if files.len() > 0 {
        let before = files.drop_last();
        let old = gathered(before, max_input_bytes);
        lemma_greedy(before, max_input_bytes);
        law_budget_is_kept(before, max_input_bytes);
        let kept = files.filter(pred);
        let had = before.filter(pred);
        assert forall|i: int| 0 <= i < taken.logs.len() implies {
            &&& (#[trigger] taken.logs[i]).name == kept[i].name
            &&& taken.logs[i].content == limits::clipped(
                kept[i].content,
                max_input_bytes - super::input_size(taken.logs.take(i)),
            )
        } by {
            if i < old.logs.len() {
                assert(taken.logs.take(i) =~= old.logs.take(i));
                assert(taken.logs[i] == old.logs[i]);
                assert(kept[i] == had[i]);
            } else {
                assert(taken.logs.take(i) =~= old.logs);
                assert(kept[i] == files.last());
            }
        }
    }
}

/// The logs that are taken are the first of the files with text, none left out between them, each
/// as much of its file as the budget leaves after those before it; and no file with text is left
/// out while any of the budget is left.
pub proof fn law_logs_fill_the_budget(collection: LogCollection, logs: Vec<MemoryLog>)
    requires
        collection.wf(),
        call_ensures(LogCollection::finish, (collection,), logs),
    ensures
        ({
            let taken = super::log_views(logs@);
            let kept = collection.read().filter(|file: MemoryLogView| has_text(file));
            &&& taken.len() <= kept.len()
            &&& taken.len() < kept.len() ==> super::input_size(taken) == collection.budget()
            &&& forall|i: int|
                0 <= i < taken.len() ==> {
                    &&& (#[trigger] taken[i]).name == kept[i].name
                    &&& taken[i].content.is_prefix_of(kept[i].content)
                    &&& taken[i].content == limits::clipped(
                        kept[i].content,
                        collection.budget() - super::input_size(taken.take(i)),
                    )
                }
        }),
{
    let taken = super::log_views(logs@);
    lemma_greedy(collection.read(), collection.budget());
    assert forall|i: int| 0 <= i < taken.len() implies (
    #[trigger] taken[i]).content.is_prefix_of(
        collection.read().filter(|file: MemoryLogView| has_text(file))[i].content,
    ) by {
        let kept = collection.read().filter(|file: MemoryLogView| has_text(file));
        lemma_sizes_grow(taken, i);
        limits::law_clipped(
            kept[i].content,
            collection.budget() - super::input_size(taken.take(i)),
        );
    }
}

proof fn lemma_sizes_grow(logs: Seq<MemoryLogView>, n: int)
    requires
        0 <= n <= logs.len(),
    ensures
        super::input_size(logs.take(n)) <= super::input_size(logs),
    decreases logs.len(),
{
    if n < logs.len() {
        lemma_sizes_grow(logs.drop_last(), n);
        assert(logs.drop_last().take(n) =~= logs.take(n));
    } else {
        assert(logs.take(n) =~= logs);
    }
}

/// A file has text where any of its characters is no white space.
pub proof fn law_text_is_more_than_white_space(file: MemoryLogView)
    ensures
        has_text(file) <==> exists|i: int|
            0 <= i < file.content.len() && !text::white(#[trigger] file.content[i]),
{
    text::law_trimmed_empty_iff_blank(file.content);
}

/// A note is appended as it is, but for the white space around it, on a line of its own behind a
/// dash, and goes to the log of its day, which lies in the directories of its year and month.
pub proof fn law_note_is_appended_whole<P>(
    memory_dir: P,
    note: &str,
    now: &Timestamp,
    r: Result<LogAppend<P>, DreamerError>,
)
    requires
        call_ensures(append_daily_log::<P>, (memory_dir, note, now), r),
    ensures
        r is Err <==> text::blank(note@),
        r is Ok ==> {
            &&& r->Ok_0.memory_dir == memory_dir
            &&& r->Ok_0.entry@ == seq!['\n', '-', ' '] + text::trimmed(note@) + seq!['\n']
            &&& r->Ok_0.file@ == clock::utc_date(*now) + ".md"@
            &&& r->Ok_0.directories@.len() == 3
            &&& r->Ok_0.directories@[0]@ == "logs"@
            &&& r->Ok_0.directories@[1]@ == clock::utc_date(*now).take(4)
            &&& r->Ok_0.directories@[2]@ == clock::utc_date(*now).subrange(5, 7)
        },
{
    text::law_trimmed_empty_iff_blank(note@);
    reveal_strlit("\n- ");
    reveal_strlit("\n");
    if r is Ok {
        let directories = r->Ok_0.directories@;
        let names = text::texts(directories);
        assert("\n- "@ =~= seq!['\n', '-', ' ']);
        assert("\n"@ =~= seq!['\n']);
        assert(names.len() == 3);
        assert(names[0] == directories[0]@);
        assert(names[1] == directories[1]@);
        assert(names[2] == directories[2]@);
        lemma_date_len(*now);
        assert(clock::utc_date(*now).take(4) =~= clock::utc_date(*now).subrange(0, 4));
    }
}

/// Notes of one day go to one log, and those of different days to different ones.
pub proof fn law_one_log_per_day(a: Timestamp, b: Timestamp)
    requires
        clock::civil_of(a.day()).0 <= i32::MAX,
        clock::civil_of(b.day()).0 <= i32::MAX,
    ensures
        log_file(clock::utc_date(a)) == log_file(clock::utc_date(b)) <==> a.day() == b.day(),
{
    clock::law_one_text_per_day(a, b);
    let s = clock::utc_date(a);
    let t = clock::utc_date(b);
    if a.day() == b.day() {
        assert(s == t);
    }
    if log_file(s) == log_file(t) {
        lemma_same_start(s, t, ".md"@);
        assert(s == t);
    }
}

proof fn lemma_same_start(s: Seq<char>, t: Seq<char>, end: Seq<char>)
    requires
        s + end == t + end,
    ensures
        s == t,
{
    assert((s + end).len() == (t + end).len());
    assert(s =~= (s + end).take(s.len() as int));
    assert(t =~= (t + end).take(t.len() as int));
}

/// An entry keeps the time of change of its file to the nanosecond, its name, and its number, and
/// has the path for a label, with slashes.
pub proof fn law_entry_keeps_what_it_is_made_of(
    modified: Timestamp,
    relative: &str,
    file_name: Option<String>,
    file: usize,
    entry: LogEntry,
)
    requires
        call_ensures(LogEntry::new, (modified, relative, file_name, file), entry),
    ensures
        entry.modified.secs == modified.secs,
        entry.modified.nanos == modified.nanos,
        entry.file_name == file_name,
        entry.file == file,
        entry.name@.len() == relative@.len(),
        forall|i: int|
            0 <= i < relative@.len() ==> #[trigger] entry.name@[i] == if relative@[i] == '\\' {
                '/'
            } else {
                relative@[i]
            },
{
}

/// The file to read next is the one behind those that were read; and there is none only where every
/// file was read, or the budget is spent and a file with text had to be turned away.
pub proof fn law_reading_goes_on(collection: &LogCollection, entry: Option<&LogEntry>)
    requires
        collection.wf(),
        call_ensures(LogCollection::next_entry, (collection,), entry),
    ensures
        entry is Some ==> {
            &&& collection.read().len() < collection.queue().len()
            &&& *entry->0 == collection.queue()[collection.read().len() as int]
        },
        entry is None ==> {
            let kept = collection.read().filter(|file: MemoryLogView| has_text(file));
            let taken = gathered(collection.read(), collection.budget()).logs;
            ||| collection.read().len() == collection.queue().len()
            ||| taken.len() < kept.len() && super::input_size(taken) == collection.budget()
        },
{
    collection.law_files_are_read_in_order();
    lemma_greedy(collection.read(), collection.budget());
}

/// The text of a file is taken as it is, under the label of its entry, behind those that were read
/// before, which stay.
pub proof fn law_file_is_taken_as_it_is(collection: &mut LogCollection, content: &str)
    requires
        call_ensures(LogCollection::supply, (collection, content), ()),
    ensures
        ({
            let n = old(collection).read().len() as int;
            &&& final(collection).queue() == old(collection).queue()
            &&& final(collection).budget() == old(collection).budget()
            &&& final(collection).read().len() == n + 1
            &&& final(collection).read().take(n) == old(collection).read()
            &&& final(collection).read()[n].name == old(collection).queue()[n].name@
            &&& final(collection).read()[n].content == content@
        }),
{
    let n = old(collection).read().len() as int;
    assert(final(collection).read().take(n) =~= old(collection).read());
}

/// The reading begins with nothing read and with the budget that is given.
pub proof fn law_reading_begins(
    entries: Vec<LogEntry>,
    max_input_bytes: usize,
    collection: LogCollection,
)
    requires
        call_ensures(LogCollection::start, (entries, max_input_bytes), collection),
    ensures
        collection.read().len() == 0,
        collection.budget() == max_input_bytes,
        collection.wf(),
{
}

} // verus!
