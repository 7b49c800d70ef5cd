//! The files in a model's reply: reading them, holding them to the rules, planning the writes.
use vstd::prelude::*;

use super::{
    DreamerError, DreamerErrorView, DreamerFileOutput, DreamerFileOutputView, MEMORY_FILENAME,
};
use crate::paths;
use crate::paths::PathStyle;
use crate::text;

verus! {

broadcast use vstd::seq::group_seq_axioms;

// ---------------------------------------------------------------------------
// File blocks
// ---------------------------------------------------------------------------

/// The path that a line names if it opens a file block: `--- FILE: path ---`.
pub open spec fn marker_path(line: Seq<char>) -> Option<Seq<char>> {
    let whole = text::trimmed(line);
    let rest = whole.skip("--- FILE: "@.len() as int);
    let path = text::trimmed(rest.take(rest.len() - " ---"@.len()));
    if "--- FILE: "@.is_prefix_of(whole) && " ---"@.is_suffix_of(rest) && path.len() > 0 {
        Some(path)
    } else {
        None
    }
}

/// Whether a line opens a file block.
pub open spec fn opens_block(line: Seq<char>) -> bool {
    marker_path(line) is Some
}

/// Whether a line closes a file block.
pub open spec fn closes_block(line: Seq<char>) -> bool {
    text::trimmed(line) == "--- END FILE ---"@
}

/// The index, from `i` on, of the first line that ends a file block: one that closes it or
/// opens the next. The number of lines where none does.
pub open spec fn block_end(lines: Seq<Seq<char>>, i: int) -> int
    decreases lines.len() - i,
{
    if i >= lines.len() || opens_block(lines[i]) || closes_block(lines[i]) {
        i
    } else {
        block_end(lines, i + 1)
    }
}

/// The file of the block that the line at `i` opens: the lines up to the end of the block,
/// without white space around them.
pub open spec fn block_file(lines: Seq<Seq<char>>, i: int) -> DreamerFileOutputView {
    DreamerFileOutputView {
        path: marker_path(lines[i])->0,
        markdown: text::trimmed(
            text::terminated(lines.subrange(i + 1, block_end(lines, i + 1))),
        ),
    }
}

/// The files of the blocks that open at or after line `i`, in order.
pub open spec fn block_files(lines: Seq<Seq<char>>, i: int) -> Seq<DreamerFileOutputView>
    decreases lines.len() - i,
{
    if i >= lines.len() {
        Seq::empty()
    } else if opens_block(lines[i]) {
        seq![block_file(lines, i)] + block_files(lines, i + 1)
    } else {
        block_files(lines, i + 1)
    }
}

/// Whether any of the lines opens a file block.
pub open spec fn any_block(lines: Seq<Seq<char>>) -> bool {
    exists|i: int| 0 <= i < lines.len() && opens_block(#[trigger] lines[i])
}

/// Why a path may not be written, if it may not.
pub open spec fn path_fault(style: PathStyle, path: Seq<char>) -> Option<Seq<char>> {
    if paths::absolute(style, path) {
        Some("absolute output path is not allowed: "@ + path)
    } else if paths::lone_name(style, path) is None {
        Some("output path must be a root-level file: "@ + path)
    } else if paths::extension_of(paths::lone_name(style, path)->0) != Some("md"@) {
        Some("output path must be markdown: "@ + path)
    } else {
        None
    }
}

/// Why the first of the files whose path may not be written may not be, if there is one.
pub open spec fn first_path_fault(
    style: PathStyle,
    files: Seq<DreamerFileOutputView>,
) -> Option<Seq<char>>
    decreases files.len(),
{
    if files.len() == 0 {
        None
    } else {
        match path_fault(style, files[0].path) {
            Some(message) => Some(message),
            None => first_path_fault(style, files.drop_first()),
        }
    }
}

/// The files in a model's reply: those of its file blocks, or, without any, the whole reply
/// as `MEMORY.md`.
pub open spec fn parsed_output(style: PathStyle, raw: Seq<char>) -> Result<
    Seq<DreamerFileOutputView>,
    DreamerErrorView,
> {
    let whole = text::trimmed(raw);
    let lines = text::lines_of(whole);
    if whole.len() == 0 {
        Err(DreamerErrorView::InvalidOutput("model returned empty text"@))
    } else if any_block(lines) {
        match first_path_fault(style, block_files(lines, 0)) {
            Some(message) => Err(DreamerErrorView::InvalidOutput(message)),
            None => Ok(block_files(lines, 0)),
        }
    } else {
        Ok(seq![DreamerFileOutputView { path: MEMORY_FILENAME@, markdown: whole }])
    }
}

/// What a list of files, or the error in its place, holds.
pub open spec fn files_view(result: Result<Vec<DreamerFileOutput>, DreamerError>) -> Result<
    Seq<DreamerFileOutputView>,
    DreamerErrorView,
> {
    match result {
        Ok(files) => Ok(super::file_views(files@)),
        Err(error) => Err(error@),
    }
}

/// The path that a line names if it opens a file block.
pub fn parse_file_marker(line: &str) -> (path: Option<String>)
    ensures
        text::optional_text(path) == marker_path(line@),
{
    let whole = text::trim(line);
    match text::strip_prefix(whole.as_str(), "--- FILE: ") {
        None => None,
        Some(rest) => match text::strip_suffix(rest.as_str(), " ---") {
            None => None,
            Some(inner) => {
                let path = text::trim(inner.as_str());
                if path.as_str().is_empty() {
                    None
                } else {
                    Some(path)
                }
            },
        },
    }
}

/// Holds a path to the rules for files that a dream may write.
pub fn validate_output_path(path: &str, style: PathStyle) -> (r: Result<(), DreamerError>)
    ensures
        match path_fault(style, path@) {
            Some(message) => r is Err && r->Err_0@ == DreamerErrorView::InvalidOutput(message),
            None => r is Ok,
        },
{
    if paths::is_absolute(path, style) {
        return Err(
            DreamerError::InvalidOutput(
                text::concat("absolute output path is not allowed: ", path),
            ),
        );
    }
    let name = match paths::single_name(path, style) {
        Some(name) => name,
        None => return Err(
            DreamerError::InvalidOutput(
                text::concat("output path must be a root-level file: ", path),
            ),
        ),
    };
    let markdown = match paths::extension(name.as_str()) {
        Some(ext) => text::text_eq(ext.as_str(), "md"),
        None => false,
    };
    if markdown {
        Ok(())
    } else {
        Err(DreamerError::InvalidOutput(text::concat("output path must be markdown: ", path)))
    }
}

/// The file of a block that was opened earlier, whose text starts at line `start`, as it will
/// be when the end of the block is found from line `i` on; none where no block is open.
spec fn pending_file(
    path: Option<Seq<char>>,
    lines: Seq<Seq<char>>,
    start: int,
    i: int,
) -> Seq<DreamerFileOutputView> {
    match path {
        Some(path) => seq![
            DreamerFileOutputView {
                path,
                markdown: text::trimmed(
                    text::terminated(lines.subrange(start, block_end(lines, i))),
                ),
            },
        ],
        None => Seq::empty(),
    }
}

/// Reads the files in a model's reply.
pub fn parse_dream_output(raw: &str, style: PathStyle) -> (r: Result<
    Vec<DreamerFileOutput>,
    DreamerError,
>)
    ensures
        files_view(r) == parsed_output(style, raw@),
{
    let whole = text::trim(raw);
    if whole.as_str().is_empty() {
        return Err(DreamerError::InvalidOutput("model returned empty text".to_owned()));
    }
    let lines = text::lines(whole.as_str());
    let ghost ls = text::texts(lines@);
    let mut files: Vec<DreamerFileOutput> = Vec::new();
    let mut current_path: Option<String> = None;
    let mut current_body: String = String::new();
    let mut saw_file_marker: bool = false;
    let ghost mut start: int = 0;
    let mut i: usize = 0;
    proof {
        assert(super::file_views(files@) + Seq::empty() + block_files(ls, 0) =~= block_files(
            ls,
            0,
        ));
    }
    while i < lines.len()
        invariant
            i <= lines@.len(),
            ls == text::texts(lines@),
            saw_file_marker <==> exists|j: int| 0 <= j < i && opens_block(#[trigger] ls[j]),
            current_path is Some ==> {
                &&& 0 <= start <= i
                &&& current_body@ == text::terminated(ls.subrange(start, i as int))
            },
            current_path is None ==> current_body@.len() == 0,
            block_files(ls, 0) == super::file_views(files@) + pending_file(
                text::optional_text(current_path),
                ls,
                start,
                i as int,
            ) + block_files(ls, i as int),
        decreases lines@.len() - i,
    {
        let line = lines[i].as_str();
        let ghost done = super::file_views(files@);
        let ghost open_path = text::optional_text(current_path);
        let ghost pending = pending_file(open_path, ls, start, i as int);
        proof {
            assert(line@ == ls[i as int]);
            if opens_block(ls[i as int]) || closes_block(ls[i as int]) {
                assert(block_end(ls, i as int) == i);
            }
        }
        if let Some(path) = parse_file_marker(line) {
            saw_file_marker = true;
            let ghost rest = block_files(ls, i + 1);
            if let Some(finished) = current_path.take() {
                files.push(
                    DreamerFileOutput {
                        path: finished,
                        markdown: text::trim(current_body.as_str()),
                    },
                );
                current_body = String::new();
            }
            proof {
                assert(super::file_views(files@) =~= done + pending);
                start = i + 1;
                assert(ls.subrange(start, start) =~= Seq::empty());
                assert(block_files(ls, i as int) == seq![block_file(ls, i as int)] + rest);
                assert(done + pending + (seq![block_file(ls, i as int)] + rest) =~= (done + pending)
                    + seq![block_file(ls, i as int)] + rest);
            }
            current_path = Some(path);
        } else if text::text_eq(text::trim(line).as_str(), "--- END FILE ---") {
            if let Some(finished) = current_path.take() {
                files.push(
                    DreamerFileOutput {
                        path: finished,
                        markdown: text::trim(current_body.as_str()),
                    },
                );
                current_body = String::new();
            }
            proof {
                assert(super::file_views(files@) =~= done + pending);
                assert(done + pending + block_files(ls, i as int) =~= (done + pending)
                    + Seq::empty() + block_files(ls, i + 1));
            }
        } else if current_path.is_some() {
            current_body.append(line);
            current_body.push('\n');
            proof {
                let body = ls.subrange(start, i + 1);
                assert(body.drop_last() =~= ls.subrange(start, i as int));
                assert(body.last() == line@);
                assert(current_body@ =~= text::terminated(body.drop_last()) + line@.push('\n'));
            }
        }
        i = i + 1;
    }
    let ghost done = super::file_views(files@);
    let ghost pending = pending_file(text::optional_text(current_path), ls, start, i as int);
    if let Some(finished) = current_path {
        files.push(
            DreamerFileOutput { path: finished, markdown: text::trim(current_body.as_str()) },
        );
    }
    proof {
        assert(super::file_views(files@) =~= done + pending + block_files(ls, i as int));
    }
    if saw_file_marker {
        let mut k: usize = 0;
        proof {
            let views = super::file_views(files@);
            assert(views.skip(0) =~= views);
        }
        while k < files.len()
            invariant
                k <= files@.len(),
                first_path_fault(style, super::file_views(files@)) == first_path_fault(
                    style,
                    super::file_views(files@).skip(k as int),
                ),
                parsed_output(style, raw@) == (match first_path_fault(
                    style,
                    super::file_views(files@),
                ) {
                    Some(message) => Err(DreamerErrorView::InvalidOutput(message)),
                    None => Ok(super::file_views(files@)),
                }),
            decreases files@.len() - k,
        {
            proof {
                let rest = super::file_views(files@).skip(k as int);
                assert(rest[0] == files@[k as int]@);
                assert(rest.drop_first() =~= super::file_views(files@).skip(k + 1));
            }
            validate_output_path(files[k].path.as_str(), style)?;
            k = k + 1;
        }
        return Ok(files);
    }
    let mut whole_reply: Vec<DreamerFileOutput> = Vec::new();
    whole_reply.push(DreamerFileOutput { path: MEMORY_FILENAME.to_owned(), markdown: whole });
    proof {
        assert(super::file_views(whole_reply@) =~= seq![
            DreamerFileOutputView { path: MEMORY_FILENAME@, markdown: whole@ },
        ]);
    }
    Ok(whole_reply)
}

// ---------------------------------------------------------------------------
// The memory file
// ---------------------------------------------------------------------------

/// Whether a path leads to `MEMORY.md` at the root of the memory directory.
pub open spec fn is_memory_path(style: PathStyle, path: Seq<char>) -> bool {
    paths::lone_name(style, path) == Some(MEMORY_FILENAME@)
}

/// The markdown of the first file that is `MEMORY.md`, if there is one.
pub open spec fn memory_markdown(
    style: PathStyle,
    files: Seq<DreamerFileOutputView>,
) -> Option<Seq<char>>
    decreases files.len(),
{
    if files.len() == 0 {
        None
    } else if is_memory_path(style, files[0].path) {
        Some(files[0].markdown)
    } else {
        memory_markdown(style, files.drop_first())
    }
}

/// Whether a path leads to `MEMORY.md` at the root of the memory directory.
pub fn leads_to_memory(path: &str, style: PathStyle) -> (yes: bool)
    ensures
        yes == is_memory_path(style, path@),
{
    match paths::single_name(path, style) {
        Some(name) => text::text_eq(name.as_str(), MEMORY_FILENAME),
        None => false,
    }
}

/// The markdown of the first file that is `MEMORY.md`, if there is one.
pub fn find_memory_markdown(files: &Vec<DreamerFileOutput>, style: PathStyle) -> (markdown: Option<
    String,
>)
    ensures
        text::optional_text(markdown) == memory_markdown(style, super::file_views(files@)),
{
    let mut k: usize = 0;
    let ghost views = super::file_views(files@);
    proof {
        assert(views.skip(0) =~= views);
    }
    while k < files.len()
        invariant
            k <= files@.len(),
            views == super::file_views(files@),
            memory_markdown(style, views) == memory_markdown(style, views.skip(k as int)),
        decreases files@.len() - k,
    {
        proof {
            assert(views.skip(k as int)[0] == files@[k as int]@);
            assert(views.skip(k as int).drop_first() =~= views.skip(k + 1));
        }
        if leads_to_memory(files[k].path.as_str(), style) {
            return Some(files[k].markdown.clone());
        }
        k = k + 1;
    }
    None
}

/// Whether a line is a markdown heading.
pub open spec fn heading(line: Seq<char>) -> bool {
    text::trimmed_start(line).len() > 0 && text::trimmed_start(line)[0] == '#'
}

/// Why a text may not become the memory, if it may not.
pub open spec fn memory_fault(markdown: Seq<char>) -> Option<Seq<char>> {
    let lines = text::lines_of(text::trimmed(markdown));
    if text::trimmed(markdown).len() == 0 {
        Some("MEMORY.md output is empty"@)
    } else if !exists|i: int| 0 <= i < lines.len() && heading(#[trigger] lines[i]) {
        Some("MEMORY.md output has no markdown heading"@)
    } else {
        None
    }
}

/// Holds a text to the rules for the memory: it has a heading.
pub fn validate_memory_markdown(markdown: &str) -> (r: Result<(), DreamerError>)
    ensures
        match memory_fault(markdown@) {
            Some(message) => r is Err && r->Err_0@ == DreamerErrorView::InvalidOutput(message),
            None => r is Ok,
        },
{
    let whole = text::trim(markdown);
    if whole.as_str().is_empty() {
        return Err(DreamerError::InvalidOutput("MEMORY.md output is empty".to_owned()));
    }
    let lines = text::lines(whole.as_str());
    let ghost ls = text::texts(lines@);
    let mut i: usize = 0;
    while i < lines.len()
        invariant
            i <= lines@.len(),
            ls == text::texts(lines@),
            forall|k: int| 0 <= k < i ==> !heading(#[trigger] ls[k]),
            ls == text::lines_of(text::trimmed(markdown@)),
            text::trimmed(markdown@).len() > 0,
        decreases lines@.len() - i,
    {
        let start = text::to_chars(text::trim_start(lines[i].as_str()).as_str());
        proof {
            assert(ls[i as int] == lines@[i as int]@);
        }
        if start.len() > 0 && start[0] == '#' {
            return Ok(());
        }
        i = i + 1;
    }
    Err(DreamerError::InvalidOutput("MEMORY.md output has no markdown heading".to_owned()))
}

// ---------------------------------------------------------------------------
// Writing
// ---------------------------------------------------------------------------

/// `markdown` with a line feed at its end.
pub open spec fn newline_ended(markdown: Seq<char>) -> Seq<char> {
    if markdown.len() > 0 && markdown.last() == '\n' {
        markdown
    } else {
        markdown.push('\n')
    }
}

/// `markdown` with a line feed at its end.
pub fn ensure_trailing_newline(markdown: &str) -> (r: String)
    ensures
        r@ == newline_ended(markdown@),
{
    let mut r: String = markdown.to_owned();
    if !text::ends_with_char(markdown, '\n') {
        r.push('\n');
    }
    r
}

/// A file to write.
#[derive(Debug, Clone, PartialEq, Eq)]
pub struct FileWrite {
    /// The path below the memory directory.
    pub path: String,
    pub contents: String,
}

/// What a file to write holds.
#[verifier::ext_equal]
pub struct FileWriteView {
    pub path: Seq<char>,
    pub contents: Seq<char>,
}

impl View for FileWrite {
    type V = FileWriteView;

    open spec fn view(&self) -> FileWriteView {
        FileWriteView { path: self.path@, contents: self.contents@ }
    }
}

/// What the files of a sequence hold.
pub open spec fn write_views(writes: Seq<FileWrite>) -> Seq<FileWriteView> {
    Seq::new(writes.len(), |i: int| writes[i]@)
}

/// How the files of a dream are written: first the directory is created; then, if there is no
/// failure, every file is written below it. With a failure no file is.
#[derive(Debug, Clone, PartialEq, Eq)]
pub struct WritePlan<P> {
    pub directory: P,
    pub writes: Vec<FileWrite>,
    pub failure: Option<DreamerError>,
}

/// Why a file of a dream may not be written, if it may not.
pub open spec fn file_fault(style: PathStyle, file: DreamerFileOutputView) -> Option<Seq<char>> {
    match path_fault(style, file.path) {
        Some(message) => Some(message),
        None => if text::trimmed(file.markdown).len() == 0 {
            Some(file.path + " is empty"@)
        } else {
            None
        },
    }
}

/// The file to write for a file of a dream.
pub open spec fn write_of(file: DreamerFileOutputView) -> FileWriteView {
    FileWriteView { path: file.path, contents: newline_ended(file.markdown) }
}

/// How many of the files come before the first that may not be written.
pub open spec fn writable(style: PathStyle, files: Seq<DreamerFileOutputView>) -> nat
    decreases files.len(),
{
    if files.len() == 0 || file_fault(style, files[0]) is Some {
        0
    } else {
        1 + writable(style, files.drop_first())
    }
}

/// The files to write for those of a dream: all of them, or none where one may not be written.
pub open spec fn planned_writes(
    style: PathStyle,
    files: Seq<DreamerFileOutputView>,
) -> Seq<FileWriteView> {
    if planned_failure(style, files) is Some {
        Seq::empty()
    } else {
        Seq::new(files.len(), |i: int| write_of(files[i]))
    }
}

/// The error in place of the writing of a dream's files: that of the first which may not be
/// written, if there is one.
pub open spec fn planned_failure(style: PathStyle, files: Seq<DreamerFileOutputView>) -> Option<
    DreamerErrorView,
> {
    let n = writable(style, files) as int;
    if n < files.len() {
        Some(DreamerErrorView::InvalidOutput(file_fault(style, files[n])->0))
    } else {
        None
    }
}

/// What the failure of a plan holds.
pub open spec fn failure_view(failure: Option<DreamerError>) -> Option<DreamerErrorView> {
    match failure {
        Some(error) => Some(error@),
        None => None,
    }
}

pub proof fn lemma_writable_at(style: PathStyle, files: Seq<DreamerFileOutputView>, n: int)
    requires
        0 <= n <= files.len(),
        forall|i: int| 0 <= i < n ==> file_fault(style, #[trigger] files[i]) is None,
        n == files.len() || file_fault(style, files[n]) is Some,
    ensures
        writable(style, files) == n,
    decreases n,
{
    if n > 0 {
        let rest = files.drop_first();
        assert(file_fault(style, files[0]) is None);
        assert forall|i: int| 0 <= i < n - 1 implies file_fault(style, #[trigger] rest[i]) is None by {
            assert(rest[i] == files[i + 1]);
        }
        lemma_writable_at(style, rest, n - 1);
    }
}

pub proof fn lemma_writable_shape(style: PathStyle, files: Seq<DreamerFileOutputView>)
    ensures
        writable(style, files) <= files.len(),
        forall|i: int|
            0 <= i < writable(style, files) ==> file_fault(style, #[trigger] files[i]) is None,
        writable(style, files) < files.len() ==> file_fault(
            style,
            files[writable(style, files) as int],
        ) is Some,
    decreases files.len(),
{
    if files.len() > 0 && file_fault(style, files[0]) is None {
        let rest = files.drop_first();
        lemma_writable_shape(style, rest);
        assert forall|i: int| 0 <= i < writable(style, files) implies file_fault(
            style,
            #[trigger] files[i],
        ) is None by {
            if i > 0 {
                assert(rest[i - 1] == files[i]);
            }
        }
    }
}

/// Plans the writes of a dream's files. Every file is held to the rules before any is written.
pub fn plan_writes(output: &super::DreamerOutput, style: PathStyle) -> (r: Result<
    Vec<FileWrite>,
    DreamerError,
>)
    ensures
        match planned_failure(style, output@.files) {
            Some(error) => r is Err && r->Err_0@ == error,
            None => r is Ok && write_views(r->Ok_0@) == planned_writes(style, output@.files),
        },
{
    let mut writes: Vec<FileWrite> = Vec::new();
    let ghost files = output@.files;
    let mut k: usize = 0;
    while k < output.files.len()
        invariant
            k <= output.files@.len(),
            files == super::file_views(output.files@),
            files == output@.files,
            writes@.len() == k,
            forall|i: int| 0 <= i < k ==> file_fault(style, #[trigger] files[i]) is None,
            forall|i: int| 0 <= i < k ==> (#[trigger] writes@[i])@ == write_of(files[i]),
        decreases output.files@.len() - k,
    {
        let file = &output.files[k];
        proof {
            assert(files[k as int] == file@);
        }
        if let Err(error) = validate_output_path(file.path.as_str(), style) {
            proof {
                lemma_writable_at(style, files, k as int);
            }
            return Err(error);
        }
        if text::trim(file.markdown.as_str()).as_str().is_empty() {
            proof {
                lemma_writable_at(style, files, k as int);
            }
            return Err(
                DreamerError::InvalidOutput(text::concat(file.path.as_str(), " is empty")),
            );
        }
        let write = FileWrite {
            path: file.path.clone(),
            contents: ensure_trailing_newline(file.markdown.as_str()),
        };
        writes.push(write);
        k = k + 1;
    }
    proof {
        lemma_writable_at(style, files, k as int);
        assert(write_views(writes@) =~= planned_writes(style, files));
    }
    Ok(writes)
}

/// Plans the writes of a dream's files to the memory directory.
pub fn write_consolidated_memory<P>(
    output: &super::DreamerOutput,
    memory_dir: P,
    style: PathStyle,
) -> (plan: WritePlan<P>)
    ensures
        plan.directory == memory_dir,
        write_views(plan.writes@) == planned_writes(style, output@.files),
        failure_view(plan.failure) == planned_failure(style, output@.files),
{
    match plan_writes(output, style) {
        Ok(writes) => WritePlan { directory: memory_dir, writes, failure: None },
        Err(error) => {
            let writes: Vec<FileWrite> = Vec::new();
            proof {
                assert(write_views(writes@) =~= planned_writes(style, output@.files));
            }
            WritePlan { directory: memory_dir, writes, failure: Some(error) }
        },
    }
}

// ---------------------------------------------------------------------------
// Laws
// ---------------------------------------------------------------------------

/// A reply yields a file exactly where one of its lines opens a block.
pub proof fn law_blocks_give_files(lines: Seq<Seq<char>>, i: int)
    requires
        0 <= i <= lines.len(),
    ensures
        block_files(lines, i).len() > 0 <==> exists|j: int|
            i <= j < lines.len() && opens_block(#[trigger] lines[j]),
    decreases lines.len() - i,
{
    if i < lines.len() {
        law_blocks_give_files(lines, i + 1);
        if opens_block(lines[i]) {
        } else {
            assert forall|j: int| i <= j < lines.len() && opens_block(#[trigger] lines[j]) implies i
                + 1 <= j by {}
        }
    }
}

/// The files that are read from a reply are never none, and none of their paths is one that
/// may not be written.
pub proof fn law_parsed_files_may_be_written(style: PathStyle, raw: Seq<char>)
    requires
        parsed_output(style, raw) is Ok,
    ensures
        parsed_output(style, raw)->Ok_0.len() > 0,
        forall|i: int|
            0 <= i < parsed_output(style, raw)->Ok_0.len() ==> path_fault(
                style,
                (#[trigger] parsed_output(style, raw)->Ok_0[i]).path,
            ) is None,
{
    let lines = text::lines_of(text::trimmed(raw));
    if any_block(lines) {
        let files = block_files(lines, 0);
        law_blocks_give_files(lines, 0);
        lemma_no_path_fault(style, files);
    } else {
        lemma_memory_path_may_be_written(style);
    }
}

proof fn lemma_no_path_fault(style: PathStyle, files: Seq<DreamerFileOutputView>)
    requires
        first_path_fault(style, files) is None,
    ensures
        forall|i: int|
            0 <= i < files.len() ==> path_fault(style, (#[trigger] files[i]).path) is None,
    decreases files.len(),
{
    if files.len() > 0 {
        let rest = files.drop_first();
        lemma_no_path_fault(style, rest);
        assert forall|i: int| 0 <= i < files.len() implies path_fault(
            style,
            (#[trigger] files[i]).path,
        ) is None by {
            if i > 0 {
                assert(rest[i - 1] == files[i]);
            }
        }
    }
}

pub proof fn lemma_memory_path_may_be_written(style: PathStyle)
    ensures
        path_fault(style, MEMORY_FILENAME@) is None,
        is_memory_path(style, MEMORY_FILENAME@),
{
    let name = MEMORY_FILENAME@;
    reveal_strlit("MEMORY.md");
    reveal_strlit("md");
    assert(paths::plain_name(style, name)) by {
        assert(seq!['.'].len() == 1);
        assert(seq!['.', '.'].len() == 2);
    }
    paths::law_plain_name_is_alone(style, name);
    paths::law_lone_name_is_plain(style, name);
    reveal_with_fuel(paths::behind_last_dot, 3);
    assert(name.drop_last().drop_last().last() == '.');
    assert(paths::behind_last_dot(name) == 7);
    assert(name.skip(7) =~= "md"@);
}

/// Every file that is planned for a dream lies directly in the memory directory: its path is not
/// absolute and is one name alone, which has no separator, does not lead to the directory itself
/// or to the one above, and ends with `.md`.
pub proof fn law_writes_stay_in_the_memory_directory(
    style: PathStyle,
    files: Seq<DreamerFileOutputView>,
    i: int,
)
    requires
        0 <= i < planned_writes(style, files).len(),
    ensures
        ({
            let path = planned_writes(style, files)[i].path;
            let name = paths::lone_name(style, path);
            &&& !paths::absolute(style, path)
            &&& name is Some
            &&& paths::plain_name(style, name->0)
            &&& paths::extension_of(name->0) == Some("md"@)
        }),
{
    lemma_writable_shape(style, files);
    let path = files[i].path;
    assert(file_fault(style, files[i]) is None);
    assert(path_fault(style, path) is None);
    paths::law_lone_name_is_plain(style, path);
}

/// What is written to a file ends with a line feed, and is the text of the file but for that.
pub proof fn law_written_texts_end_with_a_line_feed(markdown: Seq<char>)
    ensures
        newline_ended(markdown).len() > 0,
        newline_ended(markdown).last() == '\n',
        markdown.is_prefix_of(newline_ended(markdown)),
        newline_ended(newline_ended(markdown)) == newline_ended(markdown),
{
    assert(markdown =~= newline_ended(markdown).subrange(0, markdown.len() as int));
}

/// Where every file of a dream may be written and one of them is the memory, the memory is
/// written.
pub proof fn law_memory_is_written(style: PathStyle, files: Seq<DreamerFileOutputView>)
    requires
        memory_markdown(style, files) is Some,
        planned_failure(style, files) is None,
    ensures
        exists|i: int|
            #![trigger planned_writes(style, files)[i]]
            0 <= i < planned_writes(style, files).len() && planned_writes(style, files)[i].contents
                == newline_ended(memory_markdown(style, files)->0) && is_memory_path(
                style,
                planned_writes(style, files)[i].path,
            ),
{
    lemma_writable_shape(style, files);
    let i = lemma_memory_file(style, files);
    assert(writable(style, files) == files.len());
    assert(planned_writes(style, files)[i] == write_of(files[i]));
}

proof fn lemma_memory_file(style: PathStyle, files: Seq<DreamerFileOutputView>) -> (i: int)
    requires
        memory_markdown(style, files) is Some,
    ensures
        0 <= i < files.len(),
        is_memory_path(style, files[i].path),
        memory_markdown(style, files) == Some(files[i].markdown),
    decreases files.len(),
{
    if is_memory_path(style, files[0].path) {
        0
    } else {
        let rest = files.drop_first();
        let i = lemma_memory_file(style, rest);
        assert(rest[i] == files[i + 1]);
        i + 1
    }
}

/// A line opens a block exactly where, without the white space around it, it is the opening, a path
/// that is not blank, and the end of the opening; the path is what stands between, without the
/// white space around it.
pub proof fn law_opening_lines(line: &str, path: Option<String>)
    requires
        call_ensures(parse_file_marker, (line,), path),
    ensures
        forall|inner: Seq<char>|
            text::trimmed(line@) == #[trigger] ("--- FILE: "@ + inner + " ---"@) ==> {
                &&& path is Some <==> !text::blank(inner)
                &&& path is Some ==> path->0@ == text::trimmed(inner)
            },
        path is Some ==> exists|inner: Seq<char>|
            text::trimmed(line@) == #[trigger] ("--- FILE: "@ + inner + " ---"@),
{
    reveal_strlit("--- FILE: ");
    reveal_strlit(" ---");
    let whole = text::trimmed(line@);
    let rest = whole.skip(10);
    assert forall|inner: Seq<char>|
        whole == #[trigger] ("--- FILE: "@ + inner + " ---"@) implies {
        &&& path is Some <==> !text::blank(inner)
        &&& path is Some ==> path->0@ == text::trimmed(inner)
    } by {
        assert(rest =~= inner + " ---"@);
        assert("--- FILE: "@ =~= whole.subrange(0, 10));
        assert(" ---"@ =~= rest.subrange(rest.len() - 4, rest.len() as int));
        assert(rest.take(rest.len() - 4) =~= inner);
        text::law_trimmed_empty_iff_blank(inner);
    }
    if path is Some {
        let inner = rest.take(rest.len() - 4);
        assert("--- FILE: "@ =~= whole.subrange(0, 10));
        assert(" ---"@ =~= rest.subrange(rest.len() - 4, rest.len() as int));
        assert(whole =~= "--- FILE: "@ + inner + " ---"@);
    }
}

/// A line closes a block exactly where it is the closing line but for white space around it.
pub proof fn law_closing_lines(before: Seq<char>, line: Seq<char>, behind: Seq<char>)
    requires
        text::blank(before),
        text::blank(behind),
        line.len() > 0,
        !text::white(line[0]),
        !text::white(line.last()),
    ensures
        closes_block(before + line + behind) <==> line == "--- END FILE ---"@,
{
    text::law_white_space_around_is_trimmed(before, line, behind);
    text::lemma_trimmed_same(line);
}

/// Whether the line at `end` is the first, from `start` on, that opens or closes a block; or there
/// is none, and `end` is the number of lines.
pub open spec fn ends_block(lines: Seq<Seq<char>>, start: int, end: int) -> bool {
    &&& start <= end <= lines.len()
    &&& forall|j: int|
        start <= j < end ==> !opens_block(#[trigger] lines[j]) && !closes_block(lines[j])
    &&& end < lines.len() ==> opens_block(lines[end]) || closes_block(lines[end])
}

proof fn lemma_ends_block(lines: Seq<Seq<char>>, start: int)
    requires
        0 <= start <= lines.len(),
    ensures
        ends_block(lines, start, block_end(lines, start)),
    decreases lines.len() - start,
{
    if start < lines.len() && !opens_block(lines[start]) && !closes_block(lines[start]) {
        lemma_ends_block(lines, start + 1);
    }
}

/// Whether the numbers are those of the lines from `start` on that open a block, in order.
pub open spec fn opening_numbers(lines: Seq<Seq<char>>, start: int, numbers: Seq<int>) -> bool {
    &&& forall|k: int|
        0 <= k < numbers.len() ==> start <= #[trigger] numbers[k] < lines.len() && opens_block(
            lines[numbers[k]],
        )
    &&& forall|k: int, l: int|
        0 <= k < l < numbers.len() ==> #[trigger] numbers[k] < #[trigger] numbers[l]
    &&& forall|i: int|
        start <= i < lines.len() && opens_block(#[trigger] lines[i]) ==> numbers.contains(i)
}

/// Whether a file is that of the block which the line of the number opens: its path is the one that
/// the line names, and its text the lines up to the end of the block, one below another, without
/// the white space around them.
pub open spec fn file_of_block(
    lines: Seq<Seq<char>>,
    number: int,
    file: DreamerFileOutputView,
) -> bool {
    &&& marker_path(lines[number]) == Some(file.path)
    &&& exists|end: int| #[trigger]
        ends_block(lines, number + 1, end) && file.markdown == text::trimmed(
            text::joined(lines.subrange(number + 1, end), seq!['\n']),
        )
}

proof fn lemma_terminated_trimmed(parts: Seq<Seq<char>>)
    ensures
        text::trimmed(text::terminated(parts)) == text::trimmed(
            text::joined(parts, seq!['\n']),
        ),
    decreases parts.len(),
{
    if parts.len() > 0 {
        let whole = text::joined(parts, seq!['\n']);
        lemma_terminated_is_joined(parts);
        text::lemma_trimmed_push(whole, '\n');
    }
}

proof fn lemma_terminated_is_joined(parts: Seq<Seq<char>>)
    requires
        parts.len() > 0,
    ensures
        text::terminated(parts) == text::joined(parts, seq!['\n']).push('\n'),
    decreases parts.len(),
{
    if parts.len() == 1 {
        assert(text::terminated(parts.drop_last()) =~= Seq::empty());
        assert(text::terminated(parts) =~= parts[0].push('\n'));
    } else {
        lemma_terminated_is_joined(parts.drop_last());
        assert(text::terminated(parts) =~= text::joined(parts, seq!['\n']).push('\n'));
    }
}

proof fn lemma_block_numbers(lines: Seq<Seq<char>>, start: int) -> (numbers: Seq<int>)
    requires
        0 <= start <= lines.len(),
    ensures
        opening_numbers(lines, start, numbers),
        numbers.len() == block_files(lines, start).len(),
        forall|k: int|
            0 <= k < numbers.len() ==> file_of_block(
                lines,
                #[trigger] numbers[k],
                block_files(lines, start)[k],
            ),
    decreases lines.len() - start,
{
    if start == lines.len() {
        Seq::empty()
    } else {
        let later = lemma_block_numbers(lines, start + 1);
        let rest = block_files(lines, start + 1);
        if opens_block(lines[start]) {
            let numbers = seq![start] + later;
            let files = block_files(lines, start);
            let end = block_end(lines, start + 1);
            lemma_ends_block(lines, start + 1);
            lemma_terminated_trimmed(lines.subrange(start + 1, end));
            assert(ends_block(lines, start + 1, end));
            assert forall|k: int| 0 <= k < numbers.len() implies file_of_block(
                lines,
                #[trigger] numbers[k],
                files[k],
            ) by {
                if k > 0 {
                    assert(numbers[k] == later[k - 1]);
                    assert(files[k] == rest[k - 1]);
                } else {
                    assert(files[0] == block_file(lines, start));
                }
            }
            assert forall|i: int| start <= i < lines.len() && opens_block(
                #[trigger] lines[i],
            ) implies numbers.contains(i) by {
                if i == start {
                    assert(numbers[0] == i);
                } else {
                    assert(later.contains(i));
                    let k = choose|k: int| 0 <= k < later.len() && later[k] == i;
                    assert(numbers[k + 1] == i);
                }
            }
            assert forall|k: int, l: int| 0 <= k < l < numbers.len() implies
                #[trigger] numbers[k] < #[trigger] numbers[l] by {
                assert(numbers[l] == later[l - 1]);
                if k > 0 {
                    assert(numbers[k] == later[k - 1]);
                }
            }
            assert forall|k: int| 0 <= k < numbers.len() implies start <= #[trigger] numbers[k]
                < lines.len() && opens_block(lines[numbers[k]]) by {
                if k > 0 {
                    assert(numbers[k] == later[k - 1]);
                }
            }
            numbers
        } else {
            later
        }
    }
}

/// A reply with blocks gives one file for each line that opens one, in their order; each file has
/// the path that its line names and the lines of its block alone, and what stands outside of every
/// block is in none.
pub proof fn law_files_of_a_reply(
    raw: &str,
    style: PathStyle,
    r: Result<Vec<DreamerFileOutput>, DreamerError>,
) -> (numbers: Seq<int>)
    requires
        call_ensures(parse_dream_output, (raw, style), r),
        r is Ok,
    ensures
        ({
            let lines = text::lines_of(text::trimmed(raw@));
            &&& opening_numbers(lines, 0, numbers)
            &&& numbers.len() > 0 ==> {
                &&& r->Ok_0@.len() == numbers.len()
                &&& forall|k: int|
                    0 <= k < numbers.len() ==> file_of_block(
                        lines,
                        #[trigger] numbers[k],
                        r->Ok_0@[k]@,
                    )
            }
            &&& numbers.len() == 0 ==> {
                &&& r->Ok_0@.len() == 1
                &&& r->Ok_0@[0].path@ == "MEMORY.md"@
                &&& r->Ok_0@[0].markdown@ == text::trimmed(raw@)
            }
        }),
{
    let lines = text::lines_of(text::trimmed(raw@));
    let numbers = lemma_block_numbers(lines, 0);
    let views = super::file_views(r->Ok_0@);
    law_blocks_give_files(lines, 0);
    if numbers.len() > 0 {
        assert(views == block_files(lines, 0));
        assert forall|k: int| 0 <= k < numbers.len() implies file_of_block(
            lines,
            #[trigger] numbers[k],
            r->Ok_0@[k]@,
        ) by {
            assert(views[k] == r->Ok_0@[k]@);
        }
    } else {
        assert(!any_block(lines));
        assert(parsed_output(style, raw@) == Ok::<_, DreamerErrorView>(views));
        assert(views.len() == 1);
        assert(views[0] == r->Ok_0@[0]@);
    }
    numbers
}

/// A reply is refused exactly where it is blank, or one of its blocks names a path that may not be
/// written; what is said is what is wrong with the first such path.
pub proof fn law_replies_that_are_refused(
    raw: &str,
    style: PathStyle,
    r: Result<Vec<DreamerFileOutput>, DreamerError>,
)
    requires
        call_ensures(parse_dream_output, (raw, style), r),
    ensures
        ({
            let files = block_files(text::lines_of(text::trimmed(raw@)), 0);
            &&& text::blank(raw@) ==> r is Err && r->Err_0@ == DreamerErrorView::InvalidOutput(
                "model returned empty text"@,
            )
            &&& !text::blank(raw@) ==> (r is Err <==> exists|i: int|
                0 <= i < files.len() && path_fault(style, (#[trigger] files[i]).path) is Some)
            &&& !text::blank(raw@) && r is Err ==> exists|i: int|
                {
                    &&& 0 <= i < files.len()
                    &&& path_fault(style, (#[trigger] files[i]).path) is Some
                    &&& forall|j: int|
                        0 <= j < i ==> path_fault(style, (#[trigger] files[j]).path) is None
                    &&& r->Err_0@ == DreamerErrorView::InvalidOutput(
                        path_fault(style, files[i].path)->0,
                    )
                }
        }),
{
    let lines = text::lines_of(text::trimmed(raw@));
    let files = block_files(lines, 0);
    text::law_trimmed_empty_iff_blank(raw@);
    law_blocks_give_files(lines, 0);
    lemma_first_fault(style, files);
    if first_path_fault(style, files) is None {
        lemma_no_path_fault(style, files);
    }
}

proof fn lemma_first_fault(style: PathStyle, files: Seq<DreamerFileOutputView>)
    ensures
        first_path_fault(style, files) is Some ==> exists|i: int|
            {
                &&& 0 <= i < files.len()
                &&& path_fault(style, (#[trigger] files[i]).path)
                    == first_path_fault(style, files)
                &&& forall|j: int|
                    0 <= j < i ==> path_fault(style, (#[trigger] files[j]).path) is None
            },
    decreases files.len(),
{
    if files.len() > 0 {
        let rest = files.drop_first();
        if path_fault(style, files[0].path) is Some {
            assert(path_fault(style, files[0].path) == first_path_fault(style, files));
        } else if first_path_fault(style, files) is Some {
            lemma_first_fault(style, rest);
            let i = choose|i: int|
                {
                    &&& 0 <= i < rest.len()
                    &&& path_fault(style, (#[trigger] rest[i]).path)
                        == first_path_fault(style, rest)
                    &&& forall|j: int|
                        0 <= j < i ==> path_fault(style, (#[trigger] rest[j]).path) is None
                };
            assert(files[i + 1] == rest[i]);
            assert forall|j: int| 0 <= j < i + 1 implies path_fault(
                style,
                (#[trigger] files[j]).path,
            ) is None by {
                if j > 0 {
                    assert(rest[j - 1] == files[j]);
                }
            }
        }
    }
}

/// A path may be written exactly where it is a single name that ends with `.md` behind something;
/// what is said of any other names the path.
pub proof fn law_paths_that_may_be_written(
    path: &str,
    style: PathStyle,
    r: Result<(), DreamerError>,
)
    requires
        call_ensures(validate_output_path, (path, style), r),
    ensures
        r is Ok <==> {
            let name = paths::lone_name(style, path@);
            &&& name is Some
            &&& name->0.len() > 3
            &&& name->0.subrange(name->0.len() - 3, name->0.len() as int) == seq!['.', 'm', 'd']
        },
        r is Err ==> r->Err_0 is InvalidOutput && path@.is_suffix_of(
            r->Err_0->InvalidOutput_0@,
        ),
{
    reveal_strlit("md");
    if let Some(name) = paths::lone_name(style, path@) {
        paths::law_lone_name_is_plain(style, path@);
        paths::law_extension(name);
        let n = name.len() as int;
        if n > 3 && name.subrange(n - 3, n) == seq!['.', 'm', 'd'] {
            let end = name.subrange(n - 3, n);
            assert(end[0] == name[n - 3] && end[1] == name[n - 2] && end[2] == name[n - 1]);
            assert(name =~= name.take(n - 3) + seq!['.'] + "md"@);
            assert(!"md"@.contains('.'));
        }
        if paths::extension_of(name) == Some("md"@) {
            assert(name =~= name.take(n - 3) + seq!['.'] + "md"@);
            assert(name.subrange(n - 3, n) =~= seq!['.', 'm', 'd']);
        }
    }
    if let Some(message) = path_fault(style, path@) {
        assert(path@ =~= message.subrange(message.len() - path@.len(), message.len() as int));
    }
}

/// The memory is the first of the files that is `MEMORY.md`, with its whole text.
pub proof fn law_first_memory_file_counts(
    files: &Vec<DreamerFileOutput>,
    style: PathStyle,
    markdown: Option<String>,
)
    requires
        call_ensures(find_memory_markdown, (files, style), markdown),
    ensures
        forall|i: int|
            0 <= i < files@.len() && is_memory_path(style, (#[trigger] files@[i]).path@) && (
            forall|j: int|
                0 <= j < i ==> !is_memory_path(style, (#[trigger] files@[j]).path@)) ==> {
                &&& markdown is Some
                &&& markdown->0@ == files@[i].markdown@
            },
        (forall|i: int|
            0 <= i < files@.len() ==> !is_memory_path(style, (#[trigger] files@[i]).path@))
            ==> markdown is None,
{
    let views = super::file_views(files@);
    assert forall|i: int|
        0 <= i < files@.len() && is_memory_path(style, (#[trigger] files@[i]).path@) && (
        forall|j: int|
            0 <= j < i ==> !is_memory_path(style, (#[trigger] files@[j]).path@)) implies markdown
        is Some && markdown->0@ == files@[i].markdown@ by {
        assert forall|j: int| 0 <= j < i implies !is_memory_path(
            style,
            (#[trigger] views[j]).path,
        ) by {
            assert(views[j] == files@[j]@);
        }
        lemma_first_memory(style, views, i);
    }
    if forall|i: int|
        0 <= i < files@.len() ==> !is_memory_path(style, (#[trigger] files@[i]).path@) {
        if memory_markdown(style, views) is Some {
            let i = lemma_memory_file(style, views);
            assert(views[i] == files@[i]@);
        }
    }
}

proof fn lemma_first_memory(style: PathStyle, files: Seq<DreamerFileOutputView>, i: int)
    requires
        0 <= i < files.len(),
        is_memory_path(style, files[i].path),
        forall|j: int| 0 <= j < i ==> !is_memory_path(style, (#[trigger] files[j]).path),
    ensures
        memory_markdown(style, files) == Some(files[i].markdown),
    decreases i,
{
    if i > 0 {
        let rest = files.drop_first();
        assert forall|j: int| 0 <= j < i - 1 implies !is_memory_path(
            style,
            (#[trigger] rest[j]).path,
        ) by {
            assert(rest[j] == files[j + 1]);
        }
        assert(!is_memory_path(style, files[0].path));
        lemma_first_memory(style, rest, i - 1);
    }
}

/// Whether a `#` stands at `k` with nothing before it on its line but white space.
pub open spec fn heading_at(s: Seq<char>, k: int) -> bool {
    &&& 0 <= k < s.len()
    &&& s[k] == '#'
    &&& forall|i: int|
        0 <= i < k && !text::white(#[trigger] s[i]) ==> exists|j: int|
            i < j < k && #[trigger] s[j] == '\n'
}

/// Whether one of the lines is a heading.
spec fn any_heading(lines: Seq<Seq<char>>) -> bool {
    exists|i: int| 0 <= i < lines.len() && heading(#[trigger] lines[i])
}

proof fn lemma_heading_is_a_line(s: Seq<char>, k: int)
    requires
        heading_at(s, k),
    ensures
        any_heading(text::lines_of(s)),
    decreases s.len(),
{
    text::lemma_line_end_shape(s);
    let n = text::line_end(s) as int;
    let lines = text::lines_of(s);
    if k < n {
        let line = if n < s.len() {
            text::without_return(s.take(n))
        } else {
            s
        };
        assert(lines[0] == line);
        if n < s.len() && s.take(n).last() == '\r' && k == n - 1 {
            assert(s.take(n).last() == s[k]);
        }
        assert(k < line.len() && line[k] == '#');
        assert forall|i: int| 0 <= i < k implies text::white(#[trigger] line[i]) by {
            assert(line[i] == s[i]);
            if !text::white(s[i]) {
                let j = choose|j: int| i < j < k && #[trigger] s[j] == '\n';
                assert(s[j] != '\n');
            }
        }
        text::lemma_trimmed_start_at(line, k);
        assert(heading(lines[0]));
    } else {
        let rest = s.skip(n + 1);
        let p = k - n - 1;
        assert(rest[p] == '#');
        assert forall|i: int| 0 <= i < p && !text::white(#[trigger] rest[i]) implies exists|j: int|
            i < j < p && #[trigger] rest[j] == '\n' by {
            assert(rest[i] == s[i + n + 1]);
            let j = choose|j: int| i + n + 1 < j < k && #[trigger] s[j] == '\n';
            assert(rest[j - n - 1] == '\n');
        }
        lemma_heading_is_a_line(rest, p);
        let later = text::lines_of(rest);
        let i = choose|i: int| 0 <= i < later.len() && heading(#[trigger] later[i]);
        assert(lines[i + 1] == later[i]);
    }
}

proof fn lemma_line_is_a_heading(s: Seq<char>) -> (k: int)
    requires
        any_heading(text::lines_of(s)),
    ensures
        heading_at(s, k),
    decreases s.len(),
{
    text::lemma_line_end_shape(s);
    let n = text::line_end(s) as int;
    let lines = text::lines_of(s);
    let line = if n < s.len() {
        text::without_return(s.take(n))
    } else {
        s
    };
    assert(lines[0] == line);
    if heading(line) {
        text::lemma_trimmed_start_shape(line);
        let k = line.len() - text::trimmed_start(line).len();
        assert(line[k] == '#');
        assert(s[k] == '#');
        assert forall|i: int| 0 <= i < k && !text::white(#[trigger] s[i]) implies exists|j: int|
            i < j < k && #[trigger] s[j] == '\n' by {
            assert(line[i] == s[i]);
            assert(text::white(line[i]));
        }
        k
    } else {
        let rest = s.skip(n + 1);
        let later = text::lines_of(rest);
        let i = choose|i: int| 0 <= i < lines.len() && heading(#[trigger] lines[i]);
        assert(lines[i] == later[i - 1]);
        let p = lemma_line_is_a_heading(rest);
        let k = p + n + 1;
        assert(s[k] == '#');
        assert forall|i: int| 0 <= i < k && !text::white(#[trigger] s[i]) implies exists|j: int|
            i < j < k && #[trigger] s[j] == '\n' by {
            if i < n {
                assert(s[n] == '\n');
            } else {
                assert(s[n] == '\n');
                assert(text::white('\n'));
                assert(rest[i - n - 1] == s[i]);
                let j = choose|j: int| i - n - 1 < j < p && #[trigger] rest[j] == '\n';
                assert(s[j + n + 1] == '\n');
            }
        }
        k
    }
}

/// A text may become the memory exactly where it has a heading: a `#` with nothing before it on its
/// line but white space.
pub proof fn law_memory_needs_a_heading(markdown: &str, r: Result<(), DreamerError>)
    requires
        call_ensures(validate_memory_markdown, (markdown,), r),
    ensures
        r is Ok <==> exists|k: int| #[trigger] heading_at(markdown@, k),
        text::blank(markdown@) ==> r is Err && r->Err_0@ == DreamerErrorView::InvalidOutput(
            "MEMORY.md output is empty"@,
        ),
        r is Err && !text::blank(markdown@) ==> r->Err_0@ == DreamerErrorView::InvalidOutput(
            "MEMORY.md output has no markdown heading"@,
        ),
{
    let s = markdown@;
    let t = text::trimmed(s);
    text::law_trimmed_empty_iff_blank(s);
    let (n, m) = text::law_trimmed_is_a_stretch(s);
    if exists|k: int| #[trigger] heading_at(s, k) {
        let k = choose|k: int| #[trigger] heading_at(s, k);
        assert(!text::white('#'));
        assert(n <= k < m);
        let p = k - n;
        assert(t[p] == '#');
        assert forall|i: int| 0 <= i < p && !text::white(#[trigger] t[i]) implies exists|j: int|
            i < j < p && #[trigger] t[j] == '\n' by {
            assert(t[i] == s[i + n]);
            let j = choose|j: int| i + n < j < k && #[trigger] s[j] == '\n';
            assert(t[j - n] == '\n');
        }
        lemma_heading_is_a_line(t, p);
        assert(any_heading(text::lines_of(t)));
        if text::blank(s) {
            assert(text::white(s[k]));
        }
    }
    if any_heading(text::lines_of(t)) {
        let p = lemma_line_is_a_heading(t);
        let k = p + n;
        assert(s[k] == '#');
        assert forall|i: int| 0 <= i < k && !text::white(#[trigger] s[i]) implies exists|j: int|
            i < j < k && #[trigger] s[j] == '\n' by {
            if i >= n {
                assert(t[i - n] == s[i]);
                let j = choose|j: int| i - n < j < p && #[trigger] t[j] == '\n';
                assert(s[j + n] == '\n');
            }
        }
        assert(heading_at(s, k));
    }
}

/// What is written is the text as it is, with one line feed behind it where it does not end with
/// one.
pub proof fn law_one_line_feed_is_added(markdown: &str, r: String)
    requires
        call_ensures(ensure_trailing_newline, (markdown,), r),
    ensures
        markdown@.len() > 0 && markdown@.last() == '\n' ==> r@ == markdown@,
        !(markdown@.len() > 0 && markdown@.last() == '\n') ==> r@ == markdown@ + seq!['\n'],
{
}

/// Where every file may be written, each is, under its own path and with its own text, in the order
/// in which they came; where one may not be, none is, and what is said is what is wrong with the
/// first of those.
pub proof fn law_all_files_or_none<P>(
    output: &super::DreamerOutput,
    memory_dir: P,
    style: PathStyle,
    plan: WritePlan<P>,
)
    requires
        call_ensures(write_consolidated_memory::<P>, (output, memory_dir, style), plan),
    ensures
        plan.directory == memory_dir,
        plan.failure is None <==> forall|i: int|
            0 <= i < output.files@.len() ==> path_fault(
                style,
                (#[trigger] output.files@[i]).path@,
            ) is None && !text::blank(output.files@[i].markdown@),
        plan.failure is None ==> {
            &&& plan.writes@.len() == output.files@.len()
            &&& forall|i: int|
                0 <= i < plan.writes@.len() ==> {
                    &&& (#[trigger] plan.writes@[i]).path@ == output.files@[i].path@
                    &&& output.files@[i].markdown@.is_prefix_of(plan.writes@[i].contents@)
                    &&& plan.writes@[i].contents@.len() <= output.files@[i].markdown@.len() + 1
                    &&& plan.writes@[i].contents@.last() == '\n'
                }
        },
        plan.failure is Some ==> {
            &&& plan.writes@.len() == 0
            &&& exists|i: int|
                {
                    &&& 0 <= i < output.files@.len()
                    &&& forall|j: int|
                        0 <= j < i ==> file_fault(style, (#[trigger] output.files@[j])@) is None
                    &&& file_fault(style, (#[trigger] output.files@[i])@) is Some
                    &&& plan.failure->0@ == DreamerErrorView::InvalidOutput(
                        file_fault(style, output.files@[i]@)->0,
                    )
                }
        },
{
    let files = output@.files;
    lemma_writable_shape(style, files);
    assert forall|i: int| 0 <= i < output.files@.len() implies (file_fault(
        style,
        (#[trigger] output.files@[i])@,
    ) is None <==> path_fault(style, output.files@[i].path@) is None && !text::blank(
        output.files@[i].markdown@,
    )) && files[i] == output.files@[i]@ by {
        text::law_trimmed_empty_iff_blank(output.files@[i].markdown@);
    }
    let n = writable(style, files) as int;
    let writes = write_views(plan.writes@);
    assert(writes.len() == plan.writes@.len());
    assert(files.len() == output.files@.len());
    if n == files.len() {
        assert(planned_failure(style, files) is None);
        assert(writes.len() == files.len());
        assert forall|i: int| 0 <= i < files.len() implies file_fault(
            style,
            (#[trigger] output.files@[i])@,
        ) is None by {
            assert(file_fault(style, files[i]) is None);
        }
        assert forall|i: int| 0 <= i < plan.writes@.len() implies {
            &&& (#[trigger] plan.writes@[i]).path@ == output.files@[i].path@
            &&& output.files@[i].markdown@.is_prefix_of(plan.writes@[i].contents@)
            &&& plan.writes@[i].contents@.len() <= output.files@[i].markdown@.len() + 1
            &&& plan.writes@[i].contents@.last() == '\n'
        } by {
            assert(writes[i] == plan.writes@[i]@);
            assert(writes[i] == write_of(files[i]));
            assert(output.files@[i]@ == files[i]);
            law_written_texts_end_with_a_line_feed(output.files@[i].markdown@);
        }
    } else {
        assert(file_fault(style, output.files@[n]@) is Some);
        assert forall|j: int| 0 <= j < n implies file_fault(
            style,
            (#[trigger] output.files@[j])@,
        ) is None by {
            assert(file_fault(style, files[j]) is None);
        }
    }
}

/// What is said of a file to write is said of its fields as they are.
pub proof fn law_views_are_the_fields(write: FileWrite, writes: Seq<FileWrite>, i: int)
    ensures
        write@.path == write.path@ && write@.contents == write.contents@,
        write_views(writes).len() == writes.len(),
        0 <= i < writes.len() ==> write_views(writes)[i] == writes[i]@,
{
}

/// A path leads to the memory exactly where the one name that it consists of is `MEMORY.md`, in
/// these letters.
pub proof fn law_memory_paths(path: &str, style: PathStyle, yes: bool)
    requires
        call_ensures(leads_to_memory, (path, style), yes),
    ensures
        yes <==> paths::lone_name(style, path@) == Some("MEMORY.md"@),
{
}

/// A file with a path that may be written is refused exactly where its text is blank, and what is
/// said names it.
pub proof fn law_blank_files_are_refused(style: PathStyle, file: DreamerFileOutputView)
    ensures
        path_fault(style, file.path) is Some ==> file_fault(style, file) == path_fault(
            style,
            file.path,
        ),
        path_fault(style, file.path) is None && text::blank(file.markdown) ==> file_fault(
            style,
            file,
        ) == Some(file.path + " is empty"@),
        path_fault(style, file.path) is None && !text::blank(file.markdown) ==> file_fault(
            style,
            file,
        ) is None,
{
    text::law_trimmed_empty_iff_blank(file.markdown);
}

/// A path that is refused is refused for what is wrong with it first: that it is absolute, that it
/// is not one name, or that it does not end with `.md`.
pub proof fn law_path_faults(style: PathStyle, path: Seq<char>)
    ensures
        paths::absolute(style, path) ==> path_fault(style, path) == Some(
            "absolute output path is not allowed: "@ + path,
        ),
        !paths::absolute(style, path) && paths::lone_name(style, path) is None ==> path_fault(
            style,
            path,
        ) == Some("output path must be a root-level file: "@ + path),
        !paths::absolute(style, path) && paths::lone_name(style, path) is Some && path_fault(
            style,
            path,
        ) is Some ==> path_fault(style, path) == Some("output path must be markdown: "@ + path),
{
}

} // verus!
