//! How the files of a dream are written, and those that it uses for itself.
use vstd::prelude::*;

use super::output::{FileWrite, FileWriteView};
use super::LAST_DREAM_FILENAME;
use crate::clock::Timestamp;
use crate::paths;
use crate::paths::PathStyle;
use crate::text;

verus! {

broadcast use vstd::seq::group_seq_axioms;

/// The marker as it is after a dream that ended now: it holds the seconds since the start
/// of 1970.
pub open spec fn marker_write(now: Timestamp) -> FileWriteView {
    FileWriteView {
        path: LAST_DREAM_FILENAME@,
        contents: text::decimal(now.since_epoch() / 1_000_000_000).push('\n'),
    }
}

/// The marker to write after a dream that ended now.
pub fn touch_last_dream_marker(now: &Timestamp) -> (write: FileWrite)
    ensures
        write@ == marker_write(*now),
{
    let mut contents = text::decimal_string(now.secs_since_epoch());
    contents.push('\n');
    FileWrite { path: LAST_DREAM_FILENAME.to_owned(), contents }
}

/// The name under which a file is written before it takes the place of the one with its own
/// name: a hidden name that holds the nanoseconds since the start of 1970.
pub open spec fn hidden_name(file_name: Option<Seq<char>>, now: Timestamp) -> Seq<char> {
    let name = match file_name {
        Some(name) => name,
        None => "memory"@,
    };
    "."@ + name + ".tmp-"@ + text::decimal(now.since_epoch())
}

/// The name under which a file is written before it takes the place of the one with its own
/// name.
pub fn temp_file_name(file_name: Option<&str>, now: &Timestamp) -> (r: String)
    ensures
        r@ == hidden_name(super::prompt::referred_text(file_name), *now),
{
    let name = match file_name {
        Some(name) => name,
        None => "memory",
    };
    let mut r = text::concat(".", name);
    r.append(".tmp-");
    r.append(text::decimal_string(now.nanos_since_epoch()).as_str());
    r
}

// ---------------------------------------------------------------------------
// Replacing a file
// ---------------------------------------------------------------------------

/// A step in the replacing of a file.
#[derive(Debug, Clone, PartialEq, Eq)]
pub enum FileStep {
    /// Create the directory of the file and those above it, where they are missing; the file
    /// without a directory lies in the current one.
    CreateDirectory,
    /// Make the file of the given name in that directory anew and write the text to it, until it
    /// is on the disk.
    WriteThrough { name: String, contents: String },
    /// Remove the file that is to be replaced, where there is one.
    RemoveIfThere,
    /// Give the file of the given name the place of the one that is to be replaced.
    Rename { from: String },
}

/// What a step holds.
pub enum FileStepView {
    CreateDirectory,
    WriteThrough { name: Seq<char>, contents: Seq<char> },
    RemoveIfThere,
    Rename { from: Seq<char> },
}

impl View for FileStep {
    type V = FileStepView;

    open spec fn view(&self) -> FileStepView {
        match *self {
            FileStep::CreateDirectory => FileStepView::CreateDirectory,
            FileStep::WriteThrough { name, contents } => FileStepView::WriteThrough {
                name: name@,
                contents: contents@,
            },
            FileStep::RemoveIfThere => FileStepView::RemoveIfThere,
            FileStep::Rename { from } => FileStepView::Rename { from: from@ },
        }
    }
}

/// What each of the steps holds.
pub open spec fn step_views(steps: Seq<FileStep>) -> Seq<FileStepView> {
    Seq::new(steps.len(), |i: int| steps[i]@)
}

/// The steps in which a file is replaced: the new text is written under a hidden name in the
/// same directory, and takes the place of the old when it is there as a whole.
pub open spec fn replacing(
    file_name: Option<Seq<char>>,
    contents: Seq<char>,
    now: Timestamp,
) -> Seq<FileStepView> {
    seq![
        FileStepView::CreateDirectory,
        FileStepView::WriteThrough { name: hidden_name(file_name, now), contents },
        FileStepView::RemoveIfThere,
        FileStepView::Rename { from: hidden_name(file_name, now) },
    ]
}

/// The steps in which the file of a name is replaced, one after another until one fails.
pub fn atomic_write(file_name: Option<&str>, contents: &str, now: &Timestamp) -> (steps: Vec<
    FileStep,
>)
    ensures
        step_views(steps@) == replacing(
            super::prompt::referred_text(file_name),
            contents@,
            *now,
        ),
{
    let hidden = temp_file_name(file_name, now);
    let mut steps: Vec<FileStep> = Vec::new();
    steps.push(FileStep::CreateDirectory);
    steps.push(FileStep::WriteThrough { name: hidden.clone(), contents: contents.to_owned() });
    steps.push(FileStep::RemoveIfThere);
    steps.push(FileStep::Rename { from: hidden });
    proof {
        assert(step_views(steps@) =~= replacing(
            super::prompt::referred_text(file_name),
            contents@,
            *now,
        ));
    }
    steps
}

// ---------------------------------------------------------------------------
// Laws
// ---------------------------------------------------------------------------

/// The files of a directory, by their names, after a step in the replacing of one of them.
pub open spec fn files_after(
    files: Map<Seq<char>, Seq<char>>,
    replaced: Seq<char>,
    step: FileStepView,
) -> Map<Seq<char>, Seq<char>> {
    match step {
        FileStepView::CreateDirectory => files,
        FileStepView::WriteThrough { name, contents } => files.insert(name, contents),
        FileStepView::RemoveIfThere => files.remove(replaced),
        FileStepView::Rename { from } => files.remove(from).insert(replaced, files[from]),
    }
}

/// The files of a directory, by their names, after some steps in the replacing of one of them.
pub open spec fn files_after_all(
    files: Map<Seq<char>, Seq<char>>,
    replaced: Seq<char>,
    steps: Seq<FileStepView>,
) -> Map<Seq<char>, Seq<char>>
    decreases steps.len(),
{
    if steps.len() == 0 {
        files
    } else {
        files_after(files_after_all(files, replaced, steps.drop_last()), replaced, steps.last())
    }
}

/// The hidden name is another than that of the file, and is a name by itself where that is one.
pub proof fn law_hidden_name_stands_beside(style: PathStyle, name: Seq<char>, now: Timestamp)
    requires
        paths::plain_name(style, name),
    ensures
        hidden_name(Some(name), now) != name,
        paths::plain_name(style, hidden_name(Some(name), now)),
        paths::lone_name(style, hidden_name(Some(name), now)) == Some(hidden_name(Some(name), now)),
{
    reveal_strlit(".");
    reveal_strlit(".tmp-");
    let digits = text::decimal(now.since_epoch());
    text::lemma_decimal_is_digits(now.since_epoch());
    let hidden = hidden_name(Some(name), now);
    assert(hidden.len() == 6 + name.len() + digits.len());
    assert forall|i: int| 0 <= i < hidden.len() implies !paths::separates(
        style,
        #[trigger] hidden[i],
    ) by {
        if i == 0 {
            assert(hidden[0] == '.');
        } else if i < 1 + name.len() {
            assert(hidden[i] == name[i - 1]);
            assert(!paths::separates(style, name[i - 1]));
        } else if i < 6 + name.len() {
            assert(hidden[i] == ".tmp-"@[i - 1 - name.len()]);
        } else {
            assert(hidden[i] == digits[i - 6 - name.len()]);
            assert('0' <= digits[i - 6 - name.len()] <= '9');
        }
    }
    assert(seq!['.'].len() == 1);
    assert(seq!['.', '.'].len() == 2);
    assert(hidden[0] == '.');
    paths::law_plain_name_is_alone(style, hidden);
}

/// Replacing a file gives it the new text and leaves every other file as it is, but for one that
/// had the hidden name; until the new text is there as a whole the old one stays, and at no time
/// are both gone.
pub proof fn law_file_is_replaced(
    files: Map<Seq<char>, Seq<char>>,
    name: Seq<char>,
    contents: Seq<char>,
    now: Timestamp,
    done: int,
)
    requires
        0 <= done <= replacing(Some(name), contents, now).len(),
    ensures
        ({
            let temp = hidden_name(Some(name), now);
            let after = files_after_all(
                files,
                name,
                replacing(Some(name), contents, now).take(done),
            );
            &&& done < 2 ==> after == files
            &&& done == 2 ==> after == files.insert(temp, contents)
            &&& done == 3 ==> after == files.insert(temp, contents).remove(name)
            &&& done == 4 ==> after == files.remove(temp).insert(name, contents)
            &&& temp != name
        }),
{
    reveal_strlit(".");
    let steps = replacing(Some(name), contents, now);
    let temp = hidden_name(Some(name), now);
    assert(temp.len() > name.len());
    reveal_with_fuel(files_after_all, 5);
    assert(steps.take(1).drop_last() =~= steps.take(0));
    assert(steps.take(2).drop_last() =~= steps.take(1));
    assert(steps.take(3).drop_last() =~= steps.take(2));
    assert(steps.take(4).drop_last() =~= steps.take(3));
    assert(files_after_all(files, name, steps.take(4)) =~= files.remove(temp).insert(
        name,
        contents,
    ));
}

/// The marker tells the whole seconds since the start of 1970, on a line of its own.
pub proof fn law_marker_tells_the_seconds(now: &Timestamp, write: FileWrite)
    requires
        call_ensures(touch_last_dream_marker, (now,), write),
    ensures
        write.path@ == ".last-dream"@,
        write.contents@.len() > 1,
        write.contents@.last() == '\n',
        ({
            let secs = text::number_of(write.contents@.drop_last());
            &&& now.instant() >= 0 ==> secs * 1_000_000_000 <= now.instant() < (secs + 1)
                * 1_000_000_000
            &&& now.instant() < 0 ==> secs == 0
        }),
{
    let n = now.since_epoch() / 1_000_000_000;
    text::law_decimal_is_read_back(n);
    assert(write.contents@.drop_last() =~= text::decimal(n));
}

/// The hidden name tells the nanoseconds since the start of 1970 behind the name of the file, so
/// that files that are written at different times have different ones.
pub proof fn law_hidden_name_tells_the_time(file_name: Option<&str>, now: &Timestamp, r: String)
    requires
        call_ensures(temp_file_name, (file_name, now), r),
    ensures
        ({
            let name = match file_name {
                Some(name) => name@,
                None => "memory"@,
            };
            let start = seq!['.'] + name + seq!['.', 't', 'm', 'p', '-'];
            &&& start.is_prefix_of(r@)
            &&& text::number_of(r@.skip(start.len() as int)) == now.since_epoch()
        }),
{
    reveal_strlit(".");
    reveal_strlit(".tmp-");
    let name = match file_name {
        Some(name) => name@,
        None => "memory"@,
    };
    let start = seq!['.'] + name + seq!['.', 't', 'm', 'p', '-'];
    text::law_decimal_is_read_back(now.since_epoch());
    assert("."@ =~= seq!['.']);
    assert(".tmp-"@ =~= seq!['.', 't', 'm', 'p', '-']);
    assert(start =~= r@.subrange(0, start.len() as int));
    assert(r@.skip(start.len() as int) =~= text::decimal(now.since_epoch()));
}

/// Files that are written at different times after the start of 1970 have different hidden names.
pub proof fn law_hidden_names_differ(name: Seq<char>, a: Timestamp, b: Timestamp)
    requires
        a.since_epoch() != b.since_epoch(),
    ensures
        hidden_name(Some(name), a) != hidden_name(Some(name), b),
{
    text::law_decimal_is_read_back(a.since_epoch());
    text::law_decimal_is_read_back(b.since_epoch());
    let start = "."@ + name + ".tmp-"@;
    let n = start.len() as int;
    assert(hidden_name(Some(name), a).skip(n) =~= text::decimal(a.since_epoch()));
    assert(hidden_name(Some(name), b).skip(n) =~= text::decimal(b.since_epoch()));
}

/// The new text is written whole under the hidden name before the old file is touched, and takes
/// its place last.
pub proof fn law_steps_of_a_replacement(
    file_name: Option<&str>,
    contents: &str,
    now: &Timestamp,
    steps: Vec<FileStep>,
    hidden: String,
)
    requires
        call_ensures(atomic_write, (file_name, contents, now), steps),
        call_ensures(temp_file_name, (file_name, now), hidden),
    ensures
        steps@.len() == 4,
        steps@[0] is CreateDirectory,
        steps@[1] is WriteThrough,
        steps@[1]->name@ == hidden@,
        steps@[1]->contents@ == contents@,
        steps@[2] is RemoveIfThere,
        steps@[3] is Rename,
        steps@[3]->from@ == hidden@,
{
    let views = step_views(steps@);
    assert(views.len() == 4);
    assert(views[0] == steps@[0]@);
    assert(views[1] == steps@[1]@);
    assert(views[2] == steps@[2]@);
    assert(views[3] == steps@[3]@);
}

} // verus!
