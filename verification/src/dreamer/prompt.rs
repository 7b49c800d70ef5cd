//! The memory as a part of the prompt.
use vstd::prelude::*;

use super::limits;
use crate::text;

verus! {

broadcast use vstd::seq::group_seq_axioms;

/// How many bytes of the memory are put into a prompt.
pub const MAX_MEMORY_PROMPT_BYTES: usize = 32 * 1024;

/// How many lines of the memory are put into a prompt.
pub const MAX_MEMORY_PROMPT_LINES: usize = 400;

/// How the memory is introduced.
pub const MEMORY_PROMPT_TITLE: &'static str = "# Persistent Memory\nLoaded from ";

/// What is said of the memory, behind the name of its file.
pub const MEMORY_PROMPT_ADVICE: &'static str =
    ". Treat this as durable project-local context. During normal turns, do not edit `MEMORY.md` directly; append new durable notes to today's log under `logs/YYYY/MM/YYYY-MM-DD.md` and use `/dream` to consolidate.\n\n";

/// The part of the memory that is put into a prompt.
pub open spec fn memory_excerpt(content: Seq<char>) -> Seq<char> {
    limits::excerpt(content, MAX_MEMORY_PROMPT_BYTES as nat, MAX_MEMORY_PROMPT_LINES as nat)
}

/// The memory as a part of the prompt, with the path of its file: none where there is no memory
/// file, or no text in the part of it that is put into prompts.
pub open spec fn memory_prompt(path: Seq<char>, content: Option<Seq<char>>) -> Option<Seq<char>> {
    match content {
        None => None,
        Some(content) => if text::trimmed(memory_excerpt(content)).len() == 0 {
            None
        } else {
            Some(
                MEMORY_PROMPT_TITLE@ + path + MEMORY_PROMPT_ADVICE@
                    + text::trimmed_end(memory_excerpt(content)),
            )
        },
    }
}

/// The text behind an optional reference.
pub open spec fn referred_text(content: Option<&str>) -> Option<Seq<char>> {
    match content {
        Some(content) => Some(content@),
        None => None,
    }
}

/// The memory as a part of the prompt, given the path of the memory file, as it is shown, and the
/// content of the file, if there is one.
pub fn load_memory_prompt(path: &str, content: Option<&str>) -> (prompt: Option<String>)
    ensures
        text::optional_text(prompt) == memory_prompt(path@, referred_text(content)),
{
    let content = match content {
        Some(content) => content,
        None => return None,
    };
    let truncated = limits::truncate_for_prompt(
        content,
        MAX_MEMORY_PROMPT_BYTES,
        MAX_MEMORY_PROMPT_LINES,
    );
    if text::trim(truncated.as_str()).as_str().is_empty() {
        return None;
    }
    let mut prompt = text::concat(MEMORY_PROMPT_TITLE, path);
    prompt.append(MEMORY_PROMPT_ADVICE);
    prompt.append(text::trim_end(truncated.as_str()).as_str());
    Some(prompt)
}

/// However long the memory is, its part of the prompt has at most five lines more than the
/// memory is cut down to, where the path of its file is on one line.
pub proof fn law_prompt_is_short(path: Seq<char>, content: Seq<char>)
    requires
        text::line_feeds(path) == 0,
        memory_prompt(path, Some(content)) is Some,
    ensures
        text::lines_of(memory_prompt(path, Some(content))->0).len()
            <= MAX_MEMORY_PROMPT_LINES + 5,
{
    let title = MEMORY_PROMPT_TITLE@;
    let advice = MEMORY_PROMPT_ADVICE@;
    let cut = memory_excerpt(content);
    let tail = text::trimmed_end(cut);
    limits::law_excerpt_is_bounded(
        content,
        MAX_MEMORY_PROMPT_BYTES as nat,
        MAX_MEMORY_PROMPT_LINES as nat,
    );
    text::lemma_trimmed_end_shape(cut);
    assert(cut =~= tail + cut.skip(tail.len() as int));
    text::lemma_line_feeds_add(tail, cut.skip(tail.len() as int));
    reveal_strlit("# Persistent Memory\nLoaded from ");
    reveal_strlit(
        ". Treat this as durable project-local context. During normal turns, do not edit `MEMORY.md` directly; append new durable notes to today's log under `logs/YYYY/MM/YYYY-MM-DD.md` and use `/dream` to consolidate.\n\n",
    );
    text::lemma_one_line_feed();
    let feed = seq!['\n'];
    assert(title =~= title.take(19) + feed + title.skip(20));
    text::lemma_no_line_feeds(title.take(19));
    text::lemma_no_line_feeds(title.skip(20));
    text::lemma_line_feeds_add(title.take(19) + feed, title.skip(20));
    text::lemma_line_feeds_add(title.take(19), feed);
    let n = advice.len() - 2;
    assert(advice =~= advice.take(n) + feed + feed);
    text::lemma_no_line_feeds(advice.take(n));
    text::lemma_line_feeds_add(advice.take(n) + feed, feed);
    text::lemma_line_feeds_add(advice.take(n), feed);
    text::lemma_line_feeds_add(title + path + advice, tail);
    text::lemma_line_feeds_add(title + path, advice);
    text::lemma_line_feeds_add(title, path);
    text::law_line_count(title + path + advice + tail);
}

/// The memory is put into the prompt as the cut of it that fits, without white space at its end,
/// behind the advice that names its file; without a file, or where nothing of it is left but white
/// space, nothing is put there.
pub proof fn law_prompt_shows_the_memory(path: &str, content: Option<&str>, prompt: Option<String>)
    requires
        call_ensures(load_memory_prompt, (path, content), prompt),
    ensures
        content is None ==> prompt is None,
        content is Some ==> {
            let cut = limits::excerpt(content->0@, 32 * 1024, 400);
            &&& prompt is Some <==> !text::blank(cut)
            &&& prompt is Some ==> prompt->0@ == MEMORY_PROMPT_TITLE@ + path@
                + MEMORY_PROMPT_ADVICE@ + text::trimmed_end(cut)
        },
{
    if let Some(content) = content {
        text::law_trimmed_empty_iff_blank(memory_excerpt(content@));
    }
}

/// A memory within the limits stands in the prompt whole, at its end.
pub proof fn law_short_memory_stands_in_the_prompt_whole(
    path: &str,
    content: &str,
    prompt: Option<String>,
)
    requires
        call_ensures(load_memory_prompt, (path, Some(content)), prompt),
        text::byte_len(content@) <= 32 * 1024,
        text::lines_of(content@).len() <= 400,
        text::returns_stay(content@),
        content@.len() > 0,
        !text::white(content@.last()),
    ensures
        prompt is Some,
        content@.is_suffix_of(prompt->0@),
        (MEMORY_PROMPT_TITLE@ + path@).is_prefix_of(prompt->0@),
{
    let s = content@;
    assert(text::white('\n'));
    limits::law_clipped(s, MAX_MEMORY_PROMPT_BYTES as int);
    limits::lemma_lines_of_plain_text(s);
    assert(memory_excerpt(s) == s);
    text::law_trimmed_empty_iff_blank(s);
    text::lemma_trimmed_end_at(s, s.len() as int);
    assert(s.take(s.len() as int) =~= s);
    if text::blank(s) {
        assert(text::white(s[s.len() - 1]));
    }
    let whole = prompt->0@;
    assert(s =~= whole.subrange(whole.len() - s.len(), whole.len() as int));
    let start = MEMORY_PROMPT_TITLE@ + path@;
    assert(start =~= whole.subrange(0, start.len() as int));
}

} // verus!
