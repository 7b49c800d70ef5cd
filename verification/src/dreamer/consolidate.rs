//! Asking a model to consolidate the logs, and reading its reply.
use vstd::prelude::*;

use super::blocks;
use super::output;
use super::{
    DreamerError, DreamerErrorView, DreamerFileOutput, DreamerFileOutputView, DreamerOutput,
    DreamerOutputView, MemoryLog, MemoryLogView,
};
use crate::conversation;
use crate::conversation::{
    ApiClient, ApiRequest, ApiRequestView, AssistantEvent, AssistantEventView, ContentBlock,
    ContentBlockView, ConversationMessage, ConversationMessageView, MessageRole, RuntimeError,
};
use crate::paths::PathStyle;
use crate::text;

verus! {

broadcast use vstd::seq::group_seq_axioms;

/// What the model is told to be and to do.
pub const DREAMER_SYSTEM_PROMPT: &'static str = r#"You are the Memory Consolidation Engine ("Dreamer") for an agentic coding CLI.

Objective: Read project-local raw memory logs and synthesize durable memory for future agent sessions. Produce one or more markdown files. The primary file must be MEMORY.md. Optional topic files may be emitted for stable, high-volume domains.

## Core Directives

1. De-duplicate and synthesize: Merge overlapping notes into a single definitive statement. Preserve the latest stable truth, not every historical mention.
2. Resolve time references: Remove relative dates such as "yesterday," "last week," or "recently." Convert completed work into durable facts and delete obsolete step-by-step plans.
3. Respect user corrections: Treat explicit user corrections and preferences as authoritative. Newer explicit instructions override older conflicting notes.
4. Purge obsolete references: Remove notes about deprecated functions, deleted directories, abandoned approaches, superseded decisions, and dead-end debugging paths.
5. Optimize for tokens: Keep MEMORY.md concise. Put bulky but still-current topic details in separate topic files.
6. Separate facts from uncertainty: Keep unresolved questions only when they are still relevant. Mark them clearly as open questions.

## High-Fidelity Preservation Rules

While compressing, do not alter, summarize, or approximate the following technical elements when they remain current and relevant:

- Algorithms and architecture: Preserve exact logic, routing rules, threshold values, invariants, and architectural constraints.
- Research and benchmarking data: Preserve hyperparameters, dataset splits, model names, evaluation metrics, and experiment results exactly.
- Environment configuration: Preserve exact port numbers, paths, environment variables, version constraints, service names, and orchestration steps.
- User preferences: Preserve durable coding, communication, workflow, and tool-use preferences without rephrasing them into weaker guidance.

## Reliability Rules

- Do not invent facts, decisions, file paths, preferences, or project state.
- Do not keep stale TODOs when later logs show the work was completed or abandoned.
- Do not preserve raw log ordering unless chronology is necessary to understand the final state.
- Do not include a preamble, apology, analysis notes, or conversational text outside the required file output.

## Output Format

Use one file block per output file:

--- FILE: MEMORY.md ---
# Memory

## User Preferences
- Durable preferences about communication, coding style, tools, review expectations, and workflow.

## Project State
- Current repository, product, architecture, and implementation facts.

## Technical Decisions
- Active decisions, constraints, invariants, and rationale that future agents must preserve.

## Environment
- Current paths, commands, ports, dependencies, credentials handling rules, and runtime assumptions.

## Open Questions
- Relevant unresolved questions or decisions still needing user input.
--- END FILE ---

If a section has no durable information, write `- None known.`. Optional topic files must also use `--- FILE: topic-name.md ---` blocks and must stay at the memory directory root."#;

/// How the message that carries the logs starts.
pub const USER_MESSAGE_HEADER: &'static str =
    "Below are raw memory log files, newest first. Consolidate them into MEMORY.md and optional root-level topic files using the required file block format.\n\n";

// ---------------------------------------------------------------------------
// The request
// ---------------------------------------------------------------------------

/// The part of the message that carries one log.
pub open spec fn log_section(log: MemoryLogView) -> Seq<char> {
    "---\n"@ + "File: "@ + log.name + "\n"@ + "---\n"@ + output::newline_ended(log.content) + "\n"@
}

/// The parts of the message that carry the logs, one after another.
pub open spec fn log_sections(logs: Seq<MemoryLogView>) -> Seq<char>
    decreases logs.len(),
{
    if logs.len() == 0 {
        Seq::empty()
    } else {
        log_sections(logs.drop_last()) + log_section(logs.last())
    }
}

/// The message that carries the logs.
pub open spec fn user_message(logs: Seq<MemoryLogView>) -> Seq<char> {
    USER_MESSAGE_HEADER@ + log_sections(logs)
}

/// The message that carries the logs.
pub fn build_user_message(logs: &[MemoryLog]) -> (r: String)
    ensures
        r@ == user_message(super::log_views(logs@)),
{
    let mut buf: String = USER_MESSAGE_HEADER.to_owned();
    let ghost views = super::log_views(logs@);
    let mut i: usize = 0;
    proof {
        assert(views.take(0) =~= Seq::empty());
        assert(USER_MESSAGE_HEADER@ + Seq::empty() =~= USER_MESSAGE_HEADER@);
    }
    while i < logs.len()
        invariant
            i <= logs@.len(),
            views == super::log_views(logs@),
            buf@ == USER_MESSAGE_HEADER@ + log_sections(views.take(i as int)),
        decreases logs@.len() - i,
    {
        let log = &logs[i];
        let ghost before = buf@;
        buf.append("---\n");
        buf.append("File: ");
        buf.append(log.name.as_str());
        buf.append("\n");
        buf.append("---\n");
        buf.append(output::ensure_trailing_newline(log.content.as_str()).as_str());
        buf.append("\n");
        proof {
            let next = views.take(i + 1);
            assert(next.drop_last() =~= views.take(i as int));
            assert(next.last() == log@);
            assert(buf@ =~= before + log_section(log@));
            assert(buf@ =~= USER_MESSAGE_HEADER@ + (log_sections(views.take(i as int))
                + log_section(log@)));
        }
        i = i + 1;
    }
    proof {
        assert(views.take(i as int) =~= views);
    }
    buf
}

/// The request to consolidate the logs.
pub open spec fn consolidation_request(logs: Seq<MemoryLogView>) -> ApiRequestView {
    ApiRequestView {
        system_prompt: seq![DREAMER_SYSTEM_PROMPT@],
        messages: seq![
            ConversationMessageView {
                role: MessageRole::User,
                blocks: seq![ContentBlockView::Text { text: user_message(logs) }],
            },
        ],
    }
}

/// The request to consolidate the logs.
pub fn build_request(logs: &[MemoryLog]) -> (request: ApiRequest)
    ensures
        request@ == consolidation_request(super::log_views(logs@)),
{
    let mut system_prompt: Vec<String> = Vec::new();
    system_prompt.push(DREAMER_SYSTEM_PROMPT.to_owned());
    let mut blocks: Vec<ContentBlock> = Vec::new();
    blocks.push(ContentBlock::Text { text: build_user_message(logs) });
    proof {
        assert(conversation::block_views(blocks@) =~= seq![
            ContentBlockView::Text { text: user_message(super::log_views(logs@)) },
        ]);
    }
    let mut messages: Vec<ConversationMessage> = Vec::new();
    messages.push(ConversationMessage { role: MessageRole::User, blocks });
    let request = ApiRequest { system_prompt, messages };
    proof {
        assert(text::texts(system_prompt@) =~= seq![DREAMER_SYSTEM_PROMPT@]);
        assert(conversation::message_views(messages@) =~= seq![messages@[0]@]);
        assert(request@ =~= consolidation_request(super::log_views(logs@)));
    }
    request
}

// ---------------------------------------------------------------------------
// The reply
// ---------------------------------------------------------------------------

/// The stretches of text of a reply, one after another.
pub open spec fn delta_text(events: Seq<AssistantEventView>) -> Seq<char>
    decreases events.len(),
{
    if events.len() == 0 {
        Seq::empty()
    } else {
        delta_text(events.drop_last()) + match events.last() {
            AssistantEventView::TextDelta(delta) => delta,
            _ => Seq::empty(),
        }
    }
}

/// The text of a reply, without white space around it.
pub fn collect_text_from_events(events: &[AssistantEvent]) -> (r: String)
    ensures
        r@ == text::trimmed(delta_text(conversation::event_views(events@))),
{
    let mut all: String = String::new();
    let ghost views = conversation::event_views(events@);
    let mut i: usize = 0;
    while i < events.len()
        invariant
            i <= events@.len(),
            views == conversation::event_views(events@),
            all@ == delta_text(views.take(i as int)),
        decreases events@.len() - i,
    {
        proof {
            let next = views.take(i + 1);
            assert(next.drop_last() =~= views.take(i as int));
            assert(next.last() == events@[i as int]@);
            assert(all@ + Seq::empty() =~= all@);
        }
        if let AssistantEvent::TextDelta(delta) = &events[i] {
            all.append(delta.as_str());
        }
        i = i + 1;
    }
    proof {
        assert(views.take(i as int) =~= views);
    }
    text::trim(all.as_str())
}

/// What a reply to the request to consolidate the logs leads to.
pub open spec fn consolidated(
    style: PathStyle,
    logs: Seq<MemoryLogView>,
    reply: Result<Seq<AssistantEventView>, Seq<char>>,
) -> Result<DreamerOutputView, DreamerErrorView> {
    match reply {
        Err(message) => Err(DreamerErrorView::Api(message)),
        Ok(events) => match output::parsed_output(style, text::trimmed(delta_text(events))) {
            Err(error) => Err(error),
            Ok(files) => match output::memory_markdown(style, files) {
                None => Err(DreamerErrorView::InvalidOutput("missing MEMORY.md output"@)),
                Some(markdown) => match output::memory_fault(markdown) {
                    Some(message) => Err(DreamerErrorView::InvalidOutput(message)),
                    None => Ok(
                        DreamerOutputView {
                            markdown,
                            files,
                            log_count: logs.len(),
                            input_bytes: super::input_size(logs),
                        },
                    ),
                },
            },
        },
    }
}

/// What the output of a dream, or the error in its place, holds.
pub open spec fn output_view(result: Result<DreamerOutput, DreamerError>) -> Result<
    DreamerOutputView,
    DreamerErrorView,
> {
    match result {
        Ok(output) => Ok(output@),
        Err(error) => Err(error@),
    }
}

/// The number of bytes of all the logs together.
pub fn input_bytes(logs: &[MemoryLog]) -> (n: usize)
    requires
        super::input_size(super::log_views(logs@)) <= usize::MAX,
    ensures
        n == super::input_size(super::log_views(logs@)),
{
    let mut n: usize = 0;
    let ghost views = super::log_views(logs@);
    let mut i: usize = 0;
    while i < logs.len()
        invariant
            i <= logs@.len(),
            views == super::log_views(logs@),
            super::input_size(views) <= usize::MAX,
            n == super::input_size(views.take(i as int)),
        decreases logs@.len() - i,
    {
        proof {
            let next = views.take(i + 1);
            assert(next.drop_last() =~= views.take(i as int));
            assert(next.last() == logs@[i as int]@);
            lemma_input_size_take(views, i + 1);
        }
        n = n + text::byte_count(logs[i].content.as_str());
        i = i + 1;
    }
    proof {
        assert(views.take(i as int) =~= views);
    }
    n
}

proof fn lemma_input_size_take(logs: Seq<MemoryLogView>, n: int)
    requires
        0 <= n <= logs.len(),
    ensures
        super::input_size(logs.take(n)) <= super::input_size(logs),
    decreases logs.len(),
{
    if n < logs.len() {
        lemma_input_size_take(logs.drop_last(), n);
        assert(logs.drop_last().take(n) =~= logs.take(n));
    } else {
        assert(logs.take(n) =~= logs);
    }
}

/// Reads a reply to the request to consolidate the logs.
pub fn finish_consolidation(
    logs: &[MemoryLog],
    reply: Result<Vec<AssistantEvent>, RuntimeError>,
    style: PathStyle,
) -> (r: Result<DreamerOutput, DreamerError>)
    requires
        super::input_size(super::log_views(logs@)) <= usize::MAX,
    ensures
        output_view(r) == consolidated(
            style,
            super::log_views(logs@),
            conversation::reply_view(reply),
        ),
{
    let events = match reply {
        Ok(events) => events,
        Err(error) => return Err(DreamerError::Api(error.message)),
    };
    let raw = collect_text_from_events(events.as_slice());
    let files: Vec<DreamerFileOutput> = match output::parse_dream_output(raw.as_str(), style) {
        Ok(files) => files,
        Err(error) => return Err(error),
    };
    let markdown = match output::find_memory_markdown(&files, style) {
        Some(markdown) => markdown,
        None => return Err(DreamerError::InvalidOutput("missing MEMORY.md output".to_owned())),
    };
    if let Err(error) = output::validate_memory_markdown(markdown.as_str()) {
        return Err(error);
    }
    let result = DreamerOutput {
        markdown,
        files,
        log_count: logs.len(),
        input_bytes: input_bytes(logs),
    };
    Ok(result)
}

/// Asks a model to consolidate the logs, and reads its reply. Without logs the model is not
/// asked.
pub fn consolidate_memory<C: ApiClient>(
    logs: &[MemoryLog],
    client: &mut C,
    style: PathStyle,
) -> (r: Result<DreamerOutput, DreamerError>)
    requires
        super::input_size(super::log_views(logs@)) <= usize::MAX,
    ensures
        logs@.len() == 0 ==> r is Err && r->Err_0@ == DreamerErrorView::NoLogs && *final(client)
            == *old(client),
        logs@.len() > 0 ==> exists|reply: Result<Seq<AssistantEventView>, Seq<char>>|
            {
                &&& #[trigger] old(client).answers(
                    consolidation_request(super::log_views(logs@)),
                    reply,
                    *final(client),
                )
                &&& output_view(r) == consolidated(style, super::log_views(logs@), reply)
            },
{
    if logs.len() == 0 {
        return Err(DreamerError::NoLogs);
    }
    let reply = client.stream(build_request(logs));
    finish_consolidation(logs, reply, style)
}

// ---------------------------------------------------------------------------
// Laws
// ---------------------------------------------------------------------------

/// The message to the model holds every log, with its name and its whole text, and the logs
/// before it in front of it.
pub proof fn law_message_holds_every_log(logs: Seq<MemoryLogView>, i: int)
    requires
        0 <= i < logs.len(),
    ensures
        (user_message(logs.take(i)) + log_section(logs[i])).is_prefix_of(user_message(logs)),
    decreases logs.len(),
{
    let start = user_message(logs.take(i)) + log_section(logs[i]);
    let whole = user_message(logs);
    let last = log_section(logs.last());
    let before = logs.drop_last();
    assert(whole =~= user_message(before) + last);
    if i == logs.len() - 1 {
        assert(logs.take(i) =~= before);
        assert(start =~= whole.subrange(0, start.len() as int));
    } else {
        law_message_holds_every_log(before, i);
        assert(before.take(i) =~= logs.take(i));
        assert(start =~= user_message(before).subrange(0, start.len() as int));
        assert(start =~= whole.subrange(0, start.len() as int));
    }
}

/// A reply is accepted only if it has a memory file with a heading.
pub proof fn law_accepted_replies_have_a_memory(
    style: PathStyle,
    logs: Seq<MemoryLogView>,
    reply: Result<Seq<AssistantEventView>, Seq<char>>,
)
    requires
        consolidated(style, logs, reply) is Ok,
    ensures
        ({
            let out = consolidated(style, logs, reply)->Ok_0;
            &&& output::memory_markdown(style, out.files) == Some(out.markdown)
            &&& output::memory_fault(out.markdown) is None
            &&& forall|i: int|
                0 <= i < out.files.len() ==> output::path_fault(
                    style,
                    (#[trigger] out.files[i]).path,
                ) is None
        }),
{
    if let Ok(events) = reply {
        output::law_parsed_files_may_be_written(style, text::trimmed(delta_text(events)));
    }
}

/// The stretches of text among events, one after another.
pub open spec fn deltas_among(events: Seq<AssistantEventView>) -> Seq<char> {
    events.filter(|event: AssistantEventView| event is TextDelta).map_values(
        |event: AssistantEventView| event->TextDelta_0,
    ).flatten()
}

/// The text of a reply is its stretches one after another, each as it is, with the white space
/// around the whole taken off, and nothing else.
pub proof fn law_reply_is_every_delta(events: &[AssistantEvent], r: String)
    requires
        call_ensures(collect_text_from_events, (events,), r),
    ensures
        r@ == text::trimmed(deltas_among(conversation::event_views(events@))),
{
    lemma_deltas_among(conversation::event_views(events@));
}

proof fn lemma_deltas_among(events: Seq<AssistantEventView>)
    ensures
        delta_text(events) == deltas_among(events),
    decreases events.len(),
{
    reveal(Seq::filter);
    let pred = |event: AssistantEventView| event is TextDelta;
    let f = |event: AssistantEventView| event->TextDelta_0;
    if events.len() == 0 {
        assert(events.filter(pred).map_values(f) =~= Seq::empty());
        assert(delta_text(events) =~= deltas_among(events));
    } else {
        let before = events.drop_last();
        lemma_deltas_among(before);
        let kept = before.filter(pred).map_values(f);
        if let AssistantEventView::TextDelta(delta) = events.last() {
            assert(events.filter(pred).map_values(f) =~= kept.push(delta));
            kept.lemma_flatten_push(delta);
        } else {
            assert(delta_text(before) + Seq::<char>::empty() =~= delta_text(before));
        }
    }
}

/// The stretches of two runs of events, one behind the other, are those of the first and then
/// those of the second; a stretch by itself is kept character for character, and any other event
/// adds nothing.
pub proof fn law_deltas_add_up(
    xs: Seq<AssistantEventView>,
    ys: Seq<AssistantEventView>,
    delta: Seq<char>,
)
    ensures
        delta_text(xs + ys) == delta_text(xs) + delta_text(ys),
        delta_text(seq![AssistantEventView::TextDelta(delta)]) == delta,
        delta_text(seq![AssistantEventView::MessageStop]) == Seq::<char>::empty(),
        delta_text(seq![AssistantEventView::Other]) == Seq::<char>::empty(),
        delta_text(Seq::empty()) == Seq::<char>::empty(),
    decreases ys.len(),
{
    let one = seq![AssistantEventView::TextDelta(delta)];
    let stop = seq![AssistantEventView::MessageStop];
    let other = seq![AssistantEventView::Other];
    assert(one.drop_last() =~= Seq::empty());
    assert(stop.drop_last() =~= Seq::empty());
    assert(other.drop_last() =~= Seq::empty());
    reveal_with_fuel(delta_text, 2);
    assert(delta_text(one) =~= delta);
    assert(delta_text(stop) =~= Seq::empty());
    assert(delta_text(other) =~= Seq::empty());
    if ys.len() == 0 {
        assert(xs + ys =~= xs);
        assert(delta_text(xs) + delta_text(ys) =~= delta_text(xs));
    } else {
        law_deltas_add_up(xs, ys.drop_last(), delta);
        assert((xs + ys).drop_last() =~= xs + ys.drop_last());
        assert((xs + ys).last() == ys.last());
        assert(delta_text(xs + ys) =~= delta_text(xs) + delta_text(ys));
    }
}

/// How a reply is cut into stretches does not matter: two stretches are read as the one text that
/// they make together.
pub proof fn law_cuts_do_not_matter(
    events: &[AssistantEvent],
    whole: &[AssistantEvent],
    n: int,
    r: String,
    s: String,
)
    requires
        call_ensures(collect_text_from_events, (events,), r),
        call_ensures(collect_text_from_events, (whole,), s),
        0 <= n < whole@.len(),
        events@.len() == whole@.len() + 1,
        forall|i: int| 0 <= i < n ==> #[trigger] events@[i]@ == whole@[i]@,
        forall|i: int| n < i < whole@.len() ==> events@[i + 1]@ == #[trigger] whole@[i]@,
        events@[n] is TextDelta,
        events@[n + 1] is TextDelta,
        whole@[n] is TextDelta,
        whole@[n]->TextDelta_0@ == events@[n]->TextDelta_0@ + events@[n + 1]->TextDelta_0@,
    ensures
        r@ == s@,
{
    let xs = conversation::event_views(events@);
    let ys = conversation::event_views(whole@);
    let a = events@[n]->TextDelta_0@;
    let b = events@[n + 1]->TextDelta_0@;
    let front = ys.take(n);
    let back = ys.skip(n + 1);
    let first = seq![AssistantEventView::TextDelta(a)];
    let second = seq![AssistantEventView::TextDelta(b)];
    let both = seq![AssistantEventView::TextDelta(a + b)];
    assert(ys =~= front + (both + back));
    assert(xs =~= front + (first + (second + back))) by {
        assert forall|i: int| 0 <= i < xs.len() implies xs[i] == (front + (first + (second
            + back)))[i] by {
            if i < n {
                assert(events@[i]@ == whole@[i]@);
            } else if i > n + 1 {
                assert(events@[i - 1 + 1]@ == whole@[i - 1]@);
            }
        }
    }
    law_deltas_add_up(front, both + back, a);
    law_deltas_add_up(both, back, a + b);
    law_deltas_add_up(front, first + (second + back), a);
    law_deltas_add_up(first, second + back, a);
    law_deltas_add_up(second, back, b);
    assert(delta_text(front) + (a + (b + delta_text(back))) =~= delta_text(front) + ((a + b)
        + delta_text(back)));
}

/// Files that are put into a reply as blocks come out of a dream as they were, however the reply is
/// cut into stretches, where one of them is a memory with a heading.
pub proof fn law_streamed_blocks_are_read_back(
    style: PathStyle,
    logs: Seq<MemoryLogView>,
    events: Seq<AssistantEventView>,
    files: Seq<DreamerFileOutputView>,
)
    requires
        files.len() > 0,
        forall|i: int|
            0 <= i < files.len() ==> blocks::stands_in_block(style, #[trigger] files[i]),
        text::trimmed(deltas_among(events)) == blocks::blocks_text(files),
        output::memory_markdown(style, files) is Some,
        output::memory_fault(output::memory_markdown(style, files)->0) is None,
    ensures
        ({
            let out = consolidated(style, logs, Ok(events));
            &&& out is Ok
            &&& out->Ok_0.files == files
            &&& output::memory_markdown(style, files) == Some(out->Ok_0.markdown)
            &&& out->Ok_0.log_count == logs.len()
            &&& out->Ok_0.input_bytes == super::input_size(logs)
        }),
{
    lemma_deltas_among(events);
    text::law_trimmed_is_stable(delta_text(events));
    blocks::law_blocks_are_read_back(style, text::trimmed(delta_text(events)), files);
}

/// A reply without blocks becomes the memory as it is, but for the white space around it.
pub proof fn law_plain_reply_becomes_the_memory(
    style: PathStyle,
    logs: Seq<MemoryLogView>,
    events: Seq<AssistantEventView>,
)
    requires
        ({
            let whole = text::trimmed(deltas_among(events));
            &&& !output::any_block(text::lines_of(whole))
            &&& output::memory_fault(whole) is None
        }),
    ensures
        ({
            let whole = text::trimmed(deltas_among(events));
            let out = consolidated(style, logs, Ok(events));
            &&& out is Ok
            &&& out->Ok_0.markdown == whole
            &&& out->Ok_0.files == seq![
                DreamerFileOutputView { path: super::MEMORY_FILENAME@, markdown: whole },
            ]
        }),
{
    lemma_deltas_among(events);
    let whole = text::trimmed(delta_text(events));
    text::law_trimmed_is_stable(delta_text(events));
    output::lemma_memory_path_may_be_written(style);
    reveal_with_fuel(output::memory_markdown, 2);
}

/// A model that fails fails the dream, with its own words.
pub proof fn law_failure_of_the_model_is_told(
    style: PathStyle,
    logs: Seq<MemoryLogView>,
    message: Seq<char>,
)
    ensures
        consolidated(style, logs, Err(message)) == Err::<DreamerOutputView, DreamerErrorView>(
            DreamerErrorView::Api(message),
        ),
{
}

/// The part of the message that carries a log holds its name and the whole of its text, unchanged,
/// under a line that says which file it is.
pub proof fn law_section_holds_the_log(log: MemoryLogView)
    ensures
        ({
            let opening = "---\nFile: "@ + log.name + "\n---\n"@;
            &&& (opening + log.content).is_prefix_of(log_section(log))
            &&& log_section(log).len() == opening.len() + log.content.len() + if log.content.len()
                > 0 && log.content.last() == '\n' {
                1int
            } else {
                2int
            }
            &&& forall|i: int|
                opening.len() + log.content.len() <= i < log_section(log).len()
                    ==> #[trigger] log_section(log)[i] == '\n'
        }),
{
    reveal_strlit("---\nFile: ");
    reveal_strlit("\n---\n");
    reveal_strlit("---\n");
    reveal_strlit("File: ");
    reveal_strlit("\n");
    let opening = "---\nFile: "@ + log.name + "\n---\n"@;
    assert(opening =~= "---\n"@ + "File: "@ + log.name + "\n"@ + "---\n"@);
    output::law_written_texts_end_with_a_line_feed(log.content);
    let whole = log_section(log);
    let ended = output::newline_ended(log.content);
    assert(whole =~= opening + ended + "\n"@);
    assert(log.content =~= ended.subrange(0, log.content.len() as int));
    assert(opening + log.content =~= whole.subrange(
        0,
        (opening.len() + log.content.len()) as int,
    ));
}

/// The message to the model is the header and then the parts of the logs, one after another.
pub proof fn law_messages_add_up(logs: Seq<MemoryLogView>, more: Seq<MemoryLogView>)
    ensures
        user_message(logs + more) == user_message(logs) + log_sections(more),
        forall|log: MemoryLogView| log_sections(#[trigger] seq![log]) == log_section(log),
        user_message(Seq::empty()) == USER_MESSAGE_HEADER@,
    decreases more.len(),
{
    assert(USER_MESSAGE_HEADER@ + log_sections(Seq::empty()) =~= USER_MESSAGE_HEADER@);
    assert forall|log: MemoryLogView| log_sections(#[trigger] seq![log]) == log_section(log) by {
        assert(seq![log].drop_last() =~= Seq::empty());
        reveal_with_fuel(log_sections, 2);
        assert(log_sections(seq![log]) =~= log_section(log));
    }
    if more.len() == 0 {
        assert(logs + more =~= logs);
        assert(user_message(logs) + log_sections(more) =~= user_message(logs));
    } else {
        law_messages_add_up(logs, more.drop_last());
        assert((logs + more).drop_last() =~= logs + more.drop_last());
        assert((logs + more).last() == more.last());
        let before = user_message(logs + more.drop_last());
        let last = log_section(more.last());
        assert(user_message(logs + more) =~= before + last);
        assert(user_message(logs) + log_sections(more.drop_last()) + last =~= user_message(logs) + (
        log_sections(more.drop_last()) + last));
    }
}

/// The model is asked with one message of the user, which carries the logs, under the prompt for
/// dreams.
pub proof fn law_request_carries_the_logs(logs: &[MemoryLog], request: ApiRequest)
    requires
        call_ensures(build_request, (logs,), request),
    ensures
        request@.system_prompt == seq![DREAMER_SYSTEM_PROMPT@],
        request@.messages.len() == 1,
        request@.messages[0].role == MessageRole::User,
        request@.messages[0].blocks == seq![
            ContentBlockView::Text { text: user_message(super::log_views(logs@)) },
        ],
{
}

/// The sizes of logs add up, each that of its text in bytes.
pub proof fn law_sizes_add_up(logs: Seq<MemoryLogView>, more: Seq<MemoryLogView>)
    ensures
        super::input_size(logs + more) == super::input_size(logs) + super::input_size(more),
        forall|log: MemoryLogView|
            super::input_size(#[trigger] seq![log]) == vstd::utf8::encode_utf8(log.content).len(),
        super::input_size(Seq::empty()) == 0,
    decreases more.len(),
{
    assert forall|log: MemoryLogView| super::input_size(#[trigger] seq![log])
        == vstd::utf8::encode_utf8(log.content).len() by {
        assert(seq![log].drop_last() =~= Seq::empty());
        reveal_with_fuel(super::input_size, 2);
    }
    if more.len() == 0 {
        assert(logs + more =~= logs);
    } else {
        law_sizes_add_up(logs, more.drop_last());
        assert((logs + more).drop_last() =~= logs + more.drop_last());
        assert((logs + more).last() == more.last());
    }
}

/// The model's reply is read step by step, and the first step that fails tells why: the text is
/// collected from the events, the files are read from the text, the memory is looked for among the
/// files, and held to its rules; what comes out are those files, that memory, and the number and
/// size of the logs.
pub proof fn law_reply_is_read_step_by_step(
    logs: &[MemoryLog],
    events: Vec<AssistantEvent>,
    style: PathStyle,
    slice: &[AssistantEvent],
    raw: String,
    text: &str,
    files: Result<Vec<DreamerFileOutput>, DreamerError>,
    memory: Option<String>,
    markdown: &str,
    verdict: Result<(), DreamerError>,
    r: Result<DreamerOutput, DreamerError>,
)
    requires
        call_ensures(
            finish_consolidation,
            (logs, Ok::<Vec<AssistantEvent>, RuntimeError>(events), style),
            r,
        ),
        slice@ == events@,
        call_ensures(collect_text_from_events, (slice,), raw),
        text@ == raw@,
        call_ensures(output::parse_dream_output, (text, style), files),
        files is Ok ==> call_ensures(
            output::find_memory_markdown,
            (&files->Ok_0, style),
            memory,
        ),
        memory is Some ==> markdown@ == memory->0@,
        call_ensures(output::validate_memory_markdown, (markdown,), verdict),
    ensures
        files is Err ==> r is Err && r->Err_0@ == files->Err_0@,
        files is Ok && memory is None ==> r is Err && r->Err_0@ == DreamerErrorView::InvalidOutput(
            "missing MEMORY.md output"@,
        ),
        files is Ok && memory is Some && verdict is Err ==> r is Err && r->Err_0@
            == verdict->Err_0@,
        files is Ok && memory is Some && verdict is Ok ==> {
            &&& r is Ok
            &&& r->Ok_0.markdown@ == memory->0@
            &&& super::file_views(r->Ok_0.files@) == super::file_views(files->Ok_0@)
            &&& r->Ok_0.log_count == logs@.len()
            &&& r->Ok_0.input_bytes == super::input_size(super::log_views(logs@))
        },
{
    assert(output_view(r) == consolidated(
        style,
        super::log_views(logs@),
        conversation::reply_view(Ok::<Vec<AssistantEvent>, RuntimeError>(events)),
    ));
}

/// A reply that failed is told in its own words.
pub proof fn law_failed_reply_is_told(
    logs: &[MemoryLog],
    error: RuntimeError,
    style: PathStyle,
    r: Result<DreamerOutput, DreamerError>,
)
    requires
        call_ensures(
            finish_consolidation,
            (logs, Err::<Vec<AssistantEvent>, RuntimeError>(error), style),
            r,
        ),
    ensures
        r is Err,
        r->Err_0@ == DreamerErrorView::Api(error.message@),
{
}

/// Without logs the model is not asked; with logs it is asked about exactly those, and what comes of
/// it is what its reply leads to.
pub proof fn law_model_is_asked_about_the_logs<C: ApiClient>(
    logs: &[MemoryLog],
    client: &mut C,
    style: PathStyle,
    r: Result<DreamerOutput, DreamerError>,
)
    requires
        call_ensures(consolidate_memory::<C>, (logs, client, style), r),
    ensures
        logs@.len() == 0 ==> {
            &&& r is Err
            &&& r->Err_0@ == DreamerErrorView::NoLogs
            &&& *final(client) == *old(client)
        },
        logs@.len() > 0 ==> exists|reply: Result<Seq<AssistantEventView>, Seq<char>>|
            {
                &&& #[trigger] old(client).answers(
                    consolidation_request(super::log_views(logs@)),
                    reply,
                    *final(client),
                )
                &&& output_view(r) == consolidated(style, super::log_views(logs@), reply)
            },
{
}

/// The message and the size are those of the logs as they are.
pub proof fn law_message_and_size(logs: &[MemoryLog], message: String, n: usize)
    requires
        call_ensures(build_user_message, (logs,), message),
        call_ensures(input_bytes, (logs,), n),
    ensures
        message@ == USER_MESSAGE_HEADER@ + log_sections(super::log_views(logs@)),
        n == super::input_size(super::log_views(logs@)),
{
}

} // verus!
