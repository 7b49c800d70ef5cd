//! How the manager is brought to split a prompt into tasks.
//!
//! The manager is asked for a list of tasks in JSON. Where its reply is no such list it is told
//! why, and asked again, until it had as many turns as it may have.
use vstd::prelude::*;

use super::messages;
use super::messages::{
    InputMessage, InputMessageView, MessageRequest, MessageRequestView, OutputContentBlock,
    OutputContentBlockView,
};
use super::{MaoError, MaoErrorView, SubTask, SubTaskView, MANAGER_SYSTEM_PROMPT};
use crate::text;

verus! {

broadcast use vstd::seq::group_seq_axioms;

/// How long a reply of the manager may be, in tokens.
pub const MANAGER_MAX_TOKENS: u32 = 2048;

/// How many turns the manager has at most.
pub const MAX_REFINEMENT_CYCLES: usize = 2;

/// What opens and closes a stretch of code.
pub const FENCE: &'static str = "```";

// ---------------------------------------------------------------------------
// The JSON in a reply
// ---------------------------------------------------------------------------

/// The lines before the first that begins with a fence.
pub open spec fn before_fence(lines: Seq<Seq<char>>) -> Seq<Seq<char>>
    decreases lines.len(),
{
    if lines.len() == 0 || FENCE@.is_prefix_of(lines[0]) {
        Seq::empty()
    } else {
        seq![lines[0]] + before_fence(lines.skip(1))
    }
}

/// The part of a reply that is to be JSON: the reply without the white space around it and, where
/// it begins with a fence, the lines between that and the next fence.
pub open spec fn json_part(raw: Seq<char>) -> Seq<char> {
    let body = text::trimmed(raw);
    if FENCE@.is_prefix_of(body) {
        text::joined(before_fence(text::lines_of(body).skip(1)), "\n"@)
    } else {
        body
    }
}

/// The part of a reply that is to be JSON.
pub fn json_text(raw: &str) -> (r: String)
    ensures
        r@ == json_part(raw@),
{
    let body = text::trim(raw);
    if !text::starts_with(body.as_str(), FENCE) {
        return body;
    }
    let lines = text::lines(body.as_str());
    let mut kept: Vec<String> = Vec::new();
    let ghost all = text::lines_of(body@);
    let ghost inner = before_fence(all.skip(1));
    let mut i: usize = 1;
    proof {
        assert(text::texts(kept@) + inner =~= inner);
    }
    while i < lines.len() && !text::starts_with(lines[i].as_str(), FENCE)
        invariant
            1 <= i,
            i <= lines@.len() || i == 1,
            text::texts(lines@) == all,
            inner == text::texts(kept@) + before_fence(all.skip(i as int)),
        decreases lines@.len() - i,
    {
        let ghost so_far = text::texts(kept@);
        let ghost rest = all.skip(i as int);
        kept.push(lines[i].clone());
        proof {
            assert(rest[0] == lines@[i as int]@);
            assert(rest.skip(1) =~= all.skip(i + 1));
            assert(text::texts(kept@) =~= so_far.push(rest[0]));
            assert(so_far + (seq![rest[0]] + before_fence(rest.skip(1))) =~= so_far.push(rest[0])
                + before_fence(rest.skip(1)));
        }
        i = i + 1;
    }
    proof {
        let rest = all.skip(i as int);
        if i < lines@.len() {
            assert(rest[0] == lines@[i as int]@);
        }
        assert(before_fence(rest) =~= Seq::empty());
        assert(text::texts(kept@) + Seq::<Seq<char>>::empty() =~= text::texts(kept@));
    }
    text::join(&kept, "\n")
}

// ---------------------------------------------------------------------------
// Stages, actions and events
// ---------------------------------------------------------------------------

/// What came of the splitting.
pub open spec fn outcome_view(result: Result<Vec<SubTask>, MaoError>) -> Result<
    Seq<SubTaskView>,
    MaoErrorView,
> {
    match result {
        Ok(tasks) => Ok(super::task_views(tasks@)),
        Err(error) => Err(error@),
    }
}

/// How far the splitting has come.
pub enum ManagerStage {
    /// The manager is to be asked.
    Asking,
    /// The manager's reply, the first text of which is `raw`, is to be parsed.
    Reading { raw: String },
    /// The splitting is over.
    Finished { result: Result<Vec<SubTask>, MaoError> },
}

/// What a stage holds.
pub enum ManagerStageView {
    Asking,
    Reading { raw: Seq<char> },
    Finished { result: Result<Seq<SubTaskView>, MaoErrorView> },
}

impl View for ManagerStage {
    type V = ManagerStageView;

    open spec fn view(&self) -> ManagerStageView {
        match *self {
            ManagerStage::Asking => ManagerStageView::Asking,
            ManagerStage::Reading { raw } => ManagerStageView::Reading { raw: raw@ },
            ManagerStage::Finished { result } => ManagerStageView::Finished {
                result: outcome_view(result),
            },
        }
    }
}

/// The splitting of a prompt.
pub struct Decomposition {
    pub model: String,
    pub max_refinement_cycles: usize,
    pub cycle: usize,
    pub messages: Vec<InputMessage>,
    pub stage: ManagerStage,
}

/// What the splitting of a prompt holds.
#[verifier::ext_equal]
pub struct DecompositionView {
    pub model: Seq<char>,
    /// How many turns the manager may have. It has one in any event.
    pub max_refinement_cycles: nat,
    /// How many turns of the manager ended without a list of tasks, before the present one.
    pub cycle: nat,
    pub messages: Seq<InputMessageView>,
    pub stage: ManagerStageView,
}

impl View for Decomposition {
    type V = DecompositionView;

    open spec fn view(&self) -> DecompositionView {
        DecompositionView {
            model: self.model@,
            max_refinement_cycles: self.max_refinement_cycles as nat,
            cycle: self.cycle as nat,
            messages: messages::input_views(self.messages@),
            stage: self.stage@,
        }
    }
}

/// What is to be done next.
pub enum ManagerAction<'a> {
    /// Send the request to the manager.
    Send(MessageRequest),
    /// Parse the text as a list of tasks.
    Parse(String),
    /// Nothing: the splitting is over.
    Finish(&'a Result<Vec<SubTask>, MaoError>),
}

/// What an action holds.
pub enum ManagerActionView {
    Send(MessageRequestView),
    Parse(Seq<char>),
    Finish(Result<Seq<SubTaskView>, MaoErrorView>),
}

impl<'a> View for ManagerAction<'a> {
    type V = ManagerActionView;

    open spec fn view(&self) -> ManagerActionView {
        match *self {
            ManagerAction::Send(request) => ManagerActionView::Send(request@),
            ManagerAction::Parse(json) => ManagerActionView::Parse(json@),
            ManagerAction::Finish(result) => ManagerActionView::Finish(outcome_view(*result)),
        }
    }
}

/// What came of an action.
pub enum ManagerEvent {
    /// The manager replied.
    Replied(Vec<OutputContentBlock>),
    /// The manager could not be asked, with the text of the error.
    Unanswered(String),
    /// The text is a list of tasks.
    Parsed(Vec<SubTask>),
    /// The text is no list of tasks, with the text of the error.
    Unparsed(String),
}

/// What an event holds.
pub enum ManagerEventView {
    Replied(Seq<OutputContentBlockView>),
    Unanswered(Seq<char>),
    Parsed(Seq<SubTaskView>),
    Unparsed(Seq<char>),
}

impl View for ManagerEvent {
    type V = ManagerEventView;

    open spec fn view(&self) -> ManagerEventView {
        match *self {
            ManagerEvent::Replied(content) => ManagerEventView::Replied(
                messages::output_views(content@),
            ),
            ManagerEvent::Unanswered(message) => ManagerEventView::Unanswered(message@),
            ManagerEvent::Parsed(tasks) => ManagerEventView::Parsed(super::task_views(tasks@)),
            ManagerEvent::Unparsed(message) => ManagerEventView::Unparsed(message@),
        }
    }
}

// ---------------------------------------------------------------------------
// The course of the splitting
// ---------------------------------------------------------------------------

/// The splitting of a prompt before anything is done.
pub open spec fn decomposition(
    model: Seq<char>,
    user_prompt: Seq<char>,
    max_refinement_cycles: nat,
) -> DecompositionView {
    DecompositionView {
        model,
        max_refinement_cycles,
        cycle: 0,
        messages: seq![messages::one_text("user"@, user_prompt)],
        stage: ManagerStageView::Asking,
    }
}

/// What the manager is asked, given what was said so far.
pub open spec fn manager_request(
    model: Seq<char>,
    said: Seq<InputMessageView>,
) -> MessageRequestView {
    MessageRequestView {
        model,
        max_tokens: MANAGER_MAX_TOKENS as nat,
        messages: said,
        system: Some(MANAGER_SYSTEM_PROMPT@),
    }
}

/// What is to be done at a stage.
pub open spec fn action_of(d: DecompositionView) -> ManagerActionView {
    match d.stage {
        ManagerStageView::Asking => ManagerActionView::Send(manager_request(d.model, d.messages)),
        ManagerStageView::Reading { raw } => ManagerActionView::Parse(json_part(raw)),
        ManagerStageView::Finished { result } => ManagerActionView::Finish(result),
    }
}

/// What the manager is told of a reply that could not be parsed.
pub open spec fn correction(parse_error: Seq<char>) -> Seq<char> {
    "Your output could not be parsed as JSON: "@ + parse_error
        + ".\nRespond with ONLY a valid JSON array of sub-task objects and nothing else."@
}

/// The text of the error after the last reply that could not be parsed.
pub open spec fn exhausted(
    max_refinement_cycles: nat,
    parse_error: Seq<char>,
    raw: Seq<char>,
) -> Seq<char> {
    "After "@ + text::decimal(max_refinement_cycles)
        + " refinement cycle(s), Manager still produced invalid JSON.\nLast parse error: "@
        + parse_error + "\nLast response:\n"@ + raw
}

/// The splitting after an event. An event that no action of the stage can lead to changes nothing.
pub open spec fn decomposition_after(
    d: DecompositionView,
    event: ManagerEventView,
) -> DecompositionView {
    match (d.stage, event) {
        (ManagerStageView::Asking, ManagerEventView::Replied(content)) => DecompositionView {
            stage: ManagerStageView::Reading { raw: messages::first_text(content) },
            ..d
        },
        (ManagerStageView::Asking, ManagerEventView::Unanswered(message)) => DecompositionView {
            stage: ManagerStageView::Finished { result: Err(MaoErrorView::Api(message)) },
            ..d
        },
        (ManagerStageView::Reading { .. }, ManagerEventView::Parsed(tasks)) => DecompositionView {
            stage: ManagerStageView::Finished {
                result: if tasks.len() == 0 {
                    Err(MaoErrorView::NoTasks)
                } else {
                    Ok(tasks)
                },
            },
            ..d
        },
        (ManagerStageView::Reading { raw }, ManagerEventView::Unparsed(message)) => if d.cycle + 1
            >= d.max_refinement_cycles {
            DecompositionView {
                stage: ManagerStageView::Finished {
                    result: Err(
                        MaoErrorView::ParseJson(exhausted(d.max_refinement_cycles, message, raw)),
                    ),
                },
                ..d
            }
        } else {
            DecompositionView {
                cycle: d.cycle + 1,
                messages: d.messages.push(messages::one_text("assistant"@, raw)).push(
                    messages::one_text("user"@, correction(message)),
                ),
                stage: ManagerStageView::Asking,
                ..d
            }
        },
        _ => d,
    }
}

/// What the manager is told of a reply that could not be parsed.
fn correction_text(parse_error: &str) -> (r: String)
    ensures
        r@ == correction(parse_error@),
{
    let mut r: String = "Your output could not be parsed as JSON: ".to_owned();
    r.append(parse_error);
    r.append(".\nRespond with ONLY a valid JSON array of sub-task objects and nothing else.");
    r
}

/// The text of the error after the last reply that could not be parsed.
fn exhausted_text(max_refinement_cycles: usize, parse_error: &str, raw: &str) -> (r: String)
    ensures
        r@ == exhausted(max_refinement_cycles as nat, parse_error@, raw@),
{
    let mut r: String = "After ".to_owned();
    r.append(text::decimal_string(max_refinement_cycles as u128).as_str());
    r.append(" refinement cycle(s), Manager still produced invalid JSON.\nLast parse error: ");
    r.append(parse_error);
    r.append("\nLast response:\n");
    r.append(raw);
    r
}

impl Decomposition {
    /// The splitting of a prompt before anything is done.
    pub fn start(model: &str, user_prompt: &str, max_refinement_cycles: usize) -> (d: Self)
        ensures
            d@ == decomposition(model@, user_prompt@, max_refinement_cycles as nat),
    {
        let mut messages: Vec<InputMessage> = Vec::new();
        messages.push(InputMessage::user_text(user_prompt.to_owned()));
        let d = Decomposition {
            model: model.to_owned(),
            max_refinement_cycles,
            cycle: 0,
            messages,
            stage: ManagerStage::Asking,
        };
        proof {
            assert(d@ =~= decomposition(model@, user_prompt@, max_refinement_cycles as nat));
        }
        d
    }

    /// What is to be done next.
    pub fn action(&self) -> (action: ManagerAction<'_>)
        ensures
            action@ == action_of(self@),
    {
        match &self.stage {
            ManagerStage::Asking => ManagerAction::Send(
                MessageRequest {
                    model: self.model.clone(),
                    max_tokens: MANAGER_MAX_TOKENS,
                    messages: messages::copy_messages(&self.messages),
                    system: Some(MANAGER_SYSTEM_PROMPT.to_owned()),
                },
            ),
            ManagerStage::Reading { raw } => ManagerAction::Parse(json_text(raw.as_str())),
            ManagerStage::Finished { result } => ManagerAction::Finish(result),
        }
    }

    /// The splitting after an event.
    pub fn next(self, event: ManagerEvent) -> (d: Self)
        ensures
            d@ == decomposition_after(self@, event@),
    {
        let Decomposition { model, max_refinement_cycles, cycle, messages, stage } = self;
        match (stage, event) {
            (ManagerStage::Asking, ManagerEvent::Replied(content)) => Decomposition {
                model,
                max_refinement_cycles,
                cycle,
                messages,
                stage: ManagerStage::Reading {
                    raw: messages::first_reply_text(content.as_slice()),
                },
            },
            (ManagerStage::Asking, ManagerEvent::Unanswered(message)) => Decomposition {
                model,
                max_refinement_cycles,
                cycle,
                messages,
                stage: ManagerStage::Finished { result: Err(MaoError::Api(message)) },
            },
            (ManagerStage::Reading { .. }, ManagerEvent::Parsed(tasks)) => Decomposition {
                model,
                max_refinement_cycles,
                cycle,
                messages,
                stage: ManagerStage::Finished {
                    result: if tasks.len() == 0 {
                        Err(MaoError::NoTasks)
                    } else {
                        Ok(tasks)
                    },
                },
            },
            (ManagerStage::Reading { raw }, ManagerEvent::Unparsed(message)) => {
                if cycle >= max_refinement_cycles || cycle + 1 >= max_refinement_cycles {
                    let text = exhausted_text(max_refinement_cycles, message.as_str(), raw.as_str());
                    return Decomposition {
                        model,
                        max_refinement_cycles,
                        cycle,
                        messages,
                        stage: ManagerStage::Finished { result: Err(MaoError::ParseJson(text)) },
                    };
                }
                let ghost said = messages::input_views(messages@);
                let mut messages = messages;
                messages.push(InputMessage::of_text("assistant", raw));
                messages.push(InputMessage::user_text(correction_text(message.as_str())));
                let d = Decomposition {
                    model,
                    max_refinement_cycles,
                    cycle: cycle + 1,
                    messages,
                    stage: ManagerStage::Asking,
                };
                proof {
                    assert(messages::input_views(messages@) =~= said.push(
                        messages::one_text("assistant"@, raw@),
                    ).push(messages::one_text("user"@, correction(message@))));
                    assert(d@ =~= decomposition_after(self@, event@));
                }
                d
            },
            (stage, _) => Decomposition { model, max_refinement_cycles, cycle, messages, stage },
        }
    }

    /// What came of the splitting, if it is over.
    pub fn into_outcome(self) -> (outcome: Option<Result<Vec<SubTask>, MaoError>>)
        ensures
            outcome == match self.stage {
                ManagerStage::Finished { result } => Some(result),
                _ => None,
            },
    {
        match self.stage {
            ManagerStage::Finished { result } => Some(result),
            _ => None,
        }
    }
}

// ---------------------------------------------------------------------------
// Laws
// ---------------------------------------------------------------------------

/// The splitting after some events, one after another.
pub open spec fn decomposition_run(
    d: DecompositionView,
    events: Seq<ManagerEventView>,
) -> DecompositionView
    decreases events.len(),
{
    if events.len() == 0 {
        d
    } else {
        decomposition_after(decomposition_run(d, events.drop_last()), events.last())
    }
}

/// Whether an action of the stage can lead to the event.
pub open spec fn fits(stage: ManagerStageView, event: ManagerEventView) -> bool {
    match stage {
        ManagerStageView::Asking => event is Replied || event is Unanswered,
        ManagerStageView::Reading { .. } => event is Parsed || event is Unparsed,
        ManagerStageView::Finished { .. } => false,
    }
}

/// Whether each of the events can come of what was to be done before it.
pub open spec fn possible(d: DecompositionView, events: Seq<ManagerEventView>) -> bool {
    forall|n: int|
        0 <= n < events.len() ==> fits(
            decomposition_run(d, #[trigger] events.take(n)).stage,
            events[n],
        )
}

/// How often the manager was asked, up to the last of the events.
pub open spec fn requests(d: DecompositionView, events: Seq<ManagerEventView>) -> nat
    decreases events.len(),
{
    if events.len() == 0 {
        0
    } else {
        let before = requests(d, events.drop_last());
        if decomposition_run(d, events.drop_last()).stage is Asking && fits(
            ManagerStageView::Asking,
            events.last(),
        ) {
            before + 1
        } else {
            before
        }
    }
}

/// What holds of a splitting that began with the prompt: the manager has not had more turns than
/// it may have; what was said is the prompt, then by turns a reply and what was wrong with it; and
/// a list of tasks that came out has a task.
pub open spec fn on_course(
    d: DecompositionView,
    model: Seq<char>,
    user_prompt: Seq<char>,
    max_refinement_cycles: nat,
) -> bool {
    &&& d.model == model
    &&& d.max_refinement_cycles == max_refinement_cycles
    &&& max_refinement_cycles >= 1 ==> d.cycle < max_refinement_cycles
    &&& max_refinement_cycles == 0 ==> d.cycle == 0
    &&& d.messages.len() == 2 * d.cycle + 1
    &&& d.messages[0] == messages::one_text("user"@, user_prompt)
    &&& forall|i: int|
        0 <= i < d.messages.len() ==> (#[trigger] d.messages[i]).role == if i % 2 == 0 {
            "user"@
        } else {
            "assistant"@
        }
    &&& d.stage matches ManagerStageView::Finished { result: Ok(tasks) } ==> tasks.len() > 0
}

/// Whatever the manager replies, it never has more turns than it may have, where it may have any,
/// and else no more than one; the prompt stays the first message, and the others are, by turns, a
/// reply and what was wrong with it; and a list of tasks that comes out is never empty.
pub proof fn law_decomposition_keeps_its_course(
    model: Seq<char>,
    user_prompt: Seq<char>,
    max_refinement_cycles: nat,
    events: Seq<ManagerEventView>,
)
    ensures
        on_course(
            decomposition_run(decomposition(model, user_prompt, max_refinement_cycles), events),
            model,
            user_prompt,
            max_refinement_cycles,
        ),
        max_refinement_cycles >= 1 ==> requests(
            decomposition(model, user_prompt, max_refinement_cycles),
            events,
        ) <= max_refinement_cycles,
        max_refinement_cycles == 0 ==> requests(
            decomposition(model, user_prompt, max_refinement_cycles),
            events,
        ) <= 1,
{
    lemma_course(model, user_prompt, max_refinement_cycles, events);
}

/// A splitting that is on its course stays there, whatever comes of its action.
pub proof fn law_course_is_kept(
    d: DecompositionView,
    event: ManagerEventView,
    model: Seq<char>,
    user_prompt: Seq<char>,
    max_refinement_cycles: nat,
)
    requires
        on_course(d, model, user_prompt, max_refinement_cycles),
    ensures
        on_course(
            decomposition_after(d, event),
            model,
            user_prompt,
            max_refinement_cycles,
        ),
{
}

proof fn lemma_course(
    model: Seq<char>,
    user_prompt: Seq<char>,
    max_refinement_cycles: nat,
    events: Seq<ManagerEventView>,
)
    ensures
        ({
            let start = decomposition(model, user_prompt, max_refinement_cycles);
            let d = decomposition_run(start, events);
            &&& on_course(d, model, user_prompt, max_refinement_cycles)
            &&& requests(start, events) == if d.stage is Asking {
                d.cycle
            } else {
                d.cycle + 1
            }
        }),
    decreases events.len(),
{
    let start = decomposition(model, user_prompt, max_refinement_cycles);
    if events.len() > 0 {
        lemma_course(model, user_prompt, max_refinement_cycles, events.drop_last());
        let d = decomposition_run(start, events.drop_last());
        let e = decomposition_run(start, events);
        assert(e == decomposition_after(d, events.last()));
    }
}

/// How many turns the manager has at most.
pub open spec fn turns(max_refinement_cycles: nat) -> nat {
    if max_refinement_cycles == 0 {
        1
    } else {
        max_refinement_cycles
    }
}

/// How many more events a splitting takes at most.
pub open spec fn steps_left(d: DecompositionView) -> int {
    match d.stage {
        ManagerStageView::Asking => 2 * (turns(d.max_refinement_cycles) - d.cycle),
        ManagerStageView::Reading { .. } => 2 * (turns(d.max_refinement_cycles) - d.cycle) - 1,
        ManagerStageView::Finished { .. } => 0,
    }
}

/// The splitting comes to an end: no matter what comes of the actions, it is over after two
/// events for each turn that the manager has at most.
pub proof fn law_decomposition_ends(
    model: Seq<char>,
    user_prompt: Seq<char>,
    max_refinement_cycles: nat,
    events: Seq<ManagerEventView>,
)
    requires
        possible(decomposition(model, user_prompt, max_refinement_cycles), events),
    ensures
        events.len() <= 2 * turns(max_refinement_cycles),
        events.len() == 2 * turns(max_refinement_cycles) ==> decomposition_run(
            decomposition(model, user_prompt, max_refinement_cycles),
            events,
        ).stage is Finished,
{
    lemma_steps(model, user_prompt, max_refinement_cycles, events);
}

proof fn lemma_steps(
    model: Seq<char>,
    user_prompt: Seq<char>,
    max_refinement_cycles: nat,
    events: Seq<ManagerEventView>,
)
    requires
        possible(decomposition(model, user_prompt, max_refinement_cycles), events),
    ensures
        ({
            let d = decomposition_run(
                decomposition(model, user_prompt, max_refinement_cycles),
                events,
            );
            &&& steps_left(d) >= 0
            &&& steps_left(d) == 0 ==> d.stage is Finished
            &&& events.len() + steps_left(d) <= 2 * turns(max_refinement_cycles)
        }),
    decreases events.len(),
{
    let start = decomposition(model, user_prompt, max_refinement_cycles);
    lemma_course(model, user_prompt, max_refinement_cycles, events);
    if events.len() > 0 {
        let before = events.drop_last();
        let n = before.len() as int;
        assert(events.take(n) =~= before);
        assert(fits(decomposition_run(start, events.take(n)).stage, events[n]));
        assert forall|i: int| 0 <= i < before.len() implies fits(
            decomposition_run(start, #[trigger] before.take(i)).stage,
            before[i],
        ) by {
            assert(before.take(i) =~= events.take(i));
        }
        lemma_steps(model, user_prompt, max_refinement_cycles, before);
        lemma_course(model, user_prompt, max_refinement_cycles, before);
    }
}

/// A list of tasks between fences: what stands behind the opening fence, the text, and the
/// closing fence, each on lines of their own.
pub open spec fn fenced(info: Seq<char>, body: Seq<char>) -> Seq<char> {
    FENCE@ + info + "\n"@ + body + "\n"@ + FENCE@
}

/// A text between fences is handed to the parser as it is, whatever stands behind the opening
/// fence and around the whole, unless one of its lines begins with a fence.
pub proof fn law_fences_are_taken_off(raw: Seq<char>, info: Seq<char>, body: Seq<char>)
    requires
        text::trimmed(raw) == fenced(info, body),
        text::plain_line(info),
        text::returns_stay(body),
        forall|i: int|
            0 <= i < text::pieces_of(body, '\n').len() ==> !FENCE@.is_prefix_of(
                #[trigger] text::pieces_of(body, '\n')[i],
            ),
    ensures
        json_part(raw) == body,
{
    reveal_strlit("```");
    reveal_strlit("\n");
    let whole = fenced(info, body);
    let opening = FENCE@ + info;
    let pieces = text::pieces_of(body, '\n');
    let closing = seq![FENCE@];
    text::lemma_pieces_are_plain_lines(body);
    text::law_joined_pieces(body, '\n');
    assert("\n"@ =~= seq!['\n']);
    let lines = seq![opening] + (pieces + closing);
    text::lemma_joined_front(opening, pieces + closing, "\n"@);
    text::lemma_joined_add(pieces, closing, "\n"@);
    assert(text::joined(closing, "\n"@) == FENCE@);
    assert(text::joined(lines, "\n"@) =~= whole);
    assert forall|i: int| 0 <= i < lines.len() implies text::plain_line(#[trigger] lines[i]) by {
        if i == 0 {
            assert(lines[0] == opening);
            if info.len() == 0 {
                assert(opening =~= FENCE@);
            } else {
                assert(opening.last() == info.last());
            }
        } else if i <= pieces.len() {
            assert(lines[i] == pieces[i - 1]);
        }
    }
    text::law_lines_of_joined(lines);
    assert(lines.skip(1) =~= pieces + closing);
    assert(FENCE@ =~= whole.subrange(0, 3));
    lemma_before_fence(pieces);
}

proof fn lemma_before_fence(lines: Seq<Seq<char>>)
    requires
        forall|i: int| 0 <= i < lines.len() ==> !FENCE@.is_prefix_of(#[trigger] lines[i]),
    ensures
        before_fence(lines + seq![FENCE@]) == lines,
    decreases lines.len(),
{
    let all = lines + seq![FENCE@];
    if lines.len() == 0 {
        assert(all[0] == FENCE@);
        assert(FENCE@ =~= FENCE@.subrange(0, FENCE@.len() as int));
        assert(before_fence(all) =~= lines);
    } else {
        let rest = lines.skip(1);
        assert forall|i: int| 0 <= i < rest.len() implies !FENCE@.is_prefix_of(
            #[trigger] rest[i],
        ) by {
            assert(rest[i] == lines[i + 1]);
        }
        lemma_before_fence(rest);
        assert(all.skip(1) =~= rest + seq![FENCE@]);
        assert(all[0] == lines[0]);
        assert(seq![lines[0]] + rest =~= lines);
    }
}

/// A reply that parses, whichever it is, ends the splitting with its tasks, as they are.
pub proof fn law_first_list_of_tasks_is_taken(d: DecompositionView, tasks: Seq<SubTaskView>)
    requires
        d.stage is Reading,
        tasks.len() > 0,
    ensures
        action_of(decomposition_after(d, ManagerEventView::Parsed(tasks)))
            == ManagerActionView::Finish(Ok(tasks)),
{
}

/// Whether the line at `end` is the first, from `start` on, that begins with a fence; or there is
/// none, and `end` is the number of lines.
pub open spec fn fence_at(lines: Seq<Seq<char>>, start: int, end: int) -> bool {
    &&& start <= end <= lines.len()
    &&& forall|j: int| start <= j < end ==> !FENCE@.is_prefix_of(#[trigger] lines[j])
    &&& end < lines.len() ==> FENCE@.is_prefix_of(lines[end])
}

proof fn lemma_lines_before_fence(lines: Seq<Seq<char>>, start: int) -> (end: int)
    requires
        0 <= start <= lines.len(),
    ensures
        fence_at(lines, start, end),
        before_fence(lines.skip(start)) == lines.subrange(start, end),
    decreases lines.len() - start,
{
    let rest = lines.skip(start);
    if start == lines.len() || FENCE@.is_prefix_of(lines[start]) {
        assert(before_fence(rest) =~= lines.subrange(start, start));
        start
    } else {
        let end = lemma_lines_before_fence(lines, start + 1);
        assert(rest.skip(1) =~= lines.skip(start + 1));
        assert(before_fence(rest) =~= lines.subrange(start, end));
        end
    }
}

/// What is parsed is the reply as it is, without the white space around it; where it begins with a
/// fence, it is the lines behind the first up to the next that begins with one, or to the last, and
/// nothing of what comes behind.
pub proof fn law_json_in_a_reply(raw: &str, r: String) -> (end: int)
    requires
        call_ensures(json_text, (raw,), r),
    ensures
        ({
            let whole = text::trimmed(raw@);
            let lines = text::lines_of(whole);
            &&& !seq!['`', '`', '`'].is_prefix_of(whole) ==> r@ == whole
            &&& seq!['`', '`', '`'].is_prefix_of(whole) ==> {
                &&& lines.len() > 0
                &&& fence_at(lines, 1, end)
                &&& r@ == text::joined(lines.subrange(1, end), seq!['\n'])
            }
        }),
{
    reveal_strlit("```");
    reveal_strlit("\n");
    assert(FENCE@ =~= seq!['`', '`', '`']);
    assert("\n"@ =~= seq!['\n']);
    let whole = text::trimmed(raw@);
    let lines = text::lines_of(whole);
    if FENCE@.is_prefix_of(whole) {
        assert(whole.len() >= 3);
        assert(lines.len() > 0);
        lemma_lines_before_fence(lines, 1)
    } else {
        0
    }
}

/// The manager is first asked about the prompt alone, as it is, and each time for a list of tasks.
pub proof fn law_manager_is_asked_about_the_prompt(
    model: &str,
    user_prompt: &str,
    max_refinement_cycles: usize,
    d: Decomposition,
)
    requires
        call_ensures(Decomposition::start, (model, user_prompt, max_refinement_cycles), d),
    ensures
        action_of(d@) is Send,
        ({
            let request = action_of(d@)->Send_0;
            &&& request.model == model@
            &&& request.max_tokens == 2048
            &&& request.system == Some(MANAGER_SYSTEM_PROMPT@)
            &&& request.messages.len() == 1
            &&& request.messages[0].role == "user"@
            &&& request.messages[0].content == seq![user_prompt@]
        }),
{
}

/// Of a reply the first text is parsed, and nothing else of it.
pub proof fn law_first_text_is_parsed(
    d: DecompositionView,
    content: Seq<OutputContentBlockView>,
    n: int,
)
    requires
        d.stage is Asking,
        0 <= n < content.len(),
        content[n] is Text,
        forall|i: int| 0 <= i < n ==> #[trigger] content[i] is Other,
    ensures
        action_of(decomposition_after(d, ManagerEventView::Replied(content)))
            == ManagerActionView::Parse(json_part(content[n]->text)),
{
    messages::lemma_first_text(content, n);
}

/// A reply that could not be parsed is put before the manager again, as it was, with what was wrong
/// with it in the words of the parser, behind all that was said before; and the manager is asked
/// once more.
pub proof fn law_manager_sees_what_was_wrong(
    d: DecompositionView,
    content: Seq<OutputContentBlockView>,
    message: Seq<char>,
)
    requires
        d.stage is Asking,
        d.cycle + 1 < d.max_refinement_cycles,
    ensures
        ({
            let next = decomposition_after(
                decomposition_after(d, ManagerEventView::Replied(content)),
                ManagerEventView::Unparsed(message),
            );
            let n = d.messages.len() as int;
            &&& action_of(next) is Send
            &&& action_of(next)->Send_0.messages.len() == n + 2
            &&& action_of(next)->Send_0.messages.take(n) == d.messages
            &&& action_of(next)->Send_0.messages[n] == (InputMessageView {
                role: "assistant"@,
                content: seq![messages::first_text(content)],
            })
            &&& action_of(next)->Send_0.messages[n + 1] == (InputMessageView {
                role: "user"@,
                content: seq![
                    "Your output could not be parsed as JSON: "@ + message
                        + ".\nRespond with ONLY a valid JSON array of sub-task objects and nothing else."@,
                ],
            })
            &&& action_of(next)->Send_0.model == d.model
            &&& next.cycle == d.cycle + 1
        }),
{
    let next = decomposition_after(
        decomposition_after(d, ManagerEventView::Replied(content)),
        ManagerEventView::Unparsed(message),
    );
    assert(next.messages.take(d.messages.len() as int) =~= d.messages);
}

/// After its last turn the error of the parser and the last reply are told as they are.
pub proof fn law_last_reply_is_told(
    d: DecompositionView,
    content: Seq<OutputContentBlockView>,
    message: Seq<char>,
)
    requires
        d.stage is Asking,
        d.cycle + 1 >= d.max_refinement_cycles,
    ensures
        ({
            let next = decomposition_after(
                decomposition_after(d, ManagerEventView::Replied(content)),
                ManagerEventView::Unparsed(message),
            );
            let raw = messages::first_text(content);
            &&& action_of(next) is Finish
            &&& action_of(next)->Finish_0 is Err
            &&& action_of(next)->Finish_0->Err_0 is ParseJson
            &&& ("\nLast parse error: "@ + message + "\nLast response:\n"@ + raw).is_suffix_of(
                action_of(next)->Finish_0->Err_0->ParseJson_0,
            )
        }),
{
    let raw = messages::first_text(content);
    let told = exhausted(d.max_refinement_cycles, message, raw);
    let end = "\nLast parse error: "@ + message + "\nLast response:\n"@ + raw;
    reveal_strlit(" refinement cycle(s), Manager still produced invalid JSON.\nLast parse error: ");
    reveal_strlit(" refinement cycle(s), Manager still produced invalid JSON.");
    reveal_strlit("\nLast parse error: ");
    assert(" refinement cycle(s), Manager still produced invalid JSON.\nLast parse error: "@
        =~= " refinement cycle(s), Manager still produced invalid JSON."@
        + "\nLast parse error: "@);
    assert(end =~= told.subrange(told.len() - end.len(), told.len() as int));
}

/// A manager that could not be asked ends the splitting with the words of the failure; a list
/// without tasks ends it too; and what comes after the end changes nothing.
pub proof fn law_failures_of_the_manager(
    d: DecompositionView,
    message: Seq<char>,
    event: ManagerEventView,
)
    ensures
        d.stage is Asking ==> action_of(
            decomposition_after(d, ManagerEventView::Unanswered(message)),
        ) == ManagerActionView::Finish(Err(MaoErrorView::Api(message))),
        d.stage is Reading ==> action_of(
            decomposition_after(d, ManagerEventView::Parsed(Seq::empty())),
        ) == ManagerActionView::Finish(Err(MaoErrorView::NoTasks)),
        d.stage is Finished ==> decomposition_after(d, event) == d,
{
}

/// What is to be done next is what the stage asks for, and what comes after an event is what the
/// event leads to.
pub proof fn law_splitting_goes_as_described(
    d: Decomposition,
    at: &Decomposition,
    action: ManagerAction<'_>,
    event: ManagerEvent,
    next: Decomposition,
    outcome: Option<Result<Vec<SubTask>, MaoError>>,
)
    requires
        call_ensures(Decomposition::action, (at,), action),
        call_ensures(Decomposition::next, (d, event), next),
        call_ensures(Decomposition::into_outcome, (d,), outcome),
    ensures
        action@ == action_of(at@),
        next@ == decomposition_after(d@, event@),
        outcome is Some <==> action_of(d@) is Finish,
        outcome is Some ==> action_of(d@) == ManagerActionView::Finish(outcome_view(outcome->0)),
{
}

} // verus!
