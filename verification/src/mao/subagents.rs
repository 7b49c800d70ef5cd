//! What each agent is asked, and what becomes of its reply.
use vstd::prelude::*;

use super::messages;
use super::messages::{
    InputMessage, MessageRequest, MessageRequestView, OutputContentBlock, OutputContentBlockView,
};
use super::{SubTask, SubTaskResult, SubTaskResultView, SubTaskView};
use crate::sorting;
use crate::sorting::{Rank, Ranked};
use crate::text;

verus! {

broadcast use vstd::seq::group_seq_axioms;

/// How long a reply of an agent may be, in tokens.
pub const SUBAGENT_MAX_TOKENS: u32 = 4096;

/// What the agent of a task is asked: its brief alone.
pub open spec fn task_request(model: Seq<char>, task: SubTaskView) -> MessageRequestView {
    MessageRequestView {
        model,
        max_tokens: SUBAGENT_MAX_TOKENS as nat,
        messages: seq![messages::one_text("user"@, task.brief)],
        system: Some(super::persona(task.agent)),
    }
}

/// What the agent of a task is asked.
pub fn subagent_request(model: &str, task: &SubTask) -> (request: MessageRequest)
    ensures
        request@ == task_request(model@, task@),
{
    let mut messages: Vec<InputMessage> = Vec::new();
    messages.push(InputMessage::user_text(task.brief.clone()));
    proof {
        assert(messages::input_views(messages@) =~= seq![
            messages::one_text("user"@, task.brief@),
        ]);
    }
    MessageRequest {
        model: model.to_owned(),
        max_tokens: SUBAGENT_MAX_TOKENS,
        messages,
        system: Some(super::persona_for_agent(task.agent.as_str()).to_owned()),
    }
}

/// What a reply, or the error in its place, holds.
pub open spec fn reply_view(reply: Result<Vec<OutputContentBlock>, String>) -> Result<
    Seq<OutputContentBlockView>,
    Seq<char>,
> {
    match reply {
        Ok(content) => Ok(messages::output_views(content@)),
        Err(message) => Err(message@),
    }
}

/// What comes of a task: the texts of the reply, each on a line of its own, or the error.
pub open spec fn task_result(
    task: SubTaskView,
    reply: Result<Seq<OutputContentBlockView>, Seq<char>>,
) -> SubTaskResultView {
    match reply {
        Ok(content) => SubTaskResultView {
            task,
            output: text::joined(messages::output_texts(content), "\n"@),
            error: None,
        },
        Err(message) => SubTaskResultView { task, output: Seq::empty(), error: Some(message) },
    }
}

/// What comes of a task, given what its agent replied.
pub fn subagent_result(task: SubTask, reply: Result<Vec<OutputContentBlock>, String>) -> (result:
    SubTaskResult)
    ensures
        result.task == task,
        result@ == task_result(task@, reply_view(reply)),
{
    match reply {
        Ok(content) => SubTaskResult {
            task,
            output: text::join(&messages::reply_texts(content.as_slice()), "\n"),
            error: None,
        },
        Err(message) => SubTaskResult { task, output: String::new(), error: Some(message) },
    }
}

/// Results rank by the number of their task.
impl Rank for SubTaskResult {
    open spec fn ranks_before(self, other: Self) -> bool {
        self.task.id <= other.task.id
    }

    proof fn rank_is_transitive(a: Self, b: Self, c: Self) {
    }

    proof fn rank_is_total(a: Self, b: Self) {
    }
}

/// Results rank by the number of their task.
impl Rank for SubTaskResultView {
    open spec fn ranks_before(self, other: Self) -> bool {
        self.task.id <= other.task.id
    }

    proof fn rank_is_transitive(a: Self, b: Self, c: Self) {
    }

    proof fn rank_is_total(a: Self, b: Self) {
    }
}

impl Ranked for SubTaskResult {
    fn is_ranked_before(&self, other: &Self) -> (yes: bool) {
        self.task.id <= other.task.id
    }
}

/// What there is, in order.
pub open spec fn arrived<T>(outcomes: Seq<Option<T>>) -> Seq<T>
    decreases outcomes.len(),
{
    if outcomes.len() == 0 {
        Seq::empty()
    } else {
        let before = arrived(outcomes.drop_last());
        match outcomes.last() {
            Some(result) => before.push(result),
            None => before,
        }
    }
}

/// The results of the agents, sorted by the number of their task; an agent that was lost leaves
/// none, and does not hold up the others.
pub fn collect_results(outcomes: Vec<Option<SubTaskResult>>) -> (results: Vec<SubTaskResult>)
    ensures
        sorting::stable_sort_of(results@, arrived(outcomes@)),
        results@ == sorting::stably_sorted(arrived(outcomes@)),
{
    let ghost all = outcomes@;
    let mut found: Vec<SubTaskResult> = Vec::new();
    proof {
        assert(all.take(0) =~= Seq::empty());
    }
    for outcome in it: outcomes
        invariant
            it.seq() == all,
            found@ == arrived(all.take(it.index() as int)),
    {
        let ghost n = it.index() as int;
        proof {
            let next = all.take(n + 1);
            assert(next.drop_last() =~= all.take(n));
            assert(next.last() == outcome);
        }
        if let Some(result) = outcome {
            found.push(result);
        }
    }
    proof {
        assert(all.take(all.len() as int) =~= all);
    }
    sorting::stable_sort(found)
}

/// What an optional result holds.
pub open spec fn outcome_view(outcome: Option<SubTaskResult>) -> Option<SubTaskResultView> {
    match outcome {
        Some(result) => Some(result@),
        None => None,
    }
}

/// What each of the optional results holds.
pub open spec fn outcome_views(outcomes: Seq<Option<SubTaskResult>>) -> Seq<
    Option<SubTaskResultView>,
> {
    Seq::new(outcomes.len(), |i: int| outcome_view(outcomes[i]))
}

/// What a reply holds; none comes from an agent that was lost.
pub open spec fn reply_of_view(reply: Option<Result<Vec<OutputContentBlock>, String>>) -> Option<
    Result<Seq<OutputContentBlockView>, Seq<char>>,
> {
    match reply {
        Some(reply) => Some(reply_view(reply)),
        None => None,
    }
}

/// What each of the replies holds.
pub open spec fn reply_views(
    replies: Seq<Option<Result<Vec<OutputContentBlock>, String>>>,
) -> Seq<Option<Result<Seq<OutputContentBlockView>, Seq<char>>>> {
    Seq::new(replies.len(), |i: int| reply_of_view(replies[i]))
}

/// What came of each task, given the replies in the order of the tasks: nothing where the agent
/// was lost.
pub open spec fn task_outcomes(
    tasks: Seq<SubTaskView>,
    replies: Seq<Option<Result<Seq<OutputContentBlockView>, Seq<char>>>>,
) -> Seq<Option<SubTaskResultView>> {
    Seq::new(
        tasks.len(),
        |i: int|
            if i < replies.len() && replies[i] is Some {
                Some(task_result(tasks[i], replies[i]->0))
            } else {
                None
            },
    )
}

/// The results of the tasks, sorted by the number of the task.
pub open spec fn task_results(
    tasks: Seq<SubTaskView>,
    replies: Seq<Option<Result<Seq<OutputContentBlockView>, Seq<char>>>>,
) -> Seq<SubTaskResultView> {
    sorting::stably_sorted(arrived(task_outcomes(tasks, replies)))
}

/// The results of the tasks, given what each agent replied, in the order of the tasks.
pub fn gather_results(
    tasks: Vec<SubTask>,
    replies: Vec<Option<Result<Vec<OutputContentBlock>, String>>>,
) -> (results: Vec<SubTaskResult>)
    ensures
        super::result_views(results@) == task_results(
            super::task_views(tasks@),
            reply_views(replies@),
        ),
{
    let ghost all = tasks@;
    let ghost given = replies@;
    let ghost wanted = task_outcomes(super::task_views(tasks@), reply_views(replies@));
    let mut replies = replies;
    let mut outcomes: Vec<Option<SubTaskResult>> = Vec::new();
    let mut i: usize = 0;
    assert(all.len() == tasks.len());
    for task in it: tasks
        invariant
            it.seq() == all,
            i == it.index(),
            i == outcomes@.len(),
            i <= all.len() <= usize::MAX,
            replies@.len() == given.len(),
            forall|k: int| i <= k < given.len() ==> #[trigger] replies@[k] == given[k],
            wanted == task_outcomes(super::task_views(all), reply_views(given)),
            forall|k: int| 0 <= k < i ==> outcome_view(#[trigger] outcomes@[k]) == wanted[k],
    {
        let ghost earlier = outcomes@;
        let reply = if i < replies.len() {
            replies[i].take()
        } else {
            None
        };
        proof {
            assert(super::task_views(all)[i as int] == task@);
            if i < given.len() {
                assert(reply_views(given)[i as int] == reply_of_view(given[i as int]));
            }
        }
        match reply {
            Some(reply) => outcomes.push(Some(subagent_result(task, reply))),
            None => outcomes.push(None),
        }
        proof {
            assert forall|k: int| 0 <= k < i + 1 implies outcome_view(#[trigger] outcomes@[k])
                == wanted[k] by {
                if k < i {
                    assert(outcomes@[k] == earlier[k]);
                }
            }
        }
        i = i + 1;
    }
    let ghost made = outcomes@;
    let results = collect_results(outcomes);
    proof {
        assert(outcome_views(made) =~= wanted);
        lemma_arrived_views(made);
        let f = |result: SubTaskResult| result@;
        sorting::lemma_sorted_image(results@, arrived(made), f);
        assert(results@.map_values(f) =~= super::result_views(results@));
        sorting::lemma_stably_sorted(super::result_views(results@), arrived(wanted));
    }
    results
}

proof fn lemma_arrived_views(outcomes: Seq<Option<SubTaskResult>>)
    ensures
        arrived(outcomes).map_values(|result: SubTaskResult| result@) == arrived(
            outcome_views(outcomes),
        ),
    decreases outcomes.len(),
{
    let f = |result: SubTaskResult| result@;
    let views = outcome_views(outcomes);
    if outcomes.len() == 0 {
        assert(arrived(outcomes).map_values(f) =~= arrived(views));
    } else {
        lemma_arrived_views(outcomes.drop_last());
        assert(views.drop_last() =~= outcome_views(outcomes.drop_last()));
        let before = arrived(outcomes.drop_last());
        if let Some(result) = outcomes.last() {
            assert(before.push(result).map_values(f) =~= before.map_values(f).push(result@));
        }
    }
}

// ---------------------------------------------------------------------------
// Laws
// ---------------------------------------------------------------------------

proof fn lemma_arrived_in_order<T>(outcomes: Seq<Option<T>>)
    ensures
        forall|i: int|
            0 <= i < outcomes.len() && #[trigger] outcomes[i] is Some ==> arrived(
                outcomes,
            ).contains(outcomes[i]->0),
        forall|x: T| #[trigger]
            arrived(outcomes).contains(x) ==> exists|i: int|
                0 <= i < outcomes.len() && #[trigger] outcomes[i] == Some(x),
        (forall|i: int| 0 <= i < outcomes.len() ==> #[trigger] outcomes[i] is Some) ==> arrived(
            outcomes,
        ) == Seq::new(outcomes.len(), |i: int| outcomes[i]->0),
    decreases outcomes.len(),
{
    if outcomes.len() == 0 {
        assert(arrived(outcomes) =~= Seq::new(outcomes.len(), |i: int| outcomes[i]->0));
    } else {
        let front = outcomes.drop_last();
        let before = arrived(front);
        let all = arrived(outcomes);
        let last = outcomes.len() - 1;
        lemma_arrived_in_order(front);
        assert forall|i: int| 0 <= i < outcomes.len() && #[trigger] outcomes[i] is Some implies
            all.contains(outcomes[i]->0) by {
            if i < last {
                assert(front[i] == outcomes[i]);
                assert(before.contains(outcomes[i]->0));
                let p = choose|p: int| 0 <= p < before.len() && before[p] == outcomes[i]->0;
                assert(all[p] == outcomes[i]->0);
            } else {
                assert(all[all.len() - 1] == outcomes[i]->0);
            }
        }
        assert forall|x: T| #[trigger] all.contains(x) implies exists|i: int|
            0 <= i < outcomes.len() && #[trigger] outcomes[i] == Some(x) by {
            let p = choose|p: int| 0 <= p < all.len() && all[p] == x;
            if p < before.len() {
                assert(before[p] == x);
                assert(before.contains(x));
                let i = choose|i: int| 0 <= i < front.len() && #[trigger] front[i] == Some(x);
                assert(outcomes[i] == Some(x));
            } else {
                assert(outcomes[last] == Some(x));
            }
        }
        if forall|i: int| 0 <= i < outcomes.len() ==> #[trigger] outcomes[i] is Some {
            assert forall|i: int| 0 <= i < front.len() implies #[trigger] front[i] is Some by {
                assert(outcomes[i] is Some);
            }
            assert(outcomes[last] is Some);
            assert(all =~= Seq::new(outcomes.len(), |i: int| outcomes[i]->0));
        }
    }
}

/// The results come with ascending numbers; each is that of a task whose agent was not lost, with
/// an error exactly where the agent could not be asked; each such task has its result; and where
/// no agent was lost, the tasks of the results are the tasks, each as often as it was given.
pub proof fn law_each_task_has_its_result(
    tasks: Seq<SubTaskView>,
    replies: Seq<Option<Result<Seq<OutputContentBlockView>, Seq<char>>>>,
)
    requires
        tasks.len() == replies.len(),
    ensures
        ({
            let results = task_results(tasks, replies);
            &&& forall|i: int, j: int|
                0 <= i <= j < results.len() ==> (#[trigger] results[i]).task.id <= (
                #[trigger] results[j]).task.id
            &&& forall|k: int|
                0 <= k < results.len() ==> exists|i: int|
                    0 <= i < tasks.len() && replies[i] is Some && #[trigger] results[k]
                        == #[trigger] task_result(tasks[i], replies[i]->0) && (
                    results[k].error is Some <==> replies[i]->0 is Err)
            &&& forall|i: int|
                0 <= i < tasks.len() && #[trigger] replies[i] is Some ==> results.contains(
                    task_result(tasks[i], replies[i]->0),
                )
            &&& (forall|i: int| 0 <= i < replies.len() ==> #[trigger] replies[i] is Some)
                ==> results.map_values(|result: SubTaskResultView| result.task).to_multiset()
                == tasks.to_multiset()
        }),
{
    broadcast use vstd::seq_lib::group_to_multiset_ensures;

    let outcomes = task_outcomes(tasks, replies);
    let came = arrived(outcomes);
    let results = task_results(tasks, replies);
    let f = |result: SubTaskResultView| result.task;
    sorting::law_every_sequence_can_be_sorted(came);
    lemma_arrived_in_order(outcomes);
    assert forall|i: int, j: int| 0 <= i <= j < results.len() implies (
    #[trigger] results[i]).task.id <= (#[trigger] results[j]).task.id by {
        assert(results[i].ranks_before(results[j]));
    }
    assert forall|k: int| 0 <= k < results.len() implies exists|i: int|
        0 <= i < tasks.len() && replies[i] is Some && #[trigger] results[k]
            == #[trigger] task_result(tasks[i], replies[i]->0) && (results[k].error is Some
            <==> replies[i]->0 is Err) by {
        let x = results[k];
        assert(results.contains(x));
        assert(came.to_multiset().contains(x));
        assert(came.contains(x));
        let i = choose|i: int| 0 <= i < outcomes.len() && #[trigger] outcomes[i] == Some(x);
        assert(x == task_result(tasks[i], replies[i]->0));
    }
    assert forall|i: int| 0 <= i < tasks.len() && #[trigger] replies[i] is Some implies
        results.contains(task_result(tasks[i], replies[i]->0)) by {
        let x = task_result(tasks[i], replies[i]->0);
        assert(outcomes[i] == Some(x));
        assert(came.contains(x));
        assert(results.to_multiset().contains(x));
    }
    if forall|i: int| 0 <= i < replies.len() ==> #[trigger] replies[i] is Some {
        assert forall|i: int| 0 <= i < outcomes.len() implies #[trigger] outcomes[i] is Some by {
            assert(replies[i] is Some);
        }
        sorting::lemma_images_alike(results, came, f);
        assert(came.map_values(f) =~= tasks);
    }
}

/// The results of tasks with different numbers come out in the same order, whichever agent is
/// done first.
pub proof fn law_results_do_not_depend_on_who_is_first(
    a: Seq<SubTaskResult>,
    outcomes: Seq<Option<SubTaskResult>>,
    b: Seq<SubTaskResult>,
    others: Seq<Option<SubTaskResult>>,
)
    requires
        sorting::stable_sort_of(a, arrived(outcomes)),
        sorting::stable_sort_of(b, arrived(others)),
        arrived(outcomes).to_multiset() == arrived(others).to_multiset(),
        forall|i: int, j: int|
            0 <= i < j < arrived(outcomes).len() ==> (#[trigger] arrived(outcomes)[i]).task.id != (
            #[trigger] arrived(outcomes)[j]).task.id,
    ensures
        a == b,
{
    sorting::law_sorted_in_whatever_order(a, arrived(outcomes), b, arrived(others));
}

/// A task whose agent could not be asked still has a result, which says why.
pub proof fn law_failed_task_has_a_result(task: SubTaskView, message: Seq<char>)
    ensures
        task_result(task, Err(message)).task == task,
        task_result(task, Err(message)).error == Some(message),
        task_result(task, Err(message)).output.len() == 0,
{
}

/// What an agent replied is handed on as it is: the output of its result is the texts among the
/// parts of the reply, whole and in order, with one line feed between each two.
pub proof fn law_output_is_every_text(
    task: SubTask,
    reply: Result<Vec<OutputContentBlock>, String>,
    result: SubTaskResult,
)
    requires
        call_ensures(subagent_result, (task, reply), result),
    ensures
        result.task == task,
        match reply {
            Ok(content) => {
                &&& result.error is None
                &&& result.output@ == text::joined(
                    messages::texts_among(messages::output_views(content@)),
                    seq!['\n'],
                )
            },
            Err(message) => {
                &&& result.error is Some
                &&& result.error->0@ == message@
                &&& result.output@.len() == 0
            },
        },
{
    reveal_strlit("\n");
    assert("\n"@ =~= seq!['\n']);
    if let Ok(content) = reply {
        messages::law_texts_of_a_reply(messages::output_views(content@));
    }
}

/// A reply that is one text is the output, character for character, with its fences, blank lines
/// and white space.
pub proof fn law_one_text_is_the_output(
    task: SubTask,
    content: Vec<OutputContentBlock>,
    result: SubTaskResult,
)
    requires
        call_ensures(
            subagent_result,
            (task, Ok::<Vec<OutputContentBlock>, String>(content)),
            result,
        ),
        content@.len() == 1,
        content@[0] is Text,
    ensures
        result.output@ == content@[0]->text@,
{
    let text = content@[0]->text@;
    assert(messages::output_views(content@) =~= seq![OutputContentBlockView::Text { text }]);
    messages::law_text_of_one_part(text);
}

/// The output of two replies, one behind the other, is that of the first, a line feed, and that of
/// the second, where both have a text; its length is theirs and one more.
pub proof fn law_outputs_add_up(
    task: SubTask,
    front: Vec<OutputContentBlock>,
    back: Vec<OutputContentBlock>,
    all: Vec<OutputContentBlock>,
    r: SubTaskResult,
    s: SubTaskResult,
    t: SubTaskResult,
)
    requires
        call_ensures(subagent_result, (task, Ok::<Vec<OutputContentBlock>, String>(front)), r),
        call_ensures(subagent_result, (task, Ok::<Vec<OutputContentBlock>, String>(back)), s),
        call_ensures(subagent_result, (task, Ok::<Vec<OutputContentBlock>, String>(all)), t),
        all@ == front@ + back@,
        exists|i: int| 0 <= i < front@.len() && #[trigger] front@[i] is Text,
        exists|i: int| 0 <= i < back@.len() && #[trigger] back@[i] is Text,
    ensures
        t.output@ == r.output@ + seq!['\n'] + s.output@,
        t.output@.len() == r.output@.len() + 1 + s.output@.len(),
{
    reveal_strlit("\n");
    assert("\n"@ =~= seq!['\n']);
    let a = messages::output_views(front@);
    let b = messages::output_views(back@);
    assert(messages::output_views(all@) =~= a + b);
    messages::law_texts_add_up(a, b);
    lemma_has_text(front@);
    lemma_has_text(back@);
    text::lemma_joined_add(messages::output_texts(a), messages::output_texts(b), "\n"@);
}

proof fn lemma_has_text(content: Seq<OutputContentBlock>)
    requires
        exists|i: int| 0 <= i < content.len() && #[trigger] content[i] is Text,
    ensures
        messages::output_texts(messages::output_views(content)).len() > 0,
{
    let i = choose|i: int| 0 <= i < content.len() && #[trigger] content[i] is Text;
    let views = messages::output_views(content);
    let one = seq![views[i]];
    assert(views =~= views.take(i) + (one + views.skip(i + 1)));
    messages::law_texts_add_up(views.take(i), one + views.skip(i + 1));
    messages::law_texts_add_up(one, views.skip(i + 1));
    messages::law_text_of_one_part(content[i]->text@);
}

/// An agent is told its brief as it is, and nothing of any other task, under the persona that goes
/// with its name.
pub proof fn law_agent_is_told_its_brief_alone(model: &str, task: &SubTask, request: MessageRequest)
    requires
        call_ensures(subagent_request, (model, task), request),
    ensures
        request.model@ == model@,
        request.max_tokens == 4096,
        request.system is Some,
        request.system->0@ == super::persona(task.agent@),
        request@.messages.len() == 1,
        request@.messages[0].role == "user"@,
        request@.messages[0].content == seq![task.brief@],
{
}

/// Results of tasks with the same number stay in the order in which they arrived.
pub proof fn law_same_number_keeps_its_order(
    outcomes: Vec<Option<SubTaskResult>>,
    results: Vec<SubTaskResult>,
    id: u32,
)
    requires
        call_ensures(collect_results, (outcomes,), results),
    ensures
        results@.filter(|result: SubTaskResult| result.task.id == id) == arrived(
            outcomes@,
        ).filter(|result: SubTaskResult| result.task.id == id),
        results@.len() == arrived(outcomes@).len(),
        forall|i: int, j: int|
            0 <= i <= j < results@.len() ==> (#[trigger] results@[i]).task.id <= (
            #[trigger] results@[j]).task.id,
{
    broadcast use vstd::seq_lib::group_to_multiset_ensures;

    let came = arrived(outcomes@);
    let pred = |result: SubTaskResult| result.task.id == id;
    assert(results@.len() == results@.to_multiset().len());
    assert(came.len() == came.to_multiset().len());
    assert forall|i: int, j: int| 0 <= i <= j < results@.len() implies (
    #[trigger] results@[i]).task.id <= (#[trigger] results@[j]).task.id by {
        assert(results@[i].ranks_before(results@[j]));
    }
    if exists|k: SubTaskResult| #[trigger] pred(k) {
        let k = choose|k: SubTaskResult| #[trigger] pred(k);
        assert(sorting::of_rank(results@, k) == sorting::of_rank(came, k));
        assert((|e: SubTaskResult| sorting::same_rank(e, k)) =~= pred);
    } else {
        results@.lemma_all_neg_filter_empty(pred);
        came.lemma_all_neg_filter_empty(pred);
        assert(results@.filter(pred) =~= came.filter(pred));
    }
}

/// What arrived is exactly what there is, in its order: an agent that was lost takes nothing with
/// it but its own result.
pub proof fn law_arrived<T>(front: Seq<Option<T>>, back: Seq<Option<T>>, x: T)
    ensures
        arrived(front + back) == arrived(front) + arrived(back),
        arrived(seq![Some(x)]) == seq![x],
        arrived(seq![None::<T>]) == Seq::<T>::empty(),
    decreases back.len(),
{
    assert(seq![Some(x)].drop_last() =~= Seq::empty());
    assert(seq![None::<T>].drop_last() =~= Seq::empty());
    reveal_with_fuel(arrived, 2);
    assert(arrived(seq![Some(x)]) =~= seq![x]);
    if back.len() == 0 {
        assert(front + back =~= front);
        assert(arrived(front) + arrived(back) =~= arrived(front));
    } else {
        law_arrived(front, back.drop_last(), x);
        assert((front + back).drop_last() =~= front + back.drop_last());
        assert((front + back).last() == back.last());
        assert(arrived(front + back) =~= arrived(front) + arrived(back));
    }
}

/// A task has a result exactly where there is a reply to it, and that is what comes of the task and
/// of that reply, whatever becomes of the others.
pub proof fn law_outcome_is_of_the_own_reply(
    tasks: Seq<SubTaskView>,
    replies: Seq<Option<Result<Seq<OutputContentBlockView>, Seq<char>>>>,
    i: int,
)
    requires
        0 <= i < tasks.len(),
    ensures
        task_outcomes(tasks, replies).len() == tasks.len(),
        i < replies.len() && replies[i] is Some ==> task_outcomes(tasks, replies)[i] == Some(
            task_result(tasks[i], replies[i]->0),
        ),
        i >= replies.len() || replies[i] is None ==> task_outcomes(tasks, replies)[i] is None,
{
}

/// The results of tasks and replies are what came of each task, sorted by number.
pub proof fn law_results_are_sorted_outcomes(
    tasks: Vec<SubTask>,
    replies: Vec<Option<Result<Vec<OutputContentBlock>, String>>>,
    results: Vec<SubTaskResult>,
)
    requires
        call_ensures(gather_results, (tasks, replies), results),
    ensures
        sorting::stable_sort_of(
            super::result_views(results@),
            arrived(task_outcomes(super::task_views(tasks@), reply_views(replies@))),
        ),
{
    sorting::law_every_sequence_can_be_sorted(
        arrived(task_outcomes(super::task_views(tasks@), reply_views(replies@))),
    );
}

} // verus!
