//! An orchestration from start to end, as a sequence of actions and what comes of them.
use vstd::prelude::*;

use super::decompose;
use super::decompose::{
    Decomposition, DecompositionView, ManagerAction, ManagerActionView, ManagerEvent,
    ManagerEventView, ManagerStage, ManagerStageView, MAX_REFINEMENT_CYCLES,
};
use super::messages::{OutputContentBlock, OutputContentBlockView};
use super::report::OrchestrationOutput;
use super::subagents;
use super::{MaoError, MaoErrorView, SubTask, SubTaskResultView, SubTaskView};
use crate::text;

verus! {

broadcast use vstd::seq::group_seq_axioms;

// ---------------------------------------------------------------------------
// Stages, actions and events
// ---------------------------------------------------------------------------

/// What came of an orchestration.
pub open spec fn outcome_view(result: Result<OrchestrationOutput, MaoError>) -> Result<
    Seq<SubTaskResultView>,
    MaoErrorView,
> {
    match result {
        Ok(output) => Ok(output@),
        Err(error) => Err(error@),
    }
}

/// How far an orchestration has come.
pub enum OrchestrationStage {
    /// The model of the manager is to be connected to.
    ConnectingManager,
    /// The manager is to split the prompt.
    Splitting { decomposition: Decomposition },
    /// The model of the agents is to be connected to.
    ConnectingWorker { tasks: Vec<SubTask> },
    /// The agents are to do the tasks.
    Working { tasks: Vec<SubTask> },
    /// The orchestration is over.
    Finished { result: Result<OrchestrationOutput, MaoError> },
}

/// What a stage holds.
pub enum OrchestrationStageView {
    ConnectingManager,
    Splitting { decomposition: DecompositionView },
    ConnectingWorker { tasks: Seq<SubTaskView> },
    Working { tasks: Seq<SubTaskView> },
    Finished { result: Result<Seq<SubTaskResultView>, MaoErrorView> },
}

impl View for OrchestrationStage {
    type V = OrchestrationStageView;

    open spec fn view(&self) -> OrchestrationStageView {
        match *self {
            OrchestrationStage::ConnectingManager => OrchestrationStageView::ConnectingManager,
            OrchestrationStage::Splitting { decomposition } => OrchestrationStageView::Splitting {
                decomposition: decomposition@,
            },
            OrchestrationStage::ConnectingWorker {
                tasks,
            } => OrchestrationStageView::ConnectingWorker { tasks: super::task_views(tasks@) },
            OrchestrationStage::Working { tasks } => OrchestrationStageView::Working {
                tasks: super::task_views(tasks@),
            },
            OrchestrationStage::Finished { result } => OrchestrationStageView::Finished {
                result: outcome_view(result),
            },
        }
    }
}

/// An orchestration.
pub struct Orchestration {
    pub manager_model: String,
    pub worker_model: String,
    pub user_prompt: String,
    pub stage: OrchestrationStage,
}

/// What an orchestration holds.
pub struct OrchestrationView {
    pub manager_model: Seq<char>,
    pub worker_model: Seq<char>,
    pub user_prompt: Seq<char>,
    pub stage: OrchestrationStageView,
}

impl View for Orchestration {
    type V = OrchestrationView;

    open spec fn view(&self) -> OrchestrationView {
        OrchestrationView {
            manager_model: self.manager_model@,
            worker_model: self.worker_model@,
            user_prompt: self.user_prompt@,
            stage: self.stage@,
        }
    }
}

/// What is to be done next.
pub enum OrchestrationAction<'a> {
    /// Connect to the model of the manager.
    ConnectManager(&'a str),
    /// Do what the splitting of the prompt asks for.
    Manager(ManagerAction<'a>),
    /// Connect to the model of the agents.
    ConnectWorker(&'a str),
    /// Have the agents do the tasks: over the connection to the manager's model where no other
    /// was made.
    RunAgents { model: &'a str, tasks: &'a Vec<SubTask> },
    /// Nothing: the orchestration is over.
    Finish(&'a Result<OrchestrationOutput, MaoError>),
}

/// What an action holds.
pub enum OrchestrationActionView {
    ConnectManager(Seq<char>),
    Manager(ManagerActionView),
    ConnectWorker(Seq<char>),
    RunAgents { model: Seq<char>, tasks: Seq<SubTaskView> },
    Finish(Result<Seq<SubTaskResultView>, MaoErrorView>),
}

impl<'a> View for OrchestrationAction<'a> {
    type V = OrchestrationActionView;

    open spec fn view(&self) -> OrchestrationActionView {
        match *self {
            OrchestrationAction::ConnectManager(model) => OrchestrationActionView::ConnectManager(
                model@,
            ),
            OrchestrationAction::Manager(action) => OrchestrationActionView::Manager(action@),
            OrchestrationAction::ConnectWorker(model) => OrchestrationActionView::ConnectWorker(
                model@,
            ),
            OrchestrationAction::RunAgents { model, tasks } => OrchestrationActionView::RunAgents {
                model: model@,
                tasks: super::task_views(tasks@),
            },
            OrchestrationAction::Finish(result) => OrchestrationActionView::Finish(
                outcome_view(*result),
            ),
        }
    }
}

/// What came of an action.
pub enum OrchestrationEvent {
    /// There is nothing to run the agents on, with the text of the error.
    NoRuntime(String),
    /// The model was connected to.
    Connected,
    /// The model could not be connected to, with the text of the error.
    Unreachable(String),
    /// Something came of what the manager was to do.
    Manager(ManagerEvent),
    /// The agents are done, with these replies in the order of their tasks, or the text of the
    /// error where an agent could not be asked; none comes from an agent that was lost.
    Worked(Vec<Option<Result<Vec<OutputContentBlock>, String>>>),
}

/// What an event holds.
pub enum OrchestrationEventView {
    NoRuntime(Seq<char>),
    Connected,
    Unreachable(Seq<char>),
    Manager(ManagerEventView),
    Worked(Seq<Option<Result<Seq<OutputContentBlockView>, Seq<char>>>>),
}

impl View for OrchestrationEvent {
    type V = OrchestrationEventView;

    open spec fn view(&self) -> OrchestrationEventView {
        match *self {
            OrchestrationEvent::NoRuntime(message) => OrchestrationEventView::NoRuntime(message@),
            OrchestrationEvent::Connected => OrchestrationEventView::Connected,
            OrchestrationEvent::Unreachable(message) => OrchestrationEventView::Unreachable(
                message@,
            ),
            OrchestrationEvent::Manager(event) => OrchestrationEventView::Manager(event@),
            OrchestrationEvent::Worked(replies) => OrchestrationEventView::Worked(
                subagents::reply_views(replies@),
            ),
        }
    }
}

// ---------------------------------------------------------------------------
// The course of an orchestration
// ---------------------------------------------------------------------------

/// An orchestration before anything is done.
pub open spec fn orchestration(
    manager_model: Seq<char>,
    worker_model: Seq<char>,
    user_prompt: Seq<char>,
) -> OrchestrationView {
    OrchestrationView {
        manager_model,
        worker_model,
        user_prompt,
        stage: OrchestrationStageView::ConnectingManager,
    }
}

/// What is to be done at a stage.
pub open spec fn action_of(o: OrchestrationView) -> OrchestrationActionView {
    match o.stage {
        OrchestrationStageView::ConnectingManager => OrchestrationActionView::ConnectManager(
            o.manager_model,
        ),
        OrchestrationStageView::Splitting { decomposition } => OrchestrationActionView::Manager(
            decompose::action_of(decomposition),
        ),
        OrchestrationStageView::ConnectingWorker {
            ..
        } => OrchestrationActionView::ConnectWorker(o.worker_model),
        OrchestrationStageView::Working { tasks } => OrchestrationActionView::RunAgents {
            model: o.worker_model,
            tasks,
        },
        OrchestrationStageView::Finished { result } => OrchestrationActionView::Finish(result),
    }
}

/// The stage to which the splitting of the prompt leads: it goes on, or fails, or hands its
/// tasks to the agents, whose model is connected to unless it is the manager's.
pub open spec fn split_stage(o: OrchestrationView, d: DecompositionView) -> OrchestrationStageView {
    match d.stage {
        ManagerStageView::Finished { result: Err(error) } => OrchestrationStageView::Finished {
            result: Err(error),
        },
        ManagerStageView::Finished { result: Ok(tasks) } => if o.worker_model == o.manager_model {
            OrchestrationStageView::Working { tasks }
        } else {
            OrchestrationStageView::ConnectingWorker { tasks }
        },
        _ => OrchestrationStageView::Splitting { decomposition: d },
    }
}

/// The stage after an event. An event that no action of the stage can lead to changes nothing.
pub open spec fn stage_after(
    o: OrchestrationView,
    event: OrchestrationEventView,
) -> OrchestrationStageView {
    match (o.stage, event) {
        (
            OrchestrationStageView::ConnectingManager,
            OrchestrationEventView::NoRuntime(message),
        ) => OrchestrationStageView::Finished { result: Err(MaoErrorView::Tokio(message)) },
        (
            OrchestrationStageView::ConnectingManager,
            OrchestrationEventView::Unreachable(message),
        ) => OrchestrationStageView::Finished { result: Err(MaoErrorView::Api(message)) },
        (
            OrchestrationStageView::ConnectingManager,
            OrchestrationEventView::Connected,
        ) => OrchestrationStageView::Splitting {
            decomposition: decompose::decomposition(
                o.manager_model,
                o.user_prompt,
                MAX_REFINEMENT_CYCLES as nat,
            ),
        },
        (
            OrchestrationStageView::Splitting { decomposition },
            OrchestrationEventView::Manager(event),
        ) => split_stage(o, decompose::decomposition_after(decomposition, event)),
        (
            OrchestrationStageView::ConnectingWorker { .. },
            OrchestrationEventView::Unreachable(message),
        ) => OrchestrationStageView::Finished { result: Err(MaoErrorView::Api(message)) },
        (
            OrchestrationStageView::ConnectingWorker { tasks },
            OrchestrationEventView::Connected,
        ) => OrchestrationStageView::Working { tasks },
        (
            OrchestrationStageView::Working { tasks },
            OrchestrationEventView::Worked(replies),
        ) => OrchestrationStageView::Finished {
            result: Ok(subagents::task_results(tasks, replies)),
        },
        _ => o.stage,
    }
}

impl Orchestration {
    /// An orchestration before anything is done.
    pub fn start(manager_model: &str, worker_model: &str, user_prompt: &str) -> (o: Self)
        ensures
            o@ == orchestration(manager_model@, worker_model@, user_prompt@),
    {
        Orchestration {
            manager_model: manager_model.to_owned(),
            worker_model: worker_model.to_owned(),
            user_prompt: user_prompt.to_owned(),
            stage: OrchestrationStage::ConnectingManager,
        }
    }

    /// What is to be done next.
    pub fn action(&self) -> (action: OrchestrationAction<'_>)
        ensures
            action@ == action_of(self@),
    {
        match &self.stage {
            OrchestrationStage::ConnectingManager => OrchestrationAction::ConnectManager(
                self.manager_model.as_str(),
            ),
            OrchestrationStage::Splitting { decomposition } => OrchestrationAction::Manager(
                decomposition.action(),
            ),
            OrchestrationStage::ConnectingWorker { .. } => OrchestrationAction::ConnectWorker(
                self.worker_model.as_str(),
            ),
            OrchestrationStage::Working { tasks } => OrchestrationAction::RunAgents {
                model: self.worker_model.as_str(),
                tasks,
            },
            OrchestrationStage::Finished { result } => OrchestrationAction::Finish(result),
        }
    }

    /// The stage to which the splitting of the prompt leads.
    fn after_splitting(same_model: bool, decomposition: Decomposition) -> (stage:
        OrchestrationStage)
        ensures
            forall|o: OrchestrationView|
                same_model == (o.worker_model == o.manager_model) ==> stage@
                    == #[trigger] split_stage(o, decomposition@),
    {
        match decomposition.stage {
            ManagerStage::Finished { result: Err(error) } => OrchestrationStage::Finished {
                result: Err(error),
            },
            ManagerStage::Finished { result: Ok(tasks) } => if same_model {
                OrchestrationStage::Working { tasks }
            } else {
                OrchestrationStage::ConnectingWorker { tasks }
            },
            _ => OrchestrationStage::Splitting { decomposition },
        }
    }

    /// The orchestration after an event.
    pub fn next(self, event: OrchestrationEvent) -> (o: Self)
        ensures
            o@ == (OrchestrationView { stage: stage_after(self@, event@), ..self@ }),
    {
        let Orchestration { manager_model, worker_model, user_prompt, stage } = self;
        let stage = match (stage, event) {
            (
                OrchestrationStage::ConnectingManager,
                OrchestrationEvent::NoRuntime(message),
            ) => OrchestrationStage::Finished { result: Err(MaoError::Tokio(message)) },
            (
                OrchestrationStage::ConnectingManager,
                OrchestrationEvent::Unreachable(message),
            ) => OrchestrationStage::Finished { result: Err(MaoError::Api(message)) },
            (
                OrchestrationStage::ConnectingManager,
                OrchestrationEvent::Connected,
            ) => OrchestrationStage::Splitting {
                decomposition: Decomposition::start(
                    manager_model.as_str(),
                    user_prompt.as_str(),
                    MAX_REFINEMENT_CYCLES,
                ),
            },
            (
                OrchestrationStage::Splitting { decomposition },
                OrchestrationEvent::Manager(event),
            ) => {
                let same_model = text::text_eq(worker_model.as_str(), manager_model.as_str());
                Self::after_splitting(same_model, decomposition.next(event))
            },
            (
                OrchestrationStage::ConnectingWorker { .. },
                OrchestrationEvent::Unreachable(message),
            ) => OrchestrationStage::Finished { result: Err(MaoError::Api(message)) },
            (
                OrchestrationStage::ConnectingWorker { tasks },
                OrchestrationEvent::Connected,
            ) => OrchestrationStage::Working { tasks },
            (
                OrchestrationStage::Working { tasks },
                OrchestrationEvent::Worked(replies),
            ) => OrchestrationStage::Finished {
                result: Ok(
                    OrchestrationOutput { results: subagents::gather_results(tasks, replies) },
                ),
            },
            (stage, _) => stage,
        };
        Orchestration { manager_model, worker_model, user_prompt, stage }
    }

    /// What came of the orchestration, if it is over.
    pub fn into_outcome(self) -> (outcome: Option<Result<OrchestrationOutput, MaoError>>)
        ensures
            outcome == match self.stage {
                OrchestrationStage::Finished { result } => Some(result),
                _ => None,
            },
    {
        match self.stage {
            OrchestrationStage::Finished { result } => Some(result),
            _ => None,
        }
    }
}

// ---------------------------------------------------------------------------
// Laws
// ---------------------------------------------------------------------------

/// The orchestration after an event.
pub open spec fn orchestration_after(
    o: OrchestrationView,
    event: OrchestrationEventView,
) -> OrchestrationView {
    OrchestrationView { stage: stage_after(o, event), ..o }
}

/// The orchestration after some events, one after another.
pub open spec fn orchestration_run(
    o: OrchestrationView,
    events: Seq<OrchestrationEventView>,
) -> OrchestrationView
    decreases events.len(),
{
    if events.len() == 0 {
        o
    } else {
        orchestration_after(orchestration_run(o, events.drop_last()), events.last())
    }
}

/// Whether one of the events is that the manager's reply was parsed as these tasks.
pub open spec fn gave_tasks(
    events: Seq<OrchestrationEventView>,
    tasks: Seq<SubTaskView>,
) -> bool {
    events.contains(OrchestrationEventView::Manager(ManagerEventView::Parsed(tasks)))
}

/// Whether one of the events is that the agents gave these replies.
pub open spec fn gave_replies(
    events: Seq<OrchestrationEventView>,
    replies: Seq<Option<Result<Seq<OutputContentBlockView>, Seq<char>>>>,
) -> bool {
    events.contains(OrchestrationEventView::Worked(replies))
}

/// Whether the results are those of a list of tasks that the manager gave, with a task in it, and
/// of the replies that the agents gave.
pub open spec fn worked_out(
    events: Seq<OrchestrationEventView>,
    results: Seq<SubTaskResultView>,
) -> bool {
    exists|
        tasks: Seq<SubTaskView>,
        replies: Seq<Option<Result<Seq<OutputContentBlockView>, Seq<char>>>>,
    |
        {
            &&& tasks.len() > 0
            &&& #[trigger] gave_tasks(events, tasks)
            &&& #[trigger] gave_replies(events, replies)
            &&& results == subagents::task_results(tasks, replies)
        }
}

/// What holds of an orchestration after some events: the splitting has kept its course, and is
/// not over while the manager has still something to do; tasks that are handed to agents are a
/// list that the manager gave, with a task in it, and the results are those of such a list and of
/// the agents' replies; and a connection for the agents is made only where their model is not the
/// manager's.
pub open spec fn on_course(o: OrchestrationView, events: Seq<OrchestrationEventView>) -> bool {
    match o.stage {
        OrchestrationStageView::Splitting { decomposition } => {
            &&& decompose::on_course(
                decomposition,
                o.manager_model,
                o.user_prompt,
                MAX_REFINEMENT_CYCLES as nat,
            )
            &&& !(decomposition.stage is Finished)
        },
        OrchestrationStageView::ConnectingWorker { tasks } => {
            &&& tasks.len() > 0
            &&& gave_tasks(events, tasks)
            &&& o.worker_model != o.manager_model
        },
        OrchestrationStageView::Working { tasks } => tasks.len() > 0 && gave_tasks(events, tasks),
        OrchestrationStageView::Finished { result: Ok(results) } => worked_out(events, results),
        _ => true,
    }
}

/// Whatever comes of the actions, the agents do exactly the tasks that the manager gave, never
/// none, and what comes out is what they replied to these; a connection of their own is made for
/// them only where their model is not the manager's; and what the manager has to do is never
/// nothing.
pub proof fn law_agents_do_the_managers_tasks(
    manager_model: Seq<char>,
    worker_model: Seq<char>,
    user_prompt: Seq<char>,
    events: Seq<OrchestrationEventView>,
)
    ensures
        ({
            let o = orchestration_run(
                orchestration(manager_model, worker_model, user_prompt),
                events,
            );
            &&& on_course(o, events)
            &&& o.manager_model == manager_model
            &&& o.worker_model == worker_model
            &&& o.user_prompt == user_prompt
        }),
    decreases events.len(),
{
    let start = orchestration(manager_model, worker_model, user_prompt);
    if events.len() > 0 {
        let before = events.drop_last();
        law_agents_do_the_managers_tasks(manager_model, worker_model, user_prompt, before);
        let o = orchestration_run(start, before);
        let next = orchestration_after(o, events.last());
        assert forall|tasks: Seq<SubTaskView>| gave_tasks(before, tasks) implies gave_tasks(
            events,
            tasks,
        ) by {
            let given = OrchestrationEventView::Manager(ManagerEventView::Parsed(tasks));
            let i = choose|i: int| 0 <= i < before.len() && before[i] == given;
            assert(events[i] == given);
        }
        if let (
            OrchestrationStageView::Splitting { decomposition },
            OrchestrationEventView::Manager(event),
        ) = (o.stage, events.last()) {
            decompose::law_course_is_kept(
                decomposition,
                event,
                manager_model,
                user_prompt,
                MAX_REFINEMENT_CYCLES as nat,
            );
            let d = decompose::decomposition_after(decomposition, event);
            if let ManagerStageView::Finished { result: Ok(tasks) } = d.stage {
                assert(events[events.len() - 1] == OrchestrationEventView::Manager(
                    ManagerEventView::Parsed(tasks),
                ));
                assert(gave_tasks(events, tasks));
            }
        }
        if let (
            OrchestrationStageView::Working { tasks },
            OrchestrationEventView::Worked(replies),
        ) = (o.stage, events.last()) {
            assert(gave_tasks(events, tasks));
            assert(events[events.len() - 1] == OrchestrationEventView::Worked(replies));
            assert(gave_replies(events, replies));
            assert(worked_out(events, subagents::task_results(tasks, replies)));
        }
        if let OrchestrationStageView::Finished { result: Ok(results) } = o.stage {
            lemma_worked_out_stays(events, results);
        }
        if let OrchestrationStageView::ConnectingManager = o.stage {
            decompose::law_decomposition_keeps_its_course(
                manager_model,
                user_prompt,
                MAX_REFINEMENT_CYCLES as nat,
                Seq::empty(),
            );
        }
    }
}

proof fn lemma_worked_out_stays(
    events: Seq<OrchestrationEventView>,
    results: Seq<SubTaskResultView>,
)
    requires
        events.len() > 0,
        worked_out(events.drop_last(), results),
    ensures
        worked_out(events, results),
{
    let before = events.drop_last();
    let (tasks, replies) = choose|
        tasks: Seq<SubTaskView>,
        replies: Seq<Option<Result<Seq<OutputContentBlockView>, Seq<char>>>>,
    |
        {
            &&& tasks.len() > 0
            &&& #[trigger] gave_tasks(before, tasks)
            &&& #[trigger] gave_replies(before, replies)
            &&& results == subagents::task_results(tasks, replies)
        };
    let given = OrchestrationEventView::Manager(ManagerEventView::Parsed(tasks));
    let i = choose|i: int| 0 <= i < before.len() && before[i] == given;
    assert(events[i] == given);
    let replied = OrchestrationEventView::Worked(replies);
    let j = choose|j: int| 0 <= j < before.len() && before[j] == replied;
    assert(events[j] == replied);
    assert(gave_tasks(events, tasks) && gave_replies(events, replies));
}

/// An orchestration fails, or yields the results of the tasks that the agents were to do, from
/// what they replied: it never yields anything before they are done.
pub proof fn law_results_come_from_the_agents(
    o: OrchestrationView,
    event: OrchestrationEventView,
    results: Seq<SubTaskResultView>,
)
    requires
        !(o.stage is Finished),
        stage_after(o, event) == (OrchestrationStageView::Finished { result: Ok(results) }),
    ensures
        action_of(o) is RunAgents,
        event is Worked,
        results == subagents::task_results(action_of(o)->tasks, event->Worked_0),
{
}

/// An orchestration goes from the manager's model to the manager's tasks and on to the agents: the
/// manager is asked about the prompt; the agents are run on their own model with exactly the tasks
/// that came out of it, over a connection of their own where their model is another; and what they
/// replied makes the results.
pub proof fn law_orchestration_runs_through(
    manager_model: Seq<char>,
    worker_model: Seq<char>,
    user_prompt: Seq<char>,
    content: Seq<OutputContentBlockView>,
    tasks: Seq<SubTaskView>,
    replies: Seq<Option<Result<Seq<OutputContentBlockView>, Seq<char>>>>,
)
    requires
        tasks.len() > 0,
    ensures
        ({
            let o = orchestration(manager_model, worker_model, user_prompt);
            let a = orchestration_after(o, OrchestrationEventView::Connected);
            let b = orchestration_after(
                a,
                OrchestrationEventView::Manager(ManagerEventView::Replied(content)),
            );
            let c = orchestration_after(
                b,
                OrchestrationEventView::Manager(ManagerEventView::Parsed(tasks)),
            );
            let d = if worker_model == manager_model {
                c
            } else {
                orchestration_after(c, OrchestrationEventView::Connected)
            };
            let e = orchestration_after(d, OrchestrationEventView::Worked(replies));
            &&& action_of(o) == OrchestrationActionView::ConnectManager(manager_model)
            &&& action_of(a) is Manager
            &&& action_of(a)->Manager_0 is Send
            &&& action_of(a)->Manager_0->Send_0.model == manager_model
            &&& action_of(a)->Manager_0->Send_0.messages.len() == 1
            &&& action_of(a)->Manager_0->Send_0.messages[0].content == seq![user_prompt]
            &&& action_of(b) == OrchestrationActionView::Manager(
                ManagerActionView::Parse(
                    decompose::json_part(super::messages::first_text(content)),
                ),
            )
            &&& worker_model != manager_model ==> action_of(c)
                == OrchestrationActionView::ConnectWorker(worker_model)
            &&& action_of(d) == (OrchestrationActionView::RunAgents { model: worker_model, tasks })
            &&& action_of(e) == OrchestrationActionView::Finish(
                Ok(subagents::task_results(tasks, replies)),
            )
        }),
{
}

/// What fails ends an orchestration, in its own words: the connection to either model, what the
/// agents are run on, and the manager; and what comes after the end changes nothing.
pub proof fn law_failures_end_an_orchestration(
    o: OrchestrationView,
    message: Seq<char>,
    event: OrchestrationEventView,
)
    ensures
        o.stage is ConnectingManager || o.stage is ConnectingWorker ==> action_of(
            orchestration_after(o, OrchestrationEventView::Unreachable(message)),
        ) == OrchestrationActionView::Finish(Err(MaoErrorView::Api(message))),
        o.stage is ConnectingManager ==> action_of(
            orchestration_after(o, OrchestrationEventView::NoRuntime(message)),
        ) == OrchestrationActionView::Finish(Err(MaoErrorView::Tokio(message))),
        o.stage matches OrchestrationStageView::Splitting { decomposition }
            && decomposition.stage is Asking ==> action_of(
            orchestration_after(
                o,
                OrchestrationEventView::Manager(ManagerEventView::Unanswered(message)),
            ),
        ) == OrchestrationActionView::Finish(Err(MaoErrorView::Api(message))),
        o.stage is Finished ==> orchestration_after(o, event) == o,
{
}

/// What comes out of turn changes nothing.
pub proof fn law_events_out_of_turn_change_nothing(
    o: OrchestrationView,
    event: OrchestrationEventView,
)
    requires
        match o.stage {
            OrchestrationStageView::ConnectingManager => event is Manager || event is Worked,
            OrchestrationStageView::Splitting { .. } => !(event is Manager),
            OrchestrationStageView::ConnectingWorker { .. } => !(event is Connected
                || event is Unreachable),
            OrchestrationStageView::Working { .. } => !(event is Worked),
            OrchestrationStageView::Finished { .. } => true,
        },
    ensures
        orchestration_after(o, event) == o,
{
}

/// The manager of an orchestration has two turns at most.
pub proof fn law_manager_has_two_turns(o: OrchestrationView)
    requires
        o.stage is ConnectingManager,
    ensures
        ({
            let next = orchestration_after(o, OrchestrationEventView::Connected);
            &&& next.stage is Splitting
            &&& next.stage->decomposition.max_refinement_cycles == 2
            &&& next.stage->decomposition.cycle == 0
        }),
{
}

/// What is to be done next is what the stage asks for, and what comes after an event is what the
/// event leads to.
pub proof fn law_orchestration_goes_as_described(
    o: Orchestration,
    at: &Orchestration,
    action: OrchestrationAction<'_>,
    event: OrchestrationEvent,
    next: Orchestration,
    outcome: Option<Result<OrchestrationOutput, MaoError>>,
)
    requires
        call_ensures(Orchestration::action, (at,), action),
        call_ensures(Orchestration::next, (o, event), next),
        call_ensures(Orchestration::into_outcome, (o,), outcome),
    ensures
        action@ == action_of(at@),
        next@ == orchestration_after(o@, event@),
        outcome is Some <==> action_of(o@) is Finish,
        outcome is Some ==> action_of(o@) == OrchestrationActionView::Finish(
            outcome_view(outcome->0),
        ),
{
}

/// An orchestration begins with a connection to the manager's model; once there is one, the manager's
/// model is asked about the prompt as the user wrote it, and the other model is kept for the agents.
pub proof fn law_orchestration_begins(
    manager_model: &str,
    worker_model: &str,
    user_prompt: &str,
    o: Orchestration,
    action: OrchestrationAction<'_>,
    next: Orchestration,
)
    requires
        call_ensures(Orchestration::start, (manager_model, worker_model, user_prompt), o),
        call_ensures(Orchestration::action, (&o,), action),
        call_ensures(Orchestration::next, (o, OrchestrationEvent::Connected), next),
    ensures
        action@ == OrchestrationActionView::ConnectManager(manager_model@),
        next@.worker_model == worker_model@,
        next@.stage is Splitting,
        next@.stage->decomposition.model == manager_model@,
        next@.stage->decomposition.stage is Asking,
        next@.stage->decomposition.messages.len() == 1,
        next@.stage->decomposition.messages[0].content == seq![user_prompt@],
{
}

} // verus!
