//! A prompt that is split into tasks by a manager, done by agents, and put together again.
//!
//! The manager is a model that is asked for a list of tasks. Each task goes to an agent of its
//! own, all at the same time and without a word between them; what they hand back is put in the
//! order of the tasks.
use vstd::prelude::*;

use crate::text;

pub mod decompose;
pub mod messages;
pub mod orchestration;
pub mod report;
pub mod subagents;

verus! {

// ---------------------------------------------------------------------------
// What the agents are told
// ---------------------------------------------------------------------------

/// What the manager is told to do.
pub const MANAGER_SYSTEM_PROMPT: &'static str = r#"You are the ManagerAgent in a multi-agent orchestration system.

Your sole responsibility in this turn is to DECOMPOSE the user's task into a list of
independent sub-task briefs. Each brief targets a single specialized subagent.

RULES:
- Output ONLY valid JSON — no prose, no markdown fences, no explanation.
- The JSON must be an array of objects, each with exactly these fields:
    {
      "id": <integer, 1-based>,
      "agent": <"frontend" | "backend" | "database" | "generic">,
      "brief": <clear, self-contained task description as a string>
    }
- Keep briefs isolated: each subagent receives ONLY its own brief.
- Prefer 2–5 sub-tasks. Combine trivially related work into one brief.
- If the task is trivially single-agent, emit a single-element array.

Example output:
[
  {"id":1,"agent":"backend","brief":"Create a REST endpoint POST /api/login that validates email+password against a users table and returns a JWT."},
  {"id":2,"agent":"frontend","brief":"Build a React login form that POSTs to /api/login and stores the returned JWT in localStorage."},
  {"id":3,"agent":"database","brief":"Write the SQL schema for a users table with id, email, password_hash, and created_at columns."}
]"#;

/// What the frontend agent is told to do.
pub const FRONTEND_SYSTEM_PROMPT: &'static str = r#"You are the FrontendAgent — a specialist in UI, React, HTML, CSS, and browser APIs.
You receive a focused task brief and must produce concrete, working code or a clear implementation.
Output your code in fenced code blocks. Be precise — the Manager will aggregate your output directly."#;

/// What the backend agent is told to do.
pub const BACKEND_SYSTEM_PROMPT: &'static str = r#"You are the BackendAgent — a specialist in server-side logic, REST/GraphQL APIs, authentication, and Rust/Node.js/Python.
You receive a focused task brief and must produce concrete, working code or a clear implementation.
Output your code in fenced code blocks. Be precise — the Manager will aggregate your output directly."#;

/// What the database agent is told to do.
pub const DATABASE_SYSTEM_PROMPT: &'static str = r#"You are the DatabaseAgent — a specialist in SQL schema design, migrations, indexing, and query optimization.
You receive a focused task brief and must produce concrete SQL or migration files.
Output your code in fenced code blocks. Be precise — the Manager will aggregate your output directly."#;

/// What any other agent is told to do.
pub const GENERIC_SYSTEM_PROMPT: &'static str = r#"You are a specialized coding agent. You receive a focused task brief and must produce concrete, working code or a clear implementation plan.
Output your code in fenced code blocks. Be precise — the Manager will aggregate your output directly."#;

/// What an agent is told to do, by its name.
pub open spec fn persona(agent: Seq<char>) -> Seq<char> {
    if agent == "frontend"@ {
        FRONTEND_SYSTEM_PROMPT@
    } else if agent == "backend"@ {
        BACKEND_SYSTEM_PROMPT@
    } else if agent == "database"@ {
        DATABASE_SYSTEM_PROMPT@
    } else {
        GENERIC_SYSTEM_PROMPT@
    }
}

/// What an agent is told to do, by its name.
pub fn persona_for_agent(agent: &str) -> (prompt: &'static str)
    ensures
        prompt@ == persona(agent@),
{
    if text::text_eq(agent, "frontend") {
        FRONTEND_SYSTEM_PROMPT
    } else if text::text_eq(agent, "backend") {
        BACKEND_SYSTEM_PROMPT
    } else if text::text_eq(agent, "database") {
        DATABASE_SYSTEM_PROMPT
    } else {
        GENERIC_SYSTEM_PROMPT
    }
}

// ---------------------------------------------------------------------------
// Tasks
// ---------------------------------------------------------------------------

/// A task: what an agent is to do.
#[derive(Debug, Clone)]
pub struct SubTask {
    pub id: u32,
    pub agent: String,
    pub brief: String,
}

/// What a task holds.
pub struct SubTaskView {
    pub id: nat,
    pub agent: Seq<char>,
    pub brief: Seq<char>,
}

impl View for SubTask {
    type V = SubTaskView;

    open spec fn view(&self) -> SubTaskView {
        SubTaskView { id: self.id as nat, agent: self.agent@, brief: self.brief@ }
    }
}

/// What each of the tasks holds.
pub open spec fn task_views(tasks: Seq<SubTask>) -> Seq<SubTaskView> {
    Seq::new(tasks.len(), |i: int| tasks[i]@)
}

/// What came of a task.
#[derive(Debug, Clone)]
pub struct SubTaskResult {
    pub task: SubTask,
    pub output: String,
    pub error: Option<String>,
}

/// What the result of a task holds.
pub struct SubTaskResultView {
    pub task: SubTaskView,
    pub output: Seq<char>,
    pub error: Option<Seq<char>>,
}

impl View for SubTaskResult {
    type V = SubTaskResultView;

    open spec fn view(&self) -> SubTaskResultView {
        SubTaskResultView {
            task: self.task@,
            output: self.output@,
            error: text::optional_text(self.error),
        }
    }
}

/// What each of the results holds.
pub open spec fn result_views(results: Seq<SubTaskResult>) -> Seq<SubTaskResultView> {
    Seq::new(results.len(), |i: int| results[i]@)
}

// ---------------------------------------------------------------------------
// Errors
// ---------------------------------------------------------------------------

/// Why there is no list of results.
#[derive(Debug)]
pub enum MaoError {
    /// A model could not be asked, with the text of its error.
    Api(String),
    /// The manager never replied with a list of tasks.
    ParseJson(String),
    /// The manager replied with a list without tasks.
    NoTasks,
    /// The agents could not be run at all.
    Tokio(String),
}

/// What an error holds.
pub enum MaoErrorView {
    Api(Seq<char>),
    ParseJson(Seq<char>),
    NoTasks,
    Tokio(Seq<char>),
}

impl View for MaoError {
    type V = MaoErrorView;

    open spec fn view(&self) -> MaoErrorView {
        match *self {
            MaoError::Api(message) => MaoErrorView::Api(message@),
            MaoError::ParseJson(message) => MaoErrorView::ParseJson(message@),
            MaoError::NoTasks => MaoErrorView::NoTasks,
            MaoError::Tokio(message) => MaoErrorView::Tokio(message@),
        }
    }
}

/// The text of an error.
pub open spec fn error_text(error: MaoErrorView) -> Seq<char> {
    match error {
        MaoErrorView::Api(message) => "API error: "@ + message,
        MaoErrorView::ParseJson(message) => "Manager JSON parse error: "@ + message,
        MaoErrorView::NoTasks => "Manager returned no sub-tasks"@,
        MaoErrorView::Tokio(message) => "Async runtime error: "@ + message,
    }
}

impl MaoError {
    /// The text of the error.
    pub fn message(&self) -> (r: String)
        ensures
            r@ == error_text(self@),
    {
        match self {
            MaoError::Api(message) => text::concat("API error: ", message.as_str()),
            MaoError::ParseJson(message) => text::concat(
                "Manager JSON parse error: ",
                message.as_str(),
            ),
            MaoError::NoTasks => "Manager returned no sub-tasks".to_owned(),
            MaoError::Tokio(message) => text::concat("Async runtime error: ", message.as_str()),
        }
    }
}

// ---------------------------------------------------------------------------
// Laws
// ---------------------------------------------------------------------------

/// Each of the three named agents has a prompt of its own, and every other name the general one.
pub proof fn law_personas(agent: &str, prompt: &str)
    requires
        call_ensures(persona_for_agent, (agent,), prompt),
    ensures
        agent@ == "frontend"@ ==> prompt@ == FRONTEND_SYSTEM_PROMPT@,
        agent@ == "backend"@ ==> prompt@ == BACKEND_SYSTEM_PROMPT@,
        agent@ == "database"@ ==> prompt@ == DATABASE_SYSTEM_PROMPT@,
        agent@ != "frontend"@ && agent@ != "backend"@ && agent@ != "database"@ ==> prompt@
            == GENERIC_SYSTEM_PROMPT@,
{
    reveal_strlit("frontend");
    reveal_strlit("backend");
    reveal_strlit("database");
    assert("frontend"@[0] == 'f' && "backend"@[0] == 'b' && "database"@[0] == 'd');
}

/// The text of an error tells what failed, in its own words.
pub proof fn law_error_tells_what_failed(error: &MaoError, r: String)
    requires
        call_ensures(MaoError::message, (error,), r),
    ensures
        match *error {
            MaoError::Api(message) => r@ == "API error: "@ + message@,
            MaoError::ParseJson(message) => r@ == "Manager JSON parse error: "@ + message@,
            MaoError::NoTasks => r@ == "Manager returned no sub-tasks"@,
            MaoError::Tokio(message) => r@ == "Async runtime error: "@ + message@,
        },
{
}

/// What is said of a task and of a result is said of their fields as they are.
pub proof fn law_views_are_the_fields(
    task: SubTask,
    tasks: Seq<SubTask>,
    result: SubTaskResult,
    results: Seq<SubTaskResult>,
    i: int,
)
    ensures
        task@.id == task.id && task@.agent == task.agent@ && task@.brief == task.brief@,
        task_views(tasks).len() == tasks.len(),
        0 <= i < tasks.len() ==> task_views(tasks)[i] == tasks[i]@,
        result@.task == result.task@ && result@.output == result.output@,
        result.error is None ==> result@.error is None,
        result.error is Some ==> result@.error == Some(result.error->0@),
        result_views(results).len() == results.len(),
        0 <= i < results.len() ==> result_views(results)[i] == results[i]@,
{
}

} // verus!
