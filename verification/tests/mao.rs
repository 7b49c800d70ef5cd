use claw_runtime::json::text_or_empty_object;
use claw_runtime::mao::decompose::{
    json_text, Decomposition, ManagerAction, ManagerEvent, MANAGER_MAX_TOKENS,
    MAX_REFINEMENT_CYCLES,
};
use claw_runtime::mao::messages::{
    first_reply_text, InputContentBlock, InputMessage, MessageRequest, OutputContentBlock,
};
use claw_runtime::mao::orchestration::{
    Orchestration, OrchestrationAction, OrchestrationEvent,
};
use claw_runtime::mao::report::{capitalize, render_section, replace_first, OrchestrationOutput};
use claw_runtime::mao::subagents::{
    collect_results, gather_results, subagent_request, subagent_result,
};
use claw_runtime::mao::{
    persona_for_agent, MaoError, SubTask, SubTaskResult, BACKEND_SYSTEM_PROMPT,
    DATABASE_SYSTEM_PROMPT, FRONTEND_SYSTEM_PROMPT, GENERIC_SYSTEM_PROMPT, MANAGER_SYSTEM_PROMPT,
};

fn task(id: u32, agent: &str, brief: &str) -> SubTask {
    SubTask {
        id,
        agent: agent.to_string(),
        brief: brief.to_string(),
    }
}

fn result(id: u32, output: &str, error: Option<&str>) -> SubTaskResult {
    SubTaskResult {
        task: task(id, "frontend", "do it"),
        output: output.to_string(),
        error: error.map(str::to_string),
    }
}

fn block(text: &str) -> OutputContentBlock {
    OutputContentBlock::Text {
        text: text.to_string(),
    }
}

fn said(role: &str, text: &str) -> InputMessage {
    InputMessage {
        role: role.to_string(),
        content: vec![InputContentBlock::Text {
            text: text.to_string(),
        }],
    }
}

fn request(d: &Decomposition) -> MessageRequest {
    match d.action() {
        ManagerAction::Send(request) => request,
        _ => panic!("the manager should be asked"),
    }
}

#[test]
fn personas_go_by_name() {
    assert_eq!(persona_for_agent("frontend"), FRONTEND_SYSTEM_PROMPT);
    assert_eq!(persona_for_agent("backend"), BACKEND_SYSTEM_PROMPT);
    assert_eq!(persona_for_agent("database"), DATABASE_SYSTEM_PROMPT);
    assert_eq!(persona_for_agent("generic"), GENERIC_SYSTEM_PROMPT);
    assert_eq!(persona_for_agent("Frontend"), GENERIC_SYSTEM_PROMPT);
}

#[test]
fn fences_are_taken_off() {
    assert_eq!(json_text(" [1] \n"), "[1]");
    assert_eq!(json_text("```json\n[\n1]\n```\nmore"), "[\n1]");
    assert_eq!(json_text("```\n[1]"), "[1]");
    assert_eq!(json_text("\n```json\n```"), "");
    assert_eq!(json_text("```"), "");
    assert_eq!(json_text("x ```\n[1]\n```"), "x ```\n[1]\n```");
    assert_eq!(json_text("```\r\n[1]\r\n```"), "[1]");
}

#[test]
fn first_text_of_a_reply_counts() {
    assert_eq!(
        first_reply_text(&[OutputContentBlock::Other, block("a"), block("b")]),
        "a"
    );
    assert_eq!(first_reply_text(&[OutputContentBlock::Other]), "");
}

#[test]
fn manager_is_asked_for_tasks() {
    let d = Decomposition::start("big", "build it", MAX_REFINEMENT_CYCLES);
    assert_eq!(
        request(&d),
        MessageRequest {
            model: "big".to_string(),
            max_tokens: MANAGER_MAX_TOKENS,
            messages: vec![said("user", "build it")],
            system: Some(MANAGER_SYSTEM_PROMPT.to_string()),
        }
    );
    assert_eq!(MANAGER_MAX_TOKENS, 2048);
    let d = d.next(ManagerEvent::Replied(vec![block("```\n[1]\n```")]));
    assert!(matches!(d.action(), ManagerAction::Parse(json) if json == "[1]"));
    let d = d.next(ManagerEvent::Parsed(vec![task(1, "backend", "b")]));
    assert!(matches!(d.action(), ManagerAction::Finish(Ok(_))));
    let tasks = d.into_outcome().unwrap().unwrap();
    assert_eq!(tasks.len(), 1);
    assert_eq!(tasks[0].brief, "b");
}

#[test]
fn manager_is_asked_again_only_so_often() {
    let mut d = Decomposition::start("big", "build it", 3);
    let mut asked = 0;
    loop {
        match d.action() {
            ManagerAction::Send(_) => {
                asked += 1;
                d = d.next(ManagerEvent::Replied(vec![block(&format!("r{asked}"))]));
            }
            ManagerAction::Parse(_) => {
                d = d.next(ManagerEvent::Unparsed(format!("e{asked}")));
            }
            ManagerAction::Finish(_) => break,
        }
        if asked == 2 && matches!(d.action(), ManagerAction::Send(_)) {
            assert_eq!(
                request(&d).messages,
                [
                    said("user", "build it"),
                    said("assistant", "r1"),
                    said("user", "Your output could not be parsed as JSON: e1.\nRespond with ONLY a valid JSON array of sub-task objects and nothing else."),
                    said("assistant", "r2"),
                    said("user", "Your output could not be parsed as JSON: e2.\nRespond with ONLY a valid JSON array of sub-task objects and nothing else."),
                ]
            );
        }
    }
    assert_eq!(asked, 3);
    assert_eq!(
        d.into_outcome().unwrap().unwrap_err().message(),
        "Manager JSON parse error: After 3 refinement cycle(s), Manager still produced invalid JSON.\nLast parse error: e3\nLast response:\nr3"
    );
}

#[test]
fn manager_has_no_more_turns_than_it_may_have() {
    for (max_refinement_cycles, turns) in [(0, 1), (1, 1), (2, 2), (5, 5)] {
        let mut d = Decomposition::start("big", "build it", max_refinement_cycles);
        let mut asked = 0;
        loop {
            match d.action() {
                ManagerAction::Send(_) => {
                    asked += 1;
                    d = d.next(ManagerEvent::Replied(vec![]));
                }
                ManagerAction::Parse(_) => d = d.next(ManagerEvent::Unparsed("e".to_string())),
                ManagerAction::Finish(_) => break,
            }
        }
        assert_eq!(asked, turns);
    }
}

#[test]
fn empty_list_of_tasks_is_refused() {
    let d = Decomposition::start("big", "build it", 2)
        .next(ManagerEvent::Replied(vec![block("[]")]))
        .next(ManagerEvent::Parsed(vec![]));
    assert!(matches!(d.into_outcome(), Some(Err(MaoError::NoTasks))));
}

#[test]
fn manager_that_cannot_be_asked_ends_the_splitting() {
    let d = Decomposition::start("big", "build it", 2)
        .next(ManagerEvent::Unanswered("offline".to_string()));
    assert_eq!(
        d.into_outcome().unwrap().unwrap_err().message(),
        "API error: offline"
    );
}

#[test]
fn events_out_of_turn_change_nothing() {
    let d = Decomposition::start("big", "build it", 2)
        .next(ManagerEvent::Parsed(vec![]))
        .next(ManagerEvent::Unparsed("x".to_string()));
    assert_eq!(request(&d).messages, [said("user", "build it")]);
    assert!(d.into_outcome().is_none());
}

#[test]
fn orchestration_errors_have_a_text() {
    assert_eq!(
        MaoError::NoTasks.message(),
        "Manager returned no sub-tasks"
    );
    assert_eq!(
        MaoError::Tokio("x".to_string()).message(),
        "Async runtime error: x"
    );
    assert_eq!(
        MaoError::ParseJson("x".to_string()).message(),
        "Manager JSON parse error: x"
    );
}

#[test]
fn agent_is_asked_with_its_brief_alone() {
    assert_eq!(
        subagent_request("small", &task(3, "database", "schema")),
        MessageRequest {
            model: "small".to_string(),
            max_tokens: 4096,
            messages: vec![said("user", "schema")],
            system: Some(DATABASE_SYSTEM_PROMPT.to_string()),
        }
    );
}

#[test]
fn replies_become_results() {
    let done = subagent_result(
        task(1, "a", "b"),
        Ok(vec![block("x"), OutputContentBlock::Other, block("y")]),
    );
    assert_eq!(done.output, "x\ny");
    assert_eq!(done.error, None);
    let failed = subagent_result(task(1, "a", "b"), Err("late".to_string()));
    assert_eq!(failed.output, "");
    assert_eq!(failed.error.as_deref(), Some("late"));
    assert_eq!(failed.task.brief, "b");
}

#[test]
fn results_come_in_the_order_of_their_tasks() {
    let collected = collect_results(vec![
        Some(result(3, "c", None)),
        None,
        Some(result(1, "a", None)),
        Some(result(3, "d", None)),
        Some(result(2, "b", None)),
    ]);
    let outputs: Vec<_> = collected.iter().map(|r| r.output.as_str()).collect();
    assert_eq!(outputs, ["a", "b", "c", "d"]);
}

#[test]
fn each_task_has_its_result() {
    let tasks = vec![task(7, "a", "x"), task(2, "b", "y"), task(5, "c", "z"), task(9, "d", "w")];
    let gathered = gather_results(
        tasks,
        vec![
            Some(Ok(vec![block("done")])),
            Some(Err("late".to_string())),
            None,
        ],
    );
    let found: Vec<_> = gathered
        .iter()
        .map(|r| (r.task.id, r.task.brief.as_str(), r.output.as_str(), r.error.as_deref()))
        .collect();
    assert_eq!(
        found,
        [(2, "y", "", Some("late")), (7, "x", "done", None)]
    );
}

#[test]
fn order_of_arrival_does_not_matter() {
    let outputs = |ids: [u32; 3]| -> Vec<String> {
        collect_results(ids.iter().map(|id| Some(result(*id, &format!("o{id}"), None))).collect())
            .into_iter()
            .map(|r| r.output)
            .collect()
    };
    assert_eq!(outputs([1, 2, 3]), outputs([3, 1, 2]));
    assert_eq!(outputs([2, 1, 3]), ["o1", "o2", "o3"]);
}

#[test]
fn agents_get_a_capital() {
    assert_eq!(capitalize("frontend"), "Frontend");
    assert_eq!(capitalize("éclair"), "Éclair");
    assert_eq!(capitalize("ßig"), "SSig");
    assert_eq!(capitalize("9x"), "9x");
    assert_eq!(capitalize(""), "");
    assert_eq!(replace_first("abc", "XY"), "XYbc");
    assert_eq!(replace_first("", "XY"), "");
}

#[test]
fn report_is_readable() {
    let output = OrchestrationOutput {
        results: vec![result(1, "code", None), result(12, "", Some("late"))],
    };
    assert_eq!(
        output.render_text(),
        "\n## Task 1 — Frontend agent\n\n**Brief:** do it\n\ncode\n---\n\n## Task 12 — Frontend agent\n\n**Brief:** do it\n\n**Error:** late\n---\n"
    );
    assert_eq!(
        render_section(&result(1, "x", None), "Title"),
        "\n## Task 1 — Title agent\n\n**Brief:** do it\n\nx\n---\n"
    );
    assert_eq!(OrchestrationOutput { results: vec![] }.render_text(), "");
    let one_by_one: String = output
        .results
        .iter()
        .map(|r| OrchestrationOutput { results: vec![r.clone()] }.render_text())
        .collect();
    assert_eq!(output.render_text(), one_by_one);
}

#[test]
fn report_is_json() {
    let output = OrchestrationOutput {
        results: vec![result(1, "a \"b\"", None), result(2, "", Some("late"))],
    };
    assert_eq!(
        output.render_json(),
        "{\n  \"phase\": 1,\n  \"task_count\": 2,\n  \"tasks\": [\n    {\n      \"agent\": \"frontend\",\n      \"brief\": \"do it\",\n      \"error\": null,\n      \"id\": 1,\n      \"output\": \"a \\\"b\\\"\"\n    },\n    {\n      \"agent\": \"frontend\",\n      \"brief\": \"do it\",\n      \"error\": \"late\",\n      \"id\": 2,\n      \"output\": \"\"\n    }\n  ],\n  \"type\": \"orchestration_result\"\n}"
    );
    let value: serde_json::Value = serde_json::from_str(&output.render_json()).unwrap();
    assert_eq!(value, output.report_value());
    assert_eq!(value["tasks"][1]["error"], serde_json::Value::from("late"));
}

#[test]
fn missing_json_is_an_empty_object() {
    assert_eq!(text_or_empty_object(None), "{}");
    assert_eq!(text_or_empty_object(Some("[]".to_string())), "[]");
}

fn split(o: Orchestration) -> Orchestration {
    o.next(OrchestrationEvent::Connected)
        .next(OrchestrationEvent::Manager(ManagerEvent::Replied(vec![
            block("[..]"),
        ])))
        .next(OrchestrationEvent::Manager(ManagerEvent::Parsed(vec![
            task(1, "backend", "b"),
        ])))
}

#[test]
fn agents_of_another_model_get_a_connection() {
    let o = Orchestration::start("big", "small", "build it");
    assert!(matches!(o.action(), OrchestrationAction::ConnectManager("big")));
    let o = split(o);
    assert!(matches!(o.action(), OrchestrationAction::ConnectWorker("small")));
    let o = o.next(OrchestrationEvent::Connected);
    match o.action() {
        OrchestrationAction::RunAgents { model, tasks } => {
            assert_eq!(model, "small");
            assert_eq!(tasks.len(), 1);
            assert_eq!(tasks[0].brief, "b");
        }
        _ => panic!("the agents should be run"),
    }
    let o = o.next(OrchestrationEvent::Worked(vec![Some(Ok(vec![block("x")]))]));
    assert!(matches!(o.action(), OrchestrationAction::Finish(Ok(_))));
    let output = o.into_outcome().unwrap().ok().unwrap();
    assert_eq!(output.results.len(), 1);
    assert_eq!(output.results[0].output, "x");
}

#[test]
fn agents_of_the_same_model_share_the_connection() {
    let o = split(Orchestration::start("big", "big", "build it"));
    assert!(matches!(
        o.action(),
        OrchestrationAction::RunAgents { model: "big", .. }
    ));
}

#[test]
fn manager_is_asked_about_the_prompt() {
    let o = Orchestration::start("big", "small", "build it").next(OrchestrationEvent::Connected);
    match o.action() {
        OrchestrationAction::Manager(ManagerAction::Send(request)) => {
            assert_eq!(request.model, "big");
            assert_eq!(request.messages, [said("user", "build it")]);
        }
        _ => panic!("the manager should be asked"),
    }
    let mut o = o;
    for _ in 0..MAX_REFINEMENT_CYCLES {
        assert!(matches!(
            o.action(),
            OrchestrationAction::Manager(ManagerAction::Send(_))
        ));
        o = o
            .next(OrchestrationEvent::Manager(ManagerEvent::Replied(vec![])))
            .next(OrchestrationEvent::Manager(ManagerEvent::Unparsed(
                "e".to_string(),
            )));
    }
    assert!(matches!(
        o.into_outcome(),
        Some(Err(MaoError::ParseJson(_)))
    ));
}

#[test]
fn failures_end_an_orchestration() {
    let outcome = |o: Orchestration| o.into_outcome().unwrap().err().unwrap().message();
    let start = || Orchestration::start("big", "small", "build it");
    assert_eq!(
        outcome(start().next(OrchestrationEvent::NoRuntime("x".to_string()))),
        "Async runtime error: x"
    );
    assert_eq!(
        outcome(start().next(OrchestrationEvent::Unreachable("x".to_string()))),
        "API error: x"
    );
    assert_eq!(
        outcome(split(start()).next(OrchestrationEvent::Unreachable("y".to_string()))),
        "API error: y"
    );
    assert!(start()
        .next(OrchestrationEvent::Worked(vec![]))
        .into_outcome()
        .is_none());
}
