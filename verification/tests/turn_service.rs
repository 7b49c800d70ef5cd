use claw_runtime::config::MemoryConfig;
use claw_runtime::conversation::{
    ContentBlock, ConversationMessage, ConversationRuntime, MessageRole, RuntimeError, Session,
};
use claw_runtime::dreamer::{DreamRun, DreamerError, MAX_LOG_INPUT_BYTES};
use claw_runtime::dreamer::manager::MemoryPlace;
use claw_runtime::paths::PathStyle;
use claw_runtime::turn_service::{
    final_assistant_text_from_blocks, TurnDreamStatus, TurnService, TurnSummary,
};

fn service(auto_dream_enabled: bool) -> TurnService<u8, (), String> {
    TurnService::new(
        ConversationRuntime {
            session: Session {
                session_id: "session-1".to_string(),
                persistence_path: Some("/s/1.jsonl".to_string()),
            },
            api_client: 7,
            tool_executor: (),
        },
        "/w".to_string(),
        MemoryConfig {
            auto_memory_enabled: true,
            auto_dream_enabled,
            auto_memory_directory: None,
        },
        PathStyle::Unix,
    )
}

fn text(text: &str) -> ContentBlock {
    ContentBlock::Text {
        text: text.to_string(),
    }
}

fn message(blocks: Vec<ContentBlock>) -> ConversationMessage {
    ConversationMessage {
        role: MessageRole::Assistant,
        blocks,
    }
}

fn turn(reply: &str) -> Result<TurnSummary<u32, u32>, RuntimeError> {
    Ok(TurnSummary {
        assistant_messages: vec![message(vec![text(reply)])],
        usage: 12,
        auto_compaction: Some(3),
    })
}

fn run() -> DreamRun<String> {
    DreamRun {
        memory_dir: "/w/.claw/memory".to_string(),
        files_written: vec!["MEMORY.md".to_string()],
        log_count: 1,
        input_bytes: 2,
    }
}

#[test]
fn turn_service_returns_final_text_session_usage_and_dream_status() {
    let service = service(false);

    let dream: Result<Option<DreamRun<String>>, DreamerError> = Ok(None);
    let output = service.run_turn(turn("done"), dream).expect("turn should run");

    assert_eq!(output.final_text, "done");
    assert_eq!(output.dream_status, TurnDreamStatus::Disabled);
    assert!(output.session_id.starts_with("session-"));
    assert_eq!(output.session_path.as_deref(), Some("/s/1.jsonl"));
    assert_eq!(output.usage, 12);
    assert_eq!(output.auto_compaction, Some(3));
}

#[test]
fn failed_dream_does_not_fail_the_turn() {
    let service = service(true);
    let output = service
        .run_turn::<u32, u32, String>(turn("done"), Err(DreamerError::Locked))
        .unwrap();
    assert_eq!(
        output.dream_status,
        TurnDreamStatus::Failed(
            "dreamer: another consolidation pass is already running".to_string()
        )
    );
    assert_eq!(output.final_text, "done");
}

#[test]
fn dreams_are_told_apart() {
    let service = service(true);
    assert_eq!(
        service.maybe_dream_after_turn(Ok(Some(run()))),
        TurnDreamStatus::Completed(run())
    );
    assert_eq!(
        service.maybe_dream_after_turn::<String>(Ok(None)),
        TurnDreamStatus::Skipped
    );
}

#[test]
fn failed_turn_keeps_its_error() {
    let service = service(true);
    let failed: Result<TurnSummary<u32, u32>, RuntimeError> = Err(RuntimeError {
        message: "offline".to_string(),
    });
    assert!(service.dream_after_turn(&failed).is_none());
    assert_eq!(
        service.run_turn(failed, Ok(Some(run()))).unwrap_err(),
        RuntimeError {
            message: "offline".to_string()
        }
    );
}

#[test]
fn dream_is_tried_after_a_turn_where_dreams_start_by_themselves() {
    let service_on = service(true);
    let dream = service_on.dream_after_turn(&turn("done")).unwrap();
    assert_eq!(
        dream.config.memory_dir,
        MemoryPlace::BelowWorkspace {
            workspace: &"/w".to_string(),
            paths: vec![".claw".to_string(), "memory".to_string()],
        }
    );
    assert_eq!(dream.config.max_input_bytes, MAX_LOG_INPUT_BYTES);
    assert!(!dream.config.force);
    assert!(dream.auto_dream_enabled);
    assert!(service(false).dream_after_turn(&turn("done")).is_none());
}

#[test]
fn final_text_joins_the_text_blocks() {
    assert_eq!(
        final_assistant_text_from_blocks(&[
            message(vec![text("a"), ContentBlock::Other, text("b")]),
            message(vec![]),
            message(vec![text("c")]),
        ]),
        "a\nb\nc"
    );
    assert_eq!(final_assistant_text_from_blocks(&[]), "");
}

#[test]
fn conversation_can_be_changed_and_taken_out() {
    let mut service = service(true);
    service.runtime_mut().api_client = 9;
    assert_eq!(service.runtime().api_client, 9);
    assert_eq!(service.session().session_id, "session-1");
    assert_eq!(service.into_runtime().api_client, 9);
}
