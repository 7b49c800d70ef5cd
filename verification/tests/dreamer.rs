use claw_runtime::clock::Timestamp;
use claw_runtime::config::MemoryConfig;
use claw_runtime::conversation::{
    ApiClient, ApiRequest, AssistantEvent, ContentBlock, MessageRole, RuntimeError,
};
use claw_runtime::dreamer::consolidate::{
    build_user_message, collect_text_from_events, consolidate_memory, finish_consolidation,
    input_bytes, DREAMER_SYSTEM_PROMPT,
};
use claw_runtime::dreamer::files::{
    atomic_write, temp_file_name, touch_last_dream_marker, FileStep,
};
use claw_runtime::dreamer::gate::{
    auto_dream_gate, last_dream_time, touched_sessions_since, DreamGate, DreamTimes, GateEvidence,
    GateStep,
};
use claw_runtime::dreamer::limits::{truncate_for_prompt, truncate_utf8_bytes};
use claw_runtime::dreamer::logs::{
    append_daily_log, is_memory_log_candidate, LogCollection, LogEntry,
};
use claw_runtime::dreamer::manager::{
    auto_dream_step, maybe_run_auto_dream, resolve_memory_dir, MemoryManager, MemoryPlace,
};
use claw_runtime::dreamer::output::{
    ensure_trailing_newline, find_memory_markdown, parse_dream_output, parse_file_marker,
    validate_memory_markdown, validate_output_path, write_consolidated_memory, FileWrite,
};
use claw_runtime::dreamer::pass::{DreamPass, PassAction, PassEvent};
use claw_runtime::dreamer::prompt::{
    load_memory_prompt, MAX_MEMORY_PROMPT_BYTES, MAX_MEMORY_PROMPT_LINES,
};
use claw_runtime::dreamer::{
    DreamRun, DreamerConfig, DreamerError, DreamerFileOutput, DreamerOutput, MemoryLog,
    CONSOLIDATED_MEMORY_FILENAME, DREAM_LOCK_FILENAME, LAST_DREAM_FILENAME, MAX_LOG_INPUT_BYTES,
    MEMORY_FILENAME,
};
use claw_runtime::paths::PathStyle;

struct StubClient {
    response: String,
}

impl ApiClient for StubClient {
    fn stream(&mut self, _request: ApiRequest) -> Result<Vec<AssistantEvent>, RuntimeError> {
        Ok(vec![
            AssistantEvent::TextDelta(self.response.clone()),
            AssistantEvent::MessageStop,
        ])
    }
}

struct RecordingClient {
    requests: Vec<ApiRequest>,
    reply: Result<Vec<AssistantEvent>, RuntimeError>,
}

impl ApiClient for RecordingClient {
    fn stream(&mut self, request: ApiRequest) -> Result<Vec<AssistantEvent>, RuntimeError> {
        self.requests.push(request);
        self.reply.clone()
    }
}

fn log(name: &str, content: &str) -> MemoryLog {
    MemoryLog {
        name: name.to_string(),
        content: content.to_string(),
    }
}

fn at(secs: i64) -> Timestamp {
    Timestamp { secs, nanos: 0 }
}

/// Reads files, given by path, text and time of change, as the logs of a memory directory.
fn collect(files: &[(&str, &str, i64)], max_input_bytes: usize) -> Vec<MemoryLog> {
    let entries = files
        .iter()
        .enumerate()
        .map(|(n, (relative, _, secs))| {
            let name = relative.rsplit('/').next().map(str::to_string);
            LogEntry::new(at(*secs), relative, name, n)
        })
        .collect();
    let mut collection = LogCollection::start(entries, max_input_bytes);
    while let Some(entry) = collection.next_entry() {
        let (relative, content, _) = files[entry.file];
        assert_eq!(entry.name, relative);
        collection.supply(content);
    }
    collection.finish()
}

fn invalid(message: &str) -> DreamerError {
    DreamerError::InvalidOutput(message.to_string())
}

#[test]
fn consolidate_returns_model_text_as_memory_file() {
    let logs = vec![
        MemoryLog {
            name: "logs/2026/04/2026-04-29.md".to_string(),
            content: "- user is a Rust developer".to_string(),
        },
        MemoryLog {
            name: "logs/2026/04/2026-04-28.md".to_string(),
            content: "- project: claw-code CLI in Rust".to_string(),
        },
    ];

    let expected = "# Memory\n\n## User Preferences\n- Rust developer.";
    let mut client = StubClient {
        response: expected.to_string(),
    };

    let result = consolidate_memory(&logs, &mut client, PathStyle::Unix).unwrap();

    assert_eq!(result.markdown, expected);
    assert_eq!(result.files[0].path, MEMORY_FILENAME);
    assert_eq!(result.log_count, 2);
}

#[test]
fn consolidate_parses_topic_file_blocks() {
    let logs = vec![MemoryLog {
        name: "logs/2026/04/2026-04-29.md".to_string(),
        content: "- keep exact benchmark values".to_string(),
    }];
    let mut client = StubClient {
        response: "--- FILE: MEMORY.md ---\n# Memory\n\n- See benchmark.md.\n--- END FILE ---\n--- FILE: benchmark.md ---\n# Benchmark\n\n- value = 42\n--- END FILE ---".to_string(),
    };

    let result = consolidate_memory(&logs, &mut client, PathStyle::Unix).unwrap();

    assert_eq!(result.files.len(), 2);
    assert!(result.files.iter().any(|file| file.path == "benchmark.md"));
}

#[test]
fn consolidate_returns_no_logs_error_on_empty_input() {
    let mut client = StubClient {
        response: String::new(),
    };
    let err = consolidate_memory(&[], &mut client, PathStyle::Unix).unwrap_err();
    assert!(matches!(err, DreamerError::NoLogs));
}

#[test]
fn collect_memory_logs_is_recursive_and_skips_generated_files() {
    let logs = collect(
        &[
            ("logs/2026/04/2026-04-29.md", "new note", 1),
            ("logs/2026/04/2026-04-28.md", "old note", 1),
            (MEMORY_FILENAME, "old memory", 1),
            (CONSOLIDATED_MEMORY_FILENAME, "legacy", 1),
            (DREAM_LOCK_FILENAME, "locked", 1),
            ("empty.md", "   \n", 1),
        ],
        MAX_LOG_INPUT_BYTES,
    );
    let names: Vec<_> = logs.iter().map(|l| l.name.as_str()).collect();

    assert_eq!(names.len(), 2);
    assert!(names.contains(&"logs/2026/04/2026-04-29.md"));
    assert!(names.contains(&"logs/2026/04/2026-04-28.md"));
    assert!(!names.contains(&MEMORY_FILENAME));
    assert!(!names.contains(&DREAM_LOCK_FILENAME));
}

#[test]
fn collect_memory_logs_respects_byte_budget_on_utf8_boundary() {
    let content = "é".repeat(10);

    let logs = collect(&[("a.md", content.as_str(), 1)], 3);

    assert_eq!(logs.len(), 1);
    assert_eq!(logs[0].content, "é");
}

#[test]
fn load_memory_prompt_applies_line_and_byte_caps() {
    let content = (0..500)
        .map(|line| format!("line {line}"))
        .collect::<Vec<_>>()
        .join("\n");

    let prompt = load_memory_prompt("/m/MEMORY.md", Some(content.as_str())).unwrap();

    assert!(prompt.contains("# Persistent Memory"));
    assert!(prompt.contains("[truncated]"));
    assert!(prompt.lines().count() <= MAX_MEMORY_PROMPT_LINES + 5);
}

#[test]
fn write_consolidated_memory_creates_memory_and_topic_files() {
    let output = DreamerOutput {
        markdown: "# Memory\n\n- Durable fact.".to_string(),
        files: vec![
            DreamerFileOutput {
                path: MEMORY_FILENAME.to_string(),
                markdown: "# Memory\n\n- Durable fact.".to_string(),
            },
            DreamerFileOutput {
                path: "rust.md".to_string(),
                markdown: "# Rust\n\n- Use cargo test.".to_string(),
            },
        ],
        log_count: 1,
        input_bytes: 40,
    };

    let plan = write_consolidated_memory(&output, "/m", PathStyle::Unix);

    assert_eq!(plan.failure, None);
    assert_eq!(plan.directory, "/m");
    assert_eq!(plan.writes.len(), 2);
    assert!(plan.writes.iter().any(|write| write.path == MEMORY_FILENAME));
    assert!(plan.writes.iter().any(|write| write.path == "rust.md"));
}

#[test]
fn write_consolidated_memory_rejects_empty_or_nested_paths() {
    let output = DreamerOutput {
        markdown: "# Memory".to_string(),
        files: vec![DreamerFileOutput {
            path: "nested/topic.md".to_string(),
            markdown: "# Topic".to_string(),
        }],
        log_count: 1,
        input_bytes: 40,
    };

    let err = write_consolidated_memory(&output, "/m", PathStyle::Unix).failure.unwrap();
    assert!(matches!(err, DreamerError::InvalidOutput(_)));
}

/// Runs a dream against files that are kept in a list, and returns what came of it.
fn dream(
    config: DreamerConfig<String>,
    client: &mut StubClient,
    files: &mut Vec<FileWrite>,
    logs: Vec<MemoryLog>,
    done: &mut Vec<String>,
) -> Result<DreamRun<String>, DreamerError> {
    let mut pass = DreamPass::start(config, PathStyle::Unix);
    loop {
        let event = match pass.action() {
            PassAction::CreateDirectory => {
                done.push("create".to_string());
                PassEvent::Done
            }
            PassAction::AcquireLock(name) => {
                if files.iter().any(|file| file.path == name) {
                    PassEvent::LockHeld
                } else {
                    done.push(format!("lock {name}"));
                    files.push(FileWrite {
                        path: name.to_string(),
                        contents: String::new(),
                    });
                    PassEvent::Done
                }
            }
            PassAction::CollectLogs { max_input_bytes } => {
                done.push(format!("collect {max_input_bytes}"));
                PassEvent::LogsRead(logs.clone())
            }
            PassAction::AskModel(request) => {
                done.push("ask".to_string());
                PassEvent::Replied(client.stream(request))
            }
            PassAction::WriteFile(file) => {
                done.push(format!("write {}", file.path));
                files.retain(|other| other.path != file.path);
                files.push(file.clone());
                PassEvent::Done
            }
            PassAction::TouchMarker(name) => {
                done.push(format!("mark {name}"));
                PassEvent::Done
            }
            PassAction::ReleaseLock(name) => {
                done.push(format!("unlock {name}"));
                files.retain(|other| other.path != name);
                PassEvent::Done
            }
            PassAction::Finish(_) => break,
        };
        pass = pass.next(event);
    }
    pass.into_outcome().unwrap()
}

#[test]
fn lock_blocks_concurrent_dreams_and_failed_output_preserves_existing_memory() {
    let mut files = vec![
        FileWrite {
            path: "MEMORY.md".to_string(),
            contents: "# Memory\n\n- Existing.".to_string(),
        },
        FileWrite {
            path: ".consolidate-lock".to_string(),
            contents: String::new(),
        },
    ];
    let mut client = StubClient {
        response: "# Memory\n\n- Replacement.".to_string(),
    };

    let err = dream(
        DreamerConfig::new("/m".to_string()),
        &mut client,
        &mut files,
        vec![log("a.md", "note")],
        &mut Vec::new(),
    )
    .unwrap_err();

    assert!(matches!(err, DreamerError::Locked));
    assert_eq!(
        files
            .iter()
            .find(|file| file.path == "MEMORY.md")
            .unwrap()
            .contents,
        "# Memory\n\n- Existing."
    );
}

#[test]
fn append_daily_log_uses_expected_layout() {
    let planned = append_daily_log(
        "/m",
        "remember permission preferences",
        &at(1_777_420_800),
    )
    .unwrap();

    let path = format!("{}/{}", planned.directories.join("/"), planned.file);
    assert!(path.ends_with("logs/2026/04/2026-04-29.md"));
    assert_eq!(planned.memory_dir, "/m");
    assert!(planned.entry.contains("remember permission preferences"));
}

#[test]
fn appended_note_is_trimmed_and_put_on_a_line_of_its_own() {
    let planned = append_daily_log("/m/", "  keep it short \n", &at(0)).unwrap();
    assert_eq!(planned.directories, ["logs", "1970", "01"]);
    assert_eq!(planned.file, "1970-01-01.md");
    assert_eq!(planned.entry, "\n- keep it short\n");
}

#[test]
fn blank_note_is_refused() {
    assert_eq!(
        append_daily_log("/m", " \t\n", &at(0)).unwrap_err(),
        invalid("memory log note is empty")
    );
}

#[test]
fn notes_are_logs_and_own_files_are_not() {
    let planned = append_daily_log("/m", "note", &at(1_777_420_800)).unwrap();
    assert!(is_memory_log_candidate(Some(&planned.file)));
    assert!(is_memory_log_candidate(Some("NOTES.MD")));
    assert!(is_memory_log_candidate(Some("a.b.md")));
    assert!(!is_memory_log_candidate(Some("notes.txt")));
    assert!(!is_memory_log_candidate(Some(".md")));
    assert!(!is_memory_log_candidate(Some("notes")));
    assert!(!is_memory_log_candidate(None));
    for name in [
        MEMORY_FILENAME,
        CONSOLIDATED_MEMORY_FILENAME,
        DREAM_LOCK_FILENAME,
        LAST_DREAM_FILENAME,
    ] {
        assert!(!is_memory_log_candidate(Some(name)));
    }
}

#[test]
fn log_names_have_slashes() {
    let entry = LogEntry::new(at(0), "logs\\2026\\a.md", Some("a.md".to_string()), 3);
    assert_eq!(entry.name, "logs/2026/a.md");
    assert_eq!(entry.file, 3);
}

#[test]
fn logs_come_newest_first_and_by_name_backwards() {
    let logs = collect(
        &[
            ("a.md", "a", 5),
            ("b.md", "b", 9),
            ("c.md", "c", 5),
            ("d.md", "d", 1),
        ],
        100,
    );
    let names: Vec<_> = logs.iter().map(|l| l.name.as_str()).collect();
    assert_eq!(names, ["b.md", "c.md", "a.md", "d.md"]);
}

#[test]
fn logs_beyond_the_budget_are_left_out() {
    let logs = collect(
        &[("a.md", "aaaa", 3), ("b.md", "bbbb", 2), ("c.md", "cccc", 1)],
        6,
    );
    assert_eq!(logs, [log("a.md", "aaaa"), log("b.md", "bb")]);
    assert!(logs.iter().map(|l| l.content.len()).sum::<usize>() <= 6);
}

#[test]
fn log_that_does_not_fit_by_a_character_is_kept_empty() {
    let logs = collect(&[("a.md", "aaa", 3), ("b.md", "é", 2), ("c.md", "c", 1)], 4);
    assert_eq!(logs, [log("a.md", "aaa"), log("b.md", ""), log("c.md", "c")]);
}

#[test]
fn texts_are_cut_between_characters() {
    assert_eq!(truncate_utf8_bytes("héllo", 2), "h");
    assert_eq!(truncate_utf8_bytes("héllo", 3), "hé");
    assert_eq!(truncate_utf8_bytes("héllo", 6), "héllo");
    assert_eq!(truncate_utf8_bytes("héllo", 0), "");
    assert_eq!(truncate_utf8_bytes("😀", 3), "");
}

#[test]
fn excerpts_say_that_something_is_missing() {
    assert_eq!(truncate_for_prompt("a\nb\nc", 100, 2), "a\nb\n\n[truncated]");
    assert_eq!(truncate_for_prompt("a\nb", 100, 2), "a\nb");
    assert_eq!(truncate_for_prompt("a\r\nb\n", 100, 2), "a\nb");
    assert_eq!(truncate_for_prompt("abc", 2, 2), "ab\n\n[truncated]");
}

#[test]
fn prompt_names_the_memory_file() {
    let prompt = load_memory_prompt("/m/MEMORY.md", Some("# Memory\n\n- Fact.\n\n")).unwrap();
    assert_eq!(
        prompt,
        "# Persistent Memory\nLoaded from /m/MEMORY.md. Treat this as durable project-local context. During normal turns, do not edit `MEMORY.md` directly; append new durable notes to today's log under `logs/YYYY/MM/YYYY-MM-DD.md` and use `/dream` to consolidate.\n\n# Memory\n\n- Fact."
    );
    assert_eq!(load_memory_prompt("/m/MEMORY.md", Some(" \n")), None);
    assert_eq!(load_memory_prompt("/m/MEMORY.md", None), None);
}

#[test]
fn prompt_is_capped_by_bytes() {
    let content = "x".repeat(MAX_MEMORY_PROMPT_BYTES + 1);
    let prompt = load_memory_prompt("/m/MEMORY.md", Some(content.as_str())).unwrap();
    assert!(prompt.ends_with("x\n\n[truncated]"));
    assert!(prompt.len() < MAX_MEMORY_PROMPT_BYTES + 400);
}

#[test]
fn user_message_holds_every_log() {
    assert_eq!(
        build_user_message(&[log("a.md", "one"), log("b.md", "two\n")]),
        "Below are raw memory log files, newest first. Consolidate them into MEMORY.md and optional root-level topic files using the required file block format.\n\n---\nFile: a.md\n---\none\n\n---\nFile: b.md\n---\ntwo\n\n"
    );
    assert_eq!(input_bytes(&[log("a.md", "é"), log("b.md", "abc")]), 5);
}

#[test]
fn reply_is_the_text_of_its_deltas() {
    let events = [
        AssistantEvent::TextDelta("  a".to_string()),
        AssistantEvent::Other,
        AssistantEvent::TextDelta("b \n".to_string()),
        AssistantEvent::MessageStop,
    ];
    assert_eq!(collect_text_from_events(&events), "ab");
}

#[test]
fn model_is_asked_with_the_logs() {
    let mut client = RecordingClient {
        requests: Vec::new(),
        reply: Err(RuntimeError {
            message: "offline".to_string(),
        }),
    };
    let logs = [log("a.md", "one")];
    assert_eq!(
        consolidate_memory(&logs, &mut client, PathStyle::Unix).unwrap_err(),
        DreamerError::Api("offline".to_string())
    );
    assert_eq!(client.requests.len(), 1);
    let request = &client.requests[0];
    assert_eq!(request.system_prompt, [DREAMER_SYSTEM_PROMPT.to_string()]);
    assert_eq!(request.messages.len(), 1);
    assert_eq!(request.messages[0].role, MessageRole::User);
    assert_eq!(
        request.messages[0].blocks,
        [ContentBlock::Text {
            text: build_user_message(&logs)
        }]
    );
}

#[test]
fn model_is_not_asked_without_logs() {
    let mut client = RecordingClient {
        requests: Vec::new(),
        reply: Ok(Vec::new()),
    };
    assert_eq!(
        consolidate_memory(&[], &mut client, PathStyle::Unix).unwrap_err(),
        DreamerError::NoLogs
    );
    assert!(client.requests.is_empty());
}

#[test]
fn replies_that_cannot_be_used_are_refused() {
    let logs = [log("a.md", "one")];
    let refused = |text: &str| {
        finish_consolidation(
            &logs,
            Ok(vec![AssistantEvent::TextDelta(text.to_string())]),
            PathStyle::Unix,
        )
        .unwrap_err()
    };
    assert_eq!(refused("  "), invalid("model returned empty text"));
    assert_eq!(
        refused("--- FILE: topic.md ---\n# Topic"),
        invalid("missing MEMORY.md output")
    );
    assert_eq!(
        refused("--- FILE: MEMORY.md ---\n--- END FILE ---"),
        invalid("MEMORY.md output is empty")
    );
    assert_eq!(
        refused("no heading at all"),
        invalid("MEMORY.md output has no markdown heading")
    );
    assert_eq!(
        refused("--- FILE: /etc/x.md ---\n# X"),
        invalid("absolute output path is not allowed: /etc/x.md")
    );
}

#[test]
fn markers_name_a_path() {
    assert_eq!(
        parse_file_marker("  --- FILE: MEMORY.md ---  "),
        Some("MEMORY.md".to_string())
    );
    assert_eq!(
        parse_file_marker("--- FILE:  a b.md  ---"),
        Some("a b.md".to_string())
    );
    assert_eq!(parse_file_marker("--- FILE:   ---"), None);
    assert_eq!(parse_file_marker("--- FILE: a.md"), None);
    assert_eq!(parse_file_marker("-- FILE: a.md ---"), None);
    assert_eq!(parse_file_marker("--- FILE: ---"), None);
}

#[test]
fn blocks_are_read_in_order() {
    let files = parse_dream_output(
        "lead\n--- FILE: a.md ---\n\n# A\n\n- x\n\n--- FILE: b.md ---\n# B\n--- END FILE ---\nstray\n--- END FILE ---\n--- FILE: c.md ---",
        PathStyle::Unix,
    )
    .unwrap();
    let pairs: Vec<_> = files
        .iter()
        .map(|file| (file.path.as_str(), file.markdown.as_str()))
        .collect();
    assert_eq!(
        pairs,
        [("a.md", "# A\n\n- x"), ("b.md", "# B"), ("c.md", "")]
    );
}

#[test]
fn blocks_are_read_back_as_they_were() {
    let files = [("MEMORY.md", "# Memory\n\n- one\ttab"), ("b c.md", "x"), ("d.md", "")];
    let blocks: Vec<String> = files
        .iter()
        .map(|(path, markdown)| format!("--- FILE: {path} ---\n{markdown}\n--- END FILE ---"))
        .collect();
    let raw = format!("\n \n{}\n", blocks.join("\n"));
    let read = parse_dream_output(&raw, PathStyle::Unix).unwrap();
    let pairs: Vec<_> = read
        .iter()
        .map(|file| (file.path.as_str(), file.markdown.as_str()))
        .collect();
    assert_eq!(pairs, files);
}

#[test]
fn reply_without_blocks_is_the_memory() {
    let files = parse_dream_output(" # Memory \n", PathStyle::Unix).unwrap();
    assert_eq!(files.len(), 1);
    assert_eq!(files[0].path, MEMORY_FILENAME);
    assert_eq!(files[0].markdown, "# Memory");
}

#[test]
fn only_markdown_at_the_root_may_be_written() {
    for style in [PathStyle::Unix, PathStyle::Windows] {
        assert!(validate_output_path("MEMORY.md", style).is_ok());
        assert!(validate_output_path("a.b.md", style).is_ok());
        assert!(validate_output_path("a.md/", style).is_ok());
        for path in ["", "a/b.md", "../a.md", "./a.md", "..", "."] {
            assert_eq!(
                validate_output_path(path, style).unwrap_err(),
                invalid(&format!("output path must be a root-level file: {path}"))
            );
        }
        for path in ["a.txt", "a.MD", "md", ".md"] {
            assert_eq!(
                validate_output_path(path, style).unwrap_err(),
                invalid(&format!("output path must be markdown: {path}"))
            );
        }
    }
    assert_eq!(
        validate_output_path("/a.md", PathStyle::Unix).unwrap_err(),
        invalid("absolute output path is not allowed: /a.md")
    );
}

#[test]
fn output_paths_are_judged_as_the_machine_has_them() {
    for path in ["C:\\a.md", "c:/a.md", "\\\\server\\share\\a.md", "\\\\?\\a.md"] {
        assert_eq!(
            validate_output_path(path, PathStyle::Windows).unwrap_err(),
            invalid(&format!("absolute output path is not allowed: {path}"))
        );
    }
    for path in ["a\\b.md", "/a.md", "\\a.md", "C:a.md", "..\\a.md", ".\\a.md"] {
        assert_eq!(
            validate_output_path(path, PathStyle::Windows).unwrap_err(),
            invalid(&format!("output path must be a root-level file: {path}"))
        );
    }
    assert!(validate_output_path("a.md\\", PathStyle::Windows).is_ok());
    for path in ["a\\b.md", "C:\\a.md", "C:a.md", "\\a.md"] {
        assert!(validate_output_path(path, PathStyle::Unix).is_ok());
    }
    let reply = "--- FILE: MEMORY.md ---\n# M\n--- FILE: sub\\b.md ---\nb";
    assert_eq!(parse_dream_output(reply, PathStyle::Unix).unwrap().len(), 2);
    assert_eq!(
        parse_dream_output(reply, PathStyle::Windows).unwrap_err(),
        invalid("output path must be a root-level file: sub\\b.md")
    );
}

#[test]
fn memory_file_is_found_by_its_path() {
    let file = |path: &str, markdown: &str| DreamerFileOutput {
        path: path.to_string(),
        markdown: markdown.to_string(),
    };
    assert_eq!(
        find_memory_markdown(&vec![file("a.md", "a"), file("MEMORY.md/", "m"), file("MEMORY.md", "n")], PathStyle::Unix),
        Some("m".to_string())
    );
    assert_eq!(find_memory_markdown(&vec![file("memory.md", "a")], PathStyle::Unix), None);
}

#[test]
fn memory_needs_a_heading() {
    assert!(validate_memory_markdown("text\n   # Heading").is_ok());
    assert_eq!(
        validate_memory_markdown("text # no").unwrap_err(),
        invalid("MEMORY.md output has no markdown heading")
    );
    assert_eq!(
        validate_memory_markdown(" \n").unwrap_err(),
        invalid("MEMORY.md output is empty")
    );
}

#[test]
fn written_texts_end_with_a_line_feed() {
    assert_eq!(ensure_trailing_newline("a"), "a\n");
    assert_eq!(ensure_trailing_newline("a\n"), "a\n");
    assert_eq!(ensure_trailing_newline(""), "\n");
}

#[test]
fn no_file_is_written_where_one_may_not_be() {
    let file = |path: &str, markdown: &str| DreamerFileOutput {
        path: path.to_string(),
        markdown: markdown.to_string(),
    };
    let planned = |files: Vec<DreamerFileOutput>| {
        let output = DreamerOutput {
            markdown: "# M".to_string(),
            files,
            log_count: 1,
            input_bytes: 1,
        };
        write_consolidated_memory(&output, "/m", PathStyle::Unix)
    };
    let plan = planned(vec![
        file("MEMORY.md", "# M"),
        file("b.md", "  "),
        file("c.txt", "c"),
    ]);
    assert_eq!(plan.directory, "/m");
    assert_eq!(plan.writes, []);
    assert_eq!(plan.failure, Some(invalid("b.md is empty")));
    let plan = planned(vec![file("MEMORY.md", "# M"), file("c.md", "c\n")]);
    assert_eq!(
        plan.writes,
        [
            FileWrite {
                path: "MEMORY.md".to_string(),
                contents: "# M\n".to_string()
            },
            FileWrite {
                path: "c.md".to_string(),
                contents: "c\n".to_string()
            },
        ]
    );
    assert_eq!(plan.failure, None);
}

#[test]
fn failed_output_preserves_the_memory() {
    let replies = [
        "--- FILE: MEMORY.md ---\n# New\n--- FILE: b.md ---\n \n--- END FILE ---",
        "--- FILE: MEMORY.md ---\n# New\n--- FILE: sub/b.md ---\nb",
        "--- FILE: b.md ---\n# New",
        "no heading",
        " ",
    ];
    for response in replies {
        let mut files = vec![FileWrite {
            path: "MEMORY.md".to_string(),
            contents: "# Old".to_string(),
        }];
        let mut done = Vec::new();
        let err = dream(
            DreamerConfig::new("/m".to_string()),
            &mut StubClient {
                response: response.to_string(),
            },
            &mut files,
            vec![log("a.md", "note")],
            &mut done,
        )
        .unwrap_err();
        assert!(matches!(err, DreamerError::InvalidOutput(_)));
        assert!(!done
            .iter()
            .any(|step| step.starts_with("write") || step.starts_with("mark")));
        assert_eq!(files.len(), 1);
        assert_eq!(files[0].contents, "# Old");
    }
}

#[test]
fn replies_below_one_another_are_read_together() {
    let upper = "lead\n--- FILE: a.md ---\n# A\n\n";
    let lower = " --- FILE: a.md ---\nb\n--- END FILE ---\n";
    let mut files = parse_dream_output(upper, PathStyle::Unix).unwrap();
    files.extend(parse_dream_output(lower, PathStyle::Unix).unwrap());
    assert_eq!(files.len(), 2);
    assert_eq!(
        parse_dream_output(&format!("{upper}\n{lower}"), PathStyle::Unix).unwrap(),
        files
    );
}

#[test]
fn dream_writes_its_files_under_the_lock() {
    let mut files = Vec::new();
    let mut done = Vec::new();
    let mut client = StubClient {
        response: "--- FILE: MEMORY.md ---\n# M\n--- FILE: b.md ---\nb".to_string(),
    };
    let run = dream(
        DreamerConfig::new("/m".to_string()).with_max_input_bytes(7),
        &mut client,
        &mut files,
        vec![log("a.md", "note")],
        &mut done,
    )
    .unwrap();
    assert_eq!(
        done,
        [
            "create",
            "lock .consolidate-lock",
            "collect 7",
            "ask",
            "create",
            "write MEMORY.md",
            "write b.md",
            "mark .last-dream",
            "unlock .consolidate-lock",
        ]
    );
    assert_eq!(
        run,
        DreamRun {
            memory_dir: "/m".to_string(),
            files_written: vec!["MEMORY.md".to_string(), "b.md".to_string()],
            log_count: 1,
            input_bytes: 4,
        }
    );
    assert_eq!(files.len(), 2);
}

#[test]
fn refused_reply_writes_nothing() {
    let mut files = Vec::new();
    let mut done = Vec::new();
    let mut client = StubClient {
        response: "no heading".to_string(),
    };
    let err = dream(
        DreamerConfig::new("/m".to_string()),
        &mut client,
        &mut files,
        vec![log("a.md", "note")],
        &mut done,
    )
    .unwrap_err();
    assert_eq!(err, invalid("MEMORY.md output has no markdown heading"));
    assert!(!done.iter().any(|step| step.starts_with("write")));
    assert!(!done.iter().any(|step| step.starts_with("mark")));
    assert!(files.is_empty());
}

#[test]
fn dream_without_logs_does_not_ask_the_model() {
    let mut done = Vec::new();
    let mut client = StubClient {
        response: "# M".to_string(),
    };
    let err = dream(
        DreamerConfig::new("/m".to_string()),
        &mut client,
        &mut Vec::new(),
        Vec::new(),
        &mut done,
    )
    .unwrap_err();
    assert_eq!(err, DreamerError::NoLogs);
    assert_eq!(done.last().unwrap(), "unlock .consolidate-lock");
    assert!(!done.contains(&"ask".to_string()));
}

#[test]
fn failed_write_releases_the_lock() {
    let mut pass = DreamPass::start(DreamerConfig::new("/m".to_string()), PathStyle::Unix);
    pass = pass.next(PassEvent::Done).next(PassEvent::Done);
    pass = pass.next(PassEvent::LogsRead(vec![log("a.md", "note")]));
    pass = pass.next(PassEvent::Replied(Ok(vec![AssistantEvent::TextDelta(
        "# M".to_string(),
    )])));
    assert!(matches!(pass.action(), PassAction::CreateDirectory));
    pass = pass.next(PassEvent::Done);
    assert!(matches!(pass.action(), PassAction::WriteFile(_)));
    pass = pass.next(PassEvent::Failed("disk full".to_string()));
    assert!(matches!(pass.action(), PassAction::ReleaseLock(".consolidate-lock")));
    pass = pass.next(PassEvent::Done);
    assert_eq!(
        pass.into_outcome().unwrap().unwrap_err(),
        DreamerError::Io("disk full".to_string())
    );
}

#[test]
fn errors_have_a_text() {
    assert_eq!(
        DreamerError::Io("x".to_string()).message(),
        "dreamer I/O error: x"
    );
    assert_eq!(
        DreamerError::Api("x".to_string()).message(),
        "dreamer API error: x"
    );
    assert_eq!(
        DreamerError::NoLogs.message(),
        "dreamer: no memory log files found in directory"
    );
    assert_eq!(
        DreamerError::Locked.message(),
        "dreamer: another consolidation pass is already running"
    );
    assert_eq!(
        invalid("x").message(),
        "dreamer produced invalid output: x"
    );
}

fn evidence(locked: bool, last_dream: Option<i64>, now: i64, sessions: &[u64]) -> GateEvidence {
    GateEvidence {
        locked: Some(locked),
        times: Some(DreamTimes {
            last_dream: last_dream.map(at),
            now: at(now),
        }),
        sessions: Some(sessions.to_vec()),
    }
}

#[test]
fn gate_looks_only_at_what_it_needs() {
    let unknown = GateEvidence {
        locked: None,
        times: None,
        sessions: None,
    };
    assert_eq!(
        auto_dream_gate(false, false, &unknown),
        GateStep::Decided(DreamGate::Disabled)
    );
    assert_eq!(auto_dream_gate(true, false, &unknown), GateStep::LookAtLock);
    let locked = GateEvidence {
        locked: Some(true),
        ..unknown.clone()
    };
    assert_eq!(
        auto_dream_gate(true, true, &locked),
        GateStep::Decided(DreamGate::Locked)
    );
    let unlocked = GateEvidence {
        locked: Some(false),
        ..unknown
    };
    assert_eq!(
        auto_dream_gate(false, true, &unlocked),
        GateStep::Decided(DreamGate::Ready)
    );
    assert_eq!(auto_dream_gate(true, false, &unlocked), GateStep::LookAtTimes);
    let early = GateEvidence {
        times: Some(DreamTimes {
            last_dream: Some(at(0)),
            now: at(86_400),
        }),
        ..unlocked
    };
    assert_eq!(auto_dream_gate(true, false, &early), GateStep::LookAtSessions);
}

#[test]
fn gate_waits_for_a_day() {
    assert_eq!(
        auto_dream_gate(true, false, &evidence(false, Some(100), 86_499, &[])),
        GateStep::Decided(DreamGate::TooSoon {
            remaining: 1_000_000_000
        })
    );
    assert_eq!(
        auto_dream_gate(true, false, &evidence(false, Some(100), 50, &[])),
        GateStep::Decided(DreamGate::TooSoon {
            remaining: 86_400_000_000_000
        })
    );
}

#[test]
fn gate_wants_five_sessions_since_the_last_dream() {
    let sessions = [1_000, 1_001, 2_000, 3_000, 4_000, 5_000];
    assert_eq!(
        auto_dream_gate(true, false, &evidence(false, Some(1), 86_401, &sessions)),
        GateStep::Decided(DreamGate::Ready)
    );
    assert_eq!(
        auto_dream_gate(true, false, &evidence(false, Some(1), 86_401, &sessions[..5])),
        GateStep::Decided(DreamGate::TooFewSessions {
            touched: 4,
            required: 5
        })
    );
    assert_eq!(
        auto_dream_gate(true, false, &evidence(false, None, 0, &sessions[..5])),
        GateStep::Decided(DreamGate::Ready)
    );
    assert_eq!(touched_sessions_since(&sessions, &Some(at(1))), 5);
    assert_eq!(touched_sessions_since(&sessions, &Some(at(-7))), 6);
    assert_eq!(touched_sessions_since(&sessions, &None), 6);
}

#[test]
fn marker_goes_before_the_memory_file() {
    assert_eq!(last_dream_time(Some(at(3)), Some(at(9))), Some(at(3)));
    assert_eq!(last_dream_time(None, Some(at(9))), Some(at(9)));
    assert_eq!(last_dream_time(None, None), None);
}

#[test]
fn dream_starts_only_where_it_may() {
    let config = DreamerConfig::new("/m".to_string());
    let start = |config: &DreamerConfig<String>, enabled: bool, evidence: &GateEvidence| {
        maybe_run_auto_dream(config.clone(), PathStyle::Unix, enabled, evidence)
    };
    let used = [1_000, 2_000, 3_000, 4_000, 5_000];
    let pass = start(&config, true, &evidence(false, None, 0, &used)).unwrap();
    assert_eq!(pass.config, config);
    assert_eq!(pass.style, PathStyle::Unix);
    assert!(matches!(pass.action(), PassAction::CreateDirectory));
    assert!(start(&config, false, &evidence(false, None, 0, &used)).is_none());
    assert!(start(&config, true, &evidence(true, None, 0, &used)).is_none());
    assert!(start(&config, true, &evidence(false, Some(1), 2, &used)).is_none());
    assert!(start(&config, true, &evidence(false, None, 0, &used[..4])).is_none());
    let unknown = GateEvidence {
        locked: None,
        times: None,
        sessions: None,
    };
    assert!(start(&config, true, &unknown).is_none());
}

#[test]
fn forced_dream_starts_unless_the_lock_is_held() {
    let config = DreamerConfig::new("/m".to_string());
    let forced = config.clone().with_force(true);
    let unlocked = GateEvidence {
        locked: Some(false),
        times: None,
        sessions: None,
    };
    for enabled in [false, true] {
        assert_eq!(
            auto_dream_step(&forced, enabled, &unlocked),
            GateStep::Decided(DreamGate::Ready)
        );
        assert_eq!(
            auto_dream_step(&forced, enabled, &evidence(true, None, 0, &[])),
            GateStep::Decided(DreamGate::Locked)
        );
        assert!(
            maybe_run_auto_dream(forced.clone(), PathStyle::Unix, enabled, &unlocked).is_some()
        );
    }
    assert_eq!(
        auto_dream_step(&config, false, &unlocked),
        GateStep::Decided(DreamGate::Disabled)
    );
    assert_eq!(
        auto_dream_step(&config, true, &unlocked),
        GateStep::LookAtTimes
    );
}

#[test]
fn marker_holds_the_seconds() {
    let write = touch_last_dream_marker(&Timestamp {
        secs: 1_777_420_800,
        nanos: 5,
    });
    assert_eq!(write.path, ".last-dream");
    assert_eq!(write.contents, "1777420800\n");
    assert_eq!(touch_last_dream_marker(&at(-5)).contents, "0\n");
}

#[test]
fn hidden_names_hold_the_nanoseconds() {
    let now = Timestamp {
        secs: 12,
        nanos: 34,
    };
    assert_eq!(
        temp_file_name(Some("MEMORY.md"), &now),
        ".MEMORY.md.tmp-12000000034"
    );
    assert_eq!(temp_file_name(None, &now), ".memory.tmp-12000000034");
}

#[test]
fn new_text_is_written_before_the_old_is_gone() {
    let now = Timestamp {
        secs: 12,
        nanos: 34,
    };
    let hidden = ".MEMORY.md.tmp-12000000034".to_string();
    let steps = atomic_write(Some("MEMORY.md"), "new", &now);
    assert_eq!(
        steps,
        [
            FileStep::CreateDirectory,
            FileStep::WriteThrough {
                name: hidden.clone(),
                contents: "new".to_string(),
            },
            FileStep::RemoveIfThere,
            FileStep::Rename { from: hidden },
        ]
    );

    let mut files = vec![
        ("MEMORY.md".to_string(), "old".to_string()),
        ("a.md".to_string(), "a".to_string()),
    ];
    for step in steps {
        match step {
            FileStep::CreateDirectory => {}
            FileStep::WriteThrough { name, contents } => files.push((name, contents)),
            FileStep::RemoveIfThere => files.retain(|(other, _)| other != "MEMORY.md"),
            FileStep::Rename { from } => {
                let file = files.iter_mut().find(|(name, _)| *name == from).unwrap();
                file.0 = "MEMORY.md".to_string();
            }
        }
        assert!(files.iter().any(|(_, text)| text == "old" || text == "new"));
    }
    assert_eq!(
        files,
        [
            ("a.md".to_string(), "a".to_string()),
            ("MEMORY.md".to_string(), "new".to_string()),
        ]
    );
}

#[test]
fn file_without_a_name_is_written_under_another() {
    assert_eq!(
        atomic_write(None, "", &at(1))[1],
        FileStep::WriteThrough {
            name: ".memory.tmp-1000000000".to_string(),
            contents: String::new(),
        }
    );
}

#[test]
fn logs_within_the_budget_are_taken_whole() {
    let files = [("a.md", "aaaa", 3), ("b.md", "bb", 2), ("c.md", " \n", 1)];
    assert_eq!(collect(&files, 6), [log("a.md", "aaaa"), log("b.md", "bb")]);
    assert_eq!(collect(&files, 5), [log("a.md", "aaaa"), log("b.md", "b")]);
    assert_eq!(collect(&files, 0), []);
}

#[test]
fn dream_is_over_after_its_last_event() {
    let mut pass = DreamPass::start(DreamerConfig::new("/m".to_string()), PathStyle::Unix);
    pass = pass.next(PassEvent::Failed("read-only".to_string()));
    assert!(matches!(pass.action(), PassAction::Finish(Err(_))));
    pass = pass.next(PassEvent::Done);
    assert_eq!(
        pass.into_outcome().unwrap().unwrap_err(),
        DreamerError::Io("read-only".to_string())
    );
}

fn config(enabled: bool, directory: Option<&str>) -> MemoryConfig {
    MemoryConfig {
        auto_memory_enabled: enabled,
        auto_dream_enabled: enabled,
        auto_memory_directory: directory.map(str::to_string),
    }
}

fn below<'a>(workspace: &'a String, paths: &[&str]) -> MemoryPlace<'a, String> {
    MemoryPlace::BelowWorkspace {
        workspace,
        paths: paths.iter().map(|path| path.to_string()).collect(),
    }
}

#[test]
fn memory_directory_is_resolved_from_the_workspace() {
    let w = "/w".to_string();
    let resolve =
        |directory: Option<&str>, style| resolve_memory_dir(&w, &config(true, directory), style);
    for style in [PathStyle::Unix, PathStyle::Windows] {
        assert_eq!(resolve(None, style), below(&w, &[".claw", "memory"]));
        assert_eq!(resolve(Some("notes"), style), below(&w, &["notes"]));
        assert_eq!(resolve(Some(""), style), below(&w, &[""]));
    }
    assert_eq!(
        resolve(Some("/notes"), PathStyle::Unix),
        MemoryPlace::Configured("/notes".to_string())
    );
    assert_eq!(
        resolve(Some("D:\\notes"), PathStyle::Unix),
        below(&w, &["D:\\notes"])
    );
    assert_eq!(
        resolve(Some("D:\\notes"), PathStyle::Windows),
        MemoryPlace::Configured("D:\\notes".to_string())
    );
    for path in ["/notes", "\\notes", "D:notes"] {
        assert_eq!(resolve(Some(path), PathStyle::Windows), below(&w, &[path]));
    }
}

#[test]
fn manager_works_in_the_memory_directory() {
    let w = "/w".to_string();
    let place = below(&w, &[".claw", "memory"]);
    let manager = MemoryManager::new(w.clone(), config(true, None), PathStyle::Unix);
    assert_eq!(manager.memory_dir(), place);
    assert_eq!(manager.dream_config().memory_dir, place);
    assert_eq!(manager.dream_config().max_input_bytes, MAX_LOG_INPUT_BYTES);
    assert!(!manager.dream_config().force);
    assert!(manager.config().auto_memory_enabled);
    let planned = manager.append_daily_log("x", &at(0)).unwrap();
    assert_eq!(planned.memory_dir, place);
    assert_eq!(planned.directories, ["logs", "1970", "01"]);
    assert_eq!(planned.file, "1970-01-01.md");
    assert_eq!(manager.prompt_source().unwrap(), place);
    assert!(manager
        .load_memory_prompt("/w/.claw/memory/MEMORY.md", Some("x"))
        .unwrap()
        .contains("Loaded from /w/.claw/memory/MEMORY.md."));
    let pass = manager.run_dream(true);
    assert!(pass.config.force);
    assert_eq!(pass.config.memory_dir, place);
    assert_eq!(pass.style, PathStyle::Unix);
    let elsewhere = manager.run_dream(true).config.with_memory_dir(7);
    assert_eq!(elsewhere.memory_dir, 7);
    assert_eq!(elsewhere.max_input_bytes, MAX_LOG_INPUT_BYTES);
    assert!(elsewhere.force);
    assert_eq!(
        manager.auto_dream_gate(&evidence(true, None, 0, &[])),
        GateStep::Decided(DreamGate::Locked)
    );
}

#[test]
fn memory_that_is_switched_off_is_not_loaded() {
    let manager = MemoryManager::new("/w".to_string(), config(false, None), PathStyle::Unix);
    assert_eq!(manager.prompt_source(), None);
    assert_eq!(
        manager.load_memory_prompt("/w/.claw/memory/MEMORY.md", Some("x")),
        None
    );
    assert_eq!(
        manager.auto_dream_gate(&evidence(false, None, 0, &[])),
        GateStep::Decided(DreamGate::Disabled)
    );
}
