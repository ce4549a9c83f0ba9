use tai::agent::llm::{
    build_task_messages, build_user_window_message, check_edit_violations, estimate_tokens,
    merge_retry, render_window_summary, retry_complaint, state_to_messages, LlmAction, LlmTurn,
    Message,
};
use tai::agent::{AgentError, AgentResponse};
use tai::backend::CmdOutput;
use tai::response::edit_command;
use tai::state::{OutputMap, State};
use tai::types::{BlockMode, ParsedBlock};

fn out(code: i32, text: &str) -> CmdOutput {
    CmdOutput {
        exit_code: code,
        stdout: text.to_string(),
    }
}

#[test]
fn test_check_edit_violations_no_edit_blocks() {
    let segments = vec![ParsedBlock {
        window: "build".into(),
        mode: BlockMode::Watch,
        content: "echo ok".into(),
        prose: None,
        dashboard: false,
    }];
    let outputs = OutputMap::new();
    assert!(check_edit_violations(&segments, &outputs).is_empty());
}

#[test]
fn test_check_edit_violations_missing_output() {
    let segments = vec![ParsedBlock {
        window: "main.rs".into(),
        mode: BlockMode::Edit(None),
        content: "Change\nL1:foo\nbar\n.".into(),
        prose: None,
        dashboard: false,
    }];
    let outputs = OutputMap::new();
    let violations = check_edit_violations(&segments, &outputs);
    assert_eq!(violations.len(), 1);
    assert!(violations[0].contains("edit command not parsed"));
}

#[test]
fn test_check_edit_violations_ok() {
    let cmd = edit_command::parse_edit_command(
        "Exactly L2:line two\n<<'TAIDELIM'\nREPLACED\nTAIDELIM",
    )
    .unwrap();
    let segments = vec![ParsedBlock {
        window: "main.rs".into(),
        mode: BlockMode::Edit(Some(cmd)),
        content: String::new(),
        prose: None,
        dashboard: false,
    }];
    let mut outputs = OutputMap::new();
    outputs.insert("main.rs".into(), out(0, "L1:line one\nL2:line two\nL3:line three\n"));
    assert!(check_edit_violations(&segments, &outputs).is_empty());
}

#[test]
fn test_check_edit_violations_text_mismatch() {
    let cmd = edit_command::parse_edit_command(
        "Exactly L2:wrong line\n<<'TAIDELIM'\nREPLACED\nTAIDELIM",
    )
    .unwrap();
    let segments = vec![ParsedBlock {
        window: "main.rs".into(),
        mode: BlockMode::Edit(Some(cmd)),
        content: String::new(),
        prose: None,
        dashboard: false,
    }];
    let mut outputs = OutputMap::new();
    outputs.insert("main.rs".into(), out(0, "L1:line one\nL2:line two\nL3:line three\n"));
    let violations = check_edit_violations(&segments, &outputs);
    assert_eq!(violations.len(), 1);
    assert!(violations[0].contains("wrong line"));
}

#[test]
fn edit_without_view_is_flagged() {
    let cmd = edit_command::parse_edit_command("<<'A'\nx\nA\n<<'B'\ny\nB").unwrap();
    let segments = vec![ParsedBlock {
        window: "a.rs".into(),
        mode: BlockMode::Edit(Some(cmd)),
        content: String::new(),
        prose: None,
        dashboard: false,
    }];
    let v = check_edit_violations(&segments, &OutputMap::new());
    assert_eq!(
        v,
        vec!["edit:a.rs — no file output available. View the file first with a file block."
            .to_string()]
    );
}

#[test]
fn estimate_rounds_bytes_up() {
    assert_eq!(estimate_tokens(""), 0);
    assert_eq!(estimate_tokens("abcd"), 1);
    assert_eq!(estimate_tokens("abcde"), 2);
    assert_eq!(estimate_tokens("é"), 1);
}

fn sample_state() -> State {
    let mut outputs = OutputMap::new();
    outputs.insert("build".into(), out(0, "ok"));
    let mut s = State::build(
        "sys".into(),
        "do it".into(),
        vec![
            ParsedBlock {
                window: "build".into(),
                mode: BlockMode::Watch,
                content: "cargo build".into(),
                prose: None,
                dashboard: false,
            },
            ParsedBlock {
                window: "tree".into(),
                mode: BlockMode::Watch,
                content: "tree".into(),
                prose: None,
                dashboard: true,
            },
        ],
        outputs,
        3,
    );
    s.task = "goal".into();
    s
}

#[test]
fn window_summary_counts_tokens() {
    let s = sample_state();
    assert_eq!(
        render_window_summary(&s),
        "== Windows ==\nbuild: ~1 tok (active)\n\n== Context: ~5 tokens | Tick #3 =="
    );
}

#[test]
fn window_message_shows_output_or_unknown() {
    let s = sample_state();
    let m = build_user_window_message(&s.segments[0], &s);
    assert_eq!(m, Message::User("## [build]\nok\nexit 0\n\n".into()));
    let m = build_user_window_message(&s.segments[1], &s);
    assert_eq!(m, Message::User("## [tree]\nUNKNOWN OUTPUT\n\n".into()));
}

#[test]
fn tick_messages_put_dashboard_last() {
    let s = sample_state();
    let ms = state_to_messages(&s);
    assert_eq!(ms.len(), 6);
    assert_eq!(ms[0], Message::System("sys".into()));
    assert_eq!(ms[1], Message::Assistant("```watch:build\ncargo build\n```\n".into()));
    assert_eq!(ms[3], Message::Assistant("```watch.dashboard:tree\ntree\n```\n".into()));
    match &ms[5] {
        Message::User(t) => {
            assert!(t.starts_with("## Task\ngoal\n\n== Windows =="));
            assert!(t.ends_with("\n\ndo it"));
        }
        other => panic!("unexpected {other:?}"),
    }
}

#[test]
fn task_messages_list_known_results() {
    let s = sample_state();
    let resp = AgentResponse::new().with_reasoning("because");
    let ms = build_task_messages(&s, &resp);
    assert_eq!(ms.len(), 3);
    match &ms[1] {
        Message::User(t) => assert_eq!(
            t,
            "## Known results from previous ticks\n- build: exit 0 (OK, 2 chars) — ok\n\n## Previous task (for context only)\ngoal\n\n## Agent reasoning this tick\nbecause\n\n"
        ),
        other => panic!("unexpected {other:?}"),
    }
}

#[test]
fn complaint_lists_violations() {
    let mut resp = AgentResponse::new();
    assert!(retry_complaint(&resp, &vec![]).is_none());
    resp.heredoc_violations = vec!["write:a — x".into()];
    let c = retry_complaint(&resp, &vec!["edit:b — y".into()]).unwrap();
    assert!(c.contains("Violations: write:a — x. "));
    assert!(c.contains("Violations: edit:b — y. "));
    assert!(c.ends_with("You may also include action blocks if needed."));
}

#[test]
fn merge_replaces_blocks_of_answered_windows() {
    let first = AgentResponse::block("a", BlockMode::Exec, "one")
        .and(AgentResponse::block("b", BlockMode::Exec, "two"))
        .with_task("t1");
    let mut again = AgentResponse::block("a", BlockMode::Exec, "uno")
        .and(AgentResponse::block("c", BlockMode::Write, "x"));
    again.heredoc_violations = vec!["write:c — content must use heredoc".into()];
    let m = merge_retry(first, again);
    let windows: Vec<&str> = m.segments.iter().map(|b| b.window.as_str()).collect();
    assert_eq!(windows, vec!["b", "a"]);
    assert_eq!(m.segments[1].content, "uno");
    assert_eq!(m.task, "t1");
    assert_eq!(m.heredoc_violations.len(), 1);
}

#[test]
fn turn_retries_then_refuses() {
    let s = sample_state();
    let (mut turn, first) = LlmTurn::start(&s);
    assert!(matches!(first, LlmAction::Call(_)));
    let bad = "```write:f\nno heredoc\n```";
    let mut action = turn.on_reply(&s, bad, "");
    for _ in 0..3 {
        assert!(matches!(action, LlmAction::Call(_)));
        action = turn.on_reply(&s, bad, "");
    }
    match action {
        LlmAction::Finish(Err(AgentError::InvalidResponse(v))) => assert_eq!(v.len(), 1),
        _ => panic!("expected a refusal"),
    }
    assert!(turn.is_done());
}

#[test]
fn turn_asks_for_task_note_then_answers() {
    let s = sample_state();
    let (mut turn, _) = LlmTurn::start(&s);
    let action = turn.on_reply(&s, "```watch:x\nls\n```", "why");
    assert!(matches!(action, LlmAction::Call(_)));
    match turn.on_reply(&s, "  next: build  ", "") {
        LlmAction::Finish(Ok(r)) => {
            assert_eq!(r.task, "next: build");
            assert_eq!(r.reasoning, "why");
            assert_eq!(r.segments.len(), 1);
        }
        _ => panic!("expected an answer"),
    }
}

#[test]
fn turn_completed_answer_skips_task_note() {
    let s = sample_state();
    let (mut turn, _) = LlmTurn::start(&s);
    match turn.on_reply(&s, "```task:complete\nall done\n```", "") {
        LlmAction::Finish(Ok(r)) => {
            assert!(r.complete);
            assert_eq!(r.task, "all done");
        }
        _ => panic!("expected an answer"),
    }
}
