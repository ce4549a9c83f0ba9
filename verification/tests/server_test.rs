use tai::agent::AgentResponse;
use tai::backend::CmdOutput;
use tai::response::edit_command::EditCommand;
use tai::server::{
    apply_commands, delegate_command, move_to_end, path_join, shell_escape, stop_after_tick, sync_plan,
    upsert_segment, write_script, Op, TickConfig, TickRun,
};
use tai::state::{OutputMap, State};
use tai::types::{BlockMode, ParsedBlock};

fn cfg(no_delegate: bool) -> TickConfig {
    TickConfig {
        no_delegate,
        max_ticks: Some(4),
        exe: "/bin/tai".into(),
        session_path: "/tmp/s".into(),
    }
}

fn out(code: i32, text: &str) -> CmdOutput {
    CmdOutput {
        exit_code: code,
        stdout: text.to_string(),
    }
}

/// Runs a tick against a fake machine whose files live in `files`.
fn drive(
    state: &mut State,
    resp: &AgentResponse,
    c: TickConfig,
    files: &mut Vec<(String, String)>,
) -> (bool, Vec<String>) {
    let mut run = TickRun::begin(state, resp, c);
    let mut log = Vec::new();
    loop {
        match run.step(state) {
            Op::Continue => {}
            Op::Done(b) => return (b, log),
            Op::Ask { window, question } => {
                log.push(format!("ask {window}: {question}"));
                run.deliver_answer(state, "yes  \n");
            }
            Op::Run { window, command } => {
                log.push(format!("run {window}: {command}"));
                if let Some(rest) = command.strip_prefix(&format!("cat > {window} << 'TAIWRITE'\n")) {
                    let body = rest.strip_suffix("\nTAIWRITE").unwrap().to_string() + "\n";
                    files.retain(|(n, _)| n != &window);
                    files.push((window.clone(), body));
                }
                run.deliver(state, out(0, &format!("ran {command}")));
            }
            Op::ReadFile { window } => {
                log.push(format!("read {window}"));
                let text = files
                    .iter()
                    .find(|(n, _)| n == &window)
                    .map(|(_, t)| t.clone())
                    .unwrap_or_default();
                run.deliver(state, out(0, &text));
            }
        }
    }
}

#[test]
fn exec_and_watch_are_run_and_recorded() {
    let mut state = State::default();
    let resp = AgentResponse::block("build", BlockMode::Exec, "make")
        .and(AgentResponse::block("log", BlockMode::Watch, "tail log"))
        .with_task("go");
    let mut files = Vec::new();
    let (done, log) = drive(&mut state, &resp, cfg(false), &mut files);
    assert!(!done);
    assert_eq!(state.tick_n, 1);
    assert_eq!(state.task, "go");
    assert_eq!(log, vec!["run build: make", "run log: tail log"]);
    assert_eq!(state.outputs.get("build").unwrap().stdout, "ran make");
    assert_eq!(state.outputs.get("log").unwrap().stdout, "ran tail log");
    assert_eq!(state.segments.len(), 2);
}

#[test]
fn close_removes_window_and_output() {
    let mut state = State::default();
    let mut files = Vec::new();
    let first = AgentResponse::block("w", BlockMode::Watch, "ls");
    drive(&mut state, &first, cfg(false), &mut files);
    assert!(state.outputs.contains_key("w"));
    let second = AgentResponse::block("w", BlockMode::Close, "");
    drive(&mut state, &second, cfg(false), &mut files);
    assert!(!state.outputs.contains_key("w"));
    assert!(state.segments.is_empty());
}

#[test]
fn completed_state_is_left_alone() {
    let mut state = State::default();
    state.is_completed = true;
    let mut files = Vec::new();
    let resp = AgentResponse::block("w", BlockMode::Exec, "ls").with_task("t");
    let (done, log) = drive(&mut state, &resp, cfg(false), &mut files);
    assert!(done);
    assert!(log.is_empty());
    assert_eq!(state.tick_n, 0);
    assert!(state.task.is_empty());
}

#[test]
fn complete_response_finishes_the_task() {
    let mut state = State::default();
    let mut files = Vec::new();
    let mut resp = AgentResponse::new().with_task("done");
    resp.complete = true;
    let (done, _) = drive(&mut state, &resp, cfg(false), &mut files);
    assert!(done);
    assert!(state.is_complete());
}

#[test]
fn write_then_edit_changes_the_file() {
    let mut state = State::default();
    let mut files = Vec::new();
    let write = AgentResponse::block("f.txt", BlockMode::Write, "line one\nline two\nline three");
    drive(&mut state, &write, cfg(false), &mut files);
    assert_eq!(state.outputs.get("f.txt").unwrap().stdout, "line one\nline two\nline three\n");
    let edit = AgentResponse::block(
        "f.txt",
        BlockMode::Edit(None),
        "Change Exactly L2:line two\n<<'TAI'\nREPLACED\nTAI",
    );
    drive(&mut state, &edit, cfg(false), &mut files);
    let view = &state.outputs.get("f.txt").unwrap().stdout;
    assert!(view.contains("REPLACED"));
    assert!(!view.contains("line two"));
}

#[test]
fn edit_with_unknown_text_reports_error() {
    let mut state = State::default();
    let mut files = Vec::new();
    let write = AgentResponse::block("f.txt", BlockMode::Write, "line one\nline two");
    drive(&mut state, &write, cfg(false), &mut files);
    let edit = AgentResponse::block(
        "f.txt",
        BlockMode::Edit(None),
        "Change Exactly L2:wrong line\n<<'TAI'\nREPLACED\nTAI",
    );
    drive(&mut state, &edit, cfg(false), &mut files);
    let view = &state.outputs.get("f.txt").unwrap().stdout;
    assert!(view.starts_with("edit error:"));
    assert!(!view.contains("REPLACED"));
}

#[test]
fn ask_records_the_answer() {
    let mut state = State::default();
    let mut files = Vec::new();
    let resp = AgentResponse::block("q", BlockMode::Ask, "proceed?");
    let (_, log) = drive(&mut state, &resp, cfg(false), &mut files);
    assert_eq!(log, vec!["ask q: proceed?"]);
    assert_eq!(state.outputs.get("q").unwrap().stdout, "yes");
    assert_eq!(state.outputs.get("q").unwrap().exit_code, 0);
}

#[test]
fn delegate_runs_once_then_caches() {
    let mut state = State::default();
    let mut files = Vec::new();
    let resp = AgentResponse::block("sub", BlockMode::Delegate, "do x");
    let (_, log) = drive(&mut state, &resp, cfg(false), &mut files);
    assert_eq!(log.len(), 1);
    assert!(log[0].starts_with("run sub: '/bin/tai' --session '/tmp/s/delegates/sub' --max-ticks 4 --no-delegate <<'TAIEOF'\ndo x\nTAIEOF"));
    let (_, log) = drive(&mut state, &resp, cfg(false), &mut files);
    assert!(log.is_empty());
}

#[test]
fn delegate_disabled_is_recorded() {
    let mut state = State::default();
    let mut files = Vec::new();
    let resp = AgentResponse::block("sub", BlockMode::Delegate, "do x");
    let (_, log) = drive(&mut state, &resp, cfg(true), &mut files);
    assert!(log.is_empty());
    assert_eq!(state.outputs.get("sub").unwrap().stdout, "delegate disabled");
    assert_eq!(state.outputs.get("sub").unwrap().exit_code, 1);
}

#[test]
fn helpers_behave() {
    assert_eq!(shell_escape("it's"), "'it'\"'\"'s'");
    assert_eq!(write_script("a.txt", "x"), "cat > a.txt << 'TAIWRITE'\nx\nTAIWRITE");
    let c = cfg(false);
    assert_eq!(
        delegate_command(&c, "w", "t"),
        "'/bin/tai' --session '/tmp/s/delegates/w' --max-ticks 4 --no-delegate <<'TAIEOF'\nt\nTAIEOF"
    );
    assert!(stop_after_tick(4, Some(4), false));
    assert!(!stop_after_tick(3, Some(4), false));
    assert!(stop_after_tick(0, None, true));
    assert!(!stop_after_tick(9, None, false));
}

#[test]
fn commands_apply_in_order() {
    let cmds = vec![
        EditCommand { search: "a".into(), replace: "b".into() },
        EditCommand { search: "bb".into(), replace: "c".into() },
    ];
    assert_eq!(apply_commands("xab", &cmds).unwrap(), "xc");
    assert!(apply_commands("xyz", &cmds).is_err());
}

#[test]
fn upsert_and_move() {
    let b = |w: &str, c: &str| ParsedBlock {
        window: w.into(),
        mode: BlockMode::Watch,
        content: c.into(),
        prose: None,
        dashboard: false,
    };
    let mut segs = vec![b("a", "1"), b("b", "2")];
    upsert_segment(&mut segs, b("a", "3"));
    assert_eq!(segs[0].content, "3");
    upsert_segment(&mut segs, b("c", "4"));
    assert_eq!(segs.len(), 3);
    move_to_end(&mut segs, "a");
    let order: Vec<&str> = segs.iter().map(|s| s.window.as_str()).collect();
    assert_eq!(order, vec!["b", "c", "a"]);
}

#[test]
fn sync_plan_lists_changes() {
    let mut old = OutputMap::new();
    old.insert("a".into(), out(0, "x"));
    old.insert("b".into(), out(0, "y"));
    let mut new = OutputMap::new();
    new.insert("b".into(), out(0, "y"));
    new.insert("c".into(), out(1, "z"));
    let (removed, written) = sync_plan(&old, &new);
    assert_eq!(removed, vec!["a".to_string()]);
    assert_eq!(written.len(), 1);
    assert_eq!(written[0].0, "c");
}

#[test]
fn tick_ends_whatever_comes_back() {
    let mut state = State::default();
    let edit = "Change Start L1:a\nEnd L1:a\n<<'TAIDELIM'\nb\nTAIDELIM";
    let resp = AgentResponse::block("notes.txt", BlockMode::Write, "a")
        .and(AgentResponse::block("notes.txt", BlockMode::Edit(None), edit))
        .and(AgentResponse::block("build", BlockMode::Exec, "make"))
        .and(AgentResponse::block("log", BlockMode::Watch, "tail log"))
        .and(AgentResponse::block("q", BlockMode::Ask, "ok?"))
        .and(AgentResponse::block("notes.txt", BlockMode::File, ""))
        .and(AgentResponse::block("sub", BlockMode::Delegate, "help"));
    let mut run = TickRun::begin(&mut state, &resp, cfg(false));
    let mut turns = 0;
    let done = loop {
        turns += 1;
        assert!(turns < 100);
        match run.step(&mut state) {
            Op::Continue => {}
            Op::Done(b) => break b,
            Op::Ask { .. } => run.deliver_answer(&mut state, ""),
            Op::Run { .. } | Op::ReadFile { .. } => run.deliver(&mut state, out(1, "")),
        }
    };
    assert!(!done);
    assert!(run.is_finished());
}

#[test]
fn paths_join_as_path_join_does() {
    assert_eq!(path_join("/tmp/s", "delegates"), "/tmp/s/delegates");
    assert_eq!(path_join("/tmp/s/", "delegates"), "/tmp/s/delegates");
    assert_eq!(path_join("/tmp/s", "/abs/x"), "/abs/x");
    assert_eq!(path_join("", "x"), "x");
    let c = TickConfig {
        no_delegate: false,
        max_ticks: None,
        exe: "tai".into(),
        session_path: "/tmp/s/".into(),
    };
    assert!(delegate_command(&c, "sub", "go").contains("/tmp/s/delegates/sub"));
    assert!(!delegate_command(&c, "sub", "go").contains("//"));
}
