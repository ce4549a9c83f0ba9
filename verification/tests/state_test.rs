use tai::backend::CmdOutput;
use tai::state::{OutputMap, State};
use tai::types::{BlockMode, ParsedBlock};

#[test]
fn test_build_default_values() {
    let state = State::build(
        "system".to_string(),
        "instructions".to_string(),
        Vec::new(),
        OutputMap::new(),
        0,
    );
    assert_eq!(state.system, "system");
    assert_eq!(state.instructions, "instructions");
    assert!(state.segments.is_empty());
    assert!(state.outputs.is_empty());
    assert_eq!(state.tick_n, 0);
    assert!(state.task.is_empty());
    assert!(!state.is_completed);
}

#[test]
fn test_build_with_values() {
    let segments = vec![ParsedBlock {
        window: "build".to_string(),
        mode: BlockMode::Watch,
        content: "cargo build".to_string(),
        prose: None,
        dashboard: false,
    }];
    let mut outputs = OutputMap::new();
    outputs.insert(
        "build".to_string(),
        CmdOutput {
            exit_code: 0,
            stdout: "ok".to_string(),
        },
    );
    let state = State::build(
        "sys".to_string(),
        "instr".to_string(),
        segments.clone(),
        outputs.clone(),
        5,
    );
    assert_eq!(state.segments, segments);
    assert_eq!(state.outputs, outputs);
    assert_eq!(state.tick_n, 5);
    assert!(state.task.is_empty());
    assert!(!state.is_completed);
}

#[test]
fn test_is_complete_false() {
    let state = State::default();
    assert!(!state.is_complete());
}

#[test]
fn test_is_complete_true() {
    let mut state = State::default();
    state.is_completed = true;
    assert!(state.is_complete());
}

#[test]
fn test_default() {
    let state = State::default();
    assert!(state.system.is_empty());
    assert!(state.instructions.is_empty());
    assert!(state.segments.is_empty());
    assert!(state.outputs.is_empty());
    assert_eq!(state.tick_n, 0);
    assert!(state.task.is_empty());
    assert!(!state.is_completed);
}

#[test]
fn output_map_reads_back_what_was_written() {
    let mut m = OutputMap::new();
    m.insert("a".into(), CmdOutput { exit_code: 1, stdout: "x".into() });
    m.insert("b".into(), CmdOutput { exit_code: 0, stdout: "y".into() });
    m.insert("a".into(), CmdOutput { exit_code: 2, stdout: "z".into() });
    assert_eq!(m.len(), 2);
    assert_eq!(m.get("a").unwrap().exit_code, 2);
    assert_eq!(m.key_at(0), "a");
    m.remove("a");
    assert!(!m.contains_key("a"));
    assert_eq!(m.get("b").unwrap().stdout, "y");
}
