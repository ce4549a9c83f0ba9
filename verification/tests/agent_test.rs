use tai::agent::{AgentError, AgentResponse, MockAgent, NopAgent};
use tai::types::BlockMode;

#[test]
fn test_agent_response_new() {
    let resp = AgentResponse::new();
    assert!(resp.reasoning.is_empty());
    assert!(resp.segments.is_empty());
    assert!(resp.task.is_empty());
    assert!(!resp.complete);
    assert!(resp.heredoc_violations.is_empty());
    assert!(resp.edit_parse_errors.is_empty());
}

#[test]
fn test_agent_response_block_watch() {
    let resp = AgentResponse::block("build", BlockMode::Watch, "cargo build");
    assert!(resp.reasoning.is_empty());
    assert_eq!(resp.segments.len(), 1);
    assert_eq!(resp.segments[0].window, "build");
    assert_eq!(resp.segments[0].mode, BlockMode::Watch);
    assert_eq!(resp.segments[0].content, "cargo build");
    assert!(resp.task.is_empty());
    assert!(!resp.complete);
}

#[test]
fn test_agent_response_block_edit_parses_commands() {
    let resp = AgentResponse::block(
        "src/main.rs",
        BlockMode::Edit(None),
        "Exactly L1:old text\n<<'TAIDELIM'\nnew text\nTAIDELIM",
    );
    assert_eq!(resp.segments.len(), 1);
    if let BlockMode::Edit(ref cmd_opt) = resp.segments[0].mode {
        assert!(cmd_opt.is_some(), "edit command should be parsed from content");
    } else {
        panic!("expected Edit mode");
    }
}

#[test]
fn test_agent_response_block_non_edit() {
    let resp = AgentResponse::block("test", BlockMode::Exec, "cargo test");
    assert_eq!(resp.segments[0].mode, BlockMode::Exec);
    assert_eq!(resp.segments[0].content, "cargo test");
}

#[test]
fn test_agent_response_and() {
    let a = AgentResponse::block("build", BlockMode::Watch, "cargo build");
    let b = AgentResponse::block("test", BlockMode::Exec, "cargo test");
    let combined = a.and(b);
    assert_eq!(combined.segments.len(), 2);
    assert_eq!(combined.segments[0].window, "build");
    assert_eq!(combined.segments[1].window, "test");
}

#[test]
fn test_agent_response_with_reasoning() {
    let resp = AgentResponse::new().with_reasoning("I need to fix this");
    assert_eq!(resp.reasoning, "I need to fix this");
}

#[test]
fn test_agent_response_with_task() {
    let resp = AgentResponse::new().with_task("Refactor the module");
    assert_eq!(resp.task, "Refactor the module");
}

#[test]
fn test_agent_response_chained_builders() {
    let resp = AgentResponse::block("build", BlockMode::Watch, "cargo build")
        .with_reasoning("checking build")
        .with_task("Fix build errors");
    assert_eq!(resp.reasoning, "checking build");
    assert_eq!(resp.task, "Fix build errors");
    assert_eq!(resp.segments.len(), 1);
}

#[test]
fn test_mock_agent_returns_responses_in_order() {
    let a = AgentResponse::block("a", BlockMode::Watch, "cmd a");
    let b = AgentResponse::block("b", BlockMode::Exec, "cmd b");
    let mut agent = MockAgent::new(vec![a.clone(), b.clone()]);
    let r1 = agent.step().unwrap();
    let r2 = agent.step().unwrap();
    assert_eq!(r1.segments[0].window, "a");
    assert_eq!(r2.segments[0].window, "b");
}

#[test]
fn test_mock_agent_exhausted_returns_error() {
    let mut agent = MockAgent::new(vec![]);
    let result = agent.step();
    assert!(result.is_err());
}

#[test]
fn mod_test_mock_agent_single() {
    let resp = AgentResponse::block("x", BlockMode::Watch, "cmd x");
    let mut agent = MockAgent::single(resp.clone());
    let result = agent.step().unwrap();
    assert_eq!(result.segments[0].window, "x");
}

#[test]
fn test_nop_agent() {
    let agent = NopAgent;
    let result = agent.step().unwrap();
    assert!(result.segments.is_empty());
    assert!(result.task.is_empty());
}

#[test]
fn edit_block_with_bad_content_stays_unparsed() {
    let resp = AgentResponse::block("f", BlockMode::Edit(None), "no heredoc");
    assert!(matches!(resp.segments[0].mode, BlockMode::Edit(None)));
}

#[test]
fn and_keeps_the_first_task_and_reasoning() {
    let a = AgentResponse::new().with_task("one").with_reasoning("r1");
    let b = AgentResponse::new().with_task("two").with_reasoning("r2");
    let c = a.and(b);
    assert_eq!(c.task, "one");
    assert_eq!(c.reasoning, "r1");
}

#[test]
fn mock_agent_error_names_the_cause() {
    let mut agent = MockAgent::new(vec![AgentResponse::new()]);
    assert!(agent.step().is_ok());
    match agent.step() {
        Err(AgentError::Api(m)) => assert_eq!(m, "no more responses"),
        other => panic!("unexpected {other:?}"),
    }
}

#[test]
fn agent_error_messages() {
    assert_eq!(AgentError::Api("x".into()).to_string(), "API error: x");
    assert_eq!(AgentError::Timeout.to_string(), "timeout");
    assert_eq!(AgentError::Llm("down".into()).to_string(), "LLM error: down");
    assert_eq!(
        AgentError::InvalidResponse(vec!["a".into(), "b\"c".into()]).to_string(),
        "response validation failed after retries: [\"a\", \"b\\\"c\"]"
    );
}
