use tai::types::{BlockMode, ParsedBlock};

#[test]
fn test_from_str_watch() {
    assert_eq!("watch".parse::<BlockMode>(), Ok(BlockMode::Watch));
}

#[test]
fn test_from_str_view_alias() {
    assert_eq!("view".parse::<BlockMode>(), Ok(BlockMode::Watch));
}

#[test]
fn test_from_str_close() {
    assert_eq!("close".parse::<BlockMode>(), Ok(BlockMode::Close));
}

#[test]
fn test_from_str_exec() {
    assert_eq!("exec".parse::<BlockMode>(), Ok(BlockMode::Exec));
}

#[test]
fn test_from_str_ask() {
    assert_eq!("ask".parse::<BlockMode>(), Ok(BlockMode::Ask));
}

#[test]
fn test_from_str_file() {
    assert_eq!("file".parse::<BlockMode>(), Ok(BlockMode::File));
}

#[test]
fn test_from_str_edit() {
    let mode = "edit".parse::<BlockMode>().unwrap();
    assert!(matches!(mode, BlockMode::Edit(None)));
}

#[test]
fn test_from_str_write() {
    assert_eq!("write".parse::<BlockMode>(), Ok(BlockMode::Write));
}

#[test]
fn test_from_str_task() {
    assert_eq!("task".parse::<BlockMode>(), Ok(BlockMode::Task));
}

#[test]
fn test_from_str_delegate() {
    assert_eq!("delegate".parse::<BlockMode>(), Ok(BlockMode::Delegate));
}

#[test]
fn test_from_str_unknown() {
    assert!("unknown".parse::<BlockMode>().is_err());
}

#[test]
fn test_from_str_empty() {
    assert!("".parse::<BlockMode>().is_err());
}

#[test]
fn test_display() {
    assert_eq!(BlockMode::Watch.to_string(), "watch");
    assert_eq!(BlockMode::Close.to_string(), "close");
    assert_eq!(BlockMode::Exec.to_string(), "exec");
    assert_eq!(BlockMode::Ask.to_string(), "ask");
    assert_eq!(BlockMode::File.to_string(), "file");
    assert_eq!(BlockMode::Edit(None).to_string(), "edit");
    assert_eq!(BlockMode::Write.to_string(), "write");
    assert_eq!(BlockMode::Task.to_string(), "task");
    assert_eq!(BlockMode::Delegate.to_string(), "delegate");
}

#[test]
fn test_requires_heredoc() {
    assert!(BlockMode::Write.requires_heredoc());
    assert!(BlockMode::Edit(None).requires_heredoc());
    assert!(!BlockMode::Watch.requires_heredoc());
    assert!(!BlockMode::Exec.requires_heredoc());
    assert!(!BlockMode::Ask.requires_heredoc());
    assert!(!BlockMode::File.requires_heredoc());
    assert!(!BlockMode::Close.requires_heredoc());
    assert!(!BlockMode::Task.requires_heredoc());
    assert!(!BlockMode::Delegate.requires_heredoc());
}

#[test]
fn test_is_terminal() {
    assert!(BlockMode::Close.is_terminal());
    assert!(BlockMode::Task.is_terminal());
    assert!(BlockMode::Delegate.is_terminal());
    assert!(!BlockMode::Watch.is_terminal());
    assert!(!BlockMode::Exec.is_terminal());
    assert!(!BlockMode::Ask.is_terminal());
    assert!(!BlockMode::File.is_terminal());
    assert!(!BlockMode::Write.is_terminal());
    assert!(!BlockMode::Edit(None).is_terminal());
}

#[test]
fn test_parsed_block_fields() {
    let block = ParsedBlock {
        window: "test".to_string(),
        mode: BlockMode::Exec,
        content: "cargo test".to_string(),
        prose: Some("running tests".to_string()),
        dashboard: true,
    };
    assert_eq!(block.window, "test");
    assert_eq!(block.mode, BlockMode::Exec);
    assert_eq!(block.content, "cargo test");
    assert_eq!(block.prose.as_deref(), Some("running tests"));
    assert!(block.dashboard);
}

#[test]
fn unknown_mode_message_quotes_the_name() {
    assert_eq!(
        "bogus".parse::<BlockMode>(),
        Err("unknown block mode: bogus".to_string())
    );
}

#[test]
fn mode_names_read_back() {
    let modes = [
        BlockMode::Watch,
        BlockMode::Close,
        BlockMode::Exec,
        BlockMode::Ask,
        BlockMode::File,
        BlockMode::Write,
        BlockMode::Task,
        BlockMode::Delegate,
    ];
    for m in modes {
        assert_eq!(m.to_string().parse::<BlockMode>(), Ok(m));
    }
    assert_eq!("edit".parse::<BlockMode>(), Ok(BlockMode::Edit(None)));
}
