use tai::response::{
    extract_heredoc_delimiter, parse_block_header, parse_response, parse_response_segments,
    serialize_blocks, ParsedSegment,
};
use tai::types::{BlockMode, ParsedBlock};

#[test]
fn test_parse_prose_only() {
    let text = "Hello, this is prose.\nNo blocks here.";
    let segments = parse_response_segments(text);
    assert_eq!(segments.len(), 1);
    assert!(matches!(
        &segments[0],
        ParsedSegment::Prose(s) if s.contains("Hello")
    ));
}

#[test]
fn test_parse_single_watch_block() {
    let text = "Before\n```watch:build\ncargo build\n```\nAfter";
    let segments = parse_response_segments(text);
    assert_eq!(segments.len(), 3);
    assert!(matches!(&segments[0], ParsedSegment::Prose(_)));
    assert!(matches!(
        &segments[1],
        ParsedSegment::Block { window, mode, content, .. }
        if window == "build" && *mode == BlockMode::Watch && content == "cargo build"
    ));
    assert!(matches!(&segments[2], ParsedSegment::Prose(_)));
}

#[test]
fn test_parse_close_mode() {
    let text = "```close:build\n```";
    let segments = parse_response_segments(text);
    assert_eq!(segments.len(), 1);
    assert!(matches!(
        &segments[0],
        ParsedSegment::Block { window, mode, content, .. }
        if window == "build" && *mode == BlockMode::Close && content.is_empty()
    ));
}

#[test]
fn test_parse_multiple_blocks() {
    let text = "```watch:1\necho hello\n```\n```watch:2\necho world\n```";
    let segments = parse_response_segments(text);
    assert_eq!(segments.len(), 2);
}

#[test]
fn test_parse_heredoc_inside_block() {
    let text = "```watch:build\ncat > config.yaml << 'EOF'\nserver:\n  port: 8080\n  note: \"``` not a closer\"\nEOF\n```";
    let segments = parse_response_segments(text);
    assert_eq!(segments.len(), 1);
    assert!(matches!(
        &segments[0],
        ParsedSegment::Block { window, content, .. }
        if window == "build" && content.contains("``` not a closer")
    ));
}

#[test]
fn test_parse_unquoted_heredoc() {
    let text = "```watch:build\ncat > file << DELIM\ncontent with ``` inside\nDELIM\n```";
    let segments = parse_response_segments(text);
    assert_eq!(segments.len(), 1);
    assert!(matches!(
        &segments[0],
        ParsedSegment::Block { content, .. }
        if content.contains("content with ``` inside")
    ));
}

#[test]
fn test_parse_no_mode_suffix_skipped() {
    let text = "```build\ncargo test\n```";
    let segments = parse_response_segments(text);
    assert!(
        segments.is_empty(),
        "blocks without mode prefix should be skipped"
    );
}

#[test]
fn test_parse_unclosed_block() {
    let text = "```watch:build\ncargo build";
    let segments = parse_response_segments(text);
    assert_eq!(segments.len(), 1);
    assert!(matches!(
        &segments[0],
        ParsedSegment::Block { window, content, .. }
        if window == "build" && content == "cargo build"
    ));
}

#[test]
fn test_parse_header_prefix_format() {
    assert!(
        parse_block_header("build").is_none(),
        "no mode prefix should return None"
    );

    let h = parse_block_header("close:build").unwrap();
    assert_eq!(h.window, "build");
    assert_eq!(h.mode, BlockMode::Close);
    assert!(!h.dashboard);

    let h = parse_block_header("watch:build").unwrap();
    assert_eq!(h.window, "build");
    assert_eq!(h.mode, BlockMode::Watch);

    let h = parse_block_header("watch.dashboard:tree").unwrap();
    assert_eq!(h.window, "tree");
    assert_eq!(h.mode, BlockMode::Watch);
    assert!(h.dashboard);

    let h = parse_block_header("file.dashboard:mind.md").unwrap();
    assert_eq!(h.window, "mind.md");
    assert_eq!(h.mode, BlockMode::File);
    assert!(h.dashboard);

    let h = parse_block_header("exec:install").unwrap();
    assert_eq!(h.window, "install");
    assert_eq!(h.mode, BlockMode::Exec);

    let h = parse_block_header("file:src/main.rs").unwrap();
    assert_eq!(h.window, "src/main.rs");
    assert_eq!(h.mode, BlockMode::File);

    let h = parse_block_header("edit:src/main.rs").unwrap();
    assert_eq!(h.window, "src/main.rs");
    assert!(matches!(h.mode, BlockMode::Edit(_)));

    let h = parse_block_header("write:src/main.rs").unwrap();
    assert_eq!(h.window, "src/main.rs");
    assert_eq!(h.mode, BlockMode::Write);

    let h = parse_block_header("task").unwrap();
    assert_eq!(h.window, "");
    assert!(matches!(h.mode, BlockMode::Task));
}

#[test]
fn test_extract_heredoc_delimiter() {
    assert_eq!(
        extract_heredoc_delimiter("  <<'EOF'"),
        Some("EOF".to_string())
    );
    assert_eq!(
        extract_heredoc_delimiter("  <<\"MYDELIM\""),
        Some("MYDELIM".to_string())
    );
    assert_eq!(
        extract_heredoc_delimiter("  <<DELIM"),
        Some("DELIM".to_string())
    );
    assert_eq!(extract_heredoc_delimiter("no heredoc here"), None);
}

#[test]
fn test_inline_block_open() {
    let text = "Here we go:```watch:build\ncargo build\n```";
    let segments = parse_response_segments(text);
    assert_eq!(segments.len(), 2);
    assert!(matches!(
        &segments[0],
        ParsedSegment::Prose(s) if s == "Here we go:"
    ));
}

#[test]
fn test_inline_block_close() {
    let text = "```watch:build\necho done```";
    let segments = parse_response_segments(text);
    assert!(!segments.is_empty());
    assert!(matches!(
        &segments[0],
        ParsedSegment::Block { window, content, .. }
        if window == "build" && content.contains("echo done")
    ));
}

#[test]
fn test_consecutive_blocks() {
    let text = "```watch:build\ncargo build\n```\n```watch:test\ncargo test\n```";
    let segments = parse_response_segments(text);
    assert_eq!(segments.len(), 2);
}

#[test]
fn test_empty_prose_between_blocks_ignored() {
    let text = "```watch:build\ncargo build\n```\n\n\n```watch:test\ncargo test\n```";
    let segments = parse_response_segments(text);
    assert_eq!(segments.len(), 2);
}

#[test]
fn test_exec_block_basic() {
    let text = "```exec:install\ncargo add serde\n```";
    let segments = parse_response_segments(text);
    assert_eq!(segments.len(), 1);
    assert!(matches!(
        &segments[0],
        ParsedSegment::Block { window, mode, content, .. }
        if window == "install" && *mode == BlockMode::Exec && content == "cargo add serde"
    ));
}

#[test]
fn test_exec_block_with_heredoc_inside() {
    let text =
        "```exec:write-config\ncat > config.toml << 'EOF'\n[build]\nrelease = true\nEOF\n```";
    let segments = parse_response_segments(text);
    assert_eq!(segments.len(), 1);
    assert!(matches!(
        &segments[0],
        ParsedSegment::Block { window, mode, content, .. }
        if window == "write-config" && *mode == BlockMode::Exec && content.contains("[build]")
    ));
}

#[test]
fn test_file_block() {
    let text = "```file:src/main.rs\n```";
    let segments = parse_response_segments(text);
    assert_eq!(segments.len(), 1);
    assert!(matches!(
        &segments[0],
        ParsedSegment::Block { window, mode, content, .. }
        if window == "src/main.rs" && *mode == BlockMode::File && content.is_empty()
    ));
}

#[test]
fn test_edit_block() {
    let text = "```edit:src/main.rs\nChange\nL10:old start\nL15:old end\nfn new() {}\n.\n```";
    let segments = parse_response_segments(text);
    assert_eq!(segments.len(), 1);
    assert!(matches!(
        &segments[0],
        ParsedSegment::Block { window, mode, content, .. }
        if window == "src/main.rs" && matches!(mode, BlockMode::Edit(_)) && content.contains("Change")
    ));
}

#[test]
fn test_write_block() {
    let text = "```write:src/main.rs\nfn main() {}\n```";
    let segments = parse_response_segments(text);
    assert_eq!(segments.len(), 1);
    assert!(matches!(
        &segments[0],
        ParsedSegment::Block { window, mode, content, .. }
        if window == "src/main.rs" && *mode == BlockMode::Write && content == "fn main() {}"
    ));
}

#[test]
fn test_roundtrip_serialize_parse() {
    let blocks = vec![
        ParsedBlock {
            window: "mind".into(),
            mode: BlockMode::Watch,
            content: "cat mind.md".into(),
            prose: Some("checking state".into()),
            dashboard: false,
        },
        ParsedBlock {
            window: "install".into(),
            mode: BlockMode::Exec,
            content: "cargo add serde".into(),
            prose: None,
            dashboard: false,
        },
    ];

    let text = serialize_blocks(&blocks);
    let parsed = parse_response(&text);
    assert_eq!(parsed.segments.len(), 2);
    assert_eq!(parsed.segments[0].window, "mind");
    assert_eq!(parsed.segments[0].mode, BlockMode::Watch);
    assert_eq!(parsed.segments[0].content, "cat mind.md");
    assert_eq!(parsed.segments[0].prose.as_deref(), Some("checking state"));
    assert!(!parsed.segments[0].dashboard);
    assert_eq!(parsed.segments[1].window, "install");
    assert_eq!(parsed.segments[1].mode, BlockMode::Exec);
}

#[test]
fn test_roundtrip_file_edit_write() {
    let blocks = vec![
        ParsedBlock {
            window: "src/main.rs".into(),
            mode: BlockMode::File,
            content: String::new(),
            prose: None,
            dashboard: false,
        },
        ParsedBlock {
            window: "src/lib.rs".into(),
            mode: BlockMode::Edit(None),
            content: "Change Start L10:old start\nEnd L15:old end\n<<'TAIDELIM'\nfn new() {}\nTAIDELIM".into(),
            prose: None,
            dashboard: false,
        },
        ParsedBlock {
            window: "config.toml".into(),
            mode: BlockMode::Write,
            content: "[build]\nrelease = true\n".into(),
            prose: None,
            dashboard: false,
        },
    ];

    let text = serialize_blocks(&blocks);
    let parsed = parse_response(&text);
    assert_eq!(parsed.segments.len(), 3);
    assert_eq!(parsed.segments[0].mode, BlockMode::File);
    assert!(matches!(parsed.segments[1].mode, BlockMode::Edit(_)));
    assert_eq!(parsed.segments[2].mode, BlockMode::Write);
}

#[test]
fn test_roundtrip_dashboard() {
    let blocks = vec![
        ParsedBlock {
            window: "tree".into(),
            mode: BlockMode::Watch,
            content: "tree -l --gitignore".into(),
            prose: None,
            dashboard: true,
        },
        ParsedBlock {
            window: "mind.md".into(),
            mode: BlockMode::File,
            content: String::new(),
            prose: None,
            dashboard: true,
        },
    ];

    let text = serialize_blocks(&blocks);
    assert!(text.contains("watch.dashboard:tree"));
    assert!(text.contains("file.dashboard:mind.md"));
    let parsed = parse_response(&text);
    assert_eq!(parsed.segments.len(), 2);
    assert!(parsed.segments[0].dashboard);
    assert!(parsed.segments[1].dashboard);
}

#[test]
fn test_parse_dashboard_block() {
    let text = "```watch.dashboard:tree\ntree -l\n```";
    let resp = parse_response(text);
    assert_eq!(resp.segments.len(), 1);
    assert_eq!(resp.segments[0].window, "tree");
    assert_eq!(resp.segments[0].mode, BlockMode::Watch);
    assert!(resp.segments[0].dashboard);
}

#[test]
fn test_parse_file_dashboard_block() {
    let text = "```file.dashboard:mind.md\n```";
    let resp = parse_response(text);
    assert_eq!(resp.segments.len(), 1);
    assert_eq!(resp.segments[0].window, "mind.md");
    assert_eq!(resp.segments[0].mode, BlockMode::File);
    assert!(resp.segments[0].dashboard);
}

#[test]
fn test_parse_task_block_with_other() {
    let text = "```task\n1. Check build\n2. Fix errors\n```\n```watch:build\ncargo build\n```";
    let resp = parse_response(text);
    assert_eq!(resp.task, "1. Check build\n2. Fix errors");
    assert_eq!(resp.segments.len(), 1);
    assert_eq!(resp.segments[0].window, "build");
    assert_eq!(resp.segments[0].mode, BlockMode::Watch);
}

#[test]
fn test_parse_task_only() {
    let text = "Some reasoning\n\n```task\nWait for user input then proceed\n```";
    let resp = parse_response(text);
    assert_eq!(resp.task, "Wait for user input then proceed");
    assert!(resp.segments.is_empty());
}

#[test]
fn test_parse_no_task() {
    let text = "```watch:build\ncargo build\n```";
    let resp = parse_response(text);
    assert!(resp.task.is_empty());
    assert_eq!(resp.segments.len(), 1);
}

#[test]
fn test_task_not_in_segments() {
    let text = "```task\nmy plan\n```\n```watch:build\ncargo build\n```";
    let resp = parse_response(text);
    assert_eq!(resp.task, "my plan");
    assert_eq!(resp.segments.len(), 1);
    assert!(resp.segments.iter().all(|s| !matches!(s.mode, BlockMode::Task)));
}

#[test]
fn test_write_with_heredoc() {
    let text = "```write:readme.md\n<<'TAIDELIM'\n# Hello\n```rust\nfn main() {}\n```\nTAIDELIM\n```";
    let resp = parse_response(text);
    assert_eq!(resp.segments.len(), 1);
    assert_eq!(resp.segments[0].window, "readme.md");
    assert_eq!(resp.segments[0].mode, BlockMode::Write);
    assert!(resp.segments[0].content.contains("# Hello"));
    assert!(resp.segments[0].content.contains("```rust"));
    assert!(resp.segments[0].content.contains("fn main() {}"));
    assert!(resp.heredoc_violations.is_empty());
}

#[test]
fn test_edit_with_heredoc() {
    let text = "```edit:src/main.rs\n<<'TAIDELIM'\nChange\nL10:old line\nfn new() {}\n.\nTAIDELIM\n```";
    let resp = parse_response(text);
    assert_eq!(resp.segments.len(), 1);
    assert_eq!(resp.segments[0].window, "src/main.rs");
    assert!(matches!(resp.segments[0].mode, BlockMode::Edit(_)));
    assert!(resp.segments[0].content.contains("Change"));
    assert!(resp.heredoc_violations.is_empty());
}

#[test]
fn test_write_without_heredoc_flagged() {
    let text = "```write:readme.md\n# Hello\n```";
    let resp = parse_response(text);
    assert_eq!(resp.segments.len(), 1);
    assert_eq!(resp.segments[0].content, "# Hello");
    assert_eq!(resp.heredoc_violations.len(), 1);
    assert!(resp.heredoc_violations[0].contains("write:readme.md"));
}

#[test]
fn test_edit_without_heredoc_flagged() {
    let text = "```edit:src/main.rs\n10c\nREPLACED\n```";
    let resp = parse_response(text);
    assert_eq!(resp.heredoc_violations.len(), 1);
    assert!(resp.heredoc_violations[0].contains("edit:src/main.rs"));
}

#[test]
fn test_serialize_write_uses_heredoc() {
    let block = ParsedBlock {
        window: "readme.md".into(),
        mode: BlockMode::Write,
        content: "# Hello\n```rust\nfn main() {}\n```".into(),
        prose: None,
        dashboard: false,
    };
    let text = serialize_blocks(&[block]);
    assert!(text.contains("<<'TAIDELIM'"));
    assert!(text.contains("\nTAIDELIM\n"));
    let parsed = parse_response(&text);
    assert!(parsed.heredoc_violations.is_empty());
    assert!(parsed.segments[0].content.contains("```rust"));
}
#[test]
fn test_task_complete_sets_flag() {
    let text = "```task:complete\nTask finished\n```";
    let resp = parse_response(text);
    assert!(resp.complete);
    assert_eq!(resp.task, "Task finished");
    assert!(resp.segments.is_empty());
}

#[test]
fn test_task_complete_with_blocks() {
    let text = "```watch:build\ncargo build\n```\n```task:complete\nAll done\n```";
    let resp = parse_response(text);
    assert!(resp.complete);
    assert_eq!(resp.task, "All done");
    assert_eq!(resp.segments.len(), 1);
}

#[test]
fn test_task_without_complete_no_flag() {
    let text = "```task\nStill working\n```";
    let resp = parse_response(text);
    assert!(!resp.complete);
    assert_eq!(resp.task, "Still working");
}

#[test]
fn test_parse_task_block() {
    let text = "```task\nRefactor auth module\n```";
    let resp = parse_response(text);
    assert_eq!(resp.segments.len(), 0);
    assert_eq!(resp.task, "Refactor auth module");
    assert!(!resp.complete);
}

#[test]
fn test_parse_task_complete() {
    let text = "```task:complete\nDone refactoring.\n```";
    let resp = parse_response(text);
    assert_eq!(resp.segments.len(), 0);
    assert_eq!(resp.task, "Done refactoring.");
    assert!(resp.complete);
}

#[test]
fn test_serialize_edit_uses_heredoc() {
    let block = ParsedBlock {
        window: "src/main.rs".into(),
        mode: BlockMode::Edit(None),
        content: "Change Exactly L10:old line\n<<'TAIDELIM'\nfn new() {}\nTAIDELIM".into(),
        prose: None,
        dashboard: false,
    };
    let text = serialize_blocks(&[block]);
    assert!(text.contains("<<'TAIDELIM'"));
    let parsed = parse_response(&text);
    assert!(parsed.heredoc_violations.is_empty());
}

#[test]
fn prose_attaches_to_the_next_block() {
    let text = "first thought\n```watch:a\nls\n```\nsecond\nthird\n```exec:b\nmake\n```";
    let resp = parse_response(text);
    assert_eq!(resp.segments.len(), 2);
    assert_eq!(resp.segments[0].prose.as_deref(), Some("first thought"));
    assert_eq!(resp.segments[1].prose.as_deref(), Some("second\nthird"));
}

#[test]
fn heredoc_violation_message_is_exact() {
    let resp = parse_response("```write:readme.md\n# Hello\n```");
    assert_eq!(
        resp.heredoc_violations,
        vec!["write:readme.md — content must use heredoc (<<'TAIDELIM' ... TAIDELIM)".to_string()]
    );
}

#[test]
fn edit_block_body_drops_heredoc_closing_lines() {
    let text = "```edit:src/main.rs\n<<'A'\nold\nA\n<<'B'\nnew\nB\n```";
    let resp = parse_response(text);
    assert_eq!(resp.segments[0].content, "<<'A'\nold\n<<'B'\nnew");
    assert_eq!(
        resp.edit_parse_errors,
        vec!["edit:src/main.rs — parse error at line 1: unclosed heredoc: A".to_string()]
    );
    assert!(matches!(resp.segments[0].mode, BlockMode::Edit(None)));
}

#[test]
fn edit_parse_error_is_reported() {
    let resp = parse_response("```edit:f.rs\nno heredoc at all\n```");
    assert_eq!(
        resp.edit_parse_errors,
        vec!["edit:f.rs — parse error at line 1: edit block must contain two heredocs: first for search, second for replace".to_string()]
    );
    assert_eq!(resp.heredoc_violations.len(), 1);
}

#[test]
fn serialize_writes_prose_then_fence() {
    let block = ParsedBlock {
        window: "w".into(),
        mode: BlockMode::Exec,
        content: "ls".into(),
        prose: Some("look".into()),
        dashboard: false,
    };
    assert_eq!(serialize_blocks(&[block]), "look\n```exec:w\nls\n```\n");
}

#[test]
fn serialize_task_and_close() {
    let blocks = vec![
        ParsedBlock {
            window: "x".into(),
            mode: BlockMode::Close,
            content: String::new(),
            prose: None,
            dashboard: false,
        },
        ParsedBlock {
            window: String::new(),
            mode: BlockMode::Task,
            content: "plan".into(),
            prose: None,
            dashboard: false,
        },
    ];
    assert_eq!(serialize_blocks(&blocks), "```close:x\n```\n```task\nplan\n```\n");
}

#[test]
fn header_window_keeps_later_colons() {
    let h = parse_block_header("exec:a:b").unwrap();
    assert_eq!(h.window, "a:b");
    assert_eq!(h.mode, BlockMode::Exec);
    assert!(parse_block_header("bogus:x").is_none());
}

#[test]
fn heredoc_body_cut_at_delimiter_or_end() {
    let resp = parse_response("```write:f\n<<EOF\nabc\nEOF\n```");
    assert_eq!(resp.segments[0].content, "abc");
    let resp = parse_response("```write:f\n<<'EOF'\nabc\n```");
    assert_eq!(resp.segments[0].content, "abc\n```");
}

#[test]
fn roundtrip_write_block_keeps_body_and_prose() {
    let blocks = vec![
        ParsedBlock {
            window: "src/main.rs".into(),
            mode: BlockMode::Write,
            content: "fn main() {\n    println!(\"```\");\n}".into(),
            prose: Some("writing the entry point".into()),
            dashboard: true,
        },
        ParsedBlock {
            window: "build".into(),
            mode: BlockMode::Exec,
            content: "cargo build\ncargo test".into(),
            prose: None,
            dashboard: false,
        },
    ];
    let text = serialize_blocks(&blocks);
    let parsed = parse_response(&text);
    assert_eq!(parsed.segments, blocks);
    assert!(parsed.heredoc_violations.is_empty());
    assert!(parsed.edit_parse_errors.is_empty());
    assert_eq!(parsed.task, "");
    assert!(!parsed.complete);
}

#[test]
fn roundtrip_task_block_is_not_a_segment() {
    let blocks = vec![ParsedBlock {
        window: String::new(),
        mode: BlockMode::Task,
        content: "ship it".into(),
        prose: None,
        dashboard: false,
    }];
    let parsed = parse_response(&serialize_blocks(&blocks));
    assert!(parsed.segments.is_empty());
    assert_eq!(parsed.task, "ship it");
}

#[test]
fn block_without_window_is_dropped_and_task_is_taken_apart() {
    let text = "```exec:\nls\n```\n```task\nfinish the docs\n```\n```watch:log\ntail log\n```";
    let parsed = parse_response(text);
    assert_eq!(parsed.segments.len(), 1);
    assert_eq!(parsed.segments[0].window, "log");
    assert_eq!(parsed.segments[0].mode, BlockMode::Watch);
    assert_eq!(parsed.task, "finish the docs");
}
