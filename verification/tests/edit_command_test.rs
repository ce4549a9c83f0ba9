use tai::response::edit_command::{
    apply_edits, parse_edit_command, serialize_edit_command, validate_no_overlaps,
    validate_search_unique, validate_texts_against_output, EditCommand, EditError,
};

#[test]
fn test_parse_two_heredocs() {
    let cmd = parse_edit_command("<<'SEARCH'\nold line\nSEARCH\n<<'REPLACE'\nnew line\nREPLACE")
        .unwrap();
    assert_eq!(cmd.search, "old line");
    assert_eq!(cmd.replace, "new line");
}

#[test]
fn test_parse_with_arbitrary_delimiters() {
    let cmd = parse_edit_command("<<'FOO'\nsearch text\nFOO\n<<'BAR'\nreplace text\nBAR").unwrap();
    assert_eq!(cmd.search, "search text");
    assert_eq!(cmd.replace, "replace text");
}

#[test]
fn test_parse_multiline() {
    let cmd =
        parse_edit_command("<<'A'\nline one\nline two\nA\n<<'B'\nline three\nline four\nB").unwrap();
    assert_eq!(cmd.search, "line one\nline two");
    assert_eq!(cmd.replace, "line three\nline four");
}

#[test]
fn test_parse_empty_replace() {
    let cmd = parse_edit_command("<<'A'\nold\nA\n<<'B'\nB").unwrap();
    assert_eq!(cmd.search, "old");
    assert_eq!(cmd.replace, "");
}

#[test]
fn test_parse_only_one_heredoc_fails() {
    let result = parse_edit_command("<<'A'\nold\nA");
    assert!(result.is_err());
}

#[test]
fn test_parse_no_heredoc_fails() {
    let result = parse_edit_command("old line");
    assert!(result.is_err());
}

#[test]
fn test_parse_three_heredocs_fails() {
    let result = parse_edit_command("<<'A'\nold\nA\n<<'B'\nnew\nB\n<<'C'\nextra\nC");
    assert!(result.is_err());
}

#[test]
fn test_validate_unique_found() {
    let cmd = EditCommand {
        search: "hello".into(),
        replace: "world".into(),
    };
    assert_eq!(validate_search_unique(&cmd, "say hello there").unwrap(), 4);
}

#[test]
fn test_validate_not_found() {
    let cmd = EditCommand {
        search: "missing".into(),
        replace: "x".into(),
    };
    let result = validate_search_unique(&cmd, "say hello there");
    assert!(matches!(result, Err(EditError::SearchNotFound { .. })));
}

#[test]
fn test_validate_ambiguous() {
    let cmd = EditCommand {
        search: "a".into(),
        replace: "x".into(),
    };
    let result = validate_search_unique(&cmd, "aba");
    assert!(matches!(
        result,
        Err(EditError::AmbiguousSearch { count: 2, .. })
    ));
}

#[test]
fn test_validate_no_overlaps_ok() {
    let ranges = vec![(0, 5), (10, 15)];
    assert!(validate_no_overlaps(&ranges).is_ok());
}

#[test]
fn test_validate_overlaps_fails() {
    let ranges = vec![(0, 10), (5, 15)];
    let result = validate_no_overlaps(&ranges);
    assert!(matches!(result, Err(EditError::OverlappingRanges { .. })));
}

#[test]
fn test_validate_adjacent_ok() {
    let ranges = vec![(0, 5), (5, 10)];
    assert!(validate_no_overlaps(&ranges).is_ok());
}

#[test]
fn test_apply_single_edit() {
    let result = apply_edits("hello world", &[(6, "world", "Rust")]);
    assert_eq!(result, "hello Rust");
}

#[test]
fn test_apply_multiple_edits() {
    let edits = vec![(6, "world", "Rust"), (0, "hello", "hi")];
    let result = apply_edits("hello world", &edits);
    assert_eq!(result, "hi Rust");
}

#[test]
fn test_apply_delete() {
    let result = apply_edits("hello world", &[(6, "world", "")]);
    assert_eq!(result, "hello ");
}

#[test]
fn test_serialize_roundtrip() {
    let cmd = EditCommand {
        search: "old".into(),
        replace: "new".into(),
    };
    let serialized = serialize_edit_command(&cmd);
    let parsed = parse_edit_command(&serialized).unwrap();
    assert_eq!(parsed, cmd);
}

#[test]
fn line_reference_names_the_search_text() {
    let cmd = parse_edit_command("Change Exactly L2:line two\n<<'TAI'\nREPLACED\nTAI").unwrap();
    assert_eq!(cmd.search, "line two");
    assert_eq!(cmd.replace, "REPLACED");
}

#[test]
fn unclosed_heredoc_is_reported_with_its_line() {
    let err = parse_edit_command("<<'A'\nold\nno end").unwrap_err();
    assert_eq!(
        err,
        EditError::Parse {
            line: 1,
            message: "unclosed heredoc: A".to_string()
        }
    );
    assert_eq!(err.to_string(), "parse error at line 1: unclosed heredoc: A");
}

#[test]
fn three_heredocs_message_counts_them() {
    let err = parse_edit_command("<<'A'\nold\nA\n<<'B'\nnew\nB\n<<'C'\nextra\nC").unwrap_err();
    assert_eq!(
        err.to_string(),
        "parse error at line 1: edit block contains 3 heredocs, expected exactly 2"
    );
}

#[test]
fn validate_offset_is_in_bytes() {
    let cmd = EditCommand {
        search: "b".into(),
        replace: "x".into(),
    };
    assert_eq!(validate_search_unique(&cmd, "éb").unwrap(), 2);
}

#[test]
fn texts_check_against_output() {
    let cmd = EditCommand {
        search: "line two".into(),
        replace: "x".into(),
    };
    assert!(validate_texts_against_output(&cmd, "line one\nline two\n").is_ok());
    let missing = validate_texts_against_output(&cmd, "nothing here");
    assert!(matches!(missing, Err(EditError::SearchNotFound { .. })));
    let twice = validate_texts_against_output(&cmd, "line two line two");
    assert!(matches!(twice, Err(EditError::AmbiguousSearch { count: 2, .. })));
}

#[test]
fn overlap_error_names_both_ranges() {
    let err = validate_no_overlaps(&[(5, 15), (0, 10)]).unwrap_err();
    assert!(matches!(err, EditError::OverlappingRanges { .. }));
}

#[test]
fn bare_delimiters_at_line_end_open_heredocs() {
    let cmd = parse_edit_command("<<A\nold\nA\n<<B\nnew\nB").unwrap();
    assert_eq!(cmd.search, "old");
    assert_eq!(cmd.replace, "new");
}

#[test]
fn overlapping_occurrences_count_as_ambiguous() {
    let cmd = EditCommand {
        search: "aa".into(),
        replace: "b".into(),
    };
    assert!(matches!(
        validate_search_unique(&cmd, "aaa"),
        Err(EditError::AmbiguousSearch { count: 2, .. })
    ));
    assert_eq!(validate_search_unique(&cmd, "xaay"), Ok(1));
}

#[test]
fn overlap_check_ignores_order() {
    assert!(validate_no_overlaps(&[(5, 10), (0, 5)]).is_ok());
    assert!(validate_no_overlaps(&[(0, 5), (5, 10)]).is_ok());
    assert!(validate_no_overlaps(&[(4, 10), (0, 5)]).is_err());
    assert!(validate_no_overlaps(&[(0, 5), (4, 10)]).is_err());
    assert!(validate_no_overlaps(&[(0, 5), (7, 9), (0, 5)]).is_err());
}

#[test]
fn edits_apply_alike_in_any_order() {
    let content = "alpha beta gamma";
    let one = apply_edits(content, &[(0, "alpha", "A"), (11, "gamma", "G")]);
    let two = apply_edits(content, &[(11, "gamma", "G"), (0, "alpha", "A")]);
    assert_eq!(one, "A beta G");
    assert_eq!(one, two);
}
