use tai::backend::CmdOutput;
use tai::session::{
    format_out, generate_short_id, out_file_name, parse_out_file, short_id_from_bytes,
    tick_file_name, SessionDir,
};

#[test]
fn test_parse_out_file_exit() {
    let (code, stdout) = parse_out_file("exit 0\nhello\nworld");
    assert_eq!(code, 0);
    assert_eq!(stdout, "hello\nworld");
}

#[test]
fn test_parse_out_file_error() {
    let (code, stdout) = parse_out_file("exit 1\nerror msg");
    assert_eq!(code, 1);
    assert_eq!(stdout, "error msg");
}

#[test]
fn test_parse_out_file_signal() {
    let (code, _stdout) = parse_out_file("signal 9\n");
    assert_eq!(code, 9);
}

#[test]
fn test_parse_out_file_empty() {
    let (code, stdout) = parse_out_file("exit 0\n");
    assert_eq!(code, 0);
    assert_eq!(stdout, "");
}

#[test]
fn out_file_roundtrip() {
    for (code, text) in [(0, ""), (-3, "a\nb\n"), (127, "x")] {
        let o = CmdOutput {
            exit_code: code,
            stdout: text.to_string(),
        };
        let raw = format_out(&o);
        assert_eq!(parse_out_file(&raw), (code, text.to_string()));
    }
}

#[test]
fn out_file_defaults() {
    assert_eq!(parse_out_file(""), (0, String::new()));
    assert_eq!(parse_out_file("exit x\nbody"), (0, "body".to_string()));
    assert_eq!(parse_out_file("signal x\n"), (-1, String::new()));
    assert_eq!(parse_out_file("whatever\nrest"), (0, "rest".to_string()));
}

#[test]
fn file_names() {
    assert_eq!(out_file_name("build"), "build.out");
    assert_eq!(tick_file_name(7), "00007.toml");
    assert_eq!(tick_file_name(123456), "123456.toml");
}

#[test]
fn short_ids() {
    assert_eq!(short_id_from_bytes(&[0, 1, 26, 35, 36, 255, 9]), "ab09ad");
    let id = generate_short_id().unwrap();
    assert_eq!(id.chars().count(), 6);
    assert!(id.chars().all(|c| c.is_ascii_lowercase() || c.is_ascii_digit()));
}

#[test]
fn session_paths() {
    let s = SessionDir::at("/tmp/tai-x".into(), "/home/p".into());
    assert_eq!(s.workspace(), "/tmp/tai-x");
    assert_eq!(s.session_path(), "/tmp/tai-x");
    assert_eq!(s.internal_path(), "/tmp/tai-x/.session");
    assert_eq!(s.project(), "/home/p");
}
