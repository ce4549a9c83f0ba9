use tai::backend::watch::Watcher;
use tai::backend::{Terminal, WindowId};

#[test]
fn test_watch_entries() {
    let mut watcher = Watcher::new();
    assert!(watcher.watch_entries().is_empty());

    watcher.track(WindowId::new("w1"), "task".to_string(), "cat TASK.md".to_string());
    watcher.track(WindowId::new("w2"), "tree".to_string(), "tree --gitignore".to_string());

    let entries = watcher.watch_entries();
    assert_eq!(entries.len(), 2);
}

#[test]
fn test_update_id() {
    let mut watcher = Watcher::new();
    let old_id = WindowId::new("w1");
    watcher.track(old_id.clone(), "task".to_string(), "cat TASK.md".to_string());

    let new_id = WindowId::new("w1-new");
    watcher.update_id(&old_id, new_id.clone());

    let entries = watcher.watch_entries();
    assert_eq!(entries.len(), 1);
    assert_eq!(entries[0].0, new_id);
    assert_eq!(entries[0].1, "task");
}

#[test]
fn test_remove_by_title() {
    let mut watcher = Watcher::new();
    watcher.track(WindowId::new("w1"), "task".to_string(), "cat TASK.md".to_string());
    watcher.track(WindowId::new("w2"), "tree".to_string(), "tree --gitignore".to_string());

    watcher.remove_by_title("task");

    let entries = watcher.watch_entries();
    assert_eq!(entries.len(), 1);
    assert_eq!(entries[0].1, "tree");
}

fn term(id: &str, at_prompt: bool, status: Option<i32>) -> Terminal {
    Terminal {
        id: WindowId::new(id),
        title: id.to_string(),
        pid: 1,
        is_at_prompt: at_prompt,
        last_cmd_exit_status: status,
    }
}

#[test]
fn poll_reports_a_finished_window_once() {
    let mut watcher = Watcher::new();
    watcher.track(WindowId::new("w1"), "build".into(), "cargo build".into());
    assert!(watcher.poll_exited_from(&[term("w1", false, None)]).is_empty());
    let list = [term("w1", true, Some(0))];
    let exited = watcher.poll_exited_from(&list);
    assert_eq!(exited.len(), 1);
    assert_eq!(exited[0].id, WindowId::new("w1"));
    assert_eq!(exited[0].last_cmd_exit_status, Some(0));
    assert!(watcher.poll_exited_from(&list).is_empty());
}

#[test]
fn entries_without_command_are_left_out() {
    let mut watcher = Watcher::new();
    watcher.track(WindowId::new("w1"), "shell".into(), String::new());
    assert!(watcher.watch_entries().is_empty());
    assert!(!watcher.is_empty());
}

#[test]
fn track_again_replaces_the_window() {
    let mut watcher = Watcher::new();
    watcher.track(WindowId::new("w1"), "a".into(), "x".into());
    watcher.track(WindowId::new("w1"), "b".into(), "y".into());
    let entries = watcher.watch_entries();
    assert_eq!(entries.len(), 1);
    assert_eq!(entries[0].1, "b");
}
