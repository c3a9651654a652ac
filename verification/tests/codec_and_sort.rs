use todo::entries::{sort_entries, Entry};
use todo::{List, Task, Todo, TodoError};

fn task(name: &str) -> Task {
    Task::from(name.to_string())
}

fn entry(finished: bool, name: &str) -> Entry {
    Entry { finished, task: task(name) }
}

fn pending_names(list: &List) -> Vec<String> {
    list.raw(Some("pending")).unwrap()
}

fn finished_names(list: &List) -> Vec<String> {
    list.raw(Some("finished")).unwrap()
}

#[test]
fn save_load_roundtrip() {
    let mut list = List::default();
    list.add_task(task("plain"));
    list.add_task(task("with desc").with_description("details here".to_string()));
    list.add_task(task("spaced name"));
    list.finish(&vec!["2".to_string()]);
    let text = list.save_string().unwrap();
    let loaded = List::load_string(&text, true).unwrap();
    assert_eq!(pending_names(&loaded), pending_names(&list));
    assert_eq!(finished_names(&loaded), finished_names(&list));
    assert_eq!(
        loaded.tasks[0].description().map(|d| d.clone()),
        list.tasks[0].description().map(|d| d.clone())
    );
    assert_eq!(
        loaded.finished[0].description().map(|d| d.clone()),
        list.finished[0].description().map(|d| d.clone())
    );
}

#[test]
fn save_writes_line_format() {
    let mut list = List::default();
    list.add_task(task("a").with_description("b".to_string()));
    list.add_task(task("c"));
    list.finish(&vec!["c".to_string()]);
    let text = list.save_string().unwrap();
    assert_eq!(text, "0a\tb\n1c\n");
}

#[test]
fn load_empty_text_gives_empty_list() {
    let loaded = List::load_string("", true).unwrap();
    assert!(loaded.tasks.is_empty());
    assert!(loaded.finished.is_empty());
}

#[test]
fn load_skips_blank_lines() {
    let loaded = List::load_string("0a\n\n\n1b\n", true).unwrap();
    assert_eq!(pending_names(&loaded), vec!["a".to_string()]);
    assert_eq!(finished_names(&loaded), vec!["b".to_string()]);
}

#[test]
fn load_strict_rejects_malformed_line() {
    assert_eq!(
        List::load_string("0a\nxoops\n", true).unwrap_err(),
        TodoError::ParseError
    );
    assert_eq!(List::load_string("0\n", true).unwrap_err(), TodoError::ParseError);
}

#[test]
fn load_lenient_skips_malformed_line() {
    let loaded = List::load_string("0a\nxoops\n1b\n", false).unwrap();
    assert_eq!(pending_names(&loaded), vec!["a".to_string()]);
    assert_eq!(finished_names(&loaded), vec!["b".to_string()]);
}

#[test]
fn load_keeps_empty_description() {
    let loaded = List::load_string("0a\t\n", true).unwrap();
    assert_eq!(loaded.tasks[0].description().map(|d| d.clone()), Some(String::new()));
}

#[test]
fn load_keeps_tabs_inside_description() {
    let loaded = List::load_string("0a\tleft\tright\n", true).unwrap();
    assert_eq!(
        loaded.tasks[0].description().map(|d| d.clone()),
        Some("left\tright".to_string())
    );
}

#[test]
fn load_without_trailing_line_break() {
    let loaded = List::load_string("0a\n1b", true).unwrap();
    assert_eq!(pending_names(&loaded), vec!["a".to_string()]);
    assert_eq!(finished_names(&loaded), vec!["b".to_string()]);
}

#[test]
fn save_rejects_line_break_in_name() {
    let mut list = List::default();
    list.add_task(task("bad\nname"));
    assert_eq!(list.save_string().unwrap_err(), TodoError::SerializeError);
}

#[test]
fn save_rejects_tab_in_name() {
    let mut list = List::default();
    list.add_task(task("bad\tname"));
    assert_eq!(list.save_string().unwrap_err(), TodoError::SerializeError);
}

#[test]
fn save_rejects_empty_name() {
    let mut list = List::default();
    list.add_task(task(""));
    assert_eq!(list.save_string().unwrap_err(), TodoError::SerializeError);
}

#[test]
fn sort_partitions_pending_before_finished() {
    let entries = vec![
        entry(true, "f1"),
        entry(false, "p1"),
        entry(true, "f2"),
        entry(false, "p2"),
    ];
    let sorted = sort_entries(entries);
    let shape: Vec<(bool, String)> = sorted
        .iter()
        .map(|e| (e.finished, e.task.name().clone()))
        .collect();
    assert_eq!(
        shape,
        vec![
            (false, "p1".to_string()),
            (false, "p2".to_string()),
            (true, "f1".to_string()),
            (true, "f2".to_string()),
        ]
    );
}

#[test]
fn sort_twice_equals_sort_once() {
    let entries = vec![
        entry(true, "f1"),
        entry(false, "p1"),
        entry(true, "f2"),
    ];
    let once: Vec<(bool, String)> = sort_entries(entries.clone())
        .iter()
        .map(|e| (e.finished, e.task.name().clone()))
        .collect();
    let twice: Vec<(bool, String)> = sort_entries(sort_entries(entries))
        .iter()
        .map(|e| (e.finished, e.task.name().clone()))
        .collect();
    assert_eq!(once, twice);
}

#[test]
fn backup_restore_reproduces_backup_point() {
    // The on-disk transitions, played out on strings: save, back the file up,
    // save something else, restore.
    let mut list = List::default();
    list.add(&vec!["original".to_string()]);
    let file = list.save_string().unwrap();
    let backup = file.clone();
    list.add(&vec!["later".to_string()]);
    let file = list.save_string().unwrap();
    assert_ne!(file, backup);
    let file = backup.clone();
    let restored = List::load_string(&file, true).unwrap();
    assert_eq!(restored.raw(Some("pending")).unwrap(), vec!["original".to_string()]);
}

#[test]
fn todo_save_string_matches_list() {
    let mut list = List::default();
    list.add(&vec!["a".to_string()]);
    let direct = list.save_string().unwrap();
    let todo = Todo { list, path: "todo.txt".to_string() };
    assert_eq!(todo.save_string().unwrap(), direct);
}

#[test]
fn todo_file_discovery_matches_any_case() {
    assert!(Todo::is_todo_file_name("TODO.txt"));
    assert!(Todo::is_todo_file_name("my-ToDo-list"));
    assert!(!Todo::is_todo_file_name("notes.txt"));
    assert!(!Todo::is_todo_file_name("tod"));
}
