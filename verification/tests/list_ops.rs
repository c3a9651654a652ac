use todo::{List, Task, TodoError};

fn task(name: &str) -> Task {
    Task::from(name.to_string())
}

fn pending_names(list: &List) -> Vec<String> {
    list.raw(Some("pending")).unwrap()
}

fn finished_names(list: &List) -> Vec<String> {
    list.raw(Some("finished")).unwrap()
}

#[test]
fn add_then_list_orders_pending() {
    let mut list = List::default();
    list.add(&vec!["buy milk".to_string(), "walk dog".to_string()]);
    assert_eq!(pending_names(&list), vec!["buy milk".to_string(), "walk dog".to_string()]);
    assert!(finished_names(&list).is_empty());
}

#[test]
fn add_skips_blank_names() {
    let mut list = List::default();
    list.add(&vec![
        "".to_string(),
        "   ".to_string(),
        "\t".to_string(),
        "real".to_string(),
    ]);
    assert_eq!(pending_names(&list), vec!["real".to_string()]);
}

#[test]
fn finish_by_position_moves_task() {
    let mut list = List::default();
    list.add(&vec!["a".to_string(), "b".to_string(), "c".to_string()]);
    list.finish(&vec!["2".to_string()]);
    assert_eq!(pending_names(&list), vec!["a".to_string(), "c".to_string()]);
    assert_eq!(finished_names(&list), vec!["b".to_string()]);
}

#[test]
fn finish_by_name_moves_first_match() {
    let mut list = List::default();
    list.add(&vec!["a".to_string(), "b".to_string(), "a".to_string()]);
    list.finish_task("a");
    assert_eq!(pending_names(&list), vec!["b".to_string(), "a".to_string()]);
    assert_eq!(finished_names(&list), vec!["a".to_string()]);
}

#[test]
fn finish_task_takes_position_all_or_name() {
    let mut list = List::default();
    list.add(&vec!["a".to_string(), "b".to_string(), "c".to_string()]);
    list.finish_task("2");
    assert_eq!(pending_names(&list), vec!["a".to_string(), "c".to_string()]);
    assert_eq!(finished_names(&list), vec!["b".to_string()]);
    list.finish_task("all");
    assert!(pending_names(&list).is_empty());
    assert_eq!(
        finished_names(&list),
        vec!["b".to_string(), "a".to_string(), "c".to_string()]
    );
}

#[test]
fn finish_all_moves_everything() {
    let mut list = List::default();
    list.add(&vec!["a".to_string(), "b".to_string()]);
    list.finish(&vec!["all".to_string()]);
    assert!(pending_names(&list).is_empty());
    assert_eq!(finished_names(&list), vec!["a".to_string(), "b".to_string()]);
}

#[test]
fn finish_ignores_unmatched_selectors() {
    let mut list = List::default();
    list.add(&vec!["a".to_string()]);
    list.finish(&vec!["5".to_string(), "nothing".to_string(), "0".to_string()]);
    assert_eq!(pending_names(&list), vec!["a".to_string()]);
    assert!(finished_names(&list).is_empty());
}

#[test]
fn remove_done_selector_empties_finished() {
    let mut list = List::default();
    list.add(&vec!["keep".to_string(), "x".to_string(), "y".to_string()]);
    list.finish(&vec!["x".to_string(), "y".to_string()]);
    assert_eq!(finished_names(&list), vec!["x".to_string(), "y".to_string()]);
    list.remove(&vec!["done".to_string()]);
    assert!(finished_names(&list).is_empty());
    assert_eq!(pending_names(&list), vec!["keep".to_string()]);
}

#[test]
fn remove_by_combined_position() {
    let mut list = List::default();
    list.add(&vec!["a".to_string(), "b".to_string(), "c".to_string()]);
    list.finish(&vec!["c".to_string()]);
    // Combined order: a, b pending, then c finished.
    list.remove(&vec!["3".to_string()]);
    assert_eq!(pending_names(&list), vec!["a".to_string(), "b".to_string()]);
    assert!(finished_names(&list).is_empty());
    list.remove(&vec!["1".to_string()]);
    assert_eq!(pending_names(&list), vec!["b".to_string()]);
}

#[test]
fn remove_ignores_unmatched_selectors() {
    let mut list = List::default();
    list.add(&vec!["a".to_string()]);
    list.remove(&vec!["9".to_string(), "a".to_string(), "0".to_string()]);
    assert_eq!(pending_names(&list), vec!["a".to_string()]);
}

#[test]
fn clear_finished_leaves_pending() {
    let mut list = List::default();
    list.add(&vec!["a".to_string(), "b".to_string()]);
    list.finish(&vec!["b".to_string()]);
    list.clear_finished();
    assert_eq!(pending_names(&list), vec!["a".to_string()]);
    assert!(finished_names(&list).is_empty());
}

#[test]
fn add_task_appends() {
    let mut list = List::default();
    list.add_task(task("one"));
    list.add_task(task("two"));
    assert_eq!(pending_names(&list), vec!["one".to_string(), "two".to_string()]);
}

#[test]
fn raw_selector_exhaustive() {
    let mut list = List::default();
    list.add(&vec!["a".to_string()]);
    assert_eq!(list.raw(None).unwrap_err(), TodoError::InvalidArgument);
    assert_eq!(list.raw(Some("bogus")).unwrap_err(), TodoError::InvalidArgument);
    assert_eq!(list.raw(Some("PENDING")).unwrap_err(), TodoError::InvalidArgument);
    assert!(list.raw(Some("pending")).is_ok());
    assert!(list.raw(Some("finished")).is_ok());
}
