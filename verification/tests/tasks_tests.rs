use noosphere::tasks::{StoreError, Task, TaskBoard};

fn task(id: i64, text: &str) -> Task {
    Task { id, text: text.to_string() }
}

fn refused() -> StoreError {
    StoreError { message: "database is locked".to_string() }
}

fn board_with(tasks: Vec<Task>) -> TaskBoard {
    TaskBoard::new(tasks)
}

#[test]
fn new_board_holds_the_loaded_tasks() {
    let b = board_with(vec![task(1, "read"), task(4, "walk")]);
    assert_eq!(b.len(), 2);
    assert_eq!(b.tasks(), &vec![task(1, "read"), task(4, "walk")]);
    assert_eq!(b.draft(), "");
}

#[test]
fn submission_is_the_trimmed_draft() {
    let mut b = board_with(vec![]);
    b.set_draft("  walk the dog \t".to_string());
    assert_eq!(b.submission(), Some("walk the dog".to_string()));
    assert_eq!(b.raw_submission(), Some("  walk the dog \t".to_string()));
}

#[test]
fn blank_draft_is_not_submitted() {
    let mut b = board_with(vec![]);
    assert_eq!(b.submission(), None);
    b.set_draft(" \t\u{3000} ".to_string());
    assert_eq!(b.submission(), None);
    assert_eq!(b.raw_submission(), None);
}

#[test]
fn stored_task_joins_the_end_and_clears_the_draft() {
    let mut b = board_with(vec![task(1, "read")]);
    b.set_draft(" cook ".to_string());
    let text = b.submission().unwrap();
    b.record_insert(text, Ok(9));
    assert_eq!(b.tasks(), &vec![task(1, "read"), task(9, "cook")]);
    assert_eq!(b.draft(), "");
}

#[test]
fn refused_insert_changes_nothing() {
    let mut b = board_with(vec![task(1, "read")]);
    b.set_draft("cook".to_string());
    b.record_insert("cook".to_string(), Err(refused()));
    assert_eq!(b.tasks(), &vec![task(1, "read")]);
    assert_eq!(b.draft(), "cook");
}

#[test]
fn deleted_task_leaves_the_list() {
    let mut b = board_with(vec![task(1, "a"), task(2, "b"), task(3, "c")]);
    assert_eq!(b.task_id(1), Some(2));
    b.record_delete(1, Ok(1));
    assert_eq!(b.tasks(), &vec![task(1, "a"), task(3, "c")]);
}

#[test]
fn refused_delete_changes_nothing() {
    let mut b = board_with(vec![task(1, "a"), task(2, "b")]);
    b.set_draft("half typed".to_string());
    b.record_delete(0, Err(refused()));
    assert_eq!(b.tasks(), &vec![task(1, "a"), task(2, "b")]);
    assert_eq!(b.draft(), "half typed");
}

#[test]
fn task_id_out_of_range_is_none() {
    let b = board_with(vec![task(5, "a")]);
    assert_eq!(b.task_id(0), Some(5));
    assert_eq!(b.task_id(1), None);
}

#[test]
fn insert_then_delete_last_restores_the_list() {
    let start = vec![task(1, "a"), task(2, "b")];
    let mut b = board_with(start.clone());
    b.set_draft("new".to_string());
    b.record_insert("new".to_string(), Ok(3));
    let last = b.len() - 1;
    b.record_delete(last, Ok(1));
    assert_eq!(b.tasks(), &start);
    assert_eq!(b.draft(), "");
}

#[test]
fn labels_number_the_tasks_from_one() {
    let b = board_with(vec![task(10, "read"), task(20, "walk")]);
    assert_eq!(b.labels(), vec!["1) read".to_string(), "2) walk".to_string()]);
    assert!(board_with(vec![]).labels().is_empty());
}
