use epaper_todo::task::{display_line, tasks_equal, validate_tasks, RawTask, Task};

fn task(id: &str, title: &str, category: Option<&str>, rank: Option<i64>) -> Task {
    Task::new(
        id.to_string(),
        title.to_string(),
        category.map(|c| c.to_string()),
        rank,
    )
}

fn raw(id: &str, title: Option<&str>, category: Option<&str>, rank: Option<i64>) -> RawTask {
    RawTask {
        id: id.to_string(),
        title: title.map(|t| t.to_string()),
        category: category.map(|c| c.to_string()),
        rank,
    }
}

#[test]
fn display_line_with_category() {
    let t = task("1", "Write report", Some("Work"), None);
    assert_eq!(display_line(&t), "Work: Write report");
}

#[test]
fn display_line_without_category() {
    let t = task("1", "Water plants", None, Some(3));
    assert_eq!(display_line(&t), "Water plants");
}

#[test]
fn task_equality_compares_titles_only() {
    let a = task("1", "same", Some("Work"), Some(1));
    let b = task("2", "same", None, Some(9));
    let c = task("1", "other", Some("Work"), Some(1));
    assert!(a == b);
    assert!(a != c);
}

#[test]
fn clone_is_a_full_copy() {
    let a = task("id7", "title", Some("Home"), Some(42));
    let b = a.clone();
    assert_eq!(b.id, "id7");
    assert_eq!(b.title, "title");
    assert_eq!(b.category.as_deref(), Some("Home"));
    assert_eq!(b.rank, Some(42));
}

#[test]
fn validation_drops_records_with_missing_title() {
    let rs = vec![
        raw("a", Some("first"), None, None),
        raw("b", None, Some("Work"), Some(2)),
        raw("c", Some("third"), None, None),
    ];
    let v = validate_tasks(rs);
    assert_eq!(v.len(), 2);
    assert_eq!(v[0].title, "first");
    assert_eq!(v[1].title, "third");
}

#[test]
fn validation_of_empty_list_is_empty() {
    let v = validate_tasks(Vec::new());
    assert!(v.is_empty());
}

#[test]
fn list_equality_needs_same_length() {
    let a = vec![task("1", "t", None, None)];
    let b = vec![task("1", "t", None, None), task("2", "u", None, None)];
    assert!(!tasks_equal(&a, &b));
}

#[test]
fn list_equality_ignores_categories_and_ranks() {
    let a = vec![task("1", "t", Some("X"), Some(1)), task("2", "u", None, None)];
    let b = vec![task("9", "t", None, Some(7)), task("8", "u", Some("Y"), None)];
    assert!(tasks_equal(&a, &b));
}

#[test]
fn list_equality_sees_a_changed_title() {
    let a = vec![task("1", "t", None, None), task("2", "u", None, None)];
    let b = vec![task("1", "t", None, None), task("2", "v", None, None)];
    assert!(!tasks_equal(&a, &b));
}

#[test]
fn list_equality_of_empty_lists() {
    let a: Vec<Task> = Vec::new();
    let b: Vec<Task> = Vec::new();
    assert!(tasks_equal(&a, &b));
}
