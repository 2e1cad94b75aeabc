use epaper_todo::store::{SharedTaskStore, TaskStore};
use epaper_todo::task::Task;

fn task(id: &str, title: &str) -> Task {
    Task::new(id.to_string(), title.to_string(), None, None)
}

fn titles(tasks: &[Task]) -> Vec<String> {
    tasks.iter().map(|t| t.title.clone()).collect()
}

#[test]
fn a_new_store_is_empty() {
    let store = TaskStore::new();
    assert_eq!(store.len(), 0);
    assert!(store.snapshot().is_empty());
}

#[test]
fn replace_installs_the_whole_list() {
    let mut store = TaskStore::new();
    store.replace(vec![task("1", "a"), task("2", "b")]);
    assert_eq!(titles(&store.snapshot()), vec!["a".to_string(), "b".to_string()]);
}

#[test]
fn snapshot_is_an_independent_copy() {
    let mut store = TaskStore::new();
    store.replace(vec![task("1", "a")]);
    let snap = store.snapshot();
    store.replace(vec![task("2", "b"), task("3", "c")]);
    assert_eq!(titles(&snap), vec!["a".to_string()]);
    assert_eq!(store.len(), 2);
}

#[test]
fn shared_store_round_trip() {
    let store = SharedTaskStore::new(vec![task("1", "first")]);
    let snap = store.snapshot();
    assert_eq!(titles(&snap), vec!["first".to_string()]);
    store.replace(vec![task("2", "second"), task("3", "third")]);
    let snap = store.snapshot();
    assert_eq!(titles(&snap), vec!["second".to_string(), "third".to_string()]);
}

#[test]
fn interleaved_snapshots_never_tear() {
    // A simulated interleaving of the two loops: every snapshot must show
    // exactly the list installed by the latest completed replacement (the
    // initial contents before any), never a mixture of two of them.
    let store = SharedTaskStore::new(Vec::new());
    let lists: Vec<Vec<Task>> = vec![
        vec![task("1", "a")],
        vec![task("2", "b"), task("3", "c"), task("4", "d")],
        Vec::new(),
        vec![task("5", "e"), task("6", "f")],
    ];
    let mut last_titles: Vec<String> = Vec::new();
    let snap = store.snapshot();
    assert_eq!(titles(&snap), last_titles);
    for l in &lists {
        let before = store.snapshot();
        assert_eq!(titles(&before), last_titles);
        store.replace(l.clone());
        last_titles = titles(l);
        let after = store.snapshot();
        assert_eq!(titles(&after), last_titles);
        let again = store.snapshot();
        assert_eq!(titles(&again), last_titles);
    }
}

#[test]
fn repeated_replacements_keep_lengths_consistent() {
    let store = SharedTaskStore::new(Vec::new());
    let sizes = [3usize, 0, 5, 1, 2];
    for (i, n) in sizes.iter().enumerate() {
        let mut l: Vec<Task> = Vec::new();
        for j in 0..*n {
            l.push(task(&format!("{}-{}", i, j), &format!("t{}", j)));
        }
        store.replace(l);
        // The observed length is the length one single replacement installed.
        assert_eq!(store.snapshot().len(), *n);
    }
}
