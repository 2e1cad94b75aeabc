use epaper_todo::fetcher::{
    apply_fetch, fetch_cycle, placeholder_task, plan_store_update, ApiResponse, ApiResult,
    FetchError, QueryType,
};
use epaper_todo::store::{SharedTaskStore, TaskStore};
use epaper_todo::task::{RawTask, Task};

fn raw(id: &str, title: Option<&str>) -> RawTask {
    RawTask {
        id: id.to_string(),
        title: title.map(|t| t.to_string()),
        category: None,
        rank: None,
    }
}

fn titles(tasks: &[Task]) -> Vec<String> {
    tasks.iter().map(|t| t.title.clone()).collect()
}

#[test]
fn successful_fetch_replaces_even_with_an_empty_list() {
    let r = plan_store_update(Ok(Vec::new()));
    match r {
        Some(v) => assert!(v.is_empty()),
        None => panic!("a successful fetch must install its list"),
    }
}

#[test]
fn successful_fetch_installs_only_valid_records() {
    let r = plan_store_update(Ok(vec![raw("a", Some("keep")), raw("b", None)]));
    match r {
        Some(v) => {
            assert_eq!(v.len(), 1);
            assert_eq!(v[0].title, "keep");
        },
        None => panic!("a successful fetch must install its list"),
    }
}

#[test]
fn transport_error_installs_nothing() {
    let r = plan_store_update(Err(FetchError::Transport));
    assert!(r.is_none());
}

#[test]
fn parse_error_substitutes_the_placeholder() {
    let r = plan_store_update(Err(FetchError::Parse));
    match r {
        Some(v) => {
            assert_eq!(v.len(), 1);
            assert_eq!(v[0].title, placeholder_task().title);
            assert_eq!(v[0].title, "FAKE TASK");
        },
        None => panic!("a parse error must install the placeholder"),
    }
}

#[test]
fn transport_error_leaves_the_store_unchanged() {
    let mut store = TaskStore::new();
    apply_fetch(&mut store, Ok(vec![raw("a", Some("one")), raw("b", Some("two"))]));
    let before = store.snapshot();
    apply_fetch(&mut store, Err(FetchError::Transport));
    let after = store.snapshot();
    assert_eq!(titles(&before), titles(&after));
    assert_eq!(after.len(), 2);
}

#[test]
fn successful_fetch_replaces_the_whole_contents() {
    let mut store = TaskStore::new();
    apply_fetch(&mut store, Ok(vec![raw("a", Some("old"))]));
    apply_fetch(&mut store, Ok(vec![raw("b", Some("new1")), raw("c", Some("new2"))]));
    let v = store.snapshot();
    assert_eq!(titles(&v), vec!["new1".to_string(), "new2".to_string()]);
}

#[test]
fn shared_fetch_cycle_keeps_stale_data_on_transport_error() {
    let store = SharedTaskStore::new(Vec::new());
    fetch_cycle(&store, Ok(vec![raw("a", Some("kept"))]));
    let before = store.snapshot();
    fetch_cycle(&store, Err(FetchError::Transport));
    let after = store.snapshot();
    assert_eq!(titles(&before), titles(&after));
    assert_eq!(after.len(), 1);
    assert_eq!(after[0].title, "kept");
}

#[test]
fn placeholder_has_no_category() {
    let p = placeholder_task();
    assert!(p.category.is_none());
    assert!(p.rank.is_none());
}

#[test]
fn a_response_envelope_carries_its_records() {
    let _verb = QueryType::GET;
    let _other = QueryType::POST;
    let response = ApiResponse {
        result: ApiResult::Tasks(vec![raw("a", Some("one")), raw("b", None)]),
    };
    let records = response.into_tasks();
    assert_eq!(records.len(), 2);
    assert_eq!(records[0].id, "a");
    assert!(records[1].title.is_none());
}
