//! The fetch cycle: the policy that decides, from one outcome of the task
//! source, what the shared store holds afterwards. The transport itself is
//! the surrounding program's business; this module is handed the outcome as
//! a plain value.

use vstd::prelude::*;

use crate::store::{SharedTaskStore, TaskStore};
use crate::task::{raw_views, task_views, validated, RawTask, RawTaskView, Task, TaskView};

verus! {

/// Why a fetch cycle produced no task list: the transport failed (nothing
/// usable arrived), or a payload arrived but could not be parsed.
pub enum FetchError {
    Transport,
    Parse,
}

/// Which verb a query to the task source uses: reading the current list, or
/// posting an update.
pub enum QueryType {
    GET,
    POST,
}

/// What a successful query carries: so far only a task list, as raw records
/// that still need validation.
pub enum ApiResult {
    Tasks(Vec<RawTask>),
}

/// The envelope of a response from the task source.
pub struct ApiResponse {
    pub result: ApiResult,
}

impl ApiResponse {
    /// The raw records a response carries.
    pub fn into_tasks(self) -> (r: Vec<RawTask>)
        ensures
            self.result matches ApiResult::Tasks(t) && r == t,
    {
        match self.result {
            ApiResult::Tasks(t) => t,
        }
    }
}

/// Ghost image of a fetch outcome.
pub open spec fn outcome_view(o: Result<Vec<RawTask>, FetchError>) -> Result<
    Seq<RawTaskView>,
    FetchError,
> {
    match o {
        Ok(raw) => Ok(raw_views(raw@)),
        Err(e) => Err(e),
    }
}

/// The record explicitly substituted for an unparseable payload, so that the
/// failure is visible on the display instead of crashing the loop.
pub open spec fn placeholder_view() -> TaskView {
    TaskView { id: ""@, title: "FAKE TASK"@, category: None, rank: None }
}

/// Builds the placeholder record.
pub fn placeholder_task() -> (t: Task)
    ensures
        t@ == placeholder_view(),
{
    Task { id: "".to_owned(), title: "FAKE TASK".to_owned(), category: None, rank: None }
}

/// What one fetch cycle decides to install: a successful fetch replaces the
/// contents with the validated records (even when the list is empty); a
/// transport error installs nothing, deliberately retaining stale data; a
/// parse error explicitly substitutes the placeholder record.
pub open spec fn fetch_decision(outcome: Result<Seq<RawTaskView>, FetchError>) -> Option<
    Seq<TaskView>,
> {
    match outcome {
        Ok(raw) => Some(validated(raw)),
        Err(FetchError::Transport) => None,
        Err(FetchError::Parse) => Some(seq![placeholder_view()]),
    }
}

/// The store's contents after a fetch cycle with the given outcome.
pub open spec fn store_after_fetch(
    contents: Seq<TaskView>,
    outcome: Result<Seq<RawTaskView>, FetchError>,
) -> Seq<TaskView> {
    match fetch_decision(outcome) {
        Some(l) => l,
        None => contents,
    }
}

/// Law: a transport error leaves the store unchanged over the whole fetch
/// cycle — a snapshot before equals a snapshot after.
pub proof fn lemma_transport_error_preserves_store(contents: Seq<TaskView>)
    ensures
        store_after_fetch(contents, Err(FetchError::Transport)) == contents,
{
}

/// Turns one fetch outcome into the list to install, or nothing. The list a
/// successful fetch installs is the validated records; no record with a
/// missing title gets through.
pub fn plan_store_update(outcome: Result<Vec<RawTask>, FetchError>) -> (r: Option<Vec<Task>>)
    ensures
        match r {
            Some(v) => fetch_decision(outcome_view(outcome)) == Some(task_views(v@)),
            None => outcome matches Err(FetchError::Transport),
        },
{
    match outcome {
        Ok(raw) => {
            let v = crate::task::validate_tasks(raw);
            Some(v)
        },
        Err(FetchError::Transport) => None,
        Err(FetchError::Parse) => {
            let v = vec![placeholder_task()];
            proof {
                assert(task_views(v@) =~= seq![placeholder_view()]);
            }
            Some(v)
        },
    }
}

/// One fetch cycle against an exclusively owned store: afterwards the store
/// holds exactly what the decision for this outcome says, and on a transport
/// error it is exactly what it was before.
pub fn apply_fetch(store: &mut TaskStore, outcome: Result<Vec<RawTask>, FetchError>)
    ensures
        final(store)@ == store_after_fetch(old(store)@, outcome_view(outcome)),
{
    match plan_store_update(outcome) {
        Some(v) => store.replace(v),
        None => (),
    }
}

/// One fetch cycle against the shared store: on a transport error the store
/// is not touched at all; otherwise the decided list is installed whole. The
/// caller must have chosen a store invariant that the decided list satisfies.
pub fn fetch_cycle(store: &SharedTaskStore, outcome: Result<Vec<RawTask>, FetchError>)
    requires
        match fetch_decision(outcome_view(outcome)) {
            Some(l) => (store.inv())(l),
            None => true,
        },
{
    match plan_store_update(outcome) {
        Some(v) => store.replace(v),
        None => (),
    }
}

} // verus!
