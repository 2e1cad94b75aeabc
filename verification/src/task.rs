//! Task records, validation of raw fetch results, and the list-equality rule
//! that decides when the display is repainted.

use vstd::prelude::*;

verus! {

/// Ghost image of a task: each field as a mathematical value.
pub struct TaskView {
    pub id: Seq<char>,
    pub title: Seq<char>,
    pub category: Option<Seq<char>>,
    pub rank: Option<i64>,
}

/// A to-do entry as the renderer consumes it. The title is always present:
/// validation of raw fetch results guarantees it before a record may reach
/// the shared store.
pub struct Task {
    pub id: String,
    pub title: String,
    pub category: Option<String>,
    pub rank: Option<i64>,
}

/// Ghost image of a raw record, title possibly missing.
pub struct RawTaskView {
    pub id: Seq<char>,
    pub title: Option<Seq<char>>,
    pub category: Option<Seq<char>>,
    pub rank: Option<i64>,
}

/// A to-do entry as the task source hands it over: the title may be missing,
/// which makes the record invalid for display.
pub struct RawTask {
    pub id: String,
    pub title: Option<String>,
    pub category: Option<String>,
    pub rank: Option<i64>,
}

impl View for Task {
    type V = TaskView;

    open spec fn view(&self) -> TaskView {
        TaskView {
            id: self.id@,
            title: self.title@,
            category: match self.category {
                Some(c) => Some(c@),
                None => None,
            },
            rank: self.rank,
        }
    }
}

impl View for RawTask {
    type V = RawTaskView;

    open spec fn view(&self) -> RawTaskView {
        RawTaskView {
            id: self.id@,
            title: match self.title {
                Some(t) => Some(t@),
                None => None,
            },
            category: match self.category {
                Some(c) => Some(c@),
                None => None,
            },
            rank: self.rank,
        }
    }
}

/// The images of a whole list of tasks.
pub open spec fn task_views(s: Seq<Task>) -> Seq<TaskView> {
    s.map_values(|t: Task| t@)
}

/// The images of a whole list of raw records.
pub open spec fn raw_views(s: Seq<RawTask>) -> Seq<RawTaskView> {
    s.map_values(|r: RawTask| r@)
}

impl Task {
    /// Builds a task from its parts.
    pub fn new(id: String, title: String, category: Option<String>, rank: Option<i64>) -> (t: Task)
        ensures
            t@ == (TaskView {
                id: id@,
                title: title@,
                category: match category {
                    Some(c) => Some(c@),
                    None => None,
                },
                rank: rank,
            }),
    {
        Task { id, title, category, rank }
    }
}

impl Clone for Task {
    /// A full, independent copy: every field carries over.
    fn clone(&self) -> (res: Task)
        ensures
            res@ == self@,
    {
        Task {
            id: self.id.clone(),
            title: self.title.clone(),
            category: match &self.category {
                Some(c) => Some(c.clone()),
                None => None,
            },
            rank: self.rank,
        }
    }
}

impl PartialEq for Task {
    /// Change detection compares titles only; the category deliberately does
    /// not participate in task equality.
    fn eq(&self, other: &Task) -> (r: bool) {
        self.title == other.title
    }
}

impl vstd::std_specs::cmp::PartialEqSpecImpl for Task {
    open spec fn obeys_eq_spec() -> bool {
        true
    }

    open spec fn eq_spec(&self, other: &Task) -> bool {
        self.title@ == other.title@
    }
}

/// A raw record is displayable only when its required title is present.
pub open spec fn raw_is_valid(r: RawTaskView) -> bool {
    r.title is Some
}

/// The task a valid raw record turns into.
pub open spec fn task_of_raw(r: RawTaskView) -> TaskView
    recommends
        raw_is_valid(r),
{
    TaskView { id: r.id, title: r.title->Some_0, category: r.category, rank: r.rank }
}

/// Validation keeps the valid records, in order, and converts each; records
/// with a missing title are dropped.
pub open spec fn validated(rs: Seq<RawTaskView>) -> Seq<TaskView>
    decreases rs.len(),
{
    if rs.len() == 0 {
        Seq::empty()
    } else {
        let rest = validated(rs.drop_last());
        if raw_is_valid(rs.last()) {
            rest.push(task_of_raw(rs.last()))
        } else {
            rest
        }
    }
}

/// Drops every record with a missing title and converts the rest, preserving
/// the source order; no invalid record can reach the renderer through this.
pub fn validate_tasks(raw: Vec<RawTask>) -> (v: Vec<Task>)
    ensures
        task_views(v@) == validated(raw_views(raw@)),
{
    let ghost all = raw_views(raw@);
    let mut v: Vec<Task> = Vec::new();
    let mut i: usize = 0;
    while i < raw.len()
        invariant
            i <= raw.len(),
            all == raw_views(raw@),
            task_views(v@) == validated(all.take(i as int)),
        decreases raw.len() - i,
    {
        let r = &raw[i];
        proof {
            assert(all.take(i + 1).drop_last() =~= all.take(i as int));
            assert(all.take(i + 1).last() == r@);
        }
        match &r.title {
            Some(title) => {
                let t = Task {
                    id: r.id.clone(),
                    title: title.clone(),
                    category: match &r.category {
                        Some(c) => Some(c.clone()),
                        None => None,
                    },
                    rank: r.rank,
                };
                proof {
                    assert(t@ == task_of_raw(r@));
                }
                v.push(t);
                proof {
                    assert(task_views(v@) =~= validated(all.take(i + 1)));
                }
            },
            None => {
                proof {
                    assert(task_views(v@) =~= validated(all.take(i + 1)));
                }
            },
        }
        i = i + 1;
    }
    proof {
        assert(all.take(raw@.len() as int) =~= all);
    }
    v
}

/// The list-equality rule for change detection: same length and pairwise
/// equal titles. Categories and ranks deliberately do not participate.
pub open spec fn lists_equal(a: Seq<TaskView>, b: Seq<TaskView>) -> bool {
    &&& a.len() == b.len()
    &&& forall|i: int| 0 <= i < a.len() ==> a[i].title == b[i].title
}

/// Decides the list-equality rule on two concrete task lists.
pub fn tasks_equal(a: &Vec<Task>, b: &Vec<Task>) -> (r: bool)
    ensures
        r == lists_equal(task_views(a@), task_views(b@)),
{
    if a.len() != b.len() {
        return false;
    }
    let mut i: usize = 0;
    while i < a.len()
        invariant
            i <= a.len(),
            a@.len() == b@.len(),
            forall|j: int| 0 <= j < i ==> task_views(a@)[j].title == task_views(b@)[j].title,
        decreases a.len() - i,
    {
        if a[i].title != b[i].title {
            proof {
                assert(task_views(a@)[i as int].title != task_views(b@)[i as int].title);
            }
            return false;
        }
        i = i + 1;
    }
    true
}

/// The one line of text a task shows: `"<category>: <title>"` when a
/// category is present, else the bare title.
pub open spec fn line_of(t: TaskView) -> Seq<char> {
    match t.category {
        Some(c) => c + ": "@ + t.title,
        None => t.title,
    }
}

/// Formats the display line of one task.
pub fn display_line(t: &Task) -> (s: String)
    ensures
        s@ == line_of(t@),
{
    match &t.category {
        Some(c) => {
            let mut s = c.clone();
            s.append(": ");
            s.append(t.title.as_str());
            s
        },
        None => t.title.clone(),
    }
}

} // verus!
