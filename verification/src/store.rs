//! The shared task store: the single hand-off point between the fetch loop
//! and the render loop. The contents are an ordered task list; a writer
//! installs a whole list at a time and a reader takes a whole copy at a time,
//! so no observer ever sees a partially updated sequence.

use vstd::prelude::*;
use vstd::rwlock::{RwLock, RwLockPredicate};

use crate::task::{task_views, Task, TaskView};

verus! {

/// The store's contents under exclusive ownership, with copy-in / copy-out
/// access. [`SharedTaskStore`] puts one of these behind a lock.
pub struct TaskStore {
    tasks: Vec<Task>,
}

impl View for TaskStore {
    type V = Seq<TaskView>;

    closed spec fn view(&self) -> Seq<TaskView> {
        task_views(self.tasks@)
    }
}

impl TaskStore {
    /// An empty store.
    pub fn new() -> (s: TaskStore)
        ensures
            s@ === Seq::<TaskView>::empty(),
    {
        let s = TaskStore { tasks: Vec::new() };
        proof {
            assert(s@ =~= Seq::<TaskView>::empty());
        }
        s
    }

    /// Discards the previous sequence and installs the new one whole.
    pub fn replace(&mut self, tasks: Vec<Task>)
        ensures
            final(self)@ == task_views(tasks@),
    {
        self.tasks = tasks;
    }

    /// An independent copy of the current sequence, not a live view.
    pub fn snapshot(&self) -> (v: Vec<Task>)
        ensures
            task_views(v@) == self@,
    {
        let mut v: Vec<Task> = Vec::new();
        let mut i: usize = 0;
        while i < self.tasks.len()
            invariant
                i <= self.tasks.len(),
                v@.len() == i,
                forall|k: int| 0 <= k < i ==> #[trigger] v@[k]@ == self@[k],
            decreases self.tasks.len() - i,
        {
            let t = self.tasks[i].clone();
            proof {
                assert(self@[i as int] == self.tasks@[i as int]@);
            }
            v.push(t);
            i = i + 1;
        }
        proof {
            assert forall|k: int| 0 <= k < v@.len() implies #[trigger] task_views(v@)[k]
                == self@[k] by {
                assert(task_views(v@)[k] == v@[k]@);
            }
            assert(task_views(v@) =~= self@);
        }
        v
    }

    /// How many tasks the store holds.
    pub fn len(&self) -> (n: usize)
        ensures
            n == self@.len(),
    {
        self.tasks.len()
    }
}

/// The invariant a [`SharedTaskStore`] maintains: a property of the contents,
/// chosen once at construction, that every installed list satisfies and that
/// every snapshot is therefore guaranteed to satisfy.
pub struct StoreInv {
    pub holds: spec_fn(Seq<TaskView>) -> bool,
}

impl RwLockPredicate<TaskStore> for StoreInv {
    open spec fn inv(self, v: TaskStore) -> bool {
        (self.holds)(v@)
    }
}

/// The mutex-guarded task list both loops share. Writers and readers block on
/// the lock; each holds it only for the duration of a whole-list exchange, so
/// every observed sequence is one complete installed list.
pub struct SharedTaskStore {
    lock: RwLock<TaskStore, StoreInv>,
}

impl SharedTaskStore {
    /// The content property fixed at construction.
    pub closed spec fn inv(&self) -> spec_fn(Seq<TaskView>) -> bool {
        self.lock.pred().holds
    }

    /// Creates the store with its initial contents, accepting any later
    /// contents: the invariant is trivially true.
    pub fn new(init: Vec<Task>) -> (s: SharedTaskStore)
        ensures
            forall|l: Seq<TaskView>| #[trigger] (s.inv())(l),
    {
        SharedTaskStore::with_invariant(init, Ghost(|l: Seq<TaskView>| true))
    }

    /// Creates the store with its initial contents and the invariant every
    /// later replacement must re-establish.
    pub fn with_invariant(init: Vec<Task>, Ghost(inv): Ghost<spec_fn(Seq<TaskView>) -> bool>) -> (s:
        SharedTaskStore)
        requires
            inv(task_views(init@)),
        ensures
            s.inv() == inv,
    {
        SharedTaskStore { lock: RwLock::new(TaskStore { tasks: init }, Ghost(StoreInv { holds: inv })) }
    }

    /// Acquires the lock, discards the previous sequence, installs the new
    /// one whole, and releases the lock. Atomic with respect to readers: the
    /// lock hands the next complete value in; no reader can observe a
    /// partially updated sequence.
    pub fn replace(&self, tasks: Vec<Task>)
        requires
            (self.inv())(task_views(tasks@)),
    {
        let (store, handle) = self.lock.acquire_write();
        let mut store = store;
        store.replace(tasks);
        handle.release_write(store);
    }

    /// Acquires the lock, takes an independent copy of the current sequence,
    /// and releases the lock; it blocks no longer than the copy takes. The
    /// copy satisfies the invariant every completed replacement established.
    pub fn snapshot(&self) -> (v: Vec<Task>)
        ensures
            (self.inv())(task_views(v@)),
    {
        let handle = self.lock.acquire_read();
        let v = handle.borrow().snapshot();
        handle.release_read();
        v
    }
}

/// One completed operation on the store, as an interleaving of the two loops
/// orders them: a replacement installing one whole list, or a snapshot.
pub enum StoreOp {
    Replace(Seq<TaskView>),
    Snapshot,
}

/// The store's contents after a sequence of completed operations: the
/// argument of the latest replacement, or the initial contents when none has
/// happened. Snapshots do not change the contents.
pub open spec fn contents_after(init: Seq<TaskView>, ops: Seq<StoreOp>) -> Seq<TaskView>
    decreases ops.len(),
{
    if ops.len() == 0 {
        init
    } else {
        match ops.last() {
            StoreOp::Replace(l) => l,
            StoreOp::Snapshot => contents_after(init, ops.drop_last()),
        }
    }
}

/// Law: no torn reads. In any interleaving of completed operations, the
/// contents any snapshot observes are exactly the initial contents or exactly
/// the whole list installed by one single earlier replacement — never a
/// mixture, so in particular never a length no single replacement installed.
pub proof fn lemma_no_torn_reads(init: Seq<TaskView>, ops: Seq<StoreOp>, i: int)
    requires
        0 <= i <= ops.len(),
    ensures
        contents_after(init, ops.take(i)) == init || exists|j: int|
            0 <= j < i && (#[trigger] ops[j] matches StoreOp::Replace(l) && contents_after(
                init,
                ops.take(i),
            ) == l),
    decreases i,
{
    let pre = ops.take(i);
    if i == 0 {
        assert(pre.len() == 0);
    } else {
        match pre.last() {
            StoreOp::Replace(l) => {
                assert(ops[i - 1] matches StoreOp::Replace(m) && contents_after(init, pre) == m);
            },
            StoreOp::Snapshot => {
                assert(pre.drop_last() =~= ops.take(i - 1));
                lemma_no_torn_reads(init, ops, i - 1);
            },
        }
    }
}

} // verus!
