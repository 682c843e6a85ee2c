//! The task application that runs as a guest: its request and result
//! messages, and the task store behind them.
use vstd::prelude::*;

verus! {

/// One task of the store.
#[derive(Debug)]
pub struct Task {
    pub id: i32,
    pub title: String,
    pub priority: i32,
    pub completed: bool,
}

/// Why a task could not be created.
#[derive(Debug, Clone, Copy, PartialEq, Eq, Structural)]
pub enum NewTaskError {
    TaskAlreadyExists,
}

/// Answer to a creation request.
#[derive(Debug)]
pub enum NewTaskResult {
    Success(Task),
    Error(NewTaskError),
}

/// A request to create a task; the store picks its id.
#[derive(Debug)]
pub struct NewTaskRequest {
    pub title: String,
    pub priority: i32,
    pub completed: bool,
}

/// Answer to a lookup by id.
#[derive(Debug)]
pub enum QueryByIdResult {
    Success(Task),
    NotFoundError,
}

/// The tasks in creation order, and the last id handed out.
pub struct TaskDb {
    pub tasks: Vec<Task>,
    pub current_id: i32,
}

/// Whether `a` and `b` hold the same values.
pub open spec fn same_task(a: Task, b: Task) -> bool {
    a.id == b.id && a.title@ == b.title@ && a.priority == b.priority && a.completed == b.completed
}

/// The tasks of `s` whose completion flag is `completed`, in order.
pub open spec fn with_status(s: Seq<Task>, completed: bool) -> Seq<Task>
    decreases s.len(),
{
    if s.len() == 0 {
        Seq::empty()
    } else if s.last().completed == completed {
        with_status(s.drop_last(), completed).push(s.last())
    } else {
        with_status(s.drop_last(), completed)
    }
}

/// A copy of `t`.
pub fn copy_task(t: &Task) -> (r: Task)
    ensures
        same_task(r, *t),
{
    Task { id: t.id, title: t.title.clone(), priority: t.priority, completed: t.completed }
}

impl TaskDb {
    /// Ids are positive, distinct, increasing in creation order, and none passes `current_id`.
    pub open spec fn wf(&self) -> bool {
        &&& self.current_id >= 0
        &&& forall|i: int| 0 <= i < self.tasks@.len() ==> 0 < (#[trigger] self.tasks@[i]).id <= self.current_id
        &&& forall|i: int, j: int| 0 <= i < j < self.tasks@.len() ==> (#[trigger] self.tasks@[i]).id < (#[trigger] self.tasks@[j]).id
    }

    /// An empty store.
    pub fn new() -> (r: Self)
        ensures
            r.wf(),
            r.tasks@.len() == 0,
            r.current_id == 0,
    {
        TaskDb { tasks: Vec::new(), current_id: 0 }
    }
}

/// Stores a new task under the next id and returns it; fails with
/// `TaskAlreadyExists` when the id space is used up.
pub fn new_task(db: &mut TaskDb, request: NewTaskRequest) -> (r: NewTaskResult)
    requires
        old(db).wf(),
    ensures
        final(db).wf(),
        old(db).current_id == i32::MAX ==> r is Error && final(db).tasks@ == old(db).tasks@
            && final(db).current_id == old(db).current_id,
        old(db).current_id < i32::MAX ==> {
            &&& final(db).current_id == old(db).current_id + 1
            &&& final(db).tasks@.len() == old(db).tasks@.len() + 1
            &&& final(db).tasks@.drop_last() == old(db).tasks@
            &&& final(db).tasks@.last().id == final(db).current_id
            &&& final(db).tasks@.last().title@ == request.title@
            &&& final(db).tasks@.last().priority == request.priority
            &&& final(db).tasks@.last().completed == request.completed
            &&& match r {
                NewTaskResult::Success(t) => same_task(t, final(db).tasks@.last()),
                NewTaskResult::Error(_) => false,
            }
        },
{
    if db.current_id == i32::MAX {
        return NewTaskResult::Error(NewTaskError::TaskAlreadyExists);
    }
    db.current_id = db.current_id + 1;
    let task = Task { id: db.current_id, title: request.title, priority: request.priority, completed: request.completed };
    let answer = copy_task(&task);
    db.tasks.push(task);
    assert(db.tasks@.drop_last() =~= old(db).tasks@);
    NewTaskResult::Success(answer)
}

/// Marks the task with id `task_id` as completed; no other task changes.
pub fn mark_as_completed(db: &mut TaskDb, task_id: i32)
    requires
        old(db).wf(),
    ensures
        final(db).wf(),
        final(db).current_id == old(db).current_id,
        final(db).tasks@.len() == old(db).tasks@.len(),
        forall|i: int| 0 <= i < old(db).tasks@.len() ==> {
            let (a, b) = (#[trigger] final(db).tasks@[i], old(db).tasks@[i]);
            &&& a.id == b.id
            &&& a.title == b.title
            &&& a.priority == b.priority
            &&& a.completed == (b.completed || b.id == task_id)
        },
{
    let mut i: usize = 0;
    while i < db.tasks.len()
        invariant
            0 <= i <= db.tasks@.len(),
            db.tasks@.len() == old(db).tasks@.len(),
            db.current_id == old(db).current_id,
            old(db).wf(),
            forall|j: int| 0 <= j < db.tasks@.len() ==> {
                let (a, b) = (#[trigger] db.tasks@[j], old(db).tasks@[j]);
                &&& a.id == b.id
                &&& a.title == b.title
                &&& a.priority == b.priority
                &&& a.completed == if j < i { b.completed || b.id == task_id } else { b.completed }
            },
        decreases db.tasks@.len() - i,
    {
        if db.tasks[i].id == task_id {
            db.tasks[i].completed = true;
        }
        i = i + 1;
    }
}

/// Sets the priority of the task with id `task_id`; no other task changes.
pub fn change_priority(db: &mut TaskDb, task_id: i32, new_priority: i32)
    requires
        old(db).wf(),
    ensures
        final(db).wf(),
        final(db).current_id == old(db).current_id,
        final(db).tasks@.len() == old(db).tasks@.len(),
        forall|i: int| 0 <= i < old(db).tasks@.len() ==> {
            let (a, b) = (#[trigger] final(db).tasks@[i], old(db).tasks@[i]);
            &&& a.id == b.id
            &&& a.title == b.title
            &&& a.completed == b.completed
            &&& a.priority == if b.id == task_id { new_priority } else { b.priority }
        },
{
    let mut i: usize = 0;
    while i < db.tasks.len()
        invariant
            0 <= i <= db.tasks@.len(),
            db.tasks@.len() == old(db).tasks@.len(),
            db.current_id == old(db).current_id,
            old(db).wf(),
            forall|j: int| 0 <= j < db.tasks@.len() ==> {
                let (a, b) = (#[trigger] db.tasks@[j], old(db).tasks@[j]);
                &&& a.id == b.id
                &&& a.title == b.title
                &&& a.completed == b.completed
                &&& a.priority == if j < i && b.id == task_id { new_priority } else { b.priority }
            },
        decreases db.tasks@.len() - i,
    {
        if db.tasks[i].id == task_id {
            db.tasks[i].priority = new_priority;
        }
        i = i + 1;
    }
}

/// The task with id `task_id`, or `NotFoundError`.
pub fn query_by_id(db: &TaskDb, task_id: i32) -> (r: QueryByIdResult)
    ensures
        match r {
            QueryByIdResult::Success(t) => exists|i: int| 0 <= i < db.tasks@.len()
                && (#[trigger] db.tasks@[i]).id == task_id && same_task(t, db.tasks@[i]),
            QueryByIdResult::NotFoundError => forall|i: int| 0 <= i < db.tasks@.len() ==> (#[trigger] db.tasks@[i]).id != task_id,
        },
{
    let mut i: usize = 0;
    while i < db.tasks.len()
        invariant
            0 <= i <= db.tasks@.len(),
            forall|j: int| 0 <= j < i ==> (#[trigger] db.tasks@[j]).id != task_id,
        decreases db.tasks@.len() - i,
    {
        if db.tasks[i].id == task_id {
            let t = copy_task(&db.tasks[i]);
            assert(same_task(t, db.tasks@[i as int]));
            return QueryByIdResult::Success(t);
        }
        i = i + 1;
    }
    QueryByIdResult::NotFoundError
}

/// Copies of the tasks whose completion flag is `completed`, in store order.
pub fn tasks_with_status(db: &TaskDb, completed: bool) -> (r: Vec<Task>)
    ensures
        r@.len() == with_status(db.tasks@, completed).len(),
        forall|k: int| 0 <= k < r@.len() ==> #[trigger] same_task(r@[k], with_status(db.tasks@, completed)[k]),
{
    let mut out: Vec<Task> = Vec::new();
    let mut i: usize = 0;
    while i < db.tasks.len()
        invariant
            0 <= i <= db.tasks@.len(),
            out@.len() == with_status(db.tasks@.subrange(0, i as int), completed).len(),
            forall|k: int| 0 <= k < out@.len() ==> #[trigger] same_task(out@[k], with_status(db.tasks@.subrange(0, i as int), completed)[k]),
        decreases db.tasks@.len() - i,
    {
        proof {
            let s = db.tasks@.subrange(0, i as int + 1);
            assert(s.drop_last() =~= db.tasks@.subrange(0, i as int));
            assert(s.last() == db.tasks@[i as int]);
        }
        if db.tasks[i].completed == completed {
            out.push(copy_task(&db.tasks[i]));
        }
        i = i + 1;
    }
    assert(db.tasks@.subrange(0, db.tasks@.len() as int) =~= db.tasks@);
    out
}

} // verus!
