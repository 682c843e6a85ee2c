use blind_host::app::{App, Schedule};
use blind_host::protocol::{GameConfig, GridCell, GridInput, Position, Tile, INPUT_KEY, KEY_ENTER, KEY_TAB, MOD_ALT};
use blind_host::tasks::{
    change_priority, mark_as_completed, new_task, query_by_id, tasks_with_status, NewTaskError, NewTaskRequest,
    NewTaskResult, QueryByIdResult, TaskDb,
};
use blind_host::todoapp::{Priority, Task as TodoTask, VarChar100};

fn request(title: &str, priority: i32) -> NewTaskRequest {
    NewTaskRequest { title: title.to_string(), priority, completed: false }
}

fn filled_db() -> TaskDb {
    let mut db = TaskDb::new();
    for (t, p) in [("write", 1), ("test", 2), ("ship", 3)] {
        match new_task(&mut db, request(t, p)) {
            NewTaskResult::Success(_) => {}
            NewTaskResult::Error(e) => panic!("{:?}", e),
        }
    }
    db
}

#[test]
fn new_task_assigns_increasing_ids() {
    let mut db = TaskDb::new();
    match new_task(&mut db, request("first", 5)) {
        NewTaskResult::Success(t) => {
            assert_eq!(t.id, 1);
            assert_eq!(t.title, "first");
            assert_eq!(t.priority, 5);
            assert!(!t.completed);
        }
        NewTaskResult::Error(e) => panic!("{:?}", e),
    }
    match new_task(&mut db, request("second", 1)) {
        NewTaskResult::Success(t) => assert_eq!(t.id, 2),
        NewTaskResult::Error(e) => panic!("{:?}", e),
    }
    assert_eq!(db.tasks.len(), 2);
}

#[test]
fn new_task_fails_when_ids_run_out() {
    let mut db = TaskDb::new();
    db.current_id = i32::MAX;
    match new_task(&mut db, request("late", 1)) {
        NewTaskResult::Error(e) => assert_eq!(e, NewTaskError::TaskAlreadyExists),
        NewTaskResult::Success(_) => panic!("id space is used up"),
    }
    assert!(db.tasks.is_empty());
}

#[test]
fn mark_and_list_by_status() {
    let mut db = filled_db();
    mark_as_completed(&mut db, 2);
    mark_as_completed(&mut db, 42);
    let done = tasks_with_status(&db, true);
    let pending = tasks_with_status(&db, false);
    assert_eq!(done.iter().map(|t| t.id).collect::<Vec<_>>(), vec![2]);
    assert_eq!(pending.iter().map(|t| t.id).collect::<Vec<_>>(), vec![1, 3]);
    assert_eq!(done[0].title, "test");
}

#[test]
fn change_priority_of_one_task() {
    let mut db = filled_db();
    change_priority(&mut db, 3, 9);
    let p: Vec<i32> = db.tasks.iter().map(|t| t.priority).collect();
    assert_eq!(p, vec![1, 2, 9]);
}

#[test]
fn query_by_id_found_and_missing() {
    let db = filled_db();
    match query_by_id(&db, 2) {
        QueryByIdResult::Success(t) => {
            assert_eq!(t.id, 2);
            assert_eq!(t.title, "test");
        }
        QueryByIdResult::NotFoundError => panic!("task 2 exists"),
    }
    assert!(matches!(query_by_id(&db, 7), QueryByIdResult::NotFoundError));
}

fn sys_a() {}
fn sys_b() {}

#[test]
fn app_keeps_systems_per_schedule() {
    let mut app: App<fn()> = App::new();
    assert!(app.startup.is_empty() && app.update.is_empty());
    app.add_systems(Schedule::Startup, sys_a);
    app.add_systems(Schedule::Update, sys_b);
    app.add_systems(Schedule::Update, sys_a);
    assert_eq!(app.startup.len(), 1);
    assert_eq!(app.update.len(), 2);
    assert!(app.update[0] as usize == sys_b as usize);
    for s in &app.update {
        s();
    }
}

#[test]
fn protocol_values() {
    let p = Position { x: 3, y: -1 };
    let t = Tile { is_mine: 1, adj_count: 2, status: 0 };
    let c = GameConfig::default();
    assert_eq!((p.x, p.y, t.adj_count), (3, -1, 2));
    assert_eq!((c.width, c.height, c.mine_count), (0, 0, 0));
    let input = GridInput { input_type: INPUT_KEY, key_code: KEY_ENTER, modifiers: MOD_ALT, padding: [0; 3] };
    assert_eq!(input.key_code, 0x110000);
    assert_eq!(KEY_TAB, 0x110008);
    assert_eq!(GridCell::default().character, 0);
}

#[test]
fn todo_records() {
    let t = TodoTask { title: VarChar100([b'a'; 100]), id: 7, pending: true, priority: Priority::Urgent };
    assert_eq!(t.priority, Priority::Urgent);
    assert_eq!(t.title.0[99], b'a');
    assert!(t.pending && t.id == 7);
}
