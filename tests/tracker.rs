use task_tracker_lib::codec::encode;
use task_tracker_lib::{
    Date, DateTime, Task, TaskStatus, TaskTracker, TaskTrackerCreationError, TaskTrackerMode,
    TaskTrackerOutcome, Time, CLI,
};

fn dt(year: u16, month: u8, day: u8, hour: u8, minute: u8, second: u8) -> DateTime {
    DateTime::new(Date::new(year, month, day), Time::new(hour, minute, second))
}

fn cli(args: &[&str]) -> CLI {
    let mut v = vec!["task-cli".to_string()];
    for a in args {
        v.push(a.to_string());
    }
    CLI::new(v).ok().unwrap()
}

fn stored(ids_and_statuses: &[(u32, TaskStatus)]) -> String {
    let t0 = dt(2024, 1, 1, 0, 0, 0);
    let mut v = Vec::new();
    for (id, st) in ids_and_statuses {
        v.push((*id, Task::load(&format!("task {}", id), st, &t0, &t0)));
    }
    encode(&v)
}

fn tracker(args: &[&str], text: &str) -> TaskTracker {
    TaskTracker::new(cli(args), text, dt(2030, 1, 1, 0, 0, 0)).ok().unwrap()
}

#[test]
fn next_id_fills_the_first_gap() {
    let mut t = tracker(&["list"], &stored(&[(0, TaskStatus::ToDo), (1, TaskStatus::ToDo), (3, TaskStatus::ToDo)]));
    t.set_next_id();
    assert_eq!(t.next_id(), 2);
    let mut t = tracker(&["list"], "");
    t.set_next_id();
    assert_eq!(t.next_id(), 0);
    let mut t = tracker(&["list"], &stored(&[(2, TaskStatus::ToDo), (0, TaskStatus::ToDo), (1, TaskStatus::ToDo)]));
    t.set_next_id();
    assert_eq!(t.next_id(), 3);
}

#[test]
fn add_to_empty_store() {
    let now = dt(2024, 5, 6, 7, 8, 9);
    let mut t = tracker(&["add", "buy milk"], "");
    match t.start(now) {
        Ok(TaskTrackerOutcome::Added(id)) => assert_eq!(id, 0),
        _ => panic!("add failed"),
    }
    let task = t.task(0).unwrap();
    assert_eq!(task.description(), "buy milk");
    assert_eq!(*task.status(), TaskStatus::ToDo);
    assert_eq!(task.created_at(), task.updated_at());
    assert_eq!(*task.created_at(), now);
    assert!(t.task(1).is_none());
}

#[test]
fn mark_done_stamps_a_later_update() {
    let text = stored(&[(5, TaskStatus::ToDo)]);
    let mut t = tracker(&["mark-done", "5"], &text);
    let before = *t.task(5).unwrap().updated_at();
    let now = dt(2024, 6, 1, 12, 0, 0);
    assert!(matches!(t.start(now), Ok(TaskTrackerOutcome::Changed)));
    let task = t.task(5).unwrap();
    assert_eq!(*task.status(), TaskStatus::Done);
    assert!(task.updated_at().to_unix_seconds() > before.to_unix_seconds());
    assert_eq!(task.description(), "task 5");
}

#[test]
fn mark_done_of_absent_id_fails_and_changes_nothing() {
    let text = stored(&[(5, TaskStatus::ToDo)]);
    let mut t = tracker(&["mark-done", "99"], &text);
    match t.start(dt(2024, 6, 1, 12, 0, 0)) {
        Err(e) => assert_eq!(e.0, "No task with ID 99 found"),
        Ok(_) => panic!("marked an absent task"),
    }
    assert_eq!(t.tasks_text(), text);
}

#[test]
fn list_by_status_gives_exactly_the_matching_tasks() {
    let text = stored(&[
        (0, TaskStatus::ToDo),
        (1, TaskStatus::InProgress),
        (2, TaskStatus::Done),
        (3, TaskStatus::InProgress),
    ]);
    let mut t = tracker(&["list", "in-progress"], &text);
    match t.start(dt(2024, 6, 1, 12, 0, 0)) {
        Ok(TaskTrackerOutcome::Listed(ids)) => assert_eq!(ids, vec![1, 3]),
        _ => panic!("list failed"),
    }
    let t = tracker(&["list"], &text);
    assert_eq!(t.list_tasks(None), vec![0, 1, 2, 3]);
    assert_eq!(t.list_tasks(Some(TaskStatus::Done)), vec![2]);
    assert_eq!(t.list_tasks(Some(TaskStatus::ToDo)), vec![0]);
}

#[test]
fn list_with_unknown_status_filters_by_todo() {
    let text = stored(&[(0, TaskStatus::ToDo), (1, TaskStatus::Done)]);
    let mut t = tracker(&["list", "whatever"], &text);
    match t.start(dt(2024, 6, 1, 12, 0, 0)) {
        Ok(TaskTrackerOutcome::Listed(ids)) => assert_eq!(ids, vec![0]),
        _ => panic!("list failed"),
    }
}

#[test]
fn delete_of_absent_id_changes_nothing() {
    let text = stored(&[(0, TaskStatus::ToDo), (2, TaskStatus::Done)]);
    let mut t = tracker(&["delete", "1"], &text);
    assert!(matches!(t.start(dt(2024, 6, 1, 12, 0, 0)), Ok(TaskTrackerOutcome::Changed)));
    assert_eq!(t.tasks_text(), text);
}

#[test]
fn delete_removes_the_task() {
    let text = stored(&[(0, TaskStatus::ToDo), (2, TaskStatus::Done)]);
    let mut t = tracker(&["delete", "2"], &text);
    assert!(matches!(t.start(dt(2024, 6, 1, 12, 0, 0)), Ok(TaskTrackerOutcome::Changed)));
    assert!(t.task(2).is_none());
    assert!(t.task(0).is_some());
}

#[test]
fn update_replaces_the_description() {
    let text = stored(&[(0, TaskStatus::InProgress)]);
    let now = dt(2024, 6, 1, 12, 0, 0);
    let mut t = tracker(&["update", "0", "walk the dog"], &text);
    assert!(matches!(t.start(now), Ok(TaskTrackerOutcome::Changed)));
    let task = t.task(0).unwrap();
    assert_eq!(task.description(), "walk the dog");
    assert_eq!(*task.status(), TaskStatus::InProgress);
    assert_eq!(*task.updated_at(), now);
    assert_eq!(*task.created_at(), dt(2024, 1, 1, 0, 0, 0));
    let mut t = tracker(&["update", "7", "x"], &text);
    assert!(t.start(now).is_err());
}

#[test]
fn mark_in_progress_and_non_numeric_id() {
    let text = stored(&[(0, TaskStatus::ToDo)]);
    let mut t = tracker(&["mark-in-progress", "abc"], &text);
    assert!(matches!(t.start(dt(2024, 6, 1, 12, 0, 0)), Ok(TaskTrackerOutcome::Changed)));
    assert_eq!(*t.task(0).unwrap().status(), TaskStatus::InProgress);
}

#[test]
fn unknown_mode_refuses_to_build_a_tracker() {
    match TaskTracker::new(cli(&["frobnicate"]), "", dt(2030, 1, 1, 0, 0, 0)) {
        Err(TaskTrackerCreationError::TaskTrackerModeParseError(e)) => assert_eq!(e.0, "frobnicate"),
        _ => panic!("accepted an unknown mode"),
    }
    assert_eq!(tracker(&["LIST"], "").mode(), TaskTrackerMode::List);
}

#[test]
fn operands_are_checked_per_mode() {
    assert!(!tracker(&["add"], "").has_operands());
    assert!(tracker(&["add", "x"], "").has_operands());
    assert!(!tracker(&["update", "1"], "").has_operands());
    assert!(tracker(&["list"], "").has_operands());
}

#[test]
fn task_new_stamps_both_times_alike() {
    let t = Task::new("x");
    assert_eq!(t.created_at(), t.updated_at());
    assert_eq!(*t.status(), TaskStatus::ToDo);
    let mut t = Task::new_at("y", dt(2024, 1, 1, 0, 0, 0));
    t.set_status_at(TaskStatus::Done, dt(2024, 1, 2, 0, 0, 0));
    assert_eq!(*t.updated_at(), dt(2024, 1, 2, 0, 0, 0));
    t.set_description_at("z", dt(2024, 1, 3, 0, 0, 0));
    assert_eq!(t.description(), "z");
    assert_eq!(*t.created_at(), dt(2024, 1, 1, 0, 0, 0));
}
