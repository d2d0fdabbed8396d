use task_tree::date::Date;
use task_tree::model::{NewTask, SubTask, Task, TaskDetailManager};

fn task(id: i64, title: &str) -> Task {
    Task {
        id,
        title: title.to_string(),
        description: None,
        follow_up_date: None,
        last_update: Date::from_ymd(2024, 5, 1),
        completed: false,
    }
}

fn sub(id: i64, task_id: i64, description: &str) -> SubTask {
    SubTask { id, task_id, description: description.to_string(), completed: false }
}

fn ids(m: &TaskDetailManager) -> Vec<(i64, Vec<i64>)> {
    m.list.iter().map(|d| (d.task.id, d.subtasks.iter().map(|s| s.id).collect())).collect()
}

#[test]
fn build_groups_subtasks_under_their_tasks() {
    let tasks = vec![task(1, "a"), task(2, "b"), task(3, "c")];
    let subs = vec![sub(10, 2, "x"), sub(11, 1, "y"), sub(12, 2, "z"), sub(13, 9, "orphan")];
    let m = TaskDetailManager::build_task_details(tasks, subs);
    assert_eq!(ids(&m), vec![(1, vec![11]), (2, vec![10, 12]), (3, vec![])]);
    assert_eq!(m.list[1].subtasks[1].description, "z");
}

#[test]
fn build_from_nothing_is_empty() {
    let m = TaskDetailManager::build_task_details(Vec::new(), vec![sub(1, 1, "x")]);
    assert!(m.list.is_empty());
}

#[test]
fn build_gives_a_repeated_task_id_its_subtasks_once() {
    let m = TaskDetailManager::build_task_details(vec![task(4, "a"), task(4, "b")], vec![sub(1, 4, "x")]);
    assert_eq!(ids(&m), vec![(4, vec![1]), (4, vec![])]);
}

#[test]
fn buy_milk_scenario() {
    let mut m = TaskDetailManager::build_task_details(Vec::new(), Vec::new());
    m.add_task(task(1, "Buy milk"));
    m.add_subtask(sub(1, 1, "2% milk"));
    m.add_subtask(sub(2, 1, "Oat milk"));
    assert_eq!(m.find_subtask(1, 1), Some((0, 0)));
    m.remove_subtask(1, 1);
    assert_eq!(m.list.len(), 1);
    assert_eq!(m.list[0].task.title, "Buy milk");
    assert_eq!(m.list[0].subtasks.len(), 1);
    assert_eq!(m.list[0].subtasks[0].description, "Oat milk");
}

#[test]
fn plan_trip_scenario() {
    let mut m = TaskDetailManager::build_task_details(vec![task(7, "Plan trip")], Vec::new());
    assert_eq!(m.find_task(7), Some(0));
    m.complete_task(7);
    assert!(m.list.is_empty());
    assert_eq!(m.find_task(7), None);
}

#[test]
fn completing_a_task_twice_changes_nothing_more() {
    let mut m = TaskDetailManager::build_task_details(
        vec![task(1, "a"), task(2, "b")],
        vec![sub(5, 1, "x"), sub(6, 2, "y")],
    );
    m.complete_task(1);
    assert_eq!(ids(&m), vec![(2, vec![6])]);
    assert_eq!(m.find_task(1), None);
    m.complete_task(1);
    assert_eq!(ids(&m), vec![(2, vec![6])]);
}

#[test]
fn unknown_ids_leave_the_tree_alone() {
    let mut m = TaskDetailManager::build_task_details(vec![task(1, "a")], vec![sub(5, 1, "x")]);
    assert_eq!(m.find_task(9), None);
    assert_eq!(m.find_subtask(9, 5), None);
    assert_eq!(m.find_subtask(1, 6), None);
    m.remove_subtask(9, 5);
    m.remove_task(9);
    m.edit_subtask_description(9, 5, "new");
    m.edit_subtask_description(1, 6, "new");
    m.edit_task_title("new", 9);
    m.edit_task_description("new", 9);
    m.add_subtask(sub(8, 9, "new"));
    m.complete_subtask(9, 5);
    m.complete_task(9);
    assert_eq!(ids(&m), vec![(1, vec![5])]);
    assert_eq!(m.list[0].task.title, "a");
    assert_eq!(m.list[0].task.description, None);
    assert_eq!(m.list[0].subtasks[0].description, "x");
}

#[test]
fn edits_reach_the_right_records() {
    let mut m = TaskDetailManager::build_task_details(
        vec![task(1, "a"), task(2, "b")],
        vec![sub(5, 2, "x"), sub(6, 2, "y")],
    );
    m.edit_task_title("the new title", 2);
    m.edit_task_description("the new task description", 2);
    m.edit_subtask_description(2, 6, "the new description");
    assert_eq!(m.list[0].task.title, "a");
    assert_eq!(m.list[1].task.title, "the new title");
    assert_eq!(m.list[1].task.description.as_deref(), Some("the new task description"));
    assert_eq!(m.list[1].subtasks[0].description, "x");
    assert_eq!(m.list[1].subtasks[1].description, "the new description");
}

#[test]
fn removing_a_task_drops_its_subtasks() {
    let mut m = TaskDetailManager::build_task_details(
        vec![task(1, "a"), task(2, "b"), task(3, "c")],
        vec![sub(5, 2, "x")],
    );
    m.remove_task(2);
    assert_eq!(ids(&m), vec![(1, vec![]), (3, vec![])]);
}

#[test]
fn completing_a_subtask_drops_it() {
    let mut m = TaskDetailManager::build_task_details(
        vec![task(1, "a")],
        vec![sub(5, 1, "x"), sub(6, 1, "y")],
    );
    m.complete_subtask(1, 6);
    assert_eq!(ids(&m), vec![(1, vec![5])]);
}

#[test]
fn new_task_keeps_its_title() {
    let t = NewTask::new("Test Task A");
    assert_eq!(t.title(), "Test Task A");
}

#[test]
fn dates_of_the_calendar() {
    let d = Date::from_ymd(2024, 2, 29).unwrap();
    assert_eq!((d.year(), d.month(), d.day()), (2024, 2, 29));
    assert!(Date::from_ymd(2023, 2, 29).is_none());
    assert!(Date::from_ymd(1900, 2, 29).is_none());
    assert!(Date::from_ymd(2000, 2, 29).is_some());
    assert!(Date::from_ymd(2024, 4, 31).is_none());
    assert!(Date::from_ymd(2024, 12, 31).is_some());
    assert!(Date::from_ymd(2024, 13, 1).is_none());
    assert!(Date::from_ymd(2024, 1, 0).is_none());
}

#[test]
fn removing_an_unknown_subtask_of_a_known_task_changes_nothing() {
    let mut m = TaskDetailManager::build_task_details(vec![task(1, "a")], vec![sub(5, 1, "x")]);
    assert_eq!(m.find_subtask(1, 99), None);
    m.remove_subtask(1, 99);
    m.complete_subtask(1, 99);
    assert_eq!(ids(&m), vec![(1, vec![5])]);
}

#[test]
fn added_tasks_go_to_the_end() {
    let mut m = TaskDetailManager::build_task_details(vec![task(1, "a")], Vec::new());
    m.add_task(task(2, "This is created from the manager"));
    m.add_subtask(sub(3, 2, "subtask added"));
    assert_eq!(ids(&m), vec![(1, vec![]), (2, vec![3])]);
    assert_eq!(m.list[1].task.title, "This is created from the manager");
    assert!(!m.list[1].task.completed);
}
