use crate::date::Date;
use vstd::prelude::*;

verus! {

/// What a task record holds, with text as sequences of characters.
pub struct TaskView {
    pub id: i64,
    pub title: Seq<char>,
    pub description: Option<Seq<char>>,
    pub follow_up_date: Option<Date>,
    pub last_update: Option<Date>,
    pub completed: bool,
}

/// What a subtask record holds.
pub struct SubTaskView {
    pub id: i64,
    pub task_id: i64,
    pub description: Seq<char>,
    pub completed: bool,
}

/// A task with the subtasks shown under it.
pub struct DetailView {
    pub task: TaskView,
    pub subtasks: Seq<SubTaskView>,
}

pub open spec fn text_view(s: Option<String>) -> Option<Seq<char>> {
    match s {
        Some(t) => Some(t@),
        None => None,
    }
}

/// A row of the task table.
#[derive(Debug)]
pub struct Task {
    pub id: i64,
    pub title: String,
    pub description: Option<String>,
    pub follow_up_date: Option<Date>,
    pub last_update: Option<Date>,
    pub completed: bool,
}

impl View for Task {
    type V = TaskView;

    open spec fn view(&self) -> TaskView {
        TaskView {
            id: self.id,
            title: self.title@,
            description: text_view(self.description),
            follow_up_date: self.follow_up_date,
            last_update: self.last_update,
            completed: self.completed,
        }
    }
}

/// A row of the subtask table; `task_id` is the owning task.
#[derive(Debug)]
pub struct SubTask {
    pub id: i64,
    pub task_id: i64,
    pub description: String,
    pub completed: bool,
}

impl View for SubTask {
    type V = SubTaskView;

    open spec fn view(&self) -> SubTaskView {
        SubTaskView {
            id: self.id,
            task_id: self.task_id,
            description: self.description@,
            completed: self.completed,
        }
    }
}

pub open spec fn subtasks_view(s: Seq<SubTask>) -> Seq<SubTaskView> {
    s.map_values(|st: SubTask| st@)
}

/// The title of a task that is yet to be created.
#[derive(Debug)]
pub struct NewTask {
    title: String,
}

impl View for NewTask {
    type V = Seq<char>;

    closed spec fn view(&self) -> Seq<char> {
        self.title@
    }
}

impl NewTask {
    pub fn new(title: &str) -> (r: NewTask)
        ensures
            r@ == title@,
    {
        NewTask { title: title.to_string() }
    }

    pub fn title(&self) -> (r: &String)
        ensures
            r@ == self@,
    {
        &self.title
    }
}

/// A task paired with its pending subtasks.
#[derive(Debug)]
pub struct TaskDetail {
    pub task: Task,
    pub subtasks: Vec<SubTask>,
}

impl View for TaskDetail {
    type V = DetailView;

    open spec fn view(&self) -> DetailView {
        DetailView { task: self.task@, subtasks: subtasks_view(self.subtasks@) }
    }
}

pub open spec fn details_view(s: Seq<TaskDetail>) -> Seq<DetailView> {
    s.map_values(|d: TaskDetail| d@)
}

/// The cached tree of pending tasks, in the order they were loaded or added.
#[derive(Debug)]
pub struct TaskDetailManager {
    pub list: Vec<TaskDetail>,
}

impl View for TaskDetailManager {
    type V = Seq<DetailView>;

    open spec fn view(&self) -> Seq<DetailView> {
        details_view(self.list@)
    }
}

} // verus!
