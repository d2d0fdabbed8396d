use crate::date::Date;
use crate::model::{
    details_view, subtasks_view, DetailView, SubTask, SubTaskView, Task, TaskDetail,
    TaskDetailManager, TaskView,
};
use crate::seq_facts::lemma_filter_keeps_all;
use crate::store::{cache_after, lemma_first_subtask_index, lemma_first_task_index, Mutation};
use std::collections::HashMap;
use vstd::prelude::*;

verus! {

/// The subtasks of `subs` that belong to the task `task_id`, in their order.
pub open spec fn owned_by(subs: Seq<SubTaskView>, task_id: i64) -> Seq<SubTaskView> {
    subs.filter(|st: SubTaskView| st.task_id == task_id)
}

/// Whether a task before position `i` has the same id as the task at `i`.
pub open spec fn id_seen_before(tasks: Seq<TaskView>, i: int) -> bool {
    exists|j: int| 0 <= j < i && tasks[j].id == tasks[i].id
}

/// The tree that the tasks and subtasks loaded from the store make: one entry
/// per task, in the order of `tasks`, holding the subtasks that it owns. A
/// task id that occurs twice gets its subtasks at its first occurrence only;
/// subtasks whose task is not among `tasks` are left out.
pub open spec fn grouped(tasks: Seq<TaskView>, subs: Seq<SubTaskView>) -> Seq<DetailView> {
    Seq::new(
        tasks.len(),
        |i: int|
            DetailView {
                task: tasks[i],
                subtasks: if id_seen_before(tasks, i) {
                    Seq::empty()
                } else {
                    owned_by(subs, tasks[i].id)
                },
            },
    )
}

pub open spec fn tasks_view(s: Seq<Task>) -> Seq<TaskView> {
    s.map_values(|t: Task| t@)
}

/// Whether the tree holds a task with id `id`.
pub open spec fn has_task(s: Seq<DetailView>, id: i64) -> bool {
    exists|i: int| 0 <= i < s.len() && s[i].task.id == id
}

/// Whether position `i` holds the first task of the tree with id `id`.
pub open spec fn is_first_task(s: Seq<DetailView>, i: int, id: i64) -> bool {
    &&& 0 <= i < s.len()
    &&& s[i].task.id == id
    &&& forall|j: int| 0 <= j < i ==> s[j].task.id != id
}

/// Whether the subtasks hold one with id `id`.
pub open spec fn has_subtask(s: Seq<SubTaskView>, id: i64) -> bool {
    exists|j: int| 0 <= j < s.len() && s[j].id == id
}

/// Whether position `j` holds the first subtask with id `id`.
pub open spec fn is_first_subtask(s: Seq<SubTaskView>, j: int, id: i64) -> bool {
    &&& 0 <= j < s.len()
    &&& s[j].id == id
    &&& forall|k: int| 0 <= k < j ==> s[k].id != id
}

/// Whether the first task with id `task_id` has a subtask with id `subtask_id`.
pub open spec fn has_located_subtask(s: Seq<DetailView>, task_id: i64, subtask_id: i64) -> bool {
    exists|i: int| is_first_task(s, i, task_id) && has_subtask(s[i].subtasks, subtask_id)
}

/// The tree without any task with id `id`, and so without its subtasks.
pub open spec fn without_task(s: Seq<DetailView>, id: i64) -> Seq<DetailView> {
    s.filter(|d: DetailView| d.task.id != id)
}

/// The subtasks without any whose id is `id`.
pub open spec fn without_subtask(s: Seq<SubTaskView>, id: i64) -> Seq<SubTaskView> {
    s.filter(|st: SubTaskView| st.id != id)
}

pub open spec fn with_subtasks(d: DetailView, subtasks: Seq<SubTaskView>) -> DetailView {
    DetailView { task: d.task, subtasks }
}

pub open spec fn with_title(d: DetailView, title: Seq<char>) -> DetailView {
    DetailView { task: TaskView { title, ..d.task }, subtasks: d.subtasks }
}

pub open spec fn with_description(d: DetailView, description: Seq<char>) -> DetailView {
    DetailView { task: TaskView { description: Some(description), ..d.task }, subtasks: d.subtasks }
}

/// The entry with the description of its subtask at position `j` replaced.
pub open spec fn with_subtask_description(
    d: DetailView,
    j: int,
    description: Seq<char>,
) -> DetailView {
    with_subtasks(d, d.subtasks.update(j, SubTaskView { description, ..d.subtasks[j] }))
}

pub open spec fn fresh_detail(t: TaskView) -> DetailView {
    DetailView { task: t, subtasks: Seq::empty() }
}

/// Once a task has been completed or removed, no task with its id is left,
/// and doing so a second time changes nothing.
pub proof fn lemma_eviction_idempotent(s: Seq<DetailView>, task_id: i64)
    ensures
        !has_task(without_task(s, task_id), task_id),
        without_task(without_task(s, task_id), task_id) == without_task(s, task_id),
{
    let pred = |d: DetailView| d.task.id != task_id;
    let t = s.filter(pred);
    assert forall|i: int| 0 <= i < t.len() implies pred(t[i]) by {
        s.lemma_filter_pred(pred, i);
    }
    lemma_filter_keeps_all(t, pred);
}

/// Removing or completing a task that the tree does not hold leaves the
/// tree as it is.
pub proof fn lemma_unknown_task_kept(s: Seq<DetailView>, task_id: i64)
    requires
        !has_task(s, task_id),
    ensures
        without_task(s, task_id) == s,
{
    lemma_filter_keeps_all(s, |d: DetailView| d.task.id != task_id);
}

/// Removing or completing a subtask that a task does not hold leaves its
/// subtasks as they are.
pub proof fn lemma_unknown_subtask_kept(s: Seq<SubTaskView>, subtask_id: i64)
    requires
        !has_subtask(s, subtask_id),
    ensures
        without_subtask(s, subtask_id) == s,
{
    lemma_filter_keeps_all(s, |st: SubTaskView| st.id != subtask_id);
}

/// The subtasks kept after dropping every one with id `id`.
fn retain_other_subtasks(subs: Vec<SubTask>, id: i64) -> (r: Vec<SubTask>)
    ensures
        subtasks_view(r@) == without_subtask(subtasks_view(subs@), id),
{
    broadcast use vstd::seq_lib::group_seq_properties;

    let ghost sv = subtasks_view(subs@);
    let mut kept: Vec<SubTask> = Vec::new();
    for st in it: subs.into_iter()
        invariant
            it.seq() == subs@,
            sv == subtasks_view(subs@),
            subtasks_view(kept@) == without_subtask(sv.take(it.index() as int), id),
    {
        let ghost n = it.index() as int;
        let ghost before = kept@;
        assert(sv.take(n + 1) =~= sv.take(n).push(sv[n]));
        proof { sv.take(n).lemma_filter_push(sv[n], |x: SubTaskView| x.id != id); }
        if st.id != id {
            kept.push(st);
            assert(subtasks_view(kept@) =~= subtasks_view(before).push(sv[n]));
        }
    }
    assert(sv.take(sv.len() as int) =~= sv);
    kept
}

/// The position of the first subtask with id `id`.
fn position_of_subtask(subs: &Vec<SubTask>, id: i64) -> (r: Option<usize>)
    ensures
        match r {
            Some(j) => is_first_subtask(subtasks_view(subs@), j as int, id),
            None => !has_subtask(subtasks_view(subs@), id),
        },
{
    let mut j: usize = 0;
    while j < subs.len()
        invariant
            j <= subs.len(),
            forall|k: int| 0 <= k < j ==> subtasks_view(subs@)[k].id != id,
        decreases subs.len() - j,
    {
        if subs[j].id == id {
            return Some(j);
        }
        j = j + 1;
    }
    None
}

impl TaskDetailManager {
    /// Builds the tree from the pending tasks and pending subtasks of the store.
    pub fn build_task_details(tasks: Vec<Task>, sub_tasks: Vec<SubTask>) -> (r: Self)
        ensures
            r@ == grouped(tasks_view(tasks@), subtasks_view(sub_tasks@)),
    {
        broadcast use vstd::std_specs::hash::group_hash_axioms;
        broadcast use vstd::seq_lib::group_seq_properties;

        let ghost subs = subtasks_view(sub_tasks@);
        let ghost tv = tasks_view(tasks@);
        let mut subtask_map: HashMap<i64, Vec<SubTask>> = HashMap::new();
        for st in it: sub_tasks.into_iter()
            invariant
                it.seq() == sub_tasks@,
                subs == subtasks_view(sub_tasks@),
                forall|k: i64| #[trigger]
                    subtask_map@.contains_key(k) ==> subtasks_view(subtask_map@[k]@) == owned_by(
                        subs.take(it.index() as int),
                        k,
                    ),
                forall|k: i64| #[trigger]
                    subtask_map@.contains_key(k) || owned_by(subs.take(it.index() as int), k)
                        == Seq::<SubTaskView>::empty(),
        {
            let ghost n = it.index() as int;
            let key = st.task_id;
            let mut group = match subtask_map.remove(&key) {
                Some(g) => g,
                None => Vec::new(),
            };
            let ghost before = group@;
            group.push(st);
            assert(subs.take(n + 1) =~= subs.take(n).push(subs[n]));
            assert(subtasks_view(group@) =~= subtasks_view(before).push(subs[n]));
            assert forall|k: i64|
                owned_by(subs.take(n + 1), k) == if k == key {
                    owned_by(subs.take(n), k).push(subs[n])
                } else {
                    owned_by(subs.take(n), k)
                } by {
                subs.take(n).lemma_filter_push(subs[n], |x: SubTaskView| x.task_id == k);
            }
            subtask_map.insert(key, group);
        }
        assert(subs.take(subs.len() as int) =~= subs);

        let mut list: Vec<TaskDetail> = Vec::new();
        for task in it: tasks.into_iter()
            invariant
                it.seq() == tasks@,
                tv == tasks_view(tasks@),
                details_view(list@) == grouped(tv, subs).take(it.index() as int),
                forall|k: i64| #[trigger]
                    subtask_map@.contains_key(k) ==> subtasks_view(subtask_map@[k]@) == owned_by(
                        subs,
                        k,
                    ) && !(exists|j: int| 0 <= j < it.index() && tv[j].id == k),
                forall|k: i64| #[trigger]
                    subtask_map@.contains_key(k) || (exists|j: int|
                        0 <= j < it.index() && tv[j].id == k) || owned_by(subs, k) == Seq::<
                        SubTaskView,
                    >::empty(),
        {
            let ghost n = it.index() as int;
            assert(task@ == tv[n]);
            let subtasks = match subtask_map.remove(&task.id) {
                Some(g) => g,
                None => {
                    assert(id_seen_before(tv, n) || owned_by(subs, tv[n].id) =~= Seq::<
                        SubTaskView,
                    >::empty());
                    Vec::new()
                },
            };
            assert(subtasks_view(subtasks@) == grouped(tv, subs)[n].subtasks);
            let detail = TaskDetail { task, subtasks };
            assert(detail@ == grouped(tv, subs)[n]);
            let ghost before = list@;
            list.push(detail);
            assert(details_view(list@) =~= details_view(before).push(detail@));
            assert(grouped(tv, subs).take(n + 1) =~= grouped(tv, subs).take(n).push(detail@));
        }
        assert(grouped(tv, subs).take(tv.len() as int) =~= grouped(tv, subs));
        TaskDetailManager { list }
    }


    /// The position of the first task with id `task_id`; a request about a
    /// task calls the store only where this is `Some`.
    pub fn find_task(&self, task_id: i64) -> (r: Option<usize>)
        ensures
            match r {
                Some(i) => is_first_task(self@, i as int, task_id),
                None => !has_task(self@, task_id),
            },
    {
        let mut i: usize = 0;
        while i < self.list.len()
            invariant
                i <= self.list.len(),
                forall|j: int| 0 <= j < i ==> self@[j].task.id != task_id,
            decreases self.list.len() - i,
        {
            if self.list[i].task.id == task_id {
                return Some(i);
            }
            i = i + 1;
        }
        None
    }

    /// The positions of the first task with id `task_id` and of its first
    /// subtask with id `subtask_id`; a request about a subtask calls the store
    /// only where this is `Some`.
    pub fn find_subtask(&self, task_id: i64, subtask_id: i64) -> (r: Option<(usize, usize)>)
        ensures
            match r {
                Some((i, j)) => is_first_task(self@, i as int, task_id) && is_first_subtask(
                    self@[i as int].subtasks,
                    j as int,
                    subtask_id,
                ),
                None => !has_located_subtask(self@, task_id, subtask_id),
            },
    {
        match self.find_task(task_id) {
            None => None,
            Some(i) => match position_of_subtask(&self.list[i].subtasks, subtask_id) {
                None => None,
                Some(j) => Some((i, j)),
            },
        }
    }

    /// Drops the subtask `subtask_id` from the first task with id `task_id`,
    /// once the store has deleted it.
    pub fn remove_subtask(&mut self, task_id: i64, subtask_id: i64)
        ensures
            !has_task(old(self)@, task_id) ==> final(self)@ == old(self)@,
            forall|i: int|
                is_first_task(old(self)@, i, task_id) ==> final(self)@ == old(self)@.update(
                    i,
                    with_subtasks(old(self)@[i], without_subtask(old(self)@[i].subtasks, subtask_id)),
                ),
            final(self)@ == cache_after(old(self)@, (Mutation::RemoveSubtask { task_id, subtask_id })),
    {
        if let Some(i) = self.find_task(task_id) {
            proof { lemma_first_task_index(self@, i as int, task_id); }
            let ghost s = self@;
            let detail = self.list.remove(i);
            let TaskDetail { task, subtasks } = detail;
            let kept = retain_other_subtasks(subtasks, subtask_id);
            let ghost before = self.list@;
            self.list.insert(i, TaskDetail { task, subtasks: kept });
            assert(self@ =~= s.update(
                i as int,
                with_subtasks(s[i as int], without_subtask(s[i as int].subtasks, subtask_id)),
            ));
        }
    }

    /// Drops the task `task_id` and its subtasks, once the store has deleted it.
    pub fn remove_task(&mut self, task_id: i64)
        ensures
            final(self)@ == without_task(old(self)@, task_id),
            final(self)@ == cache_after(old(self)@, (Mutation::RemoveTask { task_id })),
    {
        broadcast use vstd::seq_lib::group_seq_properties;

        let ghost s = self@;
        let mut old_list: Vec<TaskDetail> = Vec::new();
        std::mem::swap(&mut self.list, &mut old_list);
        for d in it: old_list.into_iter()
            invariant
                it.seq() == old_list@,
                s == details_view(old_list@),
                self@ == without_task(s.take(it.index() as int), task_id),
        {
            let ghost n = it.index() as int;
            let ghost before = self.list@;
            assert(s.take(n + 1) =~= s.take(n).push(s[n]));
            proof { s.take(n).lemma_filter_push(s[n], |x: DetailView| x.task.id != task_id); }
            if d.task.id != task_id {
                self.list.push(d);
                assert(self@ =~= details_view(before).push(s[n]));
            }
        }
        assert(s.take(s.len() as int) =~= s);
    }

    /// Sets the description of subtask `subtask_id` under the first task with
    /// id `task_id`, once the store has written it.
    pub fn edit_subtask_description(&mut self, task_id: i64, subtask_id: i64, new_description: &str)
        ensures
            !has_located_subtask(old(self)@, task_id, subtask_id) ==> final(self)@ == old(self)@,
            forall|i: int, j: int|
                is_first_task(old(self)@, i, task_id) && is_first_subtask(
                    old(self)@[i].subtasks,
                    j,
                    subtask_id,
                ) ==> final(self)@ == old(self)@.update(
                    i,
                    with_subtask_description(old(self)@[i], j, new_description@),
                ),
            final(self)@ == cache_after(
                old(self)@,
                (Mutation::EditSubtaskDescription { task_id, subtask_id, description: new_description@ }),
            ),
    {
        if let Some((i, j)) = self.find_subtask(task_id, subtask_id) {
            proof {
                lemma_first_task_index(self@, i as int, task_id);
                lemma_first_subtask_index(self@[i as int].subtasks, j as int, subtask_id);
            }
            let ghost s = self@;
            let detail = self.list.remove(i);
            let TaskDetail { task, mut subtasks } = detail;
            let ghost subs_before = subtasks@;
            let mut st = subtasks.remove(j);
            st.description = new_description.to_string();
            subtasks.insert(j, st);
            assert(subtasks_view(subtasks@) =~= s[i as int].subtasks.update(
                j as int,
                SubTaskView { description: new_description@, ..s[i as int].subtasks[j as int] },
            ));
            self.list.insert(i, TaskDetail { task, subtasks });
            assert(self@ =~= s.update(
                i as int,
                with_subtask_description(s[i as int], j as int, new_description@),
            ));
        }
    }

    /// Sets the title of the first task with id `task_id`, once the store has
    /// written it.
    pub fn edit_task_title(&mut self, new_title: &str, task_id: i64)
        ensures
            !has_task(old(self)@, task_id) ==> final(self)@ == old(self)@,
            forall|i: int|
                is_first_task(old(self)@, i, task_id) ==> final(self)@ == old(self)@.update(
                    i,
                    with_title(old(self)@[i], new_title@),
                ),
            final(self)@ == cache_after(old(self)@, (Mutation::EditTaskTitle { task_id, title: new_title@ })),
    {
        if let Some(i) = self.find_task(task_id) {
            proof { lemma_first_task_index(self@, i as int, task_id); }
            let ghost s = self@;
            let mut detail = self.list.remove(i);
            detail.task.title = new_title.to_string();
            self.list.insert(i, detail);
            assert(self@ =~= s.update(i as int, with_title(s[i as int], new_title@)));
        }
    }

    /// Sets the description of the first task with id `task_id`, once the
    /// store has written it.
    pub fn edit_task_description(&mut self, new_description: &str, task_id: i64)
        ensures
            !has_task(old(self)@, task_id) ==> final(self)@ == old(self)@,
            forall|i: int|
                is_first_task(old(self)@, i, task_id) ==> final(self)@ == old(self)@.update(
                    i,
                    with_description(old(self)@[i], new_description@),
                ),
            final(self)@ == cache_after(
                old(self)@,
                (Mutation::EditTaskDescription { task_id, description: new_description@ }),
            ),
    {
        if let Some(i) = self.find_task(task_id) {
            proof { lemma_first_task_index(self@, i as int, task_id); }
            let ghost s = self@;
            let mut detail = self.list.remove(i);
            detail.task.description = Some(new_description.to_string());
            self.list.insert(i, detail);
            assert(self@ =~= s.update(i as int, with_description(s[i as int], new_description@)));
        }
    }

    /// Appends a task that the store has just created, with no subtasks.
    pub fn add_task(&mut self, task: Task)
        ensures
            final(self)@ == old(self)@.push(fresh_detail(task@)),
            final(self)@ == cache_after(old(self)@, (Mutation::AddTask { task: task@ })),
    {
        let ghost s = self@;
        let subtasks: Vec<SubTask> = Vec::new();
        assert(subtasks_view(subtasks@) =~= Seq::<SubTaskView>::empty());
        let detail = TaskDetail { task, subtasks };
        assert(detail@ == fresh_detail(task@));
        self.list.push(detail);
        assert(self@ =~= s.push(fresh_detail(task@)));
    }

    /// Appends a subtask that the store has just created to the first task
    /// that owns it; without such a task the tree stays as it is.
    pub fn add_subtask(&mut self, subtask: SubTask)
        ensures
            !has_task(old(self)@, subtask.task_id) ==> final(self)@ == old(self)@,
            forall|i: int|
                is_first_task(old(self)@, i, subtask.task_id) ==> final(self)@ == old(
                    self,
                )@.update(i, with_subtasks(old(self)@[i], old(self)@[i].subtasks.push(subtask@))),
            final(self)@ == cache_after(old(self)@, (Mutation::AddSubtask { subtask: subtask@ })),
    {
        if let Some(i) = self.find_task(subtask.task_id) {
            proof { lemma_first_task_index(self@, i as int, subtask.task_id); }
            let ghost s = self@;
            let ghost sv = subtask@;
            let detail = self.list.remove(i);
            let TaskDetail { task, mut subtasks } = detail;
            subtasks.push(subtask);
            assert(subtasks_view(subtasks@) =~= s[i as int].subtasks.push(sv));
            self.list.insert(i, TaskDetail { task, subtasks });
            assert(self@ =~= s.update(
                i as int,
                with_subtasks(s[i as int], s[i as int].subtasks.push(sv)),
            ));
        }
    }

    /// Drops a subtask that the store has marked completed: completed
    /// subtasks are not shown.
    pub fn complete_subtask(&mut self, task_id: i64, subtask_id: i64)
        ensures
            !has_task(old(self)@, task_id) ==> final(self)@ == old(self)@,
            forall|i: int|
                is_first_task(old(self)@, i, task_id) ==> final(self)@ == old(self)@.update(
                    i,
                    with_subtasks(old(self)@[i], without_subtask(old(self)@[i].subtasks, subtask_id)),
                ),
            final(self)@ == cache_after(old(self)@, (Mutation::CompleteSubtask { task_id, subtask_id })),
    {
        self.remove_subtask(task_id, subtask_id);
    }

    /// Drops a task, with its subtasks, that the store has marked completed.
    pub fn complete_task(&mut self, task_id: i64)
        ensures
            final(self)@ == without_task(old(self)@, task_id),
            forall|today: Option<Date>|
                final(self)@ == #[trigger] cache_after(
                    old(self)@,
                    (Mutation::CompleteTask { task_id, today }),
                ),
    {
        self.remove_task(task_id);
    }
}

} // verus!
