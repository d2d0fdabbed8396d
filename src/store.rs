//! A model of the store's rows, and the law that the cached tree stays equal
//! to what a fresh load of the store would build.

use crate::date::Date;
use crate::manager::{
    fresh_detail, grouped, has_located_subtask, has_subtask, has_task, id_seen_before, is_first_subtask,
    is_first_task, owned_by, with_description, with_subtask_description, with_subtasks,
    with_title, without_subtask, without_task,
};
use crate::model::{DetailView, SubTaskView, TaskView};
use crate::seq_facts::{
    lemma_filter_drops_all, lemma_filter_keeps_all, lemma_filter_twice, lemma_filter_unique,
    lemma_map_then_filter, unique_by,
};
use vstd::prelude::*;

verus! {

/// The rows of the two tables, in the order that a query returns them.
pub struct StoreView {
    pub tasks: Seq<TaskView>,
    pub sub_tasks: Seq<SubTaskView>,
}

pub open spec fn task_key() -> spec_fn(TaskView) -> i64 {
    |t: TaskView| t.id
}

pub open spec fn subtask_key() -> spec_fn(SubTaskView) -> i64 {
    |s: SubTaskView| s.id
}

pub open spec fn task_pending() -> spec_fn(TaskView) -> bool {
    |t: TaskView| !t.completed
}

pub open spec fn subtask_pending() -> spec_fn(SubTaskView) -> bool {
    |s: SubTaskView| !s.completed
}

pub open spec fn pending_tasks(st: StoreView) -> Seq<TaskView> {
    st.tasks.filter(task_pending())
}

pub open spec fn pending_sub_tasks(st: StoreView) -> Seq<SubTaskView> {
    st.sub_tasks.filter(subtask_pending())
}

/// The tree that loading the pending rows of the store builds.
pub open spec fn reloaded(st: StoreView) -> Seq<DetailView> {
    grouped(pending_tasks(st), pending_sub_tasks(st))
}

/// The store gives each row of a table its own id.
pub open spec fn store_wf(st: StoreView) -> bool {
    &&& unique_by(st.tasks, task_key())
    &&& unique_by(st.sub_tasks, subtask_key())
}

/// A request to the manager that the store has carried out, with what the
/// store handed back where it created a row.
pub enum Mutation {
    AddTask { task: TaskView },
    AddSubtask { subtask: SubTaskView },
    EditTaskTitle { task_id: i64, title: Seq<char> },
    EditTaskDescription { task_id: i64, description: Seq<char> },
    EditSubtaskDescription { task_id: i64, subtask_id: i64, description: Seq<char> },
    CompleteSubtask { task_id: i64, subtask_id: i64 },
    CompleteTask { task_id: i64, today: Option<Date> },
    RemoveSubtask { task_id: i64, subtask_id: i64 },
    RemoveTask { task_id: i64 },
}

pub open spec fn set_title(id: i64, title: Seq<char>) -> spec_fn(TaskView) -> TaskView {
    |t: TaskView| if t.id == id { TaskView { title, ..t } } else { t }
}

pub open spec fn set_description(id: i64, d: Seq<char>) -> spec_fn(TaskView) -> TaskView {
    |t: TaskView| if t.id == id { TaskView { description: Some(d), ..t } } else { t }
}

pub open spec fn mark_task_done(id: i64, today: Option<Date>) -> spec_fn(TaskView) -> TaskView {
    |t: TaskView| if t.id == id { TaskView { completed: true, last_update: today, ..t } } else { t }
}

pub open spec fn mark_children_done(id: i64) -> spec_fn(SubTaskView) -> SubTaskView {
    |s: SubTaskView| if s.task_id == id { SubTaskView { completed: true, ..s } } else { s }
}

pub open spec fn mark_subtask_done(id: i64) -> spec_fn(SubTaskView) -> SubTaskView {
    |s: SubTaskView| if s.id == id { SubTaskView { completed: true, ..s } } else { s }
}

pub open spec fn set_subtask_description(id: i64, d: Seq<char>) -> spec_fn(SubTaskView) -> SubTaskView {
    |s: SubTaskView| if s.id == id { SubTaskView { description: d, ..s } } else { s }
}

pub open spec fn other_task(id: i64) -> spec_fn(TaskView) -> bool {
    |t: TaskView| t.id != id
}

pub open spec fn other_subtask(id: i64) -> spec_fn(SubTaskView) -> bool {
    |st: SubTaskView| st.id != id
}

/// What the store holds after a request: the manager writes to the store only
/// where its tree holds the record that the request names.
pub open spec fn store_after(st: StoreView, c: Seq<DetailView>, m: Mutation) -> StoreView {
    match m {
        Mutation::AddTask { task } => StoreView { tasks: st.tasks.push(task), sub_tasks: st.sub_tasks },
        Mutation::AddSubtask { subtask } => if has_task(c, subtask.task_id) {
            StoreView { tasks: st.tasks, sub_tasks: st.sub_tasks.push(subtask) }
        } else {
            st
        },
        Mutation::EditTaskTitle { task_id, title } => if has_task(c, task_id) {
            StoreView { tasks: st.tasks.map_values(set_title(task_id, title)), sub_tasks: st.sub_tasks }
        } else {
            st
        },
        Mutation::EditTaskDescription { task_id, description } => if has_task(c, task_id) {
            StoreView {
                tasks: st.tasks.map_values(set_description(task_id, description)),
                sub_tasks: st.sub_tasks,
            }
        } else {
            st
        },
        Mutation::EditSubtaskDescription { task_id, subtask_id, description } => if has_located_subtask(
            c,
            task_id,
            subtask_id,
        ) {
            StoreView {
                tasks: st.tasks,
                sub_tasks: st.sub_tasks.map_values(set_subtask_description(subtask_id, description)),
            }
        } else {
            st
        },
        Mutation::CompleteSubtask { task_id, subtask_id } => if has_located_subtask(
            c,
            task_id,
            subtask_id,
        ) {
            StoreView { tasks: st.tasks, sub_tasks: st.sub_tasks.map_values(mark_subtask_done(subtask_id)) }
        } else {
            st
        },
        Mutation::CompleteTask { task_id, today } => if has_task(c, task_id) {
            StoreView {
                tasks: st.tasks.map_values(mark_task_done(task_id, today)),
                sub_tasks: st.sub_tasks.map_values(mark_children_done(task_id)),
            }
        } else {
            st
        },
        Mutation::RemoveSubtask { task_id, subtask_id } => if has_located_subtask(
            c,
            task_id,
            subtask_id,
        ) {
            StoreView { tasks: st.tasks, sub_tasks: st.sub_tasks.filter(other_subtask(subtask_id)) }
        } else {
            st
        },
        Mutation::RemoveTask { task_id } => if has_task(c, task_id) {
            StoreView { tasks: st.tasks.filter(other_task(task_id)), sub_tasks: st.sub_tasks }
        } else {
            st
        },
    }
}

pub open spec fn first_task_index(c: Seq<DetailView>, id: i64) -> int {
    choose|i: int| is_first_task(c, i, id)
}

pub open spec fn first_subtask_index(s: Seq<SubTaskView>, id: i64) -> int {
    choose|j: int| is_first_subtask(s, j, id)
}

/// The tree after a request, as the manager's methods state it.
pub open spec fn cache_after(c: Seq<DetailView>, m: Mutation) -> Seq<DetailView> {
    match m {
        Mutation::AddTask { task } => c.push(fresh_detail(task)),
        Mutation::AddSubtask { subtask } => if has_task(c, subtask.task_id) {
            let i = first_task_index(c, subtask.task_id);
            c.update(i, with_subtasks(c[i], c[i].subtasks.push(subtask)))
        } else {
            c
        },
        Mutation::EditTaskTitle { task_id, title } => if has_task(c, task_id) {
            let i = first_task_index(c, task_id);
            c.update(i, with_title(c[i], title))
        } else {
            c
        },
        Mutation::EditTaskDescription { task_id, description } => if has_task(c, task_id) {
            let i = first_task_index(c, task_id);
            c.update(i, with_description(c[i], description))
        } else {
            c
        },
        Mutation::EditSubtaskDescription { task_id, subtask_id, description } => if has_located_subtask(
            c,
            task_id,
            subtask_id,
        ) {
            let i = first_task_index(c, task_id);
            let j = first_subtask_index(c[i].subtasks, subtask_id);
            c.update(i, with_subtask_description(c[i], j, description))
        } else {
            c
        },
        Mutation::CompleteSubtask { task_id, subtask_id } => if has_task(c, task_id) {
            let i = first_task_index(c, task_id);
            c.update(i, with_subtasks(c[i], without_subtask(c[i].subtasks, subtask_id)))
        } else {
            c
        },
        Mutation::CompleteTask { task_id, today } => without_task(c, task_id),
        Mutation::RemoveSubtask { task_id, subtask_id } => if has_task(c, task_id) {
            let i = first_task_index(c, task_id);
            c.update(i, with_subtasks(c[i], without_subtask(c[i].subtasks, subtask_id)))
        } else {
            c
        },
        Mutation::RemoveTask { task_id } => without_task(c, task_id),
    }
}

/// The ids that the store hands out for new rows are new: a task id that no
/// task row has, and that no subtask row names as its owner; a subtask id
/// that no subtask row has.
pub open spec fn fresh(st: StoreView, m: Mutation) -> bool {
    match m {
        Mutation::AddTask { task } => {
            &&& !task.completed
            &&& forall|i: int| 0 <= i < st.tasks.len() ==> st.tasks[i].id != task.id
            &&& forall|i: int| 0 <= i < st.sub_tasks.len() ==> st.sub_tasks[i].task_id != task.id
        },
        Mutation::AddSubtask { subtask } => {
            &&& !subtask.completed
            &&& forall|i: int| 0 <= i < st.sub_tasks.len() ==> st.sub_tasks[i].id != subtask.id
        },
        _ => true,
    }
}

pub open spec fn detail_of(subs: Seq<SubTaskView>, t: TaskView) -> DetailView {
    DetailView { task: t, subtasks: owned_by(subs, t.id) }
}

pub open spec fn detail_in(subs: Seq<SubTaskView>) -> spec_fn(TaskView) -> DetailView {
    |t: TaskView| detail_of(subs, t)
}

pub open spec fn tree_of(tasks: Seq<TaskView>, subs: Seq<SubTaskView>) -> Seq<DetailView> {
    tasks.map_values(detail_in(subs))
}

proof fn lemma_grouped_unique(tasks: Seq<TaskView>, subs: Seq<SubTaskView>)
    requires
        unique_by(tasks, task_key()),
    ensures
        grouped(tasks, subs) == tree_of(tasks, subs),
{
    assert forall|i: int| 0 <= i < tasks.len() implies !id_seen_before(tasks, i) by {
        if id_seen_before(tasks, i) {
            let j = choose|j: int| 0 <= j < i && tasks[j].id == tasks[i].id;
            assert(task_key()(tasks[j]) == task_key()(tasks[i]));
        }
    }
    assert(grouped(tasks, subs) =~= tree_of(tasks, subs));
}

/// The pending tasks of a well-formed store have their own ids, and the tree
/// of its reload is one entry per pending task.
proof fn lemma_reloaded_tree(st: StoreView)
    requires
        store_wf(st),
    ensures
        unique_by(pending_tasks(st), task_key()),
        unique_by(pending_sub_tasks(st), subtask_key()),
        reloaded(st) == tree_of(pending_tasks(st), pending_sub_tasks(st)),
{
    lemma_filter_unique(st.tasks, task_pending(), task_key());
    lemma_filter_unique(st.sub_tasks, subtask_pending(), subtask_key());
    lemma_grouped_unique(pending_tasks(st), pending_sub_tasks(st));
}

/// In a tree with unique task ids, the entry of a task is its first one.
proof fn lemma_first_is_only(tasks: Seq<TaskView>, subs: Seq<SubTaskView>, i: int)
    requires
        unique_by(tasks, task_key()),
        0 <= i < tasks.len(),
    ensures
        is_first_task(tree_of(tasks, subs), i, tasks[i].id),
        first_task_index(tree_of(tasks, subs), tasks[i].id) == i,
        forall|k: int|
            0 <= k < tasks.len() && tasks[k].id == tasks[i].id ==> k == i,
{
    let c = tree_of(tasks, subs);
    assert forall|k: int| 0 <= k < tasks.len() && tasks[k].id == tasks[i].id implies k == i by {
        assert(task_key()(tasks[k]) == task_key()(tasks[i]));
    }
    assert(is_first_task(c, i, tasks[i].id));
    let f = first_task_index(c, tasks[i].id);
    assert(is_first_task(c, f, tasks[i].id));
}

proof fn lemma_add_task(st: StoreView, task: TaskView)
    requires
        store_wf(st),
        fresh(st, Mutation::AddTask { task }),
    ensures
        store_wf(store_after(st, reloaded(st), Mutation::AddTask { task })),
        cache_after(reloaded(st), Mutation::AddTask { task }) == reloaded(
            store_after(st, reloaded(st), Mutation::AddTask { task }),
        ),
{
    let st2 = store_after(st, reloaded(st), Mutation::AddTask { task });
    lemma_reloaded_tree(st);
    let pt = pending_tasks(st);
    let ps = pending_sub_tasks(st);
    assert(unique_by(st2.tasks, task_key())) by {
        assert forall|i: int, j: int|
            0 <= i < st2.tasks.len() && 0 <= j < st2.tasks.len() && #[trigger] task_key()(
                st2.tasks[i],
            ) == #[trigger] task_key()(st2.tasks[j]) implies i == j by {
            if i < st.tasks.len() && j < st.tasks.len() {
                assert(task_key()(st.tasks[i]) == task_key()(st.tasks[j]));
            }
        }
    }
    st.tasks.lemma_filter_push(task, task_pending());
    assert(pending_tasks(st2) == pt.push(task));
    lemma_reloaded_tree(st2);
    assert forall|i: int| 0 <= i < ps.len() implies ps[i].task_id != task.id by {
        st.sub_tasks.lemma_filter_pred(subtask_pending(), i);
        assert(ps.contains(ps[i]));
        st.sub_tasks.lemma_filter_contains_rev(subtask_pending(), ps[i]);
    }
    lemma_filter_drops_all(ps, |s: SubTaskView| s.task_id == task.id);
    assert(tree_of(pt.push(task), ps) =~= tree_of(pt, ps).push(fresh_detail(task)));
}

/// A tree built over tasks whose ids all differ from `id` is the same whether
/// or not the subtasks of `id` are left out.
proof fn lemma_tree_without_children(tasks: Seq<TaskView>, subs: Seq<SubTaskView>, id: i64)
    requires
        forall|i: int| 0 <= i < tasks.len() ==> tasks[i].id != id,
    ensures
        tree_of(tasks, subs.filter(|s: SubTaskView| s.task_id != id)) == tree_of(tasks, subs),
{
    let subs2 = subs.filter(|s: SubTaskView| s.task_id != id);
    assert forall|i: int| 0 <= i < tasks.len() implies #[trigger] tree_of(tasks, subs2)[i]
        == tree_of(tasks, subs)[i] by {
        let k = tasks[i].id;
        lemma_filter_twice(
            subs,
            |s: SubTaskView| s.task_id != id,
            |s: SubTaskView| s.task_id == k,
            |s: SubTaskView| s.task_id == k,
        );
    }
    assert(tree_of(tasks, subs2) =~= tree_of(tasks, subs));
}

proof fn lemma_remove_task(st: StoreView, task_id: i64)
    requires
        store_wf(st),
    ensures
        store_wf(store_after(st, reloaded(st), Mutation::RemoveTask { task_id })),
        cache_after(reloaded(st), Mutation::RemoveTask { task_id }) == reloaded(
            store_after(st, reloaded(st), Mutation::RemoveTask { task_id }),
        ),
{
    let c = reloaded(st);
    lemma_reloaded_tree(st);
    let pt = pending_tasks(st);
    let ps = pending_sub_tasks(st);
    if has_task(c, task_id) {
        let st2 = store_after(st, c, Mutation::RemoveTask { task_id });
        lemma_filter_unique(st.tasks, other_task(task_id), task_key());
        let both = |t: TaskView| t.id != task_id && !t.completed;
        lemma_filter_twice(st.tasks, other_task(task_id), task_pending(), both);
        lemma_filter_twice(st.tasks, task_pending(), other_task(task_id), both);
        assert(pending_tasks(st2) == pt.filter(other_task(task_id)));
        lemma_reloaded_tree(st2);
        lemma_map_then_filter(
            pt,
            detail_in(ps),
            |d: DetailView| d.task.id != task_id,
            other_task(task_id),
        );
    } else {
        lemma_filter_keeps_all(c, |d: DetailView| d.task.id != task_id);
    }
}

proof fn lemma_complete_task(st: StoreView, task_id: i64, today: Option<Date>)
    requires
        store_wf(st),
    ensures
        store_wf(store_after(st, reloaded(st), Mutation::CompleteTask { task_id, today })),
        cache_after(reloaded(st), Mutation::CompleteTask { task_id, today }) == reloaded(
            store_after(st, reloaded(st), Mutation::CompleteTask { task_id, today }),
        ),
{
    let c = reloaded(st);
    lemma_reloaded_tree(st);
    let pt = pending_tasks(st);
    let ps = pending_sub_tasks(st);
    if has_task(c, task_id) {
        let st2 = store_after(st, c, Mutation::CompleteTask { task_id, today });
        let mt = mark_task_done(task_id, today);
        let mc = mark_children_done(task_id);
        assert(unique_by(st2.tasks, task_key())) by {
            assert forall|i: int, j: int|
                0 <= i < st2.tasks.len() && 0 <= j < st2.tasks.len() && #[trigger] task_key()(
                    st2.tasks[i],
                ) == #[trigger] task_key()(st2.tasks[j]) implies i == j by {
                assert(task_key()(st.tasks[i]) == task_key()(st.tasks[j]));
            }
        }
        assert(unique_by(st2.sub_tasks, subtask_key())) by {
            assert forall|i: int, j: int|
                0 <= i < st2.sub_tasks.len() && 0 <= j < st2.sub_tasks.len() && #[trigger] subtask_key()(
                    st2.sub_tasks[i],
                ) == #[trigger] subtask_key()(st2.sub_tasks[j]) implies i == j by {
                assert(subtask_key()(st.sub_tasks[i]) == subtask_key()(st.sub_tasks[j]));
            }
        }
        // the tasks left pending
        let q = |t: TaskView| t.id != task_id && !t.completed;
        lemma_map_then_filter(st.tasks, mt, task_pending(), q);
        let kept = st.tasks.filter(q);
        assert forall|i: int| 0 <= i < kept.len() implies mt(kept[i]) == kept[i] by {
            st.tasks.lemma_filter_pred(q, i);
        }
        assert(kept.map_values(mt) =~= kept);
        lemma_filter_twice(st.tasks, task_pending(), other_task(task_id), q);
        assert(pending_tasks(st2) == pt.filter(other_task(task_id)));
        // the subtasks left pending
        let q2 = |s: SubTaskView| s.task_id != task_id && !s.completed;
        lemma_map_then_filter(st.sub_tasks, mc, subtask_pending(), q2);
        let kept2 = st.sub_tasks.filter(q2);
        assert forall|i: int| 0 <= i < kept2.len() implies mc(kept2[i]) == kept2[i] by {
            st.sub_tasks.lemma_filter_pred(q2, i);
        }
        assert(kept2.map_values(mc) =~= kept2);
        lemma_filter_twice(st.sub_tasks, subtask_pending(), |s: SubTaskView| s.task_id != task_id, q2);
        assert(pending_sub_tasks(st2) == ps.filter(|s: SubTaskView| s.task_id != task_id));
        lemma_reloaded_tree(st2);
        let pt2 = pt.filter(other_task(task_id));
        assert forall|i: int| 0 <= i < pt2.len() implies pt2[i].id != task_id by {
            pt.lemma_filter_pred(other_task(task_id), i);
        }
        lemma_tree_without_children(pt2, ps, task_id);
        lemma_map_then_filter(
            pt,
            detail_in(ps),
            |d: DetailView| d.task.id != task_id,
            other_task(task_id),
        );
    } else {
        lemma_filter_keeps_all(c, |d: DetailView| d.task.id != task_id);
    }
}

/// The rewrite of one task row keeps every row's id and completion.
proof fn lemma_task_rewrite(
    st: StoreView,
    f: spec_fn(TaskView) -> TaskView,
)
    requires
        store_wf(st),
        forall|t: TaskView| (#[trigger] f(t)).id == t.id && f(t).completed == t.completed,
    ensures
        store_wf(StoreView { tasks: st.tasks.map_values(f), sub_tasks: st.sub_tasks }),
        pending_tasks(StoreView { tasks: st.tasks.map_values(f), sub_tasks: st.sub_tasks })
            == pending_tasks(st).map_values(f),
{
    let tasks2 = st.tasks.map_values(f);
    assert forall|i: int, j: int|
        0 <= i < tasks2.len() && 0 <= j < tasks2.len() && #[trigger] task_key()(tasks2[i])
            == #[trigger] task_key()(tasks2[j]) implies i == j by {
        assert(task_key()(st.tasks[i]) == task_key()(st.tasks[j]));
    }
    lemma_map_then_filter(st.tasks, f, task_pending(), task_pending());
}

proof fn lemma_edit_task_title(st: StoreView, task_id: i64, title: Seq<char>)
    requires
        store_wf(st),
    ensures
        store_wf(store_after(st, reloaded(st), Mutation::EditTaskTitle { task_id, title })),
        cache_after(reloaded(st), Mutation::EditTaskTitle { task_id, title }) == reloaded(
            store_after(st, reloaded(st), Mutation::EditTaskTitle { task_id, title }),
        ),
{
    let c = reloaded(st);
    lemma_reloaded_tree(st);
    let pt = pending_tasks(st);
    let ps = pending_sub_tasks(st);
    if has_task(c, task_id) {
        let st2 = store_after(st, c, Mutation::EditTaskTitle { task_id, title });
        let f = set_title(task_id, title);
        lemma_task_rewrite(st, f);
        lemma_reloaded_tree(st2);
        let i = choose|i: int| 0 <= i < c.len() && c[i].task.id == task_id;
        lemma_first_is_only(pt, ps, i);
        assert(tree_of(pt.map_values(f), ps) =~= c.update(i, with_title(c[i], title)));
    }
}

proof fn lemma_edit_task_description(st: StoreView, task_id: i64, description: Seq<char>)
    requires
        store_wf(st),
    ensures
        store_wf(store_after(st, reloaded(st), Mutation::EditTaskDescription { task_id, description })),
        cache_after(reloaded(st), Mutation::EditTaskDescription { task_id, description }) == reloaded(
            store_after(st, reloaded(st), Mutation::EditTaskDescription { task_id, description }),
        ),
{
    let c = reloaded(st);
    lemma_reloaded_tree(st);
    let pt = pending_tasks(st);
    let ps = pending_sub_tasks(st);
    if has_task(c, task_id) {
        let st2 = store_after(st, c, Mutation::EditTaskDescription { task_id, description });
        let f = set_description(task_id, description);
        lemma_task_rewrite(st, f);
        lemma_reloaded_tree(st2);
        let i = choose|i: int| 0 <= i < c.len() && c[i].task.id == task_id;
        lemma_first_is_only(pt, ps, i);
        assert(tree_of(pt.map_values(f), ps) =~= c.update(i, with_description(c[i], description)));
    }
}

proof fn lemma_add_subtask(st: StoreView, subtask: SubTaskView)
    requires
        store_wf(st),
        fresh(st, Mutation::AddSubtask { subtask }),
    ensures
        store_wf(store_after(st, reloaded(st), Mutation::AddSubtask { subtask })),
        cache_after(reloaded(st), Mutation::AddSubtask { subtask }) == reloaded(
            store_after(st, reloaded(st), Mutation::AddSubtask { subtask }),
        ),
{
    let c = reloaded(st);
    lemma_reloaded_tree(st);
    let pt = pending_tasks(st);
    let ps = pending_sub_tasks(st);
    if has_task(c, subtask.task_id) {
        let st2 = store_after(st, c, Mutation::AddSubtask { subtask });
        assert(unique_by(st2.sub_tasks, subtask_key())) by {
            assert forall|i: int, j: int|
                0 <= i < st2.sub_tasks.len() && 0 <= j < st2.sub_tasks.len() && #[trigger] subtask_key()(
                    st2.sub_tasks[i],
                ) == #[trigger] subtask_key()(st2.sub_tasks[j]) implies i == j by {
                if i < st.sub_tasks.len() && j < st.sub_tasks.len() {
                    assert(subtask_key()(st.sub_tasks[i]) == subtask_key()(st.sub_tasks[j]));
                }
            }
        }
        st.sub_tasks.lemma_filter_push(subtask, subtask_pending());
        assert(pending_sub_tasks(st2) == ps.push(subtask));
        lemma_reloaded_tree(st2);
        let i = choose|i: int| 0 <= i < c.len() && c[i].task.id == subtask.task_id;
        lemma_first_is_only(pt, ps, i);
        let c2 = c.update(i, with_subtasks(c[i], c[i].subtasks.push(subtask)));
        assert forall|k: int| 0 <= k < pt.len() implies #[trigger] tree_of(pt, ps.push(subtask))[k]
            == c2[k] by {
            let id = pt[k].id;
            ps.lemma_filter_push(subtask, |s: SubTaskView| s.task_id == id);
        }
        assert(tree_of(pt, ps.push(subtask)) =~= c2);
    }
}

/// Where the first entry of `task_id` shows subtask `subtask_id`, that
/// subtask's position there, and the fact that no other entry shows it.
proof fn lemma_located_subtask(
    pt: Seq<TaskView>,
    ps: Seq<SubTaskView>,
    task_id: i64,
    subtask_id: i64,
) -> (ij: (int, int))
    requires
        unique_by(pt, task_key()),
        unique_by(ps, subtask_key()),
        has_located_subtask(tree_of(pt, ps), task_id, subtask_id),
    ensures
        is_first_task(tree_of(pt, ps), ij.0, task_id),
        first_task_index(tree_of(pt, ps), task_id) == ij.0,
        forall|n: int| 0 <= n < pt.len() && (#[trigger] pt[n]).id == task_id ==> n == ij.0,
        is_first_subtask(owned_by(ps, task_id), ij.1, subtask_id),
        first_subtask_index(owned_by(ps, task_id), subtask_id) == ij.1,
        forall|j: int|
            0 <= j < owned_by(ps, task_id).len() && (#[trigger] owned_by(ps, task_id)[j]).id
                == subtask_id ==> j == ij.1,
        forall|k: int| 0 <= k < ps.len() && (#[trigger] ps[k]).id == subtask_id ==> ps[k].task_id == task_id,
{
    let c = tree_of(pt, ps);
    let i = choose|i: int| is_first_task(c, i, task_id) && has_subtask(c[i].subtasks, subtask_id);
    lemma_first_is_only(pt, ps, i);
    let own = owned_by(ps, task_id);
    let pred = |st: SubTaskView| st.task_id == task_id;
    lemma_filter_unique(ps, pred, subtask_key());
    let j = choose|j: int| 0 <= j < own.len() && own[j].id == subtask_id;
    assert forall|jj: int| 0 <= jj < own.len() && (#[trigger] own[jj]).id == subtask_id implies jj
        == j by {
        assert(subtask_key()(own[jj]) == subtask_key()(own[j]));
    }
    assert(is_first_subtask(own, j, subtask_id));
    let f = first_subtask_index(own, subtask_id);
    assert(is_first_subtask(own, f, subtask_id));
    assert(own.contains(own[j]));
    ps.lemma_filter_contains_rev(pred, own[j]);
    ps.lemma_filter_pred(pred, j);
    assert forall|k: int| 0 <= k < ps.len() && (#[trigger] ps[k]).id == subtask_id implies ps[k].task_id
        == task_id by {
        let kk = choose|kk: int| 0 <= kk < ps.len() && ps[kk] == own[j];
        assert(subtask_key()(ps[k]) == subtask_key()(ps[kk]));
    }
    (i, j)
}

/// A subtask that the store holds under one task is shown under no other.
proof fn lemma_not_shown_elsewhere(ps: Seq<SubTaskView>, task_id: i64, subtask_id: i64, k: i64)
    requires
        forall|n: int| 0 <= n < ps.len() && (#[trigger] ps[n]).id == subtask_id ==> ps[n].task_id == task_id,
        k != task_id,
    ensures
        forall|j: int| 0 <= j < owned_by(ps, k).len() ==> (#[trigger] owned_by(ps, k)[j]).id != subtask_id,
{
    let pred = |st: SubTaskView| st.task_id == k;
    let own = owned_by(ps, k);
    assert forall|j: int| 0 <= j < own.len() implies (#[trigger] own[j]).id != subtask_id by {
        assert(own.contains(own[j]));
        ps.lemma_filter_contains_rev(pred, own[j]);
        ps.lemma_filter_pred(pred, j);
    }
}

/// Dropping subtask `subtask_id` from the pending subtasks drops it from the
/// entry of its task and from nowhere else.
proof fn lemma_tree_without_subtask(
    pt: Seq<TaskView>,
    ps: Seq<SubTaskView>,
    task_id: i64,
    subtask_id: i64,
)
    requires
        unique_by(pt, task_key()),
        unique_by(ps, subtask_key()),
        has_located_subtask(tree_of(pt, ps), task_id, subtask_id),
    ensures
        tree_of(pt, ps.filter(other_subtask(subtask_id))) == cache_after(
            tree_of(pt, ps),
            Mutation::RemoveSubtask { task_id, subtask_id },
        ),
{
    let c = tree_of(pt, ps);
    let (i, j) = lemma_located_subtask(pt, ps, task_id, subtask_id);
    let ps2 = ps.filter(other_subtask(subtask_id));
    let c2 = c.update(i, with_subtasks(c[i], without_subtask(c[i].subtasks, subtask_id)));
    assert forall|n: int| 0 <= n < pt.len() implies #[trigger] tree_of(pt, ps2)[n] == c2[n] by {
        let k = pt[n].id;
        let both = |st: SubTaskView| st.id != subtask_id && st.task_id == k;
        lemma_filter_twice(ps, other_subtask(subtask_id), |st: SubTaskView| st.task_id == k, both);
        lemma_filter_twice(ps, |st: SubTaskView| st.task_id == k, other_subtask(subtask_id), both);
        if n != i {
            lemma_not_shown_elsewhere(ps, task_id, subtask_id, k);
            lemma_filter_keeps_all(owned_by(ps, k), other_subtask(subtask_id));
        }
    }
    assert(tree_of(pt, ps2) =~= c2);
}

proof fn lemma_remove_subtask(st: StoreView, task_id: i64, subtask_id: i64)
    requires
        store_wf(st),
    ensures
        store_wf(store_after(st, reloaded(st), Mutation::RemoveSubtask { task_id, subtask_id })),
        cache_after(reloaded(st), Mutation::RemoveSubtask { task_id, subtask_id }) == reloaded(
            store_after(st, reloaded(st), Mutation::RemoveSubtask { task_id, subtask_id }),
        ),
{
    let c = reloaded(st);
    lemma_reloaded_tree(st);
    let pt = pending_tasks(st);
    let ps = pending_sub_tasks(st);
    if has_located_subtask(c, task_id, subtask_id) {
        let st2 = store_after(st, c, Mutation::RemoveSubtask { task_id, subtask_id });
        lemma_filter_unique(st.sub_tasks, other_subtask(subtask_id), subtask_key());
        let both = |s: SubTaskView| s.id != subtask_id && !s.completed;
        lemma_filter_twice(st.sub_tasks, other_subtask(subtask_id), subtask_pending(), both);
        lemma_filter_twice(st.sub_tasks, subtask_pending(), other_subtask(subtask_id), both);
        lemma_reloaded_tree(st2);
        lemma_tree_without_subtask(pt, ps, task_id, subtask_id);
    } else if has_task(c, task_id) {
        let i = choose|i: int| 0 <= i < c.len() && c[i].task.id == task_id;
        lemma_first_is_only(pt, ps, i);
        lemma_filter_keeps_all(c[i].subtasks, other_subtask(subtask_id));
        assert(c.update(i, c[i]) =~= c);
    }
}

proof fn lemma_complete_subtask(st: StoreView, task_id: i64, subtask_id: i64)
    requires
        store_wf(st),
    ensures
        store_wf(store_after(st, reloaded(st), Mutation::CompleteSubtask { task_id, subtask_id })),
        cache_after(reloaded(st), Mutation::CompleteSubtask { task_id, subtask_id }) == reloaded(
            store_after(st, reloaded(st), Mutation::CompleteSubtask { task_id, subtask_id }),
        ),
{
    let c = reloaded(st);
    lemma_reloaded_tree(st);
    let pt = pending_tasks(st);
    let ps = pending_sub_tasks(st);
    if has_located_subtask(c, task_id, subtask_id) {
        let st2 = store_after(st, c, Mutation::CompleteSubtask { task_id, subtask_id });
        let m = mark_subtask_done(subtask_id);
        assert(unique_by(st2.sub_tasks, subtask_key())) by {
            assert forall|i: int, j: int|
                0 <= i < st2.sub_tasks.len() && 0 <= j < st2.sub_tasks.len() && #[trigger] subtask_key()(
                    st2.sub_tasks[i],
                ) == #[trigger] subtask_key()(st2.sub_tasks[j]) implies i == j by {
                assert(subtask_key()(st.sub_tasks[i]) == subtask_key()(st.sub_tasks[j]));
            }
        }
        let q = |s: SubTaskView| s.id != subtask_id && !s.completed;
        lemma_map_then_filter(st.sub_tasks, m, subtask_pending(), q);
        let kept = st.sub_tasks.filter(q);
        assert forall|i: int| 0 <= i < kept.len() implies m(kept[i]) == kept[i] by {
            st.sub_tasks.lemma_filter_pred(q, i);
        }
        assert(kept.map_values(m) =~= kept);
        lemma_filter_twice(st.sub_tasks, subtask_pending(), other_subtask(subtask_id), q);
        assert(pending_sub_tasks(st2) == ps.filter(other_subtask(subtask_id)));
        lemma_reloaded_tree(st2);
        lemma_tree_without_subtask(pt, ps, task_id, subtask_id);
    } else if has_task(c, task_id) {
        let i = choose|i: int| 0 <= i < c.len() && c[i].task.id == task_id;
        lemma_first_is_only(pt, ps, i);
        lemma_filter_keeps_all(c[i].subtasks, other_subtask(subtask_id));
        assert(c.update(i, c[i]) =~= c);
    }
}

proof fn lemma_edit_subtask_description(
    st: StoreView,
    task_id: i64,
    subtask_id: i64,
    description: Seq<char>,
)
    requires
        store_wf(st),
    ensures
        store_wf(
            store_after(
                st,
                reloaded(st),
                Mutation::EditSubtaskDescription { task_id, subtask_id, description },
            ),
        ),
        cache_after(
            reloaded(st),
            Mutation::EditSubtaskDescription { task_id, subtask_id, description },
        ) == reloaded(
            store_after(
                st,
                reloaded(st),
                Mutation::EditSubtaskDescription { task_id, subtask_id, description },
            ),
        ),
{
    let c = reloaded(st);
    lemma_reloaded_tree(st);
    let pt = pending_tasks(st);
    let ps = pending_sub_tasks(st);
    if has_located_subtask(c, task_id, subtask_id) {
        let st2 = store_after(
            st,
            c,
            Mutation::EditSubtaskDescription { task_id, subtask_id, description },
        );
        let g = set_subtask_description(subtask_id, description);
        assert(unique_by(st2.sub_tasks, subtask_key())) by {
            assert forall|i: int, j: int|
                0 <= i < st2.sub_tasks.len() && 0 <= j < st2.sub_tasks.len() && #[trigger] subtask_key()(
                    st2.sub_tasks[i],
                ) == #[trigger] subtask_key()(st2.sub_tasks[j]) implies i == j by {
                assert(subtask_key()(st.sub_tasks[i]) == subtask_key()(st.sub_tasks[j]));
            }
        }
        lemma_map_then_filter(st.sub_tasks, g, subtask_pending(), subtask_pending());
        lemma_reloaded_tree(st2);
        let (i, j) = lemma_located_subtask(pt, ps, task_id, subtask_id);
        let c2 = c.update(i, with_subtask_description(c[i], j, description));
        let ps2 = ps.map_values(g);
        assert forall|n: int| 0 <= n < pt.len() implies #[trigger] tree_of(pt, ps2)[n] == c2[n] by {
            let k = pt[n].id;
            let own = |st: SubTaskView| st.task_id == k;
            lemma_map_then_filter(ps, g, own, own);
            if n != i {
                lemma_not_shown_elsewhere(ps, task_id, subtask_id, k);
                assert(owned_by(ps, k).map_values(g) =~= owned_by(ps, k));
            } else {
                assert(owned_by(ps, k).map_values(g) =~= c[i].subtasks.update(
                    j,
                    SubTaskView { description, ..c[i].subtasks[j] },
                ));
            }
        }
        assert(tree_of(pt, ps2) =~= c2);
    }
}

pub proof fn lemma_first_task_index(c: Seq<DetailView>, i: int, id: i64)
    requires
        is_first_task(c, i, id),
    ensures
        first_task_index(c, id) == i,
{
    let f = first_task_index(c, id);
    assert(is_first_task(c, f, id));
}

pub proof fn lemma_first_subtask_index(s: Seq<SubTaskView>, j: int, id: i64)
    requires
        is_first_subtask(s, j, id),
    ensures
        first_subtask_index(s, id) == j,
{
    let f = first_subtask_index(s, id);
    assert(is_first_subtask(s, f, id));
}

/// Creating a task and then loading the pending tasks gives the created row
/// exactly once, not completed, after the rows that were pending before.
pub proof fn lemma_created_task_pending(st: StoreView, c: Seq<DetailView>, task: TaskView)
    requires
        store_wf(st),
        fresh(st, Mutation::AddTask { task }),
    ensures
        pending_tasks(store_after(st, c, Mutation::AddTask { task })) == pending_tasks(st).push(task),
        !task.completed,
        forall|k: int|
            0 <= k < pending_tasks(store_after(st, c, Mutation::AddTask { task })).len() && (
            #[trigger] pending_tasks(store_after(st, c, Mutation::AddTask { task }))[k]).id
                == task.id ==> k == pending_tasks(st).len(),
{
    let pt = pending_tasks(st);
    st.tasks.lemma_filter_push(task, task_pending());
    assert forall|k: int| 0 <= k < pt.len() implies pt[k].id != task.id by {
        assert(pt.contains(pt[k]));
        st.tasks.lemma_filter_contains_rev(task_pending(), pt[k]);
    }
}

/// A request that succeeds on a tree equal to what a load of the store
/// builds leaves the tree equal to what a load of the changed store builds,
/// provided the ids that the store hands out are new.
pub proof fn lemma_parity_step(st: StoreView, m: Mutation)
    requires
        store_wf(st),
        fresh(st, m),
    ensures
        store_wf(store_after(st, reloaded(st), m)),
        cache_after(reloaded(st), m) == reloaded(store_after(st, reloaded(st), m)),
{
    match m {
        Mutation::AddTask { task } => lemma_add_task(st, task),
        Mutation::AddSubtask { subtask } => lemma_add_subtask(st, subtask),
        Mutation::EditTaskTitle { task_id, title } => lemma_edit_task_title(st, task_id, title),
        Mutation::EditTaskDescription { task_id, description } => lemma_edit_task_description(
            st,
            task_id,
            description,
        ),
        Mutation::EditSubtaskDescription { task_id, subtask_id, description } =>
            lemma_edit_subtask_description(st, task_id, subtask_id, description),
        Mutation::CompleteSubtask { task_id, subtask_id } => lemma_complete_subtask(
            st,
            task_id,
            subtask_id,
        ),
        Mutation::CompleteTask { task_id, today } => lemma_complete_task(st, task_id, today),
        Mutation::RemoveSubtask { task_id, subtask_id } => lemma_remove_subtask(
            st,
            task_id,
            subtask_id,
        ),
        Mutation::RemoveTask { task_id } => lemma_remove_task(st, task_id),
    }
}

/// The store and the tree after the requests `ms`, in order, starting from
/// the store `st` and the tree `c`.
pub open spec fn run(st: StoreView, c: Seq<DetailView>, ms: Seq<Mutation>) -> (StoreView, Seq<
    DetailView,
>)
    decreases ms.len(),
{
    if ms.len() == 0 {
        (st, c)
    } else {
        let (st1, c1) = run(st, c, ms.drop_last());
        (store_after(st1, c1, ms.last()), cache_after(c1, ms.last()))
    }
}

/// Each request of `ms` gets new ids from the store it meets.
pub open spec fn all_fresh(st: StoreView, c: Seq<DetailView>, ms: Seq<Mutation>) -> bool
    decreases ms.len(),
{
    ms.len() == 0 || (all_fresh(st, c, ms.drop_last()) && fresh(run(st, c, ms.drop_last()).0, ms.last()))
}

/// After any sequence of requests that all succeed, starting from a tree
/// loaded from the store, loading the store again builds the tree that the
/// manager holds.
pub proof fn lemma_parity(st: StoreView, ms: Seq<Mutation>)
    requires
        store_wf(st),
        all_fresh(st, reloaded(st), ms),
    ensures
        store_wf(run(st, reloaded(st), ms).0),
        run(st, reloaded(st), ms).1 == reloaded(run(st, reloaded(st), ms).0),
    decreases ms.len(),
{
    if ms.len() > 0 {
        lemma_parity(st, ms.drop_last());
        let (st1, c1) = run(st, reloaded(st), ms.drop_last());
        lemma_parity_step(st1, ms.last());
    }
}

} // verus!
