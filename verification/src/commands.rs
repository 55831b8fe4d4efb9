//! The operations the boundary layer exposes: each command works on the
//! database and returns plain values.  Locking, serialization and message
//! formatting stay with the shell; every rule below is verified.

use vstd::prelude::*;

use crate::category::{
    updated_category, Category, CategoryModel, CategoryUpdateModel, CreateCategoryRequest,
    UpdateCategoryRequest,
};
use crate::database::Database;
use crate::error::AppError;
use crate::hierarchy::{
    bulk_marked, cascade_remaining, hierarchy_result, in_subtree, lemma_task_of_index,
    mark_done_model, promote_remaining, subtree_listing, completed_subtree_listing, TaskProgress,
};
use crate::repository::{
    category_of, contains_category_id, contains_task_id, has_child, lemma_filter_push,
    replace_by_id, replace_category_by_id, sorted_by_name, task_of, unique_task_ids,
};
use crate::task::{
    created_task, filter_of, matches_filter, updated_task, CreateTaskRequest, FilterModel, Task,
    TaskFilter, TaskModel, UpdateTaskRequest,
};

verus! {

/// A task after its completion flag is flipped, with a fresh stamp.
pub open spec fn toggled_task(m: TaskModel, now: i64) -> TaskModel {
    TaskModel { completed: !m.completed, updated_at: now, ..m }
}

/// The filter a plain search uses: a query and nothing else.
pub open spec fn search_filter(q: Seq<char>) -> FilterModel {
    FilterModel {
        completed: None,
        priority: None,
        category_id: None,
        parent_id: None,
        search_query: Some(q),
        due_before: None,
        due_after: None,
        no_category: None,
    }
}

/// The filter a category listing uses: one category and nothing else.
pub open spec fn category_filter(cid: Seq<char>) -> FilterModel {
    FilterModel {
        completed: None,
        priority: None,
        category_id: Some(cid),
        parent_id: None,
        search_query: None,
        due_before: None,
        due_after: None,
        no_category: None,
    }
}

/// The filter a direct-children listing uses: one parent and nothing else.
pub open spec fn parent_filter(pid: Seq<char>) -> FilterModel {
    FilterModel {
        completed: None,
        priority: None,
        category_id: None,
        parent_id: Some(pid),
        search_query: None,
        due_before: None,
        due_after: None,
        no_category: None,
    }
}

/// The task store after cascade-deleting each listed id in order.
pub open spec fn cascade_fold(s: Seq<TaskModel>, ids: Seq<Seq<char>>) -> Seq<TaskModel>
    decreases ids.len(),
{
    if ids.len() == 0 {
        s
    } else {
        cascade_fold(cascade_remaining(s, ids[0]), ids.drop_first())
    }
}

/// The task store after promote-deleting each listed id in order, and whether
/// every id resolved; the first missing id stops the run.
pub open spec fn promote_fold(s: Seq<TaskModel>, ids: Seq<Seq<char>>, now: i64) -> (
    Seq<TaskModel>,
    bool,
)
    decreases ids.len(),
{
    if ids.len() == 0 {
        (s, true)
    } else if !contains_task_id(s, ids[0]) {
        (s, false)
    } else {
        promote_fold(promote_remaining(s, ids[0], now), ids.drop_first(), now)
    }
}

/// Creates a task from a request: validation, defaulting and stamping happen
/// here, and the record is inserted.  Fails only if the drawn id collides
/// with a stored one.
pub fn create_task(db: &mut Database, request: CreateTaskRequest, now: i64) -> (r: Result<
    Task,
    AppError,
>)
    requires
        old(db).wf(),
    ensures
        final(db).wf(),
        final(db).categories@ == old(db).categories@,
        r matches Ok(t) ==> t@ == created_task(request, t@.id, now) && !contains_task_id(
            old(db).tasks@,
            t@.id,
        ) && final(db).tasks@ == old(db).tasks@.push(t@),
        r matches Err(e) ==> e == AppError::DuplicateId && final(db).tasks@ == old(db).tasks@,
{
    let task = Task::new(request, now);
    match db.tasks.create(&task) {
        Ok(()) => Ok(task),
        Err(e) => Err(e),
    }
}

/// Lists the tasks that pass the filter, newest-created first.
pub fn get_tasks(db: &Database, filter: Option<TaskFilter>) -> (r: Vec<Task>)
    ensures
        r.deep_view() == db.tasks@.filter(
            |m: TaskModel| matches_filter(m, filter_of(filter)),
        ).reverse(),
{
    db.tasks.get_all(filter)
}

/// Looks a task up by id.
pub fn get_task_by_id(db: &Database, id: &str) -> (r: Option<Task>)
    requires
        db.wf(),
    ensures
        match r {
            Some(t) => contains_task_id(db.tasks@, id@) && t@ == task_of(db.tasks@, id@),
            None => !contains_task_id(db.tasks@, id@),
        },
{
    db.tasks.get_by_id(id)
}

/// Applies a partial update to the task with this id and stores the result.
pub fn update_task(db: &mut Database, id: &str, request: UpdateTaskRequest, now: i64) -> (r:
    Result<Task, AppError>)
    requires
        old(db).wf(),
    ensures
        final(db).wf(),
        final(db).categories@ == old(db).categories@,
        !contains_task_id(old(db).tasks@, id@) ==> r == Result::<Task, AppError>::Err(
            AppError::TaskNotFound,
        ) && final(db).tasks@ == old(db).tasks@,
        contains_task_id(old(db).tasks@, id@) ==> (r matches Ok(t) && t@ == updated_task(
            task_of(old(db).tasks@, id@),
            request@,
            now,
        ) && final(db).tasks@ == replace_by_id(old(db).tasks@, t@)),
{
    let mut task = match db.tasks.get_by_id(id) {
        Some(t) => t,
        None => {
            return Err(AppError::TaskNotFound);
        },
    };
    task.update(request, now);
    db.tasks.update(&task);
    Ok(task)
}

/// Deletes one task; its children stay and keep their parent reference.
pub fn delete_task(db: &mut Database, id: &str)
    requires
        old(db).wf(),
    ensures
        final(db).wf(),
        final(db).categories@ == old(db).categories@,
        final(db).tasks@ == old(db).tasks@.filter(|m: TaskModel| m.id != id@),
{
    db.tasks.delete(id);
}

/// Deletes a task with its whole subtree.
pub fn delete_task_with_subtasks(db: &mut Database, id: &str)
    requires
        old(db).wf(),
    ensures
        final(db).wf(),
        final(db).categories@ == old(db).categories@,
        final(db).tasks@ == cascade_remaining(old(db).tasks@, id@),
{
    db.tasks.delete_task_and_subtasks(id);
}

/// Deletes a task and promotes its direct children to its own parent.
pub fn delete_task_and_promote_subtasks(db: &mut Database, id: &str, now: i64) -> (r: Result<
    (),
    AppError,
>)
    requires
        old(db).wf(),
    ensures
        final(db).wf(),
        final(db).categories@ == old(db).categories@,
        !contains_task_id(old(db).tasks@, id@) ==> r == Result::<(), AppError>::Err(
            AppError::TaskNotFound,
        ) && final(db).tasks@ == old(db).tasks@,
        contains_task_id(old(db).tasks@, id@) ==> r == Result::<(), AppError>::Ok(())
            && final(db).tasks@ == promote_remaining(old(db).tasks@, id@, now),
{
    db.tasks.delete_task_and_promote_subtasks(id, now)
}

/// Whether the task has any direct child.
pub fn check_task_has_subtasks(db: &Database, id: &str) -> (r: bool)
    ensures
        r == has_child(db.tasks@, id@),
{
    db.tasks.has_subtasks(id)
}

/// Flips a task's completion flag and stamps it.
pub fn toggle_task_completion(db: &mut Database, id: &str, now: i64) -> (r: Result<
    Task,
    AppError,
>)
    requires
        old(db).wf(),
    ensures
        final(db).wf(),
        final(db).categories@ == old(db).categories@,
        !contains_task_id(old(db).tasks@, id@) ==> r == Result::<Task, AppError>::Err(
            AppError::TaskNotFound,
        ) && final(db).tasks@ == old(db).tasks@,
        contains_task_id(old(db).tasks@, id@) ==> (r matches Ok(t) && t@ == toggled_task(
            task_of(old(db).tasks@, id@),
            now,
        ) && final(db).tasks@ == replace_by_id(old(db).tasks@, t@)),
{
    let mut task = match db.tasks.get_by_id(id) {
        Some(t) => t,
        None => {
            return Err(AppError::TaskNotFound);
        },
    };
    task.completed = !task.completed;
    task.updated_at = now;
    db.tasks.update(&task);
    Ok(task)
}

/// Lists the tasks whose title or description holds the query, newest first.
pub fn search_tasks(db: &Database, query: String) -> (r: Vec<Task>)
    ensures
        r.deep_view() == db.tasks@.filter(
            |m: TaskModel| matches_filter(m, search_filter(query@)),
        ).reverse(),
{
    let filter = TaskFilter {
        completed: None,
        priority: None,
        category_id: None,
        parent_id: None,
        search_query: Some(query),
        due_before: None,
        due_after: None,
        no_category: None,
    };
    let r = db.tasks.get_all(Some(filter));
    proof {
        assert(filter_of(Some(filter)) == search_filter(query@));
    }
    r
}

/// Lists the tasks of one category, newest first.
pub fn get_tasks_by_category(db: &Database, category_id: String) -> (r: Vec<Task>)
    ensures
        r.deep_view() == db.tasks@.filter(
            |m: TaskModel| matches_filter(m, category_filter(category_id@)),
        ).reverse(),
{
    let filter = TaskFilter {
        completed: None,
        priority: None,
        category_id: Some(category_id),
        parent_id: None,
        search_query: None,
        due_before: None,
        due_after: None,
        no_category: None,
    };
    let r = db.tasks.get_all(Some(filter));
    proof {
        assert(filter_of(Some(filter)) == category_filter(category_id@));
    }
    r
}

/// Lists the direct children of one task, newest first.
pub fn get_subtasks(db: &Database, parent_id: String) -> (r: Vec<Task>)
    ensures
        r.deep_view() == db.tasks@.filter(
            |m: TaskModel| matches_filter(m, parent_filter(parent_id@)),
        ).reverse(),
{
    let filter = TaskFilter {
        completed: None,
        priority: None,
        category_id: None,
        parent_id: Some(parent_id),
        search_query: None,
        due_before: None,
        due_after: None,
        no_category: None,
    };
    let r = db.tasks.get_all(Some(filter));
    proof {
        assert(filter_of(Some(filter)) == parent_filter(parent_id@));
    }
    r
}

/// Lists the whole subtree under `root_id`, or every root-level task with its
/// descendants when no id is given.
pub fn get_task_hierarchy(db: &Database, root_id: Option<String>) -> (r: Vec<Task>)
    requires
        db.wf(),
    ensures
        hierarchy_result(db.tasks@, root_id.deep_view(), r.deep_view()),
{
    db.tasks.get_task_hierarchy(root_id)
}

/// The task itself followed by its whole subtree.
pub fn get_task_with_subtasks(db: &Database, id: &str) -> (r: Result<Vec<Task>, AppError>)
    requires
        db.wf(),
    ensures
        !contains_task_id(db.tasks@, id@) ==> r == Result::<Vec<Task>, AppError>::Err(
            AppError::TaskNotFound,
        ),
        contains_task_id(db.tasks@, id@) ==> (r matches Ok(v) && v.deep_view().len() >= 1
            && v.deep_view()[0] == task_of(db.tasks@, id@) && hierarchy_result(
            db.tasks@,
            Some(id@),
            v.deep_view().drop_first(),
        )),
{
    let main_task = match db.tasks.get_by_id(id) {
        Some(t) => t,
        None => {
            return Err(AppError::TaskNotFound);
        },
    };
    let mut subtasks = db.tasks.get_task_hierarchy(Some(id.to_owned()));
    let ghost subs = subtasks.deep_view();
    let mut all_tasks: Vec<Task> = Vec::new();
    all_tasks.push(main_task);
    all_tasks.append(&mut subtasks);
    proof {
        assert(all_tasks.deep_view().len() == 1 + subs.len());
        assert(all_tasks.deep_view().drop_first() =~= subs);
    }
    Ok(all_tasks)
}

/// Aggregates progress under a task.
pub fn calculate_task_progress(db: &Database, id: &str) -> (r: TaskProgress)
    requires
        db.wf(),
    ensures
        r.total_subtasks == subtree_listing(db.tasks@, id@).len(),
        r.completed_subtasks == completed_subtree_listing(db.tasks@, id@).len(),
        r.completed_subtasks <= r.total_subtasks,
        r.has_subtasks == (r.total_subtasks > 0),
{
    db.tasks.calculate_task_progress(id)
}

/// Lists the incomplete tasks of the subtree under `parent_id`: each one
/// once, no order promised.
pub fn get_incomplete_subtasks(db: &Database, parent_id: &str) -> (r: Vec<Task>)
    requires
        db.wf(),
    ensures
        unique_task_ids(r.deep_view()),
        forall|i: int|
            0 <= i < r.deep_view().len() ==> contains_task_id(
                db.tasks@,
                (#[trigger] r.deep_view()[i]).id,
            ) && r.deep_view()[i] == task_of(db.tasks@, r.deep_view()[i].id) && in_subtree(
                db.tasks@,
                r.deep_view()[i].id,
                Some(parent_id@),
            ) && !r.deep_view()[i].completed,
        forall|j: int|
            0 <= j < db.tasks@.len() && in_subtree(
                db.tasks@,
                (#[trigger] db.tasks@[j]).id,
                Some(parent_id@),
            ) && !db.tasks@[j].completed ==> contains_task_id(r.deep_view(), db.tasks@[j].id),
{
    broadcast use vstd::seq_lib::group_filter_ensures;
    broadcast use crate::repository::lemma_filter_elem_of;
    broadcast use crate::repository::lemma_filter_unique_task_ids;

    let ghost s = db.tasks@;
    let ghost root = parent_id@;
    let all_subtasks = db.tasks.get_task_hierarchy(Some(parent_id.to_owned()));
    let ghost out = all_subtasks.deep_view();
    proof {
        assert(hierarchy_result(s, Some(root), out));
    }
    let n = all_subtasks.len();
    let mut incomplete: Vec<Task> = Vec::new();
    let mut i: usize = 0;
    proof {
        assert(out.subrange(0, 0) =~= Seq::<TaskModel>::empty());
        reveal(Seq::filter);
        assert(incomplete.deep_view() =~= out.subrange(0, 0).filter(
            |m: TaskModel| !m.completed,
        ));
    }
    while i < n
        invariant
            n == out.len(),
            n == all_subtasks@.len(),
            out == all_subtasks.deep_view(),
            0 <= i <= n,
            incomplete.deep_view() == out.subrange(0, i as int).filter(
                |m: TaskModel| !m.completed,
            ),
        decreases n - i,
    {
        let ghost pre = incomplete.deep_view();
        if !all_subtasks[i].completed {
            incomplete.push(all_subtasks[i].clone());
            proof {
                assert(incomplete.deep_view() =~= pre.push(out[i as int]));
            }
        }
        proof {
            lemma_filter_push(
                out.subrange(0, i as int),
                out[i as int],
                |m: TaskModel| !m.completed,
            );
            assert(out.subrange(0, i + 1) =~= out.subrange(0, i as int).push(out[i as int]));
        }
        i += 1;
    }
    proof {
        assert(out.subrange(0, n as int) =~= out);
        let rd = out.filter(|m: TaskModel| !m.completed);
        assert(hierarchy_result(s, Some(root), out));
        assert forall|i2: int| 0 <= i2 < rd.len() implies contains_task_id(
            s,
            (#[trigger] rd[i2]).id,
        ) && rd[i2] == task_of(s, rd[i2].id) && in_subtree(s, rd[i2].id, Some(root)) && !rd[
            i2
        ].completed by {
            assert(out.contains(rd[i2]));
            let w = choose|w: int| 0 <= w < out.len() && out[w] == rd[i2];
        }
        assert forall|j: int|
            0 <= j < s.len() && in_subtree(s, (#[trigger] s[j]).id, Some(root)) && !s[
                j
            ].completed implies contains_task_id(rd, s[j].id) by {
            assert(contains_task_id(out, s[j].id));
            let w = choose|w: int| 0 <= w < out.len() && out[w].id == s[j].id;
            lemma_task_of_index(s, j);
            assert(out[w] == s[j]);
            assert(rd.contains(out[w]));
            let w2 = choose|w2: int| 0 <= w2 < rd.len() && rd[w2] == out[w];
        }
    }
    incomplete
}

/// Marks every task in the subtree completed and returns exactly the ones
/// that changed.
pub fn bulk_mark_subtasks_completed(db: &mut Database, parent_id: &str, now: i64) -> (r: Vec<
    Task,
>)
    requires
        old(db).wf(),
    ensures
        final(db).wf(),
        final(db).categories@ == old(db).categories@,
        final(db).tasks@ == bulk_marked(old(db).tasks@, parent_id@, now),
        unique_task_ids(r.deep_view()),
        forall|i: int|
            0 <= i < r.deep_view().len() ==> contains_task_id(
                old(db).tasks@,
                (#[trigger] r.deep_view()[i]).id,
            ) && in_subtree(old(db).tasks@, r.deep_view()[i].id, Some(parent_id@)) && !task_of(
                old(db).tasks@,
                r.deep_view()[i].id,
            ).completed && r.deep_view()[i] == mark_done_model(
                task_of(old(db).tasks@, r.deep_view()[i].id),
                now,
            ),
        forall|j: int|
            0 <= j < old(db).tasks@.len() && in_subtree(
                old(db).tasks@,
                (#[trigger] old(db).tasks@[j]).id,
                Some(parent_id@),
            ) && !old(db).tasks@[j].completed ==> contains_task_id(
                r.deep_view(),
                old(db).tasks@[j].id,
            ),
{
    db.tasks.bulk_mark_subtasks_completed(parent_id, now)
}

/// Keeps, in order, the given ids that have at least one direct child.
pub fn bulk_check_tasks_have_subtasks(db: &Database, ids: Vec<String>) -> (r: Vec<String>)
    ensures
        r.deep_view() == ids.deep_view().filter(|id: Seq<char>| has_child(db.tasks@, id)),
{
    let ghost p = |id: Seq<char>| has_child(db.tasks@, id);
    let ghost idv = ids.deep_view();
    let n = ids.len();
    let mut with_subtasks: Vec<String> = Vec::new();
    let mut i: usize = 0;
    proof {
        assert(idv.subrange(0, 0) =~= Seq::<Seq<char>>::empty());
        reveal(Seq::filter);
        assert(with_subtasks.deep_view() =~= idv.subrange(0, 0).filter(p));
    }
    while i < n
        invariant
            n == idv.len(),
            n == ids@.len(),
            idv == ids.deep_view(),
            0 <= i <= n,
            with_subtasks.deep_view() == idv.subrange(0, i as int).filter(p),
            p == (|id: Seq<char>| has_child(db.tasks@, id)),
        decreases n - i,
    {
        let ghost pre = with_subtasks.deep_view();
        if db.tasks.has_subtasks(ids[i].as_str()) {
            with_subtasks.push(ids[i].clone());
            proof {
                assert(with_subtasks.deep_view() =~= pre.push(idv[i as int]));
            }
        }
        proof {
            lemma_filter_push(idv.subrange(0, i as int), idv[i as int], p);
            assert(idv.subrange(0, i + 1) =~= idv.subrange(0, i as int).push(idv[i as int]));
        }
        i += 1;
    }
    proof {
        assert(idv.subrange(0, n as int) =~= idv);
    }
    with_subtasks
}

/// Cascade-deletes each listed id in order.
pub fn bulk_delete_tasks_with_subtasks(db: &mut Database, ids: Vec<String>)
    requires
        old(db).wf(),
    ensures
        final(db).wf(),
        final(db).categories@ == old(db).categories@,
        final(db).tasks@ == cascade_fold(old(db).tasks@, ids.deep_view()),
{
    let ghost s0 = old(db).tasks@;
    let ghost idv = ids.deep_view();
    proof {
        assert(idv.skip(0) =~= idv);
    }
    let n = ids.len();
    let mut i: usize = 0;
    while i < n
        invariant
            db.wf(),
            n == idv.len(),
            n == ids@.len(),
            idv == ids.deep_view(),
            0 <= i <= n,
            db.categories@ == old(db).categories@,
            cascade_fold(s0, idv) == cascade_fold(db.tasks@, idv.skip(i as int)),
        decreases n - i,
    {
        let ghost prev = db.tasks@;
        db.tasks.delete_task_and_subtasks(ids[i].as_str());
        proof {
            assert(idv.skip(i as int)[0] == idv[i as int]);
            assert(idv.skip(i as int).drop_first() =~= idv.skip(i + 1));
            assert(cascade_fold(prev, idv.skip(i as int)) == cascade_fold(
                cascade_remaining(prev, idv[i as int]),
                idv.skip(i + 1),
            ));
        }
        i += 1;
    }
    proof {
        assert(idv.skip(n as int).len() == 0);
        assert(cascade_fold(db.tasks@, idv.skip(n as int)) == db.tasks@);
    }
}

/// Promote-deletes each listed id in order; the first id that does not
/// resolve stops the run and surfaces the failure.
pub fn bulk_delete_tasks_and_promote_subtasks(db: &mut Database, ids: Vec<String>, now: i64) -> (
    r: Result<(), AppError>)
    requires
        old(db).wf(),
    ensures
        final(db).wf(),
        final(db).categories@ == old(db).categories@,
        final(db).tasks@ == promote_fold(old(db).tasks@, ids.deep_view(), now).0,
        (r is Ok) == promote_fold(old(db).tasks@, ids.deep_view(), now).1,
        r matches Err(e) ==> e == AppError::TaskNotFound,
{
    let ghost s0 = old(db).tasks@;
    let ghost idv = ids.deep_view();
    proof {
        assert(idv.skip(0) =~= idv);
    }
    let n = ids.len();
    let mut i: usize = 0;
    while i < n
        invariant
            db.wf(),
            n == idv.len(),
            n == ids@.len(),
            idv == ids.deep_view(),
            0 <= i <= n,
            db.categories@ == old(db).categories@,
            s0 == old(db).tasks@,
            promote_fold(s0, idv, now) == promote_fold(db.tasks@, idv.skip(i as int), now),
        decreases n - i,
    {
        let ghost prev = db.tasks@;
        match db.tasks.delete_task_and_promote_subtasks(ids[i].as_str(), now) {
            Ok(()) => {
                proof {
                    assert(idv.skip(i as int)[0] == idv[i as int]);
                    assert(idv.skip(i as int).drop_first() =~= idv.skip(i + 1));
                    assert(promote_fold(prev, idv.skip(i as int), now) == promote_fold(
                        promote_remaining(prev, idv[i as int], now),
                        idv.skip(i + 1),
                        now,
                    ));
                }
            },
            Err(e) => {
                proof {
                    assert(idv.skip(i as int)[0] == idv[i as int]);
                    assert(!contains_task_id(prev, idv[i as int]));
                    assert(db.tasks@ == prev);
                    assert(promote_fold(prev, idv.skip(i as int), now) == (prev, false));
                    assert(promote_fold(s0, idv, now).0 == prev);
                    assert(promote_fold(s0, idv, now).1 == false);
                }
                return Err(e);
            },
        }
        i += 1;
    }
    proof {
        assert(idv.skip(n as int).len() == 0);
        assert(promote_fold(db.tasks@, idv.skip(n as int), now) == (db.tasks@, true));
    }
    Ok(())
}

/// Creates a category and inserts it.  Fails only if the drawn id collides.
pub fn create_category(
    db: &mut Database,
    name: String,
    color: String,
    icon: Option<String>,
    now: i64,
) -> (r: Result<Category, AppError>)
    requires
        old(db).wf(),
    ensures
        final(db).wf(),
        final(db).tasks@ == old(db).tasks@,
        r matches Ok(c) ==> c@ == (CategoryModel {
            id: c@.id,
            name: name@,
            color: color@,
            icon: icon.deep_view(),
            created_at: now,
        }) && !contains_category_id(old(db).categories@, c@.id) && final(db).categories@ == old(
            db,
        ).categories@.push(c@),
        r matches Err(e) ==> e == AppError::DuplicateId && final(db).categories@ == old(
            db,
        ).categories@,
{
    let request = CreateCategoryRequest { name, color, icon };
    let category = Category::new(request, now);
    match db.categories.create(&category) {
        Ok(()) => Ok(category),
        Err(e) => Err(e),
    }
}

/// Lists all categories, sorted by name.
pub fn get_categories(db: &Database) -> (r: Vec<Category>)
    ensures
        r.deep_view().to_multiset() == db.categories@.to_multiset(),
        sorted_by_name(r.deep_view()),
{
    db.categories.get_all()
}

/// Looks a category up by id.
pub fn get_category_by_id(db: &Database, id: &str) -> (r: Option<Category>)
    requires
        db.wf(),
    ensures
        match r {
            Some(c) => contains_category_id(db.categories@, id@) && c@ == category_of(
                db.categories@,
                id@,
            ),
            None => !contains_category_id(db.categories@, id@),
        },
{
    db.categories.get_by_id(id)
}

/// Applies a partial update to the category with this id.
pub fn update_category(
    db: &mut Database,
    id: &str,
    name: Option<String>,
    color: Option<String>,
    icon: Option<String>,
) -> (r: Result<Category, AppError>)
    requires
        old(db).wf(),
    ensures
        final(db).wf(),
        final(db).tasks@ == old(db).tasks@,
        !contains_category_id(old(db).categories@, id@) ==> r == Result::<Category, AppError>::Err(
            AppError::CategoryNotFound,
        ) && final(db).categories@ == old(db).categories@,
        contains_category_id(old(db).categories@, id@) ==> (r matches Ok(c) && c@
            == updated_category(
            category_of(old(db).categories@, id@),
            CategoryUpdateModel {
                name: name.deep_view(),
                color: color.deep_view(),
                icon: icon.deep_view(),
            },
        ) && final(db).categories@ == replace_category_by_id(old(db).categories@, c@)),
{
    let mut category = match db.categories.get_by_id(id) {
        Some(c) => c,
        None => {
            return Err(AppError::CategoryNotFound);
        },
    };
    let request = UpdateCategoryRequest { name, color, icon };
    category.update(request);
    db.categories.update(&category);
    Ok(category)
}

/// Deletes a category.  Tasks that referenced it are not touched: their
/// category reference keeps pointing at the now-missing id.
pub fn delete_category(db: &mut Database, id: &str)
    requires
        old(db).wf(),
    ensures
        final(db).wf(),
        final(db).tasks@ == old(db).tasks@,
        final(db).categories@ == old(db).categories@.filter(|m: CategoryModel| m.id != id@),
{
    db.categories.delete(id);
}

} // verus!
