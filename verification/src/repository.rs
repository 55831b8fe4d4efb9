//! The store: tasks and categories as sequences of records in creation
//! order, keyed by unique ids.  Listing orders are part of the contracts:
//! task listings come newest-created first, direct children oldest first, and
//! categories sorted by name.
//!
//! References are deliberately not policed by the store: a task's `parent_id`
//! and `category_id` are accepted as given, deleting a category never touches
//! the tasks that point at it, and only the two explicit deletion strategies
//! of the hierarchy engine preserve the tree shape — a plain delete leaves
//! children pointing at the removed id.  The laws that need a well-shaped
//! tree take that shape as a hypothesis.

use vstd::multiset::Multiset;
use vstd::prelude::*;

use crate::category::{Category, CategoryModel};
use crate::error::AppError;
use crate::task::{filter_of, matches_filter, Task, TaskFilter, TaskModel};
use crate::text::{lex_le, lemma_lex_antisym, lemma_lex_total, lemma_lex_trans, opt_text_is, opt_texts_eq, str_eq, str_le};

verus! {

/// Some stored task carries this id.
pub open spec fn contains_task_id(s: Seq<TaskModel>, id: Seq<char>) -> bool {
    exists|i: int| 0 <= i < s.len() && s[i].id == id
}

/// The index of the task with this id (meaningful under `unique_task_ids`
/// when `contains_task_id` holds).
pub open spec fn task_index(s: Seq<TaskModel>, id: Seq<char>) -> int {
    choose|i: int| 0 <= i < s.len() && s[i].id == id
}

/// The stored task with this id.
pub open spec fn task_of(s: Seq<TaskModel>, id: Seq<char>) -> TaskModel {
    s[task_index(s, id)]
}

/// No two stored tasks share an id.
pub open spec fn unique_task_ids(s: Seq<TaskModel>) -> bool {
    forall|i: int, j: int| 0 <= i < j < s.len() ==> s[i].id != s[j].id
}

/// Every record whose id is `t.id` takes `t`'s fields, except the creation
/// stamp, which is immutable at the store; the rest stay.
pub open spec fn replace_by_id(s: Seq<TaskModel>, t: TaskModel) -> Seq<TaskModel> {
    s.map_values(
        |m: TaskModel| if m.id == t.id {
            TaskModel { created_at: m.created_at, ..t }
        } else {
            m
        },
    )
}

/// Some stored task has this parent.
pub open spec fn has_child(s: Seq<TaskModel>, id: Seq<char>) -> bool {
    exists|i: int| 0 <= i < s.len() && s[i].parent_id == Some(id)
}

/// Some stored category carries this id.
pub open spec fn contains_category_id(s: Seq<CategoryModel>, id: Seq<char>) -> bool {
    exists|i: int| 0 <= i < s.len() && s[i].id == id
}

/// The index of the category with this id.
pub open spec fn category_index(s: Seq<CategoryModel>, id: Seq<char>) -> int {
    choose|i: int| 0 <= i < s.len() && s[i].id == id
}

/// The stored category with this id.
pub open spec fn category_of(s: Seq<CategoryModel>, id: Seq<char>) -> CategoryModel {
    s[category_index(s, id)]
}

/// No two stored categories share an id.
pub open spec fn unique_category_ids(s: Seq<CategoryModel>) -> bool {
    forall|i: int, j: int| 0 <= i < j < s.len() ==> s[i].id != s[j].id
}

/// Every record whose id is `c.id` takes `c`'s fields, except the creation
/// stamp, which is immutable at the store; the rest stay.
pub open spec fn replace_category_by_id(s: Seq<CategoryModel>, c: CategoryModel) -> Seq<
    CategoryModel,
> {
    s.map_values(
        |m: CategoryModel| if m.id == c.id {
            CategoryModel { created_at: m.created_at, ..c }
        } else {
            m
        },
    )
}

/// Categories sorted by name, lexicographically.
pub open spec fn sorted_by_name(s: Seq<CategoryModel>) -> bool {
    forall|i: int, j: int| 0 <= i <= j < s.len() ==> lex_le(s[i].name, s[j].name)
}

/// Some stored category carries this name.
pub open spec fn contains_category_name(s: Seq<CategoryModel>, name: Seq<char>) -> bool {
    exists|i: int| 0 <= i < s.len() && s[i].name == name
}

/// No two stored categories share a name.
pub open spec fn unique_category_names(s: Seq<CategoryModel>) -> bool {
    forall|i: int, j: int| 0 <= i < j < s.len() ==> s[i].name != s[j].name
}

/// `m` is the survivor of its name: among same-named categories, the one
/// whose id comes first.
pub open spec fn name_survivor(s: Seq<CategoryModel>, m: CategoryModel) -> bool {
    forall|j: int| 0 <= j < s.len() && (#[trigger] s[j]).name == m.name ==> lex_le(m.id, s[j].id)
}

/// What collapsing duplicate names leaves: the id-first survivor per name.
pub open spec fn dedup_categories(s: Seq<CategoryModel>) -> Seq<CategoryModel> {
    s.filter(|m: CategoryModel| name_survivor(s, m))
}

/// Filtering a sequence extended by one element.
pub proof fn lemma_filter_push<A>(s: Seq<A>, x: A, pred: spec_fn(A) -> bool)
    ensures
        s.push(x).filter(pred) == if pred(x) {
            s.filter(pred).push(x)
        } else {
            s.filter(pred)
        },
{
    reveal(Seq::filter);
    assert(s.push(x).drop_last() =~= s);
    assert(s.push(x).last() == x);
}

/// Filtering twice is filtering by the conjunction.
pub proof fn lemma_filter_filter<A>(s: Seq<A>, p: spec_fn(A) -> bool, q: spec_fn(A) -> bool)
    ensures
        s.filter(p).filter(q) == s.filter(|a: A| p(a) && q(a)),
    decreases s.len(),
{
    reveal(Seq::filter);
    if s.len() > 0 {
        lemma_filter_filter(s.drop_last(), p, q);
        if p(s.last()) {
            assert(s.filter(p) == s.drop_last().filter(p).push(s.last()));
            lemma_filter_push(s.drop_last().filter(p), s.last(), q);
        }
    }
}

/// Predicates that agree on every element filter alike.
pub proof fn lemma_filter_agree<A>(s: Seq<A>, p: spec_fn(A) -> bool, q: spec_fn(A) -> bool)
    requires
        forall|i: int| 0 <= i < s.len() ==> (p(#[trigger] s[i]) == q(s[i])),
    ensures
        s.filter(p) == s.filter(q),
    decreases s.len(),
{
    reveal(Seq::filter);
    if s.len() > 0 {
        assert(forall|i: int|
            0 <= i < s.drop_last().len() ==> #[trigger] s.drop_last()[i] == s[i]);
        lemma_filter_agree(s.drop_last(), p, q);
        assert(p(s.last()) == q(s.last()));
    }
}

/// One element of a filtered sequence, taken from the unfiltered one.
pub broadcast proof fn lemma_filter_elem_of<A>(s: Seq<A>, pred: spec_fn(A) -> bool, k: int)
    requires
        0 <= k < s.filter(pred).len(),
    ensures
        s.contains(#[trigger] s.filter(pred)[k]),
{
    lemma_filter_contained(s, pred);
}

/// Every element of a filtered sequence occurs in the unfiltered one.
pub proof fn lemma_filter_contained<A>(s: Seq<A>, pred: spec_fn(A) -> bool)
    ensures
        forall|k: int|
            0 <= k < s.filter(pred).len() ==> #[trigger] s.contains(s.filter(pred)[k]),
    decreases s.len(),
{
    reveal(Seq::filter);
    if s.len() > 0 {
        lemma_filter_contained(s.drop_last(), pred);
        assert forall|k: int| 0 <= k < s.filter(pred).len() implies #[trigger] s.contains(
            s.filter(pred)[k],
        ) by {
            let sub = s.drop_last().filter(pred);
            if k < sub.len() {
                assert(s.drop_last().contains(sub[k]));
                let w = choose|w: int|
                    0 <= w < s.drop_last().len() && s.drop_last()[w] == sub[k];
                assert(s[w] == sub[k]);
            } else {
                assert(s.filter(pred)[k] == s.last());
            }
        }
    }
}

/// Filtering keeps task ids unique.
pub broadcast proof fn lemma_filter_unique_task_ids(
    s: Seq<TaskModel>,
    pred: spec_fn(TaskModel) -> bool,
)
    requires
        unique_task_ids(s),
    ensures
        unique_task_ids(#[trigger] s.filter(pred)),
    decreases s.len(),
{
    reveal(Seq::filter);
    if s.len() > 0 {
        assert(unique_task_ids(s.drop_last())) by {
            assert(forall|i: int|
                0 <= i < s.drop_last().len() ==> s.drop_last()[i] == s[i]);
        }
        lemma_filter_unique_task_ids(s.drop_last(), pred);
        if pred(s.last()) {
            let sub = s.drop_last().filter(pred);
            lemma_filter_contained(s.drop_last(), pred);
            assert forall|i: int, j: int|
                0 <= i < j < s.filter(pred).len() implies s.filter(pred)[i].id != s.filter(
                pred,
            )[j].id by {
                if j == s.filter(pred).len() - 1 {
                    assert(s.drop_last().contains(sub[i]));
                    let w = choose|w: int|
                        0 <= w < s.drop_last().len() && s.drop_last()[w] == sub[i];
                    assert(s[w] == sub[i]);
                    assert(s[w].id != s[s.len() - 1].id);
                }
            }
        }
    }
}

/// The task store.  Records stand in creation order; ids are unique.
pub struct TaskRepository {
    tasks: Vec<Task>,
}

impl View for TaskRepository {
    type V = Seq<TaskModel>;

    closed spec fn view(&self) -> Seq<TaskModel> {
        self.tasks.deep_view()
    }
}

impl TaskRepository {
    /// The store's invariant: no two tasks share an id.
    pub open spec fn wf(&self) -> bool {
        unique_task_ids(self@)
    }

    /// An empty task store.
    pub fn new() -> (r: Self)
        ensures
            r@ == Seq::<TaskModel>::empty(),
            r.wf(),
    {
        let r = TaskRepository { tasks: Vec::new() };
        proof {
            assert(r@ =~= Seq::<TaskModel>::empty());
        }
        r
    }

    /// The index of the stored task with this id, if any.
    fn position_of(&self, id: &str) -> (r: Option<usize>)
        ensures
            match r {
                Some(i) => i < self@.len() && self@[i as int].id == id@,
                None => !contains_task_id(self@, id@),
            },
    {
        let n = self.tasks.len();
        let mut i: usize = 0;
        while i < n
            invariant
                n == self@.len(),
                n == self.tasks.len(),
                0 <= i <= n,
                forall|k: int| 0 <= k < i ==> self@[k].id != id@,
            decreases n - i,
        {
            if str_eq(self.tasks[i].id.as_str(), id) {
                return Some(i);
            }
            i += 1;
        }
        None
    }

    /// Inserts a task; an id collision is refused and leaves the store
    /// unchanged, mirroring the primary-key discipline of the schema.  The
    /// parent and category references are stored as given, unchecked.
    pub fn create(&mut self, task: &Task) -> (r: Result<(), AppError>)
        requires
            old(self).wf(),
        ensures
            final(self).wf(),
            contains_task_id(old(self)@, task@.id) ==> r == Result::<(), AppError>::Err(
                AppError::DuplicateId,
            ) && final(self)@ == old(self)@,
            !contains_task_id(old(self)@, task@.id) ==> r == Result::<(), AppError>::Ok(())
                && final(self)@ == old(self)@.push(task@),
    {
        match self.position_of(task.id.as_str()) {
            Some(_) => Err(AppError::DuplicateId),
            None => {
                self.tasks.push(task.clone());
                proof {
                    assert(self@ =~= old(self)@.push(task@));
                }
                Ok(())
            },
        }
    }

    /// Looks a task up by id; `Some` exactly when the id is stored.
    pub fn get_by_id(&self, id: &str) -> (r: Option<Task>)
        requires
            self.wf(),
        ensures
            match r {
                Some(t) => contains_task_id(self@, id@) && t@ == task_of(self@, id@),
                None => !contains_task_id(self@, id@),
            },
    {
        match self.position_of(id) {
            Some(i) => {
                let t = self.tasks[i].clone();
                proof {
                    assert(contains_task_id(self@, id@));
                    let j = task_index(self@, id@);
                    assert(0 <= j < self@.len() && self@[j].id == id@);
                    assert(j == i as int);
                }
                Some(t)
            },
            None => None,
        }
    }

    /// Overwrites the stored task that carries `task.id` with `task`, keeping
    /// the stored creation stamp; a missing id leaves the store unchanged, as
    /// an update that matches no row does.  The new parent and category
    /// references are stored as given, unchecked.
    pub fn update(&mut self, task: &Task)
        requires
            old(self).wf(),
        ensures
            final(self).wf(),
            final(self)@ == replace_by_id(old(self)@, task@),
    {
        let n = self.tasks.len();
        let mut i: usize = 0;
        while i < n
            invariant
                old(self).wf(),
                n == self@.len(),
                n == self.tasks.len(),
                n == old(self)@.len(),
                0 <= i <= n,
                forall|k: int|
                    0 <= k < i ==> self@[k] == (if old(self)@[k].id == task@.id {
                        TaskModel { created_at: old(self)@[k].created_at, ..task@ }
                    } else {
                        old(self)@[k]
                    }),
                forall|k: int| i <= k < n ==> self@[k] == old(self)@[k],
            decreases n - i,
        {
            let ghost pre = self@;
            if str_eq(self.tasks[i].id.as_str(), task.id.as_str()) {
                let mut replacement = task.clone();
                replacement.created_at = self.tasks[i].created_at;
                proof {
                    assert(replacement@ == TaskModel {
                        created_at: pre[i as int].created_at,
                        ..task@
                    });
                }
                self.tasks.set(i, replacement);
                proof {
                    assert(self@ =~= pre.update(
                        i as int,
                        TaskModel { created_at: pre[i as int].created_at, ..task@ },
                    ));
                }
            }
            i += 1;
        }
        proof {
            assert(final(self)@ =~= replace_by_id(old(self)@, task@));
            assert forall|a: int, b: int|
                0 <= a < b < final(self)@.len() implies final(self)@[a].id
                != final(self)@[b].id by {
                assert(final(self)@[a].id == old(self)@[a].id);
                assert(final(self)@[b].id == old(self)@[b].id);
            }
        }
    }

    /// Removes every task that carries this id (at most one, by the
    /// invariant); a missing id leaves the store unchanged.
    pub fn delete(&mut self, id: &str)
        requires
            old(self).wf(),
        ensures
            final(self).wf(),
            final(self)@ == old(self)@.filter(|m: TaskModel| m.id != id@),
    {
        let n = self.tasks.len();
        let mut kept: Vec<Task> = Vec::new();
        let mut i: usize = 0;
        proof {
            assert(old(self)@.subrange(0, 0) =~= Seq::<TaskModel>::empty());
            reveal(Seq::filter);
            assert(kept.deep_view() =~= old(self)@.subrange(0, 0).filter(
                |m: TaskModel| m.id != id@,
            ));
        }
        while i < n
            invariant
                n == self@.len(),
                n == self.tasks.len(),
                self@ == old(self)@,
                0 <= i <= n,
                kept.deep_view() == old(self)@.subrange(0, i as int).filter(
                    |m: TaskModel| m.id != id@,
                ),
            decreases n - i,
        {
            let ghost pre = kept.deep_view();
            if !str_eq(self.tasks[i].id.as_str(), id) {
                kept.push(self.tasks[i].clone());
                proof {
                    assert(kept.deep_view() =~= pre.push(self@[i as int]));
                }
            }
            proof {
                lemma_filter_push(
                    old(self)@.subrange(0, i as int),
                    old(self)@[i as int],
                    |m: TaskModel| m.id != id@,
                );
                assert(old(self)@.subrange(0, i + 1) =~= old(self)@.subrange(0, i as int).push(
                    old(self)@[i as int],
                ));
            }
            i += 1;
        }
        proof {
            assert(old(self)@.subrange(0, n as int) =~= old(self)@);
            lemma_filter_unique_task_ids(old(self)@, |m: TaskModel| m.id != id@);
        }
        self.tasks = kept;
    }

    /// Lists the tasks that pass the filter (all of them when no filter is
    /// given), newest-created first.
    pub fn get_all(&self, filter: Option<TaskFilter>) -> (r: Vec<Task>)
        ensures
            r.deep_view() == self@.filter(
                |m: TaskModel| matches_filter(m, filter_of(filter)),
            ).reverse(),
    {
        let ghost p = |m: TaskModel| matches_filter(m, filter_of(filter));
        let n = self.tasks.len();
        let mut found: Vec<Task> = Vec::new();
        let mut i: usize = 0;
        proof {
            assert(self@.subrange(0, 0) =~= Seq::<TaskModel>::empty());
            reveal(Seq::filter);
            assert(found.deep_view() =~= self@.subrange(0, 0).filter(p));
        }
        while i < n
            invariant
                n == self@.len(),
                n == self.tasks.len(),
                0 <= i <= n,
                found.deep_view() == self@.subrange(0, i as int).filter(p),
                p == (|m: TaskModel| matches_filter(m, filter_of(filter))),
            decreases n - i,
        {
            let ghost pre = found.deep_view();
            if matches_opt(&self.tasks[i], &filter) {
                found.push(self.tasks[i].clone());
                proof {
                    assert(found.deep_view() =~= pre.push(self@[i as int]));
                }
            }
            proof {
                lemma_filter_push(self@.subrange(0, i as int), self@[i as int], p);
                assert(self@.subrange(0, i + 1) =~= self@.subrange(0, i as int).push(
                    self@[i as int],
                ));
            }
            i += 1;
        }
        proof {
            assert(self@.subrange(0, n as int) =~= self@);
        }
        reversed(found)
    }

    /// Lists the direct children of `parent_id`, oldest-created first.
    pub fn get_direct_subtasks(&self, parent_id: &str) -> (r: Vec<Task>)
        ensures
            r.deep_view() == self@.filter(
                |m: TaskModel| m.parent_id == Some(parent_id@),
            ),
            unique_task_ids(self@) ==> unique_task_ids(r.deep_view()),
            forall|i: int|
                0 <= i < r.deep_view().len() ==> self@.contains(#[trigger] r.deep_view()[i]),
    {
        let ghost p = |m: TaskModel| m.parent_id == Some(parent_id@);
        let n = self.tasks.len();
        let mut found: Vec<Task> = Vec::new();
        let mut i: usize = 0;
        proof {
            assert(self@.subrange(0, 0) =~= Seq::<TaskModel>::empty());
            reveal(Seq::filter);
            assert(found.deep_view() =~= self@.subrange(0, 0).filter(p));
        }
        while i < n
            invariant
                n == self@.len(),
                n == self.tasks.len(),
                0 <= i <= n,
                found.deep_view() == self@.subrange(0, i as int).filter(p),
                p == (|m: TaskModel| m.parent_id == Some(parent_id@)),
            decreases n - i,
        {
            let ghost pre = found.deep_view();
            if opt_text_is(&self.tasks[i].parent_id, parent_id) {
                found.push(self.tasks[i].clone());
                proof {
                    assert(found.deep_view() =~= pre.push(self@[i as int]));
                }
            }
            proof {
                lemma_filter_push(self@.subrange(0, i as int), self@[i as int], p);
                assert(self@.subrange(0, i + 1) =~= self@.subrange(0, i as int).push(
                    self@[i as int],
                ));
            }
            i += 1;
        }
        proof {
            assert(self@.subrange(0, n as int) =~= self@);
            if unique_task_ids(self@) {
                lemma_filter_unique_task_ids(self@, p);
            }
            lemma_filter_contained(self@, p);
        }
        found
    }

    /// Lists the root tasks (no parent), newest-created first.
    pub fn get_root_tasks(&self) -> (r: Vec<Task>)
        ensures
            r.deep_view() == self@.filter(|m: TaskModel| m.parent_id is None).reverse(),
    {
        let ghost p = |m: TaskModel| m.parent_id is None;
        let n = self.tasks.len();
        let mut found: Vec<Task> = Vec::new();
        let mut i: usize = 0;
        proof {
            assert(self@.subrange(0, 0) =~= Seq::<TaskModel>::empty());
            reveal(Seq::filter);
            assert(found.deep_view() =~= self@.subrange(0, 0).filter(p));
        }
        while i < n
            invariant
                n == self@.len(),
                n == self.tasks.len(),
                0 <= i <= n,
                found.deep_view() == self@.subrange(0, i as int).filter(p),
                p == (|m: TaskModel| m.parent_id is None),
            decreases n - i,
        {
            let ghost pre = found.deep_view();
            if self.tasks[i].parent_id.is_none() {
                found.push(self.tasks[i].clone());
                proof {
                    assert(found.deep_view() =~= pre.push(self@[i as int]));
                }
            }
            proof {
                lemma_filter_push(self@.subrange(0, i as int), self@[i as int], p);
                assert(self@.subrange(0, i + 1) =~= self@.subrange(0, i as int).push(
                    self@[i as int],
                ));
            }
            i += 1;
        }
        proof {
            assert(self@.subrange(0, n as int) =~= self@);
        }
        reversed(found)
    }

    /// Lists the tasks whose parent reference is exactly `root`: the direct
    /// children of a task, or the root-level tasks when `root` is absent.
    pub(crate) fn children_of(&self, root: &Option<String>) -> (r: Vec<Task>)
        ensures
            r.deep_view() == self@.filter(
                |m: TaskModel| m.parent_id == root.deep_view(),
            ),
            unique_task_ids(self@) ==> unique_task_ids(r.deep_view()),
            forall|i: int|
                0 <= i < r.deep_view().len() ==> self@.contains(#[trigger] r.deep_view()[i]),
    {
        let ghost p = |m: TaskModel| m.parent_id == root.deep_view();
        let n = self.tasks.len();
        let mut found: Vec<Task> = Vec::new();
        let mut i: usize = 0;
        proof {
            assert(self@.subrange(0, 0) =~= Seq::<TaskModel>::empty());
            reveal(Seq::filter);
            assert(found.deep_view() =~= self@.subrange(0, 0).filter(p));
        }
        while i < n
            invariant
                n == self@.len(),
                n == self.tasks.len(),
                0 <= i <= n,
                found.deep_view() == self@.subrange(0, i as int).filter(p),
                p == (|m: TaskModel| m.parent_id == root.deep_view()),
            decreases n - i,
        {
            let ghost pre = found.deep_view();
            if opt_texts_eq(&self.tasks[i].parent_id, root) {
                found.push(self.tasks[i].clone());
                proof {
                    assert(found.deep_view() =~= pre.push(self@[i as int]));
                }
            }
            proof {
                lemma_filter_push(self@.subrange(0, i as int), self@[i as int], p);
                assert(self@.subrange(0, i + 1) =~= self@.subrange(0, i as int).push(
                    self@[i as int],
                ));
            }
            i += 1;
        }
        proof {
            assert(self@.subrange(0, n as int) =~= self@);
            if unique_task_ids(self@) {
                lemma_filter_unique_task_ids(self@, p);
            }
            lemma_filter_contained(self@, p);
        }
        found
    }

    /// Whether some stored task is a direct child of `task_id`.
    pub fn has_subtasks(&self, task_id: &str) -> (r: bool)
        ensures
            r == has_child(self@, task_id@),
    {
        let n = self.tasks.len();
        let mut i: usize = 0;
        while i < n
            invariant
                n == self@.len(),
                n == self.tasks.len(),
                0 <= i <= n,
                forall|k: int| 0 <= k < i ==> self@[k].parent_id != Some(task_id@),
            decreases n - i,
        {
            if opt_text_is(&self.tasks[i].parent_id, task_id) {
                proof {
                    assert(0 <= i < self@.len() && self@[i as int].parent_id == Some(task_id@));
                }
                return true;
            }
            i += 1;
        }
        false
    }
}

/// Whether a task passes an optional filter; no filter passes everything.
fn matches_opt(t: &Task, f: &Option<TaskFilter>) -> (r: bool)
    ensures
        r == matches_filter(t@, filter_of(*f)),
{
    match f {
        Some(x) => crate::task::task_matches(t, x),
        None => true,
    }
}

/// The same tasks in reverse order.
fn reversed(v: Vec<Task>) -> (r: Vec<Task>)
    ensures
        r.deep_view() == v.deep_view().reverse(),
{
    let n = v.len();
    let mut out: Vec<Task> = Vec::new();
    let mut i: usize = n;
    proof {
        assert(out.deep_view() =~= v.deep_view().subrange(n as int, n as int).reverse());
    }
    while i > 0
        invariant
            n == v.deep_view().len(),
            n == v@.len(),
            0 <= i <= n,
            out.deep_view() == v.deep_view().subrange(i as int, n as int).reverse(),
        decreases i,
    {
        let ghost pre = out.deep_view();
        i -= 1;
        out.push(v[i].clone());
        proof {
            assert(out.deep_view() =~= pre.push(v.deep_view()[i as int]));
            assert(out.deep_view() =~= v.deep_view().subrange(i as int, n as int).reverse());
        }
    }
    proof {
        assert(v.deep_view().subrange(0, n as int) =~= v.deep_view());
    }
    out
}

/// The category store.  Records stand in creation order; ids are unique.
pub struct CategoryRepository {
    categories: Vec<Category>,
}

impl View for CategoryRepository {
    type V = Seq<CategoryModel>;

    closed spec fn view(&self) -> Seq<CategoryModel> {
        self.categories.deep_view()
    }
}

/// Filtering keeps category ids unique.
pub proof fn lemma_filter_unique_category_ids(
    s: Seq<CategoryModel>,
    pred: spec_fn(CategoryModel) -> bool,
)
    requires
        unique_category_ids(s),
    ensures
        unique_category_ids(s.filter(pred)),
    decreases s.len(),
{
    reveal(Seq::filter);
    if s.len() > 0 {
        assert(unique_category_ids(s.drop_last())) by {
            assert(forall|i: int|
                0 <= i < s.drop_last().len() ==> s.drop_last()[i] == s[i]);
        }
        lemma_filter_unique_category_ids(s.drop_last(), pred);
        if pred(s.last()) {
            let sub = s.drop_last().filter(pred);
            lemma_filter_contained(s.drop_last(), pred);
            assert forall|i: int, j: int|
                0 <= i < j < s.filter(pred).len() implies s.filter(pred)[i].id != s.filter(
                pred,
            )[j].id by {
                if j == s.filter(pred).len() - 1 {
                    assert(s.drop_last().contains(sub[i]));
                    let w = choose|w: int|
                        0 <= w < s.drop_last().len() && s.drop_last()[w] == sub[i];
                    assert(s[w] == sub[i]);
                    assert(s[w].id != s[s.len() - 1].id);
                }
            }
        }
    }
}

impl CategoryRepository {
    /// The store's invariant: no two categories share an id.
    pub open spec fn wf(&self) -> bool {
        unique_category_ids(self@)
    }

    /// An empty category store.
    pub fn new() -> (r: Self)
        ensures
            r@ == Seq::<CategoryModel>::empty(),
            r.wf(),
    {
        let r = CategoryRepository { categories: Vec::new() };
        proof {
            assert(r@ =~= Seq::<CategoryModel>::empty());
        }
        r
    }

    /// The index of the stored category with this id, if any.
    fn position_of(&self, id: &str) -> (r: Option<usize>)
        ensures
            match r {
                Some(i) => i < self@.len() && self@[i as int].id == id@,
                None => !contains_category_id(self@, id@),
            },
    {
        let n = self.categories.len();
        let mut i: usize = 0;
        while i < n
            invariant
                n == self@.len(),
                n == self.categories.len(),
                0 <= i <= n,
                forall|k: int| 0 <= k < i ==> self@[k].id != id@,
            decreases n - i,
        {
            if str_eq(self.categories[i].id.as_str(), id) {
                return Some(i);
            }
            i += 1;
        }
        None
    }

    /// Inserts a category; an id collision is refused and leaves the store
    /// unchanged.
    pub fn create(&mut self, category: &Category) -> (r: Result<(), AppError>)
        requires
            old(self).wf(),
        ensures
            final(self).wf(),
            contains_category_id(old(self)@, category@.id) ==> r == Result::<(), AppError>::Err(
                AppError::DuplicateId,
            ) && final(self)@ == old(self)@,
            !contains_category_id(old(self)@, category@.id) ==> r == Result::<(), AppError>::Ok(
                (),
            ) && final(self)@ == old(self)@.push(category@),
    {
        match self.position_of(category.id.as_str()) {
            Some(_) => Err(AppError::DuplicateId),
            None => {
                self.categories.push(category.clone());
                proof {
                    assert(self@ =~= old(self)@.push(category@));
                }
                Ok(())
            },
        }
    }

    /// Looks a category up by id; `Some` exactly when the id is stored.
    pub fn get_by_id(&self, id: &str) -> (r: Option<Category>)
        requires
            self.wf(),
        ensures
            match r {
                Some(c) => contains_category_id(self@, id@) && c@ == category_of(self@, id@),
                None => !contains_category_id(self@, id@),
            },
    {
        match self.position_of(id) {
            Some(i) => {
                let c = self.categories[i].clone();
                proof {
                    assert(contains_category_id(self@, id@));
                    let j = category_index(self@, id@);
                    assert(0 <= j < self@.len() && self@[j].id == id@);
                    assert(j == i as int);
                }
                Some(c)
            },
            None => None,
        }
    }

    /// Lists all categories, sorted by name.
    pub fn get_all(&self) -> (r: Vec<Category>)
        ensures
            r.deep_view().to_multiset() == self@.to_multiset(),
            sorted_by_name(r.deep_view()),
    {
        let n = self.categories.len();
        let mut out: Vec<Category> = Vec::new();
        let mut i: usize = 0;
        proof {
            self@.subrange(0, 0).to_multiset_ensures();
            assert(self@.subrange(0, 0) =~= Seq::<CategoryModel>::empty());
            assert(out.deep_view() =~= Seq::<CategoryModel>::empty());
            assert(out.deep_view().to_multiset() =~= self@.subrange(0, 0).to_multiset());
        }
        while i < n
            invariant
                n == self@.len(),
                n == self.categories.len(),
                0 <= i <= n,
                out.deep_view().to_multiset() == self@.subrange(0, i as int).to_multiset(),
                sorted_by_name(out.deep_view()),
            decreases n - i,
        {
            let c = self.categories[i].clone();
            insert_sorted(&mut out, c);
            proof {
                let pre = self@.subrange(0, i as int);
                pre.to_multiset_ensures();
                assert(pre.push(self@[i as int]).to_multiset() =~= pre.to_multiset().insert(
                    self@[i as int],
                ));
                assert(self@.subrange(0, i + 1) =~= pre.push(self@[i as int]));
            }
            i += 1;
        }
        proof {
            assert(self@.subrange(0, n as int) =~= self@);
        }
        out
    }

    /// Overwrites the stored category that carries `category.id`, keeping the
    /// stored creation stamp; a missing id leaves the store unchanged.
    pub fn update(&mut self, category: &Category)
        requires
            old(self).wf(),
        ensures
            final(self).wf(),
            final(self)@ == replace_category_by_id(old(self)@, category@),
    {
        let n = self.categories.len();
        let mut i: usize = 0;
        while i < n
            invariant
                old(self).wf(),
                n == self@.len(),
                n == self.categories.len(),
                n == old(self)@.len(),
                0 <= i <= n,
                forall|k: int|
                    0 <= k < i ==> self@[k] == (if old(self)@[k].id == category@.id {
                        CategoryModel { created_at: old(self)@[k].created_at, ..category@ }
                    } else {
                        old(self)@[k]
                    }),
                forall|k: int| i <= k < n ==> self@[k] == old(self)@[k],
            decreases n - i,
        {
            let ghost pre = self@;
            if str_eq(self.categories[i].id.as_str(), category.id.as_str()) {
                let mut replacement = category.clone();
                replacement.created_at = self.categories[i].created_at;
                proof {
                    assert(replacement@ == CategoryModel {
                        created_at: pre[i as int].created_at,
                        ..category@
                    });
                }
                self.categories.set(i, replacement);
                proof {
                    assert(self@ =~= pre.update(
                        i as int,
                        CategoryModel { created_at: pre[i as int].created_at, ..category@ },
                    ));
                }
            }
            i += 1;
        }
        proof {
            assert(final(self)@ =~= replace_category_by_id(old(self)@, category@));
            assert forall|a: int, b: int|
                0 <= a < b < final(self)@.len() implies final(self)@[a].id
                != final(self)@[b].id by {
                assert(final(self)@[a].id == old(self)@[a].id);
                assert(final(self)@[b].id == old(self)@[b].id);
            }
        }
    }

    /// Removes every category that carries this id (at most one, by the
    /// invariant); referencing tasks are not touched by the store.
    pub fn delete(&mut self, id: &str)
        requires
            old(self).wf(),
        ensures
            final(self).wf(),
            final(self)@ == old(self)@.filter(|m: CategoryModel| m.id != id@),
    {
        let n = self.categories.len();
        let mut kept: Vec<Category> = Vec::new();
        let mut i: usize = 0;
        proof {
            assert(old(self)@.subrange(0, 0) =~= Seq::<CategoryModel>::empty());
            reveal(Seq::filter);
            assert(kept.deep_view() =~= old(self)@.subrange(0, 0).filter(
                |m: CategoryModel| m.id != id@,
            ));
        }
        while i < n
            invariant
                n == self@.len(),
                n == self.categories.len(),
                self@ == old(self)@,
                0 <= i <= n,
                kept.deep_view() == old(self)@.subrange(0, i as int).filter(
                    |m: CategoryModel| m.id != id@,
                ),
            decreases n - i,
        {
            let ghost pre = kept.deep_view();
            if !str_eq(self.categories[i].id.as_str(), id) {
                kept.push(self.categories[i].clone());
                proof {
                    assert(kept.deep_view() =~= pre.push(self@[i as int]));
                }
            }
            proof {
                lemma_filter_push(
                    old(self)@.subrange(0, i as int),
                    old(self)@[i as int],
                    |m: CategoryModel| m.id != id@,
                );
                assert(old(self)@.subrange(0, i + 1) =~= old(self)@.subrange(0, i as int).push(
                    old(self)@[i as int],
                ));
            }
            i += 1;
        }
        proof {
            assert(old(self)@.subrange(0, n as int) =~= old(self)@);
            lemma_filter_unique_category_ids(old(self)@, |m: CategoryModel| m.id != id@);
        }
        self.categories = kept;
    }

    /// Whether some stored category carries this name.
    pub fn has_name(&self, name: &str) -> (r: bool)
        ensures
            r == contains_category_name(self@, name@),
    {
        let n = self.categories.len();
        let mut i: usize = 0;
        while i < n
            invariant
                n == self@.len(),
                n == self.categories.len(),
                0 <= i <= n,
                forall|k: int| 0 <= k < i ==> self@[k].name != name@,
            decreases n - i,
        {
            if str_eq(self.categories[i].name.as_str(), name) {
                proof {
                    assert(self@[i as int].name == name@);
                }
                return true;
            }
            i += 1;
        }
        false
    }

    /// Whether the category at `i` is the id-first one of its name.
    fn is_survivor(&self, i: usize) -> (r: bool)
        requires
            i < self@.len(),
        ensures
            r == name_survivor(self@, self@[i as int]),
    {
        let n = self.categories.len();
        let mut j: usize = 0;
        while j < n
            invariant
                n == self@.len(),
                n == self.categories.len(),
                i < n,
                0 <= j <= n,
                forall|k: int|
                    0 <= k < j && (#[trigger] self@[k]).name == self@[i as int].name ==> lex_le(
                        self@[i as int].id,
                        self@[k].id,
                    ),
            decreases n - j,
        {
            if str_eq(self.categories[j].name.as_str(), self.categories[i].name.as_str()) {
                if !str_le(self.categories[i].id.as_str(), self.categories[j].id.as_str()) {
                    proof {
                        assert(self@[j as int].name == self@[i as int].name);
                        assert(!lex_le(self@[i as int].id, self@[j as int].id));
                        assert(!name_survivor(self@, self@[i as int]));
                    }
                    return false;
                }
            }
            j += 1;
        }
        true
    }

    /// Collapses duplicate names, keeping the id-first survivor per name.
    /// With names already unique this changes nothing.
    pub fn dedup_by_name(&mut self)
        requires
            old(self).wf(),
        ensures
            final(self).wf(),
            final(self)@ == dedup_categories(old(self)@),
            unique_category_names(final(self)@),
    {
        broadcast use vstd::seq_lib::group_filter_ensures;
        broadcast use lemma_filter_elem_of;

        let ghost s = old(self)@;
        let ghost p = |m: CategoryModel| name_survivor(s, m);
        let n = self.categories.len();
        let mut kept: Vec<Category> = Vec::new();
        let mut i: usize = 0;
        proof {
            assert(s.subrange(0, 0) =~= Seq::<CategoryModel>::empty());
            reveal(Seq::filter);
            assert(kept.deep_view() =~= s.subrange(0, 0).filter(p));
        }
        while i < n
            invariant
                n == self@.len(),
                n == self.categories.len(),
                self@ == s,
                0 <= i <= n,
                kept.deep_view() == s.subrange(0, i as int).filter(p),
                p == (|m: CategoryModel| name_survivor(s, m)),
            decreases n - i,
        {
            let ghost pre = kept.deep_view();
            if self.is_survivor(i) {
                kept.push(self.categories[i].clone());
                proof {
                    assert(kept.deep_view() =~= pre.push(s[i as int]));
                }
            }
            proof {
                lemma_filter_push(s.subrange(0, i as int), s[i as int], p);
                assert(s.subrange(0, i + 1) =~= s.subrange(0, i as int).push(s[i as int]));
            }
            i += 1;
        }
        proof {
            assert(s.subrange(0, n as int) =~= s);
            lemma_filter_unique_category_ids(s, p);
            // two surviving categories of one name would have to precede each
            // other by id, which forces the same id
            let out = s.filter(p);
            assert forall|a: int, b: int| 0 <= a < b < out.len() implies out[a].name
                != out[b].name by {
                if out[a].name == out[b].name {
                    assert(s.contains(out[a]));
                    assert(s.contains(out[b]));
                    let wa = choose|wa: int| 0 <= wa < s.len() && s[wa] == out[a];
                    let wb = choose|wb: int| 0 <= wb < s.len() && s[wb] == out[b];
                    assert(p(out[a]) && p(out[b]));
                    assert(lex_le(out[a].id, s[wb].id));
                    assert(lex_le(out[b].id, s[wa].id));
                    lemma_lex_antisym(out[a].id, out[b].id);
                }
            }
        }
        self.categories = kept;
    }
}

/// Inserts a category into a name-sorted list, keeping it sorted.
fn insert_sorted(out: &mut Vec<Category>, c: Category)
    requires
        sorted_by_name(old(out).deep_view()),
    ensures
        sorted_by_name(final(out).deep_view()),
        final(out).deep_view().to_multiset() == old(out).deep_view().to_multiset().insert(c@),
{
    let n = out.len();
    let mut pos: usize = 0;
    while pos < n && str_le(out[pos].name.as_str(), c.name.as_str())
        invariant
            n == out.deep_view().len(),
            n == out@.len(),
            *out == *old(out),
            0 <= pos <= n,
            forall|k: int| 0 <= k < pos ==> lex_le(out.deep_view()[k].name, c@.name),
        decreases n - pos,
    {
        pos += 1;
    }
    proof {
        if pos < n {
            lemma_lex_total(out.deep_view()[pos as int].name, c@.name);
            assert(lex_le(c@.name, out.deep_view()[pos as int].name));
        }
    }
    let ghost pre = out.deep_view();
    out.insert(pos, c);
    proof {
        assert(out.deep_view() =~= pre.insert(pos as int, c@));
        let cur = out.deep_view();
        assert forall|a: int, b: int| 0 <= a <= b < cur.len() implies lex_le(
            cur[a].name,
            cur[b].name,
        ) by {
            if a < pos && b == pos {
                assert(lex_le(pre[a].name, c@.name));
            } else if a == pos && b > pos {
                assert(cur[b] == pre[b - 1]);
                assert(lex_le(pre[pos as int].name, pre[b - 1].name));
                lemma_lex_trans(c@.name, pre[pos as int].name, pre[b - 1].name);
            } else if a < pos && b > pos {
                assert(cur[a] == pre[a] && cur[b] == pre[b - 1]);
            } else if a == pos && b == pos {
                lemma_lex_total(c@.name, c@.name);
            }
        }
        // multiset: split around the insertion point
        let left = pre.subrange(0, pos as int);
        let right = pre.subrange(pos as int, pre.len() as int);
        assert(pre =~= left + right);
        assert(cur =~= left + (seq![c@] + right));
        vstd::seq_lib::lemma_multiset_commutative(left, right);
        vstd::seq_lib::lemma_multiset_commutative(left, seq![c@] + right);
        vstd::seq_lib::lemma_multiset_commutative(seq![c@], right);
        assert(seq![c@].to_multiset() =~= Multiset::<CategoryModel>::empty().insert(c@)) by {
            seq![c@].to_multiset_ensures();
            assert(seq![c@] =~= Seq::<CategoryModel>::empty().push(c@));
            Seq::<CategoryModel>::empty().to_multiset_ensures();
        }
        assert(cur.to_multiset() =~= pre.to_multiset().insert(c@));
    }
}

} // verus!
