//! The task entity: priorities, the stored record, the request shapes that
//! create and update it, and the filter that selects tasks from the store.
//!
//! Every exec type has a mathematical model (`TaskModel`, `UpdateModel`,
//! `FilterModel`) that the contracts of the store speak about.

use vstd::prelude::*;

use crate::dates::{
    end_of_day_suffix, parse_due_end_of_day, parse_due_start_of_day, resolve_due_opt,
    resolve_due_text, start_of_day_suffix,
};
use crate::ids::fresh_id;
use crate::text::{contains_insensitive, opt_text_is, str_contains_insensitive, str_eq};

verus! {

/// How urgent a task is.  Unrecognized priority texts fall back to `Medium`.
#[derive(Clone, Copy, PartialEq, Eq, Structural, Debug)]
pub enum Priority {
    Low,
    Medium,
    High,
}

/// The priority that a priority text denotes: only the exact texts "Low" and
/// "High" select those levels; every other text means `Medium`.
pub open spec fn priority_from_text(s: Seq<char>) -> Priority {
    if s == "Low"@ {
        Priority::Low
    } else if s == "High"@ {
        Priority::High
    } else {
        Priority::Medium
    }
}

/// The canonical text of a priority, as persisted.
pub open spec fn priority_text(p: Priority) -> Seq<char> {
    match p {
        Priority::Low => "Low"@,
        Priority::Medium => "Medium"@,
        Priority::High => "High"@,
    }
}

impl Default for Priority {
    /// The default priority is `Medium`.
    fn default() -> (r: Self)
        ensures
            r == Priority::Medium,
    {
        Priority::Medium
    }
}

impl Priority {
    /// Reads a priority from its text; anything unrecognized is `Medium`.
    pub fn from_string(s: &str) -> (r: Self)
        ensures
            r == priority_from_text(s@),
    {
        if str_eq(s, "Low") {
            Priority::Low
        } else if str_eq(s, "High") {
            Priority::High
        } else {
            Priority::Medium
        }
    }

    /// The canonical text of this priority.
    pub fn to_string(&self) -> (r: String)
        ensures
            r@ == priority_text(*self),
    {
        match self {
            Priority::Low => "Low".to_owned(),
            Priority::Medium => "Medium".to_owned(),
            Priority::High => "High".to_owned(),
        }
    }
}

/// The mathematical model of a stored task.  Texts are character sequences;
/// instants (due date and the two stamps) are whole seconds since the Unix
/// epoch, UTC.
pub struct TaskModel {
    pub id: Seq<char>,
    pub title: Seq<char>,
    pub description: Option<Seq<char>>,
    pub completed: bool,
    pub priority: Priority,
    pub due_date: Option<i64>,
    pub category_id: Option<Seq<char>>,
    pub tags: Seq<Seq<char>>,
    pub parent_id: Option<Seq<char>>,
    pub created_at: i64,
    pub updated_at: i64,
}

/// A task as stored: a to-do item that may sit under a parent task.
pub struct Task {
    pub id: String,
    pub title: String,
    pub description: Option<String>,
    pub completed: bool,
    pub priority: Priority,
    pub due_date: Option<i64>,
    pub category_id: Option<String>,
    pub tags: Vec<String>,
    pub parent_id: Option<String>,
    pub created_at: i64,
    pub updated_at: i64,
}

impl View for Task {
    type V = TaskModel;

    open spec fn view(&self) -> TaskModel {
        TaskModel {
            id: self.id@,
            title: self.title@,
            description: self.description.deep_view(),
            completed: self.completed,
            priority: self.priority,
            due_date: self.due_date,
            category_id: self.category_id.deep_view(),
            tags: self.tags.deep_view(),
            parent_id: self.parent_id.deep_view(),
            created_at: self.created_at,
            updated_at: self.updated_at,
        }
    }
}

impl DeepView for Task {
    type V = TaskModel;

    open spec fn deep_view(&self) -> TaskModel {
        self.view()
    }
}

impl Clone for Task {
    /// A clone denotes the same task record.
    fn clone(&self) -> (res: Self)
        ensures
            res@ == self@,
    {
        Task {
            id: self.id.clone(),
            title: self.title.clone(),
            description: self.description.clone(),
            completed: self.completed,
            priority: self.priority,
            due_date: self.due_date,
            category_id: self.category_id.clone(),
            tags: self.tags.clone(),
            parent_id: self.parent_id.clone(),
            created_at: self.created_at,
            updated_at: self.updated_at,
        }
    }
}

/// What a caller supplies to create a task.  Only the title is required;
/// priority and due date arrive as raw texts and are coerced, never rejected.
pub struct CreateTaskRequest {
    pub title: String,
    pub description: Option<String>,
    pub priority: Option<String>,
    pub due_date: Option<String>,
    pub category_id: Option<String>,
    pub tags: Option<Vec<String>>,
    pub parent_id: Option<String>,
}

/// The priority a creation request selects: absent means the default.
pub open spec fn requested_priority(p: Option<Seq<char>>) -> Priority {
    match p {
        Option::None => Priority::Medium,
        Option::Some(s) => priority_from_text(s),
    }
}

/// The tag list a creation request selects: absent means empty.
pub open spec fn requested_tags(t: Option<Seq<Seq<char>>>) -> Seq<Seq<char>> {
    match t {
        Option::None => Seq::empty(),
        Option::Some(v) => v,
    }
}

/// The task a creation request denotes, given the generated id and the
/// current instant.  Both stamps start at that instant and the task starts
/// incomplete.
pub open spec fn created_task(
    request: CreateTaskRequest,
    id: Seq<char>,
    now: i64,
) -> TaskModel {
    TaskModel {
        id: id,
        title: request.title@,
        description: request.description.deep_view(),
        completed: false,
        priority: requested_priority(request.priority.deep_view()),
        due_date: resolve_due_opt(request.due_date.deep_view(), start_of_day_suffix()),
        category_id: request.category_id.deep_view(),
        tags: requested_tags(request.tags.deep_view()),
        parent_id: request.parent_id.deep_view(),
        created_at: now,
        updated_at: now,
    }
}

/// A partial update: present fields overwrite, absent fields are untouched.
/// The due date arrives already parsed here, unlike at creation.
pub struct UpdateTaskRequest {
    pub title: Option<String>,
    pub description: Option<String>,
    pub completed: Option<bool>,
    pub priority: Option<Priority>,
    pub due_date: Option<i64>,
    pub category_id: Option<String>,
    pub tags: Option<Vec<String>>,
    pub parent_id: Option<String>,
}

/// The model of a partial update.
pub struct UpdateModel {
    pub title: Option<Seq<char>>,
    pub description: Option<Seq<char>>,
    pub completed: Option<bool>,
    pub priority: Option<Priority>,
    pub due_date: Option<i64>,
    pub category_id: Option<Seq<char>>,
    pub tags: Option<Seq<Seq<char>>>,
    pub parent_id: Option<Seq<char>>,
}

impl View for UpdateTaskRequest {
    type V = UpdateModel;

    open spec fn view(&self) -> UpdateModel {
        UpdateModel {
            title: self.title.deep_view(),
            description: self.description.deep_view(),
            completed: self.completed,
            priority: self.priority,
            due_date: self.due_date,
            category_id: self.category_id.deep_view(),
            tags: self.tags.deep_view(),
            parent_id: self.parent_id.deep_view(),
        }
    }
}

/// The task that a partial update turns `m` into at instant `now`: every
/// present field overwrites, the optional fields can be set but never
/// cleared, and `updated_at` is refreshed unconditionally.
pub open spec fn updated_task(m: TaskModel, r: UpdateModel, now: i64) -> TaskModel {
    TaskModel {
        id: m.id,
        title: if r.title is Some { r.title->Some_0 } else { m.title },
        description: if r.description is Some { r.description } else { m.description },
        completed: if r.completed is Some { r.completed->Some_0 } else { m.completed },
        priority: if r.priority is Some { r.priority->Some_0 } else { m.priority },
        due_date: if r.due_date is Some { r.due_date } else { m.due_date },
        category_id: if r.category_id is Some { r.category_id } else { m.category_id },
        tags: if r.tags is Some { r.tags->Some_0 } else { m.tags },
        parent_id: if r.parent_id is Some { r.parent_id } else { m.parent_id },
        created_at: m.created_at,
        updated_at: now,
    }
}

/// The requested tag list, or a fresh empty one.
fn tags_or_empty(t: Option<Vec<String>>) -> (r: Vec<String>)
    ensures
        r.deep_view() == requested_tags(t.deep_view()),
{
    match t {
        Some(v) => v,
        None => {
            let v: Vec<String> = Vec::new();
            proof {
                assert(v.deep_view() =~= Seq::<Seq<char>>::empty());
            }
            v
        },
    }
}

impl Task {
    /// Builds a fully-populated task from a creation request: a fresh id is
    /// drawn, raw priority and due-date texts are coerced, and both stamps
    /// are set to `now`.  The id is random, so the caller checks freshness
    /// against the store.
    pub fn new(request: CreateTaskRequest, now: i64) -> (t: Task)
        ensures
            t@ == created_task(request, t@.id, now),
            t@.id.len() == 36,
    {
        let id = fresh_id();
        let priority = match &request.priority {
            Some(p) => Priority::from_string(p.as_str()),
            None => Priority::Medium,
        };
        let due_date = match &request.due_date {
            Some(d) => parse_due_start_of_day(d.as_str()),
            None => None,
        };
        let tags = tags_or_empty(request.tags);
        Task {
            id,
            title: request.title,
            description: request.description,
            completed: false,
            priority,
            due_date,
            category_id: request.category_id,
            tags,
            parent_id: request.parent_id,
            created_at: now,
            updated_at: now,
        }
    }

    /// Applies a partial update in place; `updated_at` is refreshed even when
    /// no field changed.
    pub fn update(&mut self, request: UpdateTaskRequest, now: i64)
        ensures
            final(self)@ == updated_task(old(self)@, request@, now),
    {
        if let Some(title) = request.title {
            self.title = title;
        }
        if let Some(description) = request.description {
            self.description = Some(description);
        }
        if let Some(completed) = request.completed {
            self.completed = completed;
        }
        if let Some(priority) = request.priority {
            self.priority = priority;
        }
        if let Some(due_date) = request.due_date {
            self.due_date = Some(due_date);
        }
        if let Some(category_id) = request.category_id {
            self.category_id = Some(category_id);
        }
        if let Some(tags) = request.tags {
            self.tags = tags;
        }
        if let Some(parent_id) = request.parent_id {
            self.parent_id = Some(parent_id);
        }
        self.updated_at = now;
    }
}

/// The filter of a task listing.  All present fields must hold at once; due
/// bounds arrive as raw texts and follow the same two accepted forms as
/// creation, with a bare `due_before` date reaching to the end of its day and
/// a bare `due_after` date starting at its beginning.
pub struct TaskFilter {
    pub completed: Option<bool>,
    pub priority: Option<Priority>,
    pub category_id: Option<String>,
    pub parent_id: Option<String>,
    pub search_query: Option<String>,
    pub due_before: Option<String>,
    pub due_after: Option<String>,
    pub no_category: Option<bool>,
}

/// The model of a filter.
pub struct FilterModel {
    pub completed: Option<bool>,
    pub priority: Option<Priority>,
    pub category_id: Option<Seq<char>>,
    pub parent_id: Option<Seq<char>>,
    pub search_query: Option<Seq<char>>,
    pub due_before: Option<Seq<char>>,
    pub due_after: Option<Seq<char>>,
    pub no_category: Option<bool>,
}

impl View for TaskFilter {
    type V = FilterModel;

    open spec fn view(&self) -> FilterModel {
        FilterModel {
            completed: self.completed,
            priority: self.priority,
            category_id: self.category_id.deep_view(),
            parent_id: self.parent_id.deep_view(),
            search_query: self.search_query.deep_view(),
            due_before: self.due_before.deep_view(),
            due_after: self.due_after.deep_view(),
            no_category: self.no_category,
        }
    }
}

/// The filter that selects everything.
pub open spec fn empty_filter() -> FilterModel {
    FilterModel {
        completed: None,
        priority: None,
        category_id: None,
        parent_id: None,
        search_query: None,
        due_before: None,
        due_after: None,
        no_category: None,
    }
}

/// The filter an optional argument denotes: absent means no restriction.
pub open spec fn filter_of(f: Option<TaskFilter>) -> FilterModel {
    match f {
        Option::None => empty_filter(),
        Option::Some(x) => x@,
    }
}

/// The search condition: a case-insensitive substring of the title or of the
/// description; a task without a description matches on its title alone.
pub open spec fn search_matches(m: TaskModel, q: Seq<char>) -> bool {
    ||| contains_insensitive(m.title, q)
    ||| (m.description is Some && contains_insensitive(m.description->Some_0, q))
}

/// Whether a task passes a filter: every present field must hold.  A true
/// `no_category` overrides `category_id` and selects exactly the tasks
/// without a category; an unparsable or empty due-bound text imposes no
/// bound, and a present due bound only ever matches tasks that have a due
/// date.
pub open spec fn matches_filter(m: TaskModel, f: FilterModel) -> bool {
    &&& (f.completed matches Some(c) ==> m.completed == c)
    &&& (f.priority matches Some(p) ==> m.priority == p)
    &&& if f.no_category == Some(true) {
        m.category_id is None
    } else {
        f.category_id matches Some(cid) ==> m.category_id == Some(cid)
    }
    &&& (f.parent_id matches Some(pid) ==> m.parent_id == Some(pid))
    &&& (f.search_query matches Some(q) ==> search_matches(m, q))
    &&& (resolve_due_opt(f.due_before, end_of_day_suffix()) matches Some(b) ==> m.due_date
        is Some && m.due_date->Some_0 <= b)
    &&& (resolve_due_opt(f.due_after, start_of_day_suffix()) matches Some(a) ==> m.due_date
        is Some && m.due_date->Some_0 >= a)
}

impl TaskFilter {
    /// The inclusive upper due bound this filter imposes, if any; a bare date
    /// reaches to the end of its day.
    pub fn parse_due_before(&self) -> (r: Option<i64>)
        ensures
            r == resolve_due_opt(self@.due_before, end_of_day_suffix()),
    {
        match &self.due_before {
            Some(d) => parse_due_end_of_day(d.as_str()),
            None => None,
        }
    }

    /// The inclusive lower due bound this filter imposes, if any; a bare date
    /// starts at the beginning of its day.
    pub fn parse_due_after(&self) -> (r: Option<i64>)
        ensures
            r == resolve_due_opt(self@.due_after, start_of_day_suffix()),
    {
        match &self.due_after {
            Some(d) => parse_due_start_of_day(d.as_str()),
            None => None,
        }
    }
}

/// Decides `matches_filter` for one task.
pub fn task_matches(t: &Task, f: &TaskFilter) -> (r: bool)
    ensures
        r == matches_filter(t@, f@),
{
    if let Some(c) = f.completed {
        if t.completed != c {
            return false;
        }
    }
    if let Some(p) = f.priority {
        if t.priority != p {
            return false;
        }
    }
    let null_category_only = match f.no_category {
        Some(nc) => nc,
        None => false,
    };
    if null_category_only {
        if t.category_id.is_some() {
            return false;
        }
    } else {
        if let Some(cid) = &f.category_id {
            if !opt_text_is(&t.category_id, cid.as_str()) {
                return false;
            }
        }
    }
    if let Some(pid) = &f.parent_id {
        if !opt_text_is(&t.parent_id, pid.as_str()) {
            return false;
        }
    }
    if let Some(q) = &f.search_query {
        let in_title = str_contains_insensitive(t.title.as_str(), q.as_str());
        let in_description = match &t.description {
            Some(d) => str_contains_insensitive(d.as_str(), q.as_str()),
            None => false,
        };
        if !in_title && !in_description {
            return false;
        }
    }
    if let Some(b) = f.parse_due_before() {
        match t.due_date {
            Some(d) => {
                if d > b {
                    return false;
                }
            },
            None => {
                return false;
            },
        }
    }
    if let Some(a) = f.parse_due_after() {
        match t.due_date {
            Some(d) => {
                if d < a {
                    return false;
                }
            },
            None => {
                return false;
            },
        }
    }
    true
}

} // verus!
