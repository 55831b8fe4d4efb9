use todo_core::commands::{create_task, get_tasks, search_tasks};
use todo_core::database::Database;
use todo_core::task::{CreateTaskRequest, Priority, TaskFilter};

fn fresh_db() -> Database {
    Database::in_memory(0).expect("fresh store")
}

fn request(title: &str) -> CreateTaskRequest {
    CreateTaskRequest {
        title: title.to_string(),
        description: None,
        priority: None,
        due_date: None,
        category_id: None,
        tags: None,
        parent_id: None,
    }
}

fn empty_task_filter() -> TaskFilter {
    TaskFilter {
        completed: None,
        priority: None,
        category_id: None,
        parent_id: None,
        search_query: None,
        due_before: None,
        due_after: None,
        no_category: None,
    }
}

#[test]
fn no_filter_returns_all_tasks_newest_first() {
    let mut db = fresh_db();
    let a = create_task(&mut db, request("first"), 1).unwrap();
    let b = create_task(&mut db, request("second"), 2).unwrap();
    let all = get_tasks(&db, None);
    assert_eq!(all.len(), 2);
    assert_eq!(all[0].id, b.id);
    assert_eq!(all[1].id, a.id);
}

#[test]
fn due_after_keeps_only_later_tasks() {
    let mut db = fresh_db();
    let mut early = request("early");
    early.due_date = Some("2025-01-10".to_string());
    create_task(&mut db, early, 1).unwrap();
    let mut late = request("late");
    late.due_date = Some("2025-01-20".to_string());
    let late_task = create_task(&mut db, late, 2).unwrap();

    let mut filter = empty_task_filter();
    filter.due_after = Some("2025-01-15".to_string());
    let hits = get_tasks(&db, Some(filter));
    assert_eq!(hits.len(), 1);
    assert_eq!(hits[0].id, late_task.id);
    assert_eq!(hits[0].title, "late");
}

#[test]
fn due_before_bare_date_reaches_end_of_day() {
    let mut db = fresh_db();
    let mut afternoon = request("afternoon");
    afternoon.due_date = Some("2025-01-10T14:00:00Z".to_string());
    create_task(&mut db, afternoon, 1).unwrap();

    let mut filter = empty_task_filter();
    filter.due_before = Some("2025-01-10".to_string());
    let hits = get_tasks(&db, Some(filter));
    assert_eq!(hits.len(), 1);
}

#[test]
fn due_filters_exclude_tasks_without_due_date() {
    let mut db = fresh_db();
    create_task(&mut db, request("no due date"), 1).unwrap();
    let mut filter = empty_task_filter();
    filter.due_before = Some("2030-01-01".to_string());
    assert!(get_tasks(&db, Some(filter)).is_empty());
}

#[test]
fn unparsable_due_bound_imposes_no_bound() {
    let mut db = fresh_db();
    create_task(&mut db, request("anything"), 1).unwrap();
    let mut filter = empty_task_filter();
    filter.due_after = Some("???".to_string());
    assert_eq!(get_tasks(&db, Some(filter)).len(), 1);
}

#[test]
fn search_is_case_insensitive_over_title_and_description() {
    let mut db = fresh_db();
    create_task(&mut db, request("Water the PLANTS"), 1).unwrap();
    let mut with_description = request("misc");
    with_description.description = Some("buy plant food".to_string());
    create_task(&mut db, with_description, 2).unwrap();
    create_task(&mut db, request("unrelated"), 3).unwrap();

    let hits = search_tasks(&db, "plant".to_string());
    assert_eq!(hits.len(), 2);

    let exact = search_tasks(&db, "PLANT".to_string());
    assert_eq!(exact.len(), 2);

    let none = search_tasks(&db, "garden".to_string());
    assert!(none.is_empty());
}

#[test]
fn completed_and_priority_filters_are_conjunctive() {
    let mut db = fresh_db();
    let mut high = request("urgent chore");
    high.priority = Some("High".to_string());
    let high_task = create_task(&mut db, high, 1).unwrap();
    let mut low = request("idle chore");
    low.priority = Some("Low".to_string());
    create_task(&mut db, low, 2).unwrap();

    let mut filter = empty_task_filter();
    filter.priority = Some(Priority::High);
    filter.completed = Some(false);
    let hits = get_tasks(&db, Some(filter));
    assert_eq!(hits.len(), 1);
    assert_eq!(hits[0].id, high_task.id);

    let mut done_filter = empty_task_filter();
    done_filter.priority = Some(Priority::High);
    done_filter.completed = Some(true);
    assert!(get_tasks(&db, Some(done_filter)).is_empty());
}

#[test]
fn no_category_filter_keeps_only_uncategorized() {
    let mut db = fresh_db();
    let mut categorized = request("filed");
    categorized.category_id = Some("cat-1".to_string());
    create_task(&mut db, categorized, 1).unwrap();
    let loose = create_task(&mut db, request("loose"), 2).unwrap();

    let mut filter = empty_task_filter();
    filter.no_category = Some(true);
    let hits = get_tasks(&db, Some(filter));
    assert_eq!(hits.len(), 1);
    assert_eq!(hits[0].id, loose.id);

    let mut off = empty_task_filter();
    off.no_category = Some(false);
    assert_eq!(get_tasks(&db, Some(off)).len(), 2);
}

#[test]
fn no_category_overrides_a_present_category_filter() {
    let mut db = fresh_db();
    let mut categorized = request("filed");
    categorized.category_id = Some("cat-1".to_string());
    create_task(&mut db, categorized, 1).unwrap();
    let loose = create_task(&mut db, request("loose"), 2).unwrap();

    // with both set, the null-category condition wins: the match is the
    // uncategorized task, not the empty list
    let mut filter = empty_task_filter();
    filter.no_category = Some(true);
    filter.category_id = Some("cat-1".to_string());
    let hits = get_tasks(&db, Some(filter));
    assert_eq!(hits.len(), 1);
    assert_eq!(hits[0].id, loose.id);
}

#[test]
fn category_filter_matches_exactly() {
    let mut db = fresh_db();
    let mut one = request("one");
    one.category_id = Some("cat-1".to_string());
    create_task(&mut db, one, 1).unwrap();
    let mut other = request("other");
    other.category_id = Some("cat-2".to_string());
    create_task(&mut db, other, 2).unwrap();

    let mut filter = empty_task_filter();
    filter.category_id = Some("cat-1".to_string());
    let hits = get_tasks(&db, Some(filter));
    assert_eq!(hits.len(), 1);
    assert_eq!(hits[0].title, "one");
}
